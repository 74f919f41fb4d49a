//! Incremental HTTP/1.1 decoding of both directions of a connection.
use vstd::prelude::*;
use crate::bytes::{copy_range, extend_bytes};
use crate::http::{
    frame_error, frame_matches, frame_within, head_error, head_error_kind, malformed, normalize_headers,
    normalized, parse_request, partial_or_limit, partial_frame, request_frame, strings_view, warning_for,
    warning_for_error, warning_for_reason, warning_text, FrameResult, FrameView, HeadStatus,
    HeadStatusView, MessageKindV1, MessageV1, MessageView, WarningCode, httparse_response,
    parse_response_head, has_header,
};
use crate::protocol::{Direction, MalformedReason, ProtocolError};
use crate::response::{
    framed_response, parse_response, response_frame, response_head_error, unsupported_header,
};
use crate::text::str_copy;

verus! {

/// Framing of a response whose body runs to the end of the connection,
/// once the connection is known to have closed cleanly: bodies with a
/// length rule are framed as usual, the rest take all remaining bytes.
pub open spec fn close_delimited_frame(bytes: Seq<u8>, sequence: u64, head_response: bool) -> FrameView {
    let h = httparse_response(bytes);
    match h.status {
        HeadStatusView::Invalid(m) => FrameView::Failed(MalformedReason::Head(head_error_kind(m))),
        HeadStatusView::Partial => partial_frame(bytes),
        HeadStatusView::Complete(n) => {
            let hs = normalized(h.headers);
            if response_head_error(h) is Some {
                FrameView::Failed(response_head_error(h)->0)
            } else if unsupported_header(hs) is Some {
                FrameView::Failed(unsupported_header(hs)->0)
            } else if head_response || h.code->0 == 204 || h.code->0 == 304
                || crate::http::any_named(hs, "content-length"@) {
                response_frame(bytes, sequence, head_response)
            } else {
                framed_response(bytes.len() as int, sequence, h, bytes.subrange(n as int, bytes.len() as int))
            }
        },
    }
}

/// Frames the last response of a cleanly closed connection.
pub fn parse_close_delimited_response(bytes: &[u8], sequence: u64, head_response: bool) -> (r: FrameResult)
    ensures
        frame_matches(r, close_delimited_frame(bytes@, sequence, head_response)),
        frame_within(bytes@, r),
{
    let head = parse_response_head(bytes);
    let head_bytes = match &head.status {
        HeadStatus::Invalid(m) => return Err(malformed(MalformedReason::Head(head_error(m)))),
        HeadStatus::Partial => return partial_or_limit(bytes),
        HeadStatus::Complete(n) => *n,
    };
    if head.version != Some(1u8) {
        return Err(malformed(MalformedReason::UnsupportedResponseVersion));
    }
    let status = match head.code {
        Some(c) => c,
        None => return Err(malformed(MalformedReason::MissingStatus)),
    };
    if 100 <= status && status < 200 {
        return Err(malformed(MalformedReason::Informational));
    }
    let headers = normalize_headers(&head.headers)?;
    crate::http::reject_unsupported_headers(headers.as_slice())?;
    if head_response || status == 204 || status == 304 || has_header(headers.as_slice(), "content-length") {
        return parse_response(bytes, sequence, head_response);
    }
    let body = copy_range(bytes, head_bytes, bytes.len());
    let message = MessageV1 {
        kind: MessageKindV1::Response,
        sequence,
        method: None,
        target: None,
        status: Some(status),
        reason: head.reason,
        headers,
        body,
        pipeline_depth: 0,
        orphan_response: false,
        warnings: Vec::new(),
    };
    proof {
        assert(strings_view(message.warnings@) =~= Seq::<Seq<char>>::empty());
    }
    Ok(Some((bytes.len(), message)))
}

/// Framing of one message in the given direction.
pub open spec fn message_frame(bytes: Seq<u8>, direction: Direction, sequence: u64, head_response: bool) -> FrameView {
    match direction {
        Direction::ClientToServer => request_frame(bytes, sequence),
        Direction::ServerToClient => response_frame(bytes, sequence, head_response),
    }
}

/// Frames one request or response, by direction.
pub fn parse_message(bytes: &[u8], direction: Direction, sequence: u64, head_response: bool) -> (r: FrameResult)
    ensures
        frame_matches(r, message_frame(bytes@, direction, sequence, head_response)),
        frame_within(bytes@, r),
{
    match direction {
        Direction::ClientToServer => parse_request(bytes, sequence),
        Direction::ServerToClient => parse_response(bytes, sequence, head_response),
    }
}


/// The bytes of one direction not yet framed, and the sequence number of
/// the capture chunk they start in.
pub struct DirectionBuffer {
    bytes: Vec<u8>,
    start_sequence: Option<u64>,
}

pub struct BufferView {
    pub bytes: Seq<u8>,
    pub start: Option<u64>,
}

impl View for DirectionBuffer {
    type V = BufferView;

    closed spec fn view(&self) -> BufferView {
        BufferView { bytes: self.bytes@, start: self.start_sequence }
    }
}

pub open spec fn start_or_zero(start: Option<u64>) -> u64 {
    match start {
        Some(s) => s,
        None => 0,
    }
}

/// The buffer after a chunk is appended; an empty buffer starts at it.
pub open spec fn pushed(buf: BufferView, sequence: u64, payload: Seq<u8>) -> BufferView {
    BufferView {
        bytes: buf.bytes + payload,
        start: if buf.bytes.len() == 0 { Some(sequence) } else { buf.start },
    }
}

/// Unframed bytes kept as one opaque message with a warning.
pub open spec fn opaque_message(buf: BufferView, w: WarningCode) -> MessageView {
    MessageView {
        kind: MessageKindV1::Opaque,
        sequence: start_or_zero(buf.start),
        method: None,
        target: None,
        status: None,
        reason: None,
        headers: Seq::empty(),
        body: buf.bytes,
        pipeline_depth: 0,
        orphan_response: false,
        warnings: seq![warning_text(w)],
    }
}

/// Taking the buffer's bytes as an opaque message, where there are any.
pub open spec fn take_opaque_spec(buf: BufferView, w: WarningCode) -> (Option<MessageView>, BufferView) {
    if buf.bytes.len() == 0 {
        (None, buf)
    } else {
        (Some(opaque_message(buf, w)), BufferView { bytes: Seq::empty(), start: buf.start })
    }
}

/// One decoding step: the next message, if one is complete, and the buffer
/// after it. Bytes that cannot be framed become one opaque message.
pub open spec fn decode_step(buf: BufferView, direction: Direction, head_response: bool) -> (Option<MessageView>, BufferView) {
    let sequence = start_or_zero(buf.start);
    match message_frame(buf.bytes, direction, sequence, head_response) {
        FrameView::Framed(n, m) => (
            Some(m),
            BufferView {
                bytes: buf.bytes.subrange(n, buf.bytes.len() as int),
                start: if n < buf.bytes.len() { Some(sequence) } else { None },
            },
        ),
        FrameView::NeedMore => (None, buf),
        FrameView::Failed(reason) => take_opaque_spec(buf, warning_for_reason(reason)),
    }
}

impl DirectionBuffer {
    pub fn new() -> (b: Self)
        ensures
            b@.bytes == Seq::<u8>::empty(),
            b@.start is None,
    {
        DirectionBuffer { bytes: Vec::new(), start_sequence: None }
    }

    pub fn push(&mut self, sequence: u64, payload: &[u8])
        ensures
            final(self)@ == pushed(old(self)@, sequence, payload@),
    {
        if self.bytes.len() == 0 {
            self.start_sequence = Some(sequence);
        }
        extend_bytes(&mut self.bytes, payload);
    }

    pub fn take_opaque(&mut self, warning: WarningCode) -> (m: Option<MessageV1>)
        ensures
            (opt_message_view(m), final(self)@) == take_opaque_spec(old(self)@, warning),
    {
        if self.bytes.len() == 0 {
            return None;
        }
        let mut body: Vec<u8> = Vec::new();
        std::mem::swap(&mut body, &mut self.bytes);
        let mut warnings: Vec<String> = Vec::new();
        warnings.push(str_copy(warning.as_str()));
        let sequence = match self.start_sequence {
            Some(s) => s,
            None => 0,
        };
        let message = MessageV1 {
            kind: MessageKindV1::Opaque,
            sequence,
            method: None,
            target: None,
            status: None,
            reason: None,
            headers: Vec::new(),
            body,
            pipeline_depth: 0,
            orphan_response: false,
            warnings,
        };
        proof {
            assert(strings_view(message.warnings@) =~= seq![warning_text(warning)]);
            assert(crate::http::headers_view(message.headers@) =~= Seq::empty());
        }
        Some(message)
    }

    pub fn decode_one(&mut self, direction: Direction, head_response: bool) -> (m: Option<MessageV1>)
        ensures
            (opt_message_view(m), final(self)@) == decode_step(old(self)@, direction, head_response),
            m is Some ==> final(self)@.bytes.len() < old(self)@.bytes.len(),
    {
        let sequence = match self.start_sequence {
            Some(s) => s,
            None => 0,
        };
        match parse_message(self.bytes.as_slice(), direction, sequence, head_response) {
            Ok(Some((consumed, message))) => {
                let rest = copy_range(self.bytes.as_slice(), consumed, self.bytes.len());
                self.bytes = rest;
                self.start_sequence = if self.bytes.len() > 0 { Some(sequence) } else { None };
                Some(message)
            },
            Ok(None) => None,
            Err(error) => {
                let w = warning_for(&error);
                self.take_opaque(w)
            },
        }
    }

    /// Whether no bytes are buffered.
    pub fn is_empty(&self) -> (r: bool)
        ensures
            r == (self@.bytes.len() == 0),
    {
        self.bytes.len() == 0
    }
}

pub open spec fn opt_message_view(m: Option<MessageV1>) -> Option<MessageView> {
    match m {
        Some(x) => Some(x@),
        None => None,
    }
}

pub open spec fn messages_view(ms: Seq<MessageV1>) -> Seq<MessageView> {
    ms.map_values(|m: MessageV1| m@)
}

/// Decoding client bytes until no complete request remains.
pub open spec fn decode_client(buf: BufferView) -> (Seq<MessageView>, BufferView)
    decreases buf.bytes.len(),
{
    let (m, next) = decode_step(buf, Direction::ClientToServer, false);
    match m {
        None => (Seq::empty(), next),
        Some(msg) => if next.bytes.len() < buf.bytes.len() {
            let (rest, fin) = decode_client(next);
            (seq![msg] + rest, fin)
        } else {
            (seq![msg], next)
        },
    }
}

/// Each request's method joins the queue of requests awaiting a response,
/// and the request records the queue's length.
pub open spec fn enqueue_methods(msgs: Seq<MessageView>, pending: Seq<Seq<char>>) -> (Seq<MessageView>, Seq<Seq<char>>)
    decreases msgs.len(),
{
    if msgs.len() == 0 {
        (msgs, pending)
    } else {
        let m = msgs[0];
        let (m2, p2) = match m.method {
            Some(method) => (MessageView { pipeline_depth: (pending.len() + 1) as usize, ..m }, pending.push(method)),
            None => (m, pending),
        };
        let (rest, p3) = enqueue_methods(msgs.drop_first(), p2);
        (seq![m2] + rest, p3)
    }
}

/// Whether the oldest request awaiting a response is `HEAD`.
pub open spec fn head_pending(pending: Seq<Seq<char>>) -> bool {
    pending.len() > 0 && pending[0] == "HEAD"@
}

/// A response is paired with the oldest request awaiting one: it records
/// the queue's length, and is an orphan when the queue is empty.
pub open spec fn pair_response(msg: MessageView, pending: Seq<Seq<char>>) -> (MessageView, Seq<Seq<char>>) {
    if msg.kind == MessageKindV1::Response {
        (
            MessageView { pipeline_depth: pending.len() as usize, orphan_response: pending.len() == 0, ..msg },
            if pending.len() > 0 { pending.drop_first() } else { pending },
        )
    } else {
        (msg, pending)
    }
}

/// Decoding server bytes until no complete response remains, each
/// response framed by the rule of the request it answers.
pub open spec fn decode_server(buf: BufferView, pending: Seq<Seq<char>>) -> (Seq<MessageView>, BufferView, Seq<Seq<char>>)
    decreases buf.bytes.len(),
{
    let (m, next) = decode_step(buf, Direction::ServerToClient, head_pending(pending));
    match m {
        None => (Seq::empty(), next, pending),
        Some(msg) => {
            let (msg2, p2) = pair_response(msg, pending);
            if next.bytes.len() < buf.bytes.len() {
                let (rest, fin, p3) = decode_server(next, p2);
                (seq![msg2] + rest, fin, p3)
            } else {
                (seq![msg2], next, p2)
            }
        },
    }
}

/// The state of an HTTP/1.1 decoder: both directions' unframed bytes and the
/// methods of requests still awaiting a response, oldest first.
pub struct Decoder {
    client: DirectionBuffer,
    server: DirectionBuffer,
    pending_methods: std::collections::VecDeque<String>,
}

pub struct DecoderView {
    pub client: BufferView,
    pub server: BufferView,
    pub pending: Seq<Seq<char>>,
}

impl View for Decoder {
    type V = DecoderView;

    closed spec fn view(&self) -> DecoderView {
        DecoderView {
            client: self.client@,
            server: self.server@,
            pending: self.pending_methods@.map_values(|m: String| m@),
        }
    }
}

/// What pushing a chunk does to a decoder, and the messages it completes.
pub open spec fn decoder_push(d: DecoderView, direction: Direction, sequence: u64, payload: Seq<u8>) -> (DecoderView, Seq<MessageView>) {
    match direction {
        Direction::ClientToServer => {
            let (msgs, buf) = decode_client(pushed(d.client, sequence, payload));
            let (msgs2, pending) = enqueue_methods(msgs, d.pending);
            (DecoderView { client: buf, pending, ..d }, msgs2)
        },
        Direction::ServerToClient => {
            let (msgs, buf, pending) = decode_server(pushed(d.server, sequence, payload), d.pending);
            (DecoderView { server: buf, pending, ..d }, msgs)
        },
    }
}

pub open spec fn opt_seq(m: Option<MessageView>) -> Seq<MessageView> {
    match m {
        Some(x) => seq![x],
        None => Seq::empty(),
    }
}

/// At the end of input, what remains of each direction is kept as a
/// truncated opaque message, client side first.
pub open spec fn decoder_finish(d: DecoderView) -> (DecoderView, Seq<(Direction, MessageView)>) {
    let (c, cb) = take_opaque_spec(d.client, WarningCode::TruncatedMessage);
    let (s, sb) = take_opaque_spec(d.server, WarningCode::TruncatedMessage);
    (
        DecoderView { client: cb, server: sb, ..d },
        opt_seq(c).map_values(|m: MessageView| (Direction::ClientToServer, m))
            + opt_seq(s).map_values(|m: MessageView| (Direction::ServerToClient, m)),
    )
}

pub open spec fn pending_view(p: Seq<String>) -> Seq<Seq<char>> {
    p.map_values(|m: String| m@)
}

impl DirectionBuffer {
    /// Decodes requests until none is complete.
    pub fn decode_requests(&mut self) -> (ms: Vec<MessageV1>)
        ensures
            (messages_view(ms@), final(self)@) == decode_client(old(self)@),
    {
        let mut out: Vec<MessageV1> = Vec::new();
        loop
            invariant
                decode_client(old(self)@) == (messages_view(out@) + decode_client(self@).0, decode_client(self@).1),
            decreases self@.bytes.len(),
        {
            let ghost before = self@;
            match self.decode_one(Direction::ClientToServer, false) {
                None => {
                    proof { assert(messages_view(out@) + Seq::<MessageView>::empty() =~= messages_view(out@)); }
                    return out;
                },
                Some(m) => {
                    proof {
                        let rest = decode_client(self@);
                        assert(decode_client(before) == (seq![m@] + rest.0, rest.1));
                        let ghost old_out = out@;
                        assert(messages_view(old_out.push(m)) =~= messages_view(old_out) + seq![m@]);
                        assert(messages_view(old_out) + (seq![m@] + rest.0) =~= messages_view(old_out) + seq![m@] + rest.0);
                    }
                    out.push(m);
                },
            }
        }
    }
}

impl Decoder {
    pub fn new() -> (d: Self)
        ensures
            d@.client.bytes == Seq::<u8>::empty() && d@.client.start is None,
            d@.server.bytes == Seq::<u8>::empty() && d@.server.start is None,
            d@.pending == Seq::<Seq<char>>::empty(),
    {
        let d = Decoder {
            client: DirectionBuffer::new(),
            server: DirectionBuffer::new(),
            pending_methods: std::collections::VecDeque::new(),
        };
        assert(d@.pending =~= Seq::<Seq<char>>::empty());
        d
    }

    /// How many requests await a response.
    pub fn pending_len(&self) -> (n: usize)
        ensures
            n == self@.pending.len(),
    {
        self.pending_methods.len()
    }

    fn head_is_pending(&self) -> (r: bool)
        ensures
            r == head_pending(self@.pending),
    {
        if self.pending_methods.len() == 0 {
            return false;
        }
        let r = crate::text::str_eq(self.pending_methods[0].as_str(), "HEAD");
        assert(self@.pending[0] == self.pending_methods@[0]@);
        r
    }

    /// Feeds one captured chunk; returns the messages it completes, all in
    /// the chunk's direction.
    pub fn push(&mut self, direction: Direction, sequence: u64, payload: &[u8]) -> (ms: Vec<MessageV1>)
        ensures
            (final(self)@, messages_view(ms@)) == decoder_push(old(self)@, direction, sequence, payload@),
    {
        match direction {
            Direction::ClientToServer => {
                self.client.push(sequence, payload);
                let msgs = self.client.decode_requests();
                self.enqueue(msgs)
            },
            Direction::ServerToClient => {
                self.server.push(sequence, payload);
                self.decode_responses()
            },
        }
    }

    fn enqueue(&mut self, msgs: Vec<MessageV1>) -> (out: Vec<MessageV1>)
        ensures
            (messages_view(out@), final(self)@.pending) == enqueue_methods(messages_view(msgs@), old(self)@.pending),
            final(self)@.client == old(self)@.client,
            final(self)@.server == old(self)@.server,
    {
        let mut out: Vec<MessageV1> = Vec::new();
        let mut rest = msgs;
        loop
            invariant
                self@.client == old(self)@.client,
                self@.server == old(self)@.server,
                enqueue_methods(messages_view(msgs@), old(self)@.pending) == (
                    messages_view(out@) + enqueue_methods(messages_view(rest@), self@.pending).0,
                    enqueue_methods(messages_view(rest@), self@.pending).1,
                ),
            decreases rest@.len(),
        {
            if rest.len() == 0 {
                proof {
                    assert(messages_view(rest@) =~= Seq::<MessageView>::empty());
                    assert(messages_view(out@) + Seq::<MessageView>::empty() =~= messages_view(out@));
                }
                return out;
            }
            let ghost rv = messages_view(rest@);
            let ghost p0 = self@.pending;
            let mut m = rest.remove(0);
            proof {
                assert(messages_view(rest@) =~= rv.drop_first());
                assert(rv[0] == m@);
            }
            let ghost mv = m@;
            match &m.method {
                Some(method) => {
                    let c = str_copy(method.as_str());
                    self.pending_methods.push_back(c);
                    m.pipeline_depth = self.pending_methods.len();
                    proof {
                        assert(self@.pending =~= p0.push(mv.method->0));
                    }
                },
                None => {},
            }
            proof {
                let step = enqueue_methods(rv, p0);
                let tail = enqueue_methods(rv.drop_first(), self@.pending);
                assert(step == (seq![m@] + tail.0, tail.1));
                let ghost o = out@;
                assert(messages_view(o.push(m)) =~= messages_view(o) + seq![m@]);
                assert(messages_view(o) + (seq![m@] + tail.0) =~= messages_view(o) + seq![m@] + tail.0);
            }
            out.push(m);
        }
    }

    fn decode_responses(&mut self) -> (out: Vec<MessageV1>)
        ensures
            ({
                let (ms, buf, pending) = decode_server(old(self)@.server, old(self)@.pending);
                &&& messages_view(out@) == ms
                &&& final(self)@.server == buf
                &&& final(self)@.pending == pending
                &&& final(self)@.client == old(self)@.client
            }),
    {
        let mut out: Vec<MessageV1> = Vec::new();
        loop
            invariant
                self@.client == old(self)@.client,
                decode_server(old(self)@.server, old(self)@.pending) == (
                    messages_view(out@) + decode_server(self@.server, self@.pending).0,
                    decode_server(self@.server, self@.pending).1,
                    decode_server(self@.server, self@.pending).2,
                ),
            decreases self@.server.bytes.len(),
        {
            let ghost before = self@;
            let head = self.head_is_pending();
            match self.server.decode_one(Direction::ServerToClient, head) {
                None => {
                    proof { assert(messages_view(out@) + Seq::<MessageView>::empty() =~= messages_view(out@)); }
                    return out;
                },
                Some(m0) => {
                    let mut m = m0;
                    let ghost mv = m@;
                    if m.kind == MessageKindV1::Response {
                        m.pipeline_depth = self.pending_methods.len();
                        m.orphan_response = match self.pending_methods.pop_front() {
                            Some(_) => false,
                            None => true,
                        };
                        proof {
                            if before.pending.len() > 0 {
                                assert(self@.pending =~= before.pending.drop_first());
                            } else {
                                assert(self@.pending =~= before.pending);
                            }
                        }
                    }
                    proof {
                        assert((m@, self@.pending) == pair_response(mv, before.pending));
                        let rest = decode_server(self@.server, self@.pending);
                        assert(decode_server(before.server, before.pending) == (seq![m@] + rest.0, rest.1, rest.2));
                        let ghost o = out@;
                        assert(messages_view(o.push(m)) =~= messages_view(o) + seq![m@]);
                        assert(messages_view(o) + (seq![m@] + rest.0) =~= messages_view(o) + seq![m@] + rest.0);
                    }
                    out.push(m);
                },
            }
        }
    }
}

pub open spec fn directed(d: Direction, ms: Seq<MessageView>) -> Seq<(Direction, MessageView)> {
    ms.map_values(|m: MessageView| (d, m))
}

pub open spec fn directed_view(ms: Seq<(Direction, MessageV1)>) -> Seq<(Direction, MessageView)> {
    ms.map_values(|p: (Direction, MessageV1)| (p.0, p.1@))
}

/// Finishing a reconstructed connection: after a trusted close, the bytes
/// left on the server side may frame as a close-delimited response, paired
/// with the oldest pending request; otherwise, as at the end of any input.
/// A framing error leaves the decoder as it was.
pub open spec fn decoder_finish_reconstructed(d: DecoderView, trusted: bool) -> Result<(DecoderView, Seq<(Direction, MessageView)>), MalformedReason> {
    if !trusted || d.server.bytes.len() == 0 {
        Ok(decoder_finish(d))
    } else {
        let sequence = start_or_zero(d.server.start);
        match close_delimited_frame(d.server.bytes, sequence, head_pending(d.pending)) {
            FrameView::Failed(reason) => Err(reason),
            FrameView::NeedMore => Ok(decoder_finish(d)),
            FrameView::Framed(_, m) => {
                let m2 = MessageView { pipeline_depth: d.pending.len() as usize, orphan_response: d.pending.len() == 0, ..m };
                let pending = if d.pending.len() > 0 { d.pending.drop_first() } else { d.pending };
                Ok((
                    DecoderView { server: BufferView { bytes: Seq::empty(), start: None }, pending, ..d },
                    seq![(Direction::ServerToClient, m2)],
                ))
            },
        }
    }
}

impl Decoder {
    /// At the end of input, keeps what remains of each direction as a
    /// truncated opaque message.
    pub fn finish(&mut self) -> (out: Vec<(Direction, MessageV1)>)
        ensures
            (final(self)@, directed_view(out@)) == decoder_finish(old(self)@),
    {
        let mut out: Vec<(Direction, MessageV1)> = Vec::new();
        let c = self.client.take_opaque(WarningCode::TruncatedMessage);
        let s = self.server.take_opaque(WarningCode::TruncatedMessage);
        let ghost cv = opt_message_view(c);
        let ghost sv = opt_message_view(s);
        match c {
            Some(m) => out.push((Direction::ClientToServer, m)),
            None => {},
        }
        match s {
            Some(m) => out.push((Direction::ServerToClient, m)),
            None => {},
        }
        proof {
            assert(directed_view(out@) =~= directed(Direction::ClientToServer, opt_seq(cv))
                + directed(Direction::ServerToClient, opt_seq(sv)));
        }
        out
    }

    /// Finishes a reconstructed connection whose close evidence is
    /// `termination`, `finalization` and the classification of each loss
    /// window.
    pub fn finish_reconstructed(
        &mut self,
        termination: crate::session::DerivedTermination,
        finalization: Option<crate::session::ReconstructionFinalization>,
        losses: &[crate::session::LossWindowClassification],
    ) -> (r: Result<Vec<(Direction, MessageV1)>, ProtocolError>)
        ensures
            match decoder_finish_reconstructed(
                old(self)@,
                crate::http::close_is_trusted(termination, finalization, losses@),
            ) {
                Ok((d, ms)) => r matches Ok(out) && directed_view(out@) == ms && final(self)@ == d,
                Err(reason) => r matches Err(e) && crate::http::is_malformed(e, reason) && final(self)@ == old(self)@,
            },
    {
        let trusted = crate::http::trusted_close(termination, finalization, losses);
        if !trusted || self.server.is_empty() {
            return Ok(self.finish());
        }
        let sequence = self.server.start();
        let head = self.head_is_pending();
        let parsed = self.server.close_delimited(sequence, head);
        match parsed {
            Err(e) => Err(e),
            Ok(None) => Ok(self.finish()),
            Ok(Some((_, message))) => {
                let mut message = message;
                let ghost before = self@;
                message.pipeline_depth = self.pending_methods.len();
                message.orphan_response = match self.pending_methods.pop_front() {
                    Some(_) => false,
                    None => true,
                };
                self.server = DirectionBuffer::new();
                let mut out: Vec<(Direction, MessageV1)> = Vec::new();
                out.push((Direction::ServerToClient, message));
                proof {
                    if before.pending.len() > 0 {
                        assert(self@.pending =~= before.pending.drop_first());
                    } else {
                        assert(self@.pending =~= before.pending);
                    }
                    assert(directed_view(out@) =~= seq![(Direction::ServerToClient, message@)]);
                }
                Ok(out)
            },
        }
    }
}

impl DirectionBuffer {
    /// The sequence number the buffered bytes start at, zero when unknown.
    pub fn start(&self) -> (s: u64)
        ensures
            s == start_or_zero(self@.start),
    {
        match self.start_sequence {
            Some(s) => s,
            None => 0,
        }
    }

    fn close_delimited(&self, sequence: u64, head_response: bool) -> (r: FrameResult)
        ensures
            frame_matches(r, close_delimited_frame(self@.bytes, sequence, head_response)),
    {
        parse_close_delimited_response(self.bytes.as_slice(), sequence, head_response)
    }
}

} // verus!
