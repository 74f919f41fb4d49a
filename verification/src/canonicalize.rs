//! Canonical operations from decoded HTTP messages: how requests pair with
//! responses, and what each operation records of its exchange.
use vstd::prelude::*;
use crate::canonical::{
    attribute, new_uuid,
    copy_bytes, pairs_view, strs_view, warnings_view, CanonicalOperation, CanonicalWarning, OperationEffect,
    OperationKind, PayloadRef, PayloadView, ProtocolData, opt_payload_view,
};
use crate::decoder::{decoder_finish, decoder_push, directed, directed_view, messages_view, opt_message_view, BufferView, Decoder, DecoderView};
use crate::detector::{ProtocolStream, StreamChunk};
use crate::http::{
    duplicate_headers, headers_view, opt_bytes_view, opt_string_view, strings_view, HeaderV1, HeaderView, MessageKindV1,
    MessageV1, MessageView, WarningCode, warning_text, PROTOCOL_DATA_SCHEMA_VERSION,
};
use crate::protocol::Direction;
use crate::text::{decimal_chars, decimal_string, str_copy, str_eq};
use crate::verify::{HttpOperationDataV1, HttpOperationDataView, ReplayAttributesV1, TargetFormV1, VerificationMetadataV1};

verus! {

/// The capture time of the first chunk with `sequence`, when it has one.
pub open spec fn chunk_timestamp(chunks: Seq<StreamChunk>, sequence: u64) -> Option<i128>
    decreases chunks.len(),
{
    if chunks.len() == 0 {
        None
    } else if chunks[0].sequence == sequence {
        chunks[0].timestamp
    } else {
        chunk_timestamp(chunks.drop_first(), sequence)
    }
}

/// A span in nanoseconds as an offset: negative spans count as zero, spans
/// beyond `u64::MAX` as `u64::MAX`.
pub open spec fn clamp_nanos(d: int) -> u64 {
    if d <= 0 {
        0
    } else if d > u64::MAX {
        u64::MAX
    } else {
        d as u64
    }
}

/// The offset of the chunk with `sequence` from the stream start, when
/// both times are known.
pub open spec fn offset_of(started_at: Option<i128>, chunks: Seq<StreamChunk>, sequence: u64) -> Option<u64> {
    match (started_at, chunk_timestamp(chunks, sequence)) {
        (Some(start), Some(at)) => Some(clamp_nanos(at - start)),
        _ => None,
    }
}

fn find_timestamp(chunks: &[StreamChunk], sequence: u64) -> (t: Option<i128>)
    ensures
        t == chunk_timestamp(chunks@, sequence),
{
    let mut i: usize = 0;
    proof {
        assert(chunks@.skip(0) =~= chunks@);
    }
    while i < chunks.len()
        invariant
            i <= chunks@.len(),
            chunk_timestamp(chunks@, sequence) == chunk_timestamp(chunks@.skip(i as int), sequence),
        decreases chunks.len() - i,
    {
        proof {
            assert(chunks@.skip(i as int).drop_first() =~= chunks@.skip(i + 1));
        }
        if chunks[i].sequence == sequence {
            return chunks[i].timestamp;
        }
        i = i + 1;
    }
    None
}

fn stream_offset(stream: &ProtocolStream, sequence: u64) -> (o: Option<u64>)
    ensures
        o == offset_of(stream.started_at, stream.chunks@, sequence),
{
    proof {
        assert(stream.chunks@.skip(0) =~= stream.chunks@);
    }
    let at = find_timestamp(stream.chunks.as_slice(), sequence);
    match (stream.started_at, at) {
        (Some(start), Some(at)) => {
            if at <= start {
                Some(0)
            } else {
                match at.checked_sub(start) {
                    Some(d) => if d > 18446744073709551615i128 {
                        Some(u64::MAX)
                    } else {
                        Some(d as u64)
                    },
                    None => Some(u64::MAX),
                }
            }
        },
        _ => None,
    }
}

/// Reads (GET, HEAD, OPTIONS), writes (POST, PUT, PATCH, DELETE), or
/// unknown.
pub open spec fn method_effect(method: Option<Seq<char>>) -> OperationEffect {
    match method {
        Some(m) => if m == "GET"@ || m == "HEAD"@ || m == "OPTIONS"@ {
            OperationEffect::Read
        } else if m == "POST"@ || m == "PUT"@ || m == "PATCH"@ || m == "DELETE"@ {
            OperationEffect::Write
        } else {
            OperationEffect::Unknown
        },
        None => OperationEffect::Unknown,
    }
}

/// The effect of a method: GET, HEAD and OPTIONS read; POST, PUT, PATCH
/// and DELETE write; any other method, or none, is unknown.
pub proof fn lemma_method_effects(method: Option<Seq<char>>)
    ensures
        (method_effect(method) == OperationEffect::Read) <==> (method == Some("GET"@) || method == Some("HEAD"@)
            || method == Some("OPTIONS"@)),
        (method_effect(method) == OperationEffect::Write) <==> (method == Some("POST"@) || method == Some("PUT"@)
            || method == Some("PATCH"@) || method == Some("DELETE"@)),
{
    reveal_strlit("GET");
    reveal_strlit("HEAD");
    reveal_strlit("OPTIONS");
    reveal_strlit("POST");
    reveal_strlit("PUT");
    reveal_strlit("PATCH");
    reveal_strlit("DELETE");
    assert("PUT"@ != "GET"@) by { assert("PUT"@[0] != "GET"@[0]); }
    assert("POST"@ != "HEAD"@) by { assert("POST"@[0] != "HEAD"@[0]); }
    assert("PATCH"@.len() != "GET"@.len() && "PATCH"@.len() != "HEAD"@.len() && "PATCH"@.len() != "OPTIONS"@.len());
    assert("DELETE"@.len() != "GET"@.len() && "DELETE"@.len() != "HEAD"@.len() && "DELETE"@.len() != "OPTIONS"@.len());
    assert("PUT"@.len() != "HEAD"@.len() && "PUT"@.len() != "OPTIONS"@.len());
    assert("POST"@.len() != "GET"@.len() && "POST"@.len() != "OPTIONS"@.len());
}

pub fn effect(method: Option<&str>) -> (e: OperationEffect)
    ensures
        e == method_effect(match method { Some(m) => Some(m@), None => None }),
{
    match method {
        Some(m) => if str_eq(m, "GET") || str_eq(m, "HEAD") || str_eq(m, "OPTIONS") {
            OperationEffect::Read
        } else if str_eq(m, "POST") || str_eq(m, "PUT") || str_eq(m, "PATCH") || str_eq(m, "DELETE") {
            OperationEffect::Write
        } else {
            OperationEffect::Unknown
        },
        None => OperationEffect::Unknown,
    }
}

/// The decoder warning codes an operation carries: the request's, then the
/// response's, then `orphan_response` for a response without a request.
pub open spec fn operation_codes(req: MessageView, resp: Option<MessageView>) -> Seq<Seq<char>> {
    match resp {
        Some(r) => req.warnings + r.warnings + if r.orphan_response { seq!["orphan_response"@] } else { Seq::empty() },
        None => req.warnings,
    }
}

/// The canonical warning for one decoder warning code.
pub open spec fn decoder_warning(code: Seq<char>) -> (Seq<char>, Seq<char>) {
    (code, "HTTP decoder warning: "@ + code)
}

/// The warning for an operation whose time is unknown.
pub open spec fn missing_timestamp_warning() -> (Seq<char>, Seq<char>) {
    ("missing_timestamp"@, "operation timestamp unavailable; offset set to zero"@)
}

pub open spec fn has_header_named(headers: Seq<HeaderView>, name: Seq<char>) -> bool {
    exists|i: int| 0 <= i < headers.len() && #[trigger] headers[i].name == name
}

pub open spec fn contains_code(codes: Seq<Seq<char>>, code: Seq<char>) -> bool {
    exists|i: int| 0 <= i < codes.len() && #[trigger] codes[i] == code
}

pub open spec fn bool_text(b: bool) -> Seq<char> {
    if b { "true"@ } else { "false"@ }
}

/// An operation is incomplete without a response or when either side is
/// opaque.
pub open spec fn operation_incomplete(req: MessageView, resp: Option<MessageView>) -> bool {
    resp is None || req.kind == MessageKindV1::Opaque || (resp matches Some(r) && r.kind == MessageKindV1::Opaque)
}

/// A complete, unpipelined request with a method can be replayed.
pub open spec fn operation_replayable(req: MessageView, resp: Option<MessageView>) -> bool {
    !operation_incomplete(req, resp) && req.pipeline_depth <= 1 && req.method is Some
}

pub open spec fn response_status(resp: Option<MessageView>) -> Option<u16> {
    match resp {
        Some(r) => r.status,
        None => None,
    }
}

/// The attributes of an operation, in key order.
pub open spec fn operation_attributes(req: MessageView, resp: Option<MessageView>) -> Seq<(Seq<char>, Seq<char>)> {
    let auth = has_header_named(req.headers, "authorization"@) || has_header_named(req.headers, "proxy-authorization"@);
    (if auth { seq![("chronicle.replay.requires_runtime_authorization"@, "true"@)] } else { Seq::empty() })
        + seq![("chronicle.replayable"@, bool_text(operation_replayable(req, resp)))]
        + (match req.method { Some(m) => seq![("http.method"@, m)], None => Seq::empty() })
        + (match req.target { Some(t) => seq![("http.request_target"@, t)], None => Seq::empty() })
        + (match response_status(resp) {
            Some(s) => seq![("http.response_status"@, decimal_chars(s as nat))],
            None => Seq::empty(),
        })
}

/// The protocol data an operation records of its exchange.
pub open spec fn operation_data(req: MessageView, resp: Option<MessageView>) -> HttpOperationDataView {
    HttpOperationDataView {
        method: req.method,
        target: req.target,
        request_headers: req.headers,
        response_headers: match resp { Some(r) => r.headers, None => Seq::empty() },
        response_status: response_status(resp),
        response_reason: match resp { Some(r) => r.reason, None => None },
        request_sequence: req.sequence,
        response_sequence: match resp { Some(r) => Some(r.sequence), None => None },
        pipeline_depth: req.pipeline_depth,
        warnings: operation_codes(req, resp),
        replay: ReplayAttributesV1 {
            target_form: if req.target is Some { TargetFormV1::Origin } else { TargetFormV1::Opaque },
            captured_sensitive_headers: has_header_named(req.headers, "authorization"@) || has_header_named(req.headers, "cookie"@),
            replayable: operation_replayable(req, resp),
        },
        verification: VerificationMetadataV1 {
            expected_status: response_status(resp),
            expects_response: resp is Some,
        },
    }
}

/// The mathematical content of an HTTP operation.
pub struct HttpOperationView {
    pub id: u128,
    pub sequence: u64,
    pub started_at_offset: u64,
    pub completed_at_offset: Option<u64>,
    pub kind: OperationKind,
    pub effect: OperationEffect,
    pub request: PayloadView,
    pub recorded_response: Option<PayloadView>,
    pub attributes: Seq<(Seq<char>, Seq<char>)>,
    pub data: HttpOperationDataView,
    pub incomplete: bool,
    pub truncated: bool,
    pub redactions: Seq<Seq<char>>,
    pub warnings: Seq<(Seq<char>, Seq<char>)>,
}

/// The operation for `req` answered by `resp` on `stream`, with identifier
/// `id`: its offsets from the stream start (zero, with a warning, when a
/// time is unknown), effect, inline payloads, attributes, protocol data,
/// and completeness.
pub open spec fn http_operation(
    started_at: Option<i128>,
    chunks: Seq<StreamChunk>,
    stream_truncated: bool,
    id: u128,
    req: MessageView,
    resp: Option<MessageView>,
) -> HttpOperationView {
    let start = offset_of(started_at, chunks, req.sequence);
    let codes = operation_codes(req, resp);
    HttpOperationView {
        id,
        sequence: req.sequence,
        started_at_offset: match start { Some(o) => o, None => 0 },
        completed_at_offset: match resp {
            Some(r) => Some(match offset_of(started_at, chunks, r.sequence) { Some(o) => o, None => 0 }),
            None => None,
        },
        kind: OperationKind::Request,
        effect: method_effect(req.method),
        request: PayloadView::Inline { content_type: None, bytes: req.body },
        recorded_response: match resp {
            Some(r) => Some(PayloadView::Inline { content_type: None, bytes: r.body }),
            None => None,
        },
        attributes: operation_attributes(req, resp),
        data: operation_data(req, resp),
        incomplete: operation_incomplete(req, resp),
        truncated: stream_truncated || contains_code(codes, warning_text(WarningCode::TruncatedMessage)),
        redactions: Seq::empty(),
        warnings: (if start is None { seq![missing_timestamp_warning()] } else { Seq::empty() })
            + codes.map_values(|c: Seq<char>| decoder_warning(c)),
    }
}

/// How an operation classifies its exchange: it takes the request's
/// sequence; its effect comes from the method; it is incomplete without a
/// response or when either side is opaque; it is marked replayable exactly
/// when it is complete, unpipelined and has a method; and it records a
/// response exactly when there is one.
pub proof fn lemma_operation_classification(
    started_at: Option<i128>,
    chunks: Seq<StreamChunk>,
    stream_truncated: bool,
    id: u128,
    req: MessageView,
    resp: Option<MessageView>,
)
    ensures
        ({
            let op = http_operation(started_at, chunks, stream_truncated, id, req, resp);
            &&& op.id == id
            &&& op.sequence == req.sequence
            &&& op.effect == method_effect(req.method)
            &&& op.incomplete == (resp is None || req.kind == MessageKindV1::Opaque
                || (resp matches Some(r) && r.kind == MessageKindV1::Opaque))
            &&& attribute(op.attributes, "chronicle.replayable"@)
                == Some(bool_text(!op.incomplete && req.pipeline_depth <= 1 && req.method is Some))
            &&& (op.recorded_response is Some <==> resp is Some)
        }),
{
    reveal_strlit("chronicle.replayable");
    reveal_strlit("chronicle.replay.requires_runtime_authorization");
    let op = http_operation(started_at, chunks, stream_truncated, id, req, resp);
    let auth = has_header_named(req.headers, "authorization"@) || has_header_named(req.headers, "proxy-authorization"@);
    let head: Seq<(Seq<char>, Seq<char>)> = if auth { seq![("chronicle.replay.requires_runtime_authorization"@, "true"@)] } else { Seq::empty() };
    let rest = op.attributes.skip(head.len() as int);
    assert(rest[0] == ("chronicle.replayable"@, bool_text(operation_replayable(req, resp))));
    assert(rest.len() > 0);
    assert(attribute(rest, "chronicle.replayable"@) == Some(bool_text(operation_replayable(req, resp))));
    if auth {
        assert("chronicle.replay.requires_runtime_authorization"@ != "chronicle.replayable"@) by {
            assert("chronicle.replay.requires_runtime_authorization"@.len() != "chronicle.replayable"@.len());
        }
        assert(op.attributes[0].0 != "chronicle.replayable"@);
        assert(op.attributes.drop_first() =~= rest);
    } else {
        assert(op.attributes =~= rest);
    }
}

/// An HTTP operation whose protocol data is still typed; `into_canonical`
/// turns it into a canonical operation once the data is encoded.
#[derive(Debug)]
pub struct HttpOperation {
    pub id: u128,
    pub sequence: u64,
    pub started_at_offset: u64,
    pub completed_at_offset: Option<u64>,
    pub kind: OperationKind,
    pub effect: OperationEffect,
    pub request: PayloadRef,
    pub recorded_response: Option<PayloadRef>,
    pub attributes: Vec<(String, String)>,
    pub data: HttpOperationDataV1,
    pub incomplete: bool,
    pub truncated: bool,
    pub redactions: Vec<String>,
    pub warnings: Vec<CanonicalWarning>,
}

impl View for HttpOperation {
    type V = HttpOperationView;

    open spec fn view(&self) -> HttpOperationView {
        HttpOperationView {
            id: self.id,
            sequence: self.sequence,
            started_at_offset: self.started_at_offset,
            completed_at_offset: self.completed_at_offset,
            kind: self.kind,
            effect: self.effect,
            request: self.request@,
            recorded_response: opt_payload_view(self.recorded_response),
            attributes: pairs_view(self.attributes@),
            data: self.data@,
            incomplete: self.incomplete,
            truncated: self.truncated,
            redactions: strs_view(self.redactions@),
            warnings: warnings_view(self.warnings@),
        }
    }
}

fn header_named(headers: &Vec<HeaderV1>, name: &str) -> (r: bool)
    ensures
        r == has_header_named(headers_view(headers@), name@),
{
    let mut i: usize = 0;
    while i < headers.len()
        invariant
            i <= headers@.len(),
            forall|k: int| 0 <= k < i ==> #[trigger] headers@[k].name@ != name@,
        decreases headers.len() - i,
    {
        if str_eq(headers[i].name.as_str(), name) {
            proof {
                assert(headers_view(headers@)[i as int].name == name@);
            }
            return true;
        }
        i = i + 1;
    }
    proof {
        assert forall|k: int| 0 <= k < headers_view(headers@).len() implies #[trigger] headers_view(headers@)[k].name != name@ by {
            assert(headers_view(headers@)[k] == headers@[k]@);
        }
    }
    false
}

fn has_code(codes: &Vec<String>, code: &str) -> (r: bool)
    ensures
        r == contains_code(strings_view(codes@), code@),
{
    let mut i: usize = 0;
    while i < codes.len()
        invariant
            i <= codes@.len(),
            forall|k: int| 0 <= k < i ==> #[trigger] codes@[k]@ != code@,
        decreases codes.len() - i,
    {
        if str_eq(codes[i].as_str(), code) {
            proof {
                assert(strings_view(codes@)[i as int] == code@);
            }
            return true;
        }
        i = i + 1;
    }
    proof {
        assert forall|k: int| 0 <= k < strings_view(codes@).len() implies #[trigger] strings_view(codes@)[k] != code@ by {
            assert(strings_view(codes@)[k] == codes@[k]@);
        }
    }
    false
}

fn copy_strings(s: &Vec<String>) -> (r: Vec<String>)
    ensures
        strings_view(r@) == strings_view(s@),
{
    let mut out: Vec<String> = Vec::new();
    let mut i: usize = 0;
    while i < s.len()
        invariant
            i <= s@.len(),
            out@.len() == i,
            forall|k: int| 0 <= k < i ==> #[trigger] out@[k]@ == s@[k]@,
        decreases s.len() - i,
    {
        out.push(str_copy(s[i].as_str()));
        i = i + 1;
    }
    proof {
        assert(strings_view(out@) =~= strings_view(s@));
    }
    out
}

fn append_strings(out: &mut Vec<String>, s: &Vec<String>)
    ensures
        strings_view(final(out)@) == strings_view(old(out)@) + strings_view(s@),
{
    let ghost start = strings_view(out@);
    let mut i: usize = 0;
    while i < s.len()
        invariant
            i <= s@.len(),
            strings_view(out@) == start + strings_view(s@).take(i as int),
        decreases s.len() - i,
    {
        let ghost prev = out@;
        let c = str_copy(s[i].as_str());
        out.push(c);
        proof {
            assert(strings_view(out@) =~= strings_view(prev).push(c@));
            assert(strings_view(s@).take(i + 1) =~= strings_view(s@).take(i as int).push(s@[i as int]@));
            assert(strings_view(out@) =~= start + strings_view(s@).take(i + 1));
        }
        i = i + 1;
    }
    proof {
        assert(strings_view(s@).take(s@.len() as int) =~= strings_view(s@));
    }
}

fn bool_string(b: bool) -> (s: String)
    ensures
        s@ == bool_text(b),
{
    if b { str_copy("true") } else { str_copy("false") }
}

fn copy_opt_string(o: &Option<String>) -> (r: Option<String>)
    ensures
        opt_string_view(r) == opt_string_view(*o),
{
    match o {
        Some(s) => Some(str_copy(s.as_str())),
        None => None,
    }
}

fn copy_opt_bytes(o: &Option<Vec<u8>>) -> (r: Option<Vec<u8>>)
    ensures
        opt_bytes_view(r) == opt_bytes_view(*o),
{
    match o {
        Some(b) => Some(copy_bytes(b)),
        None => None,
    }
}

/// The canonical warnings for the decoder warning codes.
fn decoder_warnings(out: &mut Vec<CanonicalWarning>, codes: &Vec<String>)
    ensures
        warnings_view(final(out)@) == warnings_view(old(out)@) + strings_view(codes@).map_values(|c: Seq<char>| decoder_warning(c)),
{
    let ghost start = warnings_view(out@);
    let ghost mapped = strings_view(codes@).map_values(|c: Seq<char>| decoder_warning(c));
    let mut i: usize = 0;
    while i < codes.len()
        invariant
            i <= codes@.len(),
            mapped == strings_view(codes@).map_values(|c: Seq<char>| decoder_warning(c)),
            warnings_view(out@) == start + mapped.take(i as int),
        decreases codes.len() - i,
    {
        let mut message = str_copy("HTTP decoder warning: ");
        message.append(codes[i].as_str());
        let ghost prev = out@;
        let w = CanonicalWarning { code: str_copy(codes[i].as_str()), message };
        out.push(w);
        proof {
            assert(warnings_view(out@) =~= warnings_view(prev).push((w.code@, w.message@)));
            assert(mapped[i as int] == decoder_warning(codes@[i as int]@));
            assert(mapped.take(i + 1) =~= mapped.take(i as int).push(mapped[i as int]));
            assert(warnings_view(out@) =~= start + mapped.take(i + 1));
        }
        i = i + 1;
    }
    proof {
        assert(mapped.take(codes@.len() as int) =~= mapped);
    }
}

/// Builds the operation for `request` answered by `response`.
pub fn operation(stream: &ProtocolStream, id: u128, request: MessageV1, response: Option<MessageV1>) -> (op: HttpOperation)
    ensures
        op@ == http_operation(
            stream.started_at,
            stream.chunks@,
            stream.truncated,
            id,
            request@,
            opt_message_view(response),
        ),
{
    let ghost req = request@;
    let ghost resp = opt_message_view(response);
    let start = stream_offset(stream, request.sequence);
    let completed_at_offset = match &response {
        Some(r) => Some(match stream_offset(stream, r.sequence) {
            Some(o) => o,
            None => 0,
        }),
        None => None,
    };
    let mut codes = copy_strings(&request.warnings);
    match &response {
        Some(r) => {
            append_strings(&mut codes, &r.warnings);
            if r.orphan_response {
                let ghost before = strings_view(codes@);
                codes.push(str_copy("orphan_response"));
                proof {
                    assert(strings_view(codes@) =~= before.push("orphan_response"@));
                }
            }
        },
        None => {},
    }
    proof {
        assert(strings_view(codes@) =~= operation_codes(req, resp));
    }
    let mut warnings: Vec<CanonicalWarning> = Vec::new();
    if start.is_none() {
        warnings.push(CanonicalWarning {
            code: str_copy("missing_timestamp"),
            message: str_copy("operation timestamp unavailable; offset set to zero"),
        });
    }
    proof {
        assert(warnings_view(warnings@) =~= if start is None { seq![missing_timestamp_warning()] } else { Seq::<(Seq<char>, Seq<char>)>::empty() });
    }
    decoder_warnings(&mut warnings, &codes);
    let status = match &response {
        Some(r) => r.status,
        None => None,
    };
    let incomplete = response.is_none()
        || request.kind == MessageKindV1::Opaque
        || match &response {
            Some(r) => r.kind == MessageKindV1::Opaque,
            None => false,
        };
    let truncated = stream.truncated || has_code(&codes, WarningCode::TruncatedMessage.as_str());
    let replayable = !incomplete && request.pipeline_depth <= 1 && request.method.is_some();
    let authorization = header_named(&request.headers, "authorization");
    let cookie = header_named(&request.headers, "cookie");
    let proxy_authorization = header_named(&request.headers, "proxy-authorization");
    let mut attributes: Vec<(String, String)> = Vec::new();
    if authorization || proxy_authorization {
        attributes.push((str_copy("chronicle.replay.requires_runtime_authorization"), str_copy("true")));
    }
    attributes.push((str_copy("chronicle.replayable"), bool_string(replayable)));
    match &request.method {
        Some(m) => attributes.push((str_copy("http.method"), str_copy(m.as_str()))),
        None => {},
    }
    match &request.target {
        Some(t) => attributes.push((str_copy("http.request_target"), str_copy(t.as_str()))),
        None => {},
    }
    match status {
        Some(s) => attributes.push((str_copy("http.response_status"), decimal_string(s as u64))),
        None => {},
    }
    proof {
        assert(pairs_view(attributes@) =~= operation_attributes(req, resp));
    }
    let data = HttpOperationDataV1 {
        method: copy_opt_string(&request.method),
        target: copy_opt_string(&request.target),
        request_headers: duplicate_headers(&request.headers),
        response_headers: match &response {
            Some(r) => duplicate_headers(&r.headers),
            None => Vec::new(),
        },
        response_status: status,
        response_reason: match &response {
            Some(r) => copy_opt_bytes(&r.reason),
            None => None,
        },
        request_sequence: request.sequence,
        response_sequence: match &response {
            Some(r) => Some(r.sequence),
            None => None,
        },
        pipeline_depth: request.pipeline_depth,
        warnings: codes,
        replay: ReplayAttributesV1 {
            target_form: if request.target.is_some() { TargetFormV1::Origin } else { TargetFormV1::Opaque },
            captured_sensitive_headers: authorization || cookie,
            replayable,
        },
        verification: VerificationMetadataV1 { expected_status: status, expects_response: response.is_some() },
    };
    proof {
        assert(data@.response_headers =~= operation_data(req, resp).response_headers);
        assert(data@ =~= operation_data(req, resp));
    }
    let method_effect = match &request.method {
        Some(m) => effect(Some(m.as_str())),
        None => effect(None),
    };
    let MessageV1 { sequence, body, .. } = request;
    let recorded_response = match response {
        Some(r) => Some(PayloadRef::Inline { content_type: None, bytes: r.body }),
        None => None,
    };
    let op = HttpOperation {
        id,
        sequence,
        started_at_offset: match start {
            Some(o) => o,
            None => 0,
        },
        completed_at_offset,
        kind: OperationKind::Request,
        effect: method_effect,
        request: PayloadRef::Inline { content_type: None, bytes: body },
        recorded_response,
        attributes,
        data,
        incomplete,
        truncated,
        redactions: Vec::new(),
        warnings,
    };
    proof {
        let h = http_operation(stream.started_at, stream.chunks@, stream.truncated, id, req, resp);
        assert(op@.sequence == h.sequence);
        assert(op@.started_at_offset == h.started_at_offset);
        assert(op@.completed_at_offset == h.completed_at_offset);
        assert(op@.effect == h.effect);
        assert(op@.request == h.request);
        assert(op@.recorded_response == h.recorded_response);
        assert(op@.attributes == h.attributes);
        assert(op@.data == h.data);
        assert(op@.incomplete == h.incomplete);
        assert(op@.truncated == h.truncated);
        assert(op@.redactions == h.redactions);
        assert(op@.warnings == h.warnings);
    }
    op
}


/// The media type of encoded HTTP operation data.
pub open spec fn operation_media_type() -> Seq<char> {
    "application/vnd.chronicle.http-operation+json;version=1"@
}

fn operation_media_type_string() -> (s: String)
    ensures
        s@ == operation_media_type(),
{
    str_copy("application/vnd.chronicle.http-operation+json;version=1")
}

/// Whether protocol data is HTTP operation data in the current version.
pub fn is_operation_data(data: &ProtocolData) -> (r: bool)
    ensures
        r == (data.schema_version == PROTOCOL_DATA_SCHEMA_VERSION && opt_string_view(data.media_type) == Some(operation_media_type())),
{
    data.schema_version == PROTOCOL_DATA_SCHEMA_VERSION
        && match &data.media_type {
            Some(m) => str_eq(m.as_str(), "application/vnd.chronicle.http-operation+json;version=1"),
            None => false,
        }
}

impl HttpOperation {
    /// The canonical operation, with `encoded_data` as the encoding of the
    /// operation's protocol data.
    pub fn into_canonical(self, encoded_data: Vec<u8>) -> (op: CanonicalOperation)
        ensures
            op@.id == self@.id,
            op@.sequence == self@.sequence,
            op@.started_at_offset == self@.started_at_offset,
            op@.completed_at_offset == self@.completed_at_offset,
            op@.kind == self@.kind,
            op@.effect == self@.effect,
            op@.request == self@.request,
            op@.recorded_response == self@.recorded_response,
            op@.attributes == self@.attributes,
            op@.protocol_data.schema_version == PROTOCOL_DATA_SCHEMA_VERSION,
            op@.protocol_data.media_type == Some(operation_media_type()),
            op@.protocol_data.bytes == encoded_data@,
            op@.incomplete == self@.incomplete,
            op@.truncated == self@.truncated,
            op@.redactions == self@.redactions,
            op@.warnings == self@.warnings,
    {
        CanonicalOperation {
            id: self.id,
            sequence: self.sequence,
            started_at_offset: self.started_at_offset,
            completed_at_offset: self.completed_at_offset,
            kind: self.kind,
            effect: self.effect,
            request: self.request,
            recorded_response: self.recorded_response,
            attributes: self.attributes,
            protocol_data: ProtocolData {
                schema_version: PROTOCOL_DATA_SCHEMA_VERSION,
                media_type: Some(operation_media_type_string()),
                bytes: encoded_data,
            },
            incomplete: self.incomplete,
            truncated: self.truncated,
            redactions: self.redactions,
            warnings: self.warnings,
        }
    }
}

/// A response that arrived with no request waiting: an opaque request
/// carrying its sequence and warnings, and `orphan_response`.
pub open spec fn orphan_request(m: MessageView) -> MessageView {
    MessageView {
        kind: MessageKindV1::Opaque,
        method: None,
        target: None,
        status: None,
        reason: None,
        headers: Seq::empty(),
        body: Seq::empty(),
        warnings: m.warnings.push("orphan_response"@),
        ..m
    }
}

/// How decoded frames pair up, given the requests still waiting: each
/// response answers the oldest waiting request, or stands alone as an
/// orphan; requests still waiting at the end have no response.
pub open spec fn pair_frames(
    frames: Seq<(Direction, MessageView)>,
    waiting: Seq<MessageView>,
) -> Seq<(MessageView, Option<MessageView>)>
    decreases frames.len(),
{
    if frames.len() == 0 {
        waiting.map_values(|r: MessageView| (r, None::<MessageView>))
    } else {
        let (d, m) = frames[0];
        let rest = frames.drop_first();
        match d {
            Direction::ClientToServer => pair_frames(rest, waiting.push(m)),
            Direction::ServerToClient => if waiting.len() > 0 {
                seq![(waiting[0], Some(m))] + pair_frames(rest, waiting.drop_first())
            } else {
                seq![(orphan_request(m), Some(m))] + pair_frames(rest, waiting)
            },
        }
    }
}

pub open spec fn frames_view(frames: Seq<(Direction, MessageV1)>) -> Seq<(Direction, MessageView)> {
    frames.map_values(|f: (Direction, MessageV1)| (f.0, f.1@))
}

pub open spec fn http_operations_view(ops: Seq<HttpOperation>) -> Seq<HttpOperationView> {
    ops.map_values(|o: HttpOperation| o@)
}

fn opaque_copy(m: &MessageV1) -> (o: MessageV1)
    ensures
        o@ == orphan_request(m@),
{
    let mut warnings = copy_strings(&m.warnings);
    let ghost before = strings_view(warnings@);
    warnings.push(str_copy("orphan_response"));
    proof {
        assert(strings_view(warnings@) =~= before.push("orphan_response"@));
    }
    let o = MessageV1 {
        kind: MessageKindV1::Opaque,
        sequence: m.sequence,
        method: None,
        target: None,
        status: None,
        reason: None,
        headers: Vec::new(),
        body: Vec::new(),
        pipeline_depth: m.pipeline_depth,
        orphan_response: m.orphan_response,
        warnings,
    };
    proof {
        assert(o@.headers =~= Seq::<HeaderView>::empty());
        assert(o@.body =~= Seq::<u8>::empty());
        assert(o@ =~= orphan_request(m@));
    }
    o
}

fn copy_message(m: &MessageV1) -> (c: MessageV1)
    ensures
        c@ == m@,
{
    let c = MessageV1 {
        kind: m.kind,
        sequence: m.sequence,
        method: copy_opt_string(&m.method),
        target: copy_opt_string(&m.target),
        status: m.status,
        reason: copy_opt_bytes(&m.reason),
        headers: duplicate_headers(&m.headers),
        body: copy_bytes(&m.body),
        pipeline_depth: m.pipeline_depth,
        orphan_response: m.orphan_response,
        warnings: copy_strings(&m.warnings),
    };
    proof {
        assert(c@ =~= m@);
    }
    c
}

pub open spec fn messages_of(ms: Seq<MessageV1>) -> Seq<MessageView> {
    ms.map_values(|m: MessageV1| m@)
}

pub(crate) fn reversed<T>(v: Vec<T>) -> (r: Vec<T>)
    ensures
        r@ == v@.reverse(),
{
    let ghost orig = v@;
    let mut v = v;
    let mut r: Vec<T> = Vec::new();
    while v.len() > 0
        invariant
            v@ == orig.take(orig.len() - r@.len()),
            r@.len() <= orig.len(),
            forall|i: int| 0 <= i < r@.len() ==> #[trigger] r@[i] == orig[orig.len() - 1 - i],
        decreases v.len(),
    {
        let x = v.pop().unwrap();
        r.push(x);
    }
    proof {
        assert(r@ =~= orig.reverse());
    }
    r
}

/// The operations built so far match the first pairs.
pub open spec fn ops_match(
    ops: Seq<HttpOperation>,
    done: Seq<(MessageView, Option<MessageView>)>,
    started_at: Option<i128>,
    chunks: Seq<StreamChunk>,
    truncated: bool,
) -> bool {
    &&& ops.len() == done.len()
    &&& forall|i: int| 0 <= i < ops.len() ==> #[trigger] ops[i]@ == http_operation(started_at, chunks, truncated, ops[i].id, done[i].0, done[i].1)
}

/// The operations of a stream's decoded messages, in the order they
/// complete: each with a fresh identifier and the exchange `pair_frames`
/// gives it.
pub fn canonicalize(stream: &ProtocolStream, frames: Vec<(Direction, MessageV1)>) -> (ops: Vec<HttpOperation>)
    ensures
        ops_match(ops@, pair_frames(frames_view(frames@), Seq::empty()), stream.started_at, stream.chunks@, stream.truncated),
{
    let ghost all = frames_view(frames@);
    let ghost total = all.len();
    let ghost mut done: Seq<(MessageView, Option<MessageView>)> = Seq::empty();
    let mut pending: Vec<MessageV1> = Vec::new();
    let mut ops: Vec<HttpOperation> = Vec::new();
    let mut frames = reversed(frames);
    proof {
        assert(frames_view(frames@).reverse() =~= all);
        assert(all.skip(0) =~= all);
        assert(messages_of(pending@) =~= Seq::<MessageView>::empty());
        assert(pair_frames(all, Seq::empty()) =~= done + pair_frames(all.skip(0), messages_of(pending@)));
    }
    while frames.len() > 0
        invariant
            all.len() == total,
            frames@.len() <= total,
            frames_view(frames@).reverse() == all.skip(total - frames@.len()),
            pair_frames(all, Seq::empty()) == done + pair_frames(all.skip(total - frames@.len()), messages_of(pending@)),
            ops_match(ops@, done, stream.started_at, stream.chunks@, stream.truncated),
        decreases frames.len(),
    {
        let ghost step = all.skip(total - frames@.len());
        let ghost waiting = messages_of(pending@);
        let (direction, message) = frames.pop().unwrap();
        proof {
            assert(step.len() > 0);
            assert(step[0] == (direction, message@));
            assert(step.drop_first() =~= all.skip(total - frames@.len()));
            assert(frames_view(frames@).reverse() =~= step.drop_first());
        }
        match direction {
            Direction::ClientToServer => {
                pending.push(message);
                proof {
                    assert(messages_of(pending@) =~= waiting.push(message@));
                }
            },
            Direction::ServerToClient => {
                if pending.len() > 0 {
                    let request = pending.remove(0);
                    proof {
                        assert(messages_of(pending@) =~= waiting.drop_first());
                        assert(waiting[0] == request@);
                    }
                    let ghost pair = (request@, Some(message@));
                    let op = operation(stream, new_uuid(), request, Some(message));
                    ops.push(op);
                    proof {
                        assert(pair_frames(step, waiting) == seq![pair] + pair_frames(step.drop_first(), waiting.drop_first()));
                        assert(done + (seq![pair] + pair_frames(step.drop_first(), waiting.drop_first()))
                            =~= done.push(pair) + pair_frames(step.drop_first(), waiting.drop_first()));
                        done = done.push(pair);
                    }
                } else {
                    let opaque = opaque_copy(&message);
                    let ghost pair = (orphan_request(message@), Some(message@));
                    let op = operation(stream, new_uuid(), opaque, Some(message));
                    ops.push(op);
                    proof {
                        assert(pair_frames(step, waiting) == seq![pair] + pair_frames(step.drop_first(), waiting));
                        assert(done + (seq![pair] + pair_frames(step.drop_first(), waiting))
                            =~= done.push(pair) + pair_frames(step.drop_first(), waiting));
                        done = done.push(pair);
                    }
                }
            },
        }
    }
    proof {
        assert(all.skip(total as int) =~= Seq::<(Direction, MessageView)>::empty());
    }
    let mut pending = reversed(pending);
    let ghost rest = messages_of(pending@).reverse();
    proof {
        assert(pair_frames(all, Seq::empty()) == done + rest.map_values(|r: MessageView| (r, None::<MessageView>)));
    }
    let ghost n = pending@.len();
    while pending.len() > 0
        invariant
            pending@.len() <= n,
            rest.len() == n,
            messages_of(pending@).reverse() == rest.skip(n - pending@.len()),
            pair_frames(all, Seq::empty()) == done + rest.skip(n - pending@.len()).map_values(|r: MessageView| (r, None::<MessageView>)),
            ops_match(ops@, done, stream.started_at, stream.chunks@, stream.truncated),
        decreases pending.len(),
    {
        let ghost step = rest.skip(n - pending@.len());
        let request = pending.pop().unwrap();
        proof {
            assert(step[0] == request@);
            assert(step.drop_first() =~= rest.skip(n - pending@.len()));
            assert(messages_of(pending@).reverse() =~= step.drop_first());
        }
        let ghost pair = (request@, None::<MessageView>);
        let op = operation(stream, new_uuid(), request, None);
        ops.push(op);
        proof {
            let m = step.map_values(|r: MessageView| (r, None::<MessageView>));
            let m2 = step.drop_first().map_values(|r: MessageView| (r, None::<MessageView>));
            assert(m =~= seq![pair] + m2);
            assert(done + m =~= done.push(pair) + m2);
            done = done.push(pair);
        }
    }
    proof {
        assert(rest.skip(n as int).map_values(|r: MessageView| (r, None::<MessageView>)) =~= Seq::<(MessageView, Option<MessageView>)>::empty());
        assert(pair_frames(all, Seq::empty()) =~= done);
    }
    ops
}


/// A decoder that has seen nothing.
pub open spec fn fresh_decoder() -> DecoderView {
    DecoderView {
        client: BufferView { bytes: Seq::empty(), start: None },
        server: BufferView { bytes: Seq::empty(), start: None },
        pending: Seq::empty(),
    }
}

/// The decoder after the chunks, and the messages it produced on the way,
/// each with the direction of the chunk that completed it.
pub open spec fn decode_chunks(chunks: Seq<StreamChunk>) -> (DecoderView, Seq<(Direction, MessageView)>)
    decreases chunks.len(),
{
    if chunks.len() == 0 {
        (fresh_decoder(), Seq::empty())
    } else {
        let (d, frames) = decode_chunks(chunks.drop_last());
        let c = chunks.last();
        let (d2, ms) = decoder_push(d, c.direction, c.sequence, c.payload@);
        (d2, frames + directed(c.direction, ms))
    }
}

/// The HTTP messages of a stream: those its chunks produce, then those the
/// end of the stream produces.
pub open spec fn decode_stream(chunks: Seq<StreamChunk>) -> Seq<(Direction, MessageView)> {
    decode_chunks(chunks).1 + decoder_finish(decode_chunks(chunks).0).1
}

/// Decodes a stream's chunks as HTTP/1.1 and canonicalizes the messages.
pub fn http_operations(stream: &ProtocolStream) -> (ops: Vec<HttpOperation>)
    ensures
        ops_match(ops@, pair_frames(decode_stream(stream.chunks@), Seq::empty()), stream.started_at, stream.chunks@, stream.truncated),
{
    let mut decoder = Decoder::new();
    let mut frames: Vec<(Direction, MessageV1)> = Vec::new();
    let mut i: usize = 0;
    proof {
        assert(decoder@ == fresh_decoder());
        assert(stream.chunks@.take(0) =~= Seq::<StreamChunk>::empty());
    }
    while i < stream.chunks.len()
        invariant
            i <= stream.chunks@.len(),
            (decoder@, frames_view(frames@)) == decode_chunks(stream.chunks@.take(i as int)),
        decreases stream.chunks.len() - i,
    {
        let chunk = &stream.chunks[i];
        let msgs = decoder.push(chunk.direction, chunk.sequence, chunk.payload.as_slice());
        let ghost before = frames_view(frames@);
        let mut j: usize = 0;
        while j < msgs.len()
            invariant
                j <= msgs@.len(),
                frames_view(frames@) == before + directed(chunk.direction, messages_view(msgs@).take(j as int)),
            decreases msgs.len() - j,
        {
            let ghost prev = frames@;
            frames.push((chunk.direction, copy_message(&msgs[j])));
            proof {
                assert(frames_view(frames@) =~= frames_view(prev).push((chunk.direction, msgs@[j as int]@)));
                assert(directed(chunk.direction, messages_view(msgs@).take(j + 1))
                    =~= directed(chunk.direction, messages_view(msgs@).take(j as int)).push((chunk.direction, msgs@[j as int]@)));
            }
            j = j + 1;
        }
        proof {
            assert(messages_view(msgs@).take(msgs@.len() as int) =~= messages_view(msgs@));
            assert(stream.chunks@.take(i + 1).drop_last() =~= stream.chunks@.take(i as int));
        }
        i = i + 1;
    }
    proof {
        assert(stream.chunks@.take(stream.chunks@.len() as int) =~= stream.chunks@);
    }
    let finished = decoder.finish();
    let ghost before = frames_view(frames@);
    let ghost orig = finished@;
    let mut rest = reversed(finished);
    let ghost total = rest@.len();
    proof {
        let fin = decoder_finish(decode_chunks(stream.chunks@).0).1;
        assert(directed_view(orig) == fin);
        assert forall|q: int| 0 <= q < rest@.len() implies (#[trigger] rest@[q]).0 == fin[total - 1 - q].0
            && rest@[q].1@ == fin[total - 1 - q].1 by {
            assert(rest@[q] == orig[total - 1 - q]);
            assert(directed_view(orig)[total - 1 - q] == (orig[total - 1 - q].0, orig[total - 1 - q].1@));
        }
        assert(fin.take(0) =~= Seq::<(Direction, MessageView)>::empty());
    }
    while rest.len() > 0
        invariant
            rest@.len() <= total,
            frames_view(frames@) == before + decoder_finish(decode_chunks(stream.chunks@).0).1.take(total - rest@.len()),
            decoder_finish(decode_chunks(stream.chunks@).0).1.len() == total,
            forall|q: int| 0 <= q < rest@.len() ==> (#[trigger] rest@[q]).0 == decoder_finish(decode_chunks(stream.chunks@).0).1[total - 1 - q].0
                && rest@[q].1@ == decoder_finish(decode_chunks(stream.chunks@).0).1[total - 1 - q].1,
        decreases rest.len(),
    {
        let ghost prev = frames@;
        let ghost done = total - rest@.len();
        let (d, m) = rest.pop().unwrap();
        frames.push((d, m));
        proof {
            let fin = decoder_finish(decode_chunks(stream.chunks@).0).1;
            assert(frames_view(frames@) =~= frames_view(prev).push((d, m@)));
            assert(fin.take(done + 1) =~= fin.take(done).push(fin[done]));
        }
    }
    proof {
        let fin = decoder_finish(decode_chunks(stream.chunks@).0).1;
        assert(fin.take(total as int) =~= fin);
    }
    canonicalize(stream, frames)
}

} // verus!
