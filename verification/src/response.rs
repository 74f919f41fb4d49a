//! Framing of HTTP/1.1 responses and the dispatch by direction.
use vstd::prelude::*;
use crate::bytes::{bytes_eq_ignore_case, copy_range, eq_ignore_case, trim_ascii, trim_bounds};
use crate::chunked::{chunked, parse_chunked_body, ChunkedView};
use crate::http::{
    all_names_ascii, any_named, any_upgrade, count_named, declared_content_length, declared_length,
    frame_error, frame_matches, frame_within, has_header, head_error, head_error_kind, headers_view, lemma_count_positive,
    lemma_count_unique, malformed, normalize_headers, normalized, parse_request, partial_or_limit,
    partial_frame, reject_unsupported_headers, reject_upgrade_headers, request_frame, FrameView,
    saturating_add, FrameResult, HeadStatus, HeadStatusView, HeaderV1, HeaderView, MessageKindV1,
    MessageV1, MessageView, ResponseHead, ResponseHeadView, httparse_response, parse_response_head, strings_view,
    MAX_RESPONSE_BYTES,
};
use crate::protocol::{Direction, MalformedReason, ProtocolError};

verus! {

/// `chunked`
pub open spec fn chunked_token() -> Seq<u8> {
    seq![99u8, 104, 117, 110, 107, 101, 100]
}

/// The value of the header named `name`, where exactly one is.
pub open spec fn named_value(hs: Seq<HeaderView>, name: Seq<char>) -> Seq<u8> {
    hs[choose|i: int| 0 <= i < hs.len() && #[trigger] hs[i].name == name].value
}

/// The only transfer coding accepted: one `Transfer-Encoding` header whose
/// trimmed value is `chunked` in any case.
pub open spec fn is_chunked_coding(hs: Seq<HeaderView>) -> bool {
    count_named(hs, "transfer-encoding"@) == 1
        && eq_ignore_case(trim_ascii(named_value(hs, "transfer-encoding"@)), chunked_token())
}

/// The response message with the given parts.
pub open spec fn response_message(
    sequence: u64,
    status: u16,
    reason: Option<Seq<u8>>,
    headers: Seq<HeaderView>,
    body: Seq<u8>,
) -> MessageView {
    MessageView {
        kind: MessageKindV1::Response,
        sequence,
        method: None,
        target: None,
        status: Some(status),
        reason,
        headers,
        body,
        pipeline_depth: 0,
        orphan_response: false,
        warnings: Seq::empty(),
    }
}

/// A response framed as `total` bytes with body `body`.
pub open spec fn framed_response(total: int, sequence: u64, h: ResponseHeadView, body: Seq<u8>) -> FrameView {
    FrameView::Framed(total, response_message(sequence, h.code->0, h.reason, normalized(h.headers), body))
}

/// The head checks every response passes: HTTP/1.1, a status that is not
/// informational, ASCII header names. `None` when they pass.
pub open spec fn response_head_error(h: ResponseHeadView) -> Option<MalformedReason> {
    if h.version != Some(1u8) {
        Some(MalformedReason::UnsupportedResponseVersion)
    } else if h.code is None {
        Some(MalformedReason::MissingStatus)
    } else if 100 <= h.code->0 < 200 {
        Some(MalformedReason::Informational)
    } else if !all_names_ascii(h.headers) {
        Some(MalformedReason::NonAsciiHeaderName)
    } else {
        None
    }
}

/// The header rule of bodies that are not chunked: no transfer coding, no
/// upgrade. `None` when it passes.
pub open spec fn unsupported_header(hs: Seq<HeaderView>) -> Option<MalformedReason> {
    if any_named(hs, "transfer-encoding"@) {
        Some(MalformedReason::UnsupportedTransferEncoding)
    } else if any_upgrade(hs) {
        Some(MalformedReason::UnsupportedUpgrade)
    } else {
        None
    }
}

/// Framing of one response after its head parsed completely as `n` bytes.
pub open spec fn response_after_head(
    bytes: Seq<u8>,
    sequence: u64,
    head_response: bool,
    n: int,
    h: ResponseHeadView,
) -> FrameView {
    let hs = normalized(h.headers);
    if response_head_error(h) is Some {
        FrameView::Failed(response_head_error(h)->0)
    } else if head_response || h.code->0 == 204 || h.code->0 == 304 {
        match unsupported_header(hs) {
            Some(reason) => FrameView::Failed(reason),
            None => framed_response(n, sequence, h, Seq::empty()),
        }
    } else if any_named(hs, "transfer-encoding"@) {
        if !is_chunked_coding(hs) {
            FrameView::Failed(MalformedReason::UnsupportedTransferEncoding)
        } else if any_upgrade(hs) {
            FrameView::Failed(MalformedReason::UnsupportedUpgrade)
        } else {
            match chunked(bytes.subrange(n, bytes.len() as int)) {
                ChunkedView::NeedMore => FrameView::NeedMore,
                ChunkedView::Invalid(reason) => FrameView::Failed(reason),
                ChunkedView::Done(c, body) => framed_response(saturating_add(n, c), sequence, h, body),
            }
        }
    } else if any_named(hs, "content-length"@) {
        if any_upgrade(hs) {
            FrameView::Failed(MalformedReason::UnsupportedUpgrade)
        } else {
            match declared_length(hs) {
                Err(reason) => FrameView::Failed(reason),
                Ok(len) => if len > MAX_RESPONSE_BYTES {
                    FrameView::Failed(MalformedReason::ResponseTooLarge)
                } else if bytes.len() < saturating_add(n, len as int) {
                    FrameView::NeedMore
                } else {
                    let total = saturating_add(n, len as int);
                    framed_response(total, sequence, h, bytes.subrange(n, total))
                },
            }
        }
    } else {
        FrameView::Failed(MalformedReason::CloseDelimited)
    }
}

/// Framing of one HTTP/1.1 response at the start of `bytes`;
/// `head_response` says the request it answers was `HEAD`.
pub open spec fn response_frame(bytes: Seq<u8>, sequence: u64, head_response: bool) -> FrameView {
    response_frame_with_head(bytes, sequence, head_response, httparse_response(bytes))
}

/// Framing of one response at the start of `bytes` whose head the parser
/// reported as `h`.
pub open spec fn response_frame_with_head(bytes: Seq<u8>, sequence: u64, head_response: bool, h: ResponseHeadView) -> FrameView {
    match h.status {
        HeadStatusView::Invalid(m) => FrameView::Failed(MalformedReason::Head(head_error_kind(m))),
        HeadStatusView::Partial => partial_frame(bytes),
        HeadStatusView::Complete(n) => response_after_head(bytes, sequence, head_response, n as int, h),
    }
}

/// The number of headers named `name` and, where there is one, the index
/// of the last of them.
pub fn count_headers_named(headers: &[HeaderV1], name: &str) -> (r: (usize, usize))
    ensures
        r.0 == count_named(headers_view(headers@), name@),
        r.0 > 0 ==> r.1 < headers@.len() && headers_view(headers@)[r.1 as int].name == name@,
{
    let ghost hv = headers_view(headers@);
    let mut count: usize = 0;
    let mut last: usize = 0;
    let mut i: usize = 0;
    while i < headers.len()
        invariant
            hv == headers_view(headers@),
            i <= headers@.len(),
            count <= i,
            count == count_named(hv.subrange(0, i as int), name@),
            count > 0 ==> last < i && hv[last as int].name == name@,
        decreases headers.len() - i,
    {
        proof {
            assert(hv.subrange(0, i + 1).drop_last() =~= hv.subrange(0, i as int));
            assert(hv[i as int] == headers@[i as int]@);
        }
        if headers[i].named(name) {
            count = count + 1;
            last = i;
        }
        i = i + 1;
    }
    proof { assert(hv.subrange(0, headers@.len() as int) =~= hv); }
    (count, last)
}

fn chunked_token_bytes() -> (v: Vec<u8>)
    ensures
        v@ == chunked_token(),
{
    let v = vec![99u8, 104, 117, 110, 107, 101, 100];
    assert(v@ =~= chunked_token());
    v
}

/// Whether the headers name exactly the `chunked` transfer coding.
pub fn chunked_coding(headers: &[HeaderV1]) -> (r: bool)
    ensures
        r == is_chunked_coding(headers_view(headers@)),
{
    let ghost hv = headers_view(headers@);
    let (count, last) = count_headers_named(headers, "transfer-encoding");
    if count != 1 {
        return false;
    }
    proof {
        let k = choose|i: int| 0 <= i < hv.len() && #[trigger] hv[i].name == "transfer-encoding"@;
        lemma_count_unique(hv, "transfer-encoding"@, k, last as int);
    }
    let value = headers[last].value.as_slice();
    assert(value@ == hv[last as int].value);
    let (s, e) = trim_bounds(value, 0, value.len());
    proof { assert(value@.subrange(0, value@.len() as int) =~= value@); }
    let token = chunked_token_bytes();
    let r = bytes_eq_ignore_case(&value[s..e], token.as_slice());
    proof { assert(value@.subrange(s as int, e as int) =~= value@.subrange(s as int, e as int)); }
    r
}

/// The header checks before a body that is not chunked.
fn check_unsupported(headers: &[HeaderV1]) -> (r: Result<(), ProtocolError>)
    ensures
        match unsupported_header(headers_view(headers@)) {
            Some(reason) => r matches Err(e) && crate::http::is_malformed(e, reason),
            None => r is Ok,
        },
{
    reject_unsupported_headers(headers)
}

/// Frames one HTTP/1.1 response at the start of `bytes`: the bytes it
/// takes and the message, `None` while more bytes are needed.
pub fn parse_response(bytes: &[u8], sequence: u64, head_response: bool) -> (r: FrameResult)
    ensures
        frame_matches(r, response_frame(bytes@, sequence, head_response)),
        frame_within(bytes@, r),
{
    let head = parse_response_head(bytes);
    frame_response_head(bytes, sequence, head_response, head)
}

/// Frames one response at the start of `bytes` from the head the parser
/// reported for them.
pub fn frame_response_head(bytes: &[u8], sequence: u64, head_response: bool, head: ResponseHead) -> (r: FrameResult)
    requires
        head.status matches HeadStatus::Complete(n) ==> 0 < n <= bytes@.len(),
    ensures
        frame_matches(r, response_frame_with_head(bytes@, sequence, head_response, head@)),
        frame_within(bytes@, r),
{
    let head_bytes = match &head.status {
        HeadStatus::Invalid(m) => return Err(malformed(MalformedReason::Head(head_error(m)))),
        HeadStatus::Partial => return partial_or_limit(bytes),
        HeadStatus::Complete(n) => *n,
    };
    if head.version != Some(1u8) {
        return Err(malformed(MalformedReason::UnsupportedResponseVersion));
    }
    let status = match head.code {
        Some(c) => c,
        None => return Err(malformed(MalformedReason::MissingStatus)),
    };
    if 100 <= status && status < 200 {
        return Err(malformed(MalformedReason::Informational));
    }
    let headers = normalize_headers(&head.headers)?;
    let (total, body) = if head_response || status == 204 || status == 304 {
        check_unsupported(headers.as_slice())?;
        (head_bytes, Vec::new())
    } else if has_header(headers.as_slice(), "transfer-encoding") {
        if !chunked_coding(headers.as_slice()) {
            return Err(malformed(MalformedReason::UnsupportedTransferEncoding));
        }
        reject_upgrade_headers(headers.as_slice())?;
        let rest = &bytes[head_bytes..bytes.len()];
        proof { assert(rest@ =~= bytes@.subrange(head_bytes as int, bytes@.len() as int)); }
        match parse_chunked_body(rest)? {
            None => return Ok(None),
            Some((consumed, body)) => (head_bytes.saturating_add(consumed), body),
        }
    } else if has_header(headers.as_slice(), "content-length") {
        reject_unsupported_headers(headers.as_slice())?;
        let body_length = declared_content_length(headers.as_slice())?;
        if body_length > MAX_RESPONSE_BYTES {
            return Err(malformed(MalformedReason::ResponseTooLarge));
        }
        let total = head_bytes.saturating_add(body_length);
        if bytes.len() < total {
            return Ok(None);
        }
        (total, copy_range(bytes, head_bytes, total))
    } else {
        return Err(malformed(MalformedReason::CloseDelimited));
    };
    let message = MessageV1 {
        kind: MessageKindV1::Response,
        sequence,
        method: None,
        target: None,
        status: Some(status),
        reason: head.reason,
        headers,
        body,
        pipeline_depth: 0,
        orphan_response: false,
        warnings: Vec::new(),
    };
    proof {
        assert(strings_view(message.warnings@) =~= Seq::<Seq<char>>::empty());
    }
    Ok(Some((total, message)))
}

} // verus!
