//! Replaying an HTTP operation: the request written to the target, and how
//! the target's response is framed as it arrives.
use vstd::prelude::*;
use crate::bytes::{bytes_equal, copy_range, extend_bytes, find_byte, lower_byte, to_lower_byte, trim_ascii, trim_bounds};
use crate::canonical::{Endpoint, EndpointView, PayloadRef};
use crate::http::{
    all_names_ascii, any_named, any_upgrade, comma_item, declared_content_length, declared_length, has_header,
    headers_view, httparse_response, malformed, normalize_headers, normalized, parse_response_head,
    reject_unsupported_headers, saturating_add, all_ascii, ascii_string, HeadStatus, HeadStatusView, HeaderV1, HeaderView, ResponseHeadView,
    MAX_HEAD_BYTES, MAX_RESPONSE_BYTES,
};
use crate::protocol::{MalformedReason, ProtocolError, SecretBytes, TransportErrorCategory};
use crate::text::{decimal_chars, decimal_string, eq_ignore_ascii_case, lower_char, lower_str, str_copy, str_eq, str_eq_ignore_ascii_case};
use crate::verify::HttpOperationDataV1;
use vstd::string::StringSliceAdditionalSpecFns;
use vstd::utf8::encode_utf8;

verus! {

/// ASCII lower-casing of a string: letters `A`..`Z` become lower case,
/// every other character is kept.
fn ascii_lowercase(s: &str) -> (r: String)
    ensures
        r@ == lower_str(s@),
{
    let n = s.unicode_len();
    let mut out = str_copy("");
    proof {
        reveal_strlit("");
        assert(lower_str(s@.subrange(0, 0)) =~= Seq::<char>::empty());
    }
    let mut i: usize = 0;
    while i < n
        invariant
            i <= n,
            n == s@.len(),
            out@ == lower_str(s@.subrange(0, i as int)),
        decreases n - i,
    {
        let c = s.get_char(i);
        if 'A' <= c && c <= 'Z' {
            let code = (c as u32) + 32;
            let bytes: Vec<u8> = vec![code as u8];
            proof {
                assert(all_ascii(bytes@));
            }
            let piece = ascii_string(bytes);
            proof {
                assert(piece@ =~= seq![lower_char(c)]);
            }
            out.append(piece.as_str());
        } else {
            let piece = s.substring_char(i, i + 1);
            proof {
                assert(piece@ =~= seq![lower_char(c)]);
            }
            out.append(piece);
        }
        proof {
            assert(lower_str(s@.subrange(0, i + 1)) =~= lower_str(s@.subrange(0, i as int)) + seq![lower_char(c)]);
        }
        i = i + 1;
    }
    proof {
        assert(s@.subrange(0, n as int) =~= s@);
    }
    out
}

/// Headers a replayed request never carries from the recording: hop-by-hop
/// and framing fields, credentials, and forwarding metadata.
pub open spec fn stripped_header(name: Seq<char>) -> bool {
    ||| name == "host"@
    ||| name == "connection"@
    ||| name == "proxy-connection"@
    ||| name == "keep-alive"@
    ||| name == "te"@
    ||| name == "trailer"@
    ||| name == "transfer-encoding"@
    ||| name == "upgrade"@
    ||| name == "authorization"@
    ||| name == "proxy-authorization"@
    ||| name == "cookie"@
    ||| name == "forwarded"@
    ||| name == "expect"@
    ||| name == "content-length"@
    ||| ("x-forwarded-"@.len() <= name.len() && name.subrange(0, "x-forwarded-"@.len() as int) == "x-forwarded-"@)
}

pub fn is_stripped_replay_header(name: &str) -> (r: bool)
    ensures
        r == stripped_header(name@),
{
    let listed = str_eq(name, "host") || str_eq(name, "connection") || str_eq(name, "proxy-connection")
        || str_eq(name, "keep-alive") || str_eq(name, "te") || str_eq(name, "trailer")
        || str_eq(name, "transfer-encoding") || str_eq(name, "upgrade") || str_eq(name, "authorization")
        || str_eq(name, "proxy-authorization") || str_eq(name, "cookie") || str_eq(name, "forwarded")
        || str_eq(name, "expect") || str_eq(name, "content-length");
    if listed {
        return true;
    }
    crate::text::str_starts_with(name, "x-forwarded-")
}

pub open spec fn lower_bytes(b: Seq<u8>) -> Seq<u8> {
    b.map_values(|x: u8| lower_byte(x))
}

/// Some comma-separated item of `v`, trimmed and lower-cased, is `option`.
pub open spec fn lists_option(v: Seq<u8>, option: Seq<u8>) -> bool {
    exists|a: int, b: int| #[trigger] comma_item(v, a, b) && lower_bytes(trim_ascii(v.subrange(a, b))) == option
}

/// A header `name` (lower-cased) that a `connection` header lists as a
/// connection option.
pub open spec fn listed_connection_option(hs: Seq<HeaderView>, lower_name: Seq<char>) -> bool {
    exists|i: int| 0 <= i < hs.len()
        && eq_ignore_ascii_case((#[trigger] hs[i]).name, "connection"@)
        && lists_option(hs[i].value, encode_utf8(lower_name))
}

/// The recorded headers a replayed request keeps, with lower-cased names.
pub open spec fn kept_headers(hs: Seq<HeaderView>, all: Seq<HeaderView>) -> Seq<HeaderView>
    decreases hs.len(),
{
    if hs.len() == 0 {
        Seq::empty()
    } else {
        let h = hs.last();
        let name = lower_str(h.name);
        kept_headers(hs.drop_last(), all) + if stripped_header(name) || listed_connection_option(all, name) {
            Seq::empty()
        } else {
            seq![HeaderView { name, value: h.value }]
        }
    }
}

/// A target's authority: an IPv6 host in brackets, then the port.
pub open spec fn authority(host: Seq<char>, port: u16, ipv6: bool) -> Seq<char> {
    if ipv6 {
        "["@ + host + "]:"@ + decimal_chars(port as nat)
    } else {
        host + ":"@ + decimal_chars(port as nat)
    }
}

/// The headers of a replayed request: `host` naming the target, the kept
/// recorded headers, and `content-length` for the body.
pub open spec fn sanitized_headers(hs: Seq<HeaderView>, host: Seq<char>, port: u16, ipv6: bool, body_len: nat) -> Seq<HeaderView> {
    seq![HeaderView { name: "host"@, value: encode_utf8(authority(host, port, ipv6)) }]
        + kept_headers(hs, hs)
        + seq![HeaderView { name: "content-length"@, value: encode_utf8(decimal_chars(body_len)) }]
}

fn lowered(b: &[u8]) -> (r: Vec<u8>)
    ensures
        r@ == lower_bytes(b@),
{
    let mut out: Vec<u8> = Vec::new();
    let mut i: usize = 0;
    while i < b.len()
        invariant
            i <= b@.len(),
            out@ == lower_bytes(b@.subrange(0, i as int)),
        decreases b.len() - i,
    {
        out.push(to_lower_byte(b[i]));
        proof {
            assert(lower_bytes(b@.subrange(0, i + 1)) =~= lower_bytes(b@.subrange(0, i as int)).push(lower_byte(b@[i as int])));
        }
        i = i + 1;
    }
    proof {
        assert(b@.subrange(0, b@.len() as int) =~= b@);
    }
    out
}

fn value_lists_option(v: &[u8], option: &[u8]) -> (r: bool)
    ensures
        r == lists_option(v@, option@),
{
    let n = v.len();
    let mut start: usize = 0;
    loop
        invariant
            n == v@.len(),
            start <= n,
            start == 0 || v@[start - 1] == 44,
            forall|a: int, b: int| #[trigger] comma_item(v@, a, b) && a < start
                ==> lower_bytes(trim_ascii(v@.subrange(a, b))) != option@,
        decreases n - start,
    {
        let end = match find_byte(v, start, 44) {
            Some(e) => e,
            None => n,
        };
        assert(comma_item(v@, start as int, end as int));
        let (s, e) = trim_bounds(v, start, end);
        let item = lowered(&v[s..e]);
        let hit = bytes_equal(item.as_slice(), option);
        proof {
            assert(v@.subrange(s as int, e as int) =~= v@.subrange(s as int, e as int));
        }
        if hit {
            return true;
        }
        proof {
            assert forall|a: int, b: int| #[trigger] comma_item(v@, a, b) && a < end + 1
                implies lower_bytes(trim_ascii(v@.subrange(a, b))) != option@ by {
                if a >= start {
                    if a > start {
                        assert(v@[a - 1] == 44);
                    }
                    assert(a == start);
                    if b < end {
                        assert(v@[b] == 44);
                    }
                    if b > end {
                        assert(v@[end as int] == 44);
                    }
                    assert(b == end);
                }
            }
        }
        if end == n {
            proof {
                assert forall|a: int, b: int| #[trigger] comma_item(v@, a, b)
                    implies lower_bytes(trim_ascii(v@.subrange(a, b))) != option@ by {
                    assert(a <= n);
                }
            }
            return false;
        }
        start = end + 1;
    }
}

fn listed_option(headers: &[HeaderV1], lower_name: &str) -> (r: bool)
    ensures
        r == listed_connection_option(headers_view(headers@), lower_name@),
{
    let ghost hv = headers_view(headers@);
    let option = lower_name.as_bytes();
    let mut i: usize = 0;
    while i < headers.len()
        invariant
            hv == headers_view(headers@),
            option@ == encode_utf8(lower_name@),
            i <= headers@.len(),
            forall|k: int| 0 <= k < i ==> !(eq_ignore_ascii_case((#[trigger] hv[k]).name, "connection"@)
                && lists_option(hv[k].value, encode_utf8(lower_name@))),
        decreases headers.len() - i,
    {
        let h = &headers[i];
        proof {
            assert(hv[i as int] == h@);
        }
        if str_eq_ignore_ascii_case(h.name.as_str(), "connection") && value_lists_option(h.value.as_slice(), option) {
            return true;
        }
        i = i + 1;
    }
    false
}

fn string_bytes(s: &str) -> (b: Vec<u8>)
    ensures
        b@ == encode_utf8(s@),
{
    let bytes = s.as_bytes();
    let mut out: Vec<u8> = Vec::new();
    extend_bytes(&mut out, bytes);
    out
}

/// The authority of a replay target; `ipv6` when its host is an IPv6
/// literal.
pub fn target_authority(target: &Endpoint, ipv6: bool) -> (a: String)
    ensures
        a@ == authority(target@.host, target@.port, ipv6),
{
    let port = decimal_string(target.port as u64);
    if ipv6 {
        let mut a = str_copy("[");
        a.append(target.host.as_str());
        a.append("]:");
        a.append(port.as_str());
        a
    } else {
        let mut a = str_copy(target.host.as_str());
        a.append(":");
        a.append(port.as_str());
        a
    }
}

/// Rewrites recorded request headers for a replayed request to `target`
/// (`target_is_ipv6` when its host is an IPv6 literal) with a body of
/// `body_len` bytes: `host` first, then the recorded headers that are
/// neither stripped nor listed as connection options, with lower-cased
/// names, then `content-length`.
pub fn sanitize_request_headers(request_headers: &[HeaderV1], target: &Endpoint, target_is_ipv6: bool, body_len: usize) -> (hs: Vec<HeaderV1>)
    ensures
        headers_view(hs@) == sanitized_headers(headers_view(request_headers@), target@.host, target@.port, target_is_ipv6, body_len as nat),
{
    let ghost all = headers_view(request_headers@);
    let mut out: Vec<HeaderV1> = Vec::new();
    let host = target_authority(target, target_is_ipv6);
    out.push(HeaderV1 { name: str_copy("host"), value: string_bytes(host.as_str()) });
    let ghost first = headers_view(out@);
    let mut i: usize = 0;
    while i < request_headers.len()
        invariant
            all == headers_view(request_headers@),
            i <= request_headers@.len(),
            headers_view(out@) == first + kept_headers(all.take(i as int), all),
        decreases request_headers.len() - i,
    {
        let h = &request_headers[i];
        let name = ascii_lowercase(h.name.as_str());
        let drop = is_stripped_replay_header(name.as_str()) || listed_option(request_headers, name.as_str());
        let ghost before = headers_view(out@);
        proof {
            assert(all.take(i + 1).drop_last() =~= all.take(i as int));
            assert(all.take(i + 1).last() == h@);
        }
        if !drop {
            let value = crate::canonical::copy_bytes(&h.value);
            out.push(HeaderV1 { name, value });
            proof {
                assert(headers_view(out@) =~= before.push(HeaderView { name: lower_str(h@.name), value: h@.value }));
            }
        }
        proof {
            assert(headers_view(out@) =~= first + kept_headers(all.take(i + 1), all));
        }
        i = i + 1;
    }
    proof {
        assert(all.take(all.len() as int) =~= all);
    }
    let length = decimal_string(body_len as u64);
    let ghost before = headers_view(out@);
    out.push(HeaderV1 { name: str_copy("content-length"), value: string_bytes(length.as_str()) });
    proof {
        assert(headers_view(out@) =~= before.push(HeaderView { name: "content-length"@, value: encode_utf8(decimal_chars(body_len as nat)) }));
        assert(headers_view(out@) =~= sanitized_headers(all, target@.host, target@.port, target_is_ipv6, body_len as nat));
    }
    out
}


/// A byte that may stand in a header field value: tab, visible ASCII, or
/// any byte above ASCII.
pub open spec fn field_value_byte(b: u8) -> bool {
    b == 9 || (32 <= b <= 126) || b >= 128
}

pub fn valid_field_value_byte(b: u8) -> (r: bool)
    ensures
        r == field_value_byte(b),
{
    b == 9 || (32 <= b && b <= 126) || b >= 128
}

/// One `name: value` line per header.
pub open spec fn header_lines(hs: Seq<HeaderView>) -> Seq<u8>
    decreases hs.len(),
{
    if hs.len() == 0 {
        Seq::empty()
    } else {
        header_lines(hs.drop_last()) + encode_utf8(hs.last().name) + encode_utf8(": "@) + hs.last().value + encode_utf8("\r\n"@)
    }
}

/// The bytes of a request: its request line, header lines, a blank line
/// and the body.
pub open spec fn request_wire(method: Seq<char>, target: Seq<char>, hs: Seq<HeaderView>, body: Seq<u8>) -> Seq<u8> {
    encode_utf8(method) + encode_utf8(" "@) + encode_utf8(target) + encode_utf8(" HTTP/1.1\r\n"@)
        + header_lines(hs) + encode_utf8("\r\n"@) + body
}

/// The headers a replayed request is sent with: the sanitized headers,
/// the runtime authorization (when supplied) right after `host`, and
/// `connection: close` last.
pub open spec fn replay_headers(sanitized: Seq<HeaderView>, authorization: Option<Seq<u8>>) -> Seq<HeaderView> {
    (match authorization {
        Some(a) => sanitized.insert(1, HeaderView { name: "authorization"@, value: a }),
        None => sanitized,
    }).push(HeaderView { name: "connection"@, value: encode_utf8("close"@) })
}

fn write_request(method: &str, target: &str, headers: &Vec<HeaderV1>, body: &[u8]) -> (w: Vec<u8>)
    ensures
        w@ == request_wire(method@, target@, headers_view(headers@), body@),
{
    let mut wire: Vec<u8> = Vec::new();
    extend_bytes(&mut wire, method.as_bytes());
    extend_bytes(&mut wire, " ".as_bytes());
    extend_bytes(&mut wire, target.as_bytes());
    extend_bytes(&mut wire, " HTTP/1.1\r\n".as_bytes());
    let ghost line = wire@;
    let mut i: usize = 0;
    while i < headers.len()
        invariant
            i <= headers@.len(),
            wire@ == line + header_lines(headers_view(headers@).take(i as int)),
        decreases headers.len() - i,
    {
        let h = &headers[i];
        extend_bytes(&mut wire, h.name.as_str().as_bytes());
        extend_bytes(&mut wire, ": ".as_bytes());
        extend_bytes(&mut wire, h.value.as_slice());
        extend_bytes(&mut wire, "\r\n".as_bytes());
        proof {
            let t = headers_view(headers@).take(i + 1);
            assert(t.drop_last() =~= headers_view(headers@).take(i as int));
            assert(t.last() == h@);
            assert(wire@ =~= line + header_lines(t));
        }
        i = i + 1;
    }
    proof {
        assert(headers_view(headers@).take(headers@.len() as int) =~= headers_view(headers@));
    }
    extend_bytes(&mut wire, "\r\n".as_bytes());
    extend_bytes(&mut wire, body);
    proof {
        assert(wire@ =~= request_wire(method@, target@, headers_view(headers@), body@));
    }
    wire
}

/// The replay request failed as malformed, for `reason`.
pub open spec fn replay_fails(r: Result<(String, Vec<u8>), ProtocolError>, reason: MalformedReason) -> bool {
    r matches Err(e) && crate::http::is_malformed(e, reason)
}

/// No credential was supplied, or every byte of it may stand in a header value.
pub open spec fn authorization_ok(authorization: Option<&SecretBytes>) -> bool {
    match authorization {
        Some(a) => forall|i: int| 0 <= i < a@.len() ==> field_value_byte(#[trigger] a@[i]),
        None => true,
    }
}

/// `out` is the method and wire bytes of the replay of `data`'s request
/// with body `request`.
pub open spec fn replay_built(
    out: (String, Vec<u8>),
    data: Option<&HttpOperationDataV1>,
    request: &PayloadRef,
    target: EndpointView,
    ipv6: bool,
    authorization: Option<&SecretBytes>,
) -> bool {
    &&& data matches Some(d)
    &&& d.method matches Some(m)
    &&& d.target matches Some(t)
    &&& request matches PayloadRef::Inline { bytes, .. }
    &&& out.0@ == m@
    &&& out.1@ == request_wire(m@, t@,
            replay_headers(
                sanitized_headers(headers_view(d.request_headers@), target.host, target.port, ipv6, bytes@.len()),
                match authorization { Some(a) => Some(a@), None => None },
            ),
            bytes@)
}

/// The request that replays an operation against `target`
/// (`target_is_ipv6` when its host is an IPv6 literal): its method and the
/// bytes to write. `data` is the operation's decoded protocol data, `None`
/// when it could not be decoded; `authorization` a runtime credential.
#[verifier::loop_isolation(false)]
pub fn replay_request(
    data: Option<&HttpOperationDataV1>,
    request: &PayloadRef,
    target: &Endpoint,
    target_is_ipv6: bool,
    authorization: Option<&SecretBytes>,
) -> (r: Result<(String, Vec<u8>), ProtocolError>)
    ensures
        data is None ==> replay_fails(r, MalformedReason::InvalidReplayOperation),
        data matches Some(d) && d.method is None ==> replay_fails(r, MalformedReason::MissingMethod),
        data matches Some(d) && d.method is Some && d.target is None
            ==> replay_fails(r, MalformedReason::MissingTarget),
        data matches Some(d) && d.method is Some && d.target is Some && !(request is Inline)
            ==> replay_fails(r, MalformedReason::PayloadNotHydrated),
        data matches Some(d) && d.method is Some && d.target is Some && request is Inline
            && !authorization_ok(authorization)
            ==> replay_fails(r, MalformedReason::InvalidAuthorizationValue),
        r matches Ok(out) ==> authorization_ok(authorization) && replay_built(out, data, request, target@, target_is_ipv6, authorization),
        (data matches Some(d) && d.method is Some && d.target is Some && request is Inline
            && authorization_ok(authorization)) ==> r is Ok,
{
    let d = match data {
        Some(d) => d,
        None => return Err(malformed(MalformedReason::InvalidReplayOperation)),
    };
    let method = match &d.method {
        Some(m) => m.as_str(),
        None => return Err(malformed(MalformedReason::MissingMethod)),
    };
    let request_target = match &d.target {
        Some(t) => t.as_str(),
        None => return Err(malformed(MalformedReason::MissingTarget)),
    };
    let body = match request {
        PayloadRef::Inline { bytes, .. } => bytes.as_slice(),
        _ => return Err(malformed(MalformedReason::PayloadNotHydrated)),
    };
    let mut headers = sanitize_request_headers(d.request_headers.as_slice(), target, target_is_ipv6, body.len());
    let ghost sanitized = headers_view(headers@);
    assert(headers@.len() == sanitized.len() && sanitized.len() >= 2);
    match authorization {
        Some(a) => {
            let value = a.expose();
            let mut i: usize = 0;
            while i < value.len()
                invariant
                    i <= value@.len(),
                    forall|k: int| 0 <= k < i ==> field_value_byte(#[trigger] value@[k]),
                decreases value.len() - i,
            {
                if !valid_field_value_byte(value[i]) {
                    return Err(malformed(MalformedReason::InvalidAuthorizationValue));
                }
                i = i + 1;
            }
            let mut copy: Vec<u8> = Vec::new();
            extend_bytes(&mut copy, value);
            headers.insert(1, HeaderV1 { name: str_copy("authorization"), value: copy });
            proof {
                assert(headers_view(headers@) =~= sanitized.insert(1, HeaderView { name: "authorization"@, value: a@ }));
            }
        },
        None => {},
    }
    let ghost with_auth = headers_view(headers@);
    headers.push(HeaderV1 { name: str_copy("connection"), value: string_bytes("close") });
    proof {
        assert(headers_view(headers@) =~= with_auth.push(HeaderView { name: "connection"@, value: encode_utf8("close"@) }));
    }
    let wire = write_request(method, request_target, &headers, body);
    Ok((str_copy(method), wire))
}

/// Why a replayed response cannot be framed, as the transport reports it.
#[derive(Clone, Copy, Debug, PartialEq, Eq, Structural)]
pub enum ReplayFramingRefusal {
    Informational,
    Upgrade,
    TransferEncoding,
    CloseDelimited,
    TooLarge,
}

impl ReplayFramingRefusal {
    /// The transport message for this refusal.
    pub open spec fn message_spec(self) -> Seq<char> {
        match self {
            ReplayFramingRefusal::Informational => "informational response is unsupported"@,
            ReplayFramingRefusal::Upgrade => "upgrade response is unsupported"@,
            ReplayFramingRefusal::TransferEncoding => "transfer encoding is unsupported"@,
            ReplayFramingRefusal::CloseDelimited => "close-delimited response is unsupported"@,
            ReplayFramingRefusal::TooLarge => "response exceeds byte limit"@,
        }
    }

    pub fn message(&self) -> (s: &'static str)
        ensures
            s@ == self.message_spec(),
    {
        match self {
            ReplayFramingRefusal::Informational => "informational response is unsupported",
            ReplayFramingRefusal::Upgrade => "upgrade response is unsupported",
            ReplayFramingRefusal::TransferEncoding => "transfer encoding is unsupported",
            ReplayFramingRefusal::CloseDelimited => "close-delimited response is unsupported",
            ReplayFramingRefusal::TooLarge => "response exceeds byte limit",
        }
    }
}

/// `e` is the transport error for `refusal`.
pub open spec fn is_refusal(e: ProtocolError, refusal: ReplayFramingRefusal) -> bool {
    e matches ProtocolError::Transport { category, message }
        && category == TransportErrorCategory::UnsupportedFraming
        && message@ == refusal.message_spec()
}

fn refused(refusal: ReplayFramingRefusal) -> (e: ProtocolError)
    ensures
        is_refusal(e, refusal),
{
    ProtocolError::Transport { category: TransportErrorCategory::UnsupportedFraming, message: str_copy(refusal.message()) }
}

/// The framing of a replayed response whose head is complete: the head's
/// length, the body's length, the status and the normalized headers.
pub struct ReplayFraming {
    pub head_len: usize,
    pub body_len: usize,
    pub status: u16,
    pub headers: Vec<HeaderV1>,
}

/// What the head of a replayed response at the start of some bytes says.
pub enum ReplayHeadView {
    NeedMore,
    Malformed(MalformedReason),
    Refused(ReplayFramingRefusal),
    Framed { head_len: nat, body_len: nat, status: u16, headers: Seq<HeaderView> },
}

/// A replayed response carries no body after `HEAD` and for 204 and 304.
pub open spec fn bodiless(method: Seq<char>, status: u16) -> bool {
    method == "HEAD"@ || status == 204 || status == 304
}

/// The framing of a replayed response after its head parsed completely as
/// `n` bytes.
pub open spec fn replay_after_head(method: Seq<char>, n: nat, h: ResponseHeadView) -> ReplayHeadView {
    let hs = normalized(h.headers);
    if h.code is None {
        ReplayHeadView::Malformed(MalformedReason::MissingStatus)
    } else if 100 <= h.code->0 < 200 {
        ReplayHeadView::Refused(ReplayFramingRefusal::Informational)
    } else if !all_names_ascii(h.headers) {
        ReplayHeadView::Malformed(MalformedReason::NonAsciiHeaderName)
    } else if any_named(hs, "transfer-encoding"@) || any_upgrade(hs) {
        ReplayHeadView::Refused(ReplayFramingRefusal::Upgrade)
    } else {
        let status = h.code->0;
        let body: Result<nat, ReplayHeadView> = if bodiless(method, status) {
            Ok(0)
        } else if any_named(hs, "content-length"@) {
            match declared_length(hs) {
                Ok(v) => Ok(v as nat),
                Err(reason) => Err(ReplayHeadView::Malformed(reason)),
            }
        } else {
            Err(ReplayHeadView::Refused(ReplayFramingRefusal::CloseDelimited))
        };
        match body {
            Err(v) => v,
            Ok(len) => if len > MAX_RESPONSE_BYTES || saturating_add(n as int, len as int) > MAX_RESPONSE_BYTES {
                ReplayHeadView::Refused(ReplayFramingRefusal::TooLarge)
            } else {
                ReplayHeadView::Framed { head_len: n, body_len: len, status, headers: hs }
            },
        }
    }
}

/// The framing of a replayed response to a `method` request from the bytes
/// read so far.
pub open spec fn replay_head(bytes: Seq<u8>, method: Seq<char>) -> ReplayHeadView {
    let h = httparse_response(bytes);
    match h.status {
        HeadStatusView::Invalid(_) => ReplayHeadView::Malformed(MalformedReason::MalformedResponse),
        HeadStatusView::Partial => if bytes.len() >= MAX_HEAD_BYTES {
            ReplayHeadView::Malformed(MalformedReason::ResponseHeadTooLarge)
        } else {
            ReplayHeadView::NeedMore
        },
        HeadStatusView::Complete(n) => replay_after_head(method, n as nat, h),
    }
}

pub open spec fn replay_head_matches(r: Result<Option<ReplayFraming>, ProtocolError>, v: ReplayHeadView) -> bool {
    match v {
        ReplayHeadView::NeedMore => r matches Ok(None),
        ReplayHeadView::Malformed(reason) => r matches Err(e) && crate::http::is_malformed(e, reason),
        ReplayHeadView::Refused(refusal) => r matches Err(e) && is_refusal(e, refusal),
        ReplayHeadView::Framed { head_len, body_len, status, headers } => r matches Ok(Some(f))
            && f.head_len == head_len && f.body_len == body_len && f.status == status
            && headers_view(f.headers@) == headers,
    }
}

/// Frames the head of a replayed response to a `method` request from the
/// bytes read so far: `Ok(None)` while more bytes are needed.
#[verifier::loop_isolation(false)]
pub fn frame_replay_response(bytes: &[u8], method: &str) -> (r: Result<Option<ReplayFraming>, ProtocolError>)
    ensures
        replay_head_matches(r, replay_head(bytes@, method@)),
        r matches Ok(Some(f)) ==> 0 < f.head_len <= bytes@.len() && f.head_len + f.body_len <= MAX_RESPONSE_BYTES,
{
    let head = parse_response_head(bytes);
    let head_len = match &head.status {
        HeadStatus::Invalid(_) => return Err(malformed(MalformedReason::MalformedResponse)),
        HeadStatus::Partial => {
            if bytes.len() >= MAX_HEAD_BYTES {
                return Err(malformed(MalformedReason::ResponseHeadTooLarge));
            }
            return Ok(None);
        },
        HeadStatus::Complete(n) => *n,
    };
    let status = match head.code {
        Some(c) => c,
        None => return Err(malformed(MalformedReason::MissingStatus)),
    };
    if 100 <= status && status < 200 {
        return Err(refused(ReplayFramingRefusal::Informational));
    }
    let headers = normalize_headers(&head.headers)?;
    if reject_unsupported_headers(headers.as_slice()).is_err() {
        return Err(refused(ReplayFramingRefusal::Upgrade));
    }
    let no_body = str_eq(method, "HEAD") || status == 204 || status == 304;
    let body_len = if no_body {
        0
    } else if has_header(headers.as_slice(), "transfer-encoding") {
        return Err(refused(ReplayFramingRefusal::TransferEncoding));
    } else if has_header(headers.as_slice(), "content-length") {
        declared_content_length(headers.as_slice())?
    } else {
        return Err(refused(ReplayFramingRefusal::CloseDelimited));
    };
    if body_len > MAX_RESPONSE_BYTES || head_len.saturating_add(body_len) > MAX_RESPONSE_BYTES {
        return Err(refused(ReplayFramingRefusal::TooLarge));
    }
    Ok(Some(ReplayFraming { head_len, body_len, status, headers }))
}

/// The body of a framed replayed response, once the bytes read so far hold
/// it whole; `None` while more bytes are needed.
pub fn replay_response_body(bytes: &[u8], framing: &ReplayFraming) -> (r: Option<Vec<u8>>)
    requires
        framing.head_len + framing.body_len <= usize::MAX,
    ensures
        bytes@.len() < framing.head_len + framing.body_len <==> r is None,
        r matches Some(b) ==> b@ == bytes@.subrange(framing.head_len as int, framing.head_len + framing.body_len),
{
    let end = framing.head_len + framing.body_len;
    if bytes.len() < end {
        return None;
    }
    Some(copy_range(bytes, framing.head_len, end))
}

} // verus!
