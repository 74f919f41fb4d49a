//! Bounded plaintext HTTP/1.1: detection, message framing, decoding and
//! replay verification.

use vstd::prelude::*;
use crate::bytes::{
    bytes_equal, crlf_at, eq_ignore_case, find_blank_line, find_byte, find_crlf, first_blank_line, first_crlf,
    hex_value, is_digit, is_alpha, is_hex_digit, lemma_first_crlf, lemma_no_first_crlf, lower_byte, no_crlf_in,
    parse_decimal, parse_hex, decimal_value, seq_starts_with, starts_with, trim_ascii, trim_bounds,
    bytes_eq_ignore_case, to_lower_byte, copy_range,
};
use crate::protocol::{DetectionResult, HttparseError, MalformedReason, ProtocolError};
use crate::session::{DerivedTermination, LossWindowClassification, ReconstructionFinalization};
use crate::text::{str_copy, str_eq};

verus! {

pub const MAX_HEAD_BYTES: usize = 65536;
pub const MAX_HEADER_COUNT: usize = 128;
pub const PROTOCOL_DATA_SCHEMA_VERSION: u16 = 1;
pub const MAX_RESPONSE_BYTES: usize = 8388608;

#[derive(Clone, Copy, Debug, PartialEq, Eq, Structural)]
pub enum WarningCode {
    Malformed,
    TruncatedMessage,
    UnsupportedTransferEncoding,
    UnsupportedCloseDelimitedBody,
    UnsupportedInformationalResponse,
    UnsupportedTarget,
    UnsupportedUpgrade,
    UnsupportedVersion,
    Pipelined,
}

/// The stable text of each warning code.
pub open spec fn warning_text(w: WarningCode) -> Seq<char> {
    match w {
        WarningCode::Malformed => "malformed_http_message"@,
        WarningCode::TruncatedMessage => "truncated_message"@,
        WarningCode::UnsupportedTransferEncoding => "unsupported_transfer_encoding"@,
        WarningCode::UnsupportedCloseDelimitedBody => "unsupported_close_delimited_body"@,
        WarningCode::UnsupportedInformationalResponse => "unsupported_informational_response"@,
        WarningCode::UnsupportedTarget => "unsupported_request_target"@,
        WarningCode::UnsupportedUpgrade => "unsupported_upgrade"@,
        WarningCode::UnsupportedVersion => "unsupported_http_version"@,
        WarningCode::Pipelined => "pipelined_requests"@,
    }
}

impl WarningCode {
    pub fn as_str(self) -> (s: &'static str)
        ensures
            s@ == warning_text(self),
    {
        match self {
            WarningCode::Malformed => "malformed_http_message",
            WarningCode::TruncatedMessage => "truncated_message",
            WarningCode::UnsupportedTransferEncoding => "unsupported_transfer_encoding",
            WarningCode::UnsupportedCloseDelimitedBody => "unsupported_close_delimited_body",
            WarningCode::UnsupportedInformationalResponse => "unsupported_informational_response",
            WarningCode::UnsupportedTarget => "unsupported_request_target",
            WarningCode::UnsupportedUpgrade => "unsupported_upgrade",
            WarningCode::UnsupportedVersion => "unsupported_http_version",
            WarningCode::Pipelined => "pipelined_requests",
        }
    }
}

/// The stable warning recorded when traffic is preserved as opaque after a
/// decode error, classified by what the error message names: transfer
/// encoding, close-delimited bodies, informational responses, request
/// targets or CONNECT, upgrades, versions; anything else is malformed.
pub open spec fn warning_for_reason(r: MalformedReason) -> WarningCode {
    match r {
        MalformedReason::UnsupportedTransferEncoding => WarningCode::UnsupportedTransferEncoding,
        MalformedReason::CloseDelimited => WarningCode::UnsupportedCloseDelimitedBody,
        MalformedReason::Informational => WarningCode::UnsupportedInformationalResponse,
        MalformedReason::ConnectTarget | MalformedReason::MissingTarget | MalformedReason::UnsupportedTarget =>
            WarningCode::UnsupportedTarget,
        MalformedReason::UnsupportedUpgrade => WarningCode::UnsupportedUpgrade,
        MalformedReason::UnsupportedRequestVersion | MalformedReason::UnsupportedResponseVersion
        | MalformedReason::Head(crate::protocol::HttparseError::Version) => WarningCode::UnsupportedVersion,
        _ => WarningCode::Malformed,
    }
}

/// The warning for a decode error; errors other than malformed traffic
/// count as malformed.
pub open spec fn warning_for_error(e: ProtocolError) -> WarningCode {
    match e {
        ProtocolError::Malformed { reason, .. } => warning_for_reason(reason),
        _ => WarningCode::Malformed,
    }
}

pub fn warning_for(error: &ProtocolError) -> (w: WarningCode)
    ensures
        w == warning_for_error(*error),
{
    match error {
        ProtocolError::Malformed { reason, .. } => match reason {
            MalformedReason::UnsupportedTransferEncoding => WarningCode::UnsupportedTransferEncoding,
            MalformedReason::CloseDelimited => WarningCode::UnsupportedCloseDelimitedBody,
            MalformedReason::Informational => WarningCode::UnsupportedInformationalResponse,
            MalformedReason::ConnectTarget | MalformedReason::MissingTarget | MalformedReason::UnsupportedTarget =>
                WarningCode::UnsupportedTarget,
            MalformedReason::UnsupportedUpgrade => WarningCode::UnsupportedUpgrade,
            MalformedReason::UnsupportedRequestVersion | MalformedReason::UnsupportedResponseVersion
            | MalformedReason::Head(crate::protocol::HttparseError::Version) => WarningCode::UnsupportedVersion,
            _ => WarningCode::Malformed,
        },
        _ => WarningCode::Malformed,
    }
}

/// A malformed-HTTP error with the given reason.
pub fn malformed(reason: MalformedReason) -> (e: ProtocolError)
    ensures
        e matches ProtocolError::Malformed { protocol, reason: r } && r == reason && protocol@ == "http/1.1"@,
{
    ProtocolError::Malformed { protocol: String::from_str("http/1.1"), reason }
}

/// `e` is a malformed-HTTP error for `reason`.
pub open spec fn is_malformed(e: ProtocolError, reason: MalformedReason) -> bool {
    e matches ProtocolError::Malformed { reason: r, .. } && r == reason
}

// ---------------------------------------------------------------------------
// Tokens and detection

pub open spec fn token_byte(b: u8) -> bool {
    is_digit(b) || is_alpha(b) || b == 33 || b == 35 || b == 36 || b == 37 || b == 38 || b == 39 || b == 42
        || b == 43 || b == 45 || b == 46 || b == 94 || b == 95 || b == 96 || b == 124 || b == 126
}

pub fn is_token_byte(byte: u8) -> (r: bool)
    ensures
        r == token_byte(byte),
{
    (48 <= byte && byte <= 57) || (65 <= byte && byte <= 90) || (97 <= byte && byte <= 122)
        || byte == 33 || byte == 35 || byte == 36 || byte == 37 || byte == 38 || byte == 39
        || byte == 42 || byte == 43 || byte == 45 || byte == 46 || byte == 94 || byte == 95
        || byte == 96 || byte == 124 || byte == 126
}

pub open spec fn token_seq(b: Seq<u8>) -> bool {
    b.len() > 0 && forall|i: int| 0 <= i < b.len() ==> token_byte(#[trigger] b[i])
}

pub fn is_token(bytes: &[u8]) -> (r: bool)
    ensures
        r == token_seq(bytes@),
{
    if bytes.len() == 0 {
        return false;
    }
    let mut i: usize = 0;
    while i < bytes.len()
        invariant
            i <= bytes@.len(),
            forall|j: int| 0 <= j < i ==> token_byte(#[trigger] bytes@[j]),
        decreases bytes.len() - i,
    {
        if !is_token_byte(bytes[i]) {
            return false;
        }
        i = i + 1;
    }
    true
}

/// Every byte before the first space is a token byte.
pub open spec fn request_prefix_ok(b: Seq<u8>) -> bool {
    forall|i: int| 0 <= i < b.len() && (forall|j: int| 0 <= j <= i ==> b[j] != 32) ==> token_byte(#[trigger] b[i])
}

pub fn is_request_prefix(bytes: &[u8]) -> (r: bool)
    ensures
        r == request_prefix_ok(bytes@),
{
    let mut i: usize = 0;
    while i < bytes.len() && bytes[i] != 32
        invariant
            i <= bytes@.len(),
            forall|j: int| 0 <= j < i ==> bytes@[j] != 32 && token_byte(#[trigger] bytes@[j]),
        decreases bytes.len() - i,
    {
        if !is_token_byte(bytes[i]) {
            return false;
        }
        i = i + 1;
    }
    proof {
        assert forall|k: int| 0 <= k < bytes@.len() && (forall|j: int| 0 <= j <= k ==> bytes@[j] != 32) implies token_byte(#[trigger] bytes@[k]) by {
            if k >= i {
                assert(bytes@[i as int] != 32);
            }
        }
    }
    true
}

pub open spec fn tls_record_prefix() -> Seq<u8> {
    seq![22u8, 3]
}

/// `PRI * HTTP/2.0`, the HTTP/2 connection preface.
pub open spec fn http2_preface() -> Seq<u8> {
    seq![80u8, 82, 73, 32, 42, 32, 72, 84, 84, 80, 47, 50, 46, 48]
}

/// `HTTP/1.1`
pub open spec fn http11() -> Seq<u8> {
    seq![72u8, 84, 84, 80, 47, 49, 46, 49]
}

fn http11_bytes() -> (v: Vec<u8>)
    ensures
        v@ == http11(),
{
    let v = vec![72u8, 84, 84, 80, 47, 49, 46, 49];
    assert(v@ =~= http11());
    v
}

/// Positions `i < j` are the only two spaces of `line`.
pub open spec fn two_spaces_at(line: Seq<u8>, i: int, j: int) -> bool {
    &&& 0 <= i < j < line.len()
    &&& line[i] == 32
    &&& line[j] == 32
    &&& forall|k: int| 0 <= k < line.len() && k != i && k != j ==> line[k] != 32
}

/// The three parts around spaces `i` and `j` form a valid request line.
pub open spec fn request_parts_valid(line: Seq<u8>, i: int, j: int) -> bool {
    &&& token_seq(line.subrange(0, i))
    &&& j > i + 1
    &&& line[i + 1] == 47
    &&& line.subrange(j + 1, line.len() as int) == http11()
}

/// A request line: `method SP target SP version` with exactly two spaces,
/// a token method, an origin-form target and version `HTTP/1.1`.
pub open spec fn request_line_valid(line: Seq<u8>) -> bool {
    exists|i: int, j: int| #[trigger] two_spaces_at(line, i, j) && request_parts_valid(line, i, j)
}

/// What request-side detection concludes from the first client bytes.
pub open spec fn request_detection(b: Seq<u8>, r: Option<DetectionResult>) -> bool {
    if seq_starts_with(b, tls_record_prefix()) || seq_starts_with(b, http2_preface()) {
        r == Some(DetectionResult::Rejected)
    } else if first_crlf(b, 0) == -1 {
        if b.len() >= MAX_HEAD_BYTES {
            r == Some(DetectionResult::Rejected)
        } else if request_prefix_ok(b) {
            r == Some(DetectionResult::NeedMoreData { minimum_additional_bytes: 1 })
        } else {
            r is None
        }
    } else if request_line_valid(b.subrange(0, first_crlf(b, 0))) {
        r matches Some(DetectionResult::Confirmed { confidence, evidence })
            && confidence == 100 && evidence@ == "validated HTTP/1.1 request line"@
    } else {
        r == Some(DetectionResult::Rejected)
    }
}

fn check_request_line(line: &[u8]) -> (r: bool)
    ensures
        r == request_line_valid(line@),
{
    let n = line.len();
    let i = match find_byte(line, 0, 32) {
        Some(i) => i,
        None => {
            proof {
                if request_line_valid(line@) {
                    let (a, c) = choose|a: int, c: int| #[trigger] two_spaces_at(line@, a, c) && request_parts_valid(line@, a, c);
                    assert(line@[a] == 32);
                }
            }
            return false;
        },
    };
    let j = match find_byte(line, i + 1, 32) {
        Some(j) => j,
        None => {
            proof {
                if request_line_valid(line@) {
                    let (a, c) = choose|a: int, c: int| #[trigger] two_spaces_at(line@, a, c) && request_parts_valid(line@, a, c);
                    assert(line@[c] == 32);
                }
            }
            return false;
        },
    };
    if let Some(k) = find_byte(line, j + 1, 32) {
        proof {
            if request_line_valid(line@) {
                let (a, c) = choose|a: int, c: int| #[trigger] two_spaces_at(line@, a, c) && request_parts_valid(line@, a, c);
                assert(line@[i as int] == 32 && line@[j as int] == 32 && line@[k as int] == 32);
            }
        }
        return false;
    }
    proof {
        assert(two_spaces_at(line@, i as int, j as int));
        assert forall|a: int, c: int| #[trigger] two_spaces_at(line@, a, c) implies a == i && c == j by {
            assert(line@[a] == 32 && line@[c] == 32);
        }
    }
    let r = is_token(&line[0..i]) && j > i + 1 && line[i + 1] == 47 && bytes_equal(&line[j + 1..n], http11_bytes().as_slice());
    proof {
        if r {
            assert(request_parts_valid(line@, i as int, j as int));
        }
    }
    r
}

pub fn detect_request_prefix(bytes: &[u8]) -> (r: Option<DetectionResult>)
    ensures
        request_detection(bytes@, r),
{
    let tls = vec![22u8, 3];
    let pri = vec![80u8, 82, 73, 32, 42, 32, 72, 84, 84, 80, 47, 50, 46, 48];
    proof {
        assert(tls@ =~= tls_record_prefix());
        assert(pri@ =~= http2_preface());
    }
    if starts_with(bytes, tls.as_slice()) || starts_with(bytes, pri.as_slice()) {
        return Some(DetectionResult::Rejected);
    }
    match find_crlf(bytes, 0) {
        None => {
            proof { lemma_no_first_crlf(bytes@, 0); }
            if bytes.len() >= MAX_HEAD_BYTES {
                return Some(DetectionResult::Rejected);
            }
            if is_request_prefix(bytes) {
                Some(DetectionResult::NeedMoreData { minimum_additional_bytes: 1 })
            } else {
                None
            }
        },
        Some(line_end) => {
            proof { lemma_first_crlf(bytes@, 0, line_end as int); }
            if check_request_line(&bytes[0..line_end]) {
                Some(DetectionResult::Confirmed {
                    confidence: 100,
                    evidence: String::from_str("validated HTTP/1.1 request line"),
                })
            } else {
                Some(DetectionResult::Rejected)
            }
        },
    }
}

/// `HTTP/1.1 ` (with the trailing space).
pub open spec fn http11_status_prefix() -> Seq<u8> {
    http11().push(32u8)
}

/// What response-side detection concludes from the first server bytes.
pub open spec fn response_detection(b: Seq<u8>, r: DetectionResult) -> bool {
    if seq_starts_with(b, http11_status_prefix()) {
        if first_crlf(b, 0) != -1 {
            r matches DetectionResult::Probable { confidence, evidence }
                && confidence == 90 && evidence@ == "HTTP/1.1 status line"@
        } else {
            r == DetectionResult::NeedMoreData { minimum_additional_bytes: 1 }
        }
    } else {
        r == DetectionResult::Unknown
    }
}

pub fn detect_response_prefix(bytes: &[u8]) -> (r: DetectionResult)
    ensures
        response_detection(bytes@, r),
{
    let prefix = vec![72u8, 84, 84, 80, 47, 49, 46, 49, 32];
    proof { assert(prefix@ =~= http11_status_prefix()); }
    if starts_with(bytes, prefix.as_slice()) {
        match find_crlf(bytes, 0) {
            Some(i) => {
                proof { lemma_first_crlf(bytes@, 0, i as int); }
                DetectionResult::Probable { confidence: 90, evidence: String::from_str("HTTP/1.1 status line") }
            },
            None => {
                proof { lemma_no_first_crlf(bytes@, 0); }
                DetectionResult::NeedMoreData { minimum_additional_bytes: 1 }
            },
        }
    } else {
        DetectionResult::Unknown
    }
}

/// Close-delimited response bodies are trusted only after a clean close,
/// with no reconstruction bound reached and every loss window outside the
/// connection.
pub open spec fn close_is_trusted(
    termination: DerivedTermination,
    finalization: Option<ReconstructionFinalization>,
    losses: Seq<LossWindowClassification>,
) -> bool {
    &&& termination == DerivedTermination::CleanClose
    &&& finalization is None
    &&& forall|i: int| 0 <= i < losses.len() ==> #[trigger] losses[i] == LossWindowClassification::Outside
}

pub fn trusted_close(
    termination: DerivedTermination,
    finalization: Option<ReconstructionFinalization>,
    losses: &[LossWindowClassification],
) -> (r: bool)
    ensures
        r == close_is_trusted(termination, finalization, losses@),
{
    if termination != DerivedTermination::CleanClose || finalization.is_some() {
        return false;
    }
    let mut i: usize = 0;
    while i < losses.len()
        invariant
            i <= losses@.len(),
            forall|j: int| 0 <= j < i ==> #[trigger] losses@[j] == LossWindowClassification::Outside,
        decreases losses.len() - i,
    {
        if losses[i] != LossWindowClassification::Outside {
            return false;
        }
        i = i + 1;
    }
    true
}

} // verus!

verus! {

// ---------------------------------------------------------------------------
// Headers

#[derive(Clone, Debug, PartialEq, Eq)]
pub struct HeaderV1 {
    pub name: String,
    pub value: Vec<u8>,
}

/// The mathematical content of a header.
pub struct HeaderView {
    pub name: Seq<char>,
    pub value: Seq<u8>,
}

impl View for HeaderV1 {
    type V = HeaderView;

    open spec fn view(&self) -> HeaderView {
        HeaderView { name: self.name@, value: self.value@ }
    }
}

pub open spec fn headers_view(hs: Seq<HeaderV1>) -> Seq<HeaderView> {
    hs.map_values(|h: HeaderV1| h@)
}

impl HeaderV1 {
    /// A field-by-field copy.
    pub fn duplicate(&self) -> (c: Self)
        ensures
            c@ == self@,
    {
        let value = self.value.clone();
        assert(value@ =~= self.value@);
        HeaderV1 { name: self.name.clone(), value }
    }

    /// Whether this header's (already lower-cased) name is `name`.
    pub fn named(&self, name: &str) -> (r: bool)
        ensures
            r == (self.name@ == name@),
    {
        str_eq(self.name.as_str(), name)
    }
}

/// A copy of a header list.
pub fn duplicate_headers(hs: &Vec<HeaderV1>) -> (c: Vec<HeaderV1>)
    ensures
        headers_view(c@) == headers_view(hs@),
{
    let mut c: Vec<HeaderV1> = Vec::new();
    let mut i: usize = 0;
    while i < hs.len()
        invariant
            i <= hs@.len(),
            c@.len() == i,
            forall|j: int| 0 <= j < i ==> #[trigger] c@[j]@ == hs@[j]@,
        decreases hs.len() - i,
    {
        c.push(hs[i].duplicate());
        i = i + 1;
    }
    assert(headers_view(c@) =~= headers_view(hs@));
    c
}

/// Number of headers in `hs` named `name`.
pub open spec fn count_named(hs: Seq<HeaderView>, name: Seq<char>) -> nat
    decreases hs.len(),
{
    if hs.len() == 0 {
        0
    } else {
        count_named(hs.drop_last(), name) + if hs.last().name == name { 1nat } else { 0nat }
    }
}

pub open spec fn any_named(hs: Seq<HeaderView>, name: Seq<char>) -> bool {
    exists|i: int| 0 <= i < hs.len() && #[trigger] hs[i].name == name
}

/// Whether some header is named `name`.
pub fn has_header(headers: &[HeaderV1], name: &str) -> (r: bool)
    ensures
        r == any_named(headers_view(headers@), name@),
{
    let mut i: usize = 0;
    while i < headers.len()
        invariant
            i <= headers@.len(),
            forall|j: int| 0 <= j < i ==> #[trigger] headers@[j].name@ != name@,
        decreases headers.len() - i,
    {
        if headers[i].named(name) {
            assert(headers_view(headers@)[i as int].name == name@);
            return true;
        }
        i = i + 1;
    }
    proof {
        assert forall|j: int| 0 <= j < headers@.len() implies #[trigger] headers_view(headers@)[j].name != name@ by {
            assert(headers@[j].name@ != name@);
        }
    }
    false
}

pub open spec fn all_digits(v: Seq<u8>) -> bool {
    forall|i: int| 0 <= i < v.len() ==> is_digit(#[trigger] v[i])
}

/// What a single `Content-Length` value yields.
pub open spec fn content_length_value(v: Seq<u8>, r: Result<usize, ProtocolError>) -> bool {
    if v.len() == 0 || !all_digits(v) {
        r matches Err(e) && is_malformed(e, MalformedReason::InvalidContentLength)
    } else if decimal_value(v) > usize::MAX {
        r matches Err(e) && is_malformed(e, MalformedReason::OverflowingContentLength)
    } else {
        r == Ok::<usize, ProtocolError>(decimal_value(v) as usize)
    }
}

/// The body length that the `Content-Length` headers declare: zero without
/// one, an error for duplicates, else the single unsigned decimal value.
pub open spec fn content_length_result(hs: Seq<HeaderView>, r: Result<usize, ProtocolError>) -> bool {
    let cl = "content-length"@;
    if count_named(hs, cl) == 0 {
        r == Ok::<usize, ProtocolError>(0)
    } else if count_named(hs, cl) > 1 {
        r matches Err(e) && is_malformed(e, MalformedReason::DuplicateContentLength)
    } else {
        forall|i: int| 0 <= i < hs.len() && #[trigger] hs[i].name == cl ==> content_length_value(hs[i].value, r)
    }
}

pub proof fn lemma_count_unique(hs: Seq<HeaderView>, name: Seq<char>, i: int, j: int)
    requires
        0 <= i < hs.len(),
        0 <= j < hs.len(),
        hs[i].name == name,
        hs[j].name == name,
        count_named(hs, name) == 1,
    ensures
        i == j,
    decreases hs.len(),
{
    let n = hs.len() - 1;
    if i != n && j != n {
        if hs.last().name == name {
            lemma_count_positive(hs.drop_last(), name, i);
        }
        lemma_count_unique(hs.drop_last(), name, i, j);
    } else if i == n && j != n {
        lemma_count_positive(hs.drop_last(), name, j);
    } else if j == n && i != n {
        lemma_count_positive(hs.drop_last(), name, i);
    }
}

pub proof fn lemma_count_positive(hs: Seq<HeaderView>, name: Seq<char>, i: int)
    requires
        0 <= i < hs.len(),
        hs[i].name == name,
    ensures
        count_named(hs, name) >= 1,
    decreases hs.len(),
{
    if i < hs.len() - 1 {
        lemma_count_positive(hs.drop_last(), name, i);
    }
}

#[verifier::loop_isolation(false)]
pub fn content_length(headers: &[HeaderV1]) -> (r: Result<usize, ProtocolError>)
    ensures
        content_length_result(headers_view(headers@), r),
{
    let ghost hv = headers_view(headers@);
    let ghost cl = "content-length"@;
    let mut found: Option<usize> = None;
    let mut i: usize = 0;
    while i < headers.len()
        invariant
            hv == headers_view(headers@),
            cl == "content-length"@,
            i <= headers@.len(),
            match found {
                None => count_named(hv.subrange(0, i as int), cl) == 0,
                Some(f) => f < i && hv[f as int].name == cl && count_named(hv.subrange(0, i as int), cl) == 1,
            },
        decreases headers.len() - i,
    {
        proof {
            assert(hv.subrange(0, i + 1).drop_last() =~= hv.subrange(0, i as int));
            assert(hv[i as int] == headers@[i as int]@);
        }
        if headers[i].named("content-length") {
            if found.is_some() {
                proof {
                    assert(count_named(hv.subrange(0, i + 1), cl) == 2);
                    assert(hv.subrange(0, i + 1) =~= hv.subrange(0, i + 1));
                    lemma_count_prefix(hv, cl, i + 1);
                }
                return Err(malformed(MalformedReason::DuplicateContentLength));
            }
            found = Some(i);
        }
        i = i + 1;
    }
    proof { assert(hv.subrange(0, headers@.len() as int) =~= hv); }
    let f = match found {
        None => return Ok(0),
        Some(f) => f,
    };
    proof {
        assert forall|k: int| 0 <= k < hv.len() && #[trigger] hv[k].name == cl implies k == f by {
            lemma_count_unique(hv, cl, k, f as int);
        }
    }
    let value = headers[f].value.as_slice();
    assert(value@ == hv[f as int].value);
    if value.len() == 0 {
        return Err(malformed(MalformedReason::InvalidContentLength));
    }
    let mut k: usize = 0;
    while k < value.len()
        invariant
            k <= value@.len(),
            f < hv.len(),
            value@ == hv[f as int].value,
            forall|j: int| 0 <= j < k ==> is_digit(#[trigger] value@[j]),
        decreases value.len() - k,
    {
        if !(48 <= value[k] && value[k] <= 57) {
            assert(!is_digit(value@[k as int]));
            assert(!all_digits(hv[f as int].value));
            return Err(malformed(MalformedReason::InvalidContentLength));
        }
        k = k + 1;
    }
    proof { assert(value@.subrange(0, value@.len() as int) =~= value@); }
    match parse_decimal(value, 0, value.len()) {
        Some(v) => Ok(v),
        None => Err(malformed(MalformedReason::OverflowingContentLength)),
    }
}

pub proof fn lemma_count_prefix(hs: Seq<HeaderView>, name: Seq<char>, n: int)
    requires
        0 <= n <= hs.len(),
    ensures
        count_named(hs.subrange(0, n), name) <= count_named(hs, name),
    decreases hs.len() - n,
{
    if n < hs.len() {
        lemma_count_prefix(hs, name, n + 1);
        assert(hs.subrange(0, n + 1).drop_last() =~= hs.subrange(0, n));
    } else {
        assert(hs.subrange(0, n) =~= hs);
    }
}

} // verus!

verus! {

// ---------------------------------------------------------------------------
// Messages

#[derive(Clone, Copy, Debug, PartialEq, Eq, Structural)]
pub enum MessageKindV1 {
    Request,
    Response,
    Opaque,
}

#[derive(Clone, Debug, PartialEq, Eq)]
pub struct MessageV1 {
    pub kind: MessageKindV1,
    pub sequence: u64,
    pub method: Option<String>,
    pub target: Option<String>,
    pub status: Option<u16>,
    pub reason: Option<Vec<u8>>,
    pub headers: Vec<HeaderV1>,
    pub body: Vec<u8>,
    pub pipeline_depth: usize,
    pub orphan_response: bool,
    pub warnings: Vec<String>,
}

pub open spec fn opt_string_view(o: Option<String>) -> Option<Seq<char>> {
    match o {
        Some(s) => Some(s@),
        None => None,
    }
}

pub open spec fn opt_bytes_view(o: Option<Vec<u8>>) -> Option<Seq<u8>> {
    match o {
        Some(v) => Some(v@),
        None => None,
    }
}

pub open spec fn strings_view(s: Seq<String>) -> Seq<Seq<char>> {
    s.map_values(|x: String| x@)
}

/// The mathematical content of a message.
pub struct MessageView {
    pub kind: MessageKindV1,
    pub sequence: u64,
    pub method: Option<Seq<char>>,
    pub target: Option<Seq<char>>,
    pub status: Option<u16>,
    pub reason: Option<Seq<u8>>,
    pub headers: Seq<HeaderView>,
    pub body: Seq<u8>,
    pub pipeline_depth: usize,
    pub orphan_response: bool,
    pub warnings: Seq<Seq<char>>,
}

impl View for MessageV1 {
    type V = MessageView;

    open spec fn view(&self) -> MessageView {
        MessageView {
            kind: self.kind,
            sequence: self.sequence,
            method: opt_string_view(self.method),
            target: opt_string_view(self.target),
            status: self.status,
            reason: opt_bytes_view(self.reason),
            headers: headers_view(self.headers@),
            body: self.body@,
            pipeline_depth: self.pipeline_depth,
            orphan_response: self.orphan_response,
            warnings: strings_view(self.warnings@),
        }
    }
}

/// Calls `String::from_utf8` on bytes that are valid UTF-8; the contract
/// claims the result holds the characters those bytes encode.
#[verifier::external_body]
fn utf8_string(bytes: Vec<u8>) -> (s: String)
    requires
        vstd::utf8::valid_utf8(bytes@),
    ensures
        s@ == vstd::utf8::decode_utf8(bytes@),
{
    String::from_utf8(bytes).unwrap_or_default()
}

/// The characters of an ASCII byte string.
pub open spec fn ascii_chars(b: Seq<u8>) -> Seq<char> {
    b.map_values(|x: u8| x as char)
}

pub open spec fn all_ascii(b: Seq<u8>) -> bool {
    forall|i: int| 0 <= i < b.len() ==> #[trigger] b[i] < 128
}

proof fn lemma_ascii_decode(b: Seq<u8>)
    requires
        all_ascii(b),
    ensures
        vstd::utf8::valid_utf8(b),
        vstd::utf8::decode_utf8(b) == ascii_chars(b),
{
    let c = ascii_chars(b);
    assert(vstd::utf8::is_ascii_chars(c)) by {
        assert forall|i: int| 0 <= i < c.len() implies (#[trigger] c[i]) as u32 <= 127 by {
            assert(c[i] == b[i] as char);
        }
    }
    vstd::utf8::is_ascii_chars_encode_utf8(c);
    assert(vstd::utf8::encode_utf8(c) =~= b) by {
        assert forall|i: int| 0 <= i < b.len() implies #[trigger] vstd::utf8::encode_utf8(c)[i] == b[i] by {
            assert(c[i] as u8 == b[i]);
        }
    }
    vstd::utf8::encode_utf8_valid_utf8(c);
    vstd::utf8::encode_utf8_decode_utf8(c);
}

/// An ASCII byte string as a `String`.
pub fn ascii_string(bytes: Vec<u8>) -> (s: String)
    requires
        all_ascii(bytes@),
    ensures
        s@ == ascii_chars(bytes@),
{
    proof { lemma_ascii_decode(bytes@); }
    utf8_string(bytes)
}

} // verus!

verus! {

/// `upgrade`
pub open spec fn upgrade_token() -> Seq<u8> {
    seq![117u8, 112, 103, 114, 97, 100, 101]
}

/// `[a, b)` is one of the comma-separated items of `v`.
pub open spec fn comma_item(v: Seq<u8>, a: int, b: int) -> bool {
    &&& 0 <= a <= b <= v.len()
    &&& (a == 0 || v[a - 1] == 44)
    &&& (b == v.len() || v[b] == 44)
    &&& forall|k: int| a <= k < b ==> v[k] != 44
}

/// Some comma-separated item of `v`, trimmed, is `upgrade` in any case.
pub open spec fn lists_upgrade(v: Seq<u8>) -> bool {
    exists|a: int, b: int| #[trigger] comma_item(v, a, b) && eq_ignore_case(trim_ascii(v.subrange(a, b)), upgrade_token())
}

fn value_lists_upgrade(v: &[u8]) -> (r: bool)
    ensures
        r == lists_upgrade(v@),
{
    let token = vec![117u8, 112, 103, 114, 97, 100, 101];
    assert(token@ =~= upgrade_token());
    let n = v.len();
    let mut start: usize = 0;
    loop
        invariant
            n == v@.len(),
            start <= n,
            token@ == upgrade_token(),
            start == 0 || v@[start - 1] == 44,
            forall|a: int, b: int| #[trigger] comma_item(v@, a, b) && a < start
                ==> !eq_ignore_case(trim_ascii(v@.subrange(a, b)), upgrade_token()),
        decreases n - start,
    {
        let end = match find_byte(v, start, 44) {
            Some(e) => e,
            None => n,
        };
        assert(comma_item(v@, start as int, end as int));
        let (s, e) = trim_bounds(v, start, end);
        let hit = bytes_eq_ignore_case(&v[s..e], token.as_slice());
        proof {
            assert(v@.subrange(s as int, e as int) =~= v@.subrange(s as int, e as int));
        }
        if hit {
            return true;
        }
        proof {
            assert forall|a: int, b: int| #[trigger] comma_item(v@, a, b) && a < end + 1
                implies !eq_ignore_case(trim_ascii(v@.subrange(a, b)), upgrade_token()) by {
                if a >= start {
                    if a > start {
                        assert(v@[a - 1] == 44);
                    }
                    assert(a == start);
                    if b < end {
                        assert(v@[b] == 44);
                    }
                    if b > end {
                        assert(v@[end as int] == 44);
                    }
                    assert(b == end);
                }
            }
        }
        if end == n {
            proof {
                assert forall|a: int, b: int| #[trigger] comma_item(v@, a, b)
                    implies !eq_ignore_case(trim_ascii(v@.subrange(a, b)), upgrade_token()) by {
                    assert(a <= n);
                }
            }
            return false;
        }
        start = end + 1;
    }
}

/// The upgrade rule: an `upgrade` header, or a `connection` header listing
/// `upgrade`.
pub open spec fn header_requests_upgrade(h: HeaderView) -> bool {
    h.name == "upgrade"@ || (h.name == "connection"@ && lists_upgrade(h.value))
}

pub open spec fn any_upgrade(hs: Seq<HeaderView>) -> bool {
    exists|i: int| 0 <= i < hs.len() && header_requests_upgrade(#[trigger] hs[i])
}

pub fn reject_upgrade_headers(headers: &[HeaderV1]) -> (r: Result<(), ProtocolError>)
    ensures
        r is Ok <==> !any_upgrade(headers_view(headers@)),
        r matches Err(e) ==> is_malformed(e, MalformedReason::UnsupportedUpgrade),
{
    let ghost hv = headers_view(headers@);
    let mut i: usize = 0;
    while i < headers.len()
        invariant
            hv == headers_view(headers@),
            i <= headers@.len(),
            forall|j: int| 0 <= j < i ==> !header_requests_upgrade(#[trigger] hv[j]),
        decreases headers.len() - i,
    {
        let h = &headers[i];
        assert(hv[i as int] == h@);
        if h.named("upgrade") || (h.named("connection") && value_lists_upgrade(h.value.as_slice())) {
            return Err(malformed(MalformedReason::UnsupportedUpgrade));
        }
        i = i + 1;
    }
    Ok(())
}

pub fn reject_unsupported_headers(headers: &[HeaderV1]) -> (r: Result<(), ProtocolError>)
    ensures
        r is Ok <==> !any_named(headers_view(headers@), "transfer-encoding"@) && !any_upgrade(headers_view(headers@)),
        r matches Err(e) ==> if any_named(headers_view(headers@), "transfer-encoding"@) {
            is_malformed(e, MalformedReason::UnsupportedTransferEncoding)
        } else {
            is_malformed(e, MalformedReason::UnsupportedUpgrade)
        },
{
    if has_header(headers, "transfer-encoding") {
        return Err(malformed(MalformedReason::UnsupportedTransferEncoding));
    }
    reject_upgrade_headers(headers)
}

/// A header as the parser reports it, before names are normalized.
pub struct RawHeader {
    pub name: String,
    pub value: Vec<u8>,
}

pub struct RawHeaderView {
    pub name: Seq<char>,
    pub value: Seq<u8>,
}

impl View for RawHeader {
    type V = RawHeaderView;

    open spec fn view(&self) -> RawHeaderView {
        RawHeaderView { name: self.name@, value: self.value@ }
    }
}

pub open spec fn raw_headers_view(hs: Seq<RawHeader>) -> Seq<RawHeaderView> {
    hs.map_values(|h: RawHeader| h@)
}

pub open spec fn chars_ascii(s: Seq<char>) -> bool {
    forall|i: int| 0 <= i < s.len() ==> (#[trigger] s[i]) as u32 <= 127
}

/// ASCII lower-casing of a character string.
pub open spec fn lower_chars(s: Seq<char>) -> Seq<char> {
    s.map_values(|c: char| lower_byte((c as u32) as u8) as char)
}

/// Normalized headers: lower-cased names, values unchanged.
pub open spec fn normalized(raw: Seq<RawHeaderView>) -> Seq<HeaderView> {
    raw.map_values(|h: RawHeaderView| HeaderView { name: lower_chars(h.name), value: h.value })
}

pub open spec fn all_names_ascii(raw: Seq<RawHeaderView>) -> bool {
    forall|i: int| 0 <= i < raw.len() ==> chars_ascii(#[trigger] raw[i].name)
}

fn lowercase_name(name: &String) -> (r: Result<String, ProtocolError>)
    ensures
        match r {
            Ok(s) => chars_ascii(name@) && s@ == lower_chars(name@),
            Err(e) => !chars_ascii(name@) && is_malformed(e, MalformedReason::NonAsciiHeaderName),
        },
{
    let text = name.as_str();
    let n = text.unicode_len();
    let mut out: Vec<u8> = Vec::new();
    let mut i: usize = 0;
    while i < n
        invariant
            text@ == name@,
            n == name@.len(),
            i <= n,
            out@.len() == i,
            forall|j: int| 0 <= j < i ==> (#[trigger] name@[j]) as u32 <= 127 && out@[j] == lower_byte((name@[j] as u32) as u8),
        decreases n - i,
    {
        let c = text.get_char(i);
        let code = c as u32;
        if code > 127 {
            return Err(malformed(MalformedReason::NonAsciiHeaderName));
        }
        out.push(to_lower_byte(code as u8));
        i = i + 1;
    }
    proof {
        assert forall|j: int| 0 <= j < out@.len() implies #[trigger] out@[j] < 128 by {
            assert((name@[j]) as u32 <= 127);
        }
        assert(ascii_chars(out@) =~= lower_chars(name@));
    }
    Ok(ascii_string(out))
}

} // verus!

verus! {

pub fn normalize_headers(raw: &Vec<RawHeader>) -> (r: Result<Vec<HeaderV1>, ProtocolError>)
    ensures
        match r {
            Ok(hs) => all_names_ascii(raw_headers_view(raw@)) && headers_view(hs@) == normalized(raw_headers_view(raw@)),
            Err(e) => !all_names_ascii(raw_headers_view(raw@)) && is_malformed(e, MalformedReason::NonAsciiHeaderName),
        },
{
    let ghost rv = raw_headers_view(raw@);
    let mut out: Vec<HeaderV1> = Vec::new();
    let mut i: usize = 0;
    while i < raw.len()
        invariant
            rv == raw_headers_view(raw@),
            i <= raw@.len(),
            out@.len() == i,
            forall|j: int| 0 <= j < i ==> chars_ascii(#[trigger] rv[j].name),
            forall|j: int| 0 <= j < i ==> #[trigger] out@[j]@ == normalized(rv)[j],
        decreases raw.len() - i,
    {
        let name = match lowercase_name(&raw[i].name) {
            Ok(n) => n,
            Err(e) => {
                assert(!chars_ascii(rv[i as int].name));
                return Err(e);
            },
        };
        let value = raw[i].value.clone();
        assert(value@ =~= raw@[i as int].value@);
        out.push(HeaderV1 { name, value });
        i = i + 1;
    }
    proof {
        assert(headers_view(out@) =~= normalized(rv));
    }
    Ok(out)
}

/// Outcome of an `httparse` parse pass over a buffer.
#[derive(Clone, Debug, PartialEq, Eq)]
pub enum HeadStatus {
    /// No invalid byte was found, but the head is not complete.
    Partial,
    /// The head is complete and this many bytes long.
    Complete(usize),
    /// The head is invalid; the parser's error message.
    Invalid(String),
}

pub enum HeadStatusView {
    Partial,
    Complete(usize),
    Invalid(Seq<char>),
}

impl View for HeadStatus {
    type V = HeadStatusView;

    open spec fn view(&self) -> HeadStatusView {
        match self {
            HeadStatus::Partial => HeadStatusView::Partial,
            HeadStatus::Complete(n) => HeadStatusView::Complete(*n),
            HeadStatus::Invalid(m) => HeadStatusView::Invalid(m@),
        }
    }
}

/// A request head as `httparse` reports it.
pub struct RequestHead {
    pub status: HeadStatus,
    pub method: Option<String>,
    pub path: Option<String>,
    pub version: Option<u8>,
    pub headers: Vec<RawHeader>,
}

pub struct RequestHeadView {
    pub status: HeadStatusView,
    pub method: Option<Seq<char>>,
    pub path: Option<Seq<char>>,
    pub version: Option<u8>,
    pub headers: Seq<RawHeaderView>,
}

impl View for RequestHead {
    type V = RequestHeadView;

    open spec fn view(&self) -> RequestHeadView {
        RequestHeadView {
            status: self.status@,
            method: opt_string_view(self.method),
            path: opt_string_view(self.path),
            version: self.version,
            headers: raw_headers_view(self.headers@),
        }
    }
}

/// A response head as `httparse` reports it.
pub struct ResponseHead {
    pub status: HeadStatus,
    pub version: Option<u8>,
    pub code: Option<u16>,
    pub reason: Option<Vec<u8>>,
    pub headers: Vec<RawHeader>,
}

pub struct ResponseHeadView {
    pub status: HeadStatusView,
    pub version: Option<u8>,
    pub code: Option<u16>,
    pub reason: Option<Seq<u8>>,
    pub headers: Seq<RawHeaderView>,
}

impl View for ResponseHead {
    type V = ResponseHeadView;

    open spec fn view(&self) -> ResponseHeadView {
        ResponseHeadView {
            status: self.status@,
            version: self.version,
            code: self.code,
            reason: opt_bytes_view(self.reason),
            headers: raw_headers_view(self.headers@),
        }
    }
}

/// What `httparse::Request::parse` reports for a buffer, with room for
/// 128 headers.
pub uninterp spec fn httparse_request(bytes: Seq<u8>) -> RequestHeadView;

/// What `httparse::Response::parse` reports for a buffer, with room for
/// 128 headers.
pub uninterp spec fn httparse_response(bytes: Seq<u8>) -> ResponseHeadView;

/// Calls `httparse::Request::parse` with room for 128 headers. The
/// contract names the report and claims only that a complete head is not
/// empty and lies within the buffer.
#[verifier::external_body]
pub(crate) fn parse_request_head(bytes: &[u8]) -> (r: RequestHead)
    ensures
        r@ == httparse_request(bytes@),
        r.status matches HeadStatus::Complete(n) ==> 0 < n <= bytes@.len(),
{
    let mut raw = [httparse::EMPTY_HEADER; MAX_HEADER_COUNT];
    let mut request = httparse::Request::new(&mut raw);
    let status = match request.parse(bytes) {
        Ok(httparse::Status::Complete(n)) => HeadStatus::Complete(n),
        Ok(httparse::Status::Partial) => HeadStatus::Partial,
        Err(error) => HeadStatus::Invalid(error.to_string()),
    };
    let headers = request.headers.iter().map(|h| RawHeader { name: h.name.to_string(), value: h.value.to_vec() }).collect();
    let method = request.method.map(|m| m.to_string());
    RequestHead { status, method, path: request.path.map(|p| p.to_string()), version: request.version, headers }
}

/// Calls `httparse::Response::parse` with room for 128 headers. The
/// contract names the report and claims only that a complete head is not
/// empty and lies within the buffer.
#[verifier::external_body]
pub(crate) fn parse_response_head(bytes: &[u8]) -> (r: ResponseHead)
    ensures
        r@ == httparse_response(bytes@),
        r.status matches HeadStatus::Complete(n) ==> 0 < n <= bytes@.len(),
{
    let mut raw = [httparse::EMPTY_HEADER; MAX_HEADER_COUNT];
    let mut response = httparse::Response::new(&mut raw);
    let status = match response.parse(bytes) {
        Ok(httparse::Status::Complete(n)) => HeadStatus::Complete(n),
        Ok(httparse::Status::Partial) => HeadStatus::Partial,
        Err(error) => HeadStatus::Invalid(error.to_string()),
    };
    let headers = response.headers.iter().map(|h| RawHeader { name: h.name.to_string(), value: h.value.to_vec() }).collect();
    let reason = response.reason.map(|r| r.as_bytes().to_vec());
    ResponseHead { status, version: response.version, code: response.code, reason, headers }
}

} // verus!

verus! {

/// The parser error that a message of `httparse` describes.
pub open spec fn head_error_kind(m: Seq<char>) -> HttparseError {
    if m == "invalid header name"@ {
        HttparseError::HeaderName
    } else if m == "invalid header value"@ {
        HttparseError::HeaderValue
    } else if m == "invalid new line"@ {
        HttparseError::NewLine
    } else if m == "invalid response status"@ {
        HttparseError::Status
    } else if m == "invalid token"@ {
        HttparseError::Token
    } else if m == "too many headers"@ {
        HttparseError::TooManyHeaders
    } else if m == "invalid HTTP version"@ {
        HttparseError::Version
    } else {
        HttparseError::Other
    }
}

pub(crate) fn head_error(m: &String) -> (k: HttparseError)
    ensures
        k == head_error_kind(m@),
{
    let t = m.as_str();
    if str_eq(t, "invalid header name") {
        HttparseError::HeaderName
    } else if str_eq(t, "invalid header value") {
        HttparseError::HeaderValue
    } else if str_eq(t, "invalid new line") {
        HttparseError::NewLine
    } else if str_eq(t, "invalid response status") {
        HttparseError::Status
    } else if str_eq(t, "invalid token") {
        HttparseError::Token
    } else if str_eq(t, "too many headers") {
        HttparseError::TooManyHeaders
    } else if str_eq(t, "invalid HTTP version") {
        HttparseError::Version
    } else {
        HttparseError::Other
    }
}

/// The result of framing one message from a buffer: an error, `None` while
/// more bytes are needed, or the bytes consumed and the message.
pub type FrameResult = Result<Option<(usize, MessageV1)>, ProtocolError>;

pub open spec fn frame_error(r: FrameResult, reason: MalformedReason) -> bool {
    r matches Err(e) && is_malformed(e, reason)
}

/// A framed message takes some bytes, and no more than there are.
pub open spec fn frame_within(b: Seq<u8>, r: FrameResult) -> bool {
    r matches Ok(Some((n, _))) ==> 0 < n <= b.len()
}

/// What framing one message gives, as a mathematical value.
pub enum FrameView {
    /// The bytes are not a supported message, for this reason.
    Failed(MalformedReason),
    /// More bytes are needed.
    NeedMore,
    /// The message takes this many bytes.
    Framed(int, MessageView),
}

/// `r` reports the framing `f`.
pub open spec fn frame_matches(r: FrameResult, f: FrameView) -> bool {
    match f {
        FrameView::Failed(reason) => frame_error(r, reason),
        FrameView::NeedMore => r == Ok::<Option<(usize, MessageV1)>, ProtocolError>(None),
        FrameView::Framed(n, m) => r matches Ok(Some((t, mm))) && t == n && mm@ == m,
    }
}

/// An incomplete head needs more bytes unless the head limit is reached.
pub open spec fn partial_frame(b: Seq<u8>) -> FrameView {
    if b.len() >= MAX_HEAD_BYTES {
        FrameView::Failed(MalformedReason::HeadTooLarge)
    } else {
        FrameView::NeedMore
    }
}

pub fn partial_or_limit(bytes: &[u8]) -> (r: FrameResult)
    ensures
        frame_matches(r, partial_frame(bytes@)),
{
    if bytes.len() >= MAX_HEAD_BYTES {
        Err(malformed(MalformedReason::HeadTooLarge))
    } else {
        Ok(None)
    }
}

pub open spec fn saturating_add(a: int, b: int) -> int {
    if a + b > usize::MAX { usize::MAX as int } else { a + b }
}

/// The body length the `Content-Length` headers declare, or why they are
/// rejected.
pub open spec fn declared_length(hs: Seq<HeaderView>) -> Result<usize, MalformedReason> {
    let cl = "content-length"@;
    if count_named(hs, cl) == 0 {
        Ok(0)
    } else if count_named(hs, cl) > 1 {
        Err(MalformedReason::DuplicateContentLength)
    } else {
        let i = choose|i: int| 0 <= i < hs.len() && #[trigger] hs[i].name == cl;
        let v = hs[i].value;
        if v.len() == 0 || !all_digits(v) {
            Err(MalformedReason::InvalidContentLength)
        } else if decimal_value(v) > usize::MAX {
            Err(MalformedReason::OverflowingContentLength)
        } else {
            Ok(decimal_value(v) as usize)
        }
    }
}

/// `content_length` computes `declared_length`.
pub fn declared_content_length(headers: &[HeaderV1]) -> (r: Result<usize, ProtocolError>)
    ensures
        match r {
            Ok(v) => declared_length(headers_view(headers@)) == Ok::<usize, MalformedReason>(v),
            Err(e) => declared_length(headers_view(headers@)) matches Err(reason) && is_malformed(e, reason),
        },
{
    let r = content_length(headers);
    proof {
        let hs = headers_view(headers@);
        let cl = "content-length"@;
        if count_named(hs, cl) == 1 {
            lemma_count_exists(hs, cl);
            let i = choose|i: int| 0 <= i < hs.len() && #[trigger] hs[i].name == cl;
            assert(content_length_value(hs[i].value, r));
        }
    }
    r
}

proof fn lemma_count_exists(hs: Seq<HeaderView>, name: Seq<char>)
    requires
        count_named(hs, name) > 0,
    ensures
        exists|i: int| 0 <= i < hs.len() && #[trigger] hs[i].name == name,
    decreases hs.len(),
{
    if hs.last().name == name {
        assert(hs[hs.len() - 1].name == name);
    } else {
        lemma_count_exists(hs.drop_last(), name);
        let i = choose|i: int| 0 <= i < hs.drop_last().len() && #[trigger] hs.drop_last()[i].name == name;
        assert(hs[i].name == name);
    }
}

/// The request message framed from `bytes` with head length `n`.
pub open spec fn request_message(bytes: Seq<u8>, sequence: u64, h: RequestHeadView, total: int) -> MessageView {
    MessageView {
        kind: MessageKindV1::Request,
        sequence,
        method: h.method,
        target: h.path,
        status: None,
        reason: None,
        headers: normalized(h.headers),
        body: bytes.subrange(h.status->Complete_0 as int, total),
        pipeline_depth: 0,
        orphan_response: false,
        warnings: Seq::empty(),
    }
}

/// Framing of one request after its head parsed completely as `n` bytes.
pub open spec fn request_after_head(bytes: Seq<u8>, sequence: u64, n: int, h: RequestHeadView) -> FrameView {
    if h.version != Some(1u8) {
        FrameView::Failed(MalformedReason::UnsupportedRequestVersion)
    } else if h.method is None {
        FrameView::Failed(MalformedReason::MissingMethod)
    } else if !token_seq(vstd::utf8::encode_utf8(h.method->0)) {
        FrameView::Failed(MalformedReason::InvalidMethod)
    } else if h.method->0 == "CONNECT"@ {
        FrameView::Failed(MalformedReason::ConnectTarget)
    } else if h.path is None {
        FrameView::Failed(MalformedReason::MissingTarget)
    } else if !(h.path->0.len() > 0 && h.path->0[0] == '/') {
        FrameView::Failed(MalformedReason::UnsupportedTarget)
    } else if !all_names_ascii(h.headers) {
        FrameView::Failed(MalformedReason::NonAsciiHeaderName)
    } else if any_named(normalized(h.headers), "transfer-encoding"@) {
        FrameView::Failed(MalformedReason::UnsupportedTransferEncoding)
    } else if any_upgrade(normalized(h.headers)) {
        FrameView::Failed(MalformedReason::UnsupportedUpgrade)
    } else {
        match declared_length(normalized(h.headers)) {
            Err(reason) => FrameView::Failed(reason),
            Ok(len) => if len > MAX_RESPONSE_BYTES {
                FrameView::Failed(MalformedReason::RequestTooLarge)
            } else if bytes.len() < saturating_add(n, len as int) {
                FrameView::NeedMore
            } else {
                let total = saturating_add(n, len as int);
                FrameView::Framed(total, request_message(bytes, sequence, h, total))
            },
        }
    }
}

/// Framing of one HTTP/1.1 request at the start of `bytes`.
pub open spec fn request_frame(bytes: Seq<u8>, sequence: u64) -> FrameView {
    request_frame_with_head(bytes, sequence, httparse_request(bytes))
}

/// Framing of one request at the start of `bytes` whose head the parser
/// reported as `h`.
pub open spec fn request_frame_with_head(bytes: Seq<u8>, sequence: u64, h: RequestHeadView) -> FrameView {
    match h.status {
        HeadStatusView::Invalid(m) => FrameView::Failed(MalformedReason::Head(head_error_kind(m))),
        HeadStatusView::Partial => partial_frame(bytes),
        HeadStatusView::Complete(n) => request_after_head(bytes, sequence, n as int, h),
    }
}

/// Only origin-form targets are framed: a framed request's target is
/// non-empty and starts with `/`, and a complete HTTP/1.1 head with a valid,
/// non-CONNECT method whose target does not start with `/` is refused as an
/// unsupported target.
pub proof fn lemma_request_target_is_origin_form(r: FrameResult, bytes: Seq<u8>, sequence: u64, h: RequestHeadView)
    requires
        frame_matches(r, request_frame_with_head(bytes, sequence, h)),
    ensures
        r matches Ok(Some((_, m))) ==> (m@.target matches Some(t) && t.len() > 0 && t[0] == '/'),
        ({
            &&& h.status is Complete
            &&& h.version == Some(1u8)
            &&& h.method matches Some(method)
            &&& token_seq(vstd::utf8::encode_utf8(method))
            &&& method != "CONNECT"@
            &&& h.path matches Some(p)
            &&& !(p.len() > 0 && p[0] == '/')
        }) ==> frame_error(r, MalformedReason::UnsupportedTarget),
{
}

fn method_is_connect(m: &String) -> (r: bool)
    ensures
        r == (m@ == "CONNECT"@),
{
    str_eq(m.as_str(), "CONNECT")
}

pub fn parse_request(bytes: &[u8], sequence: u64) -> (r: FrameResult)
    ensures
        frame_matches(r, request_frame(bytes@, sequence)),
        frame_within(bytes@, r),
{
    let head = parse_request_head(bytes);
    frame_request_head(bytes, sequence, &head)
}

/// Frames one request at the start of `bytes` from the head the parser
/// reported for them.
pub fn frame_request_head(bytes: &[u8], sequence: u64, head: &RequestHead) -> (r: FrameResult)
    requires
        head.status matches HeadStatus::Complete(n) ==> 0 < n <= bytes@.len(),
    ensures
        frame_matches(r, request_frame_with_head(bytes@, sequence, head@)),
        frame_within(bytes@, r),
{
    let head_bytes = match &head.status {
        HeadStatus::Invalid(m) => return Err(malformed(MalformedReason::Head(head_error(m)))),
        HeadStatus::Partial => return partial_or_limit(bytes),
        HeadStatus::Complete(n) => *n,
    };
    if head.version != Some(1u8) {
        return Err(malformed(MalformedReason::UnsupportedRequestVersion));
    }
    let method = match &head.method {
        Some(m) => m,
        None => return Err(malformed(MalformedReason::MissingMethod)),
    };
    if !is_token(method.as_str().as_bytes()) {
        return Err(malformed(MalformedReason::InvalidMethod));
    }
    if method_is_connect(method) {
        return Err(malformed(MalformedReason::ConnectTarget));
    }
    let target = match &head.path {
        Some(p) => p,
        None => return Err(malformed(MalformedReason::MissingTarget)),
    };
    if !crate::text::str_first_is(target.as_str(), '/') {
        return Err(malformed(MalformedReason::UnsupportedTarget));
    }
    let headers = normalize_headers(&head.headers)?;
    reject_unsupported_headers(headers.as_slice())?;
    let body_length = declared_content_length(headers.as_slice())?;
    if body_length > MAX_RESPONSE_BYTES {
        return Err(malformed(MalformedReason::RequestTooLarge));
    }
    let total = head_bytes.saturating_add(body_length);
    if bytes.len() < total {
        return Ok(None);
    }
    let body = copy_range(bytes, head_bytes, total);
    let message = MessageV1 {
        kind: MessageKindV1::Request,
        sequence,
        method: Some(method.clone()),
        target: Some(target.clone()),
        status: None,
        reason: None,
        headers,
        body,
        pipeline_depth: 0,
        orphan_response: false,
        warnings: Vec::new(),
    };
    proof {
        assert(strings_view(message.warnings@) =~= Seq::<Seq<char>>::empty());
    }
    Ok(Some((total, message)))
}

} // verus!
