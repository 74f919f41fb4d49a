//! HTTP replay verification: comparing an observed response with the
//! recorded one.
use vstd::prelude::*;
use crate::bytes::bytes_equal;
use crate::digest::{labelled_digest, sha256_label};
use crate::http::{headers_view, opt_bytes_view, opt_string_view, strings_view, HeaderV1, HeaderView};
use crate::protocol::{VerificationResult, VerificationStatus};
use crate::text::{decimal_chars, decimal_string, eq_ignore_ascii_case, str_copy, str_eq, str_eq_ignore_ascii_case};

verus! {

#[derive(Clone, Copy, Debug, PartialEq, Eq, Structural)]
pub enum TargetFormV1 {
    Origin,
    Opaque,
}

#[derive(Clone, Copy, Debug, PartialEq, Eq, Structural)]
pub struct ReplayAttributesV1 {
    pub target_form: TargetFormV1,
    pub captured_sensitive_headers: bool,
    pub replayable: bool,
}

#[derive(Clone, Copy, Debug, PartialEq, Eq, Structural)]
pub struct VerificationMetadataV1 {
    pub expected_status: Option<u16>,
    pub expects_response: bool,
}

/// What an HTTP operation records about its exchange.
#[derive(Clone, Debug, PartialEq, Eq)]
pub struct HttpOperationDataV1 {
    pub method: Option<String>,
    pub target: Option<String>,
    pub request_headers: Vec<HeaderV1>,
    pub response_headers: Vec<HeaderV1>,
    pub response_status: Option<u16>,
    pub response_reason: Option<Vec<u8>>,
    pub request_sequence: u64,
    pub response_sequence: Option<u64>,
    pub pipeline_depth: usize,
    pub warnings: Vec<String>,
    pub replay: ReplayAttributesV1,
    pub verification: VerificationMetadataV1,
}

/// The mathematical content of HTTP operation data.
pub struct HttpOperationDataView {
    pub method: Option<Seq<char>>,
    pub target: Option<Seq<char>>,
    pub request_headers: Seq<HeaderView>,
    pub response_headers: Seq<HeaderView>,
    pub response_status: Option<u16>,
    pub response_reason: Option<Seq<u8>>,
    pub request_sequence: u64,
    pub response_sequence: Option<u64>,
    pub pipeline_depth: usize,
    pub warnings: Seq<Seq<char>>,
    pub replay: ReplayAttributesV1,
    pub verification: VerificationMetadataV1,
}

impl View for HttpOperationDataV1 {
    type V = HttpOperationDataView;

    open spec fn view(&self) -> HttpOperationDataView {
        HttpOperationDataView {
            method: opt_string_view(self.method),
            target: opt_string_view(self.target),
            request_headers: headers_view(self.request_headers@),
            response_headers: headers_view(self.response_headers@),
            response_status: self.response_status,
            response_reason: opt_bytes_view(self.response_reason),
            request_sequence: self.request_sequence,
            response_sequence: self.response_sequence,
            pipeline_depth: self.pipeline_depth,
            warnings: strings_view(self.warnings@),
            replay: self.replay,
            verification: self.verification,
        }
    }
}

/// The status and headers of a response observed during replay.
#[derive(Clone, Debug, PartialEq, Eq)]
pub struct HttpObservedResponseV1 {
    pub status: u16,
    pub headers: Vec<HeaderV1>,
}

/// Headers whose values legitimately change between a recording and a
/// replay.
pub open spec fn is_volatile(name: Seq<char>) -> bool {
    ||| eq_ignore_ascii_case(name, "date"@)
    ||| eq_ignore_ascii_case(name, "server"@)
    ||| eq_ignore_ascii_case(name, "content-length"@)
    ||| eq_ignore_ascii_case(name, "connection"@)
    ||| eq_ignore_ascii_case(name, "transfer-encoding"@)
    ||| eq_ignore_ascii_case(name, "keep-alive"@)
    ||| eq_ignore_ascii_case(name, "set-cookie"@)
}

/// The headers that take part in a comparison, in order.
pub open spec fn comparable(hs: Seq<HeaderView>) -> Seq<HeaderView> {
    hs.filter(|h: HeaderView| !is_volatile(h.name))
}

pub fn is_volatile_header(name: &str) -> (r: bool)
    ensures
        r == is_volatile(name@),
{
    str_eq_ignore_ascii_case(name, "date") || str_eq_ignore_ascii_case(name, "server")
        || str_eq_ignore_ascii_case(name, "content-length") || str_eq_ignore_ascii_case(name, "connection")
        || str_eq_ignore_ascii_case(name, "transfer-encoding") || str_eq_ignore_ascii_case(name, "keep-alive")
        || str_eq_ignore_ascii_case(name, "set-cookie")
}

/// The headers that take part in a comparison.
pub fn comparable_headers(headers: &[HeaderV1]) -> (r: Vec<HeaderV1>)
    ensures
        headers_view(r@) == comparable(headers_view(headers@)),
{
    let ghost hv = headers_view(headers@);
    let mut out: Vec<HeaderV1> = Vec::new();
    let mut i: usize = 0;
    while i < headers.len()
        invariant
            hv == headers_view(headers@),
            i <= headers@.len(),
            headers_view(out@) == comparable(hv.subrange(0, i as int)),
        decreases headers.len() - i,
    {
        proof {
            assert(hv.subrange(0, i + 1).drop_last() =~= hv.subrange(0, i as int));
            assert(hv[i as int] == headers@[i as int]@);
            reveal(Seq::filter);
            assert(hv.subrange(0, i + 1).last() == hv[i as int]);
        }
        if !is_volatile_header(headers[i].name.as_str()) {
            let ghost before = out@;
            out.push(headers[i].duplicate());
            proof { assert(headers_view(out@) =~= headers_view(before).push(hv[i as int])); }
        }
        i = i + 1;
    }
    proof { assert(hv.subrange(0, headers@.len() as int) =~= hv); }
    out
}

/// First index from `i` at which the two header lists differ, or the end
/// of the shorter one.
pub open spec fn first_difference(e: Seq<HeaderView>, o: Seq<HeaderView>, i: int) -> int
    decreases e.len() - i,
{
    if i < 0 || i >= e.len() || i >= o.len() || e[i] != o[i] {
        i
    } else {
        first_difference(e, o, i + 1)
    }
}

/// The header named in a report of differing header lists: the first that
/// differs, else the first one beyond the shorter list.
pub open spec fn differing_header(e: Seq<HeaderView>, o: Seq<HeaderView>) -> Seq<char> {
    let k = first_difference(e, o, 0);
    if k < e.len() {
        e[k].name
    } else if k < o.len() {
        o[k].name
    } else {
        "header_count"@
    }
}

/// A verification result as a mathematical value; details in key order.
pub struct VerificationView {
    pub status: VerificationStatus,
    pub summary: Seq<char>,
    pub details: Seq<(Seq<char>, Seq<char>)>,
}

pub open spec fn result_view(r: VerificationResult) -> VerificationView {
    VerificationView {
        status: r.status,
        summary: r.summary@,
        details: r.details@.map_values(|d: (String, String)| (d.0@, d.1@)),
    }
}

pub open spec fn plain(status: VerificationStatus, summary: Seq<char>) -> VerificationView {
    VerificationView { status, summary, details: Seq::empty() }
}


/// Verification of an HTTP replay. `expected` is the recorded operation's
/// data, `None` where it could not be read; `observed` the observed
/// response's data, `None` where it is missing or could not be read; the
/// bodies are the inline payloads, `None` where a payload is not inline.
pub open spec fn http_verification(
    expected: Option<(Option<u16>, Seq<HeaderView>)>,
    observed: Option<(u16, Seq<HeaderView>)>,
    recorded_body: Option<Seq<u8>>,
    observed_body: Option<Seq<u8>>,
) -> VerificationView {
    if expected is None {
        plain(VerificationStatus::Unsupported, "unsupported HTTP expectation"@)
    } else if observed is None {
        plain(VerificationStatus::Unsupported, "unsupported HTTP observed response"@)
    } else {
        let (recorded_status, recorded_headers) = expected->0;
        let (os, observed_headers) = observed->0;
        let eh = comparable(recorded_headers);
        let oh = comparable(observed_headers);
        if recorded_status is None {
            plain(VerificationStatus::Inconclusive, "missing recorded HTTP response"@)
        } else {
        let es = recorded_status->0;
        if es != os {
            VerificationView {
                status: VerificationStatus::Failed,
                summary: "HTTP status differed"@,
                details: seq![("expected_status"@, decimal_chars(es as nat)), ("observed_status"@, decimal_chars(os as nat))],
            }
        } else if eh != oh {
            VerificationView {
                status: VerificationStatus::Failed,
                summary: "HTTP response headers differed"@,
                details: seq![
                    ("expected_header_count"@, decimal_chars(eh.len())),
                    ("header"@, differing_header(eh, oh)),
                    ("observed_header_count"@, decimal_chars(oh.len())),
                ],
            }
        } else if recorded_body is None || observed_body is None {
            plain(VerificationStatus::Inconclusive, "HTTP response body unavailable"@)
        } else if recorded_body->0 == observed_body->0 {
            plain(VerificationStatus::Passed, "HTTP response matched"@)
        } else {
            let eb = recorded_body->0;
            let ob = observed_body->0;
            VerificationView {
                status: VerificationStatus::Failed,
                summary: "HTTP response body differed"@,
                details: seq![
                    ("expected_body_sha256"@, labelled_digest(eb)),
                    ("expected_body_size"@, decimal_chars(eb.len())),
                    ("observed_body_sha256"@, labelled_digest(ob)),
                    ("observed_body_size"@, decimal_chars(ob.len())),
                ],
            }
        }
        }
    }
}

fn verification(status: VerificationStatus, summary: &str) -> (r: VerificationResult)
    ensures
        result_view(r) == plain(status, summary@),
{
    let r = VerificationResult { status, summary: str_copy(summary), details: Vec::new() };
    assert(result_view(r).details =~= Seq::<(Seq<char>, Seq<char>)>::empty());
    r
}

fn detail(key: &str, value: String) -> (d: (String, String))
    ensures
        d.0@ == key@,
        d.1@ == value@,
{
    (str_copy(key), value)
}


fn headers_equal(a: &[HeaderV1], b: &[HeaderV1]) -> (r: bool)
    ensures
        r == (headers_view(a@) == headers_view(b@)),
{
    let k = first_difference_at(a, b);
    if k < a.len() || k < b.len() {
        proof {
            if k < a@.len() && k < b@.len() {
                assert(headers_view(a@)[k as int] != headers_view(b@)[k as int]);
            }
        }
        false
    } else {
        proof {
            assert(headers_view(a@) =~= headers_view(b@));
        }
        true
    }
}

/// `first_difference` from 0, computed.
fn first_difference_at(a: &[HeaderV1], b: &[HeaderV1]) -> (k: usize)
    ensures
        k as int == first_difference(headers_view(a@), headers_view(b@), 0),
        forall|j: int| 0 <= j < k ==> headers_view(a@)[j] == headers_view(b@)[j],
        k <= a@.len() && k <= b@.len(),
        k < a@.len() && k < b@.len() ==> headers_view(a@)[k as int] != headers_view(b@)[k as int],
{
    let ghost e = headers_view(a@);
    let ghost o = headers_view(b@);
    let mut i: usize = 0;
    while i < a.len() && i < b.len()
        invariant
            e == headers_view(a@),
            o == headers_view(b@),
            i <= a@.len(),
            i <= b@.len(),
            first_difference(e, o, 0) == first_difference(e, o, i as int),
            forall|j: int| 0 <= j < i ==> e[j] == o[j],
        decreases a.len() - i,
    {
        let same = str_eq(a[i].name.as_str(), b[i].name.as_str())
            && bytes_equal(a[i].value.as_slice(), b[i].value.as_slice());
        proof {
            assert(e[i as int] == a@[i as int]@);
            assert(o[i as int] == b@[i as int]@);
        }
        if !same {
            proof {
                assert(e[i as int] != o[i as int]) by {
                    if e[i as int] == o[i as int] {
                        assert(a@[i as int].name@ == b@[i as int].name@);
                        assert(a@[i as int].value@ == b@[i as int].value@);
                    }
                }
            }
            return i;
        }
        proof {
            assert(a@[i as int].value@ =~= b@[i as int].value@);
            assert(e[i as int] == o[i as int]);
        }
        i = i + 1;
    }
    i
}

/// Verifier of replayed HTTP/1.1 exchanges.
pub struct HttpVerifier {}

impl HttpVerifier {
    pub fn new() -> (v: Self) {
        HttpVerifier {}
    }

    /// Verifies an observed HTTP response against the recorded exchange.
    pub fn verify(
        &self,
        expected: Option<&HttpOperationDataV1>,
        observed: Option<&HttpObservedResponseV1>,
        recorded_body: Option<&[u8]>,
        observed_body: Option<&[u8]>,
    ) -> (r: VerificationResult)
        ensures
            result_view(r) == http_verification(
                match expected {
                    Some(e) => Some((e.response_status, headers_view(e.response_headers@))),
                    None => None,
                },
                match observed {
                    Some(o) => Some((o.status, headers_view(o.headers@))),
                    None => None,
                },
                match recorded_body {
                    Some(b) => Some(b@),
                    None => None,
                },
                match observed_body {
                    Some(b) => Some(b@),
                    None => None,
                },
            ),
    {
        let expected = match expected {
            Some(e) => e,
            None => return verification(VerificationStatus::Unsupported, "unsupported HTTP expectation"),
        };
        let observed = match observed {
            Some(o) => o,
            None => return verification(VerificationStatus::Unsupported, "unsupported HTTP observed response"),
        };
        let expected_status = match expected.response_status {
            Some(s) => s,
            None => return verification(VerificationStatus::Inconclusive, "missing recorded HTTP response"),
        };
        if expected_status != observed.status {
            let mut details: Vec<(String, String)> = Vec::new();
            details.push(detail("expected_status", decimal_string(expected_status as u64)));
            details.push(detail("observed_status", decimal_string(observed.status as u64)));
            let r = VerificationResult { status: VerificationStatus::Failed, summary: str_copy("HTTP status differed"), details };
            proof {
                assert(result_view(r).details =~= seq![
                    ("expected_status"@, decimal_chars(expected_status as nat)),
                    ("observed_status"@, decimal_chars(observed.status as nat)),
                ]);
            }
            return r;
        }
        let expected_headers = comparable_headers(expected.response_headers.as_slice());
        let observed_headers = comparable_headers(observed.headers.as_slice());
        if !headers_equal(expected_headers.as_slice(), observed_headers.as_slice()) {
            let k = first_difference_at(expected_headers.as_slice(), observed_headers.as_slice());
            let header = if k < expected_headers.len() {
                str_copy(expected_headers[k].name.as_str())
            } else if k < observed_headers.len() {
                str_copy(observed_headers[k].name.as_str())
            } else {
                str_copy("header_count")
            };
            proof {
                let eh = headers_view(expected_headers@);
                let oh = headers_view(observed_headers@);
                if k < eh.len() {
                    assert(eh[k as int] == expected_headers@[k as int]@);
                } else if k < oh.len() {
                    assert(oh[k as int] == observed_headers@[k as int]@);
                }
                assert(header@ == differing_header(eh, oh));
            }
            let mut details: Vec<(String, String)> = Vec::new();
            details.push(detail("expected_header_count", decimal_string(expected_headers.len() as u64)));
            details.push(detail("header", header));
            details.push(detail("observed_header_count", decimal_string(observed_headers.len() as u64)));
            let r = VerificationResult { status: VerificationStatus::Failed, summary: str_copy("HTTP response headers differed"), details };
            proof {
                assert(result_view(r).details =~= seq![
                    ("expected_header_count"@, decimal_chars(expected_headers@.len() as nat)),
                    ("header"@, differing_header(headers_view(expected_headers@), headers_view(observed_headers@))),
                    ("observed_header_count"@, decimal_chars(observed_headers@.len() as nat)),
                ]);
            }
            return r;
        }
        let (eb, ob) = match (recorded_body, observed_body) {
            (Some(e), Some(o)) => (e, o),
            _ => return verification(VerificationStatus::Inconclusive, "HTTP response body unavailable"),
        };
        if bytes_equal(eb, ob) {
            return verification(VerificationStatus::Passed, "HTTP response matched");
        }
        let mut details: Vec<(String, String)> = Vec::new();
        details.push(detail("expected_body_sha256", sha256_label(eb)));
        details.push(detail("expected_body_size", decimal_string(eb.len() as u64)));
        details.push(detail("observed_body_sha256", sha256_label(ob)));
        details.push(detail("observed_body_size", decimal_string(ob.len() as u64)));
        let r = VerificationResult { status: VerificationStatus::Failed, summary: str_copy("HTTP response body differed"), details };
        proof {
            assert(result_view(r).details =~= seq![
                ("expected_body_sha256"@, labelled_digest(eb@)),
                ("expected_body_size"@, decimal_chars(eb@.len())),
                ("observed_body_sha256"@, labelled_digest(ob@)),
                ("observed_body_size"@, decimal_chars(ob@.len())),
            ]);
        }
        r
    }
}

} // verus!
