use chronicle::http::HeaderV1;
use chronicle::protocol::VerificationStatus;
use chronicle::verify::{
    comparable_headers, HttpObservedResponseV1, HttpOperationDataV1, HttpVerifier, ReplayAttributesV1, TargetFormV1,
    VerificationMetadataV1,
};

fn header(name: &str, value: &[u8]) -> HeaderV1 {
    HeaderV1 { name: name.into(), value: value.to_vec() }
}

fn expected() -> HttpOperationDataV1 {
    HttpOperationDataV1 {
        method: Some("GET".into()),
        target: Some("/".into()),
        request_headers: Vec::new(),
        response_headers: vec![header("date", b"recorded-date"), header("authorization", b"recorded-secret")],
        response_status: Some(200),
        response_reason: Some(b"OK".to_vec()),
        request_sequence: 1,
        response_sequence: Some(2),
        pipeline_depth: 1,
        warnings: Vec::new(),
        replay: ReplayAttributesV1 { target_form: TargetFormV1::Origin, captured_sensitive_headers: true, replayable: true },
        verification: VerificationMetadataV1 { expected_status: Some(200), expects_response: true },
    }
}

fn detail<'a>(details: &'a [(String, String)], key: &str) -> Option<&'a str> {
    details.iter().find(|(k, _)| k == key).map(|(_, v)| v.as_str())
}

#[test]
fn verifier_compares_status_headers_and_body_without_values() {
    let verifier = HttpVerifier::new();
    let exp = expected();
    let observed = |status: u16, headers: Vec<HeaderV1>| HttpObservedResponseV1 { status, headers };
    let passed = verifier.verify(
        Some(&exp),
        Some(&observed(200, vec![header("date", b"new-date"), header("authorization", b"recorded-secret")])),
        Some(b"expected-body"),
        Some(b"expected-body"),
    );
    assert_eq!(passed.status, VerificationStatus::Passed);

    let status = verifier.verify(Some(&exp), Some(&observed(201, Vec::new())), Some(b"expected-body"), Some(b"expected-body"));
    assert_eq!(status.status, VerificationStatus::Failed);
    assert_eq!(detail(&status.details, "expected_status"), Some("200"));

    let headers = verifier.verify(
        Some(&exp),
        Some(&observed(200, vec![header("authorization", b"changed-secret")])),
        Some(b"expected-body"),
        Some(b"expected-body"),
    );
    assert_eq!(headers.status, VerificationStatus::Failed);
    assert_eq!(detail(&headers.details, "header"), Some("authorization"));
    assert!(!format!("{headers:?}").contains("secret"));

    let body = verifier.verify(
        Some(&exp),
        Some(&observed(200, vec![header("authorization", b"recorded-secret")])),
        Some(b"expected-body"),
        Some(b"changed-body"),
    );
    assert_eq!(body.status, VerificationStatus::Failed);
    assert!(detail(&body.details, "expected_body_sha256").is_some());
    assert!(!format!("{body:?}").contains("changed-body"));
}

#[test]
fn verifier_details_name_counts_and_sizes() {
    let verifier = HttpVerifier::new();
    let exp = expected();
    let observed = |status: u16, headers: Vec<HeaderV1>| HttpObservedResponseV1 { status, headers };
    let status = verifier.verify(Some(&exp), Some(&observed(500, Vec::new())), None, None);
    assert_eq!(status.details, vec![
        ("expected_status".to_string(), "200".to_string()),
        ("observed_status".to_string(), "500".to_string()),
    ]);
    let missing = verifier.verify(Some(&exp), Some(&observed(200, Vec::new())), None, None);
    assert_eq!(missing.details, vec![
        ("expected_header_count".to_string(), "1".to_string()),
        ("header".to_string(), "authorization".to_string()),
        ("observed_header_count".to_string(), "0".to_string()),
    ]);
    let body = verifier.verify(
        Some(&exp),
        Some(&observed(200, vec![header("authorization", b"recorded-secret")])),
        Some(b"expected-body"),
        Some(b"other-body"),
    );
    assert_eq!(detail(&body.details, "expected_body_size"), Some("13"));
    assert_eq!(detail(&body.details, "observed_body_size"), Some("10"));
}

#[test]
fn verifier_reports_missing_evidence() {
    let verifier = HttpVerifier::new();
    let exp = expected();
    let obs = HttpObservedResponseV1 { status: 200, headers: Vec::new() };
    assert_eq!(verifier.verify(None, Some(&obs), None, None).status, VerificationStatus::Unsupported);
    assert_eq!(verifier.verify(Some(&exp), None, None, None).summary, "unsupported HTTP observed response");
    let unrecorded = HttpOperationDataV1 { response_status: None, ..expected() };
    assert_eq!(verifier.verify(Some(&unrecorded), Some(&obs), None, None).status, VerificationStatus::Inconclusive);
    let obs = HttpObservedResponseV1 { status: 200, headers: vec![header("authorization", b"recorded-secret")] };
    let unavailable = verifier.verify(Some(&exp), Some(&obs), None, Some(b"x"));
    assert_eq!(unavailable.summary, "HTTP response body unavailable");
}

#[test]
fn comparable_headers_drop_volatile_names() {
    let headers = vec![header("Date", b"a"), header("x-id", b"1"), header("SET-COOKIE", b"s"), header("Keep-Alive", b"k")];
    assert_eq!(comparable_headers(&headers), vec![header("x-id", b"1")]);
}

#[test]
fn body_digest_is_sha256_of_the_body() {
    let verifier = HttpVerifier::new();
    let exp = expected();
    let obs = HttpObservedResponseV1 { status: 200, headers: vec![header("authorization", b"recorded-secret")] };
    let result = verifier.verify(Some(&exp), Some(&obs), Some(b"abc"), Some(b""));
    assert_eq!(
        detail(&result.details, "expected_body_sha256"),
        Some("sha256:ba7816bf8f01cfea414140de5dae2223b00361a396177a9cb410ff61f20015ad")
    );
    assert_eq!(
        detail(&result.details, "observed_body_sha256"),
        Some("sha256:e3b0c44298fc1c149afbf4c8996fb92427ae41e4649b934ca495991b7852b855")
    );
}
