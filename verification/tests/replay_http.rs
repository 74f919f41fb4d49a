use chronicle::canonical::{Endpoint, PayloadRef};
use chronicle::http::{HeaderV1, MAX_HEAD_BYTES};
use chronicle::protocol::{MalformedReason, ProtocolError, SecretBytes, TransportErrorCategory};
use chronicle::replay_http::{
    frame_replay_response, is_stripped_replay_header, replay_request, replay_response_body, sanitize_request_headers,
    target_authority, valid_field_value_byte, ReplayFramingRefusal,
};
use chronicle::verify::{HttpOperationDataV1, ReplayAttributesV1, TargetFormV1, VerificationMetadataV1};

fn header(name: &str, value: &[u8]) -> HeaderV1 {
    HeaderV1 { name: name.into(), value: value.to_vec() }
}

fn reason_of(error: ProtocolError) -> MalformedReason {
    match error {
        ProtocolError::Malformed { reason, .. } => reason,
        other => panic!("unexpected error {other:?}"),
    }
}

fn operation(method: Option<&str>, target: Option<&str>, headers: Vec<HeaderV1>) -> HttpOperationDataV1 {
    HttpOperationDataV1 {
        method: method.map(String::from),
        target: target.map(String::from),
        request_headers: headers,
        response_headers: Vec::new(),
        response_status: Some(200),
        response_reason: Some(b"OK".to_vec()),
        request_sequence: 1,
        response_sequence: Some(2),
        pipeline_depth: 1,
        warnings: Vec::new(),
        replay: ReplayAttributesV1 { target_form: TargetFormV1::Origin, captured_sensitive_headers: false, replayable: true },
        verification: VerificationMetadataV1 { expected_status: Some(200), expects_response: true },
    }
}

fn inline(bytes: &[u8]) -> PayloadRef {
    PayloadRef::Inline { content_type: None, bytes: bytes.to_vec() }
}

#[test]
fn sanitizer_replaces_host_and_strips_sensitive_hop_by_hop_headers() {
    let headers = sanitize_request_headers(
        &[
            header("host", b"recorded.invalid"),
            header("host", b"duplicate.invalid"),
            header("connection", b"x-remove, Keep-Alive"),
            header("x-remove", b"gone"),
            header("authorization", b"captured-secret"),
            header("cookie", b"captured-cookie"),
            header("x-forwarded-for", b"198.51.100.10"),
            header("transfer-encoding", b"chunked"),
            header("content-length", b"99"),
            header("x-tag", b"one"),
            header("x-tag", b"two"),
        ],
        &Endpoint::new("127.0.0.1", 8080),
        false,
        3,
    );
    assert_eq!(
        headers,
        vec![
            header("host", b"127.0.0.1:8080"),
            header("x-tag", b"one"),
            header("x-tag", b"two"),
            header("content-length", b"3"),
        ]
    );
}

#[test]
fn sanitizer_brackets_ipv6_target_authority() {
    let headers = sanitize_request_headers(&[], &Endpoint::new("::1", 8080), true, 0);
    assert_eq!(headers[0].value, b"[::1]:8080");
    assert_eq!(headers[1].value, b"0");
}

#[test]
fn sanitizer_lowercases_kept_names() {
    let headers = sanitize_request_headers(&[header("X-Tag", b"One")], &Endpoint::new("10.0.0.1", 80), false, 12);
    assert_eq!(headers, vec![header("host", b"10.0.0.1:80"), header("x-tag", b"One"), header("content-length", b"12")]);
}

#[test]
fn stripped_replay_headers_and_authority() {
    assert!(is_stripped_replay_header("authorization"));
    assert!(is_stripped_replay_header("keep-alive"));
    assert!(is_stripped_replay_header("x-forwarded-proto"));
    assert!(!is_stripped_replay_header("x-tag"));
    assert_eq!(target_authority(&Endpoint::new("::1", 9), true), "[::1]:9");
    assert_eq!(target_authority(&Endpoint::new("127.0.0.1", 9), false), "127.0.0.1:9");
}

#[test]
fn replay_request_writes_line_headers_and_body() {
    let data = operation(Some("POST"), Some("/items?x=1"), vec![header("Accept", b"*/*")]);
    let (method, wire) =
        replay_request(Some(&data), &inline(b"abc"), &Endpoint::new("127.0.0.1", 8080), false, None).unwrap();
    assert_eq!(method, "POST");
    assert_eq!(
        wire,
        b"POST /items?x=1 HTTP/1.1\r\nhost: 127.0.0.1:8080\r\naccept: */*\r\ncontent-length: 3\r\nconnection: close\r\n\r\nabc"
            .to_vec()
    );
}

#[test]
fn replay_request_places_runtime_authorization_after_host() {
    let data = operation(Some("GET"), Some("/"), vec![header("authorization", b"captured")]);
    let secret = SecretBytes::new(b"Bearer fresh".to_vec());
    let (_, wire) =
        replay_request(Some(&data), &inline(b""), &Endpoint::new("127.0.0.1", 81), false, Some(&secret)).unwrap();
    assert_eq!(
        wire,
        b"GET / HTTP/1.1\r\nhost: 127.0.0.1:81\r\nauthorization: Bearer fresh\r\ncontent-length: 0\r\nconnection: close\r\n\r\n"
            .to_vec()
    );
}

#[test]
fn replay_request_errors() {
    let target = Endpoint::new("127.0.0.1", 80);
    let body = inline(b"");
    let err = |r: Result<(String, Vec<u8>), ProtocolError>| reason_of(r.unwrap_err());
    assert_eq!(err(replay_request(None, &body, &target, false, None)), MalformedReason::InvalidReplayOperation);
    let no_method = operation(None, Some("/"), Vec::new());
    assert_eq!(err(replay_request(Some(&no_method), &body, &target, false, None)), MalformedReason::MissingMethod);
    let no_target = operation(Some("GET"), None, Vec::new());
    assert_eq!(err(replay_request(Some(&no_target), &body, &target, false, None)), MalformedReason::MissingTarget);
    let data = operation(Some("GET"), Some("/"), Vec::new());
    let external = PayloadRef::Missing { reason: "not hydrated".into() };
    assert_eq!(err(replay_request(Some(&data), &external, &target, false, None)), MalformedReason::PayloadNotHydrated);
    let bad = SecretBytes::new(b"line\nbreak".to_vec());
    assert_eq!(
        err(replay_request(Some(&data), &body, &target, false, Some(&bad))),
        MalformedReason::InvalidAuthorizationValue
    );
    assert!(valid_field_value_byte(b'\t'));
    assert!(valid_field_value_byte(0x80));
    assert!(!valid_field_value_byte(0x7f));
}

#[test]
fn replay_reader_finishes_at_fixed_length_boundary_without_eof() {
    let bytes = b"HTTP/1.1 200 OK\r\nContent-Length: 2\r\n\r\nOK";
    let framing = frame_replay_response(bytes, "GET").unwrap().unwrap();
    assert_eq!(framing.status, 200);
    assert_eq!(framing.body_len, 2);
    assert_eq!(replay_response_body(bytes, &framing), Some(b"OK".to_vec()));
    assert_eq!(replay_response_body(&bytes[..bytes.len() - 1], &framing), None);
}

#[test]
fn replay_reader_rejects_informational_and_upgrade_responses() {
    for response in [
        b"HTTP/1.1 100 Continue\r\nContent-Length: 0\r\n\r\n".as_slice(),
        b"HTTP/1.1 200 OK\r\nUpgrade: websocket\r\nContent-Length: 0\r\n\r\n".as_slice(),
    ] {
        let error = match frame_replay_response(response, "GET") {
            Err(e) => e,
            Ok(_) => panic!("response was framed"),
        };
        assert!(matches!(
            error,
            ProtocolError::Transport { category: TransportErrorCategory::UnsupportedFraming, .. }
        ));
    }
}

fn refusal_message(bytes: &[u8], method: &str) -> String {
    match frame_replay_response(bytes, method) {
        Err(ProtocolError::Transport { message, .. }) => message,
        _ => panic!("expected a transport refusal"),
    }
}

#[test]
fn replay_reader_refusal_messages() {
    assert_eq!(
        refusal_message(b"HTTP/1.1 100 Continue\r\n\r\n", "GET"),
        ReplayFramingRefusal::Informational.message()
    );
    assert_eq!(
        refusal_message(b"HTTP/1.1 200 OK\r\nTransfer-Encoding: chunked\r\n\r\n", "GET"),
        "upgrade response is unsupported"
    );
    assert_eq!(refusal_message(b"HTTP/1.1 200 OK\r\n\r\n", "GET"), "close-delimited response is unsupported");
    assert_eq!(
        refusal_message(b"HTTP/1.1 200 OK\r\nContent-Length: 8388609\r\n\r\n", "GET"),
        "response exceeds byte limit"
    );
}

#[test]
fn replay_reader_head_and_empty_statuses_have_no_body() {
    let head = frame_replay_response(b"HTTP/1.1 200 OK\r\nContent-Length: 10\r\n\r\n", "HEAD").unwrap().unwrap();
    assert_eq!(head.body_len, 0);
    let no_content = frame_replay_response(b"HTTP/1.1 204 No Content\r\n\r\n", "GET").unwrap().unwrap();
    assert_eq!(no_content.body_len, 0);
    assert_eq!(no_content.head_len, 27);
    let not_modified = frame_replay_response(b"HTTP/1.1 304 Not Modified\r\n\r\n", "GET").unwrap().unwrap();
    assert_eq!(not_modified.status, 304);
}

#[test]
fn replay_reader_waits_for_head_and_limits_it() {
    assert!(frame_replay_response(b"HTTP/1.1 200 OK\r\nContent-", "GET").unwrap().is_none());
    let mut long = b"HTTP/1.1 200 OK\r\nx-fill: ".to_vec();
    long.resize(MAX_HEAD_BYTES, b'x');
    assert_eq!(reason_of(frame_replay_response(&long, "GET").err().unwrap()), MalformedReason::ResponseHeadTooLarge);
    assert_eq!(
        reason_of(frame_replay_response(b"NOPE\r\n\r\n", "GET").err().unwrap()),
        MalformedReason::MalformedResponse
    );
    assert_eq!(
        reason_of(frame_replay_response(b"HTTP/1.1 200 OK\r\nContent-Length: x\r\n\r\n", "GET").err().unwrap()),
        MalformedReason::InvalidContentLength
    );
}
