use chronicle::chunked::parse_chunked_body;
use chronicle::decoder::{parse_close_delimited_response, Decoder};
use chronicle::detector::{Detector, StreamChunk};
use chronicle::http::{
    content_length, detect_request_prefix, detect_response_prefix, parse_request, trusted_close, HeaderV1,
    MessageKindV1, WarningCode, MAX_HEAD_BYTES, MAX_RESPONSE_BYTES,
};
use chronicle::protocol::{DetectionResult, Direction, MalformedReason, ProtocolError};
use chronicle::response::parse_response;
use chronicle::session::{DerivedTermination, LossWindowClassification, ReconstructionFinalization};

fn header(name: &str, value: &[u8]) -> HeaderV1 {
    HeaderV1 { name: name.into(), value: value.to_vec() }
}

fn reason_of(error: ProtocolError) -> MalformedReason {
    match error {
        ProtocolError::Malformed { reason, .. } => reason,
        other => panic!("unexpected error {other:?}"),
    }
}

#[test]
fn close_delimited_response_requires_trusted_clean_source() {
    assert!(trusted_close(DerivedTermination::CleanClose, None, &[LossWindowClassification::Outside]));
    assert!(!trusted_close(DerivedTermination::UnknownTermination, None, &[LossWindowClassification::Outside]));
    assert!(!trusted_close(DerivedTermination::Reset, None, &[LossWindowClassification::Outside]));
    assert!(!trusted_close(
        DerivedTermination::CleanClose,
        Some(ReconstructionFinalization::Idle),
        &[LossWindowClassification::Outside]
    ));
    assert!(!trusted_close(DerivedTermination::CleanClose, None, &[LossWindowClassification::Overlaps]));
}

#[test]
fn content_length_accepts_only_one_unsigned_decimal_field() {
    let cl = |value: &[u8]| header("content-length", value);
    assert_eq!(content_length(&[cl(b"12")]).unwrap(), 12);
    assert!(content_length(&[cl(b"1"), cl(b"1")]).is_err());
    for value in [
        b"1, 1".as_slice(),
        b"+1".as_slice(),
        b"-1".as_slice(),
        b"".as_slice(),
        b"not-a-number".as_slice(),
        b"999999999999999999999999999999999999999".as_slice(),
    ] {
        assert!(content_length(&[cl(value)]).is_err(), "{value:?}");
    }
}

#[test]
fn content_length_errors_name_their_reason() {
    let cl = |value: &[u8]| header("content-length", value);
    assert_eq!(content_length(&[]).unwrap(), 0);
    assert_eq!(reason_of(content_length(&[cl(b"1"), cl(b"2")]).unwrap_err()), MalformedReason::DuplicateContentLength);
    assert_eq!(reason_of(content_length(&[cl(b"x")]).unwrap_err()), MalformedReason::InvalidContentLength);
    assert_eq!(
        reason_of(content_length(&[cl(b"99999999999999999999999")]).unwrap_err()),
        MalformedReason::OverflowingContentLength
    );
    assert_eq!(content_length(&[header("host", b"a"), cl(b"007")]).unwrap(), 7);
}

#[test]
fn close_delimited_response_requires_final_input_and_consumes_remaining_bytes() {
    assert!(parse_response(b"HTTP/1.1 200 OK\r\n\r\nbody", 1, false).is_err());
    let parsed = parse_close_delimited_response(b"HTTP/1.1 200 OK\r\n\r\nbody", 1, false).unwrap().unwrap();
    assert_eq!(parsed.0, b"HTTP/1.1 200 OK\r\n\r\nbody".len());
    assert_eq!(parsed.1.body, b"body");
}

#[test]
fn chunked_body_decoding() {
    assert_eq!(parse_chunked_body(b"1\r\na\r\n0\r\n").unwrap(), None);
    assert!(parse_chunked_body(b"1\r\naX\r\n0\r\n\r\n").is_err());
    let (consumed, body) = parse_chunked_body(b"2;ext=1\r\nab\r\n+1\r\nc\r\n0\r\nX-T: 1\r\n\r\nrest").unwrap().unwrap();
    assert_eq!(body, b"abc");
    assert_eq!(consumed, b"2;ext=1\r\nab\r\n+1\r\nc\r\n0\r\nX-T: 1\r\n\r\n".len());
    assert_eq!(parse_chunked_body(b"0\r\n\r\n").unwrap(), Some((5, Vec::new())));
    assert_eq!(reason_of(parse_chunked_body(b"zz\r\n").unwrap_err()), MalformedReason::InvalidChunkSize);
    assert_eq!(reason_of(parse_chunked_body(b"+\r\n").unwrap_err()), MalformedReason::InvalidChunkSize);
}

#[test]
fn requests_frame_by_content_length() {
    let (n, m) = parse_request(b"POST /bin HTTP/1.1\r\nContent-Length: 3\r\n\r\n\x00\xff\x80tail", 9).unwrap().unwrap();
    assert_eq!(n, b"POST /bin HTTP/1.1\r\nContent-Length: 3\r\n\r\n\x00\xff\x80".len());
    assert_eq!(m.method.as_deref(), Some("POST"));
    assert_eq!(m.target.as_deref(), Some("/bin"));
    assert_eq!(m.body, [0, 255, 128]);
    assert_eq!(m.sequence, 9);
    assert_eq!(m.headers, vec![header("content-length", b"3")]);
    assert_eq!(parse_request(b"POST /bin HTTP/1.1\r\nContent-Length: 3\r\n\r\nab", 1).unwrap(), None);
    assert_eq!(parse_request(b"GET / HTTP/1.1\r\n", 1).unwrap(), None);
    assert_eq!(reason_of(parse_request(b"GET / HTTP/1.0\r\n\r\n", 1).unwrap_err()), MalformedReason::UnsupportedRequestVersion);
    assert_eq!(reason_of(parse_request(b"CONNECT host:80 HTTP/1.1\r\n\r\n", 1).unwrap_err()), MalformedReason::ConnectTarget);
    let oversized = format!("POST / HTTP/1.1\r\nContent-Length: {}\r\n\r\n", MAX_RESPONSE_BYTES + 1);
    assert!(parse_request(oversized.as_bytes(), 1).is_err());
}

#[test]
fn responses_follow_the_body_rules() {
    let (n, m) = parse_response(b"HTTP/1.1 200 OK\r\nContent-Length: 2\r\n\r\nOK", 3, false).unwrap().unwrap();
    assert_eq!(n, 40);
    assert_eq!(m.status, Some(200));
    assert_eq!(m.reason.as_deref(), Some(b"OK".as_slice()));
    assert_eq!(m.body, b"OK");
    let (n, m) = parse_response(b"HTTP/1.1 200 OK\r\nContent-Length: 3\r\n\r\n", 3, true).unwrap().unwrap();
    assert_eq!(n, 38);
    assert!(m.body.is_empty());
    assert_eq!(
        reason_of(parse_response(b"HTTP/1.1 101 Switching Protocols\r\n\r\n", 1, false).unwrap_err()),
        MalformedReason::Informational
    );
    let oversized = format!("HTTP/1.1 200 OK\r\nContent-Length: {}\r\n\r\n", MAX_RESPONSE_BYTES + 1);
    assert!(parse_response(oversized.as_bytes(), 1, false).is_err());
    let (_, m) = parse_response(b"HTTP/1.1 200 OK\r\nTransfer-Encoding: Chunked \r\n\r\n1\r\nx\r\n0\r\n\r\n", 1, false)
        .unwrap()
        .unwrap();
    assert_eq!(m.body, b"x");
    assert_eq!(
        reason_of(parse_response(b"HTTP/1.1 200 OK\r\nTransfer-Encoding: gzip\r\n\r\n", 1, false).unwrap_err()),
        MalformedReason::UnsupportedTransferEncoding
    );
}

fn chunk(direction: Direction, bytes: &[u8]) -> StreamChunk {
    StreamChunk { direction, sequence: 1, timestamp: None, payload: bytes.to_vec() }
}

#[test]
fn detects_request_and_response_prefixes() {
    let detector = Detector::new();
    assert!(matches!(
        detector.detect(&[chunk(Direction::ClientToServer, b"GET / HTTP/1.1\r\n")]),
        DetectionResult::Confirmed { .. }
    ));
    assert!(matches!(
        detector.detect(&[chunk(Direction::ServerToClient, b"HTTP/1.1 200 OK\r\n")]),
        DetectionResult::Probable { .. }
    ));
}

#[test]
fn reports_need_more_and_rejects_tls_and_http2() {
    let detector = Detector::new();
    assert!(matches!(
        detector.detect(&[chunk(Direction::ClientToServer, b"GET / HT")]),
        DetectionResult::NeedMoreData { .. }
    ));
    for bytes in [b"\x16\x03\x01".as_slice(), b"PRI * HTTP/2.0\r\n\r\nSM\r\n\r\n".as_slice()] {
        assert!(matches!(detector.detect(&[chunk(Direction::ClientToServer, bytes)]), DetectionResult::Rejected));
    }
}

#[test]
fn detection_of_prefixes() {
    assert!(matches!(detect_request_prefix(b"GET / HTTP/1.1\r\n"), Some(DetectionResult::Confirmed { confidence: 100, .. })));
    assert_eq!(detect_request_prefix(b"GET /x HTTP/1.0\r\n"), Some(DetectionResult::Rejected));
    assert_eq!(detect_request_prefix(b"\x01\x02"), None);
    assert!(matches!(detect_response_prefix(b"HTTP/1.1 200 OK\r\n"), DetectionResult::Probable { confidence: 90, .. }));
    assert_eq!(detect_response_prefix(b"HTTP/1.1 200"), DetectionResult::NeedMoreData { minimum_additional_bytes: 1 });
    assert_eq!(detect_response_prefix(b"SSH-2.0"), DetectionResult::Unknown);
}

fn push(decoder: &mut Decoder, direction: Direction, sequence: u64, payload: &[u8]) -> Vec<chronicle::http::MessageV1> {
    decoder.push(direction, sequence, payload)
}

#[test]
fn decoder_uses_each_queued_method_for_coalesced_responses() {
    let mut decoder = Decoder::new();
    push(&mut decoder, Direction::ClientToServer, 1, b"HEAD /head HTTP/1.1\r\n\r\n");
    push(&mut decoder, Direction::ClientToServer, 2, b"GET /get HTTP/1.1\r\n\r\n");
    let responses = push(
        &mut decoder,
        Direction::ServerToClient,
        3,
        b"HTTP/1.1 200 OK\r\nContent-Length: 5\r\n\r\nHTTP/1.1 200 OK\r\nContent-Length: 2\r\n\r\nOK",
    );
    assert_eq!(responses.len(), 2);
    assert_eq!(responses[1].body, b"OK");
}

#[test]
fn decoder_handles_fragmented_fixed_length_request_and_response() {
    let mut decoder = Decoder::new();
    assert!(push(&mut decoder, Direction::ClientToServer, 1, b"POST /bin HTTP/1.1\r\nContent-Length: 3\r\n").is_empty());
    let request = push(&mut decoder, Direction::ClientToServer, 2, b"\r\n\x00\xff\x80");
    assert_eq!(request[0].method.as_deref(), Some("POST"));
    assert_eq!(request[0].body, [0, 255, 128]);
    assert_eq!(request[0].sequence, 1);
    let response = push(&mut decoder, Direction::ServerToClient, 3, b"HTTP/1.1 200 OK\r\nContent-Length: 2\r\n\r\nOK");
    assert_eq!(response[0].status, Some(200));
    assert_eq!(response[0].body, b"OK");
}

#[test]
fn chunked_response_decodes_binary_body_across_fragments_and_consumes_trailer() {
    let mut decoder = Decoder::new();
    push(&mut decoder, Direction::ClientToServer, 1, b"GET / HTTP/1.1\r\n\r\n");
    assert!(push(
        &mut decoder,
        Direction::ServerToClient,
        2,
        b"HTTP/1.1 200 OK\r\nTransfer-Encoding: chunked\r\n\r\n2\r\n\x00"
    )
    .is_empty());
    let response = push(&mut decoder, Direction::ServerToClient, 3, b"\xff\r\n0\r\nX-Trailer: ok\r\n\r\n");
    assert_eq!(response[0].body, [0, 255]);
}

#[test]
fn decoder_consumes_zero_and_no_body_responses_without_waiting_for_body() {
    let mut decoder = Decoder::new();
    let request = push(&mut decoder, Direction::ClientToServer, 1, b"POST /zero HTTP/1.1\r\nContent-Length: 0\r\n\r\n");
    assert_eq!(request[0].body, b"");
    for (method, status) in [("HEAD", 200), ("GET", 204), ("GET", 304)] {
        let mut decoder = Decoder::new();
        push(&mut decoder, Direction::ClientToServer, 1, format!("{method} / HTTP/1.1\r\n\r\n").as_bytes());
        let response = push(
            &mut decoder,
            Direction::ServerToClient,
            2,
            format!("HTTP/1.1 {status} OK\r\nContent-Length: 3\r\n\r\n").as_bytes(),
        );
        assert_eq!(response[0].status, Some(status));
        assert_eq!(response[0].body, b"");
    }
}

#[test]
fn decoder_preserves_malformed_message_as_opaque() {
    let payload = b"POST / HTTP/1.1\r\nContent-Length: 1\r\nContent-Length: 1\r\n\r\na";
    let frames = push(&mut Decoder::new(), Direction::ClientToServer, 1, payload);
    assert_eq!(frames[0].kind, MessageKindV1::Opaque);
    assert_eq!(frames[0].body, payload);
    assert_eq!(frames[0].warnings, [WarningCode::Malformed.as_str()]);
}

#[test]
fn decoder_uses_stable_opaque_warnings() {
    for (payload, warning) in [
        (b"GET / HTTP/1.0\r\n\r\n".as_slice(), WarningCode::UnsupportedVersion),
        (b"CONNECT host:80 HTTP/1.1\r\n\r\n".as_slice(), WarningCode::UnsupportedTarget),
        (b"GET / HTTP/1.1\r\nTransfer-Encoding: chunked\r\n\r\n".as_slice(), WarningCode::UnsupportedTransferEncoding),
        (b"GET / HTTP/1.1\r\nConnection: upgrade\r\n\r\n".as_slice(), WarningCode::UnsupportedUpgrade),
        (
            b"HTTP/1.1 101 Switching Protocols\r\nContent-Length: 0\r\n\r\n".as_slice(),
            WarningCode::UnsupportedInformationalResponse,
        ),
        (b"HTTP/1.1 200 OK\r\n\r\nbody".as_slice(), WarningCode::UnsupportedCloseDelimitedBody),
    ] {
        let direction = if payload.starts_with(b"HTTP/") { Direction::ServerToClient } else { Direction::ClientToServer };
        let frames = push(&mut Decoder::new(), direction, 1, payload);
        assert_eq!(frames[0].body, payload);
        assert_eq!(frames[0].warnings, [warning.as_str()]);
    }

    let mut decoder = Decoder::new();
    push(&mut decoder, Direction::ClientToServer, 1, b"GET / HTTP/1.1\r\n");
    let frames = decoder.finish();
    assert_eq!(frames[0].1.warnings, [WarningCode::TruncatedMessage.as_str()]);

    let mut over_limit = b"GET / HTTP/1.1\r\n".to_vec();
    over_limit.resize(MAX_HEAD_BYTES + 1, b'x');
    let frames = push(&mut Decoder::new(), Direction::ClientToServer, 1, &over_limit);
    assert_eq!(frames[0].body, over_limit);
    assert_eq!(frames[0].warnings, [WarningCode::Malformed.as_str()]);
}

#[test]
fn decoder_keeps_completed_exchange_before_later_opaque_data() {
    let mut decoder = Decoder::new();
    let complete = push(&mut decoder, Direction::ClientToServer, 1, b"GET /ok HTTP/1.1\r\n\r\n");
    assert_eq!(complete[0].kind, MessageKindV1::Request);
    let opaque = push(&mut decoder, Direction::ClientToServer, 2, b"GET / HTTP/1.0\r\n\r\n");
    assert_eq!(opaque[0].kind, MessageKindV1::Opaque);
}

#[test]
fn decoder_uses_pending_head_request_for_response_body_rule() {
    let mut decoder = Decoder::new();
    push(&mut decoder, Direction::ClientToServer, 1, b"HEAD / HTTP/1.1\r\n\r\n");
    let response = push(&mut decoder, Direction::ServerToClient, 2, b"HTTP/1.1 200 OK\r\nContent-Length: 3\r\n\r\n");
    assert!(response[0].body.is_empty());
}

#[test]
fn decoder_tracks_pipelining_missing_and_orphan_responses() {
    let mut decoder = Decoder::new();
    push(&mut decoder, Direction::ClientToServer, 1, b"GET /one HTTP/1.1\r\n\r\n");
    push(&mut decoder, Direction::ClientToServer, 2, b"GET /two HTTP/1.1\r\n\r\n");
    assert_eq!(decoder.pending_len(), 2);
    let messages = push(
        &mut decoder,
        Direction::ServerToClient,
        3,
        b"HTTP/1.1 200 OK\r\nContent-Length: 0\r\n\r\nHTTP/1.1 201 Created\r\nContent-Length: 0\r\n\r\n",
    );
    assert_eq!(messages[0].pipeline_depth, 2);
    assert_eq!(messages[1].pipeline_depth, 1);
    assert_eq!(decoder.pending_len(), 0);
    let orphan = push(&mut decoder, Direction::ServerToClient, 4, b"HTTP/1.1 200 OK\r\nContent-Length: 0\r\n\r\n");
    assert!(orphan[0].orphan_response);
}

#[test]
fn reconstructed_finish_keeps_unframed_bytes_as_truncated() {
    let mut decoder = Decoder::new();
    push(&mut decoder, Direction::ClientToServer, 1, b"GET / HTTP/1.1\r\n\r\n");
    assert!(push(&mut decoder, Direction::ServerToClient, 2, b"HTTP/1.1 200 OK\r\nX: y").is_empty());
    let frames = decoder
        .finish_reconstructed(DerivedTermination::CleanClose, None, &[LossWindowClassification::Outside])
        .unwrap();
    assert_eq!(frames.len(), 1);
    assert_eq!(frames[0].0, Direction::ServerToClient);
    assert_eq!(frames[0].1.kind, MessageKindV1::Opaque);
    assert_eq!(frames[0].1.body, b"HTTP/1.1 200 OK\r\nX: y");
    assert_eq!(frames[0].1.sequence, 2);
    assert_eq!(frames[0].1.warnings, [WarningCode::TruncatedMessage.as_str()]);

    let mut untrusted = Decoder::new();
    push(&mut untrusted, Direction::ServerToClient, 2, b"HTTP/1.1 200");
    let frames = untrusted.finish_reconstructed(DerivedTermination::Reset, None, &[]).unwrap();
    assert_eq!(frames[0].1.kind, MessageKindV1::Opaque);
}

#[test]
fn framing_follows_the_reported_head() {
    let bytes = b"GET /a HTTP/1.1\r\ncontent-length: 2\r\n\r\nhi";
    let head = chronicle::http::RequestHead {
        status: chronicle::http::HeadStatus::Complete(38),
        method: Some("GET".into()),
        path: Some("/a".into()),
        version: Some(1),
        headers: vec![chronicle::http::RawHeader { name: "Content-Length".into(), value: b"2".to_vec() }],
    };
    let (n, message) = chronicle::http::frame_request_head(bytes, 4, &head).unwrap().unwrap();
    assert_eq!(n, 40);
    assert_eq!(message.body, b"hi");
    assert_eq!(message.target.as_deref(), Some("/a"));
    let connect = chronicle::http::RequestHead { method: Some("CONNECT".into()), ..head };
    assert_eq!(
        reason_of(chronicle::http::frame_request_head(bytes, 4, &connect).unwrap_err()),
        MalformedReason::ConnectTarget
    );
    let partial = chronicle::http::RequestHead {
        status: chronicle::http::HeadStatus::Partial,
        method: None,
        path: None,
        version: None,
        headers: Vec::new(),
    };
    assert!(chronicle::http::frame_request_head(bytes, 4, &partial).unwrap().is_none());
}
