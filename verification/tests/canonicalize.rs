use chronicle::canonical::{OperationEffect, PayloadRef};
use chronicle::canonicalize::{canonicalize, effect, is_operation_data, operation};
use chronicle::detector::{ProtocolStream, StreamChunk};
use chronicle::http::{HeaderV1, MessageKindV1, MessageV1};
use chronicle::protocol::Direction;

fn stream() -> ProtocolStream {
    ProtocolStream { started_at: None, chunks: Vec::new(), truncated: false }
}

fn request(sequence: u64, method: &str, target: &str) -> MessageV1 {
    MessageV1 {
        kind: MessageKindV1::Request,
        sequence,
        method: Some(method.into()),
        target: Some(target.into()),
        status: None,
        reason: None,
        headers: vec![
            HeaderV1 { name: "x-duplicate".into(), value: vec![1] },
            HeaderV1 { name: "x-duplicate".into(), value: vec![2] },
        ],
        body: b"request".to_vec(),
        pipeline_depth: 1,
        orphan_response: false,
        warnings: Vec::new(),
    }
}

fn response(sequence: u64, status: u16, orphan: bool) -> MessageV1 {
    MessageV1 {
        kind: MessageKindV1::Response,
        sequence,
        method: None,
        target: None,
        status: Some(status),
        reason: Some(b"Created".to_vec()),
        headers: Vec::new(),
        body: b"response".to_vec(),
        pipeline_depth: 1,
        orphan_response: orphan,
        warnings: Vec::new(),
    }
}

fn attribute<'a>(attributes: &'a [(String, String)], key: &str) -> Option<&'a str> {
    attributes.iter().find(|(k, _)| k == key).map(|(_, v)| v.as_str())
}

#[test]
fn canonicalizer_maps_http_exchange_and_missing_response() {
    let frames = vec![
        (Direction::ClientToServer, request(1, "GET", "/items")),
        (Direction::ServerToClient, response(2, 201, false)),
        (Direction::ClientToServer, request(3, "TRACE", "/missing")),
    ];
    let operations = canonicalize(&stream(), frames);
    assert_eq!(operations.len(), 2);
    assert_eq!(operations[0].effect, OperationEffect::Read);
    assert!(matches!(
        operations[0].recorded_response.as_ref(),
        Some(PayloadRef::Inline { bytes, .. }) if bytes == b"response"
    ));
    assert_eq!(operations[0].data.response_status, Some(201));
    assert_eq!(operations[0].data.request_headers.len(), 2);
    assert_eq!(operations[1].effect, OperationEffect::Unknown);
    assert!(operations[1].incomplete);
}

#[test]
fn canonicalizer_preserves_orphan_response_as_incomplete_evidence() {
    let mut orphan = response(1, 200, true);
    orphan.reason = Some(b"OK".to_vec());
    orphan.headers = vec![HeaderV1 { name: "x-test".into(), value: b"value".to_vec() }];
    orphan.pipeline_depth = 0;
    let operations = canonicalize(&stream(), vec![(Direction::ServerToClient, orphan)]);
    assert_eq!(operations.len(), 1);
    assert!(operations[0].incomplete);
    assert!(operations[0].warnings.iter().any(|warning| warning.code == "orphan_response"));
    assert!(matches!(
        operations[0].recorded_response.as_ref(),
        Some(PayloadRef::Inline { bytes, .. }) if bytes == b"response"
    ));
}

#[test]
fn responses_answer_the_oldest_waiting_request() {
    let frames = vec![
        (Direction::ClientToServer, request(1, "GET", "/a")),
        (Direction::ClientToServer, request(2, "GET", "/b")),
        (Direction::ServerToClient, response(3, 200, false)),
        (Direction::ServerToClient, response(4, 404, false)),
    ];
    let operations = canonicalize(&stream(), frames);
    assert_eq!(operations.len(), 2);
    assert_eq!(operations[0].data.target.as_deref(), Some("/a"));
    assert_eq!(operations[0].data.response_status, Some(200));
    assert_eq!(operations[1].data.target.as_deref(), Some("/b"));
    assert_eq!(operations[1].data.response_sequence, Some(4));
    assert_ne!(operations[0].id, operations[1].id);
}

#[test]
fn operation_records_offsets_attributes_and_replayability() {
    let stream = ProtocolStream {
        started_at: Some(1_000),
        chunks: vec![
            StreamChunk { direction: Direction::ClientToServer, sequence: 1, timestamp: Some(1_500), payload: Vec::new() },
            StreamChunk { direction: Direction::ServerToClient, sequence: 2, timestamp: Some(900), payload: Vec::new() },
        ],
        truncated: false,
    };
    let mut get = request(1, "GET", "/items");
    get.headers.push(HeaderV1 { name: "authorization".into(), value: b"secret".to_vec() });
    let op = operation(&stream, 7, get, Some(response(2, 201, false)));
    assert_eq!(op.id, 7);
    assert_eq!(op.started_at_offset, 500);
    assert_eq!(op.completed_at_offset, Some(0));
    assert!(op.warnings.is_empty());
    assert!(!op.incomplete);
    assert!(op.data.replay.replayable);
    assert!(op.data.replay.captured_sensitive_headers);
    assert_eq!(attribute(&op.attributes, "chronicle.replay.requires_runtime_authorization"), Some("true"));
    assert_eq!(attribute(&op.attributes, "chronicle.replayable"), Some("true"));
    assert_eq!(attribute(&op.attributes, "http.method"), Some("GET"));
    assert_eq!(attribute(&op.attributes, "http.request_target"), Some("/items"));
    assert_eq!(attribute(&op.attributes, "http.response_status"), Some("201"));
    let keys: Vec<&str> = op.attributes.iter().map(|(k, _)| k.as_str()).collect();
    let mut sorted = keys.clone();
    sorted.sort();
    assert_eq!(keys, sorted);
}

#[test]
fn missing_timestamps_and_truncation_are_warned() {
    let mut post = request(5, "POST", "/x");
    post.warnings.push("truncated_message".into());
    let op = operation(&stream(), 1, post, None);
    assert_eq!(op.started_at_offset, 0);
    assert_eq!(op.completed_at_offset, None);
    assert_eq!(op.warnings[0].code, "missing_timestamp");
    assert_eq!(op.warnings[1].code, "truncated_message");
    assert_eq!(op.warnings[1].message, "HTTP decoder warning: truncated_message");
    assert!(op.truncated);
    assert!(op.incomplete);
    assert_eq!(op.effect, OperationEffect::Write);
    assert_eq!(attribute(&op.attributes, "chronicle.replayable"), Some("false"));
    let canonical = op.into_canonical(b"{}".to_vec());
    assert!(is_operation_data(&canonical.protocol_data));
    assert_eq!(canonical.protocol_data.bytes, b"{}".to_vec());
}

#[test]
fn methods_map_to_effects() {
    assert_eq!(effect(Some("HEAD")), OperationEffect::Read);
    assert_eq!(effect(Some("OPTIONS")), OperationEffect::Read);
    assert_eq!(effect(Some("DELETE")), OperationEffect::Write);
    assert_eq!(effect(Some("get")), OperationEffect::Unknown);
    assert_eq!(effect(None), OperationEffect::Unknown);
}
