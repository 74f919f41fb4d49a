use chronicle::canonical::{
    CanonicalOperation, CanonicalWarning, Completeness, Endpoint, OperationEffect, OperationKind, PayloadRef,
    ProtocolData,
};
use chronicle::detector::{ProtocolStream, StreamChunk};
use chronicle::etl::{
    derive_operation_completeness, opaque_operation, session_bounds, ConnectionEvidence, EtlError, EtlIssue,
    EtlIssueKind, EtlPipeline, StreamOutcome, MAX_CANONICAL_OPERATIONS,
};
use chronicle::protocol::Direction;
use chronicle::session::SessionLimits;

fn chunk(sequence: u64, timestamp: Option<i128>, payload: &[u8]) -> StreamChunk {
    StreamChunk { direction: Direction::ClientToServer, sequence, timestamp, payload: payload.to_vec() }
}

fn stream(chunks: Vec<StreamChunk>, truncated: bool) -> ProtocolStream {
    ProtocolStream { started_at: None, chunks, truncated }
}

fn operation(id: u128, sequence: u64, response: bool) -> CanonicalOperation {
    CanonicalOperation {
        id,
        sequence,
        started_at_offset: sequence * 10,
        completed_at_offset: None,
        kind: OperationKind::Request,
        effect: OperationEffect::Read,
        request: PayloadRef::Inline { content_type: None, bytes: Vec::new() },
        recorded_response: if response { Some(PayloadRef::Inline { content_type: None, bytes: Vec::new() }) } else { None },
        attributes: Vec::new(),
        protocol_data: ProtocolData { schema_version: 1, media_type: None, bytes: Vec::new() },
        incomplete: false,
        truncated: false,
        redactions: Vec::new(),
        warnings: Vec::new(),
    }
}

fn evidence(chunks: Vec<StreamChunk>, outcome: StreamOutcome) -> ConnectionEvidence {
    ConnectionEvidence {
        client: Endpoint { host: "client".into(), port: 1 },
        server: Endpoint { host: "server".into(), port: 2 },
        attributes: Vec::new(),
        stream: stream(chunks, false),
        outcome,
    }
}

#[test]
fn unknown_traffic_is_preserved_as_opaque() {
    let pipeline = EtlPipeline::new(SessionLimits::default());
    let connection = evidence(vec![chunk(7, Some(100), b"abc"), chunk(8, Some(50), b"de")], StreamOutcome::Undetected);
    let (session, issues) = pipeline.finish(vec![connection], Vec::new(), 1).unwrap();
    assert_eq!(session.connections.len(), 1);
    assert_eq!(session.connections[0].protocol, "unknown");
    let op = &session.connections[0].operations[0];
    assert_eq!(op.kind, OperationKind::Opaque);
    assert_eq!(op.sequence, 7);
    assert!(matches!(&op.request, PayloadRef::Inline { bytes, .. } if bytes == b"abcde"));
    assert_eq!(issues.len(), 1);
    assert_eq!(issues[0].kind, EtlIssueKind::UnknownProtocol);
    assert_eq!(issues[0].sequence, Some(7));
    assert_eq!(issues[0].message, "traffic preserved as opaque bytes");
    assert_eq!((session.started_at, session.ended_at), (50, Some(100)));
    assert_eq!(session.connection_state(session.connections[0].id), Completeness::Complete);
    assert_eq!(session.operation_state(op.id), Completeness::Partial);
}

#[test]
fn decoded_operations_are_kept_and_timeline_is_ordered_by_sequence() {
    let pipeline = EtlPipeline::new(SessionLimits::default());
    let first = evidence(
        vec![chunk(1, None, b"x")],
        StreamOutcome::Decoded { protocol: "http/1.1".into(), operations: vec![operation(11, 5, true), operation(12, 2, true)] },
    );
    let second = evidence(
        vec![chunk(3, None, b"y")],
        StreamOutcome::Decoded { protocol: "http/1.1".into(), operations: vec![operation(21, 3, false)] },
    );
    let (session, issues) = pipeline.finish_reconstructed(vec![first, second], Vec::new(), 9).unwrap();
    assert!(issues.is_empty());
    assert_eq!((session.started_at, session.ended_at), (0, None));
    let order: Vec<u128> = session.timeline.iter().map(|entry| entry.operation_id).collect();
    assert_eq!(order, vec![12, 21, 11]);
    assert_eq!(session.timeline[0].offset, 20);
    assert_eq!(session.timeline[0].connection_id, session.connections[0].id);
    assert_eq!(session.operation_state(11), Completeness::Complete);
    assert_eq!(session.operation_state(21), Completeness::Partial);
    assert_eq!(session.operation_state(99), Completeness::Partial);
}

#[test]
fn decode_failure_records_issue_and_keeps_protocol() {
    let pipeline = EtlPipeline::new(SessionLimits::default());
    let connection = evidence(
        vec![chunk(4, None, b"junk")],
        StreamOutcome::DecodeFailed { protocol: "http/1.1".into(), message: "bad frame".into() },
    );
    let (session, issues) = pipeline.finish(vec![connection], Vec::new(), 1).unwrap();
    assert_eq!(session.connections[0].protocol, "http/1.1");
    assert_eq!(session.connections[0].operations[0].kind, OperationKind::Opaque);
    assert_eq!(issues[0].kind, EtlIssueKind::ProtocolDecode);
    assert_eq!(issues[0].message, "bad frame");
}

#[test]
fn stops_when_issue_limit_is_reached() {
    let pipeline = EtlPipeline::with_max_issues(SessionLimits::default(), 1);
    let connections = vec![
        evidence(vec![chunk(1, None, b"a")], StreamOutcome::Undetected),
        evidence(vec![chunk(2, None, b"b")], StreamOutcome::Undetected),
    ];
    assert_eq!(pipeline.finish(connections, Vec::new(), 1).err(), Some(EtlError::IssueLimit { limit: 1 }));
}

#[test]
fn rejects_10001st_operation_without_output() {
    let pipeline = EtlPipeline::new(SessionLimits::default());
    let operations: Vec<CanonicalOperation> =
        (0..=MAX_CANONICAL_OPERATIONS as u64).map(|i| operation(u128::from(i) + 1, i, true)).collect();
    let connection = evidence(vec![chunk(1, None, b"a")], StreamOutcome::Decoded { protocol: "p".into(), operations });
    assert_eq!(
        pipeline.finish(vec![connection], Vec::new(), 1).err(),
        Some(EtlError::OperationLimit { limit: MAX_CANONICAL_OPERATIONS })
    );
}

#[test]
fn truncated_or_empty_streams_are_partial() {
    let pipeline = EtlPipeline::new(SessionLimits::default());
    let mut truncated = evidence(
        vec![chunk(1, None, b"a")],
        StreamOutcome::Decoded { protocol: "p".into(), operations: vec![operation(5, 1, true)] },
    );
    truncated.stream.truncated = true;
    let empty = evidence(Vec::new(), StreamOutcome::Decoded { protocol: "p".into(), operations: Vec::new() });
    let (session, _) = pipeline.finish(vec![truncated, empty], Vec::new(), 1).unwrap();
    assert_eq!(session.connection_state(session.connections[0].id), Completeness::Partial);
    assert_eq!(session.connection_state(session.connections[1].id), Completeness::Partial);
    assert_eq!(session.operation_state(5), Completeness::Partial);
}

#[test]
fn warnings_about_truncation_make_an_operation_partial() {
    let mut op = operation(1, 1, true);
    assert_eq!(derive_operation_completeness(&op, false), Completeness::Complete);
    op.warnings.push(CanonicalWarning { code: "request_incomplete_body".into(), message: String::new() });
    assert_eq!(derive_operation_completeness(&op, false), Completeness::Partial);
    let opaque = opaque_operation(&stream(vec![chunk(3, None, b"zz")], false), 44);
    assert_eq!(opaque.id, 44);
    assert_eq!(opaque.protocol_data.media_type.as_deref(), Some("application/octet-stream"));
    assert_eq!(opaque.protocol_data.bytes, b"zz".to_vec());
}

#[test]
fn session_bounds_take_earliest_and_latest_times() {
    let connections = vec![
        evidence(vec![chunk(1, Some(30), b""), chunk(2, None, b"")], StreamOutcome::Undetected),
        evidence(vec![chunk(3, Some(-5), b""), chunk(4, Some(70), b"")], StreamOutcome::Undetected),
    ];
    assert_eq!(session_bounds(&connections), (-5, Some(70)));
    assert_eq!(session_bounds(&Vec::new()), (0, None));
    let issue = EtlIssue { sequence: None, kind: EtlIssueKind::PartialWalTail, message: String::new() };
    assert_eq!(issue.kind.name(), "PartialWalTail");
}
