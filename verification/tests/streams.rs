use chronicle::assembler::{ReconstructionAssembler, ReconstructionInput};
use chronicle::canonical::Endpoint;
use chronicle::session::{
    LossWindowObserved, RawLifecycleEvidence, ReconstructionConnectionIdentity, ReconstructionDirection, ReconstructionEvidence,
    ReconstructionInputError,
};
use chronicle::etl::{EtlError, EtlIssueKind};
use chronicle::ingest::{ingest_envelope, ingest_record, DecodedFixtureEnvelope, EtlEvidence, FixtureEnvelope};
use chronicle::protocol::Direction;
use chronicle::session::{FragmentPosition, MonotonicTimestamp, SessionError, SessionLimits, SocketRole};
use chronicle::streams::{
    CaptureEvent, CaptureEventKind, NetworkFamily, PayloadDirection, PayloadFragment, SessionAssembler, SocketEvidence,
    SocketIdentity, CAPTURE_EVENT_SCHEMA_VERSION,
};

fn fixture_socket(client: &str) -> SocketIdentity {
    SocketIdentity {
        socket_cookie: client.bytes().map(u64::from).sum::<u64>().max(1),
        first_seen: MonotonicTimestamp { clock: "fixture-v1".into(), nanoseconds: 1 },
        network_namespace: None,
    }
}

fn event_for(sequence: u64, client: &str, payload_bytes: usize) -> CaptureEvent {
    CaptureEvent {
        schema_version: CAPTURE_EVENT_SCHEMA_VERSION,
        kind: CaptureEventKind::PayloadFragment(PayloadFragment {
            timestamp: MonotonicTimestamp { clock: "fixture-v1".into(), nanoseconds: sequence },
            socket: fixture_socket(client),
            direction: PayloadDirection::Egress,
            sequence: FragmentPosition { tcp_sequence: u32::try_from(sequence).unwrap(), continuation_position: 0 },
            payload: vec![u8::try_from(sequence).unwrap(); payload_bytes],
            truncated: false,
            flags: 0,
        }),
    }
}

fn fixture_evidence(client: &str) -> CaptureEvent {
    CaptureEvent {
        schema_version: CAPTURE_EVENT_SCHEMA_VERSION,
        kind: CaptureEventKind::SocketConnected(SocketEvidence {
            timestamp: MonotonicTimestamp { clock: "fixture-v1".into(), nanoseconds: 1 },
            socket: fixture_socket(client),
            network_family: NetworkFamily::Ipv4,
            local_endpoint: Endpoint::new(client, 10),
            remote_endpoint: Endpoint::new("server", 20),
            role: SocketRole::Active,
        }),
    }
}

fn push_fixture(assembler: &mut SessionAssembler, sequence: u64, client: &str, payload_bytes: usize) -> Result<(), SessionError> {
    assembler.push(fixture_evidence(client))?;
    assembler.push(event_for(sequence, client, payload_bytes))
}

#[test]
fn orders_chunks_by_monotonic_sequence() {
    let mut assembler = SessionAssembler::new(SessionLimits::default());
    push_fixture(&mut assembler, 2, "client", 1).unwrap();
    push_fixture(&mut assembler, 1, "client", 1).unwrap();
    let stream = assembler.finish().pop().unwrap();
    let sequences: Vec<_> = stream.chunks.iter().map(|event| event.monotonic_sequence).collect();
    assert_eq!(sequences, [1, 2]);
}

#[test]
fn rejected_oversized_new_event_does_not_consume_connection_capacity() {
    let limits = SessionLimits { max_connections: 1, max_bytes_per_connection: 1, max_chunks_per_connection: 1 };
    let mut assembler = SessionAssembler::new(limits);
    assert!(matches!(push_fixture(&mut assembler, 1, "oversized", 2), Err(SessionError::ByteLimit { .. })));
    push_fixture(&mut assembler, 2, "accepted", 1).unwrap();
    let streams = assembler.finish();
    assert_eq!(streams.len(), 1);
    assert_eq!(streams[0].key.client.host, "accepted");
}

#[test]
fn enforces_connection_and_existing_stream_byte_limits() {
    let limits = SessionLimits { max_connections: 1, max_bytes_per_connection: 1, max_chunks_per_connection: 2 };
    let mut assembler = SessionAssembler::new(limits);
    push_fixture(&mut assembler, 1, "first", 1).unwrap();
    assert!(matches!(push_fixture(&mut assembler, 2, "first", 1), Err(SessionError::ByteLimit { .. })));
    assert!(matches!(push_fixture(&mut assembler, 3, "second", 1), Err(SessionError::ConnectionLimit { limit: 1 })));
}

#[test]
fn limits_zero_byte_chunks() {
    let limits = SessionLimits { max_connections: 1, max_bytes_per_connection: 1, max_chunks_per_connection: 1 };
    let mut assembler = SessionAssembler::new(limits);
    push_fixture(&mut assembler, 1, "first", 0).unwrap();
    assert!(matches!(push_fixture(&mut assembler, 2, "first", 0), Err(SessionError::ChunkLimit { limit: 1 })));
}

#[test]
fn preserves_direction_order_and_truncation() {
    let mut assembler = SessionAssembler::new(SessionLimits::default());
    let mut response = event_for(2, "client", 1);
    if let CaptureEventKind::PayloadFragment(fragment) = &mut response.kind {
        fragment.direction = PayloadDirection::Ingress;
        fragment.truncated = true;
    }
    assembler.push(fixture_evidence("client")).unwrap();
    assembler.push(response).unwrap();
    push_fixture(&mut assembler, 1, "client", 1).unwrap();
    let stream = assembler.finish().pop().unwrap();
    assert_eq!(stream.chunks.iter().map(|chunk| chunk.monotonic_sequence).collect::<Vec<_>>(), [1, 2]);
    assert_eq!(stream.chunks[1].direction, Direction::ServerToClient);
    assert!(stream.truncated);
}

#[test]
fn byte_limit_reports_attempted_total_and_payload_needs_evidence() {
    let limits = SessionLimits { max_connections: 4, max_bytes_per_connection: 3, max_chunks_per_connection: 8 };
    let mut assembler = SessionAssembler::new(limits);
    assert_eq!(assembler.push(event_for(1, "nobody", 1)), Err(SessionError::MissingSocketEvidence));
    push_fixture(&mut assembler, 1, "client", 2).unwrap();
    assert_eq!(
        push_fixture(&mut assembler, 2, "client", 2),
        Err(SessionError::ByteLimit { limit: 3, attempted: 4 })
    );
    let stream = assembler.finish().pop().unwrap();
    assert_eq!(stream.total_bytes, 2);
    assert_eq!(stream.first_sequence(), Some(1));
}

#[test]
fn conflicting_socket_evidence_and_unknown_schema_are_refused() {
    let mut assembler = SessionAssembler::new(SessionLimits::default());
    assembler.push(fixture_evidence("client")).unwrap();
    let mut conflicting = fixture_evidence("client");
    if let CaptureEventKind::SocketConnected(evidence) = &mut conflicting.kind {
        evidence.role = SocketRole::Passive;
    }
    assert_eq!(assembler.push(conflicting), Err(SessionError::ConflictingSocketEvidence));
    let mut future = fixture_evidence("client");
    future.schema_version = 2;
    assert_eq!(assembler.push(future), Err(SessionError::UnsupportedCaptureEvent { schema_version: 2 }));
}

#[test]
fn streams_finish_by_first_chunk() {
    let mut assembler = SessionAssembler::new(SessionLimits::default());
    push_fixture(&mut assembler, 5, "a-client", 1).unwrap();
    push_fixture(&mut assembler, 3, "b-client", 1).unwrap();
    let hosts: Vec<String> = assembler.finish().iter().map(|s| s.key.client.host.clone()).collect();
    assert_eq!(hosts, vec!["b-client".to_string(), "a-client".to_string()]);
}

fn no_evidence() -> EtlEvidence {
    EtlEvidence { loss_windows: Vec::new(), terminal_wal_losses: Vec::new(), commit_marker_sequences: Vec::new() }
}

#[test]
fn rejects_capture_sequence_that_differs_from_wal_sequence() {
    let mut assembler = SessionAssembler::new(SessionLimits::default());
    let mut issues = Vec::new();
    ingest_record(1, Ok((Some(2), event_for(2, "client", 1))), &mut assembler, &mut issues, 4).unwrap();
    assert!(assembler.finish().is_empty());
    assert_eq!(issues.len(), 1);
    assert_eq!(issues[0].kind, EtlIssueKind::CaptureSequenceMismatch);
}

#[test]
fn refused_capture_event_stops_fixture_ingest() {
    let mut issues = Vec::new();
    let mut assembler = SessionAssembler::new(SessionLimits::default());
    let error = ingest_record(1, Ok((Some(1), event_for(1, "client", 1))), &mut assembler, &mut issues, 4).unwrap_err();
    assert_eq!(error, EtlError::Session(SessionError::MissingSocketEvidence));
}

#[test]
fn fixture_ingest_stops_at_issue_limit() {
    let mut assembler = SessionAssembler::new(SessionLimits::default());
    let mut issues = Vec::new();
    let mut evidence = no_evidence();
    let malformed = |sequence| FixtureEnvelope { sequence, decoded: DecodedFixtureEnvelope::CaptureEvent(Err("not-json".into())) };
    ingest_envelope(malformed(1), &mut assembler, &mut evidence, &mut issues, 1).unwrap();
    let error = ingest_envelope(malformed(2), &mut assembler, &mut evidence, &mut issues, 1).unwrap_err();
    assert!(matches!(error, EtlError::IssueLimit { limit: 1 }));
    ingest_envelope(FixtureEnvelope { sequence: 3, decoded: DecodedFixtureEnvelope::CommitMarker(true) }, &mut assembler, &mut evidence, &mut issues, 1)
        .unwrap();
    assert_eq!(evidence.commit_marker_sequences, vec![3]);
}

fn socket_evidence(role: SocketRole) -> SocketEvidence {
    let timestamp = MonotonicTimestamp { clock: "boot-a".into(), nanoseconds: 12 };
    SocketEvidence {
        timestamp: timestamp.clone(),
        socket: SocketIdentity { socket_cookie: 8, first_seen: timestamp, network_namespace: None },
        network_family: NetworkFamily::Ipv4,
        local_endpoint: Endpoint::new("192.0.2.10", 41_000),
        remote_endpoint: Endpoint::new("192.0.2.20", 8_080),
        role,
    }
}

#[test]
fn fixture_capture_uses_same_socket_reconstruction_input() {
    let input = ReconstructionInput::from_capture_event(event_for(7, "fixture-client", 2)).unwrap();
    let ReconstructionInput::Event(event) = input else { panic!("expected fixture reconstruction payload") };
    let ReconstructionConnectionIdentity::Socket { socket_cookie, .. } = event.connection else { panic!("socket identity") };
    let ReconstructionEvidence::Payload(payload) = event.evidence else { panic!("payload evidence") };
    assert_ne!(socket_cookie, 0);
    assert_eq!(event.timestamp.clock, "fixture-v1");
    assert_eq!(event.timestamp.nanoseconds, 7);
    assert_eq!(payload.direction, ReconstructionDirection::Egress);
    assert_eq!(payload.tcp_position.unwrap().tcp_sequence, 7);
    assert_eq!(payload.bytes, [7, 7]);
    assert!(!payload.truncated);
}

#[test]
fn capture_payload_adapts_without_fixture_connection_or_wal_provenance() {
    let timestamp = MonotonicTimestamp { clock: "boot-a".into(), nanoseconds: 11 };
    let input = ReconstructionInput::from_capture_event(CaptureEvent {
        schema_version: CAPTURE_EVENT_SCHEMA_VERSION,
        kind: CaptureEventKind::PayloadFragment(PayloadFragment {
            timestamp: timestamp.clone(),
            socket: SocketIdentity { socket_cookie: 7, first_seen: timestamp, network_namespace: Some(9) },
            direction: PayloadDirection::Egress,
            sequence: FragmentPosition { tcp_sequence: 42, continuation_position: 1 },
            payload: vec![0, 255],
            truncated: true,
            flags: 0,
        }),
    })
    .unwrap();
    let ReconstructionInput::Event(event) = input else { panic!("expected payload") };
    let ReconstructionConnectionIdentity::Socket { socket_cookie, .. } = event.connection else { panic!("socket identity") };
    assert_eq!(event.wal_sequence, None);
    let ReconstructionEvidence::Payload(payload) = event.evidence else { panic!("payload evidence") };
    assert_eq!(socket_cookie, 7);
    assert_eq!(event.timestamp.nanoseconds, 11);
    assert_eq!(payload.direction, ReconstructionDirection::Egress);
    assert_eq!(payload.tcp_position.unwrap().tcp_sequence, 42);
    assert_eq!(payload.bytes, [0, 255]);
    assert!(payload.truncated);
}

#[test]
fn lifecycle_preserves_complete_socket_evidence() {
    let evidence = socket_evidence(SocketRole::Passive);
    let input = ReconstructionInput::from_capture_event(CaptureEvent {
        schema_version: CAPTURE_EVENT_SCHEMA_VERSION,
        kind: CaptureEventKind::SocketStateChangedObserved { socket: evidence, raw_state: 99 },
    })
    .unwrap();
    let ReconstructionInput::Event(event) = input else { panic!("expected lifecycle evidence") };
    assert_eq!(event.socket_role, Some(SocketRole::Passive));
    assert_eq!(event.evidence, ReconstructionEvidence::Lifecycle(RawLifecycleEvidence::StateChanged { raw_state: 99 }));
}

#[test]
fn same_egress_direction_maps_by_active_or_passive_role() {
    for (role, expected_client_fragments, expected_server_fragments) in [(SocketRole::Active, 1, 0), (SocketRole::Passive, 0, 1)] {
        let evidence = socket_evidence(role);
        let payload = CaptureEvent {
            schema_version: CAPTURE_EVENT_SCHEMA_VERSION,
            kind: CaptureEventKind::PayloadFragment(PayloadFragment {
                timestamp: evidence.timestamp.clone(),
                socket: evidence.socket.clone(),
                direction: PayloadDirection::Egress,
                sequence: FragmentPosition { tcp_sequence: 1, continuation_position: 0 },
                payload: vec![1],
                truncated: false,
                flags: 0,
            }),
        };
        let mut assembler = ReconstructionAssembler::default();
        assembler
            .push(
                ReconstructionInput::from_capture_event(CaptureEvent {
                    schema_version: CAPTURE_EVENT_SCHEMA_VERSION,
                    kind: CaptureEventKind::SocketConnected(evidence),
                })
                .unwrap(),
            )
            .unwrap();
        assembler.push(ReconstructionInput::from_capture_event(payload).unwrap()).unwrap();
        let connection = assembler.finish().connections.pop().unwrap();
        let neutral = connection.protocol_neutral();
        assert_eq!(neutral.client_to_server.fragments.len(), expected_client_fragments);
        assert_eq!(neutral.server_to_client.fragments.len(), expected_server_fragments);
    }
}

#[test]
fn capture_loss_window_stays_separate_reconstruction_input() {
    let window = LossWindowObserved {
        start: MonotonicTimestamp { clock: "boot-a".into(), nanoseconds: 13 },
        end: MonotonicTimestamp { clock: "boot-a".into(), nanoseconds: 14 },
        drop_delta: Some(2),
        ambiguity_reason: Some("between samples".into()),
    };
    let input = ReconstructionInput::from_capture_event(CaptureEvent {
        schema_version: CAPTURE_EVENT_SCHEMA_VERSION,
        kind: CaptureEventKind::LossWindowObserved(window.clone()),
    })
    .unwrap();
    assert_eq!(input, ReconstructionInput::LossWindow(window));
}

#[test]
fn reconstruction_input_rejects_unknown_capture_schema() {
    let mut event = event_for(1, "client", 1);
    event.schema_version = 2;
    assert_eq!(ReconstructionInput::from_capture_event(event), Err(ReconstructionInputError::UnsupportedCaptureSchema(2)));
}

#[test]
fn rejects_1025th_active_connection_without_omission() {
    let mut assembler = SessionAssembler::new(SessionLimits::default());
    let mut result = Ok(());
    for sequence in 1..=1_025u64 {
        let client = format!("client-{sequence}");
        let socket = SocketIdentity {
            socket_cookie: sequence,
            first_seen: MonotonicTimestamp { clock: "fixture-v1".into(), nanoseconds: 1 },
            network_namespace: None,
        };
        let evidence = CaptureEvent {
            schema_version: CAPTURE_EVENT_SCHEMA_VERSION,
            kind: CaptureEventKind::SocketConnected(SocketEvidence {
                timestamp: MonotonicTimestamp { clock: "fixture-v1".into(), nanoseconds: 1 },
                socket: socket.clone(),
                network_family: NetworkFamily::Ipv4,
                local_endpoint: Endpoint::new(&client, 1),
                remote_endpoint: Endpoint::new("server", 2),
                role: SocketRole::Active,
            }),
        };
        let payload = CaptureEvent {
            schema_version: CAPTURE_EVENT_SCHEMA_VERSION,
            kind: CaptureEventKind::PayloadFragment(PayloadFragment {
                timestamp: MonotonicTimestamp { clock: "fixture-v1".into(), nanoseconds: sequence },
                socket,
                direction: PayloadDirection::Egress,
                sequence: FragmentPosition { tcp_sequence: 0, continuation_position: 0 },
                payload: b"x".to_vec(),
                truncated: false,
                flags: 0,
            }),
        };
        result = assembler.push(evidence).and_then(|()| assembler.push(payload));
        if result.is_err() {
            break;
        }
    }
    assert!(matches!(result, Err(SessionError::ConnectionLimit { limit: 1_024 })));
}
