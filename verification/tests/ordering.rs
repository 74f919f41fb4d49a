use chronicle::canonical::Endpoint;
use chronicle::etl::{reconstructed_connection_identity, reconstructed_connection_incomplete};
use chronicle::ordering::TcpPayloadOrdering;
use chronicle::session::{
    ConnectionLossWindow, DerivedTermination, FragmentPosition, LossInterval, LossWindowClassification,
    LossWindowObserved, MonotonicTimestamp, ReconstructionConnection, ReconstructionConnectionIdentity,
    ReconstructionDirection, ReconstructionEvent, ReconstructionEvidence, ReconstructionFinalization,
    ReconstructionPayload, SocketRole, TcpOrderingAmbiguity, TcpOverlapKind, TerminalPersistenceLoss,
};

fn socket() -> ReconstructionConnectionIdentity {
    ReconstructionConnectionIdentity::Socket {
        socket_cookie: 9,
        first_seen: MonotonicTimestamp { clock: "boot-a".into(), nanoseconds: 1 },
        network_namespace: Some(1),
    }
}

fn tcp_payload(sequence: u32, wal_sequence: u64, direction: ReconstructionDirection) -> ReconstructionEvent {
    ReconstructionEvent {
        connection: socket(),
        wal_sequence: Some(wal_sequence),
        timestamp: MonotonicTimestamp { clock: "boot-a".into(), nanoseconds: 1 },
        socket_role: None,
        evidence: ReconstructionEvidence::Payload(ReconstructionPayload {
            direction,
            tcp_position: Some(FragmentPosition { tcp_sequence: sequence, continuation_position: 0 }),
            bytes: vec![u8::try_from(sequence & 0xff).unwrap()],
            truncated: false,
        }),
    }
}

fn connection(events: Vec<ReconstructionEvent>) -> ReconstructionConnection {
    ReconstructionConnection {
        identity: socket(),
        events,
        loss_windows: Vec::new(),
        termination: DerivedTermination::UnknownTermination,
        finalization: None,
    }
}

fn ordered_tcp(events: Vec<ReconstructionEvent>) -> TcpPayloadOrdering {
    connection(events).ordered_payloads(ReconstructionDirection::Ingress)
}

fn tcp_sequence(event: &ReconstructionEvent) -> u32 {
    let ReconstructionEvidence::Payload(payload) = &event.evidence else { unreachable!() };
    payload.tcp_position.as_ref().unwrap().tcp_sequence
}

fn set_bytes(event: &mut ReconstructionEvent, bytes: Vec<u8>) {
    let ReconstructionEvidence::Payload(payload) = &mut event.evidence else { unreachable!() };
    payload.bytes = bytes;
}

#[test]
fn tcp_order_handles_increasing_and_wraparound_sequences() {
    let normal = ordered_tcp(vec![
        tcp_payload(5, 9, ReconstructionDirection::Egress),
        tcp_payload(20, 2, ReconstructionDirection::Ingress),
        tcp_payload(10, 1, ReconstructionDirection::Ingress),
        tcp_payload(30, 3, ReconstructionDirection::Ingress),
    ]);
    assert_eq!(normal.ambiguity, None);
    assert_eq!(normal.fragments.iter().map(tcp_sequence).collect::<Vec<_>>(), [10, 20, 30]);
    let wrapped = ordered_tcp(vec![
        tcp_payload(1, 4, ReconstructionDirection::Ingress),
        tcp_payload(u32::MAX - 1, 1, ReconstructionDirection::Ingress),
        tcp_payload(0, 3, ReconstructionDirection::Ingress),
        tcp_payload(u32::MAX, 2, ReconstructionDirection::Ingress),
    ]);
    assert_eq!(wrapped.ambiguity, None);
    assert_eq!(wrapped.fragments.iter().map(tcp_sequence).collect::<Vec<_>>(), [u32::MAX - 1, u32::MAX, 0, 1]);
}

#[test]
fn tcp_half_range_is_explicitly_ambiguous_and_permutations_are_deterministic() {
    let ambiguous = ordered_tcp(vec![
        tcp_payload(0, 2, ReconstructionDirection::Ingress),
        tcp_payload(1 << 31, 1, ReconstructionDirection::Ingress),
    ]);
    assert_eq!(ambiguous.ambiguity, Some(TcpOrderingAmbiguity::HalfSequenceRange));
    assert_eq!(ambiguous.fragments.len(), 2);
    let mut first_duplicate = tcp_payload(9, 1, ReconstructionDirection::Ingress);
    let mut second_duplicate = tcp_payload(9, 2, ReconstructionDirection::Ingress);
    first_duplicate.wal_sequence = None;
    second_duplicate.wal_sequence = None;
    assert_eq!(
        ordered_tcp(vec![first_duplicate, second_duplicate]).ambiguity,
        Some(TcpOrderingAmbiguity::MissingProvenance)
    );
    let first = ordered_tcp(vec![
        tcp_payload(2, 3, ReconstructionDirection::Ingress),
        tcp_payload(0, 1, ReconstructionDirection::Ingress),
        tcp_payload(1, 2, ReconstructionDirection::Ingress),
    ]);
    let second = ordered_tcp(vec![
        tcp_payload(1, 2, ReconstructionDirection::Ingress),
        tcp_payload(2, 3, ReconstructionDirection::Ingress),
        tcp_payload(0, 1, ReconstructionDirection::Ingress),
    ]);
    assert_eq!(first, second);
    assert_eq!(first.fragments.iter().map(tcp_sequence).collect::<Vec<_>>(), [0, 1, 2]);
}

#[test]
fn tcp_provenance_breaks_equal_positions_and_preserves_evidence() {
    let mut later = tcp_payload(10, 2, ReconstructionDirection::Ingress);
    later.timestamp.clock = "boot-evidence".into();
    if let ReconstructionEvidence::Payload(payload) = &mut later.evidence {
        payload.bytes = vec![9, 8];
        payload.truncated = true;
    }
    let earlier = tcp_payload(10, 1, ReconstructionDirection::Ingress);
    let expected = later.clone();
    let ordered = ordered_tcp(vec![later, earlier]);
    assert_eq!(ordered.ambiguity, None);
    assert_eq!(ordered.fragments.iter().map(|event| event.wal_sequence).collect::<Vec<_>>(), [Some(1), Some(2)]);
    assert_eq!(ordered.fragments[1], expected);
}

#[test]
fn tcp_retransmissions_deduplicate_and_overlaps_retain_both_evidences() {
    let first = tcp_payload(10, 1, ReconstructionDirection::Ingress);
    let duplicate = tcp_payload(10, 2, ReconstructionDirection::Ingress);
    let exact = ordered_tcp(vec![first.clone(), duplicate.clone()]);
    assert_eq!(exact.fragments.len(), 1);
    assert_eq!(exact.retransmissions.len(), 1);
    assert_eq!(exact.retransmissions[0].retransmission, duplicate);
    assert_eq!(exact.retransmissions[0].retained, first);

    let mut conflicting = tcp_payload(10, 3, ReconstructionDirection::Ingress);
    set_bytes(&mut conflicting, vec![99]);
    let conflict = ordered_tcp(vec![first, conflicting]);
    assert_eq!(conflict.overlaps.len(), 1);
    assert_eq!(conflict.overlaps[0].kind, TcpOverlapKind::Conflicting);

    let mut wide = tcp_payload(20, 4, ReconstructionDirection::Ingress);
    set_bytes(&mut wide, vec![1, 2]);
    let partial = ordered_tcp(vec![wide, tcp_payload(21, 5, ReconstructionDirection::Ingress)]);
    assert_eq!(partial.overlaps.len(), 1);
    assert_eq!(partial.overlaps[0].kind, TcpOverlapKind::Partial);
}

#[test]
fn protocol_neutral_output_preserves_directional_bytes_and_safe_chronology() {
    let mut ingress = tcp_payload(10, 3, ReconstructionDirection::Ingress);
    let mut egress = tcp_payload(20, 7, ReconstructionDirection::Egress);
    ingress.timestamp.nanoseconds = 10;
    egress.timestamp.nanoseconds = 20;
    let output = connection(vec![ingress.clone(), egress.clone()]).protocol_neutral();
    assert_eq!(output.client_to_server.fragments.len(), 1);
    assert_eq!(output.server_to_client.fragments.len(), 1);
    assert_eq!(output.wal_sequence_range, Some((3, 7)));
    assert_eq!(
        output.cross_direction_completion.unwrap().iter().map(|event| event.direction).collect::<Vec<_>>(),
        [ReconstructionDirection::Ingress, ReconstructionDirection::Egress]
    );

    ingress.timestamp.clock = "boot-a".into();
    egress.timestamp.clock = "boot-b".into();
    assert!(connection(vec![ingress, egress]).protocol_neutral().cross_direction_completion.is_none());
}

#[test]
fn passive_sockets_receive_the_client_bytes() {
    let mut ingress = tcp_payload(10, 3, ReconstructionDirection::Ingress);
    ingress.socket_role = Some(SocketRole::Passive);
    let output = connection(vec![ingress]).protocol_neutral();
    assert_eq!(output.client_to_server.fragments.len(), 1);
    assert!(output.server_to_client.fragments.is_empty());
    assert!(output.cross_direction_completion.is_none());
    let fixture = ReconstructionConnection {
        identity: ReconstructionConnectionIdentity::Fixture {
            client: Endpoint { host: "c".into(), port: 1 },
            server: Endpoint { host: "s".into(), port: 2 },
        },
        ..connection(vec![tcp_payload(1, 1, ReconstructionDirection::ClientToServer)])
    };
    assert_eq!(fixture.protocol_neutral().client_to_server.fragments.len(), 1);
}

#[test]
fn incomplete_connections_and_identity_attributes() {
    let mut c = connection(vec![tcp_payload(1, 1, ReconstructionDirection::Ingress)]);
    assert!(!reconstructed_connection_incomplete(&c, &[]));
    let far = TerminalPersistenceLoss {
        interval: LossInterval {
            start: MonotonicTimestamp { clock: "boot-a".into(), nanoseconds: 100 },
            end: MonotonicTimestamp { clock: "boot-a".into(), nanoseconds: 200 },
        },
    };
    assert!(!reconstructed_connection_incomplete(&c, std::slice::from_ref(&far)));
    let near = TerminalPersistenceLoss {
        interval: LossInterval {
            start: MonotonicTimestamp { clock: "boot-a".into(), nanoseconds: 0 },
            end: MonotonicTimestamp { clock: "boot-a".into(), nanoseconds: 5 },
        },
    };
    assert!(reconstructed_connection_incomplete(&c, &[near]));
    c.loss_windows.push(ConnectionLossWindow {
        window: LossWindowObserved {
            start: MonotonicTimestamp { clock: "boot-a".into(), nanoseconds: 0 },
            end: MonotonicTimestamp { clock: "boot-a".into(), nanoseconds: 5 },
            drop_delta: Some(1),
            ambiguity_reason: None,
        },
        classification: LossWindowClassification::Overlaps,
    });
    assert!(reconstructed_connection_incomplete(&c, &[]));
    let finalized = ReconstructionConnection { finalization: Some(ReconstructionFinalization::Idle), ..connection(Vec::new()) };
    assert!(reconstructed_connection_incomplete(&finalized, &[]));

    let (client, server, attributes) = reconstructed_connection_identity(&socket());
    assert_eq!((client.host.as_str(), client.port, server.host.as_str()), ("unknown", 0, "unknown"));
    assert_eq!(
        attributes,
        vec![
            ("chronicle.network_namespace".to_string(), "1".to_string()),
            ("chronicle.socket_boot_id".to_string(), "boot-a".to_string()),
            ("chronicle.socket_cookie".to_string(), "9".to_string()),
            ("chronicle.socket_first_seen_ns".to_string(), "1".to_string()),
        ]
    );
}
