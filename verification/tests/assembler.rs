use chronicle::assembler::{
    identity_less, ReconstructionAssembler, ReconstructionAssemblerSnapshot, ReconstructionInput,
    RECONSTRUCTION_SNAPSHOT_VERSION,
};
use chronicle::canonical::Endpoint;
use chronicle::session::{
    DerivedTermination, FragmentPosition, LossInterval, LossWindowClassification, LossWindowObserved,
    MonotonicTimestamp, RawLifecycleEvidence, ReconstructionConnectionIdentity, ReconstructionDirection,
    ReconstructionEvent, ReconstructionEvidence, ReconstructionFinalization, ReconstructionLimits, ReconstructionPayload,
    ReconstructionPushError, ReconstructionSnapshotError, TerminalPersistenceLoss,
};

fn at(boot: &str, nanoseconds: u64) -> MonotonicTimestamp {
    MonotonicTimestamp { clock: boot.into(), nanoseconds }
}

fn socket(boot: &str, cookie: u64, first_seen: u64) -> ReconstructionConnectionIdentity {
    ReconstructionConnectionIdentity::Socket {
        socket_cookie: cookie,
        first_seen: at(boot, first_seen),
        network_namespace: Some(1),
    }
}

fn production_event(boot: &str, cookie: u64, first_seen: u64) -> ReconstructionInput {
    ReconstructionInput::Event(ReconstructionEvent {
        connection: socket(boot, cookie, first_seen),
        wal_sequence: None,
        timestamp: at(boot, first_seen),
        socket_role: None,
        evidence: ReconstructionEvidence::Lifecycle(RawLifecycleEvidence::Established),
    })
}

fn tcp_payload(sequence: u32, wal_sequence: u64, direction: ReconstructionDirection) -> ReconstructionInput {
    let ReconstructionInput::Event(mut event) = production_event("boot-a", 9, 1) else { unreachable!() };
    event.wal_sequence = Some(wal_sequence);
    event.evidence = ReconstructionEvidence::Payload(ReconstructionPayload {
        direction,
        tcp_position: Some(FragmentPosition { tcp_sequence: sequence, continuation_position: 0 }),
        bytes: vec![u8::try_from(sequence & 0xff).unwrap()],
        truncated: false,
    });
    ReconstructionInput::Event(event)
}

fn loss_window(boot: &str, start: u64, end: u64, delta: Option<u64>, reason: &str) -> LossWindowObserved {
    LossWindowObserved { start: at(boot, start), end: at(boot, end), drop_delta: delta, ambiguity_reason: Some(reason.into()) }
}

fn socket_parts(identity: &ReconstructionConnectionIdentity) -> Option<(u64, &str, u64)> {
    match identity {
        ReconstructionConnectionIdentity::Socket { socket_cookie, first_seen, .. } => {
            Some((*socket_cookie, first_seen.clock.as_str(), first_seen.nanoseconds))
        }
        ReconstructionConnectionIdentity::Fixture { .. } => None,
    }
}

#[test]
fn reconstruction_groups_production_by_socket_generation_and_keeps_fixture_key() {
    let mut assembler = ReconstructionAssembler::default();
    assembler.push(production_event("boot-a", 7, 10)).unwrap();
    assembler.push(production_event("boot-a", 7, 10)).unwrap();
    assembler.push(production_event("boot-a", 7, 20)).unwrap();
    assembler.push(production_event("boot-b", 7, 10)).unwrap();
    assembler.push(production_event("fixture-v1", 430, 1)).unwrap();
    let assembly = assembler.finish();
    assert_eq!(assembly.connections.len(), 4);
    assert!(assembly.connections.iter().all(|c| socket_parts(&c.identity).is_some()));
    assert!(assembly
        .connections
        .iter()
        .any(|c| socket_parts(&c.identity) == Some((7, "boot-a", 10)) && c.events.len() == 2));
    assert!(assembly.connections.iter().any(|c| socket_parts(&c.identity) == Some((7, "boot-a", 20))));
    assert!(assembly.connections.iter().any(|c| socket_parts(&c.identity) == Some((7, "boot-b", 10))));
}

#[test]
fn active_connections_finish_in_identity_order() {
    let mut assembler = ReconstructionAssembler::default();
    assembler.push(production_event("boot-b", 7, 10)).unwrap();
    assembler.push(production_event("boot-a", 9, 1)).unwrap();
    assembler.push(production_event("boot-a", 7, 20)).unwrap();
    assembler.push(production_event("boot-a", 7, 10)).unwrap();
    let order: Vec<_> = assembler
        .finish()
        .connections
        .iter()
        .map(|c| socket_parts(&c.identity).map(|(k, b, n)| (k, b.to_string(), n)).unwrap())
        .collect();
    assert_eq!(
        order,
        vec![(7, "boot-a".to_string(), 10), (7, "boot-a".to_string(), 20), (7, "boot-b".to_string(), 10), (9, "boot-a".to_string(), 1)]
    );
    let fixture = ReconstructionConnectionIdentity::Fixture {
        client: Endpoint::new("10.0.0.1", 1),
        server: Endpoint::new("10.0.0.2", 2),
    };
    assert!(identity_less(&fixture, &socket("boot-a", 0, 0)));
    assert!(!identity_less(&socket("boot-a", 0, 0), &fixture));
    assert!(!identity_less(&fixture, &fixture));
}

#[test]
fn reconstruction_limits_finalize_only_target_and_reject_active_overflow() {
    let mut assembler = ReconstructionAssembler::new(ReconstructionLimits {
        max_active_connections: 1,
        max_bytes_per_connection: 8,
        max_chunks_per_connection: 8,
        idle_nanoseconds: 100,
    });
    assembler.push(production_event("boot-a", 1, 0)).unwrap();
    assert_eq!(
        assembler.push(production_event("boot-a", 2, 0)),
        Err(ReconstructionPushError::ActiveConnectionLimit { limit: 1 })
    );

    let mut assembler = ReconstructionAssembler::new(ReconstructionLimits {
        max_active_connections: 2,
        max_bytes_per_connection: 1,
        max_chunks_per_connection: 8,
        idle_nanoseconds: 100,
    });
    assembler.push(tcp_payload(1, 1, ReconstructionDirection::Ingress)).unwrap();
    assembler.push(tcp_payload(2, 2, ReconstructionDirection::Ingress)).unwrap();
    let assembly = assembler.finish();
    assert!(assembly.connections.iter().any(|c| c.finalization == Some(ReconstructionFinalization::ByteLimit)));

    let mut assembler = ReconstructionAssembler::new(ReconstructionLimits {
        max_active_connections: 2,
        max_bytes_per_connection: 8,
        max_chunks_per_connection: 1,
        idle_nanoseconds: 100,
    });
    assembler.push(tcp_payload(1, 1, ReconstructionDirection::Ingress)).unwrap();
    assembler.push(tcp_payload(2, 2, ReconstructionDirection::Ingress)).unwrap();
    assert!(assembler
        .finish()
        .connections
        .iter()
        .any(|c| c.finalization == Some(ReconstructionFinalization::ChunkLimit)));
}

#[test]
fn bound_finalization_keeps_earlier_events_and_drops_the_overflowing_one() {
    let mut assembler = ReconstructionAssembler::new(ReconstructionLimits {
        max_active_connections: 2,
        max_bytes_per_connection: 1,
        max_chunks_per_connection: 8,
        idle_nanoseconds: 100,
    });
    assembler.push(tcp_payload(1, 1, ReconstructionDirection::Ingress)).unwrap();
    assembler.push(tcp_payload(2, 2, ReconstructionDirection::Ingress)).unwrap();
    let assembly = assembler.finish();
    assert_eq!(assembly.connections.len(), 1);
    let connection = &assembly.connections[0];
    assert_eq!(connection.finalization, Some(ReconstructionFinalization::ByteLimit));
    assert_eq!(connection.events.len(), 2);
    assert_eq!(connection.events[1].wal_sequence, Some(1));
}

#[test]
fn reconstruction_idle_uses_only_comparable_clock_identity() {
    let limits = ReconstructionLimits { idle_nanoseconds: 100, ..ReconstructionLimits::default() };
    let mut assembler = ReconstructionAssembler::new(limits);
    assembler.push(production_event("boot-a", 1, 0)).unwrap();
    assembler.push(production_event("boot-a", 2, 100)).unwrap();
    assert!(assembler.finish().connections.iter().any(|c| c.finalization == Some(ReconstructionFinalization::Idle)));

    let mut assembler = ReconstructionAssembler::new(limits);
    assembler.push(production_event("boot-a", 1, 0)).unwrap();
    assembler.push(production_event("boot-b", 2, 100)).unwrap();
    assert!(assembler.finish().connections.iter().all(|c| c.finalization.is_none()));
}

#[test]
fn payload_without_open_gets_synthetic_missing_open_evidence() {
    let ReconstructionInput::Event(mut event) = production_event("boot-a", 8, 10) else { unreachable!() };
    event.evidence = ReconstructionEvidence::Payload(ReconstructionPayload {
        direction: ReconstructionDirection::Ingress,
        tcp_position: None,
        bytes: vec![1],
        truncated: false,
    });
    let mut assembler = ReconstructionAssembler::default();
    assembler.push(ReconstructionInput::Event(event)).unwrap();
    let connection = assembler.finish().connections.pop().unwrap();
    assert!(matches!(connection.events[0].evidence, ReconstructionEvidence::Lifecycle(RawLifecycleEvidence::MissingOpen)));
    assert_eq!(connection.termination, DerivedTermination::UnknownTermination);
}

#[test]
fn reset_evidence_derives_reset_termination() {
    let ReconstructionInput::Event(mut event) = production_event("boot-a", 8, 10) else { unreachable!() };
    event.evidence = ReconstructionEvidence::Lifecycle(RawLifecycleEvidence::Reset);
    let mut assembler = ReconstructionAssembler::default();
    assembler.push(ReconstructionInput::Event(event)).unwrap();
    assert_eq!(assembler.finish().connections[0].termination, DerivedTermination::Reset);
}

#[test]
fn terminal_wal_loss_is_not_kernel_loss_window() {
    let terminal = TerminalPersistenceLoss { interval: LossInterval { start: at("boot-a", 10), end: at("boot-a", 20) } };
    let mut assembler = ReconstructionAssembler::default();
    assembler.push(ReconstructionInput::TerminalWalLoss(terminal.clone())).unwrap();
    assembler.push(ReconstructionInput::LossWindow(loss_window("boot-a", 10, 20, Some(1), "sample"))).unwrap();
    let assembly = assembler.finish();
    assert_eq!(assembly.terminal_wal_losses, [terminal]);
    assert_eq!(assembly.loss_windows.len(), 1);
}

#[test]
fn loss_windows_are_classified_per_connection() {
    let mut assembler = ReconstructionAssembler::default();
    assembler.push(production_event("boot-a", 1, 10)).unwrap();
    assembler.push(ReconstructionInput::LossWindow(loss_window("boot-a", 5, 15, Some(1), "sample"))).unwrap();
    assembler.push(ReconstructionInput::LossWindow(loss_window("boot-b", 5, 15, Some(1), "sample"))).unwrap();
    let connection = assembler.finish().connections.pop().unwrap();
    assert_eq!(connection.loss_windows.len(), 2);
    assert_eq!(connection.loss_windows[0].classification, LossWindowClassification::Overlaps);
    assert_eq!(connection.loss_windows[1].classification, LossWindowClassification::ClockMismatch);
    assert_eq!(connection.termination, DerivedTermination::UnknownTermination);
}

#[test]
fn reconstruction_snapshot_restores_pending_fragments_exactly() {
    let mut uninterrupted = ReconstructionAssembler::default();
    uninterrupted.push(tcp_payload(1, 10, ReconstructionDirection::Ingress)).unwrap();
    uninterrupted.push(tcp_payload(2, 11, ReconstructionDirection::Ingress)).unwrap();
    let expected = uninterrupted.finish();

    let mut before_restart = ReconstructionAssembler::default();
    before_restart.push(tcp_payload(1, 10, ReconstructionDirection::Ingress)).unwrap();
    let snapshot = before_restart.snapshot_state();
    assert_eq!(snapshot.active.len(), 1);
    let mut resumed = ReconstructionAssembler::restore(ReconstructionLimits::default(), snapshot)
        .unwrap_or_else(|_| panic!("snapshot did not restore"));
    resumed.push(tcp_payload(2, 11, ReconstructionDirection::Ingress)).unwrap();
    assert_eq!(resumed.finish(), expected);
}

#[test]
fn reconstruction_snapshot_rejects_unknown_version_and_limit_mismatch() {
    let assembler = ReconstructionAssembler::default();
    let mut snapshot = assembler.snapshot_state();
    assert_eq!(snapshot.version, RECONSTRUCTION_SNAPSHOT_VERSION);
    snapshot.version = 99;
    assert!(matches!(
        ReconstructionAssembler::restore(ReconstructionLimits::default(), snapshot),
        Err(ReconstructionSnapshotError::UnsupportedVersion(99))
    ));

    let snapshot = assembler.snapshot_state();
    assert!(matches!(
        ReconstructionAssembler::restore(
            ReconstructionLimits { max_bytes_per_connection: 1, ..ReconstructionLimits::default() },
            snapshot,
        ),
        Err(ReconstructionSnapshotError::LimitMismatch)
    ));
}

fn pending_snapshot(active: Vec<(ReconstructionConnectionIdentity, Vec<ReconstructionEvent>)>) -> ReconstructionAssemblerSnapshot {
    let limits = ReconstructionLimits::default();
    ReconstructionAssemblerSnapshot {
        version: RECONSTRUCTION_SNAPSHOT_VERSION,
        max_active_connections: limits.max_active_connections,
        max_bytes_per_connection: limits.max_bytes_per_connection,
        max_chunks_per_connection: limits.max_chunks_per_connection,
        idle_nanoseconds: limits.idle_nanoseconds,
        active: active
            .into_iter()
            .map(|(identity, events)| chronicle::assembler::ReconstructionPendingConnection { identity, events })
            .collect(),
        finalized: Vec::new(),
        loss_windows: Vec::new(),
        terminal_wal_losses: Vec::new(),
    }
}

fn event_of(input: ReconstructionInput) -> ReconstructionEvent {
    match input {
        ReconstructionInput::Event(e) => e,
        _ => unreachable!(),
    }
}

#[test]
fn restore_rejects_inconsistent_and_duplicate_connections_and_reorders() {
    let mismatched = pending_snapshot(vec![(socket("boot-a", 1, 0), vec![event_of(production_event("boot-a", 2, 0))])]);
    assert!(matches!(
        ReconstructionAssembler::restore(ReconstructionLimits::default(), mismatched),
        Err(ReconstructionSnapshotError::InconsistentConnection)
    ));
    let duplicate = pending_snapshot(vec![(socket("boot-a", 1, 0), Vec::new()), (socket("boot-a", 1, 0), Vec::new())]);
    assert!(matches!(
        ReconstructionAssembler::restore(ReconstructionLimits::default(), duplicate),
        Err(ReconstructionSnapshotError::DuplicateConnection)
    ));
    let unordered = pending_snapshot(vec![(socket("boot-a", 5, 0), Vec::new()), (socket("boot-a", 1, 0), Vec::new())]);
    let restored = ReconstructionAssembler::restore(ReconstructionLimits::default(), unordered)
        .unwrap_or_else(|_| panic!("snapshot did not restore"));
    let cookies: Vec<u64> =
        restored.finish().connections.iter().map(|c| socket_parts(&c.identity).unwrap().0).collect();
    assert_eq!(cookies, vec![1, 5]);
}
