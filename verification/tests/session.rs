use chronicle::session::{
    canonical_tcp_start, classify_loss_window, derive_termination, tcp_ranges_overlap, DerivedTermination,
    FragmentPosition, LossWindowClassification, LossWindowObserved, MonotonicTimestamp, RawLifecycleEvidence,
    ReconstructionConnectionIdentity, ReconstructionDirection, ReconstructionEvent, ReconstructionEvidence, ReconstructionLimits, ReconstructionPayload,
    SessionLimits, TcpOrderingAmbiguity,
};

fn at(boot: &str, nanoseconds: u64) -> MonotonicTimestamp {
    MonotonicTimestamp { clock: boot.into(), nanoseconds }
}

fn payload_event(boot: &str, nanoseconds: u64, tcp: Option<u32>, bytes: &[u8]) -> ReconstructionEvent {
    ReconstructionEvent {
        connection: ReconstructionConnectionIdentity::Socket {
            socket_cookie: 1,
            first_seen: at(boot, 0),
            network_namespace: None,
        },
        wal_sequence: Some(1),
        timestamp: at(boot, nanoseconds),
        socket_role: None,
        evidence: ReconstructionEvidence::Payload(ReconstructionPayload {
            direction: ReconstructionDirection::Ingress,
            tcp_position: tcp.map(|tcp_sequence| FragmentPosition { tcp_sequence, continuation_position: 0 }),
            bytes: bytes.to_vec(),
            truncated: false,
        }),
    }
}

fn lifecycle_event(boot: &str, nanoseconds: u64, evidence: RawLifecycleEvidence) -> ReconstructionEvent {
    ReconstructionEvent {
        connection: ReconstructionConnectionIdentity::Socket {
            socket_cookie: 1,
            first_seen: at(boot, 0),
            network_namespace: None,
        },
        wal_sequence: Some(1),
        timestamp: at(boot, nanoseconds),
        socket_role: None,
        evidence: ReconstructionEvidence::Lifecycle(evidence),
    }
}

fn loss_window(boot: &str, start: u64, end: u64, delta: Option<u64>, reason: &str) -> LossWindowObserved {
    LossWindowObserved { start: at(boot, start), end: at(boot, end), drop_delta: delta, ambiguity_reason: Some(reason.into()) }
}

#[test]
fn loss_windows_classify_without_cross_clock_timestamp_comparison() {
    let event = payload_event("boot-a", 10, Some(1), b"x");
    let events = std::slice::from_ref(&event);
    assert_eq!(classify_loss_window(events, &loss_window("boot-a", 5, 15, Some(1), "sample")), LossWindowClassification::Overlaps);
    assert_eq!(classify_loss_window(events, &loss_window("boot-a", 20, 30, Some(1), "sample")), LossWindowClassification::Outside);
    assert_eq!(classify_loss_window(events, &loss_window("boot-a", 5, 15, None, "incomplete")), LossWindowClassification::Unknown);
    assert_eq!(
        classify_loss_window(events, &loss_window("boot-a", 5, 15, None, "counter generation changed")),
        LossWindowClassification::Reset
    );
    assert_eq!(classify_loss_window(events, &loss_window("boot-b", 5, 15, Some(1), "sample")), LossWindowClassification::ClockMismatch);
    assert_eq!(classify_loss_window(events, &loss_window("boot-a", 1, 9, Some(1), "sample")), LossWindowClassification::Outside);
    let mixed = LossWindowObserved { start: at("boot-a", 1), end: at("boot-b", 2), drop_delta: Some(1), ambiguity_reason: None };
    assert_eq!(classify_loss_window(events, &mixed), LossWindowClassification::ClockMismatch);
    assert_eq!(classify_loss_window(&[], &loss_window("boot-a", 1, 2, Some(1), "sample")), LossWindowClassification::ClockMismatch);
    assert_eq!(
        classify_loss_window(events, &loss_window("boot-a", 5, 15, None, "counter regressed")),
        LossWindowClassification::Reset
    );
}

#[test]
fn lifecycle_evidence_stays_raw_while_termination_is_derived() {
    let close = lifecycle_event("boot-a", 10, RawLifecycleEvidence::Closed);
    assert_eq!(derive_termination(std::slice::from_ref(&close), &[]), DerivedTermination::CleanClose);
    assert_eq!(
        derive_termination(std::slice::from_ref(&close), &[LossWindowClassification::Overlaps]),
        DerivedTermination::UnknownTermination
    );
    let reset = lifecycle_event("boot-a", 10, RawLifecycleEvidence::Reset);
    assert_eq!(derive_termination(&[close.clone(), reset], &[LossWindowClassification::Outside]), DerivedTermination::Reset);
    assert_eq!(derive_termination(&[payload_event("boot-a", 1, None, b"")], &[]), DerivedTermination::UnknownTermination);
}

#[test]
fn tcp_start_follows_the_largest_gap() {
    assert_eq!(canonical_tcp_start(&[20, 10, 30]), (Some(10), None));
    assert_eq!(canonical_tcp_start(&[1, u32::MAX - 1, 0, u32::MAX]), (Some(u32::MAX - 1), None));
    assert_eq!(canonical_tcp_start(&[]), (None, None));
    assert_eq!(canonical_tcp_start(&[7, 7]), (Some(7), None));
}

#[test]
fn tcp_start_half_range_is_ambiguous() {
    assert_eq!(canonical_tcp_start(&[0, 1 << 31]), (None, Some(TcpOrderingAmbiguity::HalfSequenceRange)));
    assert_eq!(canonical_tcp_start(&[2, 0, 1]), canonical_tcp_start(&[1, 2, 0]));
    assert_eq!(canonical_tcp_start(&[2, 0, 1]), (Some(0), None));
}

#[test]
fn tcp_ranges_overlap_in_sequence_space() {
    let a = payload_event("b", 1, Some(10), b"abcd");
    let b = payload_event("b", 1, Some(12), b"xy");
    let c = payload_event("b", 1, Some(14), b"z");
    let wrap = payload_event("b", 1, Some(u32::MAX), b"ab");
    let zero = payload_event("b", 1, Some(0), b"q");
    let empty = payload_event("b", 1, Some(11), b"");
    assert!(tcp_ranges_overlap(&a, &b));
    assert!(tcp_ranges_overlap(&b, &a));
    assert!(!tcp_ranges_overlap(&a, &c));
    assert!(tcp_ranges_overlap(&wrap, &zero));
    assert!(!tcp_ranges_overlap(&a, &empty));
    assert!(!tcp_ranges_overlap(&a, &payload_event("b", 1, None, b"abc")));
}

#[test]
fn limits_have_documented_defaults() {
    let s = SessionLimits::default();
    assert_eq!((s.max_connections, s.max_bytes_per_connection, s.max_chunks_per_connection), (1024, 8 * 1024 * 1024, 65536));
    let r = ReconstructionLimits::default();
    assert_eq!(r.idle_nanoseconds, 5 * 60 * 1_000_000_000);
    assert_eq!(r.max_active_connections, 1024);
}
