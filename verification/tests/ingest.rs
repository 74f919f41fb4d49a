use chronicle::assembler::{ReconstructionAssembler, ReconstructionInput};
use chronicle::etl::{EtlError, EtlIssue, EtlIssueKind};
use chronicle::ingest::{ingest_reconstructed_envelope, DecodedEnvelope, EtlEvidence, WalEnvelope};
use chronicle::session::{
    LossInterval, LossWindowObserved, MonotonicTimestamp, RawLifecycleEvidence, ReconstructionConnectionIdentity,
    ReconstructionEvent, ReconstructionEvidence, ReconstructionInputError, TerminalPersistenceLoss,
};

fn at(nanoseconds: u64) -> MonotonicTimestamp {
    MonotonicTimestamp { clock: "boot".into(), nanoseconds }
}

fn established(cookie: u64) -> ReconstructionInput {
    ReconstructionInput::Event(ReconstructionEvent {
        connection: ReconstructionConnectionIdentity::Socket { socket_cookie: cookie, first_seen: at(1), network_namespace: None },
        wal_sequence: None,
        timestamp: at(1),
        socket_role: None,
        evidence: ReconstructionEvidence::Lifecycle(RawLifecycleEvidence::Established),
    })
}

fn evidence() -> EtlEvidence {
    EtlEvidence { loss_windows: Vec::new(), terminal_wal_losses: Vec::new(), commit_marker_sequences: Vec::new() }
}

fn ingest(
    envelope: WalEnvelope,
    assembler: &mut ReconstructionAssembler,
    evidence: &mut EtlEvidence,
    issues: &mut Vec<EtlIssue>,
    max_issues: usize,
) -> Result<(), EtlError> {
    ingest_reconstructed_envelope(envelope, assembler, evidence, issues, max_issues)
}

#[test]
fn capture_event_enters_reconstruction_at_its_wal_sequence() {
    let mut assembler = ReconstructionAssembler::default();
    let mut kept = evidence();
    let mut issues = Vec::new();
    let envelope = WalEnvelope { sequence: 4, segment_first_sequence: None, decoded: DecodedEnvelope::CaptureEvent(Ok((Some(4), Ok(established(3))))) };
    ingest(envelope, &mut assembler, &mut kept, &mut issues, 8).unwrap();
    assert!(issues.is_empty());
    let connections = assembler.finish().connections;
    assert_eq!(connections.len(), 1);
    assert_eq!(connections[0].events[0].wal_sequence, Some(4));
}

#[test]
fn capture_sequence_that_differs_from_wal_sequence_is_an_issue() {
    let mut assembler = ReconstructionAssembler::default();
    let mut kept = evidence();
    let mut issues = Vec::new();
    let envelope = WalEnvelope { sequence: 1, segment_first_sequence: None, decoded: DecodedEnvelope::CaptureEvent(Ok((Some(2), Ok(established(3))))) };
    ingest(envelope, &mut assembler, &mut kept, &mut issues, 8).unwrap();
    assert!(assembler.finish().connections.is_empty());
    assert_eq!(issues.len(), 1);
    assert_eq!(issues[0].kind, EtlIssueKind::CaptureSequenceMismatch);
    assert_eq!(issues[0].message, "capture sequence 2 does not match WAL sequence 1");
    assert_eq!(issues[0].sequence, Some(1));
}

#[test]
fn unsupported_capture_schema_and_undecodable_payload_are_malformed() {
    let mut assembler = ReconstructionAssembler::default();
    let mut kept = evidence();
    let mut issues = Vec::new();
    let schema = WalEnvelope {
        sequence: 1,
        segment_first_sequence: None,
        decoded: DecodedEnvelope::CaptureEvent(Ok((None, Err(ReconstructionInputError::UnsupportedCaptureSchema(2))))),
    };
    ingest(schema, &mut assembler, &mut kept, &mut issues, 8).unwrap();
    let garbage = WalEnvelope { sequence: 2, segment_first_sequence: None, decoded: DecodedEnvelope::CaptureEvent(Err("expected value".into())) };
    ingest(garbage, &mut assembler, &mut kept, &mut issues, 8).unwrap();
    assert_eq!(issues.len(), 2);
    assert_eq!(issues[0].kind, EtlIssueKind::MalformedCaptureEvent);
    assert_eq!(issues[0].message, "capture event schema 2 cannot enter reconstruction input");
    assert_eq!(issues[1].message, "expected value");
}

#[test]
fn recovery_envelopes_preserve_loss_and_commit_evidence() {
    let mut assembler = ReconstructionAssembler::default();
    let mut kept = evidence();
    let mut issues = Vec::new();
    let window = LossWindowObserved { start: at(10), end: at(10), drop_delta: Some(1), ambiguity_reason: Some("test".into()) };
    let terminal = TerminalPersistenceLoss { interval: LossInterval { start: at(10), end: at(10) } };
    ingest(WalEnvelope { sequence: 1, segment_first_sequence: None, decoded: DecodedEnvelope::LossWindow(Ok(Some(window.clone()))) }, &mut assembler, &mut kept, &mut issues, 8).unwrap();
    ingest(WalEnvelope { sequence: 2, segment_first_sequence: None, decoded: DecodedEnvelope::TerminalWalLoss(Ok(terminal.clone())) }, &mut assembler, &mut kept, &mut issues, 8).unwrap();
    ingest(WalEnvelope { sequence: 3, segment_first_sequence: None, decoded: DecodedEnvelope::CommitMarker(true) }, &mut assembler, &mut kept, &mut issues, 8).unwrap();
    assert!(issues.is_empty());
    assert_eq!(kept.loss_windows.len(), 1);
    assert_eq!(kept.loss_windows[0].sequence, Some(1));
    assert_eq!(kept.loss_windows[0].value, window);
    assert_eq!(kept.terminal_wal_losses[0].sequence, Some(2));
    assert_eq!(kept.terminal_wal_losses[0].value, terminal);
    assert_eq!(kept.commit_marker_sequences, vec![3]);
    let assembly = assembler.finish();
    assert_eq!(assembly.loss_windows, vec![window]);
    assert_eq!(assembly.terminal_wal_losses, vec![terminal]);
}

#[test]
fn malformed_commit_marker_is_not_promoted_to_provenance() {
    let mut assembler = ReconstructionAssembler::default();
    let mut kept = evidence();
    let mut issues = Vec::new();
    ingest(WalEnvelope { sequence: 1, segment_first_sequence: None, decoded: DecodedEnvelope::CommitMarker(false) }, &mut assembler, &mut kept, &mut issues, 8).unwrap();
    assert!(kept.commit_marker_sequences.is_empty());
    assert_eq!(issues[0].kind, EtlIssueKind::MalformedCommitMarker);
    assert_eq!(issues[0].message, "invalid commit-marker schema or payload");
}

#[test]
fn malformed_committed_loss_envelopes_respect_issue_bound() {
    let mut assembler = ReconstructionAssembler::default();
    let mut kept = evidence();
    let mut issues = Vec::new();
    ingest(WalEnvelope { sequence: 1, segment_first_sequence: None, decoded: DecodedEnvelope::LossWindow(Err("malformed".into())) }, &mut assembler, &mut kept, &mut issues, 1).unwrap();
    let error = ingest(
        WalEnvelope { sequence: 2, segment_first_sequence: None, decoded: DecodedEnvelope::TerminalWalLoss(Err("malformed".into())) },
        &mut assembler,
        &mut kept,
        &mut issues,
        1,
    )
    .unwrap_err();
    assert_eq!(error, EtlError::IssueLimit { limit: 1 });
    assert_eq!(issues.len(), 1);
    assert_eq!(issues[0].kind, EtlIssueKind::MalformedLossWindow);
    ingest(WalEnvelope { sequence: 3, segment_first_sequence: None, decoded: DecodedEnvelope::LossWindow(Ok(None)) }, &mut assembler, &mut kept, &mut issues, 2).unwrap();
    assert_eq!(issues[1].message, "LossWindow envelope did not contain a v2 loss window");
}

#[test]
fn active_connection_limit_stops_ingest() {
    let mut assembler = ReconstructionAssembler::new(chronicle::session::ReconstructionLimits {
        max_active_connections: 1,
        ..chronicle::session::ReconstructionLimits::default()
    });
    let mut kept = evidence();
    let mut issues = Vec::new();
    ingest(WalEnvelope { sequence: 1, segment_first_sequence: None, decoded: DecodedEnvelope::CaptureEvent(Ok((None, Ok(established(1))))) }, &mut assembler, &mut kept, &mut issues, 8).unwrap();
    let error = ingest(
        WalEnvelope { sequence: 2, segment_first_sequence: None, decoded: DecodedEnvelope::CaptureEvent(Ok((None, Ok(established(2))))) },
        &mut assembler,
        &mut kept,
        &mut issues,
        8,
    )
    .unwrap_err();
    assert_eq!(error, EtlError::Reconstruction(chronicle::session::ReconstructionPushError::ActiveConnectionLimit { limit: 1 }));
}
