use chronicle::assembler::ReconstructionInput;
use chronicle::canonical::{CanonicalOperation, Completeness};
use chronicle::continuation::SegmentLineage;
use chronicle::detector::StreamChunk;
use chronicle::etl::{EtlError, EtlPipeline, StreamOutcome};
use chronicle::incremental::{
    admit_snapshot, operation_id_from_key, segment_lineage_of, CommittedSegment, CommittedWalSnapshot,
    EnvelopePosition, IncrementalProcessor, ReconstructedProtocols,
};
use chronicle::ingest::{DecodedEnvelope, WalEnvelope};
use chronicle::session::{
    LossInterval, LossWindowObserved, TerminalPersistenceLoss, MonotonicTimestamp, RawLifecycleEvidence, ReconstructionConnection, ReconstructionConnectionIdentity,
    ReconstructionEvent, ReconstructionEvidence, SessionLimits,
};

/// Recognises no protocol; keys an operation by its sequence.
struct Opaque;

impl ReconstructedProtocols for Opaque {
    fn decode(&self, _connection: &ReconstructionConnection, _truncated: bool) -> (Vec<StreamChunk>, StreamOutcome) {
        (Vec::new(), StreamOutcome::Undetected)
    }

    fn encode_operation(&self, operation: &CanonicalOperation) -> Vec<u8> {
        operation.sequence.to_le_bytes().to_vec()
    }
}

fn hex32(byte: u8) -> String {
    std::iter::repeat(format!("{byte:02x}")).take(32).collect()
}

fn processor() -> IncrementalProcessor {
    IncrementalProcessor::new(SessionLimits::default())
}

fn marker(sequence: u64) -> WalEnvelope {
    WalEnvelope { sequence, segment_first_sequence: None, decoded: DecodedEnvelope::CommitMarker(true) }
}

fn established(sequence: u64, cookie: u64) -> WalEnvelope {
    let at = MonotonicTimestamp { clock: "boot".into(), nanoseconds: 1 };
    WalEnvelope {
        sequence,
        segment_first_sequence: None,
        decoded: DecodedEnvelope::CaptureEvent(Ok((
            None,
            Ok(ReconstructionInput::Event(ReconstructionEvent {
                connection: ReconstructionConnectionIdentity::Socket {
                    socket_cookie: cookie,
                    first_seen: at.clone(),
                    network_namespace: None,
                },
                wal_sequence: None,
                timestamp: at,
                socket_role: None,
                evidence: ReconstructionEvidence::Lifecycle(RawLifecycleEvidence::Established),
            })),
        ))),
    }
}

fn snapshot(marker: u64, digest: u8, envelopes: Vec<WalEnvelope>, segments: Vec<CommittedSegment>) -> CommittedWalSnapshot {
    CommittedWalSnapshot {
        marker_sequence: marker,
        marker_digest: vec![digest; 32],
        envelopes,
        segment_lineage: segments,
    }
}

fn envelopes(sequences: &[u64]) -> Vec<WalEnvelope> {
    sequences.iter().map(|s| marker(*s)).collect()
}

fn segment(digest: u8, last_sequence: u64) -> CommittedSegment {
    CommittedSegment { ordinal: 0, digest: vec![digest; 32], first_sequence: 0, last_sequence }
}

fn run(p: &mut IncrementalProcessor, s: CommittedWalSnapshot) -> Result<chronicle::incremental::IncrementalResult, EtlError> {
    p.process_snapshot(s, &Opaque, 7)
}

#[test]
fn empty_committed_snapshots_do_not_advance_without_records() {
    let mut processor = processor();
    let first = run(&mut processor, snapshot(0, 0, vec![], vec![])).unwrap();
    assert_eq!((first.first_marker_sequence, first.last_marker_sequence), (0, 0));
    let second = run(&mut processor, snapshot(0, 0, vec![], vec![])).unwrap();
    assert_eq!(second.first_marker_sequence, 1);
    assert_eq!(second.last_marker_sequence, 0);
    assert_eq!(processor.last_marker_sequence(), Some(0));
    assert!(processor.marker_digest_matches(&[0; 32]));
    let state = processor.decoder_snapshot();
    assert_eq!(state.max_active_connections, 1024);
    assert!(state.active.is_empty());
}

#[test]
fn restart_rejects_wal_sequence_gap_and_lineage_fork() {
    let mut processor = processor();
    run(&mut processor, snapshot(0, 0, vec![], vec![])).unwrap();
    let state = processor.state_snapshot();
    let mut restored = IncrementalProcessor::new(SessionLimits::default());
    restored.restore_state(state);
    assert!(restored.marker_digest_matches(&[0; 32]));
    let decoder = processor.decoder_state(7, 9, 0, 0, hex32(0), vec![1, 2, 3], 0);
    let mut decoder_restored = IncrementalProcessor::new(SessionLimits::default());
    decoder_restored.restore_decoder_state(&decoder, 7, 9, 0, 0, &hex32(0)).unwrap();
    assert!(decoder_restored.marker_digest_matches(&[0; 32]));
    assert!(matches!(run(&mut processor, snapshot(5, 0, envelopes(&[5]), vec![])), Err(EtlError::SnapshotGap)));

    let mut processor = IncrementalProcessor::new(SessionLimits::default());
    run(&mut processor, snapshot(0, 0, vec![], vec![segment(1, 0)])).unwrap();
    assert!(matches!(
        run(&mut processor, snapshot(0, 0, vec![], vec![segment(2, 0)])),
        Err(EtlError::SnapshotLineageMismatch)
    ));
    run(&mut processor, snapshot(1, 1, envelopes(&[1]), vec![segment(3, 1)])).unwrap();
}

#[test]
fn marker_regression_is_refused_and_changes_nothing() {
    let mut processor = processor();
    run(&mut processor, snapshot(3, 4, envelopes(&[1, 2, 3]), vec![])).unwrap();
    assert_eq!(run(&mut processor, snapshot(2, 4, vec![], vec![])).err(), Some(EtlError::SnapshotRegression));
    assert_eq!(processor.last_marker_sequence(), Some(3));
    assert!(processor.marker_digest_matches(&[4; 32]));
}

#[test]
fn same_marker_with_another_digest_is_a_lineage_mismatch() {
    let mut processor = processor();
    run(&mut processor, snapshot(0, 0, vec![], vec![])).unwrap();
    assert_eq!(run(&mut processor, snapshot(0, 9, vec![], vec![])).err(), Some(EtlError::SnapshotLineageMismatch));
}

#[test]
fn snapshot_resumes_after_the_last_marker() {
    let mut processor = processor();
    let first = run(&mut processor, snapshot(2, 1, vec![established(1, 3), marker(2)], vec![])).unwrap();
    assert_eq!(first.first_marker_sequence, 0);
    assert_eq!(first.session.connections.len(), 1);
    let second = run(&mut processor, snapshot(4, 2, vec![established(1, 3), marker(2), established(3, 4), marker(4)], vec![]))
        .unwrap();
    assert_eq!(second.first_marker_sequence, 3);
    assert_eq!(second.last_marker_sequence, 4);
    // The earlier envelopes are not ingested again: two connections, not three.
    assert_eq!(second.session.connections.len(), 2);
}

#[test]
fn gap_inside_new_envelopes_is_refused() {
    let mut processor = processor();
    assert_eq!(run(&mut processor, snapshot(3, 1, envelopes(&[1, 3]), vec![])).err(), Some(EtlError::SnapshotGap));
    assert_eq!(run(&mut processor, snapshot(4, 1, envelopes(&[1, 2]), vec![])).err(), Some(EtlError::SnapshotGap));
    let first_in_segment = EnvelopePosition { sequence: 5, segment_first_sequence: Some(4) };
    assert_eq!(
        admit_snapshot(None, None, &[], 5, &hex32(1), &[first_in_segment], &[]),
        Err(EtlError::SnapshotGap)
    );
}

#[test]
fn operation_keys_are_published_once() {
    let mut processor = processor();
    let first = run(&mut processor, snapshot(1, 1, vec![established(1, 3)], vec![])).unwrap();
    assert_eq!(first.session.connections.len(), 1);
    let operations = &first.session.connections[0].operations;
    assert_eq!(operations.len(), 1);
    let key = chronicle::digest::digest_hex(&operations[0].sequence.to_le_bytes());
    assert_eq!(operations[0].id, operation_id_from_key(&key));
    assert_eq!(processor.published_operation_keys(), vec![key.clone()]);
    // The same connection is finished again with the next batch; its
    // operation was published already and is left out.
    let second = run(&mut processor, snapshot(2, 2, vec![established(1, 3), marker(2)], vec![])).unwrap();
    assert_eq!(second.session.connections.len(), 1);
    assert!(second.session.connections[0].operations.is_empty());
    assert_eq!(processor.published_operation_keys(), vec![key]);
}

#[test]
fn failed_batch_leaves_reconstruction_unchanged() {
    let mut processor = IncrementalProcessor::new(SessionLimits { max_connections: 1, ..SessionLimits::default() });
    run(&mut processor, snapshot(1, 1, vec![established(1, 3)], vec![])).unwrap();
    let before = processor.decoder_snapshot();
    // A second socket beyond the active-connection limit fails the batch.
    let refused = run(&mut processor, snapshot(2, 2, vec![established(1, 3), established(2, 4)], vec![]));
    assert!(refused.is_err());
    assert_eq!(processor.last_marker_sequence(), Some(1));
    let after = processor.decoder_snapshot();
    assert_eq!(after.active.len(), before.active.len());
    assert_eq!(after.active[0].identity, before.active[0].identity);
}

#[test]
fn operation_id_is_a_version_four_uuid_of_the_key_digest() {
    let id = operation_id_from_key("abc");
    // SHA-256("abc") begins ba7816bf 8f01cfea 414140de 5dae2223.
    assert_eq!(id, 0xba7816bf_8f01_4fea_8141_40de5dae2223u128);
    assert_eq!((id >> 76) & 0xf, 4);
}

#[test]
fn restored_publication_keys_must_be_hex_digests() {
    let mut processor = IncrementalProcessor::new(SessionLimits::default());
    assert_eq!(
        processor.restore_publication_keys(vec!["xyz".to_string()]),
        Err(EtlError::DecoderCheckpointMismatch)
    );
    assert!(processor.published_operation_keys().is_empty());
    let upper = "AB".repeat(32);
    assert_eq!(processor.restore_publication_keys(vec![hex32(0x12), upper.clone(), hex32(0x12)]), Ok(()));
    assert_eq!(processor.published_operation_keys(), vec![hex32(0x12), upper]);
}

#[test]
fn decoder_state_for_another_marker_is_refused() {
    let processor = IncrementalProcessor::new(SessionLimits::default());
    let decoder = processor.decoder_state(1, 2, 3, 4, hex32(5), vec![9], 1);
    assert_eq!(decoder.serialized_bytes, 1);
    let mut other = IncrementalProcessor::new(SessionLimits::default());
    assert_eq!(
        other.restore_decoder_state(&decoder, 1, 2, 3, 5, &hex32(5)),
        Err(EtlError::DecoderCheckpointMismatch)
    );
    assert_eq!(other.last_marker_sequence(), None);
    other.restore_marker_sequence(8);
    assert_eq!(other.last_marker_sequence(), Some(8));
    assert!(!other.marker_digest_matches(&[5; 32]));
    other.clear_marker_sequence();
    assert_eq!(other.last_marker_sequence(), None);
}

#[test]
fn lineage_records_each_segment_digest_in_hex() {
    let lineage = segment_lineage_of(&[segment(0xab, 7)]);
    assert_eq!(
        lineage,
        vec![SegmentLineage { ordinal: 0, digest: hex32(0xab), first_sequence: 0, last_sequence: 7 }]
    );
    let mut processor = IncrementalProcessor::new(SessionLimits::default());
    processor.restore_segment_lineage(lineage.clone());
    assert_eq!(processor.segment_lineage(), lineage.as_slice());
}

/// Recognises no protocol; its stream holds one chunk per payload event.
struct Chunked;

impl ReconstructedProtocols for Chunked {
    fn decode(&self, connection: &ReconstructionConnection, _truncated: bool) -> (Vec<StreamChunk>, StreamOutcome) {
        let chunks = connection
            .events
            .iter()
            .filter_map(|event| match &event.evidence {
                ReconstructionEvidence::Payload(p) => Some(StreamChunk {
                    direction: chronicle::protocol::Direction::ServerToClient,
                    sequence: event.wal_sequence.unwrap_or(0),
                    timestamp: None,
                    payload: p.bytes.clone(),
                }),
                ReconstructionEvidence::Lifecycle(_) => None,
            })
            .collect();
        (chunks, StreamOutcome::Undetected)
    }

    fn encode_operation(&self, operation: &CanonicalOperation) -> Vec<u8> {
        operation.sequence.to_le_bytes().to_vec()
    }
}

fn boot(nanoseconds: u64) -> MonotonicTimestamp {
    MonotonicTimestamp { clock: "boot".into(), nanoseconds }
}

fn payload_at(sequence: u64, nanoseconds: u64) -> WalEnvelope {
    WalEnvelope {
        sequence,
        segment_first_sequence: None,
        decoded: DecodedEnvelope::CaptureEvent(Ok((
            None,
            Ok(ReconstructionInput::Event(ReconstructionEvent {
                connection: ReconstructionConnectionIdentity::Socket {
                    socket_cookie: 7,
                    first_seen: boot(nanoseconds),
                    network_namespace: None,
                },
                wal_sequence: None,
                timestamp: boot(nanoseconds),
                socket_role: None,
                evidence: ReconstructionEvidence::Payload(chronicle::session::ReconstructionPayload {
                    direction: chronicle::session::ReconstructionDirection::Ingress,
                    tcp_position: Some(chronicle::session::FragmentPosition { tcp_sequence: 0, continuation_position: 0 }),
                    bytes: b"opaque".to_vec(),
                    truncated: false,
                }),
            })),
        ))),
    }
}

fn process(envelopes: Vec<WalEnvelope>) -> chronicle::canonical::CanonicalSession {
    EtlPipeline::new(SessionLimits::default()).process_reconstructed_envelopes(envelopes, &Chunked, 1).unwrap().0
}

fn completeness(session: &chronicle::canonical::CanonicalSession) -> Vec<Completeness> {
    session.connection_completeness.iter().map(|(_, c)| *c).collect()
}

#[test]
fn reconstructed_loss_windows_only_degrade_overlapping_connections() {
    let loss = || WalEnvelope {
        sequence: 2,
        segment_first_sequence: None,
        decoded: DecodedEnvelope::LossWindow(Ok(Some(LossWindowObserved {
            start: boot(20),
            end: boot(30),
            drop_delta: Some(1),
            ambiguity_reason: None,
        }))),
    };
    let outside = process(vec![payload_at(1, 10), loss()]);
    let overlapping = process(vec![payload_at(1, 25), loss()]);
    assert_eq!(completeness(&outside), [Completeness::Complete]);
    assert_eq!(completeness(&overlapping), [Completeness::Partial]);
    assert!(overlapping.operation_completeness.iter().all(|(_, c)| *c == Completeness::Partial));
}

#[test]
fn terminal_wal_loss_only_degrades_overlapping_connections() {
    let terminal = || WalEnvelope {
        sequence: 2,
        segment_first_sequence: None,
        decoded: DecodedEnvelope::TerminalWalLoss(Ok(TerminalPersistenceLoss {
            interval: LossInterval { start: boot(20), end: boot(30) },
        })),
    };
    let outside = process(vec![payload_at(1, 10), terminal()]);
    let overlapping = process(vec![payload_at(1, 25), terminal()]);
    assert!(outside.connection_completeness.iter().all(|(_, c)| *c == Completeness::Complete));
    assert!(overlapping.connection_completeness.iter().all(|(_, c)| *c == Completeness::Partial));
}

#[test]
fn incremental_batches_match_processing_all_envelopes_at_once() {
    let envelopes = || vec![payload_at(1, 10), marker(2)];
    let whole = process(envelopes());
    let mut processor = processor();
    let batch = processor.process_snapshot(snapshot(2, 1, envelopes(), vec![]), &Chunked, 1).unwrap();
    assert_eq!(batch.session.connections.len(), whole.connections.len());
    assert_eq!(completeness(&batch.session), completeness(&whole));
}
