use chronicle::continuation::{
    is_digest, validate_marker, CheckpointLifecycle, CheckpointOwner, ContinuationCoordinator, ContinuationDependencyV2,
    ContinuationError, ContinuationLimits, ContinuationState, DeltaBatchReference, EpochContinuationCheckpointV1,
    IncrementalEtlCheckpointV2, InvalidField, MarkerLineage, SegmentLineage, SourceStatus,
    INCREMENTAL_CHECKPOINT_V2_SCHEMA_VERSION,
};
use chronicle::publication::{DecoderReconstructionState, DECODER_IMPLEMENTATION_VERSION, DECODER_SNAPSHOT_VERSION};

fn digest(c: char) -> String {
    std::iter::repeat(c).take(64).collect()
}

#[test]
fn continuation_state_machine_is_bounded() {
    let pending = ContinuationDependencyV2::pending(1, 2);
    assert_eq!(pending.validate(), Ok(()));
    let ready = pending.clone().transition(ContinuationState::Ready, Some(digest('a')), None).unwrap();
    assert_eq!(ready.state, ContinuationState::Ready);
    assert_eq!(ready.output_digest, Some(digest('a')));
    assert_eq!(ready.clone().consume(digest('b')), Err(ContinuationError::ChecksumMismatch));
    let consumed = ready.clone().consume(digest('a')).unwrap();
    assert_eq!(consumed.state, ContinuationState::Consumed);
    assert_eq!(consumed.input_digest, Some(digest('a')));
    assert_eq!(consumed.clone().consume(digest('a')), Err(ContinuationError::ChecksumMismatch));
    assert_eq!(
        consumed.transition(ContinuationState::Pending, None, None),
        Err(ContinuationError::InvalidTransition)
    );
    assert_eq!(
        pending.clone().transition(ContinuationState::Consumed, Some(digest('a')), None),
        Err(ContinuationError::InvalidTransition)
    );
    assert_eq!(
        pending.clone().transition(ContinuationState::Failed, None, Some(String::new())),
        Err(ContinuationError::Invalid(InvalidField::FailedFields))
    );
    let failed = pending.clone().transition(ContinuationState::Failed, None, Some("io".into())).unwrap();
    assert_eq!(failed.failure_code.as_deref(), Some("io"));
    assert_eq!(
        pending.transition(ContinuationState::Ready, Some("xyz".into()), None),
        Err(ContinuationError::Invalid(InvalidField::DependencyDigest))
    );
}

#[test]
fn dependency_identity_is_checked() {
    assert_eq!(
        ContinuationDependencyV2::pending(2, 2).validate(),
        Err(ContinuationError::Invalid(InvalidField::DependencyIdentity))
    );
    assert_eq!(
        ContinuationDependencyV2::pending(0, 2).validate(),
        Err(ContinuationError::Invalid(InvalidField::DependencyIdentity))
    );
    assert_eq!(ContinuationDependencyV2::pending_for_parent(Some(9), 1, 2).parent_id, Some(9));
}

#[test]
fn digests_and_markers() {
    assert!(is_digest(&digest('F')));
    assert!(!is_digest(&"g".repeat(64)));
    assert!(!is_digest(&"a".repeat(63)));
    let marker = MarkerLineage { sequence: 1, segment_ordinal: 0, marker_digest: digest('b'), active_segment_digest: digest('e') };
    assert_eq!(validate_marker(&marker), Ok(()));
    let bad = MarkerLineage { marker_digest: "b".into(), ..marker };
    assert_eq!(validate_marker(&bad), Err(ContinuationError::Invalid(InvalidField::MarkerLineage)));
}

#[test]
fn continuation_limits_default() {
    let limits = ContinuationLimits::default();
    assert_eq!(limits.max_connections, 4096);
    assert_eq!(limits.max_state_bytes, 64 * 1024 * 1024);
    assert_eq!(limits.max_partial_frame_bytes, 8 * 1024 * 1024);
}

// The checksum-free encoding of a checkpoint is produced outside the library;
// any fixed bytes stand in for it here.
const UNSIGNED: &[u8] = b"unsigned checkpoint encoding";
const ENCODED: &[u8] = b"encoded checkpoint";

fn marker(sequence: u64) -> MarkerLineage {
    MarkerLineage {
        sequence,
        segment_ordinal: 0,
        marker_digest: "a".repeat(64),
        active_segment_digest: "b".repeat(64),
    }
}

fn segments(sequence: u64) -> Vec<SegmentLineage> {
    vec![SegmentLineage { ordinal: 0, digest: "c".repeat(64), first_sequence: 0, last_sequence: sequence }]
}

fn handoff(parent: u128, predecessor: u128, successor: u128, sequence: u64, state: Vec<u8>) -> EpochContinuationCheckpointV1 {
    EpochContinuationCheckpointV1::new(
        parent,
        predecessor,
        successor,
        marker(sequence),
        segments(sequence),
        "pipeline-v2".to_string(),
        state,
        ContinuationLimits::default(),
    )
    .unwrap()
    .with_checksum(UNSIGNED)
    .unwrap()
}

#[test]
fn continuation_round_trip_and_state_machine_are_bounded() {
    let (parent, predecessor, successor) = (11u128, 12u128, 13u128);
    let value = handoff(parent, predecessor, successor, 9, vec![1, 2, 3]);
    let value = value.with_counts([2, 3, 4, 5, 6, 7, 8]).unwrap().with_checksum(UNSIGNED).unwrap();
    assert_eq!(value.validate(UNSIGNED), Ok(()));
    assert_eq!(value.connection_count, 2);
    assert_eq!(value.issue_count, 8);
    let mut corrupted = value.clone();
    corrupted.checksum.replace_range(..1, "0");
    assert_eq!(corrupted.validate(UNSIGNED), Err(ContinuationError::ChecksumMismatch));
    let limits = ContinuationLimits { max_partial_frame_bytes: 1, ..ContinuationLimits::default() };
    assert_eq!(
        EpochContinuationCheckpointV1::new(
            parent,
            predecessor,
            successor,
            marker(9),
            segments(9),
            "pipeline-v2".to_string(),
            vec![1],
            limits,
        )
        .unwrap()
        .with_counts([0, 0, 2, 0, 0, 0, 0]),
        Err(ContinuationError::Invalid(InvalidField::ContinuationFields))
    );
    let dependency = ContinuationDependencyV2::pending(predecessor, successor);
    let ready = dependency.transition(ContinuationState::Ready, Some("d".repeat(64)), None).unwrap();
    assert!(matches!(ready.clone().consume("e".repeat(64)), Err(ContinuationError::ChecksumMismatch)));
    let consumed = ready.consume("d".repeat(64)).unwrap();
    assert_eq!(consumed.state, ContinuationState::Consumed);
    assert!(matches!(
        consumed.transition(ContinuationState::Ready, None, None),
        Err(ContinuationError::InvalidTransition)
    ));
}

fn incremental(parent: u128, predecessor: u128, epoch: u128, state: Vec<u8>) -> IncrementalEtlCheckpointV2 {
    IncrementalEtlCheckpointV2 {
        version: INCREMENTAL_CHECKPOINT_V2_SCHEMA_VERSION,
        owner: CheckpointOwner::Etl,
        lifecycle: CheckpointLifecycle::Active,
        parent_id: parent,
        epoch_id: epoch,
        epoch_ordinal: 2,
        config_digest: "f".repeat(64),
        pipeline_version: "pipeline-v2".into(),
        canonical_schema_version: 1,
        marker: marker(9),
        segment_lineage: segments(9),
        continuation: ContinuationDependencyV2::pending(predecessor, epoch),
        decoder: DecoderReconstructionState {
            kind: "chronicle-reconstruction".into(),
            implementation_version: DECODER_IMPLEMENTATION_VERSION,
            snapshot_version: DECODER_SNAPSHOT_VERSION,
            session_id: 77,
            recording_id: epoch,
            epoch_ordinal: 2,
            marker_sequence: 9,
            marker_digest: "a".repeat(64),
            state: state.clone(),
            pending_connection_count: 0,
            serialized_bytes: state.len(),
        },
        outputs: vec![DeltaBatchReference {
            key: "delta/2".into(),
            digest: "1".repeat(64),
            first_marker_sequence: 1,
            last_marker_sequence: 9,
            bytes: 10,
        }],
        published_operation_keys: Vec::new(),
        source_status: SourceStatus::Live,
        checksum: String::new(),
    }
}

#[test]
fn incremental_v2_binds_parent_epoch_and_decoder_state() {
    let (parent, predecessor, epoch) = (21u128, 22u128, 23u128);
    let state = vec![7u8, 7, 7];
    let value = incremental(parent, predecessor, epoch, state.clone());
    value.validate_without_checksum(Some(0)).unwrap();
    let value = value.with_checksum(UNSIGNED, Some(0)).unwrap();
    assert!(value.validate(UNSIGNED, Some(0)).is_ok());
    let handoff = handoff(parent, predecessor, epoch, 9, state);
    let coordinator =
        ContinuationCoordinator::restore_from_checkpoint(&value, UNSIGNED, Some(0), parent, predecessor, epoch, "pipeline-v2")
            .unwrap();
    assert_eq!(coordinator.state(), ContinuationState::Pending);
    let mut interrupted_handoff = handoff.clone();
    interrupted_handoff.successor_epoch_id = 99;
    assert_eq!(
        coordinator.ready_from_incremental_checkpoint(&value, UNSIGNED, Some(0), &interrupted_handoff, UNSIGNED, ENCODED),
        Err(ContinuationError::LineageMismatch)
    );
    assert_eq!(coordinator.state(), ContinuationState::Pending);
    let restarted =
        ContinuationCoordinator::restore_from_checkpoint(&value, UNSIGNED, Some(0), parent, predecessor, epoch, "pipeline-v2")
            .unwrap();
    assert_eq!(restarted.state(), ContinuationState::Pending);
    assert_eq!(
        restarted
            .ready_from_incremental_checkpoint(&value, UNSIGNED, Some(0), &handoff, UNSIGNED, ENCODED)
            .unwrap()
            .state(),
        ContinuationState::Ready
    );
    assert_eq!(value.validate_against(UNSIGNED, Some(0), parent, epoch, &marker(9), &segments(9), "pipeline-v2"), Ok(()));
    assert_eq!(
        value.validate_against(UNSIGNED, Some(0), 5, epoch, &marker(9), &segments(9), "pipeline-v2"),
        Err(ContinuationError::LineageMismatch)
    );
}

#[test]
fn incremental_checkpoint_checks_decoder_state_and_outputs() {
    let (parent, predecessor, epoch) = (21u128, 22u128, 23u128);
    let value = incremental(parent, predecessor, epoch, vec![1]);
    assert_eq!(value.validate_without_checksum(None), Err(ContinuationError::Invalid(InvalidField::DecoderState)));
    assert_eq!(
        value.validate_without_checksum(Some(3)),
        Err(ContinuationError::Invalid(InvalidField::DecoderConnectionCount))
    );
    let mut escaping = value.clone();
    escaping.outputs[0].key = "../delta".into();
    assert_eq!(
        escaping.validate_without_checksum(Some(0)),
        Err(ContinuationError::Invalid(InvalidField::OutputReference))
    );
    let mut foreign = value.clone();
    foreign.decoder.recording_id = 1;
    assert_eq!(
        foreign.validate_without_checksum(Some(0)),
        Err(ContinuationError::Invalid(InvalidField::DecoderStateMetadata))
    );
    let mut other_edge = value.clone();
    other_edge.continuation = ContinuationDependencyV2::pending(predecessor, 24);
    assert_eq!(other_edge.validate_without_checksum(Some(0)), Err(ContinuationError::LineageMismatch));
    let sealed = value.with_checksum(UNSIGNED, Some(0)).unwrap();
    assert_eq!(sealed.validate(b"other", Some(0)), Err(ContinuationError::ChecksumMismatch));
    // A checkpoint behind the cursor resumes when its lineage is a prefix.
    let mut longer = segments(9);
    longer.push(SegmentLineage { ordinal: 1, digest: "d".repeat(64), first_sequence: 10, last_sequence: 12 });
    assert_eq!(sealed.validate_against(UNSIGNED, Some(0), parent, epoch, &marker(12), &longer, "pipeline-v2"), Ok(()));
    assert_eq!(
        sealed.validate_against(UNSIGNED, Some(0), parent, epoch, &marker(8), &segments(9), "pipeline-v2"),
        Err(ContinuationError::LineageMismatch)
    );
}

#[test]
fn continuation_restore_validates_edge_and_starts_successor_cursor_fresh() {
    let (parent, predecessor, successor) = (31u128, 32u128, 33u128);
    let checkpoint = handoff(parent, predecessor, successor, 9, vec![5, 5]);
    checkpoint
        .validate_against(UNSIGNED, parent, predecessor, successor, &marker(9), &segments(9), "pipeline-v2", Some(0))
        .unwrap();
    let mut wrong_version = checkpoint.clone();
    wrong_version.version = 2;
    assert_eq!(wrong_version.validate(UNSIGNED), Err(ContinuationError::Invalid(InvalidField::ContinuationFields)));
    let mut wrong_checksum = checkpoint.clone();
    wrong_checksum.checksum = "0".repeat(64);
    assert_eq!(wrong_checksum.validate(UNSIGNED), Err(ContinuationError::ChecksumMismatch));
    assert_eq!(
        checkpoint.validate_against(UNSIGNED, parent, predecessor, successor, &marker(8), &segments(9), "pipeline-v2", Some(0)),
        Err(ContinuationError::LineageMismatch)
    );
    assert_eq!(
        checkpoint.validate_against(UNSIGNED, parent, predecessor, successor, &marker(9), &segments(9), "other-pipeline", Some(0)),
        Err(ContinuationError::LineageMismatch)
    );
    assert_eq!(
        checkpoint.validate_against(UNSIGNED, parent, predecessor, successor, &marker(9), &segments(9), "pipeline-v2", Some(1)),
        Err(ContinuationError::Invalid(InvalidField::DecoderConnectionCount))
    );
    let coordinator = ContinuationCoordinator::pending(parent, predecessor, successor, "pipeline-v2".into()).unwrap();
    assert_eq!(coordinator.state(), ContinuationState::Pending);
    let coordinator = coordinator.ready_from_checkpoint(&checkpoint, UNSIGNED, ENCODED).unwrap();
    let coordinator_digest = coordinator.dependency().output_digest.clone().unwrap();
    let coordinator = coordinator.consume(coordinator_digest).unwrap();
    assert_eq!(coordinator.state(), ContinuationState::Consumed);
    assert_eq!(
        ContinuationCoordinator::pending(parent, predecessor, successor, "pipeline-v2".into())
            .unwrap()
            .unavailable("unsupported".into())
            .unwrap()
            .state(),
        ContinuationState::Unavailable
    );
    assert_eq!(
        ContinuationCoordinator::pending(parent, predecessor, successor, "pipeline-v2".into())
            .unwrap()
            .failed("invalid".into())
            .unwrap()
            .state(),
        ContinuationState::Failed
    );
    let dependency =
        ContinuationDependencyV2::ready_from_checkpoint(parent, predecessor, &checkpoint, UNSIGNED, ENCODED, "pipeline-v2")
            .unwrap();
    assert_eq!(dependency.state, ContinuationState::Ready);
    let ready_digest = dependency.output_digest.clone().unwrap();
    assert_eq!(dependency.consume(ready_digest).unwrap().state, ContinuationState::Consumed);
}

#[test]
fn repeated_continuation_edges_keep_state_bounded_and_independent() {
    let parent = 41u128;
    let mut predecessor = 100u128;
    for sequence in 1..=8u64 {
        let successor = 100 + u128::from(sequence);
        let checkpoint = handoff(parent, predecessor, successor, sequence, vec![u8::try_from(sequence).unwrap()]);
        let coordinator = ContinuationCoordinator::pending(parent, predecessor, successor, "pipeline-v2".into()).unwrap();
        assert_eq!(
            coordinator.ready_from_checkpoint(&checkpoint, UNSIGNED, ENCODED).unwrap().state(),
            ContinuationState::Ready
        );
        assert!(checkpoint.state.len() <= checkpoint.limits.max_state_bytes);
        predecessor = successor;
    }
}

#[test]
fn coordinator_refuses_bad_pipeline_and_parent() {
    assert_eq!(
        ContinuationCoordinator::pending(1, 2, 3, String::new()),
        Err(ContinuationError::Invalid(InvalidField::PipelineVersion))
    );
    assert_eq!(
        ContinuationCoordinator::pending(0, 2, 3, "p".into()),
        Err(ContinuationError::Invalid(InvalidField::ParentIdentity))
    );
    assert_eq!(
        ContinuationCoordinator::pending(1, 3, 3, "p".into()),
        Err(ContinuationError::Invalid(InvalidField::DependencyIdentity))
    );
    let coordinator = ContinuationCoordinator::pending(1, 2, 3, "p".into()).unwrap();
    assert_eq!((coordinator.parent_id(), coordinator.predecessor_epoch_id(), coordinator.successor_epoch_id()), (1, 2, 3));
    assert_eq!(coordinator.pipeline_version(), "p");
    let checkpoint = handoff(1, 2, 4, 9, vec![1]);
    assert_eq!(coordinator.ready_from_checkpoint(&checkpoint, UNSIGNED, ENCODED), Err(ContinuationError::LineageMismatch));
}
