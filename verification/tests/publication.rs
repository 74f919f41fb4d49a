use chronicle::continuation::{
    CheckpointLifecycle, CheckpointOwner, DeltaBatchReference, MarkerLineage, SegmentLineage, SourceStatus,
};
use chronicle::canonical::CanonicalSession;
use chronicle::etl::{EtlIssue, EtlIssueKind};
use chronicle::publication::{
    finalize_incremental_session, pending_checkpoint_name, publish_delta, recover_pending_checkpoint, verify_one_shot_equivalence, reconcile_delta_checkpoint, recovery_plan, CheckpointError,
    DecoderReconstructionState, IncrementalEtlCheckpointV1, PublicationError, ReconcileOutcome, ReconcileStep,
    RecoveryStep,
};
use chronicle::recording_store::{
    InMemoryRecordingStore, PutIfAbsent, RecordingArtifact, RecordingArtifactKind, RecordingStore, RecordingStoreError,
};

fn checkpoint(outputs: Vec<DeltaBatchReference>, predecessor: Option<String>, checksum: &str) -> IncrementalEtlCheckpointV1 {
    IncrementalEtlCheckpointV1 {
        version: 1,
        owner: CheckpointOwner::Recorder,
        lifecycle: CheckpointLifecycle::Active,
        recording_id: 7,
        epoch_ordinal: 0,
        config_digest: "a".repeat(64),
        pipeline_version: "1".into(),
        canonical_schema_version: 1,
        marker: MarkerLineage { sequence: 0, segment_ordinal: 0, marker_digest: "b".repeat(64), active_segment_digest: "e".repeat(64) },
        segment_lineage: vec![SegmentLineage { ordinal: 0, digest: "c".repeat(64), first_sequence: 0, last_sequence: 0 }],
        predecessor_digest: predecessor,
        decoder: DecoderReconstructionState {
            kind: "chronicle-reconstruction".into(),
            implementation_version: 1,
            snapshot_version: 1,
            session_id: 3,
            recording_id: 7,
            epoch_ordinal: 0,
            marker_sequence: 0,
            marker_digest: "b".repeat(64),
            state: vec![1],
            pending_connection_count: 0,
            serialized_bytes: 1,
        },
        outputs,
        published_operation_keys: Vec::new(),
        source_status: SourceStatus::Live,
        checksum: checksum.into(),
    }
}

fn stored(store: &mut InMemoryRecordingStore, key: &str, bytes: &[u8]) -> DeltaBatchReference {
    let artifact = RecordingArtifact::new(key, RecordingArtifactKind::CanonicalDeltaBatch, bytes.to_vec()).unwrap();
    let digest = artifact.checksum.clone();
    store.put_if_absent(artifact).unwrap();
    DeltaBatchReference { key: key.into(), digest, first_marker_sequence: 0, last_marker_sequence: 0, bytes: bytes.len() as u64 }
}

#[test]
fn checkpoint_fault_windows_recover_without_duplicate_output() {
    let mut store = InMemoryRecordingStore::default();
    let first = stored(&mut store, "delta/0001", b"one");
    let durable = checkpoint(vec![first.clone()], None, &"d".repeat(64));
    let second = DeltaBatchReference { key: "delta/0002".into(), ..first.clone() };
    let candidate = checkpoint(vec![first.clone(), second.clone()], Some("d".repeat(64)), &"f".repeat(64));
    // Second output never became durable: the pending checkpoint is discarded.
    assert_eq!(recover_pending_checkpoint(&store, &candidate, Some(&durable), false), Ok(RecoveryStep::DiscardPending));
    let second = stored(&mut store, "delta/0002", b"two");
    let candidate = checkpoint(vec![first.clone(), second.clone()], Some("d".repeat(64)), &"f".repeat(64));
    assert_eq!(
        recover_pending_checkpoint(&store, &candidate, Some(&durable), false),
        Ok(RecoveryStep::Install(ReconcileOutcome::AdoptedOutput))
    );
    assert_eq!(
        recover_pending_checkpoint(&store, &candidate, Some(&candidate), true),
        Err(PublicationError::OutputLineage)
    );
    assert_eq!(
        recover_pending_checkpoint(&store, &candidate, None, false),
        Ok(RecoveryStep::Install(ReconcileOutcome::RepairedCheckpoint))
    );
    // A candidate that does not extend the durable checkpoint fails closed.
    let unrelated = checkpoint(vec![second.clone()], Some("d".repeat(64)), &"f".repeat(64));
    assert_eq!(recover_pending_checkpoint(&store, &unrelated, Some(&durable), false), Err(PublicationError::OutputLineage));
}

#[test]
fn recovery_rejects_mismatched_and_missing_interior_outputs() {
    let mut store = InMemoryRecordingStore::default();
    let first = stored(&mut store, "delta/0001", b"one");
    let durable = checkpoint(vec![first.clone()], None, &"d".repeat(64));
    let candidate = checkpoint(vec![first.clone()], Some("d".repeat(64)), &"d".repeat(64));
    assert_eq!(
        recovery_plan(&candidate, Some(&durable), vec![Err(RecordingStoreError::NotFound)], true),
        Err(PublicationError::OutputLineage)
    );
    assert_eq!(
        recovery_plan(&candidate, Some(&durable), vec![Err(RecordingStoreError::LockPoisoned)], true),
        Err(PublicationError::Store(RecordingStoreError::LockPoisoned))
    );
    let head = store.head("delta/0001").unwrap();
    let wrong = chronicle::recording_store::RecordingArtifactHead { bytes: 99, ..head.clone() };
    assert_eq!(recovery_plan(&candidate, Some(&durable), vec![Ok(wrong)], true), Err(PublicationError::Verification));
    assert_eq!(
        recovery_plan(&candidate, Some(&durable), vec![Ok(head)], true),
        Ok(RecoveryStep::Install(ReconcileOutcome::AlreadyConsistent))
    );
}

#[test]
fn reconcile_checks_reference_and_durable_checkpoint() {
    let mut store = InMemoryRecordingStore::default();
    let first = stored(&mut store, "delta/0001", b"one");
    let cp = checkpoint(vec![first.clone()], None, &"d".repeat(64));
    let head = store.head("delta/0001");
    assert_eq!(reconcile_delta_checkpoint(head.clone(), "delta/0001", &cp, Ok(true)), Ok(ReconcileStep::Consistent));
    assert_eq!(reconcile_delta_checkpoint(head.clone(), "delta/0001", &cp, Ok(false)), Err(PublicationError::OutputLineage));
    assert_eq!(
        reconcile_delta_checkpoint(head.clone(), "delta/0001", &cp, Err(CheckpointError::Io)),
        Ok(ReconcileStep::WriteCheckpoint)
    );
    assert_eq!(
        reconcile_delta_checkpoint(head.clone(), "delta/0001", &cp, Err(CheckpointError::Parse)),
        Err(PublicationError::Checkpoint(CheckpointError::Parse))
    );
    assert_eq!(reconcile_delta_checkpoint(head, "delta/0002", &cp, Ok(true)), Err(PublicationError::OutputLineage));
    assert_eq!(
        reconcile_delta_checkpoint(Err(RecordingStoreError::NotFound), "delta/0001", &cp, Ok(true)),
        Err(PublicationError::Store(RecordingStoreError::NotFound))
    );
}

#[test]
fn pending_checkpoint_sits_beside_the_checkpoint() {
    assert_eq!(pending_checkpoint_name(Some("cp.json")), ".cp.json.pending");
    assert_eq!(pending_checkpoint_name(None), ".checkpoint.json.pending");
}

#[test]
fn reconcile_asks_the_store_for_the_delta() {
    let mut store = InMemoryRecordingStore::default();
    let first = stored(&mut store, "delta/0001", b"one");
    let cp = checkpoint(vec![first], None, &"d".repeat(64));
    assert_eq!(
        chronicle::publication::reconcile_delta(&store, "delta/0001", &cp, Err(CheckpointError::Io)),
        Ok(ReconcileStep::WriteCheckpoint)
    );
    assert_eq!(
        chronicle::publication::reconcile_delta(&store, "delta/0009", &cp, Ok(true)),
        Err(PublicationError::Store(RecordingStoreError::NotFound))
    );
}

#[test]
fn delta_publication_requires_a_referenced_artifact_and_verifies_the_head() {
    let mut store = InMemoryRecordingStore::default();
    let bytes = b"delta batch".to_vec();
    let digest = RecordingArtifact::new("delta/0001", RecordingArtifactKind::CanonicalDeltaBatch, bytes.clone()).unwrap().checksum;
    let reference = DeltaBatchReference {
        key: "delta/0001".into(),
        digest: digest.clone(),
        first_marker_sequence: 0,
        last_marker_sequence: 0,
        bytes: bytes.len() as u64,
    };
    let unreferenced = checkpoint(Vec::new(), None, &"d".repeat(64));
    assert_eq!(publish_delta(&mut store, "delta/0001", bytes.clone(), &unreferenced), Err(PublicationError::OutputLineage));
    assert_eq!(store.head("delta/0001").err(), Some(RecordingStoreError::NotFound));
    assert_eq!(
        publish_delta(&mut store, "/delta", bytes.clone(), &unreferenced),
        Err(PublicationError::Store(RecordingStoreError::UnsafeKey))
    );
    let referencing = checkpoint(vec![reference], None, &"d".repeat(64));
    assert_eq!(publish_delta(&mut store, "delta/0001", bytes.clone(), &referencing), Ok(PutIfAbsent::Created));
    assert_eq!(publish_delta(&mut store, "delta/0001", bytes.clone(), &referencing), Ok(PutIfAbsent::AlreadyExistsMatching));
    assert_eq!(store.head("delta/0001").unwrap().checksum, digest);
}

#[test]
fn finalized_session_lists_issue_kinds_and_completeness() {
    let session = CanonicalSession {
        id: 9,
        started_at: 0,
        ended_at: None,
        connections: Vec::new(),
        connection_completeness: Vec::new(),
        operation_completeness: Vec::new(),
        timeline: Vec::new(),
    };
    let issues = vec![
        EtlIssue { sequence: Some(1), kind: EtlIssueKind::UnknownProtocol, message: "traffic preserved as opaque bytes".into() },
        EtlIssue { sequence: None, kind: EtlIssueKind::PartialWalTail, message: "tail".into() },
    ];
    let publish = finalize_incremental_session(session, &issues, Some("cp".into()));
    assert_eq!(publish.session.id, 9);
    assert_eq!(publish.checkpoint, Some("cp".to_string()));
    assert_eq!(publish.issues, vec!["UnknownProtocol".to_string(), "PartialWalTail".to_string()]);
    assert_eq!(publish.replayability, publish.issues);
    assert!(!publish.complete);
    let empty = CanonicalSession {
        id: 10,
        started_at: 0,
        ended_at: None,
        connections: Vec::new(),
        connection_completeness: Vec::new(),
        operation_completeness: Vec::new(),
        timeline: Vec::new(),
    };
    assert!(finalize_incremental_session(empty, &Vec::new(), None).complete);
}

#[test]
fn one_shot_equivalence_compares_encodings() {
    assert_eq!(verify_one_shot_equivalence(b"{\"id\":1}", b"{\"id\":1}"), Ok(()));
    assert_eq!(
        verify_one_shot_equivalence(b"{\"id\":1}", b"{\"id\":2}"),
        Err(PublicationError::FinalSession("incremental session differs from one-shot session".into()))
    );
}
