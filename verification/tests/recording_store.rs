use chronicle::recording_store::{
    ArtifactLifecycle, DeleteIfDigest, InMemoryRecordingStore, PutIfAbsent, RecordingArtifact,
    RecordingArtifactKind, RecordingStore, RecordingStoreError,
};

#[test]
fn put_is_idempotent_but_conflict_is_rejected() {
    let mut store = InMemoryRecordingStore::default();
    let artifact = RecordingArtifact::new(
        "delta/0001",
        RecordingArtifactKind::CanonicalDeltaBatch,
        b"x".to_vec(),
    )
    .unwrap();
    assert_eq!(
        store.put_if_absent(artifact.clone()).unwrap(),
        PutIfAbsent::Created
    );
    assert_eq!(
        store.put_if_absent(artifact).unwrap(),
        PutIfAbsent::AlreadyExistsMatching
    );
    let conflict = RecordingArtifact::new(
        "delta/0001",
        RecordingArtifactKind::CanonicalDeltaBatch,
        b"y".to_vec(),
    )
    .unwrap();
    assert_eq!(
        store.put_if_absent(conflict),
        Err(RecordingStoreError::Conflict)
    );
}

#[test]
fn lifecycle_transitions_are_monotonic_and_quarantine_is_terminal() {
    let mut artifact =
        RecordingArtifact::new("recovery/1", RecordingArtifactKind::RecoveryReport, vec![])
            .unwrap();
    assert_eq!(
        artifact.transition(ArtifactLifecycle::RetentionEligible),
        Err(RecordingStoreError::InvalidLifecycle)
    );
    artifact.transition(ArtifactLifecycle::Verified).unwrap();
    artifact
        .transition(ArtifactLifecycle::RetentionEligible)
        .unwrap();
    artifact.transition(ArtifactLifecycle::Deleting).unwrap();
    artifact.transition(ArtifactLifecycle::Deleted).unwrap();
    assert_eq!(
        artifact.validate(),
        Err(RecordingStoreError::InvalidArtifact)
    );
}

fn recording_store_conformance(store: &mut dyn RecordingStore) {
    let artifact = RecordingArtifact::new(
        "conformance/delta-0001",
        RecordingArtifactKind::CanonicalDeltaBatch,
        b"bytes".to_vec(),
    )
    .unwrap();
    let digest = artifact.checksum.clone();
    assert_eq!(
        store.put_if_absent(artifact.clone()).unwrap(),
        PutIfAbsent::Created
    );
    assert_eq!(
        store.put_if_absent(artifact.clone()).unwrap(),
        PutIfAbsent::AlreadyExistsMatching
    );
    assert_eq!(store.head(&artifact.key).unwrap().checksum, digest);
    assert_eq!(store.get(&artifact.key).unwrap(), artifact);
    assert_eq!(store.list("conformance/", 10).unwrap().len(), 1);
    assert_eq!(
        store.delete_if_digest(&artifact.key, "wrong").unwrap(),
        DeleteIfDigest::DigestMismatch
    );
    assert_eq!(
        store.tombstone_if_digest(&artifact.key, &digest).unwrap(),
        DeleteIfDigest::Deleted
    );
    assert_eq!(store.get(&artifact.key), Err(RecordingStoreError::NotFound));
    assert_eq!(
        store.put_if_absent(
            RecordingArtifact::new(
                &artifact.key,
                RecordingArtifactKind::CanonicalDeltaBatch,
                b"new".to_vec(),
            )
            .unwrap()
        ),
        Err(RecordingStoreError::Conflict)
    );
}

#[test]
fn in_memory_store_matches_recording_store_contract() {
    recording_store_conformance(&mut InMemoryRecordingStore::default());
}

#[test]
fn keys_and_digest_delete_are_safe() {
    assert_eq!(
        RecordingArtifact::new("../escape", RecordingArtifactKind::RecoveryReport, vec![])
            .unwrap_err(),
        RecordingStoreError::UnsafeKey
    );
    let mut store = InMemoryRecordingStore::default();
    let artifact = RecordingArtifact::new(
        "recovery/1",
        RecordingArtifactKind::RecoveryReport,
        b"safe".to_vec(),
    )
    .unwrap();
    let digest = artifact.checksum.clone();
    store.put_if_absent(artifact).unwrap();
    assert_eq!(
        store.delete_if_digest("recovery/1", "bad").unwrap(),
        DeleteIfDigest::DigestMismatch
    );
    assert_eq!(
        store.delete_if_digest("recovery/1", &digest).unwrap(),
        DeleteIfDigest::Deleted
    );
    let tombstone = RecordingArtifact::new(
        "recovery/2",
        RecordingArtifactKind::RecoveryReport,
        b"safe".to_vec(),
    )
    .unwrap();
    let tombstone_digest = tombstone.checksum.clone();
    store.put_if_absent(tombstone).unwrap();
    assert_eq!(
        store
            .tombstone_if_digest("recovery/2", &tombstone_digest)
            .unwrap(),
        DeleteIfDigest::Deleted
    );
    assert_eq!(
        store.put_if_absent(
            RecordingArtifact::new(
                "recovery/2",
                RecordingArtifactKind::RecoveryReport,
                b"new".to_vec()
            )
            .unwrap()
        ),
        Err(RecordingStoreError::Conflict)
    );
}

#[test]
fn artifact_checksum_is_lowercase_sha256_hex() {
    let artifact =
        RecordingArtifact::new("digest/abc", RecordingArtifactKind::RecoveryReport, b"abc".to_vec())
            .unwrap();
    assert_eq!(
        artifact.checksum,
        "ba7816bf8f01cfea414140de5dae2223b00361a396177a9cb410ff61f20015ad"
    );
}

#[test]
fn keys_reject_empty_segments_absolute_paths_and_oversize() {
    for key in ["", "/a", "a/", "a//b", "a/../b", "..", "a/.."] {
        assert_eq!(
            RecordingArtifact::new(key, RecordingArtifactKind::RecoveryReport, vec![]).unwrap_err(),
            RecordingStoreError::UnsafeKey,
            "{key}"
        );
    }
    let long = "k".repeat(513);
    assert_eq!(
        RecordingArtifact::new(&long, RecordingArtifactKind::RecoveryReport, vec![]).unwrap_err(),
        RecordingStoreError::UnsafeKey
    );
    assert!(RecordingArtifact::new(&"k".repeat(512), RecordingArtifactKind::RecoveryReport, vec![]).is_ok());
}

#[test]
fn list_returns_prefix_matches_in_key_order_and_caps_limit() {
    let mut store = InMemoryRecordingStore::default();
    for key in ["b/2", "a/1", "b/1", "c/1", "b/3"] {
        let artifact =
            RecordingArtifact::new(key, RecordingArtifactKind::ProvenanceIndex, key.as_bytes().to_vec())
                .unwrap();
        store.put_if_absent(artifact).unwrap();
    }
    let keys: Vec<String> = store.list("b/", 10).unwrap().into_iter().map(|head| head.key).collect();
    assert_eq!(keys, ["b/1", "b/2", "b/3"]);
    assert_eq!(store.list("b/", 2).unwrap().len(), 2);
    assert_eq!(store.list("", 0).unwrap().len(), 0);
    assert_eq!(store.list("/abs", 5), Err(RecordingStoreError::UnsafeKey));
    let head = store.head("a/1").unwrap();
    assert_eq!(head.bytes, 3);
    assert_eq!(head.lifecycle, ArtifactLifecycle::Published);
}

#[test]
fn quarantine_is_reachable_from_every_state() {
    let mut artifact =
        RecordingArtifact::new("q/1", RecordingArtifactKind::SealedWalCopy, vec![1]).unwrap();
    artifact.transition(ArtifactLifecycle::Quarantined).unwrap();
    assert_eq!(
        artifact.transition(ArtifactLifecycle::Verified),
        Err(RecordingStoreError::InvalidLifecycle)
    );
    artifact.transition(ArtifactLifecycle::Quarantined).unwrap();
    assert!(artifact.validate().is_ok());
    artifact.checksum = "0".repeat(64);
    assert_eq!(artifact.validate(), Err(RecordingStoreError::ChecksumMismatch));
}

#[test]
fn sha256_checksum_is_stable() {
    assert_eq!(
        chronicle::digest::sha256_label(b"abc"),
        "sha256:ba7816bf8f01cfea414140de5dae2223b00361a396177a9cb410ff61f20015ad"
    );
}
