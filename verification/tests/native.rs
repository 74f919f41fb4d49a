use chronicle::native::{
    BoundedNativeObservationChannel, ChronicleExecutionContext, NativeExecutionContextCarrier,
    NativeBoundaryIndex, NativeExecutionContextGeneration, NativeObservationDiagnosticKind, NativeOperationBoundaryReceipt, NativeSourceError,
    NativeSourceLimits, ProtocolOperationBoundaryIdentity, SourceConnectionGeneration, WalByteRange,
};
use chronicle::correlation::CanonicalOperationRef;
use chronicle::protocol::Direction;

fn limits() -> NativeSourceLimits {
    NativeSourceLimits::new(8, 8, 8).unwrap()
}

fn receipt(context: NativeExecutionContextGeneration, sequence: u64) -> NativeOperationBoundaryReceipt {
    let _ = context;
    NativeOperationBoundaryReceipt {
        recording_id: 1,
        source_epoch_id: 2,
        source_generation: SourceConnectionGeneration::Fixture,
        protocol_id: "http/1.1".into(),
        direction: Direction::ClientToServer,
        protocol_operation_boundary: ProtocolOperationBoundaryIdentity::from_canonicalizer("http/1.1", &format!("request:{sequence}")),
        source_range: WalByteRange {
            segment_ordinal: 0,
            segment_first_sequence: 0,
            frame_byte_offset: sequence,
            wal_sequence: sequence,
            direction: Direction::ClientToServer,
            payload_byte_offset: 0,
            payload_byte_length: 1,
            gap_before: false,
        },
    }
}

#[test]
fn child_before_parent_completes_once_after_both_receipts() {
    let mut carrier = NativeExecutionContextCarrier::new(limits());
    let parent = carrier.start_root().unwrap();
    let child = carrier.continue_from(parent).unwrap();
    assert!(carrier.record_child_receipt(child, receipt(child.generation, 2)).unwrap().is_empty());
    let observations = carrier.record_parent_receipt(parent, receipt(parent.generation, 1)).unwrap();
    assert_eq!(observations.len(), 1);
    assert!(carrier.record_child_receipt(child, receipt(child.generation, 2)).unwrap().is_empty());
}

#[test]
fn parent_before_child_completes_when_child_receipt_arrives_later() {
    let mut carrier = NativeExecutionContextCarrier::new(limits());
    let parent = carrier.start_root().unwrap();
    let child = carrier.continue_from(parent).unwrap();
    assert!(carrier.record_parent_receipt(parent, receipt(parent.generation, 1)).unwrap().is_empty());
    assert_eq!(carrier.record_child_receipt(child, receipt(child.generation, 2)).unwrap().len(), 1);
}

#[test]
fn incomplete_parent_expires_without_positive_relation() {
    let mut carrier = NativeExecutionContextCarrier::new(limits());
    let parent = carrier.start_root().unwrap();
    let child = carrier.continue_from(parent).unwrap();
    carrier.record_child_receipt(child, receipt(child.generation, 2)).unwrap();
    let diagnostics = carrier.expire_pending(parent.generation);
    assert_eq!(diagnostics.len(), 1);
    assert_eq!(diagnostics[0].kind, NativeObservationDiagnosticKind::PendingExpired);
}

#[test]
fn incomplete_child_expires_without_positive_relation() {
    let mut carrier = NativeExecutionContextCarrier::new(limits());
    let parent = carrier.start_root().unwrap();
    let child = carrier.continue_from(parent).unwrap();
    carrier.record_parent_receipt(parent, receipt(parent.generation, 1)).unwrap();
    let diagnostics = carrier.expire_pending(child.generation);
    assert_eq!(diagnostics.len(), 1);
    assert_eq!(diagnostics[0].kind, NativeObservationDiagnosticKind::PendingExpired);
}

#[test]
fn restart_discards_pending_state_fail_closed() {
    let mut carrier = NativeExecutionContextCarrier::new(limits());
    let parent = carrier.start_root().unwrap();
    let child = carrier.continue_from(parent).unwrap();
    carrier.record_child_receipt(child, receipt(child.generation, 2)).unwrap();
    let delivery = carrier.restart();
    assert_eq!(delivery.len(), 1);
    assert_eq!(delivery[0].kind, NativeObservationDiagnosticKind::RestartLostPending);
    assert_eq!(delivery[0].context_generation, Some(child.generation));
    assert!(matches!(carrier.continue_from(parent), Err(NativeSourceError::UnknownContext)));
}

#[test]
fn duplicate_completion_is_idempotent() {
    let mut carrier = NativeExecutionContextCarrier::new(limits());
    let parent = carrier.start_root().unwrap();
    let child = carrier.continue_from(parent).unwrap();
    carrier.record_parent_receipt(parent, receipt(parent.generation, 1)).unwrap();
    assert_eq!(carrier.record_child_receipt(child, receipt(child.generation, 2)).unwrap().len(), 1);
    assert!(carrier.record_parent_receipt(parent, receipt(parent.generation, 1)).unwrap().is_empty());
}

#[test]
fn multiple_pending_children_remain_independent() {
    let mut carrier = NativeExecutionContextCarrier::new(limits());
    let parent = carrier.start_root().unwrap();
    let child_a = carrier.continue_from(parent).unwrap();
    let child_b = carrier.continue_from(parent).unwrap();
    carrier.record_child_receipt(child_a, receipt(child_a.generation, 2)).unwrap();
    carrier.record_child_receipt(child_b, receipt(child_b.generation, 3)).unwrap();
    let observations = carrier.record_parent_receipt(parent, receipt(parent.generation, 1)).unwrap();
    assert_eq!(observations.len(), 2);
    assert_ne!(observations[0].child.context_generation, observations[1].child.context_generation);
    assert!(observations[0].child.context_generation.as_uuid() < observations[1].child.context_generation.as_uuid());
}

#[test]
fn side_channel_overflow_fails_closed() {
    let mut carrier = NativeExecutionContextCarrier::new(limits());
    let parent = carrier.start_root().unwrap();
    let child = carrier.continue_from(parent).unwrap();
    carrier.record_child_receipt(child, receipt(child.generation, 2)).unwrap();
    let observation = carrier.record_parent_receipt(parent, receipt(parent.generation, 1)).unwrap().pop().unwrap();
    let mut channel = BoundedNativeObservationChannel::new(1).unwrap();
    channel.push(observation.clone()).unwrap();
    assert!(matches!(channel.push(observation), Err(NativeSourceError::SideChannelLimitExceeded { limit: 1 })));
    assert_eq!(channel.len(), 1);
    assert_eq!(channel.drain().len(), 1);
    assert!(channel.is_empty());
}

#[test]
fn runtime_supplied_boundary_is_rejected() {
    let mut value = receipt(NativeExecutionContextGeneration::from_uuid(0), 1);
    value.protocol_operation_boundary = ProtocolOperationBoundaryIdentity::new("http/1.1", "runtime-counter:7");
    assert!(value.validate().is_err());
}

#[test]
fn observation_carries_both_anchors_and_provenance() {
    let mut carrier = NativeExecutionContextCarrier::new(limits());
    let parent = carrier.start_root().unwrap();
    let child = carrier.continue_from(parent).unwrap();
    assert_eq!(child.parent_generation, Some(parent.generation));
    carrier.record_parent_receipt(parent, receipt(parent.generation, 1)).unwrap();
    let observation = carrier.record_child_receipt(child, receipt(child.generation, 2)).unwrap().pop().unwrap();
    assert_eq!(observation.parent.context_generation, parent.generation);
    assert_eq!(observation.child.context_generation, child.generation);
    assert_eq!(observation.parent.boundary, receipt(parent.generation, 1));
    assert_eq!(observation.child.boundary, receipt(child.generation, 2));
    assert_eq!(observation.provenance.source, "chronicle-native-execution-context");
}

#[test]
fn conflicting_receipts_unknown_contexts_and_limits_fail_closed() {
    let mut carrier = NativeExecutionContextCarrier::new(NativeSourceLimits::new(2, 1, 1).unwrap());
    let parent = carrier.start_root().unwrap();
    let child = carrier.continue_from(parent).unwrap();
    assert!(matches!(carrier.start_root(), Err(NativeSourceError::ContextLimitExceeded { limit: 2 })));
    carrier.record_parent_receipt(parent, receipt(parent.generation, 1)).unwrap();
    assert!(matches!(
        carrier.record_parent_receipt(parent, receipt(parent.generation, 9)),
        Err(NativeSourceError::ConflictingReceipt)
    ));
    let stranger = ChronicleExecutionContext { generation: NativeExecutionContextGeneration::from_uuid(7), parent_generation: None };
    assert!(matches!(carrier.record_child_receipt(stranger, receipt(child.generation, 2)), Err(NativeSourceError::UnknownContext)));
    let mut invalid = receipt(child.generation, 2);
    invalid.source_range.direction = Direction::ServerToClient;
    assert!(matches!(carrier.record_child_receipt(child, invalid), Err(NativeSourceError::InvalidReceipt(_))));
    assert!(carrier.take_diagnostics().is_empty());
    assert_eq!(carrier.record_child_receipt(child, receipt(child.generation, 2)).unwrap().len(), 1);
}

#[test]
fn boundary_index_keeps_bound_and_unavailable_apart() {
    let reference = CanonicalOperationRef { recording_id: 1, owner_epoch: 2, session_id: 3, operation_id: 4 };
    let other = CanonicalOperationRef { recording_id: 1, owner_epoch: 2, session_id: 3, operation_id: 5 };
    let mut index = NativeBoundaryIndex::new();
    assert!(index.boundary_for(&reference).is_none());
    assert!(!index.is_unavailable(&reference));
    index.insert(reference, ProtocolOperationBoundaryIdentity::from_canonicalizer("http/1.1", "a"));
    assert_eq!(index.boundary_for(&reference).map(|b| b.key.clone()), Some("a".to_string()));
    assert!(!index.is_unavailable(&reference));
    index.insert(other, ProtocolOperationBoundaryIdentity::new("http/1.1", "b"));
    assert!(index.boundary_for(&other).is_none());
    assert!(index.is_unavailable(&other));
    index.insert(reference, ProtocolOperationBoundaryIdentity::new("http/1.1", "c"));
    assert!(index.boundary_for(&reference).is_none());
    assert!(index.is_unavailable(&reference));
    index.insert(reference, ProtocolOperationBoundaryIdentity::from_canonicalizer("http/1.1", "d"));
    assert_eq!(index.boundary_for(&reference).map(|b| b.key.clone()), Some("d".to_string()));
    assert!(!index.is_unavailable(&reference));
    assert!(index.is_unavailable(&other));
}
