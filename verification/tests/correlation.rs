use chronicle::correlation::{
    join_context, operation_references, recording_scope, CanonicalOperationRef, ContextEntries,
    CorrelationCompositionError, OperationProvenance, ReservedChannel, SessionScope,
};

fn ref_at(operation: u128) -> CanonicalOperationRef {
    CanonicalOperationRef { recording_id: 1, owner_epoch: 2, session_id: 3, operation_id: operation }
}

fn session_for(reference: CanonicalOperationRef) -> SessionScope {
    SessionScope {
        session_id: reference.session_id,
        recording_id: Some(reference.recording_id),
        operations: vec![OperationProvenance {
            operation_id: reference.operation_id,
            completion_owner_epoch: Some(reference.owner_epoch),
        }],
    }
}

fn verified(sessions: &[SessionScope]) -> Vec<CanonicalOperationRef> {
    let recording = recording_scope(sessions).unwrap();
    operation_references(sessions, recording).unwrap()
}

#[test]
fn missing_role_context_fails_closed() {
    let root = ref_at(10);
    let refs = verified(&[session_for(root)]);
    let context = ContextEntries { roles: Vec::new(), evidence: Vec::new() };
    assert_eq!(
        join_context(&refs, &context),
        Err(CorrelationCompositionError::MissingRoleResolution { reference: root })
    );
}

#[test]
fn missing_evidence_entry_joins_as_empty() {
    let root = ref_at(10);
    let refs = verified(&[session_for(root)]);
    let context = ContextEntries { roles: vec![(root, None)], evidence: Vec::new() };
    assert_eq!(join_context(&refs, &context), Ok(vec![(0, None)]));
}

#[test]
fn orphan_context_entry_fails_closed() {
    let root = ref_at(10);
    let orphan = ref_at(99);
    let refs = verified(&[session_for(root)]);
    let context = ContextEntries { roles: vec![(orphan, None)], evidence: Vec::new() };
    assert_eq!(
        join_context(&refs, &context),
        Err(CorrelationCompositionError::OrphanContextEntry { reference: orphan })
    );
}

#[test]
fn caller_scenario_root_rejected_in_both_channels_of_context() {
    let root = ref_at(10);
    let refs = verified(&[session_for(root)]);
    let context = ContextEntries { roles: vec![(root, None)], evidence: vec![(root, true)] };
    assert_eq!(
        join_context(&refs, &context),
        Err(CorrelationCompositionError::ReservedScenarioRootInput { reference: root, channel: ReservedChannel::Correlation })
    );
    let context = ContextEntries { roles: vec![(root, Some(ReservedChannel::RoleAmbiguous))], evidence: Vec::new() };
    assert_eq!(
        join_context(&refs, &context),
        Err(CorrelationCompositionError::ReservedScenarioRootInput { reference: root, channel: ReservedChannel::RoleAmbiguous })
    );
}

#[test]
fn sessions_must_share_one_recording_and_appear_once() {
    assert_eq!(recording_scope(&[]), Err(CorrelationCompositionError::EmptySessionSet));
    let a = session_for(ref_at(10));
    assert_eq!(
        recording_scope(&[a.clone(), a.clone()]),
        Err(CorrelationCompositionError::DuplicateSessionContext { session_id: 3 })
    );
    let mut other = session_for(ref_at(11));
    other.session_id = 4;
    other.recording_id = Some(9);
    assert_eq!(
        recording_scope(&[a.clone(), other.clone()]),
        Err(CorrelationCompositionError::ConflictingRecordingScope { expected: 1, found: 9 })
    );
    other.recording_id = None;
    assert_eq!(
        recording_scope(&[a.clone(), other]),
        Err(CorrelationCompositionError::MissingRecordingScope { session_id: 4 })
    );
    assert_eq!(recording_scope(&[a]), Ok(1));
}

#[test]
fn operations_need_a_completion_owner_epoch() {
    let mut s = session_for(ref_at(10));
    s.operations.push(OperationProvenance { operation_id: 11, completion_owner_epoch: None });
    assert_eq!(
        operation_references(&[s], 1),
        Err(CorrelationCompositionError::MissingCompletionOwnerEpoch { session_id: 3, operation_id: 11 })
    );
    let refs = operation_references(&[session_for(ref_at(10))], 1).unwrap();
    assert_eq!(refs, vec![ref_at(10)]);
}
