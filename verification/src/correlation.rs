//! Validation before correlation: every session shares one recording scope
//! and appears once, every operation names its completion owner epoch, and
//! the caller's context refers only to verified operations, gives each a
//! role, and supplies no scenario root of its own.
use vstd::prelude::*;

verus! {

/// A fully scoped reference to one canonical operation.
#[derive(Clone, Copy, Debug, PartialEq, Eq, Structural)]
pub struct CanonicalOperationRef {
    pub recording_id: u128,
    pub owner_epoch: u64,
    pub session_id: u128,
    pub operation_id: u128,
}

/// What composition reads of an operation: its identifier and the epoch of
/// the owner that completed it, when recorded.
#[derive(Clone, Copy, Debug, PartialEq, Eq, Structural)]
pub struct OperationProvenance {
    pub operation_id: u128,
    pub completion_owner_epoch: Option<u64>,
}

/// What composition reads of a published session: its identifier, the
/// recording it belongs to (when known), and its operations in order.
#[derive(Clone, Debug, PartialEq, Eq)]
pub struct SessionScope {
    pub session_id: u128,
    pub recording_id: Option<u128>,
    pub operations: Vec<OperationProvenance>,
}

/// The context channel in which a caller supplied a scenario root.
#[derive(Clone, Copy, Debug, PartialEq, Eq, Structural)]
pub enum ReservedChannel {
    Correlation,
    RoleKnown,
    RoleUnknown,
    RoleAmbiguous,
}

/// Why composition refuses its inputs.
#[derive(Clone, Copy, Debug, PartialEq, Eq, Structural)]
pub enum CorrelationCompositionError {
    EmptySessionSet,
    MissingRecordingScope { session_id: u128 },
    DuplicateSessionContext { session_id: u128 },
    ConflictingRecordingScope { expected: u128, found: u128 },
    MissingCompletionOwnerEpoch { session_id: u128, operation_id: u128 },
    MissingRoleResolution { reference: CanonicalOperationRef },
    OrphanContextEntry { reference: CanonicalOperationRef },
    ReservedScenarioRootInput { reference: CanonicalOperationRef, channel: ReservedChannel },
}

/// Whether an earlier session than `i` has the identifier of session `i`.
pub open spec fn repeated_session(sessions: Seq<SessionScope>, i: int) -> bool {
    exists|j: int| 0 <= j < i && sessions[j].session_id == #[trigger] sessions[i].session_id
}

/// The recording scope of sessions `i..` after the recording `seen` so far:
/// the first session seen twice, without a recording, or with another
/// recording than the first fails.
pub open spec fn scope_from(sessions: Seq<SessionScope>, i: int, seen: Option<u128>) -> Result<u128, CorrelationCompositionError>
    decreases sessions.len() - i,
{
    if i < 0 || i >= sessions.len() {
        match seen {
            Some(r) => Ok(r),
            None => Err(CorrelationCompositionError::EmptySessionSet),
        }
    } else if repeated_session(sessions, i) {
        Err(CorrelationCompositionError::DuplicateSessionContext { session_id: sessions[i].session_id })
    } else {
        match sessions[i].recording_id {
            None => Err(CorrelationCompositionError::MissingRecordingScope { session_id: sessions[i].session_id }),
            Some(found) => match seen {
                Some(expected) => if expected != found {
                    Err(CorrelationCompositionError::ConflictingRecordingScope { expected, found })
                } else {
                    scope_from(sessions, i + 1, seen)
                },
                None => scope_from(sessions, i + 1, Some(found)),
            },
        }
    }
}

/// The one recording all sessions belong to.
pub open spec fn recording_scope_of(sessions: Seq<SessionScope>) -> Result<u128, CorrelationCompositionError> {
    scope_from(sessions, 0, None)
}

/// The sessions' shared recording, or the first session that breaks it:
/// no sessions, a session seen twice, one without a recording, or one of
/// another recording.
pub fn recording_scope(sessions: &[SessionScope]) -> (r: Result<u128, CorrelationCompositionError>)
    ensures
        r == recording_scope_of(sessions@),
{
    let mut seen: Option<u128> = None;
    let mut i: usize = 0;
    while i < sessions.len()
        invariant
            i <= sessions@.len(),
            recording_scope_of(sessions@) == scope_from(sessions@, i as int, seen),
            i == 0 <==> seen is None,
        decreases sessions.len() - i,
    {
        let id = sessions[i].session_id;
        let mut j: usize = 0;
        while j < i
            invariant
                i < sessions@.len(),
                j <= i,
                id == sessions@[i as int].session_id,
                recording_scope_of(sessions@) == scope_from(sessions@, i as int, seen),
                forall|k: int| 0 <= k < j ==> sessions@[k].session_id != id,
            decreases i - j,
        {
            if sessions[j].session_id == id {
                assert(repeated_session(sessions@, i as int));
                return Err(CorrelationCompositionError::DuplicateSessionContext { session_id: id });
            }
            j = j + 1;
        }
        assert(!repeated_session(sessions@, i as int));
        match sessions[i].recording_id {
            None => return Err(CorrelationCompositionError::MissingRecordingScope { session_id: id }),
            Some(found) => match seen {
                Some(expected) => if expected != found {
                    return Err(CorrelationCompositionError::ConflictingRecordingScope { expected, found });
                },
                None => {
                    seen = Some(found);
                },
            },
        }
        i = i + 1;
    }
    match seen {
        Some(r) => Ok(r),
        None => Err(CorrelationCompositionError::EmptySessionSet),
    }
}

/// The references of a session's first operations, or the first one
/// without a completion owner epoch.
pub open spec fn operation_refs(s: SessionScope, ops: Seq<OperationProvenance>, recording_id: u128)
    -> Result<Seq<CanonicalOperationRef>, CorrelationCompositionError>
    decreases ops.len(),
{
    if ops.len() == 0 {
        Ok(Seq::empty())
    } else {
        match operation_refs(s, ops.drop_last(), recording_id) {
            Err(e) => Err(e),
            Ok(refs) => match ops.last().completion_owner_epoch {
                None => Err(CorrelationCompositionError::MissingCompletionOwnerEpoch {
                    session_id: s.session_id,
                    operation_id: ops.last().operation_id,
                }),
                Some(epoch) => Ok(refs.push(CanonicalOperationRef {
                    recording_id,
                    owner_epoch: epoch,
                    session_id: s.session_id,
                    operation_id: ops.last().operation_id,
                })),
            },
        }
    }
}

/// The references of every operation of the first sessions, session by
/// session, or the first operation without a completion owner epoch.
pub open spec fn session_refs(sessions: Seq<SessionScope>, recording_id: u128)
    -> Result<Seq<CanonicalOperationRef>, CorrelationCompositionError>
    decreases sessions.len(),
{
    if sessions.len() == 0 {
        Ok(Seq::empty())
    } else {
        match session_refs(sessions.drop_last(), recording_id) {
            Err(e) => Err(e),
            Ok(before) => match operation_refs(sessions.last(), sessions.last().operations@, recording_id) {
                Err(e) => Err(e),
                Ok(refs) => Ok(before + refs),
            },
        }
    }
}

/// The full reference of every operation of the sessions, in order; fails
/// at the first operation without a completion owner epoch.
pub fn operation_references(sessions: &[SessionScope], recording_id: u128)
    -> (r: Result<Vec<CanonicalOperationRef>, CorrelationCompositionError>)
    ensures
        match session_refs(sessions@, recording_id) {
            Ok(refs) => r matches Ok(v) && v@ == refs,
            Err(e) => r == Err::<Vec<CanonicalOperationRef>, CorrelationCompositionError>(e),
        },
{
    let mut out: Vec<CanonicalOperationRef> = Vec::new();
    let mut i: usize = 0;
    while i < sessions.len()
        invariant
            i <= sessions@.len(),
            session_refs(sessions@.take(i as int), recording_id) == Ok::<Seq<CanonicalOperationRef>, CorrelationCompositionError>(out@),
        decreases sessions.len() - i,
    {
        let s = &sessions[i];
        let ghost before = out@;
        let ghost taken = sessions@.take(i + 1);
        proof {
            assert(taken.drop_last() =~= sessions@.take(i as int));
            assert(taken.last() == *s);
        }
        proof {
            assert(out@.skip(before.len() as int) =~= Seq::<CanonicalOperationRef>::empty());
            assert(s.operations@.take(0) =~= Seq::<OperationProvenance>::empty());
            assert(out@.take(before.len() as int) =~= before);
        }
        let mut j: usize = 0;
        while j < s.operations.len()
            invariant
                i < sessions@.len(),
                j <= s.operations@.len(),
                *s == sessions@[i as int],
                taken == sessions@.take(i + 1),
                taken.drop_last() == sessions@.take(i as int),
                taken.last() == *s,
                session_refs(sessions@.take(i as int), recording_id) == Ok::<Seq<CanonicalOperationRef>, CorrelationCompositionError>(before),
                operation_refs(*s, s.operations@.take(j as int), recording_id)
                    == Ok::<Seq<CanonicalOperationRef>, CorrelationCompositionError>(out@.skip(before.len() as int)),
                out@.len() >= before.len(),
                out@.take(before.len() as int) == before,
            decreases s.operations.len() - j,
        {
            let op = s.operations[j];
            let ghost ops = s.operations@.take(j + 1);
            proof {
                assert(ops.drop_last() =~= s.operations@.take(j as int));
                assert(ops.last() == op);
            }
            match op.completion_owner_epoch {
                None => {
                    proof {
                        let e = CorrelationCompositionError::MissingCompletionOwnerEpoch {
                            session_id: s.session_id,
                            operation_id: op.operation_id,
                        };
                        assert(operation_refs(*s, ops, recording_id) == Err::<Seq<CanonicalOperationRef>, CorrelationCompositionError>(e));
                        lemma_refs_error_persists(*s, s.operations@, recording_id, j + 1, e);
                        assert(session_refs(taken, recording_id) == Err::<Seq<CanonicalOperationRef>, CorrelationCompositionError>(e));
                        lemma_session_refs_error_persists(sessions@, recording_id, i + 1, e);
                    }
                    return Err(CorrelationCompositionError::MissingCompletionOwnerEpoch {
                        session_id: s.session_id,
                        operation_id: op.operation_id,
                    });
                },
                Some(epoch) => {
                    let ghost prev = out@;
                    out.push(CanonicalOperationRef {
                        recording_id,
                        owner_epoch: epoch,
                        session_id: s.session_id,
                        operation_id: op.operation_id,
                    });
                    proof {
                        assert(out@.skip(before.len() as int) =~= prev.skip(before.len() as int).push(out@.last()));
                        assert(out@.take(before.len() as int) =~= prev.take(before.len() as int));
                    }
                },
            }
            j = j + 1;
        }
        proof {
            assert(s.operations@.take(s.operations@.len() as int) =~= s.operations@);
            assert(out@ =~= before + out@.skip(before.len() as int));
        }
        i = i + 1;
    }
    proof {
        assert(sessions@.take(sessions@.len() as int) =~= sessions@);
    }
    Ok(out)
}

proof fn lemma_refs_error_persists(
    s: SessionScope,
    ops: Seq<OperationProvenance>,
    recording_id: u128,
    k: int,
    e: CorrelationCompositionError,
)
    requires
        0 <= k <= ops.len(),
        operation_refs(s, ops.take(k), recording_id) == Err::<Seq<CanonicalOperationRef>, CorrelationCompositionError>(e),
    ensures
        operation_refs(s, ops, recording_id) == Err::<Seq<CanonicalOperationRef>, CorrelationCompositionError>(e),
    decreases ops.len() - k,
{
    if k < ops.len() {
        let t = ops.take(k + 1);
        assert(t.drop_last() =~= ops.take(k));
        lemma_refs_error_persists(s, ops, recording_id, k + 1, e);
    } else {
        assert(ops.take(k) =~= ops);
    }
}

proof fn lemma_session_refs_error_persists(
    sessions: Seq<SessionScope>,
    recording_id: u128,
    k: int,
    e: CorrelationCompositionError,
)
    requires
        0 <= k <= sessions.len(),
        session_refs(sessions.take(k), recording_id) == Err::<Seq<CanonicalOperationRef>, CorrelationCompositionError>(e),
    ensures
        session_refs(sessions, recording_id) == Err::<Seq<CanonicalOperationRef>, CorrelationCompositionError>(e),
    decreases sessions.len() - k,
{
    if k < sessions.len() {
        let t = sessions.take(k + 1);
        assert(t.drop_last() =~= sessions.take(k));
        lemma_session_refs_error_persists(sessions, recording_id, k + 1, e);
    } else {
        assert(sessions.take(k) =~= sessions);
    }
}

/// The caller's correlation context as composition reads it: each role
/// entry's reference, with the channel of a scenario root in its role
/// evidence, if any; and each evidence entry's reference, with whether its
/// evidence holds a scenario root.
pub struct ContextEntries {
    pub roles: Vec<(CanonicalOperationRef, Option<ReservedChannel>)>,
    pub evidence: Vec<(CanonicalOperationRef, bool)>,
}

/// The position of the first entry for `r` from `i` on.
pub open spec fn entry_for<T>(entries: Seq<(CanonicalOperationRef, T)>, r: CanonicalOperationRef, i: int) -> Option<int>
    decreases entries.len() - i,
{
    if i < 0 || i >= entries.len() {
        None
    } else if entries[i].0 == r {
        Some(i)
    } else {
        entry_for(entries, r, i + 1)
    }
}

/// The first entry from `i` on whose reference names no verified operation.
pub open spec fn first_orphan<T>(verified: Seq<CanonicalOperationRef>, entries: Seq<(CanonicalOperationRef, T)>, i: int) -> Option<CanonicalOperationRef>
    decreases entries.len() - i,
{
    if i < 0 || i >= entries.len() {
        None
    } else if !verified.contains(entries[i].0) {
        Some(entries[i].0)
    } else {
        first_orphan(verified, entries, i + 1)
    }
}

/// The join of verified operations `i..` with the context: for each, the
/// position of its role entry and of its evidence entry (none is empty
/// evidence); fails at the first without a role, or whose role or
/// evidence holds a scenario root.
pub open spec fn join_from(
    verified: Seq<CanonicalOperationRef>,
    roles: Seq<(CanonicalOperationRef, Option<ReservedChannel>)>,
    evidence: Seq<(CanonicalOperationRef, bool)>,
    i: int,
) -> Result<Seq<(int, Option<int>)>, CorrelationCompositionError>
    decreases verified.len() - i,
{
    if i < 0 || i >= verified.len() {
        Ok(Seq::empty())
    } else {
        let r = verified[i];
        match entry_for(roles, r, 0) {
            None => Err(CorrelationCompositionError::MissingRoleResolution { reference: r }),
            Some(k) => match roles[k].1 {
                Some(channel) => Err(CorrelationCompositionError::ReservedScenarioRootInput { reference: r, channel }),
                None => {
                    let e = entry_for(evidence, r, 0);
                    if e matches Some(x) && evidence[x].1 {
                        Err(CorrelationCompositionError::ReservedScenarioRootInput { reference: r, channel: ReservedChannel::Correlation })
                    } else {
                        match join_from(verified, roles, evidence, i + 1) {
                            Err(err) => Err(err),
                            Ok(rest) => Ok(seq![(k, e)] + rest),
                        }
                    }
                },
            },
        }
    }
}

/// Joining verified operations with a context: a role or evidence entry
/// that names no verified operation fails first (roles, then evidence, in
/// order); then each verified operation in order needs a role entry, and
/// neither channel may hold a scenario root.
pub open spec fn context_join(
    verified: Seq<CanonicalOperationRef>,
    roles: Seq<(CanonicalOperationRef, Option<ReservedChannel>)>,
    evidence: Seq<(CanonicalOperationRef, bool)>,
) -> Result<Seq<(int, Option<int>)>, CorrelationCompositionError> {
    match first_orphan(verified, roles, 0) {
        Some(r) => Err(CorrelationCompositionError::OrphanContextEntry { reference: r }),
        None => match first_orphan(verified, evidence, 0) {
            Some(r) => Err(CorrelationCompositionError::OrphanContextEntry { reference: r }),
            None => join_from(verified, roles, evidence, 0),
        },
    }
}

fn contains_ref(verified: &[CanonicalOperationRef], r: CanonicalOperationRef) -> (b: bool)
    ensures
        b == verified@.contains(r),
{
    let mut i: usize = 0;
    while i < verified.len()
        invariant
            i <= verified@.len(),
            forall|k: int| 0 <= k < i ==> verified@[k] != r,
        decreases verified.len() - i,
    {
        if verified[i] == r {
            assert(verified@[i as int] == r);
            return true;
        }
        i = i + 1;
    }
    false
}

fn find_role(entries: &[(CanonicalOperationRef, Option<ReservedChannel>)], r: CanonicalOperationRef) -> (p: Option<usize>)
    ensures
        match entry_for(entries@, r, 0) {
            Some(k) => p == Some(k as usize),
            None => p is None,
        },
        entry_for(entries@, r, 0) matches Some(k) ==> 0 <= k < entries@.len(),
{
    let mut i: usize = 0;
    while i < entries.len()
        invariant
            i <= entries@.len(),
            entry_for(entries@, r, 0) == entry_for(entries@, r, i as int),
        decreases entries.len() - i,
    {
        if entries[i].0 == r {
            return Some(i);
        }
        i = i + 1;
    }
    None
}

fn find_evidence(entries: &[(CanonicalOperationRef, bool)], r: CanonicalOperationRef) -> (p: Option<usize>)
    ensures
        match entry_for(entries@, r, 0) {
            Some(k) => p == Some(k as usize),
            None => p is None,
        },
        entry_for(entries@, r, 0) matches Some(k) ==> 0 <= k < entries@.len(),
{
    let mut i: usize = 0;
    while i < entries.len()
        invariant
            i <= entries@.len(),
            entry_for(entries@, r, 0) == entry_for(entries@, r, i as int),
        decreases entries.len() - i,
    {
        if entries[i].0 == r {
            return Some(i);
        }
        i = i + 1;
    }
    None
}

pub open spec fn join_view(j: Seq<(usize, Option<usize>)>) -> Seq<(int, Option<int>)> {
    j.map_values(|x: (usize, Option<usize>)| (x.0 as int, match x.1 { Some(e) => Some(e as int), None => None }))
}

/// Joins the verified operations, in order, with the caller's context:
/// for each, the position of its role entry and of its evidence entry.
#[verifier::loop_isolation(false)]
pub fn join_context(verified: &[CanonicalOperationRef], context: &ContextEntries)
    -> (r: Result<Vec<(usize, Option<usize>)>, CorrelationCompositionError>)
    ensures
        match context_join(verified@, context.roles@, context.evidence@) {
            Ok(j) => r matches Ok(v) && join_view(v@) == j,
            Err(e) => r == Err::<Vec<(usize, Option<usize>)>, CorrelationCompositionError>(e),
        },
{
    let roles = context.roles.as_slice();
    let evidence = context.evidence.as_slice();
    let mut i: usize = 0;
    while i < roles.len()
        invariant
            i <= roles@.len(),
            first_orphan(verified@, roles@, 0) == first_orphan(verified@, roles@, i as int),
        decreases roles.len() - i,
    {
        if !contains_ref(verified, roles[i].0) {
            return Err(CorrelationCompositionError::OrphanContextEntry { reference: roles[i].0 });
        }
        i = i + 1;
    }
    let mut i: usize = 0;
    while i < evidence.len()
        invariant
            i <= evidence@.len(),
            first_orphan(verified@, roles@, 0) is None,
            first_orphan(verified@, evidence@, 0) == first_orphan(verified@, evidence@, i as int),
        decreases evidence.len() - i,
    {
        if !contains_ref(verified, evidence[i].0) {
            return Err(CorrelationCompositionError::OrphanContextEntry { reference: evidence[i].0 });
        }
        i = i + 1;
    }
    let mut out: Vec<(usize, Option<usize>)> = Vec::new();
    let mut i: usize = 0;
    while i < verified.len()
        invariant
            i <= verified@.len(),
            first_orphan(verified@, roles@, 0) is None,
            first_orphan(verified@, evidence@, 0) is None,
            join_from(verified@, roles@, evidence@, 0) == match join_from(verified@, roles@, evidence@, i as int) {
                Err(e) => Err(e),
                Ok(rest) => Ok::<Seq<(int, Option<int>)>, CorrelationCompositionError>(join_view(out@) + rest),
            },
        decreases verified.len() - i,
    {
        let r = verified[i];
        let k = match find_role(roles, r) {
            None => return Err(CorrelationCompositionError::MissingRoleResolution { reference: r }),
            Some(k) => k,
        };
        if let Some(channel) = roles[k].1 {
            return Err(CorrelationCompositionError::ReservedScenarioRootInput { reference: r, channel });
        }
        let e = find_evidence(evidence, r);
        if let Some(x) = e {
            if evidence[x].1 {
                return Err(CorrelationCompositionError::ReservedScenarioRootInput { reference: r, channel: ReservedChannel::Correlation });
            }
        }
        let ghost before = join_view(out@);
        out.push((k, e));
        proof {
            assert(join_view(out@) =~= before + seq![(k as int, match e { Some(x) => Some(x as int), None => None })]);
            match join_from(verified@, roles@, evidence@, i + 1) {
                Err(_) => {},
                Ok(rest) => {
                    assert(before + (seq![(k as int, match e { Some(x) => Some(x as int), None => None::<int> })] + rest)
                        =~= join_view(out@) + rest);
                },
            }
        }
        i = i + 1;
    }
    proof {
        assert(join_view(out@) + Seq::<(int, Option<int>)>::empty() =~= join_view(out@));
    }
    Ok(out)
}

} // verus!
