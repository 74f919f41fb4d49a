//! Replay planning: target mapping, policy decisions and scheduling.
use vstd::prelude::*;
use crate::canonical::{
    attribute_is, attribute_equals, CanonicalConnection, CanonicalOperation, CanonicalSession,
    Completeness, Endpoint, EndpointView, OperationEffect, OperationView, completeness_of, opt_str_view,
};
use crate::protocol::{ProtocolError, TransportErrorCategory, VerificationResult, VerificationStatus};
use crate::verify::{result_view, VerificationView};
use crate::text::str_eq;

verus! {

/// The most operations one session may hold and still be replayed.
pub const MAX_REPLAY_OPERATIONS: usize = 10000;

#[derive(Clone, Copy, Debug, PartialEq, Eq, Structural)]
pub enum TimingMode {
    Preserve,
    Asap,
}

/// Maps recorded connections to a replay target; each present criterion
/// must match.
#[derive(Clone, Debug, PartialEq, Eq)]
pub struct TargetRule {
    pub protocol: Option<String>,
    pub host: Option<String>,
    pub port: Option<u16>,
    pub connection_id: Option<u128>,
    pub target: Endpoint,
}

pub open spec fn rule_matches(rule: TargetRule, protocol: Seq<char>, endpoint: EndpointView, connection_id: u128) -> bool {
    &&& (rule.protocol matches Some(p) ==> p@ == protocol)
    &&& (rule.host matches Some(h) ==> h@ == endpoint.host)
    &&& (rule.port matches Some(port) ==> port == endpoint.port)
    &&& (rule.connection_id matches Some(id) ==> id == connection_id)
}

impl TargetRule {
    pub fn matches(&self, protocol: &str, endpoint: &Endpoint, connection_id: u128) -> (r: bool)
        ensures
            r == rule_matches(*self, protocol@, endpoint@, connection_id),
    {
        let protocol_ok = match &self.protocol {
            Some(p) => str_eq(p.as_str(), protocol),
            None => true,
        };
        let host_ok = match &self.host {
            Some(h) => str_eq(h.as_str(), endpoint.host.as_str()),
            None => true,
        };
        let port_ok = match self.port {
            Some(p) => p == endpoint.port,
            None => true,
        };
        let id_ok = match self.connection_id {
            Some(id) => id == connection_id,
            None => true,
        };
        protocol_ok && host_ok && port_ok && id_ok
    }
}

/// Ordered target rules; the first that matches applies.
#[derive(Clone, Debug, PartialEq, Eq)]
pub struct TargetMap {
    pub rules: Vec<TargetRule>,
}

pub open spec fn resolve_target(rules: Seq<TargetRule>, protocol: Seq<char>, endpoint: EndpointView, connection_id: u128) -> Option<EndpointView>
    decreases rules.len(),
{
    if rules.len() == 0 {
        None
    } else if rule_matches(rules[0], protocol, endpoint, connection_id) {
        Some(rules[0].target@)
    } else {
        resolve_target(rules.drop_first(), protocol, endpoint, connection_id)
    }
}

/// Resolution picks the first matching rule: a resolved target is the
/// target of some rule that matches, and no earlier rule matches; nothing
/// is resolved only when no rule matches.
pub proof fn lemma_resolve_first_match(rules: Seq<TargetRule>, protocol: Seq<char>, endpoint: EndpointView, connection_id: u128)
    ensures
        match resolve_target(rules, protocol, endpoint, connection_id) {
            Some(t) => exists|i: int| {
                &&& 0 <= i < rules.len()
                &&& rule_matches(#[trigger] rules[i], protocol, endpoint, connection_id)
                &&& rules[i].target@ == t
                &&& forall|j: int| 0 <= j < i ==> !rule_matches(#[trigger] rules[j], protocol, endpoint, connection_id)
            },
            None => forall|i: int| 0 <= i < rules.len() ==> !rule_matches(#[trigger] rules[i], protocol, endpoint, connection_id),
        },
    decreases rules.len(),
{
    if rules.len() > 0 {
        let rest = rules.drop_first();
        lemma_resolve_first_match(rest, protocol, endpoint, connection_id);
        if rule_matches(rules[0], protocol, endpoint, connection_id) {
            assert(rule_matches(rules[0], protocol, endpoint, connection_id) && rules[0].target@ == rules[0].target@);
        } else {
            match resolve_target(rest, protocol, endpoint, connection_id) {
                Some(t) => {
                    let k = choose|k: int| {
                        &&& 0 <= k < rest.len()
                        &&& rule_matches(#[trigger] rest[k], protocol, endpoint, connection_id)
                        &&& rest[k].target@ == t
                        &&& forall|j: int| 0 <= j < k ==> !rule_matches(#[trigger] rest[j], protocol, endpoint, connection_id)
                    };
                    assert(rules[k + 1] == rest[k]);
                    assert forall|j: int| 0 <= j < k + 1 implies !rule_matches(#[trigger] rules[j], protocol, endpoint, connection_id) by {
                        if j > 0 { assert(rules[j] == rest[j - 1]); }
                    }
                },
                None => {
                    assert forall|i: int| 0 <= i < rules.len() implies !rule_matches(#[trigger] rules[i], protocol, endpoint, connection_id) by {
                        if i > 0 { assert(rules[i] == rest[i - 1]); }
                    }
                },
            }
        }
    }
}

impl TargetMap {
    pub fn new() -> (m: Self)
        ensures
            m.rules@ == Seq::<TargetRule>::empty(),
    {
        TargetMap { rules: Vec::new() }
    }

    /// The target of the first rule that matches.
    pub fn resolve(&self, protocol: &str, endpoint: &Endpoint, connection_id: u128) -> (r: Option<&Endpoint>)
        ensures
            match r {
                Some(t) => resolve_target(self.rules@, protocol@, endpoint@, connection_id) == Some(t@),
                None => resolve_target(self.rules@, protocol@, endpoint@, connection_id) is None,
            },
    {
        let mut i: usize = 0;
        proof { assert(self.rules@.subrange(0, self.rules@.len() as int) =~= self.rules@); }
        while i < self.rules.len()
            invariant
                i <= self.rules@.len(),
                resolve_target(self.rules@, protocol@, endpoint@, connection_id)
                    == resolve_target(self.rules@.subrange(i as int, self.rules@.len() as int), protocol@, endpoint@, connection_id),
            decreases self.rules.len() - i,
        {
            let ghost rest = self.rules@.subrange(i as int, self.rules@.len() as int);
            proof {
                assert(rest[0] == self.rules@[i as int]);
                assert(rest.drop_first() =~= self.rules@.subrange(i + 1, self.rules@.len() as int));
            }
            if self.rules[i].matches(protocol, endpoint, connection_id) {
                return Some(&self.rules[i].target);
            }
            i = i + 1;
        }
        None
    }
}

/// Independent safety gates; everything is denied unless enabled.
#[derive(Clone, Copy, Debug, PartialEq, Eq, Structural)]
pub struct ReplayPolicy {
    pub dry_run: bool,
    pub allow_reads: bool,
    pub allow_writes: bool,
    pub allow_publication: bool,
    pub allow_authentication: bool,
    pub allow_unknown: bool,
    pub block_recorded_destination: bool,
    /// Explicit opt-in to execution; HTTP also needs loopback IP targets.
    pub execution_authorized: bool,
}

/// The default policy: a dry run that allows nothing and blocks the
/// recorded destination.
pub open spec fn default_policy() -> ReplayPolicy {
    ReplayPolicy {
        dry_run: true,
        allow_reads: false,
        allow_writes: false,
        allow_publication: false,
        allow_authentication: false,
        allow_unknown: false,
        block_recorded_destination: true,
        execution_authorized: false,
    }
}

impl Default for ReplayPolicy {
    fn default() -> (p: Self)
        ensures
            p == default_policy(),
    {
        ReplayPolicy {
            dry_run: true,
            allow_reads: false,
            allow_writes: false,
            allow_publication: false,
            allow_authentication: false,
            allow_unknown: false,
            block_recorded_destination: true,
            execution_authorized: false,
        }
    }
}

pub open spec fn policy_allows(p: ReplayPolicy, effect: OperationEffect) -> bool {
    match effect {
        OperationEffect::Read => p.allow_reads,
        OperationEffect::Write => p.allow_writes,
        OperationEffect::Publish => p.allow_publication,
        OperationEffect::Authentication => p.allow_authentication,
        OperationEffect::Unknown => p.allow_unknown,
    }
}

impl ReplayPolicy {
    pub fn allows(&self, effect: OperationEffect) -> (r: bool)
        ensures
            r == policy_allows(*self, effect),
    {
        match effect {
            OperationEffect::Read => self.allow_reads,
            OperationEffect::Write => self.allow_writes,
            OperationEffect::Publish => self.allow_publication,
            OperationEffect::Authentication => self.allow_authentication,
            OperationEffect::Unknown => self.allow_unknown,
        }
    }
}

/// Options of a loopback replay as a user gives them.
#[derive(Clone, Debug, PartialEq, Eq)]
pub struct LoopbackReplayOptions {
    pub target: Option<String>,
    pub allow_hosts: Vec<String>,
    pub execute: bool,
    pub allow_reads: bool,
    pub allow_writes: bool,
    pub timing: TimingMode,
}

impl LoopbackReplayOptions {
    /// The policy these options grant: execution, reads and writes as
    /// asked, everything else as by default.
    pub fn policy(&self) -> (p: ReplayPolicy)
        ensures
            p == (ReplayPolicy {
                dry_run: !self.execute,
                allow_reads: self.allow_reads,
                allow_writes: self.allow_writes,
                execution_authorized: self.execute,
                ..default_policy()
            }),
    {
        ReplayPolicy {
            dry_run: !self.execute,
            allow_reads: self.allow_reads,
            allow_writes: self.allow_writes,
            allow_publication: false,
            allow_authentication: false,
            allow_unknown: false,
            block_recorded_destination: true,
            execution_authorized: self.execute,
        }
    }
}

#[derive(Clone, Copy, Debug, PartialEq, Eq, Structural)]
pub enum ReplayTargetError {
    TargetRequired,
    PlainHttpRequired,
    InvalidOrigin,
    LoopbackRequired,
    InvalidAllowHost,
    AllowHostMismatch,
    ImmediateTimingRequired,
}

/// The message text of a replay target error.
pub open spec fn target_error_message(e: ReplayTargetError) -> Seq<char> {
    match e {
        ReplayTargetError::TargetRequired => "replay target is required"@,
        ReplayTargetError::PlainHttpRequired => "replay target must use plain http"@,
        ReplayTargetError::InvalidOrigin => "replay target must be an IP-literal origin with port"@,
        ReplayTargetError::LoopbackRequired => "replay target must use a loopback IP address"@,
        ReplayTargetError::InvalidAllowHost => "--allow-host must be an IP literal"@,
        ReplayTargetError::AllowHostMismatch => "--allow-host must exactly match replay target"@,
        ReplayTargetError::ImmediateTimingRequired => "only immediate replay timing is supported"@,
    }
}

impl ReplayTargetError {
    /// The message text of this error.
    pub fn message(&self) -> (s: &'static str)
        ensures
            s@ == target_error_message(*self),
    {
        match self {
            ReplayTargetError::TargetRequired => "replay target is required",
            ReplayTargetError::PlainHttpRequired => "replay target must use plain http",
            ReplayTargetError::InvalidOrigin => "replay target must be an IP-literal origin with port",
            ReplayTargetError::LoopbackRequired => "replay target must use a loopback IP address",
            ReplayTargetError::InvalidAllowHost => "--allow-host must be an IP literal",
            ReplayTargetError::AllowHostMismatch => "--allow-host must exactly match replay target",
            ReplayTargetError::ImmediateTimingRequired => "only immediate replay timing is supported",
        }
    }
}

#[derive(Clone, Copy, Debug, PartialEq, Eq, Structural)]
pub enum ReplayDenial {
    MissingTarget,
    RecordedDestination,
    ExecutionNotAuthorized,
    EffectNotAllowed(OperationEffect),
}

#[derive(Clone, Copy, Debug, PartialEq, Eq, Structural)]
pub enum ReplayDecision {
    Allowed,
    Denied(ReplayDenial),
    Unsupported,
}


/// One operation of a replay plan.
pub struct PlannedOperation {
    connection_id: u128,
    protocol: String,
    target: Option<Endpoint>,
    recorded_target: Endpoint,
    decision: ReplayDecision,
    scheduled_offset: u64,
    completeness: Completeness,
    operation: CanonicalOperation,
}

pub struct PlannedView {
    pub connection_id: u128,
    pub protocol: Seq<char>,
    pub target: Option<EndpointView>,
    pub recorded_target: EndpointView,
    pub decision: ReplayDecision,
    pub scheduled_offset: u64,
    pub completeness: Completeness,
    pub operation: OperationView,
}

pub open spec fn opt_endpoint_view(e: Option<Endpoint>) -> Option<EndpointView> {
    match e {
        Some(x) => Some(x@),
        None => None,
    }
}

impl View for PlannedOperation {
    type V = PlannedView;

    closed spec fn view(&self) -> PlannedView {
        PlannedView {
            connection_id: self.connection_id,
            protocol: self.protocol@,
            target: opt_endpoint_view(self.target),
            recorded_target: self.recorded_target@,
            decision: self.decision,
            scheduled_offset: self.scheduled_offset,
            completeness: self.completeness,
            operation: self.operation@,
        }
    }
}

impl PlannedOperation {
    pub fn connection_id(&self) -> (r: u128)
        ensures
            r == self@.connection_id,
    {
        self.connection_id
    }

    pub fn protocol(&self) -> (r: &str)
        ensures
            r@ == self@.protocol,
    {
        self.protocol.as_str()
    }

    pub fn target(&self) -> (r: Option<&Endpoint>)
        ensures
            match r {
                Some(t) => self@.target == Some(t@),
                None => self@.target is None,
            },
    {
        match &self.target {
            Some(t) => Some(t),
            None => None,
        }
    }

    pub fn decision(&self) -> (r: ReplayDecision)
        ensures
            r == self@.decision,
    {
        self.decision
    }

    pub fn is_allowed(&self) -> (r: bool)
        ensures
            r == (self@.decision == ReplayDecision::Allowed),
    {
        self.decision == ReplayDecision::Allowed
    }

    pub fn recorded_target(&self) -> (r: &Endpoint)
        ensures
            r@ == self@.recorded_target,
    {
        &self.recorded_target
    }

    pub fn scheduled_offset(&self) -> (r: u64)
        ensures
            r == self@.scheduled_offset,
    {
        self.scheduled_offset
    }

    pub fn completeness(&self) -> (r: Completeness)
        ensures
            r == self@.completeness,
    {
        self.completeness
    }

    pub fn operation(&self) -> (r: &CanonicalOperation)
        ensures
            r@ == self@.operation,
    {
        &self.operation
    }
}

/// The number of operations over a list of connections.
pub open spec fn operation_count(cs: Seq<CanonicalConnection>) -> nat
    decreases cs.len(),
{
    if cs.len() == 0 {
        0
    } else {
        operation_count(cs.drop_last()) + cs.last().operations@.len()
    }
}

/// The target a connection maps to, and the decision that applies to all
/// its operations where the mapping itself denies replay.
pub open spec fn connection_plan(rules: Seq<TargetRule>, c: CanonicalConnection, policy: ReplayPolicy) -> (Option<EndpointView>, Option<ReplayDecision>) {
    match resolve_target(rules, c.protocol@, c.server@, c.id) {
        None => (None, Some(ReplayDecision::Denied(ReplayDenial::MissingTarget))),
        Some(t) => if policy.block_recorded_destination && t == c.server@ {
            (Some(t), Some(ReplayDecision::Denied(ReplayDenial::RecordedDestination)))
        } else {
            (Some(t), None)
        },
    }
}

/// The decision for one operation: evidence that cannot be replayed makes
/// it unsupported; then HTTP needs authorized execution, runtime
/// authorization needs the authentication gate, the connection's mapping
/// may deny it, and last the policy decides by the operation's effect.
pub open spec fn operation_decision(
    invalid_session: bool,
    connection_complete: bool,
    completeness: Completeness,
    op: OperationView,
    protocol: Seq<char>,
    policy: ReplayPolicy,
    connection_decision: Option<ReplayDecision>,
) -> ReplayDecision {
    if invalid_session || !connection_complete || completeness != Completeness::Complete
        || op.recorded_response is None || attribute_is(op.attributes, "chronicle.replayable"@, "false"@) {
        ReplayDecision::Unsupported
    } else if protocol == "http/1.1"@ && !policy.execution_authorized {
        ReplayDecision::Denied(ReplayDenial::ExecutionNotAuthorized)
    } else if attribute_is(op.attributes, "chronicle.replay.requires_runtime_authorization"@, "true"@)
        && !policy.allow_authentication {
        ReplayDecision::Denied(ReplayDenial::EffectNotAllowed(OperationEffect::Authentication))
    } else {
        match connection_decision {
            Some(d) => d,
            None => if policy_allows(policy, op.effect) {
                ReplayDecision::Allowed
            } else {
                ReplayDecision::Denied(ReplayDenial::EffectNotAllowed(op.effect))
            },
        }
    }
}

/// The planned form of one operation of connection `c`.
pub open spec fn planned_operation(
    session: CanonicalSession,
    rules: Seq<TargetRule>,
    policy: ReplayPolicy,
    timing: TimingMode,
    invalid_session: bool,
    c: CanonicalConnection,
    op: CanonicalOperation,
) -> PlannedView {
    let (target, connection_decision) = connection_plan(rules, c, policy);
    let completeness = completeness_of(session.operation_completeness@, op.id);
    let connection_complete = completeness_of(session.connection_completeness@, c.id) == Completeness::Complete;
    PlannedView {
        connection_id: c.id,
        protocol: c.protocol@,
        target,
        recorded_target: c.server@,
        decision: operation_decision(invalid_session, connection_complete, completeness, op@, c.protocol@, policy, connection_decision),
        scheduled_offset: match timing {
            TimingMode::Preserve => op.started_at_offset,
            TimingMode::Asap => 0,
        },
        completeness,
        operation: op@,
    }
}

/// The planned operations of the connections, in recorded order.
pub open spec fn planned_in_order(
    session: CanonicalSession,
    rules: Seq<TargetRule>,
    policy: ReplayPolicy,
    timing: TimingMode,
    invalid_session: bool,
    cs: Seq<CanonicalConnection>,
) -> Seq<PlannedView>
    decreases cs.len(),
{
    if cs.len() == 0 {
        Seq::empty()
    } else {
        let c = cs.last();
        planned_in_order(session, rules, policy, timing, invalid_session, cs.drop_last())
            + c.operations@.map_values(|op: CanonicalOperation| planned_operation(session, rules, policy, timing, invalid_session, c, op))
    }
}

/// Schedule order: by offset, then by operation sequence.
pub open spec fn schedule_after(a: PlannedView, b: PlannedView) -> bool {
    a.scheduled_offset > b.scheduled_offset
        || (a.scheduled_offset == b.scheduled_offset && a.operation.sequence > b.operation.sequence)
}

/// Inserts `x` after every element that is not scheduled after it.
pub open spec fn insert_scheduled(sorted: Seq<PlannedView>, x: PlannedView) -> Seq<PlannedView>
    decreases sorted.len(),
{
    if sorted.len() == 0 {
        seq![x]
    } else if schedule_after(sorted.last(), x) {
        insert_scheduled(sorted.drop_last(), x).push(sorted.last())
    } else {
        sorted.push(x)
    }
}

/// The stable sort by schedule order.
pub open spec fn schedule(s: Seq<PlannedView>) -> Seq<PlannedView>
    decreases s.len(),
{
    if s.len() == 0 {
        s
    } else {
        insert_scheduled(schedule(s.drop_last()), s.last())
    }
}

/// No planned operation is scheduled after a later one.
pub open spec fn scheduled_in_order(s: Seq<PlannedView>) -> bool {
    forall|i: int, j: int| 0 <= i < j < s.len() ==> !schedule_after(#[trigger] s[i], #[trigger] s[j])
}

/// What an allowed decision requires of a planned operation: a target that
/// is not a blocked recorded destination, complete evidence with a recorded
/// response, no replayable-false attribute, authorized execution for HTTP,
/// the authentication gate for runtime authorization, and a policy that
/// allows the operation's effect.
pub open spec fn allowed_conditions(p: PlannedView, policy: ReplayPolicy) -> bool {
    &&& p.target is Some
    &&& !(policy.block_recorded_destination && p.target == Some(p.recorded_target))
    &&& p.completeness == Completeness::Complete
    &&& p.operation.recorded_response is Some
    &&& !attribute_is(p.operation.attributes, "chronicle.replayable"@, "false"@)
    &&& (p.protocol != "http/1.1"@ || policy.execution_authorized)
    &&& (!attribute_is(p.operation.attributes, "chronicle.replay.requires_runtime_authorization"@, "true"@)
        || policy.allow_authentication)
    &&& policy_allows(policy, p.operation.effect)
}

#[verifier::spinoff_prover]
proof fn lemma_insert_scheduled(sorted: Seq<PlannedView>, x: PlannedView)
    requires
        scheduled_in_order(sorted),
    ensures
        insert_scheduled(sorted, x).to_multiset() == sorted.to_multiset().insert(x),
        insert_scheduled(sorted, x).len() == sorted.len() + 1,
        scheduled_in_order(insert_scheduled(sorted, x)),
    decreases sorted.len(),
{
    broadcast use vstd::seq_lib::group_to_multiset_ensures;
    if sorted.len() == 0 {
        assert(seq![x] =~= Seq::<PlannedView>::empty().push(x));
    } else {
        let init = sorted.drop_last();
        let last = sorted.last();
        assert(sorted =~= init.push(last));
        if schedule_after(last, x) {
            let inner = insert_scheduled(init, x);
            lemma_insert_scheduled(init, x);
            let r = inner.push(last);
            assert forall|i: int, j: int| 0 <= i < j < r.len() implies !schedule_after(#[trigger] r[i], #[trigger] r[j]) by {
                if j == r.len() - 1 {
                    assert(r[i] == inner[i]);
                    assert(inner.contains(inner[i]));
                    assert(inner.to_multiset().count(inner[i]) > 0);
                    if inner[i] != x {
                        assert(init.to_multiset().count(inner[i]) > 0);
                        assert(init.contains(inner[i]));
                        let k = choose|k: int| 0 <= k < init.len() && init[k] == inner[i];
                        assert(sorted[k] == init[k]);
                        assert(sorted[sorted.len() - 1] == last);
                    }
                }
            }
        } else {
            let r = sorted.push(x);
            assert forall|i: int, j: int| 0 <= i < j < r.len() implies !schedule_after(#[trigger] r[i], #[trigger] r[j]) by {
                if j == r.len() - 1 && i < sorted.len() - 1 {
                    assert(!schedule_after(sorted[i], sorted[sorted.len() - 1]));
                }
            }
        }
    }
}

#[verifier::spinoff_prover]
proof fn lemma_schedule(s: Seq<PlannedView>)
    ensures
        schedule(s).to_multiset() == s.to_multiset(),
        schedule(s).len() == s.len(),
        scheduled_in_order(schedule(s)),
    decreases s.len(),
{
    broadcast use vstd::seq_lib::group_to_multiset_ensures;
    if s.len() > 0 {
        lemma_schedule(s.drop_last());
        lemma_insert_scheduled(schedule(s.drop_last()), s.last());
        assert(s =~= s.drop_last().push(s.last()));
    }
}

#[verifier::spinoff_prover]
proof fn lemma_planned_in_order(
    session: CanonicalSession,
    rules: Seq<TargetRule>,
    policy: ReplayPolicy,
    timing: TimingMode,
    invalid_session: bool,
    cs: Seq<CanonicalConnection>,
)
    ensures
        planned_in_order(session, rules, policy, timing, invalid_session, cs).len() == operation_count(cs),
        forall|i: int| 0 <= i < operation_count(cs) ==> {
            let p = #[trigger] planned_in_order(session, rules, policy, timing, invalid_session, cs)[i];
            &&& timing == TimingMode::Asap ==> p.scheduled_offset == 0
            &&& p.decision == ReplayDecision::Allowed ==> allowed_conditions(p, policy)
            &&& invalid_session ==> p.decision == ReplayDecision::Unsupported
        },
    decreases cs.len(),
{
    if cs.len() > 0 {
        let init = cs.drop_last();
        let c = cs.last();
        lemma_planned_in_order(session, rules, policy, timing, invalid_session, init);
        let a = planned_in_order(session, rules, policy, timing, invalid_session, init);
        let b = c.operations@.map_values(|op: CanonicalOperation| planned_operation(session, rules, policy, timing, invalid_session, c, op));
        assert forall|i: int| 0 <= i < operation_count(cs) implies {
            let p = #[trigger] planned_in_order(session, rules, policy, timing, invalid_session, cs)[i];
            &&& timing == TimingMode::Asap ==> p.scheduled_offset == 0
            &&& p.decision == ReplayDecision::Allowed ==> allowed_conditions(p, policy)
            &&& invalid_session ==> p.decision == ReplayDecision::Unsupported
        } by {
            let whole = planned_in_order(session, rules, policy, timing, invalid_session, cs);
            assert(whole == a + b);
            if i < a.len() {
                assert(whole[i] == a[i]);
            } else {
                assert(whole[i] == b[i - a.len()]);
            }
        }
    }
}

/// A plan keeps every operation of the session, exactly once each, in
/// schedule order (by offset, then by operation sequence), also beyond the
/// replay limit, where every decision is unsupported; under ASAP timing
/// every operation is scheduled at offset zero.
#[verifier::spinoff_prover]
pub proof fn lemma_plan_keeps_every_operation(session: CanonicalSession, rules: Seq<TargetRule>, policy: ReplayPolicy, timing: TimingMode)
    ensures
        ({
            let p = replay_plan(session, rules, policy, timing);
            let invalid = operation_count(session.connections@) > MAX_REPLAY_OPERATIONS;
            &&& p.operations.len() == operation_count(session.connections@)
            &&& p.operations.to_multiset()
                == planned_in_order(session, rules, policy, timing, invalid, session.connections@).to_multiset()
            &&& scheduled_in_order(p.operations)
            &&& timing == TimingMode::Asap ==> forall|i: int| 0 <= i < p.operations.len() ==> (#[trigger] p.operations[i]).scheduled_offset == 0
            &&& invalid ==> forall|i: int| 0 <= i < p.operations.len() ==> (#[trigger] p.operations[i]).decision == ReplayDecision::Unsupported
        }),
{
    broadcast use vstd::seq_lib::group_to_multiset_ensures;
    let invalid = operation_count(session.connections@) > MAX_REPLAY_OPERATIONS;
    let all = planned_in_order(session, rules, policy, timing, invalid, session.connections@);
    lemma_planned_in_order(session, rules, policy, timing, invalid, session.connections@);
    lemma_schedule(all);
    let ops = schedule(all);
    assert forall|i: int| 0 <= i < ops.len() implies exists|k: int| 0 <= k < all.len() && all[k] == #[trigger] ops[i] by {
        assert(ops.contains(ops[i]));
        assert(all.to_multiset().count(ops[i]) > 0);
        assert(all.contains(ops[i]));
    }
    if timing == TimingMode::Asap {
        assert forall|i: int| 0 <= i < ops.len() implies (#[trigger] ops[i]).scheduled_offset == 0 by {
            let k = choose|k: int| 0 <= k < all.len() && all[k] == ops[i];
            assert(all[k].scheduled_offset == 0);
        }
    }
    if invalid {
        assert forall|i: int| 0 <= i < ops.len() implies (#[trigger] ops[i]).decision == ReplayDecision::Unsupported by {
            let k = choose|k: int| 0 <= k < all.len() && all[k] == ops[i];
            assert(all[k].decision == ReplayDecision::Unsupported);
        }
    }
}

/// An operation a plan allows meets every condition for replay: a target
/// that is not a blocked recorded destination, complete evidence with a
/// recorded response, not marked unreplayable, authorized execution for
/// HTTP, the authentication gate for runtime authorization, and a policy
/// that allows its effect.
#[verifier::spinoff_prover]
pub proof fn lemma_allowed_decision_conditions(
    session: CanonicalSession,
    rules: Seq<TargetRule>,
    policy: ReplayPolicy,
    timing: TimingMode,
    i: int,
)
    requires
        0 <= i < replay_plan(session, rules, policy, timing).operations.len(),
        replay_plan(session, rules, policy, timing).operations[i].decision == ReplayDecision::Allowed,
    ensures
        allowed_conditions(replay_plan(session, rules, policy, timing).operations[i], policy),
{
    broadcast use vstd::seq_lib::group_to_multiset_ensures;
    let invalid = operation_count(session.connections@) > MAX_REPLAY_OPERATIONS;
    let all = planned_in_order(session, rules, policy, timing, invalid, session.connections@);
    lemma_planned_in_order(session, rules, policy, timing, invalid, session.connections@);
    lemma_schedule(all);
    let ops = schedule(all);
    assert(ops.contains(ops[i]));
    assert(all.to_multiset().count(ops[i]) > 0);
    assert(all.contains(ops[i]));
    let k = choose|k: int| 0 <= k < all.len() && all[k] == ops[i];
    assert(all[k].decision == ReplayDecision::Allowed);
}

/// A replay plan.
pub struct ReplayPlan {
    timing: TimingMode,
    dry_run: bool,
    invalid_session: bool,
    operations: Vec<PlannedOperation>,
}

pub struct PlanView {
    pub timing: TimingMode,
    pub dry_run: bool,
    pub invalid_session: bool,
    pub operations: Seq<PlannedView>,
}

pub open spec fn planned_views(ops: Seq<PlannedOperation>) -> Seq<PlannedView> {
    ops.map_values(|p: PlannedOperation| p@)
}

impl View for ReplayPlan {
    type V = PlanView;

    closed spec fn view(&self) -> PlanView {
        PlanView {
            timing: self.timing,
            dry_run: self.dry_run,
            invalid_session: self.invalid_session,
            operations: planned_views(self.operations@),
        }
    }
}

/// The plan for a session: every operation of every connection with its
/// decision, in schedule order.
pub open spec fn replay_plan(session: CanonicalSession, rules: Seq<TargetRule>, policy: ReplayPolicy, timing: TimingMode) -> PlanView {
    let invalid_session = operation_count(session.connections@) > MAX_REPLAY_OPERATIONS;
    PlanView {
        timing,
        dry_run: policy.dry_run,
        invalid_session,
        operations: schedule(planned_in_order(session, rules, policy, timing, invalid_session, session.connections@)),
    }
}

proof fn lemma_count_prefix(cs: Seq<CanonicalConnection>, i: int)
    requires
        0 <= i <= cs.len(),
    ensures
        operation_count(cs.subrange(0, i)) <= operation_count(cs),
    decreases cs.len() - i,
{
    if i < cs.len() {
        lemma_count_prefix(cs, i + 1);
        assert(cs.subrange(0, i + 1).drop_last() =~= cs.subrange(0, i));
    } else {
        assert(cs.subrange(0, i) =~= cs);
    }
}

/// Whether the connections hold more operations than a replay may.
fn too_many_operations(cs: &Vec<CanonicalConnection>) -> (r: bool)
    ensures
        r == (operation_count(cs@) > MAX_REPLAY_OPERATIONS),
{
    let mut total: usize = 0;
    let mut i: usize = 0;
    while i < cs.len()
        invariant
            i <= cs@.len(),
            total == operation_count(cs@.subrange(0, i as int)),
            total <= MAX_REPLAY_OPERATIONS,
        decreases cs.len() - i,
    {
        proof {
            assert(cs@.subrange(0, i + 1).drop_last() =~= cs@.subrange(0, i as int));
        }
        let n = cs[i].operations.len();
        if n > MAX_REPLAY_OPERATIONS - total {
            proof { lemma_count_prefix(cs@, i + 1); }
            return true;
        }
        total = total + n;
        i = i + 1;
    }
    proof { assert(cs@.subrange(0, cs@.len() as int) =~= cs@); }
    false
}

proof fn lemma_insert_at(sorted: Seq<PlannedView>, x: PlannedView, j: int)
    requires
        0 <= j <= sorted.len(),
        forall|k: int| j <= k < sorted.len() ==> schedule_after(#[trigger] sorted[k], x),
        j == 0 || !schedule_after(sorted[j - 1], x),
    ensures
        insert_scheduled(sorted, x) == sorted.insert(j, x),
    decreases sorted.len() - j,
{
    if sorted.len() == 0 {
        assert(sorted.insert(j, x) =~= seq![x]);
    } else if j == sorted.len() {
        assert(sorted.insert(j, x) =~= sorted.push(x));
    } else {
        let d = sorted.drop_last();
        assert(schedule_after(sorted[sorted.len() - 1], x));
        assert forall|k: int| j <= k < d.len() implies schedule_after(#[trigger] d[k], x) by {
            assert(d[k] == sorted[k]);
        }
        if j > 0 {
            assert(d[j - 1] == sorted[j - 1]);
        }
        lemma_insert_at(d, x, j);
        assert(d.insert(j, x).push(sorted.last()) =~= sorted.insert(j, x));
    }
}

fn after(a: &PlannedOperation, b: &PlannedOperation) -> (r: bool)
    ensures
        r == schedule_after(a@, b@),
{
    a.scheduled_offset > b.scheduled_offset
        || (a.scheduled_offset == b.scheduled_offset && a.operation.sequence > b.operation.sequence)
}

/// Inserts `x` into schedule order, after the operations it does not
/// precede.
fn insert_planned(out: &mut Vec<PlannedOperation>, x: PlannedOperation)
    ensures
        planned_views(final(out)@) == insert_scheduled(planned_views(old(out)@), x@),
{
    let ghost pv = planned_views(out@);
    let mut j = out.len();
    while j > 0 && after(&out[j - 1], &x)
        invariant
            j <= out@.len(),
            pv == planned_views(out@),
            forall|k: int| j <= k < out@.len() ==> schedule_after(#[trigger] pv[k], x@),
        decreases j,
    {
        proof { assert(pv[j - 1] == out@[j - 1]@); }
        j = j - 1;
    }
    proof {
        if j > 0 {
            assert(pv[j - 1] == out@[j - 1]@);
        }
        lemma_insert_at(pv, x@, j as int);
    }
    let ghost xv = x@;
    out.insert(j, x);
    proof {
        assert(planned_views(out@) =~= pv.insert(j as int, xv));
    }
}

pub struct ReplayPlanner {}

impl ReplayPlanner {
    /// Plans the replay of a session.
    pub fn plan(
        session: &CanonicalSession,
        targets: &TargetMap,
        policy: &ReplayPolicy,
        timing: TimingMode,
    ) -> (r: Result<ReplayPlan, ReplayError>)
        ensures
            r matches Ok(plan) && plan@ == replay_plan(*session, targets.rules@, *policy, timing),
    {
        let invalid_session = too_many_operations(&session.connections);
        let ghost rules = targets.rules@;
        let ghost cs = session.connections@;
        let mut operations: Vec<PlannedOperation> = Vec::new();
        let ghost mut done: Seq<PlannedView> = Seq::empty();
        let mut ci: usize = 0;
        while ci < session.connections.len()
            invariant
                ci <= cs.len(),
                cs == session.connections@,
                rules == targets.rules@,
                invalid_session == (operation_count(cs) > MAX_REPLAY_OPERATIONS),
                done == planned_in_order(*session, rules, *policy, timing, invalid_session, cs.subrange(0, ci as int)),
                planned_views(operations@) == schedule(done),
            decreases cs.len() - ci,
        {
            let connection = &session.connections[ci];
            let ghost c = cs[ci as int];
            let (target, connection_decision) = match targets.resolve(connection.protocol.as_str(), &connection.server, connection.id) {
                None => (None, Some(ReplayDecision::Denied(ReplayDenial::MissingTarget))),
                Some(t) => {
                    if policy.block_recorded_destination && t.same(&connection.server) {
                        (Some(t.duplicate()), Some(ReplayDecision::Denied(ReplayDenial::RecordedDestination)))
                    } else {
                        (Some(t.duplicate()), None)
                    }
                },
            };
            proof {
                assert((opt_endpoint_view(target), connection_decision) == connection_plan(rules, c, *policy));
            }
            let connection_complete = session.connection_state(connection.id) == Completeness::Complete;
            let ghost start = done;
            let mut oi: usize = 0;
            while oi < connection.operations.len()
                invariant
                    oi <= c.operations@.len(),
                    ci < cs.len(),
                    c == cs[ci as int],
                    connection == &session.connections[ci as int],
                    cs == session.connections@,
                    rules == targets.rules@,
                    invalid_session == (operation_count(cs) > MAX_REPLAY_OPERATIONS),
                    (opt_endpoint_view(target), connection_decision) == connection_plan(rules, c, *policy),
                    connection_complete == (completeness_of(session.connection_completeness@, c.id) == Completeness::Complete),
                    done == start + c.operations@.subrange(0, oi as int).map_values(
                        |op: CanonicalOperation| planned_operation(*session, rules, *policy, timing, invalid_session, c, op)),
                    planned_views(operations@) == schedule(done),
                decreases c.operations@.len() - oi,
            {
                let op = &connection.operations[oi];
                let completeness = session.operation_state(op.id);
                let decision = if invalid_session || !connection_complete || completeness != Completeness::Complete
                    || op.recorded_response.is_none()
                    || attribute_equals(&op.attributes, "chronicle.replayable", "false") {
                    ReplayDecision::Unsupported
                } else if str_eq(connection.protocol.as_str(), "http/1.1") && !policy.execution_authorized {
                    ReplayDecision::Denied(ReplayDenial::ExecutionNotAuthorized)
                } else if attribute_equals(&op.attributes, "chronicle.replay.requires_runtime_authorization", "true")
                    && !policy.allow_authentication {
                    ReplayDecision::Denied(ReplayDenial::EffectNotAllowed(OperationEffect::Authentication))
                } else {
                    match connection_decision {
                        Some(d) => d,
                        None => if policy.allows(op.effect) {
                            ReplayDecision::Allowed
                        } else {
                            ReplayDecision::Denied(ReplayDenial::EffectNotAllowed(op.effect))
                        },
                    }
                };
                let target_copy = match &target {
                    Some(t) => Some(t.duplicate()),
                    None => None,
                };
                let planned = PlannedOperation {
                    connection_id: connection.id,
                    protocol: crate::text::str_copy(connection.protocol.as_str()),
                    target: target_copy,
                    recorded_target: connection.server.duplicate(),
                    decision,
                    scheduled_offset: match timing {
                        TimingMode::Preserve => op.started_at_offset,
                        TimingMode::Asap => 0,
                    },
                    completeness,
                    operation: op.duplicate(),
                };
                proof {
                    assert(planned@ == planned_operation(*session, rules, *policy, timing, invalid_session, c, c.operations@[oi as int]));
                }
                let ghost pv = planned@;
                insert_planned(&mut operations, planned);
                proof {
                    let f = |op: CanonicalOperation| planned_operation(*session, rules, *policy, timing, invalid_session, c, op);
                    assert(c.operations@.subrange(0, oi + 1).map_values(f)
                        =~= c.operations@.subrange(0, oi as int).map_values(f).push(pv));
                    assert(done.push(pv).drop_last() =~= done);
                    done = done.push(pv);
                    assert(done =~= start + c.operations@.subrange(0, oi + 1).map_values(f));
                }
                oi = oi + 1;
            }
            proof {
                let f = |op: CanonicalOperation| planned_operation(*session, rules, *policy, timing, invalid_session, c, op);
                assert(c.operations@.subrange(0, c.operations@.len() as int) =~= c.operations@);
                assert(cs.subrange(0, ci + 1).drop_last() =~= cs.subrange(0, ci as int));
                assert(cs.subrange(0, ci + 1).last() == c);
            }
            ci = ci + 1;
        }
        proof { assert(cs.subrange(0, cs.len() as int) =~= cs); }
        Ok(ReplayPlan { timing, dry_run: policy.dry_run, invalid_session, operations })
    }
}

/// Why a replay could not be planned or run.
#[derive(Clone, Debug, PartialEq, Eq)]
pub enum ReplayError {
    MissingTarget { connection_id: u128 },
    PolicyDenied { operation_id: u128, effect: OperationEffect },
    RecordedDestination { connection_id: u128 },
    DryRun,
    PreflightDenied,
    Protocol(ProtocolError),
}

#[derive(Clone, Copy, Debug, PartialEq, Eq, Structural)]
pub enum Replayability {
    FullyReplayable,
    PartiallyReplayable,
    NotReplayable,
}

pub open spec fn allowed_count(ops: Seq<PlannedView>) -> nat
    decreases ops.len(),
{
    if ops.len() == 0 {
        0
    } else {
        allowed_count(ops.drop_last()) + if ops.last().decision == ReplayDecision::Allowed { 1nat } else { 0nat }
    }
}

pub open spec fn any_denied(ops: Seq<PlannedView>) -> bool {
    exists|i: int| 0 <= i < ops.len() && #[trigger] ops[i].decision is Denied
}

/// Whether a plan may run: a valid session, something allowed, nothing
/// denied by policy.
pub open spec fn plan_executable(p: PlanView) -> bool {
    !p.invalid_session && allowed_count(p.operations) > 0 && !any_denied(p.operations)
}

pub open spec fn plan_replayability(p: PlanView) -> Replayability {
    if p.invalid_session || allowed_count(p.operations) == 0 {
        Replayability::NotReplayable
    } else if allowed_count(p.operations) == p.operations.len() {
        Replayability::FullyReplayable
    } else {
        Replayability::PartiallyReplayable
    }
}

proof fn lemma_allowed_count_bound(ops: Seq<PlannedView>)
    ensures
        allowed_count(ops) <= ops.len(),
    decreases ops.len(),
{
    if ops.len() > 0 {
        lemma_allowed_count_bound(ops.drop_last());
    }
}

proof fn lemma_allowed_positive(ops: Seq<PlannedView>, i: int)
    requires
        0 <= i < ops.len(),
        ops[i].decision == ReplayDecision::Allowed,
    ensures
        allowed_count(ops) > 0,
    decreases ops.len(),
{
    if i < ops.len() - 1 {
        lemma_allowed_positive(ops.drop_last(), i);
    }
}

proof fn lemma_allowed_zero(ops: Seq<PlannedView>)
    requires
        forall|i: int| 0 <= i < ops.len() ==> #[trigger] ops[i].decision != ReplayDecision::Allowed,
    ensures
        allowed_count(ops) == 0,
    decreases ops.len(),
{
    if ops.len() > 0 {
        let d = ops.drop_last();
        assert forall|i: int| 0 <= i < d.len() implies #[trigger] d[i].decision != ReplayDecision::Allowed by {
            assert(d[i] == ops[i]);
        }
        lemma_allowed_zero(d);
    }
}

impl ReplayPlan {
    pub fn timing(&self) -> (t: TimingMode)
        ensures
            t == self@.timing,
    {
        self.timing
    }

    pub fn is_dry_run(&self) -> (r: bool)
        ensures
            r == self@.dry_run,
    {
        self.dry_run
    }

    pub fn operations(&self) -> (r: &[PlannedOperation])
        ensures
            planned_views(r@) == self@.operations,
    {
        self.operations.as_slice()
    }

    /// True when at least one operation can execute and none is denied by
    /// policy.
    pub fn is_executable(&self) -> (r: bool)
        ensures
            r == plan_executable(self@),
    {
        !self.invalid_session && self.has_executable() && !self.has_policy_denial()
    }

    pub fn has_executable(&self) -> (r: bool)
        ensures
            r == (allowed_count(self@.operations) > 0),
    {
        let ghost pv = self@.operations;
        let mut i: usize = 0;
        while i < self.operations.len()
            invariant
                pv == planned_views(self.operations@),
                i <= self.operations@.len(),
                forall|k: int| 0 <= k < i ==> #[trigger] pv[k].decision != ReplayDecision::Allowed,
            decreases self.operations.len() - i,
        {
            proof { assert(pv[i as int] == self.operations@[i as int]@); }
            if self.operations[i].is_allowed() {
                proof { lemma_allowed_positive(pv, i as int); }
                return true;
            }
            i = i + 1;
        }
        proof { lemma_allowed_zero(pv); }
        false
    }

    pub fn has_policy_denial(&self) -> (r: bool)
        ensures
            r == any_denied(self@.operations),
    {
        let ghost pv = self@.operations;
        let mut i: usize = 0;
        while i < self.operations.len()
            invariant
                pv == planned_views(self.operations@),
                i <= self.operations@.len(),
                forall|k: int| 0 <= k < i ==> !(#[trigger] pv[k].decision is Denied),
            decreases self.operations.len() - i,
        {
            proof { assert(pv[i as int] == self.operations@[i as int]@); }
            if let ReplayDecision::Denied(_) = self.operations[i].decision() {
                return true;
            }
            i = i + 1;
        }
        false
    }

    pub fn replayability(&self) -> (r: Replayability)
        ensures
            r == plan_replayability(self@),
    {
        if self.invalid_session {
            return Replayability::NotReplayable;
        }
        let ghost pv = self@.operations;
        let mut count: usize = 0;
        let mut i: usize = 0;
        while i < self.operations.len()
            invariant
                pv == planned_views(self.operations@),
                i <= self.operations@.len(),
                count == allowed_count(pv.subrange(0, i as int)),
            decreases self.operations.len() - i,
        {
            proof {
                assert(pv.subrange(0, i + 1).drop_last() =~= pv.subrange(0, i as int));
                assert(pv[i as int] == self.operations@[i as int]@);
                lemma_allowed_count_bound(pv.subrange(0, i as int));
            }
            if self.operations[i].is_allowed() {
                count = count + 1;
            }
            i = i + 1;
        }
        proof { assert(pv.subrange(0, pv.len() as int) =~= pv); }
        if count == 0 {
            Replayability::NotReplayable
        } else if count == self.operations.len() {
            Replayability::FullyReplayable
        } else {
            Replayability::PartiallyReplayable
        }
    }
}

#[derive(Clone, Copy, Debug, PartialEq, Eq, Structural)]
pub enum ReplayOutcome {
    Completed,
    CompletedWithSkips,
    DryRun,
    StoppedPolicy,
    StoppedInvalidSession,
    StoppedTransport,
    StoppedVerification,
}

impl ReplayOutcome {
    /// The stable name of this outcome.
    pub fn as_str(self) -> (s: &'static str)
        ensures
            s@ == match self {
                ReplayOutcome::Completed => "completed"@,
                ReplayOutcome::CompletedWithSkips => "completed_with_skips"@,
                ReplayOutcome::DryRun => "dry_run"@,
                ReplayOutcome::StoppedPolicy => "stopped_policy"@,
                ReplayOutcome::StoppedInvalidSession => "stopped_invalid_session"@,
                ReplayOutcome::StoppedTransport => "stopped_transport"@,
                ReplayOutcome::StoppedVerification => "stopped_verification"@,
            },
    {
        match self {
            ReplayOutcome::Completed => "completed",
            ReplayOutcome::CompletedWithSkips => "completed_with_skips",
            ReplayOutcome::DryRun => "dry_run",
            ReplayOutcome::StoppedPolicy => "stopped_policy",
            ReplayOutcome::StoppedInvalidSession => "stopped_invalid_session",
            ReplayOutcome::StoppedTransport => "stopped_transport",
            ReplayOutcome::StoppedVerification => "stopped_verification",
        }
    }
}

#[derive(Clone, Copy, Debug, PartialEq, Eq, Structural)]
pub enum OperationExecutionState {
    Completed,
    Failed,
    NotAttempted,
}

impl OperationExecutionState {
    /// The stable name of this state.
    pub fn as_str(self) -> (s: &'static str)
        ensures
            s@ == match self {
                OperationExecutionState::Completed => "completed"@,
                OperationExecutionState::Failed => "failed"@,
                OperationExecutionState::NotAttempted => "not_attempted"@,
            },
    {
        match self {
            OperationExecutionState::Completed => "completed",
            OperationExecutionState::Failed => "failed",
            OperationExecutionState::NotAttempted => "not_attempted",
        }
    }
}

/// What replaying one operation gave.
pub struct OperationReplayResult {
    pub operation_id: u128,
    pub state: OperationExecutionState,
    pub verification: Option<VerificationResult>,
    pub transport_error: Option<TransportErrorCategory>,
}

pub struct ResultView {
    pub operation_id: u128,
    pub state: OperationExecutionState,
    pub verification: Option<VerificationView>,
    pub transport_error: Option<TransportErrorCategory>,
}

impl View for OperationReplayResult {
    type V = ResultView;

    open spec fn view(&self) -> ResultView {
        ResultView {
            operation_id: self.operation_id,
            state: self.state,
            verification: match self.verification {
                Some(v) => Some(result_view(v)),
                None => None,
            },
            transport_error: self.transport_error,
        }
    }
}

pub open spec fn results_view(rs: Seq<OperationReplayResult>) -> Seq<ResultView> {
    rs.map_values(|r: OperationReplayResult| r@)
}

/// The result of a whole replay.
pub struct ReplayExecution {
    pub outcome: ReplayOutcome,
    pub results: Vec<OperationReplayResult>,
}

/// The result of an operation that was not run, with the reason.
pub open spec fn no_run(op: PlannedView, category: Seq<char>) -> ResultView {
    ResultView {
        operation_id: op.operation.id,
        state: OperationExecutionState::NotAttempted,
        verification: Some(VerificationView {
            status: VerificationStatus::Skipped,
            summary: "verification was not run"@,
            details: seq![("category"@, category)],
        }),
        transport_error: None,
    }
}

/// The result of an operation whose transport failed.
pub open spec fn transport_failure(op: PlannedView, category: TransportErrorCategory) -> ResultView {
    ResultView {
        operation_id: op.operation.id,
        state: OperationExecutionState::Failed,
        verification: None,
        transport_error: Some(category),
    }
}

/// The state of a replay in progress.
pub struct ReplayRun {
    outcome: ReplayOutcome,
    stopped: bool,
    next: usize,
    results: Vec<OperationReplayResult>,
}

pub struct RunView {
    pub outcome: ReplayOutcome,
    pub stopped: bool,
    pub next: int,
    pub results: Seq<ResultView>,
}

impl View for ReplayRun {
    type V = RunView;

    closed spec fn view(&self) -> RunView {
        RunView { outcome: self.outcome, stopped: self.stopped, next: self.next as int, results: results_view(self.results@) }
    }
}

/// What the replay loop does next.
#[derive(Clone, Copy, Debug, PartialEq, Eq, Structural)]
pub enum ReplayAction {
    /// Every operation has a result.
    Finished,
    /// Connect to the operation's target and run the operation at this index.
    Execute(usize),
}

/// What running one operation gave.
pub enum OperationEvent {
    /// The connection or the exchange failed in transport.
    Transport(TransportErrorCategory),
    /// The exchange completed and was verified.
    Verified(VerificationResult),
}

pub open spec fn preflight(plan: PlanView) -> Option<(ReplayOutcome, Seq<char>)> {
    if plan.dry_run {
        Some((ReplayOutcome::DryRun, "dry_run"@))
    } else if !plan_executable(plan) {
        if any_denied(plan.operations) {
            Some((ReplayOutcome::StoppedPolicy, "preflight_denied"@))
        } else {
            Some((ReplayOutcome::StoppedInvalidSession, "non_executable"@))
        }
    } else {
        None
    }
}

/// The state a replay starts in: a plan that may not run is answered at
/// once, every operation not run.
pub open spec fn run_start(plan: PlanView) -> RunView {
    match preflight(plan) {
        Some((outcome, category)) => RunView {
            outcome,
            stopped: true,
            next: plan.operations.len() as int,
            results: plan.operations.map_values(|op: PlannedView| no_run(op, category)),
        },
        None => RunView { outcome: ReplayOutcome::Completed, stopped: false, next: 0, results: Seq::empty() },
    }
}

/// Advancing a replay: operations that are not allowed are skipped, those
/// after a stop are not attempted; the next allowed one runs, and one
/// without a target ends the replay with an error.
pub open spec fn run_advance(run: RunView, plan: PlanView) -> (RunView, Result<ReplayAction, ReplayError>)
    decreases plan.operations.len() - run.next,
{
    if run.next < 0 || run.next >= plan.operations.len() {
        (run, Ok(ReplayAction::Finished))
    } else {
        let op = plan.operations[run.next];
        if op.decision != ReplayDecision::Allowed {
            run_advance(RunView {
                outcome: if run.outcome == ReplayOutcome::Completed { ReplayOutcome::CompletedWithSkips } else { run.outcome },
                next: run.next + 1,
                results: run.results.push(no_run(op, "non_executable"@)),
                ..run
            }, plan)
        } else if run.stopped {
            run_advance(RunView {
                next: run.next + 1,
                results: run.results.push(no_run(op, "unattempted_after_stop"@)),
                ..run
            }, plan)
        } else if op.target is None {
            (run, Err(ReplayError::MissingTarget { connection_id: op.connection_id }))
        } else {
            (run, Ok(ReplayAction::Execute(run.next as usize)))
        }
    }
}

/// Recording what running the current operation gave: a transport failure
/// stops the replay; so does a verification that did not pass.
pub open spec fn run_record(run: RunView, plan: PlanView, event: OperationEvent) -> RunView {
    let op = plan.operations[run.next];
    match event {
        OperationEvent::Transport(category) => RunView {
            outcome: ReplayOutcome::StoppedTransport,
            stopped: true,
            next: run.next + 1,
            results: run.results.push(transport_failure(op, category)),
        },
        OperationEvent::Verified(v) => RunView {
            outcome: if v.status != VerificationStatus::Passed { ReplayOutcome::StoppedVerification } else { run.outcome },
            stopped: v.status != VerificationStatus::Passed,
            next: run.next + 1,
            results: run.results.push(ResultView {
                operation_id: op.operation.id,
                state: OperationExecutionState::Completed,
                verification: Some(result_view(v)),
                transport_error: None,
            }),
        },
    }
}

/// A verification that did not pass stops the run with outcome
/// `StoppedVerification`; a transport failure stops it with
/// `StoppedTransport`; a passed verification keeps the outcome and the run
/// going. Either way the operation gets one result and the run moves on.
pub proof fn lemma_record_stops_on_failure(run: RunView, plan: PlanView, event: OperationEvent)
    ensures
        run_record(run, plan, event).next == run.next + 1,
        run_record(run, plan, event).results.len() == run.results.len() + 1,
        match event {
            OperationEvent::Verified(v) => if v.status != VerificationStatus::Passed {
                run_record(run, plan, event).stopped && run_record(run, plan, event).outcome == ReplayOutcome::StoppedVerification
            } else {
                !run_record(run, plan, event).stopped && run_record(run, plan, event).outcome == run.outcome
            },
            OperationEvent::Transport(_) => run_record(run, plan, event).stopped
                && run_record(run, plan, event).outcome == ReplayOutcome::StoppedTransport,
        },
{
}

/// Once a run has stopped, advancing it runs no further operation: every
/// remaining operation gets a result without being attempted, and the run
/// finishes.
pub proof fn lemma_stopped_run_executes_nothing(run: RunView, plan: PlanView)
    requires
        run.stopped,
    ensures
        run_advance(run, plan).1 == Ok::<ReplayAction, ReplayError>(ReplayAction::Finished),
        run_advance(run, plan).0.stopped,
        run.next >= 0 ==> forall|i: int| run.results.len() <= i < run_advance(run, plan).0.results.len()
            ==> (#[trigger] run_advance(run, plan).0.results[i]).state == OperationExecutionState::NotAttempted,
    decreases plan.operations.len() - run.next,
{
    if run.next >= 0 && run.next < plan.operations.len() {
        let op = plan.operations[run.next];
        let next = if op.decision != ReplayDecision::Allowed {
            RunView {
                outcome: if run.outcome == ReplayOutcome::Completed { ReplayOutcome::CompletedWithSkips } else { run.outcome },
                next: run.next + 1,
                results: run.results.push(no_run(op, "non_executable"@)),
                ..run
            }
        } else {
            RunView { next: run.next + 1, results: run.results.push(no_run(op, "unattempted_after_stop"@)), ..run }
        };
        assert(run_advance(run, plan) == run_advance(next, plan));
        lemma_stopped_run_executes_nothing(next, plan);
        assert forall|i: int| run.results.len() <= i < run_advance(run, plan).0.results.len()
            implies (#[trigger] run_advance(run, plan).0.results[i]).state == OperationExecutionState::NotAttempted by {
            if i == run.results.len() {
                lemma_advance_keeps_results(next, plan, i);
                assert(next.results[i] == run_advance(next, plan).0.results[i]);
            }
        }
    }
}

/// Advancing only appends results.
proof fn lemma_advance_keeps_results(run: RunView, plan: PlanView, i: int)
    requires
        0 <= i < run.results.len(),
    ensures
        run_advance(run, plan).0.results.len() >= run.results.len(),
        run_advance(run, plan).0.results[i] == run.results[i],
    decreases plan.operations.len() - run.next,
{
    if run.next >= 0 && run.next < plan.operations.len() {
        let op = plan.operations[run.next];
        if op.decision != ReplayDecision::Allowed {
            let next = RunView {
                outcome: if run.outcome == ReplayOutcome::Completed { ReplayOutcome::CompletedWithSkips } else { run.outcome },
                next: run.next + 1,
                results: run.results.push(no_run(op, "non_executable"@)),
                ..run
            };
            lemma_advance_keeps_results(next, plan, i);
        } else if run.stopped {
            let next = RunView { next: run.next + 1, results: run.results.push(no_run(op, "unattempted_after_stop"@)), ..run };
            lemma_advance_keeps_results(next, plan, i);
        }
    }
}

/// A dry-run plan is answered before anything runs: its replay starts
/// finished with outcome `DryRun`, one result per planned operation, each
/// not attempted with its verification skipped, and advancing it asks for
/// no operation to be run.
pub proof fn lemma_dry_run_attempts_nothing(plan: PlanView)
    requires
        plan.dry_run,
    ensures
        run_start(plan).outcome == ReplayOutcome::DryRun,
        run_start(plan).results.len() == plan.operations.len(),
        forall|i: int| 0 <= i < plan.operations.len() ==> {
            &&& (#[trigger] run_start(plan).results[i]).operation_id == plan.operations[i].operation.id
            &&& run_start(plan).results[i].state == OperationExecutionState::NotAttempted
            &&& run_start(plan).results[i].verification matches Some(v) && v.status == VerificationStatus::Skipped
            &&& run_start(plan).results[i].transport_error is None
        },
        run_advance(run_start(plan), plan) == (run_start(plan), Ok::<ReplayAction, ReplayError>(ReplayAction::Finished)),
{
}

fn no_run_result(op: &PlannedOperation, category: &str) -> (r: OperationReplayResult)
    ensures
        r@ == no_run(op@, category@),
{
    let mut details: Vec<(String, String)> = Vec::new();
    details.push((crate::text::str_copy("category"), crate::text::str_copy(category)));
    let v = VerificationResult {
        status: VerificationStatus::Skipped,
        summary: crate::text::str_copy("verification was not run"),
        details,
    };
    proof {
        assert(result_view(v).details =~= seq![("category"@, category@)]);
    }
    OperationReplayResult {
        operation_id: op.operation.id,
        state: OperationExecutionState::NotAttempted,
        verification: Some(v),
        transport_error: None,
    }
}

impl ReplayRun {
    pub fn start(plan: &ReplayPlan) -> (run: Self)
        ensures
            run@ == run_start(plan@),
    {
        let category = if plan.dry_run {
            Some((ReplayOutcome::DryRun, "dry_run"))
        } else if !plan.is_executable() {
            if plan.has_policy_denial() {
                Some((ReplayOutcome::StoppedPolicy, "preflight_denied"))
            } else {
                Some((ReplayOutcome::StoppedInvalidSession, "non_executable"))
            }
        } else {
            None
        };
        match category {
            None => {
                let run = ReplayRun { outcome: ReplayOutcome::Completed, stopped: false, next: 0, results: Vec::new() };
                proof { assert(run@.results =~= Seq::<ResultView>::empty()); }
                run
            },
            Some((outcome, category)) => {
                let ghost pv = plan@.operations;
                let mut results: Vec<OperationReplayResult> = Vec::new();
                let mut i: usize = 0;
                while i < plan.operations.len()
                    invariant
                        pv == planned_views(plan.operations@),
                        i <= plan.operations@.len(),
                        results@.len() == i,
                        forall|k: int| 0 <= k < i ==> #[trigger] results@[k]@ == no_run(pv[k], category@),
                    decreases plan.operations.len() - i,
                {
                    proof { assert(pv[i as int] == plan.operations@[i as int]@); }
                    results.push(no_run_result(&plan.operations[i], category));
                    i = i + 1;
                }
                let run = ReplayRun { outcome, stopped: true, next: plan.operations.len(), results };
                proof {
                    assert(run@.results =~= pv.map_values(|op: PlannedView| no_run(op, category@)));
                }
                run
            },
        }
    }

    /// Moves past operations that are not run and says what to do next.
    pub fn advance(&mut self, plan: &ReplayPlan) -> (r: Result<ReplayAction, ReplayError>)
        ensures
            (final(self)@, r) == run_advance(old(self)@, plan@),
    {
        let ghost pv = plan@.operations;
        loop
            invariant
                pv == planned_views(plan.operations@),
                run_advance(old(self)@, plan@) == run_advance(self@, plan@),
            decreases pv.len() - self@.next,
        {
            if self.next >= plan.operations.len() {
                return Ok(ReplayAction::Finished);
            }
            let op = &plan.operations[self.next];
            proof { assert(pv[self.next as int] == op@); }
            if !op.is_allowed() {
                if self.outcome == ReplayOutcome::Completed {
                    self.outcome = ReplayOutcome::CompletedWithSkips;
                }
                let ghost before = self@;
                self.results.push(no_run_result(op, "non_executable"));
                self.next = self.next + 1;
                proof { assert(self@.results =~= before.results.push(no_run(op@, "non_executable"@))); }
            } else if self.stopped {
                let ghost before = self@;
                self.results.push(no_run_result(op, "unattempted_after_stop"));
                self.next = self.next + 1;
                proof { assert(self@.results =~= before.results.push(no_run(op@, "unattempted_after_stop"@))); }
            } else {
                match op.target() {
                    None => return Err(ReplayError::MissingTarget { connection_id: op.connection_id() }),
                    Some(_) => return Ok(ReplayAction::Execute(self.next)),
                }
            }
        }
    }

    /// Records what running the operation that `advance` chose gave.
    pub fn record(&mut self, plan: &ReplayPlan, event: OperationEvent)
        requires
            0 <= old(self)@.next < plan@.operations.len(),
        ensures
            final(self)@ == run_record(old(self)@, plan@, event),
    {
        let n = plan.operations.len();
        let op = &plan.operations[self.next];
        let ghost before = self@;
        let ghost ev = event;
        proof { assert(plan@.operations[self.next as int] == op@); }
        match event {
            OperationEvent::Transport(category) => {
                self.results.push(OperationReplayResult {
                    operation_id: op.operation.id,
                    state: OperationExecutionState::Failed,
                    verification: None,
                    transport_error: Some(category),
                });
                self.outcome = ReplayOutcome::StoppedTransport;
                self.stopped = true;
            },
            OperationEvent::Verified(v) => {
                self.stopped = v.status != VerificationStatus::Passed;
                if self.stopped {
                    self.outcome = ReplayOutcome::StoppedVerification;
                }
                self.results.push(OperationReplayResult {
                    operation_id: op.operation.id,
                    state: OperationExecutionState::Completed,
                    verification: Some(v),
                    transport_error: None,
                });
            },
        }
        self.next = self.next + 1;
        proof {
            assert(self@.results =~= run_record(before, plan@, ev).results);
        }
    }

    /// The outcome and the results so far.
    pub fn finish(self) -> (e: ReplayExecution)
        ensures
            e.outcome == self@.outcome,
            results_view(e.results@) == self@.results,
    {
        ReplayExecution { outcome: self.outcome, results: self.results }
    }
}

/// An IP address by its numeric value.
#[derive(Clone, Copy, Debug, PartialEq, Eq, Structural)]
pub enum IpAddress {
    V4(u32),
    V6(u128),
}

/// `127.0.0.0/8` and `::1`, as `IpAddr::is_loopback` defines them.
pub open spec fn is_loopback(ip: IpAddress) -> bool {
    match ip {
        IpAddress::V4(n) => n / 16777216 == 127,
        IpAddress::V6(n) => n == 1,
    }
}

pub fn ip_is_loopback(ip: IpAddress) -> (r: bool)
    ensures
        r == is_loopback(ip),
{
    match ip {
        IpAddress::V4(n) => n / 16777216 == 127,
        IpAddress::V6(n) => n == 1,
    }
}

/// A socket address: the IP, its usual text, and the port.
#[derive(Clone, Debug, PartialEq, Eq)]
pub struct SocketAddress {
    pub ip: IpAddress,
    pub ip_text: String,
    pub port: u16,
}

/// A validated loopback replay target.
#[derive(Clone, Debug, PartialEq, Eq)]
pub struct LoopbackTarget {
    endpoint: Endpoint,
    ip: IpAddress,
}

impl LoopbackTarget {
    pub closed spec fn spec_endpoint(&self) -> EndpointView {
        self.endpoint@
    }

    pub closed spec fn spec_ip(&self) -> IpAddress {
        self.ip
    }

    pub fn endpoint(&self) -> (e: &Endpoint)
        ensures
            e@ == self.spec_endpoint(),
    {
        &self.endpoint
    }

    /// The target at `address`, which must be a loopback address.
    pub fn from_address(address: &SocketAddress) -> (r: Result<LoopbackTarget, ReplayTargetError>)
        ensures
            match r {
                Ok(t) => is_loopback(address.ip) && t.spec_ip() == address.ip
                    && t.spec_endpoint() == (EndpointView { host: address.ip_text@, port: address.port }),
                Err(e) => !is_loopback(address.ip) && e == ReplayTargetError::LoopbackRequired,
            },
    {
        if !ip_is_loopback(address.ip) {
            return Err(ReplayTargetError::LoopbackRequired);
        }
        Ok(LoopbackTarget { endpoint: Endpoint::new(address.ip_text.as_str(), address.port), ip: address.ip })
    }
}

/// The authority of an `http://` origin, without one trailing `/`.
pub open spec fn origin_authority_spec(origin: Seq<char>) -> Option<Seq<char>> {
    let prefix = "http://"@;
    if origin.len() < prefix.len() || origin.subrange(0, prefix.len() as int) != prefix {
        None
    } else {
        let rest = origin.subrange(prefix.len() as int, origin.len() as int);
        if rest.len() > 0 && rest.last() == '/' { Some(rest.drop_last()) } else { Some(rest) }
    }
}

/// The authority of an `http://` origin, which the caller parses as a
/// socket address.
pub fn origin_authority(origin: &str) -> (r: Result<String, ReplayTargetError>)
    ensures
        match r {
            Ok(a) => origin_authority_spec(origin@) == Some(a@),
            Err(e) => origin_authority_spec(origin@) is None && e == ReplayTargetError::PlainHttpRequired,
        },
{
    proof { reveal_strlit("http://"); }
    if !crate::text::str_starts_with(origin, "http://") {
        return Err(ReplayTargetError::PlainHttpRequired);
    }
    let n = origin.unicode_len();
    let end = if n > 7 && origin.get_char(n - 1) == '/' { n - 1 } else { n };
    let a = origin.substring_char(7, end);
    proof {
        let rest = origin@.subrange(7, n as int);
        if n > 7 && origin@[n - 1] == '/' {
            assert(rest.drop_last() =~= origin@.subrange(7, end as int));
        } else {
            assert(rest =~= origin@.subrange(7, end as int));
        }
    }
    Ok(crate::text::str_copy(a))
}

pub open spec fn contains_ip(ips: Seq<IpAddress>, ip: IpAddress) -> bool {
    exists|i: int| 0 <= i < ips.len() && ips[i] == ip
}

/// Validation of loopback replay options: immediate timing, a target that
/// is a plain-http loopback IP origin, and allowed hosts, all IP
/// literals, among which the target's IP is. `address` is the parse of the
/// target's authority as a socket address, `allow_hosts` the parse of the
/// allowed hosts as IP addresses; `None` where a parse fails.
pub open spec fn target_validation(
    options: LoopbackReplayOptions,
    address: Option<SocketAddress>,
    allow_hosts: Option<Seq<IpAddress>>,
) -> Result<(EndpointView, IpAddress), ReplayTargetError> {
    if options.timing != TimingMode::Asap {
        Err(ReplayTargetError::ImmediateTimingRequired)
    } else if options.target is None {
        Err(ReplayTargetError::TargetRequired)
    } else if origin_authority_spec(options.target->0@) is None {
        Err(ReplayTargetError::PlainHttpRequired)
    } else if address is None {
        Err(ReplayTargetError::InvalidOrigin)
    } else if !is_loopback(address->0.ip) {
        Err(ReplayTargetError::LoopbackRequired)
    } else if allow_hosts is None {
        Err(ReplayTargetError::InvalidAllowHost)
    } else if !contains_ip(allow_hosts->0, address->0.ip) {
        Err(ReplayTargetError::AllowHostMismatch)
    } else {
        Ok((EndpointView { host: address->0.ip_text@, port: address->0.port }, address->0.ip))
    }
}

impl LoopbackReplayOptions {
    #[verifier::loop_isolation(false)]
    pub fn validate_target(
        &self,
        address: Option<&SocketAddress>,
        allow_hosts: Option<&Vec<IpAddress>>,
    ) -> (r: Result<LoopbackTarget, ReplayTargetError>)
        ensures
            match target_validation(
                *self,
                match address { Some(a) => Some(*a), None => None },
                match allow_hosts { Some(h) => Some(h@), None => None },
            ) {
                Ok((e, ip)) => r matches Ok(t) && t.spec_endpoint() == e && t.spec_ip() == ip,
                Err(err) => r == Err::<LoopbackTarget, ReplayTargetError>(err),
            },
    {
        if self.timing != TimingMode::Asap {
            return Err(ReplayTargetError::ImmediateTimingRequired);
        }
        let origin = match &self.target {
            Some(t) => t,
            None => return Err(ReplayTargetError::TargetRequired),
        };
        match origin_authority(origin.as_str()) {
            Err(e) => return Err(e),
            Ok(_) => {},
        }
        let address = match address {
            Some(a) => a,
            None => return Err(ReplayTargetError::InvalidOrigin),
        };
        let target = LoopbackTarget::from_address(address)?;
        let hosts = match allow_hosts {
            Some(h) => h,
            None => return Err(ReplayTargetError::InvalidAllowHost),
        };
        let mut i: usize = 0;
        while i < hosts.len()
            invariant
                i <= hosts@.len(),
                forall|k: int| 0 <= k < i ==> hosts@[k] != address.ip,
            decreases hosts.len() - i,
        {
            if hosts[i] == address.ip {
                assert(hosts@[i as int] == address.ip);
                return Ok(target);
            }
            i = i + 1;
        }
        Err(ReplayTargetError::AllowHostMismatch)
    }

    /// One rule per connection of the session, each sending it to `target`.
    pub fn target_map_for(&self, session: &CanonicalSession, target: &LoopbackTarget) -> (m: TargetMap)
        ensures
            m.rules@.len() == session.connections@.len(),
            forall|i: int| 0 <= i < m.rules@.len() ==> {
                let r = #[trigger] m.rules@[i];
                &&& r.protocol is None && r.host is None && r.port is None
                &&& r.connection_id == Some(session.connections@[i].id)
                &&& r.target@ == target.spec_endpoint()
            },
    {
        let mut rules: Vec<TargetRule> = Vec::new();
        let mut i: usize = 0;
        while i < session.connections.len()
            invariant
                i <= session.connections@.len(),
                rules@.len() == i,
                forall|k: int| 0 <= k < i ==> {
                    let r = #[trigger] rules@[k];
                    &&& r.protocol is None && r.host is None && r.port is None
                    &&& r.connection_id == Some(session.connections@[k].id)
                    &&& r.target@ == target.spec_endpoint()
                },
            decreases session.connections.len() - i,
        {
            rules.push(TargetRule {
                protocol: None,
                host: None,
                port: None,
                connection_id: Some(session.connections[i].id),
                target: target.endpoint().duplicate(),
            });
            i = i + 1;
        }
        TargetMap { rules }
    }
}

/// No operation is scheduled after one that follows it.
pub open spec fn in_schedule_order(s: Seq<PlannedView>) -> bool {
    forall|i: int, j: int| 0 <= i < j < s.len() ==> !schedule_after(#[trigger] s[i], #[trigger] s[j])
}

proof fn lemma_insert_keeps_order(sorted: Seq<PlannedView>, x: PlannedView)
    requires
        in_schedule_order(sorted),
    ensures
        in_schedule_order(insert_scheduled(sorted, x)),
        insert_scheduled(sorted, x).len() == sorted.len() + 1,
        insert_scheduled(sorted, x).to_multiset() == sorted.to_multiset().insert(x),
    decreases sorted.len(),
{
    broadcast use vstd::seq_lib::group_to_multiset_ensures;
    if sorted.len() == 0 {
        assert(seq![x] =~= Seq::<PlannedView>::empty().push(x));
    } else if schedule_after(sorted.last(), x) {
        let d = sorted.drop_last();
        assert(in_schedule_order(d)) by {
            assert forall|i: int, j: int| 0 <= i < j < d.len() implies !schedule_after(#[trigger] d[i], #[trigger] d[j]) by {
                assert(d[i] == sorted[i] && d[j] == sorted[j]);
            }
        }
        lemma_insert_keeps_order(d, x);
        let r = insert_scheduled(d, x);
        let out = r.push(sorted.last());
        assert forall|i: int, j: int| 0 <= i < j < out.len() implies !schedule_after(#[trigger] out[i], #[trigger] out[j]) by {
            if j == out.len() - 1 {
                assert(out[j] == sorted.last());
                if i < r.len() {
                    assert(r.to_multiset().count(r[i]) > 0);
                    assert(r.contains(r[i]));
                    assert(d.to_multiset().insert(x).count(r[i]) > 0);
                    if r[i] != x {
                        assert(d.to_multiset().count(r[i]) > 0);
                        assert(d.contains(r[i]));
                        let k = choose|k: int| 0 <= k < d.len() && d[k] == r[i];
                        assert(sorted[k] == d[k]);
                        assert(!schedule_after(sorted[k], sorted[sorted.len() - 1]));
                    }
                }
            } else {
                assert(out[i] == r[i] && out[j] == r[j]);
            }
        }
        assert(sorted =~= d.push(sorted.last()));
    } else {
        let out = sorted.push(x);
        assert forall|i: int, j: int| 0 <= i < j < out.len() implies !schedule_after(#[trigger] out[i], #[trigger] out[j]) by {
            if j == out.len() - 1 {
                assert(out[i] == sorted[i]);
                if i < sorted.len() - 1 {
                    assert(!schedule_after(sorted[i], sorted[sorted.len() - 1]));
                }
            } else {
                assert(out[i] == sorted[i] && out[j] == sorted[j]);
            }
        }
    }
}

/// A stable sort by schedule order puts the sequence in schedule order and
/// keeps each element exactly once.
pub proof fn lemma_plan_schedule(s: Seq<PlannedView>)
    ensures
        in_schedule_order(schedule(s)),
        schedule(s).to_multiset() == s.to_multiset(),
    decreases s.len(),
{
    broadcast use vstd::seq_lib::group_to_multiset_ensures;
    if s.len() > 0 {
        lemma_plan_schedule(s.drop_last());
        lemma_insert_keeps_order(schedule(s.drop_last()), s.last());
        assert(s =~= s.drop_last().push(s.last()));
    }
}

/// The default policy allows no operation, whatever its effect.
pub proof fn lemma_default_policy_denies(effect: OperationEffect)
    ensures
        !policy_allows(default_policy(), effect),
        default_policy().dry_run,
{
}

/// A plan's operations come in schedule order (by offset, then by
/// sequence) and are exactly the session's operations, each planned once.
pub proof fn lemma_replay_plan_ordered(session: CanonicalSession, rules: Seq<TargetRule>, policy: ReplayPolicy, timing: TimingMode)
    ensures
        ({
            let p = replay_plan(session, rules, policy, timing);
            &&& in_schedule_order(p.operations)
            &&& p.operations.to_multiset() == planned_in_order(session, rules, policy, timing, p.invalid_session, session.connections@).to_multiset()
        }),
{
    let invalid = operation_count(session.connections@) > MAX_REPLAY_OPERATIONS;
    lemma_plan_schedule(planned_in_order(session, rules, policy, timing, invalid, session.connections@));
}

} // verus!
