//! Grouping of reconstruction evidence into bounded connections: active
//! connections in identity order, and connections a bound finalized.
use vstd::prelude::*;
use crate::canonical::EndpointView;
use crate::ordering::{copy_event, copy_identity, copy_timestamp, events_view, identity_view, EventView, EvidenceView, IdentityView};
use crate::session::{
    classify_loss_window, derive_termination, derived_termination, loss_classification, ConnectionLossWindow,
    DerivedTermination, LossWindowClassification, ReconstructionConnection, LossWindowObserved, MonotonicTimestamp, RawLifecycleEvidence, ReconstructionConnectionIdentity, ReconstructionEvent,
    ReconstructionEvidence, ReconstructionFinalization, ReconstructionLimits, ReconstructionPushError, ReconstructionSnapshotError,
    LossInterval, ReconstructionDirection, ReconstructionInputError, TerminalPersistenceLoss,
};
use crate::text::{bytes_lt, lemma_lex_asymmetric, lemma_lex_irreflexive, lemma_lex_total, lemma_lex_transitive, lemma_utf8_injective, lex_lt, str_eq};
use vstd::utf8::encode_utf8;
use crate::streams::CaptureEventKind;

verus! {

// ---------------------------------------------------------------------------
// Identity order: fixtures before sockets; fields in declaration order,
// strings by their bytes, an absent namespace before a present one.

pub open spec fn chars_lt(a: Seq<char>, b: Seq<char>) -> bool {
    lex_lt(encode_utf8(a), encode_utf8(b))
}

pub open spec fn endpoint_lt(a: EndpointView, b: EndpointView) -> bool {
    chars_lt(a.host, b.host) || (a.host == b.host && a.port < b.port)
}

pub open spec fn namespace_lt(a: Option<u64>, b: Option<u64>) -> bool {
    match (a, b) {
        (None, Some(_)) => true,
        (Some(x), Some(y)) => x < y,
        _ => false,
    }
}

/// The order of connection identities.
pub open spec fn identity_lt(a: IdentityView, b: IdentityView) -> bool {
    match (a, b) {
        (IdentityView::Fixture { .. }, IdentityView::Socket { .. }) => true,
        (IdentityView::Socket { .. }, IdentityView::Fixture { .. }) => false,
        (IdentityView::Fixture { client: c1, server: s1 }, IdentityView::Fixture { client: c2, server: s2 }) =>
            endpoint_lt(c1, c2) || (c1 == c2 && endpoint_lt(s1, s2)),
        (IdentityView::Socket { cookie: k1, clock: c1, nanoseconds: n1, network_namespace: m1 },
         IdentityView::Socket { cookie: k2, clock: c2, nanoseconds: n2, network_namespace: m2 }) =>
            k1 < k2 || (k1 == k2 && (chars_lt(c1, c2) || (c1 == c2 && (n1 < n2 || (n1 == n2 && namespace_lt(m1, m2)))))),
    }
}

pub proof fn lemma_chars_facts(a: Seq<char>, b: Seq<char>, c: Seq<char>)
    ensures
        !chars_lt(a, a),
        chars_lt(a, b) ==> !chars_lt(b, a),
        chars_lt(a, b) && chars_lt(b, c) ==> chars_lt(a, c),
        a != b ==> chars_lt(a, b) || chars_lt(b, a),
{
    lemma_lex_irreflexive(encode_utf8(a));
    if chars_lt(a, b) {
        lemma_lex_asymmetric(encode_utf8(a), encode_utf8(b));
        if chars_lt(b, c) {
            lemma_lex_transitive(encode_utf8(a), encode_utf8(b), encode_utf8(c));
        }
    }
    if a != b {
        if encode_utf8(a) == encode_utf8(b) {
            lemma_utf8_injective(a, b);
        }
        lemma_lex_total(encode_utf8(a), encode_utf8(b));
    }
}

pub proof fn lemma_endpoint_facts(a: EndpointView, b: EndpointView, c: EndpointView)
    ensures
        !endpoint_lt(a, a),
        endpoint_lt(a, b) ==> !endpoint_lt(b, a),
        endpoint_lt(a, b) && endpoint_lt(b, c) ==> endpoint_lt(a, c),
        a != b ==> endpoint_lt(a, b) || endpoint_lt(b, a),
{
    lemma_chars_facts(a.host, b.host, c.host);
    lemma_chars_facts(b.host, a.host, c.host);
}

/// The identity order is a strict total order.
pub proof fn lemma_identity_order(a: IdentityView, b: IdentityView, c: IdentityView)
    ensures
        !identity_lt(a, a),
        identity_lt(a, b) ==> !identity_lt(b, a),
        identity_lt(a, b) && identity_lt(b, c) ==> identity_lt(a, c),
        a != b ==> identity_lt(a, b) || identity_lt(b, a),
{
    match (a, b, c) {
        (IdentityView::Fixture { client: c1, server: s1 }, IdentityView::Fixture { client: c2, server: s2 },
         IdentityView::Fixture { client: c3, server: s3 }) => {
            lemma_endpoint_facts(c1, c2, c3);
            lemma_endpoint_facts(s1, s2, s3);
            lemma_endpoint_facts(c2, c1, c3);
            lemma_endpoint_facts(s2, s1, s3);
        },
        (IdentityView::Socket { clock: c1, .. }, IdentityView::Socket { clock: c2, .. }, IdentityView::Socket { clock: c3, .. }) => {
            lemma_chars_facts(c1, c2, c3);
            lemma_chars_facts(c2, c1, c3);
        },
        (IdentityView::Fixture { client: c1, server: s1 }, IdentityView::Fixture { client: c2, server: s2 }, _) => {
            lemma_endpoint_facts(c1, c2, c2);
            lemma_endpoint_facts(s1, s2, s2);
            lemma_endpoint_facts(c2, c1, c1);
        },
        (IdentityView::Socket { clock: c1, .. }, IdentityView::Socket { clock: c2, .. }, _) => {
            lemma_chars_facts(c1, c2, c2);
            lemma_chars_facts(c2, c1, c1);
        },
        (IdentityView::Fixture { client: c1, server: s1 }, _, _) => {
            lemma_endpoint_facts(c1, c1, c1);
            lemma_endpoint_facts(s1, s1, s1);
        },
        (IdentityView::Socket { clock: c1, .. }, _, _) => {
            lemma_chars_facts(c1, c1, c1);
        },
    }
}

fn text_lt(a: &String, b: &String) -> (r: bool)
    ensures
        r == chars_lt(a@, b@),
{
    bytes_lt(a.as_str().as_bytes(), b.as_str().as_bytes())
}

fn endpoint_less(a: &crate::canonical::Endpoint, b: &crate::canonical::Endpoint) -> (r: bool)
    ensures
        r == endpoint_lt(a@, b@),
{
    text_lt(&a.host, &b.host) || (str_eq(a.host.as_str(), b.host.as_str()) && a.port < b.port)
}

fn timestamp_same(a: &MonotonicTimestamp, b: &MonotonicTimestamp) -> (r: bool)
    ensures
        r == (a.clock@ == b.clock@ && a.nanoseconds == b.nanoseconds),
{
    str_eq(a.clock.as_str(), b.clock.as_str()) && a.nanoseconds == b.nanoseconds
}

/// Whether `a` orders before `b`.
pub fn identity_less(a: &ReconstructionConnectionIdentity, b: &ReconstructionConnectionIdentity) -> (r: bool)
    ensures
        r == identity_lt(identity_view(*a), identity_view(*b)),
{
    match (a, b) {
        (ReconstructionConnectionIdentity::Fixture { .. }, ReconstructionConnectionIdentity::Socket { .. }) => true,
        (ReconstructionConnectionIdentity::Socket { .. }, ReconstructionConnectionIdentity::Fixture { .. }) => false,
        (ReconstructionConnectionIdentity::Fixture { client: c1, server: s1 },
         ReconstructionConnectionIdentity::Fixture { client: c2, server: s2 }) =>
            endpoint_less(c1, c2) || (c1.same(c2) && endpoint_less(s1, s2)),
        (ReconstructionConnectionIdentity::Socket { socket_cookie: k1, first_seen: t1, network_namespace: m1 },
         ReconstructionConnectionIdentity::Socket { socket_cookie: k2, first_seen: t2, network_namespace: m2 }) => {
            proof { lemma_chars_facts(t1.clock@, t2.clock@, t2.clock@); }
            if *k1 != *k2 {
                return *k1 < *k2;
            }
            if !str_eq(t1.clock.as_str(), t2.clock.as_str()) {
                return text_lt(&t1.clock, &t2.clock);
            }
            if t1.nanoseconds != t2.nanoseconds {
                return t1.nanoseconds < t2.nanoseconds;
            }
            match (m1, m2) {
                (None, Some(_)) => true,
                (Some(x), Some(y)) => *x < *y,
                _ => false,
            }
        },
    }
}

/// Whether two identities are the same.
pub fn identity_same(a: &ReconstructionConnectionIdentity, b: &ReconstructionConnectionIdentity) -> (r: bool)
    ensures
        r == (identity_view(*a) == identity_view(*b)),
{
    match (a, b) {
        (ReconstructionConnectionIdentity::Fixture { client: c1, server: s1 },
         ReconstructionConnectionIdentity::Fixture { client: c2, server: s2 }) => c1.same(c2) && s1.same(s2),
        (ReconstructionConnectionIdentity::Socket { socket_cookie: k1, first_seen: t1, network_namespace: m1 },
         ReconstructionConnectionIdentity::Socket { socket_cookie: k2, first_seen: t2, network_namespace: m2 }) =>
            *k1 == *k2 && timestamp_same(t1, t2) && *m1 == *m2,
        _ => false,
    }
}

// ---------------------------------------------------------------------------
// The assembler's state.

/// A connection still collecting evidence.
#[derive(Clone, Debug, PartialEq, Eq)]
pub struct ReconstructionPendingConnection {
    pub identity: ReconstructionConnectionIdentity,
    pub events: Vec<ReconstructionEvent>,
}

/// A connection a reconstruction bound finalized.
#[derive(Clone, Debug, PartialEq, Eq)]
pub struct ReconstructionFinalizedConnection {
    pub identity: ReconstructionConnectionIdentity,
    pub events: Vec<ReconstructionEvent>,
    pub finalization: ReconstructionFinalization,
}

pub struct ConnectionView {
    pub identity: IdentityView,
    pub events: Seq<EventView>,
}

pub struct FinalizedView {
    pub identity: IdentityView,
    pub events: Seq<EventView>,
    pub finalization: ReconstructionFinalization,
}

impl View for ReconstructionPendingConnection {
    type V = ConnectionView;

    open spec fn view(&self) -> ConnectionView {
        ConnectionView { identity: identity_view(self.identity), events: events_view(self.events@) }
    }
}

impl View for ReconstructionFinalizedConnection {
    type V = FinalizedView;

    open spec fn view(&self) -> FinalizedView {
        FinalizedView { identity: identity_view(self.identity), events: events_view(self.events@), finalization: self.finalization }
    }
}

pub open spec fn pending_view(s: Seq<ReconstructionPendingConnection>) -> Seq<ConnectionView> {
    s.map_values(|c: ReconstructionPendingConnection| c@)
}

pub open spec fn finalized_view(s: Seq<ReconstructionFinalizedConnection>) -> Seq<FinalizedView> {
    s.map_values(|c: ReconstructionFinalizedConnection| c@)
}

/// The mathematical content of a loss window.
pub struct LossWindowView {
    pub start_clock: Seq<char>,
    pub start_nanoseconds: u64,
    pub end_clock: Seq<char>,
    pub end_nanoseconds: u64,
    pub drop_delta: Option<u64>,
    pub ambiguity_reason: Option<Seq<char>>,
}

impl View for LossWindowObserved {
    type V = LossWindowView;

    open spec fn view(&self) -> LossWindowView {
        LossWindowView {
            start_clock: self.start.clock@,
            start_nanoseconds: self.start.nanoseconds,
            end_clock: self.end.clock@,
            end_nanoseconds: self.end.nanoseconds,
            drop_delta: self.drop_delta,
            ambiguity_reason: match self.ambiguity_reason { Some(r) => Some(r@), None => None },
        }
    }
}

/// The mathematical content of a terminal WAL loss: its interval's ends.
pub struct TerminalLossView {
    pub start_clock: Seq<char>,
    pub start_nanoseconds: u64,
    pub end_clock: Seq<char>,
    pub end_nanoseconds: u64,
}

impl View for TerminalPersistenceLoss {
    type V = TerminalLossView;

    open spec fn view(&self) -> TerminalLossView {
        TerminalLossView {
            start_clock: self.interval.start.clock@,
            start_nanoseconds: self.interval.start.nanoseconds,
            end_clock: self.interval.end.clock@,
            end_nanoseconds: self.interval.end.nanoseconds,
        }
    }
}

pub open spec fn windows_view(s: Seq<LossWindowObserved>) -> Seq<LossWindowView> {
    s.map_values(|w: LossWindowObserved| w@)
}

pub open spec fn losses_view(s: Seq<TerminalPersistenceLoss>) -> Seq<TerminalLossView> {
    s.map_values(|l: TerminalPersistenceLoss| l@)
}

/// The mathematical content of an assembler.
pub struct AssemblerView {
    pub limits: ReconstructionLimits,
    pub active: Seq<ConnectionView>,
    pub finalized: Seq<FinalizedView>,
    pub loss_windows: Seq<LossWindowObserved>,
    pub terminal_wal_losses: Seq<TerminalPersistenceLoss>,
}

/// Input to reconstruction: an event, or capture or persistence loss.
#[derive(Clone, Debug, PartialEq, Eq)]
pub enum ReconstructionInput {
    Event(ReconstructionEvent),
    LossWindow(LossWindowObserved),
    TerminalWalLoss(TerminalPersistenceLoss),
}

/// Groups reconstruction evidence into connections under limits: active
/// connections in identity order, and those a bound finalized in the order
/// they were finalized.
pub struct ReconstructionAssembler {
    limits: ReconstructionLimits,
    connections: Vec<ReconstructionPendingConnection>,
    finalized: Vec<ReconstructionFinalizedConnection>,
    loss_windows: Vec<LossWindowObserved>,
    terminal_wal_losses: Vec<TerminalPersistenceLoss>,
}

impl View for ReconstructionAssembler {
    type V = AssemblerView;

    closed spec fn view(&self) -> AssemblerView {
        AssemblerView {
            limits: self.limits,
            active: pending_view(self.connections@),
            finalized: finalized_view(self.finalized@),
            loss_windows: self.loss_windows@,
            terminal_wal_losses: self.terminal_wal_losses@,
        }
    }
}

pub open spec fn is_payload(e: EventView) -> bool {
    e.evidence is Payload
}

pub open spec fn payload_len(e: EventView) -> nat {
    match e.evidence {
        EvidenceView::Payload(p) => p.bytes.len(),
        EvidenceView::Lifecycle(_) => 0,
    }
}

/// The number of payload events.
pub open spec fn payload_count(es: Seq<EventView>) -> nat
    decreases es.len(),
{
    if es.len() == 0 { 0 } else { payload_count(es.drop_last()) + if is_payload(es.last()) { 1nat } else { 0nat } }
}

/// The number of payload bytes.
pub open spec fn payload_total(es: Seq<EventView>) -> nat
    decreases es.len(),
{
    if es.len() == 0 { 0 } else { payload_total(es.drop_last()) + payload_len(es.last()) }
}

/// A count saturated at `usize::MAX`.
pub open spec fn saturated(n: nat) -> nat {
    if n > usize::MAX { usize::MAX as nat } else { n }
}

/// Every event belongs to the connection `identity`.
pub open spec fn consistent(identity: IdentityView, es: Seq<EventView>) -> bool {
    forall|i: int| 0 <= i < es.len() ==> (#[trigger] es[i]).connection == identity
}

/// A connection's payload within the limits on chunks and (saturated) bytes.
pub open spec fn within_limits(es: Seq<EventView>, limits: ReconstructionLimits) -> bool {
    payload_count(es) <= limits.max_chunks_per_connection && saturated(payload_total(es)) <= limits.max_bytes_per_connection
}

pub open spec fn sorted_active(active: Seq<ConnectionView>) -> bool {
    forall|i: int, j: int| 0 <= i < j < active.len() ==> identity_lt(#[trigger] active[i].identity, #[trigger] active[j].identity)
}

/// The assembler's invariant: active connections in strict identity order
/// and no more of them than the limit; every connection, active or
/// finalized, consistent and within the per-connection limits.
pub open spec fn assembler_wf(v: AssemblerView) -> bool {
    &&& sorted_active(v.active)
    &&& v.active.len() <= v.limits.max_active_connections
    &&& forall|i: int| 0 <= i < v.active.len() ==> consistent(v.active[i].identity, #[trigger] v.active[i].events)
        && within_limits(v.active[i].events, v.limits)
    &&& forall|i: int| 0 <= i < v.finalized.len() ==> consistent(v.finalized[i].identity, #[trigger] v.finalized[i].events)
        && within_limits(v.finalized[i].events, v.limits)
}

/// An active connection whose last event is on `clock` at least `idle`
/// nanoseconds before `nanoseconds` has gone idle.
pub open spec fn gone_idle(c: ConnectionView, clock: Seq<char>, nanoseconds: u64, idle: u64) -> bool {
    c.events.len() > 0 && c.events.last().clock == clock
        && (if nanoseconds >= c.events.last().nanoseconds { nanoseconds - c.events.last().nanoseconds } else { 0 }) >= idle
}

pub open spec fn still_active(active: Seq<ConnectionView>, clock: Seq<char>, nanoseconds: u64, idle: u64) -> Seq<ConnectionView>
    decreases active.len(),
{
    if active.len() == 0 {
        Seq::empty()
    } else if gone_idle(active.last(), clock, nanoseconds, idle) {
        still_active(active.drop_last(), clock, nanoseconds, idle)
    } else {
        still_active(active.drop_last(), clock, nanoseconds, idle).push(active.last())
    }
}

pub open spec fn idle_finalized(active: Seq<ConnectionView>, clock: Seq<char>, nanoseconds: u64, idle: u64) -> Seq<FinalizedView>
    decreases active.len(),
{
    if active.len() == 0 {
        Seq::empty()
    } else if gone_idle(active.last(), clock, nanoseconds, idle) {
        idle_finalized(active.drop_last(), clock, nanoseconds, idle).push(FinalizedView {
            identity: active.last().identity,
            events: active.last().events,
            finalization: ReconstructionFinalization::Idle,
        })
    } else {
        idle_finalized(active.drop_last(), clock, nanoseconds, idle)
    }
}

/// The state after connections idle at a timestamp were finalized, in
/// identity order.
pub open spec fn after_idle(v: AssemblerView, clock: Seq<char>, nanoseconds: u64) -> AssemblerView {
    AssemblerView {
        active: still_active(v.active, clock, nanoseconds, v.limits.idle_nanoseconds),
        finalized: v.finalized + idle_finalized(v.active, clock, nanoseconds, v.limits.idle_nanoseconds),
        ..v
    }
}

proof fn lemma_still_active_subseq(active: Seq<ConnectionView>, clock: Seq<char>, nanoseconds: u64, idle: u64)
    ensures
        still_active(active, clock, nanoseconds, idle).len() <= active.len(),
        forall|i: int| 0 <= i < still_active(active, clock, nanoseconds, idle).len() ==>
            exists|j: int| 0 <= j < active.len() && #[trigger] still_active(active, clock, nanoseconds, idle)[i] == active[j],
        forall|i: int| 0 <= i < idle_finalized(active, clock, nanoseconds, idle).len() ==>
            exists|j: int| 0 <= j < active.len() && (#[trigger] idle_finalized(active, clock, nanoseconds, idle)[i]).identity == active[j].identity
                && idle_finalized(active, clock, nanoseconds, idle)[i].events == active[j].events,
        sorted_active(active) ==> sorted_active(still_active(active, clock, nanoseconds, idle)),
    decreases active.len(),
{
    if active.len() > 0 {
        let rest = active.drop_last();
        lemma_still_active_subseq(rest, clock, nanoseconds, idle);
        let k = still_active(active, clock, nanoseconds, idle);
        let kr = still_active(rest, clock, nanoseconds, idle);
        assert forall|i: int| 0 <= i < k.len() implies exists|j: int| 0 <= j < active.len() && #[trigger] k[i] == active[j] by {
            if i < kr.len() {
                let j = choose|j: int| 0 <= j < rest.len() && kr[i] == rest[j];
                assert(k[i] == active[j]);
            } else {
                assert(k[i] == active[active.len() - 1]);
            }
        }
        let f = idle_finalized(active, clock, nanoseconds, idle);
        let fr = idle_finalized(rest, clock, nanoseconds, idle);
        assert forall|i: int| 0 <= i < f.len() implies exists|j: int| 0 <= j < active.len() && (#[trigger] f[i]).identity == active[j].identity
            && f[i].events == active[j].events by {
            if i < fr.len() {
                let j = choose|j: int| 0 <= j < rest.len() && fr[i].identity == rest[j].identity && fr[i].events == rest[j].events;
                assert(f[i] == fr[i]);
                assert(rest[j] == active[j]);
            } else {
                assert(f[i].identity == active[active.len() - 1].identity);
            }
        }
        if sorted_active(active) {
            assert(sorted_active(rest));
            if !gone_idle(active.last(), clock, nanoseconds, idle) {
                assert forall|i: int, j: int| 0 <= i < j < k.len() implies identity_lt(#[trigger] k[i].identity, #[trigger] k[j].identity) by {
                    if j == k.len() - 1 {
                        let a = choose|a: int| 0 <= a < rest.len() && kr[i] == rest[a];
                        assert(k[i] == rest[a]);
                        assert(active[a] == rest[a]);
                        assert(k[j] == active[active.len() - 1]);
                    } else {
                        assert(k[i] == kr[i] && k[j] == kr[j]);
                    }
                }
            }
        }
    }
}

impl Default for ReconstructionAssembler {
    /// An empty assembler with the default limits.
    fn default() -> (a: Self)
        ensures
            a.wf(),
            a@.limits.max_active_connections == 1024,
            a@.limits.max_bytes_per_connection == 8388608,
            a@.limits.max_chunks_per_connection == 65536,
            a@.limits.idle_nanoseconds == 300000000000,
            a@.active.len() == 0,
            a@.finalized.len() == 0,
            a@.loss_windows.len() == 0,
            a@.terminal_wal_losses.len() == 0,
    {
        Self::new(ReconstructionLimits::default())
    }
}

impl ReconstructionAssembler {
    pub open spec fn wf(&self) -> bool {
        assembler_wf(self@)
    }

    /// An empty assembler with `limits`.
    pub fn new(limits: ReconstructionLimits) -> (a: Self)
        ensures
            a.wf(),
            a@.limits == limits,
            a@.active.len() == 0,
            a@.finalized.len() == 0,
            a@.loss_windows.len() == 0,
            a@.terminal_wal_losses.len() == 0,
    {
        let a = ReconstructionAssembler {
            limits,
            connections: Vec::new(),
            finalized: Vec::new(),
            loss_windows: Vec::new(),
            terminal_wal_losses: Vec::new(),
        };
        proof {
            assert(pending_view(a.connections@) =~= Seq::<ConnectionView>::empty());
            assert(finalized_view(a.finalized@) =~= Seq::<FinalizedView>::empty());
        }
        a
    }

    /// Finalizes, in identity order, the active connections that have gone
    /// idle at `timestamp`.
    fn finalize_idle(&mut self, timestamp: &MonotonicTimestamp)
        requires
            old(self).wf(),
        ensures
            final(self).wf(),
            final(self)@ == after_idle(old(self)@, timestamp.clock@, timestamp.nanoseconds),
    {
        let ghost before = self@;
        let idle = self.limits.idle_nanoseconds;
        let mut rest: Vec<ReconstructionPendingConnection> = Vec::new();
        std::mem::swap(&mut rest, &mut self.connections);
        let ghost all = rest@;
        let mut kept: Vec<ReconstructionPendingConnection> = Vec::new();
        let mut i: usize = 0;
        proof {
            assert(all.skip(0) =~= all);
            assert(pending_view(all.take(0)) =~= Seq::<ConnectionView>::empty());
            assert(pending_view(kept@) =~= still_active(pending_view(all.take(0)), timestamp.clock@, timestamp.nanoseconds, idle));
            assert(finalized_view(self.finalized@) =~= before.finalized + idle_finalized(pending_view(all.take(0)), timestamp.clock@, timestamp.nanoseconds, idle));
        }
        while rest.len() > 0
            invariant
                i <= all.len(),
                i + rest@.len() == all.len(),
                all.len() <= usize::MAX,
                rest@ == all.skip(i as int),
                idle == before.limits.idle_nanoseconds,
                self.limits == before.limits,
                pending_view(all) == before.active,
                pending_view(kept@) == still_active(pending_view(all.take(i as int)), timestamp.clock@, timestamp.nanoseconds, idle),
                finalized_view(self.finalized@) == before.finalized + idle_finalized(pending_view(all.take(i as int)), timestamp.clock@, timestamp.nanoseconds, idle),
                self.loss_windows@ == before.loss_windows,
                self.terminal_wal_losses@ == before.terminal_wal_losses,
            decreases rest.len(),
        {
            let c = rest.remove(0);
            proof {
                assert(c == all[i as int]);
                assert(rest@ =~= all.skip(i + 1));
                assert(pending_view(all.take(i + 1)).drop_last() =~= pending_view(all.take(i as int)));
                assert(pending_view(all.take(i + 1)).last() == c@);
            }
            let expired = match c.events.last() {
                Some(e) => str_eq(e.timestamp.clock.as_str(), timestamp.clock.as_str())
                    && timestamp.nanoseconds.saturating_sub(e.timestamp.nanoseconds) >= idle,
                None => false,
            };
            proof {
                if c.events@.len() > 0 {
                    assert(c@.events.last() == c.events@.last()@);
                }
                assert(expired == gone_idle(c@, timestamp.clock@, timestamp.nanoseconds, idle));
            }
            if expired {
                let ghost fb = finalized_view(self.finalized@);
                self.finalized.push(ReconstructionFinalizedConnection {
                    identity: c.identity,
                    events: c.events,
                    finalization: ReconstructionFinalization::Idle,
                });
                proof {
                    assert(finalized_view(self.finalized@) =~= fb.push(FinalizedView { identity: c@.identity, events: c@.events, finalization: ReconstructionFinalization::Idle }));
                }
            } else {
                let ghost kb = pending_view(kept@);
                kept.push(c);
                proof {
                    assert(pending_view(kept@) =~= kb.push(c@));
                }
            }
            i = i + 1;
        }
        proof {
            assert(all.take(i as int) =~= all);
            lemma_still_active_subseq(before.active, timestamp.clock@, timestamp.nanoseconds, idle);
        }
        self.connections = kept;
        proof {
            let after = after_idle(before, timestamp.clock@, timestamp.nanoseconds);
            assert(self@.active == after.active);
            assert(self@.finalized == after.finalized);
            assert(self@ == after);
            let f = idle_finalized(before.active, timestamp.clock@, timestamp.nanoseconds, idle);
            assert forall|k: int| 0 <= k < self@.active.len() implies consistent(self@.active[k].identity, #[trigger] self@.active[k].events)
                && within_limits(self@.active[k].events, self@.limits) by {
                let j = choose|j: int| 0 <= j < before.active.len() && self@.active[k] == before.active[j];
                assert(consistent(before.active[j].identity, before.active[j].events));
            }
            assert forall|k: int| 0 <= k < self@.finalized.len() implies consistent(self@.finalized[k].identity, #[trigger] self@.finalized[k].events)
                && within_limits(self@.finalized[k].events, self@.limits) by {
                if k >= before.finalized.len() {
                    let m = k - before.finalized.len();
                    assert(self@.finalized[k] == f[m]);
                    let j = choose|j: int| 0 <= j < before.active.len() && (#[trigger] f[m]).identity == before.active[j].identity
                        && f[m].events == before.active[j].events;
                    assert(consistent(before.active[j].identity, before.active[j].events));
                } else {
                    assert(self@.finalized[k] == before.finalized[k]);
                }
            }
        }
    }
}

/// The position of the active connection `id`, or -1 when there is none.
pub open spec fn active_position(active: Seq<ConnectionView>, id: IdentityView) -> int {
    if exists|i: int| 0 <= i < active.len() && active[i].identity == id {
        choose|i: int| 0 <= i < active.len() && active[i].identity == id
    } else {
        -1
    }
}

/// The number of active connections ordered before `id`.
pub open spec fn ordered_before(active: Seq<ConnectionView>, id: IdentityView) -> nat
    decreases active.len(),
{
    if active.len() == 0 {
        0
    } else {
        ordered_before(active.drop_last(), id) + if identity_lt(active.last().identity, id) { 1nat } else { 0nat }
    }
}

/// The lifecycle evidence put before a connection's first payload when
/// its opening was not seen.
pub open spec fn missing_open(e: EventView) -> EventView {
    EventView {
        connection: e.connection,
        wal_sequence: e.wal_sequence,
        clock: e.clock,
        nanoseconds: e.nanoseconds,
        socket_role: None,
        evidence: EvidenceView::Lifecycle(RawLifecycleEvidence::MissingOpen),
    }
}

/// A connection's events after `e` joins them.
pub open spec fn appended(es: Seq<EventView>, e: EventView) -> Seq<EventView> {
    if es.len() == 0 && is_payload(e) { seq![missing_open(e), e] } else { es.push(e) }
}

/// The bound that `e` would take a connection with events `es` over.
pub open spec fn bound_reached(es: Seq<EventView>, e: EventView, limits: ReconstructionLimits) -> Option<ReconstructionFinalization> {
    if is_payload(e) && payload_count(es) >= limits.max_chunks_per_connection {
        Some(ReconstructionFinalization::ChunkLimit)
    } else if saturated(payload_total(es) + payload_len(e)) > limits.max_bytes_per_connection {
        Some(ReconstructionFinalization::ByteLimit)
    } else {
        None
    }
}

/// The state and result after an event: idle connections are finalized
/// first; a new connection beyond the active limit is refused; a
/// connection the event would take over a bound is finalized without it;
/// else the event joins its connection, which is created in identity order
/// when new.
pub open spec fn event_pushed(v: AssemblerView, e: EventView) -> (AssemblerView, Result<(), ReconstructionPushError>) {
    let w = after_idle(v, e.clock, e.nanoseconds);
    let pos = active_position(w.active, e.connection);
    if pos < 0 && w.active.len() >= w.limits.max_active_connections {
        (w, Err(ReconstructionPushError::ActiveConnectionLimit { limit: w.limits.max_active_connections }))
    } else {
        let es = if pos >= 0 { w.active[pos].events } else { Seq::empty() };
        match bound_reached(es, e, w.limits) {
            Some(reason) => (AssemblerView {
                active: if pos >= 0 { w.active.remove(pos) } else { w.active },
                finalized: w.finalized.push(FinalizedView { identity: e.connection, events: es, finalization: reason }),
                ..w
            }, Ok(())),
            None => (AssemblerView {
                active: if pos >= 0 {
                    w.active.update(pos, ConnectionView { identity: e.connection, events: appended(es, e) })
                } else {
                    w.active.insert(ordered_before(w.active, e.connection) as int, ConnectionView { identity: e.connection, events: appended(es, e) })
                },
                ..w
            }, Ok(())),
        }
    }
}

proof fn lemma_payload_push(es: Seq<EventView>, e: EventView)
    ensures
        payload_count(es.push(e)) == payload_count(es) + if is_payload(e) { 1nat } else { 0nat },
        payload_total(es.push(e)) == payload_total(es) + payload_len(e),
{
    assert(es.push(e).drop_last() =~= es);
}

proof fn lemma_appended(es: Seq<EventView>, e: EventView)
    ensures
        payload_count(appended(es, e)) == payload_count(es) + if is_payload(e) { 1nat } else { 0nat },
        payload_total(appended(es, e)) == payload_total(es) + payload_len(e),
        consistent(e.connection, es) ==> consistent(e.connection, appended(es, e)),
{
    lemma_payload_push(es, e);
    if es.len() == 0 && is_payload(e) {
        let m = missing_open(e);
        lemma_payload_push(Seq::empty(), m);
        assert(seq![m, e] =~= Seq::<EventView>::empty().push(m).push(e));
        lemma_payload_push(Seq::empty().push(m), e);
    }
    if consistent(e.connection, es) {
        let a = appended(es, e);
        assert forall|i: int| 0 <= i < a.len() implies (#[trigger] a[i]).connection == e.connection by {
            if !(es.len() == 0 && is_payload(e)) && i < es.len() {
                assert(a[i] == es[i]);
            }
        }
    }
}

proof fn lemma_sorted_distinct(active: Seq<ConnectionView>, i: int, j: int)
    requires
        sorted_active(active),
        0 <= i < active.len(),
        0 <= j < active.len(),
        active[i].identity == active[j].identity,
    ensures
        i == j,
{
    if i < j {
        lemma_identity_order(active[i].identity, active[j].identity, active[j].identity);
    } else if j < i {
        lemma_identity_order(active[j].identity, active[i].identity, active[i].identity);
    }
}

proof fn lemma_ordered_before(active: Seq<ConnectionView>, id: IdentityView)
    requires
        sorted_active(active),
        forall|i: int| 0 <= i < active.len() ==> (#[trigger] active[i]).identity != id,
    ensures
        ordered_before(active, id) <= active.len(),
        forall|i: int| 0 <= i < ordered_before(active, id) ==> identity_lt(#[trigger] active[i].identity, id),
        forall|i: int| ordered_before(active, id) <= i < active.len() ==> identity_lt(id, #[trigger] active[i].identity),
    decreases active.len(),
{
    if active.len() > 0 {
        let rest = active.drop_last();
        let n = active.len() - 1;
        assert(sorted_active(rest));
        assert forall|i: int| 0 <= i < rest.len() implies (#[trigger] rest[i]).identity != id by {
            assert(rest[i] == active[i]);
        }
        lemma_ordered_before(rest, id);
        let ob = ordered_before(rest, id);
        lemma_identity_order(active[n].identity, id, id);
        if identity_lt(active[n].identity, id) {
            assert forall|i: int| 0 <= i < ordered_before(active, id) implies identity_lt(#[trigger] active[i].identity, id) by {
                if i < n {
                    if ob <= i {
                        assert(identity_lt(id, rest[i].identity));
                        assert(identity_lt(active[i].identity, active[n].identity));
                        lemma_identity_order(id, active[i].identity, active[n].identity);
                        lemma_identity_order(id, active[n].identity, id);
                    }
                    assert(rest[i] == active[i]);
                }
            }
            assert(ob == n) by {
                if ob < n {
                    assert(identity_lt(id, rest[ob as int].identity));
                    assert(identity_lt(active[ob as int].identity, active[n].identity));
                    lemma_identity_order(id, active[ob as int].identity, active[n].identity);
                    lemma_identity_order(id, active[n].identity, id);
                }
            }
        } else {
            assert(identity_lt(id, active[n].identity));
            assert forall|i: int| 0 <= i < ordered_before(active, id) implies identity_lt(#[trigger] active[i].identity, id) by {
                assert(rest[i] == active[i]);
            }
            assert forall|i: int| ordered_before(active, id) <= i < active.len() implies identity_lt(id, #[trigger] active[i].identity) by {
                if i < n {
                    assert(rest[i] == active[i]);
                }
            }
        }
    }
}

/// A copy of `e`'s placement with lifecycle evidence that the connection's
/// opening was not seen.
fn missing_open_event(e: &ReconstructionEvent) -> (m: ReconstructionEvent)
    ensures
        m@ == missing_open(e@),
{
    ReconstructionEvent {
        connection: copy_identity(&e.connection),
        wal_sequence: e.wal_sequence,
        timestamp: copy_timestamp(&e.timestamp),
        socket_role: None,
        evidence: ReconstructionEvidence::Lifecycle(RawLifecycleEvidence::MissingOpen),
    }
}

/// The number of payload events and their (saturated) byte total.
fn payload_counts(events: &Vec<ReconstructionEvent>) -> (r: (usize, usize))
    ensures
        r.0 == payload_count(events_view(events@)),
        r.1 == saturated(payload_total(events_view(events@))),
{
    let ghost v = events_view(events@);
    let mut count: usize = 0;
    let mut total: usize = 0;
    let mut i: usize = 0;
    while i < events.len()
        invariant
            v == events_view(events@),
            i <= events@.len(),
            count <= i,
            count == payload_count(v.take(i as int)),
            total == saturated(payload_total(v.take(i as int))),
        decreases events.len() - i,
    {
        proof {
            assert(v.take(i + 1) =~= v.take(i as int).push(v[i as int]));
            lemma_payload_push(v.take(i as int), v[i as int]);
            assert(v[i as int] == events@[i as int]@);
        }
        match &events[i].evidence {
            ReconstructionEvidence::Payload(p) => {
                count = count + 1;
                total = total.saturating_add(p.bytes.len());
            },
            ReconstructionEvidence::Lifecycle(_) => {},
        }
        i = i + 1;
    }
    proof { assert(v.take(events@.len() as int) =~= v); }
    (count, total)
}

impl ReconstructionAssembler {
    /// The position of the active connection `id`.
    fn find_active(&self, id: &ReconstructionConnectionIdentity) -> (r: Option<usize>)
        requires
            self.wf(),
        ensures
            match r {
                Some(i) => i < self@.active.len() && i == active_position(self@.active, identity_view(*id)),
                None => active_position(self@.active, identity_view(*id)) == -1
                    && forall|i: int| 0 <= i < self@.active.len() ==> (#[trigger] self@.active[i]).identity != identity_view(*id),
            },
    {
        let ghost a = self@.active;
        let mut i: usize = 0;
        while i < self.connections.len()
            invariant
                self.wf(),
                a == self@.active,
                i <= a.len(),
                forall|k: int| 0 <= k < i ==> (#[trigger] a[k]).identity != identity_view(*id),
            decreases self.connections.len() - i,
        {
            assert(a[i as int] == self.connections@[i as int]@);
            if identity_same(&self.connections[i].identity, id) {
                proof {
                    let j = choose|j: int| 0 <= j < a.len() && a[j].identity == identity_view(*id);
                    lemma_sorted_distinct(a, i as int, j);
                }
                return Some(i);
            }
            i = i + 1;
        }
        None
    }

    /// The number of active connections ordered before `id`.
    fn lower_bound(&self, id: &ReconstructionConnectionIdentity) -> (r: usize)
        ensures
            r == ordered_before(self@.active, identity_view(*id)),
    {
        let ghost a = self@.active;
        let mut n: usize = 0;
        let mut i: usize = 0;
        while i < self.connections.len()
            invariant
                a == self@.active,
                i <= a.len(),
                n <= i,
                n == ordered_before(a.take(i as int), identity_view(*id)),
            decreases self.connections.len() - i,
        {
            proof {
                assert(a.take(i + 1).drop_last() =~= a.take(i as int));
                assert(a[i as int] == self.connections@[i as int]@);
            }
            if identity_less(&self.connections[i].identity, id) {
                n = n + 1;
            }
            i = i + 1;
        }
        proof { assert(a.take(a.len() as int) =~= a); }
        n
    }

    /// Adds an input: an event joins its connection (see `event_pushed`);
    /// loss windows and terminal WAL losses are kept in arrival order.
    pub fn push(&mut self, input: ReconstructionInput) -> (r: Result<(), ReconstructionPushError>)
        requires
            old(self).wf(),
        ensures
            final(self).wf(),
            match input {
                ReconstructionInput::Event(e) => (final(self)@, r) == event_pushed(old(self)@, e@),
                ReconstructionInput::LossWindow(w) => r is Ok
                    && final(self)@ == (AssemblerView { loss_windows: old(self)@.loss_windows.push(w), ..old(self)@ }),
                ReconstructionInput::TerminalWalLoss(l) => r is Ok
                    && final(self)@ == (AssemblerView { terminal_wal_losses: old(self)@.terminal_wal_losses.push(l), ..old(self)@ }),
            },
    {
        match input {
            ReconstructionInput::Event(event) => self.push_event(event),
            ReconstructionInput::LossWindow(window) => {
                self.loss_windows.push(window);
                Ok(())
            },
            ReconstructionInput::TerminalWalLoss(loss) => {
                self.terminal_wal_losses.push(loss);
                Ok(())
            },
        }
    }

    #[verifier::rlimit(40)]
    fn push_event(&mut self, event: ReconstructionEvent) -> (r: Result<(), ReconstructionPushError>)
        requires
            old(self).wf(),
        ensures
            final(self).wf(),
            (final(self)@, r) == event_pushed(old(self)@, event@),
    {
        let ghost e = event@;
        self.finalize_idle(&event.timestamp);
        let ghost w = self@;
        let found = self.find_active(&event.connection);
        if found.is_none() && self.connections.len() >= self.limits.max_active_connections {
            return Err(ReconstructionPushError::ActiveConnectionLimit { limit: self.limits.max_active_connections });
        }
        let (is_payload_event, payload_bytes) = match &event.evidence {
            ReconstructionEvidence::Payload(p) => (true, p.bytes.len()),
            ReconstructionEvidence::Lifecycle(_) => (false, 0),
        };
        let (chunk_count, byte_count) = match found {
            Some(i) => payload_counts(&self.connections[i].events),
            None => (0, 0),
        };
        let ghost es = if found is Some { w.active[found->0 as int].events } else { Seq::<EventView>::empty() };
        proof {
            if found is Some {
                assert(w.active[found->0 as int] == self.connections@[found->0 as int]@);
            }
            assert(is_payload_event == is_payload(e));
            assert(payload_bytes == payload_len(e));
            assert(chunk_count == payload_count(es));
            assert(byte_count == saturated(payload_total(es)));
        }
        let reason = if is_payload_event && chunk_count >= self.limits.max_chunks_per_connection {
            Some(ReconstructionFinalization::ChunkLimit)
        } else if byte_count.saturating_add(payload_bytes) > self.limits.max_bytes_per_connection {
            Some(ReconstructionFinalization::ByteLimit)
        } else {
            None
        };
        assert(reason == bound_reached(es, e, w.limits));
        match reason {
            Some(finalization) => {
                let ghost fb = finalized_view(self.finalized@);
                let (identity, events) = match found {
                    Some(i) => {
                        let c = self.connections.remove(i);
                        proof {
                            assert(pending_view(self.connections@) =~= w.active.remove(i as int));
                        }
                        (c.identity, c.events)
                    },
                    None => (copy_identity(&event.connection), Vec::new()),
                };
                proof {
                    assert(events_view(events@) =~= es);
                }
                self.finalized.push(ReconstructionFinalizedConnection { identity, events, finalization });
                proof {
                    assert(finalized_view(self.finalized@) =~= fb.push(FinalizedView { identity: e.connection, events: es, finalization }));
                    let v = self@;
                    assert forall|k: int| 0 <= k < v.active.len() implies consistent(v.active[k].identity, #[trigger] v.active[k].events)
                        && within_limits(v.active[k].events, v.limits) by {
                        if found is Some && k >= found->0 {
                            assert(v.active[k] == w.active[k + 1]);
                        } else {
                            assert(v.active[k] == w.active[k]);
                        }
                    }
                    assert forall|k: int| 0 <= k < v.finalized.len() implies consistent(v.finalized[k].identity, #[trigger] v.finalized[k].events)
                        && within_limits(v.finalized[k].events, v.limits) by {
                        if k < w.finalized.len() {
                            assert(v.finalized[k] == w.finalized[k]);
                        }
                    }
                    assert(sorted_active(v.active)) by {
                        assert forall|a: int, b: int| 0 <= a < b < v.active.len() implies identity_lt(#[trigger] v.active[a].identity, #[trigger] v.active[b].identity) by {
                            let a2 = if found is Some && a >= found->0 { a + 1 } else { a };
                            let b2 = if found is Some && b >= found->0 { b + 1 } else { b };
                            assert(v.active[a] == w.active[a2]);
                            assert(v.active[b] == w.active[b2]);
                        }
                    }
                }
                return Ok(());
            },
            None => {},
        }
        proof { lemma_appended(es, e); }
        match found {
            Some(i) => {
                let mut c = self.connections.remove(i);
                if c.events.len() == 0 && is_payload_event {
                    c.events.push(missing_open_event(&event));
                }
                let ghost ce = events_view(c.events@);
                c.events.push(event);
                proof {
                    assert(events_view(c.events@) =~= ce.push(e));
                    if es.len() == 0 && is_payload(e) {
                        assert(events_view(c.events@) =~= seq![missing_open(e), e]);
                    }
                    assert(events_view(c.events@) == appended(es, e));
                }
                self.connections.insert(i, c);
                proof {
                    assert(pending_view(self.connections@) =~= w.active.update(i as int, ConnectionView { identity: e.connection, events: appended(es, e) }));
                }
            },
            None => {
                let pos = self.lower_bound(&event.connection);
                proof { lemma_ordered_before(w.active, e.connection); }
                let mut events: Vec<ReconstructionEvent> = Vec::new();
                if is_payload_event {
                    events.push(missing_open_event(&event));
                }
                let identity = copy_identity(&event.connection);
                let ghost ev0 = events_view(events@);
                events.push(event);
                proof {
                    assert(events_view(events@) =~= ev0.push(e));
                    if is_payload(e) {
                        assert(events_view(events@) =~= seq![missing_open(e), e]);
                    } else {
                        assert(events_view(events@) =~= Seq::<EventView>::empty().push(e));
                    }
                }
                self.connections.insert(pos, ReconstructionPendingConnection { identity, events });
                proof {
                    assert(pending_view(self.connections@) =~= w.active.insert(pos as int, ConnectionView { identity: e.connection, events: appended(es, e) }));
                }
            },
        }
        proof {
            let v = self@;
            let ne = ConnectionView { identity: e.connection, events: appended(es, e) };
            assert(consistent(e.connection, es)) by {
                if found is Some {
                    assert(consistent(w.active[found->0 as int].identity, w.active[found->0 as int].events));
                }
            }
            assert(within_limits(appended(es, e), v.limits));
            assert forall|k: int| 0 <= k < v.active.len() implies consistent(v.active[k].identity, #[trigger] v.active[k].events)
                && within_limits(v.active[k].events, v.limits) by {
                match found {
                    Some(i) => {
                        if k != i {
                            assert(v.active[k] == w.active[k]);
                        } else {
                            assert(v.active[k] == ne);
                        }
                    },
                    None => {
                        let pos = ordered_before(w.active, e.connection) as int;
                        if k < pos {
                            assert(v.active[k] == w.active[k]);
                        } else if k == pos {
                            assert(v.active[k] == ne);
                        } else {
                            assert(v.active[k] == w.active[k - 1]);
                        }
                    },
                }
            }
            assert(sorted_active(v.active)) by {
                assert forall|a: int, b: int| 0 <= a < b < v.active.len() implies identity_lt(#[trigger] v.active[a].identity, #[trigger] v.active[b].identity) by {
                    match found {
                        Some(i) => {
                            assert(v.active[a].identity == w.active[a].identity);
                            assert(v.active[b].identity == w.active[b].identity);
                        },
                        None => {
                            let pos = ordered_before(w.active, e.connection) as int;
                            if a < pos {
                                assert(v.active[a] == w.active[a]);
                            } else if a == pos {
                                assert(v.active[a] == ne);
                            } else {
                                assert(v.active[a] == w.active[a - 1]);
                            }
                            if b < pos {
                                assert(v.active[b] == w.active[b]);
                            } else if b == pos {
                                assert(v.active[b] == ne);
                            } else {
                                assert(v.active[b] == w.active[b - 1]);
                            }
                            if a < pos && b > pos {
                                lemma_identity_order(w.active[a].identity, e.connection, w.active[b - 1].identity);
                            }
                        },
                    }
                }
            }
            assert forall|k: int| 0 <= k < v.finalized.len() implies consistent(v.finalized[k].identity, #[trigger] v.finalized[k].events)
                && within_limits(v.finalized[k].events, v.limits) by {
                assert(v.finalized[k] == w.finalized[k]);
            }
        }
        Ok(())
    }
}

/// What reconstruction assembled: active connections in identity order,
/// then finalized connections in the order they were finalized; the loss
/// windows and terminal WAL losses in arrival order.
#[derive(Clone, Debug, PartialEq, Eq)]
pub struct ReconstructionAssembly {
    pub connections: Vec<ReconstructionConnection>,
    pub loss_windows: Vec<LossWindowObserved>,
    pub terminal_wal_losses: Vec<TerminalPersistenceLoss>,
}

/// A copy of a loss window.
pub fn copy_loss_window(w: &LossWindowObserved) -> (c: LossWindowObserved)
    ensures
        c@ == w@,
{
    LossWindowObserved {
        start: copy_timestamp(&w.start),
        end: copy_timestamp(&w.end),
        drop_delta: w.drop_delta,
        ambiguity_reason: match &w.ambiguity_reason {
            Some(r) => Some(crate::text::str_copy(r.as_str())),
            None => None,
        },
    }
}

pub open spec fn classifications(ws: Seq<ConnectionLossWindow>) -> Seq<LossWindowClassification> {
    ws.map_values(|w: ConnectionLossWindow| w.classification)
}

/// `c` is the connection `identity` with `events`: each loss window
/// classified against its events, its termination derived from them, and
/// the bound that finalized it.
pub open spec fn materialized(
    c: ReconstructionConnection,
    identity: IdentityView,
    events: Seq<EventView>,
    windows: Seq<LossWindowObserved>,
    finalization: Option<ReconstructionFinalization>,
) -> bool {
    &&& identity_view(c.identity) == identity
    &&& events_view(c.events@) == events
    &&& c.loss_windows@.len() == windows.len()
    &&& forall|k: int| 0 <= k < windows.len() ==> (#[trigger] c.loss_windows@[k]).window@ == windows[k]@
        && c.loss_windows@[k].classification == loss_classification(c.events@, windows[k])
    &&& c.termination == derived_termination(c.events@, classifications(c.loss_windows@))
    &&& c.finalization == finalization
}

fn materialize_connection(
    identity: ReconstructionConnectionIdentity,
    events: Vec<ReconstructionEvent>,
    windows: &Vec<LossWindowObserved>,
    finalization: Option<ReconstructionFinalization>,
) -> (c: ReconstructionConnection)
    ensures
        materialized(c, identity_view(identity), events_view(events@), windows@, finalization),
{
    let mut loss_windows: Vec<ConnectionLossWindow> = Vec::new();
    let mut classes: Vec<LossWindowClassification> = Vec::new();
    let mut k: usize = 0;
    while k < windows.len()
        invariant
            k <= windows@.len(),
            loss_windows@.len() == k,
            classes@ == classifications(loss_windows@),
            forall|j: int| 0 <= j < k ==> (#[trigger] loss_windows@[j]).window@ == windows@[j]@
                && loss_windows@[j].classification == loss_classification(events@, windows@[j]),
        decreases windows.len() - k,
    {
        let classification = classify_loss_window(events.as_slice(), &windows[k]);
        let ghost before = loss_windows@;
        loss_windows.push(ConnectionLossWindow { window: copy_loss_window(&windows[k]), classification });
        classes.push(classification);
        proof {
            assert(classifications(loss_windows@) =~= classifications(before).push(classification));
        }
        k = k + 1;
    }
    let termination = derive_termination(events.as_slice(), classes.as_slice());
    ReconstructionConnection { identity, events, loss_windows, termination, finalization }
}

impl ReconstructionAssembler {
    /// The assembled connections: active ones in identity order, then
    /// finalized ones in finalization order.
    pub fn finish(self) -> (r: ReconstructionAssembly)
        ensures
            r.connections@.len() == self@.active.len() + self@.finalized.len(),
            forall|i: int| 0 <= i < self@.active.len() ==> materialized(#[trigger] r.connections@[i],
                self@.active[i].identity, self@.active[i].events, self@.loss_windows, None),
            forall|i: int| 0 <= i < self@.finalized.len() ==> materialized(#[trigger] r.connections@[self@.active.len() + i],
                self@.finalized[i].identity, self@.finalized[i].events, self@.loss_windows, Some(self@.finalized[i].finalization)),
            r.loss_windows@ == self@.loss_windows,
            r.terminal_wal_losses@ == self@.terminal_wal_losses,
    {
        let ghost v = self@;
        let ghost lw = self.loss_windows@;
        let ReconstructionAssembler { limits, connections, finalized, loss_windows, terminal_wal_losses } = self;
        let mut out: Vec<ReconstructionConnection> = Vec::new();
        let mut active = connections;
        let ghost all = active@;
        let _count = active.len();
        let mut i: usize = 0;
        while active.len() > 0
            invariant
                i <= all.len(),
                i + active@.len() == all.len(),
                all.len() <= usize::MAX,
                active@ == all.skip(i as int),
                pending_view(all) == v.active,
                loss_windows@ == lw,
                out@.len() == i,
                forall|j: int| 0 <= j < i ==> materialized(#[trigger] out@[j], v.active[j].identity, v.active[j].events, lw, None),
            decreases active.len(),
        {
            let c = active.remove(0);
            proof {
                assert(c == all[i as int]);
                assert(active@ =~= all.skip(i + 1));
                assert(v.active[i as int] == c@);
            }
            out.push(materialize_connection(c.identity, c.events, &loss_windows, None));
            i = i + 1;
        }
        let mut done = finalized;
        let ghost fall = done@;
        let _count = done.len();
        let n = i;
        let mut j: usize = 0;
        while done.len() > 0
            invariant
                n == v.active.len(),
                j <= fall.len(),
                j + done@.len() == fall.len(),
                fall.len() <= usize::MAX,
                done@ == fall.skip(j as int),
                finalized_view(fall) == v.finalized,
                loss_windows@ == lw,
                out@.len() == n + j,
                forall|k: int| 0 <= k < n ==> materialized(#[trigger] out@[k], v.active[k].identity, v.active[k].events, lw, None),
                forall|k: int| 0 <= k < j ==> materialized(#[trigger] out@[n + k], v.finalized[k].identity, v.finalized[k].events, lw,
                    Some(v.finalized[k].finalization)),
            decreases done.len(),
        {
            let c = done.remove(0);
            proof {
                assert(c == fall[j as int]);
                assert(done@ =~= fall.skip(j + 1));
                assert(v.finalized[j as int] == c@);
            }
            let ghost before = out@;
            out.push(materialize_connection(c.identity, c.events, &loss_windows, Some(c.finalization)));
            proof {
                assert forall|k: int| 0 <= k < j + 1 implies materialized(#[trigger] out@[n + k], v.finalized[k].identity, v.finalized[k].events, lw,
                    Some(v.finalized[k].finalization)) by {
                    if k < j {
                        assert(out@[n + k] == before[n + k]);
                    }
                }
            }
            j = j + 1;
        }
        ReconstructionAssembly { connections: out, loss_windows, terminal_wal_losses }
    }
}

// ---------------------------------------------------------------------------
// Snapshots: the state needed to resume at the same WAL cursor.

pub const RECONSTRUCTION_SNAPSHOT_VERSION: u32 = 1;

/// Every mutable input of an assembler, with the limits it ran under.
pub struct ReconstructionAssemblerSnapshot {
    pub version: u32,
    pub max_active_connections: usize,
    pub max_bytes_per_connection: usize,
    pub max_chunks_per_connection: usize,
    pub idle_nanoseconds: u64,
    pub active: Vec<ReconstructionPendingConnection>,
    pub finalized: Vec<ReconstructionFinalizedConnection>,
    pub loss_windows: Vec<LossWindowObserved>,
    pub terminal_wal_losses: Vec<TerminalPersistenceLoss>,
}

pub struct SnapshotView {
    pub version: u32,
    pub max_active_connections: usize,
    pub max_bytes_per_connection: usize,
    pub max_chunks_per_connection: usize,
    pub idle_nanoseconds: u64,
    pub active: Seq<ConnectionView>,
    pub finalized: Seq<FinalizedView>,
    pub loss_windows: Seq<LossWindowView>,
    pub terminal_wal_losses: Seq<TerminalLossView>,
}

impl View for ReconstructionAssemblerSnapshot {
    type V = SnapshotView;

    open spec fn view(&self) -> SnapshotView {
        SnapshotView {
            version: self.version,
            max_active_connections: self.max_active_connections,
            max_bytes_per_connection: self.max_bytes_per_connection,
            max_chunks_per_connection: self.max_chunks_per_connection,
            idle_nanoseconds: self.idle_nanoseconds,
            active: pending_view(self.active@),
            finalized: finalized_view(self.finalized@),
            loss_windows: windows_view(self.loss_windows@),
            terminal_wal_losses: losses_view(self.terminal_wal_losses@),
        }
    }
}

/// The snapshot of an assembler's state.
pub open spec fn snapshot_of(v: AssemblerView) -> SnapshotView {
    SnapshotView {
        version: RECONSTRUCTION_SNAPSHOT_VERSION,
        max_active_connections: v.limits.max_active_connections,
        max_bytes_per_connection: v.limits.max_bytes_per_connection,
        max_chunks_per_connection: v.limits.max_chunks_per_connection,
        idle_nanoseconds: v.limits.idle_nanoseconds,
        active: v.active,
        finalized: v.finalized,
        loss_windows: windows_view(v.loss_windows),
        terminal_wal_losses: losses_view(v.terminal_wal_losses),
    }
}

/// Why a connection's state cannot be restored: an event of another
/// connection, or more payload than the limits allow.
pub open spec fn state_error(identity: IdentityView, es: Seq<EventView>, limits: ReconstructionLimits) -> Option<ReconstructionSnapshotError> {
    if !consistent(identity, es) {
        Some(ReconstructionSnapshotError::InconsistentConnection)
    } else if !within_limits(es, limits) {
        Some(ReconstructionSnapshotError::Bounds)
    } else {
        None
    }
}

/// The first error among active connections, in snapshot order: a bad
/// state, or an identity seen before.
pub open spec fn active_error(ps: Seq<ConnectionView>, limits: ReconstructionLimits) -> Option<ReconstructionSnapshotError>
    decreases ps.len(),
{
    if ps.len() == 0 {
        None
    } else if active_error(ps.drop_last(), limits) is Some {
        active_error(ps.drop_last(), limits)
    } else if state_error(ps.last().identity, ps.last().events, limits) is Some {
        state_error(ps.last().identity, ps.last().events, limits)
    } else if exists|i: int| 0 <= i < ps.len() - 1 && (#[trigger] ps[i]).identity == ps.last().identity {
        Some(ReconstructionSnapshotError::DuplicateConnection)
    } else {
        None
    }
}

/// The first error among finalized connections, in snapshot order: a bad
/// state, or an identity that is active or was finalized before.
pub open spec fn finalized_error(fs: Seq<FinalizedView>, active: Seq<ConnectionView>, limits: ReconstructionLimits) -> Option<ReconstructionSnapshotError>
    decreases fs.len(),
{
    if fs.len() == 0 {
        None
    } else if finalized_error(fs.drop_last(), active, limits) is Some {
        finalized_error(fs.drop_last(), active, limits)
    } else if state_error(fs.last().identity, fs.last().events, limits) is Some {
        state_error(fs.last().identity, fs.last().events, limits)
    } else if (exists|i: int| 0 <= i < active.len() && (#[trigger] active[i]).identity == fs.last().identity)
        || (exists|i: int| 0 <= i < fs.len() - 1 && (#[trigger] fs[i]).identity == fs.last().identity) {
        Some(ReconstructionSnapshotError::DuplicateConnection)
    } else {
        None
    }
}

/// Why a snapshot cannot be restored under `limits`, if it cannot.
pub open spec fn restore_error(s: SnapshotView, limits: ReconstructionLimits) -> Option<ReconstructionSnapshotError> {
    if s.version != RECONSTRUCTION_SNAPSHOT_VERSION {
        Some(ReconstructionSnapshotError::UnsupportedVersion(s.version))
    } else if s.max_active_connections != limits.max_active_connections
        || s.max_bytes_per_connection != limits.max_bytes_per_connection
        || s.max_chunks_per_connection != limits.max_chunks_per_connection
        || s.idle_nanoseconds != limits.idle_nanoseconds {
        Some(ReconstructionSnapshotError::LimitMismatch)
    } else if s.active.len() > limits.max_active_connections {
        Some(ReconstructionSnapshotError::Bounds)
    } else if active_error(s.active, limits) is Some {
        active_error(s.active, limits)
    } else if s.finalized.len() > limits.max_active_connections {
        Some(ReconstructionSnapshotError::Bounds)
    } else {
        finalized_error(s.finalized, s.active, limits)
    }
}

/// `s` holds the connection `c`.
#[verifier::opaque]
pub open spec fn has_entry(s: Seq<ConnectionView>, c: ConnectionView) -> bool {
    exists|i: int| 0 <= i < s.len() && s[i] == c
}

proof fn lemma_entry_at(s: Seq<ConnectionView>, i: int)
    requires
        0 <= i < s.len(),
    ensures
        has_entry(s, s[i]),
{
    reveal(has_entry);
}

proof fn lemma_entry_index(s: Seq<ConnectionView>, c: ConnectionView) -> (i: int)
    requires
        has_entry(s, c),
    ensures
        0 <= i < s.len(),
        s[i] == c,
{
    reveal(has_entry);
    choose|i: int| 0 <= i < s.len() && s[i] == c
}

/// `a` and `b` hold the same connections.
pub open spec fn same_entries(a: Seq<ConnectionView>, b: Seq<ConnectionView>) -> bool {
    &&& a.len() == b.len()
    &&& forall|i: int| 0 <= i < a.len() ==> has_entry(b, #[trigger] a[i])
    &&& forall|j: int| 0 <= j < b.len() ==> has_entry(a, #[trigger] b[j])
}

/// Checks that every event belongs to `identity` and that the payload is
/// within the per-connection limits.
pub fn validate_connection_state(
    identity: &ReconstructionConnectionIdentity,
    events: &Vec<ReconstructionEvent>,
    limits: &ReconstructionLimits,
) -> (r: Result<(), ReconstructionSnapshotError>)
    ensures
        match state_error(identity_view(*identity), events_view(events@), *limits) {
            None => r is Ok,
            Some(e) => r == Err::<(), ReconstructionSnapshotError>(e),
        },
{
    let ghost v = events_view(events@);
    let mut i: usize = 0;
    while i < events.len()
        invariant
            v == events_view(events@),
            i <= events@.len(),
            forall|k: int| 0 <= k < i ==> (#[trigger] v[k]).connection == identity_view(*identity),
        decreases events.len() - i,
    {
        assert(v[i as int] == events@[i as int]@);
        if !identity_same(&events[i].connection, identity) {
            return Err(ReconstructionSnapshotError::InconsistentConnection);
        }
        i = i + 1;
    }
    let (count, total) = payload_counts(events);
    if count > limits.max_chunks_per_connection || total > limits.max_bytes_per_connection {
        return Err(ReconstructionSnapshotError::Bounds);
    }
    Ok(())
}

/// The position of the connection `id` in `v`, if it is there.
fn position_in(v: &Vec<ReconstructionPendingConnection>, id: &ReconstructionConnectionIdentity) -> (r: Option<usize>)
    ensures
        match r {
            Some(i) => i < v@.len() && pending_view(v@)[i as int].identity == identity_view(*id),
            None => forall|i: int| 0 <= i < v@.len() ==> (#[trigger] pending_view(v@)[i]).identity != identity_view(*id),
        },
{
    let mut i: usize = 0;
    while i < v.len()
        invariant
            i <= v@.len(),
            forall|k: int| 0 <= k < i ==> (#[trigger] pending_view(v@)[k]).identity != identity_view(*id),
        decreases v.len() - i,
    {
        if identity_same(&v[i].identity, id) {
            return Some(i);
        }
        i = i + 1;
    }
    None
}

/// The number of connections in `v` ordered before `id`.
fn count_before(v: &Vec<ReconstructionPendingConnection>, id: &ReconstructionConnectionIdentity) -> (r: usize)
    ensures
        r == ordered_before(pending_view(v@), identity_view(*id)),
{
    let ghost a = pending_view(v@);
    let mut n: usize = 0;
    let mut i: usize = 0;
    while i < v.len()
        invariant
            a == pending_view(v@),
            i <= a.len(),
            n <= i,
            n == ordered_before(a.take(i as int), identity_view(*id)),
        decreases v.len() - i,
    {
        proof {
            assert(a.take(i + 1).drop_last() =~= a.take(i as int));
        }
        if identity_less(&v[i].identity, id) {
            n = n + 1;
        }
        i = i + 1;
    }
    proof { assert(a.take(a.len() as int) =~= a); }
    n
}

/// Whether some finalized connection in `v` is `id`.
fn finalized_has(v: &Vec<ReconstructionFinalizedConnection>, id: &ReconstructionConnectionIdentity) -> (r: bool)
    ensures
        r == exists|i: int| 0 <= i < v@.len() && (#[trigger] finalized_view(v@)[i]).identity == identity_view(*id),
{
    let mut i: usize = 0;
    while i < v.len()
        invariant
            i <= v@.len(),
            forall|k: int| 0 <= k < i ==> (#[trigger] finalized_view(v@)[k]).identity != identity_view(*id),
        decreases v.len() - i,
    {
        if identity_same(&v[i].identity, id) {
            assert(finalized_view(v@)[i as int].identity == identity_view(*id));
            return true;
        }
        i = i + 1;
    }
    false
}

fn copy_events(es: &Vec<ReconstructionEvent>) -> (c: Vec<ReconstructionEvent>)
    ensures
        events_view(c@) == events_view(es@),
{
    let mut out: Vec<ReconstructionEvent> = Vec::new();
    let mut i: usize = 0;
    while i < es.len()
        invariant
            i <= es@.len(),
            out@.len() == i,
            forall|k: int| 0 <= k < i ==> (#[trigger] out@[k])@ == es@[k]@,
        decreases es.len() - i,
    {
        out.push(copy_event(&es[i]));
        i = i + 1;
    }
    proof { assert(events_view(out@) =~= events_view(es@)); }
    out
}

pub fn copy_terminal_loss(l: &TerminalPersistenceLoss) -> (c: TerminalPersistenceLoss)
    ensures
        c@ == l@,
{
    TerminalPersistenceLoss { interval: LossInterval { start: copy_timestamp(&l.interval.start), end: copy_timestamp(&l.interval.end) } }
}

proof fn lemma_active_error_none(ps: Seq<ConnectionView>, limits: ReconstructionLimits)
    requires
        sorted_active(ps),
        forall|i: int| 0 <= i < ps.len() ==> state_error((#[trigger] ps[i]).identity, ps[i].events, limits) is None,
    ensures
        active_error(ps, limits) is None,
    decreases ps.len(),
{
    if ps.len() > 0 {
        let rest = ps.drop_last();
        assert forall|i: int| 0 <= i < rest.len() implies state_error((#[trigger] rest[i]).identity, rest[i].events, limits) is None by {
            assert(rest[i] == ps[i]);
        }
        lemma_active_error_none(rest, limits);
        assert(state_error(ps[ps.len() - 1].identity, ps[ps.len() - 1].events, limits) is None);
        if exists|i: int| 0 <= i < ps.len() - 1 && (#[trigger] ps[i]).identity == ps.last().identity {
            let i = choose|i: int| 0 <= i < ps.len() - 1 && (#[trigger] ps[i]).identity == ps.last().identity;
            lemma_sorted_distinct(ps, i, ps.len() - 1);
        }
    }
}

proof fn lemma_finalized_error_none(fs: Seq<FinalizedView>, active: Seq<ConnectionView>, limits: ReconstructionLimits)
    requires
        forall|i: int| 0 <= i < fs.len() ==> state_error((#[trigger] fs[i]).identity, fs[i].events, limits) is None,
        forall|i: int, j: int| 0 <= i < fs.len() && 0 <= j < active.len() ==> (#[trigger] fs[i]).identity != (#[trigger] active[j]).identity,
        forall|i: int, j: int| 0 <= i < j < fs.len() ==> (#[trigger] fs[i]).identity != (#[trigger] fs[j]).identity,
    ensures
        finalized_error(fs, active, limits) is None,
    decreases fs.len(),
{
    if fs.len() > 0 {
        let rest = fs.drop_last();
        assert forall|i: int| 0 <= i < rest.len() implies state_error((#[trigger] rest[i]).identity, rest[i].events, limits) is None by {
            assert(rest[i] == fs[i]);
        }
        assert forall|i: int, j: int| 0 <= i < rest.len() && 0 <= j < active.len() implies (#[trigger] rest[i]).identity != (#[trigger] active[j]).identity by {
            assert(rest[i] == fs[i]);
        }
        assert forall|i: int, j: int| 0 <= i < j < rest.len() implies (#[trigger] rest[i]).identity != (#[trigger] rest[j]).identity by {
            assert(rest[i] == fs[i] && rest[j] == fs[j]);
        }
        lemma_finalized_error_none(rest, active, limits);
        assert(state_error(fs[fs.len() - 1].identity, fs[fs.len() - 1].events, limits) is None);
    }
}

proof fn lemma_same_entries_drop_last(a: Seq<ConnectionView>, b: Seq<ConnectionView>)
    requires
        sorted_active(a),
        sorted_active(b),
        same_entries(a, b),
        a.len() > 0,
        a.last() == b.last(),
    ensures
        same_entries(a.drop_last(), b.drop_last()),
{
    let n = a.len() - 1;
    let a2 = a.drop_last();
    let b2 = b.drop_last();
    assert forall|i: int| 0 <= i < a2.len() implies has_entry(b2, #[trigger] a2[i]) by {
        assert(a2[i] == a[i]);
        let m = lemma_entry_index(b, a[i]);
        if m == n {
            lemma_sorted_distinct(a, i, n);
        }
        assert(b2[m] == b[m]);
        lemma_entry_at(b2, m);
    }
    assert forall|m: int| 0 <= m < b2.len() implies has_entry(a2, #[trigger] b2[m]) by {
        assert(b2[m] == b[m]);
        let i = lemma_entry_index(a, b[m]);
        if i == n {
            lemma_sorted_distinct(b, m, n);
        }
        assert(a2[i] == a[i]);
        lemma_entry_at(a2, i);
    }
}

proof fn lemma_same_entries_last(a: Seq<ConnectionView>, b: Seq<ConnectionView>)
    requires
        sorted_active(a),
        sorted_active(b),
        same_entries(a, b),
        a.len() > 0,
    ensures
        a.last() == b.last(),
{
    let n = a.len() - 1;
    assert(has_entry(b, a[n]));
    let j = lemma_entry_index(b, a[n]);
    if j < n {
        assert(has_entry(a, b[n]));
        let k = lemma_entry_index(a, b[n]);
        if k == n {
            lemma_sorted_distinct(b, j, n);
        } else {
            assert(identity_lt(a[k].identity, a[n].identity));
            assert(identity_lt(b[j].identity, b[n].identity));
            lemma_identity_order(b[j].identity, b[n].identity, b[n].identity);
        }
    }
}

/// Two sorted sequences holding the same connections are equal.
pub proof fn lemma_sorted_same_entries(a: Seq<ConnectionView>, b: Seq<ConnectionView>)
    requires
        sorted_active(a),
        sorted_active(b),
        same_entries(a, b),
    ensures
        a == b,
    decreases a.len(),
{
    if a.len() > 0 {
        lemma_same_entries_last(a, b);
        lemma_same_entries_drop_last(a, b);
        lemma_sorted_same_entries(a.drop_last(), b.drop_last());
        assert(a =~= a.drop_last().push(a.last()));
        assert(b =~= b.drop_last().push(b.last()));
    }
}

/// Connection identities occur once over active and finalized connections.
pub open spec fn identities_unique(v: AssemblerView) -> bool {
    &&& forall|i: int, j: int| 0 <= i < v.finalized.len() && 0 <= j < v.active.len()
        ==> (#[trigger] v.finalized[i]).identity != (#[trigger] v.active[j]).identity
    &&& forall|i: int, j: int| 0 <= i < j < v.finalized.len() ==> (#[trigger] v.finalized[i]).identity != (#[trigger] v.finalized[j]).identity
}

/// A snapshot restores, under the limits it was taken with, to the state it
/// was taken of, provided no identity occurs twice over active and finalized
/// connections and no more connections were finalized than the active limit:
/// no restore error, and the only ordered arrangement of its active
/// connections is the assembler's own.
pub proof fn lemma_snapshot_restores(v: AssemblerView, out: Seq<ConnectionView>)
    requires
        assembler_wf(v),
        identities_unique(v),
        v.finalized.len() <= v.limits.max_active_connections,
        sorted_active(out),
        same_entries(out, v.active),
    ensures
        restore_error(snapshot_of(v), v.limits) is None,
        out == v.active,
{
    assert forall|i: int| 0 <= i < v.active.len() implies state_error((#[trigger] v.active[i]).identity, v.active[i].events, v.limits) is None by {
        assert(consistent(v.active[i].identity, v.active[i].events));
    }
    lemma_active_error_none(v.active, v.limits);
    assert forall|i: int| 0 <= i < v.finalized.len() implies state_error((#[trigger] v.finalized[i]).identity, v.finalized[i].events, v.limits) is None by {
        assert(consistent(v.finalized[i].identity, v.finalized[i].events));
    }
    lemma_finalized_error_none(v.finalized, v.active, v.limits);
    lemma_sorted_same_entries(out, v.active);
}

impl ReconstructionAssembler {
    /// The snapshot of every mutable input, to resume at the same WAL
    /// cursor.
    pub fn snapshot_state(&self) -> (s: ReconstructionAssemblerSnapshot)
        ensures
            s@ == snapshot_of(self@),
    {
        let mut active: Vec<ReconstructionPendingConnection> = Vec::new();
        let mut i: usize = 0;
        while i < self.connections.len()
            invariant
                i <= self.connections@.len(),
                active@.len() == i,
                forall|k: int| 0 <= k < i ==> (#[trigger] active@[k])@ == self.connections@[k]@,
            decreases self.connections.len() - i,
        {
            let c = &self.connections[i];
            active.push(ReconstructionPendingConnection { identity: copy_identity(&c.identity), events: copy_events(&c.events) });
            i = i + 1;
        }
        let mut finalized: Vec<ReconstructionFinalizedConnection> = Vec::new();
        let mut j: usize = 0;
        while j < self.finalized.len()
            invariant
                j <= self.finalized@.len(),
                finalized@.len() == j,
                forall|k: int| 0 <= k < j ==> (#[trigger] finalized@[k])@ == self.finalized@[k]@,
            decreases self.finalized.len() - j,
        {
            let c = &self.finalized[j];
            finalized.push(ReconstructionFinalizedConnection {
                identity: copy_identity(&c.identity),
                events: copy_events(&c.events),
                finalization: c.finalization,
            });
            j = j + 1;
        }
        let mut windows: Vec<LossWindowObserved> = Vec::new();
        let mut k: usize = 0;
        while k < self.loss_windows.len()
            invariant
                k <= self.loss_windows@.len(),
                windows@.len() == k,
                forall|m: int| 0 <= m < k ==> (#[trigger] windows@[m])@ == self.loss_windows@[m]@,
            decreases self.loss_windows.len() - k,
        {
            windows.push(copy_loss_window(&self.loss_windows[k]));
            k = k + 1;
        }
        let mut losses: Vec<TerminalPersistenceLoss> = Vec::new();
        let mut m: usize = 0;
        while m < self.terminal_wal_losses.len()
            invariant
                m <= self.terminal_wal_losses@.len(),
                losses@.len() == m,
                forall|q: int| 0 <= q < m ==> (#[trigger] losses@[q])@ == self.terminal_wal_losses@[q]@,
            decreases self.terminal_wal_losses.len() - m,
        {
            losses.push(copy_terminal_loss(&self.terminal_wal_losses[m]));
            m = m + 1;
        }
        let s = ReconstructionAssemblerSnapshot {
            version: RECONSTRUCTION_SNAPSHOT_VERSION,
            max_active_connections: self.limits.max_active_connections,
            max_bytes_per_connection: self.limits.max_bytes_per_connection,
            max_chunks_per_connection: self.limits.max_chunks_per_connection,
            idle_nanoseconds: self.limits.idle_nanoseconds,
            active,
            finalized,
            loss_windows: windows,
            terminal_wal_losses: losses,
        };
        proof {
            assert(pending_view(s.active@) =~= self@.active);
            assert(finalized_view(s.finalized@) =~= self@.finalized);
            assert(windows_view(s.loss_windows@) =~= windows_view(self@.loss_windows));
            assert(losses_view(s.terminal_wal_losses@) =~= losses_view(self@.terminal_wal_losses));
        }
        s
    }

    /// A copy of this assembler with the same state.
    pub fn duplicate(&self) -> (c: Self)
        ensures
            c@.limits == self@.limits,
            snapshot_of(c@) == snapshot_of(self@),
            c@.active == self@.active,
            c@.finalized == self@.finalized,
            c.wf() == self.wf(),
    {
        let s = self.snapshot_state();
        let ReconstructionAssemblerSnapshot { active, finalized, loss_windows, terminal_wal_losses, .. } = s;
        ReconstructionAssembler { limits: self.limits, connections: active, finalized, loss_windows, terminal_wal_losses }
    }

    /// Restores a snapshot taken under the same limits: active connections
    /// return to identity order; see `restore_error` for what is refused.
    pub fn restore(limits: ReconstructionLimits, snapshot: ReconstructionAssemblerSnapshot) -> (r: Result<Self, ReconstructionSnapshotError>)
        ensures
            match restore_error(snapshot@, limits) {
                Some(e) => r == Err::<Self, ReconstructionSnapshotError>(e),
                None => r is Ok,
            },
            r matches Ok(a) ==> {
                &&& a.wf()
                &&& a@.limits == limits
                &&& same_entries(a@.active, snapshot@.active)
                &&& a@.finalized == snapshot@.finalized
                &&& windows_view(a@.loss_windows) == snapshot@.loss_windows
                &&& losses_view(a@.terminal_wal_losses) == snapshot@.terminal_wal_losses
            },
    {
        let ghost sv = snapshot@;
        if snapshot.version != RECONSTRUCTION_SNAPSHOT_VERSION {
            return Err(ReconstructionSnapshotError::UnsupportedVersion(snapshot.version));
        }
        if snapshot.max_active_connections != limits.max_active_connections
            || snapshot.max_bytes_per_connection != limits.max_bytes_per_connection
            || snapshot.max_chunks_per_connection != limits.max_chunks_per_connection
            || snapshot.idle_nanoseconds != limits.idle_nanoseconds
        {
            return Err(ReconstructionSnapshotError::LimitMismatch);
        }
        if snapshot.active.len() > limits.max_active_connections {
            return Err(ReconstructionSnapshotError::Bounds);
        }
        let ReconstructionAssemblerSnapshot { active, finalized, loss_windows, terminal_wal_losses, .. } = snapshot;
        let connections = restore_active(active, &limits)?;
        if finalized.len() > limits.max_active_connections {
            return Err(ReconstructionSnapshotError::Bounds);
        }
        let done = restore_finalized(finalized, &connections, Ghost(sv.active), &limits)?;
        let a = ReconstructionAssembler { limits, connections, finalized: done, loss_windows, terminal_wal_losses };
        Ok(a)
    }
}

/// A connection's state obeys `limits`.
pub open spec fn entry_ok(identity: IdentityView, es: Seq<EventView>, limits: ReconstructionLimits) -> bool {
    consistent(identity, es) && within_limits(es, limits)
}

proof fn lemma_insert_sorted(cs: Seq<ConnectionView>, pre: Seq<ConnectionView>, cv: ConnectionView, limits: ReconstructionLimits)
    requires
        sorted_active(cs),
        same_entries(cs, pre),
        forall|q: int| 0 <= q < cs.len() ==> (#[trigger] cs[q]).identity != cv.identity,
        forall|k: int| 0 <= k < cs.len() ==> entry_ok((#[trigger] cs[k]).identity, cs[k].events, limits),
        entry_ok(cv.identity, cv.events, limits),
    ensures
        ordered_before(cs, cv.identity) <= cs.len(),
        sorted_active(cs.insert(ordered_before(cs, cv.identity) as int, cv)),
        same_entries(cs.insert(ordered_before(cs, cv.identity) as int, cv), pre.push(cv)),
        forall|k: int| 0 <= k < cs.len() + 1 ==> entry_ok((#[trigger] cs.insert(ordered_before(cs, cv.identity) as int, cv)[k]).identity,
            cs.insert(ordered_before(cs, cv.identity) as int, cv)[k].events, limits),
{
    lemma_ordered_before(cs, cv.identity);
    let pos = ordered_before(cs, cv.identity) as int;
    let ns = cs.insert(pos, cv);
    let t = pre.push(cv);
    assert forall|a: int, b: int| 0 <= a < b < ns.len() implies identity_lt(#[trigger] ns[a].identity, #[trigger] ns[b].identity) by {
        if a < pos && b > pos {
            lemma_identity_order(cs[a].identity, cv.identity, cs[b - 1].identity);
        }
        if a < pos { assert(ns[a] == cs[a]); } else if a == pos { assert(ns[a] == cv); } else { assert(ns[a] == cs[a - 1]); }
        if b < pos { assert(ns[b] == cs[b]); } else if b == pos { assert(ns[b] == cv); } else { assert(ns[b] == cs[b - 1]); }
    }
    assert forall|a: int| 0 <= a < ns.len() implies has_entry(t, #[trigger] ns[a]) by {
        if a == pos {
            assert(ns[a] == t[pre.len() as int]);
            lemma_entry_at(t, pre.len() as int);
        } else {
            let a2 = if a < pos { a } else { a - 1 };
            assert(ns[a] == cs[a2]);
            let q = lemma_entry_index(pre, cs[a2]);
            assert(t[q] == pre[q]);
            lemma_entry_at(t, q);
        }
    }
    assert forall|q: int| 0 <= q < t.len() implies has_entry(ns, #[trigger] t[q]) by {
        if q == pre.len() {
            assert(ns[pos] == t[q]);
            lemma_entry_at(ns, pos);
        } else {
            assert(t[q] == pre[q]);
            let a2 = lemma_entry_index(cs, pre[q]);
            let a = if a2 < pos { a2 } else { a2 + 1 };
            assert(ns[a] == cs[a2]);
            lemma_entry_at(ns, a);
        }
    }
    assert forall|k: int| 0 <= k < cs.len() + 1 implies entry_ok((#[trigger] ns[k]).identity, ns[k].events, limits) by {
        if k < pos { assert(ns[k] == cs[k]); } else if k == pos { assert(ns[k] == cv); } else { assert(ns[k] == cs[k - 1]); }
    }
}

/// The active connections of a snapshot in identity order, or the first
/// error among them.
fn restore_active(pending: Vec<ReconstructionPendingConnection>, limits: &ReconstructionLimits)
    -> (r: Result<Vec<ReconstructionPendingConnection>, ReconstructionSnapshotError>)
    ensures
        match active_error(pending_view(pending@), *limits) {
            Some(e) => r == Err::<Vec<ReconstructionPendingConnection>, ReconstructionSnapshotError>(e),
            None => r is Ok,
        },
        r matches Ok(cs) ==> {
            &&& sorted_active(pending_view(cs@))
            &&& same_entries(pending_view(cs@), pending_view(pending@))
            &&& forall|k: int| 0 <= k < cs@.len() ==> entry_ok((#[trigger] pending_view(cs@)[k]).identity, pending_view(cs@)[k].events, *limits)
        },
{
    let ghost all = pending@;
    let ghost av = pending_view(all);
    let mut rest = pending;
    let _count = rest.len();
    let mut connections: Vec<ReconstructionPendingConnection> = Vec::new();
    let mut i: usize = 0;
    proof {
        assert(all.skip(0) =~= all);
        assert(av.take(0) =~= Seq::<ConnectionView>::empty());
        assert(pending_view(connections@) =~= Seq::<ConnectionView>::empty());
    }
    while rest.len() > 0
        invariant
            i <= all.len(),
            i + rest@.len() == all.len(),
            all.len() <= usize::MAX,
            rest@ == all.skip(i as int),
            av == pending_view(all),
            all == pending@,
            active_error(av.take(i as int), *limits) is None,
            sorted_active(pending_view(connections@)),
            same_entries(pending_view(connections@), av.take(i as int)),
            forall|k: int| 0 <= k < connections@.len() ==> entry_ok((#[trigger] pending_view(connections@)[k]).identity,
                pending_view(connections@)[k].events, *limits),
        decreases rest.len(),
    {
        let c = rest.remove(0);
        let ghost cv = c@;
        let ghost cs = pending_view(connections@);
        let ghost pre = av.take(i as int);
        let ghost t = av.take(i + 1);
        proof {
            assert(c == all[i as int]);
            assert(rest@ =~= all.skip(i + 1));
            assert(av[i as int] == cv);
            assert(t.drop_last() =~= pre);
            assert(t =~= pre.push(cv));
        }
        match validate_connection_state(&c.identity, &c.events, limits) {
            Err(e) => {
                proof {
                    assert(state_error(cv.identity, cv.events, *limits) == Some(e));
                    assert(active_error(t, *limits) == Some(e));
                    lemma_active_error_prefix(av, i + 1, *limits);
                    assert(active_error(av, *limits) == Some(e));
                    assert(av == pending_view(pending@));
                }
                return Err(e);
            },
            Ok(()) => {},
        }
        match position_in(&connections, &c.identity) {
            Some(p) => {
                proof {
                    assert(has_entry(pre, cs[p as int]));
                    let q = lemma_entry_index(pre, cs[p as int]);
                    assert(t[q] == pre[q]);
                    assert(t[q].identity == t.last().identity);
                    assert(active_error(t, *limits) == Some(ReconstructionSnapshotError::DuplicateConnection));
                    lemma_active_error_prefix(av, i + 1, *limits);
                }
                return Err(ReconstructionSnapshotError::DuplicateConnection);
            },
            None => {},
        }
        proof {
            if exists|q: int| 0 <= q < t.len() - 1 && (#[trigger] t[q]).identity == t.last().identity {
                let q = choose|q: int| 0 <= q < t.len() - 1 && (#[trigger] t[q]).identity == t.last().identity;
                assert(pre[q] == t[q]);
                let m = lemma_entry_index(cs, pre[q]);
                assert(cs[m].identity != cv.identity);
            }
            assert(active_error(t, *limits) is None);
            lemma_insert_sorted(cs, pre, cv, *limits);
        }
        let pos = count_before(&connections, &c.identity);
        connections.insert(pos, c);
        proof {
            assert(pending_view(connections@) =~= cs.insert(pos as int, cv));
        }
        i = i + 1;
    }
    proof {
        assert(av.take(i as int) =~= av);
    }
    Ok(connections)
}

/// The finalized connections of a snapshot in order, or the first error
/// among them; `all` are the snapshot's active connections, which `active`
/// holds.
fn restore_finalized(
    finalized: Vec<ReconstructionFinalizedConnection>,
    active: &Vec<ReconstructionPendingConnection>,
    Ghost(all): Ghost<Seq<ConnectionView>>,
    limits: &ReconstructionLimits,
) -> (r: Result<Vec<ReconstructionFinalizedConnection>, ReconstructionSnapshotError>)
    requires
        same_entries(pending_view(active@), all),
    ensures
        match finalized_error(finalized_view(finalized@), all, *limits) {
            Some(e) => r == Err::<Vec<ReconstructionFinalizedConnection>, ReconstructionSnapshotError>(e),
            None => r is Ok,
        },
        r matches Ok(done) ==> {
            &&& finalized_view(done@) == finalized_view(finalized@)
            &&& forall|k: int| 0 <= k < done@.len() ==> entry_ok((#[trigger] finalized_view(done@)[k]).identity,
                finalized_view(done@)[k].events, *limits)
        },
{
    let ghost fall = finalized@;
    let ghost fv = finalized_view(fall);
    let mut rest = finalized;
    let _count = rest.len();
    let mut done: Vec<ReconstructionFinalizedConnection> = Vec::new();
    let mut j: usize = 0;
    proof {
        assert(fall.skip(0) =~= fall);
        assert(finalized_view(done@) =~= fv.take(0));
    }
    while rest.len() > 0
        invariant
            j <= fall.len(),
            j + rest@.len() == fall.len(),
            fall.len() <= usize::MAX,
            rest@ == fall.skip(j as int),
            fv == finalized_view(fall),
            fall == finalized@,
            finalized_view(done@) == fv.take(j as int),
            finalized_error(fv.take(j as int), all, *limits) is None,
            same_entries(pending_view(active@), all),
            forall|k: int| 0 <= k < done@.len() ==> entry_ok((#[trigger] finalized_view(done@)[k]).identity,
                finalized_view(done@)[k].events, *limits),
        decreases rest.len(),
    {
        let c = rest.remove(0);
        let ghost cv = c@;
        let ghost pre = fv.take(j as int);
        let ghost t = fv.take(j + 1);
        proof {
            assert(c == fall[j as int]);
            assert(rest@ =~= fall.skip(j + 1));
            assert(fv[j as int] == cv);
            assert(t.drop_last() =~= pre);
            assert(t =~= pre.push(cv));
        }
        match validate_connection_state(&c.identity, &c.events, limits) {
            Err(e) => {
                proof {
                    assert(state_error(cv.identity, cv.events, *limits) == Some(e));
                    assert(finalized_error(t, all, *limits) == Some(e));
                    lemma_finalized_error_prefix(fv, all, j + 1, *limits);
                }
                return Err(e);
            },
            Ok(()) => {},
        }
        let in_active = position_in(active, &c.identity);
        let in_final = finalized_has(&done, &c.identity);
        proof {
            let ps = pending_view(active@);
            if in_active is Some {
                let p = in_active->0 as int;
                let q = lemma_entry_index(all, ps[p]);
                assert(all[q].identity == cv.identity);
            } else if exists|q: int| 0 <= q < all.len() && (#[trigger] all[q]).identity == t.last().identity {
                let q = choose|q: int| 0 <= q < all.len() && (#[trigger] all[q]).identity == t.last().identity;
                let p = lemma_entry_index(ps, all[q]);
                assert(ps[p].identity == cv.identity);
            }
            if exists|q: int| 0 <= q < t.len() - 1 && (#[trigger] t[q]).identity == t.last().identity {
                let q = choose|q: int| 0 <= q < t.len() - 1 && (#[trigger] t[q]).identity == t.last().identity;
                assert(finalized_view(done@)[q] == t[q]);
            }
            if in_final {
                let q = choose|q: int| 0 <= q < done@.len() && (#[trigger] finalized_view(done@)[q]).identity == cv.identity;
                assert(t[q] == finalized_view(done@)[q]);
            }
        }
        if in_active.is_some() || in_final {
            proof {
                assert(finalized_error(t, all, *limits) == Some(ReconstructionSnapshotError::DuplicateConnection));
                lemma_finalized_error_prefix(fv, all, j + 1, *limits);
            }
            return Err(ReconstructionSnapshotError::DuplicateConnection);
        }
        let ghost db = finalized_view(done@);
        done.push(c);
        proof {
            assert(finalized_view(done@) =~= db.push(cv));
            assert(finalized_error(t, all, *limits) is None);
        }
        j = j + 1;
    }
    proof {
        assert(fv.take(j as int) =~= fv);
    }
    Ok(done)
}

/// An error in a prefix is the error of the whole.
proof fn lemma_active_error_prefix(ps: Seq<ConnectionView>, n: int, limits: ReconstructionLimits)
    requires
        0 <= n <= ps.len(),
        active_error(ps.take(n), limits) is Some,
    ensures
        active_error(ps, limits) == active_error(ps.take(n), limits),
    decreases ps.len() - n,
{
    if n < ps.len() {
        assert(ps.take(n + 1).drop_last() =~= ps.take(n));
        lemma_active_error_prefix(ps, n + 1, limits);
    } else {
        assert(ps.take(n) =~= ps);
    }
}

proof fn lemma_finalized_error_prefix(fs: Seq<FinalizedView>, active: Seq<ConnectionView>, n: int, limits: ReconstructionLimits)
    requires
        0 <= n <= fs.len(),
        finalized_error(fs.take(n), active, limits) is Some,
    ensures
        finalized_error(fs, active, limits) == finalized_error(fs.take(n), active, limits),
    decreases fs.len() - n,
{
    if n < fs.len() {
        assert(fs.take(n + 1).drop_last() =~= fs.take(n));
        lemma_finalized_error_prefix(fs, active, n + 1, limits);
    } else {
        assert(fs.take(n) =~= fs);
    }
}

// ---------------------------------------------------------------------------
// Capture events as reconstruction input

/// The connection a socket generation names.
pub open spec fn socket_connection(s: crate::streams::SocketIdView) -> IdentityView {
    IdentityView::Socket { cookie: s.cookie, clock: s.clock, nanoseconds: s.nanoseconds, network_namespace: s.network_namespace }
}

/// The lifecycle event socket evidence becomes: on the socket's
/// connection, at the evidence's time, with the socket's role.
pub open spec fn lifecycle_event(e: crate::streams::SocketEvidenceView, l: RawLifecycleEvidence) -> EventView {
    EventView {
        connection: socket_connection(e.socket),
        wal_sequence: None,
        clock: e.clock,
        nanoseconds: e.nanoseconds,
        socket_role: Some(e.role),
        evidence: EvidenceView::Lifecycle(l),
    }
}

/// The reconstruction input a capture event of the supported schema
/// becomes: socket evidence a lifecycle event, a payload fragment a payload
/// event, a loss window itself.
pub open spec fn capture_input_matches(kind: crate::streams::CaptureEventKind, input: ReconstructionInput) -> bool {
    match kind {
        CaptureEventKind::SocketConnectObserved(i) => input matches ReconstructionInput::Event(e) && e@ == (EventView {
            connection: socket_connection(i.socket@),
            wal_sequence: None,
            clock: i.timestamp.clock@,
            nanoseconds: i.timestamp.nanoseconds,
            socket_role: None,
            evidence: EvidenceView::Lifecycle(RawLifecycleEvidence::ConnectObserved),
        }),
        CaptureEventKind::SocketConnected(ev) => input matches ReconstructionInput::Event(e) && e@ == lifecycle_event(ev@, RawLifecycleEvidence::Established),
        CaptureEventKind::SocketClosedObserved(ev) => input matches ReconstructionInput::Event(e) && e@ == lifecycle_event(ev@, RawLifecycleEvidence::Closed),
        CaptureEventKind::SocketResetObserved(ev) => input matches ReconstructionInput::Event(e) && e@ == lifecycle_event(ev@, RawLifecycleEvidence::Reset),
        CaptureEventKind::SocketStateChangedObserved { socket, raw_state } => input matches ReconstructionInput::Event(e)
            && e@ == lifecycle_event(socket@, RawLifecycleEvidence::StateChanged { raw_state }),
        CaptureEventKind::PayloadFragment(f) => input matches ReconstructionInput::Event(e) && e@ == (EventView {
            connection: socket_connection(f.socket@),
            wal_sequence: None,
            clock: f.timestamp.clock@,
            nanoseconds: f.timestamp.nanoseconds,
            socket_role: None,
            evidence: EvidenceView::Payload(crate::ordering::PayloadView {
                direction: match f.direction {
                    crate::streams::PayloadDirection::Ingress => ReconstructionDirection::Ingress,
                    crate::streams::PayloadDirection::Egress => ReconstructionDirection::Egress,
                },
                tcp_position: Some(f.sequence),
                bytes: f.payload@,
                truncated: f.truncated,
            }),
        }),
        CaptureEventKind::LossWindowObserved(w) => input == ReconstructionInput::LossWindow(w),
    }
}

fn socket_identity_of(s: crate::streams::SocketIdentity) -> (c: ReconstructionConnectionIdentity)
    ensures
        identity_view(c) == socket_connection(s@),
{
    ReconstructionConnectionIdentity::Socket {
        socket_cookie: s.socket_cookie,
        first_seen: s.first_seen,
        network_namespace: s.network_namespace,
    }
}

fn lifecycle_input(evidence: crate::streams::SocketEvidence, lifecycle: RawLifecycleEvidence) -> (r: ReconstructionInput)
    ensures
        r matches ReconstructionInput::Event(e) && e@ == lifecycle_event(evidence@, lifecycle),
{
    let role = evidence.role;
    let timestamp = evidence.timestamp;
    ReconstructionInput::Event(ReconstructionEvent {
        connection: socket_identity_of(evidence.socket),
        wal_sequence: None,
        timestamp,
        socket_role: Some(role),
        evidence: ReconstructionEvidence::Lifecycle(lifecycle),
    })
}

impl ReconstructionInput {
    /// The reconstruction input a capture event becomes; events of another
    /// schema are refused.
    pub fn from_capture_event(event: crate::streams::CaptureEvent) -> (r: Result<ReconstructionInput, ReconstructionInputError>)
        ensures
            event.schema_version != crate::streams::CAPTURE_EVENT_SCHEMA_VERSION
                ==> r == Err::<ReconstructionInput, ReconstructionInputError>(ReconstructionInputError::UnsupportedCaptureSchema(event.schema_version)),
            event.schema_version == crate::streams::CAPTURE_EVENT_SCHEMA_VERSION
                ==> (r matches Ok(input) && capture_input_matches(event.kind, input)),
    {
            if event.schema_version != crate::streams::CAPTURE_EVENT_SCHEMA_VERSION {
            return Err(ReconstructionInputError::UnsupportedCaptureSchema(event.schema_version));
        }
        let input = match event.kind {
            CaptureEventKind::SocketConnectObserved(intent) => ReconstructionInput::Event(ReconstructionEvent {
                connection: socket_identity_of(intent.socket),
                wal_sequence: None,
                timestamp: intent.timestamp,
                socket_role: None,
                evidence: ReconstructionEvidence::Lifecycle(RawLifecycleEvidence::ConnectObserved),
            }),
            CaptureEventKind::SocketConnected(evidence) => lifecycle_input(evidence, RawLifecycleEvidence::Established),
            CaptureEventKind::SocketClosedObserved(evidence) => lifecycle_input(evidence, RawLifecycleEvidence::Closed),
            CaptureEventKind::SocketResetObserved(evidence) => lifecycle_input(evidence, RawLifecycleEvidence::Reset),
            CaptureEventKind::SocketStateChangedObserved { socket, raw_state } =>
                lifecycle_input(socket, RawLifecycleEvidence::StateChanged { raw_state }),
            CaptureEventKind::PayloadFragment(fragment) => ReconstructionInput::Event(ReconstructionEvent {
                connection: socket_identity_of(fragment.socket),
                wal_sequence: None,
                timestamp: fragment.timestamp,
                socket_role: None,
                evidence: ReconstructionEvidence::Payload(crate::session::ReconstructionPayload {
                    direction: match fragment.direction {
                        crate::streams::PayloadDirection::Ingress => ReconstructionDirection::Ingress,
                        crate::streams::PayloadDirection::Egress => ReconstructionDirection::Egress,
                    },
                    tcp_position: Some(fragment.sequence),
                    bytes: fragment.payload,
                    truncated: fragment.truncated,
                }),
            }),
            CaptureEventKind::LossWindowObserved(window) => ReconstructionInput::LossWindow(window),
        };
        Ok(input)
    }
}

} // verus!
