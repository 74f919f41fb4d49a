//! One direction of a reconstructed connection in TCP order: which payload
//! fragments stand, which repeat an earlier one exactly, and which overlap.
use vstd::prelude::*;
use crate::bytes::bytes_equal;
use crate::session::{
    ConnectionLossWindow, DerivedTermination, LossWindowObserved, ReconstructionConnectionIdentity,
    ReconstructionFinalization, canonical_tcp_start, seq_distance, sorted_distinct, tcp_start_result, wrapping_distance, FragmentPosition,
    MonotonicTimestamp, RawLifecycleEvidence, ReconstructionConnection, ReconstructionDirection, ReconstructionEvent,
    ReconstructionEvidence, ReconstructionPayload, SocketRole, TcpOrderingAmbiguity, TcpOverlapKind,
};
use crate::text::{bytes_lt, lemma_lex_irreflexive, lemma_lex_total, lemma_lex_transitive, lex_lt, str_copy};
use vstd::utf8::encode_utf8;

verus! {

/// The mathematical content of a payload fragment.
pub struct PayloadView {
    pub direction: ReconstructionDirection,
    pub tcp_position: Option<FragmentPosition>,
    pub bytes: Seq<u8>,
    pub truncated: bool,
}

pub enum EvidenceView {
    Lifecycle(RawLifecycleEvidence),
    Payload(PayloadView),
}

/// The mathematical content of a reconstruction event.
pub struct EventView {
    pub connection: IdentityView,
    pub wal_sequence: Option<u64>,
    pub clock: Seq<char>,
    pub nanoseconds: u64,
    pub socket_role: Option<SocketRole>,
    pub evidence: EvidenceView,
}

impl View for ReconstructionEvent {
    type V = EventView;

    open spec fn view(&self) -> EventView {
        EventView {
            connection: identity_view(self.connection),
            wal_sequence: self.wal_sequence,
            clock: self.timestamp.clock@,
            nanoseconds: self.timestamp.nanoseconds,
            socket_role: self.socket_role,
            evidence: match self.evidence {
                ReconstructionEvidence::Lifecycle(l) => EvidenceView::Lifecycle(l),
                ReconstructionEvidence::Payload(p) => EvidenceView::Payload(PayloadView {
                    direction: p.direction,
                    tcp_position: p.tcp_position,
                    bytes: p.bytes@,
                    truncated: p.truncated,
                }),
            },
        }
    }
}

pub open spec fn events_view(es: Seq<ReconstructionEvent>) -> Seq<EventView> {
    es.map_values(|e: ReconstructionEvent| e@)
}

/// A field-by-field copy of an event.
pub fn copy_event(e: &ReconstructionEvent) -> (c: ReconstructionEvent)
    ensures
        c@ == e@,
{
    let evidence = match &e.evidence {
        ReconstructionEvidence::Lifecycle(l) => ReconstructionEvidence::Lifecycle(*l),
        ReconstructionEvidence::Payload(p) => ReconstructionEvidence::Payload(ReconstructionPayload {
            direction: p.direction,
            tcp_position: p.tcp_position,
            bytes: crate::canonical::copy_bytes(&p.bytes),
            truncated: p.truncated,
        }),
    };
    ReconstructionEvent {
        connection: copy_identity(&e.connection),
        wal_sequence: e.wal_sequence,
        timestamp: MonotonicTimestamp { clock: str_copy(e.timestamp.clock.as_str()), nanoseconds: e.timestamp.nanoseconds },
        socket_role: e.socket_role,
        evidence,
    }
}

/// Whether an event is a payload in direction `d`.
pub open spec fn is_payload_in(e: EventView, d: ReconstructionDirection) -> bool {
    e.evidence matches EvidenceView::Payload(p) && p.direction == d
}

/// The payload events in direction `d`, in event order.
pub open spec fn direction_payloads(es: Seq<EventView>, d: ReconstructionDirection) -> Seq<EventView>
    decreases es.len(),
{
    if es.len() == 0 {
        Seq::empty()
    } else if is_payload_in(es.last(), d) {
        direction_payloads(es.drop_last(), d).push(es.last())
    } else {
        direction_payloads(es.drop_last(), d)
    }
}

pub open spec fn position_of(e: EventView) -> Option<FragmentPosition> {
    match e.evidence {
        EvidenceView::Payload(p) => p.tcp_position,
        EvidenceView::Lifecycle(_) => None,
    }
}

pub open spec fn payload_bytes(e: EventView) -> Seq<u8> {
    match e.evidence {
        EvidenceView::Payload(p) => p.bytes,
        EvidenceView::Lifecycle(_) => Seq::empty(),
    }
}

/// The TCP sequence numbers of the fragments that have a position.
pub open spec fn tcp_sequences(ps: Seq<EventView>) -> Seq<u32>
    decreases ps.len(),
{
    if ps.len() == 0 {
        Seq::empty()
    } else {
        match position_of(ps.last()) {
            Some(p) => tcp_sequences(ps.drop_last()).push(p.tcp_sequence),
            None => tcp_sequences(ps.drop_last()),
        }
    }
}

/// `r` is the canonical start of the fragments' TCP sequence numbers.
pub open spec fn start_of(ps: Seq<EventView>, r: (Option<u32>, Option<TcpOrderingAmbiguity>)) -> bool {
    exists|s: Seq<u32>| sorted_distinct(s, tcp_sequences(ps)) && tcp_start_result(s, r)
}

/// Two fragments at one TCP position where one of them, or the earlier one
/// that last held the position, lacks a WAL sequence: their order cannot be
/// recovered.
pub open spec fn provenance_ambiguous(ps: Seq<EventView>) -> bool {
    exists|i: int, j: int| {
        &&& 0 <= i < j < ps.len()
        &&& position_of(#[trigger] ps[i]) is Some
        &&& position_of(ps[i]) == position_of(#[trigger] ps[j])
        &&& (forall|k: int| i < k < j ==> position_of(#[trigger] ps[k]) != position_of(ps[i]))
        &&& (ps[i].wal_sequence is None || ps[j].wal_sequence is None)
    }
}

/// The order key of a fragment given the canonical start: its position
/// relative to the start, its continuation position, its WAL sequence, its
/// clock and its time; absent parts sort last.
pub open spec fn order_key(e: EventView, start: Option<u32>) -> (u32, u32, u64, Seq<u8>, u64) {
    let tcp: u32 = match position_of(e) { Some(p) => p.tcp_sequence, None => u32::MAX };
    (
        match start { Some(s) => seq_distance(s, tcp) as u32, None => u32::MAX },
        match position_of(e) { Some(p) => p.continuation_position, None => u32::MAX },
        match e.wal_sequence { Some(w) => w, None => u64::MAX },
        encode_utf8(e.clock),
        e.nanoseconds,
    )
}

/// Lexicographic order on order keys.
pub open spec fn key_lt(a: (u32, u32, u64, Seq<u8>, u64), b: (u32, u32, u64, Seq<u8>, u64)) -> bool {
    ||| a.0 < b.0
    ||| a.0 == b.0 && a.1 < b.1
    ||| a.0 == b.0 && a.1 == b.1 && a.2 < b.2
    ||| a.0 == b.0 && a.1 == b.1 && a.2 == b.2 && lex_lt(a.3, b.3)
    ||| a.0 == b.0 && a.1 == b.1 && a.2 == b.2 && a.3 == b.3 && a.4 < b.4
}

/// Inserts `x` after the trailing fragments that order strictly after it.
pub open spec fn insert_by_key(s: Seq<EventView>, x: EventView, start: Option<u32>) -> Seq<EventView>
    decreases s.len(),
{
    if s.len() == 0 {
        seq![x]
    } else if key_lt(order_key(x, start), order_key(s.last(), start)) {
        insert_by_key(s.drop_last(), x, start).push(s.last())
    } else {
        s.push(x)
    }
}

/// The fragments in order; fragments with equal keys keep their order.
pub open spec fn sort_by_key(s: Seq<EventView>, start: Option<u32>) -> Seq<EventView>
    decreases s.len(),
{
    if s.len() == 0 {
        Seq::empty()
    } else {
        insert_by_key(sort_by_key(s.drop_last(), start), s.last(), start)
    }
}

pub open spec fn range_of(e: EventView) -> Option<(u32, u32, u32)> {
    match e.evidence {
        EvidenceView::Payload(p) => match p.tcp_position {
            Some(pos) => Some((pos.tcp_sequence, pos.continuation_position,
                if p.bytes.len() > u32::MAX { u32::MAX } else { p.bytes.len() as u32 })),
            None => None,
        },
        EvidenceView::Lifecycle(_) => None,
    }
}

/// A fragment repeats another exactly: the same range and bytes.
pub open spec fn exact_repeat(retained: EventView, p: EventView) -> bool {
    range_of(retained) == range_of(p) && payload_bytes(retained) == payload_bytes(p)
}

/// The first of `frags` from index `i` that `p` repeats exactly.
pub open spec fn first_repeat(frags: Seq<EventView>, p: EventView, i: int) -> Option<int>
    decreases frags.len() - i,
{
    if i < 0 || i >= frags.len() {
        None
    } else if exact_repeat(frags[i], p) {
        Some(i)
    } else {
        first_repeat(frags, p, i + 1)
    }
}

/// Ordered fragments split into those retained and exact retransmissions
/// (each with the retained fragment it repeats).
pub open spec fn split_repeats(sorted: Seq<EventView>) -> (Seq<EventView>, Seq<(EventView, EventView)>)
    decreases sorted.len(),
{
    if sorted.len() == 0 {
        (Seq::empty(), Seq::empty())
    } else {
        let (frags, repeats) = split_repeats(sorted.drop_last());
        let p = sorted.last();
        match first_repeat(frags, p, 0) {
            Some(i) => (frags, repeats.push((frags[i], p))),
            None => (frags.push(p), repeats),
        }
    }
}

/// Two non-empty ranges share a byte, in 32-bit sequence space.
pub open spec fn overlap_of(a: EventView, b: EventView) -> bool {
    match (range_of(a), range_of(b)) {
        (Some((x, _, lx)), Some((y, _, ly))) => lx > 0 && ly > 0 && (seq_distance(x, y) < lx || seq_distance(y, x) < ly),
        _ => false,
    }
}

/// Overlaps at the same start conflict; others are partial.
pub open spec fn overlap_kind(a: EventView, b: EventView) -> TcpOverlapKind {
    if (match (range_of(a), range_of(b)) { (Some(x), Some(y)) => x.0 == y.0, (None, None) => true, _ => false }) {
        TcpOverlapKind::Conflicting
    } else {
        TcpOverlapKind::Partial
    }
}

/// The overlaps of fragment `i` with fragments `j` onwards.
pub open spec fn overlaps_after(frags: Seq<EventView>, i: int, j: int) -> Seq<(EventView, EventView, TcpOverlapKind)>
    decreases frags.len() - j,
{
    if j < 0 || j >= frags.len() {
        Seq::empty()
    } else {
        (if overlap_of(frags[i], frags[j]) { seq![(frags[i], frags[j], overlap_kind(frags[i], frags[j]))] } else { Seq::empty() })
            + overlaps_after(frags, i, j + 1)
    }
}

/// The overlapping pairs of fragments from `i` onwards, by first fragment
/// then second.
pub open spec fn overlaps_from(frags: Seq<EventView>, i: int) -> Seq<(EventView, EventView, TcpOverlapKind)>
    decreases frags.len() - i,
{
    if i < 0 || i >= frags.len() {
        Seq::empty()
    } else {
        overlaps_after(frags, i, i + 1) + overlaps_from(frags, i + 1)
    }
}

/// One direction's payloads in TCP order.
pub struct OrderingView {
    pub fragments: Seq<EventView>,
    pub retransmissions: Seq<(EventView, EventView)>,
    pub overlaps: Seq<(EventView, EventView, TcpOverlapKind)>,
    pub ambiguity: Option<TcpOrderingAmbiguity>,
}

/// The ordering of payload fragments `ps` given their canonical start `r`.
pub open spec fn ordering_of(ps: Seq<EventView>, r: (Option<u32>, Option<TcpOrderingAmbiguity>)) -> OrderingView {
    let sorted = sort_by_key(ps, r.0);
    let (frags, repeats) = split_repeats(sorted);
    OrderingView {
        fragments: frags,
        retransmissions: repeats,
        overlaps: overlaps_from(frags, 0),
        ambiguity: if provenance_ambiguous(ps) { Some(TcpOrderingAmbiguity::MissingProvenance) } else { r.1 },
    }
}

proof fn lemma_insert_by_key_len(s: Seq<EventView>, x: EventView, start: Option<u32>)
    ensures
        insert_by_key(s, x, start).len() == s.len() + 1,
    decreases s.len(),
{
    if s.len() > 0 && key_lt(order_key(x, start), order_key(s.last(), start)) {
        lemma_insert_by_key_len(s.drop_last(), x, start);
    }
}

proof fn lemma_sort_by_key_len(s: Seq<EventView>, start: Option<u32>)
    ensures
        sort_by_key(s, start).len() == s.len(),
    decreases s.len(),
{
    if s.len() > 0 {
        lemma_sort_by_key_len(s.drop_last(), start);
        lemma_insert_by_key_len(sort_by_key(s.drop_last(), start), s.last(), start);
    }
}

proof fn lemma_first_repeat(frags: Seq<EventView>, p: EventView, i: int)
    requires
        0 <= i,
    ensures
        first_repeat(frags, p, i) matches Some(k) ==> i <= k < frags.len() && exact_repeat(frags[k], p),
        first_repeat(frags, p, i) is None ==> forall|k: int| i <= k < frags.len() ==> !exact_repeat(#[trigger] frags[k], p),
    decreases frags.len() - i,
{
    if i < frags.len() && !exact_repeat(frags[i], p) {
        lemma_first_repeat(frags, p, i + 1);
    }
}

/// A retransmission pair repeats exactly a fragment that was kept.
pub open spec fn retained_in(frags: Seq<EventView>, pair: (EventView, EventView)) -> bool {
    exact_repeat(pair.0, pair.1) && exists|i: int| 0 <= i < frags.len() && frags[i] == pair.0
}

/// No kept fragment repeats an earlier one exactly.
pub open spec fn no_exact_repeats(frags: Seq<EventView>) -> bool {
    forall|i: int, j: int| 0 <= i < j < frags.len() ==> !exact_repeat(#[trigger] frags[i], #[trigger] frags[j])
}

/// Every retransmission repeats a kept fragment.
pub open spec fn repeats_retained(frags: Seq<EventView>, repeats: Seq<(EventView, EventView)>) -> bool {
    forall|k: int| 0 <= k < repeats.len() ==> #[trigger] retained_in(frags, repeats[k])
}

/// Splitting ordered fragments accounts for each of them once: as a kept
/// fragment or as an exact retransmission of a kept fragment; no kept
/// fragment repeats an earlier one exactly.
#[verifier::spinoff_prover]
pub proof fn lemma_split_repeats(sorted: Seq<EventView>)
    ensures
        split_repeats(sorted).0.len() + split_repeats(sorted).1.len() == sorted.len(),
        repeats_retained(split_repeats(sorted).0, split_repeats(sorted).1),
        no_exact_repeats(split_repeats(sorted).0),
    decreases sorted.len(),
{
    if sorted.len() > 0 {
        let prev = split_repeats(sorted.drop_last());
        lemma_split_repeats(sorted.drop_last());
        let frags = prev.0;
        let repeats = prev.1;
        let p = sorted.last();
        lemma_first_repeat(frags, p, 0);
        match first_repeat(frags, p, 0) {
            Some(i) => {
                let r2 = repeats.push((frags[i], p));
                assert(split_repeats(sorted) == (frags, r2));
                assert forall|k: int| 0 <= k < r2.len() implies #[trigger] retained_in(frags, r2[k]) by {
                    if k < repeats.len() {
                        assert(r2[k] == repeats[k]);
                        assert(retained_in(frags, repeats[k]));
                    } else {
                        assert(frags[i] == r2[k].0);
                    }
                }
            },
            None => {
                let f2 = frags.push(p);
                assert(split_repeats(sorted) == (f2, repeats));
                assert forall|k: int| 0 <= k < repeats.len() implies #[trigger] retained_in(f2, repeats[k]) by {
                    assert(retained_in(frags, repeats[k]));
                    let m = choose|m: int| 0 <= m < frags.len() && frags[m] == repeats[k].0;
                    assert(f2[m] == frags[m]);
                }
                assert forall|i: int, j: int| 0 <= i < j < f2.len() implies !exact_repeat(#[trigger] f2[i], #[trigger] f2[j]) by {
                    assert(f2[i] == frags[i]);
                    if j < frags.len() {
                        assert(f2[j] == frags[j]);
                    } else {
                        assert(!exact_repeat(frags[i], p));
                    }
                }
            },
        }
    }
}

/// Ordering accounts for every payload fragment: each one is either a kept
/// fragment or an exact retransmission of a kept fragment with the same
/// range and bytes, and no two kept fragments repeat each other exactly.
#[verifier::spinoff_prover]
pub proof fn lemma_ordering_accounts_for_every_payload(ps: Seq<EventView>, r: (Option<u32>, Option<TcpOrderingAmbiguity>))
    ensures
        ordering_of(ps, r).fragments.len() + ordering_of(ps, r).retransmissions.len() == ps.len(),
        repeats_retained(ordering_of(ps, r).fragments, ordering_of(ps, r).retransmissions),
        no_exact_repeats(ordering_of(ps, r).fragments),
{
    lemma_sort_by_key_len(ps, r.0);
    lemma_split_repeats(sort_by_key(ps, r.0));
}

proof fn lemma_key_order(a: (u32, u32, u64, Seq<u8>, u64), b: (u32, u32, u64, Seq<u8>, u64), c: (u32, u32, u64, Seq<u8>, u64))
    ensures
        !key_lt(a, a),
        key_lt(a, b) && key_lt(b, c) ==> key_lt(a, c),
        a != b ==> key_lt(a, b) || key_lt(b, a),
{
    lemma_lex_irreflexive(a.3);
    if lex_lt(a.3, b.3) && lex_lt(b.3, c.3) {
        lemma_lex_transitive(a.3, b.3, c.3);
    }
    if a.3 != b.3 {
        lemma_lex_total(a.3, b.3);
    }
}

/// Fragments in key order: none orders strictly before an earlier one.
pub open spec fn key_sorted(s: Seq<EventView>, start: Option<u32>) -> bool {
    forall|i: int, j: int| 0 <= i < j < s.len() ==> !key_lt(order_key(#[trigger] s[j], start), order_key(#[trigger] s[i], start))
}

#[verifier::spinoff_prover]
proof fn lemma_insert_by_key_sorted(s: Seq<EventView>, x: EventView, start: Option<u32>)
    requires
        key_sorted(s, start),
    ensures
        insert_by_key(s, x, start).to_multiset() == s.to_multiset().insert(x),
        key_sorted(insert_by_key(s, x, start), start),
    decreases s.len(),
{
    broadcast use vstd::multiset::group_multiset_axioms;
    if s.len() == 0 {
        assert(seq![x] =~= s.push(x));
        vstd::seq_lib::to_multiset_build(s, x);
    } else {
        let init = s.drop_last();
        let last = s.last();
        assert(s =~= init.push(last));
        vstd::seq_lib::to_multiset_build(init, last);
        if key_lt(order_key(x, start), order_key(last, start)) {
            let inner = insert_by_key(init, x, start);
            assert forall|i: int, j: int| 0 <= i < j < init.len() implies
                !key_lt(order_key(#[trigger] init[j], start), order_key(#[trigger] init[i], start)) by {
                assert(init[i] == s[i] && init[j] == s[j]);
            }
            lemma_insert_by_key_sorted(init, x, start);
            let r = inner.push(last);
            vstd::seq_lib::to_multiset_build(inner, last);
            assert(r.to_multiset() =~= s.to_multiset().insert(x));
            assert forall|i: int, j: int| 0 <= i < j < r.len() implies
                !key_lt(order_key(#[trigger] r[j], start), order_key(#[trigger] r[i], start)) by {
                if j == r.len() - 1 {
                    let y = inner[i];
                    assert(r[i] == y);
                    assert(inner.contains(y));
                    vstd::seq_lib::to_multiset_contains(inner, y);
                    lemma_key_order(order_key(last, start), order_key(x, start), order_key(last, start));
                    if y != x {
                        vstd::seq_lib::to_multiset_contains(init, y);
                        let k = choose|k: int| 0 <= k < init.len() && init[k] == y;
                        assert(s[k] == init[k]);
                        assert(s[s.len() - 1] == last);
                    }
                }
            }
        } else {
            let r = s.push(x);
            vstd::seq_lib::to_multiset_build(s, x);
            assert forall|i: int, j: int| 0 <= i < j < r.len() implies
                !key_lt(order_key(#[trigger] r[j], start), order_key(#[trigger] r[i], start)) by {
                if j == r.len() - 1 && i < s.len() - 1 {
                    assert(!key_lt(order_key(s[s.len() - 1], start), order_key(s[i], start)));
                    lemma_key_order(order_key(x, start), order_key(s[i], start), order_key(last, start));
                    lemma_key_order(order_key(s[i], start), order_key(last, start), order_key(x, start));
                }
            }
        }
    }
}

#[verifier::spinoff_prover]
proof fn lemma_sort_by_key_sorted(s: Seq<EventView>, start: Option<u32>)
    ensures
        sort_by_key(s, start).to_multiset() == s.to_multiset(),
        key_sorted(sort_by_key(s, start), start),
    decreases s.len(),
{
    if s.len() > 0 {
        vstd::seq_lib::to_multiset_build(s.drop_last(), s.last());
        lemma_sort_by_key_sorted(s.drop_last(), start);
        lemma_insert_by_key_sorted(sort_by_key(s.drop_last(), start), s.last(), start);
        assert(s =~= s.drop_last().push(s.last()));
    } else {
        assert(s =~= Seq::<EventView>::empty());
    }
}

/// Fragments with equal order keys are the same fragment.
pub open spec fn keys_distinct(s: Seq<EventView>, start: Option<u32>) -> bool {
    forall|i: int, j: int| 0 <= i < s.len() && 0 <= j < s.len() && order_key(#[trigger] s[i], start) == order_key(#[trigger] s[j], start)
        ==> s[i] == s[j]
}

#[verifier::spinoff_prover]
proof fn lemma_sorted_same_first(p: Seq<EventView>, q: Seq<EventView>, start: Option<u32>)
    requires
        p.len() > 0,
        key_sorted(p, start),
        key_sorted(q, start),
        p.to_multiset() == q.to_multiset(),
        keys_distinct(p, start),
    ensures
        p[0] == q[0],
{
    let a = p[0];
    vstd::seq_lib::to_multiset_len(p);
    vstd::seq_lib::to_multiset_len(q);
    let b = q[0];
    assert(q.contains(b));
    vstd::seq_lib::to_multiset_contains(q, b);
    vstd::seq_lib::to_multiset_contains(p, b);
    assert(p.contains(b));
    let kb = choose|k: int| 0 <= k < p.len() && p[k] == b;
    assert(p.contains(a));
    vstd::seq_lib::to_multiset_contains(p, a);
    vstd::seq_lib::to_multiset_contains(q, a);
    assert(q.contains(a));
    let ka = choose|k: int| 0 <= k < q.len() && q[k] == a;
    if a != b {
        assert(order_key(p[0], start) != order_key(p[kb], start));
        lemma_key_order(order_key(a, start), order_key(b, start), order_key(a, start));
        if kb > 0 {
            assert(!key_lt(order_key(p[kb], start), order_key(p[0], start)));
        }
        if ka > 0 {
            assert(!key_lt(order_key(q[ka], start), order_key(q[0], start)));
        }
    }
}

#[verifier::spinoff_prover]
proof fn lemma_sorted_unique(p: Seq<EventView>, q: Seq<EventView>, start: Option<u32>)
    requires
        key_sorted(p, start),
        key_sorted(q, start),
        p.to_multiset() == q.to_multiset(),
        keys_distinct(p, start),
    ensures
        p == q,
    decreases p.len(),
{
    vstd::seq_lib::to_multiset_len(p);
    vstd::seq_lib::to_multiset_len(q);
    if p.len() > 0 {
        lemma_sorted_same_first(p, q, start);
        let a = p[0];
        let p1 = p.remove(0);
        let q1 = q.remove(0);
        vstd::seq_lib::to_multiset_remove(p, 0);
        vstd::seq_lib::to_multiset_remove(q, 0);
        assert(p1.to_multiset() == q1.to_multiset());
        assert forall|i: int, j: int| 0 <= i < j < p1.len() implies
            !key_lt(order_key(#[trigger] p1[j], start), order_key(#[trigger] p1[i], start)) by {
            assert(p1[i] == p[i + 1] && p1[j] == p[j + 1]);
        }
        assert forall|i: int, j: int| 0 <= i < j < q1.len() implies
            !key_lt(order_key(#[trigger] q1[j], start), order_key(#[trigger] q1[i], start)) by {
            assert(q1[i] == q[i + 1] && q1[j] == q[j + 1]);
        }
        assert forall|i: int, j: int| 0 <= i < p1.len() && 0 <= j < p1.len()
            && order_key(#[trigger] p1[i], start) == order_key(#[trigger] p1[j], start) implies p1[i] == p1[j] by {
            assert(p1[i] == p[i + 1] && p1[j] == p[j + 1]);
        }
        lemma_sorted_unique(p1, q1, start);
        assert(p =~= seq![a] + p1);
        assert(q =~= seq![a] + q1);
    }
}

/// Ordering does not depend on the order the fragments arrived in: two
/// arrangements of the same fragments, no two of which share an order key,
/// give the same kept fragments, retransmissions and overlaps under the
/// same canonical start.
#[verifier::spinoff_prover]
pub proof fn lemma_ordering_ignores_arrival_order(
    ps1: Seq<EventView>,
    ps2: Seq<EventView>,
    r: (Option<u32>, Option<TcpOrderingAmbiguity>),
)
    requires
        ps1.to_multiset() == ps2.to_multiset(),
        keys_distinct(ps1, r.0),
    ensures
        ordering_of(ps1, r).fragments == ordering_of(ps2, r).fragments,
        ordering_of(ps1, r).retransmissions == ordering_of(ps2, r).retransmissions,
        ordering_of(ps1, r).overlaps == ordering_of(ps2, r).overlaps,
{
    lemma_sort_by_key_sorted(ps1, r.0);
    lemma_sort_by_key_sorted(ps2, r.0);
    let s1 = sort_by_key(ps1, r.0);
    let s2 = sort_by_key(ps2, r.0);
    assert forall|i: int, j: int| 0 <= i < s1.len() && 0 <= j < s1.len()
        && order_key(#[trigger] s1[i], r.0) == order_key(#[trigger] s1[j], r.0) implies s1[i] == s1[j] by {
        assert(s1.contains(s1[i]) && s1.contains(s1[j]));
        vstd::seq_lib::to_multiset_contains(s1, s1[i]);
        vstd::seq_lib::to_multiset_contains(s1, s1[j]);
        vstd::seq_lib::to_multiset_contains(ps1, s1[i]);
        vstd::seq_lib::to_multiset_contains(ps1, s1[j]);
        assert(ps1.contains(s1[i]) && ps1.contains(s1[j]));
        let a = choose|a: int| 0 <= a < ps1.len() && ps1[a] == s1[i];
        let b = choose|b: int| 0 <= b < ps1.len() && ps1[b] == s1[j];
        assert(ps1[a] == ps1[b]);
    }
    lemma_sorted_unique(s1, s2, r.0);
}

/// An exact retransmission and the fragment it repeats.
#[derive(Clone, Debug, PartialEq, Eq)]
pub struct TcpRetransmission {
    pub retained: ReconstructionEvent,
    pub retransmission: ReconstructionEvent,
}

/// Two fragments that share bytes without repeating each other.
#[derive(Clone, Debug, PartialEq, Eq)]
pub struct TcpOverlap {
    pub first: ReconstructionEvent,
    pub second: ReconstructionEvent,
    pub kind: TcpOverlapKind,
}

/// One direction's payloads in TCP serial-number order.
#[derive(Clone, Debug, PartialEq, Eq)]
pub struct TcpPayloadOrdering {
    pub fragments: Vec<ReconstructionEvent>,
    pub retransmissions: Vec<TcpRetransmission>,
    pub overlaps: Vec<TcpOverlap>,
    pub ambiguity: Option<TcpOrderingAmbiguity>,
}

impl View for TcpPayloadOrdering {
    type V = OrderingView;

    open spec fn view(&self) -> OrderingView {
        OrderingView {
            fragments: events_view(self.fragments@),
            retransmissions: self.retransmissions@.map_values(|t: TcpRetransmission| (t.retained@, t.retransmission@)),
            overlaps: self.overlaps@.map_values(|o: TcpOverlap| (o.first@, o.second@, o.kind)),
            ambiguity: self.ambiguity,
        }
    }
}


fn collect_payloads(events: &Vec<ReconstructionEvent>, d: ReconstructionDirection) -> (ps: Vec<ReconstructionEvent>)
    ensures
        events_view(ps@) == direction_payloads(events_view(events@), d),
{
    let mut out: Vec<ReconstructionEvent> = Vec::new();
    let mut i: usize = 0;
    while i < events.len()
        invariant
            i <= events@.len(),
            events_view(out@) == direction_payloads(events_view(events@.take(i as int)), d),
        decreases events.len() - i,
    {
        let e = &events[i];
        let keep = match &e.evidence {
            ReconstructionEvidence::Payload(p) => p.direction == d,
            ReconstructionEvidence::Lifecycle(_) => false,
        };
        let ghost prev = out@;
        if keep {
            out.push(copy_event(e));
        }
        proof {
            let t = events_view(events@.take(i + 1));
            assert(t.drop_last() =~= events_view(events@.take(i as int)));
            assert(t.last() == e@);
            if keep {
                assert(events_view(out@) =~= events_view(prev).push(e@));
            }
        }
        i = i + 1;
    }
    proof {
        assert(events@.take(events@.len() as int) =~= events@);
    }
    out
}

fn fragment_sequences(ps: &Vec<ReconstructionEvent>) -> (seqs: Vec<u32>)
    ensures
        seqs@ == tcp_sequences(events_view(ps@)),
{
    let mut out: Vec<u32> = Vec::new();
    let mut i: usize = 0;
    while i < ps.len()
        invariant
            i <= ps@.len(),
            out@ == tcp_sequences(events_view(ps@.take(i as int))),
        decreases ps.len() - i,
    {
        let position = match &ps[i].evidence {
            ReconstructionEvidence::Payload(p) => p.tcp_position,
            ReconstructionEvidence::Lifecycle(_) => None,
        };
        match position {
            Some(pos) => out.push(pos.tcp_sequence),
            None => {},
        }
        proof {
            let t = events_view(ps@.take(i + 1));
            assert(t.drop_last() =~= events_view(ps@.take(i as int)));
            assert(t.last() == ps@[i as int]@);
        }
        i = i + 1;
    }
    proof {
        assert(ps@.take(ps@.len() as int) =~= ps@);
    }
    out
}

fn event_position(e: &ReconstructionEvent) -> (p: Option<FragmentPosition>)
    ensures
        p == position_of(e@),
{
    match &e.evidence {
        ReconstructionEvidence::Payload(p) => p.tcp_position,
        ReconstructionEvidence::Lifecycle(_) => None,
    }
}

/// Whether fragments at one position leave their order unrecoverable.
fn missing_provenance(ps: &Vec<ReconstructionEvent>) -> (r: bool)
    ensures
        r == provenance_ambiguous(events_view(ps@)),
{
    let ghost v = events_view(ps@);
    let mut j: usize = 0;
    while j < ps.len()
        invariant
            v == events_view(ps@),
            j <= ps@.len(),
            forall|a: int, b: int| #![trigger v[a], v[b]] 0 <= a < b < j ==> !{
                &&& position_of(v[a]) is Some
                &&& position_of(v[a]) == position_of(v[b])
                &&& (forall|k: int| a < k < b ==> position_of(#[trigger] v[k]) != position_of(v[a]))
                &&& (v[a].wal_sequence is None || v[b].wal_sequence is None)
            },
        decreases ps.len() - j,
    {
        let pj = event_position(&ps[j]);
        if pj.is_some() {
            let mut i: usize = j;
            while i > 0 && event_position(&ps[i - 1]) != pj
                invariant
                    v == events_view(ps@),
                    i <= j < ps@.len(),
                    pj == position_of(v[j as int]),
                    forall|k: int| i <= k < j ==> position_of(#[trigger] v[k]) != pj,
                decreases i,
            {
                i = i - 1;
            }
            if i > 0 {
                let a = i - 1;
                assert(v[a as int] == ps@[a as int]@);
                if ps[a].wal_sequence.is_none() || ps[j].wal_sequence.is_none() {
                    proof {
                        assert(v[j as int] == ps@[j as int]@);
                        assert(forall|k: int| a < k < j ==> position_of(#[trigger] v[k]) != position_of(v[a as int]));
                    }
                    return true;
                }
                proof {
                    assert forall|x: int| 0 <= x < j implies !({
                        &&& position_of(v[x]) is Some
                        &&& position_of(v[x]) == position_of(v[j as int])
                        &&& (forall|k: int| x < k < j ==> position_of(#[trigger] v[k]) != position_of(v[x]))
                        &&& (v[x].wal_sequence is None || v[j as int].wal_sequence is None)
                    }) by {
                        if x < a && position_of(v[x]) == position_of(v[j as int]) {
                            assert(position_of(v[a as int]) == position_of(v[x]));
                        }
                    }
                }
            } else {
                proof {
                    assert forall|x: int| 0 <= x < j implies !(position_of(v[x]) == position_of(v[j as int])) by {
                    }
                }
            }
        }
        j = j + 1;
    }
    false
}


fn order_key_exec(e: &ReconstructionEvent, start: Option<u32>) -> (k: (u32, u32, u64))
    ensures
        k.0 == order_key(e@, start).0,
        k.1 == order_key(e@, start).1,
        k.2 == order_key(e@, start).2,
{
    let position = event_position(e);
    let tcp: u32 = match position {
        Some(p) => p.tcp_sequence,
        None => u32::MAX,
    };
    let relative: u32 = match start {
        Some(s) => wrapping_distance(s, tcp),
        None => u32::MAX,
    };
    let continuation: u32 = match position {
        Some(p) => p.continuation_position,
        None => u32::MAX,
    };
    let wal: u64 = match e.wal_sequence {
        Some(w) => w,
        None => u64::MAX,
    };
    (relative, continuation, wal)
}

/// Whether `a` orders strictly before `b`.
fn key_less(a: &ReconstructionEvent, b: &ReconstructionEvent, start: Option<u32>) -> (r: bool)
    ensures
        r == key_lt(order_key(a@, start), order_key(b@, start)),
{
    let ka = order_key_exec(a, start);
    let kb = order_key_exec(b, start);
    if ka.0 != kb.0 {
        return ka.0 < kb.0;
    }
    if ka.1 != kb.1 {
        return ka.1 < kb.1;
    }
    if ka.2 != kb.2 {
        return ka.2 < kb.2;
    }
    let ca = a.timestamp.clock.as_str().as_bytes();
    let cb = b.timestamp.clock.as_str().as_bytes();
    if bytes_lt(ca, cb) {
        return true;
    }
    if !bytes_equal(ca, cb) {
        return false;
    }
    a.timestamp.nanoseconds < b.timestamp.nanoseconds
}

proof fn lemma_insert_key_at(s: Seq<EventView>, x: EventView, start: Option<u32>, j: int)
    requires
        0 <= j <= s.len(),
        forall|k: int| j <= k < s.len() ==> key_lt(order_key(x, start), order_key(#[trigger] s[k], start)),
        j == 0 || !key_lt(order_key(x, start), order_key(s[j - 1], start)),
    ensures
        insert_by_key(s, x, start) == s.insert(j, x),
    decreases s.len(),
{
    if s.len() == 0 {
        assert(s.insert(j, x) =~= seq![x]);
    } else if key_lt(order_key(x, start), order_key(s.last(), start)) {
        lemma_insert_key_at(s.drop_last(), x, start, j);
        assert(s.insert(j, x) =~= s.drop_last().insert(j, x).push(s.last()));
    } else {
        assert(j == s.len());
        assert(s.insert(j, x) =~= s.push(x));
    }
}

/// The fragments sorted by order key, stably.
fn sort_fragments(ps: Vec<ReconstructionEvent>, start: Option<u32>) -> (out: Vec<ReconstructionEvent>)
    ensures
        events_view(out@) == sort_by_key(events_view(ps@), start),
{
    let ghost all = events_view(ps@);
    let mut rest = crate::canonicalize::reversed(ps);
    let ghost n = all.len();
    let mut out: Vec<ReconstructionEvent> = Vec::new();
    proof {
        assert(all.take(0) =~= Seq::<EventView>::empty());
        assert forall|q: int| 0 <= q < rest@.len() implies (#[trigger] rest@[q])@ == all[n - 1 - q] by {}
    }
    while rest.len() > 0
        invariant
            n == all.len(),
            rest@.len() <= n,
            forall|q: int| 0 <= q < rest@.len() ==> (#[trigger] rest@[q])@ == all[n - 1 - q],
            events_view(out@) == sort_by_key(all.take(n - rest@.len()), start),
        decreases rest.len(),
    {
        let ghost done = n - rest@.len();
        let x = rest.pop().unwrap();
        proof {
            assert(x@ == all[done]);
        }
        let mut j: usize = out.len();
        while j > 0 && key_less(&x, &out[j - 1], start)
            invariant
                j <= out@.len(),
                forall|k: int| j <= k < out@.len() ==> key_lt(order_key(x@, start), order_key(#[trigger] out@[k]@, start)),
            decreases j,
        {
            j = j - 1;
        }
        let ghost before = events_view(out@);
        proof {
            assert forall|k: int| j <= k < before.len() implies key_lt(order_key(x@, start), order_key(#[trigger] before[k], start)) by {
                assert(before[k] == out@[k]@);
            }
            if j > 0 {
                assert(before[j - 1] == out@[j - 1]@);
            }
            lemma_insert_key_at(before, x@, start, j as int);
            assert(all.take(done + 1).drop_last() =~= all.take(done));
            assert(all.take(done + 1).last() == x@);
        }
        out.insert(j, x);
        proof {
            assert(events_view(out@) =~= before.insert(j as int, x@));
        }
    }
    proof {
        assert(all.take(n as int) =~= all);
    }
    out
}


fn event_range(e: &ReconstructionEvent) -> (r: Option<(u32, u32, u32)>)
    ensures
        r == range_of(e@),
{
    crate::session::event_tcp_range(e)
}

fn event_bytes(e: &ReconstructionEvent) -> (b: &[u8])
    ensures
        b@ == payload_bytes(e@),
{
    match &e.evidence {
        ReconstructionEvidence::Payload(p) => p.bytes.as_slice(),
        ReconstructionEvidence::Lifecycle(_) => {
            let empty: &[u8] = &[];
            proof {
                assert(empty@ =~= Seq::<u8>::empty());
            }
            empty
        },
    }
}

proof fn lemma_first_repeat_bounds(frags: Seq<EventView>, p: EventView, k: int)
    ensures
        first_repeat(frags, p, k) matches Some(i) ==> k <= i < frags.len(),
    decreases frags.len() - k,
{
    if 0 <= k < frags.len() && !exact_repeat(frags[k], p) {
        lemma_first_repeat_bounds(frags, p, k + 1);
    }
}

fn find_repeat(frags: &Vec<ReconstructionEvent>, p: &ReconstructionEvent) -> (r: Option<usize>)
    ensures
        match first_repeat(events_view(frags@), p@, 0) {
            Some(i) => 0 <= i < frags@.len() && r == Some(i as usize),
            None => r is None,
        },
{
    let ghost v = events_view(frags@);
    proof {
        lemma_first_repeat_bounds(v, p@, 0);
    }
    let mut i: usize = 0;
    while i < frags.len()
        invariant
            v == events_view(frags@),
            i <= frags@.len(),
            first_repeat(v, p@, 0) == first_repeat(v, p@, i as int),
        decreases frags.len() - i,
    {
        proof {
            assert(v[i as int] == frags@[i as int]@);
        }
        if event_range(&frags[i]) == event_range(p) && bytes_equal(event_bytes(&frags[i]), event_bytes(p)) {
            return Some(i);
        }
        i = i + 1;
    }
    None
}

pub open spec fn repeats_view(rs: Seq<TcpRetransmission>) -> Seq<(EventView, EventView)> {
    rs.map_values(|t: TcpRetransmission| (t.retained@, t.retransmission@))
}

/// Splits ordered fragments into retained fragments and exact
/// retransmissions.
fn split_retransmissions(sorted: Vec<ReconstructionEvent>) -> (r: (Vec<ReconstructionEvent>, Vec<TcpRetransmission>))
    ensures
        (events_view(r.0@), repeats_view(r.1@)) == split_repeats(events_view(sorted@)),
{
    let ghost all = events_view(sorted@);
    let ghost n = all.len();
    let mut rest = crate::canonicalize::reversed(sorted);
    let mut frags: Vec<ReconstructionEvent> = Vec::new();
    let mut repeats: Vec<TcpRetransmission> = Vec::new();
    proof {
        assert(all.take(0) =~= Seq::<EventView>::empty());
    }
    while rest.len() > 0
        invariant
            n == all.len(),
            rest@.len() <= n,
            forall|q: int| 0 <= q < rest@.len() ==> (#[trigger] rest@[q])@ == all[n - 1 - q],
            (events_view(frags@), repeats_view(repeats@)) == split_repeats(all.take(n - rest@.len())),
        decreases rest.len(),
    {
        let ghost done = n - rest@.len();
        let p = rest.pop().unwrap();
        proof {
            assert(p@ == all[done]);
            assert(all.take(done + 1).drop_last() =~= all.take(done));
            assert(all.take(done + 1).last() == p@);
        }
        let ghost fv = events_view(frags@);
        let ghost rv = repeats_view(repeats@);
        let found = find_repeat(&frags, &p);
        let frag_count = frags.len();
        proof {
            assert(fv.len() == frag_count);
            assert(p@ == all[done]);
            match first_repeat(fv, p@, 0) {
                Some(k) => assert(found == Some(k as usize) && 0 <= k < fv.len()),
                None => assert(found is None),
            }
        }
        match found {
            Some(i) => {
                let retained = copy_event(&frags[i]);
                proof {
                    assert(fv[i as int] == frags@[i as int]@);
                    assert(first_repeat(fv, p@, 0) == Some(i as int));
                }
                repeats.push(TcpRetransmission { retained, retransmission: p });
                proof {
                    assert(repeats_view(repeats@) =~= rv.push((fv[i as int], all[done])));
                    assert(first_repeat(fv, all[done], 0) == Some(i as int));
                    assert(split_repeats(all.take(done + 1)) == (fv, rv.push((fv[i as int], all[done]))));
                }
            },
            None => {
                frags.push(p);
                proof {
                    assert(events_view(frags@) =~= fv.push(all[done]));
                    assert(first_repeat(fv, all[done], 0) is None);
                    assert(split_repeats(all.take(done + 1)) == (fv.push(all[done]), rv));
                }
            },
        }
    }
    proof {
        assert(all.take(n as int) =~= all);
    }
    (frags, repeats)
}

pub open spec fn overlaps_view(os: Seq<TcpOverlap>) -> Seq<(EventView, EventView, TcpOverlapKind)> {
    os.map_values(|o: TcpOverlap| (o.first@, o.second@, o.kind))
}

fn fragments_overlap(a: &ReconstructionEvent, b: &ReconstructionEvent) -> (r: bool)
    ensures
        r == overlap_of(a@, b@),
{
    crate::session::tcp_ranges_overlap(a, b)
}

/// The overlapping pairs of retained fragments.
fn find_overlaps(frags: &Vec<ReconstructionEvent>) -> (os: Vec<TcpOverlap>)
    ensures
        overlaps_view(os@) == overlaps_from(events_view(frags@), 0),
{
    let ghost v = events_view(frags@);
    let n = frags.len();
    let mut out: Vec<TcpOverlap> = Vec::new();
    let mut i: usize = 0;
    proof {
        assert(overlaps_from(v, 0) =~= overlaps_view(out@) + overlaps_from(v, 0));
    }
    while i < n
        invariant
            v == events_view(frags@),
            n == frags@.len(),
            i <= n,
            overlaps_from(v, 0) == overlaps_view(out@) + overlaps_from(v, i as int),
        decreases n - i,
    {
        let mut j: usize = i + 1;
        proof {
            assert(overlaps_from(v, i as int) == overlaps_after(v, i as int, i + 1) + overlaps_from(v, i + 1));
            assert(overlaps_from(v, 0) =~= overlaps_view(out@) + overlaps_after(v, i as int, j as int) + overlaps_from(v, i + 1));
        }
        while j < n
            invariant
                v == events_view(frags@),
                n == frags@.len(),
                i < n,
                i < j <= n,
                overlaps_from(v, 0) == overlaps_view(out@) + overlaps_after(v, i as int, j as int) + overlaps_from(v, i + 1),
            decreases n - j,
        {
            let ghost prev = overlaps_view(out@);
            proof {
                assert(v[i as int] == frags@[i as int]@);
                assert(v[j as int] == frags@[j as int]@);
            }
            if fragments_overlap(&frags[i], &frags[j]) {
                let same_start = match (event_range(&frags[i]), event_range(&frags[j])) {
                    (Some(x), Some(y)) => x.0 == y.0,
                    (None, None) => true,
                    _ => false,
                };
                let kind = if same_start { TcpOverlapKind::Conflicting } else { TcpOverlapKind::Partial };
                out.push(TcpOverlap { first: copy_event(&frags[i]), second: copy_event(&frags[j]), kind });
                proof {
                    assert(kind == overlap_kind(v[i as int], v[j as int]));
                    assert(overlaps_view(out@) =~= prev.push((v[i as int], v[j as int], kind)));
                    assert(overlaps_after(v, i as int, j as int)
                        == seq![(v[i as int], v[j as int], kind)] + overlaps_after(v, i as int, j + 1));
                    assert(overlaps_view(out@) + overlaps_after(v, i as int, j + 1) + overlaps_from(v, i + 1)
                        =~= prev + overlaps_after(v, i as int, j as int) + overlaps_from(v, i + 1));
                }
            } else {
                proof {
                    assert(overlaps_after(v, i as int, j as int) =~= overlaps_after(v, i as int, j + 1));
                }
            }
            j = j + 1;
        }
        proof {
            assert(overlaps_after(v, i as int, n as int) =~= Seq::<(EventView, EventView, TcpOverlapKind)>::empty());
            assert(overlaps_from(v, 0) =~= overlaps_view(out@) + overlaps_from(v, i + 1));
        }
        i = i + 1;
    }
    proof {
        assert(overlaps_from(v, n as int) =~= Seq::<(EventView, EventView, TcpOverlapKind)>::empty());
        assert(overlaps_from(v, 0) =~= overlaps_view(out@));
    }
    out
}

impl ReconstructionConnection {
    /// One direction's payloads in TCP serial-number order: sorted by their
    /// position relative to the canonical start, exact retransmissions set
    /// aside, overlapping fragments paired, and any ambiguity of the order
    /// reported.
    pub fn ordered_payloads(&self, direction: ReconstructionDirection) -> (o: TcpPayloadOrdering)
        ensures
            exists|r: (Option<u32>, Option<TcpOrderingAmbiguity>)|
                start_of(direction_payloads(events_view(self.events@), direction), r)
                && o@ == ordering_of(direction_payloads(events_view(self.events@), direction), r),
    {
        let payloads = collect_payloads(&self.events, direction);
        let ghost ps = events_view(payloads@);
        let seqs = fragment_sequences(&payloads);
        let r = canonical_tcp_start(seqs.as_slice());
        let ambiguous = missing_provenance(&payloads);
        let sorted = sort_fragments(payloads, r.0);
        let (fragments, retransmissions) = split_retransmissions(sorted);
        let overlaps = find_overlaps(&fragments);
        let ambiguity = if ambiguous { Some(TcpOrderingAmbiguity::MissingProvenance) } else { r.1 };
        let o = TcpPayloadOrdering { fragments, retransmissions, overlaps, ambiguity };
        proof {
            assert(start_of(ps, r));
            assert(o@.retransmissions =~= repeats_view(o.retransmissions@));
            assert(o@.overlaps =~= overlaps_view(o.overlaps@));
            assert(o@ == ordering_of(ps, r));
        }
        o
    }
}


/// The role of the socket that saw the first event carrying socket
/// evidence.
pub open spec fn first_role(es: Seq<EventView>) -> Option<SocketRole>
    decreases es.len(),
{
    if es.len() == 0 {
        None
    } else if es[0].socket_role is Some {
        es[0].socket_role
    } else {
        first_role(es.drop_first())
    }
}

/// The client-to-server and server-to-client directions of a connection:
/// a passive socket receives the client's bytes, an active one sends them;
/// fixtures name the directions.
pub open spec fn neutral_directions(identity: ReconstructionConnectionIdentity, es: Seq<EventView>) -> (ReconstructionDirection, ReconstructionDirection) {
    match identity {
        ReconstructionConnectionIdentity::Socket { .. } => if first_role(es) == Some(SocketRole::Passive) {
            (ReconstructionDirection::Ingress, ReconstructionDirection::Egress)
        } else {
            (ReconstructionDirection::Egress, ReconstructionDirection::Ingress)
        },
        ReconstructionConnectionIdentity::Fixture { .. } => (ReconstructionDirection::ClientToServer, ReconstructionDirection::ServerToClient),
    }
}

/// When a direction's last retained fragment was seen.
#[derive(Clone, Debug, PartialEq, Eq)]
pub struct DirectionCompletion {
    pub direction: ReconstructionDirection,
    pub timestamp: MonotonicTimestamp,
    pub wal_sequence: Option<u64>,
}

pub open spec fn completion_view(c: DirectionCompletion) -> (ReconstructionDirection, Seq<char>, u64, Option<u64>) {
    (c.direction, c.timestamp.clock@, c.timestamp.nanoseconds, c.wal_sequence)
}

pub open spec fn completion_of(d: ReconstructionDirection, e: EventView) -> (ReconstructionDirection, Seq<char>, u64, Option<u64>) {
    (d, e.clock, e.nanoseconds, e.wal_sequence)
}

/// The directions' completions in chronological order, when both
/// directions completed on one clock; `None` otherwise.
pub open spec fn completion_order(
    dirs: (ReconstructionDirection, ReconstructionDirection),
    client: Seq<EventView>,
    server: Seq<EventView>,
) -> Option<Seq<(ReconstructionDirection, Seq<char>, u64, Option<u64>)>> {
    if client.len() == 0 || server.len() == 0 || client.last().clock != server.last().clock {
        None
    } else {
        let a = completion_of(dirs.0, client.last());
        let b = completion_of(dirs.1, server.last());
        let ka = (a.2, match a.3 { Some(w) => w, None => u64::MAX });
        let kb = (b.2, match b.3 { Some(w) => w, None => u64::MAX });
        if kb.0 < ka.0 || (kb.0 == ka.0 && kb.1 < ka.1) {
            Some(seq![b, a])
        } else {
            Some(seq![a, b])
        }
    }
}

/// The least and greatest WAL sequence of the events, when any has one.
pub open spec fn wal_range(es: Seq<EventView>) -> Option<(u64, u64)>
    decreases es.len(),
{
    if es.len() == 0 {
        None
    } else {
        let rest = wal_range(es.drop_last());
        match es.last().wal_sequence {
            None => rest,
            Some(w) => match rest {
                None => Some((w, w)),
                Some((lo, hi)) => Some((if w < lo { w } else { lo }, if w > hi { w } else { hi })),
            },
        }
    }
}

/// The WAL range is the least and greatest WAL sequence among the events:
/// it is `None` exactly when no event has one; otherwise both bounds are
/// sequences of events, and every event's sequence lies between them.
#[verifier::spinoff_prover]
pub proof fn lemma_wal_range_bounds(es: Seq<EventView>)
    ensures
        wal_range(es) is None <==> forall|i: int| 0 <= i < es.len() ==> (#[trigger] es[i]).wal_sequence is None,
        wal_range(es) matches Some((lo, hi)) ==> {
            &&& lo <= hi
            &&& exists|i: int| 0 <= i < es.len() && #[trigger] es[i].wal_sequence == Some(lo)
            &&& exists|i: int| 0 <= i < es.len() && #[trigger] es[i].wal_sequence == Some(hi)
            &&& forall|i: int| 0 <= i < es.len() && (#[trigger] es[i]).wal_sequence is Some
                ==> lo <= es[i].wal_sequence->0 <= hi
        },
    decreases es.len(),
{
    if es.len() > 0 {
        let init = es.drop_last();
        let n = es.len() - 1;
        lemma_wal_range_bounds(init);
        assert forall|i: int| 0 <= i < n implies #[trigger] init[i] == es[i] by {}
        match es[n].wal_sequence {
            None => {
                assert(wal_range(es) == wal_range(init));
                if let Some((lo, hi)) = wal_range(init) {
                    let a = choose|i: int| 0 <= i < init.len() && #[trigger] init[i].wal_sequence == Some(lo);
                    let b = choose|i: int| 0 <= i < init.len() && #[trigger] init[i].wal_sequence == Some(hi);
                    assert(es[a].wal_sequence == Some(lo));
                    assert(es[b].wal_sequence == Some(hi));
                    assert forall|i: int| 0 <= i < es.len() && (#[trigger] es[i]).wal_sequence is Some
                        implies lo <= es[i].wal_sequence->0 <= hi by {
                        assert(init[i] == es[i]);
                    }
                } else {
                    assert forall|i: int| 0 <= i < es.len() implies (#[trigger] es[i]).wal_sequence is None by {
                        if i < n {
                            assert(init[i] == es[i]);
                        }
                    }
                }
            },
            Some(w) => {
                match wal_range(init) {
                    None => {
                        assert(wal_range(es) == Some((w, w)));
                        assert(es[n].wal_sequence == Some(w));
                        assert forall|i: int| 0 <= i < es.len() && (#[trigger] es[i]).wal_sequence is Some
                            implies w <= es[i].wal_sequence->0 <= w by {
                            if i < n {
                                assert(init[i] == es[i]);
                                assert(init[i].wal_sequence is None);
                            }
                        }
                    },
                    Some((lo0, hi0)) => {
                        let lo = if w < lo0 { w } else { lo0 };
                        let hi = if w > hi0 { w } else { hi0 };
                        assert(wal_range(es) == Some((lo, hi)));
                        let a = choose|i: int| 0 <= i < init.len() && #[trigger] init[i].wal_sequence == Some(lo0);
                        let b = choose|i: int| 0 <= i < init.len() && #[trigger] init[i].wal_sequence == Some(hi0);
                        assert(es[a].wal_sequence == Some(lo0));
                        assert(es[b].wal_sequence == Some(hi0));
                        assert(es[n].wal_sequence == Some(w));
                        assert forall|i: int| 0 <= i < es.len() && (#[trigger] es[i]).wal_sequence is Some
                            implies lo <= es[i].wal_sequence->0 <= hi by {
                            if i < n {
                                assert(init[i] == es[i]);
                            }
                        }
                    },
                }
            },
        }
    }
}

/// A connection as protocols see it, without transport detail: each
/// direction in TCP order, when each direction completed, and the
/// connection's termination evidence.
#[derive(Clone, Debug, PartialEq, Eq)]
pub struct ProtocolNeutralConnection {
    pub identity: ReconstructionConnectionIdentity,
    pub client_to_server: TcpPayloadOrdering,
    pub server_to_client: TcpPayloadOrdering,
    pub cross_direction_completion: Option<Vec<DirectionCompletion>>,
    pub termination: DerivedTermination,
    pub loss_windows: Vec<ConnectionLossWindow>,
    pub finalization: Option<ReconstructionFinalization>,
    pub wal_sequence_range: Option<(u64, u64)>,
}

pub fn copy_timestamp(t: &MonotonicTimestamp) -> (c: MonotonicTimestamp)
    ensures
        c.clock@ == t.clock@,
        c.nanoseconds == t.nanoseconds,
{
    MonotonicTimestamp { clock: str_copy(t.clock.as_str()), nanoseconds: t.nanoseconds }
}

pub open spec fn loss_window_view(w: ConnectionLossWindow) -> (Seq<char>, u64, Seq<char>, u64, Option<u64>, Option<Seq<char>>, crate::session::LossWindowClassification) {
    (w.window.start.clock@, w.window.start.nanoseconds, w.window.end.clock@, w.window.end.nanoseconds, w.window.drop_delta,
        match w.window.ambiguity_reason { Some(r) => Some(r@), None => None }, w.classification)
}

pub open spec fn loss_windows_view(ws: Seq<ConnectionLossWindow>) -> Seq<(Seq<char>, u64, Seq<char>, u64, Option<u64>, Option<Seq<char>>, crate::session::LossWindowClassification)> {
    ws.map_values(|w: ConnectionLossWindow| loss_window_view(w))
}

fn copy_loss_windows(ws: &Vec<ConnectionLossWindow>) -> (c: Vec<ConnectionLossWindow>)
    ensures
        loss_windows_view(c@) == loss_windows_view(ws@),
{
    let mut out: Vec<ConnectionLossWindow> = Vec::new();
    let mut i: usize = 0;
    while i < ws.len()
        invariant
            i <= ws@.len(),
            out@.len() == i,
            forall|k: int| 0 <= k < i ==> loss_window_view(#[trigger] out@[k]) == loss_window_view(ws@[k]),
        decreases ws.len() - i,
    {
        let w = &ws[i];
        let reason = match &w.window.ambiguity_reason {
            Some(r) => Some(str_copy(r.as_str())),
            None => None,
        };
        out.push(ConnectionLossWindow {
            window: LossWindowObserved {
                start: copy_timestamp(&w.window.start),
                end: copy_timestamp(&w.window.end),
                drop_delta: w.window.drop_delta,
                ambiguity_reason: reason,
            },
            classification: w.classification,
        });
        i = i + 1;
    }
    proof {
        assert(loss_windows_view(out@) =~= loss_windows_view(ws@));
    }
    out
}

/// The mathematical content of a connection identity.
pub enum IdentityView {
    Fixture { client: crate::canonical::EndpointView, server: crate::canonical::EndpointView },
    Socket { cookie: u64, clock: Seq<char>, nanoseconds: u64, network_namespace: Option<u64> },
}

pub open spec fn identity_view(i: ReconstructionConnectionIdentity) -> IdentityView {
    match i {
        ReconstructionConnectionIdentity::Fixture { client, server } => IdentityView::Fixture { client: client@, server: server@ },
        ReconstructionConnectionIdentity::Socket { socket_cookie, first_seen, network_namespace } =>
            IdentityView::Socket { cookie: socket_cookie, clock: first_seen.clock@, nanoseconds: first_seen.nanoseconds, network_namespace },
    }
}

pub fn copy_identity(i: &ReconstructionConnectionIdentity) -> (c: ReconstructionConnectionIdentity)
    ensures
        identity_view(c) == identity_view(*i),
{
    match i {
        ReconstructionConnectionIdentity::Fixture { client, server } =>
            ReconstructionConnectionIdentity::Fixture { client: client.duplicate(), server: server.duplicate() },
        ReconstructionConnectionIdentity::Socket { socket_cookie, first_seen, network_namespace } =>
            ReconstructionConnectionIdentity::Socket {
                socket_cookie: *socket_cookie,
                first_seen: copy_timestamp(first_seen),
                network_namespace: *network_namespace,
            },
    }
}

fn find_role(events: &Vec<ReconstructionEvent>) -> (r: Option<SocketRole>)
    ensures
        r == first_role(events_view(events@)),
{
    let ghost v = events_view(events@);
    let mut i: usize = 0;
    proof {
        assert(v.skip(0) =~= v);
    }
    while i < events.len()
        invariant
            v == events_view(events@),
            i <= events@.len(),
            first_role(v) == first_role(v.skip(i as int)),
        decreases events.len() - i,
    {
        proof {
            assert(v.skip(i as int)[0] == events@[i as int]@);
            assert(v.skip(i as int).drop_first() =~= v.skip(i + 1));
        }
        if events[i].socket_role.is_some() {
            return events[i].socket_role;
        }
        i = i + 1;
    }
    None
}

fn find_wal_range(events: &Vec<ReconstructionEvent>) -> (r: Option<(u64, u64)>)
    ensures
        r == wal_range(events_view(events@)),
{
    let mut r: Option<(u64, u64)> = None;
    let mut i: usize = 0;
    while i < events.len()
        invariant
            i <= events@.len(),
            r == wal_range(events_view(events@.take(i as int))),
        decreases events.len() - i,
    {
        proof {
            let t = events_view(events@.take(i + 1));
            assert(t.drop_last() =~= events_view(events@.take(i as int)));
            assert(t.last() == events@[i as int]@);
        }
        match events[i].wal_sequence {
            None => {},
            Some(w) => {
                r = match r {
                    None => Some((w, w)),
                    Some((lo, hi)) => Some((if w < lo { w } else { lo }, if w > hi { w } else { hi })),
                };
            },
        }
        i = i + 1;
    }
    proof {
        assert(events@.take(events@.len() as int) =~= events@);
    }
    r
}

pub open spec fn completions_view(o: Option<Vec<DirectionCompletion>>) -> Option<Seq<(ReconstructionDirection, Seq<char>, u64, Option<u64>)>> {
    match o {
        Some(v) => Some(v@.map_values(|c: DirectionCompletion| completion_view(c))),
        None => None,
    }
}

impl ReconstructionConnection {
    /// The connection as protocols see it: each direction in TCP order,
    /// when both directions completed if one clock orders them, and the
    /// connection's identity, termination, loss windows, finalization and
    /// WAL sequence range.
    #[verifier::rlimit(40)]
    pub fn protocol_neutral(&self) -> (n: ProtocolNeutralConnection)
        ensures
            ({
                let ev = events_view(self.events@);
                let dirs = neutral_directions(self.identity, ev);
                &&& exists|r: (Option<u32>, Option<TcpOrderingAmbiguity>)|
                    start_of(direction_payloads(ev, dirs.0), r)
                    && n.client_to_server@ == ordering_of(direction_payloads(ev, dirs.0), r)
                &&& exists|r: (Option<u32>, Option<TcpOrderingAmbiguity>)|
                    start_of(direction_payloads(ev, dirs.1), r)
                    && n.server_to_client@ == ordering_of(direction_payloads(ev, dirs.1), r)
                &&& completions_view(n.cross_direction_completion)
                    == completion_order(dirs, n.client_to_server@.fragments, n.server_to_client@.fragments)
                &&& identity_view(n.identity) == identity_view(self.identity)
                &&& n.termination == self.termination
                &&& loss_windows_view(n.loss_windows@) == loss_windows_view(self.loss_windows@)
                &&& n.finalization == self.finalization
                &&& n.wal_sequence_range == wal_range(ev)
            }),
    {
        let role = find_role(&self.events);
        let (client_direction, server_direction) = match &self.identity {
            ReconstructionConnectionIdentity::Socket { .. } => match role {
                Some(SocketRole::Passive) => (ReconstructionDirection::Ingress, ReconstructionDirection::Egress),
                _ => (ReconstructionDirection::Egress, ReconstructionDirection::Ingress),
            },
            ReconstructionConnectionIdentity::Fixture { .. } => (ReconstructionDirection::ClientToServer, ReconstructionDirection::ServerToClient),
        };
        let client_to_server = self.ordered_payloads(client_direction);
        let server_to_client = self.ordered_payloads(server_direction);
        let ghost cf = client_to_server@.fragments;
        let ghost sf = server_to_client@.fragments;
        let nc = client_to_server.fragments.len();
        let ns = server_to_client.fragments.len();
        let cross = if nc == 0 || ns == 0 {
            None
        } else {
            let a = &client_to_server.fragments[nc - 1];
            let b = &server_to_client.fragments[ns - 1];
            proof {
                assert(cf.last() == a@);
                assert(sf.last() == b@);
            }
            if !crate::text::str_eq(a.timestamp.clock.as_str(), b.timestamp.clock.as_str()) {
                None
            } else {
                let ca = DirectionCompletion { direction: client_direction, timestamp: copy_timestamp(&a.timestamp), wal_sequence: a.wal_sequence };
                let cb = DirectionCompletion { direction: server_direction, timestamp: copy_timestamp(&b.timestamp), wal_sequence: b.wal_sequence };
                let wa: u64 = match a.wal_sequence { Some(w) => w, None => u64::MAX };
                let wb: u64 = match b.wal_sequence { Some(w) => w, None => u64::MAX };
                let na = a.timestamp.nanoseconds;
                let nb = b.timestamp.nanoseconds;
                let mut v: Vec<DirectionCompletion> = Vec::new();
                if nb < na || (nb == na && wb < wa) {
                    v.push(cb);
                    v.push(ca);
                } else {
                    v.push(ca);
                    v.push(cb);
                }
                proof {
                    assert(v@.map_values(|c: DirectionCompletion| completion_view(c))
                        =~= completion_order((client_direction, server_direction), cf, sf)->0);
                }
                Some(v)
            }
        };
        ProtocolNeutralConnection {
            identity: copy_identity(&self.identity),
            client_to_server,
            server_to_client,
            cross_direction_completion: cross,
            termination: self.termination,
            loss_windows: copy_loss_windows(&self.loss_windows),
            finalization: self.finalization,
            wal_sequence_range: find_wal_range(&self.events),
        }
    }
}

} // verus!
