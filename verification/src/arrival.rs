//! Why a connection's payload ordering does not depend on the order its
//! events arrived in.
use vstd::prelude::*;
use crate::ordering::{
    direction_payloads, is_payload_in, keys_distinct, lemma_ordering_ignores_arrival_order, ordering_of, position_of,
    provenance_ambiguous, start_of, tcp_sequences, EventView,
};
use crate::session::{
    cyclic_gap, first_largest_gap, sorted_distinct, strictly_increasing, tcp_start_result, ReconstructionDirection,
    TcpOrderingAmbiguity,
};

verus! {

broadcast use vstd::seq_lib::group_to_multiset_ensures, vstd::multiset::group_multiset_axioms;

proof fn lemma_direction_payload_count(es: Seq<EventView>, d: ReconstructionDirection, x: EventView)
    ensures
        direction_payloads(es, d).to_multiset().count(x) == if is_payload_in(x, d) { es.to_multiset().count(x) } else { 0 },
    decreases es.len(),
{
    if es.len() == 0 {
        assert(!direction_payloads(es, d).contains(x));
        assert(!es.contains(x));
    } else {
        let s0 = es.drop_last();
        lemma_direction_payload_count(s0, d, x);
        assert(es =~= s0.push(es.last()));
        assert(es.to_multiset() =~= s0.to_multiset().insert(es.last()));
        if is_payload_in(es.last(), d) {
            assert(direction_payloads(es, d).to_multiset()
                =~= direction_payloads(s0, d).to_multiset().insert(es.last()));
        }
    }
}

/// The payloads of one direction of two arrangements of the same events
/// are arrangements of the same payloads.
proof fn lemma_direction_payloads_permuted(es1: Seq<EventView>, es2: Seq<EventView>, d: ReconstructionDirection)
    requires
        es1.to_multiset() == es2.to_multiset(),
    ensures
        direction_payloads(es1, d).to_multiset() == direction_payloads(es2, d).to_multiset(),
{
    assert forall|x: EventView| #[trigger] direction_payloads(es1, d).to_multiset().count(x)
        == direction_payloads(es2, d).to_multiset().count(x) by {
        lemma_direction_payload_count(es1, d, x);
        lemma_direction_payload_count(es2, d, x);
    }
    assert(direction_payloads(es1, d).to_multiset() =~= direction_payloads(es2, d).to_multiset());
}

proof fn lemma_tcp_sequence_source(ps: Seq<EventView>, x: u32) -> (i: int)
    requires
        tcp_sequences(ps).contains(x),
    ensures
        0 <= i < ps.len(),
        position_of(ps[i]) matches Some(p) && p.tcp_sequence == x,
    decreases ps.len(),
{
    let s0 = ps.drop_last();
    match position_of(ps.last()) {
        Some(p) => {
            if p.tcp_sequence == x {
                ps.len() - 1
            } else {
                assert(tcp_sequences(ps) == tcp_sequences(s0).push(p.tcp_sequence));
                let k = choose|k: int| 0 <= k < tcp_sequences(ps).len() && tcp_sequences(ps)[k] == x;
                assert(tcp_sequences(s0)[k] == x);
                let i = lemma_tcp_sequence_source(s0, x);
                assert(ps[i] == s0[i]);
                i
            }
        },
        None => {
            assert(tcp_sequences(ps) == tcp_sequences(s0));
            let i = lemma_tcp_sequence_source(s0, x);
            assert(ps[i] == s0[i]);
            i
        },
    }
}

proof fn lemma_tcp_sequence_listed(ps: Seq<EventView>, i: int)
    requires
        0 <= i < ps.len(),
        position_of(ps[i]) is Some,
    ensures
        tcp_sequences(ps).contains(position_of(ps[i])->0.tcp_sequence),
    decreases ps.len(),
{
    let s0 = ps.drop_last();
    let x = position_of(ps[i])->0.tcp_sequence;
    if i == ps.len() - 1 {
        let p = position_of(ps.last())->0;
        assert(tcp_sequences(ps) == tcp_sequences(s0).push(p.tcp_sequence));
        assert(tcp_sequences(ps)[tcp_sequences(s0).len() as int] == x);
    } else {
        assert(ps[i] == s0[i]);
        lemma_tcp_sequence_listed(s0, i);
        let k = choose|k: int| 0 <= k < tcp_sequences(s0).len() && tcp_sequences(s0)[k] == x;
        match position_of(ps.last()) {
            Some(p) => {
                assert(tcp_sequences(ps) == tcp_sequences(s0).push(p.tcp_sequence));
                assert(tcp_sequences(ps)[k] == x);
            },
            None => {
                assert(tcp_sequences(ps) == tcp_sequences(s0));
            },
        }
    }
}

/// Arrangements of the same fragments list the same TCP sequence numbers.
proof fn lemma_tcp_sequences_permuted(ps1: Seq<EventView>, ps2: Seq<EventView>, x: u32)
    requires
        ps1.to_multiset() == ps2.to_multiset(),
        tcp_sequences(ps1).contains(x),
    ensures
        tcp_sequences(ps2).contains(x),
{
    let i = lemma_tcp_sequence_source(ps1, x);
    let e = ps1[i];
    assert(ps1.contains(e));
    assert(ps1.to_multiset().count(e) > 0);
    assert(ps2.contains(e));
    let j = choose|j: int| 0 <= j < ps2.len() && ps2[j] == e;
    lemma_tcp_sequence_listed(ps2, j);
}

/// Two increasing lists of the same values are equal.
proof fn lemma_increasing_unique(s1: Seq<u32>, s2: Seq<u32>)
    requires
        strictly_increasing(s1),
        strictly_increasing(s2),
        forall|x: u32| s1.contains(x) <==> s2.contains(x),
    ensures
        s1 == s2,
    decreases s1.len(),
{
    if s1.len() == 0 {
        if s2.len() > 0 {
            assert(s2.contains(s2[0]));
        }
        assert(s1 =~= s2);
    } else {
        assert(s1.contains(s1[0]));
        assert(s2.len() > 0);
        assert(s2.contains(s2[0]));
        let a = choose|a: int| 0 <= a < s2.len() && s2[a] == s1[0];
        let b = choose|b: int| 0 <= b < s1.len() && s1[b] == s2[0];
        assert(s1[0] == s2[0]) by {
            if a > 0 {
                assert(s2[0] < s2[a]);
                assert(s1[0] <= s1[b]);
            }
        }
        let t1 = s1.drop_first();
        let t2 = s2.drop_first();
        assert forall|x: u32| t1.contains(x) <==> t2.contains(x) by {
            if t1.contains(x) {
                let k = choose|k: int| 0 <= k < t1.len() && t1[k] == x;
                assert(s1[k + 1] == x);
                assert(s1.contains(x));
                let m = choose|m: int| 0 <= m < s2.len() && s2[m] == x;
                assert(m != 0);
                assert(t2[m - 1] == x);
            }
            if t2.contains(x) {
                let k = choose|k: int| 0 <= k < t2.len() && t2[k] == x;
                assert(s2[k + 1] == x);
                assert(s2.contains(x));
                let m = choose|m: int| 0 <= m < s1.len() && s1[m] == x;
                assert(m != 0);
                assert(t1[m - 1] == x);
            }
        }
        lemma_increasing_unique(t1, t2);
        assert(s1 =~= s2) by {
            assert forall|i: int| 0 <= i < s1.len() implies s1[i] == s2[i] by {
                if i > 0 {
                    assert(s1[i] == t1[i - 1]);
                    assert(s2[i] == t2[i - 1]);
                }
            }
        }
    }
}

/// The canonical start of a list of sequence numbers is unique.
proof fn lemma_start_result_unique(
    s: Seq<u32>,
    r1: (Option<u32>, Option<TcpOrderingAmbiguity>),
    r2: (Option<u32>, Option<TcpOrderingAmbiguity>),
)
    requires
        tcp_start_result(s, r1),
        tcp_start_result(s, r2),
    ensures
        r1 == r2,
{
    if s.len() > 0 && !(exists|i: int| 0 <= i < s.len() && #[trigger] cyclic_gap(s, i) == 2147483648) {
        let k1 = choose|k: int| first_largest_gap(s, k) && r1 == (Some(crate::session::next_in_cycle(s, k)), None::<TcpOrderingAmbiguity>);
        let k2 = choose|k: int| first_largest_gap(s, k) && r2 == (Some(crate::session::next_in_cycle(s, k)), None::<TcpOrderingAmbiguity>);
        assert(k1 == k2) by {
            if k1 < k2 {
                assert(cyclic_gap(s, k1) < cyclic_gap(s, k2));
                assert(cyclic_gap(s, k2) <= cyclic_gap(s, k1));
            } else if k2 < k1 {
                assert(cyclic_gap(s, k2) < cyclic_gap(s, k1));
                assert(cyclic_gap(s, k1) <= cyclic_gap(s, k2));
            }
        }
    }
}

/// Some fragment without a WAL sequence shares its TCP position with
/// another fragment.
pub open spec fn unrecoverable_pair(ps: Seq<EventView>) -> bool {
    exists|a: int, b: int| {
        &&& 0 <= a < ps.len()
        &&& 0 <= b < ps.len()
        &&& a != b
        &&& position_of(#[trigger] ps[a]) is Some
        &&& position_of(ps[a]) == position_of(#[trigger] ps[b])
        &&& ps[a].wal_sequence is None
    }
}

proof fn lemma_next_at_position(ps: Seq<EventView>, a: int, b: int) -> (j: int)
    requires
        0 <= a < b < ps.len(),
        position_of(ps[a]) == position_of(ps[b]),
    ensures
        a < j <= b,
        position_of(ps[j]) == position_of(ps[a]),
        forall|k: int| a < k < j ==> position_of(#[trigger] ps[k]) != position_of(ps[a]),
    decreases b - a,
{
    if exists|k: int| a < k < b && position_of(#[trigger] ps[k]) == position_of(ps[a]) {
        let k = choose|k: int| a < k < b && position_of(#[trigger] ps[k]) == position_of(ps[a]);
        lemma_next_at_position(ps, a, k)
    } else {
        b
    }
}

proof fn lemma_previous_at_position(ps: Seq<EventView>, b: int, a: int) -> (i: int)
    requires
        0 <= b < a < ps.len(),
        position_of(ps[a]) == position_of(ps[b]),
    ensures
        b <= i < a,
        position_of(ps[i]) == position_of(ps[a]),
        forall|k: int| i < k < a ==> position_of(#[trigger] ps[k]) != position_of(ps[a]),
    decreases a - b,
{
    if exists|k: int| b < k < a && position_of(#[trigger] ps[k]) == position_of(ps[a]) {
        let k = choose|k: int| b < k < a && position_of(#[trigger] ps[k]) == position_of(ps[a]);
        lemma_previous_at_position(ps, k, a)
    } else {
        b
    }
}

/// Provenance is ambiguous exactly when some fragment without a WAL
/// sequence shares its TCP position with another.
proof fn lemma_ambiguity_is_unrecoverable_pair(ps: Seq<EventView>)
    ensures
        provenance_ambiguous(ps) == unrecoverable_pair(ps),
{
    if provenance_ambiguous(ps) {
        lemma_ambiguity_gives_pair(ps);
    }
    if unrecoverable_pair(ps) {
        lemma_pair_gives_ambiguity(ps);
    }
}

#[verifier::spinoff_prover]
proof fn lemma_ambiguity_gives_pair(ps: Seq<EventView>)
    requires
        provenance_ambiguous(ps),
    ensures
        unrecoverable_pair(ps),
{
    let (i, j) = choose|i: int, j: int| {
        &&& 0 <= i < j < ps.len()
        &&& position_of(#[trigger] ps[i]) is Some
        &&& position_of(ps[i]) == position_of(#[trigger] ps[j])
        &&& (forall|k: int| i < k < j ==> position_of(#[trigger] ps[k]) != position_of(ps[i]))
        &&& (ps[i].wal_sequence is None || ps[j].wal_sequence is None)
    };
    if ps[i].wal_sequence is None {
        assert(position_of(ps[i]) == position_of(ps[j]));
    } else {
        assert(position_of(ps[j]) is Some && position_of(ps[j]) == position_of(ps[i]));
    }
}

#[verifier::spinoff_prover]
proof fn lemma_pair_gives_ambiguity(ps: Seq<EventView>)
    requires
        unrecoverable_pair(ps),
    ensures
        provenance_ambiguous(ps),
{
    let (a, b) = choose|a: int, b: int| {
        &&& 0 <= a < ps.len()
        &&& 0 <= b < ps.len()
        &&& a != b
        &&& position_of(#[trigger] ps[a]) is Some
        &&& position_of(ps[a]) == position_of(#[trigger] ps[b])
        &&& ps[a].wal_sequence is None
    };
    if a < b {
        let j = lemma_next_at_position(ps, a, b);
        assert(0 <= a < j < ps.len() && position_of(ps[a]) is Some && position_of(ps[a]) == position_of(ps[j])
            && (forall|k: int| a < k < j ==> position_of(#[trigger] ps[k]) != position_of(ps[a]))
            && (ps[a].wal_sequence is None || ps[j].wal_sequence is None));
    } else {
        let i = lemma_previous_at_position(ps, b, a);
        assert(0 <= i < a < ps.len() && position_of(ps[i]) is Some && position_of(ps[i]) == position_of(ps[a])
            && (forall|k: int| i < k < a ==> position_of(#[trigger] ps[k]) != position_of(ps[i]))
            && (ps[i].wal_sequence is None || ps[a].wal_sequence is None));
    }
}

/// A value at index `a` of `ps` that also stands at another index occurs
/// twice.
proof fn lemma_second_occurrence(ps: Seq<EventView>, a: int, b: int)
    requires
        0 <= a < ps.len(),
        0 <= b < ps.len(),
        a != b,
        ps[a] == ps[b],
    ensures
        ps.to_multiset().count(ps[a]) >= 2,
{
    let e = ps[a];
    let rest = ps.remove(a);
    let c = if b < a { b } else { b - 1 };
    assert(rest[c] == e);
    assert(rest.contains(e));
    assert(rest.to_multiset().count(e) > 0);
    assert(rest.to_multiset() =~= ps.to_multiset().remove(e));
    assert(ps.to_multiset().remove(e).count(e) > 0);
}

proof fn lemma_other_occurrence(ps: Seq<EventView>, e: EventView, a: int) -> (b: int)
    requires
        ps.to_multiset().count(e) >= 2,
        0 <= a < ps.len(),
        ps[a] == e,
    ensures
        0 <= b < ps.len(),
        b != a,
        ps[b] == e,
{
    let rest = ps.remove(a);
    assert(rest.to_multiset() =~= ps.to_multiset().remove(e));
    assert(rest.to_multiset().count(e) > 0);
    assert(rest.contains(e));
    let c = choose|c: int| 0 <= c < rest.len() && rest[c] == e;
    if c < a { c } else { c + 1 }
}

#[verifier::spinoff_prover]
proof fn lemma_unrecoverable_pair_permuted(ps1: Seq<EventView>, ps2: Seq<EventView>)
    requires
        ps1.to_multiset() == ps2.to_multiset(),
        unrecoverable_pair(ps1),
    ensures
        unrecoverable_pair(ps2),
{
    let (a, b) = choose|a: int, b: int| {
        &&& 0 <= a < ps1.len()
        &&& 0 <= b < ps1.len()
        &&& a != b
        &&& position_of(#[trigger] ps1[a]) is Some
        &&& position_of(ps1[a]) == position_of(#[trigger] ps1[b])
        &&& ps1[a].wal_sequence is None
    };
    let e = ps1[a];
    let f = ps1[b];
    assert(ps1.contains(e) && ps1.contains(f));
    assert(ps1.to_multiset().count(e) > 0 && ps1.to_multiset().count(f) > 0);
    assert(ps2.to_multiset().count(e) > 0 && ps2.to_multiset().count(f) > 0);
    assert(ps2.contains(e) && ps2.contains(f));
    let a2 = choose|i: int| 0 <= i < ps2.len() && ps2[i] == e;
    if e == f {
        lemma_second_occurrence(ps1, a, b);
        let b2 = lemma_other_occurrence(ps2, e, a2);
        assert(position_of(ps2[a2]) == position_of(ps2[b2]));
    } else {
        let b2 = choose|i: int| 0 <= i < ps2.len() && ps2[i] == f;
        assert(position_of(ps2[a2]) == position_of(ps2[b2]));
    }
}

/// The order in which a connection's events arrived does not change how
/// the payloads of one direction are ordered: two arrangements of the same
/// events, whose payload fragments in that direction have pairwise
/// distinct order keys, get the same canonical start and the same kept
/// fragments, retransmissions, overlaps and ambiguity.
#[verifier::spinoff_prover]
pub proof fn lemma_payload_ordering_ignores_event_order(
    es1: Seq<EventView>,
    es2: Seq<EventView>,
    d: ReconstructionDirection,
    r1: (Option<u32>, Option<TcpOrderingAmbiguity>),
    r2: (Option<u32>, Option<TcpOrderingAmbiguity>),
)
    requires
        es1.to_multiset() == es2.to_multiset(),
        start_of(direction_payloads(es1, d), r1),
        start_of(direction_payloads(es2, d), r2),
        keys_distinct(direction_payloads(es1, d), r1.0),
    ensures
        r1 == r2,
        ordering_of(direction_payloads(es1, d), r1) == ordering_of(direction_payloads(es2, d), r2),
{
    let ps1 = direction_payloads(es1, d);
    let ps2 = direction_payloads(es2, d);
    lemma_direction_payloads_permuted(es1, es2, d);
    let s1 = choose|s: Seq<u32>| sorted_distinct(s, tcp_sequences(ps1)) && tcp_start_result(s, r1);
    let s2 = choose|s: Seq<u32>| sorted_distinct(s, tcp_sequences(ps2)) && tcp_start_result(s, r2);
    assert forall|x: u32| s1.contains(x) <==> s2.contains(x) by {
        if tcp_sequences(ps1).contains(x) {
            lemma_tcp_sequences_permuted(ps1, ps2, x);
        }
        if tcp_sequences(ps2).contains(x) {
            lemma_tcp_sequences_permuted(ps2, ps1, x);
        }
    }
    lemma_increasing_unique(s1, s2);
    lemma_start_result_unique(s1, r1, r2);
    lemma_ordering_ignores_arrival_order(ps1, ps2, r1);
    lemma_ambiguity_is_unrecoverable_pair(ps1);
    lemma_ambiguity_is_unrecoverable_pair(ps2);
    if unrecoverable_pair(ps1) {
        lemma_unrecoverable_pair_permuted(ps1, ps2);
    }
    if unrecoverable_pair(ps2) {
        lemma_unrecoverable_pair_permuted(ps2, ps1);
    }
}

} // verus!
