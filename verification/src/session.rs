//! Bounded reconstruction of ordered bidirectional socket byte streams.

use vstd::prelude::*;

verus! {

#[derive(Clone, Copy, Debug, PartialEq, Eq, Structural)]
pub enum ReconstructionFinalization {
    ByteLimit,
    ChunkLimit,
    Idle,
}

#[derive(Clone, Copy, Debug, PartialEq, Eq, Structural)]
pub enum DerivedTermination {
    CleanClose,
    /// Reserved until directional close evidence is available from kernel
    /// capture.
    HalfClose,
    Reset,
    UnknownTermination,
}

#[derive(Clone, Copy, Debug, PartialEq, Eq, Structural)]
pub enum LossWindowClassification {
    Outside,
    Overlaps,
    Unknown,
    Reset,
    ClockMismatch,
}


/// Bounds of the capture-level session assembler.
#[derive(Clone, Copy, Debug, PartialEq, Eq, Structural)]
pub struct SessionLimits {
    pub max_connections: usize,
    pub max_bytes_per_connection: usize,
    pub max_chunks_per_connection: usize,
}

impl Default for SessionLimits {
    fn default() -> (l: Self)
        ensures
            l.max_connections == 1024,
            l.max_bytes_per_connection == 8388608,
            l.max_chunks_per_connection == 65536,
    {
        SessionLimits { max_connections: 1024, max_bytes_per_connection: 8388608, max_chunks_per_connection: 65536 }
    }
}

#[derive(Clone, Copy, Debug, PartialEq, Eq, Structural)]
pub enum SessionError {
    ConnectionLimit { limit: usize },
    ByteLimit { limit: usize, attempted: usize },
    UnsupportedCaptureEvent { schema_version: u16 },
    ChunkLimit { limit: usize },
    MissingSocketEvidence,
    ConflictingSocketEvidence,
}

/// Bounds of reconstruction.
#[derive(Clone, Copy, Debug, PartialEq, Eq, Structural)]
pub struct ReconstructionLimits {
    pub max_active_connections: usize,
    pub max_bytes_per_connection: usize,
    pub max_chunks_per_connection: usize,
    pub idle_nanoseconds: u64,
}

impl Default for ReconstructionLimits {
    fn default() -> (l: Self)
        ensures
            l.max_active_connections == 1024,
            l.max_bytes_per_connection == 8388608,
            l.max_chunks_per_connection == 65536,
            l.idle_nanoseconds == 300000000000,
    {
        ReconstructionLimits {
            max_active_connections: 1024,
            max_bytes_per_connection: 8388608,
            max_chunks_per_connection: 65536,
            idle_nanoseconds: 300000000000,
        }
    }
}

#[derive(Clone, Copy, Debug, PartialEq, Eq, Structural)]
pub enum ReconstructionPushError {
    ActiveConnectionLimit { limit: usize },
}

#[derive(Clone, Copy, Debug, PartialEq, Eq, Structural)]
pub enum ReconstructionSnapshotError {
    Serialization,
    Parse,
    UnsupportedVersion(u32),
    LimitMismatch,
    Bounds,
    DuplicateConnection,
    InconsistentConnection,
}

#[derive(Clone, Copy, Debug, PartialEq, Eq, Structural)]
pub enum ReconstructionInputError {
    UnsupportedCaptureSchema(u16),
}

#[derive(Clone, Copy, Debug, PartialEq, Eq, Structural)]
pub enum ReconstructionDirection {
    ClientToServer,
    ServerToClient,
    Ingress,
    Egress,
}

#[derive(Clone, Copy, Debug, PartialEq, Eq, Structural)]
pub enum RawLifecycleEvidence {
    MissingOpen,
    ConnectObserved,
    Established,
    Closed,
    Reset,
    StateChanged { raw_state: u32 },
}

#[derive(Clone, Copy, Debug, PartialEq, Eq, Structural)]
pub struct ReconstructionWalProvenance {
    pub segment_ordinal: u64,
    pub segment_first_sequence: u64,
    pub frame_byte_offset: u64,
}

#[derive(Clone, Copy, Debug, PartialEq, Eq, Structural)]
pub enum TcpOrderingAmbiguity {
    HalfSequenceRange,
    MissingProvenance,
}

#[derive(Clone, Copy, Debug, PartialEq, Eq, Structural)]
pub enum TcpOverlapKind {
    Partial,
    Conflicting,
}

/// A monotonic timestamp: the clock it was read from (by boot identity)
/// and nanoseconds on it.
#[derive(Clone, Debug, PartialEq, Eq)]
pub struct MonotonicTimestamp {
    pub clock: String,
    pub nanoseconds: u64,
}

/// Where a payload fragment sits in its TCP byte stream.
#[derive(Clone, Copy, Debug, PartialEq, Eq, Structural)]
pub struct FragmentPosition {
    pub tcp_sequence: u32,
    pub continuation_position: u32,
}

/// A captured payload fragment; `truncated` when capture kept only part of
/// it.
#[derive(Clone, Debug, PartialEq, Eq)]
pub struct ReconstructionPayload {
    pub direction: ReconstructionDirection,
    pub tcp_position: Option<FragmentPosition>,
    pub bytes: Vec<u8>,
    pub truncated: bool,
}

#[derive(Clone, Debug, PartialEq, Eq)]
pub enum ReconstructionEvidence {
    Lifecycle(RawLifecycleEvidence),
    Payload(ReconstructionPayload),
}

/// Which end of the connection the socket that saw an event was.
#[derive(Clone, Copy, Debug, PartialEq, Eq, Structural)]
pub enum SocketRole {
    Active,
    Passive,
}

/// One piece of evidence about a connection: the connection it belongs to,
/// when it was seen, the WAL sequence it was persisted at, and the role of
/// the observing socket when the event carries socket evidence.
#[derive(Clone, Debug, PartialEq, Eq)]
pub struct ReconstructionEvent {
    pub connection: ReconstructionConnectionIdentity,
    pub wal_sequence: Option<u64>,
    pub timestamp: MonotonicTimestamp,
    pub socket_role: Option<SocketRole>,
    pub evidence: ReconstructionEvidence,
}

/// What groups reconstruction evidence into a connection: a fixture's
/// endpoints, or a kernel socket generation (its cookie, when it was first
/// seen, and its network namespace when known).
#[derive(Clone, Debug, PartialEq, Eq)]
pub enum ReconstructionConnectionIdentity {
    Fixture { client: crate::canonical::Endpoint, server: crate::canonical::Endpoint },
    Socket { socket_cookie: u64, first_seen: MonotonicTimestamp, network_namespace: Option<u64> },
}

/// A loss window as it bears on one connection.
#[derive(Clone, Debug, PartialEq, Eq)]
pub struct ConnectionLossWindow {
    pub window: LossWindowObserved,
    pub classification: LossWindowClassification,
}

/// The evidence reconstruction grouped into one connection, with its
/// derived termination and the bound that finalized it, if one did.
#[derive(Clone, Debug, PartialEq, Eq)]
pub struct ReconstructionConnection {
    pub identity: ReconstructionConnectionIdentity,
    pub events: Vec<ReconstructionEvent>,
    pub loss_windows: Vec<ConnectionLossWindow>,
    pub termination: DerivedTermination,
    pub finalization: Option<ReconstructionFinalization>,
}

/// An interval of monotonic time.
#[derive(Clone, Debug, PartialEq, Eq)]
pub struct LossInterval {
    pub start: MonotonicTimestamp,
    pub end: MonotonicTimestamp,
}

/// Events the WAL had to discard at its limit, over an interval; distinct
/// from kernel loss windows.
#[derive(Clone, Debug, PartialEq, Eq)]
pub struct TerminalPersistenceLoss {
    pub interval: LossInterval,
}

/// A window in which capture lost events.
#[derive(Clone, Debug, PartialEq, Eq)]
pub struct LossWindowObserved {
    pub start: MonotonicTimestamp,
    pub end: MonotonicTimestamp,
    pub drop_delta: Option<u64>,
    pub ambiguity_reason: Option<String>,
}

/// Termination derived from evidence: a loss window that may touch the
/// connection leaves it unknown; else a reset, else a close decides.
pub open spec fn derived_termination(events: Seq<ReconstructionEvent>, losses: Seq<LossWindowClassification>) -> DerivedTermination {
    if exists|i: int| 0 <= i < losses.len() && losses[i] != LossWindowClassification::Outside {
        DerivedTermination::UnknownTermination
    } else if exists|i: int| 0 <= i < events.len() && events[i].evidence == ReconstructionEvidence::Lifecycle(RawLifecycleEvidence::Reset) {
        DerivedTermination::Reset
    } else if exists|i: int| 0 <= i < events.len() && events[i].evidence == ReconstructionEvidence::Lifecycle(RawLifecycleEvidence::Closed) {
        DerivedTermination::CleanClose
    } else {
        DerivedTermination::UnknownTermination
    }
}

fn has_lifecycle(events: &[ReconstructionEvent], which: RawLifecycleEvidence) -> (r: bool)
    ensures
        r == exists|i: int| 0 <= i < events@.len() && events@[i].evidence == ReconstructionEvidence::Lifecycle(which),
{
    let mut i: usize = 0;
    while i < events.len()
        invariant
            i <= events@.len(),
            forall|k: int| 0 <= k < i ==> events@[k].evidence != ReconstructionEvidence::Lifecycle(which),
        decreases events.len() - i,
    {
        match &events[i].evidence {
            ReconstructionEvidence::Lifecycle(l) => {
                if *l == which {
                    return true;
                }
            },
            ReconstructionEvidence::Payload(_) => {},
        }
        i = i + 1;
    }
    false
}

pub fn derive_termination(events: &[ReconstructionEvent], losses: &[LossWindowClassification]) -> (t: DerivedTermination)
    ensures
        t == derived_termination(events@, losses@),
{
    let mut i: usize = 0;
    while i < losses.len()
        invariant
            i <= losses@.len(),
            forall|k: int| 0 <= k < i ==> losses@[k] == LossWindowClassification::Outside,
        decreases losses.len() - i,
    {
        if losses[i] != LossWindowClassification::Outside {
            return DerivedTermination::UnknownTermination;
        }
        i = i + 1;
    }
    if has_lifecycle(events, RawLifecycleEvidence::Reset) {
        return DerivedTermination::Reset;
    }
    if has_lifecycle(events, RawLifecycleEvidence::Closed) {
        return DerivedTermination::CleanClose;
    }
    DerivedTermination::UnknownTermination
}

/// `t` occurs in `s`.
pub open spec fn contains_text(s: Seq<char>, t: Seq<char>) -> bool {
    exists|i: int| 0 <= i && i + t.len() <= s.len() && #[trigger] s.subrange(i, i + t.len()) == t
}

pub fn str_contains(s: &str, t: &str) -> (r: bool)
    ensures
        r == contains_text(s@, t@),
{
    let n = s.unicode_len();
    let m = t.unicode_len();
    if m > n {
        return false;
    }
    let mut i: usize = 0;
    while i <= n - m
        invariant
            n == s@.len(),
            m == t@.len(),
            m <= n,
            i <= n - m + 1,
            forall|k: int| 0 <= k < i ==> #[trigger] s@.subrange(k, k + m) != t@,
        decreases n - m + 1 - i,
    {
        let mut j: usize = 0;
        let mut same = true;
        while j < m
            invariant
                n == s@.len(),
                m == t@.len(),
                i + m <= n,
                j <= m,
                same == forall|q: int| 0 <= q < j ==> s@[i + q] == t@[q],
            decreases m - j,
        {
            if s.get_char(i + j) != t.get_char(j) {
                same = false;
            }
            j = j + 1;
        }
        if same {
            assert(s@.subrange(i as int, i + m) =~= t@);
            return true;
        }
        proof {
            let q = choose|q: int| 0 <= q < m && s@[i + q] != t@[q];
            assert(s@.subrange(i as int, i + m)[q] != t@[q]);
        }
        i = i + 1;
    }
    false
}

/// Where a loss window falls relative to a connection's events: windows on
/// another clock, or with no event on their clock, cannot be compared; a
/// window with no drop count is a reset when its reason names a generation
/// change or a regression, else unknown; otherwise it lies outside the
/// connection's first-to-last event span or overlaps it.
pub open spec fn loss_classification(events: Seq<ReconstructionEvent>, w: LossWindowObserved) -> LossWindowClassification {
    let clock = w.start.clock@;
    if clock != w.end.clock@ {
        LossWindowClassification::ClockMismatch
    } else if w.drop_delta is None {
        if w.ambiguity_reason matches Some(r) && (contains_text(r@, "generation"@) || contains_text(r@, "regressed"@)) {
            LossWindowClassification::Reset
        } else {
            LossWindowClassification::Unknown
        }
    } else if !(exists|i: int| 0 <= i < events.len() && events[i].timestamp.clock@ == clock) {
        LossWindowClassification::ClockMismatch
    } else if (forall|j: int| 0 <= j < events.len() && events[j].timestamp.clock@ == clock ==> #[trigger] events[j].timestamp.nanoseconds > w.end.nanoseconds)
        || (forall|j: int| 0 <= j < events.len() && events[j].timestamp.clock@ == clock ==> #[trigger] events[j].timestamp.nanoseconds < w.start.nanoseconds) {
        LossWindowClassification::Outside
    } else {
        LossWindowClassification::Overlaps
    }
}

pub fn classify_loss_window(events: &[ReconstructionEvent], window: &LossWindowObserved) -> (c: LossWindowClassification)
    ensures
        c == loss_classification(events@, *window),
{
    let clock = window.start.clock.as_str();
    if !crate::text::str_eq(clock, window.end.clock.as_str()) {
        return LossWindowClassification::ClockMismatch;
    }
    if window.drop_delta.is_none() {
        return match &window.ambiguity_reason {
            Some(r) => if str_contains(r.as_str(), "generation") || str_contains(r.as_str(), "regressed") {
                LossWindowClassification::Reset
            } else {
                LossWindowClassification::Unknown
            },
            None => LossWindowClassification::Unknown,
        };
    }
    let mut seen = false;
    let mut first: u64 = 0;
    let mut last: u64 = 0;
    let mut i: usize = 0;
    while i < events.len()
        invariant
            clock@ == window.start.clock@,
            i <= events@.len(),
            seen == exists|k: int| 0 <= k < i && events@[k].timestamp.clock@ == clock@,
            seen ==> forall|k: int| 0 <= k < i && events@[k].timestamp.clock@ == clock@
                ==> first <= events@[k].timestamp.nanoseconds <= last,
            seen ==> exists|k: int| 0 <= k < i && events@[k].timestamp.clock@ == clock@ && events@[k].timestamp.nanoseconds == first,
            seen ==> exists|k: int| 0 <= k < i && events@[k].timestamp.clock@ == clock@ && events@[k].timestamp.nanoseconds == last,
        decreases events.len() - i,
    {
        if crate::text::str_eq(events[i].timestamp.clock.as_str(), clock) {
            let t = events[i].timestamp.nanoseconds;
            if !seen {
                first = t;
                last = t;
                seen = true;
            } else {
                if t < first {
                    first = t;
                }
                if t > last {
                    last = t;
                }
            }
        }
        i = i + 1;
    }
    if !seen {
        return LossWindowClassification::ClockMismatch;
    }
    if window.end.nanoseconds < first || window.start.nanoseconds > last {
        LossWindowClassification::Outside
    } else {
        proof {
            let kf = choose|k: int| 0 <= k < events@.len() && events@[k].timestamp.clock@ == clock@ && events@[k].timestamp.nanoseconds == first;
            let kl = choose|k: int| 0 <= k < events@.len() && events@[k].timestamp.clock@ == clock@ && events@[k].timestamp.nanoseconds == last;
            assert(!(events@[kl].timestamp.nanoseconds < window.start.nanoseconds));
            assert(!(events@[kf].timestamp.nanoseconds > window.end.nanoseconds));
        }
        LossWindowClassification::Overlaps
    }
}

/// The TCP range of a payload event: its sequence number, continuation
/// position and length (saturated to `u32`).
pub open spec fn tcp_range(e: ReconstructionEvent) -> Option<(u32, u32, u32)> {
    match e.evidence {
        ReconstructionEvidence::Payload(p) => match p.tcp_position {
            Some(pos) => Some((pos.tcp_sequence, pos.continuation_position,
                if p.bytes@.len() > u32::MAX { u32::MAX } else { p.bytes@.len() as u32 })),
            None => None,
        },
        ReconstructionEvidence::Lifecycle(_) => None,
    }
}

pub fn event_tcp_range(e: &ReconstructionEvent) -> (r: Option<(u32, u32, u32)>)
    ensures
        r == tcp_range(*e),
{
    match &e.evidence {
        ReconstructionEvidence::Payload(p) => match p.tcp_position {
            Some(pos) => {
                let len: u32 = if p.bytes.len() > 4294967295usize { 4294967295u32 } else { p.bytes.len() as u32 };
                Some((pos.tcp_sequence, pos.continuation_position, len))
            },
            None => None,
        },
        ReconstructionEvidence::Lifecycle(_) => None,
    }
}

/// Distance from `a` forward to `b` in 32-bit sequence space.
pub open spec fn seq_distance(a: u32, b: u32) -> int {
    (b as int - a as int + 4294967296) % 4294967296
}

/// Two non-empty TCP ranges share a byte, in 32-bit sequence space.
pub open spec fn ranges_overlap(first: ReconstructionEvent, second: ReconstructionEvent) -> bool {
    match (tcp_range(first), tcp_range(second)) {
        (Some((a, _, la)), Some((b, _, lb))) =>
            la > 0 && lb > 0 && (seq_distance(a, b) < la || seq_distance(b, a) < lb),
        _ => false,
    }
}

pub fn wrapping_distance(a: u32, b: u32) -> (d: u32)
    ensures
        d as int == seq_distance(a, b),
{
    if b >= a { b - a } else { ((4294967296u64 - a as u64) + b as u64) as u32 }
}

pub fn tcp_ranges_overlap(first: &ReconstructionEvent, second: &ReconstructionEvent) -> (r: bool)
    ensures
        r == ranges_overlap(*first, *second),
{
    let (a, _, la) = match event_tcp_range(first) {
        Some(t) => t,
        None => return false,
    };
    let (b, _, lb) = match event_tcp_range(second) {
        Some(t) => t,
        None => return false,
    };
    la > 0 && lb > 0 && (wrapping_distance(a, b) < la || wrapping_distance(b, a) < lb)
}

pub open spec fn strictly_increasing(s: Seq<u32>) -> bool {
    forall|i: int, j: int| 0 <= i < j < s.len() ==> s[i] < s[j]
}

/// `s` lists the distinct values of `v` in increasing order.
pub open spec fn sorted_distinct(s: Seq<u32>, v: Seq<u32>) -> bool {
    strictly_increasing(s) && forall|x: u32| s.contains(x) <==> v.contains(x)
}

/// The value after position `i`, cyclically.
pub open spec fn next_in_cycle(s: Seq<u32>, i: int) -> u32 {
    if i + 1 < s.len() { s[i + 1] } else { s[0] }
}

/// The gap from position `i` to the next value, cyclically.
pub open spec fn cyclic_gap(s: Seq<u32>, i: int) -> int {
    seq_distance(s[i], next_in_cycle(s, i))
}

/// `k` is the first position of a largest cyclic gap.
pub open spec fn first_largest_gap(s: Seq<u32>, k: int) -> bool {
    &&& 0 <= k < s.len()
    &&& forall|i: int| 0 <= i < s.len() ==> #[trigger] cyclic_gap(s, i) <= cyclic_gap(s, k)
    &&& forall|i: int| 0 <= i < k ==> #[trigger] cyclic_gap(s, i) < cyclic_gap(s, k)
}

/// The canonical start of a set of TCP sequence numbers, listed in order:
/// the value after the first largest cyclic gap. A gap of half the
/// sequence space makes the start ambiguous.
pub open spec fn tcp_start_result(s: Seq<u32>, r: (Option<u32>, Option<TcpOrderingAmbiguity>)) -> bool {
    if s.len() == 0 {
        r == (None::<u32>, None::<TcpOrderingAmbiguity>)
    } else if exists|i: int| 0 <= i < s.len() && #[trigger] cyclic_gap(s, i) == 2147483648 {
        r == (None::<u32>, Some(TcpOrderingAmbiguity::HalfSequenceRange))
    } else {
        exists|k: int| first_largest_gap(s, k) && r == (Some(next_in_cycle(s, k)), None::<TcpOrderingAmbiguity>)
    }
}

/// The distinct values of `v` in increasing order.
fn sorted_values(v: &[u32]) -> (s: Vec<u32>)
    ensures
        sorted_distinct(s@, v@),
{
    let mut out: Vec<u32> = Vec::new();
    let mut i: usize = 0;
    while i < v.len()
        invariant
            i <= v@.len(),
            strictly_increasing(out@),
            forall|x: u32| out@.contains(x) <==> v@.subrange(0, i as int).contains(x),
        decreases v.len() - i,
    {
        let x = v[i];
        let mut j: usize = 0;
        while j < out.len() && out[j] < x
            invariant
                j <= out@.len(),
                forall|k: int| 0 <= k < j ==> out@[k] < x,
            decreases out.len() - j,
        {
            j = j + 1;
        }
        proof {
            assert forall|y: u32| v@.subrange(0, i + 1).contains(y) <==> (v@.subrange(0, i as int).contains(y) || y == x) by {
                if v@.subrange(0, i + 1).contains(y) {
                    let k = choose|k: int| 0 <= k < i + 1 && #[trigger] v@.subrange(0, i + 1)[k] == y;
                    if k < i {
                        assert(v@.subrange(0, i as int)[k] == y);
                    }
                }
                if v@.subrange(0, i as int).contains(y) {
                    let k = choose|k: int| 0 <= k < i && #[trigger] v@.subrange(0, i as int)[k] == y;
                    assert(v@.subrange(0, i + 1)[k] == y);
                }
                if y == x {
                    assert(v@.subrange(0, i + 1)[i as int] == y);
                }
            }
        }
        let ghost before = out@;
        if j < out.len() && out[j] == x {
            proof {
                assert forall|y: u32| out@.contains(y) <==> (before.contains(y) || y == x) by {
                    if y == x { assert(out@[j as int] == x); }
                }
            }
        } else {
            out.insert(j, x);
            proof {
                assert forall|a: int, b: int| 0 <= a < b < out@.len() implies out@[a] < out@[b] by {
                    if b < j {
                    } else if a < j && b == j {
                    } else if a < j {
                        assert(out@[b] == before[b - 1]);
                        if j < before.len() { assert(before[j as int] > x); }
                    } else if a == j {
                        assert(out@[b] == before[b - 1]);
                        assert(before[j as int] > x || before[j as int] == x);
                    } else {
                        assert(out@[a] == before[a - 1] && out@[b] == before[b - 1]);
                    }
                }
                assert forall|y: u32| out@.contains(y) <==> (before.contains(y) || y == x) by {
                    if out@.contains(y) {
                        let k = choose|k: int| 0 <= k < out@.len() && #[trigger] out@[k] == y;
                        if k < j { assert(before[k] == y); } else if k > j { assert(before[k - 1] == y); }
                    }
                    if before.contains(y) {
                        let k = choose|k: int| 0 <= k < before.len() && #[trigger] before[k] == y;
                        if k < j { assert(out@[k] == y); } else { assert(out@[k + 1] == y); }
                    }
                    if y == x { assert(out@[j as int] == y); }
                }
            }
        }
        proof {
            assert forall|y: u32| out@.contains(y) <==> v@.subrange(0, i + 1).contains(y) by {
                assert(out@.contains(y) <==> (before.contains(y) || y == x));
                assert(before.contains(y) <==> v@.subrange(0, i as int).contains(y));
            }
        }
        i = i + 1;
    }
    proof { assert(v@.subrange(0, v@.len() as int) =~= v@); }
    out
}

/// The canonical start of the TCP sequence numbers `v`.
pub fn canonical_tcp_start(v: &[u32]) -> (r: (Option<u32>, Option<TcpOrderingAmbiguity>))
    ensures
        exists|s: Seq<u32>| sorted_distinct(s, v@) && tcp_start_result(s, r),
{
    let s = sorted_values(v);
    if s.len() == 0 {
        assert(sorted_distinct(s@, v@) && tcp_start_result(s@, (None::<u32>, None::<TcpOrderingAmbiguity>)));
        return (None, None);
    }
    let n = s.len();
    let mut start: u32 = s[0];
    let mut best: u32 = 0;
    let mut k: usize = 0;
    let mut i: usize = 0;
    while i < n
        invariant
            n == s@.len(),
            sorted_distinct(s@, v@),
            n > 0,
            i <= n,
            k < n,
            i == 0 ==> best == 0 && k == 0 && start == s@[0],
            i > 0 ==> k < i && best as int == cyclic_gap(s@, k as int) && start == next_in_cycle(s@, k as int),
            forall|q: int| 0 <= q < i ==> #[trigger] cyclic_gap(s@, q) <= best,
            forall|q: int| 0 <= q < k ==> #[trigger] cyclic_gap(s@, q) < best,
            forall|q: int| 0 <= q < i ==> #[trigger] cyclic_gap(s@, q) != 2147483648,
        decreases n - i,
    {
        let next = if i + 1 < n { s[i + 1] } else { s[0] };
        let gap = wrapping_distance(s[i], next);
        proof { assert(gap as int == cyclic_gap(s@, i as int)); }
        if gap == 2147483648u32 {
            proof {
                assert(sorted_distinct(s@, v@) && tcp_start_result(s@, (None::<u32>, Some(TcpOrderingAmbiguity::HalfSequenceRange))));
            }
            return (None, Some(TcpOrderingAmbiguity::HalfSequenceRange));
        }
        if gap > best || i == 0 {
            best = gap;
            start = next;
            k = i;
        }
        i = i + 1;
    }
    proof {
        assert(first_largest_gap(s@, k as int));
        assert(!(exists|q: int| 0 <= q < s@.len() && #[trigger] cyclic_gap(s@, q) == 2147483648));
        assert(sorted_distinct(s@, v@) && tcp_start_result(s@, (Some(start), None::<TcpOrderingAmbiguity>)));
    }
    (Some(start), None)
}

} // verus!
