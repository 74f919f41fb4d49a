//! Capture-level session assembly: payload fragments grouped into bounded
//! per-connection streams by the socket evidence that names their ends.
use vstd::prelude::*;
use crate::assembler::{endpoint_lt, lemma_endpoint_facts, namespace_lt};
use crate::canonical::{Endpoint, EndpointView};
use crate::protocol::Direction;
use crate::session::{FragmentPosition, LossWindowObserved, MonotonicTimestamp, SessionError, SessionLimits, SocketRole};
use crate::text::str_eq;

verus! {

/// The capture event schema this assembler accepts.
pub const CAPTURE_EVENT_SCHEMA_VERSION: u16 = 1;

#[derive(Clone, Copy, Debug, PartialEq, Eq, Structural)]
pub enum NetworkFamily {
    Ipv4,
    Ipv6,
}

/// Which way a payload fragment travelled, seen from the capturing socket.
#[derive(Clone, Copy, Debug, PartialEq, Eq, Structural)]
pub enum PayloadDirection {
    Ingress,
    Egress,
}

/// A kernel socket generation: its cookie, when it was first seen, and
/// its network namespace when known.
#[derive(Clone, Debug, PartialEq, Eq)]
pub struct SocketIdentity {
    pub socket_cookie: u64,
    pub first_seen: MonotonicTimestamp,
    pub network_namespace: Option<u64>,
}

/// What capture observed of a socket, and when: its family, ends and role.
#[derive(Clone, Debug, PartialEq, Eq)]
pub struct SocketEvidence {
    pub timestamp: MonotonicTimestamp,
    pub socket: SocketIdentity,
    pub network_family: NetworkFamily,
    pub local_endpoint: Endpoint,
    pub remote_endpoint: Endpoint,
    pub role: SocketRole,
}

/// A captured payload fragment: when and on which socket it was seen, its
/// direction, TCP position and bytes, whether capture cut it short, and
/// capture flags.
#[derive(Clone, Debug, PartialEq, Eq)]
pub struct PayloadFragment {
    pub timestamp: MonotonicTimestamp,
    pub socket: SocketIdentity,
    pub direction: PayloadDirection,
    pub sequence: FragmentPosition,
    pub payload: Vec<u8>,
    pub truncated: bool,
    pub flags: u32,
}

/// A socket's attempt to connect, before it is established.
#[derive(Clone, Debug, PartialEq, Eq)]
pub struct SocketConnectIntent {
    pub timestamp: MonotonicTimestamp,
    pub socket: SocketIdentity,
}

/// What a capture event reports.
#[derive(Clone, Debug, PartialEq, Eq)]
pub enum CaptureEventKind {
    SocketConnectObserved(SocketConnectIntent),
    SocketConnected(SocketEvidence),
    SocketClosedObserved(SocketEvidence),
    SocketResetObserved(SocketEvidence),
    SocketStateChangedObserved { socket: SocketEvidence, raw_state: u32 },
    PayloadFragment(PayloadFragment),
    LossWindowObserved(LossWindowObserved),
}

#[derive(Clone, Debug, PartialEq, Eq)]
pub struct CaptureEvent {
    pub schema_version: u16,
    pub kind: CaptureEventKind,
}

/// A TCP connection as its ends name it.
#[derive(Clone, Debug, PartialEq, Eq)]
pub struct ConnectionKey {
    pub network_namespace: Option<u64>,
    pub client: Endpoint,
    pub server: Endpoint,
}

/// One payload fragment in a connection stream.
#[derive(Clone, Debug, PartialEq, Eq)]
pub struct CaptureChunk {
    pub monotonic_sequence: u64,
    pub wall_time: Option<i128>,
    pub direction: Direction,
    pub payload: Vec<u8>,
    pub truncated: bool,
    pub flags: u32,
}

/// The chunks of one connection, their byte total, and whether any of them
/// was cut short.
#[derive(Clone, Debug, PartialEq, Eq)]
pub struct ConnectionStream {
    pub key: ConnectionKey,
    pub chunks: Vec<CaptureChunk>,
    pub total_bytes: usize,
    pub truncated: bool,
}

impl ConnectionStream {
    /// The monotonic sequence of the first chunk.
    pub fn first_sequence(&self) -> (r: Option<u64>)
        ensures
            r == first_chunk_sequence(chunks_view(self.chunks@)),
    {
        if self.chunks.len() == 0 {
            None
        } else {
            Some(self.chunks[0].monotonic_sequence)
        }
    }
}

// ---------------------------------------------------------------------------
// Views

pub struct SocketIdView {
    pub cookie: u64,
    pub clock: Seq<char>,
    pub nanoseconds: u64,
    pub network_namespace: Option<u64>,
}

pub struct SocketEvidenceView {
    pub clock: Seq<char>,
    pub nanoseconds: u64,
    pub socket: SocketIdView,
    pub network_family: NetworkFamily,
    pub local: EndpointView,
    pub remote: EndpointView,
    pub role: SocketRole,
}

pub struct KeyView {
    pub network_namespace: Option<u64>,
    pub client: EndpointView,
    pub server: EndpointView,
}

pub struct ChunkView {
    pub monotonic_sequence: u64,
    pub wall_time: Option<i128>,
    pub direction: Direction,
    pub payload: Seq<u8>,
    pub truncated: bool,
    pub flags: u32,
}

pub struct StreamView {
    pub key: KeyView,
    pub chunks: Seq<ChunkView>,
    pub total_bytes: usize,
    pub truncated: bool,
}

impl View for SocketIdentity {
    type V = SocketIdView;

    open spec fn view(&self) -> SocketIdView {
        SocketIdView {
            cookie: self.socket_cookie,
            clock: self.first_seen.clock@,
            nanoseconds: self.first_seen.nanoseconds,
            network_namespace: self.network_namespace,
        }
    }
}

impl View for SocketEvidence {
    type V = SocketEvidenceView;

    open spec fn view(&self) -> SocketEvidenceView {
        SocketEvidenceView {
            clock: self.timestamp.clock@,
            nanoseconds: self.timestamp.nanoseconds,
            socket: self.socket@,
            network_family: self.network_family,
            local: self.local_endpoint@,
            remote: self.remote_endpoint@,
            role: self.role,
        }
    }
}

impl View for ConnectionKey {
    type V = KeyView;

    open spec fn view(&self) -> KeyView {
        KeyView { network_namespace: self.network_namespace, client: self.client@, server: self.server@ }
    }
}

impl View for CaptureChunk {
    type V = ChunkView;

    open spec fn view(&self) -> ChunkView {
        ChunkView {
            monotonic_sequence: self.monotonic_sequence,
            wall_time: self.wall_time,
            direction: self.direction,
            payload: self.payload@,
            truncated: self.truncated,
            flags: self.flags,
        }
    }
}

pub open spec fn chunks_view(s: Seq<CaptureChunk>) -> Seq<ChunkView> {
    s.map_values(|c: CaptureChunk| c@)
}

impl View for ConnectionStream {
    type V = StreamView;

    open spec fn view(&self) -> StreamView {
        StreamView { key: self.key@, chunks: chunks_view(self.chunks@), total_bytes: self.total_bytes, truncated: self.truncated }
    }
}

pub open spec fn streams_view(s: Seq<ConnectionStream>) -> Seq<StreamView> {
    s.map_values(|c: ConnectionStream| c@)
}

pub open spec fn sockets_view(s: Seq<SocketEvidence>) -> Seq<SocketEvidenceView> {
    s.map_values(|e: SocketEvidence| e@)
}

pub open spec fn first_chunk_sequence(chunks: Seq<ChunkView>) -> Option<u64> {
    if chunks.len() == 0 { None } else { Some(chunks[0].monotonic_sequence) }
}

// ---------------------------------------------------------------------------
// Connection keys and their order

/// The connection a socket's evidence names: the active end is the client.
pub open spec fn key_of(e: SocketEvidenceView) -> KeyView {
    match e.role {
        SocketRole::Active => KeyView { network_namespace: e.socket.network_namespace, client: e.local, server: e.remote },
        SocketRole::Passive => KeyView { network_namespace: e.socket.network_namespace, client: e.remote, server: e.local },
    }
}

pub fn connection_key(evidence: &SocketEvidence) -> (k: ConnectionKey)
    ensures
        k@ == key_of(evidence@),
{
    match evidence.role {
        SocketRole::Active => ConnectionKey {
            network_namespace: evidence.socket.network_namespace,
            client: evidence.local_endpoint.duplicate(),
            server: evidence.remote_endpoint.duplicate(),
        },
        SocketRole::Passive => ConnectionKey {
            network_namespace: evidence.socket.network_namespace,
            client: evidence.remote_endpoint.duplicate(),
            server: evidence.local_endpoint.duplicate(),
        },
    }
}

/// The order of connection keys: namespace, then client, then server.
pub open spec fn key_lt(a: KeyView, b: KeyView) -> bool {
    namespace_lt(a.network_namespace, b.network_namespace)
        || (a.network_namespace == b.network_namespace
            && (endpoint_lt(a.client, b.client) || (a.client == b.client && endpoint_lt(a.server, b.server))))
}

/// The key order is a strict total order.
pub proof fn lemma_key_order(a: KeyView, b: KeyView, c: KeyView)
    ensures
        !key_lt(a, a),
        key_lt(a, b) ==> !key_lt(b, a),
        key_lt(a, b) && key_lt(b, c) ==> key_lt(a, c),
        a != b ==> key_lt(a, b) || key_lt(b, a),
{
    lemma_endpoint_facts(a.client, b.client, c.client);
    lemma_endpoint_facts(a.server, b.server, c.server);
    lemma_endpoint_facts(b.client, a.client, c.client);
    lemma_endpoint_facts(b.server, a.server, c.server);
}

fn endpoint_less(a: &Endpoint, b: &Endpoint) -> (r: bool)
    ensures
        r == endpoint_lt(a@, b@),
{
    crate::text::bytes_lt(a.host.as_str().as_bytes(), b.host.as_str().as_bytes())
        || (str_eq(a.host.as_str(), b.host.as_str()) && a.port < b.port)
}

fn key_less(a: &ConnectionKey, b: &ConnectionKey) -> (r: bool)
    ensures
        r == key_lt(a@, b@),
{
    let ns = match (a.network_namespace, b.network_namespace) {
        (None, Some(_)) => true,
        (Some(x), Some(y)) => x < y,
        _ => false,
    };
    ns || (a.network_namespace == b.network_namespace
        && (endpoint_less(&a.client, &b.client) || (a.client.same(&b.client) && endpoint_less(&a.server, &b.server))))
}

fn key_same(a: &ConnectionKey, b: &ConnectionKey) -> (r: bool)
    ensures
        r == (a@ == b@),
{
    a.network_namespace == b.network_namespace && a.client.same(&b.client) && b.server.same(&a.server)
}

fn socket_same(a: &SocketIdentity, b: &SocketIdentity) -> (r: bool)
    ensures
        r == (a@ == b@),
{
    a.socket_cookie == b.socket_cookie && str_eq(a.first_seen.clock.as_str(), b.first_seen.clock.as_str())
        && a.first_seen.nanoseconds == b.first_seen.nanoseconds && a.network_namespace == b.network_namespace
}

// ---------------------------------------------------------------------------
// The assembler

pub struct SessionAssemblerView {
    pub limits: SessionLimits,
    pub sockets: Seq<SocketEvidenceView>,
    pub streams: Seq<StreamView>,
}

/// Groups payload fragments into connection streams under limits, by the
/// socket evidence seen before them.
pub struct SessionAssembler {
    limits: SessionLimits,
    sockets: Vec<SocketEvidence>,
    streams: Vec<ConnectionStream>,
}

impl View for SessionAssembler {
    type V = SessionAssemblerView;

    closed spec fn view(&self) -> SessionAssemblerView {
        SessionAssemblerView { limits: self.limits, sockets: sockets_view(self.sockets@), streams: streams_view(self.streams@) }
    }
}

pub open spec fn payload_bytes(chunks: Seq<ChunkView>) -> nat
    decreases chunks.len(),
{
    if chunks.len() == 0 { 0 } else { payload_bytes(chunks.drop_last()) + chunks.last().payload.len() }
}

pub open spec fn any_truncated(chunks: Seq<ChunkView>) -> bool {
    exists|i: int| 0 <= i < chunks.len() && (#[trigger] chunks[i]).truncated
}

/// A stream within the limits whose byte total (capped at `usize::MAX`) and
/// truncation flag account for its chunks.
pub open spec fn stream_ok(s: StreamView, limits: SessionLimits) -> bool {
    &&& s.chunks.len() <= limits.max_chunks_per_connection
    &&& s.total_bytes <= limits.max_bytes_per_connection
    &&& s.total_bytes as nat == capped(payload_bytes(s.chunks))
    &&& s.truncated == any_truncated(s.chunks)
}

/// A byte count capped at `usize::MAX`.
pub open spec fn capped(n: nat) -> nat {
    if n > usize::MAX { usize::MAX as nat } else { n }
}

/// The assembler's invariant: sockets named once, streams in strict key
/// order and no more of them than the limit, each stream within the limits
/// and accounting for its chunks.
pub open spec fn session_wf(v: SessionAssemblerView) -> bool {
    &&& forall|i: int, j: int| 0 <= i < j < v.sockets.len() ==> (#[trigger] v.sockets[i]).socket != (#[trigger] v.sockets[j]).socket
    &&& forall|i: int, j: int| 0 <= i < j < v.streams.len() ==> key_lt((#[trigger] v.streams[i]).key, (#[trigger] v.streams[j]).key)
    &&& v.streams.len() <= v.limits.max_connections
    &&& forall|i: int| 0 <= i < v.streams.len() ==> stream_ok(#[trigger] v.streams[i], v.limits)
}

/// The position of the evidence for socket `id`, or -1.
pub open spec fn socket_position(sockets: Seq<SocketEvidenceView>, id: SocketIdView) -> int {
    if exists|i: int| 0 <= i < sockets.len() && sockets[i].socket == id {
        choose|i: int| 0 <= i < sockets.len() && sockets[i].socket == id
    } else {
        -1
    }
}

/// The position of the stream `key`, or -1.
pub open spec fn stream_position(streams: Seq<StreamView>, key: KeyView) -> int {
    if exists|i: int| 0 <= i < streams.len() && streams[i].key == key {
        choose|i: int| 0 <= i < streams.len() && streams[i].key == key
    } else {
        -1
    }
}

/// The number of streams ordered before `key`.
pub open spec fn streams_before(streams: Seq<StreamView>, key: KeyView) -> nat
    decreases streams.len(),
{
    if streams.len() == 0 {
        0
    } else {
        streams_before(streams.drop_last(), key) + if key_lt(streams.last().key, key) { 1nat } else { 0nat }
    }
}

/// Evidence that disagrees with what is known of the same socket.
pub open spec fn conflicts(a: SocketEvidenceView, b: SocketEvidenceView) -> bool {
    a.network_family != b.network_family || a.local != b.local || a.remote != b.remote || a.role != b.role
}

/// The state and result after socket evidence: evidence that disagrees with
/// what is known of its socket is refused; else it is kept.
pub open spec fn evidence_cached(v: SessionAssemblerView, e: SocketEvidenceView) -> (SessionAssemblerView, Result<(), SessionError>) {
    let pos = socket_position(v.sockets, e.socket);
    if pos >= 0 && conflicts(v.sockets[pos], e) {
        (v, Err(SessionError::ConflictingSocketEvidence))
    } else if pos >= 0 {
        (SessionAssemblerView { sockets: v.sockets.update(pos, e), ..v }, Ok(()))
    } else {
        (SessionAssemblerView { sockets: v.sockets.push(e), ..v }, Ok(()))
    }
}

/// The stream direction of a fragment: the active socket's egress and the
/// passive socket's ingress travel from client to server.
pub open spec fn stream_direction(role: SocketRole, d: PayloadDirection) -> Direction {
    match (role, d) {
        (SocketRole::Active, PayloadDirection::Egress) => Direction::ClientToServer,
        (SocketRole::Passive, PayloadDirection::Ingress) => Direction::ClientToServer,
        _ => Direction::ServerToClient,
    }
}

pub open spec fn saturating_sum(a: nat, b: nat) -> nat {
    if a + b > usize::MAX { usize::MAX as nat } else { a + b }
}

/// The state and result after a payload fragment on socket `socket`: a
/// fragment of an unknown socket, or one over the byte, chunk or
/// connection limit, is refused and changes nothing; else it joins its
/// connection's stream, which is created in key order when new.
pub open spec fn payload_pushed(
    v: SessionAssemblerView,
    socket: SocketIdView,
    timestamp: u64,
    direction: PayloadDirection,
    payload: Seq<u8>,
    truncated: bool,
    flags: u32,
) -> (SessionAssemblerView, Result<(), SessionError>) {
    let spos = socket_position(v.sockets, socket);
    if spos < 0 {
        (v, Err(SessionError::MissingSocketEvidence))
    } else {
        let evidence = v.sockets[spos];
        let key = key_of(evidence);
        let pos = stream_position(v.streams, key);
        let existing_bytes: nat = if pos >= 0 { v.streams[pos].total_bytes as nat } else { 0 };
        let attempted = saturating_sum(existing_bytes, payload.len());
        let existing_chunks: nat = if pos >= 0 { v.streams[pos].chunks.len() } else { 0 };
        if attempted > v.limits.max_bytes_per_connection {
            (v, Err(SessionError::ByteLimit { limit: v.limits.max_bytes_per_connection, attempted: attempted as usize }))
        } else if existing_chunks >= v.limits.max_chunks_per_connection {
            (v, Err(SessionError::ChunkLimit { limit: v.limits.max_chunks_per_connection }))
        } else if pos < 0 && v.streams.len() >= v.limits.max_connections {
            (v, Err(SessionError::ConnectionLimit { limit: v.limits.max_connections }))
        } else {
            let chunk = ChunkView {
                monotonic_sequence: timestamp,
                wall_time: None,
                direction: stream_direction(evidence.role, direction),
                payload,
                truncated,
                flags,
            };
            let stream = if pos >= 0 {
                StreamView {
                    key,
                    chunks: v.streams[pos].chunks.push(chunk),
                    total_bytes: attempted as usize,
                    truncated: v.streams[pos].truncated || truncated,
                }
            } else {
                StreamView { key, chunks: seq![chunk], total_bytes: attempted as usize, truncated }
            };
            (SessionAssemblerView {
                streams: if pos >= 0 { v.streams.update(pos, stream) } else { v.streams.insert(streams_before(v.streams, key) as int, stream) },
                ..v
            }, Ok(()))
        }
    }
}

proof fn lemma_streams_distinct(s: Seq<StreamView>, i: int, j: int)
    requires
        forall|a: int, b: int| 0 <= a < b < s.len() ==> key_lt((#[trigger] s[a]).key, (#[trigger] s[b]).key),
        0 <= i < s.len(),
        0 <= j < s.len(),
        s[i].key == s[j].key,
    ensures
        i == j,
{
    if i < j {
        lemma_key_order(s[i].key, s[j].key, s[j].key);
    } else if j < i {
        lemma_key_order(s[j].key, s[i].key, s[i].key);
    }
}

proof fn lemma_streams_before(s: Seq<StreamView>, key: KeyView)
    requires
        forall|a: int, b: int| 0 <= a < b < s.len() ==> key_lt((#[trigger] s[a]).key, (#[trigger] s[b]).key),
        forall|i: int| 0 <= i < s.len() ==> (#[trigger] s[i]).key != key,
    ensures
        streams_before(s, key) <= s.len(),
        forall|i: int| 0 <= i < streams_before(s, key) ==> key_lt(#[trigger] s[i].key, key),
        forall|i: int| streams_before(s, key) <= i < s.len() ==> key_lt(key, #[trigger] s[i].key),
    decreases s.len(),
{
    if s.len() > 0 {
        let rest = s.drop_last();
        let n = s.len() - 1;
        assert forall|a: int, b: int| 0 <= a < b < rest.len() implies key_lt((#[trigger] rest[a]).key, (#[trigger] rest[b]).key) by {
            assert(rest[a] == s[a] && rest[b] == s[b]);
        }
        assert forall|i: int| 0 <= i < rest.len() implies (#[trigger] rest[i]).key != key by {
            assert(rest[i] == s[i]);
        }
        lemma_streams_before(rest, key);
        let ob = streams_before(rest, key);
        lemma_key_order(s[n].key, key, key);
        if key_lt(s[n].key, key) {
            assert(ob == n) by {
                if ob < n {
                    assert(key_lt(key, rest[ob as int].key));
                    assert(key_lt(s[ob as int].key, s[n].key));
                    lemma_key_order(key, s[ob as int].key, s[n].key);
                    lemma_key_order(key, s[n].key, key);
                }
            }
            assert forall|i: int| 0 <= i < streams_before(s, key) implies key_lt(#[trigger] s[i].key, key) by {
                if i < n {
                    assert(rest[i] == s[i]);
                }
            }
        } else {
            assert forall|i: int| 0 <= i < streams_before(s, key) implies key_lt(#[trigger] s[i].key, key) by {
                assert(rest[i] == s[i]);
            }
            assert forall|i: int| streams_before(s, key) <= i < s.len() implies key_lt(key, #[trigger] s[i].key) by {
                if i < n {
                    assert(rest[i] == s[i]);
                }
            }
        }
    }
}

proof fn lemma_payload_bytes_push(chunks: Seq<ChunkView>, c: ChunkView)
    ensures
        payload_bytes(chunks.push(c)) == payload_bytes(chunks) + c.payload.len(),
        any_truncated(chunks.push(c)) == (any_truncated(chunks) || c.truncated),
{
    assert(chunks.push(c).drop_last() =~= chunks);
    if any_truncated(chunks) {
        let i = choose|i: int| 0 <= i < chunks.len() && (#[trigger] chunks[i]).truncated;
        assert(chunks.push(c)[i] == chunks[i]);
    }
    if c.truncated {
        assert(chunks.push(c)[chunks.len() as int] == c);
    }
    if any_truncated(chunks.push(c)) {
        let i = choose|i: int| 0 <= i < chunks.len() + 1 && (#[trigger] chunks.push(c)[i]).truncated;
        if i < chunks.len() {
            assert(chunks.push(c)[i] == chunks[i]);
        }
    }
}

/// A copy of a socket evidence record.
fn copy_evidence(e: &SocketEvidence) -> (c: SocketEvidence)
    ensures
        c@ == e@,
{
    SocketEvidence {
        timestamp: crate::ordering::copy_timestamp(&e.timestamp),
        socket: SocketIdentity {
            socket_cookie: e.socket.socket_cookie,
            first_seen: crate::ordering::copy_timestamp(&e.socket.first_seen),
            network_namespace: e.socket.network_namespace,
        },
        network_family: e.network_family,
        local_endpoint: e.local_endpoint.duplicate(),
        remote_endpoint: e.remote_endpoint.duplicate(),
        role: e.role,
    }
}

impl SessionAssembler {
    pub open spec fn wf(&self) -> bool {
        session_wf(self@)
    }

    pub fn new(limits: SessionLimits) -> (a: Self)
        ensures
            a.wf(),
            a@.limits == limits,
            a@.sockets.len() == 0,
            a@.streams.len() == 0,
    {
        let a = SessionAssembler { limits, sockets: Vec::new(), streams: Vec::new() };
        proof {
            assert(sockets_view(a.sockets@) =~= Seq::<SocketEvidenceView>::empty());
            assert(streams_view(a.streams@) =~= Seq::<StreamView>::empty());
        }
        a
    }

    fn find_socket(&self, id: &SocketIdentity) -> (r: Option<usize>)
        requires
            self.wf(),
        ensures
            match r {
                Some(i) => i < self@.sockets.len() && i == socket_position(self@.sockets, id@),
                None => socket_position(self@.sockets, id@) == -1,
            },
    {
        let ghost s = self@.sockets;
        let mut i: usize = 0;
        while i < self.sockets.len()
            invariant
                self.wf(),
                s == self@.sockets,
                i <= s.len(),
                forall|k: int| 0 <= k < i ==> (#[trigger] s[k]).socket != id@,
            decreases self.sockets.len() - i,
        {
            assert(s[i as int] == self.sockets@[i as int]@);
            if socket_same(&self.sockets[i].socket, id) {
                proof {
                    let j = choose|j: int| 0 <= j < s.len() && s[j].socket == id@;
                    if j != i {
                        if j < i {
                            assert(s[j].socket != s[i as int].socket);
                        } else {
                            assert(s[i as int].socket != s[j].socket);
                        }
                    }
                }
                return Some(i);
            }
            i = i + 1;
        }
        None
    }

    fn find_stream(&self, key: &ConnectionKey) -> (r: Option<usize>)
        requires
            self.wf(),
        ensures
            match r {
                Some(i) => i < self@.streams.len() && i == stream_position(self@.streams, key@),
                None => stream_position(self@.streams, key@) == -1
                    && forall|k: int| 0 <= k < self@.streams.len() ==> (#[trigger] self@.streams[k]).key != key@,
            },
    {
        let ghost s = self@.streams;
        let mut i: usize = 0;
        while i < self.streams.len()
            invariant
                self.wf(),
                s == self@.streams,
                i <= s.len(),
                forall|k: int| 0 <= k < i ==> (#[trigger] s[k]).key != key@,
            decreases self.streams.len() - i,
        {
            assert(s[i as int] == self.streams@[i as int]@);
            if key_same(&self.streams[i].key, key) {
                proof {
                    let j = choose|j: int| 0 <= j < s.len() && s[j].key == key@;
                    lemma_streams_distinct(s, i as int, j);
                }
                return Some(i);
            }
            i = i + 1;
        }
        None
    }

    fn count_streams_before(&self, key: &ConnectionKey) -> (r: usize)
        ensures
            r == streams_before(self@.streams, key@),
    {
        let ghost s = self@.streams;
        let mut n: usize = 0;
        let mut i: usize = 0;
        while i < self.streams.len()
            invariant
                s == self@.streams,
                i <= s.len(),
                n <= i,
                n == streams_before(s.take(i as int), key@),
            decreases self.streams.len() - i,
        {
            proof {
                assert(s.take(i + 1).drop_last() =~= s.take(i as int));
                assert(s[i as int] == self.streams@[i as int]@);
            }
            if key_less(&self.streams[i].key, key) {
                n = n + 1;
            }
            i = i + 1;
        }
        proof { assert(s.take(s.len() as int) =~= s); }
        n
    }

    /// Keeps socket evidence; see `evidence_cached`.
    fn cache_evidence(&mut self, evidence: SocketEvidence) -> (r: Result<(), SessionError>)
        requires
            old(self).wf(),
        ensures
            final(self).wf(),
            (final(self)@, r) == evidence_cached(old(self)@, evidence@),
    {
        let ghost before = self@;
        match self.find_socket(&evidence.socket) {
            Some(i) => {
                let existing = &self.sockets[i];
                assert(before.sockets[i as int] == existing@);
                if existing.network_family != evidence.network_family
                    || !existing.local_endpoint.same(&evidence.local_endpoint)
                    || !existing.remote_endpoint.same(&evidence.remote_endpoint)
                    || existing.role != evidence.role
                {
                    return Err(SessionError::ConflictingSocketEvidence);
                }
                self.sockets.set(i, evidence);
                proof {
                    assert(sockets_view(self.sockets@) =~= before.sockets.update(i as int, evidence@));
                    let v = self@;
                    assert forall|a: int, b: int| 0 <= a < b < v.sockets.len() implies (#[trigger] v.sockets[a]).socket != (#[trigger] v.sockets[b]).socket by {
                        assert(before.sockets[a].socket != before.sockets[b].socket);
                    }
                }
            },
            None => {
                proof {
                    assert(!(exists|k: int| 0 <= k < before.sockets.len() && before.sockets[k].socket == evidence@.socket));
                }
                self.sockets.push(evidence);
                proof {
                    assert(sockets_view(self.sockets@) =~= before.sockets.push(evidence@));
                    let v = self@;
                    assert forall|a: int, b: int| 0 <= a < b < v.sockets.len() implies (#[trigger] v.sockets[a]).socket != (#[trigger] v.sockets[b]).socket by {
                        if b < before.sockets.len() {
                            assert(before.sockets[a].socket != before.sockets[b].socket);
                        } else {
                            assert(v.sockets[a] == before.sockets[a]);
                        }
                    }
                }
            },
        }
        Ok(())
    }

    /// Adds a payload fragment; see `payload_pushed`.
    #[verifier::rlimit(40)]
    fn push_payload(&mut self, fragment: PayloadFragment) -> (r: Result<(), SessionError>)
        requires
            old(self).wf(),
        ensures
            final(self).wf(),
            (final(self)@, r) == payload_pushed(old(self)@, fragment.socket@, fragment.timestamp.nanoseconds, fragment.direction,
                fragment.payload@, fragment.truncated, fragment.flags),
    {
        let ghost v = self@;
        let si = match self.find_socket(&fragment.socket) {
            Some(i) => i,
            None => return Err(SessionError::MissingSocketEvidence),
        };
        let role = self.sockets[si].role;
        let key = connection_key(&self.sockets[si]);
        proof { assert(v.sockets[si as int] == self.sockets@[si as int]@); }
        let found = self.find_stream(&key);
        let existing_bytes: usize = match found { Some(i) => self.streams[i].total_bytes, None => 0 };
        let existing_chunks: usize = match found { Some(i) => self.streams[i].chunks.len(), None => 0 };
        proof {
            if found is Some {
                assert(v.streams[found->0 as int] == self.streams@[found->0 as int]@);
            }
        }
        let attempted = existing_bytes.saturating_add(fragment.payload.len());
        if attempted > self.limits.max_bytes_per_connection {
            return Err(SessionError::ByteLimit { limit: self.limits.max_bytes_per_connection, attempted });
        }
        if existing_chunks >= self.limits.max_chunks_per_connection {
            return Err(SessionError::ChunkLimit { limit: self.limits.max_chunks_per_connection });
        }
        if found.is_none() && self.streams.len() >= self.limits.max_connections {
            return Err(SessionError::ConnectionLimit { limit: self.limits.max_connections });
        }
        let direction = match (role, fragment.direction) {
            (SocketRole::Active, PayloadDirection::Egress) => Direction::ClientToServer,
            (SocketRole::Passive, PayloadDirection::Ingress) => Direction::ClientToServer,
            _ => Direction::ServerToClient,
        };
        let truncated = fragment.truncated;
        let chunk = CaptureChunk {
            monotonic_sequence: fragment.timestamp.nanoseconds,
            wall_time: None,
            direction,
            payload: fragment.payload,
            truncated,
            flags: fragment.flags,
        };
        let ghost cv = chunk@;
        proof {
            assert(cv.payload.len() == fragment.payload@.len());
            if found is Some {
                assert(existing_bytes == v.streams[found->0 as int].total_bytes);
                assert(stream_ok(v.streams[found->0 as int], v.limits));
                assert(attempted as nat == capped(payload_bytes(v.streams[found->0 as int].chunks) + cv.payload.len()));
            }
        }
        match found {
            Some(i) => {
                let mut stream = self.streams.remove(i);
                let ghost old_chunks = chunks_view(stream.chunks@);
                stream.total_bytes = attempted;
                stream.truncated = stream.truncated || truncated;
                stream.chunks.push(chunk);
                proof {
                    assert(chunks_view(stream.chunks@) =~= old_chunks.push(cv));
                    lemma_payload_bytes_push(old_chunks, cv);
                }
                self.streams.insert(i, stream);
                proof {
                    assert(streams_view(self.streams@) =~= v.streams.update(i as int, stream@));
                }
            },
            None => {
                let pos = self.count_streams_before(&key);
                proof { lemma_streams_before(v.streams, key@); }
                let mut chunks: Vec<CaptureChunk> = Vec::new();
                chunks.push(chunk);
                let stream = ConnectionStream { key, chunks, total_bytes: attempted, truncated };
                proof {
                    assert(chunks_view(stream.chunks@) =~= seq![cv]);
                    lemma_payload_bytes_push(Seq::<ChunkView>::empty(), cv);
                    assert(seq![cv] =~= Seq::<ChunkView>::empty().push(cv));
                }
                self.streams.insert(pos, stream);
                proof {
                    assert(streams_view(self.streams@) =~= v.streams.insert(pos as int, stream@));
                }
            },
        }
        proof {
            let w = self@;
            let pos = stream_position(v.streams, key@);
            assert forall|k: int| 0 <= k < w.streams.len() implies stream_ok(#[trigger] w.streams[k], w.limits) by {
                match found {
                    Some(i) => {
                        if k != i {
                            assert(w.streams[k] == v.streams[k]);
                        } else {
                            assert(stream_ok(v.streams[i as int], v.limits));
                            lemma_payload_bytes_push(v.streams[i as int].chunks, cv);
                            assert(w.streams[k].chunks == v.streams[i as int].chunks.push(cv));
                            assert(w.streams[k].chunks.len() <= w.limits.max_chunks_per_connection);
                            assert(w.streams[k].total_bytes <= w.limits.max_bytes_per_connection);
                            assert(w.streams[k].total_bytes as nat == capped(payload_bytes(w.streams[k].chunks)));
                            assert(w.streams[k].truncated == any_truncated(w.streams[k].chunks));
                        }
                    },
                    None => {
                        let p = streams_before(v.streams, key@) as int;
                        if k < p {
                            assert(w.streams[k] == v.streams[k]);
                        } else if k > p {
                            assert(w.streams[k] == v.streams[k - 1]);
                        } else {
                            lemma_payload_bytes_push(Seq::<ChunkView>::empty(), cv);
                            assert(w.streams[k].chunks =~= Seq::<ChunkView>::empty().push(cv));
                            assert(w.streams[k].chunks.len() <= w.limits.max_chunks_per_connection);
                            assert(w.streams[k].total_bytes <= w.limits.max_bytes_per_connection);
                            assert(w.streams[k].total_bytes as nat == capped(payload_bytes(w.streams[k].chunks)));
                            assert(w.streams[k].truncated == any_truncated(w.streams[k].chunks));
                        }
                    },
                }
            }
            assert forall|a: int, b: int| 0 <= a < b < w.streams.len() implies key_lt((#[trigger] w.streams[a]).key, (#[trigger] w.streams[b]).key) by {
                match found {
                    Some(i) => {
                        assert(w.streams[a].key == v.streams[a].key);
                        assert(w.streams[b].key == v.streams[b].key);
                    },
                    None => {
                        let p = streams_before(v.streams, key@) as int;
                        if a < p { assert(w.streams[a] == v.streams[a]); } else if a > p { assert(w.streams[a] == v.streams[a - 1]); }
                        if b < p { assert(w.streams[b] == v.streams[b]); } else if b > p { assert(w.streams[b] == v.streams[b - 1]); }
                        if a < p && b > p {
                            lemma_key_order(v.streams[a].key, key@, v.streams[b - 1].key);
                        }
                    },
                }
            }
        }
        Ok(())
    }

    /// Adds a capture event: events of another schema are refused; socket
    /// evidence is kept (see `evidence_cached`); payload fragments join
    /// their streams (see `payload_pushed`); other events change nothing.
    pub fn push(&mut self, event: CaptureEvent) -> (r: Result<(), SessionError>)
        requires
            old(self).wf(),
        ensures
            final(self).wf(),
            event.schema_version != CAPTURE_EVENT_SCHEMA_VERSION ==> final(self)@ == old(self)@
                && r == Err::<(), SessionError>(SessionError::UnsupportedCaptureEvent { schema_version: event.schema_version }),
            event.schema_version == CAPTURE_EVENT_SCHEMA_VERSION ==> match event.kind {
                CaptureEventKind::SocketConnected(e) => (final(self)@, r) == evidence_cached(old(self)@, e@),
                CaptureEventKind::SocketClosedObserved(e) => (final(self)@, r) == evidence_cached(old(self)@, e@),
                CaptureEventKind::SocketResetObserved(e) => (final(self)@, r) == evidence_cached(old(self)@, e@),
                CaptureEventKind::SocketStateChangedObserved { socket, .. } => (final(self)@, r) == evidence_cached(old(self)@, socket@),
                CaptureEventKind::PayloadFragment(f) => (final(self)@, r) == payload_pushed(old(self)@, f.socket@,
                    f.timestamp.nanoseconds, f.direction, f.payload@, f.truncated, f.flags),
                _ => final(self)@ == old(self)@ && r is Ok,
            },
    {
        if event.schema_version != CAPTURE_EVENT_SCHEMA_VERSION {
            return Err(SessionError::UnsupportedCaptureEvent { schema_version: event.schema_version });
        }
        match event.kind {
            CaptureEventKind::SocketConnected(e) => self.cache_evidence(e),
            CaptureEventKind::SocketClosedObserved(e) => self.cache_evidence(e),
            CaptureEventKind::SocketResetObserved(e) => self.cache_evidence(e),
            CaptureEventKind::SocketStateChangedObserved { socket, .. } => self.cache_evidence(socket),
            CaptureEventKind::PayloadFragment(f) => self.push_payload(f),
            _ => Ok(()),
        }
    }
}

// ---------------------------------------------------------------------------
// Finishing: chunks in time order, streams by their first chunk

/// Inserts `x` after the trailing chunks that are later than it.
pub open spec fn insert_chunk(s: Seq<ChunkView>, x: ChunkView) -> Seq<ChunkView>
    decreases s.len(),
{
    if s.len() == 0 {
        seq![x]
    } else if s.last().monotonic_sequence <= x.monotonic_sequence {
        s.push(x)
    } else {
        insert_chunk(s.drop_last(), x).push(s.last())
    }
}

/// Chunks in monotonic order; chunks at the same time keep their order.
pub open spec fn sort_chunks(s: Seq<ChunkView>) -> Seq<ChunkView>
    decreases s.len(),
{
    if s.len() == 0 { Seq::empty() } else { insert_chunk(sort_chunks(s.drop_last()), s.last()) }
}

/// `a` comes no later than `b`: no first chunk comes first.
pub open spec fn first_le(a: Option<u64>, b: Option<u64>) -> bool {
    match (a, b) {
        (None, _) => true,
        (Some(_), None) => false,
        (Some(x), Some(y)) => x <= y,
    }
}

/// Inserts `x` after the trailing streams whose first chunk is later.
pub open spec fn insert_stream(s: Seq<StreamView>, x: StreamView) -> Seq<StreamView>
    decreases s.len(),
{
    if s.len() == 0 {
        seq![x]
    } else if first_le(first_chunk_sequence(s.last().chunks), first_chunk_sequence(x.chunks)) {
        s.push(x)
    } else {
        insert_stream(s.drop_last(), x).push(s.last())
    }
}

/// Streams ordered by their first chunk; ties keep their order.
pub open spec fn sort_streams(s: Seq<StreamView>) -> Seq<StreamView>
    decreases s.len(),
{
    if s.len() == 0 { Seq::empty() } else { insert_stream(sort_streams(s.drop_last()), s.last()) }
}

pub open spec fn with_sorted_chunks(s: StreamView) -> StreamView {
    StreamView { chunks: sort_chunks(s.chunks), ..s }
}

/// The finished streams: each stream's chunks in time order, the streams
/// (from key order) by their first chunk.
pub open spec fn finished(streams: Seq<StreamView>) -> Seq<StreamView> {
    sort_streams(streams.map_values(|s: StreamView| with_sorted_chunks(s)))
}

pub open spec fn chunks_sorted(s: Seq<ChunkView>) -> bool {
    forall|i: int, j: int| 0 <= i < j < s.len() ==> (#[trigger] s[i]).monotonic_sequence <= (#[trigger] s[j]).monotonic_sequence
}

pub open spec fn streams_sorted(s: Seq<StreamView>) -> bool {
    forall|i: int, j: int| 0 <= i < j < s.len()
        ==> first_le(first_chunk_sequence((#[trigger] s[i]).chunks), first_chunk_sequence((#[trigger] s[j]).chunks))
}

proof fn lemma_insert_chunk_at(s: Seq<ChunkView>, x: ChunkView, j: int)
    requires
        0 <= j <= s.len(),
        forall|k: int| j <= k < s.len() ==> (#[trigger] s[k]).monotonic_sequence > x.monotonic_sequence,
        j == 0 || s[j - 1].monotonic_sequence <= x.monotonic_sequence,
    ensures
        insert_chunk(s, x) == s.insert(j, x),
    decreases s.len(),
{
    if s.len() == 0 {
        assert(s.insert(j, x) =~= seq![x]);
    } else if s.last().monotonic_sequence <= x.monotonic_sequence {
        assert(s.insert(j, x) =~= s.push(x));
    } else {
        lemma_insert_chunk_at(s.drop_last(), x, j);
        assert(s.insert(j, x) =~= s.drop_last().insert(j, x).push(s.last()));
    }
}

proof fn lemma_insert_stream_at(s: Seq<StreamView>, x: StreamView, j: int)
    requires
        0 <= j <= s.len(),
        forall|k: int| j <= k < s.len() ==> !first_le(first_chunk_sequence((#[trigger] s[k]).chunks), first_chunk_sequence(x.chunks)),
        j == 0 || first_le(first_chunk_sequence(s[j - 1].chunks), first_chunk_sequence(x.chunks)),
    ensures
        insert_stream(s, x) == s.insert(j, x),
    decreases s.len(),
{
    if s.len() == 0 {
        assert(s.insert(j, x) =~= seq![x]);
    } else if first_le(first_chunk_sequence(s.last().chunks), first_chunk_sequence(x.chunks)) {
        assert(s.insert(j, x) =~= s.push(x));
    } else {
        lemma_insert_stream_at(s.drop_last(), x, j);
        assert(s.insert(j, x) =~= s.drop_last().insert(j, x).push(s.last()));
    }
}

proof fn lemma_insert_chunk_sorted(s: Seq<ChunkView>, x: ChunkView)
    requires
        chunks_sorted(s),
    ensures
        chunks_sorted(insert_chunk(s, x)),
        insert_chunk(s, x).to_multiset() == s.to_multiset().insert(x),
    decreases s.len(),
{
    broadcast use vstd::seq_lib::group_to_multiset_ensures;
    if s.len() == 0 {
        assert(seq![x] =~= Seq::<ChunkView>::empty().push(x));
    } else if s.last().monotonic_sequence <= x.monotonic_sequence {
    } else {
        let t = s.drop_last();
        lemma_insert_chunk_sorted(t, x);
        let r = insert_chunk(t, x);
        assert forall|i: int, j: int| 0 <= i < j < r.len() + 1 implies (#[trigger] r.push(s.last())[i]).monotonic_sequence
            <= (#[trigger] r.push(s.last())[j]).monotonic_sequence by {
            if j == r.len() {
                let ri = r[i];
                assert(r.to_multiset().count(ri) > 0);
                if ri != x {
                    assert(t.to_multiset().count(ri) > 0);
                    assert(t.contains(ri));
                    let k = choose|k: int| 0 <= k < t.len() && t[k] == ri;
                    assert(s[k] == ri);
                }
            }
        }
        assert(s =~= t.push(s.last()));
    }
}

/// Sorting a stream's chunks orders them in time and keeps every chunk.
pub proof fn lemma_sort_chunks(s: Seq<ChunkView>)
    ensures
        chunks_sorted(sort_chunks(s)),
        sort_chunks(s).to_multiset() == s.to_multiset(),
    decreases s.len(),
{
    broadcast use vstd::seq_lib::group_to_multiset_ensures;
    if s.len() > 0 {
        lemma_sort_chunks(s.drop_last());
        lemma_insert_chunk_sorted(sort_chunks(s.drop_last()), s.last());
        assert(s =~= s.drop_last().push(s.last()));
    }
}

proof fn lemma_first_le_total(a: Option<u64>, b: Option<u64>, c: Option<u64>)
    ensures
        first_le(a, b) || first_le(b, a),
        first_le(a, b) && first_le(b, c) ==> first_le(a, c),
{
}

proof fn lemma_insert_stream_sorted(s: Seq<StreamView>, x: StreamView)
    requires
        streams_sorted(s),
    ensures
        streams_sorted(insert_stream(s, x)),
        insert_stream(s, x).to_multiset() == s.to_multiset().insert(x),
    decreases s.len(),
{
    broadcast use vstd::seq_lib::group_to_multiset_ensures;
    if s.len() == 0 {
        assert(seq![x] =~= Seq::<StreamView>::empty().push(x));
    } else if first_le(first_chunk_sequence(s.last().chunks), first_chunk_sequence(x.chunks)) {
        assert forall|i: int, j: int| 0 <= i < j < s.len() + 1 implies first_le(first_chunk_sequence((#[trigger] s.push(x)[i]).chunks),
            first_chunk_sequence((#[trigger] s.push(x)[j]).chunks)) by {
            if j == s.len() && i < s.len() - 1 {
                lemma_first_le_total(first_chunk_sequence(s[i].chunks), first_chunk_sequence(s.last().chunks), first_chunk_sequence(x.chunks));
            }
        }
    } else {
        let t = s.drop_last();
        lemma_insert_stream_sorted(t, x);
        let r = insert_stream(t, x);
        lemma_first_le_total(first_chunk_sequence(s.last().chunks), first_chunk_sequence(x.chunks), first_chunk_sequence(x.chunks));
        assert forall|i: int, j: int| 0 <= i < j < r.len() + 1 implies first_le(first_chunk_sequence((#[trigger] r.push(s.last())[i]).chunks),
            first_chunk_sequence((#[trigger] r.push(s.last())[j]).chunks)) by {
            if j == r.len() {
                let ri = r[i];
                assert(r.to_multiset().count(ri) > 0);
                if ri != x {
                    assert(t.to_multiset().count(ri) > 0);
                    assert(t.contains(ri));
                    let k = choose|k: int| 0 <= k < t.len() && t[k] == ri;
                    assert(s[k] == ri);
                }
            }
        }
        assert(s =~= t.push(s.last()));
    }
}

/// Sorting streams by their first chunk orders them and keeps every stream.
pub proof fn lemma_sort_streams(s: Seq<StreamView>)
    ensures
        streams_sorted(sort_streams(s)),
        sort_streams(s).to_multiset() == s.to_multiset(),
    decreases s.len(),
{
    broadcast use vstd::seq_lib::group_to_multiset_ensures;
    if s.len() > 0 {
        lemma_sort_streams(s.drop_last());
        lemma_insert_stream_sorted(sort_streams(s.drop_last()), s.last());
        assert(s =~= s.drop_last().push(s.last()));
    }
}

fn comes_no_later(a: Option<u64>, b: Option<u64>) -> (r: bool)
    ensures
        r == first_le(a, b),
{
    match (a, b) {
        (None, _) => true,
        (Some(_), None) => false,
        (Some(x), Some(y)) => x <= y,
    }
}

fn sorted_chunks(chunks: Vec<CaptureChunk>) -> (out: Vec<CaptureChunk>)
    ensures
        chunks_view(out@) == sort_chunks(chunks_view(chunks@)),
{
    let ghost all = chunks@;
    let ghost av = chunks_view(all);
    let mut rest = chunks;
    let _count = rest.len();
    let mut out: Vec<CaptureChunk> = Vec::new();
    let mut i: usize = 0;
    proof {
        assert(all.skip(0) =~= all);
        assert(chunks_view(out@) =~= sort_chunks(av.take(0)));
    }
    while rest.len() > 0
        invariant
            i <= all.len(),
            i + rest@.len() == all.len(),
            all.len() <= usize::MAX,
            rest@ == all.skip(i as int),
            av == chunks_view(all),
            chunks_view(out@) == sort_chunks(av.take(i as int)),
        decreases rest.len(),
    {
        let x = rest.remove(0);
        proof {
            assert(x == all[i as int]);
            assert(rest@ =~= all.skip(i + 1));
            assert(av.take(i + 1).drop_last() =~= av.take(i as int));
            assert(av.take(i + 1).last() == x@);
        }
        let mut j: usize = out.len();
        while j > 0 && out[j - 1].monotonic_sequence > x.monotonic_sequence
            invariant
                j <= out@.len(),
                forall|k: int| j <= k < out@.len() ==> (#[trigger] chunks_view(out@)[k]).monotonic_sequence > x.monotonic_sequence,
            decreases j,
        {
            j = j - 1;
        }
        let ghost before = chunks_view(out@);
        proof {
            lemma_insert_chunk_at(before, x@, j as int);
        }
        out.insert(j, x);
        proof {
            assert(chunks_view(out@) =~= before.insert(j as int, x@));
        }
        i = i + 1;
    }
    proof {
        assert(av.take(i as int) =~= av);
    }
    out
}

impl SessionAssembler {
    /// The streams, each with its chunks in time order, ordered by their
    /// first chunk; streams that tie keep their key order.
    pub fn finish(self) -> (r: Vec<ConnectionStream>)
        ensures
            streams_view(r@) == finished(self@.streams),
    {
        let ghost sv = self@.streams;
        let ghost mapped = sv.map_values(|s: StreamView| with_sorted_chunks(s));
        let SessionAssembler { streams, .. } = self;
        let ghost all = streams@;
        let mut rest = streams;
        let _count = rest.len();
        let mut out: Vec<ConnectionStream> = Vec::new();
        let mut i: usize = 0;
        proof {
            assert(all.skip(0) =~= all);
            assert(streams_view(out@) =~= sort_streams(mapped.take(0)));
        }
        while rest.len() > 0
            invariant
                i <= all.len(),
                i + rest@.len() == all.len(),
                all.len() <= usize::MAX,
                rest@ == all.skip(i as int),
                streams_view(all) == sv,
                mapped == sv.map_values(|s: StreamView| with_sorted_chunks(s)),
                streams_view(out@) == sort_streams(mapped.take(i as int)),
            decreases rest.len(),
        {
            let stream = rest.remove(0);
            proof {
                assert(stream == all[i as int]);
                assert(rest@ =~= all.skip(i + 1));
                assert(sv[i as int] == stream@);
            }
            let ConnectionStream { key, chunks, total_bytes, truncated } = stream;
            let sorted = sorted_chunks(chunks);
            let x = ConnectionStream { key, chunks: sorted, total_bytes, truncated };
            proof {
                assert(x@ == with_sorted_chunks(sv[i as int]));
                assert(mapped.take(i + 1).drop_last() =~= mapped.take(i as int));
                assert(mapped.take(i + 1).last() == x@);
            }
            let first = x.first_sequence();
            let mut j: usize = out.len();
            while j > 0 && !comes_no_later(out[j - 1].first_sequence(), first)
                invariant
                    j <= out@.len(),
                    first == first_chunk_sequence(x@.chunks),
                    forall|k: int| j <= k < out@.len() ==> !first_le(first_chunk_sequence((#[trigger] streams_view(out@)[k]).chunks), first),
                decreases j,
            {
                j = j - 1;
            }
            let ghost before = streams_view(out@);
            proof {
                if j > 0 {
                    assert(before[j - 1] == out@[j - 1]@);
                }
                lemma_insert_stream_at(before, x@, j as int);
            }
            out.insert(j, x);
            proof {
                assert(streams_view(out@) =~= before.insert(j as int, x@));
            }
            i = i + 1;
        }
        proof {
            assert(mapped.take(i as int) =~= mapped);
        }
        out
    }
}

} // verus!
