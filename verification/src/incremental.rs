//! Incremental processing of committed WAL snapshots: which snapshots are
//! admitted, where processing resumes, how the new envelopes extend the
//! reconstruction carried between batches, and which operations are new.
use vstd::prelude::*;
use crate::continuation::{same_lineage, same_segment, SegmentLineage};
use crate::digest::{digest_hex, digest_spec, hex_bytes, hex_lower};
use crate::etl::{
    lemma_assembly_error_kind, assembly_error, connection_incomplete, issue_view, issues_view, reconstructed_connection_identity, reconstructed_connection_incomplete,
    reconstructed_finish, identity_attributes, ConnectionEvidence, EtlError, EtlIssue, EtlIssueKind, EtlPipeline,
    SequencedEvidence, StreamOutcome, DEFAULT_MAX_ISSUES,
};
use crate::assembler::{
    copy_loss_window, copy_terminal_loss, materialized, snapshot_of, AssemblerView, ConnectionView, FinalizedView, ReconstructionAssembler,
    ReconstructionAssemblerSnapshot, ReconstructionAssembly, SnapshotView,
};
use crate::ingest::{ingest_error, lemma_ingest_error, ingest_effect, ingest_reconstructed_envelope, ingested, lemma_ingested_step, EtlEvidence, WalEnvelope};
use crate::session::{
    LossWindowObserved, ReconstructionConnection, ReconstructionConnectionIdentity, ReconstructionLimits, SessionLimits,
    TerminalPersistenceLoss,
};
use crate::canonical::{pairs_view, CanonicalConnection, CanonicalOperation, CanonicalSession};
use crate::detector::{ProtocolStream, StreamChunk};
use crate::publication::{decoder_kind, decoder_kind_spec, DecoderReconstructionState, DECODER_IMPLEMENTATION_VERSION, DECODER_SNAPSHOT_VERSION};
use crate::text::{bytes_lt, lemma_lex_irreflexive, lemma_lex_total, lemma_lex_transitive, lemma_utf8_injective, lex_lt, str_copy, str_eq};
use crate::bytes::is_hex_digit;
use vstd::utf8::encode_utf8;
use vstd::string::StringSliceAdditionalSpecFns;

verus! {

/// What admission reads of a committed envelope: its WAL sequence and the
/// first sequence of the segment it was placed in, when known.
#[derive(Clone, Copy, Debug, PartialEq, Eq, Structural)]
pub struct EnvelopePosition {
    pub sequence: u64,
    pub segment_first_sequence: Option<u64>,
}

/// A sealed WAL segment as a snapshot reports it.
#[derive(Clone, Debug, PartialEq, Eq)]
pub struct CommittedSegment {
    pub ordinal: u64,
    pub digest: Vec<u8>,
    pub first_sequence: u64,
    pub last_sequence: u64,
}

pub open spec fn sat_next(n: u64) -> int {
    if n == u64::MAX { u64::MAX as int } else { n + 1 }
}

/// Where processing resumes: the first envelope after the last processed
/// marker (all of them when nothing was processed).
pub open spec fn resume_index(last: Option<u64>, envs: Seq<EnvelopePosition>, i: int) -> int
    decreases envs.len() - i,
{
    match last {
        None => 0,
        Some(p) => if i < 0 || i >= envs.len() {
            envs.len() as int
        } else if envs[i].sequence > p {
            i
        } else {
            resume_index(last, envs, i + 1)
        },
    }
}

/// A recorded segment disagrees with the snapshot's: another ordinal or
/// start, a shorter extent, or another digest at the same extent.
pub open spec fn segment_forked(p: SegmentLineage, c: CommittedSegment) -> bool {
    ||| p.ordinal != c.ordinal
    ||| p.first_sequence != c.first_sequence
    ||| p.last_sequence > c.last_sequence
    ||| (p.last_sequence == c.last_sequence && p.digest@ != hex_lower(c.digest@))
}

/// The first new envelope continues the processed sequence: it follows the
/// last marker directly, or, on a first snapshot, it opens its segment.
pub open spec fn first_continues(last: Option<u64>, first: EnvelopePosition) -> bool {
    match last {
        Some(p) => first.sequence == sat_next(p),
        None => match first.segment_first_sequence {
            Some(f) => first.sequence == f,
            None => true,
        },
    }
}

/// Admission of a committed snapshot after `last` (and its digest and
/// lineage): markers never regress; the same marker must carry the same
/// digest; the new envelopes must continue the sequence without a gap and
/// end at the marker; the recorded lineage must be a prefix of the
/// snapshot's. Gives where processing resumes.
pub open spec fn admission(
    last: Option<u64>,
    last_digest: Option<Seq<char>>,
    lineage: Seq<SegmentLineage>,
    marker: u64,
    digest_hex: Seq<char>,
    envs: Seq<EnvelopePosition>,
    segs: Seq<CommittedSegment>,
) -> Result<int, EtlError> {
    let start = resume_index(last, envs, 0);
    let prior: u64 = match last { Some(p) => p, None => 0 };
    if last matches Some(p) && marker < p {
        Err(EtlError::SnapshotRegression)
    } else if last == Some(marker) && last_digest != Some(digest_hex) {
        Err(EtlError::SnapshotLineageMismatch)
    } else if start == envs.len() && marker != prior {
        Err(EtlError::SnapshotGap)
    } else if start < envs.len() && !first_continues(last, envs[start]) {
        Err(EtlError::SnapshotGap)
    } else if start < envs.len() && envs.last().sequence != marker {
        Err(EtlError::SnapshotGap)
    } else if exists|i: int| start <= i && i + 1 < envs.len() && #[trigger] envs[i + 1].sequence != sat_next(envs[i].sequence) {
        Err(EtlError::SnapshotGap)
    } else if last is Some && (lineage.len() > segs.len()
        || exists|i: int| 0 <= i < lineage.len() && #[trigger] segment_forked(lineage[i], segs[i])) {
        Err(EtlError::SnapshotLineageMismatch)
    } else {
        Ok(start)
    }
}

fn sat_next_exec(n: u64) -> (r: u64)
    ensures
        r as int == sat_next(n),
{
    if n == u64::MAX { n } else { n + 1 }
}

fn find_resume(last: Option<u64>, envs: &[EnvelopePosition]) -> (r: usize)
    ensures
        r as int == resume_index(last, envs@, 0),
        r <= envs@.len(),
{
    match last {
        None => 0,
        Some(p) => {
            let mut i: usize = 0;
            while i < envs.len()
                invariant
                    i <= envs@.len(),
                    last == Some(p),
                    resume_index(last, envs@, 0) == resume_index(last, envs@, i as int),
                decreases envs.len() - i,
            {
                if envs[i].sequence > p {
                    return i;
                }
                i = i + 1;
            }
            i
        },
    }
}

fn forked(p: &SegmentLineage, c: &CommittedSegment) -> (r: bool)
    ensures
        r == segment_forked(*p, *c),
{
    if p.ordinal != c.ordinal || p.first_sequence != c.first_sequence || p.last_sequence > c.last_sequence {
        return true;
    }
    if p.last_sequence == c.last_sequence {
        let hex = hex_bytes(c.digest.as_slice());
        return !str_eq(p.digest.as_str(), hex.as_str());
    }
    false
}

/// Admits a committed snapshot; returns where processing resumes.
#[verifier::loop_isolation(false)]
pub fn admit_snapshot(
    last: Option<u64>,
    last_digest: Option<&str>,
    lineage: &[SegmentLineage],
    marker: u64,
    digest_hex: &str,
    envs: &[EnvelopePosition],
    segs: &[CommittedSegment],
) -> (r: Result<usize, EtlError>)
    ensures
        match admission(last, match last_digest { Some(d) => Some(d@), None => None }, lineage@, marker, digest_hex@, envs@, segs@) {
            Ok(start) => r == Ok::<usize, EtlError>(start as usize),
            Err(e) => r == Err::<usize, EtlError>(e),
        },
        admission(last, match last_digest { Some(d) => Some(d@), None => None }, lineage@, marker, digest_hex@, envs@, segs@) matches Ok(start)
            ==> 0 <= start <= envs@.len(),
{
    let ghost ld = match last_digest { Some(d) => Some(d@), None => None::<Seq<char>> };
    match last {
        Some(p) => if marker < p {
            return Err(EtlError::SnapshotRegression);
        },
        None => {},
    }
    if last == Some(marker) {
        let same = match last_digest {
            Some(d) => str_eq(d, digest_hex),
            None => false,
        };
        if !same {
            return Err(EtlError::SnapshotLineageMismatch);
        }
    }
    let start = find_resume(last, envs);
    let prior: u64 = match last { Some(p) => p, None => 0 };
    let n = envs.len();
    if start == n && marker != prior {
        return Err(EtlError::SnapshotGap);
    }
    if start < n {
        let first = envs[start];
        let bad = match last {
            Some(p) => first.sequence != sat_next_exec(p),
            None => match first.segment_first_sequence {
                Some(f) => first.sequence != f,
                None => false,
            },
        };
        if bad {
            return Err(EtlError::SnapshotGap);
        }
        if envs[n - 1].sequence != marker {
            return Err(EtlError::SnapshotGap);
        }
    }
    let mut i = start;
    while n > 0 && i < n - 1
        invariant
            n == envs@.len(),
            start <= i,
            i <= n,
            start <= n,
            forall|k: int| start <= k < i && k + 1 < n ==> #[trigger] envs@[k + 1].sequence == sat_next(envs@[k].sequence),
        decreases n - i,
    {
        if envs[i + 1].sequence != sat_next_exec(envs[i].sequence) {
            return Err(EtlError::SnapshotGap);
        }
        i = i + 1;
    }
    proof {
        assert forall|k: int| start <= k && k + 1 < n implies #[trigger] envs@[k + 1].sequence == sat_next(envs@[k].sequence) by {
        }
    }
    if last.is_some() {
        if lineage.len() > segs.len() {
            return Err(EtlError::SnapshotLineageMismatch);
        }
        let mut j: usize = 0;
        while j < lineage.len()
            invariant
                j <= lineage@.len(),
                lineage@.len() <= segs@.len(),
                forall|k: int| 0 <= k < j ==> !#[trigger] segment_forked(lineage@[k], segs@[k]),
            decreases lineage.len() - j,
        {
            if forked(&lineage[j], &segs[j]) {
                return Err(EtlError::SnapshotLineageMismatch);
            }
            j = j + 1;
        }
    }
    Ok(start)
}

/// The lineage a snapshot's segments give.
pub fn segment_lineage_of(segs: &[CommittedSegment]) -> (l: Vec<SegmentLineage>)
    ensures
        l@.len() == segs@.len(),
        forall|i: int| 0 <= i < segs@.len() ==> {
            let s = #[trigger] l@[i];
            &&& s.ordinal == segs@[i].ordinal
            &&& s.digest@ == hex_lower(segs@[i].digest@)
            &&& s.first_sequence == segs@[i].first_sequence
            &&& s.last_sequence == segs@[i].last_sequence
        },
{
    let mut out: Vec<SegmentLineage> = Vec::new();
    let mut i: usize = 0;
    while i < segs.len()
        invariant
            i <= segs@.len(),
            out@.len() == i,
            forall|k: int| 0 <= k < i ==> {
                let s = #[trigger] out@[k];
                &&& s.ordinal == segs@[k].ordinal
                &&& s.digest@ == hex_lower(segs@[k].digest@)
                &&& s.first_sequence == segs@[k].first_sequence
                &&& s.last_sequence == segs@[k].last_sequence
            },
        decreases segs.len() - i,
    {
        out.push(SegmentLineage {
            ordinal: segs[i].ordinal,
            digest: hex_bytes(segs[i].digest.as_slice()),
            first_sequence: segs[i].first_sequence,
            last_sequence: segs[i].last_sequence,
        });
        i = i + 1;
    }
    out
}

/// The operation identifier a publication key stands for: the first 16
/// bytes of its SHA-256 digest, as a version-4 variant-1 UUID.
pub open spec fn id_from_digest(d: Seq<u8>) -> u128 {
    uuid_value(d.update(6, (d[6] & 15u8) | 64u8).update(8, (d[8] & 63u8) | 128u8))
}

/// The big-endian value of the first 16 bytes.
pub open spec fn uuid_value(b: Seq<u8>) -> u128 {
    be_value(b, 16) as u128
}

/// The big-endian value of the first `n` bytes.
pub open spec fn be_value(b: Seq<u8>, n: int) -> nat
    decreases n,
{
    if n <= 0 { 0 } else { be_value(b, n - 1) * 256 + (b[n - 1] as nat) }
}

pub open spec fn pow256(n: int) -> nat
    decreases n,
{
    if n <= 0 { 1 } else { pow256(n - 1) * 256 }
}

pub proof fn lemma_be_bound(b: Seq<u8>, n: int)
    requires
        0 <= n <= b.len(),
    ensures
        be_value(b, n) < pow256(n),
    decreases n,
{
    if n > 0 {
        lemma_be_bound(b, n - 1);
        assert(be_value(b, n - 1) * 256 + (b[n - 1] as nat) < pow256(n - 1) * 256) by (nonlinear_arith)
            requires be_value(b, n - 1) < pow256(n - 1), b[n - 1] < 256;
    }
}

pub proof fn lemma_pow256_monotone(i: int, j: int)
    requires
        0 <= i <= j,
    ensures
        pow256(i) <= pow256(j),
    decreases j - i,
{
    if i < j {
        lemma_pow256_monotone(i, j - 1);
    }
}

/// The operation identifier for a publication key.
pub fn operation_id_from_key(key: &str) -> (id: u128)
    ensures
        id == id_from_digest(crate::digest::sha256_of(key.spec_bytes())),
{
    let d = crate::digest::sha256(key.as_bytes());
    let ghost dv = d@;
    let mut b = d;
    let b6 = (b[6] & 15u8) | 64u8;
    let b8 = (b[8] & 63u8) | 128u8;
    b.set(6, b6);
    b.set(8, b8);
    proof { assert(b@ == dv.update(6, (dv[6] & 15u8) | 64u8).update(8, (dv[8] & 63u8) | 128u8)); }
    let mut v: u128 = 0;
    let mut i: usize = 0;
    proof { reveal_with_fuel(pow256, 17); }
    while i < 16
        invariant
            b@.len() == 32,
            i <= 16,
            v as nat == be_value(b@, i as int),
            pow256(16) == 340282366920938463463374607431768211456nat,
        decreases 16 - i,
    {
        proof {
            lemma_be_bound(b@, i as int);
            lemma_pow256_monotone(i + 1, 16);
            assert(v * 256 + b@[i as int] < pow256(i as int) * 256) by (nonlinear_arith)
                requires v < pow256(i as int), b@[i as int] < 256;
            assert(pow256(i + 1) == pow256(i as int) * 256);
        }
        v = v * 256 + b[i] as u128;
        i = i + 1;
    }
    v
}


/// Keys strictly increasing by their UTF-8 bytes.
pub open spec fn keys_sorted(s: Seq<String>) -> bool {
    forall|i: int, j: int| 0 <= i < j < s.len() ==> lex_lt(encode_utf8(#[trigger] s[i]@), encode_utf8(#[trigger] s[j]@))
}

/// The set of keys a list holds.
pub open spec fn key_set(s: Seq<String>) -> Set<Seq<char>> {
    Set::new(|k: Seq<char>| exists|i: int| 0 <= i < s.len() && #[trigger] s[i]@ == k)
}

/// Where a key stands in an ordered list: `Ok` at its index, `Err` at the
/// index where it would be inserted.
fn key_position(keys: &Vec<String>, key: &str) -> (r: Result<usize, usize>)
    requires
        keys_sorted(keys@),
    ensures
        match r {
            Ok(i) => i < keys@.len() && keys@[i as int]@ == key@,
            Err(p) => {
                &&& p <= keys@.len()
                &&& forall|j: int| 0 <= j < p ==> lex_lt(encode_utf8(#[trigger] keys@[j]@), encode_utf8(key@))
                &&& p < keys@.len() ==> lex_lt(encode_utf8(key@), encode_utf8(keys@[p as int]@))
            },
        },
{
    let mut i: usize = 0;
    while i < keys.len()
        invariant
            keys_sorted(keys@),
            i <= keys@.len(),
            forall|j: int| 0 <= j < i ==> lex_lt(encode_utf8(#[trigger] keys@[j]@), encode_utf8(key@)),
        decreases keys.len() - i,
    {
        if str_eq(keys[i].as_str(), key) {
            return Ok(i);
        }
        if bytes_lt(key.as_bytes(), keys[i].as_str().as_bytes()) {
            return Err(i);
        }
        proof {
            let e = keys@[i as int]@;
            if encode_utf8(e) == encode_utf8(key@) {
                lemma_utf8_injective(e, key@);
            }
            lemma_lex_total(encode_utf8(e), encode_utf8(key@));
        }
        i = i + 1;
    }
    Err(i)
}

/// Adds a key to an ordered key list; says whether it was absent.
fn insert_key(keys: &mut Vec<String>, key: &str) -> (added: bool)
    requires
        keys_sorted(old(keys)@),
    ensures
        keys_sorted(final(keys)@),
        key_set(final(keys)@) == key_set(old(keys)@).insert(key@),
        added == !key_set(old(keys)@).contains(key@),
{
    match key_position(keys, key) {
        Ok(i) => {
            proof {
                assert(key_set(keys@).contains(key@));
                assert(key_set(keys@).insert(key@) =~= key_set(keys@));
            }
            false
        },
        Err(p) => {
            let ghost before = keys@;
            proof {
                assert forall|j: int| 0 <= j < before.len() implies #[trigger] before[j]@ != key@ by {
                    if j < p {
                        lemma_lex_irreflexive(encode_utf8(key@));
                    } else {
                        if j > p {
                            lemma_lex_transitive(encode_utf8(key@), encode_utf8(before[p as int]@), encode_utf8(before[j]@));
                        }
                        lemma_lex_irreflexive(encode_utf8(key@));
                    }
                }
                assert(!key_set(before).contains(key@));
            }
            keys.insert(p, str_copy(key));
            proof {
                let after = keys@;
                assert forall|i: int, j: int| 0 <= i < j < after.len() implies lex_lt(encode_utf8(#[trigger] after[i]@), encode_utf8(#[trigger] after[j]@)) by {
                    if j < p {
                        assert(after[i] == before[i] && after[j] == before[j]);
                    } else if i < p && j == p {
                    } else if i < p && j > p {
                        assert(after[j] == before[j - 1]);
                    } else if i == p {
                        assert(after[j] == before[j - 1]);
                        if j - 1 > p {
                            lemma_lex_transitive(encode_utf8(key@), encode_utf8(before[p as int]@), encode_utf8(before[j - 1]@));
                        }
                    } else {
                        assert(after[i] == before[i - 1]);
                        assert(after[j] == before[j - 1]);
                    }
                }
                assert forall|k: Seq<char>| key_set(after).contains(k) <==> key_set(before).insert(key@).contains(k) by {
                    if key_set(after).contains(k) {
                        let i = choose|i: int| 0 <= i < after.len() && #[trigger] after[i]@ == k;
                        if i < p {
                            assert(before[i]@ == k);
                        } else if i > p {
                            assert(before[i - 1]@ == k);
                        }
                    }
                    if key_set(before).contains(k) {
                        let i = choose|i: int| 0 <= i < before.len() && #[trigger] before[i]@ == k;
                        if i < p {
                            assert(after[i]@ == k);
                        } else {
                            assert(after[i + 1]@ == k);
                        }
                    }
                    if k == key@ {
                        assert(after[p as int]@ == k);
                    }
                }
                assert(key_set(after) =~= key_set(before).insert(key@));
            }
            true
        },
    }
}


/// The keys among the first `n` of a list.
pub open spec fn listed_keys(keys: Seq<String>, n: int) -> Set<Seq<char>> {
    Set::new(|k: Seq<char>| exists|j: int| 0 <= j < n && j < keys.len() && #[trigger] keys[j]@ == k)
}

/// A segment lineage records exactly the given committed segments.
pub open spec fn lineage_matches(l: Seq<SegmentLineage>, segs: Seq<CommittedSegment>) -> bool {
    &&& l.len() == segs.len()
    &&& forall|i: int| 0 <= i < segs.len() ==> {
        let s = #[trigger] l[i];
        &&& s.ordinal == segs[i].ordinal
        &&& s.digest@ == hex_lower(segs[i].digest@)
        &&& s.first_sequence == segs[i].first_sequence
        &&& s.last_sequence == segs[i].last_sequence
    }
}

/// A committed WAL snapshot: the marker it was committed at and the
/// marker's digest, the envelopes up to the marker, and the sealed segments.
pub struct CommittedWalSnapshot {
    pub marker_sequence: u64,
    pub marker_digest: Vec<u8>,
    pub envelopes: Vec<WalEnvelope>,
    pub segment_lineage: Vec<CommittedSegment>,
}

/// What admission reads of an envelope.
pub open spec fn position_of(e: WalEnvelope) -> EnvelopePosition {
    EnvelopePosition { sequence: e.sequence, segment_first_sequence: e.segment_first_sequence }
}

pub open spec fn positions(envs: Seq<WalEnvelope>) -> Seq<EnvelopePosition> {
    envs.map_values(|e: WalEnvelope| position_of(e))
}

/// Protocol work on reconstructed connections, which a recorder supplies:
/// detecting and decoding a connection's stream, and encoding an operation
/// for its publication key. Each method's result is tied to its arguments
/// by a relation that an implementation verified against this library
/// defines; by default the relations claim nothing.
pub trait ReconstructedProtocols {
    /// Whether `chunks` and `outcome` are what these protocols make of
    /// `connection`, whose stream is marked `truncated`.
    closed spec fn decodes(&self, connection: ReconstructionConnection, truncated: bool, chunks: Seq<StreamChunk>, outcome: StreamOutcome) -> bool {
        true
    }

    /// Whether `bytes` is an encoding of `operation` with its identifier
    /// left out.
    closed spec fn encodes(&self, operation: CanonicalOperation, bytes: Seq<u8>) -> bool {
        true
    }

    fn decode(&self, connection: &ReconstructionConnection, truncated: bool) -> (r: (Vec<StreamChunk>, StreamOutcome))
        ensures
            self.decodes(*connection, truncated, r.0@, r.1),
    ;

    fn encode_operation(&self, operation: &CanonicalOperation) -> (bytes: Vec<u8>)
        ensures
            self.encodes(*operation, bytes@),
    ;
}

/// What an admitted snapshot gives: the new operations of the session as
/// reconstructed so far, the issues, the marker range the snapshot covers,
/// and the lineage now recorded.
pub struct IncrementalResult {
    pub session: CanonicalSession,
    pub issues: Vec<EtlIssue>,
    pub first_marker_sequence: u64,
    pub last_marker_sequence: u64,
    pub segment_lineage: Vec<SegmentLineage>,
}

/// The first marker a snapshot after `last` covers.
pub open spec fn first_marker(last: Option<u64>) -> int {
    match last {
        Some(p) => sat_next(p),
        None => 0,
    }
}

/// The identifier a first publication of `key` receives, or `None` when the
/// key was already published.
pub open spec fn publication_id(published: Set<Seq<char>>, key: Seq<char>) -> Option<u128> {
    if published.contains(key) {
        None
    } else {
        Some(id_from_digest(crate::digest::sha256_of(encode_utf8(key))))
    }
}

/// A publication key as a checkpoint stores it: 64 hexadecimal digits.
pub open spec fn publication_key_ok(k: Seq<char>) -> bool {
    &&& encode_utf8(k).len() == 64
    &&& forall|i: int| 0 <= i < 64 ==> is_hex_digit(#[trigger] encode_utf8(k)[i])
}

/// `key` is the hexadecimal SHA-256 digest of an encoding of `op`.
pub open spec fn key_encoded<D: ReconstructedProtocols>(d: D, op: CanonicalOperation, key: Seq<char>) -> bool {
    exists|b: Seq<u8>| #[trigger] d.encodes(op, b) && key == digest_spec(b)
}

/// `keys` are the publication keys of `ops`, one each.
pub open spec fn keyed_by<D: ReconstructedProtocols>(d: D, ops: Seq<CanonicalOperation>, keys: Seq<Seq<char>>) -> bool {
    &&& keys.len() == ops.len()
    &&& forall|j: int| 0 <= j < ops.len() ==> #[trigger] key_encoded(d, ops[j], keys[j])
}

/// `keys` are the publication keys of each connection's operations.
pub open spec fn session_keyed<D: ReconstructedProtocols>(d: D, conns: Seq<CanonicalConnection>, keys: Seq<Seq<Seq<char>>>) -> bool {
    &&& keys.len() == conns.len()
    &&& forall|c: int| 0 <= c < conns.len() ==> #[trigger] keyed_by(d, conns[c].operations@, keys[c])
}

/// The keys among the first `n` of a sequence.
pub open spec fn first_keys(keys: Seq<Seq<char>>, n: int) -> Set<Seq<char>> {
    Set::new(|k: Seq<char>| exists|j: int| 0 <= j < n && j < keys.len() && #[trigger] keys[j] == k)
}

/// The operations published for the first time, in order, each with the
/// identifier of its key; an operation whose key was published before, by
/// `published` or an earlier operation, is left out.
pub open spec fn kept_operations(ops: Seq<CanonicalOperation>, keys: Seq<Seq<char>>, published: Set<Seq<char>>) -> Seq<CanonicalOperation>
    decreases ops.len(),
{
    if ops.len() == 0 {
        Seq::empty()
    } else {
        let n = ops.len() - 1;
        let before = kept_operations(ops.take(n), keys, published);
        match publication_id(published + first_keys(keys, n), keys[n]) {
            Some(id) => before.push(CanonicalOperation { id, ..ops[n] }),
            None => before,
        }
    }
}

/// The keys of the operations `kept_operations` publishes, in order.
pub open spec fn kept_keys(ops: Seq<CanonicalOperation>, keys: Seq<Seq<char>>, published: Set<Seq<char>>) -> Seq<Seq<char>>
    decreases ops.len(),
{
    if ops.len() == 0 {
        Seq::empty()
    } else {
        let n = ops.len() - 1;
        let before = kept_keys(ops.take(n), keys, published);
        match publication_id(published + first_keys(keys, n), keys[n]) {
            Some(_) => before.push(keys[n]),
            None => before,
        }
    }
}

/// Every operation a batch publishes carries the identifier of its key;
/// the keys are new (never published before) and pairwise distinct, so no
/// operation is published twice.
pub proof fn lemma_published_keys_new_and_distinct(ops: Seq<CanonicalOperation>, keys: Seq<Seq<char>>, published: Set<Seq<char>>)
    requires
        keys.len() == ops.len(),
    ensures
        kept_keys(ops, keys, published).len() == kept_operations(ops, keys, published).len(),
        forall|m: int| 0 <= m < kept_keys(ops, keys, published).len() ==> {
            let k = #[trigger] kept_keys(ops, keys, published)[m];
            &&& kept_operations(ops, keys, published)[m].id == id_from_digest(crate::digest::sha256_of(encode_utf8(k)))
            &&& !published.contains(k)
            &&& first_keys(keys, ops.len() as int).contains(k)
        },
        forall|a: int, b: int| 0 <= a < b < kept_keys(ops, keys, published).len()
            ==> #[trigger] kept_keys(ops, keys, published)[a] != #[trigger] kept_keys(ops, keys, published)[b],
{
    lemma_kept_keys_general(ops, keys, published);
}

#[verifier::spinoff_prover]
proof fn lemma_kept_keys_general(ops: Seq<CanonicalOperation>, keys: Seq<Seq<char>>, published: Set<Seq<char>>)
    requires
        ops.len() <= keys.len(),
    ensures
        kept_keys(ops, keys, published).len() == kept_operations(ops, keys, published).len(),
        forall|m: int| 0 <= m < kept_keys(ops, keys, published).len() ==> {
            let k = #[trigger] kept_keys(ops, keys, published)[m];
            &&& kept_operations(ops, keys, published)[m].id == id_from_digest(crate::digest::sha256_of(encode_utf8(k)))
            &&& !published.contains(k)
            &&& first_keys(keys, ops.len() as int).contains(k)
        },
        forall|a: int, b: int| 0 <= a < b < kept_keys(ops, keys, published).len()
            ==> #[trigger] kept_keys(ops, keys, published)[a] != #[trigger] kept_keys(ops, keys, published)[b],
    decreases ops.len(),
{
    if ops.len() > 0 {
        let n = ops.len() - 1;
        let init = ops.take(n);
        lemma_kept_keys_general(init, keys, published);
        let kk0 = kept_keys(init, keys, published);
        let ko0 = kept_operations(init, keys, published);
        let kk = kept_keys(ops, keys, published);
        let ko = kept_operations(ops, keys, published);
        assert forall|m: int| 0 <= m < kk0.len() implies first_keys(keys, ops.len() as int).contains(#[trigger] kk0[m])
            && first_keys(keys, n).contains(kk0[m]) by {
            assert(first_keys(keys, init.len() as int).contains(kk0[m]));
            let j = choose|j: int| 0 <= j < init.len() && j < keys.len() && #[trigger] keys[j] == kk0[m];
            assert(keys[j] == kk0[m]);
        }
        match publication_id(published + first_keys(keys, n), keys[n]) {
            Some(id) => {
                assert(kk == kk0.push(keys[n]));
                assert(ko == ko0.push(CanonicalOperation { id, ..ops[n] }));
                assert(first_keys(keys, ops.len() as int).contains(keys[n]));
                assert forall|m: int| 0 <= m < kk.len() implies {
                    let k = #[trigger] kk[m];
                    &&& ko[m].id == id_from_digest(crate::digest::sha256_of(encode_utf8(k)))
                    &&& !published.contains(k)
                    &&& first_keys(keys, ops.len() as int).contains(k)
                } by {
                    if m < kk0.len() {
                        assert(kk[m] == kk0[m]);
                        assert(ko[m] == ko0[m]);
                    }
                }
                assert forall|a: int, b: int| 0 <= a < b < kk.len() implies #[trigger] kk[a] != #[trigger] kk[b] by {
                    if b == kk0.len() {
                        assert(kk[a] == kk0[a]);
                    } else {
                        assert(kk[a] == kk0[a] && kk[b] == kk0[b]);
                    }
                }
            },
            None => {
                assert(kk == kk0);
                assert(ko == ko0);
                assert forall|m: int| 0 <= m < kk.len() implies first_keys(keys, ops.len() as int).contains(#[trigger] kk[m]) by {
                    assert(kk[m] == kk0[m]);
                }
            },
        }
    }
}

/// The keys of the operations of the first `c` connections.
pub open spec fn keys_before(keys: Seq<Seq<Seq<char>>>, c: int) -> Set<Seq<char>> {
    Set::new(|k: Seq<char>| exists|i: int, j: int| 0 <= i < c && i < keys.len() && 0 <= j < keys[i].len() && #[trigger] keys[i][j] == k)
}

/// A connection as published: the same connection with only its newly
/// published operations.
pub open spec fn published_connection(out: CanonicalConnection, c: CanonicalConnection, keys: Seq<Seq<char>>, published: Set<Seq<char>>) -> bool {
    &&& out.id == c.id
    &&& out.protocol@ == c.protocol@
    &&& out.client == c.client
    &&& out.server == c.server
    &&& out.attributes == c.attributes
    &&& out.operations@ == kept_operations(c.operations@, keys, published)
}

/// A session as published: each connection with only its newly published
/// operations, everything else as finished.
pub open spec fn published_session(out: CanonicalSession, s: CanonicalSession, keys: Seq<Seq<Seq<char>>>, published: Set<Seq<char>>) -> bool {
    &&& out.id == s.id
    &&& out.started_at == s.started_at
    &&& out.ended_at == s.ended_at
    &&& out.connection_completeness == s.connection_completeness
    &&& out.operation_completeness == s.operation_completeness
    &&& out.timeline == s.timeline
    &&& out.connections@.len() == s.connections@.len()
    &&& forall|c: int| 0 <= c < s.connections@.len() ==> published_connection(#[trigger] out.connections@[c], s.connections@[c],
        keys[c], published + keys_before(keys, c))
}

/// A reconstructed connection is recorded with a fixture's own endpoints,
/// or, for a socket, unknown endpoints; and the identity's attributes.
pub open spec fn identity_recorded(identity: ReconstructionConnectionIdentity, e: ConnectionEvidence) -> bool {
    &&& pairs_view(e.attributes@) == identity_attributes(identity)
    &&& match identity {
        ReconstructionConnectionIdentity::Fixture { client, server } => e.client@ == client@ && e.server@ == server@,
        ReconstructionConnectionIdentity::Socket { .. } => e.client@.host == "unknown"@ && e.client@.port == 0
            && e.server@.host == "unknown"@ && e.server@.port == 0,
    }
}

/// The evidence a batch finishes with: for each assembled connection, the
/// stream and outcome the protocols make of it, the stream starting at the
/// Unix epoch and marked truncated exactly when the connection is
/// incomplete, and the connection's recorded identity.
pub open spec fn batch_evidence<D: ReconstructedProtocols>(d: D, a: ReconstructionAssembly, evs: Seq<ConnectionEvidence>) -> bool {
    &&& evs.len() == a.connections@.len()
    &&& forall|i: int| 0 <= i < evs.len() ==> {
        let incomplete = connection_incomplete(a.connections@[i], a.terminal_wal_losses@);
        &&& d.decodes(a.connections@[i], incomplete, (#[trigger] evs[i]).stream.chunks@, evs[i].outcome)
        &&& evs[i].stream.started_at == Some(0i128)
        &&& evs[i].stream.truncated == incomplete
        &&& identity_recorded(a.connections@[i].identity, evs[i])
    }
}

/// What `ReconstructionAssembler::finish` gives for an assembler in state `v`.
pub open spec fn assembled_from(v: AssemblerView, a: ReconstructionAssembly) -> bool {
    &&& a.connections@.len() == v.active.len() + v.finalized.len()
    &&& forall|i: int| 0 <= i < v.active.len() ==> materialized(#[trigger] a.connections@[i],
        v.active[i].identity, v.active[i].events, v.loss_windows, None)
    &&& forall|i: int| 0 <= i < v.finalized.len() ==> materialized(#[trigger] a.connections@[v.active.len() + i],
        v.finalized[i].identity, v.finalized[i].events, v.loss_windows, Some(v.finalized[i].finalization))
    &&& a.loss_windows@ == v.loss_windows
    &&& a.terminal_wal_losses@ == v.terminal_wal_losses
}

/// The reconstruction a processor keeps, as its checkpoint saves it: the
/// assembler's state, the evidence kept beside it and the issues.
pub struct ReconstructionStateView {
    pub assembler: SnapshotView,
    pub loss_windows: Seq<SequencedEvidence<LossWindowObserved>>,
    pub terminal_wal_losses: Seq<SequencedEvidence<TerminalPersistenceLoss>>,
    pub commit_marker_sequences: Seq<u64>,
    pub issues: Seq<(Option<u64>, EtlIssueKind, Seq<char>)>,
}

/// A batch finished over the assembler state `v`: an assembly of it, the
/// protocols' evidence of that assembly, the finished session `s` and
/// issues `out`, and the publication keys of the session's operations; the
/// published session is `s` with only the operations whose keys are new.
pub open spec fn batch_output<D: ReconstructedProtocols>(
    d: D,
    max_issues: usize,
    v: AssemblerView,
    issues: Seq<(Option<u64>, EtlIssueKind, Seq<char>)>,
    session_id: u128,
    published: Set<Seq<char>>,
    res: IncrementalResult,
    new_published: Set<Seq<char>>,
) -> bool {
    exists|v2: AssemblerView, a: ReconstructionAssembly, evs: Seq<ConnectionEvidence>, s: CanonicalSession, out: Vec<EtlIssue>,
        keys: Seq<Seq<Seq<char>>>|
        #![trigger assembled_from(v2, a), batch_evidence(d, a, evs), finished_with(max_issues, evs, issues, session_id, s, out),
            session_keyed(d, s.connections@, keys)]
        {
            &&& snapshot_of(v2) == snapshot_of(v)
            &&& session_keyed(d, s.connections@, keys)
            &&& assembled_from(v2, a)
            &&& batch_evidence(d, a, evs)
            &&& finished_with(max_issues, evs, issues, session_id, s, out)
            &&& published_session(res.session, s, keys, published)
            &&& issues_view(res.issues@) == issues_view(out@)
            &&& new_published == published + keys_before(keys, keys.len() as int)
        }
}

/// Routing `envs` from a state whose snapshot is `start` fails with `e`:
/// the envelopes before some `k` route successfully and envelope `k` fails
/// with `e` in the state they reach.
pub open spec fn ingest_fails_with(
    envs: Seq<WalEnvelope>,
    start: SnapshotView,
    i0: Seq<(Option<u64>, EtlIssueKind, Seq<char>)>,
    max_issues: usize,
    e: EtlError,
) -> bool {
    exists|a0: AssemblerView, k: int, a: AssemblerView, i: Seq<(Option<u64>, EtlIssueKind, Seq<char>)>|
        #![trigger ingested(envs.take(k), a0, i0, max_issues, a, i)]
        snapshot_of(a0) == start && 0 <= k < envs.len() && ingested(envs.take(k), a0, i0, max_issues, a, i)
            && ingest_error(envs[k], a, i, max_issues) == Some(e)
}

/// Routing `envs` from a state whose snapshot is `start` succeeds, and
/// finishing the protocols' evidence of the assembly stops with `e` at the
/// issue or operation bound.
pub open spec fn finish_fails_with<D: ReconstructedProtocols>(
    d: D,
    envs: Seq<WalEnvelope>,
    start: SnapshotView,
    i0: Seq<(Option<u64>, EtlIssueKind, Seq<char>)>,
    max_issues: usize,
    e: EtlError,
) -> bool {
    exists|a0: AssemblerView, a: AssemblerView, i: Seq<(Option<u64>, EtlIssueKind, Seq<char>)>, v2: AssemblerView,
        assembly: ReconstructionAssembly, evs: Seq<ConnectionEvidence>|
        #![trigger ingested(envs, a0, i0, max_issues, a, i), assembled_from(v2, assembly), batch_evidence(d, assembly, evs)]
        snapshot_of(a0) == start && ingested(envs, a0, i0, max_issues, a, i) && snapshot_of(v2) == snapshot_of(a)
            && assembled_from(v2, assembly) && batch_evidence(d, assembly, evs)
            && assembly_error(evs, i.len(), 0, max_issues as nat) == Some(e)
}

/// Routing `envs` from a state whose snapshot is `start` cannot fail, and
/// finishing the protocols' evidence of the assembly it reaches stops at
/// no bound: every envelope routes in the state the ones before it reach,
/// and the assembled evidence passes the issue and operation bounds.
pub open spec fn batch_succeeds<D: ReconstructedProtocols>(
    d: D,
    envs: Seq<WalEnvelope>,
    start: SnapshotView,
    i0: Seq<(Option<u64>, EtlIssueKind, Seq<char>)>,
    max_issues: usize,
) -> bool {
    &&& forall|a0: AssemblerView, k: int, a: AssemblerView, i: Seq<(Option<u64>, EtlIssueKind, Seq<char>)>|
        #![trigger ingested(envs.take(k), a0, i0, max_issues, a, i)]
        snapshot_of(a0) == start && 0 <= k < envs.len() && ingested(envs.take(k), a0, i0, max_issues, a, i)
            ==> ingest_error(envs[k], a, i, max_issues) is None
    &&& forall|a0: AssemblerView, a: AssemblerView, i: Seq<(Option<u64>, EtlIssueKind, Seq<char>)>, v2: AssemblerView,
        assembly: ReconstructionAssembly, evs: Seq<ConnectionEvidence>|
        #![trigger ingested(envs, a0, i0, max_issues, a, i), assembled_from(v2, assembly), batch_evidence(d, assembly, evs)]
        snapshot_of(a0) == start && ingested(envs, a0, i0, max_issues, a, i) && snapshot_of(v2) == snapshot_of(a)
            && assembled_from(v2, assembly) && batch_evidence(d, assembly, evs)
            ==> assembly_error(evs, i.len(), 0, max_issues as nat) is None
}

/// A batch with no new envelopes over a reconstruction that holds no
/// connection succeeds, whatever the protocols.
pub proof fn lemma_quiet_batch_succeeds<D: ReconstructedProtocols>(
    d: D,
    envs: Seq<WalEnvelope>,
    start: SnapshotView,
    i0: Seq<(Option<u64>, EtlIssueKind, Seq<char>)>,
    max_issues: usize,
)
    requires
        envs.len() == 0,
        start.active.len() == 0,
        start.finalized.len() == 0,
    ensures
        batch_succeeds(d, envs, start, i0, max_issues),
{
    assert forall|a0: AssemblerView, a: AssemblerView, i: Seq<(Option<u64>, EtlIssueKind, Seq<char>)>, v2: AssemblerView,
        assembly: ReconstructionAssembly, evs: Seq<ConnectionEvidence>|
        snapshot_of(a0) == start && ingested(envs, a0, i0, max_issues, a, i) && snapshot_of(v2) == snapshot_of(a)
            && assembled_from(v2, assembly) && batch_evidence(d, assembly, evs)
        implies assembly_error(evs, i.len(), 0, max_issues as nat) is None by {
        assert(a == a0);
        assert(v2.active.len() == 0 && v2.finalized.len() == 0);
        assert(evs.len() == 0);
    }
}

/// Finishing succeeded with session `s` and issues `out`.
pub open spec fn finished_with(
    max_issues: usize,
    evs: Seq<ConnectionEvidence>,
    issues: Seq<(Option<u64>, EtlIssueKind, Seq<char>)>,
    session_id: u128,
    s: CanonicalSession,
    out: Vec<EtlIssue>,
) -> bool {
    reconstructed_finish(max_issues, evs, issues, session_id, Ok::<(CanonicalSession, Vec<EtlIssue>), EtlError>((s, out)))
}

/// The snapshot cursor, publication state and reconstruction of
/// incremental processing: the last admitted marker and its digest, the
/// recorded segment lineage, the operation keys already published, and the
/// assembler, evidence and issues carried from batch to batch.
pub struct IncrementalProcessor {
    pipeline: EtlPipeline,
    limits: ReconstructionLimits,
    assembler: ReconstructionAssembler,
    evidence: EtlEvidence,
    issues: Vec<EtlIssue>,
    last_marker_sequence: Option<u64>,
    last_marker_digest: Option<String>,
    segment_lineage: Vec<SegmentLineage>,
    /// The published keys in increasing byte order, each once: an ordered
    /// set of strings whose membership and order the proofs can state.
    emitted_operation_keys: Vec<String>,
}

/// The limits reconstruction runs under for session limits `l`.
pub open spec fn reconstruction_limits(l: SessionLimits) -> ReconstructionLimits {
    ReconstructionLimits {
        max_active_connections: l.max_connections,
        max_bytes_per_connection: l.max_bytes_per_connection,
        max_chunks_per_connection: l.max_chunks_per_connection,
        idle_nanoseconds: 300000000000,
    }
}

impl IncrementalProcessor {
    #[verifier::type_invariant]
    spec fn processor_wf(&self) -> bool {
        &&& keys_sorted(self.emitted_operation_keys@)
        &&& self.assembler.wf()
        &&& self.assembler@.limits == self.limits
        &&& self.issues@.len() <= self.pipeline.spec_max_issues()
    }

    pub closed spec fn last_marker(&self) -> Option<u64> {
        self.last_marker_sequence
    }

    pub closed spec fn last_digest(&self) -> Option<Seq<char>> {
        match self.last_marker_digest {
            Some(d) => Some(d@),
            None => None,
        }
    }

    pub closed spec fn lineage(&self) -> Seq<SegmentLineage> {
        self.segment_lineage@
    }

    pub closed spec fn published(&self) -> Set<Seq<char>> {
        key_set(self.emitted_operation_keys@)
    }

    pub closed spec fn max_issues(&self) -> usize {
        self.pipeline.spec_max_issues()
    }

    pub closed spec fn reconstruction_limits(&self) -> ReconstructionLimits {
        self.limits
    }

    /// The assembler's state.
    pub closed spec fn assembler_state(&self) -> AssemblerView {
        self.assembler@
    }

    pub closed spec fn reconstruction(&self) -> ReconstructionStateView {
        ReconstructionStateView {
            assembler: snapshot_of(self.assembler@),
            loss_windows: self.evidence.loss_windows@,
            terminal_wal_losses: self.evidence.terminal_wal_losses@,
            commit_marker_sequences: self.evidence.commit_marker_sequences@,
            issues: issues_view(self.issues@),
        }
    }

    /// A processor under `limits` that has admitted nothing.
    pub fn new(limits: SessionLimits) -> (p: Self)
        ensures
            p.last_marker() is None,
            p.last_digest() is None,
            p.lineage().len() == 0,
            p.published() == Set::<Seq<char>>::empty(),
            p.max_issues() == DEFAULT_MAX_ISSUES,
            p.reconstruction_limits() == reconstruction_limits(limits),
            p.assembler_state().active.len() == 0,
            p.assembler_state().finalized.len() == 0,
            p.assembler_state().loss_windows.len() == 0,
            p.assembler_state().terminal_wal_losses.len() == 0,
            p.reconstruction().loss_windows.len() == 0,
            p.reconstruction().terminal_wal_losses.len() == 0,
            p.reconstruction().commit_marker_sequences.len() == 0,
            p.reconstruction().issues.len() == 0,
            p.assembler_state() == empty_assembler(reconstruction_limits(limits)),
            p.reconstruction().assembler == snapshot_of(empty_assembler(reconstruction_limits(limits))),
    {
        let rl = ReconstructionLimits {
            max_active_connections: limits.max_connections,
            max_bytes_per_connection: limits.max_bytes_per_connection,
            max_chunks_per_connection: limits.max_chunks_per_connection,
            idle_nanoseconds: 300000000000,
        };
        let p = IncrementalProcessor {
            pipeline: EtlPipeline::new(limits),
            limits: rl,
            assembler: ReconstructionAssembler::new(rl),
            evidence: empty_evidence(),
            issues: Vec::new(),
            last_marker_sequence: None,
            last_marker_digest: None,
            segment_lineage: Vec::new(),
            emitted_operation_keys: Vec::new(),
        };
        proof {
            assert(key_set(p.emitted_operation_keys@) =~= Set::<Seq<char>>::empty());
            assert(issues_view(p.issues@) =~= Seq::<(Option<u64>, EtlIssueKind, Seq<char>)>::empty());
            assert(p.assembler@.active =~= empty_assembler(rl).active);
            assert(p.assembler@.finalized =~= empty_assembler(rl).finalized);
            assert(p.assembler@.loss_windows =~= empty_assembler(rl).loss_windows);
            assert(p.assembler@.terminal_wal_losses =~= empty_assembler(rl).terminal_wal_losses);
        }
        p
    }

    pub fn last_marker_sequence(&self) -> (m: Option<u64>)
        ensures
            m == self.last_marker(),
    {
        self.last_marker_sequence
    }

    /// Whether the last admitted marker carried this digest.
    pub fn marker_digest_matches(&self, digest: &[u8]) -> (r: bool)
        ensures
            r == (self.last_digest() == Some(hex_lower(digest@))),
    {
        let hex = hex_bytes(digest);
        match &self.last_marker_digest {
            Some(d) => str_eq(d.as_str(), hex.as_str()),
            None => false,
        }
    }

    /// The reconstruction state to checkpoint: every mutable input of the
    /// assembler.
    pub fn decoder_snapshot(&self) -> (s: ReconstructionAssemblerSnapshot)
        ensures
            s@ == snapshot_of(self.assembler_state()),
            s@ == self.reconstruction().assembler,
    {
        self.assembler.snapshot_state()
    }

    /// Admits a snapshot, or refuses it and changes nothing. The new
    /// envelopes enter a copy of the reconstruction; the session is finished
    /// from the protocols' evidence of it; only operations whose keys were
    /// not published before are returned, each with its key's identifier.
    /// Only when all of this succeeds do the marker, its digest, the lineage,
    /// the published keys and the reconstruction move on; a failed batch
    /// leaves the whole processor as it was, and a snapshot with no new
    /// envelopes leaves the reconstruction as it was. After admission, only
    /// routing an envelope or finishing at the issue or operation bound can
    /// fail, and when neither does (`batch_succeeds`) the batch succeeds.
    #[verifier::spinoff_prover]
    pub fn process_snapshot<D: ReconstructedProtocols>(
        &mut self,
        snapshot: CommittedWalSnapshot,
        protocols: &D,
        session_id: u128,
    ) -> (r: Result<IncrementalResult, EtlError>)
        ensures
            match admission(
                old(self).last_marker(),
                old(self).last_digest(),
                old(self).lineage(),
                snapshot.marker_sequence,
                hex_lower(snapshot.marker_digest@),
                positions(snapshot.envelopes@),
                snapshot.segment_lineage@,
            ) {
                Err(e) => r == Err::<IncrementalResult, EtlError>(e),
                Ok(start) => (batch_succeeds(*protocols, snapshot.envelopes@.skip(start), old(self).reconstruction().assembler,
                        old(self).reconstruction().issues, old(self).max_issues()) ==> r is Ok)
                    && (r matches Err(e) ==> (e is Reconstruction || e is IssueLimit || e is OperationLimit)
                    && (ingest_fails_with(snapshot.envelopes@.skip(start), old(self).reconstruction().assembler,
                            old(self).reconstruction().issues, old(self).max_issues(), e)
                        || finish_fails_with(*protocols, snapshot.envelopes@.skip(start), old(self).reconstruction().assembler,
                            old(self).reconstruction().issues, old(self).max_issues(), e)))
                    && (r is Ok ==> (r matches Ok(res) && {
                    &&& res.first_marker_sequence == first_marker(old(self).last_marker())
                    &&& res.last_marker_sequence == snapshot.marker_sequence
                    &&& lineage_matches(res.segment_lineage@, snapshot.segment_lineage@)
                    &&& final(self).last_marker() == Some(snapshot.marker_sequence)
                    &&& final(self).last_digest() == Some(hex_lower(snapshot.marker_digest@))
                    &&& lineage_matches(final(self).lineage(), snapshot.segment_lineage@)
                    &&& exists|a0: AssemblerView| snapshot_of(a0) == old(self).reconstruction().assembler
                        && #[trigger] ingested(snapshot.envelopes@.skip(start), a0, old(self).reconstruction().issues, old(self).max_issues(),
                            final(self).assembler_state(), final(self).reconstruction().issues)
                    &&& start == snapshot.envelopes@.len() ==> final(self).reconstruction().assembler == old(self).reconstruction().assembler
                        && final(self).reconstruction().issues == old(self).reconstruction().issues
                    &&& batch_output(*protocols, old(self).max_issues(), final(self).assembler_state(),
                        final(self).reconstruction().issues, session_id, old(self).published(), res, final(self).published())
                })),
            },
            r is Err ==> {
                &&& final(self).last_marker() == old(self).last_marker()
                &&& final(self).last_digest() == old(self).last_digest()
                &&& final(self).lineage() == old(self).lineage()
                &&& final(self).published() == old(self).published()
                &&& final(self).reconstruction() == old(self).reconstruction()
            },
            final(self).max_issues() == old(self).max_issues(),
            final(self).reconstruction_limits() == old(self).reconstruction_limits(),
    {
        proof { use_type_invariant(&*self); }
        let ghost adm = admission(
            self.last_marker(),
            self.last_digest(),
            self.lineage(),
            snapshot.marker_sequence,
            hex_lower(snapshot.marker_digest@),
            positions(snapshot.envelopes@),
            snapshot.segment_lineage@,
        );
        let CommittedWalSnapshot { marker_sequence, marker_digest, envelopes, segment_lineage: segments } = snapshot;
        let places = envelope_positions(&envelopes);
        let n_places = places.len();
        let digest_text = hex_bytes(marker_digest.as_slice());
        let admitted = match &self.last_marker_digest {
            Some(d) => admit_snapshot(
                self.last_marker_sequence,
                Some(d.as_str()),
                self.segment_lineage.as_slice(),
                marker_sequence,
                digest_text.as_str(),
                places.as_slice(),
                segments.as_slice(),
            ),
            None => admit_snapshot(
                self.last_marker_sequence,
                None,
                self.segment_lineage.as_slice(),
                marker_sequence,
                digest_text.as_str(),
                places.as_slice(),
                segments.as_slice(),
            ),
        };
        let start = match admitted {
            Ok(start) => start,
            Err(e) => return Err(e),
        };
        assert(adm == Ok::<int, EtlError>(start as int)) by {
            assert(0 <= adm->Ok_0 <= n_places);
        }

        let first_marker_sequence = match self.last_marker_sequence {
            Some(p) => sat_next_exec(p),
            None => 0,
        };
        let max_issues = self.pipeline.max_issues();
        let mut assembler = self.assembler.duplicate();
        let mut evidence = copy_evidence(&self.evidence);
        let mut issues = copy_issues(&self.issues);
        let ghost all_envs = envelopes@;
        let mut rest = envelopes;
        let mut k: usize = 0;
        proof {
            assert(all_envs.skip(0) =~= all_envs);
            assert(places@.len() == all_envs.len());
        }
        while k < start && rest.len() > 0
            invariant
                k <= start,
                rest@.len() + k == n_places,
                all_envs.len() == n_places,
                rest@ == all_envs.skip(k as int),
            decreases start - k,
        {
            let ghost prev = rest@;
            rest.remove(0);
            proof {
                assert(prev == all_envs.skip(k as int));
                assert(rest@ =~= all_envs.skip(k + 1));
            }
            k = k + 1;
        }
        let ghost nothing_new = rest@.len() == 0;
        let ghost new_envs = all_envs.skip(start as int);
        let ghost a_start = assembler@;
        let ghost i_start = issues_view(issues@);
        let ghost mut j: int = 0;
        proof {
            assert(start == n_places ==> nothing_new);
            assert(k == start);
            assert(rest@ == new_envs.skip(0)) by { assert(new_envs.skip(0) =~= new_envs); }
            assert(new_envs.take(0) =~= Seq::<WalEnvelope>::empty());
            assert(all_envs == snapshot.envelopes@);
        }
        while rest.len() > 0
            invariant
                0 <= j <= new_envs.len(),
                rest@ == new_envs.skip(j),
                new_envs == snapshot.envelopes@.skip(start as int),
                snapshot_of(a_start) == old(self).reconstruction().assembler,
                i_start == old(self).reconstruction().issues,
                max_issues == old(self).max_issues(),
                ingested(new_envs.take(j), a_start, i_start, max_issues, assembler@, issues_view(issues@)),
                nothing_new ==> rest@.len() == 0,
                nothing_new ==> snapshot_of(assembler@) == snapshot_of(self.assembler@)
                    && issues_view(issues@) == issues_view(self.issues@),
                assembler.wf(),
                assembler@.limits == self.limits,
                issues@.len() <= max_issues,
                max_issues == self.pipeline.spec_max_issues(),
                adm == Ok::<int, EtlError>(start as int),
                adm == admission(old(self).last_marker(), old(self).last_digest(), old(self).lineage(), snapshot.marker_sequence,
                    hex_lower(snapshot.marker_digest@), positions(snapshot.envelopes@), snapshot.segment_lineage@),
            decreases rest.len(),
        {
            let envelope = rest.remove(0);
            let ghost before = issues@;
            let ghost before_a = assembler@;
            proof {
                assert(envelope == new_envs[j]);
                assert(rest@ =~= new_envs.skip(j + 1));
            }
            let step = ingest_reconstructed_envelope(envelope, &mut assembler, &mut evidence, &mut issues, max_issues);
            proof {
                assert(issues_view(issues@).len() == issues@.len());
                assert(issues_view(before).len() == before.len());
            }
            proof {
                lemma_ingest_error(new_envs[j], before_a, issues_view(before), max_issues, assembler@, issues_view(issues@), step);
            }
            if let Err(e) = step {
                proof {
                    assert(ingested(new_envs.take(j), a_start, i_start, max_issues, before_a, issues_view(before)));
                    assert(ingest_error(new_envs[j], before_a, issues_view(before), max_issues) == Some(e));
                    assert(ingest_fails_with(new_envs, old(self).reconstruction().assembler, i_start, max_issues, e));
                }
                return Err(e);
            }
            proof {
                let t = new_envs.take(j + 1);
                assert(t.drop_last() =~= new_envs.take(j));
                assert(t.last() == new_envs[j]);
                assert(ingested(t.drop_last(), a_start, i_start, max_issues, before_a, issues_view(before)));
                assert(ingest_effect(t.last(), before_a, issues_view(before), max_issues, assembler@, issues_view(issues@), Ok(())));
                assert(t.len() > 0);
                lemma_ingested_step(t, a_start, i_start, max_issues, before_a, issues_view(before), assembler@, issues_view(issues@));
                j = j + 1;
            }
        }
        proof {
            assert(new_envs.take(j) =~= new_envs);
        }
        let dup = assembler.duplicate();
        let ghost v2 = dup@;
        let assembly = dup.finish();
        let ghost a = assembly;
        let evs = decode_assembly(&assembly, protocols);
        let ghost ev = evs@;
        let issue_copy = copy_issues(&issues);
        let finished = self.pipeline.finish_reconstructed(evs, issue_copy, session_id);
        proof {
            lemma_assembly_error_kind(ev, issues@.len() as nat, 0, max_issues as nat);
        }
        let (session, out_issues) = match finished {
            Ok(pair) => pair,
            Err(e) => {
                proof {
                    assert(issues_view(issues@).len() == issues@.len());
                    assert(assembly_error(ev, issues_view(issues@).len(), 0, max_issues as nat) == Some(e));
                    assert(snapshot_of(v2) == snapshot_of(assembler@));
                    assert(assembled_from(v2, a));
                    assert(batch_evidence(*protocols, a, ev));
                    assert(ingested(new_envs, a_start, i_start, max_issues, assembler@, issues_view(issues@)));
                    assert(finish_fails_with(*protocols, new_envs, old(self).reconstruction().assembler, i_start, max_issues, e));
                }
                return Err(e);
            },
        };
        let ghost s = session;
        let ghost published0 = key_set(self.emitted_operation_keys@);
        let mut keys = copy_keys(&self.emitted_operation_keys);
        let (published, Ghost(session_keys)) = publish_new_operations(session, protocols, &mut keys);
        self.assembler = assembler;
        self.evidence = evidence;
        self.issues = issues;
        self.emitted_operation_keys = keys;
        self.segment_lineage = segment_lineage_of(segments.as_slice());
        self.last_marker_sequence = Some(marker_sequence);
        self.last_marker_digest = Some(digest_text);
        let res = IncrementalResult {
            session: published,
            issues: out_issues,
            first_marker_sequence,
            last_marker_sequence: marker_sequence,
            segment_lineage: segment_lineage_of(segments.as_slice()),
        };
        proof {
            assert(snapshot_of(v2) == snapshot_of(self.assembler@));
            assert(ingested(new_envs, a_start, i_start, max_issues, self.assembler@, issues_view(self.issues@)));
            assert(all_envs == snapshot.envelopes@);
            assert(new_envs == snapshot.envelopes@.skip(adm->Ok_0));
            assert(i_start == old(self).reconstruction().issues);
            assert(snapshot_of(a_start) == old(self).reconstruction().assembler);
            assert(ingested(snapshot.envelopes@.skip(adm->Ok_0), a_start, old(self).reconstruction().issues, old(self).max_issues(),
                self.assembler_state(), self.reconstruction().issues));
            assert(assembled_from(v2, a));
            assert(batch_evidence(*protocols, a, ev));
            assert(finished_with(max_issues, ev, issues_view(self.issues@), session_id, s, res.issues));
            assert(published_session(res.session, s, session_keys, published0));
            assert(session_keyed(*protocols, s.connections@, session_keys));
        }
        Ok(res)
    }
}

/// The admission positions of envelopes.
fn envelope_positions(envs: &Vec<WalEnvelope>) -> (r: Vec<EnvelopePosition>)
    ensures
        r@ == positions(envs@),
{
    let mut out: Vec<EnvelopePosition> = Vec::new();
    let mut i: usize = 0;
    while i < envs.len()
        invariant
            i <= envs@.len(),
            out@.len() == i,
            forall|j: int| 0 <= j < i ==> #[trigger] out@[j] == position_of(envs@[j]),
        decreases envs.len() - i,
    {
        out.push(EnvelopePosition { sequence: envs[i].sequence, segment_first_sequence: envs[i].segment_first_sequence });
        i = i + 1;
    }
    proof { assert(out@ =~= positions(envs@)); }
    out
}

fn empty_evidence() -> (e: EtlEvidence)
    ensures
        e.loss_windows@.len() == 0,
        e.terminal_wal_losses@.len() == 0,
        e.commit_marker_sequences@.len() == 0,
{
    EtlEvidence { loss_windows: Vec::new(), terminal_wal_losses: Vec::new(), commit_marker_sequences: Vec::new() }
}

/// A copy of the evidence kept beside reconstruction.
fn copy_evidence(e: &EtlEvidence) -> (c: EtlEvidence)
    ensures
        c.loss_windows@.len() == e.loss_windows@.len(),
        c.terminal_wal_losses@.len() == e.terminal_wal_losses@.len(),
        c.commit_marker_sequences@ == e.commit_marker_sequences@,
{
    let mut windows: Vec<SequencedEvidence<LossWindowObserved>> = Vec::new();
    let mut i: usize = 0;
    while i < e.loss_windows.len()
        invariant
            i <= e.loss_windows@.len(),
            windows@.len() == i,
        decreases e.loss_windows.len() - i,
    {
        let w = &e.loss_windows[i];
        windows.push(SequencedEvidence { sequence: w.sequence, value: copy_loss_window(&w.value) });
        i = i + 1;
    }
    let mut losses: Vec<SequencedEvidence<TerminalPersistenceLoss>> = Vec::new();
    let mut j: usize = 0;
    while j < e.terminal_wal_losses.len()
        invariant
            j <= e.terminal_wal_losses@.len(),
            losses@.len() == j,
        decreases e.terminal_wal_losses.len() - j,
    {
        let l = &e.terminal_wal_losses[j];
        losses.push(SequencedEvidence { sequence: l.sequence, value: copy_terminal_loss(&l.value) });
        j = j + 1;
    }
    let mut markers: Vec<u64> = Vec::new();
    let mut k: usize = 0;
    while k < e.commit_marker_sequences.len()
        invariant
            k <= e.commit_marker_sequences@.len(),
            markers@ == e.commit_marker_sequences@.take(k as int),
        decreases e.commit_marker_sequences.len() - k,
    {
        markers.push(e.commit_marker_sequences[k]);
        proof { assert(markers@ =~= e.commit_marker_sequences@.take(k + 1)); }
        k = k + 1;
    }
    proof { assert(markers@ =~= e.commit_marker_sequences@); }
    EtlEvidence { loss_windows: windows, terminal_wal_losses: losses, commit_marker_sequences: markers }
}

/// A copy of the issues.
fn copy_issues(issues: &Vec<EtlIssue>) -> (c: Vec<EtlIssue>)
    ensures
        issues_view(c@) == issues_view(issues@),
        c@.len() == issues@.len(),
{
    let mut out: Vec<EtlIssue> = Vec::new();
    let mut i: usize = 0;
    while i < issues.len()
        invariant
            i <= issues@.len(),
            out@.len() == i,
            forall|j: int| 0 <= j < i ==> issue_view(#[trigger] out@[j]) == issue_view(issues@[j]),
        decreases issues.len() - i,
    {
        let x = &issues[i];
        out.push(EtlIssue { sequence: x.sequence, kind: x.kind, message: str_copy(x.message.as_str()) });
        i = i + 1;
    }
    proof { assert(issues_view(out@) =~= issues_view(issues@)); }
    out
}

/// The protocols' evidence of each assembled connection, in order.
fn decode_assembly<D: ReconstructedProtocols>(assembly: &ReconstructionAssembly, protocols: &D) -> (evs: Vec<ConnectionEvidence>)
    ensures
        batch_evidence(*protocols, *assembly, evs@),
{
    let ghost a = *assembly;
    let mut evs: Vec<ConnectionEvidence> = Vec::new();
    let mut i: usize = 0;
    while i < assembly.connections.len()
        invariant
            a == *assembly,
            i <= assembly.connections@.len(),
            evs@.len() == i,
            forall|j: int| 0 <= j < i ==> {
                let incomplete = connection_incomplete(a.connections@[j], a.terminal_wal_losses@);
                &&& protocols.decodes(a.connections@[j], incomplete, (#[trigger] evs@[j]).stream.chunks@, evs@[j].outcome)
                &&& evs@[j].stream.started_at == Some(0i128)
                &&& evs@[j].stream.truncated == incomplete
                &&& identity_recorded(a.connections@[j].identity, evs@[j])
            },
        decreases assembly.connections.len() - i,
    {
        let c = &assembly.connections[i];
        let incomplete = reconstructed_connection_incomplete(c, assembly.terminal_wal_losses.as_slice());
        let (chunks, outcome) = protocols.decode(c, incomplete);
        let (client, server, attributes) = reconstructed_connection_identity(&c.identity);
        evs.push(ConnectionEvidence {
            client,
            server,
            attributes,
            stream: ProtocolStream { started_at: Some(0), chunks, truncated: incomplete },
            outcome,
        });
        i = i + 1;
    }
    evs
}

/// The assembler state a pipeline starts reconstruction from.
pub open spec fn empty_assembler(limits: ReconstructionLimits) -> AssemblerView {
    AssemblerView {
        limits,
        active: Seq::empty(),
        finalized: Seq::empty(),
        loss_windows: Seq::empty(),
        terminal_wal_losses: Seq::empty(),
    }
}

impl EtlPipeline {
    /// Reconstructs a session from committed envelopes: they enter an
    /// empty assembler under the pipeline's limits in order, and the
    /// session is finished from the protocols' evidence of the assembled
    /// connections. Fails only at reconstruction, the issue bound or the
    /// operation bound, and succeeds whenever none of them stops it.
    #[verifier::spinoff_prover]
    pub fn process_reconstructed_envelopes<D: ReconstructedProtocols>(
        &self,
        envelopes: Vec<WalEnvelope>,
        protocols: &D,
        session_id: u128,
    ) -> (r: Result<(CanonicalSession, Vec<EtlIssue>), EtlError>)
        ensures
            batch_succeeds(*protocols, envelopes@, snapshot_of(empty_assembler(reconstruction_limits(self.spec_limits()))),
                Seq::empty(), self.spec_max_issues()) ==> r is Ok,
            r matches Err(e) ==> (e is Reconstruction || e is IssueLimit || e is OperationLimit)
                && (ingest_fails_with(envelopes@, snapshot_of(empty_assembler(reconstruction_limits(self.spec_limits()))),
                        Seq::empty(), self.spec_max_issues(), e)
                    || finish_fails_with(*protocols, envelopes@, snapshot_of(empty_assembler(reconstruction_limits(self.spec_limits()))),
                        Seq::empty(), self.spec_max_issues(), e)),
            r matches Ok((s, out)) ==> exists|a: AssemblerView, issues: Seq<(Option<u64>, EtlIssueKind, Seq<char>)>|
                #[trigger] ingested(envelopes@, empty_assembler(reconstruction_limits(self.spec_limits())), Seq::empty(),
                    self.spec_max_issues(), a, issues)
                && reconstructed_from(*protocols, self.spec_max_issues(), a, issues, session_id, s, out),
    {
        let limits = self.limits();
        let rl = ReconstructionLimits {
            max_active_connections: limits.max_connections,
            max_bytes_per_connection: limits.max_bytes_per_connection,
            max_chunks_per_connection: limits.max_chunks_per_connection,
            idle_nanoseconds: 300000000000,
        };
        let max_issues = self.max_issues();
        let mut assembler = ReconstructionAssembler::new(rl);
        let mut evidence = empty_evidence();
        let mut issues: Vec<EtlIssue> = Vec::new();
        let ghost a_start = assembler@;
        let ghost all = envelopes@;
        let ghost mut j: int = 0;
        proof {
            assert(a_start.active =~= Seq::<ConnectionView>::empty());
            assert(a_start.finalized =~= Seq::<FinalizedView>::empty());
            assert(a_start.loss_windows =~= Seq::<LossWindowObserved>::empty());
            assert(a_start.terminal_wal_losses =~= Seq::<TerminalPersistenceLoss>::empty());
            assert(a_start == empty_assembler(reconstruction_limits(self.spec_limits())));
            assert(issues_view(issues@) =~= Seq::<(Option<u64>, EtlIssueKind, Seq<char>)>::empty());
            assert(all.take(0) =~= Seq::<WalEnvelope>::empty());
            assert(all.skip(0) =~= all);
        }
        let mut rest = envelopes;
        while rest.len() > 0
            invariant
                0 <= j <= all.len(),
                rest@ == all.skip(j),
                ingested(all.take(j), a_start, Seq::empty(), max_issues, assembler@, issues_view(issues@)),
                all == envelopes@,
                a_start == empty_assembler(reconstruction_limits(self.spec_limits())),
                max_issues == self.spec_max_issues(),
                assembler.wf(),
                issues@.len() <= max_issues,
            decreases rest.len(),
        {
            let envelope = rest.remove(0);
            let ghost before = issues@;
            let ghost before_a = assembler@;
            proof {
                assert(envelope == all[j]);
                assert(rest@ =~= all.skip(j + 1));
            }
            let step = ingest_reconstructed_envelope(envelope, &mut assembler, &mut evidence, &mut issues, max_issues);
            proof {
                assert(issues_view(issues@).len() == issues@.len());
                assert(issues_view(before).len() == before.len());
            }
            proof {
                lemma_ingest_error(all[j], before_a, issues_view(before), max_issues, assembler@, issues_view(issues@), step);
            }
            if let Err(e) = step {
                proof {
                    assert(ingested(all.take(j), a_start, Seq::empty(), max_issues, before_a, issues_view(before)));
                    assert(ingest_fails_with(all, snapshot_of(a_start), Seq::empty(), max_issues, e));
                }
                return Err(e);
            }
            proof {
                let t = all.take(j + 1);
                assert(t.drop_last() =~= all.take(j));
                assert(t.last() == all[j]);
                lemma_ingested_step(t, a_start, Seq::empty(), max_issues, before_a, issues_view(before), assembler@, issues_view(issues@));
                j = j + 1;
            }
        }
        proof {
            assert(all.take(j) =~= all);
        }
        let dup = assembler.duplicate();
        let ghost v2 = dup@;
        let assembly = dup.finish();
        let ghost a = assembly;
        let evs = decode_assembly(&assembly, protocols);
        let ghost ev = evs@;
        let issue_copy = copy_issues(&issues);
        let finished = self.finish_reconstructed(evs, issue_copy, session_id);
        proof {
            lemma_assembly_error_kind(ev, issues@.len() as nat, 0, max_issues as nat);
        }
        let (session, out) = match finished {
            Ok(pair) => pair,
            Err(e) => {
                proof {
                    assert(issues_view(issues@).len() == issues@.len());
                    assert(assembly_error(ev, issues_view(issues@).len(), 0, max_issues as nat) == Some(e));
                    assert(assembled_from(v2, a));
                    assert(batch_evidence(*protocols, a, ev));
                    assert(ingested(all, a_start, Seq::empty(), max_issues, assembler@, issues_view(issues@)));
                    assert(finish_fails_with(*protocols, all, snapshot_of(a_start), Seq::empty(), max_issues, e));
                }
                return Err(e);
            },
        };
        proof {
            assert(assembled_from(v2, a));
            assert(batch_evidence(*protocols, a, ev));
            assert(finished_with(max_issues, ev, issues_view(issues@), session_id, session, out));
            assert(reconstructed_from(*protocols, max_issues, assembler@, issues_view(issues@), session_id, session, out));
        }
        Ok((session, out))
    }
}

/// A session and its issues finished from the assembler state `v` with
/// issues `issues`: from an assembly of that state and the protocols'
/// evidence of it.
pub open spec fn reconstructed_from<D: ReconstructedProtocols>(
    d: D,
    max_issues: usize,
    v: AssemblerView,
    issues: Seq<(Option<u64>, EtlIssueKind, Seq<char>)>,
    session_id: u128,
    s: CanonicalSession,
    out: Vec<EtlIssue>,
) -> bool {
    exists|v2: AssemblerView, a: ReconstructionAssembly, evs: Seq<ConnectionEvidence>|
        #![trigger assembled_from(v2, a), batch_evidence(d, a, evs)]
        snapshot_of(v2) == snapshot_of(v) && assembled_from(v2, a) && batch_evidence(d, a, evs)
            && finished_with(max_issues, evs, issues, session_id, s, out)
}

/// Publishes a connection's operations whose keys are new, in order, each
/// with its key's identifier, and adds their keys to `keys`; gives the keys
/// of all its operations.
#[verifier::spinoff_prover]
fn publish_connection<D: ReconstructedProtocols>(conn: CanonicalConnection, protocols: &D, keys: &mut Vec<String>)
    -> (r: (CanonicalConnection, Ghost<Seq<Seq<char>>>))
    requires
        keys_sorted(old(keys)@),
    ensures
        keys_sorted(final(keys)@),
        keyed_by(*protocols, conn.operations@, r.1@),
        published_connection(r.0, conn, r.1@, key_set(old(keys)@)),
        key_set(final(keys)@) == key_set(old(keys)@) + first_keys(r.1@, conn.operations@.len() as int),
{
    let ghost p0 = key_set(keys@);
    let ghost ops = conn.operations@;
    let CanonicalConnection { id, protocol, client, server, attributes, operations } = conn;
    let n = operations.len();
    let mut key_list: Vec<String> = Vec::new();
    let mut j: usize = 0;
    while j < n
        invariant
            j <= n,
            n == ops.len(),
            operations@ == ops,
            key_list@.len() == j,
            forall|x: int| 0 <= x < j ==> #[trigger] key_encoded(*protocols, ops[x], key_list@[x]@),
        decreases n - j,
    {
        let bytes = protocols.encode_operation(&operations[j]);
        let key = digest_hex(bytes.as_slice());
        proof {
            assert(protocols.encodes(ops[j as int], bytes@) && key@ == digest_spec(bytes@));
        }
        key_list.push(key);
        j = j + 1;
    }
    let ghost ks = key_list@.map_values(|k: String| k@);
    proof {
        assert forall|x: int| 0 <= x < ops.len() implies #[trigger] key_encoded(*protocols, ops[x], ks[x]) by {
            assert(ks[x] == key_list@[x]@);
        }
    }
    let mut rest = operations;
    let mut kept: Vec<CanonicalOperation> = Vec::new();
    let mut i: usize = 0;
    proof {
        assert(p0 + first_keys(ks, 0) =~= p0);
        assert(ops.take(0) =~= Seq::<CanonicalOperation>::empty());
        assert(ops.skip(0) =~= ops);
    }
    while rest.len() > 0
        invariant
            keys_sorted(keys@),
            i + rest@.len() == ops.len(),
            ops.len() == n,
            key_list@.len() == n,
            rest@ == ops.skip(i as int),
            ks == key_list@.map_values(|k: String| k@),
            key_set(keys@) == p0 + first_keys(ks, i as int),
            kept@ == kept_operations(ops.take(i as int), ks, p0),
        decreases rest.len(),
    {
        let op = rest.remove(0);
        proof {
            assert(op == ops[i as int]);
            assert(rest@ =~= ops.skip(i + 1));
        }
        let key = key_list[i].as_str();
        let added = insert_key(keys, key);
        proof {
            let t = ops.take(i + 1);
            assert(t.take(i as int) =~= ops.take(i as int));
            assert(t[i as int] == ops[i as int]);
            assert(ks[i as int] == key@);
            assert(first_keys(ks, i + 1) =~= first_keys(ks, i as int).insert(ks[i as int]));
            assert(p0 + first_keys(ks, i + 1) =~= (p0 + first_keys(ks, i as int)).insert(ks[i as int]));
        }
        if added {
            let mut op = op;
            op.id = operation_id_from_key(key);
            kept.push(op);
        }
        i = i + 1;
    }
    proof { assert(ops.take(ops.len() as int) =~= ops); }
    (CanonicalConnection { id, protocol, client, server, attributes, operations: kept }, Ghost(ks))
}

proof fn lemma_keys_before_prefix(a: Seq<Seq<Seq<char>>>, b: Seq<Seq<Seq<char>>>, c: int)
    requires
        0 <= c <= a.len(),
        c <= b.len(),
        forall|i: int| 0 <= i < c ==> a[i] == b[i],
    ensures
        keys_before(a, c) == keys_before(b, c),
{
    assert forall|k: Seq<char>| keys_before(a, c).contains(k) == keys_before(b, c).contains(k) by {
        if keys_before(a, c).contains(k) {
            let (i, j) = choose|i: int, j: int| 0 <= i < c && i < a.len() && 0 <= j < a[i].len() && #[trigger] a[i][j] == k;
            assert(b[i][j] == k);
        }
        if keys_before(b, c).contains(k) {
            let (i, j) = choose|i: int, j: int| 0 <= i < c && i < b.len() && 0 <= j < b[i].len() && #[trigger] b[i][j] == k;
            assert(a[i][j] == k);
        }
    }
    assert(keys_before(a, c) =~= keys_before(b, c));
}

/// Publishes each connection's new operations, connection by connection;
/// gives the keys of every connection's operations.
#[verifier::spinoff_prover]
fn publish_new_operations<D: ReconstructedProtocols>(session: CanonicalSession, protocols: &D, keys: &mut Vec<String>)
    -> (r: (CanonicalSession, Ghost<Seq<Seq<Seq<char>>>>))
    requires
        keys_sorted(old(keys)@),
    ensures
        keys_sorted(final(keys)@),
        session_keyed(*protocols, session.connections@, r.1@),
        published_session(r.0, session, r.1@, key_set(old(keys)@)),
        key_set(final(keys)@) == key_set(old(keys)@) + keys_before(r.1@, session.connections@.len() as int),
{
    let ghost p0 = key_set(keys@);
    let ghost all = session.connections@;
    let CanonicalSession { id, started_at, ended_at, connections, connection_completeness, operation_completeness, timeline } = session;
    let n = connections.len();
    let mut rest = connections;
    let mut out: Vec<CanonicalConnection> = Vec::new();
    let ghost mut ks: Seq<Seq<Seq<char>>> = Seq::empty();
    let mut c: usize = 0;
    proof {
        assert(p0 + keys_before(ks, 0) =~= p0);
        assert(all.skip(0) =~= all);
    }
    while rest.len() > 0
        invariant
            keys_sorted(keys@),
            c + rest@.len() == all.len(),
            all.len() == n,
            rest@ == all.skip(c as int),
            out@.len() == c,
            ks.len() == c,
            forall|i: int| 0 <= i < c ==> #[trigger] keyed_by(*protocols, all[i].operations@, ks[i]),
            key_set(keys@) == p0 + keys_before(ks, c as int),
            forall|i: int| 0 <= i < c ==> published_connection(#[trigger] out@[i], all[i], ks[i], p0 + keys_before(ks, i)),
        decreases rest.len(),
    {
        let conn = rest.remove(0);
        proof {
            assert(conn == all[c as int]);
            assert(rest@ =~= all.skip(c + 1));
        }
        let ghost before = key_set(keys@);
        let ghost ks0 = ks;
        let (kept, Ghost(kc)) = publish_connection(conn, protocols, keys);
        proof {
            ks = ks.push(kc);
            assert forall|k: Seq<char>| #[trigger] keys_before(ks, c + 1).contains(k)
                == (keys_before(ks0, c as int).contains(k) || first_keys(kc, kc.len() as int).contains(k)) by {
                if keys_before(ks, c + 1).contains(k) {
                    let (i, j) = choose|i: int, j: int| 0 <= i < c + 1 && i < ks.len() && 0 <= j < ks[i].len() && #[trigger] ks[i][j] == k;
                    if i == c {
                        assert(kc[j] == k);
                    } else {
                        assert(ks0[i][j] == k);
                    }
                }
                if first_keys(kc, kc.len() as int).contains(k) {
                    let j = choose|j: int| 0 <= j < kc.len() && j < kc.len() && #[trigger] kc[j] == k;
                    assert(ks[c as int][j] == k);
                }
                if keys_before(ks0, c as int).contains(k) {
                    let (i, j) = choose|i: int, j: int| 0 <= i < c && i < ks0.len() && 0 <= j < ks0[i].len() && #[trigger] ks0[i][j] == k;
                    assert(ks[i][j] == k);
                }
            }
            assert(p0 + keys_before(ks, c + 1) =~= before + first_keys(kc, kc.len() as int));
            assert(ks[c as int] == kc);
            assert forall|i: int| 0 <= i < c implies #[trigger] keyed_by(*protocols, all[i].operations@, ks[i]) by {
                assert(ks[i] == ks0[i]);
            }
        }
        out.push(kept);
        proof {
            assert forall|i: int| 0 <= i < c + 1 implies published_connection(#[trigger] out@[i], all[i], ks[i], p0 + keys_before(ks, i)) by {
                lemma_keys_before_prefix(ks, ks0, i);
                if i < c {
                    assert(ks[i] == ks0[i]);
                }
            }
        }
        c = c + 1;
    }
    proof {
        assert(ks.len() == all.len());
    }
    (CanonicalSession { id, started_at, ended_at, connections: out, connection_completeness, operation_completeness, timeline }, Ghost(ks))
}


/// Copies a segment lineage entry.
fn copy_lineage_entry(l: &SegmentLineage) -> (r: SegmentLineage)
    ensures
        r.ordinal == l.ordinal,
        r.digest@ == l.digest@,
        r.first_sequence == l.first_sequence,
        r.last_sequence == l.last_sequence,
{
    SegmentLineage {
        ordinal: l.ordinal,
        digest: str_copy(l.digest.as_str()),
        first_sequence: l.first_sequence,
        last_sequence: l.last_sequence,
    }
}

fn copy_lineage(l: &[SegmentLineage]) -> (r: Vec<SegmentLineage>)
    ensures
        same_lineage(r@, l@),
{
    let mut out: Vec<SegmentLineage> = Vec::new();
    let mut i: usize = 0;
    while i < l.len()
        invariant
            i <= l@.len(),
            out@.len() == i,
            forall|k: int| 0 <= k < i ==> same_segment(#[trigger] out@[k], l@[k]),
        decreases l.len() - i,
    {
        out.push(copy_lineage_entry(&l[i]));
        i = i + 1;
    }
    out
}

/// Copies an ordered key list.
fn copy_keys(keys: &Vec<String>) -> (r: Vec<String>)
    requires
        keys_sorted(keys@),
    ensures
        keys_sorted(r@),
        key_set(r@) == key_set(keys@),
        r@.len() == keys@.len(),
        forall|i: int| 0 <= i < keys@.len() ==> #[trigger] r@[i]@ == keys@[i]@,
{
    let mut out: Vec<String> = Vec::new();
    let mut i: usize = 0;
    while i < keys.len()
        invariant
            i <= keys@.len(),
            out@.len() == i,
            forall|k: int| 0 <= k < i ==> #[trigger] out@[k]@ == keys@[k]@,
        decreases keys.len() - i,
    {
        out.push(str_copy(keys[i].as_str()));
        i = i + 1;
    }
    proof {
        assert(key_set(out@) =~= key_set(keys@)) by {
            assert forall|k: Seq<char>| key_set(out@).contains(k) implies key_set(keys@).contains(k) by {
                let j = choose|j: int| 0 <= j < out@.len() && #[trigger] out@[j]@ == k;
                assert(keys@[j]@ == k);
            }
            assert forall|k: Seq<char>| key_set(keys@).contains(k) implies key_set(out@).contains(k) by {
                let j = choose|j: int| 0 <= j < keys@.len() && #[trigger] keys@[j]@ == k;
                assert(out@[j]@ == k);
            }
        }
    }
    out
}

/// Whether a key is a valid stored publication key.
fn publication_key_valid(key: &str) -> (r: bool)
    ensures
        r == publication_key_ok(key@),
{
    let b = key.as_bytes();
    if b.len() != 64 {
        return false;
    }
    let mut i: usize = 0;
    while i < 64
        invariant
            b@ == encode_utf8(key@),
            b@.len() == 64,
            i <= 64,
            forall|k: int| 0 <= k < i ==> is_hex_digit(#[trigger] b@[k]),
        decreases 64 - i,
    {
        let c = b[i];
        if !((c >= 48 && c <= 57) || (c >= 65 && c <= 70) || (c >= 97 && c <= 102)) {
            return false;
        }
        i = i + 1;
    }
    true
}

/// The full state of a processor, as a checkpoint saves it.
pub struct IncrementalProcessorState {
    pipeline: EtlPipeline,
    limits: ReconstructionLimits,
    assembler: ReconstructionAssembler,
    evidence: EtlEvidence,
    issues: Vec<EtlIssue>,
    last_marker_sequence: Option<u64>,
    last_marker_digest: Option<String>,
    segment_lineage: Vec<SegmentLineage>,
    emitted_operation_keys: Vec<String>,
}

impl IncrementalProcessorState {
    #[verifier::type_invariant]
    spec fn state_wf(&self) -> bool {
        &&& keys_sorted(self.emitted_operation_keys@)
        &&& self.assembler.wf()
        &&& self.assembler@.limits == self.limits
        &&& self.issues@.len() <= self.pipeline.spec_max_issues()
    }

    pub closed spec fn last_marker(&self) -> Option<u64> {
        self.last_marker_sequence
    }

    pub closed spec fn last_digest(&self) -> Option<Seq<char>> {
        match self.last_marker_digest {
            Some(d) => Some(d@),
            None => None,
        }
    }

    pub closed spec fn lineage(&self) -> Seq<SegmentLineage> {
        self.segment_lineage@
    }

    pub closed spec fn published(&self) -> Set<Seq<char>> {
        key_set(self.emitted_operation_keys@)
    }

    pub closed spec fn assembler_state(&self) -> SnapshotView {
        snapshot_of(self.assembler@)
    }

    pub closed spec fn issues_state(&self) -> Seq<(Option<u64>, EtlIssueKind, Seq<char>)> {
        issues_view(self.issues@)
    }
}

fn copy_opt_string(o: &Option<String>) -> (r: Option<String>)
    ensures
        match (r, *o) {
            (Some(a), Some(b)) => a@ == b@,
            (None, None) => true,
            _ => false,
        },
{
    match o {
        Some(s) => Some(str_copy(s.as_str())),
        None => None,
    }
}

impl IncrementalProcessor {
    /// The operation keys published so far, in order.
    pub fn published_operation_keys(&self) -> (keys: Vec<String>)
        ensures
            keys_sorted(keys@),
            key_set(keys@) == self.published(),
    {
        proof { use_type_invariant(self); }
        copy_keys(&self.emitted_operation_keys)
    }

    /// Replaces the published keys by those a checkpoint stored; refuses,
    /// and changes nothing, when one of them is not 64 hexadecimal digits.
    pub fn restore_publication_keys(&mut self, keys: Vec<String>) -> (r: Result<(), EtlError>)
        ensures
            (exists|i: int| 0 <= i < keys@.len() && !publication_key_ok(#[trigger] keys@[i]@)) ==> {
                &&& r == Err::<(), EtlError>(EtlError::DecoderCheckpointMismatch)
                &&& final(self).published() == old(self).published()
            },
            (forall|i: int| 0 <= i < keys@.len() ==> publication_key_ok(#[trigger] keys@[i]@)) ==> {
                &&& r is Ok
                &&& final(self).published() == listed_keys(keys@, keys@.len() as int)
            },
            final(self).last_marker() == old(self).last_marker(),
            final(self).last_digest() == old(self).last_digest(),
            final(self).lineage() == old(self).lineage(),
    {
        proof { use_type_invariant(&*self); }
        let mut i: usize = 0;
        while i < keys.len()
            invariant
                i <= keys@.len(),
                forall|k: int| 0 <= k < i ==> publication_key_ok(#[trigger] keys@[k]@),
            decreases keys.len() - i,
        {
            if !publication_key_valid(keys[i].as_str()) {
                return Err(EtlError::DecoderCheckpointMismatch);
            }
            i = i + 1;
        }
        let mut set: Vec<String> = Vec::new();
        let mut j: usize = 0;
        proof {
            assert(key_set(set@) =~= listed_keys(keys@, 0));
        }
        while j < keys.len()
            invariant
                j <= keys@.len(),
                keys_sorted(set@),
                key_set(set@) == listed_keys(keys@, j as int),
            decreases keys.len() - j,
        {
            insert_key(&mut set, keys[j].as_str());
            proof {
                assert(listed_keys(keys@, j + 1) =~= listed_keys(keys@, j as int).insert(keys@[j as int]@));
            }
            j = j + 1;
        }
        self.emitted_operation_keys = set;
        Ok(())
    }

    /// Replaces the recorded segment lineage.
    pub fn restore_segment_lineage(&mut self, lineage: Vec<SegmentLineage>)
        ensures
            final(self).lineage() == lineage@,
            final(self).last_marker() == old(self).last_marker(),
            final(self).last_digest() == old(self).last_digest(),
            final(self).published() == old(self).published(),
    {
        proof { use_type_invariant(&*self); }
        self.segment_lineage = lineage;
    }

    pub fn segment_lineage(&self) -> (l: &[SegmentLineage])
        ensures
            l@ == self.lineage(),
    {
        self.segment_lineage.as_slice()
    }

    /// Resumes after a marker whose digest is not known.
    pub fn restore_marker_sequence(&mut self, marker_sequence: u64)
        ensures
            final(self).last_marker() == Some(marker_sequence),
            final(self).last_digest() is None,
            final(self).lineage() == old(self).lineage(),
            final(self).published() == old(self).published(),
    {
        proof { use_type_invariant(&*self); }
        self.last_marker_sequence = Some(marker_sequence);
        self.last_marker_digest = None;
    }

    /// Forgets every admitted snapshot, published key and reconstructed
    /// connection.
    pub fn clear_marker_sequence(&mut self)
        ensures
            final(self).assembler_state().active.len() == 0,
            final(self).assembler_state().finalized.len() == 0,
            final(self).reconstruction().issues.len() == 0,
            final(self).last_marker() is None,
            final(self).last_digest() is None,
            final(self).lineage().len() == 0,
            final(self).published() == Set::<Seq<char>>::empty(),
    {
        proof { use_type_invariant(&*self); }
        self.last_marker_sequence = None;
        self.last_marker_digest = None;
        self.segment_lineage = Vec::new();
        self.emitted_operation_keys = Vec::new();
        self.assembler = ReconstructionAssembler::new(self.limits);
        self.evidence = empty_evidence();
        self.issues = Vec::new();
        proof {
            assert(key_set(self.emitted_operation_keys@) =~= Set::<Seq<char>>::empty());
        }
    }

    /// A copy of the whole state.
    pub fn state_snapshot(&self) -> (s: IncrementalProcessorState)
        ensures
            s.last_marker() == self.last_marker(),
            s.last_digest() == self.last_digest(),
            same_lineage(s.lineage(), self.lineage()),
            s.published() == self.published(),
            s.assembler_state() == self.reconstruction().assembler,
            s.issues_state() == self.reconstruction().issues,
    {
        proof { use_type_invariant(self); }
        IncrementalProcessorState {
            pipeline: EtlPipeline::with_max_issues(self.pipeline.limits(), self.pipeline.max_issues()),
            limits: self.limits,
            assembler: self.assembler.duplicate(),
            evidence: copy_evidence(&self.evidence),
            issues: copy_issues(&self.issues),
            last_marker_sequence: self.last_marker_sequence,
            last_marker_digest: copy_opt_string(&self.last_marker_digest),
            segment_lineage: copy_lineage(self.segment_lineage.as_slice()),
            emitted_operation_keys: copy_keys(&self.emitted_operation_keys),
        }
    }

    /// Puts back a state taken earlier.
    pub fn restore_state(&mut self, state: IncrementalProcessorState)
        ensures
            final(self).last_marker() == state.last_marker(),
            final(self).last_digest() == state.last_digest(),
            final(self).lineage() == state.lineage(),
            final(self).published() == state.published(),
            final(self).reconstruction().assembler == state.assembler_state(),
            final(self).reconstruction().issues == state.issues_state(),
    {
        proof { use_type_invariant(&*self); }
        proof { use_type_invariant(&state); }
        let IncrementalProcessorState {
            pipeline, limits, assembler, evidence, issues, last_marker_sequence, last_marker_digest, segment_lineage,
            emitted_operation_keys,
        } = state;
        *self = IncrementalProcessor {
            pipeline,
            limits,
            assembler,
            evidence,
            issues,
            last_marker_sequence,
            last_marker_digest,
            segment_lineage,
            emitted_operation_keys,
        };
    }
}

/// Markers never regress: a snapshot is admitted only at or after the last
/// admitted marker.
pub proof fn lemma_marker_never_regresses(
    last: u64,
    last_digest: Option<Seq<char>>,
    lineage: Seq<SegmentLineage>,
    marker: u64,
    digest_hex: Seq<char>,
    envs: Seq<EnvelopePosition>,
    segs: Seq<CommittedSegment>,
)
    requires
        admission(Some(last), last_digest, lineage, marker, digest_hex, envs, segs) is Ok,
    ensures
        marker >= last,
{
}

/// The same marker is admitted again only with the same digest.
pub proof fn lemma_same_marker_same_digest(
    last: u64,
    last_digest: Option<Seq<char>>,
    lineage: Seq<SegmentLineage>,
    digest_hex: Seq<char>,
    envs: Seq<EnvelopePosition>,
    segs: Seq<CommittedSegment>,
)
    requires
        admission(Some(last), last_digest, lineage, last, digest_hex, envs, segs) is Ok,
    ensures
        last_digest == Some(digest_hex),
{
}

/// Once a batch has finished an operation, its key is published: no later
/// batch gives that key an identifier again, whatever it adds.
pub proof fn lemma_key_published_once(published: Set<Seq<char>>, keys: Seq<Seq<Seq<char>>>, c: int, j: int, later: Set<Seq<char>>)
    requires
        0 <= c < keys.len(),
        0 <= j < keys[c].len(),
    ensures
        publication_id(published + keys_before(keys, keys.len() as int) + later, keys[c][j]) is None,
{
    assert(keys_before(keys, keys.len() as int).contains(keys[c][j]));
}


/// A saved decoder state belongs to the given session, recording, epoch
/// and marker, in the current format, and records its own size.
pub open spec fn decoder_state_matches(
    d: DecoderReconstructionState,
    session_id: u128,
    recording_id: u128,
    epoch_ordinal: u64,
    marker_sequence: u64,
    marker_digest: Seq<char>,
) -> bool {
    &&& d.kind@ == decoder_kind_spec()
    &&& d.implementation_version == DECODER_IMPLEMENTATION_VERSION
    &&& d.snapshot_version == DECODER_SNAPSHOT_VERSION
    &&& d.session_id == session_id
    &&& d.recording_id == recording_id
    &&& d.epoch_ordinal == epoch_ordinal
    &&& d.marker_sequence == marker_sequence
    &&& d.marker_digest@ == marker_digest
    &&& d.serialized_bytes == d.state@.len()
}

impl IncrementalProcessor {
    /// The decoder state to checkpoint at a marker, for reconstruction bytes
    /// `state` that hold `pending_connection_count` open connections.
    pub fn decoder_state(
        &self,
        session_id: u128,
        recording_id: u128,
        epoch_ordinal: u64,
        marker_sequence: u64,
        marker_digest: String,
        state: Vec<u8>,
        pending_connection_count: usize,
    ) -> (d: DecoderReconstructionState)
        ensures
            decoder_state_matches(d, session_id, recording_id, epoch_ordinal, marker_sequence, marker_digest@),
            d.state@ == state@,
            d.pending_connection_count == pending_connection_count,
    {
        let serialized_bytes = state.len();
        DecoderReconstructionState {
            kind: str_copy(decoder_kind()),
            implementation_version: DECODER_IMPLEMENTATION_VERSION,
            snapshot_version: DECODER_SNAPSHOT_VERSION,
            session_id,
            recording_id,
            epoch_ordinal,
            marker_sequence,
            marker_digest,
            state,
            pending_connection_count,
            serialized_bytes,
        }
    }

    /// Resumes the cursor from a checkpointed decoder state, which must
    /// belong to this session, recording, epoch and marker; otherwise
    /// refuses and changes nothing. The reconstruction bytes themselves,
    /// `decoder.state`, go to the assembler.
    pub fn restore_decoder_state(
        &mut self,
        decoder: &DecoderReconstructionState,
        session_id: u128,
        recording_id: u128,
        epoch_ordinal: u64,
        marker_sequence: u64,
        marker_digest: &str,
    ) -> (r: Result<(), EtlError>)
        ensures
            !decoder_state_matches(*decoder, session_id, recording_id, epoch_ordinal, marker_sequence, marker_digest@) ==> {
                &&& r == Err::<(), EtlError>(EtlError::DecoderCheckpointMismatch)
                &&& final(self).last_marker() == old(self).last_marker()
                &&& final(self).last_digest() == old(self).last_digest()
            },
            decoder_state_matches(*decoder, session_id, recording_id, epoch_ordinal, marker_sequence, marker_digest@) ==> {
                &&& r is Ok
                &&& final(self).last_marker() == Some(marker_sequence)
                &&& final(self).last_digest() == Some(marker_digest@)
            },
            final(self).lineage() == old(self).lineage(),
            final(self).published() == old(self).published(),
    {
        proof { use_type_invariant(&*self); }
        if !str_eq(decoder.kind.as_str(), decoder_kind())
            || decoder.implementation_version != DECODER_IMPLEMENTATION_VERSION
            || decoder.snapshot_version != DECODER_SNAPSHOT_VERSION
            || decoder.session_id != session_id
            || decoder.recording_id != recording_id
            || decoder.epoch_ordinal != epoch_ordinal
            || decoder.marker_sequence != marker_sequence
            || !str_eq(decoder.marker_digest.as_str(), marker_digest)
            || decoder.serialized_bytes != decoder.state.len()
        {
            return Err(EtlError::DecoderCheckpointMismatch);
        }
        self.last_marker_sequence = Some(marker_sequence);
        self.last_marker_digest = Some(str_copy(marker_digest));
        Ok(())
    }
}

} // verus!
