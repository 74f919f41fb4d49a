//! The output-then-checkpoint publication boundary: which checkpoint a
//! restart may trust, and how an interrupted publication is reconciled.
use vstd::prelude::*;
use crate::continuation::{
    DeltaBatchReference, MarkerLineage, SegmentLineage, CheckpointLifecycle, CheckpointOwner, SourceStatus,
};
use crate::recording_store::{
    key_is_safe, PutIfAbsent, RecordingArtifact, RecordingArtifactHead, RecordingArtifactKind, RecordingStore, RecordingStoreError,
    MAX_ARTIFACT_BYTES, RECORDING_STORE_SCHEMA_VERSION,
};
use crate::canonical::{strs_view, CanonicalSession};
use crate::bytes::bytes_equal;
use crate::digest::digest_spec;
use crate::etl::{issue_kind_name, EtlIssue};
use crate::storage::PublishSession;
use crate::text::{str_copy, str_eq};

verus! {

#[derive(Clone, Copy, Debug, PartialEq, Eq, Structural)]
pub enum ReconcileOutcome {
    AlreadyConsistent,
    AdoptedOutput,
    RepairedCheckpoint,
}

#[derive(Clone, Copy, Debug, PartialEq, Eq, Structural)]
pub enum CheckpointFault {
    BeforeCheckpoint,
    AfterCheckpoint,
}

#[derive(Clone, Copy, Debug, PartialEq, Eq, Structural)]
pub enum CheckpointError {
    Io,
    Parse,
    Invalid,
    Serialization,
}

#[derive(Clone, Copy, Debug, PartialEq, Eq, Structural)]
pub enum DeltaBatchError {
    Invalid,
    Unordered,
    ChecksumMismatch,
    Parse,
    Serialization,
}

#[derive(Clone, Debug, PartialEq, Eq)]
pub enum PublicationError {
    Delta(DeltaBatchError),
    Store(RecordingStoreError),
    Checkpoint(CheckpointError),
    Verification,
    OutputLineage,
    FinalSession(String),
    InjectedFault,
}

pub const DECODER_SNAPSHOT_VERSION: u32 = 1;
pub const DECODER_IMPLEMENTATION_VERSION: u32 = 1;

/// The kind a reconstruction decoder state carries.
pub fn decoder_kind() -> (k: &'static str)
    ensures
        k@ == decoder_kind_spec(),
{
    "chronicle-reconstruction"
}

pub closed spec fn decoder_kind_spec() -> Seq<char> {
    "chronicle-reconstruction"@
}

/// The decoder state a checkpoint carries.
#[derive(Clone, Debug, PartialEq, Eq)]
pub struct DecoderReconstructionState {
    pub kind: String,
    pub implementation_version: u32,
    pub snapshot_version: u32,
    pub session_id: u128,
    pub recording_id: u128,
    pub epoch_ordinal: u64,
    pub marker_sequence: u64,
    pub marker_digest: String,
    pub state: Vec<u8>,
    pub pending_connection_count: usize,
    pub serialized_bytes: usize,
}

/// A recording-local incremental ETL checkpoint.
#[derive(Clone, Debug, PartialEq, Eq)]
pub struct IncrementalEtlCheckpointV1 {
    pub version: u16,
    pub owner: CheckpointOwner,
    pub lifecycle: CheckpointLifecycle,
    pub recording_id: u128,
    pub epoch_ordinal: u64,
    pub config_digest: String,
    pub pipeline_version: String,
    pub canonical_schema_version: u16,
    pub marker: MarkerLineage,
    pub segment_lineage: Vec<SegmentLineage>,
    pub predecessor_digest: Option<String>,
    pub decoder: DecoderReconstructionState,
    pub outputs: Vec<DeltaBatchReference>,
    pub published_operation_keys: Vec<String>,
    pub source_status: SourceStatus,
    pub checksum: String,
}

pub struct ReferenceView {
    pub key: Seq<char>,
    pub digest: Seq<char>,
    pub first_marker_sequence: u64,
    pub last_marker_sequence: u64,
    pub bytes: u64,
}

pub open spec fn reference_view(r: DeltaBatchReference) -> ReferenceView {
    ReferenceView {
        key: r.key@,
        digest: r.digest@,
        first_marker_sequence: r.first_marker_sequence,
        last_marker_sequence: r.last_marker_sequence,
        bytes: r.bytes,
    }
}

pub open spec fn references_view(rs: Seq<DeltaBatchReference>) -> Seq<ReferenceView> {
    rs.map_values(|r: DeltaBatchReference| reference_view(r))
}

/// What a restart does with a pending checkpoint.
#[derive(Clone, Copy, Debug, PartialEq, Eq, Structural)]
pub enum RecoveryStep {
    /// The interrupted publication did not complete: discard the pending
    /// checkpoint and let the retry reprocess.
    DiscardPending,
    /// Every output is durable: make the pending checkpoint the checkpoint
    /// (unless it already is) and discard the pending copy.
    Install(ReconcileOutcome),
}

/// What a store lookup says of one referenced output: durable and
/// matching, absent, or evidence that fails the publication.
pub open spec fn head_presence(h: Result<RecordingArtifactHead, RecordingStoreError>, o: DeltaBatchReference) -> Result<bool, PublicationError> {
    match h {
        Ok(head) => if head.kind == RecordingArtifactKind::CanonicalDeltaBatch && head.checksum@ == o.digest@ && head.bytes == o.bytes {
            Ok(true)
        } else {
            Err(PublicationError::Verification)
        },
        Err(RecordingStoreError::NotFound) => Ok(false),
        Err(e) => Err(PublicationError::Store(e)),
    }
}

/// Looks the outputs up in order from `i`: how many are durable, or the
/// first failure. An output the durable checkpoint already references must
/// still be there.
pub open spec fn scan_outputs(
    outputs: Seq<DeltaBatchReference>,
    heads: Seq<Result<RecordingArtifactHead, RecordingStoreError>>,
    existing_len: int,
    i: int,
) -> Result<nat, PublicationError>
    decreases outputs.len() - i,
{
    if i < 0 || i >= outputs.len() {
        Ok(0)
    } else {
        match head_presence(heads[i], outputs[i]) {
            Err(e) => Err(e),
            Ok(present) => if i < existing_len && !present {
                Err(PublicationError::OutputLineage)
            } else {
                match scan_outputs(outputs, heads, existing_len, i + 1) {
                    Err(e) => Err(e),
                    Ok(n) => Ok(n + if present { 1nat } else { 0nat }),
                }
            },
        }
    }
}

/// The pending checkpoint extends the durable one: it keeps the durable
/// outputs as its prefix and names the durable checksum as predecessor.
pub open spec fn extends_durable(candidate: IncrementalEtlCheckpointV1, existing: Option<IncrementalEtlCheckpointV1>) -> bool {
    match existing {
        None => true,
        Some(e) => e.outputs@.len() <= candidate.outputs@.len()
            && opt_view(candidate.predecessor_digest) == Some(e.checksum@)
            && references_view(candidate.outputs@.subrange(0, e.outputs@.len() as int)) == references_view(e.outputs@),
    }
}

/// When every output from `i` on is durable and matching, the scan counts
/// them all.
proof fn lemma_scan_all_present(
    outputs: Seq<DeltaBatchReference>,
    heads: Seq<Result<RecordingArtifactHead, RecordingStoreError>>,
    existing_len: int,
    i: int,
)
    requires
        0 <= i <= outputs.len(),
        heads.len() == outputs.len(),
        forall|j: int| i <= j < outputs.len() ==> #[trigger] head_presence(heads[j], outputs[j]) == Ok::<bool, PublicationError>(true),
    ensures
        scan_outputs(outputs, heads, existing_len, i) == Ok::<nat, PublicationError>((outputs.len() - i) as nat),
    decreases outputs.len() - i,
{
    if i < outputs.len() {
        assert(head_presence(heads[i], outputs[i]) == Ok::<bool, PublicationError>(true));
        lemma_scan_all_present(outputs, heads, existing_len, i + 1);
    }
}

/// When every output from `i` on is durable or absent, and those the
/// durable checkpoint references are durable, the scan succeeds with at
/// most one count per output, and with fewer when one is absent.
proof fn lemma_scan_counts(
    outputs: Seq<DeltaBatchReference>,
    heads: Seq<Result<RecordingArtifactHead, RecordingStoreError>>,
    existing_len: int,
    i: int,
)
    requires
        0 <= i <= outputs.len(),
        heads.len() == outputs.len(),
        forall|j: int| i <= j < outputs.len() ==> #[trigger] head_presence(heads[j], outputs[j]) is Ok,
        forall|j: int| i <= j < outputs.len() && j < existing_len ==> #[trigger] head_presence(heads[j], outputs[j]) == Ok::<bool, PublicationError>(true),
    ensures
        scan_outputs(outputs, heads, existing_len, i) is Ok,
        scan_outputs(outputs, heads, existing_len, i)->Ok_0 <= outputs.len() - i,
        (exists|j: int| i <= j < outputs.len() && #[trigger] head_presence(heads[j], outputs[j]) == Ok::<bool, PublicationError>(false))
            ==> scan_outputs(outputs, heads, existing_len, i)->Ok_0 < outputs.len() - i,
    decreases outputs.len() - i,
{
    if i < outputs.len() {
        assert(head_presence(heads[i], outputs[i]) is Ok);
        lemma_scan_counts(outputs, heads, existing_len, i + 1);
        if exists|j: int| i <= j < outputs.len() && #[trigger] head_presence(heads[j], outputs[j]) == Ok::<bool, PublicationError>(false) {
            let j = choose|j: int| i <= j < outputs.len() && #[trigger] head_presence(heads[j], outputs[j]) == Ok::<bool, PublicationError>(false);
            if j > i {
                assert(head_presence(heads[j], outputs[j]) == Ok::<bool, PublicationError>(false));
            }
        }
    }
}

/// Recovery installs a pending checkpoint that extends the durable one when
/// the store holds every one of its outputs, matching.
pub proof fn lemma_recovery_installs_when_all_durable(
    candidate: IncrementalEtlCheckpointV1,
    existing: Option<IncrementalEtlCheckpointV1>,
    heads: Seq<Result<RecordingArtifactHead, RecordingStoreError>>,
    same_encoding: bool,
)
    requires
        heads.len() == candidate.outputs@.len(),
        extends_durable(candidate, existing),
        forall|j: int| 0 <= j < heads.len() ==> #[trigger] head_presence(heads[j], candidate.outputs@[j]) == Ok::<bool, PublicationError>(true),
    ensures
        recovery(candidate, existing, heads, same_encoding) matches Ok(RecoveryStep::Install(_)),
{
    let el: int = match existing { Some(e) => e.outputs@.len() as int, None => 0 };
    lemma_scan_all_present(candidate.outputs@, heads, el, 0);
}

/// Recovery discards a pending checkpoint that extends the durable one when
/// the store lacks one of its new outputs, every other answer being a
/// durable match and every output the durable checkpoint references being
/// there.
pub proof fn lemma_recovery_discards_when_output_missing(
    candidate: IncrementalEtlCheckpointV1,
    existing: Option<IncrementalEtlCheckpointV1>,
    heads: Seq<Result<RecordingArtifactHead, RecordingStoreError>>,
    same_encoding: bool,
    missing: int,
)
    requires
        heads.len() == candidate.outputs@.len(),
        extends_durable(candidate, existing),
        0 <= missing < heads.len(),
        heads[missing] == Err::<RecordingArtifactHead, RecordingStoreError>(RecordingStoreError::NotFound),
        existing matches Some(e) ==> e.outputs@.len() <= missing,
        forall|j: int| 0 <= j < heads.len() && j != missing
            ==> #[trigger] head_presence(heads[j], candidate.outputs@[j]) == Ok::<bool, PublicationError>(true),
    ensures
        recovery(candidate, existing, heads, same_encoding) == Ok::<RecoveryStep, PublicationError>(RecoveryStep::DiscardPending),
{
    let el: int = match existing { Some(e) => e.outputs@.len() as int, None => 0 };
    assert(head_presence(heads[missing], candidate.outputs@[missing]) == Ok::<bool, PublicationError>(false));
    assert forall|j: int| 0 <= j < candidate.outputs@.len() implies #[trigger] head_presence(heads[j], candidate.outputs@[j]) is Ok by {
        if j != missing {
            assert(head_presence(heads[j], candidate.outputs@[j]) == Ok::<bool, PublicationError>(true));
        }
    }
    lemma_scan_counts(candidate.outputs@, heads, el, 0);
}

proof fn lemma_scan_stops_at(
    outputs: Seq<DeltaBatchReference>,
    heads: Seq<Result<RecordingArtifactHead, RecordingStoreError>>,
    existing_len: int,
    i: int,
    k: int,
    e: PublicationError,
)
    requires
        0 <= i <= k < outputs.len(),
        heads.len() == outputs.len(),
        forall|j: int| i <= j < k ==> #[trigger] head_presence(heads[j], outputs[j]) == Ok::<bool, PublicationError>(true),
        head_presence(heads[k], outputs[k]) == Err::<bool, PublicationError>(e),
    ensures
        scan_outputs(outputs, heads, existing_len, i) == Err::<nat, PublicationError>(e),
    decreases k - i,
{
    if i < k {
        assert(head_presence(heads[i], outputs[i]) == Ok::<bool, PublicationError>(true));
        lemma_scan_stops_at(outputs, heads, existing_len, i + 1, k, e);
    }
}

/// Recovery looks the outputs up in order: when every output before `k` is
/// durable and matching and the store's answer for output `k` fails the
/// publication, recovery fails with that output's error, whatever the
/// later answers.
pub proof fn lemma_recovery_fails_at_first_bad_output(
    candidate: IncrementalEtlCheckpointV1,
    existing: Option<IncrementalEtlCheckpointV1>,
    heads: Seq<Result<RecordingArtifactHead, RecordingStoreError>>,
    same_encoding: bool,
    k: int,
    e: PublicationError,
)
    requires
        heads.len() == candidate.outputs@.len(),
        extends_durable(candidate, existing),
        0 <= k < heads.len(),
        forall|j: int| 0 <= j < k ==> #[trigger] head_presence(heads[j], candidate.outputs@[j]) == Ok::<bool, PublicationError>(true),
        head_presence(heads[k], candidate.outputs@[k]) == Err::<bool, PublicationError>(e),
    ensures
        recovery(candidate, existing, heads, same_encoding) == Err::<RecoveryStep, PublicationError>(e),
{
    let el: int = match existing { Some(x) => x.outputs@.len() as int, None => 0 };
    lemma_scan_stops_at(candidate.outputs@, heads, el, 0, k, e);
}

pub open spec fn opt_view(o: Option<String>) -> Option<Seq<char>> {
    match o {
        Some(s) => Some(s@),
        None => None,
    }
}

/// Recovery of a pending checkpoint `candidate` beside the durable
/// checkpoint `existing`, given the store's answer for each candidate
/// output: the candidate must extend the durable checkpoint (same output
/// prefix, and the durable checksum as predecessor); then it is installed
/// when all its outputs are durable, and discarded when some are not.
/// `same_encoding` says the two checkpoints encode identically.
pub open spec fn recovery(
    candidate: IncrementalEtlCheckpointV1,
    existing: Option<IncrementalEtlCheckpointV1>,
    heads: Seq<Result<RecordingArtifactHead, RecordingStoreError>>,
    same_encoding: bool,
) -> Result<RecoveryStep, PublicationError> {
    let existing_len: int = match existing {
        Some(e) => e.outputs@.len() as int,
        None => 0,
    };
    if candidate.outputs@.len() < existing_len
        || (existing matches Some(e) && (opt_view(candidate.predecessor_digest) != Some(e.checksum@)
            || references_view(candidate.outputs@.subrange(0, existing_len)) != references_view(e.outputs@))) {
        Err(PublicationError::OutputLineage)
    } else {
        match scan_outputs(candidate.outputs@, heads, existing_len, 0) {
            Err(e) => Err(e),
            Ok(n) => if n != candidate.outputs@.len() {
                Ok(RecoveryStep::DiscardPending)
            } else {
                Ok(RecoveryStep::Install(match existing {
                    Some(_) => if same_encoding { ReconcileOutcome::AlreadyConsistent } else { ReconcileOutcome::AdoptedOutput },
                    None => ReconcileOutcome::RepairedCheckpoint,
                }))
            },
        }
    }
}

fn same_reference(a: &DeltaBatchReference, b: &DeltaBatchReference) -> (r: bool)
    ensures
        r == (reference_view(*a) == reference_view(*b)),
{
    str_eq(a.key.as_str(), b.key.as_str()) && str_eq(a.digest.as_str(), b.digest.as_str())
        && a.first_marker_sequence == b.first_marker_sequence && a.last_marker_sequence == b.last_marker_sequence
        && a.bytes == b.bytes
}

fn same_prefix(candidate: &Vec<DeltaBatchReference>, existing: &Vec<DeltaBatchReference>) -> (r: bool)
    requires
        existing@.len() <= candidate@.len(),
    ensures
        r == (references_view(candidate@.subrange(0, existing@.len() as int)) == references_view(existing@)),
{
    let ghost c = references_view(candidate@.subrange(0, existing@.len() as int));
    let ghost e = references_view(existing@);
    let mut i: usize = 0;
    while i < existing.len()
        invariant
            existing@.len() <= candidate@.len(),
            c == references_view(candidate@.subrange(0, existing@.len() as int)),
            e == references_view(existing@),
            i <= existing@.len(),
            forall|k: int| 0 <= k < i ==> c[k] == e[k],
        decreases existing.len() - i,
    {
        proof {
            assert(c[i as int] == reference_view(candidate@[i as int]));
            assert(e[i as int] == reference_view(existing@[i as int]));
        }
        if !same_reference(&candidate[i], &existing[i]) {
            return false;
        }
        i = i + 1;
    }
    proof { assert(c =~= e); }
    true
}

pub open spec fn opt_checkpoint(o: Option<&IncrementalEtlCheckpointV1>) -> Option<IncrementalEtlCheckpointV1> {
    match o {
        Some(e) => Some(*e),
        None => None,
    }
}

/// Decides the recovery of a pending checkpoint from the store's answers
/// for its outputs, in order.
#[verifier::loop_isolation(false)]
pub fn recovery_plan(
    candidate: &IncrementalEtlCheckpointV1,
    existing: Option<&IncrementalEtlCheckpointV1>,
    heads: Vec<Result<RecordingArtifactHead, RecordingStoreError>>,
    same_encoding: bool,
) -> (r: Result<RecoveryStep, PublicationError>)
    requires
        heads@.len() == candidate.outputs@.len(),
    ensures
        r == recovery(*candidate, opt_checkpoint(existing), heads@, same_encoding),
{
    let ghost hs = heads@;
    let ghost ex = opt_checkpoint(existing);
    let existing_len: usize = match existing {
        Some(e) => e.outputs.len(),
        None => 0,
    };
    if candidate.outputs.len() < existing_len {
        return Err(PublicationError::OutputLineage);
    }
    match existing {
        Some(e) => {
            let linked = match &candidate.predecessor_digest {
                Some(d) => str_eq(d.as_str(), e.checksum.as_str()),
                None => false,
            };
            if !linked || !same_prefix(&candidate.outputs, &e.outputs) {
                return Err(PublicationError::OutputLineage);
            }
        },
        None => {},
    }
    let mut heads = heads;
    let n = candidate.outputs.len();
    let mut present: usize = 0;
    let mut i: usize = 0;
    while i < n
        invariant
            n == candidate.outputs@.len(),
            heads@ == hs,
            hs.len() == n,
            i <= n,
            present <= i,
            existing_len as int == match ex { Some(e) => e.outputs@.len() as int, None => 0int },
            scan_outputs(candidate.outputs@, hs, existing_len as int, 0) == match scan_outputs(candidate.outputs@, hs, existing_len as int, i as int) {
                Err(e) => Err(e),
                Ok(k) => Ok::<nat, PublicationError>(k + present as nat),
            },
        decreases n - i,
    {
        let output = &candidate.outputs[i];
        let found = match &heads[i] {
            Ok(head) => {
                if head.kind == RecordingArtifactKind::CanonicalDeltaBatch && str_eq(head.checksum.as_str(), output.digest.as_str())
                    && head.bytes == output.bytes {
                    true
                } else {
                    proof {
                        assert(head_presence(hs[i as int], candidate.outputs@[i as int]) == Err::<bool, PublicationError>(PublicationError::Verification));
                        assert(scan_outputs(candidate.outputs@, hs, existing_len as int, i as int) == Err::<nat, PublicationError>(PublicationError::Verification));
                    }
                    return Err(PublicationError::Verification);
                }
            },
            Err(RecordingStoreError::NotFound) => false,
            Err(_) => {
                let taken = heads.remove(i);
                proof { assert(taken == hs[i as int]); }
                return match taken {
                    Err(e) => {
                        proof {
                            assert(scan_outputs(candidate.outputs@, hs, existing_len as int, i as int) == Err::<nat, PublicationError>(PublicationError::Store(e)));
                        }
                        Err(PublicationError::Store(e))
                    },
                    Ok(_) => Err(PublicationError::Verification),
                };
            },
        };
        if i < existing_len && !found {
            return Err(PublicationError::OutputLineage);
        }
        if found {
            present = present + 1;
        }
        i = i + 1;
    }
    if present != n {
        return Ok(RecoveryStep::DiscardPending);
    }
    match existing {
        Some(_) => if same_encoding {
            Ok(RecoveryStep::Install(ReconcileOutcome::AlreadyConsistent))
        } else {
            Ok(RecoveryStep::Install(ReconcileOutcome::AdoptedOutput))
        },
        None => Ok(RecoveryStep::Install(ReconcileOutcome::RepairedCheckpoint)),
    }
}

/// Asks the store for each output's head, in order.
fn output_heads<S: RecordingStore>(store: &S, outputs: &Vec<DeltaBatchReference>) -> (hs: Vec<Result<RecordingArtifactHead, RecordingStoreError>>)
    ensures
        hs@.len() == outputs@.len(),
        forall|i: int| 0 <= i < outputs@.len() ==> store.head_answer(outputs@[i].key@, #[trigger] hs@[i]),
{
    let mut hs: Vec<Result<RecordingArtifactHead, RecordingStoreError>> = Vec::new();
    let mut i: usize = 0;
    while i < outputs.len()
        invariant
            i <= outputs@.len(),
            hs@.len() == i,
            forall|j: int| 0 <= j < i ==> store.head_answer(outputs@[j].key@, #[trigger] hs@[j]),
        decreases outputs.len() - i,
    {
        hs.push(store.head(outputs[i].key.as_str()));
        i = i + 1;
    }
    hs
}

/// Recovers a pending checkpoint against `store`: the store is asked for
/// the head of each candidate output, in order, and the step is `recovery`
/// of those answers.
pub fn recover_pending_checkpoint<S: RecordingStore>(
    store: &S,
    candidate: &IncrementalEtlCheckpointV1,
    existing: Option<&IncrementalEtlCheckpointV1>,
    same_encoding: bool,
) -> (r: Result<RecoveryStep, PublicationError>)
    ensures
        exists|hs: Seq<Result<RecordingArtifactHead, RecordingStoreError>>|
            hs.len() == candidate.outputs@.len()
            && (forall|i: int| 0 <= i < hs.len() ==> store.head_answer(candidate.outputs@[i].key@, #[trigger] hs[i]))
            && r == #[trigger] recovery(*candidate, opt_checkpoint(existing), hs, same_encoding),
{
    let heads = output_heads(store, &candidate.outputs);
    let ghost hs = heads@;
    let r = recovery_plan(candidate, existing, heads, same_encoding);
    assert(hs.len() == candidate.outputs@.len()
        && (forall|i: int| 0 <= i < hs.len() ==> store.head_answer(candidate.outputs@[i].key@, #[trigger] hs[i]))
        && r == recovery(*candidate, opt_checkpoint(existing), hs, same_encoding));
    r
}

/// The file name of the pending checkpoint beside a checkpoint file named
/// `name` (`checkpoint.json` when the path has no usable name).
pub open spec fn pending_name_spec(name: Option<Seq<char>>) -> Seq<char> {
    "."@ + match name { Some(n) => n, None => "checkpoint.json"@ } + ".pending"@
}

pub fn pending_checkpoint_name(name: Option<&str>) -> (r: String)
    ensures
        r@ == pending_name_spec(match name { Some(n) => Some(n@), None => None }),
{
    let mut s = crate::text::str_copy(".");
    match name {
        Some(n) => s.append(n),
        None => s.append("checkpoint.json"),
    }
    s.append(".pending");
    s
}

/// What reconciling one published delta with its checkpoint does.
#[derive(Clone, Copy, Debug, PartialEq, Eq, Structural)]
pub enum ReconcileStep {
    /// The durable checkpoint already is this one.
    Consistent,
    /// No durable checkpoint: write this one.
    WriteCheckpoint,
}

/// Reconciliation of the delta at `key` with `checkpoint`: the store's head
/// for the key, the checkpoint's reference to it, and the durable
/// checkpoint as read (`Ok(same)` when it exists, `same` saying it encodes
/// like `checkpoint`).
pub open spec fn reconciliation(
    head: Result<RecordingArtifactHead, RecordingStoreError>,
    key: Seq<char>,
    outputs: Seq<DeltaBatchReference>,
    durable: Result<bool, CheckpointError>,
) -> Result<ReconcileStep, PublicationError> {
    match head {
        Err(e) => Err(PublicationError::Store(e)),
        Ok(h) => if !(exists|i: int| 0 <= i < outputs.len() && #[trigger] outputs[i].key@ == key) {
            Err(PublicationError::OutputLineage)
        } else {
            let i = choose|i: int| 0 <= i < outputs.len() && #[trigger] outputs[i].key@ == key
                && forall|j: int| 0 <= j < i ==> outputs[j].key@ != key;
            if h.checksum@ != outputs[i].digest@ {
                Err(PublicationError::Verification)
            } else {
                match durable {
                    Ok(true) => Ok(ReconcileStep::Consistent),
                    Ok(false) => Err(PublicationError::OutputLineage),
                    Err(CheckpointError::Io) => Ok(ReconcileStep::WriteCheckpoint),
                    Err(e) => Err(PublicationError::Checkpoint(e)),
                }
            }
        },
    }
}

/// Reconciles the delta published at `key` with `checkpoint` against
/// `store`: the store is asked for the key's head, and the step is
/// `reconciliation` of that answer with the durable checkpoint as read
/// (`durable`).
pub fn reconcile_delta<S: RecordingStore>(
    store: &S,
    key: &str,
    checkpoint: &IncrementalEtlCheckpointV1,
    durable: Result<bool, CheckpointError>,
) -> (r: Result<ReconcileStep, PublicationError>)
    ensures
        exists|h: Result<RecordingArtifactHead, RecordingStoreError>|
            store.head_answer(key@, h) && r == #[trigger] reconciliation(h, key@, checkpoint.outputs@, durable),
{
    let head = store.head(key);
    let ghost h = head;
    let r = reconcile_delta_checkpoint(head, key, checkpoint, durable);
    assert(store.head_answer(key@, h) && r == reconciliation(h, key@, checkpoint.outputs@, durable));
    r
}

#[verifier::loop_isolation(false)]
pub fn reconcile_delta_checkpoint(
    head: Result<RecordingArtifactHead, RecordingStoreError>,
    key: &str,
    checkpoint: &IncrementalEtlCheckpointV1,
    durable: Result<bool, CheckpointError>,
) -> (r: Result<ReconcileStep, PublicationError>)
    ensures
        r == reconciliation(head, key@, checkpoint.outputs@, durable),
{
    let h = match head {
        Err(e) => return Err(PublicationError::Store(e)),
        Ok(h) => h,
    };
    let outputs = &checkpoint.outputs;
    let mut i: usize = 0;
    while i < outputs.len()
        invariant
            i <= outputs@.len(),
            forall|j: int| 0 <= j < i ==> outputs@[j].key@ != key@,
        decreases outputs.len() - i,
    {
        if str_eq(outputs[i].key.as_str(), key) {
            proof {
                let k = choose|k: int| 0 <= k < outputs@.len() && #[trigger] outputs@[k].key@ == key@
                    && forall|j: int| 0 <= j < k ==> outputs@[j].key@ != key@;
                assert(outputs@[i as int].key@ == key@);
                if k < i { } else if k > i { assert(outputs@[i as int].key@ != key@); }
                assert(k == i);
            }
            if !str_eq(h.checksum.as_str(), outputs[i].digest.as_str()) {
                return Err(PublicationError::Verification);
            }
            return match durable {
                Ok(true) => Ok(ReconcileStep::Consistent),
                Ok(false) => Err(PublicationError::OutputLineage),
                Err(CheckpointError::Io) => Ok(ReconcileStep::WriteCheckpoint),
                Err(e) => Err(PublicationError::Checkpoint(e)),
            };
        }
        i = i + 1;
    }
    Err(PublicationError::OutputLineage)
}

/// Whether `outputs` reference the artifact at `key` with checksum `digest`.
pub open spec fn references_output(outputs: Seq<DeltaBatchReference>, key: Seq<char>, digest: Seq<char>) -> bool {
    exists|i: int| 0 <= i < outputs.len() && (#[trigger] outputs[i]).key@ == key && outputs[i].digest@ == digest
}

/// What publishing a delta artifact of `len` bytes with checksum `digest`
/// gives once the put returned `outcome`, from the store's answer to the
/// head lookup: `outcome` when the head describes exactly that artifact.
pub open spec fn delta_published(
    outcome: PutIfAbsent,
    head: Result<RecordingArtifactHead, RecordingStoreError>,
    len: nat,
    digest: Seq<char>,
) -> Result<PutIfAbsent, PublicationError> {
    match head {
        Err(e) => Err(PublicationError::Store(e)),
        Ok(h) => if h.version == RECORDING_STORE_SCHEMA_VERSION && h.kind == RecordingArtifactKind::CanonicalDeltaBatch
            && h.bytes == len && h.checksum@ == digest {
            Ok(outcome)
        } else {
            Err(PublicationError::Verification)
        },
    }
}

/// `r` is what publishing gives after the put answered `put`: the put's
/// error, or what the store's head for `key` then says of the artifact.
pub open spec fn delta_publication<S: RecordingStore>(
    store: S,
    key: Seq<char>,
    put: Result<PutIfAbsent, RecordingStoreError>,
    len: nat,
    digest: Seq<char>,
    r: Result<PutIfAbsent, PublicationError>,
) -> bool {
    match put {
        Err(e) => r == Err::<PutIfAbsent, PublicationError>(PublicationError::Store(e)),
        Ok(outcome) => exists|head: Result<RecordingArtifactHead, RecordingStoreError>|
            store.head_answer(key, head) && r == #[trigger] delta_published(outcome, head, len, digest),
    }
}

fn references_output_exec(outputs: &Vec<DeltaBatchReference>, key: &str, digest: &str) -> (r: bool)
    ensures
        r == references_output(outputs@, key@, digest@),
{
    let mut i: usize = 0;
    while i < outputs.len()
        invariant
            i <= outputs@.len(),
            forall|j: int| 0 <= j < i ==> !((#[trigger] outputs@[j]).key@ == key@ && outputs@[j].digest@ == digest@),
        decreases outputs.len() - i,
    {
        if str_eq(outputs[i].key.as_str(), key) && str_eq(outputs[i].digest.as_str(), digest) {
            return true;
        }
        i = i + 1;
    }
    false
}

/// Publishes the encoded delta batch `encoded` at `key` in `store` as a
/// canonical delta artifact that `checkpoint` must already reference: an
/// unsafe key or an oversized batch is refused, and so is an artifact the
/// checkpoint does not reference, without touching the store; otherwise the
/// artifact is put, and the store's head for the key must then describe
/// exactly it.
pub fn publish_delta<S: RecordingStore>(
    store: &mut S,
    key: &str,
    encoded: Vec<u8>,
    checkpoint: &IncrementalEtlCheckpointV1,
) -> (r: Result<PutIfAbsent, PublicationError>)
    ensures
        !key_is_safe(key@) ==> r == Err::<PutIfAbsent, PublicationError>(PublicationError::Store(RecordingStoreError::UnsafeKey))
            && *final(store) == *old(store),
        key_is_safe(key@) && encoded@.len() > MAX_ARTIFACT_BYTES
            ==> r == Err::<PutIfAbsent, PublicationError>(PublicationError::Store(RecordingStoreError::ArtifactTooLarge))
                && *final(store) == *old(store),
        key_is_safe(key@) && encoded@.len() <= MAX_ARTIFACT_BYTES
            && !references_output(checkpoint.outputs@, key@, digest_spec(encoded@))
            ==> r == Err::<PutIfAbsent, PublicationError>(PublicationError::OutputLineage) && *final(store) == *old(store),
        key_is_safe(key@) && encoded@.len() <= MAX_ARTIFACT_BYTES
            && references_output(checkpoint.outputs@, key@, digest_spec(encoded@))
            ==> exists|put: Result<PutIfAbsent, RecordingStoreError>|
                #[trigger] delta_publication(*final(store), key@, put, encoded@.len(), digest_spec(encoded@), r),
{
    let ghost bytes = encoded@;
    let artifact = match RecordingArtifact::new(key, RecordingArtifactKind::CanonicalDeltaBatch, encoded) {
        Ok(a) => a,
        Err(e) => return Err(PublicationError::Store(e)),
    };
    let checksum = str_copy(artifact.checksum.as_str());
    let version = artifact.version;
    let len = artifact.bytes.len();
    if !references_output_exec(&checkpoint.outputs, key, checksum.as_str()) {
        return Err(PublicationError::OutputLineage);
    }
    let put = store.put_if_absent(artifact);
    let ghost answered = put;
    let outcome = match put {
        Ok(o) => o,
        Err(e) => {
            proof { assert(delta_publication(*store, key@, answered, bytes.len(), digest_spec(bytes), Err(PublicationError::Store(e)))); }
            return Err(PublicationError::Store(e));
        },
    };
    let head = store.head(key);
    let ghost answer = head;
    let r = match head {
        Err(e) => Err(PublicationError::Store(e)),
        Ok(h) => if h.version == version && h.kind == RecordingArtifactKind::CanonicalDeltaBatch && h.bytes == len as u64
            && str_eq(h.checksum.as_str(), checksum.as_str()) {
            Ok(outcome)
        } else {
            Err(PublicationError::Verification)
        },
    };
    proof {
        assert(store.head_answer(key@, answer));
        assert(r == delta_published(outcome, answer, bytes.len(), digest_spec(bytes)));
        assert(delta_publication(*store, key@, answered, bytes.len(), digest_spec(bytes), r));
    }
    r
}

/// The session publication a finished incremental session asks for: the
/// session and its checkpoint, each issue's kind as both an issue and a
/// replayability note, and complete exactly when there is no issue.
pub fn finalize_incremental_session(session: CanonicalSession, issues: &Vec<EtlIssue>, checkpoint: Option<String>)
    -> (p: PublishSession)
    ensures
        p.session == session,
        p.checkpoint == checkpoint,
        strs_view(p.issues@) == issues@.map_values(|i: EtlIssue| issue_kind_name(i.kind)),
        strs_view(p.replayability@) == issues@.map_values(|i: EtlIssue| issue_kind_name(i.kind)),
        p.complete == (issues@.len() == 0),
{
    let mut names: Vec<String> = Vec::new();
    let mut notes: Vec<String> = Vec::new();
    let mut i: usize = 0;
    while i < issues.len()
        invariant
            i <= issues@.len(),
            strs_view(names@) == issues@.take(i as int).map_values(|x: EtlIssue| issue_kind_name(x.kind)),
            strs_view(notes@) == issues@.take(i as int).map_values(|x: EtlIssue| issue_kind_name(x.kind)),
        decreases issues.len() - i,
    {
        let ghost before = strs_view(names@);
        let ghost before_notes = strs_view(notes@);
        names.push(str_copy(issues[i].kind.name()));
        notes.push(str_copy(issues[i].kind.name()));
        proof {
            assert(issues@.take(i + 1) =~= issues@.take(i as int).push(issues@[i as int]));
            assert(strs_view(names@) =~= before.push(issue_kind_name(issues@[i as int].kind)));
            assert(strs_view(notes@) =~= before_notes.push(issue_kind_name(issues@[i as int].kind)));
        }
        i = i + 1;
    }
    proof { assert(issues@.take(issues@.len() as int) =~= issues@); }
    PublishSession {
        session,
        checkpoint,
        issues: names,
        replayability: notes,
        complete: issues.len() == 0,
    }
}


/// Checks that the incremental session and the one-shot session of the
/// same recording encode to the same bytes: `incremental` and `one_shot`
/// are their encodings.
pub fn verify_one_shot_equivalence(incremental: &[u8], one_shot: &[u8]) -> (r: Result<(), PublicationError>)
    ensures
        r is Ok <==> incremental@ == one_shot@,
        r matches Err(e) ==> e matches PublicationError::FinalSession(m)
            && m@ == "incremental session differs from one-shot session"@,
{
    if bytes_equal(incremental, one_shot) {
        Ok(())
    } else {
        Err(PublicationError::FinalSession(str_copy("incremental session differs from one-shot session")))
    }
}

} // verus!
