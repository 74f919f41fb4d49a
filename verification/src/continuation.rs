//! Checkpoint lineage and the lifecycle of a continuation between a
//! predecessor and a successor epoch.
use vstd::prelude::*;
use crate::digest::{digest_hex, digest_spec, is_digest_chars, is_hex_char};
use crate::publication::{
    decoder_kind, decoder_kind_spec, DecoderReconstructionState, DECODER_IMPLEMENTATION_VERSION, DECODER_SNAPSHOT_VERSION,
};
use crate::text::{has_pair, str_contains_pair};
use crate::text::str_eq;
use vstd::utf8::encode_utf8;

verus! {

pub const MAX_CONTINUATION_SEGMENTS: usize = 256;
pub const MAX_CONTINUATION_STATE_BYTES: usize = 67108864;

#[derive(Clone, Copy, Debug, PartialEq, Eq, Structural)]
pub enum CheckpointOwner {
    Recorder,
    Etl,
}

#[derive(Clone, Copy, Debug, PartialEq, Eq, Structural)]
pub enum CheckpointLifecycle {
    Active,
    Stopped,
}

#[derive(Clone, Copy, Debug, PartialEq, Eq, Structural)]
pub enum SourceStatus {
    Live,
    Draining,
    Stopped,
    RecoveryRequired,
}

/// The WAL marker a checkpoint was taken at.
#[derive(Clone, Debug, PartialEq, Eq)]
pub struct MarkerLineage {
    pub sequence: u64,
    pub segment_ordinal: u64,
    pub marker_digest: String,
    pub active_segment_digest: String,
}

/// One sealed WAL segment a checkpoint depends on.
#[derive(Clone, Debug, PartialEq, Eq)]
pub struct SegmentLineage {
    pub ordinal: u64,
    pub digest: String,
    pub first_sequence: u64,
    pub last_sequence: u64,
}

/// A published delta batch a checkpoint refers to.
#[derive(Clone, Debug, PartialEq, Eq)]
pub struct DeltaBatchReference {
    pub key: String,
    pub digest: String,
    pub first_marker_sequence: u64,
    pub last_marker_sequence: u64,
    pub bytes: u64,
}

#[derive(Clone, Copy, Debug, PartialEq, Eq, Structural)]
pub enum ContinuationState {
    Pending,
    Ready,
    Consumed,
    Unavailable,
    Failed,
}

/// Bounds on the state a continuation may carry.
#[derive(Clone, Copy, Debug, PartialEq, Eq, Structural)]
pub struct ContinuationLimits {
    pub max_connections: usize,
    pub max_generation_entries: usize,
    pub max_partial_frame_bytes: usize,
    pub max_correlation_entries: usize,
    pub max_loss_windows: usize,
    pub max_issue_entries: usize,
    pub max_state_bytes: usize,
}

impl Default for ContinuationLimits {
    fn default() -> (l: Self)
        ensures
            l == (ContinuationLimits {
                max_connections: 4096,
                max_generation_entries: 8192,
                max_partial_frame_bytes: 8388608,
                max_correlation_entries: 16384,
                max_loss_windows: 4096,
                max_issue_entries: 4096,
                max_state_bytes: MAX_CONTINUATION_STATE_BYTES,
            }),
    {
        ContinuationLimits {
            max_connections: 4096,
            max_generation_entries: 8192,
            max_partial_frame_bytes: 8388608,
            max_correlation_entries: 16384,
            max_loss_windows: 4096,
            max_issue_entries: 4096,
            max_state_bytes: MAX_CONTINUATION_STATE_BYTES,
        }
    }
}

/// What was wrong with continuation data.
#[derive(Clone, Copy, Debug, PartialEq, Eq, Structural)]
pub enum InvalidField {
    ContinuationFields,
    SegmentLineage,
    MarkerLineage,
    DependencyIdentity,
    DependencyDigest,
    PendingFields,
    ReadyFields,
    ConsumedFields,
    FailedFields,
    DecoderState,
    DecoderConnectionCount,
    CheckpointFields,
    DecoderStateMetadata,
    OutputReference,
    PipelineVersion,
    ParentIdentity,
}

#[derive(Clone, Copy, Debug, PartialEq, Eq, Structural)]
pub enum ContinuationError {
    Invalid(InvalidField),
    ChecksumMismatch,
    Io,
    Serialization,
    Parse,
    LineageMismatch,
    InvalidTransition,
}

/// A digest: 64 hexadecimal digits.
pub fn is_digest(value: &str) -> (r: bool)
    ensures
        r == is_digest_chars(value@),
{
    let n = value.unicode_len();
    if n != 64 {
        return false;
    }
    let mut i: usize = 0;
    while i < n
        invariant
            n == value@.len(),
            i <= n,
            forall|k: int| 0 <= k < i ==> is_hex_char(#[trigger] value@[k]),
        decreases n - i,
    {
        let c = value.get_char(i);
        if !(('0' <= c && c <= '9') || ('a' <= c && c <= 'f') || ('A' <= c && c <= 'F')) {
            return false;
        }
        i = i + 1;
    }
    true
}

pub open spec fn marker_valid(m: MarkerLineage) -> bool {
    is_digest_chars(m.marker_digest@) && is_digest_chars(m.active_segment_digest@)
}

pub fn validate_marker(marker: &MarkerLineage) -> (r: Result<(), ContinuationError>)
    ensures
        r is Ok <==> marker_valid(*marker),
        r matches Err(e) ==> e == ContinuationError::Invalid(InvalidField::MarkerLineage),
{
    if !is_digest(marker.marker_digest.as_str()) || !is_digest(marker.active_segment_digest.as_str()) {
        return Err(ContinuationError::Invalid(InvalidField::MarkerLineage));
    }
    Ok(())
}

/// The continuation edge from a predecessor epoch to a successor epoch,
/// and how far it has got. Identifiers are UUIDs by value; zero is nil.
#[derive(Clone, Debug, PartialEq, Eq)]
pub struct ContinuationDependencyV2 {
    pub parent_id: Option<u128>,
    pub state: ContinuationState,
    pub predecessor_epoch_id: Option<u128>,
    pub successor_epoch_id: u128,
    pub input_digest: Option<String>,
    pub output_digest: Option<String>,
    pub failure_code: Option<String>,
}

pub open spec fn opt_digest_ok(d: Option<String>) -> bool {
    d matches Some(s) ==> is_digest_chars(s@)
}

/// Which check a dependency fails first, if any: identities must be
/// non-nil and distinct, digests well formed, and the fields each state
/// needs present (a pending edge has no output or failure, a ready one an
/// output and no failure, a consumed one both digests, a failed one a
/// non-empty failure code).
pub open spec fn dependency_error(d: ContinuationDependencyV2) -> Option<InvalidField> {
    if d.successor_epoch_id == 0 || d.predecessor_epoch_id == Some(0u128)
        || d.predecessor_epoch_id == Some(d.successor_epoch_id) {
        Some(InvalidField::DependencyIdentity)
    } else if !opt_digest_ok(d.input_digest) || !opt_digest_ok(d.output_digest) {
        Some(InvalidField::DependencyDigest)
    } else {
        match d.state {
            ContinuationState::Pending => if d.output_digest is Some || d.failure_code is Some {
                Some(InvalidField::PendingFields)
            } else {
                None
            },
            ContinuationState::Ready => if d.output_digest is None || d.failure_code is Some {
                Some(InvalidField::ReadyFields)
            } else {
                None
            },
            ContinuationState::Consumed => if d.input_digest is None || d.output_digest is None {
                Some(InvalidField::ConsumedFields)
            } else {
                None
            },
            _ => if !(d.failure_code matches Some(c) && c@.len() > 0) {
                Some(InvalidField::FailedFields)
            } else {
                None
            },
        }
    }
}

/// The edges of the continuation lifecycle.
pub open spec fn transition_allowed(from: ContinuationState, to: ContinuationState) -> bool {
    ||| from == ContinuationState::Pending && to == ContinuationState::Ready
    ||| from == ContinuationState::Pending && to == ContinuationState::Unavailable
    ||| from == ContinuationState::Pending && to == ContinuationState::Failed
    ||| from == ContinuationState::Ready && to == ContinuationState::Consumed
}

pub open spec fn opt_string_view(o: Option<String>) -> Option<Seq<char>> {
    match o {
        Some(s) => Some(s@),
        None => None,
    }
}

/// The dependency after moving to `to`: a ready edge records its output
/// digest, a consumed one its input digest, a failed one its code.
pub open spec fn after_transition(
    d: ContinuationDependencyV2,
    to: ContinuationState,
    digest: Option<String>,
    failure_code: Option<String>,
) -> ContinuationDependencyV2 {
    match to {
        ContinuationState::Ready => ContinuationDependencyV2 { state: to, output_digest: digest, ..d },
        ContinuationState::Consumed => ContinuationDependencyV2 { state: to, input_digest: digest, ..d },
        ContinuationState::Pending => ContinuationDependencyV2 { state: to, ..d },
        _ => ContinuationDependencyV2 { state: to, failure_code, ..d },
    }
}

fn copy_opt(o: &Option<String>) -> (r: Option<String>)
    ensures
        opt_string_view(r) == opt_string_view(*o),
        r is Some <==> o is Some,
        r matches Some(s) ==> s@ == o->0@,
{
    match o {
        Some(s) => Some(crate::text::str_copy(s.as_str())),
        None => None,
    }
}

impl ContinuationDependencyV2 {
    pub fn pending(predecessor_epoch_id: u128, successor_epoch_id: u128) -> (d: Self)
        ensures
            d.parent_id is None,
            d.state == ContinuationState::Pending,
            d.predecessor_epoch_id == Some(predecessor_epoch_id),
            d.successor_epoch_id == successor_epoch_id,
            d.input_digest is None && d.output_digest is None && d.failure_code is None,
    {
        Self::pending_for_parent(None, predecessor_epoch_id, successor_epoch_id)
    }

    pub fn pending_for_parent(parent_id: Option<u128>, predecessor_epoch_id: u128, successor_epoch_id: u128) -> (d: Self)
        ensures
            d.parent_id == parent_id,
            d.state == ContinuationState::Pending,
            d.predecessor_epoch_id == Some(predecessor_epoch_id),
            d.successor_epoch_id == successor_epoch_id,
            d.input_digest is None && d.output_digest is None && d.failure_code is None,
    {
        ContinuationDependencyV2 {
            parent_id,
            state: ContinuationState::Pending,
            predecessor_epoch_id: Some(predecessor_epoch_id),
            successor_epoch_id,
            input_digest: None,
            output_digest: None,
            failure_code: None,
        }
    }

    pub fn validate(&self) -> (r: Result<(), ContinuationError>)
        ensures
            match dependency_error(*self) {
                Some(f) => r == Err::<(), ContinuationError>(ContinuationError::Invalid(f)),
                None => r is Ok,
            },
    {
        if self.successor_epoch_id == 0 || self.predecessor_epoch_id == Some(0u128)
            || self.predecessor_epoch_id == Some(self.successor_epoch_id) {
            return Err(ContinuationError::Invalid(InvalidField::DependencyIdentity));
        }
        let input_ok = match &self.input_digest {
            Some(d) => is_digest(d.as_str()),
            None => true,
        };
        let output_ok = match &self.output_digest {
            Some(d) => is_digest(d.as_str()),
            None => true,
        };
        if !input_ok || !output_ok {
            return Err(ContinuationError::Invalid(InvalidField::DependencyDigest));
        }
        match self.state {
            ContinuationState::Pending => {
                if self.output_digest.is_some() || self.failure_code.is_some() {
                    return Err(ContinuationError::Invalid(InvalidField::PendingFields));
                }
            },
            ContinuationState::Ready => {
                if self.output_digest.is_none() || self.failure_code.is_some() {
                    return Err(ContinuationError::Invalid(InvalidField::ReadyFields));
                }
            },
            ContinuationState::Consumed => {
                if self.input_digest.is_none() || self.output_digest.is_none() {
                    return Err(ContinuationError::Invalid(InvalidField::ConsumedFields));
                }
            },
            _ => {
                let ok = match &self.failure_code {
                    Some(c) => c.unicode_len() > 0,
                    None => false,
                };
                if !ok {
                    return Err(ContinuationError::Invalid(InvalidField::FailedFields));
                }
            },
        }
        Ok(())
    }

    /// Moves the edge to `state`, recording `digest` or `failure_code` as
    /// the new state needs; refuses edges the lifecycle does not have and
    /// results that do not validate.
    pub fn transition(self, state: ContinuationState, digest: Option<String>, failure_code: Option<String>) -> (r: Result<Self, ContinuationError>)
        ensures
            !transition_allowed(self.state, state) ==> r == Err::<Self, ContinuationError>(ContinuationError::InvalidTransition),
            transition_allowed(self.state, state) ==> match dependency_error(after_transition(self, state, digest, failure_code)) {
                Some(f) => r == Err::<Self, ContinuationError>(ContinuationError::Invalid(f)),
                None => r == Ok::<Self, ContinuationError>(after_transition(self, state, digest, failure_code)),
            },
    {
        let allowed = match (self.state, state) {
            (ContinuationState::Pending, ContinuationState::Ready) => true,
            (ContinuationState::Pending, ContinuationState::Unavailable) => true,
            (ContinuationState::Pending, ContinuationState::Failed) => true,
            (ContinuationState::Ready, ContinuationState::Consumed) => true,
            _ => false,
        };
        if !allowed {
            return Err(ContinuationError::InvalidTransition);
        }
        let mut next = self;
        match state {
            ContinuationState::Ready => next.output_digest = digest,
            ContinuationState::Consumed => next.input_digest = digest,
            ContinuationState::Pending => {},
            _ => next.failure_code = failure_code,
        }
        next.state = state;
        match next.validate() {
            Ok(()) => Ok(next),
            Err(e) => Err(e),
        }
    }

    /// Consumes a ready edge exactly once: the successor's input must be
    /// the output that reached `ready`.
    pub fn consume(self, input_digest: String) -> (r: Result<Self, ContinuationError>)
        ensures
            !(self.state == ContinuationState::Ready && opt_string_view(self.output_digest) == Some(input_digest@))
                ==> r == Err::<Self, ContinuationError>(ContinuationError::ChecksumMismatch),
            (self.state == ContinuationState::Ready && opt_string_view(self.output_digest) == Some(input_digest@))
                ==> match dependency_error(after_transition(self, ContinuationState::Consumed, Some(input_digest), None)) {
                    Some(f) => r == Err::<Self, ContinuationError>(ContinuationError::Invalid(f)),
                    None => r == Ok::<Self, ContinuationError>(after_transition(self, ContinuationState::Consumed, Some(input_digest), None)),
                },
    {
        let matches = match &self.output_digest {
            Some(d) => crate::text::str_eq(d.as_str(), input_digest.as_str()),
            None => false,
        };
        if self.state != ContinuationState::Ready || !matches {
            return Err(ContinuationError::ChecksumMismatch);
        }
        self.transition(ContinuationState::Consumed, Some(input_digest), None)
    }
}

/// A continuation edge is consumed at most once: consuming a consumed edge
/// fails.
pub proof fn lemma_consume_once(d: ContinuationDependencyV2)
    requires
        d.state == ContinuationState::Consumed,
    ensures
        !transition_allowed(d.state, ContinuationState::Consumed),
        forall|s: ContinuationState| !transition_allowed(d.state, s),
{
}

/// The lifecycle only moves forward: no edge leads back to `pending`, and
/// the end states have no way out.
pub proof fn lemma_lifecycle_forward(from: ContinuationState, to: ContinuationState)
    requires
        transition_allowed(from, to),
    ensures
        to != ContinuationState::Pending,
        from == ContinuationState::Pending || from == ContinuationState::Ready,
        from != to,
{
}


pub const EPOCH_CONTINUATION_CHECKPOINT_VERSION: u16 = 1;

/// Two markers name the same WAL position.
pub open spec fn same_marker(a: MarkerLineage, b: MarkerLineage) -> bool {
    &&& a.sequence == b.sequence
    &&& a.segment_ordinal == b.segment_ordinal
    &&& a.marker_digest@ == b.marker_digest@
    &&& a.active_segment_digest@ == b.active_segment_digest@
}

pub fn markers_equal(a: &MarkerLineage, b: &MarkerLineage) -> (r: bool)
    ensures
        r == same_marker(*a, *b),
{
    a.sequence == b.sequence && a.segment_ordinal == b.segment_ordinal
        && str_eq(a.marker_digest.as_str(), b.marker_digest.as_str())
        && str_eq(a.active_segment_digest.as_str(), b.active_segment_digest.as_str())
}

/// Two segment lineage entries name the same segment.
pub open spec fn same_segment(a: SegmentLineage, b: SegmentLineage) -> bool {
    &&& a.ordinal == b.ordinal
    &&& a.digest@ == b.digest@
    &&& a.first_sequence == b.first_sequence
    &&& a.last_sequence == b.last_sequence
}

pub fn segments_equal(a: &SegmentLineage, b: &SegmentLineage) -> (r: bool)
    ensures
        r == same_segment(*a, *b),
{
    a.ordinal == b.ordinal && str_eq(a.digest.as_str(), b.digest.as_str())
        && a.first_sequence == b.first_sequence && a.last_sequence == b.last_sequence
}

/// The first `n` entries of two lineages name the same segments.
pub open spec fn same_prefix(a: Seq<SegmentLineage>, b: Seq<SegmentLineage>, n: int) -> bool {
    forall|i: int| 0 <= i < n ==> same_segment(#[trigger] a[i], b[i])
}

/// Two lineages name the same segments.
pub open spec fn same_lineage(a: Seq<SegmentLineage>, b: Seq<SegmentLineage>) -> bool {
    a.len() == b.len() && same_prefix(a, b, a.len() as int)
}

/// Whether the first `n` entries of two lineages agree.
pub fn prefix_equal(a: &[SegmentLineage], b: &[SegmentLineage], n: usize) -> (r: bool)
    requires
        n <= a@.len(),
        n <= b@.len(),
    ensures
        r == same_prefix(a@, b@, n as int),
{
    let mut i: usize = 0;
    while i < n
        invariant
            n <= a@.len(),
            n <= b@.len(),
            i <= n,
            same_prefix(a@, b@, i as int),
        decreases n - i,
    {
        if !segments_equal(&a[i], &b[i]) {
            return false;
        }
        i = i + 1;
    }
    true
}

/// Whether two lineages name the same segments.
pub fn lineages_equal(a: &[SegmentLineage], b: &[SegmentLineage]) -> (r: bool)
    ensures
        r == same_lineage(a@, b@),
{
    a.len() == b.len() && prefix_equal(a, b, a.len())
}

/// A lineage entry is well formed under a marker: its range is ordered,
/// ends at or before the marker, and its digest is a digest.
pub open spec fn segment_within(s: SegmentLineage, marker_sequence: u64) -> bool {
    &&& s.first_sequence <= s.last_sequence
    &&& is_digest_chars(s.digest@)
    &&& s.last_sequence <= marker_sequence
}

pub open spec fn segments_within(l: Seq<SegmentLineage>, marker_sequence: u64) -> bool {
    forall|i: int| 0 <= i < l.len() ==> segment_within(#[trigger] l[i], marker_sequence)
}

/// Consecutive lineage entries have increasing ordinals and disjoint,
/// increasing ranges.
pub open spec fn segments_ordered(l: Seq<SegmentLineage>) -> bool {
    forall|i: int| 0 <= i < l.len() - 1 ==> {
        &&& (#[trigger] l[i]).ordinal < l[i + 1].ordinal
        &&& l[i].last_sequence < l[i + 1].first_sequence
    }
}

fn check_segments_within(l: &[SegmentLineage], marker_sequence: u64) -> (r: bool)
    ensures
        r == segments_within(l@, marker_sequence),
{
    let mut i: usize = 0;
    while i < l.len()
        invariant
            i <= l@.len(),
            forall|k: int| 0 <= k < i ==> segment_within(#[trigger] l@[k], marker_sequence),
        decreases l.len() - i,
    {
        let s = &l[i];
        if s.first_sequence > s.last_sequence || !is_digest(s.digest.as_str()) || s.last_sequence > marker_sequence {
            return false;
        }
        i = i + 1;
    }
    true
}

fn check_segments_ordered(l: &[SegmentLineage]) -> (r: bool)
    ensures
        r == segments_ordered(l@),
{
    if l.len() == 0 {
        return true;
    }
    let mut i: usize = 0;
    while i < l.len() - 1
        invariant
            l@.len() > 0,
            i <= l@.len() - 1,
            forall|k: int| 0 <= k < i ==> {
                &&& (#[trigger] l@[k]).ordinal < l@[k + 1].ordinal
                &&& l@[k].last_sequence < l@[k + 1].first_sequence
            },
        decreases l.len() - 1 - i,
    {
        if l[i].ordinal >= l[i + 1].ordinal || l[i].last_sequence >= l[i + 1].first_sequence {
            return false;
        }
        i = i + 1;
    }
    true
}

/// The hand-off from a predecessor epoch to its successor: the
/// predecessor's final marker and lineage and its serialized decoder state
/// with the counts it holds, bounded by `limits`. Identifiers are UUIDs by
/// value; zero is nil. The checksum covers the checkpoint's encoding with
/// an empty checksum.
#[derive(Clone, Debug, PartialEq, Eq)]
pub struct EpochContinuationCheckpointV1 {
    pub version: u16,
    pub parent_id: u128,
    pub predecessor_epoch_id: u128,
    pub successor_epoch_id: u128,
    pub predecessor_final_marker: MarkerLineage,
    pub segment_lineage: Vec<SegmentLineage>,
    pub decoder_kind: String,
    pub decoder_schema_version: u32,
    pub pipeline_version: String,
    pub state: Vec<u8>,
    pub connection_count: usize,
    pub generation_count: usize,
    pub partial_frame_bytes: usize,
    pub correlation_count: usize,
    pub negotiation_count: usize,
    pub loss_window_count: usize,
    pub issue_count: usize,
    pub limits: ContinuationLimits,
    pub checksum: String,
}

/// A pipeline version is non-empty and at most 64 bytes long.
pub open spec fn pipeline_version_ok(v: Seq<char>) -> bool {
    v.len() > 0 && encode_utf8(v).len() <= 64
}

/// The scalar fields of a hand-off are in range.
pub open spec fn epoch_fields_ok(c: EpochContinuationCheckpointV1) -> bool {
    &&& c.version == EPOCH_CONTINUATION_CHECKPOINT_VERSION
    &&& c.parent_id != 0
    &&& c.predecessor_epoch_id != 0
    &&& c.successor_epoch_id != 0
    &&& c.predecessor_epoch_id != c.successor_epoch_id
    &&& c.decoder_kind@ == decoder_kind_spec()
    &&& c.decoder_schema_version == DECODER_SNAPSHOT_VERSION
    &&& pipeline_version_ok(c.pipeline_version@)
    &&& c.state@.len() > 0
    &&& c.state@.len() <= c.limits.max_state_bytes
    &&& c.state@.len() <= MAX_CONTINUATION_STATE_BYTES
    &&& c.segment_lineage@.len() <= MAX_CONTINUATION_SEGMENTS
    &&& c.connection_count <= c.limits.max_connections
    &&& c.generation_count <= c.limits.max_generation_entries
    &&& c.partial_frame_bytes <= c.limits.max_partial_frame_bytes
    &&& c.correlation_count <= c.limits.max_correlation_entries
    &&& c.loss_window_count <= c.limits.max_loss_windows
    &&& c.issue_count <= c.limits.max_issue_entries
}

/// Which check a hand-off fails first, checksum aside.
pub open spec fn epoch_checkpoint_error(c: EpochContinuationCheckpointV1) -> Option<InvalidField> {
    if !epoch_fields_ok(c) {
        Some(InvalidField::ContinuationFields)
    } else if !marker_valid(c.predecessor_final_marker) {
        Some(InvalidField::MarkerLineage)
    } else if !segments_within(c.segment_lineage@, c.predecessor_final_marker.sequence)
        || !segments_ordered(c.segment_lineage@) {
        Some(InvalidField::SegmentLineage)
    } else {
        None
    }
}

/// The outcome of validating a hand-off whose checksum-free encoding is
/// `unsigned_encoding`.
pub open spec fn epoch_checkpoint_result(c: EpochContinuationCheckpointV1, unsigned_encoding: Seq<u8>) -> Result<(), ContinuationError> {
    match epoch_checkpoint_error(c) {
        Some(f) => Err(ContinuationError::Invalid(f)),
        None => if c.checksum@ == digest_spec(unsigned_encoding) {
            Ok(())
        } else {
            Err(ContinuationError::ChecksumMismatch)
        },
    }
}

fn pipeline_version_valid(v: &str) -> (r: bool)
    ensures
        r == pipeline_version_ok(v@),
{
    v.unicode_len() > 0 && v.as_bytes().len() <= 64
}

impl EpochContinuationCheckpointV1 {
    /// A hand-off from `predecessor_epoch_id` to `successor_epoch_id` with
    /// no counts yet and an empty checksum; refused when a field is out of
    /// range.
    pub fn new(
        parent_id: u128,
        predecessor_epoch_id: u128,
        successor_epoch_id: u128,
        predecessor_final_marker: MarkerLineage,
        segment_lineage: Vec<SegmentLineage>,
        pipeline_version: String,
        state: Vec<u8>,
        limits: ContinuationLimits,
    ) -> (r: Result<Self, ContinuationError>)
        ensures
            match r {
                Ok(c) => {
                    &&& epoch_checkpoint_error(c) is None
                    &&& c.version == EPOCH_CONTINUATION_CHECKPOINT_VERSION
                    &&& c.parent_id == parent_id
                    &&& c.predecessor_epoch_id == predecessor_epoch_id
                    &&& c.successor_epoch_id == successor_epoch_id
                    &&& c.predecessor_final_marker == predecessor_final_marker
                    &&& c.segment_lineage == segment_lineage
                    &&& c.pipeline_version == pipeline_version
                    &&& c.state == state
                    &&& c.limits == limits
                    &&& c.connection_count == 0 && c.generation_count == 0 && c.partial_frame_bytes == 0
                    &&& c.correlation_count == 0 && c.negotiation_count == 0 && c.loss_window_count == 0
                    &&& c.issue_count == 0
                    &&& c.checksum@.len() == 0
                },
                Err(e) => exists|c: Self| {
                    &&& c.version == EPOCH_CONTINUATION_CHECKPOINT_VERSION
                    &&& c.parent_id == parent_id
                    &&& c.predecessor_epoch_id == predecessor_epoch_id
                    &&& c.successor_epoch_id == successor_epoch_id
                    &&& c.predecessor_final_marker == predecessor_final_marker
                    &&& c.segment_lineage == segment_lineage
                    &&& c.decoder_kind@ == decoder_kind_spec()
                    &&& c.decoder_schema_version == DECODER_SNAPSHOT_VERSION
                    &&& c.pipeline_version == pipeline_version
                    &&& c.state == state
                    &&& c.limits == limits
                    &&& c.connection_count == 0 && c.generation_count == 0 && c.partial_frame_bytes == 0
                    &&& c.correlation_count == 0 && c.negotiation_count == 0 && c.loss_window_count == 0
                    &&& c.issue_count == 0
                    &&& #[trigger] epoch_checkpoint_error(c) matches Some(f) && e == ContinuationError::Invalid(f)
                },
            },
    {
        let value = EpochContinuationCheckpointV1 {
            version: EPOCH_CONTINUATION_CHECKPOINT_VERSION,
            parent_id,
            predecessor_epoch_id,
            successor_epoch_id,
            predecessor_final_marker,
            segment_lineage,
            decoder_kind: crate::text::str_copy(decoder_kind()),
            decoder_schema_version: DECODER_SNAPSHOT_VERSION,
            pipeline_version,
            state,
            connection_count: 0,
            generation_count: 0,
            partial_frame_bytes: 0,
            correlation_count: 0,
            negotiation_count: 0,
            loss_window_count: 0,
            issue_count: 0,
            limits,
            checksum: String::new(),
        };
        match value.validate_without_checksum() {
            Ok(()) => Ok(value),
            Err(e) => Err(e),
        }
    }

    /// The hand-off with the decoder's counts (connections, generations,
    /// partial frame bytes, correlations, negotiations, loss windows,
    /// issues), its checksum cleared; refused when a count is out of range.
    pub fn with_counts(self, counts: [usize; 7]) -> (r: Result<Self, ContinuationError>)
        ensures
            ({
                let c = EpochContinuationCheckpointV1 {
                    connection_count: counts[0],
                    generation_count: counts[1],
                    partial_frame_bytes: counts[2],
                    correlation_count: counts[3],
                    negotiation_count: counts[4],
                    loss_window_count: counts[5],
                    issue_count: counts[6],
                    ..self
                };
                match epoch_checkpoint_error(c) {
                    Some(f) => r == Err::<Self, ContinuationError>(ContinuationError::Invalid(f)),
                    None => r matches Ok(v) && {
                        &&& v.connection_count == counts[0] && v.generation_count == counts[1]
                        &&& v.partial_frame_bytes == counts[2] && v.correlation_count == counts[3]
                        &&& v.negotiation_count == counts[4] && v.loss_window_count == counts[5]
                        &&& v.issue_count == counts[6]
                        &&& v.version == self.version && v.parent_id == self.parent_id
                        &&& v.predecessor_epoch_id == self.predecessor_epoch_id
                        &&& v.successor_epoch_id == self.successor_epoch_id
                        &&& v.predecessor_final_marker == self.predecessor_final_marker
                        &&& v.segment_lineage == self.segment_lineage
                        &&& v.decoder_kind == self.decoder_kind
                        &&& v.decoder_schema_version == self.decoder_schema_version
                        &&& v.pipeline_version == self.pipeline_version
                        &&& v.state == self.state && v.limits == self.limits
                        &&& v.checksum@.len() == 0
                        &&& epoch_checkpoint_error(v) is None
                    },
                }
            }),
    {
        let mut value = self;
        value.connection_count = counts[0];
        value.generation_count = counts[1];
        value.partial_frame_bytes = counts[2];
        value.correlation_count = counts[3];
        value.negotiation_count = counts[4];
        value.loss_window_count = counts[5];
        value.issue_count = counts[6];
        match value.validate_without_checksum() {
            Ok(()) => {
                value.checksum = String::new();
                Ok(value)
            },
            Err(e) => Err(e),
        }
    }

    /// Seals the hand-off with the digest of its checksum-free encoding;
    /// refused when a field is out of range.
    pub fn with_checksum(self, unsigned_encoding: &[u8]) -> (r: Result<Self, ContinuationError>)
        ensures
            match epoch_checkpoint_error(self) {
                Some(f) => r == Err::<Self, ContinuationError>(ContinuationError::Invalid(f)),
                None => r matches Ok(v) && v == (EpochContinuationCheckpointV1 { checksum: v.checksum, ..self })
                    && v.checksum@ == digest_spec(unsigned_encoding@)
                    && epoch_checkpoint_result(v, unsigned_encoding@) is Ok,
            },
    {
        match self.validate_without_checksum() {
            Ok(()) => {
                let mut value = self;
                value.checksum = digest_hex(unsigned_encoding);
                Ok(value)
            },
            Err(e) => Err(e),
        }
    }

    /// The checks of `validate` other than the checksum.
    pub fn validate_without_checksum(&self) -> (r: Result<(), ContinuationError>)
        ensures
            match epoch_checkpoint_error(*self) {
                Some(f) => r == Err::<(), ContinuationError>(ContinuationError::Invalid(f)),
                None => r is Ok,
            },
    {
        let n = self.state.len();
        if self.version != EPOCH_CONTINUATION_CHECKPOINT_VERSION
            || self.parent_id == 0
            || self.predecessor_epoch_id == 0
            || self.successor_epoch_id == 0
            || self.predecessor_epoch_id == self.successor_epoch_id
            || !str_eq(self.decoder_kind.as_str(), decoder_kind())
            || self.decoder_schema_version != DECODER_SNAPSHOT_VERSION
            || !pipeline_version_valid(self.pipeline_version.as_str())
            || n == 0
            || n > self.limits.max_state_bytes
            || n > MAX_CONTINUATION_STATE_BYTES
            || self.segment_lineage.len() > MAX_CONTINUATION_SEGMENTS
            || self.connection_count > self.limits.max_connections
            || self.generation_count > self.limits.max_generation_entries
            || self.partial_frame_bytes > self.limits.max_partial_frame_bytes
            || self.correlation_count > self.limits.max_correlation_entries
            || self.loss_window_count > self.limits.max_loss_windows
            || self.issue_count > self.limits.max_issue_entries
        {
            return Err(ContinuationError::Invalid(InvalidField::ContinuationFields));
        }
        match validate_marker(&self.predecessor_final_marker) {
            Ok(()) => {},
            Err(e) => return Err(e),
        }
        if !check_segments_within(self.segment_lineage.as_slice(), self.predecessor_final_marker.sequence)
            || !check_segments_ordered(self.segment_lineage.as_slice())
        {
            return Err(ContinuationError::Invalid(InvalidField::SegmentLineage));
        }
        Ok(())
    }

    /// Validates the fields and that the checksum is the digest of the
    /// checksum-free encoding.
    pub fn validate(&self, unsigned_encoding: &[u8]) -> (r: Result<(), ContinuationError>)
        ensures
            r == epoch_checkpoint_result(*self, unsigned_encoding@),
    {
        match self.validate_without_checksum() {
            Ok(()) => {},
            Err(e) => return Err(e),
        }
        let expected = digest_hex(unsigned_encoding);
        if !str_eq(self.checksum.as_str(), expected.as_str()) {
            return Err(ContinuationError::ChecksumMismatch);
        }
        Ok(())
    }

    /// Validates the hand-off and that it continues this edge: the same
    /// parent, epochs, pipeline, marker and lineage; then that its decoder
    /// state restored (`restored_connections`, the count of open
    /// connections the restored state holds, `None` when it could not be
    /// restored) to the connection count it records.
    pub fn validate_against(
        &self,
        unsigned_encoding: &[u8],
        parent_id: u128,
        predecessor_epoch_id: u128,
        successor_epoch_id: u128,
        marker: &MarkerLineage,
        segment_lineage: &[SegmentLineage],
        pipeline_version: &str,
        restored_connections: Option<usize>,
    ) -> (r: Result<(), ContinuationError>)
        ensures
            epoch_checkpoint_result(*self, unsigned_encoding@) matches Err(e) ==> r == Err::<(), ContinuationError>(e),
            epoch_checkpoint_result(*self, unsigned_encoding@) is Ok ==> {
                if !(self.parent_id == parent_id && self.predecessor_epoch_id == predecessor_epoch_id
                    && self.successor_epoch_id == successor_epoch_id && self.pipeline_version@ == pipeline_version@
                    && same_marker(self.predecessor_final_marker, *marker)
                    && same_lineage(self.segment_lineage@, segment_lineage@)) {
                    r == Err::<(), ContinuationError>(ContinuationError::LineageMismatch)
                } else {
                    match restored_connections {
                        None => r == Err::<(), ContinuationError>(ContinuationError::Invalid(InvalidField::DecoderState)),
                        Some(n) => if n != self.connection_count {
                            r == Err::<(), ContinuationError>(ContinuationError::Invalid(InvalidField::DecoderConnectionCount))
                        } else {
                            r is Ok
                        },
                    }
                }
            },
    {
        match self.validate(unsigned_encoding) {
            Ok(()) => {},
            Err(e) => return Err(e),
        }
        if self.parent_id != parent_id
            || self.predecessor_epoch_id != predecessor_epoch_id
            || self.successor_epoch_id != successor_epoch_id
            || !str_eq(self.pipeline_version.as_str(), pipeline_version)
            || !markers_equal(&self.predecessor_final_marker, marker)
            || !lineages_equal(self.segment_lineage.as_slice(), segment_lineage)
        {
            return Err(ContinuationError::LineageMismatch);
        }
        match restored_connections {
            None => Err(ContinuationError::Invalid(InvalidField::DecoderState)),
            Some(n) => if n != self.connection_count {
                Err(ContinuationError::Invalid(InvalidField::DecoderConnectionCount))
            } else {
                Ok(())
            },
        }
    }
}


impl ContinuationDependencyV2 {
    /// Verifies one predecessor hand-off for this edge and enters `ready`
    /// with the digest of its exact encoding `encoding` (the hand-off's
    /// checksum covers `unsigned_encoding`, the same with an empty checksum).
    pub fn ready_from_checkpoint(
        parent_id: u128,
        predecessor_epoch_id: u128,
        checkpoint: &EpochContinuationCheckpointV1,
        unsigned_encoding: &[u8],
        encoding: &[u8],
        pipeline_version: &str,
    ) -> (r: Result<Self, ContinuationError>)
        ensures
            !(checkpoint.parent_id == parent_id && checkpoint.predecessor_epoch_id == predecessor_epoch_id
                && checkpoint.pipeline_version@ == pipeline_version@)
                ==> r == Err::<Self, ContinuationError>(ContinuationError::LineageMismatch),
            (checkpoint.parent_id == parent_id && checkpoint.predecessor_epoch_id == predecessor_epoch_id
                && checkpoint.pipeline_version@ == pipeline_version@) ==> match epoch_checkpoint_result(*checkpoint, unsigned_encoding@) {
                Err(e) => r == Err::<Self, ContinuationError>(e),
                Ok(()) => r matches Ok(d) && {
                    &&& d.parent_id == Some(parent_id)
                    &&& d.state == ContinuationState::Ready
                    &&& d.predecessor_epoch_id == Some(predecessor_epoch_id)
                    &&& d.successor_epoch_id == checkpoint.successor_epoch_id
                    &&& d.input_digest is None
                    &&& opt_string_view(d.output_digest) == Some(digest_spec(encoding@))
                    &&& d.failure_code is None
                },
            },
    {
        if checkpoint.parent_id != parent_id
            || checkpoint.predecessor_epoch_id != predecessor_epoch_id
            || !str_eq(checkpoint.pipeline_version.as_str(), pipeline_version)
        {
            return Err(ContinuationError::LineageMismatch);
        }
        match checkpoint.validate(unsigned_encoding) {
            Ok(()) => {},
            Err(e) => return Err(e),
        }
        let digest = digest_hex(encoding);
        Self::pending_for_parent(Some(parent_id), predecessor_epoch_id, checkpoint.successor_epoch_id)
            .transition(ContinuationState::Ready, Some(digest), None)
    }
}

pub const INCREMENTAL_CHECKPOINT_V2_SCHEMA_VERSION: u16 = 2;

/// A parent-aware incremental ETL checkpoint for one epoch: the marker and
/// lineage it reached, the continuation edge into the epoch, the decoder
/// state, published outputs and operation keys. Identifiers are UUIDs by
/// value; zero is nil. The checksum covers the checkpoint's encoding with
/// an empty checksum.
#[derive(Clone, Debug, PartialEq, Eq)]
pub struct IncrementalEtlCheckpointV2 {
    pub version: u16,
    pub owner: CheckpointOwner,
    pub lifecycle: CheckpointLifecycle,
    pub parent_id: u128,
    pub epoch_id: u128,
    pub epoch_ordinal: u64,
    pub config_digest: String,
    pub pipeline_version: String,
    pub canonical_schema_version: u16,
    pub marker: MarkerLineage,
    pub segment_lineage: Vec<SegmentLineage>,
    pub continuation: ContinuationDependencyV2,
    pub decoder: DecoderReconstructionState,
    pub outputs: Vec<DeltaBatchReference>,
    pub published_operation_keys: Vec<String>,
    pub source_status: SourceStatus,
    pub checksum: String,
}

/// The scalar fields of an incremental checkpoint are in range.
pub open spec fn incremental_fields_ok(c: IncrementalEtlCheckpointV2) -> bool {
    &&& c.version == INCREMENTAL_CHECKPOINT_V2_SCHEMA_VERSION
    &&& c.owner == CheckpointOwner::Etl
    &&& c.parent_id != 0
    &&& c.epoch_id != 0
    &&& is_digest_chars(c.config_digest@)
    &&& pipeline_version_ok(c.pipeline_version@)
    &&& c.segment_lineage@.len() <= MAX_CONTINUATION_SEGMENTS
    &&& c.outputs@.len() <= 4096
    &&& c.published_operation_keys@.len() <= 10000
}

/// The decoder state belongs to the checkpoint's epoch and marker and
/// records its own size.
pub open spec fn decoder_metadata_ok(c: IncrementalEtlCheckpointV2) -> bool {
    &&& c.decoder.kind@ == decoder_kind_spec()
    &&& c.decoder.implementation_version == DECODER_IMPLEMENTATION_VERSION
    &&& c.decoder.snapshot_version == DECODER_SNAPSHOT_VERSION
    &&& c.decoder.session_id != 0
    &&& c.decoder.recording_id == c.epoch_id
    &&& c.decoder.epoch_ordinal == c.epoch_ordinal
    &&& c.decoder.marker_sequence == c.marker.sequence
    &&& c.decoder.marker_digest@ == c.marker.marker_digest@
    &&& c.decoder.state@.len() > 0
    &&& c.decoder.serialized_bytes == c.decoder.state@.len()
}

/// A published output a checkpoint refers to: a relative key of at most
/// 512 bytes without `..`, a digest, and a range ending at or before the
/// marker.
pub open spec fn output_ok(o: DeltaBatchReference, marker_sequence: u64) -> bool {
    &&& o.key@.len() > 0
    &&& encode_utf8(o.key@).len() <= 512
    &&& !has_pair(o.key@, '.', '.')
    &&& is_digest_chars(o.digest@)
    &&& o.last_marker_sequence <= marker_sequence
}

pub open spec fn outputs_ok(outputs: Seq<DeltaBatchReference>, marker_sequence: u64) -> bool {
    forall|i: int| 0 <= i < outputs.len() ==> output_ok(#[trigger] outputs[i], marker_sequence)
}

/// Which check an incremental checkpoint fails first, checksum aside;
/// `restored_connections` is the count of open connections its decoder
/// state restores to, `None` when it does not restore.
pub open spec fn incremental_checkpoint_error(c: IncrementalEtlCheckpointV2, restored_connections: Option<usize>) -> Option<ContinuationError> {
    if !incremental_fields_ok(c) {
        Some(ContinuationError::Invalid(InvalidField::CheckpointFields))
    } else if !marker_valid(c.marker) {
        Some(ContinuationError::Invalid(InvalidField::MarkerLineage))
    } else if dependency_error(c.continuation) is Some {
        Some(ContinuationError::Invalid(dependency_error(c.continuation)->0))
    } else if c.continuation.successor_epoch_id != c.epoch_id {
        Some(ContinuationError::LineageMismatch)
    } else if !decoder_metadata_ok(c) {
        Some(ContinuationError::Invalid(InvalidField::DecoderStateMetadata))
    } else if restored_connections is None {
        Some(ContinuationError::Invalid(InvalidField::DecoderState))
    } else if restored_connections->0 != c.decoder.pending_connection_count {
        Some(ContinuationError::Invalid(InvalidField::DecoderConnectionCount))
    } else if !segments_within(c.segment_lineage@, c.marker.sequence) {
        Some(ContinuationError::Invalid(InvalidField::SegmentLineage))
    } else if !outputs_ok(c.outputs@, c.marker.sequence) {
        Some(ContinuationError::Invalid(InvalidField::OutputReference))
    } else {
        None
    }
}

/// The outcome of validating an incremental checkpoint.
pub open spec fn incremental_checkpoint_result(
    c: IncrementalEtlCheckpointV2,
    unsigned_encoding: Seq<u8>,
    restored_connections: Option<usize>,
) -> Result<(), ContinuationError> {
    match incremental_checkpoint_error(c, restored_connections) {
        Some(e) => Err(e),
        None => if c.checksum@ == digest_spec(unsigned_encoding) {
            Ok(())
        } else {
            Err(ContinuationError::ChecksumMismatch)
        },
    }
}

/// Whether a checkpoint taken at `mine` may resume a cursor now at
/// `current`: never ahead of it, under the same pipeline, and on the same
/// lineage (the same marker and lineage at the same sequence, a prefix of
/// the lineage before it).
pub open spec fn resumable_at(
    c: IncrementalEtlCheckpointV2,
    marker: MarkerLineage,
    segment_lineage: Seq<SegmentLineage>,
    pipeline_version: Seq<char>,
) -> bool {
    &&& c.marker.sequence <= marker.sequence
    &&& c.marker.segment_ordinal <= marker.segment_ordinal
    &&& c.segment_lineage@.len() <= segment_lineage.len()
    &&& c.pipeline_version@ == pipeline_version
    &&& if c.marker.sequence == marker.sequence {
        same_marker(c.marker, marker) && same_lineage(c.segment_lineage@, segment_lineage)
    } else {
        same_prefix(c.segment_lineage@, segment_lineage, c.segment_lineage@.len() as int)
    }
}

fn check_outputs(outputs: &[DeltaBatchReference], marker_sequence: u64) -> (r: bool)
    ensures
        r == outputs_ok(outputs@, marker_sequence),
{
    let mut i: usize = 0;
    while i < outputs.len()
        invariant
            i <= outputs@.len(),
            forall|k: int| 0 <= k < i ==> output_ok(#[trigger] outputs@[k], marker_sequence),
        decreases outputs.len() - i,
    {
        let o = &outputs[i];
        let key = o.key.as_str();
        if key.unicode_len() == 0 || key.as_bytes().len() > 512 || str_contains_pair(key, '.', '.') {
            return false;
        }
        if !is_digest(o.digest.as_str()) || o.last_marker_sequence > marker_sequence {
            return false;
        }
        i = i + 1;
    }
    true
}

impl IncrementalEtlCheckpointV2 {
    /// The checks of `validate` other than the checksum.
    pub fn validate_without_checksum(&self, restored_connections: Option<usize>) -> (r: Result<(), ContinuationError>)
        ensures
            match incremental_checkpoint_error(*self, restored_connections) {
                Some(e) => r == Err::<(), ContinuationError>(e),
                None => r is Ok,
            },
    {
        if self.version != INCREMENTAL_CHECKPOINT_V2_SCHEMA_VERSION
            || self.owner != CheckpointOwner::Etl
            || self.parent_id == 0
            || self.epoch_id == 0
            || !is_digest(self.config_digest.as_str())
            || !pipeline_version_valid(self.pipeline_version.as_str())
            || self.segment_lineage.len() > MAX_CONTINUATION_SEGMENTS
            || self.outputs.len() > 4096
            || self.published_operation_keys.len() > 10000
        {
            return Err(ContinuationError::Invalid(InvalidField::CheckpointFields));
        }
        match validate_marker(&self.marker) {
            Ok(()) => {},
            Err(e) => return Err(e),
        }
        match self.continuation.validate() {
            Ok(()) => {},
            Err(e) => return Err(e),
        }
        if self.continuation.successor_epoch_id != self.epoch_id {
            return Err(ContinuationError::LineageMismatch);
        }
        let d = &self.decoder;
        if !str_eq(d.kind.as_str(), decoder_kind())
            || d.implementation_version != DECODER_IMPLEMENTATION_VERSION
            || d.snapshot_version != DECODER_SNAPSHOT_VERSION
            || d.session_id == 0
            || d.recording_id != self.epoch_id
            || d.epoch_ordinal != self.epoch_ordinal
            || d.marker_sequence != self.marker.sequence
            || !str_eq(d.marker_digest.as_str(), self.marker.marker_digest.as_str())
            || d.state.len() == 0
            || d.serialized_bytes != d.state.len()
        {
            return Err(ContinuationError::Invalid(InvalidField::DecoderStateMetadata));
        }
        match restored_connections {
            None => return Err(ContinuationError::Invalid(InvalidField::DecoderState)),
            Some(n) => if n != d.pending_connection_count {
                return Err(ContinuationError::Invalid(InvalidField::DecoderConnectionCount));
            },
        }
        if !check_segments_within(self.segment_lineage.as_slice(), self.marker.sequence) {
            return Err(ContinuationError::Invalid(InvalidField::SegmentLineage));
        }
        if !check_outputs(self.outputs.as_slice(), self.marker.sequence) {
            return Err(ContinuationError::Invalid(InvalidField::OutputReference));
        }
        Ok(())
    }

    /// Validates the fields, the decoder state and that the checksum is the
    /// digest of the checksum-free encoding.
    pub fn validate(&self, unsigned_encoding: &[u8], restored_connections: Option<usize>) -> (r: Result<(), ContinuationError>)
        ensures
            r == incremental_checkpoint_result(*self, unsigned_encoding@, restored_connections),
    {
        match self.validate_without_checksum(restored_connections) {
            Ok(()) => {},
            Err(e) => return Err(e),
        }
        let expected = digest_hex(unsigned_encoding);
        if !str_eq(self.checksum.as_str(), expected.as_str()) {
            return Err(ContinuationError::ChecksumMismatch);
        }
        Ok(())
    }

    /// Seals the checkpoint with the digest of its checksum-free encoding;
    /// refused when a check fails.
    pub fn with_checksum(self, unsigned_encoding: &[u8], restored_connections: Option<usize>) -> (r: Result<Self, ContinuationError>)
        ensures
            match incremental_checkpoint_error(self, restored_connections) {
                Some(e) => r == Err::<Self, ContinuationError>(e),
                None => r matches Ok(v) && v == (IncrementalEtlCheckpointV2 { checksum: v.checksum, ..self })
                    && v.checksum@ == digest_spec(unsigned_encoding@)
                    && incremental_checkpoint_result(v, unsigned_encoding@, restored_connections) is Ok,
            },
    {
        match self.validate_without_checksum(restored_connections) {
            Ok(()) => {
                let mut value = self;
                value.checksum = digest_hex(unsigned_encoding);
                Ok(value)
            },
            Err(e) => Err(e),
        }
    }

    /// Validates the checkpoint and that it belongs to this parent and
    /// epoch and may resume a cursor at `marker` on `segment_lineage`.
    pub fn validate_against(
        &self,
        unsigned_encoding: &[u8],
        restored_connections: Option<usize>,
        parent_id: u128,
        epoch_id: u128,
        marker: &MarkerLineage,
        segment_lineage: &[SegmentLineage],
        pipeline_version: &str,
    ) -> (r: Result<(), ContinuationError>)
        ensures
            incremental_checkpoint_result(*self, unsigned_encoding@, restored_connections) matches Err(e)
                ==> r == Err::<(), ContinuationError>(e),
            incremental_checkpoint_result(*self, unsigned_encoding@, restored_connections) is Ok ==> {
                if self.parent_id == parent_id && self.epoch_id == epoch_id && self.decoder.recording_id == epoch_id
                    && resumable_at(*self, *marker, segment_lineage@, pipeline_version@) {
                    r is Ok
                } else {
                    r == Err::<(), ContinuationError>(ContinuationError::LineageMismatch)
                }
            },
    {
        match self.validate(unsigned_encoding, restored_connections) {
            Ok(()) => {},
            Err(e) => return Err(e),
        }
        if self.parent_id != parent_id || self.epoch_id != epoch_id || self.decoder.recording_id != epoch_id {
            return Err(ContinuationError::LineageMismatch);
        }
        if self.marker.sequence > marker.sequence
            || self.marker.segment_ordinal > marker.segment_ordinal
            || self.segment_lineage.len() > segment_lineage.len()
            || !str_eq(self.pipeline_version.as_str(), pipeline_version)
        {
            return Err(ContinuationError::LineageMismatch);
        }
        if self.marker.sequence == marker.sequence {
            if !markers_equal(&self.marker, marker) || !lineages_equal(self.segment_lineage.as_slice(), segment_lineage) {
                return Err(ContinuationError::LineageMismatch);
            }
        } else if !prefix_equal(self.segment_lineage.as_slice(), segment_lineage, self.segment_lineage.len()) {
            return Err(ContinuationError::LineageMismatch);
        }
        Ok(())
    }
}


/// The ETL-owned lifecycle of one verified predecessor/successor edge: it
/// gates decoder restoration and retention, not the capture side.
#[derive(Clone, Debug, PartialEq, Eq)]
pub struct ContinuationCoordinator {
    parent_id: u128,
    predecessor_epoch_id: u128,
    successor_epoch_id: u128,
    pipeline_version: String,
    dependency: ContinuationDependencyV2,
}

impl ContinuationCoordinator {
    pub closed spec fn spec_parent_id(&self) -> u128 {
        self.parent_id
    }

    pub closed spec fn spec_predecessor_epoch_id(&self) -> u128 {
        self.predecessor_epoch_id
    }

    pub closed spec fn spec_successor_epoch_id(&self) -> u128 {
        self.successor_epoch_id
    }

    pub closed spec fn spec_pipeline_version(&self) -> Seq<char> {
        self.pipeline_version@
    }

    pub closed spec fn spec_dependency(&self) -> ContinuationDependencyV2 {
        self.dependency
    }

    /// A pending edge; refused for an empty or over-long pipeline version,
    /// an invalid edge, or a nil parent, in that order.
    pub fn pending(parent_id: u128, predecessor_epoch_id: u128, successor_epoch_id: u128, pipeline_version: String) -> (r: Result<Self, ContinuationError>)
        ensures
            !pipeline_version_ok(pipeline_version@)
                ==> r == Err::<Self, ContinuationError>(ContinuationError::Invalid(InvalidField::PipelineVersion)),
            pipeline_version_ok(pipeline_version@) ==> {
                let d = ContinuationDependencyV2 {
                    parent_id: None,
                    state: ContinuationState::Pending,
                    predecessor_epoch_id: Some(predecessor_epoch_id),
                    successor_epoch_id,
                    input_digest: None,
                    output_digest: None,
                    failure_code: None,
                };
                if dependency_error(d) is Some {
                    r == Err::<Self, ContinuationError>(ContinuationError::Invalid(dependency_error(d)->0))
                } else if parent_id == 0 {
                    r == Err::<Self, ContinuationError>(ContinuationError::Invalid(InvalidField::ParentIdentity))
                } else {
                    r matches Ok(c) && {
                        &&& c.spec_parent_id() == parent_id
                        &&& c.spec_predecessor_epoch_id() == predecessor_epoch_id
                        &&& c.spec_successor_epoch_id() == successor_epoch_id
                        &&& c.spec_pipeline_version() == pipeline_version@
                        &&& c.spec_dependency() == d
                    }
                }
            },
    {
        if !pipeline_version_valid(pipeline_version.as_str()) {
            return Err(ContinuationError::Invalid(InvalidField::PipelineVersion));
        }
        let dependency = ContinuationDependencyV2::pending(predecessor_epoch_id, successor_epoch_id);
        match dependency.validate() {
            Ok(()) => {},
            Err(e) => return Err(e),
        }
        if parent_id == 0 {
            return Err(ContinuationError::Invalid(InvalidField::ParentIdentity));
        }
        Ok(ContinuationCoordinator { parent_id, predecessor_epoch_id, successor_epoch_id, pipeline_version, dependency })
    }

    /// Resumes an edge from a validated incremental checkpoint of the
    /// successor epoch that names this edge.
    pub fn restore_from_checkpoint(
        checkpoint: &IncrementalEtlCheckpointV2,
        unsigned_encoding: &[u8],
        restored_connections: Option<usize>,
        parent_id: u128,
        predecessor_epoch_id: u128,
        successor_epoch_id: u128,
        pipeline_version: &str,
    ) -> (r: Result<Self, ContinuationError>)
        ensures
            incremental_checkpoint_result(*checkpoint, unsigned_encoding@, restored_connections) matches Err(e)
                ==> r == Err::<Self, ContinuationError>(e),
            incremental_checkpoint_result(*checkpoint, unsigned_encoding@, restored_connections) is Ok ==> {
                if checkpoint.parent_id == parent_id && checkpoint.epoch_id == successor_epoch_id
                    && checkpoint.pipeline_version@ == pipeline_version@
                    && checkpoint.continuation.predecessor_epoch_id == Some(predecessor_epoch_id)
                    && checkpoint.continuation.successor_epoch_id == successor_epoch_id {
                    r matches Ok(c) && {
                        &&& c.spec_parent_id() == parent_id
                        &&& c.spec_predecessor_epoch_id() == predecessor_epoch_id
                        &&& c.spec_successor_epoch_id() == successor_epoch_id
                        &&& c.spec_pipeline_version() == pipeline_version@
                        &&& same_dependency(c.spec_dependency(), checkpoint.continuation)
                    }
                } else {
                    r == Err::<Self, ContinuationError>(ContinuationError::LineageMismatch)
                }
            },
    {
        match checkpoint.validate(unsigned_encoding, restored_connections) {
            Ok(()) => {},
            Err(e) => return Err(e),
        }
        if checkpoint.parent_id != parent_id
            || checkpoint.epoch_id != successor_epoch_id
            || !str_eq(checkpoint.pipeline_version.as_str(), pipeline_version)
            || checkpoint.continuation.predecessor_epoch_id != Some(predecessor_epoch_id)
            || checkpoint.continuation.successor_epoch_id != successor_epoch_id
        {
            return Err(ContinuationError::LineageMismatch);
        }
        Ok(ContinuationCoordinator {
            parent_id,
            predecessor_epoch_id,
            successor_epoch_id,
            pipeline_version: crate::text::str_copy(pipeline_version),
            dependency: copy_dependency(&checkpoint.continuation),
        })
    }

    /// Moves the edge to `ready` from the predecessor's hand-off, which must
    /// lead to this edge's successor.
    pub fn ready_from_checkpoint(
        &self,
        checkpoint: &EpochContinuationCheckpointV1,
        unsigned_encoding: &[u8],
        encoding: &[u8],
    ) -> (r: Result<Self, ContinuationError>)
        ensures
            checkpoint.successor_epoch_id != self.spec_successor_epoch_id()
                ==> r == Err::<Self, ContinuationError>(ContinuationError::LineageMismatch),
            checkpoint.successor_epoch_id == self.spec_successor_epoch_id() ==> {
                if !(checkpoint.parent_id == self.spec_parent_id()
                    && checkpoint.predecessor_epoch_id == self.spec_predecessor_epoch_id()
                    && checkpoint.pipeline_version@ == self.spec_pipeline_version()) {
                    r == Err::<Self, ContinuationError>(ContinuationError::LineageMismatch)
                } else {
                    match epoch_checkpoint_result(*checkpoint, unsigned_encoding@) {
                        Err(e) => r == Err::<Self, ContinuationError>(e),
                        Ok(()) => r matches Ok(c) && {
                            &&& c.spec_parent_id() == self.spec_parent_id()
                            &&& c.spec_predecessor_epoch_id() == self.spec_predecessor_epoch_id()
                            &&& c.spec_successor_epoch_id() == self.spec_successor_epoch_id()
                            &&& c.spec_pipeline_version() == self.spec_pipeline_version()
                            &&& c.spec_dependency().state == ContinuationState::Ready
                            &&& c.spec_dependency().parent_id == Some(self.spec_parent_id())
                            &&& c.spec_dependency().predecessor_epoch_id == Some(self.spec_predecessor_epoch_id())
                            &&& c.spec_dependency().successor_epoch_id == self.spec_successor_epoch_id()
                            &&& opt_string_view(c.spec_dependency().output_digest) == Some(digest_spec(encoding@))
                        },
                    }
                }
            },
    {
        if checkpoint.successor_epoch_id != self.successor_epoch_id {
            return Err(ContinuationError::LineageMismatch);
        }
        let dependency = match ContinuationDependencyV2::ready_from_checkpoint(
            self.parent_id,
            self.predecessor_epoch_id,
            checkpoint,
            unsigned_encoding,
            encoding,
            self.pipeline_version.as_str(),
        ) {
            Ok(d) => d,
            Err(e) => return Err(e),
        };
        Ok(ContinuationCoordinator {
            parent_id: self.parent_id,
            predecessor_epoch_id: self.predecessor_epoch_id,
            successor_epoch_id: self.successor_epoch_id,
            pipeline_version: crate::text::str_copy(self.pipeline_version.as_str()),
            dependency,
        })
    }

    /// Catch-up proof: the successor's checkpoint must be valid, name this
    /// edge and still be pending before the hand-off can make it ready.
    pub fn ready_from_incremental_checkpoint(
        &self,
        checkpoint: &IncrementalEtlCheckpointV2,
        checkpoint_unsigned_encoding: &[u8],
        restored_connections: Option<usize>,
        handoff: &EpochContinuationCheckpointV1,
        handoff_unsigned_encoding: &[u8],
        handoff_encoding: &[u8],
    ) -> (r: Result<Self, ContinuationError>)
        ensures
            incremental_checkpoint_result(*checkpoint, checkpoint_unsigned_encoding@, restored_connections) matches Err(e)
                ==> r == Err::<Self, ContinuationError>(e),
            incremental_checkpoint_result(*checkpoint, checkpoint_unsigned_encoding@, restored_connections) is Ok
                && !(checkpoint.parent_id == self.spec_parent_id() && checkpoint.epoch_id == self.spec_successor_epoch_id()
                    && checkpoint.continuation.predecessor_epoch_id == Some(self.spec_predecessor_epoch_id())
                    && checkpoint.continuation.successor_epoch_id == self.spec_successor_epoch_id())
                ==> r == Err::<Self, ContinuationError>(ContinuationError::LineageMismatch),
            incremental_checkpoint_result(*checkpoint, checkpoint_unsigned_encoding@, restored_connections) is Ok
                && checkpoint.parent_id == self.spec_parent_id() && checkpoint.epoch_id == self.spec_successor_epoch_id()
                && checkpoint.continuation.predecessor_epoch_id == Some(self.spec_predecessor_epoch_id())
                && checkpoint.continuation.successor_epoch_id == self.spec_successor_epoch_id()
                && checkpoint.continuation.state != ContinuationState::Pending
                ==> r == Err::<Self, ContinuationError>(ContinuationError::InvalidTransition),
            r is Ok ==> {
                &&& checkpoint.continuation.state == ContinuationState::Pending
                &&& handoff.successor_epoch_id == self.spec_successor_epoch_id()
                &&& epoch_checkpoint_result(*handoff, handoff_unsigned_encoding@) is Ok
                &&& r->Ok_0.spec_dependency().state == ContinuationState::Ready
                &&& opt_string_view(r->Ok_0.spec_dependency().output_digest) == Some(digest_spec(handoff_encoding@))
            },
    {
        match checkpoint.validate(checkpoint_unsigned_encoding, restored_connections) {
            Ok(()) => {},
            Err(e) => return Err(e),
        }
        if checkpoint.parent_id != self.parent_id
            || checkpoint.epoch_id != self.successor_epoch_id
            || checkpoint.continuation.predecessor_epoch_id != Some(self.predecessor_epoch_id)
            || checkpoint.continuation.successor_epoch_id != self.successor_epoch_id
        {
            return Err(ContinuationError::LineageMismatch);
        }
        if checkpoint.continuation.state != ContinuationState::Pending {
            return Err(ContinuationError::InvalidTransition);
        }
        self.ready_from_checkpoint(handoff, handoff_unsigned_encoding, handoff_encoding)
    }

    /// Consumes the ready edge with the successor's input digest.
    pub fn consume(self, input_digest: String) -> (r: Result<Self, ContinuationError>)
        ensures
            !(self.spec_dependency().state == ContinuationState::Ready
                && opt_string_view(self.spec_dependency().output_digest) == Some(input_digest@))
                ==> r == Err::<Self, ContinuationError>(ContinuationError::ChecksumMismatch),
            (self.spec_dependency().state == ContinuationState::Ready
                && opt_string_view(self.spec_dependency().output_digest) == Some(input_digest@))
                ==> match dependency_error(after_transition(self.spec_dependency(), ContinuationState::Consumed, Some(input_digest), None)) {
                    Some(f) => r == Err::<Self, ContinuationError>(ContinuationError::Invalid(f)),
                    None => r matches Ok(c) && c.same_edge(self)
                        && c.spec_dependency() == after_transition(self.spec_dependency(), ContinuationState::Consumed, Some(input_digest), None),
                },
    {
        let ContinuationCoordinator { parent_id, predecessor_epoch_id, successor_epoch_id, pipeline_version, dependency } = self;
        match dependency.consume(input_digest) {
            Ok(d) => Ok(ContinuationCoordinator { parent_id, predecessor_epoch_id, successor_epoch_id, pipeline_version, dependency: d }),
            Err(e) => Err(e),
        }
    }

    /// The edge marked unavailable, with a reason.
    pub fn unavailable(self, reason: String) -> (r: Result<Self, ContinuationError>)
        ensures
            !transition_allowed(self.spec_dependency().state, ContinuationState::Unavailable)
                ==> r == Err::<Self, ContinuationError>(ContinuationError::InvalidTransition),
            transition_allowed(self.spec_dependency().state, ContinuationState::Unavailable)
                ==> match dependency_error(after_transition(self.spec_dependency(), ContinuationState::Unavailable, None, Some(reason))) {
                    Some(f) => r == Err::<Self, ContinuationError>(ContinuationError::Invalid(f)),
                    None => r matches Ok(c) && c.same_edge(self)
                        && c.spec_dependency() == after_transition(self.spec_dependency(), ContinuationState::Unavailable, None, Some(reason)),
                },
    {
        self.fail(ContinuationState::Unavailable, reason)
    }

    /// The edge marked failed, with a reason.
    pub fn failed(self, reason: String) -> (r: Result<Self, ContinuationError>)
        ensures
            !transition_allowed(self.spec_dependency().state, ContinuationState::Failed)
                ==> r == Err::<Self, ContinuationError>(ContinuationError::InvalidTransition),
            transition_allowed(self.spec_dependency().state, ContinuationState::Failed)
                ==> match dependency_error(after_transition(self.spec_dependency(), ContinuationState::Failed, None, Some(reason))) {
                    Some(f) => r == Err::<Self, ContinuationError>(ContinuationError::Invalid(f)),
                    None => r matches Ok(c) && c.same_edge(self)
                        && c.spec_dependency() == after_transition(self.spec_dependency(), ContinuationState::Failed, None, Some(reason)),
                },
    {
        self.fail(ContinuationState::Failed, reason)
    }

    fn fail(self, state: ContinuationState, reason: String) -> (r: Result<Self, ContinuationError>)
        ensures
            !transition_allowed(self.spec_dependency().state, state)
                ==> r == Err::<Self, ContinuationError>(ContinuationError::InvalidTransition),
            transition_allowed(self.spec_dependency().state, state)
                ==> match dependency_error(after_transition(self.spec_dependency(), state, None, Some(reason))) {
                    Some(f) => r == Err::<Self, ContinuationError>(ContinuationError::Invalid(f)),
                    None => r matches Ok(c) && c.same_edge(self)
                        && c.spec_dependency() == after_transition(self.spec_dependency(), state, None, Some(reason)),
                },
    {
        let ContinuationCoordinator { parent_id, predecessor_epoch_id, successor_epoch_id, pipeline_version, dependency } = self;
        match dependency.transition(state, None, Some(reason)) {
            Ok(d) => Ok(ContinuationCoordinator { parent_id, predecessor_epoch_id, successor_epoch_id, pipeline_version, dependency: d }),
            Err(e) => Err(e),
        }
    }

    /// Both coordinators are for the same edge.
    pub open spec fn same_edge(&self, other: Self) -> bool {
        &&& self.spec_parent_id() == other.spec_parent_id()
        &&& self.spec_predecessor_epoch_id() == other.spec_predecessor_epoch_id()
        &&& self.spec_successor_epoch_id() == other.spec_successor_epoch_id()
        &&& self.spec_pipeline_version() == other.spec_pipeline_version()
    }

    pub fn parent_id(&self) -> (id: u128)
        ensures
            id == self.spec_parent_id(),
    {
        self.parent_id
    }

    pub fn predecessor_epoch_id(&self) -> (id: u128)
        ensures
            id == self.spec_predecessor_epoch_id(),
    {
        self.predecessor_epoch_id
    }

    pub fn successor_epoch_id(&self) -> (id: u128)
        ensures
            id == self.spec_successor_epoch_id(),
    {
        self.successor_epoch_id
    }

    pub fn pipeline_version(&self) -> (v: &str)
        ensures
            v@ == self.spec_pipeline_version(),
    {
        self.pipeline_version.as_str()
    }

    pub fn state(&self) -> (s: ContinuationState)
        ensures
            s == self.spec_dependency().state,
    {
        self.dependency.state
    }

    pub fn dependency(&self) -> (d: &ContinuationDependencyV2)
        ensures
            *d == self.spec_dependency(),
    {
        &self.dependency
    }
}

/// Two dependencies describe the same edge in the same state.
pub open spec fn same_dependency(a: ContinuationDependencyV2, b: ContinuationDependencyV2) -> bool {
    &&& a.parent_id == b.parent_id
    &&& a.state == b.state
    &&& a.predecessor_epoch_id == b.predecessor_epoch_id
    &&& a.successor_epoch_id == b.successor_epoch_id
    &&& opt_string_view(a.input_digest) == opt_string_view(b.input_digest)
    &&& opt_string_view(a.output_digest) == opt_string_view(b.output_digest)
    &&& opt_string_view(a.failure_code) == opt_string_view(b.failure_code)
}

fn copy_dependency(d: &ContinuationDependencyV2) -> (r: ContinuationDependencyV2)
    ensures
        same_dependency(r, *d),
{
    ContinuationDependencyV2 {
        parent_id: d.parent_id,
        state: d.state,
        predecessor_epoch_id: d.predecessor_epoch_id,
        successor_epoch_id: d.successor_epoch_id,
        input_digest: copy_opt(&d.input_digest),
        output_digest: copy_opt(&d.output_digest),
        failure_code: copy_opt(&d.failure_code),
    }
}

} // verus!
