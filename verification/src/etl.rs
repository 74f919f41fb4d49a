//! The ETL pipeline's configuration, issues and evidence records.
use vstd::prelude::*;
use crate::session::{
    contains_text, str_contains, LossWindowClassification, ReconstructionConnection, ReconstructionConnectionIdentity,
    ReconstructionEvidence, ReconstructionPushError, SessionError, SessionLimits, TerminalPersistenceLoss,
};
use crate::ordering::{events_view, EventView, EvidenceView};
use crate::text::{decimal_chars, decimal_string};
use crate::digest::sha256_of;
use crate::incremental::{lemma_be_bound, lemma_pow256_monotone, be_value, pow256, uuid_value};
use vstd::string::StringSliceAdditionalSpecFns;
use vstd::utf8::encode_utf8;
use crate::canonical::{
    CanonicalConnection, CanonicalOperation, CanonicalSession, CanonicalWarning, Completeness, Endpoint, OperationEffect,
    OperationKind, PayloadRef, PayloadView, ProtocolData, TimelineEntry, completeness_of, opt_str_view, warnings_view,
};
use crate::detector::{ProtocolStream, StreamChunk};
use crate::text::str_copy;

verus! {

pub const DEFAULT_MAX_ISSUES: usize = 1024;
pub const ENVELOPE_BATCH_SIZE: usize = 4096;
pub const MAX_CANONICAL_OPERATIONS: usize = 10000;

#[derive(Clone, Copy, Debug, PartialEq, Eq, Structural)]
pub enum EtlIssueKind {
    MalformedCaptureEvent,
    CaptureSequenceMismatch,
    PartialWalTail,
    UnknownProtocol,
    ProtocolDecode,
    MalformedLossWindow,
    MalformedTerminalWalLoss,
    MalformedCommitMarker,
}

impl EtlIssueKind {
    /// The variant's name, as its `Debug` form spells it.
    pub fn name(&self) -> (s: &'static str)
        ensures
            s@ == issue_kind_name(*self),
    {
        match self {
            EtlIssueKind::MalformedCaptureEvent => "MalformedCaptureEvent",
            EtlIssueKind::CaptureSequenceMismatch => "CaptureSequenceMismatch",
            EtlIssueKind::PartialWalTail => "PartialWalTail",
            EtlIssueKind::UnknownProtocol => "UnknownProtocol",
            EtlIssueKind::ProtocolDecode => "ProtocolDecode",
            EtlIssueKind::MalformedLossWindow => "MalformedLossWindow",
            EtlIssueKind::MalformedTerminalWalLoss => "MalformedTerminalWalLoss",
            EtlIssueKind::MalformedCommitMarker => "MalformedCommitMarker",
        }
    }
}

pub open spec fn issue_kind_name(k: EtlIssueKind) -> Seq<char> {
    match k {
        EtlIssueKind::MalformedCaptureEvent => "MalformedCaptureEvent"@,
        EtlIssueKind::CaptureSequenceMismatch => "CaptureSequenceMismatch"@,
        EtlIssueKind::PartialWalTail => "PartialWalTail"@,
        EtlIssueKind::UnknownProtocol => "UnknownProtocol"@,
        EtlIssueKind::ProtocolDecode => "ProtocolDecode"@,
        EtlIssueKind::MalformedLossWindow => "MalformedLossWindow"@,
        EtlIssueKind::MalformedTerminalWalLoss => "MalformedTerminalWalLoss"@,
        EtlIssueKind::MalformedCommitMarker => "MalformedCommitMarker"@,
    }
}

/// Something the pipeline could not turn into canonical evidence.
#[derive(Clone, Debug, PartialEq, Eq)]
pub struct EtlIssue {
    pub sequence: Option<u64>,
    pub kind: EtlIssueKind,
    pub message: String,
}

/// Evidence with the WAL sequence it came from; `None` when finalized
/// recording metadata supplied it.
#[derive(Clone, Debug, PartialEq, Eq)]
pub struct SequencedEvidence<T> {
    pub sequence: Option<u64>,
    pub value: T,
}

#[derive(Clone, Copy, Debug, PartialEq, Eq, Structural)]
pub enum EtlError {
    Session(SessionError),
    Reconstruction(ReconstructionPushError),
    OperationLimit { limit: usize },
    TimelineReference,
    IssueLimit { limit: usize },
    SnapshotRegression,
    SnapshotLineageMismatch,
    SnapshotGap,
    DecoderCheckpointMismatch,
}

/// The pipeline's bounds.
pub struct EtlPipeline {
    limits: SessionLimits,
    max_issues: usize,
}

impl EtlPipeline {
    pub closed spec fn spec_limits(&self) -> SessionLimits {
        self.limits
    }

    pub closed spec fn spec_max_issues(&self) -> usize {
        self.max_issues
    }

    /// A pipeline with the default issue bound.
    pub fn new(limits: SessionLimits) -> (p: Self)
        ensures
            p.spec_limits() == limits,
            p.spec_max_issues() == DEFAULT_MAX_ISSUES,
    {
        Self::with_max_issues(limits, DEFAULT_MAX_ISSUES)
    }

    pub fn with_max_issues(limits: SessionLimits, max_issues: usize) -> (p: Self)
        ensures
            p.spec_limits() == limits,
            p.spec_max_issues() == max_issues,
    {
        EtlPipeline { limits, max_issues }
    }

    pub fn limits(&self) -> (l: SessionLimits)
        ensures
            l == self.spec_limits(),
    {
        self.limits
    }

    pub fn max_issues(&self) -> (n: usize)
        ensures
            n == self.spec_max_issues(),
    {
        self.max_issues
    }
}

/// Records an issue unless the bound is reached, which is an error.
pub fn record_issue(issues: &mut Vec<EtlIssue>, max_issues: usize, issue: EtlIssue) -> (r: Result<(), EtlError>)
    ensures
        old(issues)@.len() >= max_issues ==> r == Err::<(), EtlError>(EtlError::IssueLimit { limit: max_issues })
            && final(issues)@ == old(issues)@,
        old(issues)@.len() < max_issues ==> r is Ok && final(issues)@ == old(issues)@.push(issue),
{
    if issues.len() >= max_issues {
        return Err(EtlError::IssueLimit { limit: max_issues });
    }
    issues.push(issue);
    Ok(())
}

/// The operation count after adding `additional` to `existing`, within the
/// canonical operation bound.
pub fn bounded_operation_count(existing: usize, additional: usize) -> (r: Result<usize, EtlError>)
    ensures
        existing + additional <= MAX_CANONICAL_OPERATIONS ==> r == Ok::<usize, EtlError>((existing + additional) as usize),
        existing + additional > MAX_CANONICAL_OPERATIONS
            ==> r == Err::<usize, EtlError>(EtlError::OperationLimit { limit: MAX_CANONICAL_OPERATIONS }),
{
    if additional > MAX_CANONICAL_OPERATIONS || existing > MAX_CANONICAL_OPERATIONS - additional {
        return Err(EtlError::OperationLimit { limit: MAX_CANONICAL_OPERATIONS });
    }
    Ok(existing + additional)
}

/// The issue names a final session records, and whether it is complete.
pub fn issue_summary(issues: &[EtlIssue]) -> (r: (Vec<String>, bool))
    ensures
        r.0@.len() == issues@.len(),
        forall|i: int| 0 <= i < issues@.len() ==> #[trigger] r.0@[i]@ == issue_kind_name(issues@[i].kind),
        r.1 == (issues@.len() == 0),
{
    let mut names: Vec<String> = Vec::new();
    let mut i: usize = 0;
    while i < issues.len()
        invariant
            i <= issues@.len(),
            names@.len() == i,
            forall|k: int| 0 <= k < i ==> #[trigger] names@[k]@ == issue_kind_name(issues@[k].kind),
        decreases issues.len() - i,
    {
        names.push(crate::text::str_copy(issues[i].kind.name()));
        i = i + 1;
    }
    (names, issues.len() == 0)
}


/// An operation is partial when its stream was cut short, it has no
/// recorded response, or a warning code mentions truncation or
/// incompleteness.
pub open spec fn operation_completeness(op: CanonicalOperation, stream_truncated: bool) -> Completeness {
    if stream_truncated || op.recorded_response is None
        || exists|i: int| 0 <= i < op.warnings@.len()
            && (contains_text((#[trigger] op.warnings@[i]).code@, "truncated"@) || contains_text(op.warnings@[i].code@, "incomplete"@))
    {
        Completeness::Partial
    } else {
        Completeness::Complete
    }
}

/// An operation is partial when its stream was cut short, when it has no
/// recorded response, or when any of its warnings has a code containing
/// "truncated" or "incomplete"; otherwise it is complete.
pub proof fn lemma_operation_completeness(op: CanonicalOperation, stream_truncated: bool)
    ensures
        stream_truncated ==> operation_completeness(op, stream_truncated) == Completeness::Partial,
        op.recorded_response is None ==> operation_completeness(op, stream_truncated) == Completeness::Partial,
        forall|i: int, k: int| 0 <= i < op.warnings@.len() && 0 <= k && k + 9 <= op.warnings@[i].code@.len()
            && #[trigger] op.warnings@[i].code@.subrange(k, k + 9) == "truncated"@
            ==> operation_completeness(op, stream_truncated) == Completeness::Partial,
        forall|i: int, k: int| 0 <= i < op.warnings@.len() && 0 <= k && k + 10 <= op.warnings@[i].code@.len()
            && #[trigger] op.warnings@[i].code@.subrange(k, k + 10) == "incomplete"@
            ==> operation_completeness(op, stream_truncated) == Completeness::Partial,
        (!stream_truncated && op.recorded_response is Some
            && forall|i: int| 0 <= i < op.warnings@.len() ==> !contains_text(#[trigger] op.warnings@[i].code@, "truncated"@)
                && !contains_text(op.warnings@[i].code@, "incomplete"@))
            ==> operation_completeness(op, stream_truncated) == Completeness::Complete,
{
    reveal_strlit("truncated");
    reveal_strlit("incomplete");
    assert forall|i: int, k: int| 0 <= i < op.warnings@.len() && 0 <= k && k + 9 <= op.warnings@[i].code@.len()
        && #[trigger] op.warnings@[i].code@.subrange(k, k + 9) == "truncated"@
        implies operation_completeness(op, stream_truncated) == Completeness::Partial by {
        assert("truncated"@.len() == 9);
        assert(op.warnings@[i].code@.subrange(k, k + "truncated"@.len()) == "truncated"@);
        assert(contains_text(op.warnings@[i].code@, "truncated"@));
    }
    assert forall|i: int, k: int| 0 <= i < op.warnings@.len() && 0 <= k && k + 10 <= op.warnings@[i].code@.len()
        && #[trigger] op.warnings@[i].code@.subrange(k, k + 10) == "incomplete"@
        implies operation_completeness(op, stream_truncated) == Completeness::Partial by {
        assert("incomplete"@.len() == 10);
        assert(op.warnings@[i].code@.subrange(k, k + "incomplete"@.len()) == "incomplete"@);
        assert(contains_text(op.warnings@[i].code@, "incomplete"@));
    }
}

pub fn derive_operation_completeness(op: &CanonicalOperation, stream_truncated: bool) -> (c: Completeness)
    ensures
        c == operation_completeness(*op, stream_truncated),
{
    if stream_truncated || op.recorded_response.is_none() {
        return Completeness::Partial;
    }
    let mut i: usize = 0;
    while i < op.warnings.len()
        invariant
            i <= op.warnings@.len(),
            forall|k: int| 0 <= k < i ==> !(contains_text((#[trigger] op.warnings@[k]).code@, "truncated"@)
                || contains_text(op.warnings@[k].code@, "incomplete"@)),
        decreases op.warnings.len() - i,
    {
        let code = op.warnings[i].code.as_str();
        if str_contains(code, "truncated") || str_contains(code, "incomplete") {
            return Completeness::Partial;
        }
        i = i + 1;
    }
    Completeness::Complete
}

/// All payload bytes of a stream's chunks, in chunk order.
pub open spec fn stream_bytes(chunks: Seq<StreamChunk>) -> Seq<u8>
    decreases chunks.len(),
{
    if chunks.len() == 0 {
        Seq::empty()
    } else {
        stream_bytes(chunks.drop_last()) + chunks.last().payload@
    }
}

/// The first chunk's sequence, when there is a chunk.
pub open spec fn first_sequence(chunks: Seq<StreamChunk>) -> Option<u64> {
    if chunks.len() == 0 { None } else { Some(chunks[0].sequence) }
}

pub open spec fn octet_stream() -> Seq<char> {
    "application/octet-stream"@
}

/// The operation that preserves a stream no protocol could decode: all its
/// bytes, as an opaque request.
pub open spec fn opaque_operation_matches(op: CanonicalOperation, chunks: Seq<StreamChunk>) -> bool {
    &&& op.sequence == match first_sequence(chunks) { Some(s) => s, None => 0 }
    &&& op.started_at_offset == 0
    &&& op.completed_at_offset is None
    &&& op.kind == OperationKind::Opaque
    &&& op.effect == OperationEffect::Unknown
    &&& op.request@ == PayloadView::Inline { content_type: Some(octet_stream()), bytes: stream_bytes(chunks) }
    &&& op.recorded_response is None
    &&& op.attributes@.len() == 0
    &&& op.protocol_data.schema_version == 1
    &&& opt_str_view(op.protocol_data.media_type) == Some(octet_stream())
    &&& op.protocol_data.bytes@ == stream_bytes(chunks)
    &&& !op.incomplete
    &&& !op.truncated
    &&& op.redactions@.len() == 0
    &&& op.warnings@.len() == 0
}

fn collect_stream_bytes(chunks: &Vec<StreamChunk>) -> (b: Vec<u8>)
    ensures
        b@ == stream_bytes(chunks@),
{
    let mut out: Vec<u8> = Vec::new();
    let mut i: usize = 0;
    while i < chunks.len()
        invariant
            i <= chunks@.len(),
            out@ == stream_bytes(chunks@.take(i as int)),
        decreases chunks.len() - i,
    {
        crate::bytes::extend_bytes(&mut out, chunks[i].payload.as_slice());
        proof {
            assert(chunks@.take(i + 1).drop_last() =~= chunks@.take(i as int));
        }
        i = i + 1;
    }
    proof {
        assert(chunks@.take(chunks@.len() as int) =~= chunks@);
    }
    out
}

/// The opaque operation for a stream no protocol decoded, with identifier
/// `id`.
pub fn opaque_operation(stream: &ProtocolStream, id: u128) -> (op: CanonicalOperation)
    ensures
        op.id == id,
        opaque_operation_matches(op, stream.chunks@),
{
    let bytes = collect_stream_bytes(&stream.chunks);
    let copy = crate::canonical::copy_bytes(&bytes);
    let sequence = if stream.chunks.len() == 0 { 0 } else { stream.chunks[0].sequence };
    CanonicalOperation {
        id,
        sequence,
        started_at_offset: 0,
        completed_at_offset: None,
        kind: OperationKind::Opaque,
        effect: OperationEffect::Unknown,
        request: PayloadRef::Inline { content_type: Some(str_copy("application/octet-stream")), bytes: copy },
        recorded_response: None,
        attributes: Vec::new(),
        protocol_data: ProtocolData { schema_version: 1, media_type: Some(str_copy("application/octet-stream")), bytes },
        incomplete: false,
        truncated: false,
        redactions: Vec::new(),
        warnings: Vec::new(),
    }
}

/// Records `state` for `id`, replacing an earlier record for it.
fn set_completeness(entries: &mut Vec<(u128, Completeness)>, id: u128, state: Completeness)
    ensures
        completeness_of(final(entries)@, id) == state,
        forall|other: u128| other != id ==> completeness_of(final(entries)@, other) == completeness_of(old(entries)@, other),
{
    let ghost before = entries@;
    let mut i: usize = 0;
    while i < entries.len()
        invariant
            entries@ == before,
            before == old(entries)@,
            i <= entries@.len(),
            forall|k: int| 0 <= k < i ==> #[trigger] entries@[k].0 != id,
        decreases entries.len() - i,
    {
        if entries[i].0 == id {
            entries.set(i, (id, state));
            proof {
                lemma_completeness_update(before, i as int, id, state);
                assert(entries@ == before.update(i as int, (id, state)));
                assert forall|other: u128| other != id implies completeness_of(entries@, other) == completeness_of(before, other) by {
                    assert(completeness_of(before.update(i as int, (id, state)), other) == completeness_of(before, other));
                }
            }
            return;
        }
        i = i + 1;
    }
    entries.push((id, state));
    proof { lemma_completeness_push(before, id, state); }
}

proof fn lemma_completeness_update(s: Seq<(u128, Completeness)>, i: int, id: u128, state: Completeness)
    requires
        0 <= i < s.len(),
        s[i].0 == id,
        forall|k: int| 0 <= k < i ==> #[trigger] s[k].0 != id,
    ensures
        completeness_of(s.update(i, (id, state)), id) == state,
        forall|other: u128| other != id ==> completeness_of(s.update(i, (id, state)), other) == completeness_of(s, other),
    decreases i,
{
    let t = s.update(i, (id, state));
    if i == 0 {
        assert(t.drop_first() =~= s.drop_first());
        assert forall|other: u128| other != id implies completeness_of(t, other) == completeness_of(s, other) by {
            assert(completeness_of(t, other) == completeness_of(t.drop_first(), other));
            assert(completeness_of(s, other) == completeness_of(s.drop_first(), other));
        }
    } else {
        lemma_completeness_update(s.drop_first(), i - 1, id, state);
        assert(t.drop_first() =~= s.drop_first().update(i - 1, (id, state)));
        assert forall|other: u128| other != id implies completeness_of(t, other) == completeness_of(s, other) by {
            assert(t[0] == s[0]);
            if s[0].0 != other {
                assert(completeness_of(t, other) == completeness_of(s.drop_first().update(i - 1, (id, state)), other));
                assert(completeness_of(s, other) == completeness_of(s.drop_first(), other));
            }
        }
    }
}

proof fn lemma_completeness_push(s: Seq<(u128, Completeness)>, id: u128, state: Completeness)
    requires
        forall|k: int| 0 <= k < s.len() ==> #[trigger] s[k].0 != id,
    ensures
        completeness_of(s.push((id, state)), id) == state,
        forall|other: u128| other != id ==> completeness_of(s.push((id, state)), other) == completeness_of(s, other),
    decreases s.len(),
{
    let t = s.push((id, state));
    if s.len() == 0 {
        assert(t.drop_first() =~= Seq::<(u128, Completeness)>::empty());
        assert forall|other: u128| other != id implies completeness_of(t, other) == completeness_of(s, other) by {
            assert(completeness_of(t, other) == completeness_of(t.drop_first(), other));
        }
    } else {
        lemma_completeness_push(s.drop_first(), id, state);
        assert(t.drop_first() =~= s.drop_first().push((id, state)));
        assert forall|other: u128| other != id implies completeness_of(t, other) == completeness_of(s, other) by {
            assert(t[0] == s[0]);
            if s[0].0 != other {
                assert(completeness_of(t, other) == completeness_of(s.drop_first().push((id, state)), other));
                assert(completeness_of(s, other) == completeness_of(s.drop_first(), other));
            }
        }
    }
}


/// Inserts `x` after the trailing entries whose sequence exceeds its own.
pub open spec fn insert_by_sequence(s: Seq<(u64, TimelineEntry)>, x: (u64, TimelineEntry)) -> Seq<(u64, TimelineEntry)>
    decreases s.len(),
{
    if s.len() == 0 {
        seq![x]
    } else if s.last().0 <= x.0 {
        s.push(x)
    } else {
        insert_by_sequence(s.drop_last(), x).push(s.last())
    }
}

/// Timeline items ordered by sequence; items with equal sequences keep
/// their order.
pub open spec fn sort_by_sequence(s: Seq<(u64, TimelineEntry)>) -> Seq<(u64, TimelineEntry)>
    decreases s.len(),
{
    if s.len() == 0 {
        Seq::empty()
    } else {
        insert_by_sequence(sort_by_sequence(s.drop_last()), s.last())
    }
}

pub open spec fn sequence_sorted(s: Seq<(u64, TimelineEntry)>) -> bool {
    forall|i: int, j: int| 0 <= i < j < s.len() ==> (#[trigger] s[i]).0 <= (#[trigger] s[j]).0
}

proof fn lemma_insert_at(s: Seq<(u64, TimelineEntry)>, x: (u64, TimelineEntry), j: int)
    requires
        0 <= j <= s.len(),
        forall|k: int| j <= k < s.len() ==> (#[trigger] s[k]).0 > x.0,
        j == 0 || s[j - 1].0 <= x.0,
    ensures
        insert_by_sequence(s, x) == s.insert(j, x),
    decreases s.len(),
{
    if s.len() == 0 {
        assert(s.insert(j, x) =~= seq![x]);
    } else if s.last().0 <= x.0 {
        assert(j == s.len());
        assert(s.insert(j, x) =~= s.push(x));
    } else {
        lemma_insert_at(s.drop_last(), x, j);
        assert(s.insert(j, x) =~= s.drop_last().insert(j, x).push(s.last()));
    }
}

proof fn lemma_insert_sorted(s: Seq<(u64, TimelineEntry)>, x: (u64, TimelineEntry))
    requires
        sequence_sorted(s),
    ensures
        sequence_sorted(insert_by_sequence(s, x)),
        insert_by_sequence(s, x).len() == s.len() + 1,
        insert_by_sequence(s, x).to_multiset() == s.to_multiset().insert(x),
    decreases s.len(),
{
    broadcast use vstd::seq_lib::group_to_multiset_ensures;
    if s.len() == 0 {
        assert(seq![x].to_multiset() =~= Seq::<(u64, TimelineEntry)>::empty().to_multiset().insert(x)) by {
            assert(seq![x] =~= Seq::<(u64, TimelineEntry)>::empty().push(x));
        }
    } else if s.last().0 <= x.0 {
    } else {
        let t = s.drop_last();
        lemma_insert_sorted(t, x);
        let r = insert_by_sequence(t, x);
        assert forall|i: int, j: int| 0 <= i < j < r.len() + 1 implies (#[trigger] r.push(s.last())[i]).0 <= (#[trigger] r.push(s.last())[j]).0 by {
            if j == r.len() {
                let ri = r[i];
                assert(r.to_multiset().count(ri) > 0);
                assert(t.to_multiset().insert(x).count(ri) > 0);
                if ri != x {
                    assert(t.to_multiset().count(ri) > 0);
                    assert(t.contains(ri));
                    let k = choose|k: int| 0 <= k < t.len() && t[k] == ri;
                    assert(s[k] == ri);
                    assert(s[k].0 <= s[s.len() - 1].0);
                }
            }
        }
        assert(s =~= t.push(s.last()));
    }
}

/// The sorted timeline holds the same items, in sequence order.
pub proof fn lemma_sort_by_sequence(s: Seq<(u64, TimelineEntry)>)
    ensures
        sequence_sorted(sort_by_sequence(s)),
        sort_by_sequence(s).len() == s.len(),
        sort_by_sequence(s).to_multiset() == s.to_multiset(),
    decreases s.len(),
{
    broadcast use vstd::seq_lib::group_to_multiset_ensures;
    if s.len() > 0 {
        lemma_sort_by_sequence(s.drop_last());
        lemma_insert_sorted(sort_by_sequence(s.drop_last()), s.last());
        assert(s =~= s.drop_last().push(s.last()));
    }
}

fn sort_timeline(items: Vec<(u64, TimelineEntry)>) -> (out: Vec<(u64, TimelineEntry)>)
    ensures
        out@ == sort_by_sequence(items@),
{
    let mut out: Vec<(u64, TimelineEntry)> = Vec::new();
    let mut i: usize = 0;
    while i < items.len()
        invariant
            i <= items@.len(),
            out@ == sort_by_sequence(items@.take(i as int)),
        decreases items.len() - i,
    {
        let x = items[i];
        let mut j: usize = out.len();
        while j > 0 && out[j - 1].0 > x.0
            invariant
                j <= out@.len(),
                forall|k: int| j <= k < out@.len() ==> (#[trigger] out@[k]).0 > x.0,
            decreases j,
        {
            j = j - 1;
        }
        proof {
            lemma_insert_at(out@, x, j as int);
            assert(items@.take(i + 1).drop_last() =~= items@.take(i as int));
        }
        out.insert(j, x);
        i = i + 1;
    }
    proof {
        assert(items@.take(items@.len() as int) =~= items@);
    }
    out
}


/// What protocol detection and decoding made of one connection's stream.
#[derive(Debug)]
pub enum StreamOutcome {
    /// A registered protocol decoded it into these operations.
    Decoded { protocol: String, operations: Vec<CanonicalOperation> },
    /// A registered protocol recognised it but could not decode it.
    DecodeFailed { protocol: String, message: String },
    /// No registered protocol recognised it.
    Undetected,
}

/// One connection as the pipeline assembles it: its endpoints and
/// attributes, the stream protocols saw, and what they made of it.
#[derive(Debug)]
pub struct ConnectionEvidence {
    pub client: Endpoint,
    pub server: Endpoint,
    pub attributes: Vec<(String, String)>,
    pub stream: ProtocolStream,
    pub outcome: StreamOutcome,
}

/// The issue a connection's outcome records, if any: a failed decode, or
/// traffic no protocol recognised; at the stream's first sequence.
pub open spec fn outcome_issue(c: ConnectionEvidence) -> Option<(Option<u64>, EtlIssueKind, Seq<char>)> {
    match c.outcome {
        StreamOutcome::Decoded { .. } => None,
        StreamOutcome::DecodeFailed { message, .. } => Some((first_sequence(c.stream.chunks@), EtlIssueKind::ProtocolDecode, message@)),
        StreamOutcome::Undetected => Some((first_sequence(c.stream.chunks@), EtlIssueKind::UnknownProtocol, "traffic preserved as opaque bytes"@)),
    }
}

/// How many operations a connection contributes: its decoded operations,
/// or one opaque operation.
pub open spec fn outcome_operation_count(c: ConnectionEvidence) -> nat {
    match c.outcome {
        StreamOutcome::Decoded { operations, .. } => operations@.len(),
        _ => 1,
    }
}

/// The protocol a connection is recorded under.
pub open spec fn outcome_protocol(c: ConnectionEvidence) -> Seq<char> {
    match c.outcome {
        StreamOutcome::Decoded { protocol, .. } => protocol@,
        StreamOutcome::DecodeFailed { protocol, .. } => protocol@,
        StreamOutcome::Undetected => "unknown"@,
    }
}

/// A connection is partial when it carried nothing or was cut short.
pub open spec fn connection_state(c: ConnectionEvidence) -> Completeness {
    if c.stream.chunks@.len() == 0 || c.stream.truncated { Completeness::Partial } else { Completeness::Complete }
}

/// The error assembly stops with, if any, for connections `cs` after
/// `issues` issues and `ops` operations: the issue bound when a connection
/// needs an issue recorded and the bound is reached, else the operation
/// bound when the connection's operations would pass it.
pub open spec fn assembly_error(cs: Seq<ConnectionEvidence>, issues: nat, ops: nat, max_issues: nat) -> Option<EtlError>
    decreases cs.len(),
{
    if cs.len() == 0 {
        None
    } else {
        let c = cs[0];
        let needs = outcome_issue(c) is Some;
        if needs && issues >= max_issues {
            Some(EtlError::IssueLimit { limit: max_issues as usize })
        } else if ops + outcome_operation_count(c) > MAX_CANONICAL_OPERATIONS {
            Some(EtlError::OperationLimit { limit: MAX_CANONICAL_OPERATIONS })
        } else {
            assembly_error(cs.drop_first(), if needs { issues + 1 } else { issues }, ops + outcome_operation_count(c), max_issues)
        }
    }
}

/// Assembly stops only at the issue bound or the operation bound.
pub proof fn lemma_assembly_error_kind(cs: Seq<ConnectionEvidence>, issues: nat, ops: nat, max_issues: nat)
    ensures
        assembly_error(cs, issues, ops, max_issues) matches Some(e) ==> (e is IssueLimit || e is OperationLimit),
    decreases cs.len(),
{
    if cs.len() > 0 {
        let c = cs[0];
        let needs = outcome_issue(c) is Some;
        lemma_assembly_error_kind(cs.drop_first(), if needs { issues + 1 } else { issues }, ops + outcome_operation_count(c), max_issues);
    }
}

/// The operations connections `cs` contribute: each decoded operation, or
/// one opaque operation for a connection that was not decoded.
pub open spec fn total_operations(cs: Seq<ConnectionEvidence>) -> nat
    decreases cs.len(),
{
    if cs.len() == 0 {
        0
    } else {
        outcome_operation_count(cs[0]) + total_operations(cs.drop_first())
    }
}

/// Assembly never passes the operation bound: when the connections'
/// operations, after `ops` within the bound already assembled, come to
/// more than the bound, assembly stops with an error.
pub proof fn lemma_operation_bound(cs: Seq<ConnectionEvidence>, issues: nat, ops: nat, max_issues: nat)
    requires
        ops <= MAX_CANONICAL_OPERATIONS,
    ensures
        ops + total_operations(cs) > MAX_CANONICAL_OPERATIONS ==> assembly_error(cs, issues, ops, max_issues) is Some,
    decreases cs.len(),
{
    if cs.len() > 0 {
        let c = cs[0];
        let needs = outcome_issue(c) is Some;
        assert(total_operations(cs) == outcome_operation_count(c) + total_operations(cs.drop_first()));
        if !(needs && issues >= max_issues) && ops + outcome_operation_count(c) <= MAX_CANONICAL_OPERATIONS {
            lemma_operation_bound(cs.drop_first(), if needs { issues + 1 } else { issues }, ops + outcome_operation_count(c), max_issues);
        }
    }
}

pub open spec fn issue_view(i: EtlIssue) -> (Option<u64>, EtlIssueKind, Seq<char>) {
    (i.sequence, i.kind, i.message@)
}

pub open spec fn issues_view(s: Seq<EtlIssue>) -> Seq<(Option<u64>, EtlIssueKind, Seq<char>)> {
    s.map_values(|i: EtlIssue| issue_view(i))
}

/// The issues the connections record, in order.
pub open spec fn assembly_issues(cs: Seq<ConnectionEvidence>) -> Seq<(Option<u64>, EtlIssueKind, Seq<char>)>
    decreases cs.len(),
{
    if cs.len() == 0 {
        Seq::empty()
    } else {
        assembly_issues(cs.drop_last()) + match outcome_issue(cs.last()) {
            Some(i) => seq![i],
            None => Seq::empty(),
        }
    }
}

/// The state last recorded for `id` in `entries`; partial when none is.
pub open spec fn last_state(entries: Seq<(u128, Completeness)>, id: u128) -> Completeness
    decreases entries.len(),
{
    if entries.len() == 0 {
        Completeness::Partial
    } else if entries.last().0 == id {
        entries.last().1
    } else {
        last_state(entries.drop_last(), id)
    }
}

proof fn lemma_last_state_push(s: Seq<(u128, Completeness)>, x: (u128, Completeness))
    ensures
        forall|id: u128| #[trigger] last_state(s.push(x), id) == if id == x.0 { x.1 } else { last_state(s, id) },
{
    assert(s.push(x).drop_last() =~= s);
}

/// The timeline items of operations on connection `connection_id`.
pub open spec fn operation_timeline(ops: Seq<CanonicalOperation>, connection_id: u128) -> Seq<(u64, TimelineEntry)> {
    ops.map_values(|op: CanonicalOperation| (op.sequence, TimelineEntry { connection_id: connection_id, operation_id: op.id, offset: op.started_at_offset }))
}

/// The completeness of each operation of a stream.
pub open spec fn operation_state_items(ops: Seq<CanonicalOperation>, stream_truncated: bool) -> Seq<(u128, Completeness)> {
    ops.map_values(|op: CanonicalOperation| (op.id, operation_completeness(op, stream_truncated)))
}

/// The timeline items of a connection's operations.
pub open spec fn connection_timeline(c: CanonicalConnection) -> Seq<(u64, TimelineEntry)> {
    operation_timeline(c.operations@, c.id)
}

pub open spec fn timeline_items(conns: Seq<CanonicalConnection>) -> Seq<(u64, TimelineEntry)>
    decreases conns.len(),
{
    if conns.len() == 0 {
        Seq::empty()
    } else {
        timeline_items(conns.drop_last()) + connection_timeline(conns.last())
    }
}

/// Each operation's completeness, connection by connection.
pub open spec fn operation_states(conns: Seq<CanonicalConnection>, cs: Seq<ConnectionEvidence>) -> Seq<(u128, Completeness)>
    decreases conns.len(),
{
    if conns.len() == 0 || cs.len() == 0 {
        Seq::empty()
    } else {
        operation_states(conns.drop_last(), cs.drop_last())
            + operation_state_items(conns.last().operations@, cs.last().stream.truncated)
    }
}

/// Each connection's completeness.
pub open spec fn connection_states(conns: Seq<CanonicalConnection>, cs: Seq<ConnectionEvidence>) -> Seq<(u128, Completeness)>
    decreases conns.len(),
{
    if conns.len() == 0 || cs.len() == 0 {
        Seq::empty()
    } else {
        connection_states(conns.drop_last(), cs.drop_last()).push((conns.last().id, connection_state(cs.last())))
    }
}

/// The canonical connection assembled from connection evidence `c`.
pub open spec fn assembled_connection(conn: CanonicalConnection, c: ConnectionEvidence) -> bool {
    &&& conn.client == c.client
    &&& conn.server == c.server
    &&& conn.attributes == c.attributes
    &&& conn.protocol@ == outcome_protocol(c)
    &&& match c.outcome {
        StreamOutcome::Decoded { operations, .. } => conn.operations == operations,
        _ => conn.operations@.len() == 1 && opaque_operation_matches(conn.operations@[0], c.stream.chunks@),
    }
}

pub open spec fn timeline_of(items: Seq<(u64, TimelineEntry)>) -> Seq<TimelineEntry> {
    items.map_values(|x: (u64, TimelineEntry)| x.1)
}

proof fn lemma_connection_state_lookup(conns: Seq<CanonicalConnection>, cs: Seq<ConnectionEvidence>, i: int)
    requires
        conns.len() == cs.len(),
        0 <= i < conns.len(),
        forall|a: int, b: int| 0 <= a < b < conns.len() ==> (#[trigger] conns[a]).id != (#[trigger] conns[b]).id,
    ensures
        last_state(connection_states(conns, cs), conns[i].id) == connection_state(cs[i]),
    decreases conns.len(),
{
    let n = conns.len() - 1;
    let states = connection_states(conns, cs);
    assert(states == connection_states(conns.drop_last(), cs.drop_last()).push((conns.last().id, connection_state(cs.last()))));
    let prev = connection_states(conns.drop_last(), cs.drop_last());
    assert(states.drop_last() =~= prev);
    if i < n {
        assert(conns[i].id != conns[n].id);
        assert(conns.drop_last()[i] == conns[i]);
        assert(cs.drop_last()[i] == cs[i]);
        lemma_connection_state_lookup(conns.drop_last(), cs.drop_last(), i);
    }
}

/// A finished reconstructed session records a connection as partial
/// exactly when its stream has no chunks or was marked truncated (the
/// connections having distinct identifiers), and lists every operation in
/// its timeline in operation-sequence order.
#[verifier::spinoff_prover]
pub proof fn lemma_finished_completeness_and_timeline(
    max_issues: usize,
    connections: Seq<ConnectionEvidence>,
    issues: Seq<(Option<u64>, EtlIssueKind, Seq<char>)>,
    session_id: u128,
    session: CanonicalSession,
    out: Vec<EtlIssue>,
)
    requires
        reconstructed_finish(max_issues, connections, issues, session_id, Ok::<(CanonicalSession, Vec<EtlIssue>), EtlError>((session, out))),
        forall|a: int, b: int| 0 <= a < b < session.connections@.len()
            ==> (#[trigger] session.connections@[a]).id != (#[trigger] session.connections@[b]).id,
    ensures
        forall|i: int| 0 <= i < connections.len() ==>
            (completeness_of(session.connection_completeness@, #[trigger] session.connections@[i].id) == Completeness::Partial
                <==> (connections[i].stream.chunks@.len() == 0 || connections[i].stream.truncated)),
        exists|items: Seq<(u64, TimelineEntry)>| sequence_sorted(items)
            && items.to_multiset() == timeline_items(session.connections@).to_multiset()
            && session.timeline@ == #[trigger] timeline_of(items),
{
    assert forall|i: int| 0 <= i < connections.len() implies
        (completeness_of(session.connection_completeness@, #[trigger] session.connections@[i].id) == Completeness::Partial
            <==> (connections[i].stream.chunks@.len() == 0 || connections[i].stream.truncated)) by {
        lemma_connection_state_lookup(session.connections@, connections, i);
    }
    let items = sort_by_sequence(timeline_items(session.connections@));
    lemma_sort_by_sequence(timeline_items(session.connections@));
    assert(session.timeline@ == timeline_of(items));
}

impl EtlPipeline {
    /// Assembles a canonical session from its connections in order: each
    /// keeps its decoded operations, or is preserved as one opaque operation
    /// with an issue recorded; operations and connections get their
    /// completeness, and the timeline lists every operation by sequence.
    /// Fails at the first connection that would pass the issue or operation
    /// bound.
    pub fn assemble(
        &self,
        connections: Vec<ConnectionEvidence>,
        issues: Vec<EtlIssue>,
        session_id: u128,
        started_at: i128,
        ended_at: Option<i128>,
    ) -> (r: Result<(CanonicalSession, Vec<EtlIssue>), EtlError>)
        requires
            issues@.len() <= self.spec_max_issues(),
        ensures
            match assembly_error(connections@, issues@.len(), 0, self.spec_max_issues() as nat) {
                Some(e) => r == Err::<(CanonicalSession, Vec<EtlIssue>), EtlError>(e),
                None => r matches Ok((session, out)) && {
                    &&& session.id == session_id
                    &&& session.started_at == started_at
                    &&& session.ended_at == ended_at
                    &&& session.connections@.len() == connections@.len()
                    &&& forall|i: int| 0 <= i < connections@.len()
                        ==> assembled_connection(#[trigger] session.connections@[i], connections@[i])
                    &&& issues_view(out@) == issues_view(issues@) + assembly_issues(connections@)
                    &&& forall|id: u128| completeness_of(session.connection_completeness@, id)
                        == #[trigger] last_state(connection_states(session.connections@, connections@), id)
                    &&& forall|id: u128| completeness_of(session.operation_completeness@, id)
                        == #[trigger] last_state(operation_states(session.connections@, connections@), id)
                    &&& session.timeline@ == timeline_of(sort_by_sequence(timeline_items(session.connections@)))
                },
            },
    {
        let ghost cs = connections@;
        let ghost issues0 = issues@;
        let mut recorded = issues;
        let mut out: Vec<CanonicalConnection> = Vec::new();
        let mut conn_states: Vec<(u128, Completeness)> = Vec::new();
        let mut op_states: Vec<(u128, Completeness)> = Vec::new();
        let mut items: Vec<(u64, TimelineEntry)> = Vec::new();
        let mut operation_count: usize = 0;
        let mut rest = reversed_connections(connections);
        let ghost n = cs.len();
        proof {
            assert(cs.skip(0) =~= cs);
            assert(cs.take(0) =~= Seq::<ConnectionEvidence>::empty());
        }
        while rest.len() > 0
            invariant
                cs == connections@,
                issues0 == issues@,
                n == cs.len(),
                rest@.len() <= n,
                rest@.reverse() == cs.skip(n - rest@.len()),
                out@.len() == n - rest@.len(),
                forall|i: int| 0 <= i < out@.len() ==> assembled_connection(#[trigger] out@[i], cs[i]),
                assembly_error(cs, issues0.len(), 0, self.spec_max_issues() as nat)
                    == assembly_error(cs.skip(n - rest@.len()), recorded@.len(), operation_count as nat, self.spec_max_issues() as nat),
                issues_view(recorded@) == issues_view(issues0) + assembly_issues(cs.take(n - rest@.len())),
                operation_count <= MAX_CANONICAL_OPERATIONS,
                forall|id: u128| completeness_of(conn_states@, id)
                    == #[trigger] last_state(connection_states(out@, cs.take(n - rest@.len())), id),
                forall|id: u128| completeness_of(op_states@, id)
                    == #[trigger] last_state(operation_states(out@, cs.take(n - rest@.len())), id),
                items@ == timeline_items(out@),
            decreases rest.len(),
        {
            let ghost done = n - rest@.len();
            let ghost step = cs.skip(done);
            let c = rest.pop().unwrap();
            proof {
                assert(step[0] == c);
                assert(step.drop_first() =~= cs.skip(done + 1));
                assert(rest@.reverse() =~= step.drop_first());
                assert(cs.take(done + 1).drop_last() =~= cs.take(done));
                assert(cs.take(done + 1).last() == c);
            }
            let ghost before_issues = recorded@;
            let ghost cv = c;
            let ghost count_before = operation_count;
            proof {
                assert(assembly_error(step, recorded@.len(), count_before as nat, self.spec_max_issues() as nat)
                    == if outcome_issue(cv) is Some && recorded@.len() >= self.spec_max_issues() {
                        Some(EtlError::IssueLimit { limit: self.spec_max_issues() })
                    } else if count_before + outcome_operation_count(cv) > MAX_CANONICAL_OPERATIONS {
                        Some(EtlError::OperationLimit { limit: MAX_CANONICAL_OPERATIONS })
                    } else {
                        assembly_error(step.drop_first(), if outcome_issue(cv) is Some { recorded@.len() + 1 } else { recorded@.len() as nat },
                            count_before as nat + outcome_operation_count(cv), self.spec_max_issues() as nat)
                    });
            }
            let ConnectionEvidence { client, server, attributes, stream, outcome } = c;
            let first = if stream.chunks.len() == 0 { None } else { Some(stream.chunks[0].sequence) };
            let (protocol, operations) = match outcome {
                StreamOutcome::Decoded { protocol, operations } => (protocol, operations),
                StreamOutcome::DecodeFailed { protocol, message } => {
                    let issue = EtlIssue { sequence: first, kind: EtlIssueKind::ProtocolDecode, message };
                    proof {
                        assert(issue_view(issue) == outcome_issue(cv)->0);
                        assert(issues_view(before_issues.push(issue)) =~= issues_view(before_issues).push(issue_view(issue)));
                    }
                    match record_issue(&mut recorded, self.max_issues, issue) {
                        Ok(()) => {},
                        Err(e) => {
                            assert(outcome_issue(cv) is Some);
                            assert(e == EtlError::IssueLimit { limit: self.spec_max_issues() });
                            assert(assembly_error(cs, issues0.len(), 0, self.spec_max_issues() as nat) == Some(e));
                            return Err(e);
                        },
                    }
                    let mut ops: Vec<CanonicalOperation> = Vec::new();
                    ops.push(opaque_operation(&stream, crate::canonical::new_uuid()));
                    (protocol, ops)
                },
                StreamOutcome::Undetected => {
                    let issue = EtlIssue {
                        sequence: first,
                        kind: EtlIssueKind::UnknownProtocol,
                        message: str_copy("traffic preserved as opaque bytes"),
                    };
                    proof {
                        assert(issue_view(issue) == outcome_issue(cv)->0);
                        assert(issues_view(before_issues.push(issue)) =~= issues_view(before_issues).push(issue_view(issue)));
                    }
                    match record_issue(&mut recorded, self.max_issues, issue) {
                        Ok(()) => {},
                        Err(e) => return Err(e),
                    }
                    let mut ops: Vec<CanonicalOperation> = Vec::new();
                    ops.push(opaque_operation(&stream, crate::canonical::new_uuid()));
                    (str_copy("unknown"), ops)
                },
            };
            proof {
                assert(operations@.len() == outcome_operation_count(cv));
                assert(assembly_issues(cs.take(done + 1)) == assembly_issues(cs.take(done)) + match outcome_issue(cv) {
                    Some(i) => seq![i],
                    None => Seq::empty(),
                });
                assert(issues_view(recorded@) =~= issues_view(issues0) + assembly_issues(cs.take(done + 1)));
            }
            operation_count = match bounded_operation_count(operation_count, operations.len()) {
                Ok(count) => count,
                Err(e) => return Err(e),
            };
            let connection_id = crate::canonical::new_uuid();
            let ghost states_before = operation_states(out@, cs.take(done));
            let mut k: usize = 0;
            while k < operations.len()
                invariant
                    k <= operations@.len(),
                    forall|id: u128| completeness_of(op_states@, id)
                        == #[trigger] last_state(states_before + operation_state_items(operations@.take(k as int), stream.truncated), id),
                    items@ == timeline_items(out@) + operation_timeline(operations@.take(k as int), connection_id),
                decreases operations.len() - k,
            {
                let op = &operations[k];
                let ghost prev_items = items@;
                items.push((op.sequence, TimelineEntry { connection_id, operation_id: op.id, offset: op.started_at_offset }));
                let state = derive_operation_completeness(op, stream.truncated);
                let ghost prev_states = states_before + operation_state_items(operations@.take(k as int), stream.truncated);
                set_completeness(&mut op_states, op.id, state);
                proof {
                    let next = states_before + operation_state_items(operations@.take(k + 1), stream.truncated);
                    assert(next =~= prev_states.push((op.id, state)));
                    lemma_last_state_push(prev_states, (op.id, state));
                    assert(items@ =~= timeline_items(out@) + operation_timeline(operations@.take(k + 1), connection_id));
                }
                k = k + 1;
            }
            let state = if stream.chunks.len() == 0 || stream.truncated { Completeness::Partial } else { Completeness::Complete };
            let ghost conn_states_before = connection_states(out@, cs.take(done));
            set_completeness(&mut conn_states, connection_id, state);
            let conn = CanonicalConnection { id: connection_id, protocol, client, server, attributes, operations };
            let ghost out_before = out@;
            out.push(conn);
            proof {
                assert(out@.drop_last() =~= out_before);
                assert(operations@.take(operations@.len() as int) =~= operations@);
                assert(cs.take(done + 1).drop_last() =~= cs.take(done));
                assert(connection_states(out@, cs.take(done + 1)) == conn_states_before.push((connection_id, state)));
                lemma_last_state_push(conn_states_before, (connection_id, state));
                assert(operation_states(out@, cs.take(done + 1))
                    =~= states_before + operation_state_items(conn.operations@, stream.truncated));
                assert(timeline_items(out@) =~= timeline_items(out_before) + connection_timeline(conn));
                assert(assembled_connection(out@[done as int], cs[done as int]));
            }
        }
        proof {
            assert(cs.take(n as int) =~= cs);
        }
        let sorted = sort_timeline(items);
        let mut timeline: Vec<TimelineEntry> = Vec::new();
        let mut t: usize = 0;
        while t < sorted.len()
            invariant
                t <= sorted@.len(),
                timeline@ == timeline_of(sorted@.take(t as int)),
            decreases sorted.len() - t,
        {
            timeline.push(sorted[t].1);
            proof {
                assert(timeline_of(sorted@.take(t + 1)) =~= timeline_of(sorted@.take(t as int)).push(sorted@[t as int].1));
            }
            t = t + 1;
        }
        proof {
            assert(sorted@.take(sorted@.len() as int) =~= sorted@);
        }
        Ok((
            CanonicalSession {
                id: session_id,
                started_at,
                ended_at,
                connections: out,
                connection_completeness: conn_states,
                operation_completeness: op_states,
                timeline,
            },
            recorded,
        ))
    }
}

fn reversed_connections(v: Vec<ConnectionEvidence>) -> (r: Vec<ConnectionEvidence>)
    ensures
        r@ == v@.reverse(),
{
    let ghost orig = v@;
    let mut v = v;
    let mut r: Vec<ConnectionEvidence> = Vec::new();
    while v.len() > 0
        invariant
            v@ == orig.take(orig.len() - r@.len()),
            r@.len() <= orig.len(),
            forall|i: int| 0 <= i < r@.len() ==> #[trigger] r@[i] == orig[orig.len() - 1 - i],
        decreases v.len(),
    {
        let x = v.pop().unwrap();
        r.push(x);
    }
    proof {
        assert(r@ =~= orig.reverse());
    }
    r
}


/// The capture times of all chunks, connection by connection.
pub open spec fn chunk_times(cs: Seq<ConnectionEvidence>) -> Seq<i128>
    decreases cs.len(),
{
    if cs.len() == 0 {
        Seq::empty()
    } else {
        chunk_times(cs.drop_last()) + known_times(cs.last().stream.chunks@)
    }
}

/// The known capture times of chunks, in order.
pub open spec fn known_times(chunks: Seq<StreamChunk>) -> Seq<i128>
    decreases chunks.len(),
{
    if chunks.len() == 0 {
        Seq::empty()
    } else {
        known_times(chunks.drop_last()) + match chunks.last().timestamp {
            Some(t) => seq![t],
            None => Seq::empty(),
        }
    }
}

/// A session starts at its earliest chunk time (the Unix epoch when no
/// chunk has one) and ends at its latest, when there is one.
pub open spec fn session_bounds_spec(times: Seq<i128>) -> (i128, Option<i128>) {
    if times.len() == 0 {
        (0, None)
    } else {
        (
            choose|m: i128| times.contains(m) && forall|k: int| 0 <= k < times.len() ==> m <= #[trigger] times[k],
            Some(choose|m: i128| times.contains(m) && forall|k: int| 0 <= k < times.len() ==> #[trigger] times[k] <= m),
        )
    }
}

fn extend_times(times: &mut Vec<i128>, chunks: &Vec<StreamChunk>)
    ensures
        final(times)@ == old(times)@ + known_times(chunks@),
{
    let ghost start = times@;
    let mut i: usize = 0;
    while i < chunks.len()
        invariant
            i <= chunks@.len(),
            times@ == start + known_times(chunks@.take(i as int)),
        decreases chunks.len() - i,
    {
        proof {
            assert(chunks@.take(i + 1).drop_last() =~= chunks@.take(i as int));
        }
        match chunks[i].timestamp {
            Some(t) => {
                times.push(t);
                proof {
                    assert(times@ =~= start + known_times(chunks@.take(i + 1)));
                }
            },
            None => {
                proof {
                    assert(times@ =~= start + known_times(chunks@.take(i + 1)));
                }
            },
        }
        i = i + 1;
    }
    proof {
        assert(chunks@.take(chunks@.len() as int) =~= chunks@);
    }
}

/// The earliest and latest chunk times of the connections.
pub fn session_bounds(connections: &Vec<ConnectionEvidence>) -> (r: (i128, Option<i128>))
    ensures
        r == session_bounds_spec(chunk_times(connections@)),
{
    let mut times: Vec<i128> = Vec::new();
    let mut i: usize = 0;
    while i < connections.len()
        invariant
            i <= connections@.len(),
            times@ == chunk_times(connections@.take(i as int)),
        decreases connections.len() - i,
    {
        extend_times(&mut times, &connections[i].stream.chunks);
        proof {
            assert(connections@.take(i + 1).drop_last() =~= connections@.take(i as int));
        }
        i = i + 1;
    }
    proof {
        assert(connections@.take(connections@.len() as int) =~= connections@);
    }
    let ghost all = times@;
    if times.len() == 0 {
        return (0, None);
    }
    let mut low = times[0];
    let mut high = times[0];
    let mut j: usize = 1;
    proof {
        assert(times@.subrange(0, 1)[0] == low);
    }
    while j < times.len()
        invariant
            all == times@,
            1 <= j <= times@.len(),
            times@.subrange(0, j as int).contains(low),
            times@.subrange(0, j as int).contains(high),
            forall|k: int| 0 <= k < j ==> low <= #[trigger] times@[k] && times@[k] <= high,
        decreases times.len() - j,
    {
        if times[j] < low {
            low = times[j];
        }
        if times[j] > high {
            high = times[j];
        }
        proof {
            assert(times@.subrange(0, j + 1)[j as int] == times@[j as int]);
            assert forall|x: i128| times@.subrange(0, j as int).contains(x) implies times@.subrange(0, j + 1).contains(x) by {
                let q = choose|q: int| 0 <= q < j && times@.subrange(0, j as int)[q] == x;
                assert(times@.subrange(0, j + 1)[q] == x);
            }
        }
        j = j + 1;
    }
    proof {
        assert(times@.subrange(0, times@.len() as int) =~= times@);
        let m = choose|m: i128| all.contains(m) && forall|k: int| 0 <= k < all.len() ==> m <= #[trigger] all[k];
        let h = choose|m: i128| all.contains(m) && forall|k: int| 0 <= k < all.len() ==> #[trigger] all[k] <= m;
        assert(all.contains(low) && forall|k: int| 0 <= k < all.len() ==> low <= #[trigger] all[k]);
        assert(all.contains(high) && forall|k: int| 0 <= k < all.len() ==> #[trigger] all[k] <= high);
        let qm = choose|q: int| 0 <= q < all.len() && all[q] == m;
        let ql = choose|q: int| 0 <= q < all.len() && all[q] == low;
        assert(m <= all[ql] && low <= all[qm]);
        let qh = choose|q: int| 0 <= q < all.len() && all[q] == h;
        let qg = choose|q: int| 0 <= q < all.len() && all[q] == high;
        assert(all[qg] <= h && all[qh] <= high);
    }
    (low, Some(high))
}

/// What finishing a reconstructed session gives for `connections` and the
/// issues recorded so far: the first assembly error, or a session that
/// starts at the Unix epoch with no recorded end, one canonical connection
/// per input connection, the issues extended by the assembly's, the
/// completeness of each connection and operation, and the timeline in
/// operation-sequence order.
pub open spec fn reconstructed_finish(
    max_issues: usize,
    connections: Seq<ConnectionEvidence>,
    issues: Seq<(Option<u64>, EtlIssueKind, Seq<char>)>,
    session_id: u128,
    r: Result<(CanonicalSession, Vec<EtlIssue>), EtlError>,
) -> bool {
    match assembly_error(connections, issues.len(), 0, max_issues as nat) {
        Some(e) => r == Err::<(CanonicalSession, Vec<EtlIssue>), EtlError>(e),
        None => r matches Ok((session, out)) && {
            &&& session.id == session_id
            &&& session.started_at == 0
            &&& session.ended_at is None
            &&& session.connections@.len() == connections.len()
            &&& forall|i: int| 0 <= i < connections.len()
                ==> assembled_connection(#[trigger] session.connections@[i], connections[i])
            &&& issues_view(out@) == issues + assembly_issues(connections)
            &&& forall|id: u128| completeness_of(session.connection_completeness@, id)
                == #[trigger] last_state(connection_states(session.connections@, connections), id)
            &&& forall|id: u128| completeness_of(session.operation_completeness@, id)
                == #[trigger] last_state(operation_states(session.connections@, connections), id)
            &&& session.timeline@ == timeline_of(sort_by_sequence(timeline_items(session.connections@)))
        },
    }
}

impl EtlPipeline {
    /// Finishes a fixture-assembled session: it starts at the earliest
    /// chunk time and ends at the latest.
    pub fn finish(
        &self,
        connections: Vec<ConnectionEvidence>,
        issues: Vec<EtlIssue>,
        session_id: u128,
    ) -> (r: Result<(CanonicalSession, Vec<EtlIssue>), EtlError>)
        requires
            issues@.len() <= self.spec_max_issues(),
        ensures
            match assembly_error(connections@, issues@.len(), 0, self.spec_max_issues() as nat) {
                Some(e) => r == Err::<(CanonicalSession, Vec<EtlIssue>), EtlError>(e),
                None => r matches Ok((session, out)) && {
                    &&& session.id == session_id
                    &&& (session.started_at, session.ended_at) == session_bounds_spec(chunk_times(connections@))
                    &&& session.connections@.len() == connections@.len()
                    &&& forall|i: int| 0 <= i < connections@.len()
                        ==> assembled_connection(#[trigger] session.connections@[i], connections@[i])
                    &&& issues_view(out@) == issues_view(issues@) + assembly_issues(connections@)
                    &&& forall|id: u128| completeness_of(session.connection_completeness@, id)
                        == #[trigger] last_state(connection_states(session.connections@, connections@), id)
                    &&& forall|id: u128| completeness_of(session.operation_completeness@, id)
                        == #[trigger] last_state(operation_states(session.connections@, connections@), id)
                    &&& session.timeline@ == timeline_of(sort_by_sequence(timeline_items(session.connections@)))
                },
            },
    {
        let (started_at, ended_at) = session_bounds(&connections);
        self.assemble(connections, issues, session_id, started_at, ended_at)
    }

    /// Finishes a reconstructed session: it starts at the Unix epoch and
    /// has no recorded end.
    pub fn finish_reconstructed(
        &self,
        connections: Vec<ConnectionEvidence>,
        issues: Vec<EtlIssue>,
        session_id: u128,
    ) -> (r: Result<(CanonicalSession, Vec<EtlIssue>), EtlError>)
        requires
            issues@.len() <= self.spec_max_issues(),
        ensures
            reconstructed_finish(self.spec_max_issues(), connections@, issues_view(issues@), session_id, r),
    {
        self.assemble(connections, issues, session_id, 0, None)
    }
}


/// An event a WAL discard may have touched: it is on another clock, or
/// falls inside the discarded interval.
pub open spec fn event_in_loss(e: EventView, loss: TerminalPersistenceLoss) -> bool {
    e.clock != loss.interval.start.clock@
        || (loss.interval.start.nanoseconds <= e.nanoseconds && e.nanoseconds <= loss.interval.end.nanoseconds)
}

/// A WAL discard may have touched a connection through one of its events.
pub open spec fn loss_affects(events: Seq<EventView>, loss: TerminalPersistenceLoss) -> bool {
    exists|i: int| 0 <= i < events.len() && event_in_loss(#[trigger] events[i], loss)
}

/// A payload event whose bytes capture truncated.
pub open spec fn payload_truncated(e: EventView) -> bool {
    e.evidence matches EvidenceView::Payload(p) && p.truncated
}

/// A reconstructed connection is incomplete when a bound finalized it, a
/// loss window may overlap it, a payload was truncated, or a WAL discard
/// may have touched it.
pub open spec fn connection_incomplete(c: ReconstructionConnection, losses: Seq<TerminalPersistenceLoss>) -> bool {
    ||| c.finalization is Some
    ||| exists|i: int| 0 <= i < c.loss_windows@.len() && (#[trigger] c.loss_windows@[i]).classification != LossWindowClassification::Outside
    ||| exists|i: int| 0 <= i < c.events@.len() && payload_truncated(#[trigger] events_view(c.events@)[i])
    ||| exists|i: int| 0 <= i < losses.len() && loss_affects(events_view(c.events@), #[trigger] losses[i])
}

pub fn terminal_loss_affects_connection(connection: &ReconstructionConnection, loss: &TerminalPersistenceLoss) -> (r: bool)
    ensures
        r == loss_affects(events_view(connection.events@), *loss),
{
    let ghost v = events_view(connection.events@);
    let mut i: usize = 0;
    while i < connection.events.len()
        invariant
            v == events_view(connection.events@),
            i <= v.len(),
            forall|k: int| 0 <= k < i ==> !event_in_loss(#[trigger] v[k], *loss),
        decreases connection.events.len() - i,
    {
        let t = &connection.events[i].timestamp;
        proof {
            assert(v[i as int] == connection.events@[i as int]@);
        }
        if !crate::text::str_eq(t.clock.as_str(), loss.interval.start.clock.as_str())
            || (t.nanoseconds >= loss.interval.start.nanoseconds && t.nanoseconds <= loss.interval.end.nanoseconds)
        {
            return true;
        }
        i = i + 1;
    }
    false
}

pub fn reconstructed_connection_incomplete(connection: &ReconstructionConnection, losses: &[TerminalPersistenceLoss]) -> (r: bool)
    ensures
        r == connection_incomplete(*connection, losses@),
{
    if connection.finalization.is_some() {
        return true;
    }
    let mut i: usize = 0;
    while i < connection.loss_windows.len()
        invariant
            i <= connection.loss_windows@.len(),
            forall|k: int| 0 <= k < i ==> (#[trigger] connection.loss_windows@[k]).classification == LossWindowClassification::Outside,
        decreases connection.loss_windows.len() - i,
    {
        if connection.loss_windows[i].classification != LossWindowClassification::Outside {
            return true;
        }
        i = i + 1;
    }
    let ghost v = events_view(connection.events@);
    let mut j: usize = 0;
    while j < connection.events.len()
        invariant
            v == events_view(connection.events@),
            j <= v.len(),
            forall|k: int| 0 <= k < j ==> !payload_truncated(#[trigger] v[k]),
        decreases connection.events.len() - j,
    {
        proof {
            assert(v[j as int] == connection.events@[j as int]@);
        }
        let truncated = match &connection.events[j].evidence {
            ReconstructionEvidence::Payload(p) => p.truncated,
            ReconstructionEvidence::Lifecycle(_) => false,
        };
        if truncated {
            return true;
        }
        j = j + 1;
    }
    let mut k: usize = 0;
    while k < losses.len()
        invariant
            k <= losses@.len(),
            forall|q: int| 0 <= q < k ==> !loss_affects(events_view(connection.events@), #[trigger] losses@[q]),
        decreases losses.len() - k,
    {
        if terminal_loss_affects_connection(connection, &losses[k]) {
            return true;
        }
        k = k + 1;
    }
    false
}

/// The endpoints and attributes a reconstructed connection is recorded
/// with: a fixture's own endpoints; for a socket, unknown endpoints and the
/// socket's namespace (when known), boot identity, cookie and first-seen
/// time, in key order.
pub open spec fn identity_attributes(identity: ReconstructionConnectionIdentity) -> Seq<(Seq<char>, Seq<char>)> {
    match identity {
        ReconstructionConnectionIdentity::Fixture { .. } => Seq::empty(),
        ReconstructionConnectionIdentity::Socket { socket_cookie, first_seen, network_namespace } =>
            (match network_namespace {
                Some(n) => seq![("chronicle.network_namespace"@, decimal_chars(n as nat))],
                None => Seq::empty(),
            }) + seq![
                ("chronicle.socket_boot_id"@, first_seen.clock@),
                ("chronicle.socket_cookie"@, decimal_chars(socket_cookie as nat)),
                ("chronicle.socket_first_seen_ns"@, decimal_chars(first_seen.nanoseconds as nat)),
            ],
    }
}

pub fn reconstructed_connection_identity(identity: &ReconstructionConnectionIdentity) -> (r: (Endpoint, Endpoint, Vec<(String, String)>))
    ensures
        crate::canonical::pairs_view(r.2@) == identity_attributes(*identity),
        match identity {
            ReconstructionConnectionIdentity::Fixture { client, server } => r.0@ == client@ && r.1@ == server@,
            ReconstructionConnectionIdentity::Socket { .. } => r.0@.host == "unknown"@ && r.0@.port == 0
                && r.1@.host == "unknown"@ && r.1@.port == 0,
        },
{
    match identity {
        ReconstructionConnectionIdentity::Fixture { client, server } => {
            let attrs: Vec<(String, String)> = Vec::new();
            proof {
                assert(crate::canonical::pairs_view(attrs@) =~= Seq::<(Seq<char>, Seq<char>)>::empty());
            }
            (client.duplicate(), server.duplicate(), attrs)
        },
        ReconstructionConnectionIdentity::Socket { socket_cookie, first_seen, network_namespace } => {
            let mut attrs: Vec<(String, String)> = Vec::new();
            match network_namespace {
                Some(n) => attrs.push((str_copy("chronicle.network_namespace"), decimal_string(*n))),
                None => {},
            }
            attrs.push((str_copy("chronicle.socket_boot_id"), str_copy(first_seen.clock.as_str())));
            attrs.push((str_copy("chronicle.socket_cookie"), decimal_string(*socket_cookie)));
            attrs.push((str_copy("chronicle.socket_first_seen_ns"), decimal_string(first_seen.nanoseconds)));
            proof {
                assert(crate::canonical::pairs_view(attrs@) =~= identity_attributes(*identity));
            }
            (Endpoint::new("unknown", 0), Endpoint::new("unknown", 0), attrs)
        },
    }
}


/// The little-endian bytes of `x`.
pub open spec fn le_bytes(x: u64) -> Seq<u8> {
    Seq::new(8, |k: int| ((x as nat / pow256(k)) % 256) as u8)
}

fn to_le_bytes(x: u64) -> (b: Vec<u8>)
    ensures
        b@ == le_bytes(x),
{
    let mut out: Vec<u8> = Vec::new();
    let mut v: u64 = x;
    let mut k: usize = 0;
    proof {
        assert(pow256(0) == 1);
    }
    while k < 8
        invariant
            k <= 8,
            out@.len() == k,
            v as nat == x as nat / pow256(k as int),
            forall|q: int| 0 <= q < k ==> #[trigger] out@[q] == ((x as nat / pow256(q)) % 256) as u8,
        decreases 8 - k,
    {
        out.push((v % 256) as u8);
        proof {
            assert(pow256(k + 1) == pow256(k as int) * 256);
            assert(pow256(k as int) > 0) by {
                lemma_pow256_positive(k as int);
            }
            vstd::arithmetic::div_mod::lemma_div_denominator(x as int, pow256(k as int) as int, 256);
        }
        v = v / 256;
        k = k + 1;
    }
    proof {
        assert(out@ =~= le_bytes(x));
    }
    out
}

proof fn lemma_pow256_positive(n: int)
    ensures
        pow256(n) > 0,
    decreases n,
{
    if n > 0 {
        lemma_pow256_positive(n - 1);
    }
}

/// What the identifier of an object of `domain` at positions `first` and
/// `second` of a recording snapshot is the digest of.
pub open spec fn id_input(domain: Seq<char>, snapshot: Seq<u8>, first: u64, second: u64) -> Seq<u8> {
    encode_utf8("chronicle/etl/id\0"@) + encode_utf8("p1"@) + encode_utf8(domain) + snapshot + le_bytes(first) + le_bytes(second)
}

/// The first 16 bytes of a digest as a UUID, with the variant bits set and
/// the version nibble's top bit set.
pub open spec fn stable_id_from_digest(d: Seq<u8>) -> u128 {
    uuid_value(d.update(6, (d[6] & 15u8) | 128u8).update(8, (d[8] & 63u8) | 128u8))
}

/// The stable identifier of an object of `domain` at positions `first` and
/// `second` of a recording snapshot.
pub open spec fn stable_id(domain: Seq<char>, snapshot: Seq<u8>, first: u64, second: u64) -> u128 {
    stable_id_from_digest(sha256_of(id_input(domain, snapshot, first, second)))
}

pub fn deterministic_uuid(domain: &str, snapshot: &[u8], first: u64, second: u64) -> (id: u128)
    ensures
        id == stable_id(domain@, snapshot@, first, second),
{
    let mut input: Vec<u8> = Vec::new();
    crate::bytes::extend_bytes(&mut input, "chronicle/etl/id\0".as_bytes());
    crate::bytes::extend_bytes(&mut input, "p1".as_bytes());
    crate::bytes::extend_bytes(&mut input, domain.as_bytes());
    crate::bytes::extend_bytes(&mut input, snapshot);
    let f = to_le_bytes(first);
    let g = to_le_bytes(second);
    crate::bytes::extend_bytes(&mut input, f.as_slice());
    crate::bytes::extend_bytes(&mut input, g.as_slice());
    proof {
        assert(input@ =~= id_input(domain@, snapshot@, first, second));
    }
    let d = crate::digest::sha256(input.as_slice());
    let ghost dv = d@;
    let mut b = d;
    let b6 = (b[6] & 15u8) | 128u8;
    let b8 = (b[8] & 63u8) | 128u8;
    b.set(6, b6);
    b.set(8, b8);
    proof { assert(b@ == dv.update(6, (dv[6] & 15u8) | 128u8).update(8, (dv[8] & 63u8) | 128u8)); }
    let mut v: u128 = 0;
    let mut i: usize = 0;
    proof { reveal_with_fuel(pow256, 17); }
    while i < 16
        invariant
            b@.len() == 32,
            i <= 16,
            v as nat == be_value(b@, i as int),
            pow256(16) == 340282366920938463463374607431768211456nat,
        decreases 16 - i,
    {
        proof {
            lemma_be_bound(b@, i as int);
            lemma_pow256_monotone(i + 1, 16);
            assert(v * 256 + b@[i as int] < pow256(i as int) * 256) by (nonlinear_arith)
                requires v < pow256(i as int), b@[i as int] < 256;
            assert(pow256(i + 1) == pow256(i as int) * 256);
        }
        v = v * 256 + b[i] as u128;
        i = i + 1;
    }
    v
}


/// The identifier `id` now has: the one its last assignment gave it.
pub open spec fn remap(pairs: Seq<(u128, u128)>, id: u128) -> Option<u128>
    decreases pairs.len(),
{
    if pairs.len() == 0 {
        None
    } else if pairs.last().0 == id {
        Some(pairs.last().1)
    } else {
        remap(pairs.drop_last(), id)
    }
}

pub open spec fn first_operation_sequence(c: CanonicalConnection) -> u64 {
    if c.operations@.len() == 0 { 0 } else { c.operations@[0].sequence }
}

/// The stable identifier of connection `i` of a snapshot.
pub open spec fn connection_stable_id(snapshot: Seq<u8>, i: int, c: CanonicalConnection) -> u128 {
    stable_id("connection"@, snapshot, i as u64, first_operation_sequence(c))
}

/// Each connection's old and new identifier, in order.
pub open spec fn connection_pairs(conns: Seq<CanonicalConnection>, snapshot: Seq<u8>) -> Seq<(u128, u128)>
    decreases conns.len(),
{
    if conns.len() == 0 {
        Seq::empty()
    } else {
        connection_pairs(conns.drop_last(), snapshot).push((conns.last().id, connection_stable_id(snapshot, conns.len() - 1, conns.last())))
    }
}

/// The old and new identifiers of the operations of connection `i`.
pub open spec fn operation_pairs_of(ops: Seq<CanonicalOperation>, snapshot: Seq<u8>, i: int) -> Seq<(u128, u128)> {
    Seq::new(ops.len(), |k: int| (ops[k].id, stable_id("operation"@, snapshot, i as u64, k as u64)))
}

/// Each operation's old and new identifier, connection by connection.
pub open spec fn operation_pairs(conns: Seq<CanonicalConnection>, snapshot: Seq<u8>) -> Seq<(u128, u128)>
    decreases conns.len(),
{
    if conns.len() == 0 {
        Seq::empty()
    } else {
        operation_pairs(conns.drop_last(), snapshot) + operation_pairs_of(conns.last().operations@, snapshot, conns.len() - 1)
    }
}

/// Completeness entries under new identifiers; entries whose identifier
/// was not reassigned are dropped.
pub open spec fn remap_states(entries: Seq<(u128, Completeness)>, pairs: Seq<(u128, u128)>) -> Seq<(u128, Completeness)>
    decreases entries.len(),
{
    if entries.len() == 0 {
        Seq::empty()
    } else {
        let rest = remap_states(entries.drop_last(), pairs);
        match remap(pairs, entries.last().0) {
            Some(n) => rest.push((n, entries.last().1)),
            None => rest,
        }
    }
}

/// A connection under its stable identifier, its operations under theirs.
pub open spec fn renamed_connection(old: CanonicalConnection, new: CanonicalConnection, snapshot: Seq<u8>, i: int) -> bool {
    &&& new.id == connection_stable_id(snapshot, i, old)
    &&& new.protocol == old.protocol
    &&& new.client == old.client
    &&& new.server == old.server
    &&& new.attributes == old.attributes
    &&& new.operations@.len() == old.operations@.len()
    &&& forall|k: int| 0 <= k < old.operations@.len() ==>
        #[trigger] new.operations@[k] == (CanonicalOperation { id: stable_id("operation"@, snapshot, i as u64, k as u64), ..old.operations@[k] })
}

/// A timeline entry under the new identifiers, when both were reassigned.
pub open spec fn remap_entry(e: TimelineEntry, conns: Seq<(u128, u128)>, ops: Seq<(u128, u128)>) -> Option<TimelineEntry> {
    match (remap(conns, e.connection_id), remap(ops, e.operation_id)) {
        (Some(c), Some(o)) => Some(TimelineEntry { connection_id: c, operation_id: o, offset: e.offset }),
        _ => None,
    }
}

fn find_remap(pairs: &Vec<(u128, u128)>, id: u128) -> (r: Option<u128>)
    ensures
        r == remap(pairs@, id),
{
    let mut i: usize = pairs.len();
    proof {
        assert(pairs@.take(i as int) =~= pairs@);
    }
    while i > 0
        invariant
            i <= pairs@.len(),
            remap(pairs@, id) == remap(pairs@.take(i as int), id),
        decreases i,
    {
        proof {
            assert(pairs@.take(i as int).drop_last() =~= pairs@.take(i - 1));
        }
        if pairs[i - 1].0 == id {
            return Some(pairs[i - 1].1);
        }
        i = i - 1;
    }
    proof {
        assert(pairs@.take(0) =~= Seq::<(u128, u128)>::empty());
    }
    None
}

fn remap_completeness(entries: &Vec<(u128, Completeness)>, pairs: &Vec<(u128, u128)>) -> (r: Vec<(u128, Completeness)>)
    ensures
        r@ == remap_states(entries@, pairs@),
{
    let mut out: Vec<(u128, Completeness)> = Vec::new();
    let mut i: usize = 0;
    proof {
        assert(pairs@.take(pairs@.len() as int) =~= pairs@);
    }
    while i < entries.len()
        invariant
            i <= entries@.len(),
            out@ == remap_states(entries@.take(i as int), pairs@),
        decreases entries.len() - i,
    {
        proof {
            assert(entries@.take(i + 1).drop_last() =~= entries@.take(i as int));
        }
        match find_remap(pairs, entries[i].0) {
            Some(n) => out.push((n, entries[i].1)),
            None => {},
        }
        i = i + 1;
    }
    proof {
        assert(entries@.take(entries@.len() as int) =~= entries@);
    }
    out
}

/// Replaces every identifier of a session by one derived from the
/// recording snapshot: the session's, each connection's (by position and
/// first operation sequence) and each operation's (by connection and
/// position); completeness records follow their connections and
/// operations. Fails at the first timeline entry naming an identifier that
/// was not reassigned; entries before it are already rewritten.
#[verifier::loop_isolation(false)]
pub fn assign_recording_ids_with_snapshot(session: &mut CanonicalSession, snapshot: &[u8]) -> (r: Result<(), EtlError>)
    requires
        old(session).connections@.len() < u64::MAX,
        forall|i: int| 0 <= i < old(session).connections@.len() ==> #[trigger] old(session).connections@[i].operations@.len() < u64::MAX,
    ensures
        final(session).id == stable_id("session"@, snapshot@, 0, 0),
        final(session).started_at == old(session).started_at,
        final(session).ended_at == old(session).ended_at,
        final(session).connections@.len() == old(session).connections@.len(),
        forall|i: int| 0 <= i < old(session).connections@.len()
            ==> renamed_connection(old(session).connections@[i], #[trigger] final(session).connections@[i], snapshot@, i),
        final(session).connection_completeness@
            == remap_states(old(session).connection_completeness@, connection_pairs(old(session).connections@, snapshot@)),
        final(session).operation_completeness@
            == remap_states(old(session).operation_completeness@, operation_pairs(old(session).connections@, snapshot@)),
        final(session).timeline@.len() == old(session).timeline@.len(),
        ({
            let cp = connection_pairs(old(session).connections@, snapshot@);
            let op = operation_pairs(old(session).connections@, snapshot@);
            let t = old(session).timeline@;
            match r {
                Ok(()) => forall|j: int| 0 <= j < t.len()
                    ==> remap_entry(t[j], cp, op) == Some(#[trigger] final(session).timeline@[j]),
                Err(e) => e == EtlError::TimelineReference && exists|j0: int| {
                    &&& 0 <= j0 < t.len()
                    &&& remap_entry(t[j0], cp, op) is None
                    &&& forall|j: int| 0 <= j < j0 ==> remap_entry(t[j], cp, op) == Some(#[trigger] final(session).timeline@[j])
                    &&& forall|j: int| j0 <= j < t.len() ==> #[trigger] final(session).timeline@[j] == t[j]
                },
            }
        }),
{
    let ghost old_conns = session.connections@;
    session.id = deterministic_uuid("session", snapshot, 0, 0);
    let mut connections: Vec<CanonicalConnection> = Vec::new();
    std::mem::swap(&mut connections, &mut session.connections);
    let mut rest = crate::canonicalize::reversed(connections);
    let ghost n = old_conns.len();
    let mut renamed: Vec<CanonicalConnection> = Vec::new();
    let mut connection_ids: Vec<(u128, u128)> = Vec::new();
    let mut operation_ids: Vec<(u128, u128)> = Vec::new();
    proof {
        assert(old_conns.take(0) =~= Seq::<CanonicalConnection>::empty());
    }
    while rest.len() > 0
        invariant
            n == old_conns.len(),
            n < u64::MAX,
            forall|i: int| 0 <= i < n ==> #[trigger] old_conns[i].operations@.len() < u64::MAX,
            rest@.len() <= n,
            forall|q: int| 0 <= q < rest@.len() ==> #[trigger] rest@[q] == old_conns[n - 1 - q],
            renamed@.len() == n - rest@.len(),
            forall|i: int| 0 <= i < renamed@.len() ==> renamed_connection(old_conns[i], #[trigger] renamed@[i], snapshot@, i),
            connection_ids@ == connection_pairs(old_conns.take(n - rest@.len()), snapshot@),
            operation_ids@ == operation_pairs(old_conns.take(n - rest@.len()), snapshot@),
        decreases rest.len(),
    {
        let ci = renamed.len();
        let c = rest.pop().unwrap();
        let ghost oc = c;
        proof {
            assert(c == old_conns[ci as int]);
            assert(old_conns.take(ci + 1).drop_last() =~= old_conns.take(ci as int));
            assert(old_conns.take(ci + 1).last() == c);
        }
        let first_sequence: u64 = if c.operations.len() == 0 { 0 } else { c.operations[0].sequence };
        let new_id = deterministic_uuid("connection", snapshot, ci as u64, first_sequence);
        connection_ids.push((c.id, new_id));
        let CanonicalConnection { id, protocol, client, server, attributes, operations } = c;
        let ghost old_ops = operations@;
        let mut ops_rest = crate::canonicalize::reversed(operations);
        let mut ops: Vec<CanonicalOperation> = Vec::new();
        let ghost m = old_ops.len();
        let ghost before_ops = operation_ids@;
        while ops_rest.len() > 0
            invariant
                m == old_ops.len(),
                m < u64::MAX,
                ops_rest@.len() <= m,
                forall|q: int| 0 <= q < ops_rest@.len() ==> #[trigger] ops_rest@[q] == old_ops[m - 1 - q],
                ops@.len() == m - ops_rest@.len(),
                forall|k: int| 0 <= k < ops@.len() ==> #[trigger] ops@[k]
                    == (CanonicalOperation { id: stable_id("operation"@, snapshot@, ci as u64, k as u64), ..old_ops[k] }),
                operation_ids@ == before_ops + operation_pairs_of(old_ops, snapshot@, ci as int).take(ops@.len() as int),
            decreases ops_rest.len(),
        {
            let k = ops.len();
            let op = ops_rest.pop().unwrap();
            proof {
                assert(op == old_ops[k as int]);
            }
            let new_op_id = deterministic_uuid("operation", snapshot, ci as u64, k as u64);
            operation_ids.push((op.id, new_op_id));
            proof {
                assert(operation_pairs_of(old_ops, snapshot@, ci as int).take(k + 1)
                    =~= operation_pairs_of(old_ops, snapshot@, ci as int).take(k as int).push((op.id, new_op_id)));
            }
            ops.push(CanonicalOperation { id: new_op_id, ..op });
        }
        proof {
            assert(operation_pairs_of(old_ops, snapshot@, ci as int).take(m as int) =~= operation_pairs_of(old_ops, snapshot@, ci as int));
        }
        renamed.push(CanonicalConnection { id: new_id, protocol, client, server, attributes, operations: ops });
    }
    proof {
        assert(old_conns.take(n as int) =~= old_conns);
    }
    session.connections = renamed;
    session.connection_completeness = remap_completeness(&session.connection_completeness, &connection_ids);
    session.operation_completeness = remap_completeness(&session.operation_completeness, &operation_ids);
    let ghost t = session.timeline@;
    let mut timeline: Vec<TimelineEntry> = Vec::new();
    std::mem::swap(&mut timeline, &mut session.timeline);
    let mut j: usize = 0;
    let mut failed = false;
    while j < timeline.len() && !failed
        invariant
            timeline@.len() == t.len(),
            j <= t.len(),
            forall|q: int| 0 <= q < j ==> remap_entry(t[q], connection_ids@, operation_ids@) == Some(#[trigger] timeline@[q]),
            forall|q: int| j <= q < t.len() ==> #[trigger] timeline@[q] == t[q],
            failed ==> j < t.len() && remap_entry(t[j as int], connection_ids@, operation_ids@) is None,
        decreases t.len() - j + if failed { 0int } else { 1int },
    {
        let e = timeline[j];
        let c = find_remap(&connection_ids, e.connection_id);
        let o = find_remap(&operation_ids, e.operation_id);
        match (c, o) {
            (Some(c), Some(o)) => {
                timeline.set(j, TimelineEntry { connection_id: c, operation_id: o, offset: e.offset });
                j = j + 1;
            },
            _ => {
                failed = true;
            },
        }
    }
    session.timeline = timeline;
    if failed {
        Err(EtlError::TimelineReference)
    } else {
        Ok(())
    }
}

} // verus!
