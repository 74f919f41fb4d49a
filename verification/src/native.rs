//! Native execution-context evidence: bounded carriers of parent/child
//! handoffs, the receipts that anchor them, and their diagnostics.
use vstd::prelude::*;
use crate::canonical::new_uuid;
use crate::correlation::CanonicalOperationRef;
use crate::protocol::Direction;
use crate::text::{str_copy, str_eq};

verus! {

/// Bounds on native evidence; every bound is positive.
#[derive(Clone, Copy, Debug, PartialEq, Eq, Structural)]
pub struct NativeSourceLimits {
    pub max_contexts: usize,
    pub max_pending_observations: usize,
    pub max_diagnostics: usize,
}

impl NativeSourceLimits {
    /// The limits, or `None` when a bound is zero.
    pub fn new(max_contexts: usize, max_pending_observations: usize, max_diagnostics: usize) -> (r: Option<Self>)
        ensures
            (max_contexts == 0 || max_pending_observations == 0 || max_diagnostics == 0) <==> r is None,
            r matches Some(l) ==> l == (NativeSourceLimits { max_contexts, max_pending_observations, max_diagnostics }),
    {
        if max_contexts == 0 || max_pending_observations == 0 || max_diagnostics == 0 {
            None
        } else {
            Some(NativeSourceLimits { max_contexts, max_pending_observations, max_diagnostics })
        }
    }
}

#[derive(Clone, Debug, PartialEq, Eq)]
pub enum NativeSourceError {
    UnknownContext,
    ContextLimitExceeded { limit: usize },
    PendingLimitExceeded { limit: usize },
    DiagnosticLimitExceeded { limit: usize },
    SideChannelLimitExceeded { limit: usize },
    ConflictingReceipt,
    InvalidReceipt(String),
}

#[derive(Clone, Copy, Debug, PartialEq, Eq, Structural)]
pub enum NativeObservationDiagnosticKind {
    PendingExpired,
    RestartLostPending,
    SideChannelLoss,
    UnsupportedProtocolBoundary,
    AnchorBindingUnresolved,
    AnchorBindingAmbiguous,
    InvalidBoundHandoff,
}

#[derive(Clone, Copy, Debug, PartialEq, Eq, Structural)]
pub enum NativeBindingDiagnosticKind {
    AnchorBindingUnresolved,
    AnchorBindingAmbiguous,
    InvalidBoundHandoff,
}

/// An opaque execution-context generation: provenance and reuse
/// protection, never a causal predicate by itself.
#[derive(Clone, Copy, Debug, PartialEq, Eq, Structural)]
pub struct NativeExecutionContextGeneration(pub u128);

impl NativeExecutionContextGeneration {
    /// A fresh random generation.
    pub fn new() -> (g: Self) {
        NativeExecutionContextGeneration(new_uuid())
    }

    pub fn from_uuid(value: u128) -> (g: Self)
        ensures
            g.0 == value,
    {
        NativeExecutionContextGeneration(value)
    }

    pub fn as_uuid(self) -> (v: u128)
        ensures
            v == self.0,
    {
        self.0
    }
}

/// A provider-neutral execution context: its generation and its parent's.
#[derive(Clone, Copy, Debug, PartialEq, Eq, Structural)]
pub struct ChronicleExecutionContext {
    pub generation: NativeExecutionContextGeneration,
    pub parent_generation: Option<NativeExecutionContextGeneration>,
}

impl ChronicleExecutionContext {
    /// A root context with a fresh generation.
    pub fn root() -> (c: Self)
        ensures
            c.parent_generation is None,
    {
        ChronicleExecutionContext { generation: NativeExecutionContextGeneration::new(), parent_generation: None }
    }

    /// A child context with a fresh generation.
    pub fn child(self) -> (c: Self)
        ensures
            c.parent_generation == Some(self.generation),
    {
        ChronicleExecutionContext { generation: NativeExecutionContextGeneration::new(), parent_generation: Some(self.generation) }
    }
}

/// Which connection generation a source range belongs to.
#[derive(Clone, Copy, Debug, PartialEq, Eq, Structural)]
pub enum SourceConnectionGeneration {
    Fixture,
    Socket { socket_cookie: u64, first_seen_nanoseconds: u64 },
}

/// A byte range of the WAL: where its frame sits and which payload bytes.
#[derive(Clone, Copy, Debug, PartialEq, Eq, Structural)]
pub struct WalByteRange {
    pub segment_ordinal: u64,
    pub segment_first_sequence: u64,
    pub frame_byte_offset: u64,
    pub wal_sequence: u64,
    pub direction: Direction,
    pub payload_byte_offset: u64,
    pub payload_byte_length: u64,
    pub gap_before: bool,
}

/// A protocol's identity for an operation boundary: authoritative when a
/// canonicalizer supplied it, not when runtime code did.
#[derive(Clone, Debug, PartialEq, Eq)]
pub struct ProtocolOperationBoundaryIdentity {
    pub protocol: String,
    pub key: String,
    pub authoritative: bool,
}

impl ProtocolOperationBoundaryIdentity {
    /// A boundary supplied by a protocol's canonicalizer.
    pub fn from_canonicalizer(protocol: &str, key: &str) -> (b: Self)
        ensures
            b.protocol@ == protocol@,
            b.key@ == key@,
            b.authoritative,
    {
        ProtocolOperationBoundaryIdentity { protocol: str_copy(protocol), key: str_copy(key), authoritative: true }
    }

    /// A boundary supplied at runtime, which binds nothing.
    pub fn new(protocol: &str, key: &str) -> (b: Self)
        ensures
            b.protocol@ == protocol@,
            b.key@ == key@,
            !b.authoritative,
    {
        ProtocolOperationBoundaryIdentity { protocol: str_copy(protocol), key: str_copy(key), authoritative: false }
    }

    pub fn is_authoritative(&self) -> (r: bool)
        ensures
            r == self.authoritative,
    {
        self.authoritative
    }
}

/// Where a native operation boundary was observed in the recording.
#[derive(Clone, Debug, PartialEq, Eq)]
pub struct NativeOperationBoundaryReceipt {
    pub recording_id: u128,
    pub source_epoch_id: u128,
    pub source_generation: SourceConnectionGeneration,
    pub protocol_id: String,
    pub direction: Direction,
    pub protocol_operation_boundary: ProtocolOperationBoundaryIdentity,
    pub source_range: WalByteRange,
}

pub struct ReceiptView {
    pub recording_id: u128,
    pub source_epoch_id: u128,
    pub source_generation: SourceConnectionGeneration,
    pub protocol_id: Seq<char>,
    pub direction: Direction,
    pub boundary_protocol: Seq<char>,
    pub boundary_key: Seq<char>,
    pub boundary_authoritative: bool,
    pub source_range: WalByteRange,
}

impl View for NativeOperationBoundaryReceipt {
    type V = ReceiptView;

    open spec fn view(&self) -> ReceiptView {
        ReceiptView {
            recording_id: self.recording_id,
            source_epoch_id: self.source_epoch_id,
            source_generation: self.source_generation,
            protocol_id: self.protocol_id@,
            direction: self.direction,
            boundary_protocol: self.protocol_operation_boundary.protocol@,
            boundary_key: self.protocol_operation_boundary.key@,
            boundary_authoritative: self.protocol_operation_boundary.authoritative,
            source_range: self.source_range,
        }
    }
}

/// Why a receipt cannot bind, if it cannot: its protocol disagrees with the
/// boundary's, the boundary is not authoritative, or its range runs the
/// other way.
pub open spec fn receipt_error(r: ReceiptView) -> Option<Seq<char>> {
    if r.protocol_id != r.boundary_protocol {
        Some("protocol identity disagrees with protocol-owned boundary identity"@)
    } else if !r.boundary_authoritative {
        Some("runtime-supplied operation boundary is not binding authority"@)
    } else if r.source_range.direction != r.direction {
        Some("source range direction disagrees with receipt direction"@)
    } else {
        None
    }
}

pub enum SourceErrorView {
    UnknownContext,
    ContextLimitExceeded { limit: usize },
    PendingLimitExceeded { limit: usize },
    DiagnosticLimitExceeded { limit: usize },
    SideChannelLimitExceeded { limit: usize },
    ConflictingReceipt,
    InvalidReceipt(Seq<char>),
}

impl View for NativeSourceError {
    type V = SourceErrorView;

    open spec fn view(&self) -> SourceErrorView {
        match self {
            NativeSourceError::UnknownContext => SourceErrorView::UnknownContext,
            NativeSourceError::ContextLimitExceeded { limit } => SourceErrorView::ContextLimitExceeded { limit: *limit },
            NativeSourceError::PendingLimitExceeded { limit } => SourceErrorView::PendingLimitExceeded { limit: *limit },
            NativeSourceError::DiagnosticLimitExceeded { limit } => SourceErrorView::DiagnosticLimitExceeded { limit: *limit },
            NativeSourceError::SideChannelLimitExceeded { limit } => SourceErrorView::SideChannelLimitExceeded { limit: *limit },
            NativeSourceError::ConflictingReceipt => SourceErrorView::ConflictingReceipt,
            NativeSourceError::InvalidReceipt(m) => SourceErrorView::InvalidReceipt(m@),
        }
    }
}

/// `r` failed with the error `v`.
pub open spec fn fails_with<T>(r: Result<T, NativeSourceError>, v: SourceErrorView) -> bool {
    r matches Err(e) && e@ == v
}

impl NativeOperationBoundaryReceipt {
    /// Checks that the receipt can bind; see `receipt_error`.
    pub fn validate(&self) -> (r: Result<(), NativeSourceError>)
        ensures
            match receipt_error(self@) {
                None => r is Ok,
                Some(m) => fails_with(r, SourceErrorView::InvalidReceipt(m)),
            },
    {
        if !str_eq(self.protocol_id.as_str(), self.protocol_operation_boundary.protocol.as_str()) {
            return Err(NativeSourceError::InvalidReceipt(str_copy("protocol identity disagrees with protocol-owned boundary identity")));
        }
        if !self.protocol_operation_boundary.is_authoritative() {
            return Err(NativeSourceError::InvalidReceipt(str_copy("runtime-supplied operation boundary is not binding authority")));
        }
        if self.source_range.direction != self.direction {
            return Err(NativeSourceError::InvalidReceipt(str_copy("source range direction disagrees with receipt direction")));
        }
        Ok(())
    }

    /// A copy of the receipt.
    pub fn duplicate(&self) -> (c: Self)
        ensures
            c@ == self@,
    {
        NativeOperationBoundaryReceipt {
            recording_id: self.recording_id,
            source_epoch_id: self.source_epoch_id,
            source_generation: self.source_generation,
            protocol_id: str_copy(self.protocol_id.as_str()),
            direction: self.direction,
            protocol_operation_boundary: ProtocolOperationBoundaryIdentity {
                protocol: str_copy(self.protocol_operation_boundary.protocol.as_str()),
                key: str_copy(self.protocol_operation_boundary.key.as_str()),
                authoritative: self.protocol_operation_boundary.authoritative,
            },
            source_range: self.source_range,
        }
    }

    /// Whether two receipts are the same.
    pub fn same(&self, other: &Self) -> (r: bool)
        ensures
            r == (self@ == other@),
    {
        self.recording_id == other.recording_id && self.source_epoch_id == other.source_epoch_id
            && self.source_generation == other.source_generation && str_eq(self.protocol_id.as_str(), other.protocol_id.as_str())
            && self.direction == other.direction
            && str_eq(self.protocol_operation_boundary.protocol.as_str(), other.protocol_operation_boundary.protocol.as_str())
            && str_eq(self.protocol_operation_boundary.key.as_str(), other.protocol_operation_boundary.key.as_str())
            && self.protocol_operation_boundary.authoritative == other.protocol_operation_boundary.authoritative
            && self.source_range == other.source_range
    }
}

/// A receipt bound to the context generation that observed it.
#[derive(Clone, Debug, PartialEq, Eq)]
pub struct NativeOperationAnchor {
    pub boundary: NativeOperationBoundaryReceipt,
    pub context_generation: NativeExecutionContextGeneration,
}

pub struct AnchorView {
    pub boundary: ReceiptView,
    pub context_generation: u128,
}

impl View for NativeOperationAnchor {
    type V = AnchorView;

    open spec fn view(&self) -> AnchorView {
        AnchorView { boundary: self.boundary@, context_generation: self.context_generation.0 }
    }
}

impl NativeOperationAnchor {
    /// The anchor of a receipt that can bind.
    pub fn new(boundary: NativeOperationBoundaryReceipt, context_generation: NativeExecutionContextGeneration)
        -> (r: Result<Self, NativeSourceError>)
        ensures
            match receipt_error(boundary@) {
                None => r matches Ok(a) && a@ == (AnchorView { boundary: boundary@, context_generation: context_generation.0 }),
                Some(m) => fails_with(r, SourceErrorView::InvalidReceipt(m)),
            },
    {
        boundary.validate()?;
        Ok(NativeOperationAnchor { boundary, context_generation })
    }
}

/// The source of native handoff observations.
pub open spec fn native_source() -> Seq<char> {
    "chronicle-native-execution-context"@
}

#[derive(Clone, Debug, PartialEq, Eq)]
pub struct NativeObservationProvenance {
    pub source: String,
    pub parent_context_generation: NativeExecutionContextGeneration,
    pub child_context_generation: NativeExecutionContextGeneration,
}

/// The relation a native handoff asserts: the child continues the parent's
/// execution.
#[derive(Clone, Copy, Debug, PartialEq, Eq, Structural)]
pub struct ExecutionContinuation;

/// A complete parent/child handoff between two anchors.
#[derive(Clone, Debug, PartialEq, Eq)]
pub struct NativeExecutionHandoffObservation {
    pub parent: NativeOperationAnchor,
    pub child: NativeOperationAnchor,
    pub relation: ExecutionContinuation,
    pub provenance: NativeObservationProvenance,
}

pub struct ObservationView {
    pub parent: AnchorView,
    pub child: AnchorView,
    pub source: Seq<char>,
    pub parent_context_generation: u128,
    pub child_context_generation: u128,
}

impl View for NativeExecutionHandoffObservation {
    type V = ObservationView;

    open spec fn view(&self) -> ObservationView {
        ObservationView {
            parent: self.parent@,
            child: self.child@,
            source: self.provenance.source@,
            parent_context_generation: self.provenance.parent_context_generation.0,
            child_context_generation: self.provenance.child_context_generation.0,
        }
    }
}

pub open spec fn observations_view(s: Seq<NativeExecutionHandoffObservation>) -> Seq<ObservationView> {
    s.map_values(|o: NativeExecutionHandoffObservation| o@)
}

impl NativeExecutionHandoffObservation {
    /// A handoff between distinct generations whose provenance names them.
    pub fn new(parent: NativeOperationAnchor, child: NativeOperationAnchor, provenance: NativeObservationProvenance)
        -> (r: Result<Self, NativeSourceError>)
        ensures
            parent.context_generation == child.context_generation ==> fails_with(r, SourceErrorView::InvalidReceipt("native handoff cannot point from a context generation to itself"@)),
            parent.context_generation != child.context_generation
                && (provenance.parent_context_generation != parent.context_generation
                    || provenance.child_context_generation != child.context_generation) ==> fails_with(r, SourceErrorView::InvalidReceipt("native handoff provenance does not match endpoint generations"@)),
            r is Ok <==> parent.context_generation != child.context_generation
                && provenance.parent_context_generation == parent.context_generation
                && provenance.child_context_generation == child.context_generation,
            r matches Ok(o) ==> o@ == (ObservationView {
                parent: parent@,
                child: child@,
                source: provenance.source@,
                parent_context_generation: provenance.parent_context_generation.0,
                child_context_generation: provenance.child_context_generation.0,
            }),
    {
        if parent.context_generation == child.context_generation {
            return Err(NativeSourceError::InvalidReceipt(str_copy("native handoff cannot point from a context generation to itself")));
        }
        if provenance.parent_context_generation != parent.context_generation
            || provenance.child_context_generation != child.context_generation
        {
            return Err(NativeSourceError::InvalidReceipt(str_copy("native handoff provenance does not match endpoint generations")));
        }
        Ok(NativeExecutionHandoffObservation { parent, child, relation: ExecutionContinuation, provenance })
    }
}

/// A bounded queue of observations for a side channel.
pub struct BoundedNativeObservationChannel {
    max_observations: usize,
    queue: Vec<NativeExecutionHandoffObservation>,
}

impl BoundedNativeObservationChannel {
    pub closed spec fn capacity(&self) -> usize {
        self.max_observations
    }

    pub closed spec fn queued(&self) -> Seq<ObservationView> {
        observations_view(self.queue@)
    }

    /// A channel for at most `max_observations`, which must be positive.
    pub fn new(max_observations: usize) -> (r: Option<Self>)
        ensures
            max_observations == 0 <==> r is None,
            r matches Some(c) ==> c.capacity() == max_observations && c.queued().len() == 0,
    {
        if max_observations == 0 {
            None
        } else {
            let c = BoundedNativeObservationChannel { max_observations, queue: Vec::new() };
            proof { assert(observations_view(c.queue@) =~= Seq::<ObservationView>::empty()); }
            Some(c)
        }
    }

    /// Queues an observation unless the channel is full.
    pub fn push(&mut self, observation: NativeExecutionHandoffObservation) -> (r: Result<(), NativeSourceError>)
        ensures
            final(self).capacity() == old(self).capacity(),
            old(self).queued().len() >= old(self).capacity() ==> final(self).queued() == old(self).queued()
                && fails_with(r, SourceErrorView::SideChannelLimitExceeded { limit: old(self).capacity() }),
            old(self).queued().len() < old(self).capacity() ==> r is Ok
                && final(self).queued() == old(self).queued().push(observation@),
    {
        if self.queue.len() >= self.max_observations {
            return Err(NativeSourceError::SideChannelLimitExceeded { limit: self.max_observations });
        }
        let ghost before = observations_view(self.queue@);
        self.queue.push(observation);
        proof { assert(observations_view(self.queue@) =~= before.push(observation@)); }
        Ok(())
    }

    /// Takes every queued observation, in order.
    pub fn drain(&mut self) -> (r: Vec<NativeExecutionHandoffObservation>)
        ensures
            final(self).capacity() == old(self).capacity(),
            observations_view(r@) == old(self).queued(),
            final(self).queued().len() == 0,
    {
        let mut taken: Vec<NativeExecutionHandoffObservation> = Vec::new();
        std::mem::swap(&mut taken, &mut self.queue);
        proof { assert(observations_view(self.queue@) =~= Seq::<ObservationView>::empty()); }
        taken
    }

    pub fn len(&self) -> (n: usize)
        ensures
            n == self.queued().len(),
    {
        self.queue.len()
    }

    pub fn is_empty(&self) -> (r: bool)
        ensures
            r == (self.queued().len() == 0),
    {
        self.queue.len() == 0
    }
}

/// A diagnostic of the native source.
#[derive(Clone, Debug, PartialEq, Eq)]
pub struct NativeObservationDiagnostic {
    pub kind: NativeObservationDiagnosticKind,
    pub context_generation: Option<NativeExecutionContextGeneration>,
    pub message: String,
}

pub struct DiagnosticView {
    pub kind: NativeObservationDiagnosticKind,
    pub context_generation: Option<u128>,
    pub message: Seq<char>,
}

impl View for NativeObservationDiagnostic {
    type V = DiagnosticView;

    open spec fn view(&self) -> DiagnosticView {
        DiagnosticView {
            kind: self.kind,
            context_generation: match self.context_generation { Some(g) => Some(g.0), None => None },
            message: self.message@,
        }
    }
}

pub open spec fn diagnostics_view(s: Seq<NativeObservationDiagnostic>) -> Seq<DiagnosticView> {
    s.map_values(|d: NativeObservationDiagnostic| d@)
}

// ---------------------------------------------------------------------------
// The carrier of parent/child handoffs

/// A handoff waiting for its receipts: the parent and child generations,
/// and the child's receipt once it arrived.
struct PendingHandoff {
    parent_generation: NativeExecutionContextGeneration,
    child_generation: NativeExecutionContextGeneration,
    child_receipt: Option<NativeOperationBoundaryReceipt>,
}

pub struct PendingView {
    pub parent: u128,
    pub child: u128,
    pub child_receipt: Option<ReceiptView>,
}

impl View for PendingHandoff {
    type V = PendingView;

    closed spec fn view(&self) -> PendingView {
        PendingView {
            parent: self.parent_generation.0,
            child: self.child_generation.0,
            child_receipt: match self.child_receipt { Some(r) => Some(r@), None => None },
        }
    }
}

pub struct CarrierView {
    pub limits: NativeSourceLimits,
    /// Known contexts: generation and parent generation, each generation once.
    pub contexts: Seq<(u128, Option<u128>)>,
    /// Parent receipts by generation, each generation once.
    pub parent_receipts: Seq<(u128, ReceiptView)>,
    /// Pending handoffs in increasing child generation.
    pub pending: Seq<PendingView>,
    /// Child generations whose handoff completed, each once.
    pub completed: Seq<u128>,
    pub diagnostics: Seq<DiagnosticView>,
}

/// Bounded source-side assembly of explicit parent/child handoffs: receipts
/// may arrive in either order, and no partial anchor is ever emitted.
pub struct NativeExecutionContextCarrier {
    limits: NativeSourceLimits,
    contexts: Vec<ChronicleExecutionContext>,
    parent_receipts: Vec<(NativeExecutionContextGeneration, NativeOperationBoundaryReceipt)>,
    pending: Vec<PendingHandoff>,
    completed: Vec<NativeExecutionContextGeneration>,
    diagnostics: Vec<NativeObservationDiagnostic>,
}

pub open spec fn context_entry(c: ChronicleExecutionContext) -> (u128, Option<u128>) {
    (c.generation.0, match c.parent_generation { Some(p) => Some(p.0), None => None })
}

impl View for NativeExecutionContextCarrier {
    type V = CarrierView;

    closed spec fn view(&self) -> CarrierView {
        CarrierView {
            limits: self.limits,
            contexts: self.contexts@.map_values(|c: ChronicleExecutionContext| context_entry(c)),
            parent_receipts: self.parent_receipts@.map_values(|e: (NativeExecutionContextGeneration, NativeOperationBoundaryReceipt)| (e.0.0, e.1@)),
            pending: self.pending@.map_values(|p: PendingHandoff| p@),
            completed: self.completed@.map_values(|g: NativeExecutionContextGeneration| g.0),
            diagnostics: diagnostics_view(self.diagnostics@),
        }
    }
}

/// The position of generation `g` among `contexts`, or -1.
pub open spec fn context_position(contexts: Seq<(u128, Option<u128>)>, g: u128) -> int {
    if exists|i: int| 0 <= i < contexts.len() && contexts[i].0 == g {
        choose|i: int| 0 <= i < contexts.len() && contexts[i].0 == g
    } else {
        -1
    }
}

pub open spec fn receipt_position(receipts: Seq<(u128, ReceiptView)>, g: u128) -> int {
    if exists|i: int| 0 <= i < receipts.len() && receipts[i].0 == g {
        choose|i: int| 0 <= i < receipts.len() && receipts[i].0 == g
    } else {
        -1
    }
}

pub open spec fn pending_position(pending: Seq<PendingView>, g: u128) -> int {
    if exists|i: int| 0 <= i < pending.len() && pending[i].child == g {
        choose|i: int| 0 <= i < pending.len() && pending[i].child == g
    } else {
        -1
    }
}

/// The number of pending handoffs whose child generation is below `g`.
pub open spec fn pending_before(pending: Seq<PendingView>, g: u128) -> nat
    decreases pending.len(),
{
    if pending.len() == 0 { 0 } else { pending_before(pending.drop_last(), g) + if pending.last().child < g { 1nat } else { 0nat } }
}

/// `contexts` with the context `c` recorded.
pub open spec fn context_put(contexts: Seq<(u128, Option<u128>)>, c: (u128, Option<u128>)) -> Seq<(u128, Option<u128>)> {
    let p = context_position(contexts, c.0);
    if p >= 0 { contexts.update(p, c) } else { contexts.push(c) }
}

/// `pending` with the handoff `h` recorded in child order.
pub open spec fn pending_put(pending: Seq<PendingView>, h: PendingView) -> Seq<PendingView> {
    let p = pending_position(pending, h.child);
    if p >= 0 { pending.update(p, h) } else { pending.insert(pending_before(pending, h.child) as int, h) }
}

pub open spec fn carrier_wf(v: CarrierView) -> bool {
    &&& forall|i: int, j: int| 0 <= i < j < v.contexts.len() ==> (#[trigger] v.contexts[i]).0 != (#[trigger] v.contexts[j]).0
    &&& forall|i: int, j: int| 0 <= i < j < v.parent_receipts.len() ==> (#[trigger] v.parent_receipts[i]).0 != (#[trigger] v.parent_receipts[j]).0
    &&& forall|i: int, j: int| 0 <= i < j < v.pending.len() ==> (#[trigger] v.pending[i]).child < (#[trigger] v.pending[j]).child
    &&& forall|i: int, j: int| 0 <= i < j < v.completed.len() ==> (#[trigger] v.completed[i]) != (#[trigger] v.completed[j])
    &&& v.contexts.len() <= v.limits.max_contexts
    &&& v.pending.len() <= v.limits.max_pending_observations
    &&& v.completed.len() <= v.limits.max_pending_observations
    &&& v.diagnostics.len() <= v.limits.max_diagnostics
}

/// The observation of a completed handoff.
pub open spec fn handoff_observation(parent: u128, child: u128, parent_receipt: ReceiptView, child_receipt: ReceiptView) -> ObservationView {
    ObservationView {
        parent: AnchorView { boundary: parent_receipt, context_generation: parent },
        child: AnchorView { boundary: child_receipt, context_generation: child },
        source: native_source(),
        parent_context_generation: parent,
        child_context_generation: child,
    }
}

/// The state and result after trying to complete the handoff to `child`:
/// nothing happens until it has both receipts; a handoff already completed
/// is dropped; past the completion bound, or with an unknown context or a
/// receipt that cannot bind, it fails; else it completes once.
pub open spec fn child_completed(v: CarrierView, child: u128) -> (CarrierView, Result<Seq<ObservationView>, SourceErrorView>) {
    let p = pending_position(v.pending, child);
    if p < 0 {
        (v, Ok(Seq::empty()))
    } else {
        let h = v.pending[p];
        let rp = receipt_position(v.parent_receipts, h.parent);
        if rp < 0 || h.child_receipt is None {
            (v, Ok(Seq::empty()))
        } else if v.completed.contains(child) {
            (CarrierView { pending: v.pending.remove(p), ..v }, Ok(Seq::empty()))
        } else if v.completed.len() >= v.limits.max_pending_observations {
            (v, Err(SourceErrorView::PendingLimitExceeded { limit: v.limits.max_pending_observations }))
        } else if context_position(v.contexts, h.parent) < 0 || context_position(v.contexts, h.child) < 0 {
            (v, Err(SourceErrorView::UnknownContext))
        } else if receipt_error(v.parent_receipts[rp].1) is Some {
            (v, Err(SourceErrorView::InvalidReceipt(receipt_error(v.parent_receipts[rp].1)->0)))
        } else if receipt_error(h.child_receipt->0) is Some {
            (v, Err(SourceErrorView::InvalidReceipt(receipt_error(h.child_receipt->0)->0)))
        } else if h.parent == h.child {
            (v, Err(SourceErrorView::InvalidReceipt("native handoff cannot point from a context generation to itself"@)))
        } else {
            (CarrierView { pending: v.pending.remove(p), completed: v.completed.push(child), ..v },
                Ok(seq![handoff_observation(h.parent, h.child, v.parent_receipts[rp].1, h.child_receipt->0)]))
        }
    }
}

/// Completing the handoffs to `children` in order, stopping at an error.
pub open spec fn children_completed(v: CarrierView, children: Seq<u128>) -> (CarrierView, Result<Seq<ObservationView>, SourceErrorView>)
    decreases children.len(),
{
    if children.len() == 0 {
        (v, Ok(Seq::empty()))
    } else {
        let (w, r) = children_completed(v, children.drop_last());
        match r {
            Err(e) => (w, Err(e)),
            Ok(done) => {
                let (w2, r2) = child_completed(w, children.last());
                match r2 {
                    Err(e) => (w2, Err(e)),
                    Ok(more) => (w2, Ok(done + more)),
                }
            },
        }
    }
}

/// The child generations of pending handoffs from `parent`, in order.
pub open spec fn children_of(pending: Seq<PendingView>, parent: u128) -> Seq<u128>
    decreases pending.len(),
{
    if pending.len() == 0 {
        Seq::empty()
    } else if pending.last().parent == parent {
        children_of(pending.drop_last(), parent).push(pending.last().child)
    } else {
        children_of(pending.drop_last(), parent)
    }
}

pub open spec fn obs_result(r: Result<Vec<NativeExecutionHandoffObservation>, NativeSourceError>) -> Result<Seq<ObservationView>, SourceErrorView> {
    match r {
        Ok(v) => Ok(observations_view(v@)),
        Err(e) => Err(e@),
    }
}

/// The diagnostics returned when the pending handoffs at `gen` expire.
pub open spec fn expired_diagnostics(n: nat, gen: u128) -> Seq<DiagnosticView> {
    Seq::new(n, |i: int| DiagnosticView {
        kind: NativeObservationDiagnosticKind::PendingExpired,
        context_generation: Some(gen),
        message: "native handoff receipt did not complete within bounded source lifecycle"@,
    })
}

/// A handoff touches generation `gen` as its parent or its child.
pub open spec fn touches(h: PendingView, gen: u128) -> bool {
    h.parent == gen || h.child == gen
}

/// The pending handoffs that do not touch `gen`, in order.
pub open spec fn untouched(pending: Seq<PendingView>, gen: u128) -> Seq<PendingView>
    decreases pending.len(),
{
    if pending.len() == 0 {
        Seq::empty()
    } else if touches(pending.last(), gen) {
        untouched(pending.drop_last(), gen)
    } else {
        untouched(pending.drop_last(), gen).push(pending.last())
    }
}

/// The diagnostics returned when a restart loses the pending handoffs.
pub open spec fn lost_diagnostics(pending: Seq<PendingView>) -> Seq<DiagnosticView> {
    pending.map_values(|h: PendingView| DiagnosticView {
        kind: NativeObservationDiagnosticKind::RestartLostPending,
        context_generation: Some(h.child),
        message: "native pending handoff was lost during source restart"@,
    })
}

pub open spec fn diags(r: Vec<NativeObservationDiagnostic>) -> Seq<DiagnosticView> {
    diagnostics_view(r@)
}

impl NativeExecutionContextCarrier {
    pub open spec fn wf(&self) -> bool {
        carrier_wf(self@)
    }

    pub fn new(limits: NativeSourceLimits) -> (c: Self)
        ensures
            c.wf(),
            c@ == (CarrierView { limits, contexts: Seq::empty(), parent_receipts: Seq::empty(), pending: Seq::empty(),
                completed: Seq::empty(), diagnostics: Seq::empty() }),
    {
        let c = NativeExecutionContextCarrier {
            limits,
            contexts: Vec::new(),
            parent_receipts: Vec::new(),
            pending: Vec::new(),
            completed: Vec::new(),
            diagnostics: Vec::new(),
        };
        proof {
            assert(c@.contexts =~= Seq::<(u128, Option<u128>)>::empty());
            assert(c@.parent_receipts =~= Seq::<(u128, ReceiptView)>::empty());
            assert(c@.pending =~= Seq::<PendingView>::empty());
            assert(c@.completed =~= Seq::<u128>::empty());
            assert(c@.diagnostics =~= Seq::<DiagnosticView>::empty());
        }
        c
    }

    fn find_context(&self, g: u128) -> (r: Option<usize>)
        requires
            self.wf(),
        ensures
            match r {
                Some(i) => i < self@.contexts.len() && i == context_position(self@.contexts, g)
                    && self.contexts@[i as int].generation.0 == g,
                None => context_position(self@.contexts, g) == -1,
            },
    {
        let ghost cs = self@.contexts;
        let mut i: usize = 0;
        while i < self.contexts.len()
            invariant
                self.wf(),
                cs == self@.contexts,
                i <= cs.len(),
                forall|k: int| 0 <= k < i ==> (#[trigger] cs[k]).0 != g,
            decreases self.contexts.len() - i,
        {
            assert(cs[i as int] == context_entry(self.contexts@[i as int]));
            if self.contexts[i].generation.0 == g {
                proof {
                    let j = choose|j: int| 0 <= j < cs.len() && cs[j].0 == g;
                    if j < i { assert(cs[j].0 != cs[i as int].0); } else if j > i { assert(cs[i as int].0 != cs[j].0); }
                }
                return Some(i);
            }
            i = i + 1;
        }
        None
    }

    fn find_receipt(&self, g: u128) -> (r: Option<usize>)
        requires
            self.wf(),
        ensures
            match r {
                Some(i) => i < self@.parent_receipts.len() && i == receipt_position(self@.parent_receipts, g),
                None => receipt_position(self@.parent_receipts, g) == -1,
            },
    {
        let ghost rs = self@.parent_receipts;
        let mut i: usize = 0;
        while i < self.parent_receipts.len()
            invariant
                self.wf(),
                rs == self@.parent_receipts,
                i <= rs.len(),
                forall|k: int| 0 <= k < i ==> (#[trigger] rs[k]).0 != g,
            decreases self.parent_receipts.len() - i,
        {
            assert(rs[i as int].0 == self.parent_receipts@[i as int].0.0);
            if self.parent_receipts[i].0.0 == g {
                proof {
                    let j = choose|j: int| 0 <= j < rs.len() && rs[j].0 == g;
                    if j < i { assert(rs[j].0 != rs[i as int].0); } else if j > i { assert(rs[i as int].0 != rs[j].0); }
                }
                return Some(i);
            }
            i = i + 1;
        }
        None
    }

    fn find_pending(&self, g: u128) -> (r: Option<usize>)
        requires
            self.wf(),
        ensures
            match r {
                Some(i) => i < self@.pending.len() && i == pending_position(self@.pending, g),
                None => pending_position(self@.pending, g) == -1,
            },
    {
        let ghost ps = self@.pending;
        let mut i: usize = 0;
        while i < self.pending.len()
            invariant
                self.wf(),
                ps == self@.pending,
                i <= ps.len(),
                forall|k: int| 0 <= k < i ==> (#[trigger] ps[k]).child != g,
            decreases self.pending.len() - i,
        {
            assert(ps[i as int] == self.pending@[i as int]@);
            if self.pending[i].child_generation.0 == g {
                proof {
                    let j = choose|j: int| 0 <= j < ps.len() && ps[j].child == g;
                    if j < i { assert(ps[j].child < ps[i as int].child); } else if j > i { assert(ps[i as int].child < ps[j].child); }
                }
                return Some(i);
            }
            i = i + 1;
        }
        None
    }

    fn completed_has(&self, g: u128) -> (r: bool)
        ensures
            r == self@.completed.contains(g),
    {
        let ghost cs = self@.completed;
        let mut i: usize = 0;
        while i < self.completed.len()
            invariant
                cs == self@.completed,
                i <= cs.len(),
                forall|k: int| 0 <= k < i ==> (#[trigger] cs[k]) != g,
            decreases self.completed.len() - i,
        {
            if self.completed[i].0 == g {
                assert(cs[i as int] == g);
                return true;
            }
            i = i + 1;
        }
        false
    }

    fn pending_lower(&self, g: u128) -> (r: usize)
        ensures
            r == pending_before(self@.pending, g),
    {
        let ghost ps = self@.pending;
        let mut n: usize = 0;
        let mut i: usize = 0;
        while i < self.pending.len()
            invariant
                ps == self@.pending,
                i <= ps.len(),
                n <= i,
                n == pending_before(ps.take(i as int), g),
            decreases self.pending.len() - i,
        {
            proof {
                assert(ps.take(i + 1).drop_last() =~= ps.take(i as int));
                assert(ps[i as int] == self.pending@[i as int]@);
            }
            if self.pending[i].child_generation.0 < g {
                n = n + 1;
            }
            i = i + 1;
        }
        proof { assert(ps.take(ps.len() as int) =~= ps); }
        n
    }
}

proof fn lemma_pending_before(ps: Seq<PendingView>, g: u128)
    requires
        forall|i: int, j: int| 0 <= i < j < ps.len() ==> (#[trigger] ps[i]).child < (#[trigger] ps[j]).child,
        forall|i: int| 0 <= i < ps.len() ==> (#[trigger] ps[i]).child != g,
    ensures
        pending_before(ps, g) <= ps.len(),
        forall|i: int| 0 <= i < pending_before(ps, g) ==> (#[trigger] ps[i]).child < g,
        forall|i: int| pending_before(ps, g) <= i < ps.len() ==> g < (#[trigger] ps[i]).child,
    decreases ps.len(),
{
    if ps.len() > 0 {
        let rest = ps.drop_last();
        assert forall|i: int, j: int| 0 <= i < j < rest.len() implies (#[trigger] rest[i]).child < (#[trigger] rest[j]).child by {
            assert(rest[i] == ps[i] && rest[j] == ps[j]);
        }
        assert forall|i: int| 0 <= i < rest.len() implies (#[trigger] rest[i]).child != g by {
            assert(rest[i] == ps[i]);
        }
        lemma_pending_before(rest, g);
        let n = ps.len() - 1;
        assert forall|i: int| 0 <= i < pending_before(ps, g) implies (#[trigger] ps[i]).child < g by {
            if i < n { assert(rest[i] == ps[i]); }
            if i < n && i >= pending_before(rest, g) {
                assert(ps[i].child < ps[n].child);
            }
        }
        assert forall|i: int| pending_before(ps, g) <= i < ps.len() implies g < (#[trigger] ps[i]).child by {
            if i < n { assert(rest[i] == ps[i]); }
            if ps[n].child < g && pending_before(rest, g) < n {
                let k = pending_before(rest, g) as int;
                assert(g < rest[k].child);
                assert(ps[k].child < ps[n].child);
            }
        }
    }
}

impl NativeExecutionContextCarrier {
    fn put_context(&mut self, c: ChronicleExecutionContext)
        requires
            old(self).wf(),
            context_position(old(self)@.contexts, c.generation.0) >= 0 || old(self)@.contexts.len() < old(self)@.limits.max_contexts,
        ensures
            final(self).wf(),
            final(self)@ == (CarrierView { contexts: context_put(old(self)@.contexts, context_entry(c)), ..old(self)@ }),
    {
        let ghost v = self@;
        match self.find_context(c.generation.0) {
            Some(i) => {
                self.contexts.set(i, c);
                proof {
                    assert(self@.contexts =~= v.contexts.update(i as int, context_entry(c)));
                    assert forall|a: int, b: int| 0 <= a < b < self@.contexts.len() implies (#[trigger] self@.contexts[a]).0 != (#[trigger] self@.contexts[b]).0 by {
                        assert(v.contexts[a].0 != v.contexts[b].0);
                    }
                }
            },
            None => {
                self.contexts.push(c);
                proof {
                    assert(self@.contexts =~= v.contexts.push(context_entry(c)));
                    assert(!(exists|k: int| 0 <= k < v.contexts.len() && v.contexts[k].0 == c.generation.0));
                    assert forall|a: int, b: int| 0 <= a < b < self@.contexts.len() implies (#[trigger] self@.contexts[a]).0 != (#[trigger] self@.contexts[b]).0 by {
                        if b < v.contexts.len() {
                            assert(v.contexts[a].0 != v.contexts[b].0);
                        } else {
                            assert(self@.contexts[a] == v.contexts[a]);
                        }
                    }
                }
            },
        }
        proof {
            assert(self@.parent_receipts == v.parent_receipts);
            assert(self@.pending == v.pending);
            assert(self@.completed == v.completed);
            assert(self@.diagnostics == v.diagnostics);
        }
    }

    fn put_pending(&mut self, h: PendingHandoff)
        requires
            old(self).wf(),
            pending_position(old(self)@.pending, h@.child) >= 0 || old(self)@.pending.len() < old(self)@.limits.max_pending_observations,
        ensures
            final(self).wf(),
            final(self)@ == (CarrierView { pending: pending_put(old(self)@.pending, h@), ..old(self)@ }),
    {
        let ghost v = self@;
        let ghost hv = h@;
        match self.find_pending(h.child_generation.0) {
            Some(i) => {
                self.pending.set(i, h);
                proof {
                    assert(self@.pending =~= v.pending.update(i as int, hv));
                    assert forall|a: int, b: int| 0 <= a < b < self@.pending.len() implies (#[trigger] self@.pending[a]).child < (#[trigger] self@.pending[b]).child by {
                        assert(v.pending[a].child < v.pending[b].child);
                    }
                }
            },
            None => {
                let pos = self.pending_lower(h.child_generation.0);
                proof {
                    assert(!(exists|k: int| 0 <= k < v.pending.len() && v.pending[k].child == hv.child));
                    lemma_pending_before(v.pending, hv.child);
                }
                self.pending.insert(pos, h);
                proof {
                    let np = self@.pending;
                    assert(np =~= v.pending.insert(pos as int, hv));
                    assert forall|a: int, b: int| 0 <= a < b < np.len() implies (#[trigger] np[a]).child < (#[trigger] np[b]).child by {
                        if a < pos { assert(np[a] == v.pending[a]); } else if a == pos { assert(np[a] == hv); } else { assert(np[a] == v.pending[a - 1]); }
                        if b < pos { assert(np[b] == v.pending[b]); } else if b == pos { assert(np[b] == hv); } else { assert(np[b] == v.pending[b - 1]); }
                    }
                }
            },
        }
        proof {
            assert(self@.contexts == v.contexts);
            assert(self@.parent_receipts == v.parent_receipts);
            assert(self@.completed == v.completed);
            assert(self@.diagnostics == v.diagnostics);
        }
    }

    /// Starts a root context, within the context limit.
    pub fn start_root(&mut self) -> (r: Result<ChronicleExecutionContext, NativeSourceError>)
        requires
            old(self).wf(),
        ensures
            final(self).wf(),
            old(self)@.contexts.len() >= old(self)@.limits.max_contexts ==> final(self)@ == old(self)@
                && fails_with(r, SourceErrorView::ContextLimitExceeded { limit: old(self)@.limits.max_contexts }),
            old(self)@.contexts.len() < old(self)@.limits.max_contexts ==> (r matches Ok(c) && c.parent_generation is None
                && final(self)@ == (CarrierView { contexts: context_put(old(self)@.contexts, context_entry(c)), ..old(self)@ })),
    {
        if self.contexts.len() >= self.limits.max_contexts {
            return Err(NativeSourceError::ContextLimitExceeded { limit: self.limits.max_contexts });
        }
        let context = ChronicleExecutionContext::root();
        self.put_context(context);
        Ok(context)
    }

    /// Starts a child of a known context, within the context and pending
    /// limits; its handoff waits for both receipts.
    pub fn continue_from(&mut self, parent: ChronicleExecutionContext) -> (r: Result<ChronicleExecutionContext, NativeSourceError>)
        requires
            old(self).wf(),
        ensures
            final(self).wf(),
            context_position(old(self)@.contexts, parent.generation.0) < 0 ==> final(self)@ == old(self)@
                && fails_with(r, SourceErrorView::UnknownContext),
            context_position(old(self)@.contexts, parent.generation.0) >= 0 && old(self)@.contexts.len() >= old(self)@.limits.max_contexts
                ==> final(self)@ == old(self)@ && fails_with(r, SourceErrorView::ContextLimitExceeded { limit: old(self)@.limits.max_contexts }),
            context_position(old(self)@.contexts, parent.generation.0) >= 0 && old(self)@.contexts.len() < old(self)@.limits.max_contexts
                && old(self)@.pending.len() >= old(self)@.limits.max_pending_observations
                ==> final(self)@ == old(self)@
                && fails_with(r, SourceErrorView::PendingLimitExceeded { limit: old(self)@.limits.max_pending_observations }),
            context_position(old(self)@.contexts, parent.generation.0) >= 0 && old(self)@.contexts.len() < old(self)@.limits.max_contexts
                && old(self)@.pending.len() < old(self)@.limits.max_pending_observations
                ==> (r matches Ok(c) && c.parent_generation == Some(parent.generation) && final(self)@ == (CarrierView {
                    contexts: context_put(old(self)@.contexts, context_entry(c)),
                    pending: pending_put(old(self)@.pending, PendingView { parent: parent.generation.0, child: c.generation.0, child_receipt: None }),
                    ..old(self)@
                })),
    {
        if self.find_context(parent.generation.0).is_none() {
            return Err(NativeSourceError::UnknownContext);
        }
        if self.contexts.len() >= self.limits.max_contexts {
            return Err(NativeSourceError::ContextLimitExceeded { limit: self.limits.max_contexts });
        }
        if self.pending.len() >= self.limits.max_pending_observations {
            return Err(NativeSourceError::PendingLimitExceeded { limit: self.limits.max_pending_observations });
        }
        let child = parent.child();
        self.put_context(child);
        self.put_pending(PendingHandoff { parent_generation: parent.generation, child_generation: child.generation, child_receipt: None });
        Ok(child)
    }
}

/// Once completing a prefix of the children fails, completing them all
/// fails the same way, in the same state.
proof fn lemma_children_error_prefix(v: CarrierView, children: Seq<u128>, n: int)
    requires
        0 <= n <= children.len(),
        children_completed(v, children.take(n)).1 is Err,
    ensures
        children_completed(v, children) == children_completed(v, children.take(n)),
    decreases children.len() - n,
{
    if n < children.len() {
        assert(children.take(n + 1).drop_last() =~= children.take(n));
        lemma_children_error_prefix(v, children, n + 1);
    } else {
        assert(children.take(n) =~= children);
    }
}

fn no_observations() -> (r: Vec<NativeExecutionHandoffObservation>)
    ensures
        observations_view(r@) == Seq::<ObservationView>::empty(),
{
    let r: Vec<NativeExecutionHandoffObservation> = Vec::new();
    proof { assert(observations_view(r@) =~= Seq::<ObservationView>::empty()); }
    r
}

impl NativeExecutionContextCarrier {
    /// Completes the handoff to `child` if it is ready; see `child_completed`.
    #[verifier::rlimit(40)]
    fn complete_ready_for_child(&mut self, child: u128) -> (r: Result<Vec<NativeExecutionHandoffObservation>, NativeSourceError>)
        requires
            old(self).wf(),
        ensures
            final(self).wf(),
            (final(self)@, obs_result(r)) == child_completed(old(self)@, child),
    {
        let ghost v = self@;
        let p = match self.find_pending(child) {
            None => {
                return Ok(no_observations());
            },
            Some(p) => p,
        };
        proof { assert(v.pending[p as int] == self.pending@[p as int]@); }
        let parent_gen = self.pending[p].parent_generation;
        let child_gen = self.pending[p].child_generation;
        let rp = match self.find_receipt(parent_gen.0) {
            None => {
                return Ok(no_observations());
            },
            Some(rp) => rp,
        };
        let child_receipt = match &self.pending[p].child_receipt {
            None => {
                return Ok(no_observations());
            },
            Some(r) => r.duplicate(),
        };
        if self.completed_has(child) {
            self.pending.remove(p);
            proof {
                assert(self@.pending =~= v.pending.remove(p as int));
                assert forall|a: int, b: int| 0 <= a < b < self@.pending.len() implies (#[trigger] self@.pending[a]).child < (#[trigger] self@.pending[b]).child by {
                    let a2 = if a < p { a } else { a + 1 };
                    let b2 = if b < p { b } else { b + 1 };
                    assert(self@.pending[a] == v.pending[a2] && self@.pending[b] == v.pending[b2]);
                }
            }
            return Ok(no_observations());
        }
        if self.completed.len() >= self.limits.max_pending_observations {
            return Err(NativeSourceError::PendingLimitExceeded { limit: self.limits.max_pending_observations });
        }
        let parent_context = match self.find_context(parent_gen.0) {
            None => return Err(NativeSourceError::UnknownContext),
            Some(i) => self.contexts[i],
        };
        let child_context = match self.find_context(child_gen.0) {
            None => return Err(NativeSourceError::UnknownContext),
            Some(i) => self.contexts[i],
        };
        proof { assert(v.parent_receipts[rp as int].1 == self.parent_receipts@[rp as int].1@); }
        let parent = NativeOperationAnchor::new(self.parent_receipts[rp].1.duplicate(), parent_context.generation)?;
        let child_anchor = NativeOperationAnchor::new(child_receipt, child_context.generation)?;
        let provenance = NativeObservationProvenance {
            source: str_copy("chronicle-native-execution-context"),
            parent_context_generation: parent_context.generation,
            child_context_generation: child_context.generation,
        };
        let observation = NativeExecutionHandoffObservation::new(parent, child_anchor, provenance)?;
        self.pending.remove(p);
        self.completed.push(child_gen);
        let mut out: Vec<NativeExecutionHandoffObservation> = Vec::new();
        out.push(observation);
        proof {
            assert(self@.pending =~= v.pending.remove(p as int));
            assert(self@.completed =~= v.completed.push(child));
            assert(observations_view(out@) =~= seq![observation@]);
            assert forall|a: int, b: int| 0 <= a < b < self@.pending.len() implies (#[trigger] self@.pending[a]).child < (#[trigger] self@.pending[b]).child by {
                let a2 = if a < p { a } else { a + 1 };
                let b2 = if b < p { b } else { b + 1 };
                assert(self@.pending[a] == v.pending[a2] && self@.pending[b] == v.pending[b2]);
            }
            assert forall|a: int, b: int| 0 <= a < b < self@.completed.len() implies (#[trigger] self@.completed[a]) != (#[trigger] self@.completed[b]) by {
                if b == v.completed.len() {
                    assert(v.completed[a] != child) by {
                        if v.completed[a] == child { assert(v.completed.contains(child)); }
                    }
                } else {
                    assert(v.completed[a] != v.completed[b]);
                }
            }
        }
        Ok(out)
    }

    /// The child generations of the pending handoffs from `parent`.
    fn children_of_parent(&self, parent: u128) -> (r: Vec<u128>)
        ensures
            r@ == children_of(self@.pending, parent),
    {
        let ghost ps = self@.pending;
        let mut out: Vec<u128> = Vec::new();
        let mut i: usize = 0;
        while i < self.pending.len()
            invariant
                ps == self@.pending,
                i <= ps.len(),
                out@ == children_of(ps.take(i as int), parent),
            decreases self.pending.len() - i,
        {
            proof {
                assert(ps.take(i + 1).drop_last() =~= ps.take(i as int));
                assert(ps[i as int] == self.pending@[i as int]@);
            }
            if self.pending[i].parent_generation.0 == parent {
                out.push(self.pending[i].child_generation.0);
            }
            i = i + 1;
        }
        proof { assert(ps.take(ps.len() as int) =~= ps); }
        out
    }

    /// Completes, in child order, the ready handoffs from `parent`.
    fn complete_ready_for_parent(&mut self, parent: u128) -> (r: Result<Vec<NativeExecutionHandoffObservation>, NativeSourceError>)
        requires
            old(self).wf(),
        ensures
            final(self).wf(),
            (final(self)@, obs_result(r)) == children_completed(old(self)@, children_of(old(self)@.pending, parent)),
    {
        let ghost v = self@;
        let children = self.children_of_parent(parent);
        let mut observations: Vec<NativeExecutionHandoffObservation> = Vec::new();
        let mut i: usize = 0;
        proof {
            assert(children@.take(0) =~= Seq::<u128>::empty());
            assert(observations_view(observations@) =~= Seq::<ObservationView>::empty());
        }
        while i < children.len()
            invariant
                self.wf(),
                v == old(self)@,
                i <= children@.len(),
                children@ == children_of(v.pending, parent),
                (self@, Ok::<Seq<ObservationView>, SourceErrorView>(observations_view(observations@))) == children_completed(v, children@.take(i as int)),
            decreases children.len() - i,
        {
            proof {
                assert(children@.take(i + 1).drop_last() =~= children@.take(i as int));
                assert(children@.take(i + 1).last() == children@[i as int]);
            }
            let more = match self.complete_ready_for_child(children[i]) {
                Ok(more) => more,
                Err(e) => {
                    proof {
                        assert(children_completed(v, children@.take(i + 1)) == (self@, Err::<Seq<ObservationView>, SourceErrorView>(e@)));
                        lemma_children_error_prefix(v, children@, i + 1);
                    }
                    return Err(e);
                },
            };
            let ghost before = observations_view(observations@);
            let mut more = more;
            let ghost mv = observations_view(more@);
            observations.append(&mut more);
            proof {
                assert(observations_view(observations@) =~= before + mv);
            }
            i = i + 1;
        }
        proof { assert(children@.take(children@.len() as int) =~= children@); }
        Ok(observations)
    }
}

/// The context is known exactly as given.
pub open spec fn context_known(v: CarrierView, c: ChronicleExecutionContext) -> bool {
    let p = context_position(v.contexts, c.generation.0);
    p >= 0 && v.contexts[p] == context_entry(c)
}

/// The state and result after the parent receipt of context `c`: an
/// unknown context, a receipt that cannot bind, or one that disagrees with
/// the receipt already kept fails; else it is kept and every ready handoff
/// from `c` completes, in child order.
pub open spec fn parent_receipt_recorded(v: CarrierView, c: ChronicleExecutionContext, receipt: ReceiptView)
    -> (CarrierView, Result<Seq<ObservationView>, SourceErrorView>)
{
    let g = c.generation.0;
    let rp = receipt_position(v.parent_receipts, g);
    if !context_known(v, c) {
        (v, Err(SourceErrorView::UnknownContext))
    } else if receipt_error(receipt) is Some {
        (v, Err(SourceErrorView::InvalidReceipt(receipt_error(receipt)->0)))
    } else if rp >= 0 && v.parent_receipts[rp].1 != receipt {
        (v, Err(SourceErrorView::ConflictingReceipt))
    } else {
        let w = CarrierView {
            parent_receipts: if rp >= 0 { v.parent_receipts.update(rp, (g, receipt)) } else { v.parent_receipts.push((g, receipt)) },
            ..v
        };
        children_completed(w, children_of(w.pending, g))
    }
}

/// The state and result after the child receipt of context `c`: an unknown
/// context or a receipt that cannot bind fails; a handoff already completed
/// yields nothing; a receipt that disagrees with the one already kept
/// fails; else it is kept and the handoff completes if it is ready.
pub open spec fn child_receipt_recorded(v: CarrierView, c: ChronicleExecutionContext, receipt: ReceiptView)
    -> (CarrierView, Result<Seq<ObservationView>, SourceErrorView>)
{
    let g = c.generation.0;
    let p = pending_position(v.pending, g);
    if !context_known(v, c) {
        (v, Err(SourceErrorView::UnknownContext))
    } else if receipt_error(receipt) is Some {
        (v, Err(SourceErrorView::InvalidReceipt(receipt_error(receipt)->0)))
    } else if p < 0 {
        if v.completed.contains(g) { (v, Ok(Seq::empty())) } else { (v, Err(SourceErrorView::UnknownContext)) }
    } else if v.pending[p].child_receipt matches Some(existing) && existing != receipt {
        (v, Err(SourceErrorView::ConflictingReceipt))
    } else {
        let w = CarrierView { pending: v.pending.update(p, PendingView { child_receipt: Some(receipt), ..v.pending[p] }), ..v };
        child_completed(w, g)
    }
}

impl NativeExecutionContextCarrier {
    fn ensure_context(&self, context: ChronicleExecutionContext) -> (r: Result<(), NativeSourceError>)
        requires
            self.wf(),
        ensures
            context_known(self@, context) ==> r is Ok,
            !context_known(self@, context) ==> fails_with(r, SourceErrorView::UnknownContext),
    {
        match self.find_context(context.generation.0) {
            Some(i) => {
                if self.contexts[i] == context {
                    Ok(())
                } else {
                    proof {
                        assert(self@.contexts[i as int] == context_entry(self.contexts@[i as int]));
                        if self@.contexts[i as int] == context_entry(context) {
                            assert(self.contexts@[i as int].parent_generation == context.parent_generation) by {
                                match (self.contexts@[i as int].parent_generation, context.parent_generation) {
                                    (Some(a), Some(b)) => { assert(a.0 == b.0); },
                                    _ => {},
                                }
                            }
                        }
                    }
                    Err(NativeSourceError::UnknownContext)
                }
            },
            None => Err(NativeSourceError::UnknownContext),
        }
    }

    /// Records the receipt of the parent end of handoffs from `context`; see
    /// `parent_receipt_recorded`.
    pub fn record_parent_receipt(&mut self, context: ChronicleExecutionContext, receipt: NativeOperationBoundaryReceipt)
        -> (r: Result<Vec<NativeExecutionHandoffObservation>, NativeSourceError>)
        requires
            old(self).wf(),
        ensures
            final(self).wf(),
            (final(self)@, obs_result(r)) == parent_receipt_recorded(old(self)@, context, receipt@),
    {
        let ghost v = self@;
        self.ensure_context(context)?;
        receipt.validate()?;
        let g = context.generation;
        match self.find_receipt(g.0) {
            Some(i) => {
                proof { assert(v.parent_receipts[i as int].1 == self.parent_receipts@[i as int].1@); }
                if !self.parent_receipts[i].1.same(&receipt) {
                    return Err(NativeSourceError::ConflictingReceipt);
                }
                self.parent_receipts.set(i, (g, receipt));
                proof {
                    assert(self@.parent_receipts =~= v.parent_receipts.update(i as int, (g.0, receipt@)));
                    assert forall|a: int, b: int| 0 <= a < b < self@.parent_receipts.len()
                        implies (#[trigger] self@.parent_receipts[a]).0 != (#[trigger] self@.parent_receipts[b]).0 by {
                        assert(v.parent_receipts[a].0 != v.parent_receipts[b].0);
                    }
                }
            },
            None => {
                self.parent_receipts.push((g, receipt));
                proof {
                    assert(self@.parent_receipts =~= v.parent_receipts.push((g.0, receipt@)));
                    assert(!(exists|k: int| 0 <= k < v.parent_receipts.len() && v.parent_receipts[k].0 == g.0));
                    assert forall|a: int, b: int| 0 <= a < b < self@.parent_receipts.len()
                        implies (#[trigger] self@.parent_receipts[a]).0 != (#[trigger] self@.parent_receipts[b]).0 by {
                        if b < v.parent_receipts.len() {
                            assert(v.parent_receipts[a].0 != v.parent_receipts[b].0);
                        } else {
                            assert(self@.parent_receipts[a] == v.parent_receipts[a]);
                        }
                    }
                }
            },
        }
        self.complete_ready_for_parent(g.0)
    }

    /// Records the receipt of the child end of the handoff to `context`;
    /// see `child_receipt_recorded`.
    pub fn record_child_receipt(&mut self, context: ChronicleExecutionContext, receipt: NativeOperationBoundaryReceipt)
        -> (r: Result<Vec<NativeExecutionHandoffObservation>, NativeSourceError>)
        requires
            old(self).wf(),
        ensures
            final(self).wf(),
            (final(self)@, obs_result(r)) == child_receipt_recorded(old(self)@, context, receipt@),
    {
        let ghost v = self@;
        self.ensure_context(context)?;
        receipt.validate()?;
        let g = context.generation;
        let p = match self.find_pending(g.0) {
            None => {
                if self.completed_has(g.0) {
                    return Ok(no_observations());
                }
                return Err(NativeSourceError::UnknownContext);
            },
            Some(p) => p,
        };
        proof { assert(v.pending[p as int] == self.pending@[p as int]@); }
        match &self.pending[p].child_receipt {
            Some(existing) => {
                if !existing.same(&receipt) {
                    return Err(NativeSourceError::ConflictingReceipt);
                }
            },
            None => {},
        }
        let updated = PendingHandoff {
            parent_generation: self.pending[p].parent_generation,
            child_generation: self.pending[p].child_generation,
            child_receipt: Some(receipt),
        };
        self.pending.set(p, updated);
        proof {
            assert(self@.pending =~= v.pending.update(p as int, PendingView { child_receipt: Some(receipt@), ..v.pending[p as int] }));
            assert forall|a: int, b: int| 0 <= a < b < self@.pending.len() implies (#[trigger] self@.pending[a]).child < (#[trigger] self@.pending[b]).child by {
                assert(self@.pending[a].child == v.pending[a].child && self@.pending[b].child == v.pending[b].child);
            }
        }
        self.complete_ready_for_child(g.0)
    }

    /// Keeps a diagnostic while there is room, and returns it.
    fn record_diagnostic(&mut self, kind: NativeObservationDiagnosticKind, context_generation: Option<NativeExecutionContextGeneration>, message: &str)
        -> (d: NativeObservationDiagnostic)
        requires
            old(self).wf(),
        ensures
            final(self).wf(),
            d@ == (DiagnosticView { kind, context_generation: match context_generation { Some(g) => Some(g.0), None => None }, message: message@ }),
            final(self)@ == (CarrierView {
                diagnostics: if old(self)@.diagnostics.len() < old(self)@.limits.max_diagnostics {
                    old(self)@.diagnostics.push(d@)
                } else {
                    old(self)@.diagnostics
                },
                ..old(self)@
            }),
    {
        let ghost v = self@;
        let diagnostic = NativeObservationDiagnostic { kind, context_generation, message: str_copy(message) };
        if self.diagnostics.len() < self.limits.max_diagnostics {
            self.diagnostics.push(NativeObservationDiagnostic { kind, context_generation, message: str_copy(message) });
            proof { assert(diagnostics_view(self.diagnostics@) =~= v.diagnostics.push(diagnostic@)); }
        }
        diagnostic
    }

    /// Drops the pending handoffs from or to `context_generation`: one
    /// expiry diagnostic per dropped handoff; kept diagnostics are cleared.
    pub fn expire_pending(&mut self, context_generation: NativeExecutionContextGeneration) -> (r: Vec<NativeObservationDiagnostic>)
        requires
            old(self).wf(),
        ensures
            final(self).wf(),
            final(self)@ == (CarrierView {
                pending: untouched(old(self)@.pending, context_generation.0),
                diagnostics: Seq::empty(),
                ..old(self)@
            }),
            diags(r) == expired_diagnostics((old(self)@.pending.len() - untouched(old(self)@.pending, context_generation.0).len()) as nat,
                context_generation.0),
    {
        let ghost v = self@;
        let gen = context_generation.0;
        let mut rest: Vec<PendingHandoff> = Vec::new();
        std::mem::swap(&mut rest, &mut self.pending);
        let ghost all = rest@;
        let ghost av = v.pending;
        let _count = rest.len();
        let mut out: Vec<NativeObservationDiagnostic> = Vec::new();
        let mut i: usize = 0;
        proof {
            assert(all.skip(0) =~= all);
            assert(av =~= all.map_values(|p: PendingHandoff| p@));
            assert(self@.pending =~= untouched(av.take(0), gen));
            assert(diagnostics_view(out@) =~= expired_diagnostics(0, gen));
        }
        while rest.len() > 0
            invariant
                i <= all.len(),
                i + rest@.len() == all.len(),
                all.len() <= usize::MAX,
                rest@ == all.skip(i as int),
                av == all.map_values(|p: PendingHandoff| p@),
                av == v.pending,
                gen == context_generation.0,
                carrier_wf(v),
                self.wf(),
                self@ == (CarrierView { pending: untouched(av.take(i as int), gen), diagnostics: self@.diagnostics, ..v }),
                diagnostics_view(out@) == expired_diagnostics((i - untouched(av.take(i as int), gen).len()) as nat, gen),
                untouched(av.take(i as int), gen).len() <= i,
                forall|a: int, b: int| 0 <= a < b < self@.pending.len() ==> (#[trigger] self@.pending[a]).child < (#[trigger] self@.pending[b]).child,
                forall|k: int| 0 <= k < self@.pending.len() ==> exists|m: int| 0 <= m < i && #[trigger] self@.pending[k] == av[m],
            decreases rest.len(),
        {
            let h = rest.remove(0);
            let ghost kept = untouched(av.take(i as int), gen);
            proof {
                assert(h == all[i as int]);
                assert(rest@ =~= all.skip(i + 1));
                assert(av.take(i + 1).drop_last() =~= av.take(i as int));
                assert(av.take(i + 1).last() == h@);
            }
            if h.parent_generation.0 == gen || h.child_generation.0 == gen {
                let d = self.record_diagnostic(NativeObservationDiagnosticKind::PendingExpired, Some(context_generation),
                    "native handoff receipt did not complete within bounded source lifecycle");
                let ghost ob = diagnostics_view(out@);
                out.push(d);
                proof {
                    assert(untouched(av.take(i + 1), gen) == kept);
                    let n = (i - kept.len()) as nat;
                    assert(ob == expired_diagnostics(n, gen));
                    let e = expired_diagnostics(n + 1, gen)[n as int];
                    assert(e.kind == NativeObservationDiagnosticKind::PendingExpired);
                    assert(e.message == "native handoff receipt did not complete within bounded source lifecycle"@);
                    assert(d@.context_generation == Some(gen));
                    assert(e.context_generation == Some(gen));
                    assert(d@ == e);
                    assert(diagnostics_view(out@) =~= ob.push(d@));
                    assert(expired_diagnostics(n + 1, gen) =~= ob.push(d@));
                    assert((i + 1 - untouched(av.take(i + 1), gen).len()) as nat == n + 1);
                }
            } else {
                let ghost pb = self@.pending;
                self.pending.push(h);
                proof {
                    assert(self@.pending =~= pb.push(h@));
                    assert forall|a: int, b: int| 0 <= a < b < self@.pending.len() implies (#[trigger] self@.pending[a]).child < (#[trigger] self@.pending[b]).child by {
                        if b == pb.len() {
                            let m = choose|m: int| 0 <= m < i && #[trigger] pb[a] == av[m];
                            assert(av[m] == v.pending[m]);
                            assert(av[i as int] == v.pending[i as int]);
                        }
                    }
                    assert forall|k: int| 0 <= k < self@.pending.len() implies exists|m: int| 0 <= m < i + 1 && #[trigger] self@.pending[k] == av[m] by {
                        if k == pb.len() {
                            assert(self@.pending[k] == av[i as int]);
                        } else {
                            let m = choose|m: int| 0 <= m < i && #[trigger] pb[k] == av[m];
                            assert(self@.pending[k] == av[m]);
                        }
                    }
                }
            }
            i = i + 1;
        }
        proof {
            assert(av.take(i as int) =~= av);
        }
        self.diagnostics.clear();
        proof {
            assert(diagnostics_view(self.diagnostics@) =~= Seq::<DiagnosticView>::empty());
        }
        out
    }

    /// Discards all state, with one diagnostic per lost pending handoff.
    pub fn restart(&mut self) -> (r: Vec<NativeObservationDiagnostic>)
        requires
            old(self).wf(),
        ensures
            final(self).wf(),
            final(self)@ == (CarrierView { limits: old(self)@.limits, contexts: Seq::empty(), parent_receipts: Seq::empty(),
                pending: Seq::empty(), completed: Seq::empty(), diagnostics: Seq::empty() }),
            diags(r) == lost_diagnostics(old(self)@.pending),
    {
        let ghost v = self@;
        let mut out: Vec<NativeObservationDiagnostic> = Vec::new();
        let mut i: usize = 0;
        while i < self.pending.len()
            invariant
                self.wf(),
                self@ == (CarrierView { diagnostics: self@.diagnostics, ..v }),
                i <= v.pending.len(),
                diagnostics_view(out@) == lost_diagnostics(v.pending.take(i as int)),
            decreases self.pending.len() - i,
        {
            let child = self.pending[i].child_generation;
            proof { assert(v.pending[i as int] == self.pending@[i as int]@); }
            let d = self.record_diagnostic(NativeObservationDiagnosticKind::RestartLostPending, Some(child),
                "native pending handoff was lost during source restart");
            let ghost ob = diagnostics_view(out@);
            out.push(d);
            proof {
                assert(self@.pending == v.pending);
                assert(d@.context_generation == Some(v.pending[i as int].child));
                assert(diagnostics_view(out@) =~= ob.push(d@));
                assert(v.pending.take(i + 1) =~= v.pending.take(i as int).push(v.pending[i as int]));
                assert(lost_diagnostics(v.pending.take(i + 1)) =~= lost_diagnostics(v.pending.take(i as int)).push(d@));
            }
            i = i + 1;
        }
        proof { assert(v.pending.take(v.pending.len() as int) =~= v.pending); }
        self.contexts.clear();
        self.parent_receipts.clear();
        self.pending.clear();
        self.completed.clear();
        self.diagnostics.clear();
        proof {
            assert(self@.contexts =~= Seq::<(u128, Option<u128>)>::empty());
            assert(self@.parent_receipts =~= Seq::<(u128, ReceiptView)>::empty());
            assert(self@.pending =~= Seq::<PendingView>::empty());
            assert(self@.completed =~= Seq::<u128>::empty());
            assert(self@.diagnostics =~= Seq::<DiagnosticView>::empty());
        }
        out
    }

    /// Takes the diagnostics kept so far.
    pub fn take_diagnostics(&mut self) -> (r: Vec<NativeObservationDiagnostic>)
        requires
            old(self).wf(),
        ensures
            final(self).wf(),
            final(self)@ == (CarrierView { diagnostics: Seq::empty(), ..old(self)@ }),
            diags(r) == old(self)@.diagnostics,
    {
        let mut taken: Vec<NativeObservationDiagnostic> = Vec::new();
        std::mem::swap(&mut taken, &mut self.diagnostics);
        proof { assert(diagnostics_view(self.diagnostics@) =~= Seq::<DiagnosticView>::empty()); }
        taken
    }
}

/// A handoff whose child is completed never yields an observation again.
pub proof fn lemma_completed_handoff_yields_nothing(v: CarrierView, child: u128)
    requires
        v.completed.contains(child),
    ensures
        child_completed(v, child).1 == Ok::<Seq<ObservationView>, SourceErrorView>(Seq::empty()),
{
}

proof fn lemma_single_child(v: CarrierView, c: u128)
    ensures
        children_completed(v, seq![c]) == child_completed(v, c),
{
    reveal_with_fuel(children_completed, 2);
    assert(seq![c].drop_last() =~= Seq::<u128>::empty());
    assert(seq![c].last() == c);
    let r = child_completed(v, c).1;
    if r is Ok {
        assert(Seq::<ObservationView>::empty() + r->Ok_0 =~= r->Ok_0);
    }
}

proof fn lemma_children_of_update(ps: Seq<PendingView>, p: int, h: PendingView, parent: u128)
    requires
        0 <= p < ps.len(),
        h.parent == ps[p].parent,
        h.child == ps[p].child,
    ensures
        children_of(ps.update(p, h), parent) == children_of(ps, parent),
    decreases ps.len(),
{
    if p < ps.len() - 1 {
        lemma_children_of_update(ps.drop_last(), p, h, parent);
        assert(ps.update(p, h).drop_last() =~= ps.drop_last().update(p, h));
    } else {
        assert(ps.update(p, h).drop_last() =~= ps.drop_last());
    }
}

/// The receipts of a handoff may arrive in either order: with only this
/// child pending from its parent, both orders emit the same single
/// observation, after both receipts, and leave the same state.
pub proof fn lemma_receipts_in_either_order(
    v: CarrierView,
    parent: ChronicleExecutionContext,
    child: ChronicleExecutionContext,
    parent_receipt: ReceiptView,
    child_receipt: ReceiptView,
)
    requires
        carrier_wf(v),
        context_known(v, parent),
        context_known(v, child),
        parent.generation != child.generation,
        pending_position(v.pending, child.generation.0) >= 0,
        v.pending[pending_position(v.pending, child.generation.0)] == (PendingView {
            parent: parent.generation.0,
            child: child.generation.0,
            child_receipt: None,
        }),
        children_of(v.pending, parent.generation.0) == seq![child.generation.0],
        receipt_position(v.parent_receipts, parent.generation.0) < 0,
        !v.completed.contains(child.generation.0),
        v.completed.len() < v.limits.max_pending_observations,
        receipt_error(parent_receipt) is None,
        receipt_error(child_receipt) is None,
    ensures
        parent_receipt_recorded(v, parent, parent_receipt).1 == Ok::<Seq<ObservationView>, SourceErrorView>(Seq::empty()),
        child_receipt_recorded(v, child, child_receipt).1 == Ok::<Seq<ObservationView>, SourceErrorView>(Seq::empty()),
        child_receipt_recorded(parent_receipt_recorded(v, parent, parent_receipt).0, child, child_receipt)
            == parent_receipt_recorded(child_receipt_recorded(v, child, child_receipt).0, parent, parent_receipt),
        child_receipt_recorded(parent_receipt_recorded(v, parent, parent_receipt).0, child, child_receipt).1
            == Ok::<Seq<ObservationView>, SourceErrorView>(seq![handoff_observation(parent.generation.0, child.generation.0, parent_receipt, child_receipt)]),
{
    let pg = parent.generation.0;
    let cg = child.generation.0;
    let p = pending_position(v.pending, cg);
    let n = v.parent_receipts.len() as int;
    // Parent first.
    let w = CarrierView { parent_receipts: v.parent_receipts.push((pg, parent_receipt)), ..v };
    assert(receipt_position(w.parent_receipts, pg) == n) by {
        assert(w.parent_receipts[n].0 == pg);
        let j = choose|j: int| 0 <= j < w.parent_receipts.len() && w.parent_receipts[j].0 == pg;
        if j < n {
            assert(v.parent_receipts[j].0 == pg);
        }
    }
    lemma_single_child(w, cg);
    assert(parent_receipt_recorded(v, parent, parent_receipt) == (w, Ok::<Seq<ObservationView>, SourceErrorView>(Seq::empty())));
    let h = PendingView { child_receipt: Some(child_receipt), ..v.pending[p] };
    let w2 = CarrierView { pending: w.pending.update(p, h), ..w };
    assert(pending_position(w2.pending, cg) == p) by {
        assert(w2.pending[p].child == cg);
        let j = choose|j: int| 0 <= j < w2.pending.len() && w2.pending[j].child == cg;
        if j != p {
            assert(v.pending[j].child == cg);
            if j < p { assert(v.pending[j].child < v.pending[p].child); } else { assert(v.pending[p].child < v.pending[j].child); }
        }
    }
    // Child first.
    let u = CarrierView { pending: v.pending.update(p, h), ..v };
    assert(pending_position(u.pending, cg) == p) by {
        assert(u.pending[p].child == cg);
        let j = choose|j: int| 0 <= j < u.pending.len() && u.pending[j].child == cg;
        if j != p {
            assert(v.pending[j].child == cg);
            if j < p { assert(v.pending[j].child < v.pending[p].child); } else { assert(v.pending[p].child < v.pending[j].child); }
        }
    }
    assert(child_receipt_recorded(v, child, child_receipt) == (u, Ok::<Seq<ObservationView>, SourceErrorView>(Seq::empty())));
    let u2 = CarrierView { parent_receipts: u.parent_receipts.push((pg, parent_receipt)), ..u };
    lemma_children_of_update(v.pending, p, h, pg);
    assert(receipt_position(u2.parent_receipts, pg) == n) by {
        assert(u2.parent_receipts[n].0 == pg);
        let j = choose|j: int| 0 <= j < u2.parent_receipts.len() && u2.parent_receipts[j].0 == pg;
        if j < n {
            assert(v.parent_receipts[j].0 == pg);
        }
    }
    lemma_single_child(u2, cg);
    assert(w2 == u2);
    assert(child_receipt_recorded(w, child, child_receipt) == child_completed(w2, cg));
}

/// What an index records of a boundary identity.
pub open spec fn boundary_view(b: ProtocolOperationBoundaryIdentity) -> (Seq<char>, Seq<char>, bool) {
    (b.protocol@, b.key@, b.authoritative)
}

/// The boundary `entries` hold for `reference`, if any.
pub open spec fn boundary_lookup(
    entries: Seq<(CanonicalOperationRef, ProtocolOperationBoundaryIdentity)>,
    reference: CanonicalOperationRef,
) -> Option<(Seq<char>, Seq<char>, bool)> {
    if exists|i: int| 0 <= i < entries.len() && (#[trigger] entries[i]).0 == reference {
        let i = choose|i: int| 0 <= i < entries.len() && (#[trigger] entries[i]).0 == reference;
        Some(boundary_view(entries[i].1))
    } else {
        None
    }
}

/// No reference is recorded twice.
pub open spec fn refs_distinct(entries: Seq<(CanonicalOperationRef, ProtocolOperationBoundaryIdentity)>) -> bool {
    forall|i: int, j: int| 0 <= i < entries.len() && 0 <= j < entries.len() && i != j
        ==> (#[trigger] entries[i]).0 != (#[trigger] entries[j]).0
}

proof fn lemma_lookup_at(
    entries: Seq<(CanonicalOperationRef, ProtocolOperationBoundaryIdentity)>,
    reference: CanonicalOperationRef,
    i: int,
)
    requires
        refs_distinct(entries),
        0 <= i < entries.len(),
        entries[i].0 == reference,
    ensures
        boundary_lookup(entries, reference) == Some(boundary_view(entries[i].1)),
{
    assert(entries[i].0 == reference);
}

/// Two lists that hold a reference at corresponding places, or neither
/// holds it, look it up alike.
proof fn lemma_lookup_kept(
    a: Seq<(CanonicalOperationRef, ProtocolOperationBoundaryIdentity)>,
    b: Seq<(CanonicalOperationRef, ProtocolOperationBoundaryIdentity)>,
    r: CanonicalOperationRef,
    ia: int,
    ib: int,
)
    requires
        refs_distinct(a),
        refs_distinct(b),
        0 <= ia < a.len(),
        0 <= ib < b.len(),
        a[ia] == b[ib],
        a[ia].0 == r,
    ensures
        boundary_lookup(a, r) == boundary_lookup(b, r),
{
    lemma_lookup_at(a, r, ia);
    lemma_lookup_at(b, r, ib);
}

/// The boundaries canonicalizers supplied for canonical operations, and the
/// operations whose boundary is known to be unavailable; no operation is
/// both.
pub struct NativeBoundaryIndex {
    boundaries: Vec<(CanonicalOperationRef, ProtocolOperationBoundaryIdentity)>,
    unavailable: Vec<CanonicalOperationRef>,
}

impl NativeBoundaryIndex {
    #[verifier::type_invariant]
    spec fn index_wf(&self) -> bool {
        &&& refs_distinct(self.boundaries@)
        &&& self.unavailable@.no_duplicates()
        &&& forall|i: int, j: int| 0 <= i < self.boundaries@.len() && 0 <= j < self.unavailable@.len()
            ==> (#[trigger] self.boundaries@[i]).0 != #[trigger] self.unavailable@[j]
    }

    /// The boundary recorded for `reference`, if any.
    pub closed spec fn bound(&self, reference: CanonicalOperationRef) -> Option<(Seq<char>, Seq<char>, bool)> {
        boundary_lookup(self.boundaries@, reference)
    }

    /// The operations whose boundary is unavailable.
    pub closed spec fn unavailable_refs(&self) -> Set<CanonicalOperationRef> {
        self.unavailable@.to_set()
    }

    pub fn new() -> (x: Self)
        ensures
            forall|r: CanonicalOperationRef| (#[trigger] x.bound(r)) is None,
            x.unavailable_refs() == Set::<CanonicalOperationRef>::empty(),
    {
        let x = NativeBoundaryIndex { boundaries: Vec::new(), unavailable: Vec::new() };
        proof { assert(x.unavailable@.to_set() =~= Set::<CanonicalOperationRef>::empty()); }
        x
    }

    /// Records `identity` for `reference`: an authoritative boundary
    /// replaces what was recorded and makes the boundary available; any
    /// other identity removes the recorded boundary and marks it
    /// unavailable.
    #[verifier::spinoff_prover]
    pub fn insert(&mut self, reference: CanonicalOperationRef, identity: ProtocolOperationBoundaryIdentity)
        ensures
            forall|r: CanonicalOperationRef| #[trigger] final(self).bound(r) == if r == reference {
                if identity.authoritative { Some(boundary_view(identity)) } else { None::<(Seq<char>, Seq<char>, bool)> }
            } else {
                old(self).bound(r)
            },
            final(self).unavailable_refs() == if identity.authoritative {
                old(self).unavailable_refs().remove(reference)
            } else {
                old(self).unavailable_refs().insert(reference)
            },
            forall|r: CanonicalOperationRef| (#[trigger] final(self).bound(r)) is Some ==> !final(self).unavailable_refs().contains(r),
    {
        let mut previous = NativeBoundaryIndex::new();
        std::mem::swap(&mut previous, self);
        proof { use_type_invariant(&previous); }
        let ghost ob = previous.boundaries@;
        let ghost ou = previous.unavailable@;
        let NativeBoundaryIndex { boundaries, unavailable } = previous;
        let mut boundaries = boundaries;
        let mut unavailable = unavailable;
        let bi = find_boundary(&boundaries, &reference);
        let ui = find_unavailable(&unavailable, &reference);
        let authoritative = identity.is_authoritative();
        let ghost idv = boundary_view(identity);
        let ghost entry = (reference, identity);
        if authoritative {
            match bi {
                Some(i) => {
                    boundaries.set(i, (reference, identity));
                    proof {
                        assert(boundaries@ == ob.update(i as int, entry));
                        assert(refs_distinct(boundaries@));
                        lemma_lookup_at(boundaries@, reference, i as int);
                        assert forall|r: CanonicalOperationRef| r != reference implies
                            boundary_lookup(boundaries@, r) == boundary_lookup(ob, r) by {
                            if exists|k: int| 0 <= k < ob.len() && (#[trigger] ob[k]).0 == r {
                                let k = choose|k: int| 0 <= k < ob.len() && (#[trigger] ob[k]).0 == r;
                                lemma_lookup_kept(ob, boundaries@, r, k, k);
                            } else {
                                assert forall|k: int| 0 <= k < boundaries@.len() implies (#[trigger] boundaries@[k]).0 != r by {
                                    if k != i { assert(boundaries@[k] == ob[k]); }
                                }
                            }
                        }
                    }
                },
                None => {
                    boundaries.push((reference, identity));
                    proof {
                        assert(boundaries@ == ob.push(entry));
                        assert(refs_distinct(boundaries@));
                        lemma_lookup_at(boundaries@, reference, ob.len() as int);
                        assert forall|r: CanonicalOperationRef| r != reference implies
                            boundary_lookup(boundaries@, r) == boundary_lookup(ob, r) by {
                            if exists|k: int| 0 <= k < ob.len() && (#[trigger] ob[k]).0 == r {
                                let k = choose|k: int| 0 <= k < ob.len() && (#[trigger] ob[k]).0 == r;
                                lemma_lookup_kept(ob, boundaries@, r, k, k);
                            } else {
                                assert forall|k: int| 0 <= k < boundaries@.len() implies (#[trigger] boundaries@[k]).0 != r by {
                                    if k < ob.len() { assert(boundaries@[k] == ob[k]); }
                                }
                            }
                        }
                    }
                },
            }
            match ui {
                Some(j) => {
                    unavailable.remove(j);
                    proof {
                        assert(unavailable@ == ou.remove(j as int));
                        assert(unavailable@.to_set() =~= ou.to_set().remove(reference)) by {
                            assert forall|x: CanonicalOperationRef| unavailable@.contains(x) <==> (ou.contains(x) && x != reference) by {
                                if unavailable@.contains(x) {
                                    let k = choose|k: int| 0 <= k < unavailable@.len() && unavailable@[k] == x;
                                    if k < j { assert(ou[k] == x); } else { assert(ou[k + 1] == x); }
                                }
                                if ou.contains(x) && x != reference {
                                    let k = choose|k: int| 0 <= k < ou.len() && ou[k] == x;
                                    if k < j { assert(unavailable@[k] == x); } else { assert(k != j); assert(unavailable@[k - 1] == x); }
                                }
                            }
                        }
                    }
                },
                None => {
                    proof { assert(unavailable@.to_set() =~= ou.to_set().remove(reference)); }
                },
            }
        } else {
            match bi {
                Some(i) => {
                    boundaries.remove(i);
                    proof {
                        assert(boundaries@ == ob.remove(i as int));
                        assert(refs_distinct(boundaries@)) by {
                            assert forall|a: int, b: int| 0 <= a < boundaries@.len() && 0 <= b < boundaries@.len() && a != b
                                implies (#[trigger] boundaries@[a]).0 != (#[trigger] boundaries@[b]).0 by {
                                let a0 = if a < i { a } else { a + 1 };
                                let b0 = if b < i { b } else { b + 1 };
                                assert(boundaries@[a] == ob[a0] && boundaries@[b] == ob[b0]);
                            }
                        }
                        assert forall|k: int| 0 <= k < boundaries@.len() implies (#[trigger] boundaries@[k]).0 != reference by {
                            let k0 = if k < i { k } else { k + 1 };
                            assert(boundaries@[k] == ob[k0]);
                        }
                        assert forall|r: CanonicalOperationRef| r != reference implies
                            boundary_lookup(boundaries@, r) == boundary_lookup(ob, r) by {
                            if exists|k: int| 0 <= k < ob.len() && (#[trigger] ob[k]).0 == r {
                                let k = choose|k: int| 0 <= k < ob.len() && (#[trigger] ob[k]).0 == r;
                                assert(k != i);
                                let k1 = if k < i { k } else { k - 1 };
                                assert(boundaries@[k1] == ob[k]);
                                lemma_lookup_kept(ob, boundaries@, r, k, k1);
                            } else {
                                assert forall|k: int| 0 <= k < boundaries@.len() implies (#[trigger] boundaries@[k]).0 != r by {
                                    let k0 = if k < i { k } else { k + 1 };
                                    assert(boundaries@[k] == ob[k0]);
                                }
                            }
                        }
                    }
                },
                None => {},
            }
            match ui {
                Some(j) => {
                    proof {
                        assert(ou.contains(reference)) by { assert(ou[j as int] == reference); }
                        assert(unavailable@.to_set() =~= ou.to_set().insert(reference));
                    }
                },
                None => {
                    unavailable.push(reference);
                    proof {
                        assert(unavailable@ == ou.push(reference));
                        assert(unavailable@.no_duplicates()) by {
                            assert forall|a: int, b: int| 0 <= a < unavailable@.len() && 0 <= b < unavailable@.len() && a != b
                                implies unavailable@[a] != unavailable@[b] by {
                                if a == ou.len() { assert(ou.contains(unavailable@[b])) by { assert(ou[b] == unavailable@[b]); } }
                                if b == ou.len() { assert(ou.contains(unavailable@[a])) by { assert(ou[a] == unavailable@[a]); } }
                            }
                        }
                        assert(unavailable@.to_set() =~= ou.to_set().insert(reference)) by {
                            assert forall|x: CanonicalOperationRef| unavailable@.contains(x) <==> (ou.contains(x) || x == reference) by {
                                if unavailable@.contains(x) {
                                    let k = choose|k: int| 0 <= k < unavailable@.len() && unavailable@[k] == x;
                                    if k < ou.len() { assert(ou[k] == x); }
                                }
                                if ou.contains(x) {
                                    let k = choose|k: int| 0 <= k < ou.len() && ou[k] == x;
                                    assert(unavailable@[k] == x);
                                }
                                if x == reference { assert(unavailable@[ou.len() as int] == x); }
                            }
                        }
                    }
                },
            }
        }
        proof {
            assert forall|a: int, b: int| 0 <= a < boundaries@.len() && 0 <= b < unavailable@.len()
                implies (#[trigger] boundaries@[a]).0 != #[trigger] unavailable@[b] by {
                if boundaries@[a].0 == unavailable@[b] {
                    let x = unavailable@[b];
                    assert(unavailable@.contains(x));
                    assert(unavailable@.to_set().contains(x));
                    if x != reference {
                        assert(ou.to_set().contains(x));
                        let k = choose|k: int| 0 <= k < ou.len() && ou[k] == x;
                        assert(boundary_lookup(boundaries@, x) is Some) by { lemma_lookup_at(boundaries@, x, a); }
                        assert(boundary_lookup(ob, x) is Some);
                        let m = choose|m: int| 0 <= m < ob.len() && (#[trigger] ob[m]).0 == x;
                        assert(ob[m].0 == ou[k]);
                    } else {
                        if authoritative {
                            assert(!unavailable@.to_set().contains(reference));
                        } else {
                            assert(boundary_lookup(boundaries@, reference) is Some) by { lemma_lookup_at(boundaries@, reference, a); }
                        }
                    }
                }
            }
        }
        *self = NativeBoundaryIndex { boundaries, unavailable };
        proof {
            assert forall|r: CanonicalOperationRef| (#[trigger] self.bound(r)) is Some implies !self.unavailable_refs().contains(r) by {
                if self.unavailable_refs().contains(r) {
                    let a = choose|a: int| 0 <= a < self.boundaries@.len() && (#[trigger] self.boundaries@[a]).0 == r;
                    let b = choose|b: int| 0 <= b < self.unavailable@.len() && self.unavailable@[b] == r;
                    assert(self.boundaries@[a].0 != self.unavailable@[b]);
                }
            }
        }
    }

    /// The boundary recorded for `reference`.
    pub fn boundary_for(&self, reference: &CanonicalOperationRef) -> (r: Option<&ProtocolOperationBoundaryIdentity>)
        ensures
            match r {
                Some(b) => self.bound(*reference) == Some(boundary_view(*b)),
                None => self.bound(*reference) is None,
            },
    {
        proof { use_type_invariant(self); }
        match find_boundary(&self.boundaries, reference) {
            Some(i) => {
                proof { lemma_lookup_at(self.boundaries@, *reference, i as int); }
                Some(&self.boundaries[i].1)
            },
            None => None,
        }
    }

    /// Whether the boundary of `reference` is unavailable.
    pub fn is_unavailable(&self, reference: &CanonicalOperationRef) -> (r: bool)
        ensures
            r == self.unavailable_refs().contains(*reference),
    {
        match find_unavailable(&self.unavailable, reference) {
            Some(i) => {
                proof { assert(self.unavailable@[i as int] == *reference); }
                true
            },
            None => false,
        }
    }
}

fn find_boundary(entries: &Vec<(CanonicalOperationRef, ProtocolOperationBoundaryIdentity)>, reference: &CanonicalOperationRef) -> (o: Option<usize>)
    ensures
        match o {
            Some(i) => i < entries@.len() && entries@[i as int].0 == *reference,
            None => forall|i: int| 0 <= i < entries@.len() ==> (#[trigger] entries@[i]).0 != *reference,
        },
{
    let mut i: usize = 0;
    while i < entries.len()
        invariant
            i <= entries@.len(),
            forall|k: int| 0 <= k < i ==> (#[trigger] entries@[k]).0 != *reference,
        decreases entries.len() - i,
    {
        if entries[i].0 == *reference {
            return Some(i);
        }
        i = i + 1;
    }
    None
}

fn find_unavailable(entries: &Vec<CanonicalOperationRef>, reference: &CanonicalOperationRef) -> (o: Option<usize>)
    ensures
        match o {
            Some(i) => i < entries@.len() && entries@[i as int] == *reference,
            None => !entries@.contains(*reference),
        },
{
    let mut i: usize = 0;
    while i < entries.len()
        invariant
            i <= entries@.len(),
            forall|k: int| 0 <= k < i ==> entries@[k] != *reference,
        decreases entries.len() - i,
    {
        if entries[i] == *reference {
            return Some(i);
        }
        i = i + 1;
    }
    None
}


} // verus!
