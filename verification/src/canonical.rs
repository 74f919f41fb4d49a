//! The canonical session model that replay planning reads: connections,
//! their operations, and what is known of their completeness.
use vstd::prelude::*;
use crate::text::str_eq;

verus! {

/// What an operation does to the system it talks to.
#[derive(Clone, Copy, Debug, PartialEq, Eq, Structural)]
pub enum OperationEffect {
    Read,
    Write,
    Publish,
    Authentication,
    Unknown,
}

/// Whether the evidence for a connection or operation is complete.
#[derive(Clone, Copy, Debug, PartialEq, Eq, Structural)]
pub enum Completeness {
    Complete,
    Partial,
}

/// A network endpoint.
#[derive(Clone, Debug, PartialEq, Eq)]
pub struct Endpoint {
    pub host: String,
    pub port: u16,
}

pub struct EndpointView {
    pub host: Seq<char>,
    pub port: u16,
}

impl View for Endpoint {
    type V = EndpointView;

    open spec fn view(&self) -> EndpointView {
        EndpointView { host: self.host@, port: self.port }
    }
}

impl Endpoint {
    pub fn new(host: &str, port: u16) -> (e: Self)
        ensures
            e@.host == host@,
            e@.port == port,
    {
        Endpoint { host: crate::text::str_copy(host), port }
    }

    /// Whether both endpoints name the same host and port.
    pub fn same(&self, other: &Endpoint) -> (r: bool)
        ensures
            r == (self@ == other@),
    {
        str_eq(self.host.as_str(), other.host.as_str()) && self.port == other.port
    }

    pub fn duplicate(&self) -> (e: Self)
        ensures
            e@ == self@,
    {
        Endpoint { host: crate::text::str_copy(self.host.as_str()), port: self.port }
    }
}

/// Key/value attributes of an operation, without repeated keys.
pub type Attributes = Vec<(String, String)>;

/// The value of `key` in `attrs`: the first pair with that key.
pub open spec fn attribute(attrs: Seq<(Seq<char>, Seq<char>)>, key: Seq<char>) -> Option<Seq<char>>
    decreases attrs.len(),
{
    if attrs.len() == 0 {
        None
    } else if attrs[0].0 == key {
        Some(attrs[0].1)
    } else {
        attribute(attrs.drop_first(), key)
    }
}

/// Whether `attrs` holds `key` with exactly `value`.
pub open spec fn attribute_is(attrs: Seq<(Seq<char>, Seq<char>)>, key: Seq<char>, value: Seq<char>) -> bool {
    attribute(attrs, key) == Some(value)
}

pub fn attribute_equals(attrs: &Vec<(String, String)>, key: &str, value: &str) -> (r: bool)
    ensures
        r == attribute_is(pairs_view(attrs@), key@, value@),
{
    let ghost pv = pairs_view(attrs@);
    let mut i: usize = 0;
    proof { assert(pv.subrange(0, pv.len() as int) =~= pv); }
    while i < attrs.len()
        invariant
            pv == pairs_view(attrs@),
            i <= attrs@.len(),
            attribute(pv, key@) == attribute(pv.subrange(i as int, pv.len() as int), key@),
        decreases attrs.len() - i,
    {
        let ghost rest = pv.subrange(i as int, pv.len() as int);
        proof {
            assert(rest[0] == pv[i as int]);
            assert(rest.drop_first() =~= pv.subrange(i + 1, pv.len() as int));
        }
        if str_eq(attrs[i].0.as_str(), key) {
            return str_eq(attrs[i].1.as_str(), value);
        }
        i = i + 1;
    }
    false
}

/// A fresh identifier: a random version-4 UUID, as `uuid::Uuid::new_v4`
/// draws it, by value. Nothing is claimed of its value.
#[verifier::external_body]
pub(crate) fn new_uuid() -> (id: u128) {
    uuid::Uuid::new_v4().as_u128()
}

/// A payload as the canonical model refers to it.
#[derive(Clone, Debug, PartialEq, Eq)]
pub enum PayloadRef {
    Inline { content_type: Option<String>, bytes: Vec<u8> },
    Artifact { key: String, checksum: String, size: u64, content_type: Option<String> },
    Missing { reason: String },
}

/// Protocol-specific operation data in its serialized form.
#[derive(Clone, Debug, PartialEq, Eq)]
pub struct ProtocolData {
    pub schema_version: u16,
    pub media_type: Option<String>,
    pub bytes: Vec<u8>,
}

/// A warning recorded with an operation.
#[derive(Clone, Debug, PartialEq, Eq)]
pub struct CanonicalWarning {
    pub code: String,
    pub message: String,
}

#[derive(Clone, Copy, Debug, PartialEq, Eq, Structural)]
pub enum OperationKind {
    Request,
    Opaque,
}

/// One request/response operation.
#[derive(Clone, Debug, PartialEq, Eq)]
pub struct CanonicalOperation {
    pub id: u128,
    pub sequence: u64,
    pub started_at_offset: u64,
    pub completed_at_offset: Option<u64>,
    pub kind: OperationKind,
    pub effect: OperationEffect,
    pub request: PayloadRef,
    pub recorded_response: Option<PayloadRef>,
    pub attributes: Attributes,
    pub protocol_data: ProtocolData,
    pub incomplete: bool,
    pub truncated: bool,
    pub redactions: Vec<String>,
    pub warnings: Vec<CanonicalWarning>,
}

/// One connection and its operations in order.
#[derive(Clone, Debug, PartialEq, Eq)]
pub struct CanonicalConnection {
    pub id: u128,
    pub protocol: String,
    pub client: Endpoint,
    pub server: Endpoint,
    pub attributes: Attributes,
    pub operations: Vec<CanonicalOperation>,
}

/// Where an operation falls in the session's timeline.
#[derive(Clone, Copy, Debug, PartialEq, Eq, Structural)]
pub struct TimelineEntry {
    pub connection_id: u128,
    pub operation_id: u128,
    pub offset: u64,
}

/// A canonical session: when it started and ended (nanoseconds since the
/// Unix epoch), its connections, the completeness recorded for connections
/// and operations by id, and its operations in timeline order.
#[derive(Clone, Debug, PartialEq, Eq)]
pub struct CanonicalSession {
    pub id: u128,
    pub started_at: i128,
    pub ended_at: Option<i128>,
    pub connections: Vec<CanonicalConnection>,
    pub connection_completeness: Vec<(u128, Completeness)>,
    pub operation_completeness: Vec<(u128, Completeness)>,
    pub timeline: Vec<TimelineEntry>,
}

/// The completeness recorded for `id`: the first entry for it; an id with
/// no entry counts as partial.
pub open spec fn completeness_of(entries: Seq<(u128, Completeness)>, id: u128) -> Completeness
    decreases entries.len(),
{
    if entries.len() == 0 {
        Completeness::Partial
    } else if entries[0].0 == id {
        entries[0].1
    } else {
        completeness_of(entries.drop_first(), id)
    }
}

pub fn lookup_completeness(entries: &Vec<(u128, Completeness)>, id: u128) -> (c: Completeness)
    ensures
        c == completeness_of(entries@, id),
{
    let mut i: usize = 0;
    proof { assert(entries@.subrange(0, entries@.len() as int) =~= entries@); }
    while i < entries.len()
        invariant
            i <= entries@.len(),
            completeness_of(entries@, id) == completeness_of(entries@.subrange(i as int, entries@.len() as int), id),
        decreases entries.len() - i,
    {
        let ghost rest = entries@.subrange(i as int, entries@.len() as int);
        proof {
            assert(rest[0] == entries@[i as int]);
            assert(rest.drop_first() =~= entries@.subrange(i + 1, entries@.len() as int));
        }
        if entries[i].0 == id {
            return entries[i].1;
        }
        i = i + 1;
    }
    Completeness::Partial
}

impl CanonicalSession {
    pub fn connection_state(&self, id: u128) -> (c: Completeness)
        ensures
            c == completeness_of(self.connection_completeness@, id),
    {
        lookup_completeness(&self.connection_completeness, id)
    }

    pub fn operation_state(&self, id: u128) -> (c: Completeness)
        ensures
            c == completeness_of(self.operation_completeness@, id),
    {
        lookup_completeness(&self.operation_completeness, id)
    }
}

pub open spec fn opt_str_view(o: Option<String>) -> Option<Seq<char>> {
    match o {
        Some(s) => Some(s@),
        None => None,
    }
}

pub open spec fn pairs_view(a: Seq<(String, String)>) -> Seq<(Seq<char>, Seq<char>)> {
    a.map_values(|p: (String, String)| (p.0@, p.1@))
}

pub open spec fn strs_view(a: Seq<String>) -> Seq<Seq<char>> {
    a.map_values(|p: String| p@)
}

pub enum PayloadView {
    Inline { content_type: Option<Seq<char>>, bytes: Seq<u8> },
    Artifact { key: Seq<char>, checksum: Seq<char>, size: u64, content_type: Option<Seq<char>> },
    Missing { reason: Seq<char> },
}

impl View for PayloadRef {
    type V = PayloadView;

    open spec fn view(&self) -> PayloadView {
        match self {
            PayloadRef::Inline { content_type, bytes } => PayloadView::Inline { content_type: opt_str_view(*content_type), bytes: bytes@ },
            PayloadRef::Artifact { key, checksum, size, content_type } => PayloadView::Artifact { key: key@, checksum: checksum@, size: *size, content_type: opt_str_view(*content_type) },
            PayloadRef::Missing { reason } => PayloadView::Missing { reason: reason@ },
        }
    }
}

pub open spec fn opt_payload_view(o: Option<PayloadRef>) -> Option<PayloadView> {
    match o {
        Some(p) => Some(p@),
        None => None,
    }
}

pub struct ProtocolDataView {
    pub schema_version: u16,
    pub media_type: Option<Seq<char>>,
    pub bytes: Seq<u8>,
}

impl View for ProtocolData {
    type V = ProtocolDataView;

    open spec fn view(&self) -> ProtocolDataView {
        ProtocolDataView { schema_version: self.schema_version, media_type: opt_str_view(self.media_type), bytes: self.bytes@ }
    }
}

pub open spec fn warnings_view(a: Seq<CanonicalWarning>) -> Seq<(Seq<char>, Seq<char>)> {
    a.map_values(|w: CanonicalWarning| (w.code@, w.message@))
}

pub struct OperationView {
    pub id: u128,
    pub sequence: u64,
    pub started_at_offset: u64,
    pub completed_at_offset: Option<u64>,
    pub kind: OperationKind,
    pub effect: OperationEffect,
    pub request: PayloadView,
    pub recorded_response: Option<PayloadView>,
    pub attributes: Seq<(Seq<char>, Seq<char>)>,
    pub protocol_data: ProtocolDataView,
    pub incomplete: bool,
    pub truncated: bool,
    pub redactions: Seq<Seq<char>>,
    pub warnings: Seq<(Seq<char>, Seq<char>)>,
}

impl View for CanonicalOperation {
    type V = OperationView;

    open spec fn view(&self) -> OperationView {
        OperationView {
            id: self.id,
            sequence: self.sequence,
            started_at_offset: self.started_at_offset,
            completed_at_offset: self.completed_at_offset,
            kind: self.kind,
            effect: self.effect,
            request: self.request@,
            recorded_response: opt_payload_view(self.recorded_response),
            attributes: pairs_view(self.attributes@),
            protocol_data: self.protocol_data@,
            incomplete: self.incomplete,
            truncated: self.truncated,
            redactions: strs_view(self.redactions@),
            warnings: warnings_view(self.warnings@),
        }
    }
}

pub fn copy_bytes(b: &Vec<u8>) -> (r: Vec<u8>)
    ensures
        r@ == b@,
{
    crate::bytes::copy_range(b.as_slice(), 0, b.len())
}

pub fn copy_opt_str(o: &Option<String>) -> (r: Option<String>)
    ensures
        opt_str_view(r) == opt_str_view(*o),
{
    match o {
        Some(s) => Some(crate::text::str_copy(s.as_str())),
        None => None,
    }
}

pub fn copy_strs(a: &Vec<String>) -> (r: Vec<String>)
    ensures
        strs_view(r@) == strs_view(a@),
{
    let mut out: Vec<String> = Vec::new();
    let mut i: usize = 0;
    while i < a.len()
        invariant
            i <= a@.len(),
            out@.len() == i,
            forall|k: int| 0 <= k < i ==> #[trigger] out@[k]@ == a@[k]@,
        decreases a.len() - i,
    {
        out.push(crate::text::str_copy(a[i].as_str()));
        i = i + 1;
    }
    proof { assert(strs_view(out@) =~= strs_view(a@)); }
    out
}

pub fn copy_pairs(a: &Vec<(String, String)>) -> (r: Vec<(String, String)>)
    ensures
        pairs_view(r@) == pairs_view(a@),
{
    let mut out: Vec<(String, String)> = Vec::new();
    let mut i: usize = 0;
    while i < a.len()
        invariant
            i <= a@.len(),
            out@.len() == i,
            forall|k: int| 0 <= k < i ==> #[trigger] out@[k].0@ == a@[k].0@ && out@[k].1@ == a@[k].1@,
        decreases a.len() - i,
    {
        out.push((crate::text::str_copy(a[i].0.as_str()), crate::text::str_copy(a[i].1.as_str())));
        i = i + 1;
    }
    proof { assert(pairs_view(out@) =~= pairs_view(a@)); }
    out
}

pub fn copy_warnings(a: &Vec<CanonicalWarning>) -> (r: Vec<CanonicalWarning>)
    ensures
        warnings_view(r@) == warnings_view(a@),
{
    let mut out: Vec<CanonicalWarning> = Vec::new();
    let mut i: usize = 0;
    while i < a.len()
        invariant
            i <= a@.len(),
            out@.len() == i,
            forall|k: int| 0 <= k < i ==> #[trigger] out@[k].code@ == a@[k].code@ && out@[k].message@ == a@[k].message@,
        decreases a.len() - i,
    {
        out.push(CanonicalWarning {
            code: crate::text::str_copy(a[i].code.as_str()),
            message: crate::text::str_copy(a[i].message.as_str()),
        });
        i = i + 1;
    }
    proof { assert(warnings_view(out@) =~= warnings_view(a@)); }
    out
}

impl PayloadRef {
    pub fn duplicate(&self) -> (r: Self)
        ensures
            r@ == self@,
    {
        match self {
            PayloadRef::Inline { content_type, bytes } => PayloadRef::Inline { content_type: copy_opt_str(content_type), bytes: copy_bytes(bytes) },
            PayloadRef::Artifact { key, checksum, size, content_type } => PayloadRef::Artifact {
                key: crate::text::str_copy(key.as_str()),
                checksum: crate::text::str_copy(checksum.as_str()),
                size: *size,
                content_type: copy_opt_str(content_type),
            },
            PayloadRef::Missing { reason } => PayloadRef::Missing { reason: crate::text::str_copy(reason.as_str()) },
        }
    }
}

impl CanonicalOperation {
    /// A field-by-field copy.
    pub fn duplicate(&self) -> (r: Self)
        ensures
            r@ == self@,
    {
        let recorded_response = match &self.recorded_response {
            Some(p) => Some(p.duplicate()),
            None => None,
        };
        CanonicalOperation {
            id: self.id,
            sequence: self.sequence,
            started_at_offset: self.started_at_offset,
            completed_at_offset: self.completed_at_offset,
            kind: self.kind,
            effect: self.effect,
            request: self.request.duplicate(),
            recorded_response,
            attributes: copy_pairs(&self.attributes),
            protocol_data: ProtocolData {
                schema_version: self.protocol_data.schema_version,
                media_type: copy_opt_str(&self.protocol_data.media_type),
                bytes: copy_bytes(&self.protocol_data.bytes),
            },
            incomplete: self.incomplete,
            truncated: self.truncated,
            redactions: copy_strs(&self.redactions),
            warnings: copy_warnings(&self.warnings),
        }
    }
}

} // verus!
