//! Immutable recorder artifact store contract.
//!
//! This store owns sealed copies, canonical delta batches, recovery reports,
//! and provenance indexes only. WAL commit/repair, ETL checkpoints, and final
//! session publication remain owned by their existing components.

use vstd::prelude::*;
use vstd::utf8::encode_utf8;
use crate::digest::{digest_hex, digest_spec, is_digest_chars};
use crate::text::{
    bytes_lt, has_pair, lemma_lex_asymmetric, lemma_lex_irreflexive, lemma_lex_total,
    lemma_lex_transitive, lemma_utf8_injective, lex_lt, str_contains_pair, str_copy, str_first_is,
    str_eq, str_last_is, str_starts_with,
};

verus! {

pub const RECORDING_STORE_SCHEMA_VERSION: u16 = 1;
pub const MAX_KEY_BYTES: usize = 512;
pub const MAX_ARTIFACT_BYTES: usize = 67108864;
/// At most this many heads come back from one `list` call.
pub const MAX_LIST_RESULTS: usize = 256;

#[derive(Clone, Copy, Debug, PartialEq, Eq, Structural)]
pub enum RecordingArtifactKind {
    SealedWalCopy,
    CanonicalDeltaBatch,
    RecoveryReport,
    ProvenanceIndex,
}

#[derive(Clone, Copy, Debug, PartialEq, Eq, Structural)]
pub enum ArtifactLifecycle {
    Published,
    Verified,
    RetentionEligible,
    Deleting,
    Deleted,
    Quarantined,
}

#[derive(Clone, Debug, PartialEq, Eq)]
pub struct RecordingArtifact {
    pub version: u16,
    pub key: String,
    pub kind: RecordingArtifactKind,
    pub checksum: String,
    pub lifecycle: ArtifactLifecycle,
    pub bytes: Vec<u8>,
}

/// The mathematical content of a `RecordingArtifact`.
pub struct ArtifactView {
    pub version: u16,
    pub key: Seq<char>,
    pub kind: RecordingArtifactKind,
    pub checksum: Seq<char>,
    pub lifecycle: ArtifactLifecycle,
    pub bytes: Seq<u8>,
}

impl View for RecordingArtifact {
    type V = ArtifactView;

    open spec fn view(&self) -> ArtifactView {
        ArtifactView {
            version: self.version,
            key: self.key@,
            kind: self.kind,
            checksum: self.checksum@,
            lifecycle: self.lifecycle,
            bytes: self.bytes@,
        }
    }
}

/// The mathematical content of a `RecordingArtifactHead`.
pub struct HeadView {
    pub version: u16,
    pub key: Seq<char>,
    pub kind: RecordingArtifactKind,
    pub checksum: Seq<char>,
    pub lifecycle: ArtifactLifecycle,
    pub bytes: u64,
}

impl View for RecordingArtifactHead {
    type V = HeadView;

    open spec fn view(&self) -> HeadView {
        HeadView {
            version: self.version,
            key: self.key@,
            kind: self.kind,
            checksum: self.checksum@,
            lifecycle: self.lifecycle,
            bytes: self.bytes,
        }
    }
}

#[derive(Clone, Debug, PartialEq, Eq)]
pub struct RecordingArtifactHead {
    pub version: u16,
    pub key: String,
    pub kind: RecordingArtifactKind,
    pub checksum: String,
    pub lifecycle: ArtifactLifecycle,
    pub bytes: u64,
}

#[derive(Clone, Copy, Debug, PartialEq, Eq, Structural)]
pub enum PutIfAbsent {
    Created,
    AlreadyExistsMatching,
}

#[derive(Clone, Copy, Debug, PartialEq, Eq, Structural)]
pub enum DeleteIfDigest {
    Deleted,
    NotFound,
    DigestMismatch,
}

#[derive(Clone, Debug, PartialEq, Eq)]
pub struct RecordingTombstone {
    pub version: u16,
    pub key: String,
    pub checksum: String,
    pub lifecycle: ArtifactLifecycle,
}

#[derive(Clone, Debug, PartialEq, Eq)]
pub enum RecordingStoreError {
    UnsafeKey,
    InvalidArtifact,
    ArtifactTooLarge,
    ChecksumMismatch,
    InvalidLifecycle,
    NotFound,
    Conflict,
    LockPoisoned,
    Backend(String),
}

/// The description of a recording store error.
pub open spec fn store_error_message(e: RecordingStoreError) -> Seq<char> {
    match e {
        RecordingStoreError::UnsafeKey => "recording artifact key is unsafe"@,
        RecordingStoreError::InvalidArtifact => "recording artifact is invalid"@,
        RecordingStoreError::ArtifactTooLarge => "recording artifact is too large"@,
        RecordingStoreError::ChecksumMismatch => "recording artifact checksum mismatch"@,
        RecordingStoreError::InvalidLifecycle => "recording artifact lifecycle transition is invalid"@,
        RecordingStoreError::NotFound => "recording artifact was not found"@,
        RecordingStoreError::Conflict => "recording artifact conflicts with existing immutable object"@,
        RecordingStoreError::LockPoisoned => "recording store lock was poisoned"@,
        RecordingStoreError::Backend(detail) => "recording store backend failed: "@ + detail@,
    }
}

impl RecordingStoreError {
    /// The human-readable description of this error.
    pub fn message(&self) -> (s: String)
        ensures
            s@ == store_error_message(*self),
    {
        match self {
            RecordingStoreError::UnsafeKey => String::from_str("recording artifact key is unsafe"),
            RecordingStoreError::InvalidArtifact => String::from_str("recording artifact is invalid"),
            RecordingStoreError::ArtifactTooLarge => String::from_str("recording artifact is too large"),
            RecordingStoreError::ChecksumMismatch => String::from_str("recording artifact checksum mismatch"),
            RecordingStoreError::InvalidLifecycle => String::from_str("recording artifact lifecycle transition is invalid"),
            RecordingStoreError::NotFound => String::from_str("recording artifact was not found"),
            RecordingStoreError::Conflict => String::from_str("recording artifact conflicts with existing immutable object"),
            RecordingStoreError::LockPoisoned => String::from_str("recording store lock was poisoned"),
            RecordingStoreError::Backend(detail) => {
                let mut s = String::from_str("recording store backend failed: ");
                s.append(detail.as_str());
                s
            },
        }
    }
}

// ---------------------------------------------------------------------------
// Keys

/// Number of bytes of the UTF-8 encoding of `s`.
pub open spec fn utf8_len(s: Seq<char>) -> nat {
    encode_utf8(s).len()
}


/// A listing prefix is safe when it is at most 512 bytes long, is not
/// absolute and never names a parent directory.
pub open spec fn prefix_is_safe(s: Seq<char>) -> bool {
    &&& utf8_len(s) <= MAX_KEY_BYTES
    &&& !(s.len() > 0 && s[0] == '/')
    &&& !has_pair(s, '.', '.')
}

/// Splitting `s` at every `/` yields an empty segment.
pub open spec fn has_empty_segment(s: Seq<char>) -> bool {
    ||| s.len() == 0
    ||| s[0] == '/'
    ||| s[s.len() - 1] == '/'
    ||| has_pair(s, '/', '/')
}

/// A key is a safe prefix that is non-empty, has no trailing `/` and
/// no empty `/`-separated segment.
pub open spec fn key_is_safe(s: Seq<char>) -> bool {
    prefix_is_safe(s) && !has_empty_segment(s)
}

pub fn validate_prefix(prefix: &str) -> (r: Result<(), RecordingStoreError>)
    ensures
        r is Ok <==> prefix_is_safe(prefix@),
        r is Err ==> r matches Err(RecordingStoreError::UnsafeKey),
{
    if prefix.as_bytes().len() > MAX_KEY_BYTES || str_first_is(prefix, '/') || str_contains_pair(prefix, '.', '.') {
        return Err(RecordingStoreError::UnsafeKey);
    }
    Ok(())
}

pub fn validate_key(key: &str) -> (r: Result<(), RecordingStoreError>)
    ensures
        r is Ok <==> key_is_safe(key@),
        r is Err ==> r matches Err(RecordingStoreError::UnsafeKey),
{
    validate_prefix(key)?;
    if key.unicode_len() == 0 || str_last_is(key, '/') || str_first_is(key, '/')
        || str_contains_pair(key, '/', '/')
    {
        return Err(RecordingStoreError::UnsafeKey);
    }
    Ok(())
}

// ---------------------------------------------------------------------------
// Artifacts

/// The artifact lifecycle moves forward one step at a time; quarantine is
/// reachable from every state.
pub open spec fn lifecycle_step(from: ArtifactLifecycle, to: ArtifactLifecycle) -> bool {
    ||| (from == ArtifactLifecycle::Published && to == ArtifactLifecycle::Verified)
    ||| (from == ArtifactLifecycle::Verified && to == ArtifactLifecycle::RetentionEligible)
    ||| (from == ArtifactLifecycle::RetentionEligible && to == ArtifactLifecycle::Deleting)
    ||| (from == ArtifactLifecycle::Deleting && to == ArtifactLifecycle::Deleted)
    ||| to == ArtifactLifecycle::Quarantined
}

/// Position of a lifecycle state along the forward path; quarantine is last.
pub open spec fn lifecycle_rank(l: ArtifactLifecycle) -> int {
    match l {
        ArtifactLifecycle::Published => 0,
        ArtifactLifecycle::Verified => 1,
        ArtifactLifecycle::RetentionEligible => 2,
        ArtifactLifecycle::Deleting => 3,
        ArtifactLifecycle::Deleted => 4,
        ArtifactLifecycle::Quarantined => 5,
    }
}

/// Everything `RecordingArtifact::validate` checks.
pub open spec fn artifact_valid(a: ArtifactView) -> bool {
    &&& a.version == RECORDING_STORE_SCHEMA_VERSION
    &&& a.bytes.len() <= MAX_ARTIFACT_BYTES
    &&& key_is_safe(a.key)
    &&& a.checksum == digest_spec(a.bytes)
    &&& a.lifecycle != ArtifactLifecycle::Deleted
}

/// The head that describes artifact `a`.
pub open spec fn head_of(a: ArtifactView) -> HeadView {
    HeadView {
        version: a.version,
        key: a.key,
        kind: a.kind,
        checksum: a.checksum,
        lifecycle: a.lifecycle,
        bytes: a.bytes.len() as u64,
    }
}

/// The error `RecordingArtifact::validate` reports for an invalid artifact.
pub open spec fn validation_error(a: ArtifactView, e: RecordingStoreError) -> bool {
    if a.version != RECORDING_STORE_SCHEMA_VERSION || a.bytes.len() > MAX_ARTIFACT_BYTES {
        e is InvalidArtifact
    } else if !key_is_safe(a.key) {
        e is UnsafeKey
    } else if a.checksum != digest_spec(a.bytes) {
        e is ChecksumMismatch
    } else {
        e is InvalidArtifact
    }
}

impl RecordingArtifact {
    pub fn new(key: &str, kind: RecordingArtifactKind, bytes: Vec<u8>) -> (r: Result<Self, RecordingStoreError>)
        ensures
            match r {
                Ok(a) => {
                    &&& key_is_safe(key@)
                    &&& bytes@.len() <= MAX_ARTIFACT_BYTES
                    &&& a.version == RECORDING_STORE_SCHEMA_VERSION
                    &&& a.key@ == key@
                    &&& a.kind == kind
                    &&& a.checksum@ == digest_spec(bytes@)
                    &&& is_digest_chars(a.checksum@)
                    &&& a.lifecycle == ArtifactLifecycle::Published
                    &&& a.bytes@ == bytes@
                },
                Err(e) => {
                    ||| (!key_is_safe(key@) && e is UnsafeKey)
                    ||| (key_is_safe(key@) && bytes@.len() > MAX_ARTIFACT_BYTES && e is ArtifactTooLarge)
                },
            },
    {
        validate_key(key)?;
        if bytes.len() > MAX_ARTIFACT_BYTES {
            return Err(RecordingStoreError::ArtifactTooLarge);
        }
        let checksum = digest_hex(bytes.as_slice());
        Ok(RecordingArtifact {
            version: RECORDING_STORE_SCHEMA_VERSION,
            key: str_copy(key),
            kind,
            checksum,
            lifecycle: ArtifactLifecycle::Published,
            bytes,
        })
    }

    pub fn validate(&self) -> (r: Result<(), RecordingStoreError>)
        ensures
            r is Ok <==> artifact_valid(self@),
            r matches Err(e) ==> validation_error(self@, e),
    {
        if self.version != RECORDING_STORE_SCHEMA_VERSION || self.bytes.len() > MAX_ARTIFACT_BYTES {
            return Err(RecordingStoreError::InvalidArtifact);
        }
        validate_key(self.key.as_str())?;
        if self.checksum != digest_hex(self.bytes.as_slice()) {
            return Err(RecordingStoreError::ChecksumMismatch);
        }
        if self.lifecycle == ArtifactLifecycle::Deleted {
            return Err(RecordingStoreError::InvalidArtifact);
        }
        Ok(())
    }

    pub fn transition(&mut self, next: ArtifactLifecycle) -> (r: Result<(), RecordingStoreError>)
        ensures
            r is Ok <==> lifecycle_step(old(self).lifecycle, next),
            r is Err ==> (r matches Err(RecordingStoreError::InvalidLifecycle)) && final(self)@ == old(self)@,
            r is Ok ==> final(self)@ == (ArtifactView { lifecycle: next, ..old(self)@ }),
    {
        let valid = match (self.lifecycle, next) {
            (ArtifactLifecycle::Published, ArtifactLifecycle::Verified) => true,
            (ArtifactLifecycle::Verified, ArtifactLifecycle::RetentionEligible) => true,
            (ArtifactLifecycle::RetentionEligible, ArtifactLifecycle::Deleting) => true,
            (ArtifactLifecycle::Deleting, ArtifactLifecycle::Deleted) => true,
            (_, ArtifactLifecycle::Quarantined) => true,
            _ => false,
        };
        if !valid {
            return Err(RecordingStoreError::InvalidLifecycle);
        }
        self.lifecycle = next;
        Ok(())
    }

    pub fn head(&self) -> (h: RecordingArtifactHead)
        ensures
            h@ == head_of(self@),
    {
        RecordingArtifactHead {
            version: self.version,
            key: self.key.clone(),
            kind: self.kind,
            checksum: self.checksum.clone(),
            lifecycle: self.lifecycle,
            bytes: self.bytes.len() as u64,
        }
    }

    /// A field-by-field copy of this artifact.
    pub fn duplicate(&self) -> (c: Self)
        ensures
            c@ == self@,
    {
        let bytes = self.bytes.clone();
        proof {
            assert(bytes@ =~= self.bytes@);
        }
        RecordingArtifact {
            version: self.version,
            key: self.key.clone(),
            kind: self.kind,
            checksum: self.checksum.clone(),
            lifecycle: self.lifecycle,
            bytes,
        }
    }
}

/// A lifecycle step never moves an artifact backwards, and nothing leaves
/// quarantine except quarantine itself.
pub proof fn lemma_lifecycle_monotonic(from: ArtifactLifecycle, to: ArtifactLifecycle)
    requires
        lifecycle_step(from, to),
    ensures
        lifecycle_rank(from) <= lifecycle_rank(to),
        from == ArtifactLifecycle::Quarantined ==> to == ArtifactLifecycle::Quarantined,
        to != ArtifactLifecycle::Quarantined ==> lifecycle_rank(to) == lifecycle_rank(from) + 1,
{
}

} // verus!

verus! {

/// The byte string by which keys are ordered.
pub open spec fn key_bytes(key: Seq<char>) -> Seq<u8> {
    encode_utf8(key)
}

/// The first `n` heads, in order, of the artifacts in `s` whose key starts
/// with `prefix`.
pub open spec fn listed(s: Seq<ArtifactView>, prefix: Seq<char>, n: nat) -> Seq<HeadView>
    decreases s.len(),
{
    if n == 0 || s.len() == 0 {
        Seq::empty()
    } else if prefix.len() <= s[0].key.len() && s[0].key.subrange(0, prefix.len() as int) == prefix {
        seq![head_of(s[0])] + listed(s.drop_first(), prefix, (n - 1) as nat)
    } else {
        listed(s.drop_first(), prefix, n)
    }
}

/// Adjacent entries are in strictly increasing key order.
pub open spec fn sorted_by_key(s: Seq<ArtifactView>) -> bool {
    forall|i: int| 0 <= i < s.len() - 1 ==> lex_lt(key_bytes(#[trigger] s[i].key), key_bytes(s[i + 1].key))
}

/// Operations of a store of immutable recorder artifacts.
pub trait RecordingStore {
    fn put_if_absent(&mut self, artifact: RecordingArtifact) -> Result<PutIfAbsent, RecordingStoreError>;

    /// Whether `r` is what this store answers to a head lookup of `key`;
    /// a store verified against this library defines it, and by default it
    /// claims nothing.
    closed spec fn head_answer(&self, key: Seq<char>, r: Result<RecordingArtifactHead, RecordingStoreError>) -> bool {
        true
    }

    fn head(&self, key: &str) -> (r: Result<RecordingArtifactHead, RecordingStoreError>)
        ensures
            self.head_answer(key@, r),
    ;

    fn get(&self, key: &str) -> Result<RecordingArtifact, RecordingStoreError>;

    fn list(&self, prefix: &str, limit: usize) -> Result<Vec<RecordingArtifactHead>, RecordingStoreError>;

    fn delete_if_digest(&mut self, key: &str, expected_digest: &str) -> Result<DeleteIfDigest, RecordingStoreError>;

    fn tombstone_if_digest(&mut self, key: &str, expected_digest: &str) -> Result<DeleteIfDigest, RecordingStoreError>;
}

/// An in-memory artifact store: artifacts ordered by key, and the tombstones
/// of artifacts removed for good.
pub struct InMemoryRecordingStore {
    artifacts: Vec<RecordingArtifact>,
    tombstones: Vec<RecordingTombstone>,
    contents: Ghost<Map<Seq<char>, ArtifactView>>,
}

impl View for InMemoryRecordingStore {
    type V = Map<Seq<char>, ArtifactView>;

    closed spec fn view(&self) -> Map<Seq<char>, ArtifactView> {
        self.contents@
    }
}

impl InMemoryRecordingStore {
    /// The stored artifacts in increasing key order.
    pub closed spec fn entries(&self) -> Seq<ArtifactView> {
        self.artifacts@.map_values(|a: RecordingArtifact| a@)
    }

    /// Keys that were tombstoned and can never be written again.
    pub closed spec fn tombstoned(&self) -> Set<Seq<char>> {
        Set::new(|k: Seq<char>| exists|i: int| 0 <= i < self.tombstones@.len() && #[trigger] self.tombstones@[i].key@ == k)
    }

    #[verifier::type_invariant]
    closed spec fn wf(&self) -> bool {
        parts_wf(self.artifacts@, self.contents@)
    }

    pub fn new() -> (s: Self)
        ensures
            s@ == Map::<Seq<char>, ArtifactView>::empty(),
            s.tombstoned() == Set::<Seq<char>>::empty(),
            s.entries() == Seq::<ArtifactView>::empty(),
    {
        let s = InMemoryRecordingStore { artifacts: Vec::new(), tombstones: Vec::new(), contents: Ghost(Map::empty()) };
        assert(s.tombstoned() =~= Set::<Seq<char>>::empty());
        assert(s.entries() =~= Seq::<ArtifactView>::empty());
        s
    }

    fn is_tombstoned(&self, key: &String) -> (r: bool)
        ensures
            r == self.tombstoned().contains(key@),
    {
        let mut i: usize = 0;
        while i < self.tombstones.len()
            invariant
                i <= self.tombstones@.len(),
                forall|j: int| 0 <= j < i ==> #[trigger] self.tombstones@[j].key@ != key@,
            decreases self.tombstones.len() - i,
        {
            if self.tombstones[i].key == *key {
                assert(self.tombstones@[i as int].key@ == key@);
                return true;
            }
            i = i + 1;
        }
        false
    }

    fn find(&self, key: &String) -> (r: Option<usize>)
        ensures
            match r {
                Some(i) => i < self.artifacts@.len() && self.artifacts@[i as int].key@ == key@
                    && self@.contains_key(key@) && self@[key@] == self.artifacts@[i as int]@,
                None => !self@.contains_key(key@),
            },
    {
        proof { use_type_invariant(self); }
        find_in(&self.artifacts, Ghost(self.contents@), key)
    }
}

/// Invariant linking the ordered artifact vector to the key map.
pub closed spec fn parts_wf(artifacts: Seq<RecordingArtifact>, contents: Map<Seq<char>, ArtifactView>) -> bool {
    &&& forall|i: int| 0 <= i < artifacts.len() ==> artifact_valid(#[trigger] artifacts[i]@)
    &&& forall|i: int, j: int| 0 <= i < j < artifacts.len() ==> #[trigger] artifacts[i].key@ != #[trigger] artifacts[j].key@
    &&& sorted_by_key(artifacts.map_values(|a: RecordingArtifact| a@))
    &&& forall|i: int| 0 <= i < artifacts.len() ==> #[trigger] contents.contains_key(artifacts[i].key@)
        && contents[artifacts[i].key@] == artifacts[i]@
    &&& forall|k: Seq<char>| #[trigger] contents.contains_key(k) ==> exists|i: int| 0 <= i < artifacts.len() && #[trigger] artifacts[i].key@ == k
}

proof fn lemma_entries_match(artifacts: Seq<RecordingArtifact>, contents: Map<Seq<char>, ArtifactView>)
    requires
        parts_wf(artifacts, contents),
    ensures
        ({
            let entries = artifacts.map_values(|a: RecordingArtifact| a@);
            &&& sorted_by_key(entries)
            &&& forall|i: int| 0 <= i < entries.len() ==> contents.contains_key(#[trigger] entries[i].key)
                && contents[entries[i].key] == entries[i]
            &&& forall|k: Seq<char>| #[trigger] contents.contains_key(k) ==> exists|i: int| 0 <= i < entries.len()
                && #[trigger] entries[i].key == k
        }),
{
    let entries = artifacts.map_values(|a: RecordingArtifact| a@);
    assert forall|k: Seq<char>| #[trigger] contents.contains_key(k) implies exists|i: int| 0 <= i < entries.len()
        && #[trigger] entries[i].key == k by {
        let i = choose|i: int| 0 <= i < artifacts.len() && #[trigger] artifacts[i].key@ == k;
        assert(entries[i].key == k);
    }
    assert forall|i: int| 0 <= i < entries.len() implies contents.contains_key(#[trigger] entries[i].key)
        && contents[entries[i].key] == entries[i] by {
        assert(entries[i] == artifacts[i]@);
        assert(contents.contains_key(artifacts[i].key@));
    }
}

fn find_in(artifacts: &Vec<RecordingArtifact>, contents: Ghost<Map<Seq<char>, ArtifactView>>, key: &String) -> (r: Option<usize>)
    requires
        parts_wf(artifacts@, contents@),
    ensures
        match r {
            Some(i) => i < artifacts@.len() && artifacts@[i as int].key@ == key@
                && contents@.contains_key(key@) && contents@[key@] == artifacts@[i as int]@,
            None => !contents@.contains_key(key@),
        },
{
    let mut i: usize = 0;
    while i < artifacts.len()
        invariant
            parts_wf(artifacts@, contents@),
            i <= artifacts@.len(),
            forall|j: int| 0 <= j < i ==> #[trigger] artifacts@[j].key@ != key@,
        decreases artifacts.len() - i,
    {
        if artifacts[i].key == *key {
            return Some(i);
        }
        i = i + 1;
    }
    proof {
        if contents@.contains_key(key@) {
            let j = choose|j: int| 0 <= j < artifacts@.len() && #[trigger] artifacts@[j].key@ == key@;
            assert(artifacts@[j].key@ != key@);
        }
    }
    None
}

/// Position at which an absent key keeps the entries in key order.
fn insertion_point(artifacts: &Vec<RecordingArtifact>, contents: Ghost<Map<Seq<char>, ArtifactView>>, key: &String) -> (p: usize)
    requires
        parts_wf(artifacts@, contents@),
        !contents@.contains_key(key@),
    ensures
        p <= artifacts@.len(),
        forall|j: int| 0 <= j < p ==> lex_lt(key_bytes(#[trigger] artifacts@[j].key@), key_bytes(key@)),
        p < artifacts@.len() ==> lex_lt(key_bytes(key@), key_bytes(artifacts@[p as int].key@)),
{
    let mut i: usize = 0;
    while i < artifacts.len()
        invariant
            parts_wf(artifacts@, contents@),
            !contents@.contains_key(key@),
            i <= artifacts@.len(),
            forall|j: int| 0 <= j < i ==> lex_lt(key_bytes(#[trigger] artifacts@[j].key@), key_bytes(key@)),
        decreases artifacts.len() - i,
    {
        let k = key.as_str().as_bytes();
        let e = artifacts[i].key.as_str().as_bytes();
        if bytes_lt(k, e) {
            return i;
        }
        proof {
            let ek = artifacts@[i as int].key@;
            assert(contents@.contains_key(ek));
            assert(ek != key@);
            if key_bytes(ek) == key_bytes(key@) {
                lemma_utf8_injective(ek, key@);
            }
            lemma_lex_total(key_bytes(ek), key_bytes(key@));
        }
        i = i + 1;
    }
    i
}

proof fn lemma_insert_wf(
    artifacts: Seq<RecordingArtifact>,
    contents: Map<Seq<char>, ArtifactView>,
    p: int,
    a: RecordingArtifact,
)
    requires
        parts_wf(artifacts, contents),
        !contents.contains_key(a@.key),
        artifact_valid(a@),
        0 <= p <= artifacts.len(),
        forall|j: int| 0 <= j < p ==> lex_lt(key_bytes(#[trigger] artifacts[j].key@), key_bytes(a@.key)),
        p < artifacts.len() ==> lex_lt(key_bytes(a@.key), key_bytes(artifacts[p].key@)),
    ensures
        parts_wf(artifacts.insert(p, a), contents.insert(a@.key, a@)),
{
    let na = artifacts.insert(p, a);
    let nc = contents.insert(a@.key, a@);
    assert forall|i: int, j: int| 0 <= i < j < na.len() implies #[trigger] na[i].key@ != #[trigger] na[j].key@ by {
        if i == p {
            assert(contents.contains_key(na[j].key@));
        } else if j == p {
            assert(contents.contains_key(na[i].key@));
        }
    }
    let ev = na.map_values(|x: RecordingArtifact| x@);
    assert forall|i: int| 0 <= i < ev.len() - 1 implies lex_lt(key_bytes(#[trigger] ev[i].key), key_bytes(ev[i + 1].key)) by {
        let old_ev = artifacts.map_values(|x: RecordingArtifact| x@);
        if i < p - 1 {
            assert(old_ev[i] == ev[i] && old_ev[i + 1] == ev[i + 1]);
        } else if i == p - 1 {
        } else if i == p {
        } else {
            assert(old_ev[i - 1] == ev[i] && old_ev[i] == ev[i + 1]);
        }
    }
    assert forall|i: int| 0 <= i < na.len() implies #[trigger] nc.contains_key(na[i].key@) && nc[na[i].key@] == na[i]@ by {
        if i != p {
            let oi = if i < p { i } else { i - 1 };
            assert(na[i] == artifacts[oi]);
            assert(contents.contains_key(artifacts[oi].key@));
        }
    }
    assert forall|k: Seq<char>| #[trigger] nc.contains_key(k) implies exists|i: int| 0 <= i < na.len() && #[trigger] na[i].key@ == k by {
        if k == a@.key {
            assert(na[p].key@ == k);
        } else {
            let i = choose|i: int| 0 <= i < artifacts.len() && #[trigger] artifacts[i].key@ == k;
            if i < p {
                assert(na[i].key@ == k);
            } else {
                assert(na[i + 1].key@ == k);
            }
        }
    }
}

proof fn lemma_remove_wf(artifacts: Seq<RecordingArtifact>, contents: Map<Seq<char>, ArtifactView>, p: int)
    requires
        parts_wf(artifacts, contents),
        0 <= p < artifacts.len(),
    ensures
        parts_wf(artifacts.remove(p), contents.remove(artifacts[p].key@)),
{
    let na = artifacts.remove(p);
    let k0 = artifacts[p].key@;
    let nc = contents.remove(k0);
    let old_ev = artifacts.map_values(|x: RecordingArtifact| x@);
    let ev = na.map_values(|x: RecordingArtifact| x@);
    assert forall|i: int| 0 <= i < ev.len() - 1 implies lex_lt(key_bytes(#[trigger] ev[i].key), key_bytes(ev[i + 1].key)) by {
        if i < p - 1 {
            assert(old_ev[i] == ev[i] && old_ev[i + 1] == ev[i + 1]);
        } else if i == p - 1 {
            assert(old_ev[i] == ev[i] && old_ev[i + 2] == ev[i + 1]);
            assert(lex_lt(key_bytes(old_ev[i].key), key_bytes(old_ev[i + 1].key)));
            assert(lex_lt(key_bytes(old_ev[i + 1].key), key_bytes(old_ev[i + 2].key)));
            lemma_lex_transitive(key_bytes(old_ev[i].key), key_bytes(old_ev[i + 1].key), key_bytes(old_ev[i + 2].key));
        } else {
            assert(old_ev[i + 1] == ev[i] && old_ev[i + 2] == ev[i + 1]);
        }
    }
    assert forall|i: int| 0 <= i < na.len() implies #[trigger] nc.contains_key(na[i].key@) && nc[na[i].key@] == na[i]@ by {
        let oi = if i < p { i } else { i + 1 };
        assert(na[i] == artifacts[oi]);
        assert(artifacts[oi].key@ != k0);
    }
    assert forall|k: Seq<char>| #[trigger] nc.contains_key(k) implies exists|i: int| 0 <= i < na.len() && #[trigger] na[i].key@ == k by {
        let i = choose|i: int| 0 <= i < artifacts.len() && #[trigger] artifacts[i].key@ == k;
        assert(i != p);
        if i < p {
            assert(na[i].key@ == k);
        } else {
            assert(na[i - 1].key@ == k);
        }
    }
}

} // verus!

verus! {

impl InMemoryRecordingStore {
    /// Inserts an artifact whose key is absent at its ordered position.
    fn insert_absent(&mut self, artifact: RecordingArtifact)
        requires
            artifact_valid(artifact@),
            !old(self)@.contains_key(artifact@.key),
        ensures
            final(self)@ == old(self)@.insert(artifact@.key, artifact@),
            final(self).tombstoned() == old(self).tombstoned(),
    {
        proof { use_type_invariant(&*self); }
        let p = insertion_point(&self.artifacts, Ghost(self.contents@), &artifact.key);
        let mut taken = InMemoryRecordingStore::new();
        std::mem::swap(self, &mut taken);
        let InMemoryRecordingStore { mut artifacts, tombstones, contents } = taken;
        let ghost key = artifact@.key;
        let ghost value = artifact@;
        proof {
            lemma_insert_wf(artifacts@, contents@, p as int, artifact);
        }
        artifacts.insert(p, artifact);
        *self = InMemoryRecordingStore { artifacts, tombstones, contents: Ghost(contents@.insert(key, value)) };
    }

    /// Removes the artifact stored at position `p`.
    fn remove_at(&mut self, p: usize) -> (removed: RecordingArtifact)
        requires
            p < old(self).artifacts@.len(),
        ensures
            removed@ == old(self).artifacts@[p as int]@,
            old(self)@.contains_key(removed@.key),
            final(self)@ == old(self)@.remove(removed@.key),
            final(self).tombstoned() == old(self).tombstoned(),
    {
        proof { use_type_invariant(&*self); }
        let mut taken = InMemoryRecordingStore::new();
        std::mem::swap(self, &mut taken);
        let InMemoryRecordingStore { mut artifacts, tombstones, contents } = taken;
        let ghost key = artifacts@[p as int].key@;
        proof {
            lemma_remove_wf(artifacts@, contents@, p as int);
        }
        let removed = artifacts.remove(p);
        *self = InMemoryRecordingStore { artifacts, tombstones, contents: Ghost(contents@.remove(key)) };
        removed
    }
}

impl RecordingStore for InMemoryRecordingStore {
    fn put_if_absent(&mut self, artifact: RecordingArtifact) -> (r: Result<PutIfAbsent, RecordingStoreError>)
        ensures
            final(self).tombstoned() == old(self).tombstoned(),
            match r {
                Ok(PutIfAbsent::Created) => {
                    &&& artifact_valid(artifact@)
                    &&& !old(self).tombstoned().contains(artifact@.key)
                    &&& !old(self)@.contains_key(artifact@.key)
                    &&& final(self)@ == old(self)@.insert(artifact@.key, artifact@)
                },
                Ok(PutIfAbsent::AlreadyExistsMatching) => {
                    &&& artifact_valid(artifact@)
                    &&& !old(self).tombstoned().contains(artifact@.key)
                    &&& old(self)@.contains_key(artifact@.key)
                    &&& old(self)@[artifact@.key].checksum == artifact@.checksum
                    &&& final(self)@ == old(self)@
                },
                Err(e) => {
                    &&& final(self)@ == old(self)@
                    &&& if !artifact_valid(artifact@) {
                        validation_error(artifact@, e)
                    } else {
                        &&& e is Conflict
                        &&& (old(self).tombstoned().contains(artifact@.key)
                            || (old(self)@.contains_key(artifact@.key)
                                && old(self)@[artifact@.key].checksum != artifact@.checksum))
                    }
                },
            },
    {
        artifact.validate()?;
        if self.is_tombstoned(&artifact.key) {
            return Err(RecordingStoreError::Conflict);
        }
        match self.find(&artifact.key) {
            Some(i) => {
                if self.artifacts[i].checksum == artifact.checksum {
                    Ok(PutIfAbsent::AlreadyExistsMatching)
                } else {
                    Err(RecordingStoreError::Conflict)
                }
            },
            None => {
                self.insert_absent(artifact);
                Ok(PutIfAbsent::Created)
            },
        }
    }

    open spec fn head_answer(&self, key: Seq<char>, r: Result<RecordingArtifactHead, RecordingStoreError>) -> bool {
        match r {
            Ok(h) => key_is_safe(key) && self@.contains_key(key) && h@ == head_of(self@[key]),
            Err(e) => (!key_is_safe(key) && e is UnsafeKey)
                || (key_is_safe(key) && !self@.contains_key(key) && e is NotFound),
        }
    }

    fn head(&self, key: &str) -> (r: Result<RecordingArtifactHead, RecordingStoreError>)
        ensures
            match r {
                Ok(h) => key_is_safe(key@) && self@.contains_key(key@) && h@ == head_of(self@[key@]),
                Err(e) => (!key_is_safe(key@) && e is UnsafeKey)
                    || (key_is_safe(key@) && !self@.contains_key(key@) && e is NotFound),
            },
    {
        validate_key(key)?;
        let owned = str_copy(key);
        match self.find(&owned) {
            Some(i) => Ok(self.artifacts[i].head()),
            None => Err(RecordingStoreError::NotFound),
        }
    }

    fn get(&self, key: &str) -> (r: Result<RecordingArtifact, RecordingStoreError>)
        ensures
            match r {
                Ok(a) => key_is_safe(key@) && self@.contains_key(key@) && a@ == self@[key@],
                Err(e) => (!key_is_safe(key@) && e is UnsafeKey)
                    || (key_is_safe(key@) && !self@.contains_key(key@) && e is NotFound),
            },
    {
        validate_key(key)?;
        let owned = str_copy(key);
        match self.find(&owned) {
            Some(i) => Ok(self.artifacts[i].duplicate()),
            None => Err(RecordingStoreError::NotFound),
        }
    }

    fn list(&self, prefix: &str, limit: usize) -> (r: Result<Vec<RecordingArtifactHead>, RecordingStoreError>)
        ensures
            match r {
                Ok(heads) => prefix_is_safe(prefix@)
                    && heads@.map_values(|h: RecordingArtifactHead| h@)
                        == listed(self.entries(), prefix@, if limit < MAX_LIST_RESULTS { limit as nat } else { MAX_LIST_RESULTS as nat }),
                Err(e) => !prefix_is_safe(prefix@) && e is UnsafeKey,
            },
            sorted_by_key(self.entries()),
            forall|i: int| 0 <= i < self.entries().len() ==> self@.contains_key(#[trigger] self.entries()[i].key)
                && self@[self.entries()[i].key] == self.entries()[i],
            forall|k: Seq<char>| #[trigger] self@.contains_key(k) ==> exists|i: int| 0 <= i < self.entries().len()
                && #[trigger] self.entries()[i].key == k,
    {
        proof {
            use_type_invariant(self);
            lemma_entries_match(self.artifacts@, self.contents@);
        }
        validate_prefix(prefix)?;
        let n = if limit < MAX_LIST_RESULTS { limit } else { MAX_LIST_RESULTS };
        let mut out: Vec<RecordingArtifactHead> = Vec::new();
        let mut i: usize = 0;
        let ghost entries = self.entries();
        proof {
            assert(entries.skip(0) =~= entries);
            assert(out@.map_values(|h: RecordingArtifactHead| h@) =~= Seq::<HeadView>::empty());
        }
        while i < self.artifacts.len() && out.len() < n
            invariant
                entries == self.entries(),
                i <= self.artifacts@.len(),
                out@.len() <= n,
                listed(entries, prefix@, n as nat)
                    == out@.map_values(|h: RecordingArtifactHead| h@) + listed(entries.skip(i as int), prefix@, (n - out@.len()) as nat),
            decreases self.artifacts.len() - i,
        {
            let ghost before = out@.map_values(|h: RecordingArtifactHead| h@);
            let ghost rest = entries.skip(i as int);
            proof {
                assert(rest[0] == self.artifacts@[i as int]@);
                assert(rest.drop_first() =~= entries.skip(i + 1));
            }
            if str_starts_with(self.artifacts[i].key.as_str(), prefix) {
                let h = self.artifacts[i].head();
                out.push(h);
                proof {
                    assert(out@.map_values(|h: RecordingArtifactHead| h@) =~= before + seq![head_of(rest[0])]);
                }
            }
            i = i + 1;
        }
        proof {
            let rest = entries.skip(i as int);
            if out@.len() < n {
                assert(rest.len() == 0);
            }
            assert(listed(rest, prefix@, (n - out@.len()) as nat) =~= Seq::<HeadView>::empty());
            assert(listed(entries, prefix@, n as nat) =~= out@.map_values(|h: RecordingArtifactHead| h@));
        }
        Ok(out)
    }

    fn delete_if_digest(&mut self, key: &str, expected_digest: &str) -> (r: Result<DeleteIfDigest, RecordingStoreError>)
        ensures
            final(self).tombstoned() == old(self).tombstoned(),
            match r {
                Ok(DeleteIfDigest::Deleted) => {
                    &&& key_is_safe(key@)
                    &&& old(self)@.contains_key(key@)
                    &&& old(self)@[key@].checksum == expected_digest@
                    &&& final(self)@ == old(self)@.remove(key@)
                },
                Ok(DeleteIfDigest::NotFound) => key_is_safe(key@) && !old(self)@.contains_key(key@)
                    && final(self)@ == old(self)@,
                Ok(DeleteIfDigest::DigestMismatch) => {
                    &&& key_is_safe(key@)
                    &&& old(self)@.contains_key(key@)
                    &&& old(self)@[key@].checksum != expected_digest@
                    &&& final(self)@ == old(self)@
                },
                Err(e) => !key_is_safe(key@) && e is UnsafeKey && final(self)@ == old(self)@,
            },
    {
        validate_key(key)?;
        let owned = str_copy(key);
        match self.find(&owned) {
            None => Ok(DeleteIfDigest::NotFound),
            Some(i) => {
                if !str_eq(self.artifacts[i].checksum.as_str(), expected_digest) {
                    return Ok(DeleteIfDigest::DigestMismatch);
                }
                let _removed = self.remove_at(i);
                Ok(DeleteIfDigest::Deleted)
            },
        }
    }

    fn tombstone_if_digest(&mut self, key: &str, expected_digest: &str) -> (r: Result<DeleteIfDigest, RecordingStoreError>)
        ensures
            match r {
                Ok(DeleteIfDigest::Deleted) => {
                    &&& key_is_safe(key@)
                    &&& old(self)@.contains_key(key@)
                    &&& old(self)@[key@].checksum == expected_digest@
                    &&& final(self)@ == old(self)@.remove(key@)
                    &&& final(self).tombstoned() == old(self).tombstoned().insert(key@)
                },
                Ok(DeleteIfDigest::NotFound) => key_is_safe(key@) && !old(self)@.contains_key(key@)
                    && final(self)@ == old(self)@ && final(self).tombstoned() == old(self).tombstoned(),
                Ok(DeleteIfDigest::DigestMismatch) => {
                    &&& key_is_safe(key@)
                    &&& old(self)@.contains_key(key@)
                    &&& old(self)@[key@].checksum != expected_digest@
                    &&& final(self)@ == old(self)@
                    &&& final(self).tombstoned() == old(self).tombstoned()
                },
                Err(e) => !key_is_safe(key@) && e is UnsafeKey && final(self)@ == old(self)@
                    && final(self).tombstoned() == old(self).tombstoned(),
            },
    {
        validate_key(key)?;
        let owned = str_copy(key);
        match self.find(&owned) {
            None => Ok(DeleteIfDigest::NotFound),
            Some(i) => {
                if !str_eq(self.artifacts[i].checksum.as_str(), expected_digest) {
                    return Ok(DeleteIfDigest::DigestMismatch);
                }
                let tombstone = RecordingTombstone {
                    version: RECORDING_STORE_SCHEMA_VERSION,
                    key: str_copy(key),
                    checksum: str_copy(expected_digest),
                    lifecycle: ArtifactLifecycle::Deleted,
                };
                let _removed = self.remove_at(i);
                self.push_tombstone(tombstone);
                Ok(DeleteIfDigest::Deleted)
            },
        }
    }
}

impl InMemoryRecordingStore {
    fn push_tombstone(&mut self, tombstone: RecordingTombstone)
        ensures
            final(self)@ == old(self)@,
            final(self).tombstoned() == old(self).tombstoned().insert(tombstone.key@),
    {
        proof { use_type_invariant(&*self); }
        let mut taken = InMemoryRecordingStore::new();
        std::mem::swap(self, &mut taken);
        let InMemoryRecordingStore { artifacts, mut tombstones, contents } = taken;
        let ghost before = tombstones@;
        tombstones.push(tombstone);
        *self = InMemoryRecordingStore { artifacts, tombstones, contents };
        proof {
            let k = tombstone.key@;
            assert forall|x: Seq<char>| #[trigger] self.tombstoned().contains(x) == old(self).tombstoned().insert(k).contains(x) by {
                if old(self).tombstoned().contains(x) {
                    let j = choose|j: int| 0 <= j < before.len() && #[trigger] before[j].key@ == x;
                    assert(self.tombstones@[j].key@ == x);
                }
                if x == k {
                    assert(self.tombstones@[before.len() as int].key@ == x);
                }
                if self.tombstoned().contains(x) && x != k {
                    let j = choose|j: int| 0 <= j < self.tombstones@.len() && #[trigger] self.tombstones@[j].key@ == x;
                    assert(before[j].key@ == x);
                }
            }
            assert(self.tombstoned() =~= old(self).tombstoned().insert(k));
        }
    }
}

} // verus!

verus! {

impl Default for InMemoryRecordingStore {
    fn default() -> (s: Self)
        ensures
            s@ == Map::<Seq<char>, ArtifactView>::empty(),
            s.tombstoned() == Set::<Seq<char>>::empty(),
    {
        InMemoryRecordingStore::new()
    }
}

} // verus!
