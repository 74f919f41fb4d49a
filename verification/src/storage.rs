//! Metadata and artifact repository boundaries: configuration, the
//! in-memory artifact store, manifest versions and artifact keys.
use vstd::prelude::*;
use crate::text::{str_copy, str_eq};
use crate::canonical::CanonicalSession;

verus! {

pub const MANIFEST_SCHEMA_V1: u8 = 1;
pub const MANIFEST_SCHEMA_V2: u8 = 2;
pub const MANIFEST_SCHEMA_VERSION: u8 = 1;

#[derive(Clone, Debug, PartialEq, Eq)]
pub struct PostgresMetadataConfig {
    pub connection_url: String,
}

#[derive(Clone, Debug, PartialEq, Eq)]
pub struct S3ArtifactConfig {
    pub endpoint: Option<String>,
    pub bucket: String,
    pub region: Option<String>,
    pub path_style: bool,
}

/// A stored artifact object.
#[derive(Clone, Debug, PartialEq, Eq)]
pub struct ArtifactObject {
    pub key: String,
    pub checksum: String,
    pub bytes: Vec<u8>,
    pub content_type: Option<String>,
}

pub struct ObjectView {
    pub key: Seq<char>,
    pub checksum: Seq<char>,
    pub bytes: Seq<u8>,
    pub content_type: Option<Seq<char>>,
}

impl View for ArtifactObject {
    type V = ObjectView;

    open spec fn view(&self) -> ObjectView {
        ObjectView {
            key: self.key@,
            checksum: self.checksum@,
            bytes: self.bytes@,
            content_type: crate::canonical::opt_str_view(self.content_type),
        }
    }
}

impl ArtifactObject {
    pub fn duplicate(&self) -> (o: Self)
        ensures
            o@ == self@,
    {
        ArtifactObject {
            key: str_copy(self.key.as_str()),
            checksum: str_copy(self.checksum.as_str()),
            bytes: crate::canonical::copy_bytes(&self.bytes),
            content_type: crate::canonical::copy_opt_str(&self.content_type),
        }
    }
}

#[derive(Clone, Debug, PartialEq, Eq)]
pub enum StorageError {
    NotFound(u128),
    LockPoisoned,
    Backend(String),
    Validation(String),
}

/// Artifact objects by key; a put replaces the object stored under its key.
pub struct InMemoryArtifactStore {
    objects: Vec<ArtifactObject>,
}

impl View for InMemoryArtifactStore {
    type V = Map<Seq<char>, ObjectView>;

    closed spec fn view(&self) -> Map<Seq<char>, ObjectView> {
        Map::new(
            |k: Seq<char>| exists|i: int| 0 <= i < self.objects@.len() && #[trigger] self.objects@[i].key@ == k,
            |k: Seq<char>| self.objects@[choose|i: int| 0 <= i < self.objects@.len() && #[trigger] self.objects@[i].key@ == k]@,
        )
    }
}

impl InMemoryArtifactStore {
    #[verifier::type_invariant]
    closed spec fn keys_unique(&self) -> bool {
        forall|i: int, j: int| 0 <= i < j < self.objects@.len() ==> #[trigger] self.objects@[i].key@ != #[trigger] self.objects@[j].key@
    }

    pub fn new() -> (s: Self)
        ensures
            s@ == Map::<Seq<char>, ObjectView>::empty(),
    {
        let s = InMemoryArtifactStore { objects: Vec::new() };
        assert(s@ =~= Map::<Seq<char>, ObjectView>::empty());
        s
    }

    fn position(&self, key: &str) -> (r: Option<usize>)
        ensures
            match r {
                Some(i) => i < self.objects@.len() && self.objects@[i as int].key@ == key@,
                None => forall|i: int| 0 <= i < self.objects@.len() ==> self.objects@[i].key@ != key@,
            },
    {
        let mut i: usize = 0;
        while i < self.objects.len()
            invariant
                i <= self.objects@.len(),
                forall|k: int| 0 <= k < i ==> self.objects@[k].key@ != key@,
            decreases self.objects.len() - i,
        {
            if str_eq(self.objects[i].key.as_str(), key) {
                return Some(i);
            }
            i = i + 1;
        }
        None
    }

    /// Stores `object` under its key.
    pub fn put(&mut self, object: ArtifactObject)
        ensures
            final(self)@ == old(self)@.insert(object.key@, object@),
    {
        proof { use_type_invariant(&*self); }
        let ghost before = self.objects@;
        let ghost ov = object@;
        match self.position(object.key.as_str()) {
            Some(i) => {
                let mut objects: Vec<ArtifactObject> = Vec::new();
                std::mem::swap(&mut objects, &mut self.objects);
                objects.set(i, object);
                proof {
                    assert forall|a: int, b: int| 0 <= a < b < objects@.len() implies #[trigger] objects@[a].key@ != #[trigger] objects@[b].key@ by {
                        if a != i && b != i {
                            assert(objects@[a] == before[a] && objects@[b] == before[b]);
                        } else if a == i {
                            assert(objects@[b] == before[b]);
                        } else {
                            assert(objects@[a] == before[a]);
                        }
                    }
                }
                self.objects = objects;
                proof {
                    let m = self@;
                    let expected = old(self)@.insert(ov.key, ov);
                    assert forall|k: Seq<char>| #[trigger] m.dom().contains(k) <==> expected.dom().contains(k) by {
                        if expected.dom().contains(k) && k != ov.key {
                            let j = choose|j: int| 0 <= j < before.len() && #[trigger] before[j].key@ == k;
                            assert(self.objects@[j].key@ == k);
                        }
                        if m.dom().contains(k) && k != ov.key {
                            let j = choose|j: int| 0 <= j < self.objects@.len() && #[trigger] self.objects@[j].key@ == k;
                            assert(before[j].key@ == k);
                        }
                        if k == ov.key {
                            assert(self.objects@[i as int].key@ == k);
                        }
                    }
                    assert forall|k: Seq<char>| #[trigger] m.dom().contains(k) implies m[k] == expected[k] by {
                        let j = choose|j: int| 0 <= j < self.objects@.len() && #[trigger] self.objects@[j].key@ == k;
                        if k == ov.key {
                            assert(j == i);
                        } else {
                            assert(before[j].key@ == k);
                            let j0 = choose|j0: int| 0 <= j0 < before.len() && #[trigger] before[j0].key@ == k;
                            assert(j0 == j);
                        }
                    }
                    assert(m =~= expected);
                }
            },
            None => {
                let mut objects: Vec<ArtifactObject> = Vec::new();
                std::mem::swap(&mut objects, &mut self.objects);
                objects.push(object);
                proof {
                    assert forall|a: int, b: int| 0 <= a < b < objects@.len() implies #[trigger] objects@[a].key@ != #[trigger] objects@[b].key@ by {
                        if b == before.len() {
                            assert(objects@[a] == before[a]);
                        } else {
                            assert(objects@[a] == before[a] && objects@[b] == before[b]);
                        }
                    }
                }
                self.objects = objects;
                proof {
                    let m = self@;
                    let n = before.len() as int;
                    let expected = old(self)@.insert(ov.key, ov);
                    assert forall|k: Seq<char>| #[trigger] m.dom().contains(k) <==> expected.dom().contains(k) by {
                        if expected.dom().contains(k) && k != ov.key {
                            let j = choose|j: int| 0 <= j < before.len() && #[trigger] before[j].key@ == k;
                            assert(self.objects@[j].key@ == k);
                        }
                        if m.dom().contains(k) && k != ov.key {
                            let j = choose|j: int| 0 <= j < self.objects@.len() && #[trigger] self.objects@[j].key@ == k;
                            assert(j != n);
                            assert(before[j].key@ == k);
                        }
                        if k == ov.key {
                            assert(self.objects@[n].key@ == k);
                        }
                    }
                    assert forall|k: Seq<char>| #[trigger] m.dom().contains(k) implies m[k] == expected[k] by {
                        let j = choose|j: int| 0 <= j < self.objects@.len() && #[trigger] self.objects@[j].key@ == k;
                        if k == ov.key {
                            assert(j == n);
                        } else {
                            assert(j != n);
                            assert(before[j].key@ == k);
                            let j0 = choose|j0: int| 0 <= j0 < before.len() && #[trigger] before[j0].key@ == k;
                            assert(j0 == j);
                        }
                    }
                    assert(m =~= expected);
                }
            },
        }
    }

    /// A copy of the object stored under `key`.
    pub fn get(&self, key: &str) -> (r: Result<ArtifactObject, StorageError>)
        ensures
            match r {
                Ok(o) => self@.contains_key(key@) && o@ == self@[key@],
                Err(e) => !self@.contains_key(key@) && e is Backend,
            },
    {
        proof { use_type_invariant(self); }
        match self.position(key) {
            Some(i) => {
                proof {
                    let j = choose|j: int| 0 <= j < self.objects@.len() && #[trigger] self.objects@[j].key@ == key@;
                    assert(self.objects@[i as int].key@ == key@);
                    assert(j == i);
                }
                Ok(self.objects[i].duplicate())
            },
            None => {
                let mut message = str_copy("artifact ");
                message.append(key);
                message.append(" was not found");
                Err(StorageError::Backend(message))
            },
        }
    }
}

#[derive(Clone, Copy, Debug, PartialEq, Eq, Structural)]
pub enum ManifestSchemaVersion {
    V1,
    V2,
}

impl ManifestSchemaVersion {
    /// The version a manifest's version byte names; the byte itself when
    /// it names none.
    pub fn try_from(value: u8) -> (r: Result<Self, u8>)
        ensures
            value == MANIFEST_SCHEMA_V1 ==> r == Ok::<Self, u8>(ManifestSchemaVersion::V1),
            value == MANIFEST_SCHEMA_V2 ==> r == Ok::<Self, u8>(ManifestSchemaVersion::V2),
            value != MANIFEST_SCHEMA_V1 && value != MANIFEST_SCHEMA_V2 ==> r == Err::<Self, u8>(value),
    {
        if value == MANIFEST_SCHEMA_V1 {
            Ok(ManifestSchemaVersion::V1)
        } else if value == MANIFEST_SCHEMA_V2 {
            Ok(ManifestSchemaVersion::V2)
        } else {
            Err(value)
        }
    }

    pub fn byte(self) -> (b: u8)
        ensures
            b == match self { ManifestSchemaVersion::V1 => MANIFEST_SCHEMA_V1, ManifestSchemaVersion::V2 => MANIFEST_SCHEMA_V2 },
    {
        match self {
            ManifestSchemaVersion::V1 => MANIFEST_SCHEMA_V1,
            ManifestSchemaVersion::V2 => MANIFEST_SCHEMA_V2,
        }
    }
}

/// Position of the first `/` in `s`, or its length.
pub open spec fn first_slash(s: Seq<char>, i: int) -> int
    decreases s.len() - i,
{
    if i < 0 || i >= s.len() {
        s.len() as int
    } else if s[i] == '/' {
        i
    } else {
        first_slash(s, i + 1)
    }
}

pub proof fn lemma_first_slash_bounds(s: Seq<char>, i: int)
    requires
        0 <= i <= s.len(),
    ensures
        i <= first_slash(s, i) <= s.len(),
    decreases s.len() - i,
{
    if i < s.len() && s[i] != '/' {
        lemma_first_slash_bounds(s, i + 1);
    }
}

/// The `/`-separated parts of `s`, as `str::split('/')` yields them.
pub open spec fn split_slash(s: Seq<char>) -> Seq<Seq<char>>
    decreases s.len(),
{
    let k = first_slash(s, 0);
    if k >= s.len() {
        seq![s]
    } else {
        proof { lemma_first_slash_bounds(s, 0); }
        seq![s.subrange(0, k)] + split_slash(s.subrange(k + 1, s.len() as int))
    }
}

pub open spec fn safe_part(p: Seq<char>) -> bool {
    p.len() > 0 && p != "."@ && p != ".."@ && !(exists|i: int| 0 <= i < p.len() && p[i] == '\\')
}

/// An artifact key names a session payload: `sessions/<id>/payloads/<name>`
/// with no empty, `.`, `..` or backslashed part.
pub open spec fn artifact_key_ok(key: Seq<char>) -> bool {
    let parts = split_slash(key);
    &&& parts.len() == 4
    &&& parts[0] == "sessions"@
    &&& parts[2] == "payloads"@
    &&& forall|i: int| 0 <= i < 4 ==> safe_part(#[trigger] parts[i])
}

fn split_parts(s: &str) -> (parts: Vec<String>)
    ensures
        parts@.len() == split_slash(s@).len(),
        forall|i: int| 0 <= i < parts@.len() ==> #[trigger] parts@[i]@ == split_slash(s@)[i],
{
    let n = s.unicode_len();
    let mut parts: Vec<String> = Vec::new();
    let mut start: usize = 0;
    let mut i: usize = 0;
    proof {
        assert(s@.subrange(0, n as int) =~= s@);
        assert(parts_view(parts@) + split_slash(s@) =~= split_slash(s@));
    }
    while i < n
        invariant
            n == s@.len(),
            start <= i <= n,
            forall|k: int| start <= k < i ==> s@[k] != '/',
            split_slash(s@) == crate::storage::parts_view(parts@) + split_slash(s@.subrange(start as int, n as int)),
        decreases n - i,
    {
        if s.get_char(i) == '/' {
            let part = s.substring_char(start, i);
            proof {
                let rest = s@.subrange(start as int, n as int);
                lemma_first_slash_at(rest, 0, i - start);
                assert(rest.subrange(0, i - start) =~= part@);
                assert(rest.subrange(i - start + 1, rest.len() as int) =~= s@.subrange(i + 1, n as int));
                assert(split_slash(rest) == seq![part@] + split_slash(s@.subrange(i + 1, n as int)));
            }
            let ghost before = parts@;
            parts.push(str_copy(part));
            proof {
                assert(parts_view(parts@) =~= parts_view(before).push(part@));
            }
            start = i + 1;
        }
        i = i + 1;
    }
    let last = s.substring_char(start, n);
    proof {
        let rest = s@.subrange(start as int, n as int);
        lemma_no_slash(rest, 0);
        assert(rest =~= last@);
    }
    let ghost before = parts@;
    parts.push(str_copy(last));
    proof {
        assert(parts_view(parts@) =~= parts_view(before).push(last@));
        assert(split_slash(s@) =~= parts_view(parts@));
    }
    parts
}

pub open spec fn parts_view(p: Seq<String>) -> Seq<Seq<char>> {
    p.map_values(|x: String| x@)
}

proof fn lemma_first_slash_at(s: Seq<char>, i: int, k: int)
    requires
        0 <= i <= k < s.len(),
        s[k] == '/',
        forall|j: int| i <= j < k ==> s[j] != '/',
    ensures
        first_slash(s, i) == k,
    decreases k - i,
{
    if i < k {
        lemma_first_slash_at(s, i + 1, k);
    }
}

proof fn lemma_no_slash(s: Seq<char>, i: int)
    requires
        0 <= i <= s.len(),
        forall|j: int| i <= j < s.len() ==> s[j] != '/',
    ensures
        first_slash(s, i) == s.len(),
    decreases s.len() - i,
{
    if i < s.len() {
        lemma_no_slash(s, i + 1);
    }
}

fn part_is_safe(p: &str) -> (r: bool)
    ensures
        r == safe_part(p@),
{
    let n = p.unicode_len();
    if n == 0 || str_eq(p, ".") || str_eq(p, "..") {
        return false;
    }
    let mut i: usize = 0;
    while i < n
        invariant
            n == p@.len(),
            i <= n,
            forall|k: int| 0 <= k < i ==> p@[k] != '\\',
        decreases n - i,
    {
        if p.get_char(i) == '\\' {
            return false;
        }
        i = i + 1;
    }
    true
}

/// The parts of a session payload key, validated.
pub fn artifact_key_parts(key: &str) -> (r: Result<Vec<String>, StorageError>)
    ensures
        match r {
            Ok(parts) => artifact_key_ok(key@) && parts_view(parts@) == split_slash(key@),
            Err(e) => !artifact_key_ok(key@) && e is Validation,
        },
{
    let parts = split_parts(key);
    proof { assert(parts_view(parts@) =~= split_slash(key@)); }
    if parts.len() != 4 || !str_eq(parts[0].as_str(), "sessions") || !str_eq(parts[2].as_str(), "payloads")
        || !part_is_safe(parts[0].as_str()) || !part_is_safe(parts[1].as_str())
        || !part_is_safe(parts[2].as_str()) || !part_is_safe(parts[3].as_str()) {
        proof {
            if parts@.len() == 4 {
                assert(parts@[0]@ == split_slash(key@)[0]);
                assert(parts@[1]@ == split_slash(key@)[1]);
                assert(parts@[2]@ == split_slash(key@)[2]);
                assert(parts@[3]@ == split_slash(key@)[3]);
            }
        }
        return Err(StorageError::Validation(str_copy("invalid artifact key")));
    }
    proof {
        assert forall|i: int| 0 <= i < 4 implies safe_part(#[trigger] split_slash(key@)[i]) by {
            assert(parts@[i]@ == split_slash(key@)[i]);
        }
    }
    Ok(parts)
}

/// A finished session to publish, with the checkpoint it was published at,
/// its issues and replayability notes, and whether it is complete.
pub struct PublishSession {
    pub session: CanonicalSession,
    pub checkpoint: Option<String>,
    pub issues: Vec<String>,
    pub replayability: Vec<String>,
    pub complete: bool,
}

/// A published session as its manifest describes it: the session, its
/// checksum and schema version, the payloads externalized beside it, and
/// what was published with it.
pub struct StoredSessionInspection {
    pub session: CanonicalSession,
    pub session_checksum: String,
    pub canonical_schema_version: u16,
    pub payload_count: usize,
    pub payload_bytes: u64,
    pub checkpoint: Option<String>,
    pub issues: Vec<String>,
    pub replayability: Vec<String>,
    pub complete: bool,
}

/// The filesystem session store, rooted at a directory.
pub struct FilesystemSessionStore {
    root: String,
}

impl FilesystemSessionStore {
    pub closed spec fn spec_root(&self) -> Seq<char> {
        self.root@
    }

    pub fn new(root: &str) -> (s: Self)
        ensures
            s.spec_root() == root@,
    {
        FilesystemSessionStore { root: str_copy(root) }
    }

    pub fn root(&self) -> (r: &str)
        ensures
            r@ == self.spec_root(),
    {
        self.root.as_str()
    }
}

/// The filesystem recording store, rooted at a directory.
pub struct FilesystemRecordingStore {
    root: String,
}

impl FilesystemRecordingStore {
    pub closed spec fn spec_root(&self) -> Seq<char> {
        self.root@
    }

    pub fn new(root: &str) -> (s: Self)
        ensures
            s.spec_root() == root@,
    {
        FilesystemRecordingStore { root: str_copy(root) }
    }

    pub fn root(&self) -> (r: &str)
        ensures
            r@ == self.spec_root(),
    {
        self.root.as_str()
    }
}

} // verus!
