//! Immutable canonical delta batches: the operations published for a range
//! of WAL markers, in operation order, with a checksum over their unsigned
//! encoding.
use vstd::prelude::*;
use crate::canonical::CanonicalOperation;
use crate::digest::{digest_hex, digest_spec, is_digest_chars, is_hex_char};
use crate::publication::DeltaBatchError;

verus! {

pub const CANONICAL_DELTA_SCHEMA_VERSION: u16 = 1;
pub const MAX_DELTA_OPERATIONS: usize = 4096;

/// The operations published for markers `first_marker_sequence` through
/// `last_marker_sequence`, ordered by sequence and identifier, with the
/// hexadecimal SHA-256 checksum of the batch's encoding without checksum.
pub struct CanonicalDeltaBatchV1 {
    pub version: u16,
    pub first_marker_sequence: u64,
    pub last_marker_sequence: u64,
    pub operations: Vec<CanonicalOperation>,
    pub checksum: String,
}

/// `a` comes no later than `b` in batch order: by sequence, then identifier.
pub open spec fn op_le(a: CanonicalOperation, b: CanonicalOperation) -> bool {
    a.sequence < b.sequence || (a.sequence == b.sequence && a.id <= b.id)
}

/// Operations in batch order.
pub open spec fn ops_ordered(s: Seq<CanonicalOperation>) -> bool {
    forall|i: int, j: int| 0 <= i < j < s.len() ==> op_le(#[trigger] s[i], #[trigger] s[j])
}

/// A neighbouring pair out of batch order, which `validate` reports.
pub open spec fn has_unordered_pair(s: Seq<CanonicalOperation>) -> bool {
    exists|i: int| 0 <= i && i + 1 < s.len() && !op_le(#[trigger] s[i], s[i + 1])
}

/// The bounds a batch must keep.
pub open spec fn batch_bounds_ok(first: u64, last: u64, count: nat) -> bool {
    first <= last && count <= MAX_DELTA_OPERATIONS
}

/// What validation finds for a batch whose encoding without checksum is
/// `unsigned`: the schema, the marker range, the size and the checksum's
/// form, then the operation order, then the checksum itself.
pub open spec fn batch_validation(b: CanonicalDeltaBatchV1, unsigned: Seq<u8>) -> Result<(), DeltaBatchError> {
    if b.version != CANONICAL_DELTA_SCHEMA_VERSION || !batch_bounds_ok(b.first_marker_sequence, b.last_marker_sequence, b.operations@.len())
        || !is_digest_chars(b.checksum@) {
        Err(DeltaBatchError::Invalid)
    } else if has_unordered_pair(b.operations@) {
        Err(DeltaBatchError::Unordered)
    } else if digest_spec(unsigned) != b.checksum@ {
        Err(DeltaBatchError::ChecksumMismatch)
    } else {
        Ok(())
    }
}

fn op_before(a: &CanonicalOperation, b: &CanonicalOperation) -> (r: bool)
    ensures
        r == !op_le(*b, *a),
{
    a.sequence < b.sequence || (a.sequence == b.sequence && a.id < b.id)
}

/// The operations in batch order; operations with equal sequence and
/// identifier keep their order.
fn sort_operations(operations: Vec<CanonicalOperation>) -> (r: Vec<CanonicalOperation>)
    ensures
        r@.to_multiset() == operations@.to_multiset(),
        ops_ordered(r@),
{
    broadcast use vstd::seq_lib::group_to_multiset_ensures;
    let ghost all = operations@;
    let n = operations.len();
    let mut rest = operations;
    let mut out: Vec<CanonicalOperation> = Vec::new();
    let mut i: usize = 0;
    proof {
        assert(all.take(0) =~= Seq::<CanonicalOperation>::empty());
        assert(all.skip(0) =~= all);
    }
    while rest.len() > 0
        invariant
            i + rest@.len() == all.len(),
            all.len() == n,
            rest@ == all.skip(i as int),
            out@.to_multiset() == all.take(i as int).to_multiset(),
            ops_ordered(out@),
        decreases rest.len(),
    {
        let x = rest.remove(0);
        proof {
            assert(x == all[i as int]);
            assert(rest@ =~= all.skip(i + 1));
        }
        let mut pos: usize = 0;
        while pos < out.len() && !op_before(&x, &out[pos])
            invariant
                pos <= out@.len(),
                forall|k: int| 0 <= k < pos ==> op_le(#[trigger] out@[k], x),
            decreases out.len() - pos,
        {
            pos = pos + 1;
        }
        let ghost before = out@;
        out.insert(pos, x);
        proof {
            assert(out@ == before.insert(pos as int, x));
            vstd::seq_lib::to_multiset_insert(before, pos as int, x);
            vstd::seq_lib::to_multiset_build(all.take(i as int), x);
            assert forall|a: int, b: int| 0 <= a < b < out@.len() implies op_le(#[trigger] out@[a], #[trigger] out@[b]) by {
                if b < pos {
                    assert(out@[a] == before[a] && out@[b] == before[b]);
                } else if b == pos {
                    assert(out@[a] == before[a]);
                } else if a == pos {
                    assert(out@[b] == before[b - 1]);
                    assert(!op_le(before[pos as int], x));
                    assert(op_le(before[pos as int], before[b - 1]) || pos as int == b - 1);
                } else if a < pos {
                    assert(out@[a] == before[a] && out@[b] == before[b - 1]);
                } else {
                    assert(out@[a] == before[a - 1] && out@[b] == before[b - 1]);
                }
            }
            assert(all.take(i + 1) =~= all.take(i as int).push(x));
        }
        i = i + 1;
    }
    proof {
        assert(all.take(i as int) =~= all);
    }
    out
}

impl CanonicalDeltaBatchV1 {
    /// The unsigned batch of `operations` for markers `first` through
    /// `last`, in batch order; its checksum is set by `sign`. Refused when
    /// the range is inverted or there are more than 4096 operations.
    pub fn new(first_marker_sequence: u64, last_marker_sequence: u64, operations: Vec<CanonicalOperation>)
        -> (r: Result<Self, DeltaBatchError>)
        ensures
            !batch_bounds_ok(first_marker_sequence, last_marker_sequence, operations@.len())
                ==> r == Err::<Self, DeltaBatchError>(DeltaBatchError::Invalid),
            batch_bounds_ok(first_marker_sequence, last_marker_sequence, operations@.len()) ==> (r matches Ok(b) && {
                &&& b.version == CANONICAL_DELTA_SCHEMA_VERSION
                &&& b.first_marker_sequence == first_marker_sequence
                &&& b.last_marker_sequence == last_marker_sequence
                &&& b.operations@.to_multiset() == operations@.to_multiset()
                &&& ops_ordered(b.operations@)
                &&& b.checksum@ == Seq::<char>::empty()
            }),
    {
        if first_marker_sequence > last_marker_sequence || operations.len() > MAX_DELTA_OPERATIONS {
            return Err(DeltaBatchError::Invalid);
        }
        let operations = sort_operations(operations);
        let checksum = String::new();
        Ok(CanonicalDeltaBatchV1 {
            version: CANONICAL_DELTA_SCHEMA_VERSION,
            first_marker_sequence,
            last_marker_sequence,
            operations,
            checksum,
        })
    }

    /// Sets the checksum from the batch's encoding without checksum.
    pub fn sign(&mut self, unsigned: &[u8])
        ensures
            final(self).checksum@ == digest_spec(unsigned@),
            is_digest_chars(final(self).checksum@),
            final(self).version == old(self).version,
            final(self).first_marker_sequence == old(self).first_marker_sequence,
            final(self).last_marker_sequence == old(self).last_marker_sequence,
            final(self).operations == old(self).operations,
    {
        self.checksum = digest_hex(unsigned);
    }

    /// Validates the batch against its encoding without checksum.
    #[verifier::loop_isolation(false)]
    pub fn validate(&self, unsigned: &[u8]) -> (r: Result<(), DeltaBatchError>)
        ensures
            r == batch_validation(*self, unsigned@),
    {
        if self.version != CANONICAL_DELTA_SCHEMA_VERSION || self.first_marker_sequence > self.last_marker_sequence
            || self.operations.len() > MAX_DELTA_OPERATIONS || !digest_chars(self.checksum.as_str()) {
            return Err(DeltaBatchError::Invalid);
        }
        let mut i: usize = 0;
        while i + 1 < self.operations.len()
            invariant
                i <= self.operations@.len(),
                forall|k: int| 0 <= k < i && k + 1 < self.operations@.len() ==> op_le(#[trigger] self.operations@[k], self.operations@[k + 1]),
            decreases self.operations.len() - i,
        {
            if op_before(&self.operations[i + 1], &self.operations[i]) {
                assert(!op_le(self.operations@[i as int], self.operations@[i + 1]));
                return Err(DeltaBatchError::Unordered);
            }
            i = i + 1;
        }
        proof {
            if has_unordered_pair(self.operations@) {
                let k = choose|k: int| 0 <= k && k + 1 < self.operations@.len() && !op_le(#[trigger] self.operations@[k], self.operations@[k + 1]);
                assert(op_le(self.operations@[k], self.operations@[k + 1]));
            }
        }
        let expected = digest_hex(unsigned);
        if !crate::text::str_eq(expected.as_str(), self.checksum.as_str()) {
            return Err(DeltaBatchError::ChecksumMismatch);
        }
        Ok(())
    }
}

/// Whether `s` is 64 hexadecimal digits.
fn digest_chars(s: &str) -> (r: bool)
    ensures
        r == is_digest_chars(s@),
{
    let n = s.unicode_len();
    if n != 64 {
        return false;
    }
    let mut i: usize = 0;
    while i < n
        invariant
            n == s@.len(),
            i <= n,
            forall|k: int| 0 <= k < i ==> is_hex_char(#[trigger] s@[k]),
        decreases n - i,
    {
        let c = s.get_char(i);
        if !(('0' <= c && c <= '9') || ('a' <= c && c <= 'f') || ('A' <= c && c <= 'F')) {
            return false;
        }
        i = i + 1;
    }
    true
}

} // verus!
