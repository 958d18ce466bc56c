//! Moving bytes between slices, fixed-size fields and little-endian integers.

use vstd::prelude::*;
use vstd::bytes::{spec_u16_from_le_bytes, spec_u16_to_le_bytes, spec_u64_from_le_bytes,
    spec_u64_to_le_bytes, u16_from_le_bytes, u16_to_le_bytes, u64_from_le_bytes, u64_to_le_bytes,
    lemma_auto_spec_u16_to_from_le_bytes, lemma_auto_spec_u64_to_from_le_bytes};

verus! {

/// The `N` bytes of `bytes` that start at `start`, as a field of their own.
pub(crate) fn take<const N: usize>(bytes: &[u8], start: usize) -> (field: [u8; N])
    requires
        start + N <= bytes@.len(),
    ensures
        field@ == bytes@.subrange(start as int, start + N),
{
    let len = bytes.len();
    let mut field = [0u8; N];
    let mut i: usize = 0;
    while i < N
        invariant
            i <= N,
            len == bytes@.len(),
            start + N <= len,
            forall|k: int| 0 <= k < i ==> field@[k] == bytes@[start + k],
        decreases N - i,
    {
        field[i] = bytes[start + i];
        i += 1;
    }
    assert(field@ =~= bytes@.subrange(start as int, start + N));
    field
}

/// The integer that eight little-endian bytes hold.
pub(crate) fn u64_of(field: &[u8; 8]) -> (value: u64)
    ensures
        value == spec_u64_from_le_bytes(field@),
{
    u64_from_le_bytes(field.as_slice())
}

/// The eight little-endian bytes of an integer.
pub(crate) fn u64_field(value: u64) -> (field: [u8; 8])
    ensures
        field@ == spec_u64_to_le_bytes(value),
        spec_u64_from_le_bytes(field@) == value,
{
    proof {
        lemma_auto_spec_u64_to_from_le_bytes();
    }
    let bytes = u64_to_le_bytes(value);
    take::<8>(bytes.as_slice(), 0)
}

/// The integer that two little-endian bytes hold.
pub(crate) fn u16_of(field: &[u8; 2]) -> (value: u16)
    ensures
        value == spec_u16_from_le_bytes(field@),
{
    u16_from_le_bytes(field.as_slice())
}

/// The two little-endian bytes of an integer.
pub(crate) fn u16_field(value: u16) -> (field: [u8; 2])
    ensures
        field@ == spec_u16_to_le_bytes(value),
        spec_u16_from_le_bytes(field@) == value,
{
    proof {
        lemma_auto_spec_u16_to_from_le_bytes();
    }
    let bytes = u16_to_le_bytes(value);
    take::<2>(bytes.as_slice(), 0)
}

/// Whether two byte strings are the same.
pub(crate) fn same_bytes(left: &[u8], right: &[u8]) -> (same: bool)
    ensures
        same == (left@ == right@),
{
    let len = left.len();
    if len != right.len() {
        return false;
    }
    let mut i: usize = 0;
    while i < len
        invariant
            i <= len,
            len == left@.len(),
            len == right@.len(),
            forall|k: int| 0 <= k < i ==> left@[k] == right@[k],
        decreases len - i,
    {
        if left[i] != right[i] {
            return false;
        }
        i += 1;
    }
    assert(left@ =~= right@);
    true
}

} // verus!
