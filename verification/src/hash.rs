//! BLAKE3 digests, one-shot and streaming.
//!
//! The digest itself is computed by the `blake3` crate. This module names its
//! result and states, without proof, how the crate's incremental hasher
//! relates to that name. Everything else in the library is proved on top.

use vstd::prelude::*;

verus! {

/// Number of bytes in a digest.
pub const HASH_LEN: usize = 32;

/// A BLAKE3 digest.
pub type Digest = [u8; 32];

/// The BLAKE3 digest of `input`: what `blake3::Hasher::finalize` returns
/// once a new hasher has absorbed `input`, in one piece or in several.
pub uninterp spec fn blake3_digest(input: Seq<u8>) -> [u8; 32];

/// The bytes that a hasher has absorbed since it was made.
pub uninterp spec fn hasher_input(hasher: &blake3::Hasher) -> Seq<u8>;

/// `blake3::Hasher`, the incremental hash state. Its fields stay hidden.
#[verifier::external_type_specification]
#[verifier::external_body]
pub struct ExHasher(blake3::Hasher);

/// `blake3::Hasher::new`: a hasher for the regular hash function that has
/// absorbed nothing yet.
#[verifier::external_body]
pub(crate) fn hasher_new() -> (hasher: blake3::Hasher)
    ensures
        hasher_input(&hasher) == Seq::<u8>::empty(),
{
    blake3::Hasher::new()
}

/// `blake3::Hasher::update_with_join` with `blake3::join::RayonJoin`: appends
/// `input` to what the hasher has absorbed. The join only spreads the work
/// over threads.
#[verifier::external_body]
pub(crate) fn hasher_update(hasher: &mut blake3::Hasher, input: &[u8])
    ensures
        hasher_input(final(hasher)) == hasher_input(old(hasher)) + input@,
{
    hasher.update_with_join::<blake3::join::RayonJoin>(input);
}

/// `blake3::Hasher::finalize`: the digest of everything absorbed so far. The
/// hasher is left as it was.
#[verifier::external_body]
pub(crate) fn hasher_finalize(hasher: &blake3::Hasher) -> (digest: Digest)
    ensures
        digest == blake3_digest(hasher_input(hasher)),
{
    hasher.finalize().into()
}

/// `blake3::Hash::eq`, the constant-time comparison of two digests: true
/// exactly when all 32 bytes agree.
#[verifier::external_body]
pub(crate) fn hash_eq(left: &Digest, right: &Digest) -> (same: bool)
    ensures
        same == (left@ == right@),
{
    blake3::Hash::from(*left) == blake3::Hash::from(*right)
}

/// The BLAKE3 digest of `data`.
pub fn hash(data: &[u8]) -> (digest: Digest)
    ensures
        digest == blake3_digest(data@),
{
    let mut hasher = hasher_new();
    hasher_update(&mut hasher, data);
    assert(Seq::<u8>::empty() + data@ =~= data@);
    hasher_finalize(&hasher)
}

} // verus!
