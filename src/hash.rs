//! The two hashing primitives: the digest of one leaf and the digest of a pair
//! of hashes.
use sha3::{Digest, Sha3_256};
use vstd::prelude::*;

verus! {

/// A 32-byte SHA3-256 digest.
pub type NodeHash = [u8; 32];

/// The SHA3-256 digest of a byte sequence.
pub uninterp spec fn sha3_256_of(data: Seq<u8>) -> Seq<u8>;

/// The hash that a leaf value contributes to the bottom layer.
pub open spec fn leaf_digest(value: Seq<u8>) -> Seq<u8> {
    sha3_256_of(value)
}

/// The hash of a parent node: the digest of the left child's bytes followed
/// by the right child's bytes.
pub open spec fn pair_digest(left: Seq<u8>, right: Seq<u8>) -> Seq<u8> {
    sha3_256_of(left + right)
}

/// Relies on sha3's `Sha3_256` (`new`, `update`, `finalize`): the digest of
/// the bytes fed in, which depends on those bytes alone.
#[verifier::external_body]
pub(crate) fn hash_one(value: &[u8]) -> (r: NodeHash)
    ensures
        r@ == sha3_256_of(value@),
{
    let mut hasher = Sha3_256::new();
    hasher.update(value);
    hasher.finalize().into()
}

/// The digest of `left` followed by `right`, fed to the hash as one input.
pub fn hash_pair(left: &NodeHash, right: &NodeHash) -> (r: NodeHash)
    ensures
        r@ == pair_digest(left@, right@),
{
    let mut bytes: Vec<u8> = Vec::new();
    let mut i: usize = 0;
    while i < 32
        invariant
            i <= 32,
            bytes@ == left@.take(i as int),
        decreases 32 - i,
    {
        bytes.push(left[i]);
        i = i + 1;
    }
    let mut j: usize = 0;
    while j < 32
        invariant
            j <= 32,
            bytes@ == left@ + right@.take(j as int),
        decreases 32 - j,
    {
        bytes.push(right[j]);
        j = j + 1;
    }
    proof {
        assert(left@.take(32) =~= left@);
        assert(right@.take(32) =~= right@);
    }
    hash_one(bytes.as_slice())
}

} // verus!
