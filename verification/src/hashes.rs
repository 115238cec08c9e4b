//! Content hashing and the nominal 32-byte hash types.
//!
//! Every content-addressed value of this crate is hashed with BLAKE2b-256
//! over its canonical byte encoding. The digest choice is consensus-critical:
//! changing it forks the chain.

use vstd::prelude::*;

verus! {

broadcast use vstd::array::group_array_axioms;

/// A plain 32-byte digest.
pub type Hash256 = [u8; 32];

/// The BLAKE2b-256 digest of a byte sequence. The digest depends on the
/// bytes alone; its value is not stated here.
pub uninterp spec fn blake2b256_of(data: Seq<u8>) -> Hash256;

/// Relies on `blake2::Blake2b` with a 32-byte output size (through the
/// `digest` traits): the digest is a function of the input bytes alone.
#[verifier::external_body]
pub fn hash(data: &[u8]) -> (r: Hash256)
    ensures
        r == blake2b256_of(data@),
{
    let mut hasher = <blake2::Blake2b<digest::consts::U32> as digest::Digest>::new();
    digest::Digest::update(&mut hasher, data);
    digest::Digest::finalize(hasher).into()
}

/// Byte-for-byte equality of two 32-byte digests.
pub fn hash_eq(a: &Hash256, b: &Hash256) -> (r: bool)
    ensures
        r == (*a == *b),
{
    let mut i: usize = 0;
    while i < 32
        invariant
            0 <= i <= 32,
            forall|j: int| 0 <= j < i ==> a@[j] == b@[j],
        decreases 32 - i,
    {
        if a[i] != b[i] {
            assert(a@[i as int] != b@[i as int]);
            assert(*a != *b);
            return false;
        }
        i += 1;
    }
    assert(*a =~= *b);
    true
}

/// Hash of a block header; identifies a committed block.
#[derive(Clone, Copy, Debug, PartialEq, Eq, Hash)]
pub struct BlockHash(pub Hash256);

impl BlockHash {
    pub fn eq_hash(&self, other: &BlockHash) -> (r: bool)
        ensures
            r == (*self == *other),
    {
        hash_eq(&self.0, &other.0)
    }
}

/// Hash committing a block body; stable under alternative headers.
#[derive(Clone, Copy, Debug, PartialEq, Eq, Hash)]
pub struct MerkleRoot(pub Hash256);

impl MerkleRoot {
    pub fn eq_hash(&self, other: &MerkleRoot) -> (r: bool)
        ensures
            r == (*self == *other),
    {
        hash_eq(&self.0, &other.0)
    }
}

/// Hash of a transaction's signing image; identifies a transaction.
#[derive(Clone, Copy, Debug, PartialEq, Eq, Hash)]
pub struct Txid(pub Hash256);

impl Txid {
    /// The digest as a byte slice.
    pub fn as_slice(&self) -> (r: &[u8])
        ensures
            r@ == self.0@,
    {
        self.0.as_slice()
    }

    pub fn eq_hash(&self, other: &Txid) -> (r: bool)
        ensures
            r == (*self == *other),
    {
        hash_eq(&self.0, &other.0)
    }
}

} // verus!
