//! 256-bit hashes: SHA-256 digests compared big-endian against targets.
//!
//! The digest itself comes from an outside crate and is known to the
//! proofs only by the name [`sha256_of`]; everything around it — reading
//! the digest as a 256-bit integer, comparing it against a target, turning
//! it back into bytes — is verified.

use crate::bytes::{
    be_val, bytes_of, lemma_be_val_bound, lemma_bytes_of_be_val, lemma_pow256n_8, pow256n,
    push_be32, read_be32,
};
use crate::u256::{pow256, U256};
use vstd::prelude::*;

verus! {

/// The SHA-256 digest of a byte sequence. What the digest is on given
/// bytes is left unstated; it is a function of the input bytes alone.
pub uninterp spec fn sha256_of(input: Seq<u8>) -> Seq<u8>;

/// Relies on `sha2::Sha256::digest`: the SHA-256 digest, 32 bytes,
/// depending on the input bytes alone.
#[verifier::external_body]
fn sha256(input: &Vec<u8>) -> (r: Vec<u8>)
    ensures
        r@ == sha256_of(input@),
        r@.len() == 32,
{
    <sha2::Sha256 as sha2::Digest>::digest(input.as_slice()).to_vec()
}

/// The value of the SHA-256 digest of `input`, read as a big-endian
/// 256-bit integer.
pub open spec fn hash_bytes(input: Seq<u8>) -> nat {
    be_val(sha256_of(input))
}

/// A 256-bit hash, stored as the integer its 32 bytes spell big-endian.
#[derive(Debug, Clone, Copy, PartialEq, Eq, Structural)]
pub struct Hash {
    pub value: U256,
}

impl Hash {
    /// The hash as a mathematical integer.
    pub open spec fn as_nat(self) -> nat {
        self.value.as_nat()
    }

    /// The all-zero sentinel, the `prev_block_hash` of a genesis block.
    pub fn zero() -> (r: Hash)
        ensures
            r.as_nat() == 0,
    {
        Hash { value: U256::zero() }
    }

    /// SHA-256 over the given bytes.
    pub fn of_bytes(input: &Vec<u8>) -> (r: Hash)
        ensures
            r.as_nat() == hash_bytes(input@),
    {
        let digest = sha256(input);
        proof {
            assert(digest@.subrange(0, 32) =~= digest@);
        }
        Hash { value: read_be32(&digest, 0) }
    }

    /// Whether this hash meets a proof-of-work target: numerically at
    /// most the target.
    pub fn matches_target(&self, target: U256) -> (r: bool)
        ensures
            r == (self.as_nat() <= target.as_nat()),
    {
        self.value.le(&target)
    }

    /// Value equality of two hashes.
    pub fn hash_eq(&self, other: &Hash) -> (r: bool)
        ensures
            r == (self.as_nat() == other.as_nat()),
    {
        self.value.le(&other.value) && other.value.le(&self.value)
    }

    /// Whether this is the all-zero sentinel.
    pub fn is_zero(&self) -> (r: bool)
        ensures
            r == (self.as_nat() == 0),
    {
        self.value.le(&U256::zero())
    }

    /// The 32 big-endian bytes of the hash, the form that is signed.
    pub fn as_bytes(&self) -> (r: Vec<u8>)
        ensures
            r@ == bytes_of(self.as_nat(), 32),
            r@.len() == 32,
    {
        let mut out: Vec<u8> = Vec::new();
        push_be32(&mut out, &self.value);
        proof {
            crate::bytes::lemma_bytes_of_len(self.as_nat(), 32);
            assert(out@ =~= bytes_of(self.as_nat(), 32));
        }
        out
    }
}

} // verus!
