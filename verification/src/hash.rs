//! Hash strategies for Merkle trees.
//!
//! [`HashStrategy`] abstracts the digest used to build a tree; SHA-256 and
//! BLAKE3 are provided. Every strategy hashes a pair (or quadruple) of
//! digests as the hash of their concatenation.

use vstd::prelude::*;
use sha2::Digest;

verus! {

/// A 32-byte digest.
pub type Hash = [u8; 32];

/// The SHA-256 digest of a byte string, as the `sha2` crate computes it.
pub uninterp spec fn sha256_digest(data: Seq<u8>) -> Hash;

/// The BLAKE3 digest (32-byte default output) of a byte string, as the
/// `blake3` crate computes it.
pub uninterp spec fn blake3_digest(data: Seq<u8>) -> Hash;

/// Calls `sha2::Sha256` (`new`, `update`, `finalize`) on `data`.
/// Trusted: the 32 bytes returned are `sha256_digest` of the input; nothing
/// else about the digest is claimed.
#[verifier::external_body]
fn sha256_bytes(data: &[u8]) -> (out: Hash)
    ensures
        out == sha256_digest(data@),
{
    let mut hasher = sha2::Sha256::new();
    hasher.update(data);
    let result = hasher.finalize();
    let mut out = [0u8; 32];
    out.copy_from_slice(&result);
    out
}

/// Calls `blake3::Hasher` (`new`, `update`, `finalize`) on `data` and takes
/// the bytes of the resulting `blake3::Hash`.
/// Trusted: the 32 bytes returned are `blake3_digest` of the input; nothing
/// else about the digest is claimed.
#[verifier::external_body]
fn blake3_bytes(data: &[u8]) -> (out: Hash)
    ensures
        out == blake3_digest(data@),
{
    let mut hasher = blake3::Hasher::new();
    hasher.update(data);
    let result = hasher.finalize();
    *result.as_bytes()
}

/// Appends the 32 bytes of `h` to `buf`.
pub(crate) fn append_hash(buf: &mut Vec<u8>, h: &Hash)
    ensures
        final(buf)@ == old(buf)@ + h@,
{
    let ghost start = buf@;
    let mut i: usize = 0;
    while i < 32
        invariant
            0 <= i <= 32,
            buf@ == start + h@.take(i as int),
        decreases 32 - i,
    {
        buf.push(h[i]);
        i = i + 1;
        assert(h@.take(i as int) =~= h@.take(i - 1) + seq![h@[i - 1]]);
    }
    assert(h@.take(32) =~= h@);
}

/// Compares two digests byte by byte.
pub(crate) fn hash_eq(a: &Hash, b: &Hash) -> (equal: bool)
    ensures
        equal == (*a == *b),
{
    broadcast use vstd::array::group_array_axioms;
    let mut i: usize = 0;
    while i < 32
        invariant
            0 <= i <= 32,
            forall|k: int| 0 <= k < i ==> a[k] == b[k],
        decreases 32 - i,
    {
        if a[i] != b[i] {
            assert(a@[i as int] != b@[i as int]);
            return false;
        }
        i = i + 1;
    }
    assert(*a =~= *b);
    true
}

/// A strategy for hashing data in a Merkle tree.
///
/// `spec_hash` is the function the strategy computes; `hash_pair` and
/// `hash_quad` hash the concatenation of their arguments with it.
pub trait HashStrategy: Clone + Default + Send + Sync + Sized {
    /// The digest this strategy computes for a byte string.
    spec fn spec_hash(data: Seq<u8>) -> Hash;

    /// Hash a single slice of data.
    fn hash(data: &[u8]) -> (out: Hash)
        ensures
            out == Self::spec_hash(data@),
    ;

    /// Hash two digests together: the hash of `a` followed by `b`.
    fn hash_pair(a: &Hash, b: &Hash) -> (out: Hash)
        ensures
            out == Self::spec_hash(a@ + b@),
    {
        let mut combined: Vec<u8> = Vec::new();
        append_hash(&mut combined, a);
        append_hash(&mut combined, b);
        Self::hash(combined.as_slice())
    }

    /// Hash four digests together (for quad trees): the hash of their
    /// concatenation in order.
    fn hash_quad(a: &Hash, b: &Hash, c: &Hash, d: &Hash) -> (out: Hash)
        ensures
            out == Self::spec_hash(a@ + b@ + c@ + d@),
    {
        let mut combined: Vec<u8> = Vec::new();
        append_hash(&mut combined, a);
        append_hash(&mut combined, b);
        append_hash(&mut combined, c);
        append_hash(&mut combined, d);
        Self::hash(combined.as_slice())
    }
}

/// SHA-256 hash strategy.
#[derive(Clone, Copy, Default, Debug)]
pub struct Sha256Hasher;

impl HashStrategy for Sha256Hasher {
    open spec fn spec_hash(data: Seq<u8>) -> Hash {
        sha256_digest(data)
    }

    fn hash(data: &[u8]) -> (out: Hash) {
        sha256_bytes(data)
    }
}

/// BLAKE3 hash strategy.
#[derive(Clone, Copy, Default, Debug)]
pub struct Blake3Hasher;

impl HashStrategy for Blake3Hasher {
    open spec fn spec_hash(data: Seq<u8>) -> Hash {
        blake3_digest(data)
    }

    fn hash(data: &[u8]) -> (out: Hash) {
        blake3_bytes(data)
    }
}

/// The SHA-256 strategy computes the SHA-256 digest of the whole input,
/// whatever its length; so `hash_pair` and `hash_quad` give the digest of
/// the full concatenation.
pub proof fn lemma_sha256_strategy_digests_whole_input(data: Seq<u8>)
    ensures
        Sha256Hasher::spec_hash(data) == sha256_digest(data),
{
}

/// The BLAKE3 strategy computes the BLAKE3 digest of the whole input,
/// whatever its length; so `hash_pair` and `hash_quad` give the digest of
/// the full concatenation.
pub proof fn lemma_blake3_strategy_digests_whole_input(data: Seq<u8>)
    ensures
        Blake3Hasher::spec_hash(data) == blake3_digest(data),
{
}

} // verus!
