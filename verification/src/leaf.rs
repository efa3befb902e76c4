//! Leaf node utilities.
//!
//! A [`Leaf`] carries the domain-separated hash of its data (SHA-256 of a
//! zero byte followed by the data) and its index in the tree.

use vstd::prelude::*;
use crate::hash;
use crate::hash::{HashStrategy, Sha256Hasher, sha256_digest};

verus! {

/// A leaf in the Merkle tree with its hash and index.
#[derive(Clone, Copy, Debug)]
pub struct Leaf {
    /// Hash of the leaf data.
    hash: hash::Hash,
    /// Index of this leaf in the tree.
    index: usize,
}

impl View for Leaf {
    type V = (hash::Hash, usize);

    /// The leaf's hash and index.
    closed spec fn view(&self) -> (hash::Hash, usize) {
        (self.hash, self.index)
    }
}

/// The hash of leaf data: SHA-256 of a zero byte followed by the data.
pub open spec fn leaf_data_hash(data: Seq<u8>) -> hash::Hash {
    sha256_digest(seq![0u8] + data)
}

impl Leaf {
    /// Create a new leaf from raw data.
    pub fn new(data: &[u8], index: usize) -> (leaf: Self)
        ensures
            leaf@ == (leaf_data_hash(data@), index),
    {
        let mut prefixed: Vec<u8> = Vec::new();
        prefixed.push(0u8);
        let mut k: usize = 0;
        while k < data.len()
            invariant
                k <= data@.len(),
                prefixed@ =~= seq![0u8] + data@.take(k as int),
            decreases data@.len() - k,
        {
            prefixed.push(data[k]);
            k = k + 1;
        }
        assert(data@.take(data@.len() as int) =~= data@);
        Leaf { hash: Sha256Hasher::hash(prefixed.as_slice()), index }
    }

    /// Create a leaf from an existing hash.
    pub fn from_hash(hash: hash::Hash, index: usize) -> (leaf: Self)
        ensures
            leaf@ == (hash, index),
    {
        Leaf { hash, index }
    }

    /// Get the leaf hash.
    pub fn hash(&self) -> (hash: &hash::Hash)
        ensures
            *hash == self@.0,
    {
        &self.hash
    }

    /// Get the leaf index.
    pub fn index(&self) -> (index: usize)
        ensures
            index == self@.1,
    {
        self.index
    }
}

} // verus!
