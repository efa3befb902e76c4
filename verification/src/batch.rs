//! Batch membership proofs for verifying multiple leaves at once.
//!
//! [`BatchProof`] stores one membership proof per requested leaf; a batch
//! is accepted when every proof names the same root and verifies against
//! its leaf hash.

use vstd::prelude::*;
use crate::hash;
use crate::hash::{HashStrategy, Sha256Hasher, hash_eq};
use crate::merkle_proof::{MerkleProof, fold_path, lemma_generated_proof_verifies};
use crate::tree::{MerkleTree, tree_levels};

verus! {

/// Every index names a leaf among the first `leaf_count`.
pub open spec fn indices_in_range(indices: Seq<usize>, leaf_count: nat) -> bool {
    forall|k: int| 0 <= k < indices.len() ==> #[trigger] indices[k] < leaf_count
}

/// The verdict on `proofs` for `leaf_hashes`: as many hashes as proofs,
/// every proof naming the first proof's root, and each proof verifying
/// against the hash at its position.
pub open spec fn batch_accepts<H: HashStrategy>(
    proofs: Seq<MerkleProof<H>>,
    leaf_hashes: Seq<hash::Hash>,
) -> bool {
    &&& leaf_hashes.len() == proofs.len()
    &&& forall|k: int|
        0 <= k < proofs.len() ==> {
            &&& (#[trigger] proofs[k]).root == proofs[0].root
            &&& fold_path::<H>(proofs[k].siblings@, leaf_hashes[k]) == proofs[k].root
        }
}

/// A batch is accepted only if every proof, the first included, names the
/// common root and rebuilds it from the hash at its position; and when it
/// is, there are exactly as many hashes as proofs.
pub proof fn lemma_accepted_batch_checks_every_proof<H: HashStrategy>(
    proofs: Seq<MerkleProof<H>>,
    leaf_hashes: Seq<hash::Hash>,
    k: int,
)
    requires
        batch_accepts::<H>(proofs, leaf_hashes),
        0 <= k < proofs.len(),
    ensures
        leaf_hashes.len() == proofs.len(),
        fold_path::<H>(proofs[k].siblings@, leaf_hashes[k]) == proofs[k].root,
        proofs[k].root == proofs[0].root,
{
}

/// Conversely, a batch in which every proof names the first proof's root
/// and rebuilds it from the hash at its position is accepted.
pub proof fn lemma_batch_of_verified_proofs_accepted<H: HashStrategy>(
    proofs: Seq<MerkleProof<H>>,
    leaf_hashes: Seq<hash::Hash>,
)
    requires
        leaf_hashes.len() == proofs.len(),
        forall|k: int|
            0 <= k < proofs.len() ==> fold_path::<H>(#[trigger] proofs[k].siblings@, leaf_hashes[k])
                == proofs[k].root && proofs[k].root == proofs[0].root,
    ensures
        batch_accepts::<H>(proofs, leaf_hashes),
{
    assert forall|k: int| 0 <= k < proofs.len() implies {
        &&& (#[trigger] proofs[k]).root == proofs[0].root
        &&& fold_path::<H>(proofs[k].siblings@, leaf_hashes[k]) == proofs[k].root
    } by {
        assert(fold_path::<H>(proofs[k].siblings@, leaf_hashes[k]) == proofs[k].root);
    }
}

/// The indices accepted for a batch are exactly those that all name a leaf,
/// in whatever order they come: the verdict is the same for any
/// rearrangement of the indices.
pub proof fn lemma_batch_indices_verdict(indices: Seq<usize>, other: Seq<usize>, leaf_count: nat)
    requires
        indices.to_multiset() == other.to_multiset(),
    ensures
        indices_in_range(indices, leaf_count) <==> (forall|k: int|
            0 <= k < indices.len() ==> #[trigger] indices[k] < leaf_count),
        indices_in_range(indices, leaf_count) <==> indices_in_range(other, leaf_count),
{
    lemma_in_range_follows_multiset(indices, other, leaf_count);
    lemma_in_range_follows_multiset(other, indices, leaf_count);
}

/// Indices all in range stay in range under any rearrangement.
proof fn lemma_in_range_follows_multiset(indices: Seq<usize>, other: Seq<usize>, leaf_count: nat)
    requires
        indices.to_multiset() == other.to_multiset(),
    ensures
        indices_in_range(indices, leaf_count) ==> indices_in_range(other, leaf_count),
{
    if indices_in_range(indices, leaf_count) {
        assert forall|k: int| 0 <= k < other.len() implies #[trigger] other[k] < leaf_count by {
            let x = other[k];
            vstd::seq_lib::to_multiset_contains::<usize>(other, x);
            vstd::seq_lib::to_multiset_contains::<usize>(indices, x);
            assert(other.contains(x));
            let i = choose|i: int| 0 <= i < indices.len() && indices[i] == x;
            assert(indices[i] < leaf_count);
        }
    }
}

/// A batch of proofs generated from the tree over `leaves` for some of its
/// leaves is accepted against the hashes of those leaves' data.
pub proof fn lemma_generated_batch_verifies<H: HashStrategy>(
    leaves: Seq<Seq<u8>>,
    indices: Seq<usize>,
    proofs: Seq<MerkleProof<H>>,
)
    requires
        indices.len() == proofs.len(),
        indices_in_range(indices, leaves.len()),
        forall|k: int|
            0 <= k < proofs.len() ==> (#[trigger] proofs[k]).proves(
                tree_levels::<H>(leaves),
                indices[k] as int,
            ),
    ensures
        batch_accepts::<H>(
            proofs,
            indices.map_values(|i: usize| H::spec_hash(leaves[i as int])),
        ),
{
    let hashes = indices.map_values(|i: usize| H::spec_hash(leaves[i as int]));
    assert forall|k: int| 0 <= k < proofs.len() implies {
        &&& (#[trigger] proofs[k]).root == proofs[0].root
        &&& fold_path::<H>(proofs[k].siblings@, hashes[k]) == proofs[k].root
    } by {
        assert(indices[k] < leaves.len());
        lemma_generated_proof_verifies::<H>(leaves, indices[k] as int);
        crate::tree::lemma_last_level_is_root::<H>(crate::tree::base_level::<H>(leaves));
        assert(proofs[0].proves(tree_levels::<H>(leaves), indices[0] as int));
    }
}

/// A batch of Merkle membership proofs sharing the same root.
#[derive(Debug)]
pub struct BatchProof<H: HashStrategy = Sha256Hasher> {
    /// One membership proof per requested leaf, in the order requested.
    pub proofs: Vec<MerkleProof<H>>,
}

impl<H: HashStrategy> Clone for BatchProof<H> {
    fn clone(&self) -> (copy: Self)
        ensures
            copy.proofs@.len() == self.proofs@.len(),
            forall|k: int|
                0 <= k < self.proofs@.len() ==> {
                    &&& (#[trigger] copy.proofs@[k]).leaf_index == self.proofs@[k].leaf_index
                    &&& copy.proofs@[k].siblings@ == self.proofs@[k].siblings@
                    &&& copy.proofs@[k].root == self.proofs@[k].root
                },
    {
        let mut proofs: Vec<MerkleProof<H>> = Vec::new();
        let mut k: usize = 0;
        while k < self.proofs.len()
            invariant
                k <= self.proofs@.len(),
                proofs@.len() == k,
                forall|i: int|
                    0 <= i < k ==> {
                        &&& (#[trigger] proofs@[i]).leaf_index == self.proofs@[i].leaf_index
                        &&& proofs@[i].siblings@ == self.proofs@[i].siblings@
                        &&& proofs@[i].root == self.proofs@[i].root
                    },
            decreases self.proofs@.len() - k,
        {
            proofs.push(self.proofs[k].clone());
            k = k + 1;
        }
        BatchProof { proofs }
    }
}

impl<H: HashStrategy> BatchProof<H> {
    /// Generate batch proofs for the given leaf indices; `None` when some
    /// index is not that of a leaf.
    pub fn generate(tree: &MerkleTree<H>, indices: &[usize]) -> (result: Option<Self>)
        requires
            tree.wf(),
        ensures
            result is Some <==> (forall|k: int|
                0 <= k < indices@.len() ==> #[trigger] indices@[k] < tree.leaf_count),
            result matches Some(batch) ==> {
                &&& batch.proofs@.len() == indices@.len()
                &&& forall|k: int|
                    0 <= k < indices@.len() ==> (#[trigger] batch.proofs@[k]).proves(
                        tree.levels_view(),
                        indices@[k] as int,
                    )
            },
    {
        let mut proofs: Vec<MerkleProof<H>> = Vec::new();
        let mut k: usize = 0;
        while k < indices.len()
            invariant
                tree.wf(),
                k <= indices@.len(),
                proofs@.len() == k,
                indices_in_range(indices@.take(k as int), tree.leaf_count as nat),
                forall|i: int|
                    0 <= i < k ==> (#[trigger] proofs@[i]).proves(
                        tree.levels_view(),
                        indices@[i] as int,
                    ),
            decreases indices@.len() - k,
        {
            match MerkleProof::generate(tree, indices[k]) {
                None => {
                    return None;
                },
                Some(p) => {
                    proofs.push(p);
                },
            }
            proof {
                assert forall|i: int| 0 <= i < k + 1 implies #[trigger] indices@.take(k + 1)[i]
                    < tree.leaf_count by {
                    if i < k {
                        assert(indices@.take(k as int)[i] == indices@[i]);
                    }
                }
            }
            k = k + 1;
        }
        assert(indices@.take(indices@.len() as int) =~= indices@);
        Some(BatchProof { proofs })
    }

    /// Verify all proofs against the given leaf hashes. An empty batch is
    /// accepted against no hashes: all of its zero proofs verify.
    pub fn verify(&self, leaf_hashes: &[hash::Hash]) -> (valid: bool)
        ensures
            valid == batch_accepts::<H>(self.proofs@, leaf_hashes@),
    {
        if leaf_hashes.len() != self.proofs.len() {
            return false;
        }
        if self.proofs.len() == 0 {
            return true;
        }
        let root = self.proofs[0].root;
        let mut k: usize = 0;
        while k < self.proofs.len()
            invariant
                k <= self.proofs@.len(),
                leaf_hashes@.len() == self.proofs@.len(),
                root == self.proofs@[0].root,
                forall|i: int|
                    0 <= i < k ==> {
                        &&& (#[trigger] self.proofs@[i]).root == self.proofs@[0].root
                        &&& fold_path::<H>(self.proofs@[i].siblings@, leaf_hashes@[i])
                            == self.proofs@[i].root
                    },
            decreases self.proofs@.len() - k,
        {
            let proof_k = &self.proofs[k];
            if !(hash_eq(&proof_k.root, &root) && proof_k.verify(&leaf_hashes[k])) {
                return false;
            }
            k = k + 1;
        }
        true
    }

    /// Number of proofs in this batch.
    pub fn len(&self) -> (count: usize)
        ensures
            count == self.proofs@.len(),
    {
        self.proofs.len()
    }

    /// Whether the batch is empty.
    pub fn is_empty(&self) -> (empty: bool)
        ensures
            empty == (self.proofs@.len() == 0),
    {
        self.proofs.len() == 0
    }
}

} // verus!
