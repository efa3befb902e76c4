//! Membership proof generation and verification for binary Merkle trees.
//!
//! A [`MerkleProof`] holds the sibling hashes needed to rebuild the root
//! from one leaf: folding the leaf hash with each sibling in turn, on the
//! side the sibling names, gives the root.

use vstd::prelude::*;
use core::marker::PhantomData;
use crate::hash;
use crate::hash::{HashStrategy, Sha256Hasher, hash_eq};
use crate::tree::{
    MerkleTree, base_level, lemma_last_level_is_root, lemma_levels_above_unfold, levels_above,
    node_hash, parent_level, root_of, tree_levels, tree_root, view_levels,
};

verus! {

/// Direction of a proof node relative to the path.
#[derive(Debug, Clone, Copy, PartialEq, Eq)]
pub enum ProofNode {
    /// Sibling is on the left.
    Left(hash::Hash),
    /// Sibling is on the right.
    Right(hash::Hash),
}

/// The sibling of the node at `pos` in `level`, on its side; the last node
/// of an odd level is its own right sibling.
pub open spec fn sibling_node(level: Seq<hash::Hash>, pos: int) -> ProofNode {
    if pos % 2 == 0 {
        if pos + 1 < level.len() {
            ProofNode::Right(level[pos + 1])
        } else {
            ProofNode::Right(level[pos])
        }
    } else {
        ProofNode::Left(level[pos - 1])
    }
}

/// The siblings met on the way from the node at `pos` of `levels[0]` up to
/// the last level.
pub open spec fn proof_path(levels: Seq<Seq<hash::Hash>>, pos: int) -> Seq<ProofNode>
    decreases levels.len(),
{
    if levels.len() <= 1 {
        seq![]
    } else {
        seq![sibling_node(levels[0], pos)] + proof_path(levels.drop_first(), pos / 2)
    }
}

/// The hash of the node above `current` and its sibling `node`.
pub open spec fn fold_step<H: HashStrategy>(node: ProofNode, current: hash::Hash) -> hash::Hash {
    match node {
        ProofNode::Left(h) => node_hash::<H>(h, current),
        ProofNode::Right(h) => node_hash::<H>(current, h),
    }
}

/// The root rebuilt from `current` with `siblings`, first to last.
pub open spec fn fold_path<H: HashStrategy>(siblings: Seq<ProofNode>, current: hash::Hash) -> hash::Hash
    decreases siblings.len(),
{
    if siblings.len() == 0 {
        current
    } else {
        fold_path::<H>(siblings.drop_first(), fold_step::<H>(siblings[0], current))
    }
}

/// A proof path holds one sibling per level but the last.
pub proof fn lemma_proof_path_len(levels: Seq<Seq<hash::Hash>>, pos: int)
    ensures
        proof_path(levels, pos).len() == if levels.len() == 0 {
            0
        } else {
            levels.len() - 1
        },
    decreases levels.len(),
{
    if levels.len() > 1 {
        lemma_proof_path_len(levels.drop_first(), pos / 2);
    }
}

/// Collects the siblings of the node at `leaf_index` in each level but the last.
pub(crate) fn path_siblings<H: HashStrategy>(
    levels: &Vec<Vec<hash::Hash>>,
    leaf_index: usize,
) -> (siblings: Vec<ProofNode>)
    requires
        levels@.len() >= 1,
        view_levels(levels@) == levels_above::<H>(levels@[0]@),
        leaf_index < levels@[0]@.len(),
    ensures
        siblings@ == proof_path(view_levels(levels@), leaf_index as int),
{
    let ghost all = view_levels(levels@);
    let n = levels.len();
    let mut siblings: Vec<ProofNode> = Vec::new();
    let mut idx = leaf_index;
    let mut j: usize = 0;
    assert(all.skip(0) =~= all);
    while j + 1 < n
        invariant
            n == levels@.len(),
            j < n,
            all == view_levels(levels@),
            all.skip(j as int) == levels_above::<H>(all[j as int]),
            idx < all[j as int].len(),
            siblings@ + proof_path(all.skip(j as int), idx as int) == proof_path(
                all,
                leaf_index as int,
            ),
        decreases n - j,
    {
        let level = &levels[j];
        let node = if idx % 2 == 0 {
            if idx + 1 < level.len() {
                ProofNode::Right(level[idx + 1])
            } else {
                ProofNode::Right(level[idx])
            }
        } else {
            ProofNode::Left(level[idx - 1])
        };
        proof {
            let rest = all.skip(j as int);
            lemma_levels_above_unfold::<H>(all[j as int]);
            assert(rest.drop_first() =~= all.skip(j + 1));
            assert(rest[1] == all[j + 1]);
            lemma_levels_above_unfold::<H>(all[j + 1]);
            assert(siblings@.push(node) + proof_path(all.skip(j + 1), (idx / 2) as int) =~= siblings@
                + proof_path(rest, idx as int));
        }
        siblings.push(node);
        idx = idx / 2;
        j = j + 1;
    }
    proof {
        lemma_levels_above_unfold::<H>(all[j as int]);
        assert(siblings@ + proof_path(all.skip(j as int), idx as int) =~= siblings@);
    }
    siblings
}

/// Folding a leaf's path from the bottom level rebuilds the root.
proof fn lemma_fold_path_reaches_root<H: HashStrategy>(level: Seq<hash::Hash>, pos: int)
    requires
        0 <= pos < level.len(),
    ensures
        fold_path::<H>(proof_path(levels_above::<H>(level), pos), level[pos]) == root_of::<H>(
            level,
        ),
    decreases level.len(),
{
    lemma_levels_above_unfold::<H>(level);
    if level.len() > 1 {
        let all = levels_above::<H>(level);
        let parent = parent_level::<H>(level);
        let path = proof_path(all, pos);
        let node = sibling_node(level, pos);
        assert(path[0] == node);
        assert(path.drop_first() =~= proof_path(levels_above::<H>(parent), pos / 2));
        assert(fold_step::<H>(node, level[pos]) == parent[pos / 2]);
        lemma_fold_path_reaches_root::<H>(parent, pos / 2);
    }
}

/// The proof path of any leaf of the tree over `leaves`, folded from that
/// leaf's hash, gives the tree's root: every membership proof made from a
/// tree verifies against the hash of the data at its index.
pub proof fn lemma_generated_proof_verifies<H: HashStrategy>(leaves: Seq<Seq<u8>>, index: int)
    requires
        0 <= index < leaves.len(),
    ensures
        fold_path::<H>(proof_path(tree_levels::<H>(leaves), index), H::spec_hash(leaves[index]))
            == tree_root::<H>(leaves),
{
    let base = base_level::<H>(leaves);
    assert(base[index] == H::spec_hash(leaves[index]));
    lemma_fold_path_reaches_root::<H>(base, index);
}

/// A Merkle membership proof.
#[derive(Debug)]
pub struct MerkleProof<H: HashStrategy = Sha256Hasher> {
    /// Index of the leaf.
    pub leaf_index: usize,
    /// Sibling hashes along the path.
    pub siblings: Vec<ProofNode>,
    /// The expected root hash.
    pub root: hash::Hash,
    /// Marks the hash strategy the proof is checked with.
    pub marker: PhantomData<H>,
}

impl<H: HashStrategy> Clone for MerkleProof<H> {
    fn clone(&self) -> (copy: Self)
        ensures
            copy.leaf_index == self.leaf_index,
            copy.siblings@ == self.siblings@,
            copy.root == self.root,
    {
        let mut siblings: Vec<ProofNode> = Vec::new();
        let mut k: usize = 0;
        while k < self.siblings.len()
            invariant
                k <= self.siblings@.len(),
                siblings@ =~= self.siblings@.take(k as int),
            decreases self.siblings@.len() - k,
        {
            siblings.push(self.siblings[k]);
            k = k + 1;
        }
        MerkleProof { leaf_index: self.leaf_index, siblings, root: self.root, marker: PhantomData }
    }
}

impl<H: HashStrategy> MerkleProof<H> {
    /// This proof is the one for the leaf at `leaf_index` of the tree whose
    /// levels are `levels`.
    pub open spec fn proves(&self, levels: Seq<Seq<hash::Hash>>, leaf_index: int) -> bool {
        &&& self.leaf_index == leaf_index
        &&& self.siblings@ == proof_path(levels, leaf_index)
        &&& self.root == levels.last()[0]
    }

    /// Assembles the proof of the leaf at `leaf_index` of a well-formed tree.
    pub(crate) fn from_tree(tree: &MerkleTree<H>, leaf_index: usize) -> (membership: Self)
        requires
            tree.wf(),
            leaf_index < tree.leaf_count,
        ensures
            membership.proves(tree.levels_view(), leaf_index as int),
    {
        let siblings = path_siblings::<H>(&tree.levels, leaf_index);
        proof {
            lemma_last_level_is_root::<H>(tree.levels@[0]@);
        }
        MerkleProof { leaf_index, siblings, root: tree.root(), marker: PhantomData }
    }

    /// Generate a membership proof for `leaf_index` in the given binary tree;
    /// `None` when the index is not that of a leaf.
    pub fn generate(tree: &MerkleTree<H>, leaf_index: usize) -> (result: Option<Self>)
        requires
            tree.wf(),
        ensures
            result is Some <==> leaf_index < tree.leaf_count,
            result matches Some(membership) ==> membership.proves(tree.levels_view(), leaf_index as int),
    {
        if leaf_index >= tree.leaf_count {
            return None;
        }
        Some(Self::from_tree(tree, leaf_index))
    }

    /// Verify the proof against a known leaf hash: the root rebuilt from it
    /// is the proof's root.
    pub fn verify(&self, leaf_hash: &hash::Hash) -> (valid: bool)
        ensures
            valid == (fold_path::<H>(self.siblings@, *leaf_hash) == self.root),
    {
        let computed = self.compute_root(leaf_hash);
        hash_eq(&computed, &self.root)
    }

    /// Verify the proof for leaf data against a given root: the root rebuilt
    /// from the data's hash is `root`.
    pub fn verify_data(&self, root: &hash::Hash, data: &[u8]) -> (valid: bool)
        ensures
            valid == (fold_path::<H>(self.siblings@, H::spec_hash(data@)) == *root),
    {
        let leaf_hash = H::hash(data);
        let computed = self.compute_root(&leaf_hash);
        hash_eq(&computed, root)
    }

    /// Compute the root from a leaf hash using this proof's siblings.
    pub fn compute_root(&self, leaf_hash: &hash::Hash) -> (root: hash::Hash)
        ensures
            root == fold_path::<H>(self.siblings@, *leaf_hash),
    {
        let mut current = *leaf_hash;
        let mut k: usize = 0;
        assert(self.siblings@.skip(0) =~= self.siblings@);
        while k < self.siblings.len()
            invariant
                k <= self.siblings@.len(),
                fold_path::<H>(self.siblings@, *leaf_hash) == fold_path::<H>(
                    self.siblings@.skip(k as int),
                    current,
                ),
            decreases self.siblings@.len() - k,
        {
            let ghost rest = self.siblings@.skip(k as int);
            let next = match &self.siblings[k] {
                ProofNode::Left(h) => H::hash_pair(h, &current),
                ProofNode::Right(h) => H::hash_pair(&current, h),
            };
            assert(rest.drop_first() =~= self.siblings@.skip(k + 1));
            current = next;
            k = k + 1;
        }
        current
    }
}

} // verus!
