//! Merkle tree construction.
//!
//! A tree is stored level by level: `levels[0]` holds the leaf hashes and
//! every further level holds the hashes of adjacent pairs of the level
//! below; when a level has an odd number of nodes, the last one is paired
//! with itself. The last level holds the root alone.

use vstd::prelude::*;
use core::marker::PhantomData;
use crate::hash;
use crate::hash::{HashStrategy, Sha256Hasher};
use crate::merkle_proof::MerkleProof;

verus! {

/// The hash of the node above `left` and `right`.
pub open spec fn node_hash<H: HashStrategy>(left: hash::Hash, right: hash::Hash) -> hash::Hash {
    H::spec_hash(left@ + right@)
}

/// The right partner of the node at `2 * i` in `level`: the next node, or
/// the node itself when it is the last one.
pub open spec fn pair_right(level: Seq<hash::Hash>, i: int) -> hash::Hash {
    if 2 * i + 1 < level.len() {
        level[2 * i + 1]
    } else {
        level[2 * i]
    }
}

/// The level above `level`: one node for each adjacent pair.
pub open spec fn parent_level<H: HashStrategy>(level: Seq<hash::Hash>) -> Seq<hash::Hash> {
    Seq::new(
        ((level.len() + 1) / 2) as nat,
        |i: int| node_hash::<H>(level[2 * i], pair_right(level, i)),
    )
}

/// All levels of the tree whose lowest level is `level`, from `level` up to
/// the first level with at most one node.
pub open spec fn levels_above<H: HashStrategy>(level: Seq<hash::Hash>) -> Seq<Seq<hash::Hash>>
    decreases level.len(),
{
    if level.len() <= 1 {
        seq![level]
    } else {
        seq![level] + levels_above::<H>(parent_level::<H>(level))
    }
}

/// The root of the tree whose lowest level is `level`.
pub open spec fn root_of<H: HashStrategy>(level: Seq<hash::Hash>) -> hash::Hash
    decreases level.len(),
{
    if level.len() <= 1 {
        level[0]
    } else {
        root_of::<H>(parent_level::<H>(level))
    }
}

/// The all-zero digest, the single node of the tree over no leaves.
pub open spec fn zero_hash() -> hash::Hash {
    vstd::array::spec_array_fill_for_copy_type::<u8, 32>(0u8)
}

/// The leaf level of a tree over `leaves`: the hash of each datum.
pub open spec fn leaf_level<H: HashStrategy>(leaves: Seq<Seq<u8>>) -> Seq<hash::Hash> {
    leaves.map_values(|data: Seq<u8>| H::spec_hash(data))
}

/// The lowest level of the tree over `leaves`; over no leaves it is the
/// zero digest alone.
pub open spec fn base_level<H: HashStrategy>(leaves: Seq<Seq<u8>>) -> Seq<hash::Hash> {
    if leaves.len() == 0 {
        seq![zero_hash()]
    } else {
        leaf_level::<H>(leaves)
    }
}

/// All levels of the tree over `leaves`.
pub open spec fn tree_levels<H: HashStrategy>(leaves: Seq<Seq<u8>>) -> Seq<Seq<hash::Hash>> {
    levels_above::<H>(base_level::<H>(leaves))
}

/// The root of the tree over `leaves`.
pub open spec fn tree_root<H: HashStrategy>(leaves: Seq<Seq<u8>>) -> hash::Hash {
    root_of::<H>(base_level::<H>(leaves))
}

/// The byte strings that a slice of slices holds.
pub open spec fn data_view(leaves: Seq<&[u8]>) -> Seq<Seq<u8>> {
    leaves.map_values(|d: &[u8]| d@)
}

/// The levels that a vector of levels holds.
pub open spec fn view_levels(levels: Seq<Vec<hash::Hash>>) -> Seq<Seq<hash::Hash>> {
    levels.map_values(|l: Vec<hash::Hash>| l@)
}

/// The first level of `levels_above(level)` is `level`, and there are
/// further levels exactly when `level` has more than one node.
pub proof fn lemma_levels_above_unfold<H: HashStrategy>(level: Seq<hash::Hash>)
    ensures
        levels_above::<H>(level).len() >= 1,
        levels_above::<H>(level)[0] == level,
        levels_above::<H>(level).len() == 1 <==> level.len() <= 1,
        level.len() > 1 ==> levels_above::<H>(level).drop_first() == levels_above::<H>(
            parent_level::<H>(level),
        ),
{
    if level.len() > 1 {
        assert(levels_above::<H>(level).drop_first() =~= levels_above::<H>(
            parent_level::<H>(level),
        ));
    }
}

/// The last level of `levels_above(level)` holds exactly the root.
pub proof fn lemma_last_level_is_root<H: HashStrategy>(level: Seq<hash::Hash>)
    requires
        level.len() >= 1,
    ensures
        levels_above::<H>(level).last().len() == 1,
        levels_above::<H>(level).last()[0] == root_of::<H>(level),
    decreases level.len(),
{
    if level.len() > 1 {
        let p = parent_level::<H>(level);
        lemma_last_level_is_root::<H>(p);
        lemma_levels_above_unfold::<H>(p);
    }
}

/// Each level of `levels_above(level)` but the first is the parent level
/// of the one below it.
proof fn lemma_level_step<H: HashStrategy>(level: Seq<hash::Hash>, k: int)
    requires
        0 <= k < levels_above::<H>(level).len() - 1,
    ensures
        levels_above::<H>(level)[k + 1] == parent_level::<H>(levels_above::<H>(level)[k]),
    decreases level.len(),
{
    lemma_levels_above_unfold::<H>(level);
    let parent = parent_level::<H>(level);
    lemma_levels_above_unfold::<H>(parent);
    if k > 0 {
        assert(levels_above::<H>(level)[k + 1] == levels_above::<H>(parent)[k]);
        assert(levels_above::<H>(level)[k] == levels_above::<H>(parent)[k - 1]);
        lemma_level_step::<H>(parent, k - 1);
    }
}

/// In every tree, each level above the lowest has one node per pair of
/// nodes below it, and node `j` is the hash of node `2 * j` followed by
/// node `2 * j + 1`, or by node `2 * j` itself when that is the last node
/// of an odd level; the last level holds a single node.
pub proof fn lemma_levels_pair_nodes<H: HashStrategy>(level: Seq<hash::Hash>, k: int, j: int)
    requires
        level.len() >= 1,
        0 <= k < levels_above::<H>(level).len() - 1,
        0 <= j < levels_above::<H>(level)[k + 1].len(),
    ensures
        levels_above::<H>(level)[0] == level,
        levels_above::<H>(level).last().len() == 1,
        levels_above::<H>(level)[k].len() >= 2,
        levels_above::<H>(level)[k + 1].len() == (levels_above::<H>(level)[k].len() + 1) / 2,
        ({
            let below = levels_above::<H>(level)[k];
            let right = if 2 * j + 1 < below.len() {
                2 * j + 1
            } else {
                below.len() - 1
            };
            &&& 2 * j < below.len()
            &&& right == 2 * j || right == 2 * j + 1
            &&& levels_above::<H>(level)[k + 1][j] == H::spec_hash(below[2 * j]@ + below[right]@)
        }),
{
    lemma_levels_above_unfold::<H>(level);
    lemma_last_level_is_root::<H>(level);
    lemma_level_step::<H>(level, k);
    lemma_levels_length_above_one::<H>(level, k);
}

/// Every level of `levels_above(level)` but the last has at least two nodes.
proof fn lemma_levels_length_above_one<H: HashStrategy>(level: Seq<hash::Hash>, k: int)
    requires
        0 <= k < levels_above::<H>(level).len() - 1,
    ensures
        levels_above::<H>(level)[k].len() >= 2,
    decreases level.len(),
{
    lemma_levels_above_unfold::<H>(level);
    if k > 0 {
        let parent = parent_level::<H>(level);
        assert(levels_above::<H>(level)[k] == levels_above::<H>(parent)[k - 1]);
        lemma_levels_length_above_one::<H>(parent, k - 1);
    }
}

/// The lowest level of the tree over nonempty `leaves` holds the hash of
/// each datum, in order.
pub proof fn lemma_leaf_level_hashes_data<H: HashStrategy>(leaves: Seq<Seq<u8>>, i: int)
    requires
        0 <= i < leaves.len(),
    ensures
        tree_levels::<H>(leaves)[0].len() == leaves.len(),
        tree_levels::<H>(leaves)[0][i] == H::spec_hash(leaves[i]),
{
    lemma_levels_above_unfold::<H>(base_level::<H>(leaves));
}

/// Builds the level above `current`.
pub(crate) fn next_level<H: HashStrategy>(current: &Vec<hash::Hash>) -> (next: Vec<hash::Hash>)
    ensures
        next@ == parent_level::<H>(current@),
{
    let len = current.len();
    let count = len / 2 + len % 2;
    let mut next: Vec<hash::Hash> = Vec::new();
    let mut k: usize = 0;
    while k < count
        invariant
            len == current@.len(),
            count == (len + 1) / 2,
            k <= count,
            next@ =~= parent_level::<H>(current@).take(k as int),
        decreases count - k,
    {
        let i = 2 * k;
        let left = current[i];
        let right = if i + 1 < len {
            current[i + 1]
        } else {
            current[i]
        };
        next.push(H::hash_pair(&left, &right));
        k = k + 1;
    }
    next
}

/// A Merkle tree over the hash strategy `H`.
pub struct MerkleTree<H: HashStrategy = Sha256Hasher> {
    /// All nodes in the tree stored level by level:
    /// `levels[0]` is the leaf level, the last level holds the root.
    pub levels: Vec<Vec<hash::Hash>>,
    /// Number of leaves.
    pub leaf_count: usize,
    /// Marks the hash strategy the tree was built with.
    pub marker: PhantomData<H>,
}

impl<H: HashStrategy> MerkleTree<H> {
    /// The levels the tree holds.
    pub open spec fn levels_view(&self) -> Seq<Seq<hash::Hash>> {
        view_levels(self.levels@)
    }

    /// The tree is well formed: a nonempty lowest level, each further level
    /// built from the one below it up to a single root, and no more leaves
    /// counted than the lowest level holds.
    pub open spec fn wf(&self) -> bool {
        &&& self.levels@.len() >= 1
        &&& self.levels@[0]@.len() >= 1
        &&& self.levels_view() == levels_above::<H>(self.levels@[0]@)
        &&& self.leaf_count <= self.levels@[0]@.len()
    }

    /// Build a Merkle tree from leaf data.
    pub fn new(leaves: &[&[u8]]) -> (tree: Self)
        ensures
            tree.wf(),
            tree.levels_view() == tree_levels::<H>(data_view(leaves@)),
            tree.levels@.last()@.len() == 1,
            tree.levels_view().last()[0] == tree_root::<H>(data_view(leaves@)),
            tree.leaf_count == leaves@.len(),
    {
        let ghost data = data_view(leaves@);
        if leaves.len() == 0 {
            let mut zero_level: Vec<hash::Hash> = Vec::new();
            zero_level.push([0u8; 32]);
            let mut levels: Vec<Vec<hash::Hash>> = Vec::new();
            levels.push(zero_level);
            let tree = MerkleTree { levels, leaf_count: 0, marker: PhantomData };
            proof {
                assert(tree.levels_view() =~= seq![seq![zero_hash()]]);
                assert(base_level::<H>(data) =~= seq![zero_hash()]);
                lemma_last_level_is_root::<H>(base_level::<H>(data));
            }
            return tree;
        }
        let mut leaf_hashes: Vec<hash::Hash> = Vec::new();
        let mut i: usize = 0;
        while i < leaves.len()
            invariant
                i <= leaves@.len(),
                data == data_view(leaves@),
                leaf_hashes@ =~= leaf_level::<H>(data).take(i as int),
            decreases leaves@.len() - i,
        {
            leaf_hashes.push(H::hash(leaves[i]));
            i = i + 1;
        }
        let ghost base = leaf_hashes@;
        assert(base =~= base_level::<H>(data));
        let mut levels: Vec<Vec<hash::Hash>> = Vec::new();
        levels.push(leaf_hashes);
        proof {
            lemma_levels_above_unfold::<H>(base);
            assert(view_levels(levels@) =~= seq![base]);
            assert(levels_above::<H>(base) =~= seq![base] + levels_above::<H>(base).drop_first());
        }
        while levels[levels.len() - 1].len() > 1
            invariant
                levels@.len() >= 1,
                levels@[0]@ == base,
                levels@.last()@.len() >= 1,
                view_levels(levels@) + levels_above::<H>(levels@.last()@).drop_first()
                    == levels_above::<H>(base),
            decreases levels@.last()@.len(),
        {
            let next = next_level::<H>(&levels[levels.len() - 1]);
            let ghost last = levels@.last()@;
            let ghost before = view_levels(levels@);
            levels.push(next);
            proof {
                lemma_levels_above_unfold::<H>(last);
                lemma_levels_above_unfold::<H>(next@);
                assert(view_levels(levels@) =~= before.push(next@));
                assert(levels_above::<H>(next@) =~= seq![next@] + levels_above::<H>(
                    next@,
                ).drop_first());
                assert(view_levels(levels@) + levels_above::<H>(next@).drop_first()
                    =~= before + levels_above::<H>(last).drop_first());
            }
        }
        proof {
            lemma_levels_above_unfold::<H>(levels@.last()@);
            assert(levels_above::<H>(levels@.last()@).drop_first() =~= Seq::<
                Seq<hash::Hash>,
            >::empty());
            assert(view_levels(levels@) =~= view_levels(levels@) + levels_above::<H>(
                levels@.last()@,
            ).drop_first());
            lemma_last_level_is_root::<H>(base);
            assert(view_levels(levels@).last() == levels@.last()@);
        }
        MerkleTree { levels, leaf_count: leaves.len(), marker: PhantomData }
    }

    /// Get the root hash of the tree: the single node of the last level.
    pub fn root(&self) -> (root: hash::Hash)
        requires
            self.levels@.len() >= 1,
            self.levels@.last()@.len() >= 1,
        ensures
            root == self.levels_view().last()[0],
    {
        self.levels[self.levels.len() - 1][0]
    }

    /// Get the number of leaves.
    pub fn leaf_count(&self) -> (count: usize)
        ensures
            count == self.leaf_count,
    {
        self.leaf_count
    }

    /// Generate a Merkle inclusion proof for the leaf at the given index.
    pub fn inclusion_proof(&self, leaf_index: usize) -> (membership: MerkleProof<H>)
        requires
            self.wf(),
            leaf_index < self.leaf_count,
        ensures
            membership.proves(self.levels_view(), leaf_index as int),
    {
        MerkleProof::from_tree(self, leaf_index)
    }

    /// Get the hash of a specific leaf; `None` when `index` is not that of
    /// one of the tree's leaves (the tree over no leaves has none).
    pub fn leaf_hash(&self, index: usize) -> (hash: Option<&hash::Hash>)
        ensures
            hash == (if index < self.leaf_count && self.levels@.len() >= 1 && index
                < self.levels@[0]@.len() {
                Some(&self.levels@[0]@[index as int])
            } else {
                None
            }),
            self.wf() ==> (hash is Some <==> index < self.leaf_count),
    {
        if index < self.leaf_count && self.levels.len() >= 1 && index < self.levels[0].len() {
            Some(&self.levels[0][index])
        } else {
            None
        }
    }

    /// Get tree height (number of levels).
    pub fn height(&self) -> (height: usize)
        ensures
            height == self.levels@.len(),
    {
        self.levels.len()
    }
}

} // verus!
