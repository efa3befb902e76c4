//! Consistency proofs between Merkle tree snapshots.
//!
//! A consistency proof shows that an earlier tree snapshot (with
//! `old_size` leaves) is a prefix of a newer snapshot (with `new_size`
//! leaves), without revealing the full tree contents. It holds the hash of
//! the last leaf of the older snapshot followed by the siblings of that
//! leaf's path in the newer tree. Folding the leaf hash up that path gives
//! the newer root; folding it up the same path, but only as high as the
//! older tree reaches, taking the left siblings (which both trees share)
//! and pairing the node with itself where it was the older level's last
//! node on the left, gives the older root.

use vstd::prelude::*;
use core::marker::PhantomData;
use crate::hash;
use crate::hash::{HashStrategy, Sha256Hasher, hash_eq};
use crate::merkle_proof::{ProofNode, proof_path, sibling_node};
use crate::tree::{
    MerkleTree, base_level, data_view, lemma_levels_above_unfold, levels_above, node_hash,
    pair_right, parent_level, root_of, tree_levels, tree_root,
};

verus! {

/// The number of levels above the lowest in a tree whose lowest level has
/// `n` nodes.
pub open spec fn level_steps(n: nat) -> nat
    decreases n,
{
    if n <= 1 {
        0
    } else {
        1 + level_steps(((n + 1) / 2) as nat)
    }
}

/// The hashes that a path of proof nodes holds, without their sides.
pub open spec fn node_hashes(path: Seq<ProofNode>) -> Seq<hash::Hash> {
    path.map_values(
        |node: ProofNode|
            match node {
                ProofNode::Left(h) => h,
                ProofNode::Right(h) => h,
            },
    )
}

/// The root rebuilt from `current` at position `pos` with the sibling
/// hashes `siblings`: a sibling goes on the left when the position is odd,
/// on the right when it is even.
pub open spec fn path_root<H: HashStrategy>(
    siblings: Seq<hash::Hash>,
    pos: int,
    current: hash::Hash,
) -> hash::Hash
    decreases siblings.len(),
{
    if siblings.len() == 0 {
        current
    } else {
        let next = if pos % 2 == 1 {
            node_hash::<H>(siblings[0], current)
        } else {
            node_hash::<H>(current, siblings[0])
        };
        path_root::<H>(siblings.drop_first(), pos / 2, next)
    }
}

/// The root of the older tree rebuilt from its last leaf `current` at
/// position `pos`, climbing `count` levels: at an odd position the sibling
/// hash goes on the left, at an even one the node, last of its level, is
/// paired with itself and the sibling hash is passed over.
pub open spec fn prefix_root<H: HashStrategy>(
    siblings: Seq<hash::Hash>,
    pos: int,
    current: hash::Hash,
    count: nat,
) -> hash::Hash
    decreases count,
{
    if count == 0 || siblings.len() == 0 {
        current
    } else {
        let next = if pos % 2 == 1 {
            node_hash::<H>(siblings[0], current)
        } else {
            node_hash::<H>(current, current)
        };
        prefix_root::<H>(siblings.drop_first(), pos / 2, next, (count - 1) as nat)
    }
}

/// The older root that the hashes of a proof for `old_size` leaves give.
pub open spec fn proof_old_root<H: HashStrategy>(
    hashes: Seq<hash::Hash>,
    old_size: nat,
) -> hash::Hash {
    prefix_root::<H>(hashes.drop_first(), old_size - 1, hashes[0], level_steps(old_size))
}

/// The newer root that the hashes of a proof for `old_size` leaves give.
pub open spec fn proof_new_root<H: HashStrategy>(
    hashes: Seq<hash::Hash>,
    old_size: nat,
) -> hash::Hash {
    path_root::<H>(hashes.drop_first(), old_size - 1, hashes[0])
}

/// The hashes of the consistency proof between the trees over `old` and
/// over `new`: the hash of the last datum of `old`, then the sibling hashes
/// on the path of the leaf at that position in the tree over `new`.
pub open spec fn consistency_hashes<H: HashStrategy>(
    old: Seq<Seq<u8>>,
    new: Seq<Seq<u8>>,
) -> Seq<hash::Hash> {
    seq![H::spec_hash(old.last())] + node_hashes(
        proof_path(tree_levels::<H>(new), old.len() - 1),
    )
}

/// The verdict on a proof with `hashes` for sizes `old_size` and
/// `new_size` and the roots `old_root` and `new_root`: the sizes are
/// ordered and nonzero, there is one hash per level of the newer tree, and
/// the hashes rebuild both roots.
pub open spec fn consistency_accepts<H: HashStrategy>(
    hashes: Seq<hash::Hash>,
    old_size: nat,
    new_size: nat,
    old_root: hash::Hash,
    new_root: hash::Hash,
) -> bool {
    &&& 1 <= old_size <= new_size
    &&& hashes.len() == level_steps(new_size) + 1
    &&& proof_old_root::<H>(hashes, old_size) == old_root
    &&& proof_new_root::<H>(hashes, old_size) == new_root
}

/// A level of `n` nodes has `level_steps(n)` levels above it.
proof fn lemma_level_count<H: HashStrategy>(level: Seq<hash::Hash>)
    ensures
        levels_above::<H>(level).len() == level_steps(level.len()) + 1,
    decreases level.len(),
{
    lemma_levels_above_unfold::<H>(level);
    if level.len() > 1 {
        lemma_level_count::<H>(parent_level::<H>(level));
    }
}

/// The path of a node, folded by side from the node's position, reaches
/// the root.
proof fn lemma_path_root_reaches_root<H: HashStrategy>(level: Seq<hash::Hash>, pos: int)
    requires
        0 <= pos < level.len(),
    ensures
        path_root::<H>(node_hashes(proof_path(levels_above::<H>(level), pos)), pos, level[pos])
            == root_of::<H>(level),
    decreases level.len(),
{
    lemma_levels_above_unfold::<H>(level);
    if level.len() > 1 {
        let parent = parent_level::<H>(level);
        let path = proof_path(levels_above::<H>(level), pos);
        assert(path.drop_first() =~= proof_path(levels_above::<H>(parent), pos / 2));
        assert(node_hashes(path).drop_first() =~= node_hashes(path.drop_first()));
        assert(path[0] == sibling_node(level, pos));
        let next = if pos % 2 == 1 {
            node_hash::<H>(node_hashes(path)[0], level[pos])
        } else {
            node_hash::<H>(level[pos], node_hashes(path)[0])
        };
        assert(next == parent[pos / 2]);
        lemma_path_root_reaches_root::<H>(parent, pos / 2);
    }
}

/// Folding the older tree's last leaf with the siblings of its path in a
/// tree that extends the older one rebuilds the older root: every node of
/// the older tree but the last of each level is a node of the newer one.
proof fn lemma_prefix_root_reaches_root<H: HashStrategy>(
    old: Seq<hash::Hash>,
    new: Seq<hash::Hash>,
)
    requires
        1 <= old.len() <= new.len(),
        forall|j: int| 0 <= j < old.len() - 1 ==> old[j] == new[j],
    ensures
        prefix_root::<H>(
            node_hashes(proof_path(levels_above::<H>(new), old.len() - 1)),
            old.len() - 1,
            old[old.len() - 1],
            level_steps(old.len()),
        ) == root_of::<H>(old),
    decreases old.len(),
{
    let pos = old.len() - 1;
    lemma_levels_above_unfold::<H>(new);
    if old.len() > 1 {
        let po = parent_level::<H>(old);
        let pn = parent_level::<H>(new);
        let path = proof_path(levels_above::<H>(new), pos);
        assert(path.drop_first() =~= proof_path(levels_above::<H>(pn), pos / 2));
        assert(node_hashes(path).drop_first() =~= node_hashes(path.drop_first()));
        assert(path[0] == sibling_node(new, pos));
        let next = if pos % 2 == 1 {
            node_hash::<H>(node_hashes(path)[0], old[pos])
        } else {
            node_hash::<H>(old[pos], old[pos])
        };
        assert(next == po[pos / 2]);
        assert forall|j: int| 0 <= j < po.len() - 1 implies po[j] == pn[j] by {
            assert(2 * j + 1 < pos);
            assert(pair_right(old, j) == pair_right(new, j));
        }
        assert(pos / 2 == po.len() - 1);
        lemma_prefix_root_reaches_root::<H>(po, pn);
    }
}

/// The consistency proof generated for an older snapshot and a newer one
/// that extends it is accepted against the roots of both trees, and the
/// older root it reports is the older tree's root.
pub proof fn lemma_consistency_proof_verifies<H: HashStrategy>(
    old: Seq<Seq<u8>>,
    new: Seq<Seq<u8>>,
)
    requires
        1 <= old.len() <= new.len(),
        new.take(old.len() as int) =~= old,
    ensures
        consistency_accepts::<H>(
            consistency_hashes::<H>(old, new),
            old.len(),
            new.len(),
            tree_root::<H>(old),
            tree_root::<H>(new),
        ),
        proof_old_root::<H>(consistency_hashes::<H>(old, new), old.len()) == tree_root::<H>(old),
{
    let a = base_level::<H>(old);
    let b = base_level::<H>(new);
    let pos = old.len() - 1;
    let hashes = consistency_hashes::<H>(old, new);
    let path = proof_path(levels_above::<H>(b), pos);
    assert(old[pos] == new[pos]);
    assert(old.last() == old[pos]);
    assert(hashes.drop_first() =~= node_hashes(path));
    assert(hashes[0] == a[pos] && a[pos] == b[pos]);
    assert forall|j: int| 0 <= j < a.len() - 1 implies a[j] == b[j] by {
        assert(old[j] == new[j]);
    }
    lemma_path_root_reaches_root::<H>(b, pos);
    lemma_prefix_root_reaches_root::<H>(a, b);
    lemma_level_count::<H>(b);
    crate::merkle_proof::lemma_proof_path_len(levels_above::<H>(b), pos);
}

/// An accepted proof names, in order, the older root and the newer root
/// that its hashes rebuild, for the sizes it records, whatever those sizes
/// are (equal ones included); and the sizes are ordered and nonzero.
pub proof fn lemma_accepted_roots_are_rebuilt<H: HashStrategy>(
    hashes: Seq<hash::Hash>,
    old_size: nat,
    new_size: nat,
    old_root: hash::Hash,
    new_root: hash::Hash,
)
    requires
        consistency_accepts::<H>(hashes, old_size, new_size, old_root, new_root),
    ensures
        1 <= old_size <= new_size,
        hashes.len() >= 1,
        old_root == prefix_root::<H>(
            hashes.drop_first(),
            old_size - 1,
            hashes[0],
            level_steps(old_size),
        ),
        new_root == path_root::<H>(hashes.drop_first(), old_size - 1, hashes[0]),
{
}

/// A proof generated for an older snapshot and a newer one that extends it
/// is accepted only against the older tree's real root: for any `x` and
/// `r`, accepting `x` as the older root means `x` is the root of the tree
/// over the older leaves (so between equal snapshots a wrong older root is
/// rejected).
pub proof fn lemma_generated_proof_accepts_only_old_root<H: HashStrategy>(
    old: Seq<Seq<u8>>,
    new: Seq<Seq<u8>>,
    x: hash::Hash,
    r: hash::Hash,
)
    requires
        1 <= old.len() <= new.len(),
        new.take(old.len() as int) =~= old,
        consistency_accepts::<H>(consistency_hashes::<H>(old, new), old.len(), new.len(), x, r),
    ensures
        x == tree_root::<H>(old),
{
    lemma_consistency_proof_verifies::<H>(old, new);
}

/// A consistency proof between two tree snapshots.
#[derive(Debug)]
pub struct ConsistencyProof<H: HashStrategy = Sha256Hasher> {
    /// Old tree size (number of leaves).
    pub old_size: usize,
    /// New tree size (number of leaves).
    pub new_size: usize,
    /// The hash of the older snapshot's last leaf, then the sibling hashes
    /// on that leaf's path in the newer tree.
    pub hashes: Vec<hash::Hash>,
    /// Marks the hash strategy the proof is checked with.
    pub marker: PhantomData<H>,
}

impl<H: HashStrategy> Clone for ConsistencyProof<H> {
    fn clone(&self) -> (copy: Self)
        ensures
            copy.old_size == self.old_size,
            copy.new_size == self.new_size,
            copy.hashes@ == self.hashes@,
    {
        let mut hashes: Vec<hash::Hash> = Vec::new();
        let mut k: usize = 0;
        while k < self.hashes.len()
            invariant
                k <= self.hashes@.len(),
                hashes@ =~= self.hashes@.take(k as int),
            decreases self.hashes@.len() - k,
        {
            hashes.push(self.hashes[k]);
            k = k + 1;
        }
        ConsistencyProof {
            old_size: self.old_size,
            new_size: self.new_size,
            hashes,
            marker: PhantomData,
        }
    }
}

/// Counts the levels above a lowest level of `n` nodes.
fn count_steps(n: usize) -> (steps: usize)
    ensures
        steps == level_steps(n as nat),
        n >= 1 ==> steps < n,
{
    let mut m = n;
    let mut steps: usize = 0;
    while m > 1
        invariant
            level_steps(n as nat) == steps + level_steps(m as nat),
            steps + m <= n,
            n >= 1 ==> m >= 1,
        decreases m,
    {
        m = m / 2 + m % 2;
        steps = steps + 1;
    }
    steps
}

/// The hash carried by a proof node, whichever its side.
fn node_hash_of(node: &ProofNode) -> (h: hash::Hash)
    ensures
        h == (match *node {
            ProofNode::Left(x) => x,
            ProofNode::Right(x) => x,
        }),
{
    match node {
        ProofNode::Left(h) => *h,
        ProofNode::Right(h) => *h,
    }
}

impl<H: HashStrategy> ConsistencyProof<H> {
    /// The newer root rebuilt from the proof's hashes.
    fn fold_new(&self) -> (root: hash::Hash)
        requires
            self.hashes@.len() >= 1,
            self.old_size >= 1,
        ensures
            root == proof_new_root::<H>(self.hashes@, self.old_size as nat),
    {
        let mut current = self.hashes[0];
        let mut pos = self.old_size - 1;
        let mut k: usize = 1;
        assert(self.hashes@.skip(1) =~= self.hashes@.drop_first());
        while k < self.hashes.len()
            invariant
                1 <= k <= self.hashes@.len(),
                proof_new_root::<H>(self.hashes@, self.old_size as nat) == path_root::<H>(
                    self.hashes@.skip(k as int),
                    pos as int,
                    current,
                ),
            decreases self.hashes@.len() - k,
        {
            let sibling = self.hashes[k];
            assert(self.hashes@.skip(k as int).drop_first() =~= self.hashes@.skip(k + 1));
            current = if pos % 2 == 1 {
                H::hash_pair(&sibling, &current)
            } else {
                H::hash_pair(&current, &sibling)
            };
            pos = pos / 2;
            k = k + 1;
        }
        current
    }

    /// The older root rebuilt from the proof's hashes.
    fn fold_old(&self) -> (root: hash::Hash)
        requires
            self.hashes@.len() >= 1,
        ensures
            root == proof_old_root::<H>(self.hashes@, self.old_size as nat),
    {
        if self.old_size == 0 {
            return self.hashes[0];
        }
        let count = count_steps(self.old_size);
        let mut current = self.hashes[0];
        let mut pos = self.old_size - 1;
        let mut k: usize = 1;
        assert(self.hashes@.skip(1) =~= self.hashes@.drop_first());
        while k < self.hashes.len() && k <= count
            invariant
                1 <= k <= self.hashes@.len(),
                k <= count + 1,
                count == level_steps(self.old_size as nat),
                proof_old_root::<H>(self.hashes@, self.old_size as nat) == prefix_root::<H>(
                    self.hashes@.skip(k as int),
                    pos as int,
                    current,
                    (count + 1 - k) as nat,
                ),
            decreases self.hashes@.len() - k,
        {
            let sibling = self.hashes[k];
            assert(self.hashes@.skip(k as int).drop_first() =~= self.hashes@.skip(k + 1));
            current = if pos % 2 == 1 {
                H::hash_pair(&sibling, &current)
            } else {
                H::hash_pair(&current, &current)
            };
            pos = pos / 2;
            k = k + 1;
        }
        current
    }

    /// Generate a consistency proof from the newer tree.
    ///
    /// Returns `None` if `old_size > new_size` or either is zero.
    pub fn generate(old_leaves: &[&[u8]], new_leaves: &[&[u8]]) -> (result: Option<Self>)
        ensures
            result is Some <==> (old_leaves@.len() > 0 && new_leaves@.len() > 0
                && old_leaves@.len() <= new_leaves@.len()),
            result matches Some(p) ==> {
                &&& p.old_size == old_leaves@.len()
                &&& p.new_size == new_leaves@.len()
                &&& p.hashes@ == consistency_hashes::<H>(
                    data_view(old_leaves@),
                    data_view(new_leaves@),
                )
            },
    {
        if old_leaves.len() == 0 || new_leaves.len() == 0 || old_leaves.len() > new_leaves.len() {
            return None;
        }
        let old_count = old_leaves.len();
        let new_count = new_leaves.len();
        let new_tree = MerkleTree::<H>::new(new_leaves);
        let path = new_tree.inclusion_proof(old_count - 1);
        let ghost siblings = path.siblings@;
        let mut hashes: Vec<hash::Hash> = Vec::new();
        hashes.push(H::hash(old_leaves[old_count - 1]));
        let mut k: usize = 0;
        while k < path.siblings.len()
            invariant
                k <= siblings.len(),
                siblings == path.siblings@,
                hashes@.len() == k + 1,
                hashes@[0] == H::spec_hash(old_leaves@[old_count - 1]@),
                hashes@.drop_first() =~= node_hashes(siblings.take(k as int)),
            decreases siblings.len() - k,
        {
            let h = node_hash_of(&path.siblings[k]);
            let ghost before = hashes@;
            hashes.push(h);
            proof {
                assert(siblings.take(k + 1) =~= siblings.take(k as int).push(siblings[k as int]));
                assert(node_hashes(siblings.take(k + 1)) =~= node_hashes(siblings.take(k as int)).push(h));
                assert(hashes@.drop_first() =~= before.drop_first().push(h));
            }
            k = k + 1;
        }
        proof {
            assert(siblings.take(siblings.len() as int) =~= siblings);
            assert(new_tree.levels_view() == tree_levels::<H>(data_view(new_leaves@)));
            assert(siblings == proof_path(tree_levels::<H>(data_view(new_leaves@)), old_count - 1));
            assert(data_view(old_leaves@).len() - 1 == old_count - 1);
            assert(hashes@ =~= consistency_hashes::<H>(
                data_view(old_leaves@),
                data_view(new_leaves@),
            ));
            assert(data_view(old_leaves@).last() == old_leaves@[old_count - 1]@);
            assert(hashes@ =~= seq![hashes@[0]] + hashes@.drop_first());
        }
        Some(ConsistencyProof {
            old_size: old_count,
            new_size: new_count,
            hashes,
            marker: PhantomData,
        })
    }

    /// Verify the consistency proof against the two roots: the sizes are
    /// ordered and nonzero, there is one hash per level of the newer tree,
    /// and the hashes rebuild `old_root` and `new_root`.
    pub fn verify(&self, old_root: &hash::Hash, new_root: &hash::Hash) -> (valid: bool)
        ensures
            valid == consistency_accepts::<H>(
                self.hashes@,
                self.old_size as nat,
                self.new_size as nat,
                *old_root,
                *new_root,
            ),
    {
        if self.old_size == 0 || self.old_size > self.new_size {
            return false;
        }
        let steps = count_steps(self.new_size);
        if self.hashes.len() != steps + 1 {
            return false;
        }
        let rebuilt_old = self.fold_old();
        let rebuilt_new = self.fold_new();
        hash_eq(&rebuilt_old, old_root) && hash_eq(&rebuilt_new, new_root)
    }

    /// Get the old root hash from this proof: the older root its hashes
    /// rebuild.
    pub fn old_root(&self) -> (root: hash::Hash)
        requires
            self.hashes@.len() > 0,
        ensures
            root == proof_old_root::<H>(self.hashes@, self.old_size as nat),
    {
        self.fold_old()
    }
}

} // verus!
