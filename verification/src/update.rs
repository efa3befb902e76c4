//! Incremental Merkle tree updates.
//!
//! Replacing leaves recomputes only what changes, and gives the same levels
//! and root as building the tree again over the new leaves.

use vstd::prelude::*;
use crate::hash;
use crate::hash::HashStrategy;
use crate::tree::{
    MerkleTree, base_level, lemma_last_level_is_root, lemma_levels_above_unfold, levels_above,
    next_level, parent_level, root_of, tree_levels, tree_root, view_levels,
};

verus! {

/// Copies one level.
fn copy_level(level: &Vec<hash::Hash>) -> (copy: Vec<hash::Hash>)
    ensures
        copy@ == level@,
{
    let mut copy: Vec<hash::Hash> = Vec::new();
    let mut k: usize = 0;
    while k < level.len()
        invariant
            k <= level@.len(),
            copy@ =~= level@.take(k as int),
        decreases level@.len() - k,
    {
        copy.push(level[k]);
        k = k + 1;
    }
    copy
}

/// Copies all levels of a tree.
fn copy_levels(levels: &Vec<Vec<hash::Hash>>) -> (copy: Vec<Vec<hash::Hash>>)
    ensures
        view_levels(copy@) == view_levels(levels@),
{
    let mut copy: Vec<Vec<hash::Hash>> = Vec::new();
    let mut j: usize = 0;
    while j < levels.len()
        invariant
            j <= levels@.len(),
            view_levels(copy@) =~= view_levels(levels@).take(j as int),
        decreases levels@.len() - j,
    {
        let row = copy_level(&levels[j]);
        let ghost before = copy@;
        copy.push(row);
        assert(view_levels(copy@) =~= view_levels(before).push(levels@[j as int]@));
        assert(view_levels(levels@).take(j + 1) =~= view_levels(levels@).take(j as int).push(
            levels@[j as int]@,
        ));
        j = j + 1;
    }
    copy
}

/// Replacing the node at `pos` of a level changes at most the node at
/// `pos / 2` of the level above.
proof fn lemma_parent_of_update<H: HashStrategy>(
    level: Seq<hash::Hash>,
    pos: int,
    value: hash::Hash,
)
    requires
        0 <= pos < level.len(),
    ensures
        parent_level::<H>(level.update(pos, value)) == parent_level::<H>(level).update(
            pos / 2,
            parent_level::<H>(level.update(pos, value))[pos / 2],
        ),
{
    let changed = level.update(pos, value);
    assert(parent_level::<H>(changed) =~= parent_level::<H>(level).update(
        pos / 2,
        parent_level::<H>(changed)[pos / 2],
    ));
}

/// Update a single leaf in the tree and recompute the root.
/// Returns the new root hash and the new levels without rebuilding the
/// entire tree: they are those of the tree whose leaf level is the old one
/// with the hash of `new_data` at `leaf_index`.
pub fn update_leaf<H: HashStrategy>(
    tree: &MerkleTree<H>,
    leaf_index: usize,
    new_data: &[u8],
) -> (result: (hash::Hash, Vec<Vec<hash::Hash>>))
    requires
        tree.wf(),
        leaf_index < tree.levels@[0]@.len(),
    ensures
        view_levels(result.1@) == levels_above::<H>(
            tree.levels@[0]@.update(leaf_index as int, H::spec_hash(new_data@)),
        ),
        result.0 == root_of::<H>(
            tree.levels@[0]@.update(leaf_index as int, H::spec_hash(new_data@)),
        ),
{
    let ghost old_levels = tree.levels_view();
    let mut levels = copy_levels(&tree.levels);
    let new_hash = H::hash(new_data);
    let ghost new_levels = levels_above::<H>(old_levels[0].update(leaf_index as int, new_hash));
    assert(view_levels(levels@).len() == levels@.len());
    assert(levels@[0]@ == view_levels(levels@)[0]);
    let ghost copied = levels@;
    levels[0][leaf_index] = new_hash;
    proof {
        assert(levels@[0]@ == copied[0]@.update(leaf_index as int, new_hash));
        assert(forall|j: int| 1 <= j < copied.len() ==> levels@[j] == copied[j]);
        assert(view_levels(levels@) =~= view_levels(copied).update(0, new_levels[0]));
    }
    let n = levels.len();
    let mut idx = leaf_index;
    let mut level_idx: usize = 0;
    proof {
        lemma_levels_above_unfold::<H>(old_levels[0].update(leaf_index as int, new_hash));
        assert(old_levels.skip(0) =~= old_levels);
        assert(new_levels.skip(0) =~= new_levels);
        assert(new_levels[0] =~= old_levels[0].update(
            leaf_index as int,
            new_levels[0][leaf_index as int],
        ));
    }
    while level_idx + 1 < n
        invariant
            n == levels@.len(),
            n == old_levels.len(),
            level_idx < n,
            level_idx < new_levels.len(),
            old_levels.skip(level_idx as int) == levels_above::<H>(old_levels[level_idx as int]),
            new_levels.skip(level_idx as int) == levels_above::<H>(new_levels[level_idx as int]),
            idx < old_levels[level_idx as int].len(),
            new_levels[level_idx as int] == old_levels[level_idx as int].update(
                idx as int,
                new_levels[level_idx as int][idx as int],
            ),
            forall|j: int| 0 <= j <= level_idx ==> #[trigger] view_levels(levels@)[j] == new_levels[j],
            forall|j: int|
                level_idx < j < n ==> #[trigger] view_levels(levels@)[j] == old_levels[j],
        decreases n - level_idx,
    {
        let ghost old_row = old_levels[level_idx as int];
        let ghost new_row = new_levels[level_idx as int];
        proof {
            lemma_levels_above_unfold::<H>(old_row);
            lemma_levels_above_unfold::<H>(new_row);
            assert(old_levels.skip(level_idx as int).drop_first() =~= old_levels.skip(
                level_idx + 1,
            ));
            assert(new_levels.skip(level_idx as int).drop_first() =~= new_levels.skip(
                level_idx + 1,
            ));
            assert(old_levels[level_idx + 1] == old_levels.skip(level_idx as int)[1]);
            assert(new_levels[level_idx + 1] == new_levels.skip(level_idx as int)[1]);
            lemma_levels_above_unfold::<H>(parent_level::<H>(old_row));
            lemma_levels_above_unfold::<H>(parent_level::<H>(new_row));
            lemma_parent_of_update::<H>(old_row, idx as int, new_row[idx as int]);
            assert(view_levels(levels@)[level_idx as int] == new_row);
            assert(new_levels.skip(level_idx as int).len() >= 2);
        }
        let sibling_idx = if idx % 2 == 0 {
            if idx + 1 < levels[level_idx].len() {
                idx + 1
            } else {
                idx
            }
        } else {
            idx - 1
        };
        let left = levels[level_idx][if idx % 2 == 0 {
            idx
        } else {
            sibling_idx
        }];
        let right = levels[level_idx][if idx % 2 == 0 {
            sibling_idx
        } else {
            idx
        }];
        let parent = H::hash_pair(&left, &right);
        idx = idx / 2;
        assert(parent == parent_level::<H>(new_row)[idx as int]);
        let ghost before = levels@;
        assert(view_levels(levels@)[level_idx + 1] == old_levels[level_idx + 1]);
        assert(levels@[level_idx + 1]@ == old_levels[level_idx + 1]);
        if idx < levels[level_idx + 1].len() {
            levels[level_idx + 1][idx] = parent;
        }
        proof {
            assert(levels@[level_idx + 1]@ == before[level_idx + 1]@.update(idx as int, parent));
            assert(forall|j: int| 0 <= j < n && j != level_idx + 1 ==> levels@[j] == before[j]);
            assert(view_levels(levels@) =~= view_levels(before).update(
                level_idx + 1,
                new_levels[level_idx + 1],
            ));
        }
        level_idx = level_idx + 1;
        proof {
            assert forall|j: int| 0 <= j <= level_idx implies #[trigger] view_levels(levels@)[j]
                == new_levels[j] by {
                if j == level_idx {
                    assert(view_levels(levels@)[j] =~= new_levels[j]);
                }
            }
        }
    }
    proof {
        let last_old = old_levels[level_idx as int];
        let last_new = new_levels[level_idx as int];
        lemma_levels_above_unfold::<H>(last_old);
        lemma_levels_above_unfold::<H>(last_new);
        assert(new_levels.len() == n) by {
            assert(new_levels.skip(level_idx as int).len() == 1);
        }
        assert(view_levels(levels@) =~= new_levels);
        lemma_last_level_is_root::<H>(new_levels[0]);
        lemma_levels_above_unfold::<H>(old_levels[0].update(leaf_index as int, new_hash));
    }
    let new_root = levels[n - 1][0];
    (new_root, levels)
}

/// The pairs `(leaf index, data)` that a slice of updates holds.
pub open spec fn updates_view(updates: Seq<(usize, Vec<u8>)>) -> Seq<(usize, Seq<u8>)> {
    updates.map_values(|u: (usize, Vec<u8>)| (u.0, u.1@))
}

/// The leaf level after writing the hash of each update's data at its
/// index, in order (a later update of the same index wins).
pub open spec fn apply_updates<H: HashStrategy>(
    level: Seq<hash::Hash>,
    updates: Seq<(usize, Seq<u8>)>,
) -> Seq<hash::Hash>
    decreases updates.len(),
{
    if updates.len() == 0 {
        level
    } else {
        apply_updates::<H>(level, updates.drop_last()).update(
            updates.last().0 as int,
            H::spec_hash(updates.last().1),
        )
    }
}

/// Applying updates that name nodes of `level` keeps its length.
proof fn lemma_apply_updates_len<H: HashStrategy>(
    level: Seq<hash::Hash>,
    updates: Seq<(usize, Seq<u8>)>,
)
    requires
        updates_in_range(level, updates),
    ensures
        apply_updates::<H>(level, updates).len() == level.len(),
    decreases updates.len(),
{
    if updates.len() > 0 {
        assert(updates_in_range(level, updates.drop_last())) by {
            assert forall|k: int| 0 <= k < updates.drop_last().len() implies (
            #[trigger] updates.drop_last()[k]).0 < level.len() by {
                assert(updates.drop_last()[k] == updates[k]);
            }
        }
        lemma_apply_updates_len::<H>(level, updates.drop_last());
        assert(updates.last() == updates[updates.len() - 1]);
    }
}

/// Every update names a node of `level`.
pub open spec fn updates_in_range(level: Seq<hash::Hash>, updates: Seq<(usize, Seq<u8>)>) -> bool {
    forall|k: int| 0 <= k < updates.len() ==> (#[trigger] updates[k]).0 < level.len()
}

/// Batch update multiple leaves and recompute the root: the root of the
/// tree whose leaf level is the old one with every update applied in order.
pub fn batch_update<H: HashStrategy>(tree: &MerkleTree<H>, updates: &[(usize, Vec<u8>)]) -> (root:
    hash::Hash)
    requires
        tree.wf(),
        updates_in_range(tree.levels@[0]@, updates_view(updates@)),
    ensures
        root == root_of::<H>(apply_updates::<H>(tree.levels@[0]@, updates_view(updates@))),
{
    let ghost old_levels = tree.levels_view();
    let ghost ups = updates_view(updates@);
    let mut levels = copy_levels(&tree.levels);
    let n = levels.len();
    assert(view_levels(levels@).len() == levels@.len());
    let mut k: usize = 0;
    while k < updates.len()
        invariant
            k <= updates@.len(),
            n == levels@.len(),
            ups == updates_view(updates@),
            updates_in_range(old_levels[0], ups),
            view_levels(levels@) == old_levels.update(0, apply_updates::<H>(old_levels[0], ups.take(k as int))),
            n == old_levels.len(),
            n >= 1,
        decreases updates@.len() - k,
    {
        let leaf_index = updates[k].0;
        let data = &updates[k].1;
        let leaf_hash = H::hash(data.as_slice());
        let ghost before = levels@;
        proof {
            assert(ups[k as int] == (leaf_index, data@));
            assert(ups.take(k + 1).drop_last() =~= ups.take(k as int));
            assert(ups.take(k + 1).last() == ups[k as int]);
            assert(updates_in_range(old_levels[0], ups.take(k as int))) by {
                assert forall|i: int| 0 <= i < ups.take(k as int).len() implies (
                #[trigger] ups.take(k as int)[i]).0 < old_levels[0].len() by {
                    assert(ups.take(k as int)[i] == ups[i]);
                }
            }
            lemma_apply_updates_len::<H>(old_levels[0], ups.take(k as int));
            assert(view_levels(levels@)[0] == levels@[0]@);
        }
        levels[0][leaf_index] = leaf_hash;
        proof {
            assert(levels@[0]@ == before[0]@.update(leaf_index as int, leaf_hash));
            assert(view_levels(before)[0] == before[0]@);
            assert(before[0]@ == apply_updates::<H>(old_levels[0], ups.take(k as int)));
            assert(view_levels(levels@) =~= view_levels(before).update(0, levels@[0]@));
            assert(apply_updates::<H>(old_levels[0], ups.take(k + 1)) == apply_updates::<H>(
                old_levels[0],
                ups.take(k as int),
            ).update(leaf_index as int, H::spec_hash(data@)));
            assert(forall|j: int| 1 <= j < n ==> levels@[j] == before[j]);
            assert(view_levels(levels@) =~= old_levels.update(
                0,
                apply_updates::<H>(old_levels[0], ups.take(k + 1)),
            ));
        }
        k = k + 1;
    }
    let ghost updated = apply_updates::<H>(old_levels[0], ups);
    let ghost new_levels = levels_above::<H>(updated);
    proof {
        assert(ups.take(updates@.len() as int) =~= ups);
        lemma_apply_updates_len::<H>(old_levels[0], ups);
        lemma_levels_above_unfold::<H>(updated);
        assert(old_levels.skip(0) =~= old_levels);
        assert(new_levels.skip(0) =~= new_levels);
    }
    let mut level_idx: usize = 0;
    while level_idx + 1 < n
        invariant
            n == levels@.len(),
            n == old_levels.len(),
            level_idx < n,
            level_idx < new_levels.len(),
            old_levels.skip(level_idx as int) == levels_above::<H>(old_levels[level_idx as int]),
            new_levels.skip(level_idx as int) == levels_above::<H>(new_levels[level_idx as int]),
            new_levels[level_idx as int].len() == old_levels[level_idx as int].len(),
            forall|j: int| 0 <= j <= level_idx ==> #[trigger] view_levels(levels@)[j] == new_levels[j],
        decreases n - level_idx,
    {
        let ghost old_row = old_levels[level_idx as int];
        let ghost new_row = new_levels[level_idx as int];
        proof {
            lemma_levels_above_unfold::<H>(old_row);
            lemma_levels_above_unfold::<H>(new_row);
            assert(new_levels.skip(level_idx as int).len() >= 2);
            assert(old_levels.skip(level_idx as int).drop_first() =~= old_levels.skip(
                level_idx + 1,
            ));
            assert(new_levels.skip(level_idx as int).drop_first() =~= new_levels.skip(
                level_idx + 1,
            ));
            assert(old_levels[level_idx + 1] == old_levels.skip(level_idx as int)[1]);
            assert(new_levels[level_idx + 1] == new_levels.skip(level_idx as int)[1]);
            lemma_levels_above_unfold::<H>(parent_level::<H>(old_row));
            lemma_levels_above_unfold::<H>(parent_level::<H>(new_row));
            assert(view_levels(levels@)[level_idx as int] == levels@[level_idx as int]@);
        }
        let next = next_level::<H>(&levels[level_idx]);
        let ghost before = levels@;
        levels[level_idx + 1] = next;
        level_idx = level_idx + 1;
        proof {
            assert(view_levels(levels@) =~= view_levels(before).update(
                level_idx as int,
                new_levels[level_idx as int],
            ));
        }
    }
    proof {
        lemma_levels_above_unfold::<H>(old_levels[level_idx as int]);
        lemma_levels_above_unfold::<H>(new_levels[level_idx as int]);
        assert(new_levels.skip(level_idx as int).len() == 1);
        assert(view_levels(levels@)[n - 1] == levels@[n - 1]@);
        lemma_last_level_is_root::<H>(updated);
    }
    levels[n - 1][0]
}

/// The leaves after writing each update's data at its index, in order.
pub open spec fn apply_data_updates(
    leaves: Seq<Seq<u8>>,
    updates: Seq<(usize, Seq<u8>)>,
) -> Seq<Seq<u8>>
    decreases updates.len(),
{
    if updates.len() == 0 {
        leaves
    } else {
        apply_data_updates(leaves, updates.drop_last()).update(
            updates.last().0 as int,
            updates.last().1,
        )
    }
}

/// Replacing one leaf of the tree over `leaves` in place gives the levels
/// and the root of the tree rebuilt over the leaves with that datum
/// replaced.
pub proof fn lemma_update_matches_rebuild<H: HashStrategy>(
    leaves: Seq<Seq<u8>>,
    index: int,
    data: Seq<u8>,
)
    requires
        0 <= index < leaves.len(),
    ensures
        levels_above::<H>(base_level::<H>(leaves).update(index, H::spec_hash(data)))
            == tree_levels::<H>(leaves.update(index, data)),
        root_of::<H>(base_level::<H>(leaves).update(index, H::spec_hash(data))) == tree_root::<H>(
            leaves.update(index, data),
        ),
{
    assert(base_level::<H>(leaves).update(index, H::spec_hash(data)) =~= base_level::<H>(
        leaves.update(index, data),
    ));
}

/// Applying a batch of updates to the tree over `leaves` gives the root of
/// the tree rebuilt over the leaves with every update applied in order.
pub proof fn lemma_batch_update_matches_rebuild<H: HashStrategy>(
    leaves: Seq<Seq<u8>>,
    updates: Seq<(usize, Seq<u8>)>,
)
    requires
        leaves.len() >= 1,
        updates_in_range(base_level::<H>(leaves), updates),
    ensures
        root_of::<H>(apply_updates::<H>(base_level::<H>(leaves), updates)) == tree_root::<H>(
            apply_data_updates(leaves, updates),
        ),
{
    lemma_apply_updates_rebuilds::<H>(leaves, updates);
}

/// Applying updates to the leaf level is the leaf level of the updated data.
proof fn lemma_apply_updates_rebuilds<H: HashStrategy>(
    leaves: Seq<Seq<u8>>,
    updates: Seq<(usize, Seq<u8>)>,
)
    requires
        leaves.len() >= 1,
        updates_in_range(base_level::<H>(leaves), updates),
    ensures
        apply_data_updates(leaves, updates).len() == leaves.len(),
        apply_updates::<H>(base_level::<H>(leaves), updates) == base_level::<H>(
            apply_data_updates(leaves, updates),
        ),
    decreases updates.len(),
{
    if updates.len() > 0 {
        let rest = updates.drop_last();
        assert(updates_in_range(base_level::<H>(leaves), rest)) by {
            assert forall|k: int| 0 <= k < rest.len() implies (#[trigger] rest[k]).0
                < base_level::<H>(leaves).len() by {
                assert(rest[k] == updates[k]);
            }
        }
        lemma_apply_updates_rebuilds::<H>(leaves, rest);
        assert(updates.last() == updates[updates.len() - 1]);
        let before = apply_data_updates(leaves, rest);
        assert(base_level::<H>(before).update(updates.last().0 as int, H::spec_hash(updates.last().1))
            =~= base_level::<H>(before.update(updates.last().0 as int, updates.last().1)));
    }
}

/// Writing a leaf's own hash back leaves every level, and so the root,
/// unchanged.
pub proof fn lemma_same_leaf_keeps_tree<H: HashStrategy>(
    level: Seq<hash::Hash>,
    index: int,
    data: Seq<u8>,
)
    requires
        0 <= index < level.len(),
        H::spec_hash(data) == level[index],
    ensures
        levels_above::<H>(level.update(index, H::spec_hash(data))) == levels_above::<H>(level),
        root_of::<H>(level.update(index, H::spec_hash(data))) == root_of::<H>(level),
{
    assert(level.update(index, H::spec_hash(data)) =~= level);
}

/// A batch holding one update gives the root that updating that one leaf
/// gives.
pub proof fn lemma_single_batch_is_update<H: HashStrategy>(
    level: Seq<hash::Hash>,
    index: usize,
    data: Seq<u8>,
)
    ensures
        apply_updates::<H>(level, seq![(index, data)]) == level.update(
            index as int,
            H::spec_hash(data),
        ),
{
    let single = seq![(index, data)];
    assert(single.drop_last() =~= Seq::<(usize, Seq<u8>)>::empty());
    assert(single.last() == (index, data));
    assert(apply_updates::<H>(level, single.drop_last()) == level);
}

/// The position at level `k` of the node above the node at `index` of the
/// lowest level.
#[verifier::opaque]
pub open spec fn path_index(index: int, k: nat) -> int
    decreases k,
{
    if k == 0 {
        index
    } else {
        path_index(index / 2, (k - 1) as nat)
    }
}

/// Replacing one node of the lowest level keeps the number of levels and
/// the length of each.
proof fn lemma_update_keeps_shape<H: HashStrategy>(
    level: Seq<hash::Hash>,
    index: int,
    value: hash::Hash,
)
    requires
        0 <= index < level.len(),
    ensures
        levels_above::<H>(level.update(index, value)).len() == levels_above::<H>(level).len(),
        forall|k: int|
            0 <= k < levels_above::<H>(level).len() ==> #[trigger] levels_above::<H>(
                level.update(index, value),
            )[k].len() == levels_above::<H>(level)[k].len(),
    decreases level.len(),
{
    let changed = level.update(index, value);
    lemma_levels_above_unfold::<H>(level);
    lemma_levels_above_unfold::<H>(changed);
    if level.len() > 1 {
        let parent = parent_level::<H>(level);
        lemma_parent_of_update::<H>(level, index, value);
        let v = parent_level::<H>(changed)[index / 2];
        lemma_update_keeps_shape::<H>(parent, index / 2, v);
        assert forall|k: int| 0 <= k < levels_above::<H>(level).len() implies #[trigger]
            levels_above::<H>(changed)[k].len() == levels_above::<H>(level)[k].len() by {
            if k > 0 {
                assert(levels_above::<H>(level)[k] == levels_above::<H>(parent)[k - 1]);
                assert(levels_above::<H>(changed)[k] == levels_above::<H>(
                    parent.update(index / 2, v),
                )[k - 1]);
            }
        }
    }
}

/// Replacing the node at `index` of the lowest level changes, at each
/// level `k`, only the node at `path_index(index, k)`: every node off the
/// path from that leaf to the root keeps its hash, and the shape of the
/// tree is unchanged.
pub proof fn lemma_update_changes_only_path<H: HashStrategy>(
    level: Seq<hash::Hash>,
    index: int,
    value: hash::Hash,
    k: int,
    j: int,
)
    requires
        0 <= index < level.len(),
        0 <= k < levels_above::<H>(level).len(),
        0 <= j < levels_above::<H>(level)[k].len(),
        j != path_index(index, k as nat),
    ensures
        levels_above::<H>(level.update(index, value)).len() == levels_above::<H>(level).len(),
        levels_above::<H>(level.update(index, value))[k].len() == levels_above::<H>(level)[k].len(),
        levels_above::<H>(level.update(index, value))[k][j] == levels_above::<H>(level)[k][j],
    decreases level.len(),
{
    reveal(path_index);
    let changed = level.update(index, value);
    lemma_update_keeps_shape::<H>(level, index, value);
    lemma_levels_above_unfold::<H>(level);
    lemma_levels_above_unfold::<H>(changed);
    if k > 0 {
        let parent = parent_level::<H>(level);
        lemma_parent_of_update::<H>(level, index, value);
        let v = parent_level::<H>(changed)[index / 2];
        assert(levels_above::<H>(level)[k] == levels_above::<H>(parent)[k - 1]);
        assert(levels_above::<H>(changed)[k] == levels_above::<H>(parent.update(index / 2, v))[k
            - 1]);
        lemma_update_changes_only_path::<H>(parent, index / 2, v, k - 1, j);
    }
}

} // verus!
