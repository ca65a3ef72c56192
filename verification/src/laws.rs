//! Laws relating the octree's operations, stated over the model that their
//! contracts use: [`SparseVoxelOctree::voxel_at_ticks`].

use vstd::prelude::*;
use crate::octree::SparseVoxelOctree;
use crate::structure::{
    Voxel, OctreeNode, node_wf, node_tidy, node_has_voxels, node_is_empty_leaf,
    lemma_no_voxels_no_cells,
};

verus! {

/// Round trip: inserting a voxel and querying the same position finds it,
/// and every other position answers as before. `pre` and `post` are the
/// octree before and after the insert, related as `insert` ensures.
pub proof fn lemma_insert_round_trip(
    pre: SparseVoxelOctree,
    post: SparseVoxelOctree,
    wx: int,
    wy: int,
    wz: int,
    v: Voxel,
)
    requires
        forall|px: int, py: int, pz: int|
            #[trigger] post.voxel_at_ticks(px, py, pz) == (if px / pre.s_min() == wx / pre.s_min()
                && py / pre.s_min() == wy / pre.s_min() && pz / pre.s_min() == wz / pre.s_min() {
                Some(v)
            } else {
                pre.voxel_at_ticks(px, py, pz)
            }),
    ensures
        post.voxel_at_ticks(wx, wy, wz) == Some(v),
        forall|px: int, py: int, pz: int|
            !(px / pre.s_min() == wx / pre.s_min() && py / pre.s_min() == wy / pre.s_min() && pz
                / pre.s_min() == wz / pre.s_min()) ==> #[trigger] post.voxel_at_ticks(px, py, pz)
                == pre.voxel_at_ticks(px, py, pz),
{
}

/// Removing a position twice is removing it once: the second removal leaves
/// the model unchanged everywhere. `t0`, `t1` and `t2` are the octree before
/// the first removal, between the two, and after the second, each pair
/// related as `remove` ensures.
pub proof fn lemma_remove_idempotent(
    t0: SparseVoxelOctree,
    t1: SparseVoxelOctree,
    t2: SparseVoxelOctree,
    wx: int,
    wy: int,
    wz: int,
)
    requires
        t1.s_min() == t0.s_min(),
        forall|px: int, py: int, pz: int|
            #[trigger] t1.voxel_at_ticks(px, py, pz) == (if px / t0.s_min() == wx / t0.s_min() && py
                / t0.s_min() == wy / t0.s_min() && pz / t0.s_min() == wz / t0.s_min() {
                None::<Voxel>
            } else {
                t0.voxel_at_ticks(px, py, pz)
            }),
        forall|px: int, py: int, pz: int|
            #[trigger] t2.voxel_at_ticks(px, py, pz) == (if px / t1.s_min() == wx / t1.s_min() && py
                / t1.s_min() == wy / t1.s_min() && pz / t1.s_min() == wz / t1.s_min() {
                None::<Voxel>
            } else {
                t1.voxel_at_ticks(px, py, pz)
            }),
    ensures
        forall|px: int, py: int, pz: int|
            #[trigger] t2.voxel_at_ticks(px, py, pz) == t1.voxel_at_ticks(px, py, pz),
{
}

/// Pruning: a well-formed, tidy subtree without any voxel is a childless
/// leaf — removing every voxel under an internal node collapses it, so no
/// hollow internal node survives an edit.
pub proof fn lemma_empty_subtree_is_leaf(node: OctreeNode, d: nat)
    requires
        node_wf(node, d),
        node_tidy(node),
        !node_has_voxels(node),
    ensures
        node_is_empty_leaf(node),
        forall|i: int, j: int, k: int| crate::structure::node_get(node, i, j, k, d) is None,
{
    lemma_no_voxels_no_cells(node, d);
}

} // verus!
