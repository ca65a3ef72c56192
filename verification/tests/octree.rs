// Point edits, lookups, growth and traversal of the sparse voxel octree.
// World positions are i64 ticks; these tests use 10 ticks per world unit,
// so an octree with max_depth = 1 and edge 2.0 units has size = 20 ticks.

use voxel_svo::octree::SparseVoxelOctree;
use voxel_svo::structure::{OctreeNode, Voxel};

#[test]
fn voxel_new_keeps_color() {
    let v = Voxel::new(0xff00ff00);
    assert_eq!(v.color, 0xff00ff00);
}

#[test]
fn new_node_is_empty_leaf() {
    let n = OctreeNode::new();
    assert!(n.is_empty());
}

#[test]
fn new_octree_is_empty_everywhere() {
    let tree = SparseVoxelOctree::new(2, 16, false, false, false);
    assert_eq!(tree.get_voxel_at_world_coords(0, 0, 0), None);
    assert_eq!(tree.get_voxel_at_world_coords(-8, 3, 7), None);
    assert!(!tree.has_volume(&tree.root));
    assert_eq!(tree.traverse().len(), 0);
}

#[test]
fn spacing_halves_per_depth_and_clamps() {
    let tree = SparseVoxelOctree::new(2, 16, false, false, false);
    assert_eq!(tree.get_spacing_at_depth(0), 16);
    assert_eq!(tree.get_spacing_at_depth(1), 8);
    assert_eq!(tree.get_spacing_at_depth(2), 4);
    // depths beyond max_depth clamp to the finest spacing
    assert_eq!(tree.get_spacing_at_depth(5), 4);
}

#[test]
fn normalize_snaps_to_cell_centers() {
    let tree = SparseVoxelOctree::new(2, 16, false, false, false);
    // spacing at max depth is 4: cell [4, 8) has center 6
    assert_eq!(tree.normalize_to_voxel_at_depth(7, 4, 5, 2), (6, 6, 6));
    // negative positions round toward negative infinity
    assert_eq!(tree.normalize_to_voxel_at_depth(-1, -4, -5, 2), (-2, -2, -6));
    // at depth 1 the spacing is 8: cell [0, 8) has center 4
    assert_eq!(tree.normalize_to_voxel_at_depth(7, 0, 3, 1), (4, 4, 4));
}

#[test]
fn insert_then_get_round_trip() {
    let mut tree = SparseVoxelOctree::new(2, 16, false, false, false);
    let v = Voxel::new(7);
    tree.insert(5, -3, 2, v);
    // the exact position, and any position in the same finest cell, hit
    assert_eq!(tree.get_voxel_at_world_coords(5, -3, 2), Some(v));
    assert_eq!(tree.get_voxel_at_world_coords(4, -1, 3), Some(v));
    // a neighboring cell does not
    assert_eq!(tree.get_voxel_at_world_coords(1, -3, 2), None);
}

#[test]
fn insert_replaces_in_same_cell() {
    let mut tree = SparseVoxelOctree::new(2, 16, false, false, false);
    tree.insert(1, 1, 1, Voxel::new(1));
    tree.insert(2, 3, 0, Voxel::new(2));
    assert_eq!(tree.get_voxel_at_world_coords(1, 1, 1), Some(Voxel::new(2)));
    assert_eq!(tree.traverse().len(), 1);
}

#[test]
fn get_voxel_at_uses_cell_indices() {
    let mut tree = SparseVoxelOctree::new(2, 16, false, false, false);
    tree.insert(5, 5, 5, Voxel::new(9));
    // position 5 lies in cell [4, 8), index 3 from the low face at -8
    assert_eq!(tree.get_voxel_at(3, 3, 3), Some(Voxel::new(9)));
    assert_eq!(tree.get_voxel_at(0, 3, 3), None);
    assert_eq!(tree.get_voxel_at(-1, 0, 0), None);
    assert_eq!(tree.get_voxel_at(4, 0, 0), None);
}

#[test]
fn remove_clears_and_second_remove_is_noop() {
    let mut tree = SparseVoxelOctree::new(2, 16, false, false, false);
    tree.insert(5, 5, 5, Voxel::new(3));
    tree.insert(-7, -7, -7, Voxel::new(4));
    tree.remove(5, 5, 5);
    assert_eq!(tree.get_voxel_at_world_coords(5, 5, 5), None);
    assert_eq!(tree.get_voxel_at_world_coords(-7, -7, -7), Some(Voxel::new(4)));
    let after_once = tree.traverse();
    tree.remove(5, 5, 5);
    let after_twice = tree.traverse();
    assert_eq!(after_once, after_twice);
    assert_eq!(tree.get_voxel_at_world_coords(-7, -7, -7), Some(Voxel::new(4)));
}

#[test]
fn remove_prunes_emptied_subtrees() {
    let mut tree = SparseVoxelOctree::new(3, 16, false, false, false);
    tree.insert(1, 1, 1, Voxel::new(1));
    tree.insert(3, 3, 3, Voxel::new(2));
    assert!(tree.has_volume(&tree.root));
    tree.remove(1, 1, 1);
    tree.remove(3, 3, 3);
    // every voxel is gone: the root collapses to a childless leaf
    assert!(!tree.has_volume(&tree.root));
    assert!(tree.root.is_empty());
}

#[test]
fn remove_outside_cube_changes_nothing() {
    let mut tree = SparseVoxelOctree::new(2, 16, false, false, false);
    tree.insert(5, 5, 5, Voxel::new(3));
    tree.remove(100, 100, 100);
    assert_eq!(tree.get_voxel_at_world_coords(5, 5, 5), Some(Voxel::new(3)));
    assert_eq!(tree.traverse().len(), 1);
}

#[test]
fn growth_contains_and_keeps_old_voxels() {
    let mut tree = SparseVoxelOctree::new(1, 4, false, false, false);
    tree.insert(1, 1, 1, Voxel::new(1));
    assert_eq!(tree.size, 4);
    // (5, 5, 5) is outside the 4-tick cube: the root doubles until the
    // aligned position (5, 5, 5) fits, which takes exactly two doublings
    tree.insert(5, 5, 5, Voxel::new(2));
    assert_eq!(tree.size, 16);
    assert_eq!(tree.max_depth, 3);
    // both voxels remain retrievable at their original world positions
    assert_eq!(tree.get_voxel_at_world_coords(1, 1, 1), Some(Voxel::new(1)));
    assert_eq!(tree.get_voxel_at_world_coords(5, 5, 5), Some(Voxel::new(2)));
}

#[test]
fn growth_keeps_finest_spacing() {
    let mut tree = SparseVoxelOctree::new(1, 4, false, false, false);
    let before = tree.get_spacing_at_depth(tree.max_depth);
    tree.insert(9, 0, 0, Voxel::new(1));
    let after = tree.get_spacing_at_depth(tree.max_depth);
    assert_eq!(before, after);
}

#[test]
fn contains_is_half_open() {
    let tree = SparseVoxelOctree::new(2, 16, false, false, false);
    assert!(tree.contains(-8, 0, 0));
    assert!(tree.contains(7, 7, 7));
    assert!(!tree.contains(8, 0, 0));
    assert!(!tree.contains(0, -9, 0));
}

#[test]
fn has_neighbor_sees_adjacent_cells_only() {
    let mut tree = SparseVoxelOctree::new(2, 16, false, false, false);
    tree.insert(2, 2, 2, Voxel::new(1));
    tree.insert(6, 2, 2, Voxel::new(2));
    // from the first voxel's cell, the +x neighbor is occupied
    assert!(tree.has_neighbor(2, 2, 2, 1, 0, 0, 2));
    // but not -x, -y, +y, -z or +z
    assert!(!tree.has_neighbor(2, 2, 2, -1, 0, 0, 2));
    assert!(!tree.has_neighbor(2, 2, 2, 0, -1, 0, 2));
    assert!(!tree.has_neighbor(2, 2, 2, 0, 1, 0, 2));
    assert!(!tree.has_neighbor(2, 2, 2, 0, 0, -1, 2));
    assert!(!tree.has_neighbor(2, 2, 2, 0, 0, 1, 2));
}

#[test]
fn has_neighbor_treats_outside_as_absent() {
    let mut tree = SparseVoxelOctree::new(2, 16, false, false, false);
    tree.insert(-7, 0, 0, Voxel::new(1));
    // the -x neighbor of the lowest cell lies outside the cube
    assert!(!tree.has_neighbor(-7, 0, 0, -1, 0, 0, 2));
}

#[test]
fn chunk_math_matches_dimensions() {
    let tree = SparseVoxelOctree::new(2, 16, false, false, false);
    // chunk_size = 2^(max_depth - 1) voxels; each voxel is 4 ticks
    assert_eq!(tree.get_chunk_size(), 2);
    assert_eq!(tree.get_chunk_world_size(), 8);
    assert_eq!(tree.compute_chunk_coords(9, -1, 17), (1, -1, 2));
    assert_eq!(tree.compute_chunk_coords(0, 7, 8), (0, 0, 1));
}

#[test]
fn edits_mark_their_chunk_dirty() {
    let mut tree = SparseVoxelOctree::new(2, 16, false, false, false);
    assert_eq!(tree.dirty.len(), 0);
    tree.insert(2, 2, 2, Voxel::new(1));
    assert_eq!(tree.dirty, vec![(0, 0, 0)]);
    // a second edit in the same chunk does not duplicate the entry
    tree.insert(6, 6, 6, Voxel::new(2));
    assert_eq!(tree.dirty, vec![(0, 0, 0)]);
    tree.remove(-1, -1, -1);
    assert_eq!(tree.dirty, vec![(0, 0, 0), (-1, -1, -1)]);
}

#[test]
fn single_insert_scenario_yields_one_leaf() {
    // an octree of depth 1 and edge two units, at ten ticks per unit:
    // inserting at (0.6, 0.6, 0.6) units aligns to the cell center
    // (0.5, 0.5, 0.5) units and the traversal lists exactly one populated
    // leaf, at depth 1
    let mut tree = SparseVoxelOctree::new(1, 20, false, false, false);
    assert_eq!(tree.normalize_to_voxel_at_depth(6, 6, 6, 1), (5, 5, 5));
    tree.insert(6, 6, 6, Voxel::new(0xabcd));
    let leaves = tree.traverse();
    assert_eq!(leaves.len(), 1);
    let (x, y, z, v, depth) = leaves[0];
    // the leaf cell spans [0, 10)^3: its low corner is the origin
    assert_eq!((x, y, z), (0, 0, 0));
    assert_eq!(v, Voxel::new(0xabcd));
    assert_eq!(depth, 1);
}

#[test]
fn traverse_lists_all_leaves_with_corners() {
    let mut tree = SparseVoxelOctree::new(2, 16, false, false, false);
    tree.insert(2, 2, 2, Voxel::new(1));
    tree.insert(-7, 5, -3, Voxel::new(2));
    let leaves = tree.traverse();
    assert_eq!(leaves.len(), 2);
    assert!(leaves.contains(&(0, 0, 0, Voxel::new(1), 2)));
    assert!(leaves.contains(&(-8, 4, -4, Voxel::new(2), 2)));
}

#[test]
fn traverse_chunk_lists_cells_of_one_chunk() {
    let mut tree = SparseVoxelOctree::new(2, 16, false, false, false);
    tree.insert(2, 2, 2, Voxel::new(1));
    tree.insert(6, 2, 2, Voxel::new(2));
    tree.insert(-6, -6, -6, Voxel::new(3));
    let cells = tree.traverse_chunk(0, 0, 0);
    assert_eq!(cells.len(), 2);
    assert!(cells.contains(&(0, 0, 0, Voxel::new(1), 2)));
    assert!(cells.contains(&(4, 0, 0, Voxel::new(2), 2)));
    let cells_neg = tree.traverse_chunk(-1, -1, -1);
    assert_eq!(cells_neg, vec![(-8, -8, -8, Voxel::new(3), 2)]);
    assert_eq!(tree.traverse_chunk(1, 1, 1).len(), 0);
}

#[test]
fn get_chunk_node_probes_octants() {
    let mut tree = SparseVoxelOctree::new(2, 16, false, false, false);
    // an empty tree has no chunk subtrees yet
    assert!(tree.get_chunk_node(2, 2, 2).is_none());
    tree.insert(2, 2, 2, Voxel::new(1));
    // the (+,+,+) octant now holds a voxel; the (-,-,-) octant is empty
    let n = tree.get_chunk_node(5, 5, 5).expect("inside the cube");
    assert!(tree.has_volume(n));
    let m = tree.get_chunk_node(-5, -5, -5).expect("inside the cube");
    assert!(!tree.has_volume(m));
    // outside the cube there is no chunk
    assert!(tree.get_chunk_node(20, 0, 0).is_none());
}
