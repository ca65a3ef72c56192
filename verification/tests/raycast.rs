// Ray / box intersection and nearest-hit raycasts against the octree.

use voxel_svo::coords::Vec3i;
use voxel_svo::octree::SparseVoxelOctree;
use voxel_svo::raycast::{Ray, AABB};
use voxel_svo::structure::Voxel;

fn ray(ox: i64, oy: i64, oz: i64, dx: i64, dy: i64, dz: i64) -> Ray {
    Ray { origin: Vec3i::new(ox, oy, oz), direction: Vec3i::new(dx, dy, dz) }
}

fn aabb(ax: i64, ay: i64, az: i64, bx: i64, by: i64, bz: i64) -> AABB {
    AABB { min: Vec3i::new(ax, ay, az), max: Vec3i::new(bx, by, bz) }
}

#[test]
fn slab_test_hits_and_misses() {
    let tree = SparseVoxelOctree::new(2, 16, false, false, false);
    let b = aabb(0, 0, 0, 4, 4, 4);
    // straight through the box
    assert!(tree.ray_intersects_aabb(&ray(-8, 2, 2, 1, 0, 0), &b));
    // aimed away from it
    assert!(!tree.ray_intersects_aabb(&ray(-8, 2, 2, -1, 0, 0), &b));
    // parallel to the box, off to one side
    assert!(!tree.ray_intersects_aabb(&ray(-8, 9, 2, 1, 0, 0), &b));
    // starting inside
    assert!(tree.ray_intersects_aabb(&ray(2, 2, 2, 0, 0, 1), &b));
    // a diagonal hit
    assert!(tree.ray_intersects_aabb(&ray(-2, -2, -2, 1, 1, 1), &b));
}

#[test]
fn slab_test_reports_entry_and_normal() {
    let tree = SparseVoxelOctree::new(2, 16, false, false, false);
    let b = aabb(0, 0, 0, 4, 4, 4);
    let hit = tree.ray_intersects_aabb_with_normal(&ray(-8, 2, 2, 2, 0, 0), &b);
    let (enter, exit, normal) = hit.expect("the ray crosses the box");
    // entry at x = 0: t = (0 - -8) / 2 = 8/2; exit at x = 4: t = 12/2
    assert_eq!(enter.num, 8);
    assert_eq!(enter.den, 2);
    assert_eq!(exit.num, 12);
    assert_eq!(exit.den, 2);
    assert_eq!((normal.x, normal.y, normal.z), (-1, 0, 0));
}

#[test]
fn slab_test_normal_against_ray() {
    let tree = SparseVoxelOctree::new(2, 16, false, false, false);
    let b = aabb(0, 0, 0, 4, 4, 4);
    // coming from +y, the entered face points +y
    let hit = tree.ray_intersects_aabb_with_normal(&ray(2, 9, 2, 0, -1, 0), &b);
    let (enter, _, normal) = hit.expect("the ray crosses the box");
    assert_eq!(enter.num, 5);
    assert_eq!(enter.den, 1);
    assert_eq!((normal.x, normal.y, normal.z), (0, 1, 0));
}

#[test]
fn child_bounds_halve_the_box() {
    let tree = SparseVoxelOctree::new(2, 16, false, false, false);
    let b = aabb(-8, -8, -8, 8, 8, 8);
    let c0 = tree.compute_child_bounds(&b, 0);
    assert_eq!((c0.min.x, c0.min.y, c0.min.z), (-8, -8, -8));
    assert_eq!((c0.max.x, c0.max.y, c0.max.z), (0, 0, 0));
    let c7 = tree.compute_child_bounds(&b, 7);
    assert_eq!((c7.min.x, c7.min.y, c7.min.z), (0, 0, 0));
    assert_eq!((c7.max.x, c7.max.y, c7.max.z), (8, 8, 8));
    let c1 = tree.compute_child_bounds(&b, 1);
    assert_eq!((c1.min.x, c1.min.y, c1.min.z), (0, -8, -8));
    assert_eq!((c1.max.x, c1.max.y, c1.max.z), (8, 0, 0));
}

#[test]
fn raycast_misses_empty_tree() {
    let tree = SparseVoxelOctree::new(2, 16, false, false, false);
    assert!(tree.raycast(&ray(-20, 2, 2, 1, 0, 0)).is_none());
}

#[test]
fn raycast_returns_nearer_of_two_voxels() {
    let mut tree = SparseVoxelOctree::new(2, 16, false, false, false);
    // two voxels on one ray: cells [0,4) and [4,8) along x are filled at
    // world x = 2 and x = 6; the ray travels +x from far on the left
    tree.insert(6, 2, 2, Voxel::new(2));
    tree.insert(2, 2, 2, Voxel::new(1));
    let hit = tree.raycast(&ray(-20, 2, 2, 1, 0, 0)).expect("two voxels on the ray");
    // the nearer cell is entered at x = 0: t = 20/1
    assert_eq!((hit.cell.x, hit.cell.y, hit.cell.z), (0, 0, 0));
    assert_eq!(hit.t.num, 20);
    assert_eq!(hit.t.den, 1);
    assert_eq!(hit.depth, 2);
    assert_eq!((hit.normal.x, hit.normal.y, hit.normal.z), (-1, 0, 0));
}

#[test]
fn raycast_nearest_is_not_traversal_order() {
    let mut tree = SparseVoxelOctree::new(2, 16, false, false, false);
    // the voxel in the lower-index child is farther along the ray
    tree.insert(-6, 2, 2, Voxel::new(1));
    tree.insert(6, 2, 2, Voxel::new(2));
    let hit = tree.raycast(&ray(20, 2, 2, -1, 0, 0)).expect("two voxels on the ray");
    // travelling -x, the nearer cell is [4, 8), entered at its +x face
    assert_eq!((hit.cell.x, hit.cell.y, hit.cell.z), (4, 0, 0));
    assert_eq!(hit.t.num, 12);
    assert_eq!(hit.t.den, 1);
    assert_eq!((hit.normal.x, hit.normal.y, hit.normal.z), (1, 0, 0));
}

#[test]
fn raycast_misses_voxels_off_the_ray() {
    let mut tree = SparseVoxelOctree::new(2, 16, false, false, false);
    tree.insert(2, 6, 2, Voxel::new(1));
    assert!(tree.raycast(&ray(-20, 2, 2, 1, 0, 0)).is_none());
}
