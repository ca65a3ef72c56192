// Chunk meshes and the budgeted streaming controller.

use voxel_svo::chunk::FaceDir;
use voxel_svo::chunk::face_orientation;
use voxel_svo::octree::SparseVoxelOctree;
use voxel_svo::streaming::StreamingController;
use voxel_svo::structure::Voxel;

#[test]
fn face_orientation_gives_normal_and_offset() {
    let (n, off) = face_orientation(FaceDir::PosX, 4);
    assert_eq!((n.x, n.y, n.z), (1, 0, 0));
    assert_eq!((off.x, off.y, off.z), (2, 0, 0));
    let (n, off) = face_orientation(FaceDir::NegZ, 4);
    assert_eq!((n.x, n.y, n.z), (0, 0, -1));
    assert_eq!((off.x, off.y, off.z), (0, 0, -2));
}

#[test]
fn lone_voxel_mesh_has_six_quads() {
    let mut tree = SparseVoxelOctree::new(2, 16, false, false, false);
    tree.insert(2, 2, 2, Voxel::new(1));
    let m = tree.build_chunk_mesh(0, 0, 0);
    assert_eq!(m.faces.len(), 6);
    assert_eq!(m.positions.len(), 24);
    assert_eq!(m.normals.len(), 24);
    assert_eq!(m.uvs.len(), 24);
    assert_eq!(m.indices.len(), 36);
    // every direction appears once, all for the same cell
    for dir in [
        FaceDir::NegX,
        FaceDir::PosX,
        FaceDir::NegY,
        FaceDir::PosY,
        FaceDir::NegZ,
        FaceDir::PosZ,
    ] {
        assert!(m.faces.contains(&((0, 0, 0), dir)));
    }
    // the index buffer tiles the pattern 0 1 2 2 3 0 per quad
    assert_eq!(&m.indices[0..6], &[0, 1, 2, 2, 3, 0]);
    assert_eq!(&m.indices[6..12], &[4, 5, 6, 6, 7, 4]);
    // the first four vertices lie on the -x face of the cell [0,4)^3
    assert_eq!((m.positions[0].x, m.positions[0].y, m.positions[0].z), (0, 0, 0));
    assert_eq!((m.positions[1].x, m.positions[1].y, m.positions[1].z), (0, 4, 0));
    assert_eq!((m.positions[2].x, m.positions[2].y, m.positions[2].z), (0, 4, 4));
    assert_eq!((m.positions[3].x, m.positions[3].y, m.positions[3].z), (0, 0, 4));
    assert_eq!((m.normals[0].x, m.normals[0].y, m.normals[0].z), (-1, 0, 0));
    assert_eq!(m.uvs[0..4], [(0, 1), (1, 1), (1, 0), (0, 0)]);
}

#[test]
fn shared_faces_are_culled() {
    let mut tree = SparseVoxelOctree::new(2, 16, false, false, false);
    // two voxels sharing a face: 10 visible quads, not 12
    tree.insert(2, 2, 2, Voxel::new(1));
    tree.insert(6, 2, 2, Voxel::new(2));
    let m = tree.build_chunk_mesh(0, 0, 0);
    assert_eq!(m.faces.len(), 10);
    assert!(!m.faces.contains(&((0, 0, 0), FaceDir::PosX)));
    assert!(!m.faces.contains(&((4, 0, 0), FaceDir::NegX)));
}

#[test]
fn empty_chunk_gives_empty_mesh() {
    let tree = SparseVoxelOctree::new(2, 16, false, false, false);
    let m = tree.build_chunk_mesh(0, 0, 0);
    assert_eq!(m.faces.len(), 0);
    assert_eq!(m.positions.len(), 0);
    assert_eq!(m.indices.len(), 0);
}

#[test]
fn spawn_respects_budget_nearest_first() {
    let mut tree = SparseVoxelOctree::new(2, 16, false, false, false);
    // fill every cell of the 4x4x4 grid so all eight chunks have geometry
    for x in 0..4 {
        for y in 0..4 {
            for z in 0..4 {
                tree.insert(-8 + 4 * x + 2, -8 + 4 * y + 2, -8 + 4 * z + 2, Voxel::new(1));
            }
        }
    }
    // a render distance of one chunk edge: four chunk centers are in range
    // of the camera at (2, 2, 2)
    let mut ctl = StreamingController::new(8, 3);
    let plan = ctl.spawn_new(&tree, (2, 2, 2));
    // four candidates; exactly the budget is spawned
    assert_eq!(plan.candidates.len(), 4);
    assert_eq!(plan.spawned.len(), 3);
    // the camera sits in chunk (0, 0, 0): it comes first
    assert_eq!(plan.candidates[0], (0, 0, 0));
    assert_eq!(plan.spawned[0].1, (0, 0, 0));
    // fresh sequential handles
    assert_eq!(plan.spawned[0].0, 0);
    assert_eq!(plan.spawned[1].0, 1);
    assert_eq!(plan.spawned[2].0, 2);
    assert_eq!(ctl.resident.len(), 3);
    // the rest are discovered again on the next tick, none lost
    let plan2 = ctl.spawn_new(&tree, (2, 2, 2));
    assert_eq!(plan2.candidates.len(), 1);
    assert_eq!(plan2.spawned.len(), 1);
    assert_eq!(ctl.resident.len(), 4);
}

#[test]
fn empty_chunks_consume_budget_but_spawn_nothing() {
    let mut tree = SparseVoxelOctree::new(2, 16, false, false, false);
    // only the chunk at (0,0,0) has geometry
    tree.insert(2, 2, 2, Voxel::new(1));
    let mut ctl = StreamingController::new(8, 8);
    let plan = ctl.spawn_new(&tree, (2, 2, 2));
    assert_eq!(plan.candidates.len(), 4);
    assert_eq!(plan.spawned.len(), 1);
    assert_eq!(plan.spawned[0].1, (0, 0, 0));
    assert_eq!(ctl.resident.len(), 1);
}

#[test]
fn evict_drops_out_of_range_chunks() {
    let mut tree = SparseVoxelOctree::new(2, 16, false, false, false);
    tree.insert(2, 2, 2, Voxel::new(1));
    let mut ctl = StreamingController::new(20, 8);
    let plan = ctl.spawn_new(&tree, (2, 2, 2));
    assert!(plan.spawned.len() >= 1);
    let handle = plan.spawned[0].0;
    // the camera leaves: everything resident is now out of range
    let despawned = ctl.evict(&tree, (2000, 2, 2));
    assert!(despawned.contains(&handle));
    assert_eq!(ctl.resident.len(), 0);
}

#[test]
fn rebuild_requeues_beyond_budget() {
    let mut tree = SparseVoxelOctree::new(2, 16, false, false, false);
    // edits in two different chunks mark both dirty
    tree.insert(2, 2, 2, Voxel::new(1));
    tree.insert(-6, -6, -6, Voxel::new(2));
    assert_eq!(tree.dirty.len(), 2);
    let mut ctl = StreamingController::new(100, 1);
    let out = ctl.rebuild_dirty(&mut tree, (2, 2, 2));
    // the queue held both chunks nearest first; one was rebuilt, the other
    // went back into the dirty set rather than being dropped
    assert_eq!(out.queue.len(), 2);
    assert_eq!(out.queue[0], (0, 0, 0));
    assert_eq!(out.spawned.len(), 1);
    assert_eq!(out.spawned[0].1, (0, 0, 0));
    assert_eq!(tree.dirty, vec![(-1, -1, -1)]);
    // a second tick drains the remainder
    let out2 = ctl.rebuild_dirty(&mut tree, (2, 2, 2));
    assert_eq!(out2.queue, vec![(-1, -1, -1)]);
    assert_eq!(out2.spawned.len(), 1);
    assert_eq!(tree.dirty.len(), 0);
}

#[test]
fn rebuild_despawns_stale_renderable() {
    let mut tree = SparseVoxelOctree::new(2, 16, false, false, false);
    tree.insert(2, 2, 2, Voxel::new(1));
    let mut ctl = StreamingController::new(100, 4);
    let plan = ctl.spawn_new(&tree, (2, 2, 2));
    assert_eq!(plan.spawned.len(), 1);
    let old_handle = plan.spawned[0].0;
    // the voxel is removed: the chunk is dirty and now empty
    tree.remove(2, 2, 2);
    let out = ctl.rebuild_dirty(&mut tree, (2, 2, 2));
    assert!(out.despawned.contains(&old_handle));
    assert_eq!(out.spawned.len(), 0);
    assert_eq!(ctl.resident.len(), 0);
}
