// The floating-origin coordinate system: recentring keeps true positions.

use voxel_svo::coords::Vec3i;
use voxel_svo::origin::{DoubleTransform, FloatingOrigin, WorldOffset, get_true_world_position};

#[test]
fn true_position_is_offset_plus_local() {
    let offset = WorldOffset(Vec3i::new(100_000, 0, -50));
    let t = DoubleTransform::new(Vec3i::new(7, -3, 50));
    let p = get_true_world_position(&offset, &t);
    assert_eq!((p.x, p.y, p.z), (100_007, -3, 0));
}

#[test]
fn recenter_zeroes_camera_and_keeps_true_positions() {
    let mut fo = FloatingOrigin {
        offset: Vec3i::new(100, 0, 0),
        camera: Vec3i::new(50, -20, 0),
        objects: vec![
            DoubleTransform::new(Vec3i::new(60, 5, 5)),
            DoubleTransform::new(Vec3i::new(-10, 0, 3)),
        ],
    };
    // true positions before: offset + local
    let before: Vec<(i64, i64, i64)> = fo
        .objects
        .iter()
        .map(|o| {
            (
                fo.offset.x + o.translation.x,
                fo.offset.y + o.translation.y,
                fo.offset.z + o.translation.z,
            )
        })
        .collect();
    // |camera|^2 = 2500 + 400 exceeds the threshold: recenter
    fo.recenter(100);
    assert_eq!((fo.camera.x, fo.camera.y, fo.camera.z), (0, 0, 0));
    assert_eq!((fo.offset.x, fo.offset.y, fo.offset.z), (150, -20, 0));
    let after: Vec<(i64, i64, i64)> = fo
        .objects
        .iter()
        .map(|o| {
            (
                fo.offset.x + o.translation.x,
                fo.offset.y + o.translation.y,
                fo.offset.z + o.translation.z,
            )
        })
        .collect();
    assert_eq!(before, after);
}

#[test]
fn recenter_below_threshold_is_noop() {
    let mut fo = FloatingOrigin {
        offset: Vec3i::new(100, 0, 0),
        camera: Vec3i::new(3, 0, 0),
        objects: vec![DoubleTransform::new(Vec3i::new(60, 5, 5))],
    };
    fo.recenter(100);
    assert_eq!((fo.camera.x, fo.camera.y, fo.camera.z), (3, 0, 0));
    assert_eq!((fo.offset.x, fo.offset.y, fo.offset.z), (100, 0, 0));
    assert_eq!(
        (fo.objects[0].translation.x, fo.objects[0].translation.y, fo.objects[0].translation.z),
        (60, 5, 5),
    );
}

#[test]
fn render_translations_are_camera_relative() {
    let fo = FloatingOrigin {
        offset: Vec3i::new(1_000_000, 0, 0),
        camera: Vec3i::new(500, 20, -3),
        objects: vec![DoubleTransform::new(Vec3i::new(510, 25, 0))],
    };
    let rel = fo.render_translations();
    assert_eq!(rel.len(), 1);
    // small values near the camera, however large the offset grows
    assert_eq!((rel[0].x, rel[0].y, rel[0].z), (10, 5, 3));
}
