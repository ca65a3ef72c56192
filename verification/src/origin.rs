//! The floating-origin coordinate system.
//!
//! Every tracked object's authoritative position is an exact tick count
//! (`DoubleTransform`), and a single accumulated `WorldOffset` relates local
//! positions to true world positions: `true = offset + local`. Once per tick
//! the world recenters around the camera: the camera's local position moves
//! into the offset and is subtracted from every tracked object, so the
//! camera's local position returns to zero while every true position stays
//! exactly the same. Render-facing translations are the small differences
//! `object - camera`, safe to cast down to single precision by the renderer.

use vstd::prelude::*;
use crate::coords::Vec3i;

verus! {

/// Magnitude cap on tracked coordinates: keeps every recentring subtraction
/// and squared length exactly representable.
pub const ORIGIN_LIMIT: i64 = 0x1000_0000_0000_0000;

/// The accumulated recentring applied to the whole world.
pub struct WorldOffset(pub Vec3i);

/// A tracked object's authoritative translation, in ticks.
pub struct DoubleTransform {
    pub translation: Vec3i,
}

impl DoubleTransform {
    pub fn new(translation: Vec3i) -> (t: DoubleTransform)
        ensures
            t.translation == translation,
    {
        DoubleTransform { translation }
    }
}

/// The true world position: offset plus local position, componentwise.
pub open spec fn true_position(offset: Vec3i, local: Vec3i) -> (int, int, int) {
    (
        offset.x as int + local.x as int,
        offset.y as int + local.y as int,
        offset.z as int + local.z as int,
    )
}

/// The squared length of a vector.
pub open spec fn len_sq(v: Vec3i) -> int {
    (v.x as int) * (v.x as int) + (v.y as int) * (v.y as int) + (v.z as int) * (v.z as int)
}

/// The true world position of a tracked object.
pub fn get_true_world_position(offset: &WorldOffset, transform: &DoubleTransform) -> (r: Vec3i)
    requires
        -ORIGIN_LIMIT <= offset.0.x <= ORIGIN_LIMIT,
        -ORIGIN_LIMIT <= offset.0.y <= ORIGIN_LIMIT,
        -ORIGIN_LIMIT <= offset.0.z <= ORIGIN_LIMIT,
        -ORIGIN_LIMIT <= transform.translation.x <= ORIGIN_LIMIT,
        -ORIGIN_LIMIT <= transform.translation.y <= ORIGIN_LIMIT,
        -ORIGIN_LIMIT <= transform.translation.z <= ORIGIN_LIMIT,
    ensures
        r.view3() == true_position(offset.0, transform.translation),
{
    Vec3i {
        x: offset.0.x + transform.translation.x,
        y: offset.0.y + transform.translation.y,
        z: offset.0.z + transform.translation.z,
    }
}

/// All components within the floating-origin magnitude cap.
pub open spec fn origin_bounded(v: Vec3i) -> bool {
    &&& -ORIGIN_LIMIT <= v.x <= ORIGIN_LIMIT
    &&& -ORIGIN_LIMIT <= v.y <= ORIGIN_LIMIT
    &&& -ORIGIN_LIMIT <= v.z <= ORIGIN_LIMIT
}

/// The floating-origin state: the world offset, the camera's local position
/// and the local positions of every tracked non-camera object.
pub struct FloatingOrigin {
    pub offset: Vec3i,
    pub camera: Vec3i,
    pub objects: Vec<DoubleTransform>,
}

impl FloatingOrigin {
    pub open spec fn wf(self) -> bool {
        &&& origin_bounded(self.offset)
        &&& origin_bounded(self.camera)
        &&& forall|i: int|
            0 <= i < self.objects@.len() ==> origin_bounded(
                (#[trigger] self.objects@[i]).translation,
            )
    }

    /// Recenter the world around the camera when its local position has
    /// drifted beyond the threshold (compared by squared length): the
    /// camera's local position moves into the world offset and out of every
    /// tracked object, leaving every true position — offset plus local —
    /// exactly unchanged, and the camera's local position exactly zero.
    pub fn recenter(&mut self, threshold_sq: i128)
        requires
            old(self).wf(),
        ensures
            final(self).objects@.len() == old(self).objects@.len(),
            // true positions are identical before and after
            forall|i: int|
                0 <= i < old(self).objects@.len() ==> true_position(
                    final(self).offset,
                    (#[trigger] final(self).objects@[i]).translation,
                ) == true_position(old(self).offset, old(self).objects@[i].translation),
            true_position(final(self).offset, final(self).camera) == true_position(
                old(self).offset,
                old(self).camera,
            ),
            // past the threshold the camera returns exactly to zero
            len_sq(old(self).camera) > threshold_sq ==> final(self).camera == (Vec3i {
                x: 0,
                y: 0,
                z: 0,
            }) && final(self).offset.view3() == true_position(old(self).offset, old(self).camera),
            // under it, nothing moves
            len_sq(old(self).camera) <= threshold_sq ==> *final(self) == *old(self),
    {
        let cx = self.camera.x;
        let cy = self.camera.y;
        let cz = self.camera.z;
        proof {
            lemma_len_sq_fits(cx as int, cy as int, cz as int);
        }
        let l2 = (cx as i128) * (cx as i128) + (cy as i128) * (cy as i128) + (cz as i128) * (
        cz as i128);
        if l2 > threshold_sq {
            self.offset = Vec3i { x: self.offset.x + cx, y: self.offset.y + cy, z: self.offset.z + cz };
            let n = self.objects.len();
            let mut i: usize = 0;
            while i < n
                invariant
                    i <= n,
                    n == self.objects@.len(),
                    n == old(self).objects@.len(),
                    -ORIGIN_LIMIT <= cx <= ORIGIN_LIMIT,
                    -ORIGIN_LIMIT <= cy <= ORIGIN_LIMIT,
                    -ORIGIN_LIMIT <= cz <= ORIGIN_LIMIT,
                    cx == old(self).camera.x && cy == old(self).camera.y && cz == old(
                        self,
                    ).camera.z,
                    self.offset.view3() == true_position(old(self).offset, old(self).camera),
                    self.camera == old(self).camera,
                    forall|u: int|
                        0 <= u < n ==> origin_bounded((#[trigger] old(self).objects@[u]).translation),
                    forall|u: int|
                        i <= u < n ==> #[trigger] self.objects@[u] == old(self).objects@[u],
                    forall|u: int|
                        0 <= u < i ==> (#[trigger] self.objects@[u]).translation.view3() == (
                        old(self).objects@[u].translation.x - cx,
                        old(self).objects@[u].translation.y - cy,
                        old(self).objects@[u].translation.z - cz,
                        ),
                decreases n - i,
            {
                let t = self.objects[i].translation;
                let moved = DoubleTransform {
                    translation: Vec3i { x: t.x - cx, y: t.y - cy, z: t.z - cz },
                };
                self.objects.remove(i);
                self.objects.insert(i, moved);
                i = i + 1;
            }
            self.camera = Vec3i { x: 0, y: 0, z: 0 };
            proof {
                assert(len_sq(old(self).camera) > threshold_sq);
            }
        }
    }

    /// The render-facing translation of every tracked object: its local
    /// position relative to the camera, small whenever object and camera are
    /// near each other, however far both sit from the world's origin.
    pub fn render_translations(&self) -> (r: Vec<Vec3i>)
        requires
            self.wf(),
        ensures
            r@.len() == self.objects@.len(),
            forall|i: int|
                0 <= i < self.objects@.len() ==> (#[trigger] r@[i]).view3() == (
                self.objects@[i].translation.x - self.camera.x,
                self.objects@[i].translation.y - self.camera.y,
                self.objects@[i].translation.z - self.camera.z,
                ),
    {
        let mut r: Vec<Vec3i> = Vec::new();
        let n = self.objects.len();
        let mut i: usize = 0;
        while i < n
            invariant
                i <= n,
                n == self.objects@.len(),
                self.wf(),
                r@.len() == i,
                forall|u: int|
                    0 <= u < i ==> (#[trigger] r@[u]).view3() == (
                    self.objects@[u].translation.x - self.camera.x,
                    self.objects@[u].translation.y - self.camera.y,
                    self.objects@[u].translation.z - self.camera.z,
                    ),
            decreases n - i,
        {
            let t = self.objects[i].translation;
            r.push(
                Vec3i {
                    x: t.x - self.camera.x,
                    y: t.y - self.camera.y,
                    z: t.z - self.camera.z,
                },
            );
            i = i + 1;
        }
        r
    }
}

/// The squared length of a bounded vector fits comfortably in `i128`.
proof fn lemma_len_sq_fits(x: int, y: int, z: int)
    requires
        -ORIGIN_LIMIT <= x <= ORIGIN_LIMIT,
        -ORIGIN_LIMIT <= y <= ORIGIN_LIMIT,
        -ORIGIN_LIMIT <= z <= ORIGIN_LIMIT,
    ensures
        0 <= x * x <= 0x1000_0000_0000_0000_0000_0000_0000_0000,
        0 <= y * y <= 0x1000_0000_0000_0000_0000_0000_0000_0000,
        0 <= z * z <= 0x1000_0000_0000_0000_0000_0000_0000_0000,
{
    assert(0 <= x * x <= 0x1000_0000_0000_0000_0000_0000_0000_0000 && 0 <= y * y
        <= 0x1000_0000_0000_0000_0000_0000_0000_0000 && 0 <= z * z
        <= 0x1000_0000_0000_0000_0000_0000_0000_0000) by (nonlinear_arith)
        requires
            -ORIGIN_LIMIT <= x <= ORIGIN_LIMIT,
            -ORIGIN_LIMIT <= y <= ORIGIN_LIMIT,
            -ORIGIN_LIMIT <= z <= ORIGIN_LIMIT,
            ORIGIN_LIMIT == 0x1000_0000_0000_0000,
    ;
}

} // verus!
