//! Marker types naming the library's subsystems.
//!
//! A host engine wires the library's pieces into its own schedule; these
//! zero-sized markers identify the groups of systems a host registers: the
//! camera controls feeding edits and rays, the floating-origin pass, and the
//! interface panels. They carry no data and no behavior of their own.

use vstd::prelude::*;

verus! {

/// Marks the camera subsystem: the host's look/move controls that supply
/// the camera position each tick and turn pointer input into rays for
/// [`crate::octree::SparseVoxelOctree::raycast`].
pub struct CameraPlugin;

/// Marks the floating-origin subsystem: the host pass that advances
/// [`crate::origin::FloatingOrigin`] once per tick, before streaming.
pub struct LargeTransformPlugin;

/// Marks the interface subsystem: the host's readouts of camera speed and
/// position.
pub struct UiPlugin;

} // verus!
