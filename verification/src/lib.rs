//! A sparse voxel octree for large, mostly-empty 3D worlds.
//!
//! World space is measured in integer "ticks", a fixed-point unit chosen by
//! the caller; every coordinate the library touches is an exact `i64` tick
//! count, so alignment, containment and subdivision are exact and free of
//! rounding. The octree stores at most one voxel per grid cell at its finest
//! depth, supports point edits with eager pruning, dynamic root growth,
//! ray intersection with nearest-hit selection, chunked mesh extraction with
//! face culling, budgeted chunk streaming, and a floating-origin coordinate
//! system that keeps render-facing coordinates small.

pub mod chunk;
pub mod coords;
pub mod laws;
pub mod markers;
pub mod octree;
pub mod origin;
pub mod raycast;
pub mod streaming;
pub mod structure;
