//! The octree's data types and their mathematical model.
//!
//! A node is either a leaf holding at most one voxel, or an internal node
//! with exactly eight children indexed by the sign bits of (x, y, z) around
//! the node's center (bit 0 = x, bit 1 = y, bit 2 = z). The model of a tree
//! of depth `d` is the partial function from cell indices in `[0, 2^d)^3`
//! to voxels given by [`node_get`].

use vstd::prelude::*;
use crate::coords::{pow2, SIZE_LIMIT};

verus! {

broadcast use crate::coords::lemma_pow2_pos;

/// A voxel payload: a color packed as 0xRRGGBBAA. A voxel owns no position;
/// its position is implicit in its cell of the octree.
#[derive(Clone, Copy, PartialEq, Eq, Structural, Debug)]
pub struct Voxel {
    pub color: u32,
}

impl Voxel {
    /// Creates a voxel with the given packed color.
    pub fn new(color: u32) -> (v: Voxel)
        ensures
            v == (Voxel { color }),
    {
        Voxel { color }
    }
}

/// A node of the sparse octree: a leaf with at most one voxel, or an
/// internal node with exactly eight children.
pub enum OctreeNode {
    Leaf { voxel: Option<Voxel> },
    Internal { children: Vec<OctreeNode> },
}

/// An empty leaf: no voxel, no children.
pub open spec fn node_is_empty_leaf(node: OctreeNode) -> bool {
    match node {
        OctreeNode::Leaf { voxel } => voxel is None,
        OctreeNode::Internal { .. } => false,
    }
}

/// Whether any leaf of the subtree holds a voxel.
pub open spec fn node_has_voxels(node: OctreeNode) -> bool
    decreases node,
{
    match node {
        OctreeNode::Leaf { voxel } => voxel is Some,
        OctreeNode::Internal { children } => exists|i: int|
            0 <= i < children@.len() && node_has_voxels(#[trigger] children@[i]),
    }
}

/// Structural well-formedness of a subtree with `d` levels below it:
/// internal nodes have exactly eight children and appear only above the
/// finest level, and a voxel sits only at the finest level.
pub open spec fn node_wf(node: OctreeNode, d: nat) -> bool
    decreases d,
{
    match node {
        OctreeNode::Leaf { voxel } => voxel is Some ==> d == 0,
        OctreeNode::Internal { children } => d >= 1 && children@.len() == 8 && (forall|i: int|
            0 <= i < 8 ==> node_wf(#[trigger] children@[i], (d - 1) as nat)),
    }
}

/// Eager pruning: every internal node has a voxel somewhere beneath it.
/// An all-empty subtree is always a single childless leaf.
pub open spec fn node_tidy(node: OctreeNode) -> bool
    decreases node,
{
    match node {
        OctreeNode::Leaf { .. } => true,
        OctreeNode::Internal { children } => node_has_voxels(node) && (forall|i: int|
            0 <= i < children@.len() ==> node_tidy(#[trigger] children@[i])),
    }
}

/// The voxel of cell `(i, j, k)` of a subtree with `d` levels below it,
/// where each axis index ranges over `[0, 2^d)`. Descends one level by
/// splitting off the top bit of each index.
pub open spec fn node_get(node: OctreeNode, i: int, j: int, k: int, d: nat) -> Option<Voxel>
    decreases d,
{
    match node {
        OctreeNode::Leaf { voxel } => voxel,
        OctreeNode::Internal { children } => {
            if d == 0 {
                None
            } else {
                let h = pow2((d - 1) as nat);
                let bx: int = if i >= h {
                    1
                } else {
                    0
                };
                let by: int = if j >= h {
                    1
                } else {
                    0
                };
                let bz: int = if k >= h {
                    1
                } else {
                    0
                };
                node_get(children@[bx + 2 * by + 4 * bz], i - bx * h, j - by * h, k - bz * h, (d
                    - 1) as nat)
            }
        },
    }
}

impl OctreeNode {
    /// Creates a new empty leaf node.
    pub fn new() -> (node: OctreeNode)
        ensures
            node_is_empty_leaf(node),
            node == (OctreeNode::Leaf { voxel: None::<Voxel> }),
    {
        OctreeNode::Leaf { voxel: None }
    }

    /// Whether this node is an empty leaf: no voxel and no children.
    pub fn is_empty(&self) -> (r: bool)
        ensures
            r == node_is_empty_leaf(*self),
    {
        match self {
            OctreeNode::Leaf { voxel } => voxel.is_none(),
            OctreeNode::Internal { .. } => false,
        }
    }
}

/// An empty subtree models the empty partial function: every cell is `None`.
pub proof fn lemma_no_voxels_no_cells(node: OctreeNode, d: nat)
    requires
        node_wf(node, d),
        !node_has_voxels(node),
    ensures
        forall|i: int, j: int, k: int| node_get(node, i, j, k, d) is None,
    decreases d,
{
    match node {
        OctreeNode::Leaf { voxel } => {
        },
        OctreeNode::Internal { children } => {
            assert(d >= 1);
            assert forall|i: int, j: int, k: int| node_get(node, i, j, k, d) is None by {
                let h = pow2((d - 1) as nat);
                let bx: int = if i >= h {
                    1
                } else {
                    0
                };
                let by: int = if j >= h {
                    1
                } else {
                    0
                };
                let bz: int = if k >= h {
                    1
                } else {
                    0
                };
                let c = bx + 2 * by + 4 * bz;
                assert(0 <= c < 8);
                assert(!node_has_voxels(children@[c]));
                assert(node_wf(children@[c], (d - 1) as nat));
                lemma_no_voxels_no_cells(children@[c], (d - 1) as nat);
                assert(node_get(node, i, j, k, d) == node_get(
                    children@[c],
                    i - bx * h,
                    j - by * h,
                    k - bz * h,
                    (d - 1) as nat,
                ));
            }
        },
    }
}

/// A subtree holds a voxel exactly when some cell of its model does.
pub proof fn lemma_has_voxels_iff_cell(node: OctreeNode, d: nat)
    requires
        node_wf(node, d),
    ensures
        node_has_voxels(node) <==> exists|i: int, j: int, k: int|
            0 <= i < pow2(d) && 0 <= j < pow2(d) && 0 <= k < pow2(d) && node_get(
                node,
                i,
                j,
                k,
                d,
            ) is Some,
    decreases d,
{
    match node {
        OctreeNode::Leaf { voxel } => {
            if voxel is Some {
                assert(node_get(node, 0, 0, 0, d) is Some);
                assert(0 <= 0 < pow2(d));
            }
        },
        OctreeNode::Internal { children } => {
            let h = pow2((d - 1) as nat);
            if node_has_voxels(node) {
                let c = choose|c: int|
                    0 <= c < children@.len() && node_has_voxels(children@[c]);
                lemma_has_voxels_iff_cell(children@[c], (d - 1) as nat);
                let (i0, j0, k0) = choose|i0: int, j0: int, k0: int|
                    0 <= i0 < pow2((d - 1) as nat) && 0 <= j0 < pow2((d - 1) as nat) && 0 <= k0
                        < pow2((d - 1) as nat) && (#[trigger] node_get(
                        children@[c],
                        i0,
                        j0,
                        k0,
                        (d - 1) as nat,
                    )) is Some;
                let bx: int = if c == 1 || c == 3 || c == 5 || c == 7 {
                    1
                } else {
                    0
                };
                let by: int = if c == 2 || c == 3 || c == 6 || c == 7 {
                    1
                } else {
                    0
                };
                let bz: int = if c >= 4 {
                    1
                } else {
                    0
                };
                assert(c == bx + 2 * by + 4 * bz);
                let i = i0 + bx * h;
                let j = j0 + by * h;
                let k = k0 + bz * h;
                assert(pow2(d) == 2 * h);
                assert((if i >= h { 1int } else { 0 }) == bx);
                assert((if j >= h { 1int } else { 0 }) == by);
                assert((if k >= h { 1int } else { 0 }) == bz);
                assert(node_get(node, i, j, k, d) == node_get(
                    children@[c],
                    i0,
                    j0,
                    k0,
                    (d - 1) as nat,
                ));
                assert(0 <= i < pow2(d) && 0 <= j < pow2(d) && 0 <= k < pow2(d));
            }
            if exists|i: int, j: int, k: int|
                0 <= i < pow2(d) && 0 <= j < pow2(d) && 0 <= k < pow2(d) && (#[trigger] node_get(
                    node,
                    i,
                    j,
                    k,
                    d,
                )) is Some {
                let (i, j, k) = choose|i: int, j: int, k: int|
                    0 <= i < pow2(d) && 0 <= j < pow2(d) && 0 <= k < pow2(d) && (#[trigger] node_get(
                        node,
                        i,
                        j,
                        k,
                        d,
                    )) is Some;
                let bx: int = if i >= h {
                    1
                } else {
                    0
                };
                let by: int = if j >= h {
                    1
                } else {
                    0
                };
                let bz: int = if k >= h {
                    1
                } else {
                    0
                };
                let c = bx + 2 * by + 4 * bz;
                assert(0 <= c < 8);
                assert(pow2(d) == 2 * h);
                lemma_has_voxels_iff_cell(children@[c], (d - 1) as nat);
                assert(0 <= i - bx * h < h && 0 <= j - by * h < h && 0 <= k - bz * h < h);
                assert(node_get(node, i, j, k, d) == node_get(
                    children@[c],
                    i - bx * h,
                    j - by * h,
                    k - bz * h,
                    (d - 1) as nat,
                ));
                assert(node_has_voxels(children@[c]));
            }
        },
    }
}

} // verus!
