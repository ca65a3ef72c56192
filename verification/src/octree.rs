//! The sparse voxel octree: a cube of edge `size` ticks centered on the
//! origin, subdivided `max_depth` times. Its model is the partial function
//! [`SparseVoxelOctree::voxel_at_ticks`] from tick positions to voxels;
//! two positions in the same finest-depth cell map to the same voxel.

use vstd::prelude::*;
use vstd::arithmetic::div_mod::{
    lemma_fundamental_div_mod, lemma_div_multiples_vanish, lemma_hoist_over_denominator,
};
use crate::coords::{
    pow2, pow2_i64, floor_div, spec_align, align_to_spacing, COORD_LIMIT, SIZE_LIMIT,
    lemma_pow2_adds, lemma_pow2_increases,
};
use crate::structure::{
    Voxel, OctreeNode, node_wf, node_tidy, node_get, node_has_voxels, node_is_empty_leaf,
};

verus! {

broadcast use crate::coords::lemma_pow2_pos, vstd::std_specs::vec::axiom_vec_index_decreases;

/// A chunk coordinate: the integer triple identifying one cubic chunk of
/// voxels (see [`SparseVoxelOctree::compute_chunk_coords`]).
pub type ChunkCoord = (i64, i64, i64);

/// No chunk coordinate appears twice in the dirty list: it is a set.
pub open spec fn dirty_wf(dirty: Seq<ChunkCoord>) -> bool {
    forall|a: int, b: int| 0 <= a < b < dirty.len() ==> dirty[a] != dirty[b]
}

/// The root of the sparse voxel octree.
pub struct SparseVoxelOctree {
    pub root: OctreeNode,
    pub max_depth: u32,
    pub size: i64,
    pub show_wireframe: bool,
    pub show_world_grid: bool,
    pub show_chunks: bool,
    /// Chunk coordinates whose voxel content changed since their last mesh
    /// build; a set, drained by the streaming controller.
    pub dirty: Vec<ChunkCoord>,
}

impl SparseVoxelOctree {
    /// Cell spacing at the finest depth, in ticks. Doubling `size` and
    /// incrementing `max_depth` together leaves this unchanged, so the
    /// finest voxel grid is stable across root growth.
    pub open spec fn s_min(self) -> int {
        self.size as int / pow2(self.max_depth as nat)
    }

    /// Half the cube's edge length: the cube spans `[-half, half)` on each
    /// axis.
    pub open spec fn half(self) -> int {
        self.size as int / 2
    }

    /// Cell spacing at depth `d` (clamped to `max_depth`), in ticks.
    pub open spec fn spacing_at(self, d: nat) -> int {
        if d <= self.max_depth as nat {
            self.size as int / pow2(d)
        } else {
            self.s_min()
        }
    }

    pub open spec fn svo_wf(self) -> bool {
        &&& 1 <= self.max_depth <= 46
        &&& 0 < self.size as int <= SIZE_LIMIT
        &&& self.size as int % pow2((self.max_depth + 1) as nat) == 0
        &&& node_wf(self.root, self.max_depth as nat)
        &&& node_tidy(self.root)
        &&& dirty_wf(self.dirty@)
    }

    /// Whether a cube of edge `size` centered on the origin contains the
    /// position: `[-size/2, size/2)` on each axis.
    pub open spec fn cube_contains(size: int, x: int, y: int, z: int) -> bool {
        &&& -(size / 2) <= x < size / 2
        &&& -(size / 2) <= y < size / 2
        &&& -(size / 2) <= z < size / 2
    }

    pub open spec fn contains_ticks(self, x: int, y: int, z: int) -> bool {
        Self::cube_contains(self.size as int, x, y, z)
    }

    /// The cell index along one axis for a tick position inside the cube:
    /// the cube's cells are numbered `0 .. 2^max_depth` from the low face.
    pub open spec fn cell_index(self, w: int) -> int {
        (w + self.half()) / self.s_min()
    }

    /// The voxel stored for the finest-depth cell containing the position,
    /// or `None` if the position is outside the cube or its cell is empty.
    pub open spec fn voxel_at_ticks(self, x: int, y: int, z: int) -> Option<Voxel> {
        if self.contains_ticks(x, y, z) {
            node_get(
                self.root,
                self.cell_index(x),
                self.cell_index(y),
                self.cell_index(z),
                self.max_depth as nat,
            )
        } else {
            None
        }
    }

    /// Basic consequences of well-formedness, used throughout: the finest
    /// spacing is a positive even number of ticks, and the cube's dimensions
    /// are exact multiples of it.
    pub proof fn lemma_dims(self)
        requires
            self.svo_wf(),
        ensures
            self.s_min() >= 2,
            self.s_min() % 2 == 0,
            self.s_min() * pow2(self.max_depth as nat) == self.size as int,
            self.half() * 2 == self.size as int,
            self.half() == self.s_min() * pow2((self.max_depth - 1) as nat),
            self.half() % self.s_min() == 0,
            self.half() / self.s_min() == pow2((self.max_depth - 1) as nat),
            self.s_min() <= self.half(),
    {
        let d = self.max_depth as nat;
        let n = self.size as int;
        let p = pow2(d);
        let q = n / pow2((d + 1) as nat);
        lemma_fundamental_div_mod(n, pow2((d + 1) as nat));
        assert(n == pow2((d + 1) as nat) * q);
        lemma_pow2_adds(d, 1);
        assert(pow2((d + 1) as nat) == p * 2);
        assert(q >= 1) by {
            if q <= 0 {
                assert((p * 2) * q <= 0) by (nonlinear_arith)
                    requires
                        p * 2 > 0,
                        q <= 0,
                ;
            }
        }
        assert(n == p * (2 * q)) by (nonlinear_arith)
            requires
                n == (p * 2) * q,
        ;
        lemma_div_multiples_vanish(2 * q, p);
        assert(self.s_min() == 2 * q);
        assert(n == 2 * (p * q)) by (nonlinear_arith)
            requires
                n == p * (2 * q),
        ;
        lemma_div_multiples_vanish(p * q, 2);
        assert(self.half() == p * q);
        let d1 = (d - 1) as nat;
        lemma_pow2_adds(d1, 1);
        assert(p == pow2(d1) * 2);
        assert(p * q == (2 * q) * pow2(d1)) by (nonlinear_arith)
            requires
                p == pow2(d1) * 2,
        ;
        assert(self.s_min() * p == n) by (nonlinear_arith)
            requires
                self.s_min() == 2 * q,
                n == p * (2 * q),
        ;
        lemma_div_multiples_vanish(pow2(d1), 2 * q);
        assert(((2 * q) * pow2(d1)) / (2 * q) == pow2(d1));
        vstd::arithmetic::div_mod::lemma_mod_multiples_basic(pow2(d1), 2 * q);
        assert(self.half() % self.s_min() == 0);
        assert(pow2(d1) >= 1);
        assert(2 * q <= (2 * q) * pow2(d1)) by (nonlinear_arith)
            requires
                pow2(d1) >= 1,
                q >= 1,
        ;
    }

    /// Creates an octree of the given depth and edge length. The edge
    /// length is in ticks and must be an exact multiple of `2^(max_depth+1)`
    /// so that every cell center is a whole tick.
    pub fn new(
        max_depth: u32,
        size: i64,
        show_wireframe: bool,
        show_world_grid: bool,
        show_chunks: bool,
    ) -> (tree: SparseVoxelOctree)
        requires
            1 <= max_depth <= 46,
            0 < size <= SIZE_LIMIT,
            size as int % pow2((max_depth + 1) as nat) == 0,
        ensures
            tree.svo_wf(),
            tree.max_depth == max_depth,
            tree.size == size,
            tree.show_wireframe == show_wireframe,
            tree.show_world_grid == show_world_grid,
            tree.show_chunks == show_chunks,
            tree.dirty@.len() == 0,
            forall|x: int, y: int, z: int| tree.voxel_at_ticks(x, y, z) is None,
    {
        let tree = SparseVoxelOctree {
            root: OctreeNode::new(),
            max_depth,
            size,
            show_wireframe,
            show_world_grid,
            show_chunks,
            dirty: Vec::new(),
        };
        proof {
            assert(forall|x: int, y: int, z: int| tree.voxel_at_ticks(x, y, z) is None);
        }
        tree
    }

    /// The cell spacing at the given depth, in ticks; depths beyond
    /// `max_depth` clamp to the finest spacing.
    pub fn get_spacing_at_depth(&self, depth: u32) -> (s: i64)
        requires
            self.svo_wf(),
        ensures
            s == self.spacing_at(depth as nat),
            s >= 2,
            s % 2 == 0,
            s as int * pow2((if depth <= self.max_depth { depth } else { self.max_depth }) as nat)
                == self.size as int,
    {
        let eff = if depth < self.max_depth {
            depth
        } else {
            self.max_depth
        };
        let p = pow2_i64(eff);
        let s = floor_div(self.size, p);
        proof {
            let d = self.max_depth as nat;
            let e = eff as nat;
            let n = self.size as int;
            // size == 2^(d+1) * q == 2^e * (2^(d+1-e) * q), so the division is exact
            let q = n / pow2((d + 1) as nat);
            lemma_fundamental_div_mod(n, pow2((d + 1) as nat));
            lemma_pow2_adds(e, (d + 1 - e) as nat);
            let m = pow2((d + 1 - e) as nat) * q;
            assert(n == pow2(e) * m) by (nonlinear_arith)
                requires
                    n == pow2((d + 1) as nat) * q,
                    pow2((d + 1) as nat) == pow2(e) * pow2((d + 1 - e) as nat),
                    m == pow2((d + 1 - e) as nat) * q,
            ;
            lemma_div_multiples_vanish(m, pow2(e));
            assert(s == m);
            // m is even and at least 2: 2^(d+1-e) is even since e <= d
            lemma_pow2_adds((d - e) as nat, 1);
            assert(pow2((d + 1 - e) as nat) == pow2((d - e) as nat) * 2);
            assert(q >= 1) by {
                if q <= 0 {
                    assert(pow2((d + 1) as nat) * q <= 0) by (nonlinear_arith)
                        requires
                            pow2((d + 1) as nat) > 0,
                            q <= 0,
                    ;
                }
            }
            assert(m == 2 * (pow2((d - e) as nat) * q) && m >= 2) by (nonlinear_arith)
                requires
                    m == pow2((d + 1 - e) as nat) * q,
                    pow2((d + 1 - e) as nat) == pow2((d - e) as nat) * 2,
                    pow2((d - e) as nat) >= 1,
                    q >= 1,
            ;
            assert(m % 2 == 0);
            assert(s as int * pow2(e) == n) by (nonlinear_arith)
                requires
                    s == m,
                    n == pow2(e) * m,
            ;
            if depth >= self.max_depth {
                // the clamped spacing is s_min
                assert(self.spacing_at(depth as nat) == n / pow2(d));
            }
        }
        s
    }

    /// Snaps a world position to the center of the cell that contains it at
    /// the given depth (clamped to `max_depth`).
    pub fn normalize_to_voxel_at_depth(&self, world_x: i64, world_y: i64, world_z: i64, depth: u32)
        -> (a: (i64, i64, i64))
        requires
            self.svo_wf(),
            -4 * COORD_LIMIT <= world_x <= 4 * COORD_LIMIT,
            -4 * COORD_LIMIT <= world_y <= 4 * COORD_LIMIT,
            -4 * COORD_LIMIT <= world_z <= 4 * COORD_LIMIT,
        ensures
            a.0 == spec_align(world_x as int, self.spacing_at(depth as nat)),
            a.1 == spec_align(world_y as int, self.spacing_at(depth as nat)),
            a.2 == spec_align(world_z as int, self.spacing_at(depth as nat)),
            2 * world_x - self.spacing_at(depth as nat) < 2 * a.0 <= 2 * world_x + self.spacing_at(
                depth as nat,
            ),
            2 * world_y - self.spacing_at(depth as nat) < 2 * a.1 <= 2 * world_y + self.spacing_at(
                depth as nat,
            ),
            2 * world_z - self.spacing_at(depth as nat) < 2 * a.2 <= 2 * world_z + self.spacing_at(
                depth as nat,
            ),
    {
        let s = self.get_spacing_at_depth(depth);
        proof {
            self.lemma_dims();
            lemma_pow2_increases(0, (if depth <= self.max_depth { depth } else { self.max_depth }) as nat);
            assert(s as int * 1 <= s as int * pow2(
                (if depth <= self.max_depth { depth } else { self.max_depth }) as nat,
            )) by (nonlinear_arith)
                requires
                    s >= 1,
                    1 <= pow2((if depth <= self.max_depth { depth } else { self.max_depth }) as nat),
            ;
        }
        let ax = align_to_spacing(world_x, s);
        let ay = align_to_spacing(world_y, s);
        let az = align_to_spacing(world_z, s);
        (ax, ay, az)
    }

    /// `pow2(47)` is the size cap.
    proof fn lemma_pow2_47()
        ensures
            pow2(47) == SIZE_LIMIT,
    {
        assert(pow2(47) == 0x8000_0000_0000) by {
            reveal_with_fuel(pow2, 48);
        }
    }

    /// A well-formed cube's edge is at least `2^(max_depth+1)` ticks.
    proof fn lemma_size_lower_bound(self)
        requires
            self.svo_wf(),
        ensures
            self.size as int >= pow2((self.max_depth + 1) as nat),
    {
        let m = pow2((self.max_depth + 1) as nat);
        let q = self.size as int / m;
        lemma_fundamental_div_mod(self.size as int, m);
        assert(self.size as int == m * q);
        if q <= 0 {
            assert(m * q <= 0) by (nonlinear_arith)
                requires
                    m > 0,
                    q <= 0,
            ;
        }
        assert(m * 1 <= m * q) by (nonlinear_arith)
            requires
                m > 0,
                q >= 1,
        ;
    }

    /// Doubles the cube's edge and deepens the tree by one level. Every old
    /// child subtree is re-parented into the opposite-facing slot of a new
    /// intermediate node, so nothing moves in world space: the model is
    /// unchanged at every tick position.
    fn expand_root(&mut self)
        requires
            old(self).svo_wf(),
            old(self).size <= SIZE_LIMIT / 2,
        ensures
            final(self).svo_wf(),
            final(self).size == 2 * old(self).size,
            final(self).max_depth == old(self).max_depth + 1,
            final(self).s_min() == old(self).s_min(),
            final(self).dirty == old(self).dirty,
            final(self).show_wireframe == old(self).show_wireframe,
            final(self).show_world_grid == old(self).show_world_grid,
            final(self).show_chunks == old(self).show_chunks,
            forall|x: int, y: int, z: int|
                #[trigger] final(self).voxel_at_ticks(x, y, z) == old(self).voxel_at_ticks(x, y, z),
    {
        let ghost o = *old(self);
        let ghost d = o.max_depth as nat;
        proof {
            o.lemma_dims();
            o.lemma_size_lower_bound();
            Self::lemma_pow2_47();
            // the new depth stays under the cap
            lemma_pow2_adds((d + 1) as nat, 1);
            if o.max_depth + 2 > 47 {
                lemma_pow2_increases(48, (d + 2) as nat);
                assert(pow2(48) == 2 * pow2(47));
            }
        }
        let mut old_root = OctreeNode::new();
        core::mem::swap(&mut self.root, &mut old_root);
        match old_root {
            OctreeNode::Leaf { voxel } => {
                proof {
                    assert(voxel is None);
                }
                self.root = OctreeNode::Leaf { voxel };
            },
            OctreeNode::Internal { mut children } => {
                let ghost ocs = children@;
                let mut new_children: Vec<OctreeNode> = Vec::new();
                let mut t: usize = 0;
                while t < 8
                    invariant
                        t <= 8,
                        ocs.len() == 8,
                        children@ == ocs.skip(t as int),
                        new_children@.len() == t,
                        forall|c: int| 0 <= c < 8 ==> node_wf(#[trigger] ocs[c], (d - 1) as nat),
                        forall|c: int| 0 <= c < 8 ==> node_tidy(#[trigger] ocs[c]),
                        d >= 1,
                        forall|c: int|
                            0 <= c < t ==> expanded_slot_ok(
                                #[trigger] new_children@[c],
                                ocs[c],
                                7 - c,
                            ),
                        forall|c: int|
                            0 <= c < t ==> node_wf(#[trigger] new_children@[c], d) && node_tidy(
                                new_children@[c],
                            ),
                        forall|c: int|
                            0 <= c < t ==> (node_has_voxels(#[trigger] new_children@[c])
                                <==> node_has_voxels(ocs[c])),
                    decreases 8 - t,
                {
                    let child = children.remove(0);
                    proof {
                        assert(child == ocs[t as int]);
                        assert(children@ == ocs.skip(t as int + 1));
                    }
                    if child.is_empty() {
                        let e = OctreeNode::new();
                        proof {
                            lemma_empty_leaf_props(e, d);
                        }
                        new_children.push(e);
                    } else {
                        let mut mid = eight_leaves();
                        let facing = 7 - t;
                        let ghost mid0 = mid@;
                        mid.remove(facing);
                        mid.insert(facing, child);
                        proof {
                            assert(mid@ =~= mid0.update(facing as int, ocs[t as int]));
                        }
                        let wrapped = OctreeNode::Internal { children: mid };
                        proof {
                            let oc = ocs[t as int];
                            assert forall|u: int| 0 <= u < 8 implies node_wf(
                                #[trigger] node_children(wrapped)[u],
                                (d - 1) as nat,
                            ) && node_tidy(node_children(wrapped)[u]) by {
                                if u != facing as int {
                                    lemma_empty_leaf_props(
                                        node_children(wrapped)[u],
                                        (d - 1) as nat,
                                    );
                                }
                            }
                            assert(node_has_voxels(oc)) by {
                                if oc is Internal {
                                } else {
                                    assert(!node_is_empty_leaf(oc));
                                }
                            }
                            assert(node_has_voxels(wrapped)) by {
                                assert(node_children(wrapped)[facing as int] == oc);
                            }
                            assert(node_wf(wrapped, d));
                            assert(node_tidy(wrapped));
                            assert(expanded_slot_ok(wrapped, oc, 7 - t as int));
                        }
                        new_children.push(wrapped);
                    }
                    t = t + 1;
                }
                let new_root = OctreeNode::Internal { children: new_children };
                proof {
                    let orig = OctreeNode::Internal { children: o.root->Internal_children };
                    assert(orig == o.root);
                    assert(node_children(new_root).len() == 8);
                    assert(node_wf(new_root, (d + 1) as nat));
                    assert(node_tidy(new_root)) by {
                        assert(node_has_voxels(o.root));
                        let w = choose|c: int|
                            0 <= c < 8 && node_has_voxels(#[trigger] node_children(o.root)[c]);
                        assert(node_has_voxels(node_children(new_root)[w]));
                    }
                    lemma_expand_pointwise(o.root, new_root, d);
                }
                self.root = new_root;
            },
        }
        self.size = self.size * 2;
        self.max_depth = self.max_depth + 1;
        proof {
            let n = o.size as int;
            let s = o.s_min();
            let h2 = pow2((d - 1) as nat);
            o.lemma_dims();
            // dimensions of the doubled cube
            assert(self.size as int == 2 * n);
            lemma_div_multiples_vanish(n, 2);
            assert(self.half() == n);
            assert(self.max_depth as nat == d + 1);
            assert(self.size as int % pow2((d + 2) as nat) == 0) by {
                lemma_pow2_adds((d + 1) as nat, 1);
                let q = n / pow2((d + 1) as nat);
                lemma_fundamental_div_mod(n, pow2((d + 1) as nat));
                assert(2 * n == q * pow2((d + 2) as nat)) by (nonlinear_arith)
                    requires
                        n == pow2((d + 1) as nat) * q,
                        pow2((d + 2) as nat) == 2 * pow2((d + 1) as nat),
                ;
                vstd::arithmetic::div_mod::lemma_mod_multiples_basic(
                    q,
                    pow2((d + 2) as nat),
                );
            }
            assert((self.max_depth + 1) as nat == d + 2);
            assert(self.s_min() == s) by {
                lemma_pow2_adds(d, 1);
                assert(2 * n == (s * pow2(d)) * 2) by (nonlinear_arith)
                    requires
                        n == s * pow2(d),
                ;
                assert(2 * n == pow2((d + 1) as nat) * s) by (nonlinear_arith)
                    requires
                        2 * n == (s * pow2(d)) * 2,
                        pow2((d + 1) as nat) == pow2(d) * 2,
                ;
                lemma_div_multiples_vanish(s, pow2((d + 1) as nat));
            }
            assert(self.svo_wf());
            self.lemma_dims();
            // the model is unchanged at every tick position
            assert forall|x: int, y: int, z: int|
                #[trigger] self.voxel_at_ticks(x, y, z) == o.voxel_at_ticks(x, y, z) by {
                if o.root is Leaf {
                    assert(node_get(o.root, o.cell_index(x), o.cell_index(y), o.cell_index(z), d)
                        is None);
                    assert(self.root == o.root);
                    assert(node_get(self.root, self.cell_index(x), self.cell_index(y),
                        self.cell_index(z), (d + 1) as nat) is None);
                } else {
                    let halfo = o.half();
                    assert(halfo == h2 * s);
                    assert(n == 2 * h2 * s) by (nonlinear_arith)
                        requires
                            n == s * pow2(d),
                            pow2(d) == 2 * h2,
                    ;
                    if self.contains_ticks(x, y, z) {
                        // new cell indices, in [0, 4*h2)
                        lemma_cell_split(x + n, s, 2 * h2);
                        lemma_cell_split(y + n, s, 2 * h2);
                        lemma_cell_split(z + n, s, 2 * h2);
                        assert(2 * (2 * h2) * s == 2 * n) by (nonlinear_arith)
                            requires
                                n == 2 * h2 * s,
                        ;
                        let ii = self.cell_index(x);
                        let jj = self.cell_index(y);
                        let kk = self.cell_index(z);
                        assert(0 <= ii < pow2((d + 1) as nat) && 0 <= jj < pow2((d + 1) as nat)
                            && 0 <= kk < pow2((d + 1) as nat)) by {
                            assert(pow2((d + 1) as nat) == 4 * h2);
                        }
                        // each new index is the old index plus h2
                        lemma_hoist_over_denominator(x + halfo, h2, s as nat);
                        lemma_hoist_over_denominator(y + halfo, h2, s as nat);
                        lemma_hoist_over_denominator(z + halfo, h2, s as nat);
                        assert(x + n == (x + halfo) + h2 * s);
                        assert(ii == o.cell_index(x) + h2);
                        assert(jj == o.cell_index(y) + h2);
                        assert(kk == o.cell_index(z) + h2);
                        // middle of the new range <==> inside the old cube
                        assert(2 * h2 * s <= 2 * (3 * h2) * s && 2 * (2 * h2) * s <= 2 * (3 * h2)
                            * s) by (nonlinear_arith)
                            requires
                                h2 >= 1,
                                s >= 1,
                        ;
                        lemma_cell_split(x + n, s, h2);
                        lemma_cell_split(y + n, s, h2);
                        lemma_cell_split(z + n, s, h2);
                        lemma_cell_split(x + n, s, 3 * h2);
                        lemma_cell_split(y + n, s, 3 * h2);
                        lemma_cell_split(z + n, s, 3 * h2);
                        assert((h2 <= ii < 3 * h2) == (-halfo <= x < halfo)) by (nonlinear_arith)
                            requires
                                (x + n >= h2 * s) <==> (ii >= h2),
                                (x + n >= 3 * h2 * s) <==> (ii >= 3 * h2),
                                n == 2 * h2 * s,
                                halfo == h2 * s,
                        ;
                        assert((h2 <= jj < 3 * h2) == (-halfo <= y < halfo)) by (nonlinear_arith)
                            requires
                                (y + n >= h2 * s) <==> (jj >= h2),
                                (y + n >= 3 * h2 * s) <==> (jj >= 3 * h2),
                                n == 2 * h2 * s,
                                halfo == h2 * s,
                        ;
                        assert((h2 <= kk < 3 * h2) == (-halfo <= z < halfo)) by (nonlinear_arith)
                            requires
                                (z + n >= h2 * s) <==> (kk >= h2),
                                (z + n >= 3 * h2 * s) <==> (kk >= 3 * h2),
                                n == 2 * h2 * s,
                                halfo == h2 * s,
                        ;
                        if o.contains_ticks(x, y, z) {
                            lemma_cell_split(x + halfo, s, h2);
                            lemma_cell_split(y + halfo, s, h2);
                            lemma_cell_split(z + halfo, s, h2);
                            assert(2 * h2 * s == n);
                        }
                    } else {
                        assert(!o.contains_ticks(x, y, z));
                    }
                }
            }
        }
    }

    /// Voxels per chunk side: `2^(max_depth - 1)`.
    pub open spec fn spec_chunk_size(self) -> int {
        pow2((self.max_depth - 1) as nat)
    }

    /// A chunk's edge length in ticks: `chunk_size` cells of the finest
    /// spacing, which works out to half the cube's edge.
    pub open spec fn chunk_world_size(self) -> int {
        self.spec_chunk_size() * self.s_min()
    }

    /// The chunk containing a tick position: world space is tiled by cubes
    /// of edge [`Self::chunk_world_size`] with a corner at the origin.
    pub open spec fn spec_chunk_coords(self, x: int, y: int, z: int) -> (int, int, int) {
        (
            x / self.chunk_world_size(),
            y / self.chunk_world_size(),
            z / self.chunk_world_size(),
        )
    }

    /// The number of voxels along one edge of a chunk.
    pub fn get_chunk_size(&self) -> (cs: i64)
        requires
            self.svo_wf(),
        ensures
            cs == self.spec_chunk_size(),
            cs >= 1,
    {
        pow2_i64(self.max_depth - 1)
    }

    /// The edge length of a chunk in ticks.
    pub fn get_chunk_world_size(&self) -> (cw: i64)
        requires
            self.svo_wf(),
        ensures
            cw == self.chunk_world_size(),
            cw == self.half(),
            2 <= cw <= SIZE_LIMIT,
    {
        proof {
            self.lemma_dims();
            assert(self.chunk_world_size() == self.half()) by (nonlinear_arith)
                requires
                    self.half() == self.s_min() * pow2((self.max_depth - 1) as nat),
                    self.chunk_world_size() == pow2((self.max_depth - 1) as nat) * self.s_min(),
            ;
        }
        floor_div(self.size, 2)
    }

    /// The chunk coordinate of a tick position.
    pub fn compute_chunk_coords(&self, x: i64, y: i64, z: i64) -> (cc: ChunkCoord)
        requires
            self.svo_wf(),
        ensures
            (cc.0 as int, cc.1 as int, cc.2 as int) == self.spec_chunk_coords(
                x as int,
                y as int,
                z as int,
            ),
    {
        let cw = self.get_chunk_world_size();
        (floor_div(x, cw), floor_div(y, cw), floor_div(z, cw))
    }

    /// Adds a chunk coordinate to the dirty set if it is not yet there.
    fn mark_dirty(&mut self, cc: ChunkCoord)
        requires
            dirty_wf(old(self).dirty@),
        ensures
            final(self).root == old(self).root,
            final(self).max_depth == old(self).max_depth,
            final(self).size == old(self).size,
            final(self).show_wireframe == old(self).show_wireframe,
            final(self).show_world_grid == old(self).show_world_grid,
            final(self).show_chunks == old(self).show_chunks,
            dirty_wf(final(self).dirty@),
            forall|c: ChunkCoord|
                final(self).dirty@.contains(c) <==> old(self).dirty@.contains(c) || c == cc,
    {
        let n = self.dirty.len();
        let mut t: usize = 0;
        while t < n
            invariant
                t <= n,
                n == self.dirty@.len(),
                *self == *old(self),
                dirty_wf(old(self).dirty@),
                forall|u: int| 0 <= u < t ==> self.dirty@[u] != cc,
            decreases n - t,
        {
            let d = self.dirty[t];
            if d.0 == cc.0 && d.1 == cc.1 && d.2 == cc.2 {
                proof {
                    assert(self.dirty@.contains(cc)) by {
                        assert(self.dirty@[t as int] == cc);
                    }
                    assert(*self == *old(self));
                    assert(self.dirty@ == old(self).dirty@);
                    assert(dirty_wf(self.dirty@));
                }
                return ;
            }
            t = t + 1;
        }
        let ghost before = self.dirty@;
        self.dirty.push(cc);
        proof {
            assert(self.dirty@ == before.push(cc));
            assert(forall|u: int| 0 <= u < before.len() ==> self.dirty@[u] == before[u]);
            assert(self.dirty@[before.len() as int] == cc);
            assert(dirty_wf(self.dirty@)) by {
                assert forall|a: int, b: int| 0 <= a < b < self.dirty@.len() implies self.dirty@[a]
                    != self.dirty@[b] by {
                    if b == before.len() {
                        assert(self.dirty@[a] != cc);
                    }
                }
            }
            assert forall|c: ChunkCoord|
                self.dirty@.contains(c) <==> before.contains(c) || c == cc by {
                if before.contains(c) {
                    let w = choose|w: int| 0 <= w < before.len() && before[w] == c;
                    assert(self.dirty@[w] == c);
                }
                if self.dirty@.contains(c) {
                    let w = choose|w: int| 0 <= w < self.dirty@.len() && self.dirty@[w] == c;
                    if w < before.len() {
                        assert(before[w] == c);
                    }
                }
                if c == cc {
                    assert(self.dirty@[before.len() as int] == c);
                }
            }
        }
    }

    /// Inserts (or replaces) a voxel at the finest-depth cell containing the
    /// given tick position. The root grows by doubling exactly as many times
    /// as containment needs, so every other cell keeps its voxel, and the
    /// chunk containing the edit is marked dirty.
    pub fn insert(&mut self, world_x: i64, world_y: i64, world_z: i64, voxel: Voxel)
        requires
            old(self).svo_wf(),
            -COORD_LIMIT <= world_x <= COORD_LIMIT,
            -COORD_LIMIT <= world_y <= COORD_LIMIT,
            -COORD_LIMIT <= world_z <= COORD_LIMIT,
        ensures
            final(self).svo_wf(),
            final(self).s_min() == old(self).s_min(),
            final(self).max_depth >= old(self).max_depth,
            final(self).size >= old(self).size,
            final(self).show_wireframe == old(self).show_wireframe,
            final(self).show_world_grid == old(self).show_world_grid,
            final(self).show_chunks == old(self).show_chunks,
            // the model gains exactly the target's finest-grid cell
            forall|px: int, py: int, pz: int|
                #[trigger] final(self).voxel_at_ticks(px, py, pz) == (if px / old(self).s_min()
                    == world_x as int / old(self).s_min() && py / old(self).s_min()
                    == world_y as int / old(self).s_min() && pz / old(self).s_min()
                    == world_z as int / old(self).s_min() {
                    Some(voxel)
                } else {
                    old(self).voxel_at_ticks(px, py, pz)
                }),
            final(self).voxel_at_ticks(world_x as int, world_y as int, world_z as int) == Some(
                voxel,
            ),
            // growth: the aligned target fits, after exactly as many
            // doublings as containment needed
            final(self).contains_ticks(
                spec_align(world_x as int, old(self).s_min()),
                spec_align(world_y as int, old(self).s_min()),
                spec_align(world_z as int, old(self).s_min()),
            ),
            final(self).size == old(self).size || !Self::cube_contains(
                final(self).size as int / 2,
                spec_align(world_x as int, old(self).s_min()),
                spec_align(world_y as int, old(self).s_min()),
                spec_align(world_z as int, old(self).s_min()),
            ),
            // the chunk containing the edit joins the dirty set
            forall|c: ChunkCoord|
                final(self).dirty@.contains(c) <==> old(self).dirty@.contains(c) || (
                c.0 as int,
                c.1 as int,
                c.2 as int,
                ) == final(self).spec_chunk_coords(
                    spec_align(world_x as int, old(self).s_min()),
                    spec_align(world_y as int, old(self).s_min()),
                    spec_align(world_z as int, old(self).s_min()),
                ),
    {
        let ghost o = *old(self);
        proof {
            o.lemma_dims();
        }
        let s = self.get_spacing_at_depth(self.max_depth);
        let (ax, ay, az) = self.normalize_to_voxel_at_depth(world_x, world_y, world_z, self.max_depth);
        while !self.contains(ax, ay, az)
            invariant
                self.svo_wf(),
                self.s_min() == o.s_min(),
                self.max_depth >= o.max_depth,
                o.size <= self.size <= SIZE_LIMIT,
                self.dirty == o.dirty,
                self.show_wireframe == o.show_wireframe,
                self.show_world_grid == o.show_world_grid,
                self.show_chunks == o.show_chunks,
                o.svo_wf(),
                s == o.s_min(),
                -COORD_LIMIT <= world_x <= COORD_LIMIT,
                -COORD_LIMIT <= world_y <= COORD_LIMIT,
                -COORD_LIMIT <= world_z <= COORD_LIMIT,
                ax == spec_align(world_x as int, o.s_min()),
                ay == spec_align(world_y as int, o.s_min()),
                az == spec_align(world_z as int, o.s_min()),
                2 * ax <= 2 * world_x + s && 2 * world_x - s < 2 * ax,
                2 * ay <= 2 * world_y + s && 2 * world_y - s < 2 * ay,
                2 * az <= 2 * world_z + s && 2 * world_z - s < 2 * az,
                self.size == o.size || !Self::cube_contains(
                    self.size as int / 2,
                    ax as int,
                    ay as int,
                    az as int,
                ),
                forall|px: int, py: int, pz: int|
                    #[trigger] self.voxel_at_ticks(px, py, pz) == o.voxel_at_ticks(px, py, pz),
            decreases SIZE_LIMIT - self.size,
        {
            proof {
                self.lemma_dims();
                // not containing the aligned target bounds the cube's size
                assert(self.size <= SIZE_LIMIT / 2) by {
                    let half = self.half();
                    assert(half * 2 == self.size as int);
                    assert(self.s_min() <= half);
                    assert(half <= COORD_LIMIT + self.s_min() / 2 || self.size as int <= 2
                        * COORD_LIMIT) by {
                        assert(!self.contains_ticks(ax as int, ay as int, az as int));
                    }
                }
            }
            self.expand_root();
        }
        proof {
            self.lemma_dims();
        }
        let half = floor_div(self.size, 2);
        proof {
            let d = self.max_depth as nat;
            let h2 = pow2((d - 1) as nat);
            assert(pow2(d) == 2 * h2);
            assert(2 * h2 * self.s_min() == self.size as int) by (nonlinear_arith)
                requires
                    pow2(d) == 2 * h2,
                    self.s_min() * pow2(d) == self.size as int,
            ;
            lemma_cell_split(ax + self.half(), self.s_min(), h2);
            lemma_cell_split(ay + self.half(), self.s_min(), h2);
            lemma_cell_split(az + self.half(), self.s_min(), h2);
        }
        let i = floor_div(ax + half, s);
        let j = floor_div(ay + half, s);
        let k = floor_div(az + half, s);
        let ghost mid = *self;
        let mut root = OctreeNode::new();
        core::mem::swap(&mut self.root, &mut root);
        let new_root = insert_rec(root, i, j, k, self.max_depth, voxel);
        self.root = new_root;
        proof {
            assert(self.svo_wf());
            lemma_edit_ticks(
                o,
                mid,
                *self,
                world_x as int,
                world_y as int,
                world_z as int,
                ax as int,
                ay as int,
                az as int,
                i as int,
                j as int,
                k as int,
                Some(voxel),
            );
        }
        let cc = self.compute_chunk_coords(ax, ay, az);
        let ghost pre = *self;
        self.mark_dirty(cc);
        proof {
            assert(self.svo_wf());
            assert forall|px: int, py: int, pz: int|
                #[trigger] self.voxel_at_ticks(px, py, pz) == pre.voxel_at_ticks(px, py, pz) by {}
        }
    }

    /// Clears the voxel of the finest-depth cell containing the given tick
    /// position, pruning every internal node left without voxels. A no-op
    /// when the cell is already empty or outside the cube; when the position
    /// is inside the cube its chunk is marked dirty.
    pub fn remove(&mut self, world_x: i64, world_y: i64, world_z: i64)
        requires
            old(self).svo_wf(),
            -COORD_LIMIT <= world_x <= COORD_LIMIT,
            -COORD_LIMIT <= world_y <= COORD_LIMIT,
            -COORD_LIMIT <= world_z <= COORD_LIMIT,
        ensures
            final(self).svo_wf(),
            final(self).size == old(self).size,
            final(self).max_depth == old(self).max_depth,
            final(self).show_wireframe == old(self).show_wireframe,
            final(self).show_world_grid == old(self).show_world_grid,
            final(self).show_chunks == old(self).show_chunks,
            // the model loses exactly the target's finest-grid cell
            forall|px: int, py: int, pz: int|
                #[trigger] final(self).voxel_at_ticks(px, py, pz) == (if px / old(self).s_min()
                    == world_x as int / old(self).s_min() && py / old(self).s_min()
                    == world_y as int / old(self).s_min() && pz / old(self).s_min()
                    == world_z as int / old(self).s_min() {
                    None::<Voxel>
                } else {
                    old(self).voxel_at_ticks(px, py, pz)
                }),
            final(self).voxel_at_ticks(world_x as int, world_y as int, world_z as int) is None,
            // inside the cube the chunk is marked dirty; outside nothing moves
            old(self).contains_ticks(
                spec_align(world_x as int, old(self).s_min()),
                spec_align(world_y as int, old(self).s_min()),
                spec_align(world_z as int, old(self).s_min()),
            ) ==> forall|c: ChunkCoord|
                final(self).dirty@.contains(c) <==> old(self).dirty@.contains(c) || (
                c.0 as int,
                c.1 as int,
                c.2 as int,
                ) == old(self).spec_chunk_coords(
                    spec_align(world_x as int, old(self).s_min()),
                    spec_align(world_y as int, old(self).s_min()),
                    spec_align(world_z as int, old(self).s_min()),
                ),
            !old(self).contains_ticks(
                spec_align(world_x as int, old(self).s_min()),
                spec_align(world_y as int, old(self).s_min()),
                spec_align(world_z as int, old(self).s_min()),
            ) ==> *final(self) == *old(self),
    {
        let ghost o = *old(self);
        proof {
            o.lemma_dims();
        }
        let s = self.get_spacing_at_depth(self.max_depth);
        let (ax, ay, az) = self.normalize_to_voxel_at_depth(world_x, world_y, world_z, self.max_depth);
        if !self.contains(ax, ay, az) {
            proof {
                // the whole cell of the target is outside the cube, so the
                // model says None there already
                let h = o.half();
                assert forall|px: int, py: int, pz: int|
                    #[trigger] o.voxel_at_ticks(px, py, pz) == (if px / o.s_min() == world_x as int
                        / o.s_min() && py / o.s_min() == world_y as int / o.s_min() && pz
                        / o.s_min() == world_z as int / o.s_min() {
                        None::<Voxel>
                    } else {
                        o.voxel_at_ticks(px, py, pz)
                    }) by {
                    if px / o.s_min() == world_x as int / o.s_min() && py / o.s_min()
                        == world_y as int / o.s_min() && pz / o.s_min() == world_z as int
                        / o.s_min() {
                        lemma_axis_cell(world_x as int, ax as int, px, o.s_min(), h);
                        lemma_axis_cell(world_y as int, ay as int, py, o.s_min(), h);
                        lemma_axis_cell(world_z as int, az as int, pz, o.s_min(), h);
                        assert(!o.contains_ticks(px, py, pz));
                    }
                }
            }
            return ;
        }
        let half = floor_div(self.size, 2);
        proof {
            let d = self.max_depth as nat;
            let h2 = pow2((d - 1) as nat);
            assert(pow2(d) == 2 * h2);
            assert(2 * h2 * self.s_min() == self.size as int) by (nonlinear_arith)
                requires
                    pow2(d) == 2 * h2,
                    self.s_min() * pow2(d) == self.size as int,
            ;
            lemma_cell_split(ax + self.half(), self.s_min(), h2);
            lemma_cell_split(ay + self.half(), self.s_min(), h2);
            lemma_cell_split(az + self.half(), self.s_min(), h2);
        }
        let i = floor_div(ax + half, s);
        let j = floor_div(ay + half, s);
        let k = floor_div(az + half, s);
        let mut root = OctreeNode::new();
        core::mem::swap(&mut self.root, &mut root);
        let (new_root, _) = remove_rec(root, i, j, k, self.max_depth);
        self.root = new_root;
        proof {
            assert(self.svo_wf());
            lemma_edit_ticks(
                o,
                o,
                *self,
                world_x as int,
                world_y as int,
                world_z as int,
                ax as int,
                ay as int,
                az as int,
                i as int,
                j as int,
                k as int,
                None::<Voxel>,
            );
        }
        let cc = self.compute_chunk_coords(ax, ay, az);
        let ghost pre = *self;
        self.mark_dirty(cc);
        proof {
            assert(self.svo_wf());
            assert forall|px: int, py: int, pz: int|
                #[trigger] self.voxel_at_ticks(px, py, pz) == pre.voxel_at_ticks(px, py, pz) by {}
        }
    }

    /// Whether the subtree rooted at `node` holds any voxel; used to skip
    /// building geometry for provably empty regions.
    pub fn has_volume(&self, node: &OctreeNode) -> (r: bool)
        ensures
            r == node_has_voxels(*node),
        decreases *node,
    {
        match node {
            OctreeNode::Leaf { voxel } => voxel.is_some(),
            OctreeNode::Internal { children } => {
                let n = children.len();
                let mut t: usize = 0;
                while t < n
                    invariant
                        t <= n,
                        n == children@.len(),
                        *node == (OctreeNode::Internal { children: *children }),
                        forall|u: int| 0 <= u < t ==> !node_has_voxels(#[trigger] children@[u]),
                    decreases n - t,
                {
                    proof {
                        assert(decreases_to!(*node => (*node)->Internal_children));
                        assert((*node)->Internal_children == *children);
                        assert(decreases_to!(*children => children@[t as int]));
                    }
                    if self.has_volume(&children[t]) {
                        proof {
                            assert(node_has_voxels(children@[t as int]));
                            assert(node_has_voxels(*node)) by {
                                assert(*node matches OctreeNode::Internal { children: cs } && 0
                                    <= t < cs@.len() && node_has_voxels(cs@[t as int]));
                            }
                        }
                        return true;
                    }
                    t = t + 1;
                }
                proof {
                    assert(forall|u: int| 0 <= u < children@.len() ==> !node_has_voxels(
                        #[trigger] children@[u]));
                }
                false
            },
        }
    }

    /// Whether the cell one step in direction `(offset_x, offset_y,
    /// offset_z)` from the depth-`depth` cell containing the given position
    /// holds a voxel; positions outside the cube count as absent.
    pub fn has_neighbor(
        &self,
        world_x: i64,
        world_y: i64,
        world_z: i64,
        offset_x: i64,
        offset_y: i64,
        offset_z: i64,
        depth: u32,
    ) -> (r: bool)
        requires
            self.svo_wf(),
            -COORD_LIMIT <= world_x <= COORD_LIMIT,
            -COORD_LIMIT <= world_y <= COORD_LIMIT,
            -COORD_LIMIT <= world_z <= COORD_LIMIT,
            -1 <= offset_x <= 1,
            -1 <= offset_y <= 1,
            -1 <= offset_z <= 1,
        ensures
            r == (self.voxel_at_ticks(
                spec_align(world_x as int, self.spacing_at(depth as nat)) + offset_x
                    * self.spacing_at(depth as nat),
                spec_align(world_y as int, self.spacing_at(depth as nat)) + offset_y
                    * self.spacing_at(depth as nat),
                spec_align(world_z as int, self.spacing_at(depth as nat)) + offset_z
                    * self.spacing_at(depth as nat),
            ) is Some),
    {
        let s = self.get_spacing_at_depth(depth);
        let (ax, ay, az) = self.normalize_to_voxel_at_depth(world_x, world_y, world_z, depth);
        let nx = ax + if offset_x == 1 {
            s
        } else if offset_x == -1 {
            -s
        } else {
            0
        };
        let ny = ay + if offset_y == 1 {
            s
        } else if offset_y == -1 {
            -s
        } else {
            0
        };
        let nz = az + if offset_z == 1 {
            s
        } else if offset_z == -1 {
            -s
        } else {
            0
        };
        proof {
            lemma_offset_mul(offset_x as int, self.spacing_at(depth as nat));
            lemma_offset_mul(offset_y as int, self.spacing_at(depth as nat));
            lemma_offset_mul(offset_z as int, self.spacing_at(depth as nat));
        }
        if !self.contains(nx, ny, nz) {
            return false;
        }
        self.get_voxel_at_world_coords(nx, ny, nz).is_some()
    }

    /// Collects every populated leaf as `(corner_x, corner_y, corner_z,
    /// voxel, depth)`, corners in ticks, in depth-first child order.
    pub fn traverse(&self) -> (out: Vec<(i64, i64, i64, Voxel, u32)>)
        requires
            self.svo_wf(),
        ensures
            out@.map_values(
                |e: (i64, i64, i64, Voxel, u32)|
                    (e.0 as int, e.1 as int, e.2 as int, e.3, e.4 as int),
            ) == spec_leaves(
                self.root,
                -self.half(),
                -self.half(),
                -self.half(),
                self.size as int,
                0,
            ),
    {
        proof {
            self.lemma_dims();
        }
        let half = floor_div(self.size, 2);
        let mut out: Vec<(i64, i64, i64, Voxel, u32)> = Vec::new();
        traverse_rec(
            &self.root,
            -half,
            -half,
            -half,
            self.size,
            0,
            Ghost(self.max_depth as nat),
            &mut out,
        );
        proof {
            assert(out@.map_values(
                |e: (i64, i64, i64, Voxel, u32)|
                    (e.0 as int, e.1 as int, e.2 as int, e.3, e.4 as int),
            ) =~= spec_leaves(
                self.root,
                -self.half(),
                -self.half(),
                -self.half(),
                self.size as int,
                0,
            ));
        }
        out
    }

    /// The subtree covering the chunk that contains a position: chunks are
    /// exactly the eight octants below the root, so this is the root's
    /// child on the position's side of each axis. `None` when the position
    /// is outside the cube or the whole tree is a single empty leaf.
    /// Together with [`Self::has_volume`] this probes a chunk's occupancy.
    pub fn get_chunk_node(&self, x: i64, y: i64, z: i64) -> (r: Option<&OctreeNode>)
        requires
            self.svo_wf(),
        ensures
            r is Some <==> (self.contains_ticks(x as int, y as int, z as int)
                && self.root is Internal),
            r matches Some(n) ==> *n == node_children(self.root)[(if x >= 0 {
                1int
            } else {
                0
            }) + 2 * (if y >= 0 {
                1int
            } else {
                0
            }) + 4 * (if z >= 0 {
                1int
            } else {
                0
            })],
    {
        if !self.contains(x, y, z) {
            return None;
        }
        match &self.root {
            OctreeNode::Leaf { .. } => None,
            OctreeNode::Internal { children } => {
                let bx: usize = if x >= 0 {
                    1
                } else {
                    0
                };
                let by: usize = if y >= 0 {
                    1
                } else {
                    0
                };
                let bz: usize = if z >= 0 {
                    1
                } else {
                    0
                };
                Some(&children[bx + 2 * by + 4 * bz])
            },
        }
    }

    /// Whether a position is inside the octree's current cube.
    pub fn contains(&self, x: i64, y: i64, z: i64) -> (r: bool)
        requires
            self.svo_wf(),
        ensures
            r == self.contains_ticks(x as int, y as int, z as int),
    {
        let half = floor_div(self.size, 2);
        -half <= x && x < half && -half <= y && y < half && -half <= z && z < half
    }

    /// The voxel of cell `(i, j, k)` of the finest grid, counted from the
    /// cube's low corner; `None` outside `[0, 2^max_depth)` on any axis.
    pub fn get_voxel_at(&self, i: i64, j: i64, k: i64) -> (r: Option<Voxel>)
        requires
            self.svo_wf(),
        ensures
            r == if 0 <= i < pow2(self.max_depth as nat) && 0 <= j < pow2(self.max_depth as nat)
                && 0 <= k < pow2(self.max_depth as nat) {
                node_get(self.root, i as int, j as int, k as int, self.max_depth as nat)
            } else {
                None::<Voxel>
            },
    {
        let p = pow2_i64(self.max_depth);
        if 0 <= i && i < p && 0 <= j && j < p && 0 <= k && k < p {
            get_cell_rec(&self.root, i, j, k, self.max_depth)
        } else {
            None
        }
    }

    /// The voxel of the finest-depth cell containing the given tick
    /// position, or `None` when the position is outside the cube or the
    /// cell is empty.
    pub fn get_voxel_at_world_coords(&self, world_x: i64, world_y: i64, world_z: i64) -> (r:
        Option<Voxel>)
        requires
            self.svo_wf(),
            -8 * COORD_LIMIT <= world_x <= 8 * COORD_LIMIT,
            -8 * COORD_LIMIT <= world_y <= 8 * COORD_LIMIT,
            -8 * COORD_LIMIT <= world_z <= 8 * COORD_LIMIT,
        ensures
            r == self.voxel_at_ticks(world_x as int, world_y as int, world_z as int),
    {
        if !self.contains(world_x, world_y, world_z) {
            return None;
        }
        let half = floor_div(self.size, 2);
        let s = self.get_spacing_at_depth(self.max_depth);
        proof {
            self.lemma_dims();
        }
        let i = floor_div(world_x + half, s);
        let j = floor_div(world_y + half, s);
        let k = floor_div(world_z + half, s);
        proof {
            let d = self.max_depth as nat;
            let h = pow2((d - 1) as nat);
            lemma_pow2_adds((d - 1) as nat, 1);
            assert(2 * h * self.s_min() == self.size as int) by (nonlinear_arith)
                requires
                    pow2(d) == h * 2,
                    self.s_min() * pow2(d) == self.size as int,
            ;
            lemma_cell_split(world_x + self.half(), self.s_min(), h);
            lemma_cell_split(world_y + self.half(), self.s_min(), h);
            lemma_cell_split(world_z + self.half(), self.s_min(), h);
        }
        get_cell_rec(&self.root, i, j, k, self.max_depth)
    }
}

/// One level of cell-index arithmetic: for `0 <= u < 2*h*s`, the cell index
/// `u / s` lies in `[0, 2h)`, its top bit is set exactly when `u >= h*s`,
/// and clearing the top bit subtracts `h` from the index.
pub proof fn lemma_cell_split(u: int, s: int, h: int)
    requires
        s >= 1,
        h >= 1,
        0 <= u,
    ensures
        0 <= u / s,
        u < 2 * h * s ==> u / s < 2 * h,
        (u >= h * s) <==> (u / s >= h),
        (u - h * s) / s == u / s - h,
{
    lemma_fundamental_div_mod(u, s);
    let q = u / s;
    let r = u % s;
    assert(u == s * q + r && 0 <= r < s);
    assert(q >= 0) by (nonlinear_arith)
        requires
            u == s * q + r,
            0 <= r < s,
            u >= 0,
            s >= 1,
    ;
    assert(u < 2 * h * s ==> q < 2 * h) by (nonlinear_arith)
        requires
            u == s * q + r,
            0 <= r < s,
            s >= 1,
    ;
    assert((u >= h * s) <==> (q >= h)) by (nonlinear_arith)
        requires
            u == s * q + r,
            0 <= r < s,
            s >= 1,
    ;
    lemma_hoist_over_denominator(u, -h, s as nat);
    assert((-h) * s == -(h * s)) by (nonlinear_arith);
    assert(u + (-h) * s == u - h * s);
}

/// An empty leaf is well-formed and tidy at every depth, holds no voxel,
/// and models the empty partial function.
pub proof fn lemma_empty_leaf_props(n: OctreeNode, d: nat)
    requires
        node_is_empty_leaf(n),
    ensures
        node_wf(n, d),
        node_tidy(n),
        !node_has_voxels(n),
        forall|a: int, b: int, c: int| node_get(n, a, b, c, d) is None,
{
}

/// Eight fresh empty leaves: the children array of a new internal node.
fn eight_leaves() -> (v: Vec<OctreeNode>)
    ensures
        v@.len() == 8,
        forall|t: int| 0 <= t < 8 ==> node_is_empty_leaf(#[trigger] v@[t]),
{
    let mut v: Vec<OctreeNode> = Vec::new();
    v.push(OctreeNode::new());
    v.push(OctreeNode::new());
    v.push(OctreeNode::new());
    v.push(OctreeNode::new());
    v.push(OctreeNode::new());
    v.push(OctreeNode::new());
    v.push(OctreeNode::new());
    v.push(OctreeNode::new());
    v
}

/// The top bit of a cell index split at `h`: set when `v >= h`.
pub open spec fn top_bit(v: int, h: int) -> int {
    if v >= h {
        1
    } else {
        0
    }
}

/// Replacing the child on the descent path of `(i, j, k)` with a subtree
/// that differs from it only at the target cell changes the whole node's
/// model only at the target cell.
proof fn lemma_insert_update(
    old_node: OctreeNode,
    before: Seq<OctreeNode>,
    res: OctreeNode,
    child2: OctreeNode,
    idx: int,
    i: int,
    j: int,
    k: int,
    d: nat,
    voxel: Voxel,
)
    requires
        d >= 1,
        node_wf(old_node, d),
        0 <= i < pow2(d),
        0 <= j < pow2(d),
        0 <= k < pow2(d),
        before.len() == 8,
        old_node is Internal ==> node_children(old_node) == before,
        old_node is Leaf ==> forall|t: int| 0 <= t < 8 ==> node_is_empty_leaf(#[trigger] before[t]),
        idx == top_bit(i, pow2((d - 1) as nat)) + 2 * top_bit(j, pow2((d - 1) as nat)) + 4
            * top_bit(k, pow2((d - 1) as nat)),
        res is Internal,
        node_children(res) == before.update(idx, child2),
        forall|a: int, b: int, c: int|
            0 <= a < pow2((d - 1) as nat) && 0 <= b < pow2((d - 1) as nat) && 0 <= c < pow2(
                (d - 1) as nat,
            ) ==> #[trigger] node_get(child2, a, b, c, (d - 1) as nat) == if a == i - top_bit(
                i,
                pow2((d - 1) as nat),
            ) * pow2((d - 1) as nat) && b == j - top_bit(j, pow2((d - 1) as nat)) * pow2(
                (d - 1) as nat,
            ) && c == k - top_bit(k, pow2((d - 1) as nat)) * pow2((d - 1) as nat) {
                Some(voxel)
            } else {
                node_get(before[idx], a, b, c, (d - 1) as nat)
            },
    ensures
        forall|a: int, b: int, c: int|
            0 <= a < pow2(d) && 0 <= b < pow2(d) && 0 <= c < pow2(d) ==> #[trigger] node_get(
                res,
                a,
                b,
                c,
                d,
            ) == if a == i && b == j && c == k {
                Some(voxel)
            } else {
                node_get(old_node, a, b, c, d)
            },
{
    let d1 = (d - 1) as nat;
    let hh = pow2(d1);
    assert(pow2(d) == 2 * hh);
    let children = node_children(res);
    assert forall|a: int, b: int, c: int|
        0 <= a < pow2(d) && 0 <= b < pow2(d) && 0 <= c < pow2(d) implies #[trigger] node_get(
        res,
        a,
        b,
        c,
        d,
    ) == (if a == i && b == j && c == k {
        Some(voxel)
    } else {
        node_get(old_node, a, b, c, d)
    }) by {
        let ba = top_bit(a, hh);
        let bb = top_bit(b, hh);
        let bc = top_bit(c, hh);
        let ca = ba + 2 * bb + 4 * bc;
        assert(0 <= ca < 8);
        assert(node_get(res, a, b, c, d) == node_get(
            children[ca],
            a - ba * hh,
            b - bb * hh,
            c - bc * hh,
            d1,
        ));
        if ca == idx {
            assert(ba == top_bit(i, hh) && bb == top_bit(j, hh) && bc == top_bit(k, hh));
            assert(children[ca] == child2);
            if old_node is Internal {
                assert(node_get(old_node, a, b, c, d) == node_get(
                    before[ca],
                    a - ba * hh,
                    b - bb * hh,
                    c - bc * hh,
                    d1,
                ));
            } else {
                lemma_empty_leaf_props(before[ca], d1);
                assert(node_get(old_node, a, b, c, d) is None);
            }
        } else {
            assert(!(a == i && b == j && c == k));
            assert(children[ca] == before[ca]);
            if old_node is Internal {
                assert(node_get(old_node, a, b, c, d) == node_get(
                    before[ca],
                    a - ba * hh,
                    b - bb * hh,
                    c - bc * hh,
                    d1,
                ));
            } else {
                lemma_empty_leaf_props(before[ca], d1);
                assert(node_get(old_node, a, b, c, d) is None);
            }
        }
    }
}

/// Writes the voxel into cell `(i, j, k)` of the subtree, creating internal
/// nodes lazily on the way down; every other cell keeps its old value.
fn insert_rec(node: OctreeNode, i: i64, j: i64, k: i64, depth: u32, voxel: Voxel) -> (res:
    OctreeNode)
    requires
        node_wf(node, depth as nat),
        node_tidy(node),
        depth <= 46,
        0 <= i < pow2(depth as nat),
        0 <= j < pow2(depth as nat),
        0 <= k < pow2(depth as nat),
    ensures
        node_wf(res, depth as nat),
        node_tidy(res),
        node_has_voxels(res),
        forall|a: int, b: int, c: int|
            0 <= a < pow2(depth as nat) && 0 <= b < pow2(depth as nat) && 0 <= c < pow2(
                depth as nat,
            ) ==> #[trigger] node_get(res, a, b, c, depth as nat) == if a == i && b == j && c == k {
                Some(voxel)
            } else {
                node_get(node, a, b, c, depth as nat)
            },
    decreases depth,
{
    if depth == 0 {
        let res = OctreeNode::Leaf { voxel: Some(voxel) };
        proof {
            assert(forall|a: int, b: int, c: int|
                node_get(res, a, b, c, 0) == Some(voxel));
            assert(pow2(0) == 1);
        }
        return res;
    }
    proof {
        assert(pow2(depth as nat) == 2 * pow2((depth - 1) as nat));
    }
    let h = pow2_i64(depth - 1);
    let bx: usize = if i >= h {
        1
    } else {
        0
    };
    let by: usize = if j >= h {
        1
    } else {
        0
    };
    let bz: usize = if k >= h {
        1
    } else {
        0
    };
    let idx = bx + 2 * by + 4 * bz;
    let ox: i64 = if bx == 1 {
        h
    } else {
        0
    };
    let oy: i64 = if by == 1 {
        h
    } else {
        0
    };
    let oz: i64 = if bz == 1 {
        h
    } else {
        0
    };
    let ghost old_node = node;
    let mut children: Vec<OctreeNode> = match node {
        OctreeNode::Leaf { voxel: old_voxel } => {
            proof {
                assert(old_voxel is None);
            }
            eight_leaves()
        },
        OctreeNode::Internal { children } => children,
    };
    let ghost before = children@;
    proof {
        assert forall|t: int| 0 <= t < 8 implies node_wf(#[trigger] before[t], (depth - 1) as nat)
            && node_tidy(before[t]) by {
            if old_node is Internal {
            } else {
                lemma_empty_leaf_props(before[t], (depth - 1) as nat);
            }
        }
    }
    let child = children.remove(idx);
    let child2 = insert_rec(child, i - ox, j - oy, k - oz, depth - 1, voxel);
    children.insert(idx, child2);
    proof {
        assert(children@ =~= before.update(idx as int, child2));
    }
    let res = OctreeNode::Internal { children };
    proof {
        let d = depth as nat;
        let d1 = (depth - 1) as nat;
        let hh = pow2(d1);
        // well-formed and tidy: the updated child is, and the rest kept theirs
        assert forall|t: int| 0 <= t < 8 implies node_wf(#[trigger] children@[t], d1) by {}
        assert(node_has_voxels(children@[idx as int]));
        assert(node_has_voxels(res)) by {
            assert(res matches OctreeNode::Internal { children: cs } && 0 <= idx < cs@.len()
                && node_has_voxels(cs@[idx as int]));
        }
        assert forall|t: int| 0 <= t < children@.len() implies node_tidy(
            #[trigger] children@[t],
        ) by {}
        // the model update, cell by cell
        assert(bx as int == top_bit(i as int, hh) && by as int == top_bit(j as int, hh)
            && bz as int == top_bit(k as int, hh));
        assert(i - ox == i - top_bit(i as int, hh) * hh);
        assert(j - oy == j - top_bit(j as int, hh) * hh);
        assert(k - oz == k - top_bit(k as int, hh) * hh);
        lemma_insert_update(
            old_node,
            before,
            res,
            child2,
            idx as int,
            i as int,
            j as int,
            k as int,
            d,
            voxel,
        );
    }
    res
}

/// Populated leaves of a subtree, in depth-first child order: each entry is
/// the leaf cell's low corner in ticks, its voxel, and its depth below the
/// root. The mirror of the executable traversal.
pub open spec fn spec_leaves(node: OctreeNode, x: int, y: int, z: int, sz: int, dep: int) -> Seq<
    (int, int, int, Voxel, int),
>
    decreases node, 9int,
{
    match node {
        OctreeNode::Leaf { voxel } => {
            if voxel is Some {
                seq![(x, y, z, voxel->Some_0, dep)]
            } else {
                Seq::empty()
            }
        },
        OctreeNode::Internal { children } => spec_leaves_children(
            children,
            8,
            x,
            y,
            z,
            sz / 2,
            dep + 1,
        ),
    }
}

/// The leaves of the first `n` children, concatenated; each child's corner
/// offsets the parent's by half its size per set index bit.
pub open spec fn spec_leaves_children(
    children: Vec<OctreeNode>,
    n: int,
    x: int,
    y: int,
    z: int,
    half: int,
    dep: int,
) -> Seq<(int, int, int, Voxel, int)>
    decreases children, n,
{
    if n <= 0 || n > children@.len() {
        Seq::empty()
    } else {
        let i = n - 1;
        let ox: int = if i % 2 == 1 {
            half
        } else {
            0
        };
        let oy: int = if (i / 2) % 2 == 1 {
            half
        } else {
            0
        };
        let oz: int = if i / 4 >= 1 {
            half
        } else {
            0
        };
        spec_leaves_children(children, n - 1, x, y, z, half, dep) + spec_leaves(
            children[i],
            x + ox,
            y + oy,
            z + oz,
            half,
            dep,
        )
    }
}

/// A traversal entry as mathematical integers.
pub open spec fn leaf_entry_view(e: (i64, i64, i64, Voxel, u32)) -> (int, int, int, Voxel, int) {
    (e.0 as int, e.1 as int, e.2 as int, e.3, e.4 as int)
}

/// A collected traversal as mathematical integers.
pub open spec fn leaves_view(s: Seq<(i64, i64, i64, Voxel, u32)>) -> Seq<
    (int, int, int, Voxel, int),
> {
    s.map_values(|e: (i64, i64, i64, Voxel, u32)| leaf_entry_view(e))
}

/// Appends every populated leaf of the subtree to `out`; the exec walk
/// behind [`SparseVoxelOctree::traverse`].
fn traverse_rec(
    node: &OctreeNode,
    x: i64,
    y: i64,
    z: i64,
    sz: i64,
    dep: u32,
    Ghost(rem): Ghost<nat>,
    out: &mut Vec<(i64, i64, i64, Voxel, u32)>,
)
    requires
        node_wf(*node, rem),
        dep as nat + rem <= 46,
        0 <= sz <= SIZE_LIMIT,
        -SIZE_LIMIT <= x && x + sz <= SIZE_LIMIT,
        -SIZE_LIMIT <= y && y + sz <= SIZE_LIMIT,
        -SIZE_LIMIT <= z && z + sz <= SIZE_LIMIT,
    ensures
        leaves_view(final(out)@) == leaves_view(old(out)@) + spec_leaves(
            *node,
            x as int,
            y as int,
            z as int,
            sz as int,
            dep as int,
        ),
    decreases rem,
{
    match node {
        OctreeNode::Leaf { voxel } => {
            if let Some(v) = voxel {
                let ghost before = out@;
                out.push((x, y, z, *v, dep));
                proof {
                    assert(leaves_view(out@) =~= leaves_view(before) + spec_leaves(
                        *node,
                        x as int,
                        y as int,
                        z as int,
                        sz as int,
                        dep as int,
                    ));
                }
            } else {
                proof {
                    assert(leaves_view(out@) =~= leaves_view(out@) + Seq::empty());
                }
            }
        },
        OctreeNode::Internal { children } => {
            proof {
                assert(rem >= 1);
            }
            let half = floor_div(sz, 2);
            let ghost start = out@;
            let mut t: usize = 0;
            while t < 8
                invariant
                    t <= 8,
                    children@.len() == 8,
                    forall|u: int| 0 <= u < 8 ==> node_wf(#[trigger] children@[u], (rem - 1) as nat),
                    rem >= 1,
                    dep as nat + rem <= 46,
                    0 <= half && 2 * half <= sz <= SIZE_LIMIT,
                    -SIZE_LIMIT <= x && x + sz <= SIZE_LIMIT,
                    -SIZE_LIMIT <= y && y + sz <= SIZE_LIMIT,
                    -SIZE_LIMIT <= z && z + sz <= SIZE_LIMIT,
                    half == sz as int / 2,
                    leaves_view(out@) == leaves_view(start) + spec_leaves_children(
                        *children,
                        t as int,
                        x as int,
                        y as int,
                        z as int,
                        half as int,
                        dep as int + 1,
                    ),
                decreases 8 - t,
            {
                let ox: i64 = if t % 2 == 1 {
                    half
                } else {
                    0
                };
                let oy: i64 = if (t / 2) % 2 == 1 {
                    half
                } else {
                    0
                };
                let oz: i64 = if t / 4 >= 1 {
                    half
                } else {
                    0
                };
                traverse_rec(
                    &children[t],
                    x + ox,
                    y + oy,
                    z + oz,
                    half,
                    dep + 1,
                    Ghost((rem - 1) as nat),
                    out,
                );
                proof {
                    assert(spec_leaves_children(
                        *children,
                        t as int + 1,
                        x as int,
                        y as int,
                        z as int,
                        half as int,
                        dep as int + 1,
                    ) == spec_leaves_children(
                        *children,
                        t as int,
                        x as int,
                        y as int,
                        z as int,
                        half as int,
                        dep as int + 1,
                    ) + spec_leaves(
                        children@[t as int],
                        x as int + ox as int,
                        y as int + oy as int,
                        z as int + oz as int,
                        half as int,
                        dep as int + 1,
                    ));
                }
                t = t + 1;
            }
            proof {
                assert(spec_leaves(
                    *node,
                    x as int,
                    y as int,
                    z as int,
                    sz as int,
                    dep as int,
                ) == spec_leaves_children(
                    *children,
                    8,
                    x as int,
                    y as int,
                    z as int,
                    half as int,
                    dep as int + 1,
                ));
            }
        },
    }
}

/// Multiplication by a unit offset, spelled out.
pub proof fn lemma_offset_mul(o: int, s: int)
    requires
        -1 <= o <= 1,
    ensures
        o == 1 ==> o * s == s,
        o == -1 ==> o * s == -s,
        o == 0 ==> o * s == 0,
{
    assert((1 * s == s) && ((-1) * s == -s) && (0 * s == 0)) by (nonlinear_arith);
}

/// A multiple of `s` that exceeds `-s` is nonnegative.
proof fn lemma_multiple_nonneg(m: int, s: int)
    requires
        s >= 1,
        m % s == 0,
        m > -s,
    ensures
        m >= 0,
{
    lemma_fundamental_div_mod(m, s);
    assert(m == s * (m / s));
    if m / s <= -1 {
        assert(s * (m / s) <= s * -1) by (nonlinear_arith)
            requires
                s >= 1,
                m / s <= -1,
        ;
    } else {
        assert(s * (m / s) >= 0) by (nonlinear_arith)
            requires
                s >= 1,
                m / s >= 0,
        ;
    }
}

/// One axis of the tick-to-cell conversion around an aligned center `a` of
/// the cell of `w`, inside a cube of half-edge `H`: the center's cell index
/// is the position's, any position's index shifts by `H / s`, positions in
/// the cell of `w` are inside the cube, and positions elsewhere get other
/// indices.
proof fn lemma_axis_cell(w: int, a: int, p: int, s: int, H: int)
    requires
        s >= 2,
        s % 2 == 0,
        a == spec_align(w, s),
        H % s == 0,
        H >= s,
    ensures
        (a + H) / s == w / s + H / s,
        (p + H) / s == p / s + H / s,
        p / s == w / s ==> ((-H <= p < H) <==> (-H <= a < H)),
        p / s != w / s ==> (p + H) / s != (a + H) / s,
{
    let c = w / s;
    let hs = H / s;
    lemma_fundamental_div_mod(H, s);
    assert(H == s * hs);
    // the aligned center's cell index
    assert(a + H == s * (c + hs) + s / 2) by (nonlinear_arith)
        requires
            a == (w / s) * s + s / 2,
            H == s * hs,
            c == w / s,
    ;
    vstd::arithmetic::div_mod::lemma_div_multiples_vanish_fancy(c + hs, s / 2, s);
    assert((a + H) / s == c + hs);
    // any position's cell index shifts by H / s
    lemma_hoist_over_denominator(p, hs, s as nat);
    assert(p + hs * s == p + H);
    // a position in the cell of `w` is inside the cube exactly when the
    // cell's center is: the cube's faces lie on cell boundaries
    if p / s == c {
        lemma_fundamental_div_mod(w, s);
        lemma_fundamental_div_mod(p, s);
        assert(s * c <= p < s * c + s) by (nonlinear_arith)
            requires
                p == s * (p / s) + p % s,
                0 <= p % s < s,
                p / s == c,
        ;
        assert((s * c + H) % s == 0 && (H - s * c - s) % s == 0) by {
            vstd::arithmetic::div_mod::lemma_mod_multiples_vanish(c, H, s);
            vstd::arithmetic::div_mod::lemma_mod_multiples_vanish(-c - 1, H, s);
            assert(s * (-c - 1) + H == H - s * c - s) by (nonlinear_arith);
        }
        assert(s * c + s / 2 == a) by (nonlinear_arith)
            requires
                a == (w / s) * s + s / 2,
                c == w / s,
        ;
        if -H <= a < H {
            // low face at or above the cube's, high face at or below
            lemma_multiple_nonneg(s * c + H, s);
            lemma_multiple_nonneg(H - s * c - s, s);
            assert(-H <= p < H);
        }
        if -H <= p < H {
            lemma_multiple_nonneg(s * c + H, s);
            lemma_multiple_nonneg(H - s * c - s, s);
            assert(-H <= a < H);
        }
    }
}

/// Once the aligned target sits inside the cube, writing its cell changes
/// the tick-space model at exactly the finest-grid cell of the edited
/// position: to `Some(..)` for an insert, to `None` for a remove.
proof fn lemma_edit_ticks(
    o: SparseVoxelOctree,
    mid: SparseVoxelOctree,
    fin: SparseVoxelOctree,
    wx: int,
    wy: int,
    wz: int,
    ax: int,
    ay: int,
    az: int,
    i: int,
    j: int,
    k: int,
    newv: Option<Voxel>,
)
    requires
        o.svo_wf(),
        mid.svo_wf(),
        fin.svo_wf(),
        mid.s_min() == o.s_min(),
        fin.size == mid.size,
        fin.max_depth == mid.max_depth,
        ax == spec_align(wx, o.s_min()),
        ay == spec_align(wy, o.s_min()),
        az == spec_align(wz, o.s_min()),
        mid.contains_ticks(ax, ay, az),
        i == mid.cell_index(ax),
        j == mid.cell_index(ay),
        k == mid.cell_index(az),
        forall|a: int, b: int, c: int|
            0 <= a < pow2(mid.max_depth as nat) && 0 <= b < pow2(mid.max_depth as nat) && 0 <= c
                < pow2(mid.max_depth as nat) ==> #[trigger] node_get(
                fin.root,
                a,
                b,
                c,
                mid.max_depth as nat,
            ) == if a == i && b == j && c == k {
                newv
            } else {
                node_get(mid.root, a, b, c, mid.max_depth as nat)
            },
        forall|px: int, py: int, pz: int|
            #[trigger] mid.voxel_at_ticks(px, py, pz) == o.voxel_at_ticks(px, py, pz),
    ensures
        forall|px: int, py: int, pz: int|
            #[trigger] fin.voxel_at_ticks(px, py, pz) == (if px / o.s_min() == wx / o.s_min() && py
                / o.s_min() == wy / o.s_min() && pz / o.s_min() == wz / o.s_min() {
                newv
            } else {
                o.voxel_at_ticks(px, py, pz)
            }),
        fin.voxel_at_ticks(wx, wy, wz) == newv,
{
    let s = o.s_min();
    let d = mid.max_depth as nat;
    let h = mid.half();
    mid.lemma_dims();
    fin.lemma_dims();
    assert(fin.s_min() == mid.s_min());
    assert(fin.half() == h);
    let h2 = pow2((d - 1) as nat);
    assert(pow2(d) == 2 * h2);
    assert(2 * h2 * s == mid.size as int) by (nonlinear_arith)
        requires
            pow2(d) == 2 * h2,
            s * pow2(d) == mid.size as int,
            s == mid.s_min(),
    ;
    assert(h >= s);
    assert forall|px: int, py: int, pz: int|
        #[trigger] fin.voxel_at_ticks(px, py, pz) == (if px / s == wx / s && py / s == wy / s && pz
        / s == wz / s {
        newv
    } else {
        o.voxel_at_ticks(px, py, pz)
    }) by {
        lemma_axis_cell(wx, ax, px, s, h);
        lemma_axis_cell(wy, ay, py, s, h);
        lemma_axis_cell(wz, az, pz, s, h);
        if px / s == wx / s && py / s == wy / s && pz / s == wz / s {
            // same finest cell: it is inside the cube and carries the voxel
            assert(fin.contains_ticks(px, py, pz));
            assert(fin.cell_index(px) == i && fin.cell_index(py) == j && fin.cell_index(pz) == k);
            assert(0 <= i < pow2(d) && 0 <= j < pow2(d) && 0 <= k < pow2(d)) by {
                lemma_cell_split(ax + h, s, h2);
                lemma_cell_split(ay + h, s, h2);
                lemma_cell_split(az + h, s, h2);
            }
            assert(node_get(fin.root, i, j, k, d) == newv);
        } else {
            if fin.contains_ticks(px, py, pz) {
                assert(mid.contains_ticks(px, py, pz));
                let ci = fin.cell_index(px);
                let cj = fin.cell_index(py);
                let ck = fin.cell_index(pz);
                assert(0 <= ci < pow2(d) && 0 <= cj < pow2(d) && 0 <= ck < pow2(d)) by {
                    lemma_cell_split(px + h, s, h2);
                    lemma_cell_split(py + h, s, h2);
                    lemma_cell_split(pz + h, s, h2);
                }
                assert(!(ci == i && cj == j && ck == k));
                assert(node_get(fin.root, ci, cj, ck, d) == node_get(mid.root, ci, cj, ck, d));
                assert(mid.voxel_at_ticks(px, py, pz) == node_get(mid.root, ci, cj, ck, d));
            } else {
                assert(!mid.contains_ticks(px, py, pz));
                assert(mid.voxel_at_ticks(px, py, pz) is None);
                assert(o.voxel_at_ticks(px, py, pz) is None);
            }
        }
    }
    assert(fin.voxel_at_ticks(wx, wy, wz) == newv);
}

/// The children of an internal node, as a sequence.
pub open spec fn node_children(node: OctreeNode) -> Seq<OctreeNode> {
    match node {
        OctreeNode::Internal { children } => children@,
        OctreeNode::Leaf { .. } => Seq::empty(),
    }
}

/// How root growth re-parents one old child: an empty old child stays an
/// empty leaf; any other old child becomes the `facing` slot of a fresh
/// internal node whose seven other slots are empty leaves.
pub open spec fn expanded_slot_ok(newc: OctreeNode, oldc: OctreeNode, facing: int) -> bool {
    if node_is_empty_leaf(oldc) {
        node_is_empty_leaf(newc)
    } else {
        &&& newc is Internal
        &&& node_children(newc).len() == 8
        &&& node_children(newc)[facing] == oldc
        &&& forall|t: int|
            0 <= t < 8 && t != facing ==> node_is_empty_leaf(#[trigger] node_children(newc)[t])
    }
}

/// Growing the root doubles the cell range per axis and keeps every old
/// cell's content in the middle half of the new range; all new cells are
/// empty.
proof fn lemma_expand_pointwise(old_root: OctreeNode, new_root: OctreeNode, d: nat)
    requires
        1 <= d,
        old_root is Internal,
        new_root is Internal,
        node_children(old_root).len() == 8,
        node_children(new_root).len() == 8,
        forall|c: int| 0 <= c < 8 ==> node_wf(#[trigger] node_children(old_root)[c], (d - 1) as nat),
        forall|c: int|
            0 <= c < 8 ==> expanded_slot_ok(
                #[trigger] node_children(new_root)[c],
                node_children(old_root)[c],
                7 - c,
            ),
    ensures
        forall|ii: int, jj: int, kk: int|
            0 <= ii < pow2(d + 1) && 0 <= jj < pow2(d + 1) && 0 <= kk < pow2(d + 1)
                ==> #[trigger] node_get(new_root, ii, jj, kk, d + 1) == (if pow2((d - 1) as nat)
                <= ii < 3 * pow2((d - 1) as nat) && pow2((d - 1) as nat) <= jj < 3 * pow2(
                (d - 1) as nat,
            ) && pow2((d - 1) as nat) <= kk < 3 * pow2((d - 1) as nat) {
                node_get(
                    old_root,
                    ii - pow2((d - 1) as nat),
                    jj - pow2((d - 1) as nat),
                    kk - pow2((d - 1) as nat),
                    d,
                )
            } else {
                None
            }),
{
    let h2 = pow2((d - 1) as nat);
    let h1 = pow2(d);
    assert(h1 == 2 * h2);
    assert(pow2(d + 1) == 2 * h1);
    assert forall|ii: int, jj: int, kk: int|
        0 <= ii < pow2(d + 1) && 0 <= jj < pow2(d + 1) && 0 <= kk < pow2(d + 1)
            implies #[trigger] node_get(new_root, ii, jj, kk, d + 1) == (if h2 <= ii < 3 * h2 && h2
        <= jj < 3 * h2 && h2 <= kk < 3 * h2 {
        node_get(old_root, ii - h2, jj - h2, kk - h2, d)
    } else {
        None
    }) by {
        let b1x: int = if ii >= h1 {
            1
        } else {
            0
        };
        let b1y: int = if jj >= h1 {
            1
        } else {
            0
        };
        let b1z: int = if kk >= h1 {
            1
        } else {
            0
        };
        let c1 = b1x + 2 * b1y + 4 * b1z;
        assert(0 <= c1 < 8);
        let i2 = ii - b1x * h1;
        let j2 = jj - b1y * h1;
        let k2 = kk - b1z * h1;
        assert(node_get(new_root, ii, jj, kk, d + 1) == node_get(
            node_children(new_root)[c1],
            i2,
            j2,
            k2,
            d,
        ));
        let newc = node_children(new_root)[c1];
        let oldc = node_children(old_root)[c1];
        let mid_x = h2 <= ii < 3 * h2;
        let mid_y = h2 <= jj < 3 * h2;
        let mid_z = h2 <= kk < 3 * h2;
        if mid_x && mid_y && mid_z {
            // the old root's child index at (ii - h2, ...) is c1 as well
            let iold = ii - h2;
            let jold = jj - h2;
            let kold = kk - h2;
            assert((iold >= h2) == (b1x == 1));
            assert(node_get(old_root, iold, jold, kold, d) == node_get(
                oldc,
                iold - b1x * h2,
                jold - b1y * h2,
                kold - b1z * h2,
                (d - 1) as nat,
            ));
            if node_is_empty_leaf(oldc) {
                assert(node_get(oldc, iold - b1x * h2, jold - b1y * h2, kold - b1z * h2,
                    (d - 1) as nat) is None);
                assert(node_get(newc, i2, j2, k2, d) is None);
            } else {
                // descend the wrapper: the second-level bits are the
                // complements of the first-level bits, so the slot is 7 - c1
                let b2x: int = if i2 >= h2 {
                    1
                } else {
                    0
                };
                let b2y: int = if j2 >= h2 {
                    1
                } else {
                    0
                };
                let b2z: int = if k2 >= h2 {
                    1
                } else {
                    0
                };
                assert(b2x == 1 - b1x && b2y == 1 - b1y && b2z == 1 - b1z);
                let c2 = b2x + 2 * b2y + 4 * b2z;
                assert(c2 == 7 - c1);
                assert(node_get(newc, i2, j2, k2, d) == node_get(
                    node_children(newc)[c2],
                    i2 - b2x * h2,
                    j2 - b2y * h2,
                    k2 - b2z * h2,
                    (d - 1) as nat,
                ));
                assert(node_children(newc)[c2] == oldc);
                assert(i2 - b2x * h2 == iold - b1x * h2);
                assert(j2 - b2y * h2 == jold - b1y * h2);
                assert(k2 - b2z * h2 == kold - b1z * h2);
            }
        } else {
            // some axis lies in an outer quarter: the descent ends in an
            // empty leaf, either the untouched slot or the empty wrapper
            if node_is_empty_leaf(newc) {
                assert(node_get(newc, i2, j2, k2, d) is None);
            } else {
                assert(!node_is_empty_leaf(oldc));
                let b2x: int = if i2 >= h2 {
                    1
                } else {
                    0
                };
                let b2y: int = if j2 >= h2 {
                    1
                } else {
                    0
                };
                let b2z: int = if k2 >= h2 {
                    1
                } else {
                    0
                };
                let c2 = b2x + 2 * b2y + 4 * b2z;
                assert(0 <= c2 < 8);
                assert(node_get(newc, i2, j2, k2, d) == node_get(
                    node_children(newc)[c2],
                    i2 - b2x * h2,
                    j2 - b2y * h2,
                    k2 - b2z * h2,
                    (d - 1) as nat,
                ));
                // on the non-middle axis the second bit equals the first,
                // so the slot is not the facing one
                assert((!mid_x ==> b2x == b1x) && (!mid_y ==> b2y == b1y) && (!mid_z ==> b2z
                    == b1z));
                assert(c2 != 7 - c1);
                assert(node_is_empty_leaf(node_children(newc)[c2]));
                assert(node_get(node_children(newc)[c2], i2 - b2x * h2, j2 - b2y * h2,
                    k2 - b2z * h2, (d - 1) as nat) is None);
            }
        }
    }
}

/// Clears the voxel of cell `(i, j, k)` and prunes on the way back up: a
/// node left with eight empty-leaf children collapses into an empty leaf,
/// so no all-empty internal node survives. Also reports whether a voxel was
/// actually there.
#[verifier::rlimit(100)]
fn remove_rec(node: OctreeNode, i: i64, j: i64, k: i64, depth: u32) -> (res: (OctreeNode, bool))
    requires
        node_wf(node, depth as nat),
        node_tidy(node),
        depth <= 46,
        0 <= i < pow2(depth as nat),
        0 <= j < pow2(depth as nat),
        0 <= k < pow2(depth as nat),
    ensures
        node_wf(res.0, depth as nat),
        node_tidy(res.0),
        res.1 == (node_get(node, i as int, j as int, k as int, depth as nat) is Some),
        forall|a: int, b: int, c: int|
            0 <= a < pow2(depth as nat) && 0 <= b < pow2(depth as nat) && 0 <= c < pow2(
                depth as nat,
            ) ==> #[trigger] node_get(res.0, a, b, c, depth as nat) == if a == i && b == j && c == k {
                None::<Voxel>
            } else {
                node_get(node, a, b, c, depth as nat)
            },
    decreases depth,
{
    if depth == 0 {
        match node {
            OctreeNode::Leaf { voxel } => {
                let found = voxel.is_some();
                let res = OctreeNode::Leaf { voxel: None };
                proof {
                    assert(pow2(0) == 1);
                    assert(forall|a: int, b: int, c: int| node_get(res, a, b, c, 0) is None);
                }
                (res, found)
            },
            OctreeNode::Internal { children } => {
                proof {
                    assert(false);
                }
                (OctreeNode::Internal { children }, false)
            },
        }
    } else {
        match node {
            OctreeNode::Leaf { voxel } => {
                // an empty leaf above the finest level: nothing to remove
                proof {
                    assert(voxel is None);
                    assert(node_get(node, i as int, j as int, k as int, depth as nat) is None);
                    assert(forall|a: int, b: int, c: int|
                        node_get(OctreeNode::Leaf { voxel }, a, b, c, depth as nat) is None);
                }
                (OctreeNode::Leaf { voxel }, false)
            },
            OctreeNode::Internal { mut children } => {
                let ghost old_node = OctreeNode::Internal { children };
                proof {
                    assert(old_node == node);
                    assert(pow2(depth as nat) == 2 * pow2((depth - 1) as nat));
                }
                let h = pow2_i64(depth - 1);
                let bx: usize = if i >= h {
                    1
                } else {
                    0
                };
                let by: usize = if j >= h {
                    1
                } else {
                    0
                };
                let bz: usize = if k >= h {
                    1
                } else {
                    0
                };
                let idx = bx + 2 * by + 4 * bz;
                let ox: i64 = if bx == 1 {
                    h
                } else {
                    0
                };
                let oy: i64 = if by == 1 {
                    h
                } else {
                    0
                };
                let oz: i64 = if bz == 1 {
                    h
                } else {
                    0
                };
                let ghost before = children@;
                let child = children.remove(idx);
                let (child2, found) = remove_rec(child, i - ox, j - oy, k - oz, depth - 1);
                children.insert(idx, child2);
                proof {
                    assert(children@ =~= before.update(idx as int, child2));
                }
                // prune: collapse a node whose children are all empty leaves
                let mut all_empty = true;
                let mut t: usize = 0;
                while t < 8
                    invariant
                        t <= 8,
                        children@.len() == 8,
                        all_empty == forall|u: int|
                            0 <= u < t ==> node_is_empty_leaf(#[trigger] children@[u]),
                    decreases 8 - t,
                {
                    if !children[t].is_empty() {
                        all_empty = false;
                    }
                    t = t + 1;
                }
                proof {
                    let d = depth as nat;
                    let d1 = (depth - 1) as nat;
                    let hh = pow2(d1);
                    assert(node_get(old_node, i as int, j as int, k as int, d) == node_get(
                        before[idx as int],
                        i - ox,
                        j - oy,
                        k - oz,
                        d1,
                    ));
                }
                if all_empty {
                    let res = OctreeNode::new();
                    proof {
                        let d = depth as nat;
                        let d1 = (depth - 1) as nat;
                        let hh = pow2(d1);
                        lemma_empty_leaf_props(res, d);
                        assert(bx as int == top_bit(i as int, hh) && by as int == top_bit(
                            j as int,
                            hh,
                        ) && bz as int == top_bit(k as int, hh));
                        assert(i - ox == i - top_bit(i as int, hh) * hh);
                        assert(j - oy == j - top_bit(j as int, hh) * hh);
                        assert(k - oz == k - top_bit(k as int, hh) * hh);
                        lemma_collapse_update(
                            old_node,
                            before,
                            child2,
                            idx as int,
                            i as int,
                            j as int,
                            k as int,
                            d,
                        );
                    }
                    (res, found)
                } else {
                    let res = OctreeNode::Internal { children };
                    proof {
                        let d = depth as nat;
                        let d1 = (depth - 1) as nat;
                        let hh = pow2(d1);
                        assert forall|u: int| 0 <= u < 8 implies node_wf(
                            #[trigger] children@[u],
                            d1,
                        ) && node_tidy(children@[u]) by {}
                        // some child is not an empty leaf, so the node still
                        // holds a voxel somewhere
                        let w = choose|u: int|
                            0 <= u < 8 && !node_is_empty_leaf(#[trigger] children@[u]);
                        assert(node_has_voxels(children@[w])) by {
                            if children@[w] is Internal {
                            } else {
                            }
                        }
                        assert(node_has_voxels(res)) by {
                            assert(res matches OctreeNode::Internal { children: cs } && 0 <= w
                                < cs@.len() && node_has_voxels(cs@[w]));
                        }
                        assert(bx as int == top_bit(i as int, hh) && by as int == top_bit(
                            j as int,
                            hh,
                        ) && bz as int == top_bit(k as int, hh));
                        assert(i - ox == i - top_bit(i as int, hh) * hh);
                        assert(j - oy == j - top_bit(j as int, hh) * hh);
                        assert(k - oz == k - top_bit(k as int, hh) * hh);
                        lemma_remove_update(
                            old_node,
                            before,
                            res,
                            child2,
                            idx as int,
                            i as int,
                            j as int,
                            k as int,
                            d,
                        );
                    }
                    (res, found)
                }
            },
        }
    }
}

/// When clearing the target cell leaves every child an empty leaf, the old
/// subtree held no voxel anywhere but possibly the target: collapsing the
/// node to an empty leaf preserves the model.
proof fn lemma_collapse_update(
    old_node: OctreeNode,
    before: Seq<OctreeNode>,
    child2: OctreeNode,
    idx: int,
    i: int,
    j: int,
    k: int,
    d: nat,
)
    requires
        d >= 1,
        node_wf(old_node, d),
        old_node is Internal,
        0 <= i < pow2(d),
        0 <= j < pow2(d),
        0 <= k < pow2(d),
        before.len() == 8,
        node_children(old_node) == before,
        idx == top_bit(i, pow2((d - 1) as nat)) + 2 * top_bit(j, pow2((d - 1) as nat)) + 4
            * top_bit(k, pow2((d - 1) as nat)),
        forall|a: int, b: int, c: int|
            0 <= a < pow2((d - 1) as nat) && 0 <= b < pow2((d - 1) as nat) && 0 <= c < pow2(
                (d - 1) as nat,
            ) ==> #[trigger] node_get(child2, a, b, c, (d - 1) as nat) == if a == i - top_bit(
                i,
                pow2((d - 1) as nat),
            ) * pow2((d - 1) as nat) && b == j - top_bit(j, pow2((d - 1) as nat)) * pow2(
                (d - 1) as nat,
            ) && c == k - top_bit(k, pow2((d - 1) as nat)) * pow2((d - 1) as nat) {
                None::<Voxel>
            } else {
                node_get(before[idx], a, b, c, (d - 1) as nat)
            },
        forall|u: int| 0 <= u < 8 ==> node_is_empty_leaf(#[trigger] before.update(idx, child2)[u]),
    ensures
        forall|a: int, b: int, c: int|
            0 <= a < pow2(d) && 0 <= b < pow2(d) && 0 <= c < pow2(d) && !(a == i && b == j && c
                == k) ==> #[trigger] node_get(old_node, a, b, c, d) is None,
{
    let d1 = (d - 1) as nat;
    let hh = pow2(d1);
    assert(pow2(d) == 2 * hh);
    assert forall|a: int, b: int, c: int|
        0 <= a < pow2(d) && 0 <= b < pow2(d) && 0 <= c < pow2(d) && !(a == i && b == j && c == k)
        implies #[trigger] node_get(old_node, a, b, c, d) is None by {
        let ba = top_bit(a, hh);
        let bb = top_bit(b, hh);
        let bc = top_bit(c, hh);
        let ca = ba + 2 * bb + 4 * bc;
        assert(0 <= ca < 8);
        assert(node_get(old_node, a, b, c, d) == node_get(
            before[ca],
            a - ba * hh,
            b - bb * hh,
            c - bc * hh,
            d1,
        ));
        if ca == idx {
            assert(ba == top_bit(i, hh) && bb == top_bit(j, hh) && bc == top_bit(k, hh));
            assert(node_get(child2, a - ba * hh, b - bb * hh, c - bc * hh, d1) == node_get(
                before[idx],
                a - ba * hh,
                b - bb * hh,
                c - bc * hh,
                d1,
            ));
            assert(node_is_empty_leaf(before.update(idx, child2)[idx]));
            assert(node_is_empty_leaf(child2));
            lemma_empty_leaf_props(child2, d1);
        } else {
            assert(node_is_empty_leaf(before.update(idx, child2)[ca]));
            assert(before.update(idx, child2)[ca] == before[ca]);
            lemma_empty_leaf_props(before[ca], d1);
        }
    }
}

/// The pruning-free counterpart of [`lemma_insert_update`]: replacing the
/// child on the descent path of `(i, j, k)` with a subtree that is empty at
/// the target cell and unchanged elsewhere clears exactly the target cell.
proof fn lemma_remove_update(
    old_node: OctreeNode,
    before: Seq<OctreeNode>,
    res: OctreeNode,
    child2: OctreeNode,
    idx: int,
    i: int,
    j: int,
    k: int,
    d: nat,
)
    requires
        d >= 1,
        node_wf(old_node, d),
        old_node is Internal,
        0 <= i < pow2(d),
        0 <= j < pow2(d),
        0 <= k < pow2(d),
        before.len() == 8,
        node_children(old_node) == before,
        idx == top_bit(i, pow2((d - 1) as nat)) + 2 * top_bit(j, pow2((d - 1) as nat)) + 4
            * top_bit(k, pow2((d - 1) as nat)),
        res is Internal,
        node_children(res) == before.update(idx, child2),
        forall|a: int, b: int, c: int|
            0 <= a < pow2((d - 1) as nat) && 0 <= b < pow2((d - 1) as nat) && 0 <= c < pow2(
                (d - 1) as nat,
            ) ==> #[trigger] node_get(child2, a, b, c, (d - 1) as nat) == if a == i - top_bit(
                i,
                pow2((d - 1) as nat),
            ) * pow2((d - 1) as nat) && b == j - top_bit(j, pow2((d - 1) as nat)) * pow2(
                (d - 1) as nat,
            ) && c == k - top_bit(k, pow2((d - 1) as nat)) * pow2((d - 1) as nat) {
                None::<Voxel>
            } else {
                node_get(before[idx], a, b, c, (d - 1) as nat)
            },
    ensures
        forall|a: int, b: int, c: int|
            0 <= a < pow2(d) && 0 <= b < pow2(d) && 0 <= c < pow2(d) ==> #[trigger] node_get(
                res,
                a,
                b,
                c,
                d,
            ) == if a == i && b == j && c == k {
                None::<Voxel>
            } else {
                node_get(old_node, a, b, c, d)
            },
{
    let d1 = (d - 1) as nat;
    let hh = pow2(d1);
    assert(pow2(d) == 2 * hh);
    let children = node_children(res);
    assert forall|a: int, b: int, c: int|
        0 <= a < pow2(d) && 0 <= b < pow2(d) && 0 <= c < pow2(d) implies #[trigger] node_get(
        res,
        a,
        b,
        c,
        d,
    ) == (if a == i && b == j && c == k {
        None::<Voxel>
    } else {
        node_get(old_node, a, b, c, d)
    }) by {
        let ba = top_bit(a, hh);
        let bb = top_bit(b, hh);
        let bc = top_bit(c, hh);
        let ca = ba + 2 * bb + 4 * bc;
        assert(0 <= ca < 8);
        assert(node_get(res, a, b, c, d) == node_get(
            children[ca],
            a - ba * hh,
            b - bb * hh,
            c - bc * hh,
            d1,
        ));
        assert(node_get(old_node, a, b, c, d) == node_get(
            before[ca],
            a - ba * hh,
            b - bb * hh,
            c - bc * hh,
            d1,
        ));
        if ca == idx {
            assert(ba == top_bit(i, hh) && bb == top_bit(j, hh) && bc == top_bit(k, hh));
            assert(children[ca] == child2);
        } else {
            assert(!(a == i && b == j && c == k));
            assert(children[ca] == before[ca]);
        }
    }
}

/// Looks up a cell by descending the tree on index bits alone; the exec
/// mirror of [`node_get`].
fn get_cell_rec(node: &OctreeNode, i: i64, j: i64, k: i64, depth: u32) -> (r: Option<Voxel>)
    requires
        node_wf(*node, depth as nat),
        depth <= 46,
        0 <= i < pow2(depth as nat),
        0 <= j < pow2(depth as nat),
        0 <= k < pow2(depth as nat),
    ensures
        r == node_get(*node, i as int, j as int, k as int, depth as nat),
    decreases depth,
{
    match node {
        OctreeNode::Leaf { voxel } => *voxel,
        OctreeNode::Internal { children } => {
            assert(depth >= 1);
            proof {
                assert(pow2(depth as nat) == 2 * pow2((depth - 1) as nat));
            }
            let h = pow2_i64(depth - 1);
            let bx: usize = if i >= h {
                1
            } else {
                0
            };
            let by: usize = if j >= h {
                1
            } else {
                0
            };
            let bz: usize = if k >= h {
                1
            } else {
                0
            };
            let idx = bx + 2 * by + 4 * bz;
            let ox: i64 = if bx == 1 {
                h
            } else {
                0
            };
            let oy: i64 = if by == 1 {
                h
            } else {
                0
            };
            let oz: i64 = if bz == 1 {
                h
            } else {
                0
            };
            get_cell_rec(&children[idx], i - ox, j - oy, k - oz, depth - 1)
        },
    }
}

} // verus!
