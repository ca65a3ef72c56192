//! Budgeted chunk streaming.
//!
//! The controller owns the resident-chunk map: chunk coordinate to the
//! handle of its renderable object (handles are issued here, sequentially;
//! the host maps them to its own objects). Each tick runs three phases, in
//! order: evict resident chunks that fell out of range; discover in-range
//! chunks that are not resident, nearest first, and build up to
//! `build_budget` of them; and rebuild chunks the octree marked dirty, also
//! nearest first and budgeted, re-queueing what the budget could not cover
//! so no dirty chunk is ever silently dropped.

use vstd::prelude::*;
use crate::coords::COORD_LIMIT;
use crate::octree::{SparseVoxelOctree, ChunkCoord, dirty_wf};
use crate::chunk::{MeshData, chunk_faces, faces_view, mesh_wf};

verus! {

broadcast use vstd::seq_lib::group_seq_properties;

/// The squared distance between two points.
pub open spec fn dist_sq(ax: int, ay: int, az: int, bx: int, by: int, bz: int) -> int {
    (ax - bx) * (ax - bx) + (ay - by) * (ay - by) + (az - bz) * (az - bz)
}

/// The center of a chunk, in ticks, for chunks of edge `cw`.
pub open spec fn chunk_center(c: (int, int, int), cw: int) -> (int, int, int) {
    (c.0 * cw + cw / 2, c.1 * cw + cw / 2, c.2 * cw + cw / 2)
}

/// The squared distance from the camera to a chunk's center.
pub open spec fn chunk_dist_sq(c: (int, int, int), cw: int, cam: (int, int, int)) -> int {
    let ctr = chunk_center(c, cw);
    dist_sq(ctr.0, ctr.1, ctr.2, cam.0, cam.1, cam.2)
}

/// Whether a chunk's center lies within the render distance of the camera.
pub open spec fn in_range(c: (int, int, int), cw: int, cam: (int, int, int), rd: int) -> bool {
    chunk_dist_sq(c, cw, cam) <= rd * rd
}

/// A chunk coordinate as mathematical integers.
pub open spec fn cc_view(c: ChunkCoord) -> (int, int, int) {
    (c.0 as int, c.1 as int, c.2 as int)
}

/// The chunk's whole tick extent lies within the coordinate cap.
pub open spec fn chunk_bounded(c: (int, int, int), cw: int) -> bool {
    &&& -COORD_LIMIT <= c.0 * cw && (c.0 + 1) * cw <= COORD_LIMIT
    &&& -COORD_LIMIT <= c.1 * cw && (c.1 + 1) * cw <= COORD_LIMIT
    &&& -COORD_LIMIT <= c.2 * cw && (c.2 + 1) * cw <= COORD_LIMIT
}

/// No chunk coordinate appears twice in the resident map.
pub open spec fn resident_distinct(r: Seq<(ChunkCoord, u64)>) -> bool {
    forall|a: int, b: int| 0 <= a < b < r.len() ==> (#[trigger] r[a]).0 != (#[trigger] r[b]).0
}

/// Whether a chunk coordinate is resident.
pub open spec fn resident_has(r: Seq<(ChunkCoord, u64)>, c: ChunkCoord) -> bool {
    exists|i: int| 0 <= i < r.len() && (#[trigger] r[i]).0 == c
}

/// Whether a handle belongs to some entry of a resident map.
pub open spec fn handle_issued(r: Seq<(ChunkCoord, u64)>, h: u64) -> bool {
    exists|j: int| 0 <= j < r.len() && (#[trigger] r[j]).1 == h
}

/// Tracks which chunks are resident and issues their renderable handles.
pub struct StreamingController {
    /// Resident chunks: coordinate and the handle of its renderable.
    pub resident: Vec<(ChunkCoord, u64)>,
    /// The next handle to issue; all issued handles are below it.
    pub next_handle: u64,
    /// Despawn/spawn radius around the camera, in ticks.
    pub render_distance: i64,
    /// Chunks built or rebuilt per tick, in each budgeted phase.
    pub build_budget: usize,
}

impl StreamingController {
    pub open spec fn wf(self) -> bool {
        &&& resident_distinct(self.resident@)
        &&& forall|i: int|
            0 <= i < self.resident@.len() ==> (#[trigger] self.resident@[i]).1
                < self.next_handle
        &&& 0 <= self.render_distance <= COORD_LIMIT / 4
        &&& self.next_handle <= 0x1000_0000_0000_0000
    }

    /// A controller with no resident chunks.
    pub fn new(render_distance: i64, build_budget: usize) -> (s: StreamingController)
        requires
            0 <= render_distance <= COORD_LIMIT / 4,
        ensures
            s.wf(),
            s.resident@.len() == 0,
            s.render_distance == render_distance,
            s.build_budget == build_budget,
            s.next_handle == 0,
    {
        StreamingController {
            resident: Vec::new(),
            next_handle: 0,
            render_distance,
            build_budget,
        }
    }

    /// Whether a chunk coordinate is currently resident.
    pub fn is_resident(&self, c: ChunkCoord) -> (r: bool)
        ensures
            r == resident_has(self.resident@, c),
    {
        let n = self.resident.len();
        let mut i: usize = 0;
        while i < n
            invariant
                i <= n,
                n == self.resident@.len(),
                forall|u: int| 0 <= u < i ==> (#[trigger] self.resident@[u]).0 != c,
            decreases n - i,
        {
            let e = self.resident[i];
            if e.0.0 == c.0 && e.0.1 == c.1 && e.0.2 == c.2 {
                proof {
                    assert((self.resident@[i as int]).0 == c);
                }
                return true;
            }
            i = i + 1;
        }
        false
    }

    /// Eviction: despawns every resident chunk whose center is farther from
    /// the camera than the render distance, and returns their handles. The
    /// surviving entries keep their order.
    pub fn evict(&mut self, octree: &SparseVoxelOctree, cam: (i64, i64, i64)) -> (despawned: Vec<
        u64,
    >)
        requires
            old(self).wf(),
            octree.svo_wf(),
            octree.size <= COORD_LIMIT / 4,
            -COORD_LIMIT / 4 <= cam.0 <= COORD_LIMIT / 4,
            -COORD_LIMIT / 4 <= cam.1 <= COORD_LIMIT / 4,
            -COORD_LIMIT / 4 <= cam.2 <= COORD_LIMIT / 4,
            forall|i: int|
                0 <= i < old(self).resident@.len() ==> chunk_bounded(
                    cc_view((#[trigger] old(self).resident@[i]).0),
                    octree.chunk_world_size(),
                ),
        ensures
            final(self).wf(),
            final(self).next_handle == old(self).next_handle,
            final(self).render_distance == old(self).render_distance,
            final(self).build_budget == old(self).build_budget,
            // survivors: exactly the in-range entries, in order
            final(self).resident@ == old(self).resident@.filter(
                |e: (ChunkCoord, u64)|
                    in_range(
                        cc_view(e.0),
                        octree.chunk_world_size(),
                        (cam.0 as int, cam.1 as int, cam.2 as int),
                        old(self).render_distance as int,
                    ),
            ),
            // despawned: exactly the handles of the rest, in order
            despawned@ == old(self).resident@.filter(
                |e: (ChunkCoord, u64)|
                    !in_range(
                        cc_view(e.0),
                        octree.chunk_world_size(),
                        (cam.0 as int, cam.1 as int, cam.2 as int),
                        old(self).render_distance as int,
                    ),
            ).map_values(|e: (ChunkCoord, u64)| e.1),
    {
        let ghost cw = octree.chunk_world_size();
        let ghost camv = (cam.0 as int, cam.1 as int, cam.2 as int);
        let ghost rd = old(self).render_distance as int;
        let ghost pred_in = |e: (ChunkCoord, u64)| in_range(cc_view(e.0), cw, camv, rd);
        let ghost pred_out = |e: (ChunkCoord, u64)| !in_range(cc_view(e.0), cw, camv, rd);
        let cwe = octree.get_chunk_world_size();
        let n = self.resident.len();
        let mut kept: Vec<(ChunkCoord, u64)> = Vec::new();
        let mut despawned: Vec<u64> = Vec::new();
        let mut i: usize = 0;
        while i < n
            invariant
                i <= n,
                n == self.resident@.len(),
                *self == *old(self),
                old(self).wf(),
                cw == octree.chunk_world_size(),
                2 <= cwe as int == cw <= COORD_LIMIT / 4,
                camv == (cam.0 as int, cam.1 as int, cam.2 as int),
                -COORD_LIMIT / 4 <= cam.0 <= COORD_LIMIT / 4,
                -COORD_LIMIT / 4 <= cam.1 <= COORD_LIMIT / 4,
                -COORD_LIMIT / 4 <= cam.2 <= COORD_LIMIT / 4,
                rd == old(self).render_distance as int,
                pred_in == (|e: (ChunkCoord, u64)| in_range(cc_view(e.0), cw, camv, rd)),
                pred_out == (|e: (ChunkCoord, u64)| !in_range(cc_view(e.0), cw, camv, rd)),
                forall|u: int|
                    0 <= u < n ==> chunk_bounded(
                        cc_view((#[trigger] self.resident@[u]).0),
                        cw,
                    ),
                kept@ == self.resident@.take(i as int).filter(pred_in),
                despawned@ == self.resident@.take(i as int).filter(pred_out).map_values(
                    |e: (ChunkCoord, u64)| e.1,
                ),
            decreases n - i,
        {
            let e = self.resident[i];
            let inr = chunk_in_range(e.0, cwe, cam, self.render_distance);
            proof {
                assert(self.resident@.take(i as int + 1).drop_last() =~= self.resident@.take(
                    i as int,
                ));
                assert(self.resident@.take(i as int + 1).last() == e);
                reveal(Seq::filter);
            }
            if inr {
                kept.push(e);
            } else {
                despawned.push(e.1);
                proof {
                    assert(self.resident@.take(i as int + 1).filter(pred_out)
                        =~= self.resident@.take(i as int).filter(pred_out).push(e));
                    assert(despawned@ =~= self.resident@.take(i as int + 1).filter(
                        pred_out,
                    ).map_values(|x: (ChunkCoord, u64)| x.1));
                }
            }
            i = i + 1;
        }
        proof {
            assert(self.resident@.take(n as int) =~= self.resident@);
            // the filtered survivors stay distinct and keep their handles
            let filtered = self.resident@.filter(pred_in);
            lemma_filter_keeps_entries(self.resident@, pred_in);
            lemma_filter_keeps_distinct(self.resident@, pred_in);
            assert forall|a: int| 0 <= a < filtered.len() implies (#[trigger] filtered[a]).1
                < self.next_handle by {
                assert(self.resident@.contains(filtered[a]));
                let w = choose|w: int|
                    0 <= w < self.resident@.len() && self.resident@[w] == filtered[a];
            }
        }
        self.resident = kept;
        despawned
    }
}

/// Every element of a filtered sequence is an element of the original.
proof fn lemma_filter_keeps_entries<A>(s: Seq<A>, pred: spec_fn(A) -> bool)
    ensures
        forall|a: int| 0 <= a < s.filter(pred).len() ==> s.contains(#[trigger] s.filter(pred)[a]),
    decreases s.len(),
{
    reveal(Seq::filter);
    if s.len() > 0 {
        let dl = s.drop_last();
        lemma_filter_keeps_entries(dl, pred);
        assert forall|a: int| 0 <= a < s.filter(pred).len() implies s.contains(
            #[trigger] s.filter(pred)[a],
        ) by {
            if a < dl.filter(pred).len() {
                assert(dl.contains(dl.filter(pred)[a]));
                let w = choose|w: int| 0 <= w < dl.len() && dl[w] == dl.filter(pred)[a];
                assert(s[w] == dl.filter(pred)[a]);
            } else {
                assert(s.filter(pred)[a] == s.last());
                assert(s[s.len() - 1] == s.last());
            }
        }
    }
}

/// Filtering a resident map with distinct coordinates keeps them distinct.
proof fn lemma_filter_keeps_distinct(
    s: Seq<(ChunkCoord, u64)>,
    pred: spec_fn((ChunkCoord, u64)) -> bool,
)
    requires
        resident_distinct(s),
    ensures
        resident_distinct(s.filter(pred)),
    decreases s.len(),
{
    reveal(Seq::filter);
    if s.len() > 0 {
        let dl = s.drop_last();
        assert(resident_distinct(dl)) by {
            assert forall|a: int, b: int| 0 <= a < b < dl.len() implies (#[trigger] dl[a]).0 != (
            #[trigger] dl[b]).0 by {
                assert(dl[a] == s[a] && dl[b] == s[b]);
            }
        }
        lemma_filter_keeps_distinct(dl, pred);
        lemma_filter_keeps_entries(dl, pred);
        if pred(s.last()) {
            let out = s.filter(pred);
            assert forall|a: int, b: int| 0 <= a < b < out.len() implies (#[trigger] out[a]).0 != (
            #[trigger] out[b]).0 by {
                if b < out.len() - 1 {
                    assert(out[a] == dl.filter(pred)[a] && out[b] == dl.filter(pred)[b]);
                } else {
                    assert(out[b] == s.last());
                    assert(out[a] == dl.filter(pred)[a]);
                    assert(dl.contains(dl.filter(pred)[a]));
                    let w = choose|w: int| 0 <= w < dl.len() && dl[w] == dl.filter(pred)[a];
                    assert(s[w] == dl[w]);
                    assert((s[w]).0 != (s[s.len() - 1]).0);
                }
            }
        }
    }
}

/// Every chunk coordinate in a list lies in the cube of half-width `r`
/// around `center`, is in range, is not resident, and appears once; and
/// every such chunk coordinate is in the list.
pub open spec fn candidates_ok(
    cands: Seq<ChunkCoord>,
    center: (int, int, int),
    r: int,
    cw: int,
    cam: (int, int, int),
    rd: int,
    resident: Seq<(ChunkCoord, u64)>,
) -> bool {
    &&& forall|t: int|
        0 <= t < cands.len() ==> {
            let c = cc_view(#[trigger] cands[t]);
            &&& center.0 - r <= c.0 <= center.0 + r
            &&& center.1 - r <= c.1 <= center.1 + r
            &&& center.2 - r <= c.2 <= center.2 + r
            &&& in_range(c, cw, cam, rd)
            &&& !resident_has(resident, cands[t])
        }
    &&& forall|a: int, b: int| 0 <= a < b < cands.len() ==> cands[a] != cands[b]
    &&& forall|x: int, y: int, z: int|
        {
            (center.0 - r <= x <= center.0 + r && center.1 - r <= y <= center.1 + r && center.2 - r
                <= z <= center.2 + r && in_range((x, y, z), cw, cam, rd) && !resident_has(
                resident,
                (x as i64, y as i64, z as i64),
            ) && i64::MIN <= x <= i64::MAX && i64::MIN <= y <= i64::MAX && i64::MIN <= z
                <= i64::MAX) ==> cands.contains((x as i64, y as i64, z as i64))
        }
}

/// Sortedness by distance to the camera.
pub open spec fn sorted_by_dist(cands: Seq<ChunkCoord>, cw: int, cam: (int, int, int)) -> bool {
    forall|a: int, b: int|
        0 <= a <= b < cands.len() ==> chunk_dist_sq(cc_view(#[trigger] cands[a]), cw, cam)
            <= chunk_dist_sq(cc_view(#[trigger] cands[b]), cw, cam)
}

/// Sorts chunk coordinates by ascending distance to the camera: an
/// insertion sort, so the result is a permutation of the input.
fn sort_by_dist(cands: Vec<ChunkCoord>, cw: i64, cam: (i64, i64, i64)) -> (out: Vec<ChunkCoord>)
    requires
        2 <= cw <= COORD_LIMIT / 4,
        -COORD_LIMIT / 4 <= cam.0 <= COORD_LIMIT / 4,
        -COORD_LIMIT / 4 <= cam.1 <= COORD_LIMIT / 4,
        -COORD_LIMIT / 4 <= cam.2 <= COORD_LIMIT / 4,
        forall|t: int| 0 <= t < cands@.len() ==> chunk_bounded(cc_view(#[trigger] cands@[t]), cw as int),
    ensures
        out@.to_multiset() == cands@.to_multiset(),
        out@.len() == cands@.len(),
        sorted_by_dist(out@, cw as int, (cam.0 as int, cam.1 as int, cam.2 as int)),
        forall|t: int| 0 <= t < out@.len() ==> cands@.contains(#[trigger] out@[t]),
{
    broadcast use vstd::seq_lib::group_to_multiset_ensures;

    let ghost cwv = cw as int;
    let ghost camv = (cam.0 as int, cam.1 as int, cam.2 as int);
    let n = cands.len();
    let mut out: Vec<ChunkCoord> = Vec::new();
    let mut i: usize = 0;
    while i < n
        invariant
            i <= n,
            n == cands@.len(),
            2 <= cw <= COORD_LIMIT / 4,
            -COORD_LIMIT / 4 <= cam.0 <= COORD_LIMIT / 4,
            -COORD_LIMIT / 4 <= cam.1 <= COORD_LIMIT / 4,
            -COORD_LIMIT / 4 <= cam.2 <= COORD_LIMIT / 4,
            cwv == cw as int,
            camv == (cam.0 as int, cam.1 as int, cam.2 as int),
            forall|t: int|
                0 <= t < cands@.len() ==> chunk_bounded(cc_view(#[trigger] cands@[t]), cwv),
            out@.to_multiset() == cands@.take(i as int).to_multiset(),
            out@.len() == i,
            sorted_by_dist(out@, cwv, camv),
            forall|t: int| 0 <= t < out@.len() ==> cands@.contains(#[trigger] out@[t]),
        decreases n - i,
    {
        let c = cands[i];
        let d2 = chunk_center_dist(c, cw, cam);
        // find the insertion point: after every element at most as near
        let m = out.len();
        let mut p: usize = 0;
        let mut scanning = true;
        while scanning && p < m
            invariant
                p <= m,
                m == out@.len(),
                !scanning ==> p < m && chunk_dist_sq(cc_view(out@[p as int]), cwv, camv) > d2,
                2 <= cw <= COORD_LIMIT / 4,
                -COORD_LIMIT / 4 <= cam.0 <= COORD_LIMIT / 4,
                -COORD_LIMIT / 4 <= cam.1 <= COORD_LIMIT / 4,
                -COORD_LIMIT / 4 <= cam.2 <= COORD_LIMIT / 4,
                cwv == cw as int,
                camv == (cam.0 as int, cam.1 as int, cam.2 as int),
                d2 == chunk_dist_sq(cc_view(c), cwv, camv),
                forall|t: int|
                    0 <= t < out@.len() ==> chunk_bounded(cc_view(#[trigger] out@[t]), cwv),
                forall|t: int|
                    0 <= t < p ==> chunk_dist_sq(cc_view(#[trigger] out@[t]), cwv, camv)
                        <= d2,
            decreases m - p, (if scanning { 1int } else { 0int }),
        {
            let e2 = chunk_center_dist(out[p], cw, cam);
            if e2 > d2 {
                scanning = false;
            } else {
                p = p + 1;
            }
        }
        let ghost before = out@;
        out.insert(p, c);
        proof {
            assert(out@ =~= before.take(p as int) + seq![c] + before.skip(p as int));
            before.insert_ensures(p as int, c);
            assert(out@.to_multiset() == before.to_multiset().insert(c));
            assert(cands@.take(i as int + 1) =~= cands@.take(i as int).push(c));
            assert(cands@.take(i as int + 1).to_multiset() =~= cands@.take(
                i as int,
            ).to_multiset().insert(c));
            assert(sorted_by_dist(out@, cwv, camv)) by {
                assert forall|a: int, b: int| 0 <= a <= b < out@.len() implies chunk_dist_sq(
                    cc_view(#[trigger] out@[a]),
                    cwv,
                    camv,
                ) <= chunk_dist_sq(cc_view(#[trigger] out@[b]), cwv, camv) by {
                    if a < p && b == p {
                        assert(out@[a] == before[a]);
                        assert(out@[b] == c);
                    } else if a == p && b > p {
                        assert(out@[b] == before[b - 1]);
                        assert(chunk_dist_sq(cc_view(before[p as int]), cwv, camv) > d2);
                    } else if a < p && b > p {
                        assert(out@[a] == before[a] && out@[b] == before[b - 1]);
                    } else if a == p && b == p {
                    } else if a > p {
                        assert(out@[a] == before[a - 1] && out@[b] == before[b - 1]);
                    } else if b < p {
                        assert(out@[a] == before[a] && out@[b] == before[b]);
                    }
                }
            }
            assert(cands@.contains(c)) by {
                assert(cands@[i as int] == c);
            }
        }
        i = i + 1;
    }
    proof {
        assert(cands@.take(n as int) =~= cands@);
    }
    out
}

/// Whether a sequence of chunk coordinates contains one.
fn vec_contains_coord(v: &Vec<ChunkCoord>, c: ChunkCoord) -> (r: bool)
    ensures
        r == v@.contains(c),
{
    let n = v.len();
    let mut i: usize = 0;
    while i < n
        invariant
            i <= n,
            n == v@.len(),
            forall|u: int| 0 <= u < i ==> v@[u] != c,
        decreases n - i,
    {
        let e = v[i];
        if e.0 == c.0 && e.1 == c.1 && e.2 == c.2 {
            proof {
                assert(v@[i as int] == c);
            }
            return true;
        }
        i = i + 1;
    }
    false
}

/// A chunk outside the scan cube around the camera's chunk is out of range:
/// the cube's half-width covers the render distance.
proof fn lemma_outside_cube(c: (int, int, int), cc: (int, int, int), r: int, cw: int, cam: (
    int,
    int,
    int,
), rd: int)
    requires
        2 <= cw,
        0 <= rd,
        0 <= r,
        r * cw >= rd,
        cc.0 == cam.0 / cw && cc.1 == cam.1 / cw && cc.2 == cam.2 / cw,
        !(cc.0 - r <= c.0 <= cc.0 + r && cc.1 - r <= c.1 <= cc.1 + r && cc.2 - r <= c.2 <= cc.2
            + r),
    ensures
        !in_range(c, cw, cam, rd),
{
    vstd::arithmetic::div_mod::lemma_fundamental_div_mod(cam.0, cw);
    vstd::arithmetic::div_mod::lemma_fundamental_div_mod(cam.1, cw);
    vstd::arithmetic::div_mod::lemma_fundamental_div_mod(cam.2, cw);
    let ctr = chunk_center(c, cw);
    if !(cc.0 - r <= c.0 <= cc.0 + r) {
        assert((ctr.0 - cam.0) * (ctr.0 - cam.0) > rd * rd) by (nonlinear_arith)
            requires
                2 <= cw,
                0 <= rd,
                0 <= r,
                r * cw >= rd,
                ctr.0 == c.0 * cw + cw / 2,
                cam.0 == cw * cc.0 + cam.0 % cw,
                0 <= cam.0 % cw < cw,
                c.0 > cc.0 + r || c.0 < cc.0 - r,
        ;
        assert(dist_sq(ctr.0, ctr.1, ctr.2, cam.0, cam.1, cam.2) > rd * rd) by (nonlinear_arith)
            requires
                (ctr.0 - cam.0) * (ctr.0 - cam.0) > rd * rd,
        ;
    } else if !(cc.1 - r <= c.1 <= cc.1 + r) {
        assert((ctr.1 - cam.1) * (ctr.1 - cam.1) > rd * rd) by (nonlinear_arith)
            requires
                2 <= cw,
                0 <= rd,
                0 <= r,
                r * cw >= rd,
                ctr.1 == c.1 * cw + cw / 2,
                cam.1 == cw * cc.1 + cam.1 % cw,
                0 <= cam.1 % cw < cw,
                c.1 > cc.1 + r || c.1 < cc.1 - r,
        ;
        assert(dist_sq(ctr.0, ctr.1, ctr.2, cam.0, cam.1, cam.2) > rd * rd) by (nonlinear_arith)
            requires
                (ctr.1 - cam.1) * (ctr.1 - cam.1) > rd * rd,
        ;
    } else {
        assert((ctr.2 - cam.2) * (ctr.2 - cam.2) > rd * rd) by (nonlinear_arith)
            requires
                2 <= cw,
                0 <= rd,
                0 <= r,
                r * cw >= rd,
                ctr.2 == c.2 * cw + cw / 2,
                cam.2 == cw * cc.2 + cam.2 % cw,
                0 <= cam.2 % cw < cw,
                c.2 > cc.2 + r || c.2 < cc.2 - r,
        ;
        assert(dist_sq(ctr.0, ctr.1, ctr.2, cam.0, cam.1, cam.2) > rd * rd) by (nonlinear_arith)
            requires
                (ctr.2 - cam.2) * (ctr.2 - cam.2) > rd * rd,
        ;
    }
}

/// The squared distance from a chunk's center to the camera.
fn chunk_center_dist(c: ChunkCoord, cw: i64, cam: (i64, i64, i64)) -> (r: i128)
    requires
        2 <= cw <= COORD_LIMIT / 4,
        chunk_bounded(cc_view(c), cw as int),
        -COORD_LIMIT / 4 <= cam.0 <= COORD_LIMIT / 4,
        -COORD_LIMIT / 4 <= cam.1 <= COORD_LIMIT / 4,
        -COORD_LIMIT / 4 <= cam.2 <= COORD_LIMIT / 4,
    ensures
        r == chunk_dist_sq(cc_view(c), cw as int, (cam.0 as int, cam.1 as int, cam.2 as int)),
{
    proof {
        assert(c.0 as int * cw + cw == (c.0 as int + 1) * cw && c.1 as int * cw + cw == (c.1 as int
            + 1) * cw && c.2 as int * cw + cw == (c.2 as int + 1) * cw) by (nonlinear_arith);
    }
    let hx = c.0 * cw + cw / 2;
    let hy = c.1 * cw + cw / 2;
    let hz = c.2 * cw + cw / 2;
    dist_sq_exec(hx, hy, hz, cam.0, cam.1, cam.2)
}

/// A chunk within `r` chunks of the camera's chunk stays in tick bounds.
proof fn lemma_scan_bounded(
    c: (int, int, int),
    cc: (int, int, int),
    r: int,
    cw: int,
    cam: (int, int, int),
    rd: int,
)
    requires
        2 <= cw <= COORD_LIMIT / 16,
        -COORD_LIMIT / 8 <= cam.0 <= COORD_LIMIT / 8,
        -COORD_LIMIT / 8 <= cam.1 <= COORD_LIMIT / 8,
        -COORD_LIMIT / 8 <= cam.2 <= COORD_LIMIT / 8,
        0 <= rd <= COORD_LIMIT / 8,
        cc.0 == cam.0 / cw && cc.1 == cam.1 / cw && cc.2 == cam.2 / cw,
        0 <= r,
        r * cw <= rd + cw,
        cc.0 - r <= c.0 <= cc.0 + r,
        cc.1 - r <= c.1 <= cc.1 + r,
        cc.2 - r <= c.2 <= cc.2 + r,
    ensures
        chunk_bounded(c, cw),
{
    vstd::arithmetic::div_mod::lemma_fundamental_div_mod(cam.0, cw);
    vstd::arithmetic::div_mod::lemma_fundamental_div_mod(cam.1, cw);
    vstd::arithmetic::div_mod::lemma_fundamental_div_mod(cam.2, cw);
    assert(-COORD_LIMIT <= c.0 * cw && (c.0 + 1) * cw <= COORD_LIMIT) by (nonlinear_arith)
        requires
            2 <= cw <= COORD_LIMIT / 16,
            -COORD_LIMIT / 8 <= cam.0 <= COORD_LIMIT / 8,
            0 <= rd <= COORD_LIMIT / 8,
            cam.0 == cw * cc.0 + cam.0 % cw,
            0 <= cam.0 % cw < cw,
            0 <= r,
            r * cw <= rd + cw,
            cc.0 - r <= c.0 <= cc.0 + r,
            COORD_LIMIT == 0x1000_0000_0000,
    ;
    assert(-COORD_LIMIT <= c.1 * cw && (c.1 + 1) * cw <= COORD_LIMIT) by (nonlinear_arith)
        requires
            2 <= cw <= COORD_LIMIT / 16,
            -COORD_LIMIT / 8 <= cam.1 <= COORD_LIMIT / 8,
            0 <= rd <= COORD_LIMIT / 8,
            cam.1 == cw * cc.1 + cam.1 % cw,
            0 <= cam.1 % cw < cw,
            0 <= r,
            r * cw <= rd + cw,
            cc.1 - r <= c.1 <= cc.1 + r,
            COORD_LIMIT == 0x1000_0000_0000,
    ;
    assert(-COORD_LIMIT <= c.2 * cw && (c.2 + 1) * cw <= COORD_LIMIT) by (nonlinear_arith)
        requires
            2 <= cw <= COORD_LIMIT / 16,
            -COORD_LIMIT / 8 <= cam.2 <= COORD_LIMIT / 8,
            0 <= rd <= COORD_LIMIT / 8,
            cam.2 == cw * cc.2 + cam.2 % cw,
            0 <= cam.2 % cw < cw,
            0 <= r,
            r * cw <= rd + cw,
            cc.2 - r <= c.2 <= cc.2 + r,
            COORD_LIMIT == 0x1000_0000_0000,
    ;
}

impl StreamingController {
    /// Discovery: collects every chunk whose center is within the render
    /// distance and that is not yet resident, by scanning the cubic chunk
    /// neighborhood around the camera's own chunk just wide enough to cover
    /// the render distance.
    pub fn gather_candidates(&self, octree: &SparseVoxelOctree, cam: (i64, i64, i64)) -> (cands:
        Vec<ChunkCoord>)
        requires
            self.wf(),
            octree.svo_wf(),
            octree.size <= COORD_LIMIT / 8,
            self.render_distance <= COORD_LIMIT / 8,
            -COORD_LIMIT / 8 <= cam.0 <= COORD_LIMIT / 8,
            -COORD_LIMIT / 8 <= cam.1 <= COORD_LIMIT / 8,
            -COORD_LIMIT / 8 <= cam.2 <= COORD_LIMIT / 8,
        ensures
            forall|t: int|
                0 <= t < cands@.len() ==> {
                    &&& in_range(
                        cc_view(#[trigger] cands@[t]),
                        octree.chunk_world_size(),
                        (cam.0 as int, cam.1 as int, cam.2 as int),
                        self.render_distance as int,
                    )
                    &&& !resident_has(self.resident@, cands@[t])
                    &&& chunk_bounded(cc_view(cands@[t]), octree.chunk_world_size())
                },
            forall|a: int, b: int| 0 <= a < b < cands@.len() ==> cands@[a] != cands@[b],
            forall|x: i64, y: i64, z: i64|
                in_range(
                    (x as int, y as int, z as int),
                    octree.chunk_world_size(),
                    (cam.0 as int, cam.1 as int, cam.2 as int),
                    self.render_distance as int,
                ) && !resident_has(self.resident@, (x, y, z)) ==> cands@.contains((x, y, z)),
    {
        let ghost cw = octree.chunk_world_size();
        let ghost camv = (cam.0 as int, cam.1 as int, cam.2 as int);
        let ghost rd = self.render_distance as int;
        let cwe = octree.get_chunk_world_size();
        let cc = octree.compute_chunk_coords(cam.0, cam.1, cam.2);
        let r = crate::coords::floor_div(self.render_distance + cwe - 1, cwe);
        proof {
            octree.lemma_dims();
            vstd::arithmetic::div_mod::lemma_fundamental_div_mod(
                self.render_distance as int + cwe as int - 1,
                cwe as int,
            );
            assert(0 <= r && r as int * cw <= rd + cw && r as int * cw >= rd && r <= rd)
                by (nonlinear_arith)
                requires
                    rd + cw - 1 == cw * (r as int) + (rd + cw - 1) % cw,
                    0 <= (rd + cw - 1) % cw < cw,
                    2 <= cw,
                    0 <= rd,
                    r as int == (rd + cw - 1) / cw,
            ;
            vstd::arithmetic::div_mod::lemma_fundamental_div_mod(cam.0 as int, cw);
            vstd::arithmetic::div_mod::lemma_fundamental_div_mod(cam.1 as int, cw);
            vstd::arithmetic::div_mod::lemma_fundamental_div_mod(cam.2 as int, cw);
            assert(-COORD_LIMIT / 8 <= cc.0 as int <= COORD_LIMIT / 8 && -COORD_LIMIT / 8
                <= cc.1 as int <= COORD_LIMIT / 8 && -COORD_LIMIT / 8 <= cc.2 as int
                <= COORD_LIMIT / 8) by (nonlinear_arith)
                requires
                    cam.0 as int == cw * (cc.0 as int) + cam.0 as int % cw,
                    cam.1 as int == cw * (cc.1 as int) + cam.1 as int % cw,
                    cam.2 as int == cw * (cc.2 as int) + cam.2 as int % cw,
                    0 <= cam.0 as int % cw < cw,
                    0 <= cam.1 as int % cw < cw,
                    0 <= cam.2 as int % cw < cw,
                    2 <= cw,
                    -COORD_LIMIT / 8 <= cam.0 <= COORD_LIMIT / 8,
                    -COORD_LIMIT / 8 <= cam.1 <= COORD_LIMIT / 8,
                    -COORD_LIMIT / 8 <= cam.2 <= COORD_LIMIT / 8,
            ;
        }
        let mut cands: Vec<ChunkCoord> = Vec::new();
        let mut dx = -r;
        while dx <= r
            invariant
                self.wf(),
                octree.svo_wf(),
                2 <= cwe as int == cw <= COORD_LIMIT / 16,
                camv == (cam.0 as int, cam.1 as int, cam.2 as int),
                rd == self.render_distance as int,
                0 <= rd <= COORD_LIMIT / 8,
                -COORD_LIMIT / 8 <= cam.0 <= COORD_LIMIT / 8,
                -COORD_LIMIT / 8 <= cam.1 <= COORD_LIMIT / 8,
                -COORD_LIMIT / 8 <= cam.2 <= COORD_LIMIT / 8,
                cc.0 as int == cam.0 as int / cw && cc.1 as int == cam.1 as int / cw
                    && cc.2 as int == cam.2 as int / cw,
                -COORD_LIMIT / 8 <= cc.0 as int <= COORD_LIMIT / 8,
                -COORD_LIMIT / 8 <= cc.1 as int <= COORD_LIMIT / 8,
                -COORD_LIMIT / 8 <= cc.2 as int <= COORD_LIMIT / 8,
                0 <= r <= COORD_LIMIT / 8,
                r as int * cw >= rd,
                r as int * cw <= rd + cw,
                -r <= dx <= r + 1,
                forall|t: int|
                    0 <= t < cands@.len() ==> {
                        &&& in_range(cc_view(#[trigger] cands@[t]), cw, camv, rd)
                        &&& !resident_has(self.resident@, cands@[t])
                        &&& chunk_bounded(cc_view(cands@[t]), cw)
                    },
                forall|a: int, b: int| 0 <= a < b < cands@.len() ==> cands@[a] != cands@[b],
                forall|ox: i64, oy: i64, oz: i64|
                    (cc.0 as int - r <= ox < cc.0 as int + dx && cc.1 as int - r <= oy
                        <= cc.1 as int + r && cc.2 as int - r <= oz <= cc.2 as int + r && in_range(
                        (ox as int, oy as int, oz as int),
                        cw,
                        camv,
                        rd,
                    ) && !resident_has(self.resident@, (ox, oy, oz))) ==> cands@.contains(
                        (ox, oy, oz),
                    ),
            decreases r + 1 - dx,
        {
            let x = cc.0 + dx;
            let mut dy = -r;
            while dy <= r
                invariant
                    self.wf(),
                    octree.svo_wf(),
                    2 <= cwe as int == cw <= COORD_LIMIT / 16,
                    camv == (cam.0 as int, cam.1 as int, cam.2 as int),
                    rd == self.render_distance as int,
                    0 <= rd <= COORD_LIMIT / 8,
                    -COORD_LIMIT / 8 <= cam.0 <= COORD_LIMIT / 8,
                    -COORD_LIMIT / 8 <= cam.1 <= COORD_LIMIT / 8,
                    -COORD_LIMIT / 8 <= cam.2 <= COORD_LIMIT / 8,
                    cc.0 as int == cam.0 as int / cw && cc.1 as int == cam.1 as int / cw
                        && cc.2 as int == cam.2 as int / cw,
                    -COORD_LIMIT / 8 <= cc.0 as int <= COORD_LIMIT / 8,
                    -COORD_LIMIT / 8 <= cc.1 as int <= COORD_LIMIT / 8,
                    -COORD_LIMIT / 8 <= cc.2 as int <= COORD_LIMIT / 8,
                    0 <= r <= COORD_LIMIT / 8,
                    r as int * cw >= rd,
                    r as int * cw <= rd + cw,
                    -r <= dx <= r,
                    -r <= dy <= r + 1,
                    x == cc.0 + dx,
                    forall|t: int|
                        0 <= t < cands@.len() ==> {
                            &&& in_range(cc_view(#[trigger] cands@[t]), cw, camv, rd)
                            &&& !resident_has(self.resident@, cands@[t])
                            &&& chunk_bounded(cc_view(cands@[t]), cw)
                        },
                    forall|a: int, b: int| 0 <= a < b < cands@.len() ==> cands@[a] != cands@[b],
                    forall|ox: i64, oy: i64, oz: i64|
                        (cc.0 as int - r <= ox < cc.0 as int + dx && cc.1 as int - r <= oy
                            <= cc.1 as int + r && cc.2 as int - r <= oz <= cc.2 as int + r
                            && in_range((ox as int, oy as int, oz as int), cw, camv, rd)
                            && !resident_has(self.resident@, (ox, oy, oz)))
                            ==> cands@.contains((ox, oy, oz)),
                    forall|oy: i64, oz: i64|
                        (cc.1 as int - r <= oy < cc.1 as int + dy && cc.2 as int - r <= oz
                            <= cc.2 as int + r && in_range(
                            (x as int, oy as int, oz as int),
                            cw,
                            camv,
                            rd,
                        ) && !resident_has(self.resident@, (x, oy, oz))) ==> cands@.contains(
                            (x, oy, oz),
                        ),
                decreases r + 1 - dy,
            {
                let y = cc.1 + dy;
                let mut dz = -r;
                while dz <= r
                    invariant
                        self.wf(),
                        octree.svo_wf(),
                        2 <= cwe as int == cw <= COORD_LIMIT / 16,
                        camv == (cam.0 as int, cam.1 as int, cam.2 as int),
                        rd == self.render_distance as int,
                        0 <= rd <= COORD_LIMIT / 8,
                        -COORD_LIMIT / 8 <= cam.0 <= COORD_LIMIT / 8,
                        -COORD_LIMIT / 8 <= cam.1 <= COORD_LIMIT / 8,
                        -COORD_LIMIT / 8 <= cam.2 <= COORD_LIMIT / 8,
                        cc.0 as int == cam.0 as int / cw && cc.1 as int == cam.1 as int / cw
                            && cc.2 as int == cam.2 as int / cw,
                        -COORD_LIMIT / 8 <= cc.0 as int <= COORD_LIMIT / 8,
                        -COORD_LIMIT / 8 <= cc.1 as int <= COORD_LIMIT / 8,
                        -COORD_LIMIT / 8 <= cc.2 as int <= COORD_LIMIT / 8,
                        0 <= r <= COORD_LIMIT / 8,
                        r as int * cw >= rd,
                        r as int * cw <= rd + cw,
                        -r <= dx <= r,
                        -r <= dy <= r,
                        -r <= dz <= r + 1,
                        x == cc.0 + dx,
                        y == cc.1 + dy,
                        forall|t: int|
                            0 <= t < cands@.len() ==> {
                                &&& in_range(cc_view(#[trigger] cands@[t]), cw, camv, rd)
                                &&& !resident_has(self.resident@, cands@[t])
                                &&& chunk_bounded(cc_view(cands@[t]), cw)
                            },
                        forall|a: int, b: int|
                            0 <= a < b < cands@.len() ==> cands@[a] != cands@[b],
                        forall|ox: i64, oy: i64, oz: i64|
                            (cc.0 as int - r <= ox < cc.0 as int + dx && cc.1 as int - r <= oy
                                <= cc.1 as int + r && cc.2 as int - r <= oz <= cc.2 as int + r
                                && in_range((ox as int, oy as int, oz as int), cw, camv, rd)
                                && !resident_has(self.resident@, (ox, oy, oz)))
                                ==> cands@.contains((ox, oy, oz)),
                        forall|oy: i64, oz: i64|
                            (cc.1 as int - r <= oy < cc.1 as int + dy && cc.2 as int - r <= oz
                                <= cc.2 as int + r && in_range(
                                (x as int, oy as int, oz as int),
                                cw,
                                camv,
                                rd,
                            ) && !resident_has(self.resident@, (x, oy, oz)))
                                ==> cands@.contains((x, oy, oz)),
                        forall|oz: i64|
                            (cc.2 as int - r <= oz < cc.2 as int + dz && in_range(
                                (x as int, y as int, oz as int),
                                cw,
                                camv,
                                rd,
                            ) && !resident_has(self.resident@, (x, y, oz)))
                                ==> cands@.contains((x, y, oz)),
                    decreases r + 1 - dz,
                {
                    let z = cc.2 + dz;
                    let c = (x, y, z);
                    proof {
                        lemma_scan_bounded(
                            cc_view(c),
                            (cc.0 as int, cc.1 as int, cc.2 as int),
                            r as int,
                            cw,
                            camv,
                            rd,
                        );
                    }
                    if chunk_in_range(c, cwe, cam, self.render_distance) && !self.is_resident(c)
                        && !vec_contains_coord(&cands, c) {
                        cands.push(c);
                    }
                    dz = dz + 1;
                }
                dy = dy + 1;
            }
            dx = dx + 1;
        }
        proof {
            // every in-range absent chunk lies inside the scanned cube
            assert forall|x: i64, y: i64, z: i64|
                in_range((x as int, y as int, z as int), cw, camv, rd) && !resident_has(
                    self.resident@,
                    (x, y, z),
                ) implies cands@.contains((x, y, z)) by {
                if !(cc.0 as int - r <= x as int <= cc.0 as int + r && cc.1 as int - r <= y as int
                    <= cc.1 as int + r && cc.2 as int - r <= z as int <= cc.2 as int + r) {
                    lemma_outside_cube(
                        (x as int, y as int, z as int),
                        (cc.0 as int, cc.1 as int, cc.2 as int),
                        r as int,
                        cw,
                        camv,
                        rd,
                    );
                }
            }
        }
        cands
    }
}

/// What a budgeted spawn did: the in-range absent chunks nearest first, and
/// the ones actually spawned with their new handles and meshes.
pub struct SpawnPlan {
    /// Every in-range, non-resident chunk, sorted by distance to the camera.
    pub candidates: Vec<ChunkCoord>,
    /// One entry per processed candidate with geometry: handle, coordinate,
    /// mesh.
    pub spawned: Vec<(u64, ChunkCoord, MeshData)>,
}

impl StreamingController {
    /// Budgeted spawn: discovers every in-range chunk that is not resident,
    /// sorts them nearest first, and processes exactly the first
    /// `build_budget` of them (all, if fewer): each is built, and each with
    /// any geometry gets a fresh handle and joins the resident map. A chunk
    /// without geometry still consumes budget but spawns nothing, and
    /// candidates beyond the budget are left for a later tick's discovery.
    pub fn spawn_new(&mut self, octree: &SparseVoxelOctree, cam: (i64, i64, i64)) -> (plan:
        SpawnPlan)
        requires
            old(self).wf(),
            octree.svo_wf(),
            octree.max_depth <= 10,
            octree.size <= COORD_LIMIT / 8,
            old(self).render_distance <= COORD_LIMIT / 8,
            -COORD_LIMIT / 8 <= cam.0 <= COORD_LIMIT / 8,
            -COORD_LIMIT / 8 <= cam.1 <= COORD_LIMIT / 8,
            -COORD_LIMIT / 8 <= cam.2 <= COORD_LIMIT / 8,
            old(self).next_handle as int + old(self).build_budget as int <= 0x1000_0000_0000_0000,
        ensures
            final(self).wf(),
            final(self).render_distance == old(self).render_distance,
            final(self).build_budget == old(self).build_budget,
            // the candidates: every in-range absent chunk, nearest first
            sorted_by_dist(
                plan.candidates@,
                octree.chunk_world_size(),
                (cam.0 as int, cam.1 as int, cam.2 as int),
            ),
            forall|t: int|
                0 <= t < plan.candidates@.len() ==> in_range(
                    cc_view(#[trigger] plan.candidates@[t]),
                    octree.chunk_world_size(),
                    (cam.0 as int, cam.1 as int, cam.2 as int),
                    old(self).render_distance as int,
                ) && !resident_has(old(self).resident@, plan.candidates@[t]),
            forall|a: int, b: int|
                0 <= a < b < plan.candidates@.len() ==> plan.candidates@[a] != plan.candidates@[b],
            forall|x: i64, y: i64, z: i64|
                in_range(
                    (x as int, y as int, z as int),
                    octree.chunk_world_size(),
                    (cam.0 as int, cam.1 as int, cam.2 as int),
                    old(self).render_distance as int,
                ) && !resident_has(old(self).resident@, (x, y, z)) ==> plan.candidates@.contains(
                    (x, y, z),
                ),
            // exactly the first `build_budget` candidates are processed; the
            // ones with geometry are spawned, in order
            plan.spawned@.map_values(|e: (u64, ChunkCoord, MeshData)| e.1)
                == plan.candidates@.take(
                if old(self).build_budget as int <= plan.candidates@.len() as int {
                    old(self).build_budget as int
                } else {
                    plan.candidates@.len() as int
                },
            ).filter(
                |c: ChunkCoord|
                    chunk_faces(*octree, c.0 as int, c.1 as int, c.2 as int).len() != 0,
            ),
            // fresh sequential handles, exact meshes
            forall|i: int|
                0 <= i < plan.spawned@.len() ==> {
                    let e = #[trigger] plan.spawned@[i];
                    &&& e.0 as int == old(self).next_handle as int + i
                    &&& faces_view(e.2.faces@) == chunk_faces(
                        *octree,
                        e.1.0 as int,
                        e.1.1 as int,
                        e.1.2 as int,
                    )
                    &&& mesh_wf(e.2, octree.s_min())
                    &&& e.2.faces@.len() != 0
                },
            final(self).next_handle as int == old(self).next_handle as int
                + plan.spawned@.len() as int,
            // the spawned chunks join the resident map, in order
            final(self).resident@ == old(self).resident@ + plan.spawned@.map_values(
                |e: (u64, ChunkCoord, MeshData)| (e.1, e.0),
            ),
    {
        let ghost cw = octree.chunk_world_size();
        let ghost camv = (cam.0 as int, cam.1 as int, cam.2 as int);
        let ghost rd = old(self).render_distance as int;
        let ghost nonempty = |c: ChunkCoord|
            chunk_faces(*octree, c.0 as int, c.1 as int, c.2 as int).len() != 0;
        let raw = self.gather_candidates(octree, cam);
        proof {
            octree.lemma_dims();
        }
        let cwe = octree.get_chunk_world_size();
        let candidates = sort_by_dist(raw, cwe, cam);
        proof {
            broadcast use vstd::seq_lib::group_to_multiset_ensures;

            // sorting permutes, so the candidate properties carry over
            assert forall|t: int| 0 <= t < candidates@.len() implies in_range(
                cc_view(#[trigger] candidates@[t]),
                cw,
                camv,
                rd,
            ) && !resident_has(old(self).resident@, candidates@[t]) && chunk_bounded(
                cc_view(candidates@[t]),
                cw,
            ) by {
                assert(raw@.contains(candidates@[t]));
            }
            assert(raw@.no_duplicates());
            raw@.lemma_multiset_has_no_duplicates();
            candidates@.lemma_multiset_has_no_duplicates_conv();
            assert(candidates@.no_duplicates());
            assert forall|a: int, b: int| 0 <= a < b < candidates@.len() implies candidates@[a]
                != candidates@[b] by {}
            assert forall|x: i64, y: i64, z: i64|
                in_range((x as int, y as int, z as int), cw, camv, rd) && !resident_has(
                    old(self).resident@,
                    (x, y, z),
                ) implies candidates@.contains((x, y, z)) by {
                assert(raw@.contains((x, y, z)));
                assert(raw@.to_multiset().count((x, y, z)) > 0);
                assert(candidates@.to_multiset().count((x, y, z)) > 0);
            }
        }
        let budget = if self.build_budget <= candidates.len() {
            self.build_budget
        } else {
            candidates.len()
        };
        let mut spawned: Vec<(u64, ChunkCoord, MeshData)> = Vec::new();
        let mut t: usize = 0;
        while t < budget
            invariant
                t <= budget,
                budget <= candidates@.len(),
                budget <= old(self).build_budget,
                octree.svo_wf(),
                octree.max_depth <= 10,
                octree.size <= COORD_LIMIT / 8,
                cw == octree.chunk_world_size(),
                nonempty == (|c: ChunkCoord|
                    chunk_faces(*octree, c.0 as int, c.1 as int, c.2 as int).len() != 0),
                old(self).wf(),
                old(self).next_handle as int + old(self).build_budget as int
                    <= 0x1000_0000_0000_0000,
                forall|u: int|
                    0 <= u < candidates@.len() ==> !resident_has(
                        old(self).resident@,
                        #[trigger] candidates@[u],
                    ) && chunk_bounded(cc_view(candidates@[u]), cw),
                forall|a: int, b: int|
                    0 <= a < b < candidates@.len() ==> candidates@[a] != candidates@[b],
                self.render_distance == old(self).render_distance,
                self.build_budget == old(self).build_budget,
                spawned@.map_values(|e: (u64, ChunkCoord, MeshData)| e.1) == candidates@.take(
                    t as int,
                ).filter(nonempty),
                forall|i: int|
                    0 <= i < spawned@.len() ==> {
                        let e = #[trigger] spawned@[i];
                        &&& e.0 as int == old(self).next_handle as int + i
                        &&& faces_view(e.2.faces@) == chunk_faces(
                            *octree,
                            e.1.0 as int,
                            e.1.1 as int,
                            e.1.2 as int,
                        )
                        &&& mesh_wf(e.2, octree.s_min())
                        &&& e.2.faces@.len() != 0
                    },
                self.next_handle as int == old(self).next_handle as int + spawned@.len() as int,
                self.resident@ == old(self).resident@ + spawned@.map_values(
                    |e: (u64, ChunkCoord, MeshData)| (e.1, e.0),
                ),
                resident_distinct(self.resident@),
                forall|i: int|
                    0 <= i < self.resident@.len() ==> (#[trigger] self.resident@[i]).1
                        < self.next_handle,
                spawned@.len() <= t,
            decreases budget - t,
        {
            let c = candidates[t];
            let mesh = octree.build_chunk_mesh(c.0, c.1, c.2);
            proof {
                assert(candidates@.take(t as int + 1) =~= candidates@.take(t as int).push(c));
                reveal(Seq::filter);
                assert(candidates@.take(t as int + 1).drop_last() =~= candidates@.take(t as int));
            }
            if mesh.faces.len() > 0 {
                let h = self.next_handle;
                self.next_handle = self.next_handle + 1;
                let ghost res_before = self.resident@;
                proof {
                    // the new coordinate is in none of the current entries
                    assert forall|u: int| 0 <= u < self.resident@.len() implies (
                    #[trigger] self.resident@[u]).0 != c by {
                        if u < old(self).resident@.len() {
                            assert(self.resident@[u] == old(self).resident@[u]);
                            if self.resident@[u].0 == c {
                                assert(resident_has(old(self).resident@, c));
                            }
                        } else {
                            let sidx = u - old(self).resident@.len();
                            assert(self.resident@[u] == spawned@.map_values(
                                |e: (u64, ChunkCoord, MeshData)| (e.1, e.0),
                            )[sidx]);
                            let sc = spawned@[sidx].1;
                            assert(candidates@.take(t as int).filter(nonempty)[sidx] == sc);
                            lemma_filter_keeps_entries(candidates@.take(t as int), nonempty);
                            let w = choose|w: int|
                                0 <= w < candidates@.take(t as int).len() && candidates@.take(
                                    t as int,
                                )[w] == sc;
                            assert(candidates@[w] == sc);
                        }
                    }
                }
                self.resident.push((c, h));
                spawned.push((h, c, mesh));
                proof {
                    assert(spawned@.map_values(|e: (u64, ChunkCoord, MeshData)| e.1)
                        =~= candidates@.take(t as int + 1).filter(nonempty));
                    assert(self.resident@ =~= old(self).resident@ + spawned@.map_values(
                        |e: (u64, ChunkCoord, MeshData)| (e.1, e.0),
                    ));
                }
            } else {
                proof {
                    assert(!nonempty(c)) by {
                        assert(faces_view(mesh.faces@).len() == mesh.faces@.len());
                    }
                    assert(candidates@.take(t as int + 1).filter(nonempty) =~= candidates@.take(
                        t as int,
                    ).filter(nonempty));
                }
            }
            t = t + 1;
        }
        SpawnPlan { candidates, spawned }
    }
}

/// What a budgeted rebuild did: the drained dirty queue nearest first, the
/// handles of renderables despawned, and the rebuilt chunks spawned anew.
pub struct RebuildOutput {
    /// The drained dirty set, sorted nearest first.
    pub queue: Vec<ChunkCoord>,
    /// Handles of renderables despawned for rebuilt or out-of-range chunks.
    pub despawned: Vec<u64>,
    /// Rebuilt chunks with geometry: handle, coordinate, mesh.
    pub spawned: Vec<(u64, ChunkCoord, MeshData)>,
}

impl StreamingController {
    /// Removes the resident entry of a chunk, if any, and returns its
    /// handle. Coordinates are unique, so at most one entry leaves.
    fn remove_resident(&mut self, c: ChunkCoord) -> (r: Option<u64>)
        requires
            resident_distinct(old(self).resident@),
        ensures
            final(self).next_handle == old(self).next_handle,
            final(self).render_distance == old(self).render_distance,
            final(self).build_budget == old(self).build_budget,
            resident_distinct(final(self).resident@),
            !resident_has(final(self).resident@, c),
            forall|e: (ChunkCoord, u64)|
                #[trigger] final(self).resident@.contains(e) <==> (old(self).resident@.contains(e)
                    && e.0 != c),
            r is Some ==> old(self).resident@.contains((c, r->Some_0)),
            r is None ==> !resident_has(old(self).resident@, c),
    {
        let n = self.resident.len();
        let mut i: usize = 0;
        while i < n
            invariant
                i <= n,
                n == self.resident@.len(),
                *self == *old(self),
                resident_distinct(old(self).resident@),
                forall|u: int| 0 <= u < i ==> (#[trigger] self.resident@[u]).0 != c,
            decreases n - i,
        {
            let e = self.resident[i];
            if e.0.0 == c.0 && e.0.1 == c.1 && e.0.2 == c.2 {
                let ghost before = self.resident@;
                let removed = self.resident.remove(i);
                proof {
                    assert(removed == before[i as int]);
                    assert(removed.0 == c);
                    assert(self.resident@ =~= before.take(i as int) + before.skip(i as int + 1));
                    assert forall|a: int, b: int|
                        0 <= a < b < self.resident@.len() implies (
                    #[trigger] self.resident@[a]).0 != (#[trigger] self.resident@[b]).0 by {
                        let oa: int = if a < i {
                            a
                        } else {
                            a + 1
                        };
                        let ob: int = if b < i {
                            b
                        } else {
                            b + 1
                        };
                        assert(self.resident@[a] == before[oa] && self.resident@[b] == before[ob]);
                    }
                    assert(!resident_has(self.resident@, c)) by {
                        assert forall|u: int|
                            0 <= u < self.resident@.len() implies (
                        #[trigger] self.resident@[u]).0 != c by {
                            let ou: int = if u < i {
                                u
                            } else {
                                u + 1
                            };
                            assert(self.resident@[u] == before[ou]);
                            if ou != i {
                                assert(before[ou].0 != before[i as int].0);
                            }
                        }
                    }
                    assert forall|e2: (ChunkCoord, u64)|
                        #[trigger] self.resident@.contains(e2) <==> (before.contains(e2) && e2.0
                            != c) by {
                        if self.resident@.contains(e2) {
                            let w = choose|w: int|
                                0 <= w < self.resident@.len() && self.resident@[w] == e2;
                            let ow: int = if w < i {
                                w
                            } else {
                                w + 1
                            };
                            assert(before[ow] == e2);
                            assert(before.contains(e2));
                            assert(e2.0 != c) by {
                                assert(!resident_has(self.resident@, c));
                                assert(self.resident@[w] == e2);
                            }
                        }
                        if before.contains(e2) && e2.0 != c {
                            let w = choose|w: int| 0 <= w < before.len() && before[w] == e2;
                            assert(w != i);
                            let nw: int = if w < i {
                                w
                            } else {
                                w - 1
                            };
                            assert(self.resident@[nw] == e2);
                        }
                    }
                }
                return Some(removed.1);
            }
            i = i + 1;
        }
        proof {
            assert forall|e2: (ChunkCoord, u64)|
                #[trigger] self.resident@.contains(e2) implies (old(self).resident@.contains(e2)
                    && e2.0 != c) by {
                let w = choose|w: int| 0 <= w < self.resident@.len() && self.resident@[w] == e2;
            }
        }
        None
    }

    /// Budgeted rebuild: drains the octree's dirty set, sorts it nearest
    /// first, and processes the first `build_budget` entries. An in-range
    /// entry is rebuilt: its old renderable (if any) is despawned and a new
    /// one spawned when the chunk still has geometry. An out-of-range entry
    /// is despawned and dropped. Entries beyond the budget that are still in
    /// range go back into the dirty set — they are never silently dropped.
    pub fn rebuild_dirty(&mut self, octree: &mut SparseVoxelOctree, cam: (i64, i64, i64)) -> (out:
        RebuildOutput)
        requires
            old(self).wf(),
            old(octree).svo_wf(),
            old(octree).max_depth <= 10,
            old(octree).size <= COORD_LIMIT / 8,
            old(self).render_distance <= COORD_LIMIT / 8,
            -COORD_LIMIT / 8 <= cam.0 <= COORD_LIMIT / 8,
            -COORD_LIMIT / 8 <= cam.1 <= COORD_LIMIT / 8,
            -COORD_LIMIT / 8 <= cam.2 <= COORD_LIMIT / 8,
            old(self).next_handle as int + old(self).build_budget as int <= 0x1000_0000_0000_0000,
            forall|i: int|
                0 <= i < old(octree).dirty@.len() ==> chunk_bounded(
                    cc_view(#[trigger] old(octree).dirty@[i]),
                    old(octree).chunk_world_size(),
                ),
        ensures
            final(self).wf(),
            final(self).render_distance == old(self).render_distance,
            final(self).build_budget == old(self).build_budget,
            // the octree's content is untouched; only its dirty set changes
            final(octree).root == old(octree).root,
            final(octree).size == old(octree).size,
            final(octree).max_depth == old(octree).max_depth,
            final(octree).show_wireframe == old(octree).show_wireframe,
            final(octree).show_world_grid == old(octree).show_world_grid,
            final(octree).show_chunks == old(octree).show_chunks,
            final(octree).svo_wf(),
            // the queue: the old dirty set, nearest first
            out.queue@.to_multiset() == old(octree).dirty@.to_multiset(),
            sorted_by_dist(
                out.queue@,
                old(octree).chunk_world_size(),
                (cam.0 as int, cam.1 as int, cam.2 as int),
            ),
            // in-range entries beyond the budget are re-queued, in order:
            // a dirty chunk is never silently dropped
            final(octree).dirty@ == out.queue@.skip(
                if old(self).build_budget as int <= out.queue@.len() as int {
                    old(self).build_budget as int
                } else {
                    out.queue@.len() as int
                },
            ).filter(
                |c: ChunkCoord|
                    in_range(
                        cc_view(c),
                        old(octree).chunk_world_size(),
                        (cam.0 as int, cam.1 as int, cam.2 as int),
                        old(self).render_distance as int,
                    ),
            ),
            // every rebuilt chunk: a processed, in-range entry with its
            // exact mesh and a fresh sequential handle
            forall|i: int|
                0 <= i < out.spawned@.len() ==> {
                    let e = #[trigger] out.spawned@[i];
                    &&& e.0 as int == old(self).next_handle as int + i
                    &&& out.queue@.take(
                        if old(self).build_budget as int <= out.queue@.len() as int {
                            old(self).build_budget as int
                        } else {
                            out.queue@.len() as int
                        },
                    ).contains(e.1)
                    &&& in_range(
                        cc_view(e.1),
                        old(octree).chunk_world_size(),
                        (cam.0 as int, cam.1 as int, cam.2 as int),
                        old(self).render_distance as int,
                    )
                    &&& faces_view(e.2.faces@) == chunk_faces(
                        *old(octree),
                        e.1.0 as int,
                        e.1.1 as int,
                        e.1.2 as int,
                    )
                    &&& mesh_wf(e.2, old(octree).s_min())
                    &&& e.2.faces@.len() != 0
                },
            final(self).next_handle as int == old(self).next_handle as int
                + out.spawned@.len() as int,
            // every despawned handle belonged to a resident entry of a
            // processed chunk
            forall|i: int|
                0 <= i < out.despawned@.len() ==> handle_issued(
                    old(self).resident@,
                    #[trigger] out.despawned@[i],
                ),
    {
        let ghost cw = old(octree).chunk_world_size();
        let ghost camv = (cam.0 as int, cam.1 as int, cam.2 as int);
        let ghost rd = old(self).render_distance as int;
        let ghost pred_in = |c: ChunkCoord| in_range(cc_view(c), cw, camv, rd);
        proof {
            old(octree).lemma_dims();
        }
        let cwe = octree.get_chunk_world_size();
        let mut drained: Vec<ChunkCoord> = Vec::new();
        core::mem::swap(&mut octree.dirty, &mut drained);
        let queue = sort_by_dist(drained, cwe, cam);
        proof {
            broadcast use vstd::seq_lib::group_to_multiset_ensures;

            assert forall|t: int| 0 <= t < queue@.len() implies chunk_bounded(
                cc_view(#[trigger] queue@[t]),
                cw,
            ) by {
                assert(old(octree).dirty@.contains(queue@[t]));
            }
            assert(old(octree).dirty@.no_duplicates());
            old(octree).dirty@.lemma_multiset_has_no_duplicates();
            queue@.lemma_multiset_has_no_duplicates_conv();
            assert(queue@.no_duplicates());
        }
        let m = if self.build_budget <= queue.len() {
            self.build_budget
        } else {
            queue.len()
        };
        let mut despawned: Vec<u64> = Vec::new();
        let mut spawned: Vec<(u64, ChunkCoord, MeshData)> = Vec::new();
        let mut t: usize = 0;
        while t < m
            invariant
                t <= m,
                m <= queue@.len(),
                m <= old(self).build_budget,
                octree.svo_wf(),
                octree.root == old(octree).root,
                octree.size == old(octree).size,
                octree.max_depth == old(octree).max_depth,
                octree.show_wireframe == old(octree).show_wireframe,
                octree.show_world_grid == old(octree).show_world_grid,
                octree.show_chunks == old(octree).show_chunks,
                octree.dirty@.len() == 0,
                octree.max_depth <= 10,
                octree.size <= COORD_LIMIT / 8,
                cw == octree.chunk_world_size(),
                camv == (cam.0 as int, cam.1 as int, cam.2 as int),
                rd == old(self).render_distance as int,
                2 <= cwe as int == cw,
                -COORD_LIMIT / 8 <= cam.0 <= COORD_LIMIT / 8,
                -COORD_LIMIT / 8 <= cam.1 <= COORD_LIMIT / 8,
                -COORD_LIMIT / 8 <= cam.2 <= COORD_LIMIT / 8,
                old(self).wf(),
                old(self).next_handle as int + old(self).build_budget as int
                    <= 0x1000_0000_0000_0000,
                forall|u: int|
                    0 <= u < queue@.len() ==> chunk_bounded(cc_view(#[trigger] queue@[u]), cw),
                forall|a: int, b: int| 0 <= a < b < queue@.len() ==> queue@[a] != queue@[b],
                cw <= COORD_LIMIT / 16,
                0 <= self.render_distance <= COORD_LIMIT / 8,
                self.render_distance == old(self).render_distance,
                self.build_budget == old(self).build_budget,
                resident_distinct(self.resident@),
                forall|i: int|
                    0 <= i < self.resident@.len() ==> (#[trigger] self.resident@[i]).1
                        < self.next_handle,
                self.next_handle as int == old(self).next_handle as int + spawned@.len() as int,
                spawned@.len() <= t,
                forall|i: int|
                    0 <= i < spawned@.len() ==> {
                        let e = #[trigger] spawned@[i];
                        &&& e.0 as int == old(self).next_handle as int + i
                        &&& queue@.take(m as int).contains(e.1)
                        &&& in_range(cc_view(e.1), cw, camv, rd)
                        &&& faces_view(e.2.faces@) == chunk_faces(
                            *old(octree),
                            e.1.0 as int,
                            e.1.1 as int,
                            e.1.2 as int,
                        )
                        &&& mesh_wf(e.2, old(octree).s_min())
                        &&& e.2.faces@.len() != 0
                    },
                forall|i: int|
                    0 <= i < despawned@.len() ==> handle_issued(
                        old(self).resident@,
                        #[trigger] despawned@[i],
                    ),
                forall|e: (ChunkCoord, u64)|
                    #[trigger] self.resident@.contains(e) ==> old(self).resident@.contains(e)
                        || queue@.take(t as int).contains(e.0),
            decreases m - t,
        {
            let c = queue[t];
            let ghost res_before = self.resident@;
            let removed = self.remove_resident(c);
            proof {
                assert forall|e: (ChunkCoord, u64)|
                    #[trigger] self.resident@.contains(e) implies old(self).resident@.contains(e)
                    || queue@.take(t as int).contains(e.0) by {
                    assert(res_before.contains(e));
                }
                assert forall|i: int|
                    0 <= i < self.resident@.len() implies (#[trigger] self.resident@[i]).1
                    < self.next_handle by {
                    assert(self.resident@.contains(self.resident@[i]));
                    assert(res_before.contains(self.resident@[i]));
                    let w = choose|w: int|
                        0 <= w < res_before.len() && res_before[w] == self.resident@[i];
                }
            }
            if let Some(h) = removed {
                let ghost before_d = despawned@;
                despawned.push(h);
                proof {
                    assert(res_before.contains((c, h)));
                    assert forall|i: int|
                        0 <= i < despawned@.len() implies handle_issued(
                        old(self).resident@,
                        #[trigger] despawned@[i],
                    ) by {
                        if i < despawned@.len() - 1 {
                            assert(despawned@[i] == before_d[i]);
                        }
                        if i == despawned@.len() - 1 {
                            // the removed entry cannot stem from this tick:
                            // its chunk was not processed before now
                            if queue@.take(t as int).contains(c) {
                                let w = choose|w: int|
                                    0 <= w < t && queue@.take(t as int)[w] == c;
                                assert(queue@[w] == c && queue@[t as int] == c);
                                assert(false);
                            }
                            assert(old(self).resident@.contains((c, h)));
                            let j = choose|j: int|
                                0 <= j < old(self).resident@.len() && old(self).resident@[j] == (
                                c,
                                h,
                                );
                            assert((old(self).resident@[j]).1 == despawned@[i]);
                        }
                    }
                }
            }
            let inr = chunk_in_range(c, cwe, cam, self.render_distance);
            if inr {
                let mesh = octree.build_chunk_mesh(c.0, c.1, c.2);
                proof {
                    crate::chunk::lemma_chunk_faces_congruent(
                        *octree,
                        *old(octree),
                        c.0 as int,
                        c.1 as int,
                        c.2 as int,
                    );
                }
                if mesh.faces.len() > 0 {
                    let h = self.next_handle;
                    self.next_handle = self.next_handle + 1;
                    self.resident.push((c, h));
                    spawned.push((h, c, mesh));
                    proof {
                        assert(queue@.take(m as int)[t as int] == c);
                        assert(queue@.take(m as int).contains(c));
                        assert forall|a: int, b: int|
                            0 <= a < b < self.resident@.len() implies (
                        #[trigger] self.resident@[a]).0 != (#[trigger] self.resident@[b]).0 by {
                            if b == self.resident@.len() - 1 {
                                assert(self.resident@[b] == (c, h));
                                let ea = self.resident@[a];
                                assert(!resident_has(self.resident@.drop_last(), c));
                                assert(self.resident@.drop_last()[a] == ea);
                            }
                        }
                    }
                }
            }
            proof {
                assert forall|e: (ChunkCoord, u64)|
                    #[trigger] self.resident@.contains(e) implies old(self).resident@.contains(e)
                        || queue@.take(t as int + 1).contains(e.0) by {
                    if !old(self).resident@.contains(e) {
                        if queue@.take(t as int).contains(e.0) {
                            let w = choose|w: int|
                                0 <= w < t && queue@.take(t as int)[w] == e.0;
                            assert(queue@.take(t as int + 1)[w] == e.0);
                        } else {
                            assert(queue@.take(t as int + 1)[t as int] == e.0);
                        }
                    }
                }
            }
            t = t + 1;
        }
        // re-queue the in-range remainder so it is rebuilt on a later tick
        let n = queue.len();
        let mut t2: usize = m;
        while t2 < n
            invariant
                m <= t2 <= n,
                n == queue@.len(),
                octree.svo_wf(),
                octree.root == old(octree).root,
                octree.size == old(octree).size,
                octree.max_depth == old(octree).max_depth,
                octree.show_wireframe == old(octree).show_wireframe,
                octree.show_world_grid == old(octree).show_world_grid,
                octree.show_chunks == old(octree).show_chunks,
                cw == octree.chunk_world_size(),
                camv == (cam.0 as int, cam.1 as int, cam.2 as int),
                rd == old(self).render_distance as int,
                2 <= cwe as int == cw,
                -COORD_LIMIT / 8 <= cam.0 <= COORD_LIMIT / 8,
                -COORD_LIMIT / 8 <= cam.1 <= COORD_LIMIT / 8,
                -COORD_LIMIT / 8 <= cam.2 <= COORD_LIMIT / 8,
                0 <= rd <= COORD_LIMIT / 8,
                cw <= COORD_LIMIT / 16,
                0 <= self.render_distance <= COORD_LIMIT / 8,
                self.render_distance == old(self).render_distance,
                forall|u: int|
                    0 <= u < queue@.len() ==> chunk_bounded(cc_view(#[trigger] queue@[u]), cw),
                pred_in == (|c: ChunkCoord| in_range(cc_view(c), cw, camv, rd)),
                octree.dirty@ == queue@.subrange(m as int, t2 as int).filter(pred_in),
                dirty_wf(queue@.subrange(m as int, t2 as int).filter(pred_in)),
                forall|a: int, b: int| 0 <= a < b < queue@.len() ==> queue@[a] != queue@[b],
            decreases n - t2,
        {
            let c = queue[t2];
            let inr = chunk_in_range(c, cwe, cam, self.render_distance);
            proof {
                assert(queue@.subrange(m as int, t2 as int + 1).drop_last() =~= queue@.subrange(
                    m as int,
                    t2 as int,
                ));
                assert(queue@.subrange(m as int, t2 as int + 1).last() == c);
                reveal(Seq::filter);
            }
            if inr {
                let ghost before = octree.dirty@;
                octree.dirty.push(c);
                proof {
                    lemma_filter_keeps_entries(queue@.subrange(m as int, t2 as int), pred_in);
                    assert(dirty_wf(octree.dirty@)) by {
                        assert forall|a: int, b: int|
                            0 <= a < b < octree.dirty@.len() implies octree.dirty@[a]
                            != octree.dirty@[b] by {
                            if b == octree.dirty@.len() - 1 {
                                assert(octree.dirty@[a] == before[a]);
                                assert(queue@.subrange(m as int, t2 as int).contains(before[a]));
                                let w = choose|w: int|
                                    0 <= w < queue@.subrange(m as int, t2 as int).len()
                                        && queue@.subrange(m as int, t2 as int)[w] == before[a];
                                assert(queue@[m + w] == before[a]);
                                assert(queue@[t2 as int] == c);
                                assert(before[a] != c);
                            }
                        }
                    }
                }
            }
            t2 = t2 + 1;
        }
        proof {
            assert(queue@.subrange(m as int, n as int) =~= queue@.skip(m as int));
        }
        RebuildOutput { queue, despawned, spawned }
    }
}

/// Whether a chunk's center is within the render distance of the camera.
fn chunk_in_range(c: ChunkCoord, cw: i64, cam: (i64, i64, i64), rd: i64) -> (r: bool)
    requires
        2 <= cw <= COORD_LIMIT / 4,
        chunk_bounded(cc_view(c), cw as int),
        -COORD_LIMIT / 4 <= cam.0 <= COORD_LIMIT / 4,
        -COORD_LIMIT / 4 <= cam.1 <= COORD_LIMIT / 4,
        -COORD_LIMIT / 4 <= cam.2 <= COORD_LIMIT / 4,
        0 <= rd <= COORD_LIMIT / 4,
    ensures
        r == in_range(
            cc_view(c),
            cw as int,
            (cam.0 as int, cam.1 as int, cam.2 as int),
            rd as int,
        ),
{
    proof {
        assert(c.0 as int * cw + cw == (c.0 as int + 1) * cw && c.1 as int * cw + cw == (c.1 as int
            + 1) * cw && c.2 as int * cw + cw == (c.2 as int + 1) * cw) by (nonlinear_arith);
    }
    let hx = c.0 * cw + cw / 2;
    let hy = c.1 * cw + cw / 2;
    let hz = c.2 * cw + cw / 2;
    let d2 = dist_sq_exec(hx, hy, hz, cam.0, cam.1, cam.2);
    proof {
        lemma_sq_fits(rd as int, rd as int);
    }
    d2 <= (rd as i128) * (rd as i128)
}

/// The squared distance between two bounded points, computed exactly.
fn dist_sq_exec(ax: i64, ay: i64, az: i64, bx: i64, by: i64, bz: i64) -> (r: i128)
    requires
        -2 * COORD_LIMIT <= ax <= 2 * COORD_LIMIT,
        -2 * COORD_LIMIT <= ay <= 2 * COORD_LIMIT,
        -2 * COORD_LIMIT <= az <= 2 * COORD_LIMIT,
        -2 * COORD_LIMIT <= bx <= 2 * COORD_LIMIT,
        -2 * COORD_LIMIT <= by <= 2 * COORD_LIMIT,
        -2 * COORD_LIMIT <= bz <= 2 * COORD_LIMIT,
    ensures
        r == dist_sq(ax as int, ay as int, az as int, bx as int, by as int, bz as int),
{
    let dx = ax - bx;
    let dy = ay - by;
    let dz = az - bz;
    proof {
        lemma_sq_fits(dx as int, dy as int);
        lemma_sq_fits(dy as int, dz as int);
        lemma_sq_fits(dz as int, dx as int);
    }
    (dx as i128) * (dx as i128) + (dy as i128) * (dy as i128) + (dz as i128) * (dz as i128)
}

/// Squares of moderate values fit far inside `i128`.
proof fn lemma_sq_fits(a: int, b: int)
    requires
        -4 * COORD_LIMIT <= a <= 4 * COORD_LIMIT,
        -4 * COORD_LIMIT <= b <= 4 * COORD_LIMIT,
    ensures
        0 <= a * a <= 0x100_0000_0000_0000_0000_0000_0000,
        0 <= b * b <= 0x100_0000_0000_0000_0000_0000_0000,
{
    assert(0 <= a * a <= 0x100_0000_0000_0000_0000_0000_0000 && 0 <= b * b
        <= 0x100_0000_0000_0000_0000_0000_0000) by (nonlinear_arith)
        requires
            -4 * COORD_LIMIT <= a <= 4 * COORD_LIMIT,
            -4 * COORD_LIMIT <= b <= 4 * COORD_LIMIT,
            COORD_LIMIT == 0x1000_0000_0000,
    ;
}

} // verus!
