//! Chunk mesh extraction with face culling.
//!
//! A chunk is a cube of `chunk_size^3` finest-depth cells. The builder scans
//! every cell of a chunk; each occupied cell contributes one quad per face
//! whose neighboring cell is empty or outside the octree (a face between two
//! occupied cells is never visible). All quads are merged into one mesh:
//! four vertices, four normals and four texture corners per quad, and six
//! vertex indices forming its two triangles.

use vstd::prelude::*;
use crate::coords::{Vec3i, pow2, spec_align, COORD_LIMIT};
use crate::octree::SparseVoxelOctree;
use crate::structure::Voxel;

verus! {

broadcast use crate::coords::lemma_pow2_pos;

/// One of the six axis-aligned face directions of a voxel cube.
#[derive(Clone, Copy, PartialEq, Eq, Structural, Debug)]
pub enum FaceDir {
    NegX,
    PosX,
    NegY,
    PosY,
    NegZ,
    PosZ,
}

/// The unit offset to the neighboring cell in a direction.
pub open spec fn dir_offset3(dir: FaceDir) -> (int, int, int) {
    match dir {
        FaceDir::NegX => (-1, 0, 0),
        FaceDir::PosX => (1, 0, 0),
        FaceDir::NegY => (0, -1, 0),
        FaceDir::PosY => (0, 1, 0),
        FaceDir::NegZ => (0, 0, -1),
        FaceDir::PosZ => (0, 0, 1),
    }
}

/// The outward unit normal of a face: the same triple as its offset.
pub open spec fn face_normal3(dir: FaceDir) -> (int, int, int) {
    dir_offset3(dir)
}

/// The offset from a cell's center to the center of one of its faces.
pub open spec fn face_offset3(dir: FaceDir, s: int) -> (int, int, int) {
    match dir {
        FaceDir::NegX => (-(s / 2), 0, 0),
        FaceDir::PosX => (s / 2, 0, 0),
        FaceDir::NegY => (0, -(s / 2), 0),
        FaceDir::PosY => (0, s / 2, 0),
        FaceDir::NegZ => (0, 0, -(s / 2)),
        FaceDir::PosZ => (0, 0, s / 2),
    }
}

impl FaceDir {
    /// The unit offset to the neighboring cell, as executable values.
    pub fn offset(&self) -> (r: (i64, i64, i64))
        ensures
            (r.0 as int, r.1 as int, r.2 as int) == dir_offset3(*self),
    {
        match self {
            FaceDir::NegX => (-1, 0, 0),
            FaceDir::PosX => (1, 0, 0),
            FaceDir::NegY => (0, -1, 0),
            FaceDir::PosY => (0, 1, 0),
            FaceDir::NegZ => (0, 0, -1),
            FaceDir::PosZ => (0, 0, 1),
        }
    }
}

/// The face's outward normal and the offset from the cell center to the
/// face center, for a cell of edge `voxel_size` ticks. The six directions
/// are a closed enum, so no other direction can reach this computation.
pub fn face_orientation(dir: FaceDir, voxel_size: i64) -> (r: (Vec3i, Vec3i))
    requires
        0 <= voxel_size,
    ensures
        r.0.view3() == face_normal3(dir),
        r.1.view3() == face_offset3(dir, voxel_size as int),
{
    let h = voxel_size / 2;
    match dir {
        FaceDir::NegX => (Vec3i::new(-1, 0, 0), Vec3i::new(-h, 0, 0)),
        FaceDir::PosX => (Vec3i::new(1, 0, 0), Vec3i::new(h, 0, 0)),
        FaceDir::NegY => (Vec3i::new(0, -1, 0), Vec3i::new(0, -h, 0)),
        FaceDir::PosY => (Vec3i::new(0, 1, 0), Vec3i::new(0, h, 0)),
        FaceDir::NegZ => (Vec3i::new(0, 0, -1), Vec3i::new(0, 0, -h)),
        FaceDir::PosZ => (Vec3i::new(0, 0, 1), Vec3i::new(0, 0, h)),
    }
}

/// Whether the finest cell whose low corner is at ticks `(tx, ty, tz)`
/// holds a voxel.
pub open spec fn occupied_at(o: SparseVoxelOctree, tx: int, ty: int, tz: int) -> bool {
    o.voxel_at_ticks(
        tx + o.s_min() / 2,
        ty + o.s_min() / 2,
        tz + o.s_min() / 2,
    ) is Some
}

/// Whether the cell at `(tx, ty, tz)` shows a visible face in a direction:
/// it is occupied and its neighbor there is empty or outside the cube.
pub open spec fn exposed_face(o: SparseVoxelOctree, tx: int, ty: int, tz: int, dir: FaceDir) -> bool {
    &&& occupied_at(o, tx, ty, tz)
    &&& !occupied_at(
        o,
        tx + dir_offset3(dir).0 * o.s_min(),
        ty + dir_offset3(dir).1 * o.s_min(),
        tz + dir_offset3(dir).2 * o.s_min(),
    )
}

/// A face record: the low corner of its cell, in ticks, and its direction.
pub type Face = ((i64, i64, i64), FaceDir);

/// A face record as mathematical integers.
pub open spec fn face_view(f: Face) -> ((int, int, int), FaceDir) {
    ((f.0.0 as int, f.0.1 as int, f.0.2 as int), f.1)
}

/// A face list as mathematical integers.
pub open spec fn faces_view(s: Seq<Face>) -> Seq<((int, int, int), FaceDir)> {
    s.map_values(|f: Face| face_view(f))
}

/// The faces one cell contributes, in the fixed direction order.
pub open spec fn cell_faces(o: SparseVoxelOctree, tx: int, ty: int, tz: int) -> Seq<
    ((int, int, int), FaceDir),
> {
    let t = (tx, ty, tz);
    (if exposed_face(o, tx, ty, tz, FaceDir::NegX) {
        seq![(t, FaceDir::NegX)]
    } else {
        Seq::empty()
    }) + (if exposed_face(o, tx, ty, tz, FaceDir::PosX) {
        seq![(t, FaceDir::PosX)]
    } else {
        Seq::empty()
    }) + (if exposed_face(o, tx, ty, tz, FaceDir::NegY) {
        seq![(t, FaceDir::NegY)]
    } else {
        Seq::empty()
    }) + (if exposed_face(o, tx, ty, tz, FaceDir::PosY) {
        seq![(t, FaceDir::PosY)]
    } else {
        Seq::empty()
    }) + (if exposed_face(o, tx, ty, tz, FaceDir::NegZ) {
        seq![(t, FaceDir::NegZ)]
    } else {
        Seq::empty()
    }) + (if exposed_face(o, tx, ty, tz, FaceDir::PosZ) {
        seq![(t, FaceDir::PosZ)]
    } else {
        Seq::empty()
    })
}

/// The faces of `n` cells along the z axis starting at a corner.
pub open spec fn faces_row(o: SparseVoxelOctree, tx: int, ty: int, tz0: int, n: nat) -> Seq<
    ((int, int, int), FaceDir),
>
    decreases n,
{
    if n == 0 {
        Seq::empty()
    } else {
        faces_row(o, tx, ty, tz0, (n - 1) as nat) + cell_faces(
            o,
            tx,
            ty,
            tz0 + (n - 1) * o.s_min(),
        )
    }
}

/// The faces of an `ny * nz` slab of cells at a fixed x corner.
pub open spec fn faces_slab(o: SparseVoxelOctree, tx: int, ty0: int, tz0: int, ny: nat, nz: nat) -> Seq<
    ((int, int, int), FaceDir),
>
    decreases ny,
{
    if ny == 0 {
        Seq::empty()
    } else {
        faces_slab(o, tx, ty0, tz0, (ny - 1) as nat, nz) + faces_row(
            o,
            tx,
            ty0 + (ny - 1) * o.s_min(),
            tz0,
            nz,
        )
    }
}

/// The faces of an `nx * ny * nz` block of cells.
pub open spec fn faces_block(
    o: SparseVoxelOctree,
    tx0: int,
    ty0: int,
    tz0: int,
    nx: nat,
    ny: nat,
    nz: nat,
) -> Seq<((int, int, int), FaceDir)>
    decreases nx,
{
    if nx == 0 {
        Seq::empty()
    } else {
        faces_block(o, tx0, ty0, tz0, (nx - 1) as nat, ny, nz) + faces_slab(
            o,
            tx0 + (nx - 1) * o.s_min(),
            ty0,
            tz0,
            ny,
            nz,
        )
    }
}

/// All visible faces of one chunk, scanned x-major, then y, then z, each
/// cell's faces in the fixed direction order.
pub open spec fn chunk_faces(o: SparseVoxelOctree, cx: int, cy: int, cz: int) -> Seq<
    ((int, int, int), FaceDir),
> {
    faces_block(
        o,
        cx * o.chunk_world_size(),
        cy * o.chunk_world_size(),
        cz * o.chunk_world_size(),
        o.spec_chunk_size() as nat,
        o.spec_chunk_size() as nat,
        o.spec_chunk_size() as nat,
    )
}

/// Corner `k` (0..4) of the quad covering one face of the cell whose low
/// corner is `t`, for cells of edge `s` ticks. Corners walk the face's two
/// free axes in the order (low, low), (high, low), (high, high), (low, high).
pub open spec fn face_corner(t: (int, int, int), dir: FaceDir, s: int, k: int) -> (int, int, int) {
    let lx = t.0;
    let ly = t.1;
    let lz = t.2;
    let hx = t.0 + s;
    let hy = t.1 + s;
    let hz = t.2 + s;
    match dir {
        FaceDir::NegX => if k == 0 {
            (lx, ly, lz)
        } else if k == 1 {
            (lx, hy, lz)
        } else if k == 2 {
            (lx, hy, hz)
        } else {
            (lx, ly, hz)
        },
        FaceDir::PosX => if k == 0 {
            (hx, ly, lz)
        } else if k == 1 {
            (hx, hy, lz)
        } else if k == 2 {
            (hx, hy, hz)
        } else {
            (hx, ly, hz)
        },
        FaceDir::NegY => if k == 0 {
            (lx, ly, lz)
        } else if k == 1 {
            (hx, ly, lz)
        } else if k == 2 {
            (hx, ly, hz)
        } else {
            (lx, ly, hz)
        },
        FaceDir::PosY => if k == 0 {
            (lx, hy, lz)
        } else if k == 1 {
            (hx, hy, lz)
        } else if k == 2 {
            (hx, hy, hz)
        } else {
            (lx, hy, hz)
        },
        FaceDir::NegZ => if k == 0 {
            (lx, ly, lz)
        } else if k == 1 {
            (hx, ly, lz)
        } else if k == 2 {
            (hx, hy, lz)
        } else {
            (lx, hy, lz)
        },
        FaceDir::PosZ => if k == 0 {
            (lx, ly, hz)
        } else if k == 1 {
            (hx, ly, hz)
        } else if k == 2 {
            (hx, hy, hz)
        } else {
            (lx, hy, hz)
        },
    }
}

/// The texture corner of quad vertex `k`: (0,1), (1,1), (1,0), (0,0).
pub open spec fn face_uv(k: int) -> (int, int) {
    if k == 0 {
        (0, 1)
    } else if k == 1 {
        (1, 1)
    } else if k == 2 {
        (1, 0)
    } else {
        (0, 0)
    }
}

/// The vertex index pattern of one quad's two triangles: 0, 1, 2, 2, 3, 0
/// relative to the quad's first vertex.
pub open spec fn quad_index(k: int) -> int {
    if k == 0 {
        0
    } else if k == 1 {
        1
    } else if k == 2 {
        2
    } else if k == 3 {
        2
    } else if k == 4 {
        3
    } else {
        0
    }
}

/// Merged triangle geometry for one chunk: the face list it was built from,
/// and per-vertex positions, normals and texture corners with a combined
/// index buffer (four vertices and six indices per face).
pub struct MeshData {
    pub faces: Vec<Face>,
    pub positions: Vec<Vec3i>,
    pub normals: Vec<Vec3i>,
    pub uvs: Vec<(u8, u8)>,
    pub indices: Vec<u32>,
}

/// How a mesh's buffers are derived from its face list, for cells of edge
/// `s` ticks.
pub open spec fn mesh_wf(m: MeshData, s: int) -> bool {
    let n = m.faces@.len() as int;
    &&& m.positions@.len() == 4 * n
    &&& m.normals@.len() == 4 * n
    &&& m.uvs@.len() == 4 * n
    &&& m.indices@.len() == 6 * n
    &&& forall|idx: int|
        0 <= idx < 4 * n ==> (#[trigger] m.positions@[idx]).view3() == face_corner(
            face_view(m.faces@[idx / 4]).0,
            m.faces@[idx / 4].1,
            s,
            idx % 4,
        )
    &&& forall|idx: int|
        0 <= idx < 4 * n ==> (#[trigger] m.normals@[idx]).view3() == face_normal3(
            m.faces@[idx / 4].1,
        )
    &&& forall|idx: int|
        0 <= idx < 4 * n ==> ((#[trigger] m.uvs@[idx]).0 as int, m.uvs@[idx].1 as int) == face_uv(
            idx % 4,
        )
    &&& forall|idx: int|
        0 <= idx < 6 * n ==> (#[trigger] m.indices@[idx]) as int == 4 * (idx / 6) + quad_index(
            idx % 6,
        )
}

impl MeshData {
    /// An empty mesh.
    pub fn new() -> (m: MeshData)
        ensures
            m.faces@.len() == 0,
            m.positions@.len() == 0,
            m.normals@.len() == 0,
            m.uvs@.len() == 0,
            m.indices@.len() == 0,
            forall|s: int| mesh_wf(m, s),
    {
        MeshData {
            faces: Vec::new(),
            positions: Vec::new(),
            normals: Vec::new(),
            uvs: Vec::new(),
            indices: Vec::new(),
        }
    }
}

/// Cap on faces per mesh, far above what a chunk can produce: keeps every
/// vertex index within `u32`.
pub const FACE_CAP: usize = 0x3000_0000;

/// A grid cell center is already aligned: snapping it moves nothing.
proof fn lemma_center_align(g: int, s: int)
    requires
        s >= 2,
        s % 2 == 0,
    ensures
        spec_align(g * s + s / 2, s) == g * s + s / 2,
{
    assert(g * s + s / 2 == s * g + s / 2) by (nonlinear_arith);
    vstd::arithmetic::div_mod::lemma_div_multiples_vanish_fancy(g, s / 2, s);
    assert((g * s + s / 2) / s == g);
}

/// Appends the quad for one face of an occupied cell if that face is
/// visible: its neighboring cell is empty or outside the cube.
#[verifier::rlimit(100)]
fn emit_face(
    o: &SparseVoxelOctree,
    m: &mut MeshData,
    tx: i64,
    ty: i64,
    tz: i64,
    s: i64,
    dir: FaceDir,
    Ghost(gm): Ghost<(int, int, int)>,
)
    requires
        o.svo_wf(),
        s == o.s_min(),
        s >= 2,
        s % 2 == 0,
        tx == gm.0 * s,
        ty == gm.1 * s,
        tz == gm.2 * s,
        -COORD_LIMIT <= tx && tx + s <= COORD_LIMIT,
        -COORD_LIMIT <= ty && ty + s <= COORD_LIMIT,
        -COORD_LIMIT <= tz && tz + s <= COORD_LIMIT,
        occupied_at(*o, tx as int, ty as int, tz as int),
        mesh_wf(*old(m), s as int),
        old(m).faces@.len() < FACE_CAP,
    ensures
        mesh_wf(*final(m), s as int),
        final(m).faces@.len() <= old(m).faces@.len() + 1,
        faces_view(final(m).faces@) == faces_view(old(m).faces@) + (if exposed_face(
            *o,
            tx as int,
            ty as int,
            tz as int,
            dir,
        ) {
            seq![(((tx as int, ty as int, tz as int)), dir)]
        } else {
            Seq::<((int, int, int), FaceDir)>::empty()
        }),
{
    let (odx, ody, odz) = dir.offset();
    let hs = s / 2;
    let cx = tx + hs;
    let cy = ty + hs;
    let cz = tz + hs;
    proof {
        lemma_center_align(gm.0, s as int);
        lemma_center_align(gm.1, s as int);
        lemma_center_align(gm.2, s as int);
        assert(o.spacing_at(o.max_depth as nat) == o.s_min());
    }
    let nbr = o.has_neighbor(cx, cy, cz, odx, ody, odz, o.max_depth);
    proof {
        crate::octree::lemma_offset_mul(odx as int, s as int);
        crate::octree::lemma_offset_mul(ody as int, s as int);
        crate::octree::lemma_offset_mul(odz as int, s as int);
        assert(nbr == occupied_at(
            *o,
            tx as int + dir_offset3(dir).0 * s as int,
            ty as int + dir_offset3(dir).1 * s as int,
            tz as int + dir_offset3(dir).2 * s as int,
        ));
    }
    if nbr {
        proof {
            assert(!exposed_face(*o, tx as int, ty as int, tz as int, dir));
            assert(faces_view(m.faces@) =~= faces_view(old(m).faces@) + Seq::<
                ((int, int, int), FaceDir),
            >::empty());
        }
        return ;
    }
    let ghost before = *m;
    let nf = m.faces.len();
    let base = 4 * nf;
    let lx = tx;
    let ly = ty;
    let lz = tz;
    let hx = tx + s;
    let hy = ty + s;
    let hz = tz + s;
    match dir {
        FaceDir::NegX => {
            m.positions.push(Vec3i { x: lx, y: ly, z: lz });
            m.positions.push(Vec3i { x: lx, y: hy, z: lz });
            m.positions.push(Vec3i { x: lx, y: hy, z: hz });
            m.positions.push(Vec3i { x: lx, y: ly, z: hz });
        },
        FaceDir::PosX => {
            m.positions.push(Vec3i { x: hx, y: ly, z: lz });
            m.positions.push(Vec3i { x: hx, y: hy, z: lz });
            m.positions.push(Vec3i { x: hx, y: hy, z: hz });
            m.positions.push(Vec3i { x: hx, y: ly, z: hz });
        },
        FaceDir::NegY => {
            m.positions.push(Vec3i { x: lx, y: ly, z: lz });
            m.positions.push(Vec3i { x: hx, y: ly, z: lz });
            m.positions.push(Vec3i { x: hx, y: ly, z: hz });
            m.positions.push(Vec3i { x: lx, y: ly, z: hz });
        },
        FaceDir::PosY => {
            m.positions.push(Vec3i { x: lx, y: hy, z: lz });
            m.positions.push(Vec3i { x: hx, y: hy, z: lz });
            m.positions.push(Vec3i { x: hx, y: hy, z: hz });
            m.positions.push(Vec3i { x: lx, y: hy, z: hz });
        },
        FaceDir::NegZ => {
            m.positions.push(Vec3i { x: lx, y: ly, z: lz });
            m.positions.push(Vec3i { x: hx, y: ly, z: lz });
            m.positions.push(Vec3i { x: hx, y: hy, z: lz });
            m.positions.push(Vec3i { x: lx, y: hy, z: lz });
        },
        FaceDir::PosZ => {
            m.positions.push(Vec3i { x: lx, y: ly, z: hz });
            m.positions.push(Vec3i { x: hx, y: ly, z: hz });
            m.positions.push(Vec3i { x: hx, y: hy, z: hz });
            m.positions.push(Vec3i { x: lx, y: hy, z: hz });
        },
    }
    let (normal, _off) = face_orientation(dir, s);
    m.normals.push(normal);
    m.normals.push(normal);
    m.normals.push(normal);
    m.normals.push(normal);
    m.uvs.push((0, 1));
    m.uvs.push((1, 1));
    m.uvs.push((1, 0));
    m.uvs.push((0, 0));
    m.indices.push((base) as u32);
    m.indices.push((base + 1) as u32);
    m.indices.push((base + 2) as u32);
    m.indices.push((base + 2) as u32);
    m.indices.push((base + 3) as u32);
    m.indices.push((base) as u32);
    m.faces.push(((tx, ty, tz), dir));
    proof {
        let n0 = before.faces@.len() as int;
        let sv = s as int;
        assert(m.faces@ == before.faces@.push(((tx, ty, tz), dir)));
        assert(faces_view(m.faces@) =~= faces_view(before.faces@) + seq![
            (((tx as int, ty as int, tz as int)), dir),
        ]);
        // the four new vertices sit at face 'n0'
        assert forall|idx: int| 0 <= idx < 4 * (n0 + 1) implies (
        #[trigger] m.positions@[idx]).view3() == face_corner(
            face_view(m.faces@[idx / 4]).0,
            m.faces@[idx / 4].1,
            sv,
            idx % 4,
        ) by {
            if idx < 4 * n0 {
                assert(m.positions@[idx] == before.positions@[idx]);
                assert(0 <= idx / 4 < n0) by (nonlinear_arith)
                    requires
                        0 <= idx < 4 * n0,
                ;
                assert(m.faces@[idx / 4] == before.faces@[idx / 4]);
            } else {
                assert(idx / 4 == n0 && idx % 4 == idx - 4 * n0) by (nonlinear_arith)
                    requires
                        4 * n0 <= idx < 4 * (n0 + 1),
                ;
                assert(m.faces@[n0] == ((tx, ty, tz), dir));
            }
        }
        assert forall|idx: int| 0 <= idx < 4 * (n0 + 1) implies (
        #[trigger] m.normals@[idx]).view3() == face_normal3(m.faces@[idx / 4].1) by {
            if idx < 4 * n0 {
                assert(m.normals@[idx] == before.normals@[idx]);
                assert(0 <= idx / 4 < n0) by (nonlinear_arith)
                    requires
                        0 <= idx < 4 * n0,
                ;
                assert(m.faces@[idx / 4] == before.faces@[idx / 4]);
            } else {
                assert(idx / 4 == n0) by (nonlinear_arith)
                    requires
                        4 * n0 <= idx < 4 * (n0 + 1),
                ;
            }
        }
        assert forall|idx: int| 0 <= idx < 4 * (n0 + 1) implies ((#[trigger] m.uvs@[idx]).0 as int, m.uvs@[idx].1 as int)
            == face_uv(idx % 4) by {
            if idx < 4 * n0 {
                assert(m.uvs@[idx] == before.uvs@[idx]);
            } else {
                assert(idx % 4 == idx - 4 * n0) by (nonlinear_arith)
                    requires
                        4 * n0 <= idx < 4 * (n0 + 1),
                ;
            }
        }
        assert forall|idx: int| 0 <= idx < 6 * (n0 + 1) implies (#[trigger] m.indices@[idx]) as int
            == 4 * (idx / 6) + quad_index(idx % 6) by {
            if idx < 6 * n0 {
                assert(m.indices@[idx] == before.indices@[idx]);
            } else {
                assert(idx / 6 == n0 && idx % 6 == idx - 6 * n0) by (nonlinear_arith)
                    requires
                        6 * n0 <= idx < 6 * (n0 + 1),
                ;
            }
        }
    }
}

/// Chunk faces depend only on the octree's content — its tree, edge length
/// and depth — not on its dirty set or display flags.
pub proof fn lemma_chunk_faces_congruent(
    a: SparseVoxelOctree,
    b: SparseVoxelOctree,
    cx: int,
    cy: int,
    cz: int,
)
    requires
        a.root == b.root,
        a.size == b.size,
        a.max_depth == b.max_depth,
    ensures
        chunk_faces(a, cx, cy, cz) == chunk_faces(b, cx, cy, cz),
{
    lemma_faces_block_congruent(
        a,
        b,
        cx * a.chunk_world_size(),
        cy * a.chunk_world_size(),
        cz * a.chunk_world_size(),
        a.spec_chunk_size() as nat,
        a.spec_chunk_size() as nat,
        a.spec_chunk_size() as nat,
    );
}

proof fn lemma_faces_block_congruent(
    a: SparseVoxelOctree,
    b: SparseVoxelOctree,
    tx0: int,
    ty0: int,
    tz0: int,
    nx: nat,
    ny: nat,
    nz: nat,
)
    requires
        a.root == b.root,
        a.size == b.size,
        a.max_depth == b.max_depth,
    ensures
        faces_block(a, tx0, ty0, tz0, nx, ny, nz) == faces_block(b, tx0, ty0, tz0, nx, ny, nz),
    decreases nx,
{
    if nx > 0 {
        lemma_faces_block_congruent(a, b, tx0, ty0, tz0, (nx - 1) as nat, ny, nz);
        lemma_faces_slab_congruent(a, b, tx0 + (nx - 1) * a.s_min(), ty0, tz0, ny, nz);
    }
}

proof fn lemma_faces_slab_congruent(
    a: SparseVoxelOctree,
    b: SparseVoxelOctree,
    tx: int,
    ty0: int,
    tz0: int,
    ny: nat,
    nz: nat,
)
    requires
        a.root == b.root,
        a.size == b.size,
        a.max_depth == b.max_depth,
    ensures
        faces_slab(a, tx, ty0, tz0, ny, nz) == faces_slab(b, tx, ty0, tz0, ny, nz),
    decreases ny,
{
    if ny > 0 {
        lemma_faces_slab_congruent(a, b, tx, ty0, tz0, (ny - 1) as nat, nz);
        lemma_faces_row_congruent(a, b, tx, ty0 + (ny - 1) * a.s_min(), tz0, nz);
    }
}

proof fn lemma_faces_row_congruent(
    a: SparseVoxelOctree,
    b: SparseVoxelOctree,
    tx: int,
    ty: int,
    tz0: int,
    n: nat,
)
    requires
        a.root == b.root,
        a.size == b.size,
        a.max_depth == b.max_depth,
    ensures
        faces_row(a, tx, ty, tz0, n) == faces_row(b, tx, ty, tz0, n),
    decreases n,
{
    if n > 0 {
        lemma_faces_row_congruent(a, b, tx, ty, tz0, (n - 1) as nat);
        let tz = tz0 + (n - 1) * a.s_min();
        assert(cell_faces(a, tx, ty, tz) == cell_faces(b, tx, ty, tz));
    }
}

/// A cell yields at most six faces.
proof fn lemma_cell_faces_len(o: SparseVoxelOctree, tx: int, ty: int, tz: int)
    ensures
        cell_faces(o, tx, ty, tz).len() <= 6,
{
}

/// A row of `n` cells yields at most `6 * n` faces.
proof fn lemma_faces_row_len(o: SparseVoxelOctree, tx: int, ty: int, tz0: int, n: nat)
    ensures
        faces_row(o, tx, ty, tz0, n).len() <= 6 * n,
    decreases n,
{
    if n > 0 {
        lemma_faces_row_len(o, tx, ty, tz0, (n - 1) as nat);
        lemma_cell_faces_len(o, tx, ty, tz0 + (n - 1) * o.s_min());
    }
}

/// A slab yields at most `6 * ny * nz` faces.
proof fn lemma_faces_slab_len(o: SparseVoxelOctree, tx: int, ty0: int, tz0: int, ny: nat, nz: nat)
    ensures
        faces_slab(o, tx, ty0, tz0, ny, nz).len() <= 6 * ny * nz,
    decreases ny,
{
    if ny > 0 {
        lemma_faces_slab_len(o, tx, ty0, tz0, (ny - 1) as nat, nz);
        lemma_faces_row_len(o, tx, ty0 + (ny - 1) * o.s_min(), tz0, nz);
        assert(6 * ((ny - 1) as nat) * nz + 6 * nz <= 6 * ny * nz) by (nonlinear_arith)
            requires
                ny >= 1,
        ;
    }
}

/// A block yields at most `6 * nx * ny * nz` faces.
proof fn lemma_faces_block_len(
    o: SparseVoxelOctree,
    tx0: int,
    ty0: int,
    tz0: int,
    nx: nat,
    ny: nat,
    nz: nat,
)
    ensures
        faces_block(o, tx0, ty0, tz0, nx, ny, nz).len() <= 6 * nx * ny * nz,
    decreases nx,
{
    if nx > 0 {
        lemma_faces_block_len(o, tx0, ty0, tz0, (nx - 1) as nat, ny, nz);
        lemma_faces_slab_len(o, tx0 + (nx - 1) * o.s_min(), ty0, tz0, ny, nz);
        assert(6 * ((nx - 1) as nat) * ny * nz + 6 * ny * nz <= 6 * nx * ny * nz)
            by (nonlinear_arith)
            requires
                nx >= 1,
        ;
    }
}

/// Appends every visible face of one cell: none when the cell is empty, and
/// one per empty-or-outside neighbor when it is occupied.
#[verifier::rlimit(100)]
fn cell_mesh(
    o: &SparseVoxelOctree,
    m: &mut MeshData,
    tx: i64,
    ty: i64,
    tz: i64,
    s: i64,
    Ghost(gm): Ghost<(int, int, int)>,
)
    requires
        o.svo_wf(),
        s == o.s_min(),
        s >= 2,
        s % 2 == 0,
        tx == gm.0 * s,
        ty == gm.1 * s,
        tz == gm.2 * s,
        -COORD_LIMIT <= tx && tx + s <= COORD_LIMIT,
        -COORD_LIMIT <= ty && ty + s <= COORD_LIMIT,
        -COORD_LIMIT <= tz && tz + s <= COORD_LIMIT,
        mesh_wf(*old(m), s as int),
        old(m).faces@.len() + 6 <= FACE_CAP,
    ensures
        mesh_wf(*final(m), s as int),
        final(m).faces@.len() <= old(m).faces@.len() + 6,
        faces_view(final(m).faces@) == faces_view(old(m).faces@) + cell_faces(
            *o,
            tx as int,
            ty as int,
            tz as int,
        ),
{
    let hs = s / 2;
    if o.get_voxel_at_world_coords(tx + hs, ty + hs, tz + hs).is_none() {
        proof {
            assert(!occupied_at(*o, tx as int, ty as int, tz as int));
            assert(faces_view(m.faces@) =~= faces_view(m.faces@) + cell_faces(
                *o,
                tx as int,
                ty as int,
                tz as int,
            ));
        }
        return ;
    }
    emit_face(o, m, tx, ty, tz, s, FaceDir::NegX, Ghost(gm));
    emit_face(o, m, tx, ty, tz, s, FaceDir::PosX, Ghost(gm));
    emit_face(o, m, tx, ty, tz, s, FaceDir::NegY, Ghost(gm));
    emit_face(o, m, tx, ty, tz, s, FaceDir::PosY, Ghost(gm));
    emit_face(o, m, tx, ty, tz, s, FaceDir::NegZ, Ghost(gm));
    emit_face(o, m, tx, ty, tz, s, FaceDir::PosZ, Ghost(gm));
    proof {
        assert(faces_view(m.faces@) =~= faces_view(old(m).faces@) + cell_faces(
            *o,
            tx as int,
            ty as int,
            tz as int,
        ));
    }
}

impl SparseVoxelOctree {
    /// Builds the merged mesh of one chunk: scans each of its cells and
    /// emits one quad per visible face, cells in x-major order and faces in
    /// the fixed direction order. A chunk with no occupied cell yields an
    /// empty mesh.
    pub fn build_chunk_mesh(&self, chunk_x: i64, chunk_y: i64, chunk_z: i64) -> (m: MeshData)
        requires
            self.svo_wf(),
            self.max_depth <= 10,
            -COORD_LIMIT <= chunk_x * self.chunk_world_size(),
            (chunk_x + 1) * self.chunk_world_size() <= COORD_LIMIT,
            -COORD_LIMIT <= chunk_y * self.chunk_world_size(),
            (chunk_y + 1) * self.chunk_world_size() <= COORD_LIMIT,
            -COORD_LIMIT <= chunk_z * self.chunk_world_size(),
            (chunk_z + 1) * self.chunk_world_size() <= COORD_LIMIT,
        ensures
            faces_view(m.faces@) == chunk_faces(
                *self,
                chunk_x as int,
                chunk_y as int,
                chunk_z as int,
            ),
            mesh_wf(m, self.s_min()),
    {
        proof {
            self.lemma_dims();
        }
        let s = self.get_spacing_at_depth(self.max_depth);
        let cs = self.get_chunk_size();
        let cw = self.get_chunk_world_size();
        proof {
            // chunk_size is small: at most 2^9 cells per side
            crate::coords::lemma_pow2_increases((self.max_depth - 1) as nat, 9);
            assert(pow2(9) == 512) by {
                reveal_with_fuel(pow2, 11);
            }
            // so a full chunk stays far under the face cap
            assert(6 * (cs as nat) * (cs as nat) * (cs as nat) <= 6 * 512 * 512 * 512)
                by (nonlinear_arith)
                requires
                    1 <= cs <= 512,
            ;
        }
        proof {
            assert(chunk_x as int * (cw as int) + cw as int == (chunk_x as int + 1) * (cw as int)
                && chunk_y as int * (cw as int) + cw as int == (chunk_y as int + 1) * (cw as int)
                && chunk_z as int * (cw as int) + cw as int == (chunk_z as int + 1) * (cw as int))
                by (nonlinear_arith);
        }
        let bx = chunk_x * cw;
        let by = chunk_y * cw;
        let bz = chunk_z * cw;
        let ghost gx0 = chunk_x as int * self.spec_chunk_size();
        let ghost gy0 = chunk_y as int * self.spec_chunk_size();
        let ghost gz0 = chunk_z as int * self.spec_chunk_size();
        proof {
            assert(bx as int == gx0 * s as int && by as int == gy0 * s as int && bz as int == gz0
                * s as int && (chunk_x as int + 1) * self.chunk_world_size() == (gx0 + cs as int)
                * s as int && (chunk_y as int + 1) * self.chunk_world_size() == (gy0 + cs as int)
                * s as int && (chunk_z as int + 1) * self.chunk_world_size() == (gz0 + cs as int)
                * s as int) by (nonlinear_arith)
                requires
                    self.chunk_world_size() == self.spec_chunk_size() * self.s_min(),
                    s as int == self.s_min(),
                    cs as int == self.spec_chunk_size(),
                    bx as int == chunk_x as int * self.chunk_world_size(),
                    by as int == chunk_y as int * self.chunk_world_size(),
                    bz as int == chunk_z as int * self.chunk_world_size(),
                    gx0 == chunk_x as int * self.spec_chunk_size(),
                    gy0 == chunk_y as int * self.spec_chunk_size(),
                    gz0 == chunk_z as int * self.spec_chunk_size(),
            ;
        }
        let mut m = MeshData::new();
        let mut i: i64 = 0;
        let mut tx = bx;
        while i < cs
            invariant
                self.svo_wf(),
                s == self.s_min(),
                s >= 2,
                s % 2 == 0,
                1 <= cs <= 512,
                cs as int == self.spec_chunk_size(),
                0 <= i <= cs,
                tx as int == (gx0 + i as int) * s as int,
                bx as int == gx0 * s as int,
                by as int == gy0 * s as int,
                bz as int == gz0 * s as int,
                -COORD_LIMIT <= bx as int && (gx0 + cs as int) * s as int <= COORD_LIMIT,
                -COORD_LIMIT <= by as int && (gy0 + cs as int) * s as int <= COORD_LIMIT,
                -COORD_LIMIT <= bz as int && (gz0 + cs as int) * s as int <= COORD_LIMIT,
                mesh_wf(m, s as int),
                m.faces@.len() <= 6 * (i as nat) * (cs as nat) * (cs as nat),
                faces_view(m.faces@) == faces_block(
                    *self,
                    bx as int,
                    by as int,
                    bz as int,
                    i as nat,
                    cs as nat,
                    cs as nat,
                ),
            decreases cs - i,
        {
            proof {
                lemma_grid_step(gx0, i as int, cs as int, s as int, COORD_LIMIT as int);
            }
            let ghost m_before_slab = m;
            proof {
                assert(m_before_slab.faces@.len() <= 6 * (i as nat) * (cs as nat) * (cs as nat));
            }
            let mut j: i64 = 0;
            let mut ty = by;
            while j < cs
                invariant
                    self.svo_wf(),
                    s == self.s_min(),
                    s >= 2,
                    s % 2 == 0,
                    1 <= cs <= 512,
                    cs as int == self.spec_chunk_size(),
                    0 <= i < cs,
                    0 <= j <= cs,
                    tx as int == (gx0 + i as int) * s as int,
                    ty as int == (gy0 + j as int) * s as int,
                    by as int == gy0 * s as int,
                    bz as int == gz0 * s as int,
                    -COORD_LIMIT <= tx as int && tx as int + s as int <= COORD_LIMIT,
                    -COORD_LIMIT <= by as int && (gy0 + cs as int) * s as int <= COORD_LIMIT,
                    -COORD_LIMIT <= bz as int && (gz0 + cs as int) * s as int <= COORD_LIMIT,
                    mesh_wf(m, s as int),
                    m_before_slab.faces@.len() <= 6 * (i as nat) * (cs as nat) * (cs as nat),
                    m.faces@.len() <= m_before_slab.faces@.len() + 6 * (j as nat) * (cs as nat),
                    faces_view(m.faces@) == faces_view(m_before_slab.faces@) + faces_slab(
                        *self,
                        tx as int,
                        by as int,
                        bz as int,
                        j as nat,
                        cs as nat,
                    ),
                decreases cs - j,
            {
                proof {
                    lemma_grid_step(gy0, j as int, cs as int, s as int, COORD_LIMIT as int);
                }
                let ghost m_before_row = m;
                proof {
                    assert(m_before_row.faces@.len() <= m_before_slab.faces@.len() + 6 * (
                    j as nat) * (cs as nat));
                }
                let mut k: i64 = 0;
                let mut tz = bz;
                while k < cs
                    invariant
                        self.svo_wf(),
                        s == self.s_min(),
                        s >= 2,
                        s % 2 == 0,
                        1 <= cs <= 512,
                        cs as int == self.spec_chunk_size(),
                        0 <= i < cs,
                        0 <= j < cs,
                        0 <= k <= cs,
                        tx as int == (gx0 + i as int) * s as int,
                        ty as int == (gy0 + j as int) * s as int,
                        tz as int == (gz0 + k as int) * s as int,
                        bz as int == gz0 * s as int,
                        -COORD_LIMIT <= tx as int && tx as int + s as int <= COORD_LIMIT,
                        -COORD_LIMIT <= ty as int && ty as int + s as int <= COORD_LIMIT,
                        -COORD_LIMIT <= bz as int && (gz0 + cs as int) * s as int <= COORD_LIMIT,
                        mesh_wf(m, s as int),
                        m_before_row.faces@.len() <= 6 * (i as nat) * (cs as nat) * (cs as nat) + 6
                            * (j as nat) * (cs as nat),
                        m.faces@.len() <= m_before_row.faces@.len() + 6 * (k as nat),
                        faces_view(m.faces@) == faces_view(m_before_row.faces@) + faces_row(
                            *self,
                            tx as int,
                            ty as int,
                            bz as int,
                            k as nat,
                        ),
                    decreases cs - k,
                {
                    proof {
                        lemma_grid_step(gz0, k as int, cs as int, s as int, COORD_LIMIT as int);
                        // the face cap holds: at most a full chunk so far
                        assert(m.faces@.len() + 6 <= FACE_CAP) by (nonlinear_arith)
                            requires
                                m.faces@.len() <= m_before_row.faces@.len() + 6 * (k as nat),
                                m_before_row.faces@.len() <= 6 * (i as nat) * (cs as nat)
                                    * (cs as nat) + 6 * (j as nat) * (cs as nat),
                                0 <= i < cs,
                                0 <= j < cs,
                                0 <= k < cs,
                                1 <= cs <= 512,
                                FACE_CAP == 0x3000_0000,
                        ;
                    }
                    proof {
                        assert(tz as int == bz as int + (k as int) * (s as int))
                            by (nonlinear_arith)
                            requires
                                tz as int == (gz0 + k as int) * (s as int),
                                bz as int == gz0 * (s as int),
                        ;
                    }
                    let ghost before_cell = m.faces@;
                    cell_mesh(
                        self,
                        &mut m,
                        tx,
                        ty,
                        tz,
                        s,
                        Ghost((gx0 + i as int, gy0 + j as int, gz0 + k as int)),
                    );
                    proof {
                        assert(faces_view(m.faces@) =~= faces_view(m_before_row.faces@)
                            + faces_row(*self, tx as int, ty as int, bz as int, (k + 1) as nat));
                    }
                    k = k + 1;
                    tz = tz + s;
                    proof {
                        assert(tz as int == (gz0 + k as int) * s as int) by (nonlinear_arith)
                            requires
                                tz as int == (gz0 + (k - 1) as int) * s as int + s as int,
                        ;
                    }
                }
                proof {
                    assert(ty as int == by as int + (j as int) * (s as int)) by (nonlinear_arith)
                        requires
                            ty as int == (gy0 + j as int) * (s as int),
                            by as int == gy0 * (s as int),
                    ;
                    assert(faces_view(m.faces@) =~= faces_view(m_before_slab.faces@) + faces_slab(
                        *self,
                        tx as int,
                        by as int,
                        bz as int,
                        (j + 1) as nat,
                        cs as nat,
                    ));
                    assert(m.faces@.len() <= m_before_slab.faces@.len() + 6 * ((j + 1) as nat)
                        * (cs as nat)) by (nonlinear_arith)
                        requires
                            0 <= j < cs,
                            1 <= cs,
                            m.faces@.len() <= m_before_row.faces@.len() + 6 * (cs as nat),
                            m_before_row.faces@.len() <= m_before_slab.faces@.len() + 6
                                * (j as nat) * (cs as nat),
                    ;
                }
                j = j + 1;
                ty = ty + s;
                proof {
                    assert(ty as int == (gy0 + j as int) * s as int) by (nonlinear_arith)
                        requires
                            ty as int == (gy0 + (j - 1) as int) * s as int + s as int,
                    ;
                }
            }
            proof {
                assert(tx as int == bx as int + (i as int) * (s as int)) by (nonlinear_arith)
                    requires
                        tx as int == (gx0 + i as int) * (s as int),
                        bx as int == gx0 * (s as int),
                ;
                assert(faces_view(m.faces@) =~= faces_block(
                    *self,
                    bx as int,
                    by as int,
                    bz as int,
                    (i + 1) as nat,
                    cs as nat,
                    cs as nat,
                ));
                assert(m.faces@.len() <= 6 * ((i + 1) as nat) * (cs as nat) * (cs as nat))
                    by (nonlinear_arith)
                    requires
                        0 <= i < cs,
                        1 <= cs,
                        m.faces@.len() <= m_before_slab.faces@.len() + 6 * (cs as nat)
                            * (cs as nat),
                        m_before_slab.faces@.len() <= 6 * (i as nat) * (cs as nat) * (cs as nat),
                ;
            }
            i = i + 1;
            tx = tx + s;
            proof {
                assert(tx as int == (gx0 + i as int) * s as int) by (nonlinear_arith)
                    requires
                        tx as int == (gx0 + (i - 1) as int) * s as int + s as int,
                ;
            }
        }
        m
    }
}

/// The populated cells among `n` cells along the z axis: each entry is the
/// cell's low corner in ticks, its voxel, and the tree's finest depth.
pub open spec fn cells_row(o: SparseVoxelOctree, tx: int, ty: int, tz0: int, n: nat) -> Seq<
    (int, int, int, Voxel, int),
>
    decreases n,
{
    if n == 0 {
        Seq::empty()
    } else {
        let tz = tz0 + (n - 1) * o.s_min();
        cells_row(o, tx, ty, tz0, (n - 1) as nat) + (if occupied_at(o, tx, ty, tz) {
            seq![
                (
                    tx,
                    ty,
                    tz,
                    o.voxel_at_ticks(
                        tx + o.s_min() / 2,
                        ty + o.s_min() / 2,
                        tz + o.s_min() / 2,
                    )->Some_0,
                    o.max_depth as int,
                ),
            ]
        } else {
            Seq::empty()
        })
    }
}

/// The populated cells of an `ny * nz` slab at a fixed x corner.
pub open spec fn cells_slab(o: SparseVoxelOctree, tx: int, ty0: int, tz0: int, ny: nat, nz: nat) -> Seq<
    (int, int, int, Voxel, int),
>
    decreases ny,
{
    if ny == 0 {
        Seq::empty()
    } else {
        cells_slab(o, tx, ty0, tz0, (ny - 1) as nat, nz) + cells_row(
            o,
            tx,
            ty0 + (ny - 1) * o.s_min(),
            tz0,
            nz,
        )
    }
}

/// The populated cells of an `nx * ny * nz` block.
pub open spec fn cells_block(
    o: SparseVoxelOctree,
    tx0: int,
    ty0: int,
    tz0: int,
    nx: nat,
    ny: nat,
    nz: nat,
) -> Seq<(int, int, int, Voxel, int)>
    decreases nx,
{
    if nx == 0 {
        Seq::empty()
    } else {
        cells_block(o, tx0, ty0, tz0, (nx - 1) as nat, ny, nz) + cells_slab(
            o,
            tx0 + (nx - 1) * o.s_min(),
            ty0,
            tz0,
            ny,
            nz,
        )
    }
}

/// Every populated cell of one chunk, scanned x-major, then y, then z.
pub open spec fn chunk_cells(o: SparseVoxelOctree, cx: int, cy: int, cz: int) -> Seq<
    (int, int, int, Voxel, int),
> {
    cells_block(
        o,
        cx * o.chunk_world_size(),
        cy * o.chunk_world_size(),
        cz * o.chunk_world_size(),
        o.spec_chunk_size() as nat,
        o.spec_chunk_size() as nat,
        o.spec_chunk_size() as nat,
    )
}

impl SparseVoxelOctree {
    /// Enumerates the populated cells of one chunk as `(corner_x, corner_y,
    /// corner_z, voxel, depth)`, corners in ticks, cells in x-major scan
    /// order: the per-chunk counterpart of `traverse`.
    pub fn traverse_chunk(&self, chunk_x: i64, chunk_y: i64, chunk_z: i64) -> (out: Vec<
        (i64, i64, i64, Voxel, u32),
    >)
        requires
            self.svo_wf(),
            -COORD_LIMIT <= chunk_x * self.chunk_world_size(),
            (chunk_x + 1) * self.chunk_world_size() <= COORD_LIMIT,
            -COORD_LIMIT <= chunk_y * self.chunk_world_size(),
            (chunk_y + 1) * self.chunk_world_size() <= COORD_LIMIT,
            -COORD_LIMIT <= chunk_z * self.chunk_world_size(),
            (chunk_z + 1) * self.chunk_world_size() <= COORD_LIMIT,
        ensures
            crate::octree::leaves_view(out@) == chunk_cells(
                *self,
                chunk_x as int,
                chunk_y as int,
                chunk_z as int,
            ),
    {
        proof {
            self.lemma_dims();
        }
        let s = self.get_spacing_at_depth(self.max_depth);
        let cs = self.get_chunk_size();
        let cw = self.get_chunk_world_size();
        proof {
            assert(chunk_x as int * (cw as int) + cw as int == (chunk_x as int + 1) * (cw as int)
                && chunk_y as int * (cw as int) + cw as int == (chunk_y as int + 1) * (cw as int)
                && chunk_z as int * (cw as int) + cw as int == (chunk_z as int + 1) * (cw as int))
                by (nonlinear_arith);
        }
        let bx = chunk_x * cw;
        let by = chunk_y * cw;
        let bz = chunk_z * cw;
        let hs = s / 2;
        let mut out: Vec<(i64, i64, i64, Voxel, u32)> = Vec::new();
        let mut i: i64 = 0;
        let mut tx = bx;
        while i < cs
            invariant
                self.svo_wf(),
                s == self.s_min(),
                s >= 2,
                s % 2 == 0,
                hs == s / 2,
                1 <= cs,
                cs as int == self.spec_chunk_size(),
                cw as int == self.chunk_world_size(),
                cw as int == cs as int * s as int,
                0 <= i <= cs,
                tx as int == bx as int + i as int * s as int,
                -COORD_LIMIT <= bx as int && bx as int + cw as int <= COORD_LIMIT,
                -COORD_LIMIT <= by as int && by as int + cw as int <= COORD_LIMIT,
                -COORD_LIMIT <= bz as int && bz as int + cw as int <= COORD_LIMIT,
                crate::octree::leaves_view(out@) == cells_block(
                    *self,
                    bx as int,
                    by as int,
                    bz as int,
                    i as nat,
                    cs as nat,
                    cs as nat,
                ),
            decreases cs - i,
        {
            proof {
                lemma_chunk_axis_step(bx as int, cw as int, i as int, cs as int, s as int);
            }
            let ghost out_before_slab = out@;
            let mut j: i64 = 0;
            let mut ty = by;
            while j < cs
                invariant
                    self.svo_wf(),
                    s == self.s_min(),
                    s >= 2,
                    s % 2 == 0,
                    hs == s / 2,
                    1 <= cs,
                    cs as int == self.spec_chunk_size(),
                    cw as int == cs as int * s as int,
                    0 <= i < cs,
                    0 <= j <= cs,
                    tx as int == bx as int + i as int * s as int,
                    ty as int == by as int + j as int * s as int,
                    -COORD_LIMIT <= tx as int && tx as int + s as int <= COORD_LIMIT,
                    -COORD_LIMIT <= by as int && by as int + cw as int <= COORD_LIMIT,
                    -COORD_LIMIT <= bz as int && bz as int + cw as int <= COORD_LIMIT,
                    crate::octree::leaves_view(out@) == crate::octree::leaves_view(
                        out_before_slab,
                    ) + cells_slab(
                        *self,
                        tx as int,
                        by as int,
                        bz as int,
                        j as nat,
                        cs as nat,
                    ),
                decreases cs - j,
            {
                proof {
                    lemma_chunk_axis_step(by as int, cw as int, j as int, cs as int, s as int);
                }
                let ghost out_before_row = out@;
                let mut k: i64 = 0;
                let mut tz = bz;
                while k < cs
                    invariant
                        self.svo_wf(),
                        s == self.s_min(),
                        s >= 2,
                        s % 2 == 0,
                        hs == s / 2,
                        1 <= cs,
                        cs as int == self.spec_chunk_size(),
                        cw as int == cs as int * s as int,
                        0 <= i < cs,
                        0 <= j < cs,
                        0 <= k <= cs,
                        tx as int == bx as int + i as int * s as int,
                        ty as int == by as int + j as int * s as int,
                        tz as int == bz as int + k as int * s as int,
                        -COORD_LIMIT <= tx as int && tx as int + s as int <= COORD_LIMIT,
                        -COORD_LIMIT <= ty as int && ty as int + s as int <= COORD_LIMIT,
                        -COORD_LIMIT <= bz as int && bz as int + cw as int <= COORD_LIMIT,
                        crate::octree::leaves_view(out@) == crate::octree::leaves_view(
                            out_before_row,
                        ) + cells_row(
                            *self,
                            tx as int,
                            ty as int,
                            bz as int,
                            k as nat,
                        ),
                    decreases cs - k,
                {
                    proof {
                        lemma_chunk_axis_step(bz as int, cw as int, k as int, cs as int, s as int);
                    }
                    let ghost out_before_cell = out@;
                    if let Some(v) = self.get_voxel_at_world_coords(tx + hs, ty + hs, tz + hs) {
                        out.push((tx, ty, tz, v, self.max_depth));
                        proof {
                            assert(occupied_at(*self, tx as int, ty as int, tz as int));
                            assert(out@ == out_before_cell.push((tx, ty, tz, v, self.max_depth)));
                            assert(crate::octree::leaf_entry_view(out@[out@.len() - 1]) == (
                                tx as int,
                                ty as int,
                                tz as int,
                                self.voxel_at_ticks(
                                    tx as int + s as int / 2,
                                    ty as int + s as int / 2,
                                    tz as int + s as int / 2,
                                )->Some_0,
                                self.max_depth as int,
                            ));
                            assert(crate::octree::leaves_view(out@)
                                =~= crate::octree::leaves_view(out_before_cell).push(
                                crate::octree::leaf_entry_view(out@[out@.len() - 1]),
                            ));
                        }
                    } else {
                        proof {
                            assert(!occupied_at(*self, tx as int, ty as int, tz as int));
                        }
                    }
                    proof {
                        assert(cells_row(*self, tx as int, ty as int, bz as int, (k + 1) as nat)
                            == cells_row(*self, tx as int, ty as int, bz as int, k as nat) + (
                        if occupied_at(*self, tx as int, ty as int, tz as int) {
                            seq![
                                (
                                    tx as int,
                                    ty as int,
                                    tz as int,
                                    self.voxel_at_ticks(
                                        tx as int + s as int / 2,
                                        ty as int + s as int / 2,
                                        tz as int + s as int / 2,
                                    )->Some_0,
                                    self.max_depth as int,
                                ),
                            ]
                        } else {
                            Seq::empty()
                        }));
                        assert(crate::octree::leaves_view(out@) =~= crate::octree::leaves_view(
                            out_before_row,
                        ) + cells_row(*self, tx as int, ty as int, bz as int, (k + 1) as nat));
                    }
                    k = k + 1;
                    tz = tz + s;
                    proof {
                        assert(tz as int == bz as int + k as int * s as int) by (nonlinear_arith)
                            requires
                                tz as int == bz as int + (k - 1) as int * s as int + s as int,
                        ;
                    }
                }
                proof {
                    assert(crate::octree::leaves_view(out@) =~= crate::octree::leaves_view(
                        out_before_slab,
                    ) + cells_slab(*self, tx as int, by as int, bz as int, (j + 1) as nat, cs as nat));
                }
                j = j + 1;
                ty = ty + s;
                proof {
                    assert(ty as int == by as int + j as int * s as int) by (nonlinear_arith)
                        requires
                            ty as int == by as int + (j - 1) as int * s as int + s as int,
                    ;
                }
            }
            proof {
                assert(crate::octree::leaves_view(out@) =~= cells_block(
                    *self,
                    bx as int,
                    by as int,
                    bz as int,
                    (i + 1) as nat,
                    cs as nat,
                    cs as nat,
                ));
            }
            i = i + 1;
            tx = tx + s;
            proof {
                assert(tx as int == bx as int + i as int * s as int) by (nonlinear_arith)
                    requires
                        tx as int == bx as int + (i - 1) as int * s as int + s as int,
                ;
            }
        }
        out
    }
}

/// Within a chunk, stepping one cell along an axis stays inside the chunk's
/// tick extent.
proof fn lemma_chunk_axis_step(b: int, cw: int, i: int, cs: int, s: int)
    requires
        s >= 1,
        1 <= cs,
        0 <= i < cs,
        cw == cs * s,
        -COORD_LIMIT <= b,
        b + cw <= COORD_LIMIT,
    ensures
        -COORD_LIMIT <= b + i * s,
        b + i * s + s <= COORD_LIMIT,
{
    assert(0 <= i * s && i * s + s <= cs * s) by (nonlinear_arith)
        requires
            s >= 1,
            0 <= i < cs,
    ;
}

/// Stepping one cell along an axis stays inside the chunk's tick range.
proof fn lemma_grid_step(g0: int, i: int, cs: int, s: int, limit: int)
    requires
        s >= 1,
        0 <= i < cs,
        -limit <= g0 * s,
        (g0 + cs) * s <= limit,
    ensures
        -limit <= (g0 + i) * s,
        (g0 + i) * s + s <= limit,
{
    assert(g0 * s <= (g0 + i) * s && (g0 + i) * s + s <= (g0 + cs) * s) by (nonlinear_arith)
        requires
            s >= 1,
            0 <= i < cs,
    ;
}

} // verus!
