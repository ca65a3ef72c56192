//! Ray / axis-aligned-box intersection in exact rational arithmetic.
//!
//! The classic slab test: each axis with a nonzero direction component
//! bounds the hit parameter `t` between two rationals; an axis with a zero
//! component demands that the origin lie inside the slab. The ray meets the
//! box exactly when the largest lower bound does not exceed the smallest
//! upper bound and the ray does not exit behind its origin. Rationals are
//! kept as exact numerator/denominator pairs, so entry times, face normals
//! and nearest-hit comparisons have no rounding at all.

use vstd::prelude::*;
use crate::coords::{Vec3i, pow2, floor_div};
use crate::structure::{OctreeNode, node_wf, node_get};
use crate::octree::top_bit;

verus! {

broadcast use crate::coords::lemma_pow2_pos;

/// Coordinate cap for ray casting: keeps every slab numerator within `i64`.
pub const RAY_LIMIT: i64 = 0x4_0000_0000_0000;

/// A ray: origin and direction in ticks. The direction need not be
/// normalized; hit parameters are exact rationals along it.
pub struct Ray {
    pub origin: Vec3i,
    pub direction: Vec3i,
}

/// An axis-aligned box, closed on all faces.
#[derive(Clone, Copy, PartialEq, Eq, Structural, Debug)]
pub struct AABB {
    pub min: Vec3i,
    pub max: Vec3i,
}

/// An exact rational with a positive denominator.
#[derive(Clone, Copy, PartialEq, Eq, Structural, Debug)]
pub struct Rat {
    pub num: i64,
    pub den: i64,
}

impl Rat {
    pub open spec fn wf(self) -> bool {
        self.den >= 1
    }

    pub open spec fn view2(self) -> (int, int) {
        (self.num as int, self.den as int)
    }
}

/// `|v|`.
pub open spec fn abs1(v: int) -> int {
    if v < 0 {
        -v
    } else {
        v
    }
}

/// `a <= b` on rationals written as (numerator, positive denominator).
pub open spec fn rat_le(a: (int, int), b: (int, int)) -> bool {
    a.0 * b.1 <= b.0 * a.1
}

/// `a == b` on rationals.
pub open spec fn rat_eq(a: (int, int), b: (int, int)) -> bool {
    a.0 * b.1 == b.0 * a.1
}

/// `|a| <= |b|` on rationals: the distance order along one ray.
pub open spec fn rat_abs_le(a: (int, int), b: (int, int)) -> bool {
    abs1(a.0) * b.1 <= abs1(b.0) * a.1
}

/// `<=` is transitive on rationals with positive denominators.
pub proof fn lemma_rat_le_trans(a: (int, int), b: (int, int), c: (int, int))
    requires
        a.1 >= 1,
        b.1 >= 1,
        c.1 >= 1,
        rat_le(a, b),
        rat_le(b, c),
    ensures
        rat_le(a, c),
{
    assert(a.0 * c.1 <= c.0 * a.1) by (nonlinear_arith)
        requires
            a.1 >= 1,
            b.1 >= 1,
            c.1 >= 1,
            a.0 * b.1 <= b.0 * a.1,
            b.0 * c.1 <= c.0 * b.1,
    ;
}

/// The distance order is transitive as well.
pub proof fn lemma_rat_abs_le_trans(a: (int, int), b: (int, int), c: (int, int))
    requires
        a.1 >= 1,
        b.1 >= 1,
        c.1 >= 1,
        rat_abs_le(a, b),
        rat_abs_le(b, c),
    ensures
        rat_abs_le(a, c),
{
    assert(abs1(a.0) * c.1 <= abs1(c.0) * a.1) by (nonlinear_arith)
        requires
            a.1 >= 1,
            b.1 >= 1,
            c.1 >= 1,
            abs1(a.0) >= 0,
            abs1(b.0) >= 0,
            abs1(c.0) >= 0,
            abs1(a.0) * b.1 <= abs1(b.0) * a.1,
            abs1(b.0) * c.1 <= abs1(c.0) * b.1,
    ;
}

/// A rational at least as large as a nonnegative one is nonnegative.
pub proof fn lemma_rat_le_nonneg(a: (int, int), b: (int, int))
    requires
        a.1 >= 1,
        b.1 >= 1,
        a.0 >= 0,
        rat_le(a, b),
    ensures
        b.0 >= 0,
{
    assert(b.0 >= 0) by (nonlinear_arith)
        requires
            a.1 >= 1,
            b.1 >= 1,
            a.0 >= 0,
            a.0 * b.1 <= b.0 * a.1,
    ;
}

/// The slab's lower hit parameter on one axis, absent when the direction
/// component is zero.
pub open spec fn olo(o: int, d: int, lo: int, hi: int) -> Option<(int, int)> {
    if d == 0 {
        None
    } else if d > 0 {
        Some((lo - o, d))
    } else {
        Some((o - hi, -d))
    }
}

/// The slab's upper hit parameter on one axis.
pub open spec fn ohi(o: int, d: int, lo: int, hi: int) -> Option<(int, int)> {
    if d == 0 {
        None
    } else if d > 0 {
        Some((hi - o, d))
    } else {
        Some((o - lo, -d))
    }
}

/// An axis whose direction component is zero constrains the origin instead.
pub open spec fn slab_ok(o: int, d: int, lo: int, hi: int) -> bool {
    d != 0 || (lo <= o <= hi)
}

/// The larger of two optional rationals; `None` is the identity.
pub open spec fn omax(a: Option<(int, int)>, b: Option<(int, int)>) -> Option<(int, int)> {
    match (a, b) {
        (Option::None, _) => b,
        (Option::Some(_), Option::None) => a,
        (Option::Some(x), Option::Some(y)) => if rat_le(x, y) {
            b
        } else {
            a
        },
    }
}

/// The smaller of two optional rationals; `None` is the identity.
pub open spec fn omin(a: Option<(int, int)>, b: Option<(int, int)>) -> Option<(int, int)> {
    match (a, b) {
        (Option::None, _) => b,
        (Option::Some(_), Option::None) => a,
        (Option::Some(x), Option::Some(y)) => if rat_le(x, y) {
            a
        } else {
            b
        },
    }
}

/// The ray's entry parameter into a box: the largest per-axis lower bound.
pub open spec fn enter_t(o: (int, int, int), d: (int, int, int), lo: (int, int, int), hi: (
    int,
    int,
    int,
)) -> Option<(int, int)> {
    omax(omax(olo(o.0, d.0, lo.0, hi.0), olo(o.1, d.1, lo.1, hi.1)), olo(o.2, d.2, lo.2, hi.2))
}

/// The ray's exit parameter out of a box: the smallest per-axis upper bound.
pub open spec fn exit_t(o: (int, int, int), d: (int, int, int), lo: (int, int, int), hi: (
    int,
    int,
    int,
)) -> Option<(int, int)> {
    omin(omin(ohi(o.0, d.0, lo.0, hi.0), ohi(o.1, d.1, lo.1, hi.1)), ohi(o.2, d.2, lo.2, hi.2))
}

/// Whether the ray meets the closed box: every zero-direction axis holds the
/// origin in its slab, the entry parameter does not exceed the exit, and the
/// box is not entirely behind the origin. A ray with a zero direction meets
/// nothing.
pub open spec fn ray_hits_box(o: (int, int, int), d: (int, int, int), lo: (int, int, int), hi: (
    int,
    int,
    int,
)) -> bool {
    &&& slab_ok(o.0, d.0, lo.0, hi.0)
    &&& slab_ok(o.1, d.1, lo.1, hi.1)
    &&& slab_ok(o.2, d.2, lo.2, hi.2)
    &&& match (enter_t(o, d, lo, hi), exit_t(o, d, lo, hi)) {
        (Option::Some(en), Option::Some(ex)) => rat_le(en, ex) && ex.0 >= 0,
        _ => false,
    }
}

/// The outward normal of the face through which the ray enters: the first
/// axis (x before y before z) whose lower slab bound equals the entry
/// parameter, pointing against the ray's direction on that axis.
pub open spec fn enter_normal(o: (int, int, int), d: (int, int, int), lo: (int, int, int), hi: (
    int,
    int,
    int,
)) -> (int, int, int) {
    match enter_t(o, d, lo, hi) {
        Option::None => (0, 0, 0),
        Option::Some(en) => {
            if d.0 != 0 && rat_eq((if d.0 > 0 {
                (lo.0 - o.0, d.0)
            } else {
                (o.0 - hi.0, -d.0)
            }), en) {
                (if d.0 > 0 {
                    -1
                } else {
                    1
                }, 0, 0)
            } else if d.1 != 0 && rat_eq((if d.1 > 0 {
                (lo.1 - o.1, d.1)
            } else {
                (o.1 - hi.1, -d.1)
            }), en) {
                (0, if d.1 > 0 {
                    -1
                } else {
                    1
                }, 0)
            } else if d.2 != 0 && rat_eq((if d.2 > 0 {
                (lo.2 - o.2, d.2)
            } else {
                (o.2 - hi.2, -d.2)
            }), en) {
                (0, 0, if d.2 > 0 {
                    -1
                } else {
                    1
                })
            } else {
                (0, 0, 0)
            }
        },
    }
}

/// `a <= b`, compared exactly by cross-multiplication.
fn rat_le_exec(a: Rat, b: Rat) -> (r: bool)
    requires
        a.wf(),
        b.wf(),
    ensures
        r == rat_le(a.view2(), b.view2()),
{
    proof {
        lemma_i64_products_fit(a.num as int, b.den as int);
        lemma_i64_products_fit(b.num as int, a.den as int);
    }
    (a.num as i128) * (b.den as i128) <= (b.num as i128) * (a.den as i128)
}

/// `a == b`, compared exactly by cross-multiplication.
fn rat_eq_exec(a: Rat, b: Rat) -> (r: bool)
    requires
        a.wf(),
        b.wf(),
    ensures
        r == rat_eq(a.view2(), b.view2()),
{
    proof {
        lemma_i64_products_fit(a.num as int, b.den as int);
        lemma_i64_products_fit(b.num as int, a.den as int);
    }
    (a.num as i128) * (b.den as i128) == (b.num as i128) * (a.den as i128)
}

/// `|a| <= |b|`: which of two hit parameters is nearer along the ray.
fn rat_abs_le_exec(a: Rat, b: Rat) -> (r: bool)
    requires
        a.wf(),
        b.wf(),
        a.num > i64::MIN,
        b.num > i64::MIN,
    ensures
        r == rat_abs_le(a.view2(), b.view2()),
{
    let an = if a.num < 0 {
        -a.num
    } else {
        a.num
    };
    let bn = if b.num < 0 {
        -b.num
    } else {
        b.num
    };
    proof {
        lemma_i64_products_fit(an as int, b.den as int);
        lemma_i64_products_fit(bn as int, a.den as int);
    }
    (an as i128) * (b.den as i128) <= (bn as i128) * (a.den as i128)
}

/// All components within the ray-casting coordinate cap.
pub open spec fn vec3_bounded(v: Vec3i) -> bool {
    &&& -RAY_LIMIT <= v.x <= RAY_LIMIT
    &&& -RAY_LIMIT <= v.y <= RAY_LIMIT
    &&& -RAY_LIMIT <= v.z <= RAY_LIMIT
}

/// The view of an optional exec rational.
pub open spec fn oview(o: Option<Rat>) -> Option<(int, int)> {
    match o {
        Option::None => None,
        Option::Some(r) => Some(r.view2()),
    }
}

/// The larger of two optional rationals, by cross-multiplication.
fn omax_exec(a: Option<Rat>, b: Option<Rat>) -> (r: Option<Rat>)
    requires
        a matches Some(x) ==> x.wf(),
        b matches Some(x) ==> x.wf(),
    ensures
        r == a || r == b,
        oview(r) == omax(oview(a), oview(b)),
{
    match (a, b) {
        (Option::None, _) => b,
        (Option::Some(_), Option::None) => a,
        (Option::Some(x), Option::Some(y)) => {
            if rat_le_exec(x, y) {
                b
            } else {
                a
            }
        },
    }
}

/// The smaller of two optional rationals, by cross-multiplication.
fn omin_exec(a: Option<Rat>, b: Option<Rat>) -> (r: Option<Rat>)
    requires
        a matches Some(x) ==> x.wf(),
        b matches Some(x) ==> x.wf(),
    ensures
        r == a || r == b,
        oview(r) == omin(oview(a), oview(b)),
{
    match (a, b) {
        (Option::None, _) => b,
        (Option::Some(_), Option::None) => a,
        (Option::Some(x), Option::Some(y)) => {
            if rat_le_exec(x, y) {
                a
            } else {
                b
            }
        },
    }
}

/// Any product of two `i64` values fits in `i128`.
proof fn lemma_i64_products_fit(a: int, b: int)
    requires
        i64::MIN <= a <= i64::MAX,
        i64::MIN <= b <= i64::MAX,
    ensures
        i128::MIN <= a * b <= i128::MAX,
{
    assert(i128::MIN <= a * b <= i128::MAX) by (nonlinear_arith)
        requires
            -0x8000_0000_0000_0000 <= a <= 0x7fff_ffff_ffff_ffff,
            -0x8000_0000_0000_0000 <= b <= 0x7fff_ffff_ffff_ffff,
    ;
}

/// The slab test itself, shared by the public intersection queries: entry
/// and exit parameters and the entry-face normal, or `None` for a miss.
fn slab_test(ray: &Ray, aabb: &AABB) -> (r: Option<(Rat, Rat, Vec3i)>)
    requires
        vec3_bounded(ray.origin),
        vec3_bounded(ray.direction),
        vec3_bounded(aabb.min),
        vec3_bounded(aabb.max),
    ensures
        r is Some <==> ray_hits_box(
            ray.origin.view3(),
            ray.direction.view3(),
            aabb.min.view3(),
            aabb.max.view3(),
        ),
        r matches Some(h) ==> {
            &&& h.0.wf()
            &&& h.1.wf()
            &&& -2 * RAY_LIMIT <= h.0.num <= 2 * RAY_LIMIT
            &&& 1 <= h.0.den <= RAY_LIMIT
            &&& enter_t(
                ray.origin.view3(),
                ray.direction.view3(),
                aabb.min.view3(),
                aabb.max.view3(),
            ) == Some(h.0.view2())
            &&& exit_t(
                ray.origin.view3(),
                ray.direction.view3(),
                aabb.min.view3(),
                aabb.max.view3(),
            ) == Some(h.1.view2())
            &&& h.2.view3() == enter_normal(
                ray.origin.view3(),
                ray.direction.view3(),
                aabb.min.view3(),
                aabb.max.view3(),
            )
        },
{
    let ox = ray.origin.x;
    let oy = ray.origin.y;
    let oz = ray.origin.z;
    let dx = ray.direction.x;
    let dy = ray.direction.y;
    let dz = ray.direction.z;
    if dx == 0 && !(aabb.min.x <= ox && ox <= aabb.max.x) {
        return None;
    }
    if dy == 0 && !(aabb.min.y <= oy && oy <= aabb.max.y) {
        return None;
    }
    if dz == 0 && !(aabb.min.z <= oz && oz <= aabb.max.z) {
        return None;
    }
    let lx: Option<Rat> = if dx == 0 {
        None
    } else if dx > 0 {
        Some(Rat { num: aabb.min.x - ox, den: dx })
    } else {
        Some(Rat { num: ox - aabb.max.x, den: -dx })
    };
    let ly: Option<Rat> = if dy == 0 {
        None
    } else if dy > 0 {
        Some(Rat { num: aabb.min.y - oy, den: dy })
    } else {
        Some(Rat { num: oy - aabb.max.y, den: -dy })
    };
    let lz: Option<Rat> = if dz == 0 {
        None
    } else if dz > 0 {
        Some(Rat { num: aabb.min.z - oz, den: dz })
    } else {
        Some(Rat { num: oz - aabb.max.z, den: -dz })
    };
    let ux: Option<Rat> = if dx == 0 {
        None
    } else if dx > 0 {
        Some(Rat { num: aabb.max.x - ox, den: dx })
    } else {
        Some(Rat { num: ox - aabb.min.x, den: -dx })
    };
    let uy: Option<Rat> = if dy == 0 {
        None
    } else if dy > 0 {
        Some(Rat { num: aabb.max.y - oy, den: dy })
    } else {
        Some(Rat { num: oy - aabb.min.y, den: -dy })
    };
    let uz: Option<Rat> = if dz == 0 {
        None
    } else if dz > 0 {
        Some(Rat { num: aabb.max.z - oz, den: dz })
    } else {
        Some(Rat { num: oz - aabb.min.z, den: -dz })
    };
    proof {
        assert(oview(lx) == olo(ox as int, dx as int, aabb.min.x as int, aabb.max.x as int));
        assert(oview(ly) == olo(oy as int, dy as int, aabb.min.y as int, aabb.max.y as int));
        assert(oview(lz) == olo(oz as int, dz as int, aabb.min.z as int, aabb.max.z as int));
        assert(oview(ux) == ohi(ox as int, dx as int, aabb.min.x as int, aabb.max.x as int));
        assert(oview(uy) == ohi(oy as int, dy as int, aabb.min.y as int, aabb.max.y as int));
        assert(oview(uz) == ohi(oz as int, dz as int, aabb.min.z as int, aabb.max.z as int));
    }
    let en_opt = omax_exec(omax_exec(lx, ly), lz);
    let ex_opt = omin_exec(omin_exec(ux, uy), uz);
    match (en_opt, ex_opt) {
        (Option::Some(en), Option::Some(ex)) => {
            if rat_le_exec(en, ex) && ex.num >= 0 {
                let normal = if match lx {
                    Option::Some(v) => rat_eq_exec(v, en),
                    Option::None => false,
                } {
                    Vec3i::new(
                        if dx > 0 {
                            -1
                        } else {
                            1
                        },
                        0,
                        0,
                    )
                } else if match ly {
                    Option::Some(v) => rat_eq_exec(v, en),
                    Option::None => false,
                } {
                    Vec3i::new(
                        0,
                        if dy > 0 {
                            -1
                        } else {
                            1
                        },
                        0,
                    )
                } else if match lz {
                    Option::Some(v) => rat_eq_exec(v, en),
                    Option::None => false,
                } {
                    Vec3i::new(
                        0,
                        0,
                        if dz > 0 {
                            -1
                        } else {
                            1
                        },
                    )
                } else {
                    Vec3i::new(0, 0, 0)
                };
                Some((en, ex, normal))
            } else {
                None
            }
        },
        _ => None,
    }
}

impl crate::octree::SparseVoxelOctree {
    /// Casts a ray against the whole octree and returns the populated cell
    /// it enters nearest along the ray (by distance from the origin, not
    /// traversal order), with the exact entry parameter, the hit leaf's
    /// depth and the normal of the face entered; `None` when no populated
    /// cell lies on the ray.
    pub fn raycast(&self, ray: &Ray) -> (r: Option<RaycastHit>)
        requires
            self.svo_wf(),
            vec3_bounded(ray.origin),
            vec3_bounded(ray.direction),
        ensures
            r is None ==> forall|i: int, j: int, k: int|
                0 <= i < pow2(self.max_depth as nat) && 0 <= j < pow2(self.max_depth as nat) && 0
                    <= k < pow2(self.max_depth as nat) && (#[trigger] node_get(
                    self.root,
                    i,
                    j,
                    k,
                    self.max_depth as nat,
                )) is Some ==> !ray_hits_box(
                    ray.origin.view3(),
                    ray.direction.view3(),
                    cell_lo(
                        (-self.half(), -self.half(), -self.half()),
                        self.s_min(),
                        i,
                        j,
                        k,
                    ),
                    cell_hi(
                        (-self.half(), -self.half(), -self.half()),
                        self.s_min(),
                        i,
                        j,
                        k,
                    ),
                ),
            r matches Some(h) ==> {
                &&& h.t.wf()
                &&& h.depth == self.max_depth
                &&& exists|i: int, j: int, k: int|
                    {
                        &&& 0 <= i < pow2(self.max_depth as nat) && 0 <= j < pow2(
                            self.max_depth as nat,
                        ) && 0 <= k < pow2(self.max_depth as nat)
                        &&& (#[trigger] node_get(self.root, i, j, k, self.max_depth as nat)) is Some
                        &&& ray_hits_box(
                            ray.origin.view3(),
                            ray.direction.view3(),
                            cell_lo(
                                (-self.half(), -self.half(), -self.half()),
                                self.s_min(),
                                i,
                                j,
                                k,
                            ),
                            cell_hi(
                                (-self.half(), -self.half(), -self.half()),
                                self.s_min(),
                                i,
                                j,
                                k,
                            ),
                        )
                        &&& enter_t(
                            ray.origin.view3(),
                            ray.direction.view3(),
                            cell_lo(
                                (-self.half(), -self.half(), -self.half()),
                                self.s_min(),
                                i,
                                j,
                                k,
                            ),
                            cell_hi(
                                (-self.half(), -self.half(), -self.half()),
                                self.s_min(),
                                i,
                                j,
                                k,
                            ),
                        ) == Some(h.t.view2())
                        &&& h.normal.view3() == enter_normal(
                            ray.origin.view3(),
                            ray.direction.view3(),
                            cell_lo(
                                (-self.half(), -self.half(), -self.half()),
                                self.s_min(),
                                i,
                                j,
                                k,
                            ),
                            cell_hi(
                                (-self.half(), -self.half(), -self.half()),
                                self.s_min(),
                                i,
                                j,
                                k,
                            ),
                        )
                        &&& h.cell.view3() == cell_lo(
                            (-self.half(), -self.half(), -self.half()),
                            self.s_min(),
                            i,
                            j,
                            k,
                        )
                    }
                &&& forall|i: int, j: int, k: int|
                    0 <= i < pow2(self.max_depth as nat) && 0 <= j < pow2(self.max_depth as nat)
                        && 0 <= k < pow2(self.max_depth as nat) && (#[trigger] node_get(
                        self.root,
                        i,
                        j,
                        k,
                        self.max_depth as nat,
                    )) is Some && ray_hits_box(
                        ray.origin.view3(),
                        ray.direction.view3(),
                        cell_lo(
                            (-self.half(), -self.half(), -self.half()),
                            self.s_min(),
                            i,
                            j,
                            k,
                        ),
                        cell_hi(
                            (-self.half(), -self.half(), -self.half()),
                            self.s_min(),
                            i,
                            j,
                            k,
                        ),
                    ) ==> rat_abs_le(
                        h.t.view2(),
                        enter_t(
                            ray.origin.view3(),
                            ray.direction.view3(),
                            cell_lo(
                                (-self.half(), -self.half(), -self.half()),
                                self.s_min(),
                                i,
                                j,
                                k,
                            ),
                            cell_hi(
                                (-self.half(), -self.half(), -self.half()),
                                self.s_min(),
                                i,
                                j,
                                k,
                            ),
                        )->Some_0,
                    )
            },
    {
        proof {
            self.lemma_dims();
        }
        let half = floor_div(self.size, 2);
        let s = self.get_spacing_at_depth(self.max_depth);
        let root_bounds = AABB {
            min: Vec3i { x: -half, y: -half, z: -half },
            max: Vec3i { x: half, y: half, z: half },
        };
        proof {
            assert(half + half == self.size as int);
            assert(root_bounds.max.x as int == root_bounds.min.x as int + pow2(
                self.max_depth as nat,
            ) * self.s_min()) by (nonlinear_arith)
                requires
                    root_bounds.max.x as int == self.half(),
                    root_bounds.min.x as int == -self.half(),
                    self.half() + self.half() == self.size as int,
                    self.s_min() * pow2(self.max_depth as nat) == self.size as int,
            ;
            assert(root_bounds.max.y as int == root_bounds.min.y as int + pow2(
                self.max_depth as nat,
            ) * self.s_min());
            assert(root_bounds.max.z as int == root_bounds.min.z as int + pow2(
                self.max_depth as nat,
            ) * self.s_min());
        }
        raycast_rec(
            &self.root,
            ray,
            &root_bounds,
            0,
            Ghost(self.max_depth as nat),
            Ghost(self.s_min()),
        )
    }

    /// Whether the ray meets the box at all.
    pub fn ray_intersects_aabb(&self, ray: &Ray, aabb: &AABB) -> (r: bool)
        requires
            vec3_bounded(ray.origin),
            vec3_bounded(ray.direction),
            vec3_bounded(aabb.min),
            vec3_bounded(aabb.max),
        ensures
            r == ray_hits_box(
                ray.origin.view3(),
                ray.direction.view3(),
                aabb.min.view3(),
                aabb.max.view3(),
            ),
    {
        slab_test(ray, aabb).is_some()
    }

    /// The entry and exit parameters of the ray through the box and the
    /// normal of the face it enters through, or `None` for a miss.
    pub fn ray_intersects_aabb_with_normal(&self, ray: &Ray, aabb: &AABB) -> (r: Option<
        (Rat, Rat, Vec3i),
    >)
        requires
            vec3_bounded(ray.origin),
            vec3_bounded(ray.direction),
            vec3_bounded(aabb.min),
            vec3_bounded(aabb.max),
        ensures
            r is Some <==> ray_hits_box(
                ray.origin.view3(),
                ray.direction.view3(),
                aabb.min.view3(),
                aabb.max.view3(),
            ),
            r matches Some(h) ==> {
                &&& enter_t(
                    ray.origin.view3(),
                    ray.direction.view3(),
                    aabb.min.view3(),
                    aabb.max.view3(),
                ) == Some(h.0.view2())
                &&& exit_t(
                    ray.origin.view3(),
                    ray.direction.view3(),
                    aabb.min.view3(),
                    aabb.max.view3(),
                ) == Some(h.1.view2())
                &&& h.2.view3() == enter_normal(
                    ray.origin.view3(),
                    ray.direction.view3(),
                    aabb.min.view3(),
                    aabb.max.view3(),
                )
            },
    {
        slab_test(ray, aabb)
    }

    /// The bounding box of child `index` (x bit 0, y bit 1, z bit 2): the
    /// parent box halved along each axis at its midpoint.
    pub fn compute_child_bounds(&self, bounds: &AABB, index: usize) -> (r: AABB)
        requires
            index < 8,
            vec3_bounded(bounds.min),
            vec3_bounded(bounds.max),
        ensures
            (r.min.view3(), r.max.view3()) == child_box(
                bounds.min.view3(),
                bounds.max.view3(),
                index as int,
            ),
            vec3_bounded(r.min),
            vec3_bounded(r.max),
    {
        child_aabb(bounds, index)
    }
}

/// The midpoint of a box along one axis, rounding toward the low face.
fn midpoint(a: i64, b: i64) -> (m: i64)
    requires
        -RAY_LIMIT <= a <= RAY_LIMIT,
        -RAY_LIMIT <= b <= RAY_LIMIT,
    ensures
        m == (a + b) / 2,
        a <= b ==> a <= m <= b,
{
    crate::coords::floor_div(a + b, 2)
}

/// The box of one child of a subdivided box, by the child's index bits.
pub open spec fn child_box(lo: (int, int, int), hi: (int, int, int), idx: int) -> (
    (int, int, int),
    (int, int, int),
) {
    let cx = (lo.0 + hi.0) / 2;
    let cy = (lo.1 + hi.1) / 2;
    let cz = (lo.2 + hi.2) / 2;
    (
        (
            if idx % 2 == 0 {
                lo.0
            } else {
                cx
            },
            if (idx / 2) % 2 == 0 {
                lo.1
            } else {
                cy
            },
            if idx / 4 == 0 {
                lo.2
            } else {
                cz
            },
        ),
        (
            if idx % 2 == 0 {
                cx
            } else {
                hi.0
            },
            if (idx / 2) % 2 == 0 {
                cy
            } else {
                hi.1
            },
            if idx / 4 == 0 {
                cz
            } else {
                hi.2
            },
        ),
    )
}

/// Optional-rational wellformedness: a present value has a positive
/// denominator.
pub open spec fn owf(a: Option<(int, int)>) -> bool {
    a matches Some(v) ==> v.1 >= 1
}

/// Pointwise order on equally-present optional rationals.
pub open spec fn ole(a: Option<(int, int)>, b: Option<(int, int)>) -> bool {
    match (a, b) {
        (Option::None, Option::None) => true,
        (Option::Some(x), Option::Some(y)) => rat_le(x, y),
        _ => false,
    }
}

/// `omax` preserves the pointwise order.
proof fn lemma_omax_mono(a1: Option<(int, int)>, b1: Option<(int, int)>, a2: Option<(int, int)>, b2: Option<(int, int)>)
    requires
        owf(a1),
        owf(b1),
        owf(a2),
        owf(b2),
        ole(a1, a2),
        ole(b1, b2),
    ensures
        ole(omax(a1, b1), omax(a2, b2)),
        owf(omax(a1, b1)),
        owf(omax(a2, b2)),
{
    if a1 is Some && b1 is Some {
        let x1 = a1->Some_0;
        let y1 = b1->Some_0;
        let x2 = a2->Some_0;
        let y2 = b2->Some_0;
        let m2 = omax(a2, b2)->Some_0;
        // both inputs are below the larger of the images
        if rat_le(x2, y2) {
            lemma_rat_le_trans(x1, x2, y2);
        } else {
            lemma_rat_le_trans(y1, y2, x2);
        }
        let m1 = omax(a1, b1)->Some_0;
        assert(rat_le(m1, m2));
    }
}

/// `omin` preserves the pointwise order.
proof fn lemma_omin_mono(a1: Option<(int, int)>, b1: Option<(int, int)>, a2: Option<(int, int)>, b2: Option<(int, int)>)
    requires
        owf(a1),
        owf(b1),
        owf(a2),
        owf(b2),
        ole(a1, a2),
        ole(b1, b2),
    ensures
        ole(omin(a1, b1), omin(a2, b2)),
        owf(omin(a1, b1)),
        owf(omin(a2, b2)),
{
    if a1 is Some && b1 is Some {
        let x1 = a1->Some_0;
        let y1 = b1->Some_0;
        let x2 = a2->Some_0;
        let y2 = b2->Some_0;
        if rat_le(x1, y1) {
            if !rat_le(x2, y2) {
                lemma_rat_le_trans(x1, y1, y2);
            }
        } else {
            if rat_le(x2, y2) {
                lemma_rat_le_trans(y1, x1, x2);
            }
        }
    }
}

/// A ray that meets a box meets every box that contains it, and it cannot
/// enter the outer box later than the inner one.
pub proof fn lemma_hits_monotone(
    o: (int, int, int),
    d: (int, int, int),
    li: (int, int, int),
    hi: (int, int, int),
    lo: (int, int, int),
    ho: (int, int, int),
)
    requires
        lo.0 <= li.0 <= hi.0 <= ho.0,
        lo.1 <= li.1 <= hi.1 <= ho.1,
        lo.2 <= li.2 <= hi.2 <= ho.2,
        ray_hits_box(o, d, li, hi),
    ensures
        ray_hits_box(o, d, lo, ho),
        ole(enter_t(o, d, lo, ho), enter_t(o, d, li, hi)),
{
    // per axis, the outer slab's entry is earlier and its exit later
    assert(ole(olo(o.0, d.0, lo.0, ho.0), olo(o.0, d.0, li.0, hi.0)) && ole(
        olo(o.1, d.1, lo.1, ho.1),
        olo(o.1, d.1, li.1, hi.1),
    ) && ole(olo(o.2, d.2, lo.2, ho.2), olo(o.2, d.2, li.2, hi.2)) && ole(
        ohi(o.0, d.0, li.0, hi.0),
        ohi(o.0, d.0, lo.0, ho.0),
    ) && ole(ohi(o.1, d.1, li.1, hi.1), ohi(o.1, d.1, lo.1, ho.1)) && ole(
        ohi(o.2, d.2, li.2, hi.2),
        ohi(o.2, d.2, lo.2, ho.2),
    )) by (nonlinear_arith)
        requires
            lo.0 <= li.0 <= hi.0 <= ho.0,
            lo.1 <= li.1 <= hi.1 <= ho.1,
            lo.2 <= li.2 <= hi.2 <= ho.2,
    ;
    lemma_omax_mono(
        olo(o.0, d.0, lo.0, ho.0),
        olo(o.1, d.1, lo.1, ho.1),
        olo(o.0, d.0, li.0, hi.0),
        olo(o.1, d.1, li.1, hi.1),
    );
    lemma_omax_mono(
        omax(olo(o.0, d.0, lo.0, ho.0), olo(o.1, d.1, lo.1, ho.1)),
        olo(o.2, d.2, lo.2, ho.2),
        omax(olo(o.0, d.0, li.0, hi.0), olo(o.1, d.1, li.1, hi.1)),
        olo(o.2, d.2, li.2, hi.2),
    );
    lemma_omin_mono(
        ohi(o.0, d.0, li.0, hi.0),
        ohi(o.1, d.1, li.1, hi.1),
        ohi(o.0, d.0, lo.0, ho.0),
        ohi(o.1, d.1, lo.1, ho.1),
    );
    lemma_omin_mono(
        omin(ohi(o.0, d.0, li.0, hi.0), ohi(o.1, d.1, li.1, hi.1)),
        ohi(o.2, d.2, li.2, hi.2),
        omin(ohi(o.0, d.0, lo.0, ho.0), ohi(o.1, d.1, lo.1, ho.1)),
        ohi(o.2, d.2, lo.2, ho.2),
    );
    let en_i = enter_t(o, d, li, hi)->Some_0;
    let ex_i = exit_t(o, d, li, hi)->Some_0;
    let en_o = enter_t(o, d, lo, ho)->Some_0;
    let ex_o = exit_t(o, d, lo, ho)->Some_0;
    lemma_rat_le_trans(en_o, en_i, ex_i);
    lemma_rat_le_trans(en_o, ex_i, ex_o);
    lemma_rat_le_nonneg(ex_i, ex_o);
}

/// The low corner of cell `(a, b, c)` of a subtree whose box has low corner
/// `m` and cell spacing `s`.
pub open spec fn cell_lo(m: (int, int, int), s: int, a: int, b: int, c: int) -> (int, int, int) {
    (m.0 + a * s, m.1 + b * s, m.2 + c * s)
}

/// The high corner of the same cell.
pub open spec fn cell_hi(m: (int, int, int), s: int, a: int, b: int, c: int) -> (int, int, int) {
    (m.0 + a * s + s, m.1 + b * s + s, m.2 + c * s + s)
}

/// A raycast hit: the entry parameter along the ray, the tree depth of the
/// hit leaf, the outward normal of the face entered, and the hit cell's low
/// corner in ticks. The hit point itself is `origin + t * direction`.
#[derive(Clone, Copy, PartialEq, Eq, Structural, Debug)]
pub struct RaycastHit {
    pub t: Rat,
    pub depth: u32,
    pub normal: Vec3i,
    pub cell: Vec3i,
}

/// Shifting a corner into a child box leaves a cell's position unchanged.
proof fn lemma_cell_shift(m: int, s: int, a: int, off: int)
    ensures
        m + a * s == (m + off * s) + (a - off) * s,
{
    assert(m + a * s == (m + off * s) + (a - off) * s) by (nonlinear_arith);
}

/// A cell of a subtree lies inside the subtree's box.
proof fn lemma_cell_in_box(m: int, s: int, a: int, n: int)
    requires
        s >= 1,
        0 <= a < n,
    ensures
        m <= m + a * s,
        m + a * s + s <= m + n * s,
{
    assert(0 <= a * s && a * s + s <= n * s) by (nonlinear_arith)
        requires
            s >= 1,
            0 <= a < n,
    ;
}

/// Descends the tree, pruning subtrees whose boxes the ray misses, and
/// returns the nearest populated cell the ray enters: nearest by distance
/// along the ray, not by traversal order.
#[verifier::rlimit(100)]
fn raycast_rec(
    node: &OctreeNode,
    ray: &Ray,
    bounds: &AABB,
    dep: u32,
    Ghost(rem): Ghost<nat>,
    Ghost(s): Ghost<int>,
) -> (r: Option<RaycastHit>)
    requires
        node_wf(*node, rem),
        dep as nat + rem <= 46,
        s >= 1,
        vec3_bounded(ray.origin),
        vec3_bounded(ray.direction),
        vec3_bounded(bounds.min),
        vec3_bounded(bounds.max),
        bounds.max.x as int == bounds.min.x as int + pow2(rem) * s,
        bounds.max.y as int == bounds.min.y as int + pow2(rem) * s,
        bounds.max.z as int == bounds.min.z as int + pow2(rem) * s,
    ensures
        r is None ==> forall|a: int, b: int, c: int|
            0 <= a < pow2(rem) && 0 <= b < pow2(rem) && 0 <= c < pow2(rem) && (#[trigger] node_get(
                *node,
                a,
                b,
                c,
                rem,
            )) is Some ==> !ray_hits_box(
                ray.origin.view3(),
                ray.direction.view3(),
                cell_lo(bounds.min.view3(), s, a, b, c),
                cell_hi(bounds.min.view3(), s, a, b, c),
            ),
        r matches Some(h) ==> {
            &&& h.t.wf()
            &&& -2 * RAY_LIMIT <= h.t.num <= 2 * RAY_LIMIT
            &&& 1 <= h.t.den <= RAY_LIMIT
            &&& h.depth as nat == dep as nat + rem
            &&& exists|a: int, b: int, c: int|
                {
                    &&& 0 <= a < pow2(rem) && 0 <= b < pow2(rem) && 0 <= c < pow2(rem)
                    &&& (#[trigger] node_get(*node, a, b, c, rem)) is Some
                    &&& ray_hits_box(
                        ray.origin.view3(),
                        ray.direction.view3(),
                        cell_lo(bounds.min.view3(), s, a, b, c),
                        cell_hi(bounds.min.view3(), s, a, b, c),
                    )
                    &&& enter_t(
                        ray.origin.view3(),
                        ray.direction.view3(),
                        cell_lo(bounds.min.view3(), s, a, b, c),
                        cell_hi(bounds.min.view3(), s, a, b, c),
                    ) == Some(h.t.view2())
                    &&& h.normal.view3() == enter_normal(
                        ray.origin.view3(),
                        ray.direction.view3(),
                        cell_lo(bounds.min.view3(), s, a, b, c),
                        cell_hi(bounds.min.view3(), s, a, b, c),
                    )
                    &&& h.cell.view3() == cell_lo(bounds.min.view3(), s, a, b, c)
                }
            &&& forall|a: int, b: int, c: int|
                0 <= a < pow2(rem) && 0 <= b < pow2(rem) && 0 <= c < pow2(rem) && (
                #[trigger] node_get(*node, a, b, c, rem)) is Some && ray_hits_box(
                    ray.origin.view3(),
                    ray.direction.view3(),
                    cell_lo(bounds.min.view3(), s, a, b, c),
                    cell_hi(bounds.min.view3(), s, a, b, c),
                ) ==> rat_abs_le(
                    h.t.view2(),
                    enter_t(
                        ray.origin.view3(),
                        ray.direction.view3(),
                        cell_lo(bounds.min.view3(), s, a, b, c),
                        cell_hi(bounds.min.view3(), s, a, b, c),
                    )->Some_0,
                )
        },
    decreases rem,
{
    let ghost o3 = ray.origin.view3();
    let ghost d3 = ray.direction.view3();
    let ghost m3 = bounds.min.view3();
    let st = slab_test(ray, bounds);
    if st.is_none() {
        proof {
            assert forall|a: int, b: int, c: int|
                0 <= a < pow2(rem) && 0 <= b < pow2(rem) && 0 <= c < pow2(rem) && (
                #[trigger] node_get(*node, a, b, c, rem)) is Some implies !ray_hits_box(
                o3,
                d3,
                cell_lo(m3, s, a, b, c),
                cell_hi(m3, s, a, b, c),
            ) by {
                if ray_hits_box(o3, d3, cell_lo(m3, s, a, b, c), cell_hi(m3, s, a, b, c)) {
                    lemma_cell_in_box(m3.0, s, a, pow2(rem) as int);
                    lemma_cell_in_box(m3.1, s, b, pow2(rem) as int);
                    lemma_cell_in_box(m3.2, s, c, pow2(rem) as int);
                    lemma_hits_monotone(
                        o3,
                        d3,
                        cell_lo(m3, s, a, b, c),
                        cell_hi(m3, s, a, b, c),
                        bounds.min.view3(),
                        bounds.max.view3(),
                    );
                }
            }
        }
        return None;
    }
    let (en, _ex, normal) = match st {
        Some(v) => v,
        None => {
            proof {
                assert(false);
            }
            (Rat { num: 0, den: 1 }, Rat { num: 0, den: 1 }, Vec3i::new(0, 0, 0))
        },
    };
    match node {
        OctreeNode::Leaf { voxel } => {
            if voxel.is_some() {
                proof {
                    assert(rem == 0);
                    assert(pow2(0) == 1);
                    assert(1 * s == s) by (nonlinear_arith);
                    assert(0 * s == 0) by (nonlinear_arith);
                    assert(cell_lo(m3, s, 0, 0, 0) == m3);
                    assert(cell_hi(m3, s, 0, 0, 0) == bounds.max.view3());
                    assert(node_get(*node, 0, 0, 0, rem) is Some);
                }
                let h = RaycastHit { t: en, depth: dep, normal, cell: bounds.min };
                proof {
                    assert(abs1(h.t.view2().0) * h.t.view2().1 <= abs1(h.t.view2().0)
                        * h.t.view2().1);
                }
                Some(h)
            } else {
                None
            }
        },
        OctreeNode::Internal { children } => {
            proof {
                assert(rem >= 1);
                assert(pow2(rem) == 2 * pow2((rem - 1) as nat));
            }
            let ghost h2 = pow2((rem - 1) as nat) as int;
            let mut best: Option<RaycastHit> = None;
            let mut t: usize = 0;
            while t < 8
                invariant
                    t <= 8,
                    children@.len() == 8,
                    *node == (OctreeNode::Internal { children: *children }),
                    forall|u: int| 0 <= u < 8 ==> node_wf(#[trigger] children@[u], (rem - 1) as nat),
                    rem >= 1,
                    dep as nat + rem <= 46,
                    s >= 1,
                    h2 == pow2((rem - 1) as nat),
                    pow2(rem) == 2 * h2,
                    vec3_bounded(ray.origin),
                    vec3_bounded(ray.direction),
                    vec3_bounded(bounds.min),
                    vec3_bounded(bounds.max),
                    o3 == ray.origin.view3(),
                    d3 == ray.direction.view3(),
                    m3 == bounds.min.view3(),
                    bounds.max.x as int == bounds.min.x as int + pow2(rem) * s,
                    bounds.max.y as int == bounds.min.y as int + pow2(rem) * s,
                    bounds.max.z as int == bounds.min.z as int + pow2(rem) * s,
                    best is None ==> forall|a: int, b: int, c: int|
                        0 <= a < 2 * h2 && 0 <= b < 2 * h2 && 0 <= c < 2 * h2 && top_bit(a, h2) + 2
                            * top_bit(b, h2) + 4 * top_bit(c, h2) < t && (#[trigger] node_get(
                            *node,
                            a,
                            b,
                            c,
                            rem,
                        )) is Some ==> !ray_hits_box(
                            o3,
                            d3,
                            cell_lo(m3, s, a, b, c),
                            cell_hi(m3, s, a, b, c),
                        ),
                    best matches Some(h) ==> {
                        &&& h.t.wf()
                        &&& -2 * RAY_LIMIT <= h.t.num <= 2 * RAY_LIMIT
                        &&& 1 <= h.t.den <= RAY_LIMIT
                        &&& h.depth as nat == dep as nat + rem
                        &&& exists|a: int, b: int, c: int|
                            {
                                &&& 0 <= a < 2 * h2 && 0 <= b < 2 * h2 && 0 <= c < 2 * h2
                                &&& top_bit(a, h2) + 2 * top_bit(b, h2) + 4 * top_bit(c, h2) < t
                                &&& (#[trigger] node_get(*node, a, b, c, rem)) is Some
                                &&& ray_hits_box(
                                    o3,
                                    d3,
                                    cell_lo(m3, s, a, b, c),
                                    cell_hi(m3, s, a, b, c),
                                )
                                &&& enter_t(o3, d3, cell_lo(m3, s, a, b, c), cell_hi(m3, s, a, b, c))
                                    == Some(h.t.view2())
                                &&& h.normal.view3() == enter_normal(
                                    o3,
                                    d3,
                                    cell_lo(m3, s, a, b, c),
                                    cell_hi(m3, s, a, b, c),
                                )
                                &&& h.cell.view3() == cell_lo(m3, s, a, b, c)
                            }
                        &&& forall|a: int, b: int, c: int|
                            0 <= a < 2 * h2 && 0 <= b < 2 * h2 && 0 <= c < 2 * h2 && top_bit(a, h2)
                                + 2 * top_bit(b, h2) + 4 * top_bit(c, h2) < t && (
                            #[trigger] node_get(*node, a, b, c, rem)) is Some && ray_hits_box(
                                o3,
                                d3,
                                cell_lo(m3, s, a, b, c),
                                cell_hi(m3, s, a, b, c),
                            ) ==> rat_abs_le(
                                h.t.view2(),
                                enter_t(o3, d3, cell_lo(m3, s, a, b, c), cell_hi(m3, s, a, b, c))->Some_0,
                            )
                    },
                decreases 8 - t,
            {
                let cb = child_aabb(bounds, t);
                proof {
                    // the child box has the child's dimensions
                    lemma_child_aabb_dims(*bounds, t as int, rem, s);
                    assert(decreases_to!(*node => (*node)->Internal_children));
                    assert((*node)->Internal_children == *children);
                    assert(decreases_to!(*children => children@[t as int]));
                }
                let rec = raycast_rec(
                    &children[t],
                    ray,
                    &cb,
                    dep + 1,
                    Ghost((rem - 1) as nat),
                    Ghost(s),
                );
                proof {
                    // a node cell in this child is the child's cell shifted
                    let bx = t as int % 2;
                    let by = (t as int / 2) % 2;
                    let bz = t as int / 4;
                    assert(cb.min.view3() == (
                        m3.0 + bx * (h2 * s),
                        m3.1 + by * (h2 * s),
                        m3.2 + bz * (h2 * s),
                    ));
                    assert forall|a: int, b: int, c: int|
                        0 <= a < 2 * h2 && 0 <= b < 2 * h2 && 0 <= c < 2 * h2 && top_bit(a, h2) + 2
                            * top_bit(b, h2) + 4 * top_bit(c, h2) == t implies (node_get(
                        *node,
                        a,
                        b,
                        c,
                        rem,
                    ) == node_get(
                        children@[t as int],
                        a - top_bit(a, h2) * h2,
                        b - top_bit(b, h2) * h2,
                        c - top_bit(c, h2) * h2,
                        (rem - 1) as nat,
                    ) && cell_lo(m3, s, a, b, c) == cell_lo(
                        cb.min.view3(),
                        s,
                        a - top_bit(a, h2) * h2,
                        b - top_bit(b, h2) * h2,
                        c - top_bit(c, h2) * h2,
                    ) && cell_hi(m3, s, a, b, c) == cell_hi(
                        cb.min.view3(),
                        s,
                        a - top_bit(a, h2) * h2,
                        b - top_bit(b, h2) * h2,
                        c - top_bit(c, h2) * h2,
                    )) by {
                        assert(top_bit(a, h2) == bx && top_bit(b, h2) == by && top_bit(c, h2)
                            == bz);
                        lemma_cell_shift(m3.0, s, a, bx * h2);
                        lemma_cell_shift(m3.1, s, b, by * h2);
                        lemma_cell_shift(m3.2, s, c, bz * h2);
                        assert((bx * h2) * s == bx * (h2 * s) && (by * h2) * s == by * (h2 * s) && (
                        bz * h2) * s == bz * (h2 * s)) by (nonlinear_arith);
                    }
                }
                let ghost prev = best;
                best = match (best, rec) {
                    (Option::None, x) => x,
                    (Option::Some(bh), Option::None) => Some(bh),
                    (Option::Some(bh), Option::Some(rh)) => {
                        if rat_abs_le_exec(bh.t, rh.t) {
                            Some(bh)
                        } else {
                            Some(rh)
                        }
                    },
                };
                proof {
                    let bx = t as int % 2;
                    let by = (t as int / 2) % 2;
                    let bz = t as int / 4;
                    if best is Some {
                        let h = best->Some_0;
                        // the new best came from the previous best or from
                        // this child; build the witness in node coordinates
                        if rec is Some && best == rec {
                            let rh = rec->Some_0;
                            let (a1, b1, c1) = choose|a1: int, b1: int, c1: int|
                                {
                                    &&& 0 <= a1 < pow2((rem - 1) as nat) && 0 <= b1 < pow2(
                                        (rem - 1) as nat,
                                    ) && 0 <= c1 < pow2((rem - 1) as nat)
                                    &&& (#[trigger] node_get(
                                        children@[t as int],
                                        a1,
                                        b1,
                                        c1,
                                        (rem - 1) as nat,
                                    )) is Some
                                    &&& ray_hits_box(
                                        o3,
                                        d3,
                                        cell_lo(cb.min.view3(), s, a1, b1, c1),
                                        cell_hi(cb.min.view3(), s, a1, b1, c1),
                                    )
                                    &&& enter_t(
                                        o3,
                                        d3,
                                        cell_lo(cb.min.view3(), s, a1, b1, c1),
                                        cell_hi(cb.min.view3(), s, a1, b1, c1),
                                    ) == Some(rh.t.view2())
                                    &&& rh.normal.view3() == enter_normal(
                                        o3,
                                        d3,
                                        cell_lo(cb.min.view3(), s, a1, b1, c1),
                                        cell_hi(cb.min.view3(), s, a1, b1, c1),
                                    )
                                    &&& rh.cell.view3() == cell_lo(cb.min.view3(), s, a1, b1, c1)
                                };
                            let na = a1 + bx * h2;
                            let nb = b1 + by * h2;
                            let nc = c1 + bz * h2;
                            assert(top_bit(na, h2) == bx && top_bit(nb, h2) == by && top_bit(
                                nc,
                                h2,
                            ) == bz) by {
                                assert(0 * h2 == 0 && 1 * h2 == h2) by (nonlinear_arith);
                            }
                            assert(top_bit(na, h2) + 2 * top_bit(nb, h2) + 4 * top_bit(nc, h2)
                                == t as int);
                            assert(na - top_bit(na, h2) * h2 == a1 && nb - top_bit(nb, h2) * h2
                                == b1 && nc - top_bit(nc, h2) * h2 == c1);
                            assert(node_get(*node, na, nb, nc, rem) is Some
                                && ray_hits_box(o3, d3, cell_lo(m3, s, na, nb, nc), cell_hi(m3, s, na, nb, nc))
                                && enter_t(o3, d3, cell_lo(m3, s, na, nb, nc), cell_hi(m3, s, na, nb, nc))
                                    == Some(h.t.view2())
                                && h.normal.view3() == enter_normal(o3, d3, cell_lo(m3, s, na, nb, nc), cell_hi(m3, s, na, nb, nc))
                                && h.cell.view3() == cell_lo(m3, s, na, nb, nc));
                        }
                        // minimality over every cell handled so far
                        assert forall|a: int, b: int, c: int|
                            0 <= a < 2 * h2 && 0 <= b < 2 * h2 && 0 <= c < 2 * h2 && top_bit(a, h2)
                                + 2 * top_bit(b, h2) + 4 * top_bit(c, h2) < t + 1 && (
                            #[trigger] node_get(*node, a, b, c, rem)) is Some && ray_hits_box(
                                o3,
                                d3,
                                cell_lo(m3, s, a, b, c),
                                cell_hi(m3, s, a, b, c),
                            ) implies rat_abs_le(
                            h.t.view2(),
                            enter_t(o3, d3, cell_lo(m3, s, a, b, c), cell_hi(m3, s, a, b, c))->Some_0,
                        ) by {
                            let cx = top_bit(a, h2) + 2 * top_bit(b, h2) + 4 * top_bit(c, h2);
                            let en_c = enter_t(
                                o3,
                                d3,
                                cell_lo(m3, s, a, b, c),
                                cell_hi(m3, s, a, b, c),
                            )->Some_0;
                            assert(en_c.1 >= 1) by {
                                lemma_enter_wf(
                                    o3,
                                    d3,
                                    cell_lo(m3, s, a, b, c),
                                    cell_hi(m3, s, a, b, c),
                                );
                            }
                            if cx < t {
                                let ph = prev->Some_0;
                                assert(rat_abs_le(ph.t.view2(), en_c));
                                if rec is Some && best == rec && best != prev {
                                    let rh = rec->Some_0;
                                    assert(!rat_abs_le(ph.t.view2(), rh.t.view2()));
                                    lemma_rat_abs_le_trans(rh.t.view2(), ph.t.view2(), en_c);
                                }
                            } else {
                                // this child's cell: translate to the child
                                assert(cx == t as int);
                                assert(top_bit(a, h2) == bx && top_bit(b, h2) == by && top_bit(
                                    c,
                                    h2,
                                ) == bz);
                                let rh = rec->Some_0;
                                assert(rat_abs_le(rh.t.view2(), en_c));
                                if h != rh {
                                    assert(rat_abs_le(h.t.view2(), rh.t.view2()));
                                    lemma_rat_abs_le_trans(h.t.view2(), rh.t.view2(), en_c);
                                }
                            }
                        }
                    } else {
                        // still no hit: nothing in this child either
                        assert(prev is None && rec is None);
                    }
                }
                t = t + 1;
            }
            proof {
                assert forall|a: int, b: int, c: int|
                    0 <= a < 2 * h2 && 0 <= b < 2 * h2 && 0 <= c < 2 * h2 implies top_bit(a, h2) + 2
                    * top_bit(b, h2) + 4 * top_bit(c, h2) < 8 by {}
                assert(pow2(rem) == 2 * h2);
            }
            best
        },
    }
}

/// A present entry parameter has a positive denominator.
proof fn lemma_enter_wf(o: (int, int, int), d: (int, int, int), lo: (int, int, int), hi: (
    int,
    int,
    int,
))
    ensures
        owf(enter_t(o, d, lo, hi)),
{
}

/// The executable child box of [`child_box`], as a free function shared by
/// the raycaster's descent.
fn child_aabb(bounds: &AABB, index: usize) -> (r: AABB)
    requires
        index < 8,
        vec3_bounded(bounds.min),
        vec3_bounded(bounds.max),
    ensures
        (r.min.view3(), r.max.view3()) == child_box(
            bounds.min.view3(),
            bounds.max.view3(),
            index as int,
        ),
        vec3_bounded(r.min),
        vec3_bounded(r.max),
{
    let cx = midpoint(bounds.min.x, bounds.max.x);
    let cy = midpoint(bounds.min.y, bounds.max.y);
    let cz = midpoint(bounds.min.z, bounds.max.z);
    let bx = index % 2 == 1;
    let by = (index / 2) % 2 == 1;
    let bz = index / 4 >= 1;
    AABB {
        min: Vec3i {
            x: if bx {
                cx
            } else {
                bounds.min.x
            },
            y: if by {
                cy
            } else {
                bounds.min.y
            },
            z: if bz {
                cz
            } else {
                bounds.min.z
            },
        },
        max: Vec3i {
            x: if bx {
                bounds.max.x
            } else {
                cx
            },
            y: if by {
                bounds.max.y
            } else {
                cy
            },
            z: if bz {
                bounds.max.z
            } else {
                cz
            },
        },
    }
}

/// Halving a box whose edge is `2^rem * s` gives child boxes of edge
/// `2^(rem-1) * s`, offset by the index bits.
proof fn lemma_child_aabb_dims(bounds: AABB, idx: int, rem: nat, s: int)
    requires
        0 <= idx < 8,
        rem >= 1,
        s >= 1,
        bounds.max.x as int == bounds.min.x as int + pow2(rem) * s,
        bounds.max.y as int == bounds.min.y as int + pow2(rem) * s,
        bounds.max.z as int == bounds.min.z as int + pow2(rem) * s,
    ensures
        ({
            let (clo, chi) = child_box(bounds.min.view3(), bounds.max.view3(), idx);
            let h2 = pow2((rem - 1) as nat) as int;
            &&& chi.0 == clo.0 + pow2((rem - 1) as nat) * s
            &&& chi.1 == clo.1 + pow2((rem - 1) as nat) * s
            &&& chi.2 == clo.2 + pow2((rem - 1) as nat) * s
            &&& clo.0 == bounds.min.x as int + (idx % 2) * (h2 * s)
            &&& clo.1 == bounds.min.y as int + ((idx / 2) % 2) * (h2 * s)
            &&& clo.2 == bounds.min.z as int + (idx / 4) * (h2 * s)
            &&& bounds.min.x <= clo.0 && chi.0 <= bounds.max.x
            &&& bounds.min.y <= clo.1 && chi.1 <= bounds.max.y
            &&& bounds.min.z <= clo.2 && chi.2 <= bounds.max.z
        }),
{
    let h2 = pow2((rem - 1) as nat) as int;
    assert(pow2(rem) == 2 * h2);
    let lox = bounds.min.x as int;
    let loy = bounds.min.y as int;
    let loz = bounds.min.z as int;
    // each midpoint is exactly the low corner plus half the edge
    assert((lox + (lox + (2 * h2) * s)) == 2 * (lox + h2 * s) && (loy + (loy + (2 * h2) * s)) == 2
        * (loy + h2 * s) && (loz + (loz + (2 * h2) * s)) == 2 * (loz + h2 * s))
        by (nonlinear_arith);
    vstd::arithmetic::div_mod::lemma_div_multiples_vanish(lox + h2 * s, 2);
    vstd::arithmetic::div_mod::lemma_div_multiples_vanish(loy + h2 * s, 2);
    vstd::arithmetic::div_mod::lemma_div_multiples_vanish(loz + h2 * s, 2);
    assert(h2 * s >= 1) by (nonlinear_arith)
        requires
            h2 >= 1,
            s >= 1,
    ;
    assert((0int) * (h2 * s) == 0 && (1int) * (h2 * s) == h2 * s) by (nonlinear_arith);
    assert(idx % 2 == 0 || idx % 2 == 1);
    assert((idx / 2) % 2 == 0 || (idx / 2) % 2 == 1);
    assert(idx / 4 == 0 || idx / 4 == 1);
}

} // verus!
