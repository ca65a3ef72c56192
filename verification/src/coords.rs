//! Fixed-point coordinate arithmetic.
//!
//! World positions are `i64` tick counts. A cube of edge length `size` ticks
//! centered on the origin is divided into `2^depth` cells per axis; the cell
//! spacing at depth `d` is `size / 2^d`. Aligning a position to a depth means
//! snapping it to the center of the cell that contains it, exactly.

use vstd::prelude::*;
use vstd::arithmetic::div_mod::lemma_fundamental_div_mod;

verus! {

/// Largest magnitude (in ticks) accepted for a position handed to an edit.
pub const COORD_LIMIT: i64 = 0x1000_0000_0000;

/// Largest cube edge length (in ticks) the octree will ever reach. Root
/// growth doubles `size` only while the target cell is outside the cube,
/// and a cube of edge `4 * COORD_LIMIT` contains every accepted position,
/// so `size` never exceeds this bound.
pub const SIZE_LIMIT: i64 = 0x8000_0000_0000;

/// An integer position or direction: each component is a tick count.
#[derive(Clone, Copy, PartialEq, Eq, Structural, Debug)]
pub struct Vec3i {
    pub x: i64,
    pub y: i64,
    pub z: i64,
}

impl Vec3i {
    /// The components as mathematical integers.
    pub open spec fn view3(self) -> (int, int, int) {
        (self.x as int, self.y as int, self.z as int)
    }

    pub fn new(x: i64, y: i64, z: i64) -> (v: Vec3i)
        ensures
            v == (Vec3i { x, y, z }),
    {
        Vec3i { x, y, z }
    }
}

/// `2^e` as a mathematical integer.
pub open spec fn pow2(e: nat) -> int
    decreases e,
{
    if e == 0 {
        1
    } else {
        2 * pow2((e - 1) as nat)
    }
}

pub broadcast proof fn lemma_pow2_pos(e: nat)
    ensures
        #[trigger] pow2(e) >= 1,
    decreases e,
{
    if e > 0 {
        lemma_pow2_pos((e - 1) as nat);
    }
}

/// `2^(a+b) == 2^a * 2^b`.
pub proof fn lemma_pow2_adds(a: nat, b: nat)
    ensures
        pow2(a + b) == pow2(a) * pow2(b),
    decreases a,
{
    if a > 0 {
        lemma_pow2_adds((a - 1) as nat, b);
        assert(2 * (pow2((a - 1) as nat) * pow2(b)) == (2 * pow2((a - 1) as nat)) * pow2(b))
            by (nonlinear_arith);
    }
}

pub proof fn lemma_pow2_increases(a: nat, b: nat)
    requires
        a <= b,
    ensures
        pow2(a) <= pow2(b),
    decreases b,
{
    if a < b {
        lemma_pow2_increases(a, (b - 1) as nat);
        lemma_pow2_pos((b - 1) as nat);
    }
}

pub proof fn lemma_pow2_62()
    ensures
        pow2(62) == 0x4000_0000_0000_0000,
{
    assert(pow2(62) == 0x4000_0000_0000_0000) by {
        reveal_with_fuel(pow2, 64);
    }
}

/// `2^e` as an `i64`.
pub fn pow2_i64(e: u32) -> (r: i64)
    requires
        e <= 62,
    ensures
        r == pow2(e as nat),
        r >= 1,
{
    let mut r: i64 = 1;
    let mut i: u32 = 0;
    proof {
        lemma_pow2_increases(e as nat, 62);
        lemma_pow2_62();
    }
    while i < e
        invariant
            i <= e,
            e <= 62,
            r == pow2(i as nat),
            pow2(e as nat) <= pow2(62),
            pow2(62) == 0x4000_0000_0000_0000,
        decreases e - i,
    {
        proof {
            lemma_pow2_increases((i + 1) as nat, e as nat);
            lemma_pow2_pos(i as nat);
        }
        r = r * 2;
        i = i + 1;
    }
    proof {
        lemma_pow2_pos(e as nat);
    }
    r
}

/// Floor division: rounds toward negative infinity. For a positive divisor
/// this is exactly the mathematical (Euclidean) quotient `a / b`.
pub fn floor_div(a: i64, b: i64) -> (q: i64)
    requires
        b > 0,
    ensures
        q == a as int / b as int,
{
    proof {
        lemma_div_in_i64_range(a as int, b as int);
    }
    match a.checked_div_euclid(b) {
        Some(q) => q,
        None => {
            proof {
                assert(false);
            }
            0
        },
    }
}

/// The quotient of an `i64` by a positive `i64` stays in `i64` range.
proof fn lemma_div_in_i64_range(a: int, b: int)
    requires
        b > 0,
        i64::MIN <= a <= i64::MAX,
    ensures
        i64::MIN <= a / b <= i64::MAX,
{
    lemma_fundamental_div_mod(a, b);
    assert(i64::MIN <= a / b <= i64::MAX) by (nonlinear_arith)
        requires
            b > 0,
            i64::MIN <= a <= i64::MAX,
            a == b * (a / b) + a % b,
            0 <= a % b < b,
    ;
}

/// The center of the cell of spacing `s` that contains position `w`.
pub open spec fn spec_align(w: int, s: int) -> int {
    (w / s) * s + s / 2
}

/// Snaps `w` to the center of its cell at spacing `s`.
pub fn align_to_spacing(w: i64, s: i64) -> (a: i64)
    requires
        2 <= s <= SIZE_LIMIT,
        s % 2 == 0,
        -COORD_LIMIT * 4 <= w <= COORD_LIMIT * 4,
    ensures
        a == spec_align(w as int, s as int),
        w - s < a - s / 2 <= w,
        a - s / 2 == (w as int / s as int) * s,
    {
    let q = floor_div(w, s);
    proof {
        lemma_fundamental_div_mod(w as int, s as int);
    }
    q * s + s / 2
}

} // verus!
