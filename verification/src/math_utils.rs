//! Helpers of the fixed-point geometry: rounding division, clamping, the
//! integer square root, rotation in the plane and the distance from a point
//! to a segment.

use crate::vec::{SpaceVector, Vector2, Vector3, COORD_LIMIT, PROBE_LIMIT, SCALE};
use vstd::prelude::*;

verus! {

/// The quotient of `a` by a positive `d`, rounded toward zero.
pub open spec fn trunc_div(a: int, d: int) -> int {
    if a >= 0 {
        a / d
    } else {
        -((-a) / d)
    }
}

/// `v` confined to the interval from `lo` to `hi`.
pub open spec fn clamp(v: int, lo: int, hi: int) -> int {
    if v < lo {
        lo
    } else if v > hi {
        hi
    } else {
        v
    }
}

/// `r` is the integer square root of `n`: the largest integer whose square
/// does not exceed `n`.
pub open spec fn is_floor_sqrt(n: int, r: int) -> bool {
    &&& 0 <= r
    &&& r * r <= n
    &&& n < (r + 1) * (r + 1)
}

/// The integer square root of `n`; meaningful for `n >= 0`.
pub open spec fn floor_sqrt(n: int) -> int {
    choose|r: int| is_floor_sqrt(n, r)
}

/// A number has at most one integer square root.
pub proof fn lemma_floor_sqrt_unique(n: int, r1: int, r2: int)
    requires
        is_floor_sqrt(n, r1),
        is_floor_sqrt(n, r2),
    ensures
        r1 == r2,
{
    if r1 < r2 {
        assert((r1 + 1) * (r1 + 1) <= r2 * r2) by (nonlinear_arith)
            requires
                0 <= r1,
                r1 + 1 <= r2,
        ;
    }
    if r2 < r1 {
        assert((r2 + 1) * (r2 + 1) <= r1 * r1) by (nonlinear_arith)
            requires
                0 <= r2,
                r2 + 1 <= r1,
        ;
    }
}

/// Whoever holds a root of `n` holds `floor_sqrt(n)`.
pub proof fn lemma_floor_sqrt_is(n: int, r: int)
    requires
        is_floor_sqrt(n, r),
    ensures
        floor_sqrt(n) == r,
{
    lemma_floor_sqrt_unique(n, floor_sqrt(n), r);
}

/// Every natural number has an integer square root.
pub proof fn lemma_floor_sqrt_exists(n: int)
    requires
        n >= 0,
    ensures
        is_floor_sqrt(n, floor_sqrt(n)),
    decreases n,
{
    if n == 0 {
        assert(is_floor_sqrt(0, 0));
    } else {
        lemma_floor_sqrt_exists(n - 1);
        let r = floor_sqrt(n - 1);
        if (r + 1) * (r + 1) <= n {
            assert(n < (r + 2) * (r + 2)) by (nonlinear_arith)
                requires
                    n - 1 < (r + 1) * (r + 1),
                    r >= 0,
            ;
            assert(is_floor_sqrt(n, r + 1));
        } else {
            assert(is_floor_sqrt(n, r));
        }
    }
}

/// The root of a number dominates every integer whose square does not
/// exceed the number.
pub proof fn lemma_floor_sqrt_dominates(n: int, r: int, c: int)
    requires
        is_floor_sqrt(n, r),
        c * c <= n,
    ensures
        -r <= c <= r,
{
    if c > r {
        assert((r + 1) * (r + 1) <= c * c) by (nonlinear_arith)
            requires
                0 <= r,
                r + 1 <= c,
        ;
    }
    if c < -r {
        assert((r + 1) * (r + 1) <= c * c) by (nonlinear_arith)
            requires
                0 <= r,
                c <= -(r + 1),
        ;
    }
}

/// Integer square root by bisection.
pub fn isqrt(n: u128) -> (r: u64)
    ensures
        is_floor_sqrt(n as int, r as int),
        r == floor_sqrt(n as int),
{
    let mut lo: u128 = 0;
    let mut hi: u128 = 0x1_0000_0000_0000_0000;
    assert(0x1_0000_0000_0000_0000int * 0x1_0000_0000_0000_0000int
        == 0x1_0000_0000_0000_0000_0000_0000_0000_0000int) by (nonlinear_arith);
    while hi - lo > 1
        invariant
            lo < hi <= 0x1_0000_0000_0000_0000,
            lo * lo <= n,
            n < hi * hi,
        decreases hi - lo,
    {
        let mid: u128 = lo + (hi - lo) / 2;
        assert(mid * mid < 0x1_0000_0000_0000_0000_0000_0000_0000_0000) by (nonlinear_arith)
            requires
                0 <= mid < 0x1_0000_0000_0000_0000,
        ;
        if mid * mid <= n {
            lo = mid;
        } else {
            hi = mid;
        }
    }
    proof {
        lemma_floor_sqrt_is(n as int, lo as int);
    }
    lo as u64
}

/// Exact division toward zero of a wide numerator by a positive divisor.
pub fn div_toward_zero(a: i128, d: i128) -> (q: i128)
    requires
        d > 0,
        a > i128::MIN,
    ensures
        q == trunc_div(a as int, d as int),
{
    if a >= 0 {
        a / d
    } else {
        let m: i128 = -a;
        let p: i128 = m / d;
        -p
    }
}

/// `v` confined to the interval from `lo` to `hi`, narrowed to 64 bits.
pub fn clamp_to(v: i128, lo: i64, hi: i64) -> (r: i64)
    requires
        lo <= hi,
    ensures
        r == clamp(v as int, lo as int, hi as int),
{
    if v < lo as i128 {
        lo
    } else if v > hi as i128 {
        hi
    } else {
        v as i64
    }
}

/// A number whose square is `squared` lies below `limit`.
pub open spec fn root_below(squared: int, limit: int) -> bool {
    limit > 0 && squared < limit * limit
}

/// A number whose square is `squared` is at most `limit`.
pub open spec fn root_within(squared: int, limit: int) -> bool {
    limit >= 0 && squared <= limit * limit
}

/// Whether a number whose square is `squared` lies below `limit`.
pub fn is_root_below(squared: i64, limit: i64) -> (r: bool)
    ensures
        r == root_below(squared as int, limit as int),
{
    if limit <= 0 {
        false
    } else {
        let wide: i128 = limit as i128;
        assert(0 < wide * wide <= 0x4000_0000_0000_0000_0000_0000_0000_0000) by (nonlinear_arith)
            requires
                0 < wide <= 0x7fff_ffff_ffff_ffff,
        ;
        (squared as i128) < wide * wide
    }
}

/// Whether a number whose square is `squared` is at most `limit`.
pub fn is_root_within(squared: i64, limit: i64) -> (r: bool)
    ensures
        r == root_within(squared as int, limit as int),
{
    if limit < 0 {
        false
    } else {
        let wide: i128 = limit as i128;
        assert(0 <= wide * wide <= 0x4000_0000_0000_0000_0000_0000_0000_0000) by (nonlinear_arith)
            requires
                0 <= wide <= 0x7fff_ffff_ffff_ffff,
        ;
        (squared as i128) <= wide * wide
    }
}

/// The number of whole cells that `u` units reach, rounded up.
pub open spec fn ceil_cells(u: int) -> int {
    if u >= 0 {
        (u + SCALE - 1) / (SCALE as int)
    } else {
        -((-u) / (SCALE as int))
    }
}

/// Half of `n` cells, rounded up.
pub open spec fn half_up(n: int) -> int {
    if n >= 0 {
        (n + 1) / 2
    } else {
        -((-n) / 2)
    }
}

/// The number of whole cells that `u` units reach, rounded up.
pub fn cells_up(u: i64) -> (c: i32)
    requires
        -PROBE_LIMIT <= u <= PROBE_LIMIT,
    ensures
        c == ceil_cells(u as int),
        -750_000 <= c <= 750_000,
        -COORD_LIMIT <= u <= COORD_LIMIT ==> -250_000 <= c <= 250_000,
        u <= 0 ==> c <= 0,
        u >= 0 ==> c >= 0,
{
    if u >= 0 {
        ((u + SCALE - 1) / SCALE) as i32
    } else {
        let m: i64 = -u;
        let q: i64 = m / SCALE;
        (-q) as i32
    }
}

/// The point `pos` turned around the origin of the plane by the angle whose
/// fixed-point cosine and sine are `cos` and `sin`, each coordinate rounded
/// toward zero.
pub open spec fn rotated(pos: Vector2, cos: i64, sin: i64) -> Vector2 {
    Vector2 {
        x: trunc_div(cos * pos.x - sin * pos.y, SCALE as int) as i64,
        y: trunc_div(sin * pos.x + cos * pos.y, SCALE as int) as i64,
    }
}

/// Turns a point of the world around the origin of the plane by the angle
/// whose fixed-point cosine and sine are `cos` and `sin`.
pub fn rotate_point(pos: Vector2, cos: i64, sin: i64) -> (out: Vector2)
    requires
        pos.in_world(),
        -SCALE <= cos <= SCALE,
        -SCALE <= sin <= SCALE,
    ensures
        out == rotated(pos, cos, sin),
        -2 * COORD_LIMIT <= out.x <= 2 * COORD_LIMIT,
        -2 * COORD_LIMIT <= out.y <= 2 * COORD_LIMIT,
{
    let x: i64 = pos.x;
    let y: i64 = pos.y;
    assert(-250_000_000_000 <= cos * x <= 250_000_000_000 && -250_000_000_000 <= sin * y
        <= 250_000_000_000 && -250_000_000_000 <= sin * x <= 250_000_000_000
        && -250_000_000_000 <= cos * y <= 250_000_000_000) by (nonlinear_arith)
        requires
            -250_000_000 <= x <= 250_000_000,
            -250_000_000 <= y <= 250_000_000,
            -1000 <= cos <= 1000,
            -1000 <= sin <= 1000,
    ;
    let a: i64 = cos * x - sin * y;
    let b: i64 = sin * x + cos * y;
    let qa: i128 = div_toward_zero(a as i128, SCALE as i128);
    let qb: i128 = div_toward_zero(b as i128, SCALE as i128);
    Vector2 { x: qa as i64, y: qb as i64 }
}

/// The square of the distance from the point `p` to the segment from `a`
/// to `b`, as a fraction with a positive denominator: the square of the
/// distance to `a` where `p` projects before it, to `b` where `p` projects
/// behind it, and to the line through both in between.
pub open spec fn segment_squared(p: SpaceVector, a: SpaceVector, b: SpaceVector) -> (int, int) {
    let ab = b.minus(a);
    let ac = p.minus(a);
    let bp = p.minus(b);
    if ac.dot(ab) <= 0 {
        (ac.norm_squared(), 1)
    } else if bp.dot(ab) >= 0 {
        (bp.norm_squared(), 1)
    } else {
        (ab.cross(ac).norm_squared(), ab.norm_squared())
    }
}

/// The fraction `x` is less than the fraction `y`; both have positive
/// denominators.
pub open spec fn fraction_less(x: (int, int), y: (int, int)) -> bool {
    x.0 * y.1 < y.0 * x.1
}

/// The distance, rounded down to whole units, from the point `p` to the
/// segment from `a` to `b`.
pub open spec fn segment_distance(p: SpaceVector, a: SpaceVector, b: SpaceVector) -> int {
    floor_sqrt(segment_squared(p, a, b).0 / segment_squared(p, a, b).1)
}

/// What is less than a fraction is less than all that the fraction does
/// not exceed.
pub proof fn lemma_fraction_less_transitive(a: (int, int), b: (int, int), c: (int, int))
    requires
        a.1 > 0,
        b.1 > 0,
        c.1 > 0,
        fraction_less(a, b),
        !fraction_less(c, b),
    ensures
        fraction_less(a, c),
{
    let (a0, a1, b0, b1, c0, c1) = (a.0, a.1, b.0, b.1, c.0, c.1);
    assert((a0 * b1) * c1 < (b0 * a1) * c1) by (nonlinear_arith)
        requires
            a0 * b1 < b0 * a1,
            c1 > 0,
    ;
    assert((b0 * c1) * a1 <= (c0 * b1) * a1) by (nonlinear_arith)
        requires
            b0 * c1 <= c0 * b1,
            a1 > 0,
    ;
    assert((a0 * b1) * c1 == (a0 * c1) * b1 && (b0 * a1) * c1 == (b0 * c1) * a1 && (c0 * b1) * a1
        == (c0 * a1) * b1) by (nonlinear_arith);
    assert(a0 * c1 < c0 * a1) by (nonlinear_arith)
        requires
            (a0 * c1) * b1 < (c0 * a1) * b1,
            b1 > 0,
    ;
}

/// Two fractions compare as their whole parts do and, where these are
/// equal, as their remainders do, each over the denominator of the other.
pub proof fn lemma_fraction_less_by_parts(n1: int, d1: int, n2: int, d2: int)
    requires
        n1 >= 0,
        n2 >= 0,
        d1 > 0,
        d2 > 0,
    ensures
        fraction_less((n1, d1), (n2, d2)) <==> (n1 / d1 < n2 / d2 || (n1 / d1 == n2 / d2 && (n1
            % d1) * d2 < (n2 % d2) * d1)),
{
    let (q1, r1, q2, r2) = (n1 / d1, n1 % d1, n2 / d2, n2 % d2);
    vstd::arithmetic::div_mod::lemma_fundamental_div_mod(n1, d1);
    vstd::arithmetic::div_mod::lemma_fundamental_div_mod(n2, d2);
    vstd::arithmetic::div_mod::lemma_mod_bound(n1, d1);
    vstd::arithmetic::div_mod::lemma_mod_bound(n2, d2);
    let whole = d1 * d2;
    assert(n1 * d2 == q1 * whole + r1 * d2 && n2 * d1 == q2 * whole + r2 * d1) by (nonlinear_arith)
        requires
            n1 == d1 * q1 + r1,
            n2 == d2 * q2 + r2,
            whole == d1 * d2,
    ;
    assert(0 <= r1 * d2 < whole && 0 <= r2 * d1 < whole && whole > 0) by (nonlinear_arith)
        requires
            0 <= r1 < d1,
            0 <= r2 < d2,
            whole == d1 * d2,
    ;
    if q1 < q2 {
        assert((q1 + 1) * whole <= q2 * whole) by (nonlinear_arith)
            requires
                q1 + 1 <= q2,
                whole > 0,
        ;
        assert((q1 + 1) * whole == q1 * whole + whole) by (nonlinear_arith);
    } else if q2 < q1 {
        assert((q2 + 1) * whole <= q1 * whole) by (nonlinear_arith)
            requires
                q2 + 1 <= q1,
                whole > 0,
        ;
        assert((q2 + 1) * whole == q2 * whole + whole) by (nonlinear_arith);
    }
}

/// Whether the fraction `x` is less than the fraction `y`.
pub fn is_fraction_less(x: (u128, u64), y: (u128, u64)) -> (r: bool)
    requires
        0 < x.1 <= 4_000_000_000_000_000_000,
        0 < y.1 <= 4_000_000_000_000_000_000,
    ensures
        r == fraction_less((x.0 as int, x.1 as int), (y.0 as int, y.1 as int)),
{
    proof {
        lemma_fraction_less_by_parts(x.0 as int, x.1 as int, y.0 as int, y.1 as int);
    }
    let d1: u128 = x.1 as u128;
    let d2: u128 = y.1 as u128;
    let q1: u128 = x.0 / d1;
    let q2: u128 = y.0 / d2;
    if q1 != q2 {
        return q1 < q2;
    }
    let r1: u128 = x.0 % d1;
    let r2: u128 = y.0 % d2;
    assert(r1 * d2 <= 16_000_000_000_000_000_000_000_000_000_000_000_000 && r2 * d1
        <= 16_000_000_000_000_000_000_000_000_000_000_000_000) by (nonlinear_arith)
        requires
            0 <= r1 < d1 <= 4_000_000_000_000_000_000,
            0 <= r2 < d2 <= 4_000_000_000_000_000_000,
    ;
    r1 * d2 < r2 * d1
}

/// The square of the distance from `pos` to the segment from `line_start`
/// to `line_end`, as a fraction.
pub fn squared_dist_to_line(pos: Vector3, line_start: Vector3, line_end: Vector3) -> (r: (
    u128,
    u64,
))
    requires
        pos.in_reach(),
        line_start.in_world(),
        line_end.in_world(),
    ensures
        (r.0 as int, r.1 as int) == segment_squared(pos@, line_start@, line_end@),
        0 < r.1 <= 4_000_000_000_000_000_000,
        r.0 <= 12_000_000_000_000_000_000_000_000_000_000_000_000,
{
    let abx: i64 = line_end.x - line_start.x;
    let aby: i64 = line_end.y - line_start.y;
    let abz: i64 = line_end.z - line_start.z;
    let acx: i64 = pos.x - line_start.x;
    let acy: i64 = pos.y - line_start.y;
    let acz: i64 = pos.z - line_start.z;
    proof {
        lemma_product_bound(acx as int, abx as int);
        lemma_product_bound(acy as int, aby as int);
        lemma_product_bound(acz as int, abz as int);
    }
    if acx * abx + acy * aby + acz * abz <= 0 {
        return (pos.distance_squared(line_start) as u128, 1);
    }
    let bpx: i64 = pos.x - line_end.x;
    let bpy: i64 = pos.y - line_end.y;
    let bpz: i64 = pos.z - line_end.z;
    proof {
        lemma_product_bound(bpx as int, abx as int);
        lemma_product_bound(bpy as int, aby as int);
        lemma_product_bound(bpz as int, abz as int);
    }
    if bpx * abx + bpy * aby + bpz * abz >= 0 {
        return (pos.distance_squared(line_end) as u128, 1);
    }
    proof {
        lemma_product_bound(acz as int, aby as int);
        lemma_product_bound(acy as int, abz as int);
        lemma_product_bound(acx as int, abz as int);
        lemma_product_bound(acz as int, abx as int);
        lemma_product_bound(acy as int, abx as int);
        lemma_product_bound(acx as int, aby as int);
        lemma_product_bound(abx as int, abx as int);
        lemma_product_bound(aby as int, aby as int);
        lemma_product_bound(abz as int, abz as int);
    }
    let cx: i128 = (aby * acz - abz * acy) as i128;
    let cy: i128 = (abz * acx - abx * acz) as i128;
    let cz: i128 = (abx * acy - aby * acx) as i128;
    proof {
        lemma_square_bound(cx as int);
        lemma_square_bound(cy as int);
        lemma_square_bound(cz as int);
    }
    let cross_squared: i128 = cx * cx + cy * cy + cz * cz;
    let ab_squared: i64 = abx * abx + aby * aby + abz * abz;
    assert(ab_squared > 0) by (nonlinear_arith)
        requires
            ab_squared == abx * abx + aby * aby + abz * abz,
            acx * abx + acy * aby + acz * abz > 0,
    ;
    (cross_squared as u128, ab_squared as u64)
}

/// The distance, rounded down to whole units, from `pos` to the segment
/// from `line_start` to `line_end`.
pub fn dist_to_line(pos: Vector3, line_start: Vector3, line_end: Vector3) -> (d: i64)
    requires
        pos.in_reach(),
        line_start.in_world(),
        line_end.in_world(),
    ensures
        d == segment_distance(pos@, line_start@, line_end@),
        0 <= d < i64::MAX,
{
    let squared = squared_dist_to_line(pos, line_start, line_end);
    root_of_fraction(squared)
}

/// The square root of a fraction, rounded down to a whole number.
pub fn root_of_fraction(x: (u128, u64)) -> (r: i64)
    requires
        0 < x.1,
        x.0 <= 12_000_000_000_000_000_000_000_000_000_000_000_000,
    ensures
        r == floor_sqrt(x.0 as int / x.1 as int),
        0 <= r < i64::MAX,
{
    let quotient: u128 = x.0 / x.1 as u128;
    assert(quotient <= x.0) by (nonlinear_arith)
        requires
            quotient == x.0 as int / x.1 as int,
            x.0 >= 0,
            x.1 > 0,
    ;
    let r: u64 = isqrt(quotient);
    assert(r < 4_000_000_000_000_000_000) by (nonlinear_arith)
        requires
            r * r <= quotient,
            quotient <= 12_000_000_000_000_000_000_000_000_000_000_000_000,
    ;
    r as i64
}

/// The product of two differences of coordinates fits 64 bits with room
/// to spare.
proof fn lemma_product_bound(a: int, b: int)
    requires
        -1_000_000_000 <= a <= 1_000_000_000,
        -1_000_000_000 <= b <= 1_000_000_000,
    ensures
        -1_000_000_000_000_000_000 <= a * b <= 1_000_000_000_000_000_000,
        a * a >= 0,
{
    assert(-1_000_000_000_000_000_000 <= a * b <= 1_000_000_000_000_000_000 && a * a >= 0)
        by (nonlinear_arith)
        requires
            -1_000_000_000 <= a <= 1_000_000_000,
            -1_000_000_000 <= b <= 1_000_000_000,
    ;
}

/// The square of a coordinate of a cross product fits 128 bits with room
/// to spare.
proof fn lemma_square_bound(c: int)
    requires
        -2_000_000_000_000_000_000 <= c <= 2_000_000_000_000_000_000,
    ensures
        0 <= c * c <= 4_000_000_000_000_000_000_000_000_000_000_000_000,
{
    assert(0 <= c * c <= 4_000_000_000_000_000_000_000_000_000_000_000_000) by (nonlinear_arith)
        requires
            -2_000_000_000_000_000_000 <= c <= 2_000_000_000_000_000_000,
    ;
}

} // verus!
