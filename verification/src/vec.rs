//! Fixed-point vectors: positions and directions in units, `SCALE` units to
//! one voxel edge, and the integer grid coordinates of voxels.

use crate::math_utils::{
    clamp, clamp_to, div_toward_zero, floor_sqrt, is_floor_sqrt, is_root_below, is_root_within,
    isqrt, lemma_floor_sqrt_dominates, lemma_floor_sqrt_exists, root_below, root_within,
    trunc_div,
};
use vstd::prelude::*;

verus! {

/// Units per voxel edge; also the length of a unit direction.
pub const SCALE: i64 = 1000;

/// Every position of the world has its coordinates between `-COORD_LIMIT`
/// and `COORD_LIMIT`.
pub const COORD_LIMIT: i64 = 250_000_000;

/// Every point from which a distance into the world is measured has its
/// coordinates between `-PROBE_LIMIT` and `PROBE_LIMIT`.
pub const PROBE_LIMIT: i64 = 750_000_000;

/// The largest coordinate magnitude of a vector that can be normalized.
pub const NORMALIZE_LIMIT: i64 = 1_000_000_000_000_000;

/// A vector of the unbounded integer space: the model of `Vector3`.
pub struct SpaceVector {
    pub x: int,
    pub y: int,
    pub z: int,
}

impl SpaceVector {
    pub open spec fn zero() -> SpaceVector {
        SpaceVector { x: 0, y: 0, z: 0 }
    }

    pub open spec fn plus(self, other: SpaceVector) -> SpaceVector {
        SpaceVector { x: self.x + other.x, y: self.y + other.y, z: self.z + other.z }
    }

    pub open spec fn minus(self, other: SpaceVector) -> SpaceVector {
        SpaceVector { x: self.x - other.x, y: self.y - other.y, z: self.z - other.z }
    }

    pub open spec fn dot(self, other: SpaceVector) -> int {
        self.x * other.x + self.y * other.y + self.z * other.z
    }

    pub open spec fn cross(self, other: SpaceVector) -> SpaceVector {
        SpaceVector {
            x: self.y * other.z - self.z * other.y,
            y: self.z * other.x - self.x * other.z,
            z: self.x * other.y - self.y * other.x,
        }
    }

    /// The square of the Euclidean length.
    pub open spec fn norm_squared(self) -> int {
        self.dot(self)
    }

    /// The vector times the fixed-point `factor`, each coordinate rounded
    /// toward zero.
    pub open spec fn stretched(self, factor: int) -> SpaceVector {
        SpaceVector {
            x: trunc_div(self.x * factor, SCALE as int),
            y: trunc_div(self.y * factor, SCALE as int),
            z: trunc_div(self.z * factor, SCALE as int),
        }
    }

    /// The length in thousandths of a unit, rounded down.
    pub open spec fn fine_length(self) -> int {
        floor_sqrt(self.norm_squared() * SCALE * SCALE)
    }

    /// The vector of length `SCALE` in the same direction: each coordinate
    /// divided by the length, as a fixed-point number rounded toward
    /// zero. The zero vector stays the zero vector.
    pub open spec fn normalized(self) -> SpaceVector {
        let len = self.fine_length();
        if len == 0 {
            SpaceVector::zero()
        } else {
            SpaceVector {
                x: trunc_div(self.x * SCALE * SCALE, len),
                y: trunc_div(self.y * SCALE * SCALE, len),
                z: trunc_div(self.z * SCALE * SCALE, len),
            }
        }
    }

    /// No coordinate exceeds `limit` in magnitude.
    pub open spec fn bounded(self, limit: int) -> bool {
        &&& -limit <= self.x <= limit
        &&& -limit <= self.y <= limit
        &&& -limit <= self.z <= limit
    }

    /// Each coordinate confined to the interval from `-limit` to `limit`.
    pub open spec fn clamped(self, limit: int) -> SpaceVector {
        SpaceVector {
            x: clamp(self.x, -limit, limit),
            y: clamp(self.y, -limit, limit),
            z: clamp(self.z, -limit, limit),
        }
    }

    /// Where a point at `self` arrives after `len` units along the
    /// fixed-point direction `dir`, stopped at the walls of the world.
    pub open spec fn advanced(self, dir: SpaceVector, len: int) -> SpaceVector {
        self.plus(dir.stretched(len)).clamped(COORD_LIMIT as int)
    }

    /// The vector with machine coordinates; meaningful where they fit.
    pub open spec fn narrowed(self) -> Vector3 {
        Vector3 { x: self.x as i64, y: self.y as i64, z: self.z as i64 }
    }
}

/// A position or direction in units.
#[derive(Clone, Copy, Debug, PartialEq, Eq, Structural)]
pub struct Vector3 {
    pub x: i64,
    pub y: i64,
    pub z: i64,
}

impl View for Vector3 {
    type V = SpaceVector;

    open spec fn view(&self) -> SpaceVector {
        SpaceVector { x: self.x as int, y: self.y as int, z: self.z as int }
    }
}

/// A coordinate that the length dominates stays within the unit length
/// when it is divided by the length.
pub proof fn lemma_unit_coordinate(c: int, len: int)
    requires
        len > 0,
        -len <= c <= len,
    ensures
        -SCALE <= trunc_div(c * SCALE, len) <= SCALE,
{
    if c >= 0 {
        assert(0 <= (c * 1000) / len <= 1000) by (nonlinear_arith)
            requires
                0 <= c <= len,
                len > 0,
        ;
    } else {
        assert(0 <= ((-c) * 1000) / len <= 1000) by (nonlinear_arith)
            requires
                0 <= -c <= len,
                len > 0,
        ;
        assert(-(c * 1000) == (-c) * 1000) by (nonlinear_arith);
    }
}

/// A normalized vector has every coordinate within the unit length.
pub proof fn lemma_normalized_bounded(v: SpaceVector)
    ensures
        v.normalized().bounded(SCALE as int),
{
    let n = v.norm_squared() * SCALE * SCALE;
    let len = v.fine_length();
    let (x, y, z) = (v.x * SCALE, v.y * SCALE, v.z * SCALE);
    assert(x * x + y * y + z * z == n && x * x >= 0 && y * y >= 0 && z * z >= 0)
        by (nonlinear_arith)
        requires
            x == v.x * 1000,
            y == v.y * 1000,
            z == v.z * 1000,
            n == (v.x * v.x + v.y * v.y + v.z * v.z) * 1000 * 1000,
    ;
    if len != 0 {
        lemma_floor_sqrt_exists(n);
        lemma_floor_sqrt_dominates(n, len, x);
        lemma_floor_sqrt_dominates(n, len, y);
        lemma_floor_sqrt_dominates(n, len, z);
        lemma_unit_coordinate(x, len);
        lemma_unit_coordinate(y, len);
        lemma_unit_coordinate(z, len);
    }
}

impl Vector3 {
    /// The position lies in the world.
    pub open spec fn in_world(self) -> bool {
        self@.bounded(COORD_LIMIT as int)
    }

    /// A distance from the point into the world can be measured.
    pub open spec fn in_reach(self) -> bool {
        self@.bounded(PROBE_LIMIT as int)
    }

    /// The square of the Euclidean distance to `other`.
    pub open spec fn dist_sq(self, other: Vector3) -> int {
        self@.minus(other@).norm_squared()
    }

    /// The point is closer to `other` than `limit`.
    pub open spec fn closer_than(self, other: Vector3, limit: int) -> bool {
        root_below(self.dist_sq(other), limit)
    }

    /// The point is at most `limit` from `other`.
    pub open spec fn within(self, other: Vector3, limit: int) -> bool {
        root_within(self.dist_sq(other), limit)
    }

    /// The Euclidean distance to `other`, rounded down to whole units. Being
    /// a whole number, it is below a whole limit exactly when the distance
    /// itself is; it may be at most a limit that the distance exceeds by
    /// less than a unit.
    pub open spec fn dist(self, other: Vector3) -> int {
        floor_sqrt(self@.minus(other@).norm_squared())
    }

    /// The vector with the given coordinates.
    pub fn new(x: i64, y: i64, z: i64) -> (r: Self)
        ensures
            r == (Vector3 { x, y, z }),
    {
        Vector3 { x, y, z }
    }

    /// The origin.
    pub fn zero() -> (r: Self)
        ensures
            r == (Vector3 { x: 0, y: 0, z: 0 }),
            r@ == SpaceVector::zero(),
    {
        Vector3 { x: 0, y: 0, z: 0 }
    }

    /// The sum, where it fits the coordinates.
    pub fn add(self, rhs: Self) -> (r: Self)
        requires
            self@.plus(rhs@).bounded(i64::MAX as int),
        ensures
            r@ == self@.plus(rhs@),
    {
        Vector3 { x: self.x + rhs.x, y: self.y + rhs.y, z: self.z + rhs.z }
    }

    /// The difference, where it fits the coordinates.
    pub fn sub(self, rhs: Self) -> (r: Self)
        requires
            self@.minus(rhs@).bounded(i64::MAX as int),
        ensures
            r@ == self@.minus(rhs@),
    {
        Vector3 { x: self.x - rhs.x, y: self.y - rhs.y, z: self.z - rhs.z }
    }

    /// The vector times the fixed-point `factor`, where it fits the
    /// coordinates.
    pub fn mul(self, factor: i64) -> (r: Self)
        requires
            self@.stretched(factor as int).bounded(i64::MAX as int),
        ensures
            r@ == self@.stretched(factor as int),
    {
        Vector3 {
            x: stretch(self.x, factor) as i64,
            y: stretch(self.y, factor) as i64,
            z: stretch(self.z, factor) as i64,
        }
    }

    /// The square of the Euclidean distance from a point to a position of
    /// the world.
    pub fn distance_squared(self, other: Self) -> (d: i64)
        requires
            self.in_reach(),
            other.in_world(),
        ensures
            d == self@.minus(other@).norm_squared(),
            0 <= d <= 3_000_000_000_000_000_000,
    {
        let dx: i64 = self.x - other.x;
        let dy: i64 = self.y - other.y;
        let dz: i64 = self.z - other.z;
        assert(0 <= dx * dx <= 1_000_000_000_000_000_000) by (nonlinear_arith)
            requires
                -1_000_000_000 <= dx <= 1_000_000_000,
        ;
        assert(0 <= dy * dy <= 1_000_000_000_000_000_000) by (nonlinear_arith)
            requires
                -1_000_000_000 <= dy <= 1_000_000_000,
        ;
        assert(0 <= dz * dz <= 1_000_000_000_000_000_000) by (nonlinear_arith)
            requires
                -1_000_000_000 <= dz <= 1_000_000_000,
        ;
        dx * dx + dy * dy + dz * dz
    }

    /// Whether the point is closer than `limit` to a position of the
    /// world.
    pub fn is_closer_than(self, other: Self, limit: i64) -> (r: bool)
        requires
            self.in_reach(),
            other.in_world(),
        ensures
            r == self.closer_than(other, limit as int),
    {
        is_root_below(self.distance_squared(other), limit)
    }

    /// Whether the point is at most `limit` from a position of the world.
    pub fn is_within(self, other: Self, limit: i64) -> (r: bool)
        requires
            self.in_reach(),
            other.in_world(),
        ensures
            r == self.within(other, limit as int),
    {
        is_root_within(self.distance_squared(other), limit)
    }

    /// The Euclidean distance from a point to a position of the world,
    /// rounded down to whole units.
    pub fn distance(self, other: Self) -> (d: i64)
        requires
            self.in_reach(),
            other.in_world(),
        ensures
            d == self.dist(other),
            is_floor_sqrt(self@.minus(other@).norm_squared(), d as int),
            0 <= d <= 3_000_000_000,
    {
        let sq: i64 = self.distance_squared(other);
        let r: u64 = isqrt(sq as u128);
        assert(r <= 3_000_000_000) by (nonlinear_arith)
            requires
                r * r <= 3_000_000_000_000_000_000,
        ;
        r as i64
    }

    /// The vector of length `SCALE` in the same direction; the zero vector
    /// is returned as it is.
    pub fn normalize(self) -> (r: Self)
        requires
            self@.bounded(NORMALIZE_LIMIT as int),
        ensures
            r@ == self@.normalized(),
            r@.bounded(SCALE as int),
    {
        let x: i128 = self.x as i128;
        let y: i128 = self.y as i128;
        let z: i128 = self.z as i128;
        assert(0 <= x * x <= 1_000_000_000_000_000_000_000_000_000_000) by (nonlinear_arith)
            requires
                -1_000_000_000_000_000 <= x <= 1_000_000_000_000_000,
        ;
        assert(0 <= y * y <= 1_000_000_000_000_000_000_000_000_000_000) by (nonlinear_arith)
            requires
                -1_000_000_000_000_000 <= y <= 1_000_000_000_000_000,
        ;
        assert(0 <= z * z <= 1_000_000_000_000_000_000_000_000_000_000) by (nonlinear_arith)
            requires
                -1_000_000_000_000_000 <= z <= 1_000_000_000_000_000,
        ;
        let s: i128 = SCALE as i128;
        let n: i128 = (x * x + y * y + z * z) * s * s;
        let len: u64 = isqrt(n as u128);
        proof {
            lemma_normalized_bounded(self@);
        }
        if len == 0 {
            Vector3 { x: 0, y: 0, z: 0 }
        } else {
            let l: i128 = len as i128;
            let qx: i128 = div_toward_zero(x * s * s, l);
            let qy: i128 = div_toward_zero(y * s * s, l);
            let qz: i128 = div_toward_zero(z * s * s, l);
            Vector3 { x: qx as i64, y: qy as i64, z: qz as i64 }
        }
    }

    /// Where a point at `self` arrives after `len` units along the
    /// fixed-point direction `dir`, stopped at the walls of the world.
    pub open spec fn advanced_spec(self, dir: Vector3, len: i64) -> Vector3 {
        self@.advanced(dir@, len as int).narrowed()
    }

    /// Where a point at `self` arrives after `len` units along the
    /// fixed-point direction `dir`, stopped at the walls of the world.
    pub fn advanced(self, dir: Self, len: i64) -> (r: Self)
        ensures
            r == self.advanced_spec(dir, len),
            r@ == self@.advanced(dir@, len as int),
            r.in_world(),
    {
        let x: i128 = self.x as i128 + stretch(dir.x, len);
        let y: i128 = self.y as i128 + stretch(dir.y, len);
        let z: i128 = self.z as i128 + stretch(dir.z, len);
        Vector3 {
            x: clamp_to(x, -COORD_LIMIT, COORD_LIMIT),
            y: clamp_to(y, -COORD_LIMIT, COORD_LIMIT),
            z: clamp_to(z, -COORD_LIMIT, COORD_LIMIT),
        }
    }
}

/// One coordinate times a fixed-point factor, rounded toward zero.
pub fn stretch(c: i64, factor: i64) -> (q: i128)
    ensures
        q == trunc_div(c * factor, SCALE as int),
        -0x4000_0000_0000_0000_0000_0000_0000_0000 <= q,
        q <= 0x4000_0000_0000_0000_0000_0000_0000_0000,
{
    assert(-0x4000_0000_0000_0000_0000_0000_0000_0000 <= (c as int) * (factor as int)
        <= 0x4000_0000_0000_0000_0000_0000_0000_0000) by (nonlinear_arith)
        requires
            -0x8000_0000_0000_0000 <= c <= 0x7fff_ffff_ffff_ffff,
            -0x8000_0000_0000_0000 <= factor <= 0x7fff_ffff_ffff_ffff,
    ;
    let p: i128 = (c as i128) * (factor as i128);
    div_toward_zero(p, SCALE as i128)
}

/// A point or direction of the horizontal plane, in units.
#[derive(Clone, Copy, Debug, PartialEq, Eq, Structural)]
pub struct Vector2 {
    pub x: i64,
    pub y: i64,
}

impl Vector2 {
    /// The vector with the given coordinates.
    pub fn new(x: i64, y: i64) -> (r: Self)
        ensures
            r == (Vector2 { x, y }),
    {
        Vector2 { x, y }
    }

    /// The origin of the plane.
    pub fn zero() -> (r: Self)
        ensures
            r == (Vector2 { x: 0, y: 0 }),
    {
        Vector2 { x: 0, y: 0 }
    }

    /// Both coordinates lie in the world.
    pub open spec fn in_world(self) -> bool {
        &&& -COORD_LIMIT <= self.x <= COORD_LIMIT
        &&& -COORD_LIMIT <= self.y <= COORD_LIMIT
    }

    /// The vector as one of space that lies in the plane.
    pub open spec fn flat(self) -> SpaceVector {
        SpaceVector { x: self.x as int, y: self.y as int, z: 0 }
    }

    /// The sum, where it fits the coordinates.
    pub fn add(self, rhs: Self) -> (r: Self)
        requires
            self.flat().plus(rhs.flat()).bounded(i64::MAX as int),
        ensures
            r.flat() == self.flat().plus(rhs.flat()),
    {
        Vector2 { x: self.x + rhs.x, y: self.y + rhs.y }
    }

    /// The difference, where it fits the coordinates.
    pub fn sub(self, rhs: Self) -> (r: Self)
        requires
            self.flat().minus(rhs.flat()).bounded(i64::MAX as int),
        ensures
            r.flat() == self.flat().minus(rhs.flat()),
    {
        Vector2 { x: self.x - rhs.x, y: self.y - rhs.y }
    }

    /// The vector times the fixed-point `factor`, where it fits the
    /// coordinates.
    pub fn mul(self, factor: i64) -> (r: Self)
        requires
            self.flat().stretched(factor as int).bounded(i64::MAX as int),
        ensures
            r.flat() == self.flat().stretched(factor as int),
    {
        Vector2 { x: stretch(self.x, factor) as i64, y: stretch(self.y, factor) as i64 }
    }

    /// The vector of length `SCALE` in the same direction; the zero vector
    /// is returned as it is.
    pub fn normalize(self) -> (r: Self)
        requires
            self.flat().bounded(NORMALIZE_LIMIT as int),
        ensures
            r.flat() == self.flat().normalized(),
            r.flat().bounded(SCALE as int),
    {
        let v = Vector3 { x: self.x, y: self.y, z: 0 }.normalize();
        assert(v.z == 0) by {
            let len = self.flat().fine_length();
            if len != 0 {
                assert(self.flat().norm_squared() * SCALE * SCALE >= 0) by (nonlinear_arith)
                    requires
                        self.flat().norm_squared() == self.x * self.x + self.y * self.y + 0 * 0,
                ;
                lemma_floor_sqrt_exists(self.flat().norm_squared() * SCALE * SCALE);
                assert(0int / len == 0) by (nonlinear_arith)
                    requires
                        len > 0,
                ;
            }
        }
        Vector2 { x: v.x, y: v.y }
    }

    /// The Euclidean distance to `other`, rounded down to whole units.
    pub open spec fn dist(self, other: Vector2) -> int {
        floor_sqrt(
            (self.x - other.x) * (self.x - other.x) + (self.y - other.y) * (self.y - other.y),
        )
    }

    /// The Euclidean distance between two points of the world, rounded
    /// down to whole units.
    pub fn distance(self, other: Self) -> (d: i64)
        requires
            self.in_world(),
            other.in_world(),
        ensures
            d == self.dist(other),
            0 <= d <= 1_000_000_000,
    {
        let x: i64 = self.x - other.x;
        let y: i64 = self.y - other.y;
        assert(0 <= x * x <= 250_000_000_000_000_000) by (nonlinear_arith)
            requires
                -500_000_000 <= x <= 500_000_000,
        ;
        assert(0 <= y * y <= 250_000_000_000_000_000) by (nonlinear_arith)
            requires
                -500_000_000 <= y <= 500_000_000,
        ;
        let n: i64 = x * x + y * y;
        let r: u64 = isqrt(n as u128);
        assert(r <= 1_000_000_000) by (nonlinear_arith)
            requires
                r * r <= 500_000_000_000_000_000,
        ;
        r as i64
    }
}

/// The integer grid coordinate of a voxel.
#[derive(Clone, Copy, Debug, PartialEq, Eq, Structural)]
pub struct IVector3 {
    pub x: i32,
    pub y: i32,
    pub z: i32,
}

impl IVector3 {
    /// The cell with the given coordinates.
    pub fn new(x: i32, y: i32, z: i32) -> (r: Self)
        ensures
            r == (IVector3 { x, y, z }),
    {
        IVector3 { x, y, z }
    }

    /// The position of the cell in units.
    pub open spec fn center(self) -> Vector3 {
        Vector3 {
            x: (self.x * SCALE) as i64,
            y: (self.y * SCALE) as i64,
            z: (self.z * SCALE) as i64,
        }
    }

    /// The position of the cell in units.
    pub fn to_position(self) -> (p: Vector3)
        ensures
            p == self.center(),
            p@ == (SpaceVector { x: self.x * SCALE, y: self.y * SCALE, z: self.z * SCALE }),
    {
        Vector3 {
            x: self.x as i64 * SCALE,
            y: self.y as i64 * SCALE,
            z: self.z as i64 * SCALE,
        }
    }
}

} // verus!
