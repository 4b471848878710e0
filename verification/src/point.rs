//! Lattice points and the displacements between them.
//!
//! Coordinates are 32-bit integers; every derived quantity (differences,
//! squared lengths) is computed in a wider type, so no operation here can
//! overflow and squared distances are exact.

use vstd::prelude::*;

verus! {

/// A point of the three-dimensional integer lattice.
#[derive(Clone, Copy, Debug, PartialEq, Eq, Hash, Structural)]
pub struct Point3 {
    pub x: i32,
    pub y: i32,
    pub z: i32,
}

/// A displacement between two points, or any other triple of axis lengths.
#[derive(Clone, Copy, Debug, PartialEq, Eq, Hash, Structural)]
pub struct Vec3 {
    pub x: i64,
    pub y: i64,
    pub z: i64,
}

/// The square of a bounded integer is bounded by the square of the bound.
pub proof fn lemma_square_bound(x: int, bound: int)
    by (nonlinear_arith)
    requires
        -bound <= x <= bound,
    ensures
        0 <= x * x <= bound * bound,
{
}

/// Squares grow with the magnitude of what is squared.
pub proof fn lemma_square_monotone(x: int, y: int)
    by (nonlinear_arith)
    requires
        0 <= x <= y,
    ensures
        x * x <= y * y,
{
}

/// `x * x`, exact for every 64-bit `x`.
pub fn square(x: i64) -> (r: u128)
    ensures
        r == x * x,
{
    let wide: i128 = x as i128;
    let magnitude: u128 = if wide >= 0 {
        wide as u128
    } else {
        (-wide) as u128
    };
    proof {
        lemma_square_bound(x as int, 0x8000_0000_0000_0000);
        assert(magnitude * magnitude == x * x) by (nonlinear_arith)
            requires
                magnitude == x || magnitude == -x,
        ;
    }
    magnitude * magnitude
}

impl Vec3 {
    pub fn new(x: i64, y: i64, z: i64) -> (r: Vec3)
        ensures
            r == (Vec3 { x, y, z }),
    {
        Vec3 { x, y, z }
    }

    /// The squared Euclidean length, as a mathematical integer.
    pub open spec fn spec_norm_squared(self) -> int {
        self.x * self.x + self.y * self.y + self.z * self.z
    }

    /// The squared Euclidean length. It fits in 128 bits whatever the components are.
    pub fn norm_squared(&self) -> (r: u128)
        ensures
            r == self.spec_norm_squared(),
    {
        let xx: u128 = square(self.x);
        let yy: u128 = square(self.y);
        let zz: u128 = square(self.z);
        proof {
            lemma_square_bound(self.x as int, 0x8000_0000_0000_0000);
            lemma_square_bound(self.y as int, 0x8000_0000_0000_0000);
            lemma_square_bound(self.z as int, 0x8000_0000_0000_0000);
        }
        xx + yy + zz
    }
}

/// The midpoint of two coordinates, rounded up where it falls between lattice lines.
pub open spec fn spec_midpoint_coord(a: int, b: int) -> int {
    (a + b + 1) / 2
}

/// The rounded-up midpoint lies strictly above the smaller coordinate and not
/// above the larger, so a `<` test against it tells two distinct coordinates apart.
pub proof fn lemma_midpoint_coord_separates(a: int, b: int)
    ensures
        a < b ==> a < spec_midpoint_coord(a, b) <= b,
        b < a ==> b < spec_midpoint_coord(a, b) <= a,
        a == b ==> spec_midpoint_coord(a, b) == a,
{
}

fn midpoint_coord(a: i32, b: i32) -> (r: i32)
    ensures
        r == spec_midpoint_coord(a as int, b as int),
{
    // Shifted by 2^32 so that the division only ever sees a non-negative number.
    let shifted: i64 = a as i64 + b as i64 + 1 + 0x1_0000_0000;
    let half: i64 = shifted / 2 - 0x8000_0000;
    half as i32
}

impl Point3 {
    pub fn new(x: i32, y: i32, z: i32) -> (r: Point3)
        ensures
            r == (Point3 { x, y, z }),
    {
        Point3 { x, y, z }
    }

    pub fn x(&self) -> (r: i32)
        ensures
            r == self.x,
    {
        self.x
    }

    pub fn y(&self) -> (r: i32)
        ensures
            r == self.y,
    {
        self.y
    }

    pub fn z(&self) -> (r: i32)
        ensures
            r == self.z,
    {
        self.z
    }

    /// The displacement that leads from `from` to `self`.
    pub open spec fn spec_displacement(self, from: Point3) -> Vec3 {
        Vec3 {
            x: (self.x - from.x) as i64,
            y: (self.y - from.y) as i64,
            z: (self.z - from.z) as i64,
        }
    }

    /// The displacement that leads from `from` to `self`.
    pub fn displacement(&self, from: &Point3) -> (r: Vec3)
        ensures
            r == self.spec_displacement(*from),
            r.x == self.x - from.x,
            r.y == self.y - from.y,
            r.z == self.z - from.z,
    {
        Vec3 {
            x: self.x as i64 - from.x as i64,
            y: self.y as i64 - from.y as i64,
            z: self.z as i64 - from.z as i64,
        }
    }

    /// The squared Euclidean distance between two points.
    pub open spec fn dist2(self, other: Point3) -> int {
        (self.x - other.x) * (self.x - other.x) + (self.y - other.y) * (self.y - other.y) + (
        self.z - other.z) * (self.z - other.z)
    }

    /// The squared Euclidean distance between two points.
    pub fn distance_squared(&self, other: &Point3) -> (r: u128)
        ensures
            r == self.dist2(*other),
    {
        self.displacement(other).norm_squared()
    }

    /// The midpoint of two points, each coordinate rounded up.
    pub open spec fn spec_midpoint(self, other: Point3) -> Point3 {
        Point3 {
            x: spec_midpoint_coord(self.x as int, other.x as int) as i32,
            y: spec_midpoint_coord(self.y as int, other.y as int) as i32,
            z: spec_midpoint_coord(self.z as int, other.z as int) as i32,
        }
    }

    /// The midpoint of two points, each coordinate rounded up.
    pub fn midpoint(&self, other: &Point3) -> (r: Point3)
        ensures
            r == self.spec_midpoint(*other),
            r.x == spec_midpoint_coord(self.x as int, other.x as int),
            r.y == spec_midpoint_coord(self.y as int, other.y as int),
            r.z == spec_midpoint_coord(self.z as int, other.z as int),
    {
        Point3 {
            x: midpoint_coord(self.x, other.x),
            y: midpoint_coord(self.y, other.y),
            z: midpoint_coord(self.z, other.z),
        }
    }
}

/// The octant of the space around `split` in which `p` lies: bit 0 is set where
/// `p.x < split.x`, bit 1 where `p.y < split.y`, bit 2 where `p.z < split.z`.
pub open spec fn spec_octant_index(p: Point3, split: Point3) -> int {
    (if p.x < split.x { 1int } else { 0int }) + (if p.y < split.y { 2int } else { 0int }) + (if p.z
        < split.z { 4int } else { 0int })
}

/// The octant of the space around `split` in which `p` lies.
pub fn octant_index(p: &Point3, split: &Point3) -> (r: usize)
    ensures
        r == spec_octant_index(*p, *split),
        r < 8,
{
    let bx: usize = if p.x < split.x { 1 } else { 0 };
    let by: usize = if p.y < split.y { 2 } else { 0 };
    let bz: usize = if p.z < split.z { 4 } else { 0 };
    bx + by + bz
}

/// Two distinct points never share an octant around their rounded-up midpoint.
pub proof fn lemma_midpoint_separates(p: Point3, q: Point3)
    requires
        p != q,
    ensures
        spec_octant_index(p, p.spec_midpoint(q)) != spec_octant_index(q, p.spec_midpoint(q)),
{
    lemma_midpoint_coord_separates(p.x as int, q.x as int);
    lemma_midpoint_coord_separates(p.y as int, q.y as int);
    lemma_midpoint_coord_separates(p.z as int, q.z as int);
}

/// `p` lies within `radius` of `pos`, the distance `radius` itself included.
pub open spec fn in_reach(p: Point3, pos: Point3, radius: int) -> bool {
    p.dist2(pos) <= radius * radius
}

/// Two points are at distance zero exactly when they are the same point.
pub proof fn lemma_dist2_zero(p: Point3, q: Point3)
    ensures
        p.dist2(q) >= 0,
        p.dist2(q) == 0 <==> p == q,
{
    let dx: int = p.x - q.x;
    let dy: int = p.y - q.y;
    let dz: int = p.z - q.z;
    assert(dx * dx >= 0 && (dx * dx == 0 <==> dx == 0)) by (nonlinear_arith);
    assert(dy * dy >= 0 && (dy * dy == 0 <==> dy == 0)) by (nonlinear_arith);
    assert(dz * dz >= 0 && (dz * dz == 0 <==> dz == 0)) by (nonlinear_arith);
}

} // verus!
