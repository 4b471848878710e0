//! Axis-aligned boxes over the lattice.

use crate::point::{lemma_square_monotone, spec_octant_index, Point3, Vec3};
use vstd::prelude::*;

verus! {

/// An axis-aligned box, given by its smallest and its largest corner. Both
/// corners belong to the box.
#[derive(Clone, Copy, Debug, PartialEq, Eq, Hash, Structural)]
pub struct AABB {
    pub min: Point3,
    pub max: Point3,
}

/// How far the coordinate `c` lies outside the range `lo ..= hi`; zero inside it.
pub open spec fn spec_axis_gap(lo: int, hi: int, c: int) -> int {
    if c < lo {
        lo - c
    } else if c > hi {
        c - hi
    } else {
        0
    }
}

fn axis_gap(lo: i32, hi: i32, c: i32) -> (r: i64)
    ensures
        r == spec_axis_gap(lo as int, hi as int, c as int),
        0 <= r <= 0xffff_ffff,
{
    if c < lo {
        lo as i64 - c as i64
    } else if c > hi {
        c as i64 - hi as i64
    } else {
        0
    }
}

/// `floor(sum / 2)` for the sum of two coordinates.
fn half_floor(a: i32, b: i32) -> (r: i32)
    ensures
        r == (a + b) / 2,
{
    // Shifted by 2^32 so that the division only ever sees a non-negative number.
    let shifted: i64 = a as i64 + b as i64 + 0x1_0000_0000;
    let half: i64 = shifted / 2 - 0x8000_0000;
    half as i32
}

impl AABB {
    /// The box is in order: its smallest corner is nowhere above its largest.
    pub open spec fn wf(self) -> bool {
        self.min.x <= self.max.x && self.min.y <= self.max.y && self.min.z <= self.max.z
    }

    /// The sentinel that stands for "no box yet": it holds no point, and growing
    /// it by a point gives the box of that point alone.
    pub open spec fn spec_empty() -> AABB {
        AABB {
            min: Point3 { x: i32::MAX, y: i32::MAX, z: i32::MAX },
            max: Point3 { x: i32::MIN, y: i32::MIN, z: i32::MIN },
        }
    }

    /// `p` lies in the box, its faces included.
    pub open spec fn spec_contains(self, p: Point3) -> bool {
        &&& self.min.x <= p.x <= self.max.x
        &&& self.min.y <= p.y <= self.max.y
        &&& self.min.z <= p.z <= self.max.z
    }

    /// The edge lengths of the box.
    pub open spec fn spec_size(self) -> Vec3 {
        Vec3 {
            x: (self.max.x - self.min.x) as i64,
            y: (self.max.y - self.min.y) as i64,
            z: (self.max.z - self.min.z) as i64,
        }
    }

    /// The centre of the box, rounded down to the lattice.
    pub open spec fn spec_center(self) -> Point3 {
        Point3 {
            x: ((self.min.x + self.max.x) / 2) as i32,
            y: ((self.min.y + self.max.y) / 2) as i32,
            z: ((self.min.z + self.max.z) / 2) as i32,
        }
    }

    /// Corner `k` of the box: bit 0 of `k` picks the x coordinate of the largest
    /// corner over that of the smallest, bit 1 does so for y, bit 2 for z.
    pub open spec fn spec_corner(self, k: int) -> Point3 {
        Point3 {
            x: if k % 2 == 1 { self.max.x } else { self.min.x },
            y: if (k / 2) % 2 == 1 { self.max.y } else { self.min.y },
            z: if (k / 4) % 2 == 1 { self.max.z } else { self.min.z },
        }
    }

    /// The smallest box that holds `aabb` and `p`.
    pub open spec fn spec_grow(aabb: AABB, p: Point3) -> AABB {
        AABB {
            min: Point3 {
                x: if p.x < aabb.min.x { p.x } else { aabb.min.x },
                y: if p.y < aabb.min.y { p.y } else { aabb.min.y },
                z: if p.z < aabb.min.z { p.z } else { aabb.min.z },
            },
            max: Point3 {
                x: if p.x > aabb.max.x { p.x } else { aabb.max.x },
                y: if p.y > aabb.max.y { p.y } else { aabb.max.y },
                z: if p.z > aabb.max.z { p.z } else { aabb.max.z },
            },
        }
    }

    /// The squared distance from `p` to the nearest point of the box; zero for a
    /// point inside it.
    pub open spec fn spec_distance_squared_to(self, p: Point3) -> int {
        let gx = spec_axis_gap(self.min.x as int, self.max.x as int, p.x as int);
        let gy = spec_axis_gap(self.min.y as int, self.max.y as int, p.y as int);
        let gz = spec_axis_gap(self.min.z as int, self.max.z as int, p.z as int);
        gx * gx + gy * gy + gz * gz
    }

    /// The part of the box that lies in octant `index` around `split`: on each
    /// axis the half below `split` where the octant's bit is set, else the half
    /// from `split` upwards. Below the smallest coordinate there is nothing, so
    /// the half below it is cut where the range ends.
    pub open spec fn spec_octant(self, split: Point3, index: int) -> AABB {
        let below_x = index % 2 == 1;
        let below_y = (index / 2) % 2 == 1;
        let below_z = (index / 4) % 2 == 1;
        AABB {
            min: Point3 {
                x: spec_lower_end(self.min.x, split.x, below_x),
                y: spec_lower_end(self.min.y, split.y, below_y),
                z: spec_lower_end(self.min.z, split.z, below_z),
            },
            max: Point3 {
                x: spec_upper_end(self.max.x, split.x, below_x),
                y: spec_upper_end(self.max.y, split.y, below_y),
                z: spec_upper_end(self.max.z, split.z, below_z),
            },
        }
    }

    /// The box with `margin` added on every side, where that box has a place in
    /// the lattice.
    pub open spec fn spec_widened(self, margin: int) -> Option<AABB> {
        if i32::MIN <= self.min.x - margin && i32::MIN <= self.min.y - margin && i32::MIN
            <= self.min.z - margin && self.max.x + margin <= i32::MAX && self.max.y + margin
            <= i32::MAX && self.max.z + margin <= i32::MAX {
            Some(
                AABB {
                    min: Point3 {
                        x: (self.min.x - margin) as i32,
                        y: (self.min.y - margin) as i32,
                        z: (self.min.z - margin) as i32,
                    },
                    max: Point3 {
                        x: (self.max.x + margin) as i32,
                        y: (self.max.y + margin) as i32,
                        z: (self.max.z + margin) as i32,
                    },
                },
            )
        } else {
            None
        }
    }

    /// The box is the tight bound of the points in `s`: it holds them all, and on
    /// each of its six sides one of them lies. Of no points at all, the tight
    /// bound is the sentinel.
    pub open spec fn is_hull_of(self, s: Set<Point3>) -> bool {
        &&& (forall|p: Point3| !s.contains(p)) ==> self == AABB::spec_empty()
        &&& forall|p: Point3| s.contains(p) ==> self.spec_contains(p)
        &&& (exists|p: Point3| s.contains(p)) ==> {
            &&& exists|p: Point3| s.contains(p) && p.x == self.min.x
            &&& exists|p: Point3| s.contains(p) && p.y == self.min.y
            &&& exists|p: Point3| s.contains(p) && p.z == self.min.z
            &&& exists|p: Point3| s.contains(p) && p.x == self.max.x
            &&& exists|p: Point3| s.contains(p) && p.y == self.max.y
            &&& exists|p: Point3| s.contains(p) && p.z == self.max.z
        }
    }

    pub fn new(min: Point3, max: Point3) -> (r: AABB)
        ensures
            r.min == min,
            r.max == max,
    {
        AABB { min, max }
    }

    /// The sentinel for "no box yet".
    pub fn empty() -> (r: AABB)
        ensures
            r == AABB::spec_empty(),
            forall|p: Point3| !r.spec_contains(p),
    {
        AABB {
            min: Point3 { x: i32::MAX, y: i32::MAX, z: i32::MAX },
            max: Point3 { x: i32::MIN, y: i32::MIN, z: i32::MIN },
        }
    }

    /// The edge lengths of the box.
    pub fn size(&self) -> (r: Vec3)
        ensures
            r == self.spec_size(),
            r.x == self.max.x - self.min.x,
            r.y == self.max.y - self.min.y,
            r.z == self.max.z - self.min.z,
    {
        self.max.displacement(&self.min)
    }

    /// The centre of the box, rounded down to the lattice.
    pub fn center(&self) -> (r: Point3)
        ensures
            r == self.spec_center(),
            r.x == (self.min.x + self.max.x) / 2,
            r.y == (self.min.y + self.max.y) / 2,
            r.z == (self.min.z + self.max.z) / 2,
    {
        Point3 {
            x: half_floor(self.min.x, self.max.x),
            y: half_floor(self.min.y, self.max.y),
            z: half_floor(self.min.z, self.max.z),
        }
    }

    /// Whether `p` lies in the box, its faces included.
    pub fn contains(&self, p: Point3) -> (r: bool)
        ensures
            r == self.spec_contains(p),
    {
        self.min.x <= p.x && p.x <= self.max.x && self.min.y <= p.y && p.y <= self.max.y
            && self.min.z <= p.z && p.z <= self.max.z
    }

    /// The eight corners of the box, corner `k` at index `k`.
    pub fn get_points(&self) -> (r: [Point3; 8])
        ensures
            forall|k: int| 0 <= k < 8 ==> r[k] == self.spec_corner(k),
    {
        let lo: Point3 = self.min;
        let hi: Point3 = self.max;
        [
            Point3 { x: lo.x, y: lo.y, z: lo.z },
            Point3 { x: hi.x, y: lo.y, z: lo.z },
            Point3 { x: lo.x, y: hi.y, z: lo.z },
            Point3 { x: hi.x, y: hi.y, z: lo.z },
            Point3 { x: lo.x, y: lo.y, z: hi.z },
            Point3 { x: hi.x, y: lo.y, z: hi.z },
            Point3 { x: lo.x, y: hi.y, z: hi.z },
            Point3 { x: hi.x, y: hi.y, z: hi.z },
        ]
    }

    /// The smallest box that holds `aabb` and `point`. The box given is not changed.
    pub fn grow(aabb: AABB, point: &Point3) -> (r: AABB)
        ensures
            r == AABB::spec_grow(aabb, *point),
            r.spec_contains(*point),
            forall|q: Point3| aabb.spec_contains(q) ==> r.spec_contains(q),
            aabb.spec_contains(*point) ==> r == aabb,
    {
        let p: Point3 = *point;
        AABB {
            min: Point3 {
                x: if p.x < aabb.min.x { p.x } else { aabb.min.x },
                y: if p.y < aabb.min.y { p.y } else { aabb.min.y },
                z: if p.z < aabb.min.z { p.z } else { aabb.min.z },
            },
            max: Point3 {
                x: if p.x > aabb.max.x { p.x } else { aabb.max.x },
                y: if p.y > aabb.max.y { p.y } else { aabb.max.y },
                z: if p.z > aabb.max.z { p.z } else { aabb.max.z },
            },
        }
    }

    /// The squared distance from `p` to the nearest point of the box. No point of
    /// the box is nearer to `p` than this: see `lemma_distance_bounds_below`.
    pub fn distance_squared_to(&self, p: &Point3) -> (r: u128)
        ensures
            r == self.spec_distance_squared_to(*p),
    {
        let gx: i64 = axis_gap(self.min.x, self.max.x, p.x);
        let gy: i64 = axis_gap(self.min.y, self.max.y, p.y);
        let gz: i64 = axis_gap(self.min.z, self.max.z, p.z);
        Vec3 { x: gx, y: gy, z: gz }.norm_squared()
    }

    /// The box with `margin` added on every side; nothing where a side would
    /// leave the lattice.
    pub fn widened(&self, margin: u32) -> (r: Option<AABB>)
        ensures
            r == self.spec_widened(margin as int),
    {
        let m: i64 = margin as i64;
        let lo: i64 = i32::MIN as i64;
        let hi: i64 = i32::MAX as i64;
        let min_x: i64 = self.min.x as i64 - m;
        let min_y: i64 = self.min.y as i64 - m;
        let min_z: i64 = self.min.z as i64 - m;
        let max_x: i64 = self.max.x as i64 + m;
        let max_y: i64 = self.max.y as i64 + m;
        let max_z: i64 = self.max.z as i64 + m;
        if lo <= min_x && lo <= min_y && lo <= min_z && max_x <= hi && max_y <= hi && max_z <= hi {
            Some(
                AABB {
                    min: Point3 { x: min_x as i32, y: min_y as i32, z: min_z as i32 },
                    max: Point3 { x: max_x as i32, y: max_y as i32, z: max_z as i32 },
                },
            )
        } else {
            None
        }
    }

    /// The part of the box that lies in octant `index` around `split`.
    pub fn octant(&self, split: &Point3, index: usize) -> (r: AABB)
        requires
            index < 8,
        ensures
            r == self.spec_octant(*split, index as int),
    {
        let below_x: bool = index % 2 == 1;
        let below_y: bool = (index / 2) % 2 == 1;
        let below_z: bool = (index / 4) % 2 == 1;
        AABB {
            min: Point3 {
                x: lower_end(self.min.x, split.x, below_x),
                y: lower_end(self.min.y, split.y, below_y),
                z: lower_end(self.min.z, split.z, below_z),
            },
            max: Point3 {
                x: upper_end(self.max.x, split.x, below_x),
                y: upper_end(self.max.y, split.y, below_y),
                z: upper_end(self.max.z, split.z, below_z),
            },
        }
    }
}

/// Where a range that starts at `lo` starts once it is cut to one side of `split`.
pub open spec fn spec_lower_end(lo: i32, split: i32, below: bool) -> i32 {
    if below || lo >= split {
        lo
    } else {
        split
    }
}

/// Where a range that ends at `hi` ends once it is cut to one side of `split`.
pub open spec fn spec_upper_end(hi: i32, split: i32, below: bool) -> i32 {
    if !below || hi < split {
        hi
    } else if split > i32::MIN {
        (split - 1) as i32
    } else {
        i32::MIN
    }
}

fn lower_end(lo: i32, split: i32, below: bool) -> (r: i32)
    ensures
        r == spec_lower_end(lo, split, below),
{
    if below || lo >= split {
        lo
    } else {
        split
    }
}

fn upper_end(hi: i32, split: i32, below: bool) -> (r: i32)
    ensures
        r == spec_upper_end(hi, split, below),
{
    if !below || hi < split {
        hi
    } else if split > i32::MIN {
        split - 1
    } else {
        i32::MIN
    }
}

/// Growing by a point a second time changes nothing, and the grown box holds the point.
pub proof fn lemma_grow_idempotent(aabb: AABB, p: Point3)
    ensures
        AABB::spec_grow(AABB::spec_grow(aabb, p), p) == AABB::spec_grow(aabb, p),
        AABB::spec_grow(aabb, p).spec_contains(p),
{
}

/// Growing a box that already holds the point gives the box back.
pub proof fn lemma_grow_contained(aabb: AABB, p: Point3)
    requires
        aabb.spec_contains(p),
    ensures
        AABB::spec_grow(aabb, p) == aabb,
{
}

/// No point of a box is nearer to `p` than the box's distance to `p`.
pub proof fn lemma_distance_bounds_below(aabb: AABB, p: Point3, q: Point3)
    requires
        aabb.spec_contains(q),
    ensures
        aabb.spec_distance_squared_to(p) <= q.dist2(p),
{
    lemma_gap_bounds_below(aabb.min.x as int, aabb.max.x as int, p.x as int, q.x as int);
    lemma_gap_bounds_below(aabb.min.y as int, aabb.max.y as int, p.y as int, q.y as int);
    lemma_gap_bounds_below(aabb.min.z as int, aabb.max.z as int, p.z as int, q.z as int);
}

proof fn lemma_gap_bounds_below(lo: int, hi: int, c: int, q: int)
    requires
        lo <= q <= hi,
    ensures
        spec_axis_gap(lo, hi, c) * spec_axis_gap(lo, hi, c) <= (q - c) * (q - c),
{
    let g: int = spec_axis_gap(lo, hi, c);
    if c < lo {
        lemma_square_monotone(g, q - c);
    } else if c > hi {
        lemma_square_monotone(g, c - q);
        assert((c - q) * (c - q) == (q - c) * (q - c)) by (nonlinear_arith);
    } else {
        assert((q - c) * (q - c) >= 0) by (nonlinear_arith);
    }
}

/// A point of a box lies in the part of the box that belongs to the point's octant.
pub proof fn lemma_octant_holds_its_points(aabb: AABB, split: Point3, q: Point3)
    requires
        aabb.spec_contains(q),
    ensures
        aabb.spec_octant(split, spec_octant_index(q, split)).spec_contains(q),
{
}

/// The tight bound of a set with one more point is the tight bound of the
/// set, grown by that point.
pub proof fn lemma_hull_grows(aabb: AABB, s: Set<Point3>, p: Point3)
    requires
        aabb.is_hull_of(s),
    ensures
        AABB::spec_grow(aabb, p).is_hull_of(s.insert(p)),
{
    let grown: AABB = AABB::spec_grow(aabb, p);
    let more: Set<Point3> = s.insert(p);
    assert(more.contains(p));
    if exists|q: Point3| s.contains(q) {
        let lx: Point3 = choose|q: Point3| s.contains(q) && q.x == aabb.min.x;
        let ly: Point3 = choose|q: Point3| s.contains(q) && q.y == aabb.min.y;
        let lz: Point3 = choose|q: Point3| s.contains(q) && q.z == aabb.min.z;
        let hx: Point3 = choose|q: Point3| s.contains(q) && q.x == aabb.max.x;
        let hy: Point3 = choose|q: Point3| s.contains(q) && q.y == aabb.max.y;
        let hz: Point3 = choose|q: Point3| s.contains(q) && q.z == aabb.max.z;
        let wlx: Point3 = if p.x < aabb.min.x { p } else { lx };
        let wly: Point3 = if p.y < aabb.min.y { p } else { ly };
        let wlz: Point3 = if p.z < aabb.min.z { p } else { lz };
        let whx: Point3 = if p.x > aabb.max.x { p } else { hx };
        let why: Point3 = if p.y > aabb.max.y { p } else { hy };
        let whz: Point3 = if p.z > aabb.max.z { p } else { hz };
        assert(more.contains(wlx) && wlx.x == grown.min.x);
        assert(more.contains(wly) && wly.y == grown.min.y);
        assert(more.contains(wlz) && wlz.z == grown.min.z);
        assert(more.contains(whx) && whx.x == grown.max.x);
        assert(more.contains(why) && why.y == grown.max.y);
        assert(more.contains(whz) && whz.z == grown.max.z);
    } else {
        assert(aabb == AABB::spec_empty());
        assert(more.contains(p) && p.x == grown.min.x && p.y == grown.min.y && p.z == grown.min.z);
        assert(more.contains(p) && p.x == grown.max.x && p.y == grown.max.y && p.z == grown.max.z);
    }
}

} // verus!
