//! How a sphere and a box overlap.
//!
//! All tests are made on squared lengths, so they are exact: nothing is
//! rounded, and no square root is taken. Where a length `rho` is only known by
//! its square, `rho > x` is decided as "`x` is negative, or `x * x` is below the
//! square".

use crate::aabb::AABB;
use crate::point::{lemma_square_bound, lemma_square_monotone, square, Point3, Vec3};
use vstd::prelude::*;

verus! {

/// How a sphere lies to a box.
#[derive(Clone, Copy, Debug, PartialEq, Eq, Hash, Structural)]
pub enum SphereAABBOverlap {
    /// The sphere lies inside the box and reaches none of its faces.
    SubsetOfAABB,
    /// Sphere and box overlap in part.
    IntersectsAABB,
    /// The sphere holds the whole box.
    ContainsAABB,
    /// Sphere and box share no point.
    Disjoint,
}

/// Coordinate `axis` of `p`: 0 is x, 1 is y, anything else is z.
pub open spec fn spec_coord(p: Point3, axis: int) -> int {
    if axis == 0 {
        p.x as int
    } else if axis == 1 {
        p.y as int
    } else {
        p.z as int
    }
}

/// The squared length of the box's diagonal.
pub open spec fn spec_diagonal_squared(aabb: AABB) -> int {
    let sx: int = aabb.max.x - aabb.min.x;
    let sy: int = aabb.max.y - aabb.min.y;
    let sz: int = aabb.max.z - aabb.min.z;
    sx * sx + sy * sy + sz * sz
}

/// Four times the squared distance from the box's centre to `origin`. The
/// centre may lie half-way between lattice points; taken four-fold, its squared
/// distance is a whole number.
pub open spec fn spec_center_gap_squared_x4(aabb: AABB, origin: Point3) -> int {
    let cx: int = aabb.min.x + aabb.max.x - 2 * origin.x;
    let cy: int = aabb.min.y + aabb.max.y - 2 * origin.y;
    let cz: int = aabb.min.z + aabb.max.z - 2 * origin.z;
    cx * cx + cy * cy + cz * cz
}

/// The coarse rejection: the centres are further apart than the sum of the
/// squared diagonal and the squared radius allows.
pub open spec fn spec_coarsely_apart(aabb: AABB, origin: Point3, radius: int) -> bool {
    spec_center_gap_squared_x4(aabb, origin) > 4 * (spec_diagonal_squared(aabb) + radius * radius)
}

/// The coarse acceptance: centre distance and diagonal together stay below the radius.
pub open spec fn spec_coarsely_inside(aabb: AABB, origin: Point3, radius: int) -> bool {
    spec_center_gap_squared_x4(aabb, origin) + 4 * spec_diagonal_squared(aabb) < 4 * (radius
        * radius)
}

/// Corner `k` of the box lies strictly inside the sphere.
pub open spec fn spec_corner_inside(aabb: AABB, origin: Point3, radius: int, k: int) -> bool {
    aabb.spec_corner(k).dist2(origin) < radius * radius
}

/// All eight corners of the box lie strictly inside the sphere.
pub open spec fn spec_all_corners_inside(aabb: AABB, origin: Point3, radius: int) -> bool {
    forall|k: int| 0 <= k < 8 ==> #[trigger] spec_corner_inside(aabb, origin, radius, k)
}

/// One of the eight corners of the box lies strictly inside the sphere.
pub open spec fn spec_some_corner_inside(aabb: AABB, origin: Point3, radius: int) -> bool {
    exists|k: int| 0 <= k < 8 && #[trigger] spec_corner_inside(aabb, origin, radius, k)
}

/// A length whose square is `rho2` is greater than `x`.
pub open spec fn spec_reaches_past(rho2: int, x: int) -> bool {
    x < 0 || x * x < rho2
}

/// On one axis of a face, the disk that the sphere cuts out of the face's plane
/// overlaps the face in more than a point. The disk has the squared radius
/// `rho2` and its centre at `t`, measured from where the face begins; the face
/// is `s` long. With `rho` for the disk's radius, this says that the stretch
/// from `t - rho` to `t + rho`, cut to the stretch from `0` to `s`, has a
/// length: `rho > 0`, `t + rho > 0` and `t - rho < s`.
pub open spec fn spec_disk_spans(rho2: int, t: int, s: int) -> bool {
    &&& s > 0
    &&& rho2 > 0
    &&& spec_reaches_past(rho2, -t)
    &&& spec_reaches_past(rho2, t - s)
}

/// The first of the two axes that span the faces across `axis`.
pub open spec fn spec_u_axis(axis: int) -> int {
    if axis == 0 {
        1
    } else {
        0
    }
}

/// The second of the two axes that span the faces across `axis`.
pub open spec fn spec_v_axis(axis: int) -> int {
    if axis == 2 {
        1
    } else {
        2
    }
}

/// The sphere reaches through the face of the box that lies across `axis`, on
/// the side of the largest corner if `far`, else on the side of the smallest:
/// the face's plane is not further from the centre than the radius, and the
/// disk that the sphere cuts out of the plane spans the face on both of its
/// axes. A face without length on one of its axes is never reached.
pub open spec fn spec_face_touched(aabb: AABB, origin: Point3, radius: int, axis: int, far: bool)
    -> bool {
    let plane: int = if far {
        spec_coord(aabb.max, axis)
    } else {
        spec_coord(aabb.min, axis)
    };
    let c: int = spec_coord(origin, axis) - plane;
    let rho2: int = radius * radius - c * c;
    let u: int = spec_u_axis(axis);
    let v: int = spec_v_axis(axis);
    &&& c * c <= radius * radius
    &&& spec_disk_spans(
        rho2,
        spec_coord(origin, u) - spec_coord(aabb.min, u),
        spec_coord(aabb.max, u) - spec_coord(aabb.min, u),
    )
    &&& spec_disk_spans(
        rho2,
        spec_coord(origin, v) - spec_coord(aabb.min, v),
        spec_coord(aabb.max, v) - spec_coord(aabb.min, v),
    )
}

/// Face `f` of the six: faces 0, 1, 2 lie across x, y, z on the side of the
/// smallest corner, faces 3, 4, 5 across x, y, z on the side of the largest.
pub open spec fn spec_face_touched_at(aabb: AABB, origin: Point3, radius: int, f: int) -> bool {
    spec_face_touched(aabb, origin, radius, f % 3, f >= 3)
}

/// The sphere reaches through one of the six faces of the box.
pub open spec fn spec_some_face_touched(aabb: AABB, origin: Point3, radius: int) -> bool {
    exists|f: int| 0 <= f < 6 && #[trigger] spec_face_touched_at(aabb, origin, radius, f)
}

/// The classification of the sphere around `origin` against the box, decided in
/// this order: the coarse rejection, the coarse acceptance, the corners, the
/// caller's word that the two overlap, the faces, and at last whether the
/// centre lies in the box.
pub open spec fn spec_sphere_intersect(
    aabb: AABB,
    origin: Point3,
    radius: int,
    assume_intersects: bool,
) -> SphereAABBOverlap {
    if spec_coarsely_apart(aabb, origin, radius) {
        SphereAABBOverlap::Disjoint
    } else if spec_coarsely_inside(aabb, origin, radius) {
        SphereAABBOverlap::ContainsAABB
    } else if spec_all_corners_inside(aabb, origin, radius) {
        SphereAABBOverlap::ContainsAABB
    } else if spec_some_corner_inside(aabb, origin, radius) || assume_intersects {
        SphereAABBOverlap::IntersectsAABB
    } else if spec_some_face_touched(aabb, origin, radius) {
        SphereAABBOverlap::IntersectsAABB
    } else if aabb.spec_contains(origin) {
        SphereAABBOverlap::SubsetOfAABB
    } else {
        SphereAABBOverlap::Disjoint
    }
}

fn coord(p: &Point3, axis: usize) -> (r: i64)
    ensures
        r == spec_coord(*p, axis as int),
{
    if axis == 0 {
        p.x as i64
    } else if axis == 1 {
        p.y as i64
    } else {
        p.z as i64
    }
}

fn reaches_past(rho2: u128, x: i64) -> (r: bool)
    ensures
        r == spec_reaches_past(rho2 as int, x as int),
{
    x < 0 || square(x) < rho2
}

fn disk_spans(rho2: u128, t: i64, s: i64) -> (r: bool)
    requires
        -0x1_0000_0000 < t < 0x1_0000_0000,
        -0x1_0000_0000 < s < 0x1_0000_0000,
    ensures
        r == spec_disk_spans(rho2 as int, t as int, s as int),
{
    s > 0 && rho2 > 0 && reaches_past(rho2, -t) && reaches_past(rho2, t - s)
}

impl AABB {
    fn face_touched(&self, origin: &Point3, radius: u32, axis: usize, far: bool) -> (r: bool)
        requires
            axis < 3,
        ensures
            r == spec_face_touched(*self, *origin, radius as int, axis as int, far),
    {
        let plane: i64 = if far {
            coord(&self.max, axis)
        } else {
            coord(&self.min, axis)
        };
        let c: i64 = coord(origin, axis) - plane;
        let c2: u128 = square(c);
        let r2: u128 = square(radius as i64);
        if c2 > r2 {
            return false;
        }
        let rho2: u128 = r2 - c2;
        let u: usize = if axis == 0 { 1 } else { 0 };
        let v: usize = if axis == 2 { 1 } else { 2 };
        let t_u: i64 = coord(origin, u) - coord(&self.min, u);
        let s_u: i64 = coord(&self.max, u) - coord(&self.min, u);
        let t_v: i64 = coord(origin, v) - coord(&self.min, v);
        let s_v: i64 = coord(&self.max, v) - coord(&self.min, v);
        disk_spans(rho2, t_u, s_u) && disk_spans(rho2, t_v, s_v)
    }

    /// Classifies the sphere of the given radius around `origin` against this box.
    ///
    /// `assume_intersects` is the caller's word that the two overlap: with it,
    /// a sphere that holds no corner is reported as intersecting without a look
    /// at the faces.
    pub fn sphere_intersect(&self, origin: Point3, radius: u32, assume_intersects: bool) -> (r:
        SphereAABBOverlap)
        ensures
            r == spec_sphere_intersect(*self, origin, radius as int, assume_intersects),
            r == SphereAABBOverlap::Disjoint ==> !self.spec_contains(origin),
    {
        proof {
            if self.spec_contains(origin) {
                lemma_center_is_never_coarsely_apart(*self, origin, radius);
            }
        }
        let r2: u128 = square(radius as i64);
        let diagonal2: u128 = self.size().norm_squared();
        let doubled_center_gap: Vec3 = Vec3 {
            x: self.min.x as i64 + self.max.x as i64 - 2 * (origin.x as i64),
            y: self.min.y as i64 + self.max.y as i64 - 2 * (origin.y as i64),
            z: self.min.z as i64 + self.max.z as i64 - 2 * (origin.z as i64),
        };
        let gap4: u128 = doubled_center_gap.norm_squared();
        proof {
            lemma_square_bound(radius as int, 0x1_0000_0000);
            lemma_square_bound(self.max.x - self.min.x, 0x1_0000_0000);
            lemma_square_bound(self.max.y - self.min.y, 0x1_0000_0000);
            lemma_square_bound(self.max.z - self.min.z, 0x1_0000_0000);
            lemma_square_bound(doubled_center_gap.x as int, 0x2_0000_0000);
            lemma_square_bound(doubled_center_gap.y as int, 0x2_0000_0000);
            lemma_square_bound(doubled_center_gap.z as int, 0x2_0000_0000);
        }
        if gap4 > 4 * (diagonal2 + r2) {
            return SphereAABBOverlap::Disjoint;
        } else if gap4 + 4 * diagonal2 < 4 * r2 {
            return SphereAABBOverlap::ContainsAABB;
        }
        let corners: [Point3; 8] = self.get_points();
        let mut any_inside: bool = false;
        let mut all_inside: bool = true;
        let mut k: usize = 0;
        while k < 8
            invariant
                k <= 8,
                r2 == radius * radius,
                forall|j: int| 0 <= j < 8 ==> corners[j] == self.spec_corner(j),
                any_inside == (exists|j: int|
                    0 <= j < k && spec_corner_inside(*self, origin, radius as int, j)),
                all_inside == (forall|j: int|
                    0 <= j < k ==> spec_corner_inside(*self, origin, radius as int, j)),
            decreases 8 - k,
        {
            let inside: bool = corners[k].distance_squared(&origin) < r2;
            assert(inside == spec_corner_inside(*self, origin, radius as int, k as int));
            if inside {
                any_inside = true;
            } else {
                all_inside = false;
            }
            k += 1;
        }
        if all_inside {
            return SphereAABBOverlap::ContainsAABB;
        } else if any_inside || assume_intersects {
            return SphereAABBOverlap::IntersectsAABB;
        }
        let mut touched: bool = false;
        let mut f: usize = 0;
        while f < 6 && !touched
            invariant
                f <= 6,
                touched == (exists|g: int|
                    0 <= g < f && spec_face_touched_at(*self, origin, radius as int, g)),
            decreases 6 - f,
        {
            touched = self.face_touched(&origin, radius, f % 3, f >= 3);
            assert(touched == spec_face_touched_at(*self, origin, radius as int, f as int));
            f += 1;
        }
        if touched {
            SphereAABBOverlap::IntersectsAABB
        } else if self.contains(origin) {
            SphereAABBOverlap::SubsetOfAABB
        } else {
            SphereAABBOverlap::Disjoint
        }
    }
}

/// Every corner of a box in order lies in the box.
pub proof fn lemma_corner_in_box(aabb: AABB, k: int)
    requires
        aabb.wf(),
    ensures
        aabb.spec_contains(aabb.spec_corner(k)),
{
}

/// A point that is at least `reach` away from `origin` along one axis is at
/// least that far away from it.
pub proof fn lemma_axis_distance_bounds_below(p: Point3, origin: Point3, axis: int, reach: int)
    requires
        0 <= reach,
        spec_coord(p, axis) - spec_coord(origin, axis) >= reach || spec_coord(origin, axis)
            - spec_coord(p, axis) >= reach,
    ensures
        p.dist2(origin) >= reach * reach,
{
    let dx: int = p.x - origin.x;
    let dy: int = p.y - origin.y;
    let dz: int = p.z - origin.z;
    assert(dx * dx >= 0 && dy * dy >= 0 && dz * dz >= 0) by (nonlinear_arith);
    let d: int = spec_coord(p, axis) - spec_coord(origin, axis);
    assert(d * d >= reach * reach) by (nonlinear_arith)
        requires
            0 <= reach,
            d >= reach || -d >= reach,
    ;
}

/// A sphere that is classified as disjoint from a box does not have its centre
/// in the box. Nor does it hold a corner of the box, except where the coarse
/// rejection speaks against a sphere that does hold one: those spheres are
/// left out.
pub proof fn lemma_disjoint_is_apart(
    aabb: AABB,
    origin: Point3,
    radius: u32,
    assume_intersects: bool,
)
    requires
        !(spec_coarsely_apart(aabb, origin, radius as int) && spec_some_corner_inside(
            aabb,
            origin,
            radius as int,
        )),
        spec_sphere_intersect(aabb, origin, radius as int, assume_intersects)
            == SphereAABBOverlap::Disjoint,
    ensures
        !aabb.spec_contains(origin),
        !spec_some_corner_inside(aabb, origin, radius as int),
{
    if aabb.spec_contains(origin) {
        lemma_center_is_never_coarsely_apart(aabb, origin, radius);
    }
}

/// The coarse rejection never speaks against a sphere whose centre lies in the box.
pub proof fn lemma_center_is_never_coarsely_apart(aabb: AABB, origin: Point3, radius: u32)
    requires
        aabb.spec_contains(origin),
    ensures
        !spec_coarsely_apart(aabb, origin, radius as int),
{
    lemma_square_bound(
        aabb.min.x + aabb.max.x - 2 * origin.x,
        aabb.max.x - aabb.min.x,
    );
    lemma_square_bound(
        aabb.min.y + aabb.max.y - 2 * origin.y,
        aabb.max.y - aabb.min.y,
    );
    lemma_square_bound(
        aabb.min.z + aabb.max.z - 2 * origin.z,
        aabb.max.z - aabb.min.z,
    );
    lemma_square_bound(radius as int, radius as int);
}

/// A sphere that touches the plane of a face from outside the box, its centre
/// exactly one radius away from it, is not classified as intersecting the box
/// (nor as holding it), as long as the caller does not claim that they overlap.
pub proof fn lemma_tangent_sphere_does_not_intersect(
    aabb: AABB,
    origin: Point3,
    radius: u32,
    axis: int,
    far: bool,
)
    requires
        aabb.wf(),
        0 <= axis < 3,
        far ==> spec_coord(origin, axis) == spec_coord(aabb.max, axis) + radius,
        !far ==> spec_coord(origin, axis) == spec_coord(aabb.min, axis) - radius,
    ensures
        spec_sphere_intersect(aabb, origin, radius as int, false) == SphereAABBOverlap::Disjoint
            || spec_sphere_intersect(aabb, origin, radius as int, false)
            == SphereAABBOverlap::SubsetOfAABB,
{
    let r: int = radius as int;
    assert forall|k: int| 0 <= k < 8 implies !spec_corner_inside(aabb, origin, r, k) by {
        lemma_corner_in_box(aabb, k);
        lemma_axis_distance_bounds_below(aabb.spec_corner(k), origin, axis, r);
    }
    assert(!spec_coarsely_inside(aabb, origin, r)) by {
        let cx: int = aabb.min.x + aabb.max.x - 2 * origin.x;
        let cy: int = aabb.min.y + aabb.max.y - 2 * origin.y;
        let cz: int = aabb.min.z + aabb.max.z - 2 * origin.z;
        let c: int = if axis == 0 {
            cx
        } else if axis == 1 {
            cy
        } else {
            cz
        };
        assert(cx * cx >= 0 && cy * cy >= 0 && cz * cz >= 0) by (nonlinear_arith);
        assert(c * c >= 4 * (r * r)) by (nonlinear_arith)
            requires
                r >= 0,
                c >= 2 * r || -c >= 2 * r,
        ;
        let sx: int = aabb.max.x - aabb.min.x;
        let sy: int = aabb.max.y - aabb.min.y;
        let sz: int = aabb.max.z - aabb.min.z;
        assert(sx * sx >= 0 && sy * sy >= 0 && sz * sz >= 0) by (nonlinear_arith);
    }
    assert forall|f: int| 0 <= f < 6 implies !spec_face_touched_at(aabb, origin, r, f) by {
        let face_axis: int = f % 3;
        let face_far: bool = f >= 3;
        let plane: int = if face_far {
            spec_coord(aabb.max, face_axis)
        } else {
            spec_coord(aabb.min, face_axis)
        };
        let c: int = spec_coord(origin, face_axis) - plane;
        let rho2: int = r * r - c * c;
        if face_axis == axis {
            // The plane of this face is at least one radius away.
            assert(c * c >= r * r) by (nonlinear_arith)
                requires
                    r >= 0,
                    c >= r || -c >= r,
            ;
        } else {
            // Along the tangent axis the disk ends where the face begins.
            assert(c * c >= 0) by (nonlinear_arith);
            assert(!spec_reaches_past(rho2, r));
        }
    }
    assert(!spec_corner_inside(aabb, origin, r, 0));
    assert(!spec_all_corners_inside(aabb, origin, r));
    assert(!spec_some_corner_inside(aabb, origin, r));
    assert(!spec_some_face_touched(aabb, origin, r));
}

/// A sphere that lies in a box, at least one radius away from every face on
/// the inner side, is classified as a subset of the box. That holds also where
/// it touches faces from inside: touching is not reaching through.
pub proof fn lemma_sphere_in_box_is_subset(aabb: AABB, origin: Point3, radius: u32)
    requires
        aabb.min.x + radius <= origin.x <= aabb.max.x - radius,
        aabb.min.y + radius <= origin.y <= aabb.max.y - radius,
        aabb.min.z + radius <= origin.z <= aabb.max.z - radius,
    ensures
        spec_sphere_intersect(aabb, origin, radius as int, false)
            == SphereAABBOverlap::SubsetOfAABB,
{
    let r: int = radius as int;
    lemma_center_is_never_coarsely_apart(aabb, origin, radius);
    assert forall|k: int| 0 <= k < 8 implies !spec_corner_inside(aabb, origin, r, k) by {
        lemma_axis_distance_bounds_below(aabb.spec_corner(k), origin, 0, r);
    }
    assert(!spec_coarsely_inside(aabb, origin, r)) by {
        let cx: int = aabb.min.x + aabb.max.x - 2 * origin.x;
        let cy: int = aabb.min.y + aabb.max.y - 2 * origin.y;
        let cz: int = aabb.min.z + aabb.max.z - 2 * origin.z;
        assert(cx * cx >= 0 && cy * cy >= 0 && cz * cz >= 0) by (nonlinear_arith);
        let sx: int = aabb.max.x - aabb.min.x;
        let sy: int = aabb.max.y - aabb.min.y;
        let sz: int = aabb.max.z - aabb.min.z;
        assert(sy * sy >= 0 && sz * sz >= 0) by (nonlinear_arith);
        assert(sx * sx >= 4 * (r * r)) by (nonlinear_arith)
            requires
                r >= 0,
                sx >= 2 * r,
        ;
    }
    assert forall|f: int| 0 <= f < 6 implies !spec_face_touched_at(aabb, origin, r, f) by {
        let plane: int = if f >= 3 {
            spec_coord(aabb.max, f % 3)
        } else {
            spec_coord(aabb.min, f % 3)
        };
        let c: int = spec_coord(origin, f % 3) - plane;
        assert(c * c >= r * r) by (nonlinear_arith)
            requires
                r >= 0,
                c >= r || -c >= r,
        ;
    }
    assert(!spec_corner_inside(aabb, origin, r, 0));
    assert(!spec_all_corners_inside(aabb, origin, r));
    assert(!spec_some_corner_inside(aabb, origin, r));
    assert(!spec_some_face_touched(aabb, origin, r));
}

/// The margin by which a box is widened before the classifier is asked to
/// rule a sphere of the given radius out: a sixth of the radius, and one more.
pub open spec fn spec_safety_margin(radius: int) -> int {
    radius / 6 + 1
}

/// The classifier rules the sphere out for the box widened by the safety
/// margin. Where the widened box leaves the lattice, nothing is ruled out.
pub open spec fn spec_excludes_sphere(aabb: AABB, origin: Point3, radius: int) -> bool {
    match aabb.spec_widened(spec_safety_margin(radius)) {
        Some(wide) => spec_sphere_intersect(wide, origin, radius, false)
            == SphereAABBOverlap::Disjoint,
        None => false,
    }
}

impl AABB {
    /// Whether the classifier rules out that a point of this box lies within
    /// `radius` of `origin`.
    ///
    /// The classifier is strict where a search is not, and its coarse rejection
    /// is too quick for a box that is small against the sphere. So it is asked
    /// about the box widened by `spec_safety_margin(radius)`: if it finds the
    /// sphere disjoint from that, no point of this box is within `radius` of
    /// `origin`, the distance `radius` itself included.
    pub fn excludes_sphere(&self, origin: &Point3, radius: u32) -> (r: bool)
        ensures
            r == spec_excludes_sphere(*self, *origin, radius as int),
            r ==> forall|q: Point3| #[trigger]
                self.spec_contains(q) ==> q.dist2(*origin) > radius * radius,
    {
        match self.widened(radius / 6 + 1) {
            Some(wide) => {
                let verdict: SphereAABBOverlap = wide.sphere_intersect(*origin, radius, false);
                proof {
                    if verdict == SphereAABBOverlap::Disjoint {
                        assert forall|q: Point3| #[trigger]
                            self.spec_contains(q) implies q.dist2(*origin) > radius * radius by {
                            if q.dist2(*origin) <= radius * radius {
                                lemma_widened_box_keeps_near_points(
                                    *self,
                                    spec_safety_margin(radius as int),
                                    *origin,
                                    radius,
                                    q,
                                );
                            }
                        }
                    }
                }
                verdict == SphereAABBOverlap::Disjoint
            },
            None => false,
        }
    }
}

/// A sphere that comes as near as its radius to a point of a box is not
/// classified as disjoint from the box widened by a margin of at least one and
/// at least a sixth of the radius.
pub proof fn lemma_widened_box_keeps_near_points(
    aabb: AABB,
    margin: int,
    origin: Point3,
    radius: u32,
    q: Point3,
)
    requires
        aabb.spec_contains(q),
        q.dist2(origin) <= radius * radius,
        margin >= 1,
        6 * margin >= radius,
        aabb.spec_widened(margin) is Some,
    ensures
        spec_sphere_intersect(aabb.spec_widened(margin)->0, origin, radius as int, false)
            != SphereAABBOverlap::Disjoint,
{
    let wide: AABB = aabb.spec_widened(margin)->0;
    let r: int = radius as int;
    lemma_wide_box_is_not_coarsely_apart(aabb, margin, origin, radius, q);
    if !wide.spec_contains(origin) {
        lemma_sphere_reaches_a_face(aabb, margin, origin, radius, q);
    }
}

/// `3 * (a + b)^2 <= 12 * a^2 + 4 * b^2`, with `b = 2 * d`, and `a` bounded by `s`.
proof fn lemma_axis_gap_bound(a: int, d: int, s: int, m: int)
    by (nonlinear_arith)
    requires
        -s <= a <= s,
        0 <= m,
    ensures
        3 * ((a + 2 * d) * (a + 2 * d)) <= 12 * ((s + 2 * m) * (s + 2 * m)) - 48 * (m * m) + 16 * (d
            * d),
{
    assert((3 * a - 2 * d) * (3 * a - 2 * d) >= 0);
    assert(a * a <= s * s);
    assert((s + 2 * m) * (s + 2 * m) >= s * s + 4 * (m * m));
}

proof fn lemma_wide_box_is_not_coarsely_apart(
    aabb: AABB,
    margin: int,
    origin: Point3,
    radius: u32,
    q: Point3,
)
    requires
        aabb.spec_contains(q),
        q.dist2(origin) <= radius * radius,
        margin >= 1,
        6 * margin >= radius,
        aabb.spec_widened(margin) is Some,
    ensures
        !spec_coarsely_apart(aabb.spec_widened(margin)->0, origin, radius as int),
{
    let wide: AABB = aabb.spec_widened(margin)->0;
    let r: int = radius as int;
    lemma_axis_gap_bound(
        aabb.min.x + aabb.max.x - 2 * q.x,
        q.x - origin.x,
        aabb.max.x - aabb.min.x,
        margin,
    );
    lemma_axis_gap_bound(
        aabb.min.y + aabb.max.y - 2 * q.y,
        q.y - origin.y,
        aabb.max.y - aabb.min.y,
        margin,
    );
    lemma_axis_gap_bound(
        aabb.min.z + aabb.max.z - 2 * q.z,
        q.z - origin.z,
        aabb.max.z - aabb.min.z,
        margin,
    );
    lemma_square_monotone(r, 6 * margin);
    assert((6 * margin) * (6 * margin) == 36 * (margin * margin)) by (nonlinear_arith);
    let gap4: int = spec_center_gap_squared_x4(wide, origin);
    let diagonal2: int = spec_diagonal_squared(wide);
    assert(3 * gap4 <= 12 * diagonal2 - 144 * (margin * margin) + 16 * q.dist2(origin));
}

/// One coordinate of the disk test: the disk reaches over the part of the face
/// between `lo` and `hi` if a coordinate `q` between them is nearer to the
/// disk's centre `o` than the disk's radius.
proof fn lemma_disk_spans_over(rho2: int, lo: int, hi: int, o: int, q: int)
    requires
        lo < hi,
        lo <= q <= hi,
        (q - o) * (q - o) < rho2,
    ensures
        spec_disk_spans(rho2, o - lo, hi - lo),
{
    assert((q - o) * (q - o) >= 0) by (nonlinear_arith);
    if lo - o >= 0 {
        lemma_square_monotone(lo - o, q - o);
    }
    if o - hi >= 0 {
        lemma_square_monotone(o - hi, o - q);
        assert((o - q) * (o - q) == (q - o) * (q - o)) by (nonlinear_arith);
    }
    assert(-(o - lo) == lo - o);
    assert((o - lo) - (hi - lo) == o - hi);
}

/// Across the axis on which the centre lies outside the widened box, the
/// point `q` of the inner box is further from the centre than the face's plane,
/// by more than the margin's square.
proof fn lemma_plane_nearer_than_point(c: int, d: int, margin: int)
    by (nonlinear_arith)
    requires
        margin >= 1,
        (c >= 0 && d >= c + margin) || (c <= 0 && -d >= -c + margin),
    ensures
        d * d >= c * c + 1,
{
}

proof fn lemma_sphere_reaches_a_face(
    aabb: AABB,
    margin: int,
    origin: Point3,
    radius: u32,
    q: Point3,
)
    requires
        aabb.spec_contains(q),
        q.dist2(origin) <= radius * radius,
        margin >= 1,
        aabb.spec_widened(margin) is Some,
        !(aabb.spec_widened(margin)->0).spec_contains(origin),
    ensures
        spec_some_face_touched(aabb.spec_widened(margin)->0, origin, radius as int),
{
    let wide: AABB = aabb.spec_widened(margin)->0;
    let r: int = radius as int;
    let axis: int = if origin.x < wide.min.x || origin.x > wide.max.x {
        0
    } else if origin.y < wide.min.y || origin.y > wide.max.y {
        1
    } else {
        2
    };
    let far: bool = spec_coord(origin, axis) > spec_coord(wide.max, axis);
    let f: int = if far {
        axis + 3
    } else {
        axis
    };
    let plane: int = if far {
        spec_coord(wide.max, axis)
    } else {
        spec_coord(wide.min, axis)
    };
    // From the plane to the centre, and from the point to the centre, along the axis.
    let c: int = spec_coord(origin, axis) - plane;
    let d: int = spec_coord(origin, axis) - spec_coord(q, axis);
    lemma_plane_nearer_than_point(c, d, margin);
    let u: int = spec_u_axis(axis);
    let v: int = spec_v_axis(axis);
    let du: int = spec_coord(q, u) - spec_coord(origin, u);
    let dv: int = spec_coord(q, v) - spec_coord(origin, v);
    assert(du * du >= 0 && dv * dv >= 0) by (nonlinear_arith);
    assert(q.dist2(origin) == d * d + du * du + dv * dv) by (nonlinear_arith)
        requires
            q.dist2(origin) == (q.x - origin.x) * (q.x - origin.x) + (q.y - origin.y) * (q.y
                - origin.y) + (q.z - origin.z) * (q.z - origin.z),
            (axis == 0 && d == origin.x - q.x && du == q.y - origin.y && dv == q.z - origin.z) || (
            axis == 1 && d == origin.y - q.y && du == q.x - origin.x && dv == q.z - origin.z) || (
            axis == 2 && d == origin.z - q.z && du == q.x - origin.x && dv == q.y - origin.y),
    ;
    let rho2: int = r * r - c * c;
    lemma_disk_spans_over(
        rho2,
        spec_coord(wide.min, u),
        spec_coord(wide.max, u),
        spec_coord(origin, u),
        spec_coord(q, u),
    );
    lemma_disk_spans_over(
        rho2,
        spec_coord(wide.min, v),
        spec_coord(wide.max, v),
        spec_coord(origin, v),
        spec_coord(q, v),
    );
    assert(f % 3 == axis && (f >= 3) == far);
    assert(spec_face_touched(wide, origin, r, axis, far));
    assert(spec_face_touched_at(wide, origin, r, f));
}

} // verus!
