use octree::intersection::SphereAABBOverlap;
use octree::{Point3, AABB};

/// Ten lattice units to the unit of length.
fn lattice(x: f64) -> i32 {
    (x * 10.0).round() as i32
}

fn point(x: f64, y: f64, z: f64) -> Point3 {
    Point3::new(lattice(x), lattice(y), lattice(z))
}

fn reach(r: f64) -> u32 {
    (r * 10.0).round() as u32
}

#[test]
fn test_intersection() {
    let aabb = AABB::new(point(3.0, 2.0, 1.0), point(5.0, 7.0, 3.0));

    let sphere_center = point(2.0, 1.0, 2.0);
    let sphere_radius = reach(3.0);

    let res = aabb.sphere_intersect(sphere_center, sphere_radius, false);
    println!("{:?}", res);
    assert_eq!(res, SphereAABBOverlap::IntersectsAABB);
}

#[test]
fn test_intersection1() {
    let aabb = AABB::new(point(3.0, 2.0, 1.0), point(5.0, 7.0, 3.0));

    let sphere_center = point(2.0, 0.0, 0.0);
    let sphere_radius = reach(9.0);

    let res = aabb.sphere_intersect(sphere_center, sphere_radius, false);

    println!("{:?}", res);
    assert_eq!(res, SphereAABBOverlap::ContainsAABB);
}

#[test]
fn test_intersection2() {
    let aabb = AABB::new(point(3.0, 2.0, 1.0), point(5.0, 7.0, 3.0));

    let sphere_center = point(4.0, 4.0, 2.0);
    let sphere_radius = reach(0.8);

    let res = aabb.sphere_intersect(sphere_center, sphere_radius, false);
    println!("{:?}", res);
    assert_eq!(res, SphereAABBOverlap::SubsetOfAABB);
}

#[test]
fn test_intersection3() {
    let aabb = AABB::new(point(3.0, 2.0, 1.0), point(5.0, 7.0, 3.0));

    let sphere_center = point(2.0, 4.0, 1.0);
    let sphere_radius = reach(1.3);

    let res = aabb.sphere_intersect(sphere_center, sphere_radius, false);
    println!("{:?}", res);
    assert_eq!(res, SphereAABBOverlap::IntersectsAABB);
}

#[test]
fn test_intersection4() {
    let aabb = AABB::new(point(3.0, 2.0, 1.0), point(5.0, 7.0, 3.0));

    let sphere_center = point(10.0, 0.0, 0.0);
    let sphere_radius = reach(5.0);

    let res = aabb.sphere_intersect(sphere_center, sphere_radius, false);
    println!("{:?}", res);
    assert_eq!(res, SphereAABBOverlap::Disjoint);
}

#[test]
fn lattice_values_of_the_literal_box() {
    assert_eq!(point(3.0, 2.0, 1.0), Point3::new(30, 20, 10));
    assert_eq!(point(5.0, 7.0, 3.0), Point3::new(50, 70, 30));
    assert_eq!(reach(0.8), 8);
    assert_eq!(reach(1.3), 13);
}

#[test]
fn sphere_tangent_to_a_face_from_outside_is_disjoint() {
    let aabb = AABB::new(Point3::new(30, 20, 10), Point3::new(50, 70, 30));
    // One radius away from the plane x = 30.
    let near = aabb.sphere_intersect(Point3::new(20, 40, 20), 10, false);
    assert_eq!(near, SphereAABBOverlap::Disjoint);
    // One radius away from the plane z = 30.
    let far = aabb.sphere_intersect(Point3::new(40, 40, 45), 15, false);
    assert_eq!(far, SphereAABBOverlap::Disjoint);
    // One lattice step more of radius, and the sphere reaches through the face.
    let through = aabb.sphere_intersect(Point3::new(20, 40, 20), 11, false);
    assert_eq!(through, SphereAABBOverlap::IntersectsAABB);
}

#[test]
fn sphere_tangent_to_a_flat_box_is_disjoint() {
    let flat = AABB::new(Point3::new(0, 0, 0), Point3::new(10, 10, 0));
    assert_eq!(flat.sphere_intersect(Point3::new(5, 5, 3), 4, false), SphereAABBOverlap::IntersectsAABB);
    assert_eq!(flat.sphere_intersect(Point3::new(5, 5, 3), 3, false), SphereAABBOverlap::Disjoint);
    assert_eq!(flat.sphere_intersect(Point3::new(5, 5, 3), 2, false), SphereAABBOverlap::Disjoint);
}

#[test]
fn zero_radius_is_a_point_in_box_test() {
    let aabb = AABB::new(Point3::new(30, 20, 10), Point3::new(50, 70, 30));
    assert_eq!(aabb.sphere_intersect(Point3::new(40, 40, 20), 0, false), SphereAABBOverlap::SubsetOfAABB);
    assert_eq!(aabb.sphere_intersect(Point3::new(30, 40, 20), 0, false), SphereAABBOverlap::SubsetOfAABB);
    assert_eq!(aabb.sphere_intersect(Point3::new(29, 40, 20), 0, false), SphereAABBOverlap::Disjoint);
}

#[test]
fn box_without_volume_is_classified_without_division() {
    let dot = AABB::new(Point3::new(1, 1, 1), Point3::new(1, 1, 1));
    assert_eq!(dot.sphere_intersect(Point3::new(0, 0, 0), 5, false), SphereAABBOverlap::ContainsAABB);
    assert_eq!(dot.sphere_intersect(Point3::new(0, 0, 0), 1, false), SphereAABBOverlap::Disjoint);
    assert_eq!(dot.sphere_intersect(Point3::new(1, 1, 1), 0, false), SphereAABBOverlap::SubsetOfAABB);
    // A box that is a segment has no face with two axes of length: its faces are never reached.
    let segment = AABB::new(Point3::new(-10, 0, 0), Point3::new(10, 0, 0));
    assert_eq!(segment.sphere_intersect(Point3::new(0, 1, 0), 2, false), SphereAABBOverlap::Disjoint);
    assert_eq!(segment.sphere_intersect(Point3::new(0, 0, 0), 2, false), SphereAABBOverlap::SubsetOfAABB);
}

#[test]
fn callers_word_skips_the_faces() {
    let aabb = AABB::new(Point3::new(30, 20, 10), Point3::new(50, 70, 30));
    assert_eq!(aabb.sphere_intersect(Point3::new(40, 40, 20), 8, false), SphereAABBOverlap::SubsetOfAABB);
    assert_eq!(aabb.sphere_intersect(Point3::new(40, 40, 20), 8, true), SphereAABBOverlap::IntersectsAABB);
    // The coarse rejection is made before the caller's word is looked at.
    assert_eq!(aabb.sphere_intersect(Point3::new(100, 0, 0), 50, true), SphereAABBOverlap::Disjoint);
}

#[test]
fn sphere_reaching_a_face_but_no_corner_intersects() {
    let aabb = AABB::new(Point3::new(30, 20, 10), Point3::new(50, 70, 30));
    assert_eq!(aabb.sphere_intersect(Point3::new(40, 45, 20), 11, false), SphereAABBOverlap::IntersectsAABB);
}

#[test]
fn disjoint_sphere_holds_neither_centre_nor_corner() {
    let aabb = AABB::new(Point3::new(30, 20, 10), Point3::new(50, 70, 30));
    let origin = Point3::new(20, 40, 20);
    let radius: u32 = 10;
    assert_eq!(aabb.sphere_intersect(origin, radius, false), SphereAABBOverlap::Disjoint);
    assert!(!aabb.contains(origin));
    for corner in aabb.get_points() {
        assert!(corner.distance_squared(&origin) >= 100);
    }
}

#[test]
fn coarse_rejection_is_made_first() {
    // The centres are 21 apart, the diagonal is 4 and the radius 20: 4 * 441 > 4 * (16 + 400).
    let thin = AABB::new(Point3::new(19, 0, 0), Point3::new(23, 0, 0));
    assert_eq!(thin.sphere_intersect(Point3::new(0, 0, 0), 20, false), SphereAABBOverlap::Disjoint);
}

#[test]
fn widened_box_is_what_a_search_asks_about() {
    let thin = AABB::new(Point3::new(19, 0, 0), Point3::new(23, 0, 0));
    let origin = Point3::new(0, 0, 0);
    // (19, 0, 0) lies within 20 of the origin: the box must not be ruled out.
    assert!(!thin.excludes_sphere(&origin, 20));
    assert!(!thin.excludes_sphere(&origin, 19));
    assert!(!thin.excludes_sphere(&origin, 18));
    assert!(thin.excludes_sphere(&origin, 10));
    let segment = AABB::new(Point3::new(-10, 0, 0), Point3::new(10, 0, 0));
    assert!(!segment.excludes_sphere(&Point3::new(0, 1, 0), 2));
    assert!(segment.excludes_sphere(&Point3::new(0, 5, 0), 2));
    // At the edge of the lattice the box cannot be widened, and nothing is ruled out.
    let edge = AABB::new(Point3::new(i32::MIN, 0, 0), Point3::new(i32::MIN + 4, 0, 0));
    assert!(!edge.excludes_sphere(&Point3::new(i32::MAX, 0, 0), 1));
}

#[test]
fn classifier_takes_the_widest_inputs() {
    let all = AABB::new(
        Point3::new(i32::MIN, i32::MIN, i32::MIN),
        Point3::new(i32::MAX, i32::MAX, i32::MAX),
    );
    assert_eq!(
        all.sphere_intersect(Point3::new(i32::MAX, i32::MAX, i32::MAX), u32::MAX, false),
        SphereAABBOverlap::IntersectsAABB
    );
    assert_eq!(
        all.sphere_intersect(Point3::new(0, 0, 0), 0, false),
        SphereAABBOverlap::SubsetOfAABB
    );
    let sentinel = AABB::empty();
    assert_eq!(
        sentinel.sphere_intersect(Point3::new(0, 0, 0), 1, false),
        SphereAABBOverlap::Disjoint
    );
}
