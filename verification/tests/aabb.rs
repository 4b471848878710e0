use octree::point::{octant_index, square};
use octree::{MaxElements, Point3, Policy, PolicyEnum, Vec3, AABB};

fn p(x: i32, y: i32, z: i32) -> Point3 {
    Point3::new(x, y, z)
}

#[test]
fn point_accessors_and_lengths() {
    let a = p(1, -2, 3);
    assert_eq!((a.x(), a.y(), a.z()), (1, -2, 3));
    assert_eq!(a.displacement(&p(4, 4, 4)), Vec3::new(-3, -6, -1));
    assert_eq!(Vec3::new(-3, -6, -1).norm_squared(), 46);
    assert_eq!(a.distance_squared(&p(4, 4, 4)), 46);
    assert_eq!(a.distance_squared(&a), 0);
    assert_eq!(square(-7), 49);
    assert_eq!(square(i64::MIN), 1u128 << 126);
    assert_eq!(
        p(i32::MIN, i32::MIN, i32::MIN).distance_squared(&p(i32::MAX, i32::MAX, i32::MAX)),
        3 * (u32::MAX as u128) * (u32::MAX as u128)
    );
    assert_eq!(
        Vec3::new(i64::MIN, i64::MIN, i64::MIN).norm_squared(),
        3 * (1u128 << 126)
    );
}

#[test]
fn midpoint_rounds_up() {
    assert_eq!(p(0, 0, 0).midpoint(&p(4, 0, 0)), p(2, 0, 0));
    assert_eq!(p(0, -1, -3).midpoint(&p(1, 0, -2)), p(1, 0, -2));
    assert_eq!(p(1, 0, -2).midpoint(&p(0, -1, -3)), p(1, 0, -2));
    assert_eq!(p(-5, 7, 0).midpoint(&p(-5, 7, 0)), p(-5, 7, 0));
    assert_eq!(
        p(i32::MIN, i32::MAX, i32::MIN).midpoint(&p(i32::MAX, i32::MAX, i32::MIN + 1)),
        p(0, i32::MAX, i32::MIN + 1)
    );
}

#[test]
fn octant_index_exact_values() {
    let split = p(5, 5, 5);
    assert_eq!(octant_index(&p(5, 5, 5), &split), 0);
    assert_eq!(octant_index(&p(4, 5, 5), &split), 1);
    assert_eq!(octant_index(&p(5, 4, 5), &split), 2);
    assert_eq!(octant_index(&p(5, 5, 4), &split), 4);
    assert_eq!(octant_index(&p(4, 4, 9), &split), 3);
    assert_eq!(octant_index(&p(0, 0, 0), &split), 7);
}

#[test]
fn box_size_centre_and_corners() {
    let b = AABB::new(p(3, 2, 1), p(5, 7, 4));
    assert_eq!(b.min, p(3, 2, 1));
    assert_eq!(b.max, p(5, 7, 4));
    assert_eq!(b.size(), Vec3::new(2, 5, 3));
    // The centre (4, 4.5, 2.5) is rounded down.
    assert_eq!(b.center(), p(4, 4, 2));
    assert_eq!(AABB::new(p(-3, -3, -3), p(0, -2, 2)).center(), p(-2, -3, -1));
    assert_eq!(
        b.get_points(),
        [
            p(3, 2, 1),
            p(5, 2, 1),
            p(3, 7, 1),
            p(5, 7, 1),
            p(3, 2, 4),
            p(5, 2, 4),
            p(3, 7, 4),
            p(5, 7, 4),
        ]
    );
}

#[test]
fn box_holds_its_faces() {
    let b = AABB::new(p(3, 2, 1), p(5, 7, 4));
    assert!(b.contains(p(3, 2, 1)));
    assert!(b.contains(p(5, 7, 4)));
    assert!(b.contains(p(4, 4, 2)));
    assert!(!b.contains(p(2, 4, 2)));
    assert!(!b.contains(p(4, 8, 2)));
    assert!(!b.contains(p(4, 4, 5)));
}

#[test]
fn sentinel_holds_nothing_and_grows_into_a_point() {
    let none = AABB::empty();
    assert!(!none.contains(p(0, 0, 0)));
    assert!(!none.contains(p(i32::MAX, i32::MAX, i32::MAX)));
    assert!(!none.contains(p(i32::MIN, i32::MIN, i32::MIN)));
    assert_eq!(AABB::grow(none, &p(1, 2, 3)), AABB::new(p(1, 2, 3), p(1, 2, 3)));
    assert_eq!(none.size(), Vec3::new(-(u32::MAX as i64), -(u32::MAX as i64), -(u32::MAX as i64)));
    assert_eq!(none.center(), p(-1, -1, -1));
}

#[test]
fn grow_is_idempotent_and_holds_the_point() {
    let b = AABB::new(p(3, 2, 1), p(5, 7, 4));
    for q in [p(0, 0, 0), p(4, 4, 2), p(9, 2, -6), p(3, 2, 1), p(i32::MIN, 0, i32::MAX)] {
        let once = AABB::grow(b, &q);
        assert!(once.contains(q));
        assert_eq!(AABB::grow(once, &q), once);
        assert!(once.contains(p(3, 2, 1)) && once.contains(p(5, 7, 4)));
    }
    assert_eq!(AABB::grow(b, &p(4, 4, 2)), b);
    assert_eq!(AABB::grow(b, &p(9, 2, -6)), AABB::new(p(3, 2, -6), p(9, 7, 4)));
    // The box given is not changed.
    assert_eq!(b, AABB::new(p(3, 2, 1), p(5, 7, 4)));
}

#[test]
fn distance_to_a_box() {
    let b = AABB::new(p(3, 2, 1), p(5, 7, 4));
    assert_eq!(b.distance_squared_to(&p(4, 4, 2)), 0);
    assert_eq!(b.distance_squared_to(&p(3, 2, 1)), 0);
    assert_eq!(b.distance_squared_to(&p(0, 4, 2)), 9);
    assert_eq!(b.distance_squared_to(&p(0, 0, 0)), 9 + 4 + 1);
    assert_eq!(b.distance_squared_to(&p(7, 9, 10)), 4 + 4 + 36);
}

#[test]
fn octant_parts_of_a_box() {
    let b = AABB::new(p(0, 0, 0), p(10, 10, 10));
    let split = p(4, 5, 6);
    assert_eq!(b.octant(&split, 0), AABB::new(p(4, 5, 6), p(10, 10, 10)));
    assert_eq!(b.octant(&split, 7), AABB::new(p(0, 0, 0), p(3, 4, 5)));
    assert_eq!(b.octant(&split, 1), AABB::new(p(0, 5, 6), p(3, 10, 10)));
    assert_eq!(b.octant(&split, 2), AABB::new(p(4, 0, 6), p(10, 4, 10)));
    assert_eq!(b.octant(&split, 4), AABB::new(p(4, 5, 0), p(10, 10, 5)));
    // A split outside the box leaves one side whole.
    assert_eq!(b.octant(&p(20, 20, 20), 7), b);
    assert_eq!(b.octant(&p(-20, -20, -20), 0), b);
    // Nothing lies below the smallest coordinate.
    let low = b.octant(&p(i32::MIN, 5, 5), 1);
    assert_eq!(low.max.x, i32::MIN);
    assert!(!low.contains(p(0, 7, 7)));
}

#[test]
fn widened_box() {
    let b = AABB::new(p(3, 2, 1), p(5, 7, 4));
    assert_eq!(b.widened(0), Some(b));
    assert_eq!(b.widened(2), Some(AABB::new(p(1, 0, -1), p(7, 9, 6))));
    assert_eq!(b.widened(u32::MAX), None);
    assert_eq!(AABB::new(p(i32::MIN, 0, 0), p(0, 0, 0)).widened(1), None);
    assert_eq!(AABB::new(p(0, 0, 0), p(0, i32::MAX, 0)).widened(1), None);
}

#[test]
fn max_elements_stands_for_its_rule() {
    assert_eq!(<MaxElements<4> as Policy>::policy(), PolicyEnum::MaxElements(4));
    assert_eq!(<MaxElements<0> as Policy>::policy(), PolicyEnum::MaxElements(0));
}
