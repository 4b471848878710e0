use octree::{Node, Octree, Point3, AABB};

#[test]
fn it_works() {
    assert_eq!(2 + 2, 4);
}

fn p(x: i32, y: i32, z: i32) -> Point3 {
    Point3::new(x, y, z)
}

fn dist2(a: Point3, b: Point3) -> u128 {
    let dx = (a.x as i64 - b.x as i64) as i128;
    let dy = (a.y as i64 - b.y as i64) as i128;
    let dz = (a.z as i64 - b.z as i64) as i128;
    (dx * dx + dy * dy + dz * dz) as u128
}

/// A fixed scatter of points, some of them stored twice.
fn scatter(n: usize, span: i32) -> Vec<(Point3, u32)> {
    let mut state: u64 = 0x2545_f491_4f6c_dd1d;
    let mut next = move || {
        state = state.wrapping_mul(6364136223846793005).wrapping_add(1442695040888963407);
        ((state >> 33) % (2 * span as u64 + 1)) as i32 - span
    };
    let mut out = Vec::new();
    for i in 0..n {
        let x = next();
        let y = next();
        let z = next();
        out.push((p(x, y, z), i as u32));
    }
    out
}

/// What a look at every stored point gives: the last value stored at each place.
fn last_values(entries: &[(Point3, u32)]) -> Vec<(Point3, u32)> {
    let mut out: Vec<(Point3, u32)> = Vec::new();
    for (q, v) in entries {
        match out.iter_mut().find(|(r, _)| r == q) {
            Some(slot) => slot.1 = *v,
            None => out.push((*q, *v)),
        }
    }
    out
}

fn sorted(mut hits: Vec<(Point3, u32)>) -> Vec<(i32, i32, i32, u32)> {
    let mut keys: Vec<(i32, i32, i32, u32)> =
        hits.drain(..).map(|(q, v)| (q.x, q.y, q.z, v)).collect();
    keys.sort();
    keys
}

fn count_leaves(node: &Node<u32>) -> usize {
    match node {
        Node::Empty => 0,
        Node::Leaf { .. } => 1,
        Node::Branch { children, .. } => children.iter().map(count_leaves).sum(),
    }
}

#[test]
fn new_tree_is_empty() {
    let tree: Octree<u32> = Octree::new();
    assert!(matches!(tree.root, Node::Empty));
    assert_eq!(tree.aabb, AABB::empty());
    assert_eq!(tree.nearest_neighbor(p(0, 0, 0)), None);
    assert!(tree.search(p(0, 0, 0), u32::MAX).is_empty());
}

#[test]
fn first_point_becomes_the_root_leaf() {
    let mut tree: Octree<u32> = Octree::new();
    tree.insert(p(3, -4, 5), 9);
    assert!(matches!(tree.root, Node::Leaf { position, value: 9 } if position == p(3, -4, 5)));
    assert_eq!(tree.aabb, AABB::new(p(3, -4, 5), p(3, -4, 5)));
}

#[test]
fn second_point_splits_the_leaf_at_the_midpoint() {
    let mut tree: Octree<u32> = Octree::new();
    tree.insert(p(0, 0, 0), 1);
    tree.insert(p(4, 0, 0), 2);
    match &tree.root {
        Node::Branch { children, split } => {
            assert_eq!(*split, p(2, 0, 0));
            assert_eq!(children.len(), 8);
            // (0, 0, 0) lies below the split on x alone: octant 1. (4, 0, 0) lies below on no axis: octant 0.
            assert!(matches!(children[1], Node::Leaf { position, value: 1 } if position == p(0, 0, 0)));
            assert!(matches!(children[0], Node::Leaf { position, value: 2 } if position == p(4, 0, 0)));
            for i in 2..8 {
                assert!(matches!(children[i], Node::Empty));
            }
        }
        _ => panic!("the root did not become a branch"),
    }
    assert_eq!(tree.aabb, AABB::new(p(0, 0, 0), p(4, 0, 0)));
}

#[test]
fn octant_index_packs_x_y_z_into_bits_0_1_2() {
    let mut tree: Octree<u32> = Octree::new();
    tree.insert(p(10, 10, 10), 0);
    tree.insert(p(0, 0, 0), 7);
    // The split is (5, 5, 5); the second point lies below it on all three axes.
    tree.insert(p(0, 9, 9), 1);
    tree.insert(p(9, 0, 9), 2);
    tree.insert(p(9, 9, 0), 4);
    match &tree.root {
        Node::Branch { children, split } => {
            assert_eq!(*split, p(5, 5, 5));
            assert!(matches!(children[0], Node::Leaf { value: 0, .. }));
            assert!(matches!(children[7], Node::Leaf { value: 7, .. }));
            assert!(matches!(children[1], Node::Leaf { value: 1, .. }));
            assert!(matches!(children[2], Node::Leaf { value: 2, .. }));
            assert!(matches!(children[4], Node::Leaf { value: 4, .. }));
        }
        _ => panic!("the root did not become a branch"),
    }
}

#[test]
fn neighbours_on_the_lattice_are_kept_apart() {
    // The midpoint of two neighbours falls between lattice lines: no point may be lost to that.
    let mut tree: Octree<u32> = Octree::new();
    tree.insert(p(0, 0, 0), 1);
    tree.insert(p(1, 0, 0), 2);
    tree.insert(p(0, 1, 0), 3);
    tree.insert(p(0, 0, 1), 4);
    tree.insert(p(-1, 0, 0), 5);
    tree.insert(p(1, 1, 1), 6);
    assert_eq!(count_leaves(&tree.root), 6);
    for (q, v) in [
        (p(0, 0, 0), 1),
        (p(1, 0, 0), 2),
        (p(0, 1, 0), 3),
        (p(0, 0, 1), 4),
        (p(-1, 0, 0), 5),
        (p(1, 1, 1), 6),
    ] {
        assert_eq!(tree.nearest_neighbor(q), Some((q, v)));
    }
    assert_eq!(tree.search(p(0, 0, 0), 1).len(), 5);
}

#[test]
fn extreme_coordinates_are_kept_apart() {
    let mut tree: Octree<u32> = Octree::new();
    tree.insert(p(i32::MIN, i32::MIN, i32::MIN), 1);
    tree.insert(p(i32::MAX, i32::MAX, i32::MAX), 2);
    tree.insert(p(i32::MIN, i32::MAX, 0), 3);
    tree.insert(p(i32::MIN + 1, i32::MIN, i32::MIN), 4);
    assert_eq!(count_leaves(&tree.root), 4);
    assert_eq!(
        tree.aabb,
        AABB::new(p(i32::MIN, i32::MIN, i32::MIN), p(i32::MAX, i32::MAX, i32::MAX))
    );
    assert_eq!(tree.nearest_neighbor(p(i32::MIN, i32::MIN, i32::MIN)), Some((p(i32::MIN, i32::MIN, i32::MIN), 1)));
    assert_eq!(tree.nearest_neighbor(p(i32::MAX, i32::MAX, i32::MAX - 5)), Some((p(i32::MAX, i32::MAX, i32::MAX), 2)));
    assert_eq!(sorted(tree.search(p(i32::MIN, i32::MIN, i32::MIN), 1)).len(), 2);
    assert_eq!(tree.search(p(0, 0, 0), u32::MAX).len(), 4);
    assert_eq!(sorted(tree.search(p(0, 0, 0), 3_221_225_472)), vec![(i32::MIN, i32::MAX, 0, 3)]);
}

#[test]
fn storing_at_a_place_twice_replaces_the_value() {
    let mut tree: Octree<u32> = Octree::new();
    tree.insert(p(2, 2, 2), 1);
    tree.insert(p(2, 2, 2), 2);
    assert!(matches!(tree.root, Node::Leaf { value: 2, .. }));
    tree.insert(p(5, 5, 5), 3);
    tree.insert(p(2, 2, 2), 4);
    assert_eq!(count_leaves(&tree.root), 2);
    assert_eq!(tree.nearest_neighbor(p(2, 2, 2)), Some((p(2, 2, 2), 4)));
    assert_eq!(sorted(tree.search(p(2, 2, 2), 0)), vec![(2, 2, 2, 4)]);
}

#[test]
fn bound_grows_with_every_point_outside_it() {
    let mut tree: Octree<u32> = Octree::new();
    tree.insert(p(0, 0, 0), 0);
    tree.insert(p(1, 1, 1), 1);
    tree.insert(p(-7, 20, 0), 2);
    assert_eq!(tree.aabb, AABB::new(p(-7, 0, 0), p(1, 20, 1)));
    // A point outside the bound is stored like any other.
    assert_eq!(tree.nearest_neighbor(p(-7, 19, 0)), Some((p(-7, 20, 0), 2)));
    tree.insert(p(0, 10, 0), 3);
    assert_eq!(tree.aabb, AABB::new(p(-7, 0, 0), p(1, 20, 1)));
    assert_eq!(count_leaves(&tree.root), 4);
}

#[test]
fn stored_point_is_its_own_nearest_neighbour() {
    let entries = scatter(80, 12);
    let mut tree: Octree<u32> = Octree::new();
    for (q, v) in &entries {
        tree.insert(*q, *v);
        assert_eq!(tree.nearest_neighbor(*q), Some((*q, *v)));
    }
}

#[test]
fn nearest_neighbour_is_as_near_as_any_point() {
    let entries = scatter(120, 15);
    let mut tree: Octree<u32> = Octree::new();
    for (q, v) in &entries {
        tree.insert(*q, *v);
    }
    let stored = last_values(&entries);
    for (pos, _) in scatter(60, 25) {
        let (found, value) = tree.nearest_neighbor(pos).expect("the tree is not empty");
        assert!(stored.contains(&(found, value)));
        let best = stored.iter().map(|(q, _)| dist2(*q, pos)).min().unwrap();
        assert_eq!(dist2(found, pos), best);
    }
}

#[test]
fn nearest_neighbour_exact_values() {
    let mut tree: Octree<u32> = Octree::new();
    tree.insert(p(0, 0, 0), 10);
    tree.insert(p(10, 0, 0), 20);
    tree.insert(p(0, 10, 0), 30);
    tree.insert(p(10, 10, 10), 40);
    assert_eq!(tree.nearest_neighbor(p(1, 1, 1)), Some((p(0, 0, 0), 10)));
    assert_eq!(tree.nearest_neighbor(p(9, 2, 0)), Some((p(10, 0, 0), 20)));
    assert_eq!(tree.nearest_neighbor(p(-3, 30, 0)), Some((p(0, 10, 0), 30)));
    assert_eq!(tree.nearest_neighbor(p(8, 8, 8)), Some((p(10, 10, 10), 40)));
}

#[test]
fn search_gives_what_a_scan_gives() {
    let entries = scatter(150, 10);
    let mut tree: Octree<u32> = Octree::new();
    for (q, v) in &entries {
        tree.insert(*q, *v);
    }
    let stored = last_values(&entries);
    assert_eq!(count_leaves(&tree.root), stored.len());
    for (pos, i) in scatter(40, 14) {
        for radius in [0u32, 1, 2, 3, 5, 8, 13, 21, 40] {
            let radius = radius + (i % 2);
            let scan: Vec<(Point3, u32)> = stored
                .iter()
                .copied()
                .filter(|(q, _)| dist2(*q, pos) <= (radius as u128) * (radius as u128))
                .collect();
            assert_eq!(sorted(tree.search(pos, radius)), sorted(scan));
        }
    }
}

#[test]
fn search_takes_the_point_at_the_radius_itself() {
    let mut tree: Octree<u32> = Octree::new();
    tree.insert(p(3, 4, 0), 1);
    tree.insert(p(0, 0, 6), 2);
    tree.insert(p(-5, 0, 0), 3);
    tree.insert(p(0, 0, 0), 4);
    assert_eq!(
        sorted(tree.search(p(0, 0, 0), 5)),
        vec![(-5, 0, 0, 3), (0, 0, 0, 4), (3, 4, 0, 1)]
    );
    assert_eq!(sorted(tree.search(p(0, 0, 0), 4)), vec![(0, 0, 0, 4)]);
    assert_eq!(tree.search(p(0, 0, 0), 6).len(), 4);
    assert!(tree.search(p(40, 40, 40), 5).is_empty());
}

#[test]
fn search_finds_points_on_a_line_and_near_the_rim() {
    // Boxes without volume, and small boxes near the rim of a large sphere.
    let mut tree: Octree<u32> = Octree::new();
    for x in -10..=10 {
        tree.insert(p(x, 0, 0), (x + 10) as u32);
    }
    assert_eq!(
        sorted(tree.search(p(0, 1, 0), 2)),
        vec![(-1, 0, 0, 9), (0, 0, 0, 10), (1, 0, 0, 11)]
    );
    let mut rim: Octree<u32> = Octree::new();
    rim.insert(p(19, 0, 0), 1);
    rim.insert(p(23, 0, 0), 2);
    assert_eq!(sorted(rim.search(p(0, 0, 0), 20)), vec![(19, 0, 0, 1)]);
    assert_eq!(sorted(rim.search(p(0, 0, 0), 19)), vec![(19, 0, 0, 1)]);
    assert!(rim.search(p(0, 0, 0), 18).is_empty());
}

#[test]
fn search_is_the_same_every_time() {
    let entries = scatter(50, 6);
    let mut tree: Octree<u32> = Octree::new();
    for (q, v) in &entries {
        tree.insert(*q, *v);
    }
    let first = tree.search(p(1, -1, 2), 5);
    let second = tree.search(p(1, -1, 2), 5);
    assert_eq!(first, second);
}

#[test]
fn node_alone_stores_and_finds() {
    let mut node: Node<u32> = Node::vacant();
    assert!(matches!(node, Node::Empty));
    node.insert(p(1, 1, 1), 5);
    node.insert(p(-1, -1, -1), 6);
    let region = AABB::new(p(-1, -1, -1), p(1, 1, 1));
    let found = node.nearest_in(&region, &p(2, 2, 2), None).expect("two points are stored");
    assert_eq!(found.position, p(1, 1, 1));
    assert_eq!(found.value, 5);
    assert_eq!(found.distance_squared, 3);
    let mut hits: Vec<(Point3, u32)> = vec![(p(9, 9, 9), 0)];
    node.search_in(&region, &p(0, 0, 0), 2, &mut hits);
    assert_eq!(hits.len(), 3);
    assert_eq!(hits[0], (p(9, 9, 9), 0));
}

#[test]
fn of_two_equally_near_the_first_on_the_way_is_found() {
    let mut tree: Octree<u32> = Octree::new();
    tree.insert(p(0, 0, 0), 1);
    tree.insert(p(4, 0, 0), 2);
    // The split is (2, 0, 0). Seen from there both points are 2 away; the
    // octant of (2, 0, 0) is octant 0, where (4, 0, 0) lies.
    assert_eq!(tree.nearest_neighbor(p(2, 0, 0)), Some((p(4, 0, 0), 2)));
    // Seen from (2, 3, 0) the same holds, one octant is as good as the other.
    assert_eq!(tree.nearest_neighbor(p(2, 3, 0)), Some((p(4, 0, 0), 2)));
    // From below the split the octant of the first point comes first.
    assert_eq!(tree.nearest_neighbor(p(1, 0, 0)), Some((p(0, 0, 0), 1)));
}

#[test]
fn search_lists_the_children_by_their_index() {
    let mut tree: Octree<u32> = Octree::new();
    tree.insert(p(0, 0, 0), 1);
    tree.insert(p(4, 0, 0), 2);
    tree.insert(p(0, 4, 0), 3);
    // Around the split (2, 0, 0): (4, 0, 0) lies in octant 0, the two others in
    // octant 1, which is split again at (0, 2, 0): there (0, 4, 0) lies in octant 0
    // and (0, 0, 0) in octant 2.
    assert_eq!(
        tree.search(p(2, 2, 0), 10),
        vec![(p(4, 0, 0), 2), (p(0, 4, 0), 3), (p(0, 0, 0), 1)]
    );
    assert_eq!(tree.search(p(0, 0, 0), 4), vec![(p(4, 0, 0), 2), (p(0, 4, 0), 3), (p(0, 0, 0), 1)]);
    assert_eq!(tree.search(p(0, 0, 0), 3), vec![(p(0, 0, 0), 1)]);
}
