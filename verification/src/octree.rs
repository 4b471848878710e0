//! The tree: a root node and the tight bound of what it stores.

use crate::aabb::{lemma_grow_contained, lemma_hull_grows, AABB};
use crate::nearest::{nearest_among, Candidate};
use crate::node::Node;
use crate::point::{in_reach, lemma_dist2_zero, Point3};
use vstd::prelude::*;

verus! {

/// A spatial index over lattice points, each stored with a value. A point is
/// stored once: storing it again replaces its value.
pub struct Octree<T> {
    pub root: Node<T>,
    /// The tight bound of the stored points; the sentinel while there are none.
    pub aabb: AABB,
}

impl<T> View for Octree<T> {
    type V = Map<Point3, T>;

    /// The stored points with their values.
    open spec fn view(&self) -> Map<Point3, T> {
        self.root.points()
    }
}

/// `found` is a point of `m` that is nearest to `pos`, with its value; it is
/// nothing exactly when `m` is empty.
pub open spec fn is_nearest<T>(m: Map<Point3, T>, pos: Point3, found: Option<(Point3, T)>) -> bool {
    match found {
        None => forall|p: Point3| !#[trigger] m.dom().contains(p),
        Some(hit) => {
            &&& m.dom().contains(hit.0)
            &&& m[hit.0] == hit.1
            &&& forall|q: Point3| #[trigger] m.dom().contains(q) ==> hit.0.dist2(pos) <= q.dist2(pos)
        },
    }
}

/// `found` lists the points of `m` within `radius` of `pos`, each once and
/// with its value, and nothing else.
pub open spec fn is_search_result<T>(
    m: Map<Point3, T>,
    pos: Point3,
    radius: int,
    found: Seq<(Point3, T)>,
) -> bool {
    &&& forall|k: int|
        0 <= k < found.len() ==> {
            let hit = #[trigger] found[k];
            &&& m.dom().contains(hit.0)
            &&& m[hit.0] == hit.1
            &&& in_reach(hit.0, pos, radius)
        }
    &&& forall|p: Point3| #[trigger]
        m.dom().contains(p) && in_reach(p, pos, radius) ==> exists|k: int|
            0 <= k < found.len() && (#[trigger] found[k]).0 == p
    &&& forall|j: int, k: int|
        0 <= j < k < found.len() ==> (#[trigger] found[j]).0 != (#[trigger] found[k]).0
}

impl<T> Octree<T> {
    /// The nodes are in order, and `aabb` is the tight bound of the stored points.
    pub open spec fn wf(self) -> bool {
        &&& self.root.wf()
        &&& self.aabb.is_hull_of(self@.dom())
    }

    /// The stored point nearest to `pos`, with its value; of several equally
    /// near, the one that a search comes by first.
    pub open spec fn spec_nearest_neighbor(self, pos: Point3) -> Option<(Point3, T)> {
        match nearest_among(None, self.root.visiting(pos), pos) {
            Some(c) => Some((c.position, c.value)),
            None => None,
        }
    }
}

impl<T: Copy> Octree<T> {
    /// A tree that stores nothing.
    pub fn new() -> (r: Self)
        ensures
            r.wf(),
            r@ == Map::<Point3, T>::empty(),
            r.root == Node::<T>::Empty,
            r.aabb == AABB::spec_empty(),
    {
        let r = Octree { root: Node::Empty, aabb: AABB::empty() };
        assert(r@ =~= Map::<Point3, T>::empty());
        r
    }

    /// Stores `val` at `pos`. The bound grows to hold `pos`; a point that was
    /// stored at `pos` before keeps its place and takes the new value.
    pub fn insert(&mut self, pos: Point3, val: T)
        requires
            old(self).wf(),
        ensures
            final(self).wf(),
            final(self)@ == old(self)@.insert(pos, val),
            final(self).aabb == AABB::spec_grow(old(self).aabb, pos),
            old(self).root.inserted(pos, val, final(self).root),
    {
        proof {
            lemma_hull_grows(self.aabb, self@.dom(), pos);
            if self.aabb.spec_contains(pos) {
                lemma_grow_contained(self.aabb, pos);
            }
        }
        if !self.aabb.contains(pos) {
            self.aabb = AABB::grow(self.aabb, &pos);
        }
        self.root.insert(pos, val);
        assert(self@.dom() =~= old(self)@.dom().insert(pos));
    }

    /// A stored point that is nearest to `pos`, with its value; nothing if the
    /// tree stores nothing.
    pub fn nearest_neighbor(&self, pos: Point3) -> (r: Option<(Point3, T)>)
        requires
            self.wf(),
        ensures
            r == self.spec_nearest_neighbor(pos),
            is_nearest(self@, pos, r),
    {
        let found: Candidate<T> = self.root.nearest_in(&self.aabb, &pos, None);
        match found {
            Some(c) => Some((c.position, c.value)),
            None => None,
        }
    }

    /// The stored points within `radius` of `pos`, each with its value. A point
    /// at the distance `radius` itself is among them.
    pub fn search(&self, pos: Point3, radius: u32) -> (r: Vec<(Point3, T)>)
        requires
            self.wf(),
        ensures
            r@ == self.root.listing(pos, radius as int),
            is_search_result(self@, pos, radius as int, r@),
    {
        let mut found: Vec<(Point3, T)> = Vec::new();
        self.root.search_in(&self.aabb, &pos, radius, &mut found);
        found
    }
}

/// After a point is stored, the nearest neighbour of its position is the
/// point itself with the value stored.
pub proof fn lemma_stored_point_is_its_nearest<T>(
    m: Map<Point3, T>,
    p: Point3,
    v: T,
    found: Option<(Point3, T)>,
)
    requires
        is_nearest(m.insert(p, v), p, found),
    ensures
        found == Some((p, v)),
{
    let after: Map<Point3, T> = m.insert(p, v);
    assert(after.dom().contains(p));
    let hit: (Point3, T) = found->0;
    lemma_dist2_zero(p, p);
    lemma_dist2_zero(hit.0, p);
}

/// A search gives the same points as a look at every stored point in turn.
pub proof fn lemma_search_is_the_scan<T>(
    m: Map<Point3, T>,
    pos: Point3,
    radius: int,
    found: Seq<(Point3, T)>,
)
    requires
        is_search_result(m, pos, radius, found),
    ensures
        found.map_values(|hit: (Point3, T)| hit.0).to_set() == m.dom().filter(
            |p: Point3| in_reach(p, pos, radius),
        ),
        found.map_values(|hit: (Point3, T)| hit.0).no_duplicates(),
{
    let places: Seq<Point3> = found.map_values(|hit: (Point3, T)| hit.0);
    let near: Set<Point3> = m.dom().filter(|p: Point3| in_reach(p, pos, radius));
    assert forall|p: Point3| places.to_set().contains(p) <==> near.contains(p) by {
        if places.to_set().contains(p) {
            let k: int = choose|k: int| 0 <= k < places.len() && places[k] == p;
            assert(found[k].0 == p);
        }
        if near.contains(p) {
            let k: int = choose|k: int| 0 <= k < found.len() && (#[trigger] found[k]).0 == p;
            assert(places[k] == p);
        }
    }
    assert(places.to_set() =~= near);
    assert forall|j: int, k: int| 0 <= j < places.len() && 0 <= k < places.len() && j != k implies places[j]
        != places[k] by {
        assert(places[j] == found[j].0 && places[k] == found[k].0);
    }
}

} // verus!
