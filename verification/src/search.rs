//! The stored points within a radius: a descent that leaves out what the
//! classifier rules out.

use crate::aabb::AABB;
use crate::node::Node;
use crate::point::{in_reach, spec_octant_index, square, Point3};
use vstd::prelude::*;

verus! {

impl<T: Copy> Node<T> {
    /// `after` is `before` with the points stored here that lie within `radius`
    /// of `pos` added behind it, each once and with its value.
    pub open spec fn collected(
        self,
        pos: Point3,
        radius: int,
        before: Seq<(Point3, T)>,
        after: Seq<(Point3, T)>,
    ) -> bool {
        &&& before.len() <= after.len()
        &&& forall|k: int| 0 <= k < before.len() ==> #[trigger] after[k] == before[k]
        &&& forall|k: int|
            before.len() <= k < after.len() ==> {
                let hit = #[trigger] after[k];
                &&& self.holds(hit.0)
                &&& self.value_at(hit.0) == hit.1
                &&& in_reach(hit.0, pos, radius)
            }
        &&& forall|p: Point3| #[trigger]
            self.holds(p) && in_reach(p, pos, radius) ==> exists|k: int|
                before.len() <= k < after.len() && (#[trigger] after[k]).0 == p
        &&& forall|j: int, k: int|
            before.len() <= j < k < after.len() ==> (#[trigger] after[j]).0 != (
            #[trigger] after[k]).0
    }

    /// The points stored below that lie within `radius` of `pos`, each with its
    /// value, in the order in which the tree holds them: the children of a
    /// branch one after the other, by their index.
    pub open spec fn listing(self, pos: Point3, radius: int) -> Seq<(Point3, T)>
        decreases self, 9int,
    {
        match self {
            Node::Empty => Seq::empty(),
            Node::Leaf { position, value } => {
                if in_reach(position, pos, radius) {
                    seq![(position, value)]
                } else {
                    Seq::empty()
                }
            },
            Node::Branch { children, split } => self.listing_below(pos, radius, 8),
        }
    }

    /// At a branch, the listing of its first `upto` children.
    pub open spec fn listing_below(self, pos: Point3, radius: int, upto: int) -> Seq<(Point3, T)>
        decreases self, upto,
    {
        if self is Branch && 0 < upto <= self->children.len() && upto <= 8 {
            self.listing_below(pos, radius, upto - 1) + self->children[upto - 1].listing(
                pos,
                radius,
            )
        } else {
            Seq::empty()
        }
    }

    /// Where nothing stored below lies within `radius` of `pos`, the listing is empty.
    pub proof fn lemma_listing_of_none(self, pos: Point3, radius: int)
        requires
            self.wf(),
            forall|p: Point3| #[trigger] self.holds(p) ==> !in_reach(p, pos, radius),
        ensures
            self.listing(pos, radius) == Seq::<(Point3, T)>::empty(),
        decreases self, 9int,
    {
        match self {
            Node::Empty => {},
            Node::Leaf { position, value } => {
                assert(self.holds(position));
            },
            Node::Branch { children, split } => {
                self.lemma_listing_below_of_none(pos, radius, 8);
            },
        }
    }

    proof fn lemma_listing_below_of_none(self, pos: Point3, radius: int, upto: int)
        requires
            self is Branch,
            self.wf(),
            0 <= upto <= 8,
            forall|p: Point3| #[trigger] self.holds(p) ==> !in_reach(p, pos, radius),
        ensures
            self.listing_below(pos, radius, upto) == Seq::<(Point3, T)>::empty(),
        decreases self, upto,
    {
        if upto > 0 {
            let child: Node<T> = self->children[upto - 1];
            self.lemma_listing_below_of_none(pos, radius, upto - 1);
            assert forall|p: Point3| #[trigger] child.holds(p) implies !in_reach(p, pos, radius) by {
                assert(spec_octant_index(p, self->split) == upto - 1);
                assert(self.holds(p));
            }
            child.lemma_listing_of_none(pos, radius);
            assert(self.listing_below(pos, radius, upto) =~= Seq::<(Point3, T)>::empty());
        }
    }

    /// Adds to `found` the points stored below that lie within `radius` of
    /// `pos`, the distance `radius` itself included.
    ///
    /// `region` bounds what is stored below. A branch is left out as a whole
    /// where the classifier rules the sphere out for its region; every leaf
    /// that is reached is tested by its own distance.
    pub fn search_in(
        &self,
        region: &AABB,
        pos: &Point3,
        radius: u32,
        found: &mut Vec<(Point3, T)>,
    )
        requires
            self.wf(),
            self.within(*region),
        ensures
            final(found)@ == old(found)@ + self.listing(*pos, radius as int),
            self.collected(*pos, radius as int, old(found)@, final(found)@),
        decreases self,
    {
        let ghost before: Seq<(Point3, T)> = found@;
        match self {
            Node::Empty => {},
            Node::Leaf { position, value } => {
                let reach: u128 = square(radius as i64);
                if position.distance_squared(pos) <= reach {
                    found.push((*position, *value));
                    proof {
                        let k: int = before.len() as int;
                        assert(found@[k].0 == *position);
                    }
                }
                assert(found@ =~= before + self.listing(*pos, radius as int));
            },
            Node::Branch { children, split } => {
                if region.excludes_sphere(pos, radius) {
                    proof {
                        self.lemma_listing_of_none(*pos, radius as int);
                        assert(found@ =~= before + self.listing(*pos, radius as int));
                    }
                    return ;
                }
                assert(found@ =~= before + self.listing_below(*pos, radius as int, 0));
                let mut i: usize = 0;
                while i < 8
                    invariant
                        i <= 8,
                        self.wf(),
                        self.within(*region),
                        *self is Branch,
                        self->children == *children,
                        self->split == *split,
                        self.collected_below(*pos, radius as int, before, found@, i as int),
                        found@ == before + self.listing_below(*pos, radius as int, i as int),
                    decreases 8 - i,
                {
                    let part: AABB = region.octant(split, i);
                    let ghost middle: Seq<(Point3, T)> = found@;
                    proof {
                        self.lemma_child_within(*region, i as int);
                    }
                    children[i].search_in(&part, pos, radius, found);
                    proof {
                        self.lemma_collected_next(
                            *pos,
                            radius as int,
                            before,
                            middle,
                            found@,
                            i as int,
                        );
                        assert(found@ =~= before + self.listing_below(
                            *pos,
                            radius as int,
                            i as int + 1,
                        ));
                    }
                    i += 1;
                }
            },
        }
    }

    /// At a branch: `after` is `before` with the points within `radius` of `pos`
    /// added that are stored under the first `upto` children.
    pub open spec fn collected_below(
        self,
        pos: Point3,
        radius: int,
        before: Seq<(Point3, T)>,
        after: Seq<(Point3, T)>,
        upto: int,
    ) -> bool {
        &&& before.len() <= after.len()
        &&& forall|k: int| 0 <= k < before.len() ==> #[trigger] after[k] == before[k]
        &&& forall|k: int|
            before.len() <= k < after.len() ==> {
                let hit = #[trigger] after[k];
                &&& self.holds(hit.0)
                &&& self.value_at(hit.0) == hit.1
                &&& in_reach(hit.0, pos, radius)
                &&& spec_octant_index(hit.0, self->split) < upto
            }
        &&& forall|p: Point3| #[trigger]
            self.holds(p) && in_reach(p, pos, radius) && spec_octant_index(p, self->split)
                < upto ==> exists|k: int|
                before.len() <= k < after.len() && (#[trigger] after[k]).0 == p
        &&& forall|j: int, k: int|
            before.len() <= j < k < after.len() ==> (#[trigger] after[j]).0 != (
            #[trigger] after[k]).0
    }

    /// What child `i` adds to the harvest of the children before it is the
    /// harvest of the children up to and with `i`.
    proof fn lemma_collected_next(
        self,
        pos: Point3,
        radius: int,
        before: Seq<(Point3, T)>,
        middle: Seq<(Point3, T)>,
        after: Seq<(Point3, T)>,
        i: int,
    )
        requires
            self is Branch,
            self.wf(),
            0 <= i < 8,
            self.collected_below(pos, radius, before, middle, i),
            self->children[i].collected(pos, radius, middle, after),
        ensures
            self.collected_below(pos, radius, before, after, i + 1),
    {
        let child: Node<T> = self->children[i];
        let split: Point3 = self->split;
        assert forall|k: int| 0 <= k < before.len() implies #[trigger] after[k] == before[k] by {
            assert(after[k] == middle[k]);
        }
        assert forall|k: int| before.len() <= k < after.len() implies {
            let hit = #[trigger] after[k];
            &&& self.holds(hit.0)
            &&& self.value_at(hit.0) == hit.1
            &&& in_reach(hit.0, pos, radius)
            &&& spec_octant_index(hit.0, split) < i + 1
        } by {
            let hit = after[k];
            if k < middle.len() {
                assert(after[k] == middle[k]);
            } else {
                assert(child.holds(hit.0));
                assert(spec_octant_index(hit.0, split) == i);
                assert(self.holds(hit.0));
                assert(self.value_at(hit.0) == child.value_at(hit.0));
            }
        }
        assert forall|p: Point3| #[trigger]
            self.holds(p) && in_reach(p, pos, radius) && spec_octant_index(p, split) < i
                + 1 implies exists|k: int|
            before.len() <= k < after.len() && (#[trigger] after[k]).0 == p by {
            if spec_octant_index(p, split) < i {
                let k: int = choose|k: int|
                    before.len() <= k < middle.len() && (#[trigger] middle[k]).0 == p;
                assert(after[k] == middle[k]);
            } else {
                assert(child.holds(p));
                let k: int = choose|k: int|
                    middle.len() <= k < after.len() && (#[trigger] after[k]).0 == p;
                assert(after[k].0 == p);
            }
        }
        assert forall|j: int, k: int| before.len() <= j < k < after.len() implies (
        #[trigger] after[j]).0 != (#[trigger] after[k]).0 by {
            if k < middle.len() {
                assert(after[j] == middle[j]);
                assert(after[k] == middle[k]);
            } else if j < middle.len() {
                assert(after[j] == middle[j]);
                assert(spec_octant_index(middle[j].0, split) < i);
                assert(child.holds(after[k].0));
                assert(spec_octant_index(after[k].0, split) == i);
            }
        }
    }
}

} // verus!
