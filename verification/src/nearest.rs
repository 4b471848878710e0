//! The nearest stored point: a descent that leaves out what cannot be nearer.

use crate::aabb::{lemma_distance_bounds_below, AABB};
use crate::node::Node;
use crate::point::{octant_index, spec_octant_index, Point3};
use vstd::prelude::*;

verus! {

/// The nearest point found so far on a search.
pub struct Nearest<T> {
    /// The squared distance from the place asked for to `position`.
    pub distance_squared: u128,
    pub position: Point3,
    pub value: T,
}

/// The nearest point found so far on a search, if any was found yet.
pub type Candidate<T> = Option<Nearest<T>>;

/// The candidate that a point makes, seen from `pos`.
pub open spec fn candidate_at<T>(hit: (Point3, T), pos: Point3) -> Nearest<T> {
    Nearest { distance_squared: hit.0.dist2(pos) as u128, position: hit.0, value: hit.1 }
}

/// The nearest to `pos` of `best` and the points of `s`; of several equally
/// near, `best` before any point of `s`, and of those the one that comes first.
pub open spec fn nearest_among<T>(best: Candidate<T>, s: Seq<(Point3, T)>, pos: Point3) -> Candidate<
    T,
>
    decreases s.len(),
{
    if s.len() == 0 {
        best
    } else {
        let before = nearest_among(best, s.drop_last(), pos);
        match before {
            Some(b) => {
                if b.distance_squared <= s.last().0.dist2(pos) {
                    before
                } else {
                    Some(candidate_at(s.last(), pos))
                }
            },
            None => Some(candidate_at(s.last(), pos)),
        }
    }
}

/// The nearest among two runs of points, one behind the other, is found by
/// carrying the nearest of the first run through the second.
pub proof fn lemma_nearest_among_runs<T>(
    best: Candidate<T>,
    a: Seq<(Point3, T)>,
    b: Seq<(Point3, T)>,
    pos: Point3,
)
    ensures
        nearest_among(best, a + b, pos) == nearest_among(nearest_among(best, a, pos), b, pos),
    decreases b.len(),
{
    if b.len() == 0 {
        assert(a + b =~= a);
    } else {
        assert((a + b).drop_last() =~= a + b.drop_last());
        assert((a + b).last() == b.last());
        lemma_nearest_among_runs(best, a, b.drop_last(), pos);
    }
}

/// A candidate that no point of a run is nearer than stays.
pub proof fn lemma_nearest_among_stays<T>(best: Candidate<T>, s: Seq<(Point3, T)>, pos: Point3)
    requires
        best is Some,
        forall|k: int| 0 <= k < s.len() ==> best->0.distance_squared <= (#[trigger] s[k]).0.dist2(pos),
    ensures
        nearest_among(best, s, pos) == best,
    decreases s.len(),
{
    if s.len() > 0 {
        let front: Seq<(Point3, T)> = s.drop_last();
        assert forall|k: int| 0 <= k < front.len() implies best->0.distance_squared <= (
        #[trigger] front[k]).0.dist2(pos) by {
            assert(front[k] == s[k]);
        }
        lemma_nearest_among_stays(best, front, pos);
        assert(s.last() == s[s.len() - 1]);
    }
}

impl<T> Node<T> {
    /// The stored points with their values, in the order in which a search for
    /// the nearest to `pos` comes by them: at a branch first what lies under the
    /// octant of `pos`, then what lies under the other children, by their index.
    pub open spec fn visiting(self, pos: Point3) -> Seq<(Point3, T)>
        decreases self, 9int,
    {
        match self {
            Node::Empty => Seq::empty(),
            Node::Leaf { position, value } => seq![(position, value)],
            Node::Branch { children, split } => {
                if children.len() == 8 {
                    children[spec_octant_index(pos, split)].visiting(pos) + self.visiting_others(
                        pos,
                        8,
                    )
                } else {
                    Seq::empty()
                }
            },
        }
    }

    /// At a branch, what lies under the first `upto` children, the child of the
    /// octant of `pos` left out.
    pub open spec fn visiting_others(self, pos: Point3, upto: int) -> Seq<(Point3, T)>
        decreases self, upto,
    {
        if self is Branch && 0 < upto <= 8 && self->children.len() == 8 {
            if upto - 1 == spec_octant_index(pos, self->split) {
                self.visiting_others(pos, upto - 1)
            } else {
                self.visiting_others(pos, upto - 1) + self->children[upto - 1].visiting(pos)
            }
        } else {
            Seq::empty()
        }
    }

    /// What a search comes by is stored.
    pub proof fn lemma_visiting_is_stored(self, pos: Point3)
        requires
            self.wf(),
        ensures
            forall|k: int|
                0 <= k < self.visiting(pos).len() ==> self.holds((#[trigger] self.visiting(
                    pos,
                )[k]).0),
        decreases self, 9int,
    {
        match self {
            Node::Empty => {},
            Node::Leaf { position, value } => {},
            Node::Branch { children, split } => {
                let home: int = spec_octant_index(pos, split);
                children[home].lemma_visiting_is_stored(pos);
                self.lemma_visiting_others_is_stored(pos, 8);
                let first: Seq<(Point3, T)> = children[home].visiting(pos);
                let rest: Seq<(Point3, T)> = self.visiting_others(pos, 8);
                assert forall|k: int| 0 <= k < self.visiting(pos).len() implies self.holds(
                    (#[trigger] self.visiting(pos)[k]).0,
                ) by {
                    if k < first.len() {
                        let q: Point3 = first[k].0;
                        assert(self.visiting(pos)[k] == first[k]);
                        assert(children[home].holds(q));
                        assert(spec_octant_index(q, split) == home);
                    } else {
                        assert(self.visiting(pos)[k] == rest[k - first.len()]);
                    }
                }
            },
        }
    }

    proof fn lemma_visiting_others_is_stored(self, pos: Point3, upto: int)
        requires
            self is Branch,
            self.wf(),
            0 <= upto <= 8,
        ensures
            forall|k: int|
                0 <= k < self.visiting_others(pos, upto).len() ==> self.holds(
                    (#[trigger] self.visiting_others(pos, upto)[k]).0,
                ),
        decreases self, upto,
    {
        if upto > 0 {
            self.lemma_visiting_others_is_stored(pos, upto - 1);
            if upto - 1 != spec_octant_index(pos, self->split) {
                let child: Node<T> = self->children[upto - 1];
                child.lemma_visiting_is_stored(pos);
                let front: Seq<(Point3, T)> = self.visiting_others(pos, upto - 1);
                let back: Seq<(Point3, T)> = child.visiting(pos);
                assert forall|k: int|
                    0 <= k < self.visiting_others(pos, upto).len() implies self.holds(
                    (#[trigger] self.visiting_others(pos, upto)[k]).0,
                ) by {
                    if k < front.len() {
                        assert(self.visiting_others(pos, upto)[k] == front[k]);
                    } else {
                        let q: Point3 = back[k - front.len()].0;
                        assert(self.visiting_others(pos, upto)[k] == back[k - front.len()]);
                        assert(child.holds(q));
                        assert(spec_octant_index(q, self->split) == upto - 1);
                    }
                }
            }
        }
    }
}

impl<T: Copy> Node<T> {
    /// `found` is `best` or a point stored here, is no further from `pos` than
    /// `best`, and is there whenever `best` is.
    pub open spec fn candidate_from(self, pos: Point3, best: Candidate<T>, found: Candidate<T>)
        -> bool {
        match found {
            None => best is None,
            Some(c) => {
                &&& c.distance_squared == c.position.dist2(pos)
                &&& found == best || (self.holds(c.position) && self.value_at(c.position) == c.value)
                &&& best matches Some(b) ==> c.distance_squared <= b.distance_squared
            },
        }
    }

    /// No point stored here is nearer to `pos` than `found`; without a `found`,
    /// nothing is stored here.
    pub open spec fn none_nearer(self, pos: Point3, found: Candidate<T>) -> bool {
        match found {
            None => forall|p: Point3| !#[trigger] self.holds(p),
            Some(c) => forall|q: Point3| #[trigger] self.holds(q) ==> c.distance_squared <= q.dist2(pos),
        }
    }

    /// Carries the nearest point found so far through this subtree.
    ///
    /// `region` bounds what is stored below. At a branch the octant of `pos` is
    /// searched first; another octant is entered only where its part of the
    /// region comes nearer to `pos` than the best point so far. Of two points
    /// equally near, the one found first stays.
    pub fn nearest_in(&self, region: &AABB, pos: &Point3, best: Candidate<T>) -> (found: Candidate<
        T,
    >)
        requires
            self.wf(),
            self.within(*region),
            best matches Some(b) ==> b.distance_squared == b.position.dist2(*pos),
        ensures
            found == nearest_among(best, self.visiting(*pos), *pos),
            self.candidate_from(*pos, best, found),
            self.none_nearer(*pos, found),
        decreases self,
    {
        match self {
            Node::Empty => best,
            Node::Leaf { position, value } => {
                let distance: u128 = position.distance_squared(pos);
                proof {
                    let run: Seq<(Point3, T)> = self.visiting(*pos);
                    assert(run.drop_last() =~= Seq::<(Point3, T)>::empty());
                    assert(nearest_among(best, run.drop_last(), *pos) == best);
                    assert(run.last() == (*position, *value));
                }
                match &best {
                    Some(b) => {
                        if b.distance_squared <= distance {
                            best
                        } else {
                            Some(
                                Nearest {
                                    distance_squared: distance,
                                    position: *position,
                                    value: *value,
                                },
                            )
                        }
                    },
                    None => Some(
                        Nearest { distance_squared: distance, position: *position, value: *value },
                    ),
                }
            },
            Node::Branch { children, split } => {
                let home: usize = octant_index(pos, split);
                let home_region: AABB = region.octant(split, home);
                proof {
                    self.lemma_child_within(*region, home as int);
                }
                let mut found: Candidate<T> = children[home].nearest_in(&home_region, pos, best);
                let ghost first: Seq<(Point3, T)> = children[home as int].visiting(*pos);
                proof {
                    self.lemma_child_candidate(home as int, *pos, best, best, found);
                    assert(first + self.visiting_others(*pos, 0) =~= first);
                }
                let mut i: usize = 0;
                while i < 8
                    invariant
                        i <= 8,
                        home == spec_octant_index(*pos, *split),
                        self.wf(),
                        self.within(*region),
                        *self is Branch,
                        self->children == *children,
                        self->split == *split,
                        best matches Some(b) ==> b.distance_squared == b.position.dist2(*pos),
                        self.candidate_from(*pos, best, found),
                        first == children[home as int].visiting(*pos),
                        found == nearest_among(
                            best,
                            first + self.visiting_others(*pos, i as int),
                            *pos,
                        ),
                        forall|j: int|
                            0 <= j < 8 && (j < i || j == home) ==> (#[trigger] children[j]).none_nearer(
                                *pos,
                                found,
                            ),
                    decreases 8 - i,
                {
                    if i != home {
                        let part: AABB = region.octant(split, i);
                        proof {
                            self.lemma_child_within(*region, i as int);
                        }
                        let enter: bool = match &found {
                            None => true,
                            Some(c) => part.distance_squared_to(pos) < c.distance_squared,
                        };
                        let ghost so_far: Seq<(Point3, T)> = first + self.visiting_others(
                            *pos,
                            i as int,
                        );
                        let ghost run: Seq<(Point3, T)> = children[i as int].visiting(*pos);
                        proof {
                            assert(first + self.visiting_others(*pos, i as int + 1) =~= so_far
                                + run);
                            lemma_nearest_among_runs(best, so_far, run, *pos);
                        }
                        if enter {
                            let ghost before: Candidate<T> = found;
                            found = children[i as usize].nearest_in(&part, pos, found);
                            proof {
                                self.lemma_child_candidate(i as int, *pos, best, before, found);
                                assert forall|j: int|
                                    0 <= j < 8 && (j < i || j == home) implies (
                                #[trigger] children[j]).none_nearer(*pos, found) by {
                                    children[j].lemma_none_nearer_carries(*pos, before, found);
                                }
                            }
                        } else {
                            proof {
                                children[i as int].lemma_far_region_holds_none_nearer(
                                    part,
                                    *pos,
                                    found,
                                );
                                children[i as int].lemma_visiting_is_stored(*pos);
                                lemma_nearest_among_stays(found, run, *pos);
                            }
                        }
                    }
                    i += 1;
                }
                proof {
                    self.lemma_none_nearer_from_children(*pos, found);
                }
                found
            },
        }
    }

    /// What child `i` of a branch hands on as its candidate is a candidate of the branch.
    proof fn lemma_child_candidate(
        self,
        i: int,
        pos: Point3,
        best: Candidate<T>,
        before: Candidate<T>,
        after: Candidate<T>,
    )
        requires
            self is Branch,
            self.wf(),
            0 <= i < 8,
            self.candidate_from(pos, best, before),
            self->children[i].candidate_from(pos, before, after),
        ensures
            self.candidate_from(pos, best, after),
    {
        if let Some(c) = after {
            if after != before {
                let child: Node<T> = self->children[i];
                assert(child.holds(c.position));
                assert(spec_octant_index(c.position, self->split) == i);
                assert(self.holds(c.position));
                assert(self.value_at(c.position) == child.value_at(c.position));
            }
        }
    }

    /// A candidate that is no further than one which nothing here beats is not
    /// beaten either.
    proof fn lemma_none_nearer_carries(self, pos: Point3, before: Candidate<T>, after: Candidate<T>)
        requires
            self.none_nearer(pos, before),
            after is None ==> before is None,
            after matches Some(a) ==> (before matches Some(b) ==> a.distance_squared
                <= b.distance_squared),
        ensures
            self.none_nearer(pos, after),
    {
    }

    /// Where the region of a subtree is no nearer to `pos` than the candidate,
    /// nothing stored in the subtree is.
    proof fn lemma_far_region_holds_none_nearer(self, region: AABB, pos: Point3, found: Candidate<T>)
        requires
            self.within(region),
            found matches Some(c) && region.spec_distance_squared_to(pos) >= c.distance_squared,
        ensures
            self.none_nearer(pos, found),
    {
        assert forall|q: Point3| #[trigger] self.holds(q) implies found->0.distance_squared
            <= q.dist2(pos) by {
            lemma_distance_bounds_below(region, pos, q);
        }
    }

    /// What no child of a branch beats, nothing stored below the branch beats.
    proof fn lemma_none_nearer_from_children(self, pos: Point3, found: Candidate<T>)
        requires
            self is Branch,
            self.wf(),
            forall|j: int| 0 <= j < 8 ==> (#[trigger] self->children[j]).none_nearer(pos, found),
        ensures
            self.none_nearer(pos, found),
    {
        match found {
            None => {
                assert forall|p: Point3| !#[trigger] self.holds(p) by {
                    let j: int = spec_octant_index(p, self->split);
                    assert(self->children[j].none_nearer(pos, found));
                    if self.holds(p) {
                        assert(self->children[j].holds(p));
                    }
                }
            },
            Some(c) => {
                assert forall|q: Point3| #[trigger] self.holds(q) implies c.distance_squared <= q.dist2(
                    pos,
                ) by {
                    let j: int = spec_octant_index(q, self->split);
                    assert(self->children[j].none_nearer(pos, found));
                    assert(self->children[j].holds(q));
                }
            },
        }
    }
}

} // verus!
