//! The nodes of the tree: what they hold, and how a point finds its place.

use crate::aabb::{lemma_octant_holds_its_points, AABB};
use crate::point::{lemma_midpoint_separates, octant_index, spec_octant_index, Point3};
use vstd::prelude::*;

verus! {

/// A node of the tree.
///
/// A branch divides space into eight octants around `split` and has one child
/// for each, at the index that `octant_index` gives.
#[derive(Debug)]
pub enum Node<T> {
    Leaf { position: Point3, value: T },
    Branch { children: Vec<Node<T>>, split: Point3 },
    Empty,
}

impl<T> Node<T> {
    /// The point `p` is stored where the splits on the way lead it.
    pub open spec fn holds(self, p: Point3) -> bool
        decreases self,
    {
        match self {
            Node::Empty => false,
            Node::Leaf { position, value } => position == p,
            Node::Branch { children, split } => {
                &&& children.len() == 8
                &&& children[spec_octant_index(p, split)].holds(p)
            },
        }
    }

    /// The value stored with `p`; meaningful where `holds(p)`.
    pub open spec fn value_at(self, p: Point3) -> T
        decreases self,
    {
        match self {
            Node::Empty => arbitrary(),
            Node::Leaf { position, value } => value,
            Node::Branch { children, split } => {
                if children.len() == 8 {
                    children[spec_octant_index(p, split)].value_at(p)
                } else {
                    arbitrary()
                }
            },
        }
    }

    /// The stored points with their values.
    pub open spec fn points(self) -> Map<Point3, T> {
        Map::new(|p: Point3| self.holds(p), |p: Point3| self.value_at(p))
    }

    /// Every branch has eight children, and every point below a branch lies in
    /// the octant of the child that it is stored under.
    pub open spec fn wf(self) -> bool
        decreases self,
    {
        match self {
            Node::Empty => true,
            Node::Leaf { position, value } => true,
            Node::Branch { children, split } => {
                &&& children.len() == 8
                &&& forall|i: int| 0 <= i < 8 ==> (#[trigger] children[i]).wf()
                &&& forall|i: int, p: Point3|
                    0 <= i < 8 && (#[trigger] children[i].holds(p)) ==> spec_octant_index(p, split)
                        == i
            },
        }
    }

    /// `after` is this node once `value` is stored at `pos`: a vacant node has
    /// become a leaf; a leaf at `pos` holds the new value; a leaf elsewhere has
    /// become a branch around the midpoint of the two positions, with the old
    /// leaf and the new one each under its octant and nothing under the other
    /// six; a branch has changed under the octant of `pos` and nowhere else.
    pub open spec fn inserted(self, pos: Point3, value: T, after: Node<T>) -> bool
        decreases self,
    {
        match self {
            Node::Empty => after == (Node::Leaf { position: pos, value }),
            Node::Leaf { position, value: held } => {
                if position == pos {
                    after == (Node::Leaf { position: pos, value })
                } else {
                    let split = position.spec_midpoint(pos);
                    &&& after is Branch
                    &&& after->split == split
                    &&& after->children.len() == 8
                    &&& forall|i: int|
                        0 <= i < 8 ==> #[trigger] after->children[i] == (if i == spec_octant_index(
                            position,
                            split,
                        ) {
                            Node::Leaf { position, value: held }
                        } else if i == spec_octant_index(pos, split) {
                            Node::Leaf { position: pos, value }
                        } else {
                            Node::Empty
                        })
                }
            },
            Node::Branch { children, split } => {
                let index = spec_octant_index(pos, split);
                &&& after is Branch
                &&& after->split == split
                &&& after->children.len() == children.len()
                &&& forall|i: int|
                    0 <= i < children.len() && i != index ==> #[trigger] after->children[i]
                        == children[i]
                &&& index < children.len() ==> children[index].inserted(
                    pos,
                    value,
                    after->children[index],
                )
            },
        }
    }

    /// A node that holds nothing.
    pub fn vacant() -> (r: Node<T>)
        ensures
            r == Node::<T>::Empty,
    {
        Node::Empty
    }
}

/// Eight vacant nodes, made by `array_init::array_init` and moved into a vector.
///
/// The contract is taken on trust. It says of `array_init::array_init` that it
/// returns an array of as many items as its type asks for, here eight, each of
/// them what the closure gave for its index; and of `Vec::from` that it keeps
/// the items and their order. The closure gives `Node::vacant()` whatever the
/// index.
#[verifier::external_body]
fn vacant_children<T>() -> (r: Vec<Node<T>>)
    ensures
        r@.len() == 8,
        forall|i: int| 0 <= i < 8 ==> r@[i] == Node::<T>::Empty,
{
    Vec::from(array_init::array_init::<_, Node<T>, 8>(|_i: usize| Node::vacant()))
}

impl<T: Copy> Node<T> {
    /// Stores `value` at `pos`.
    ///
    /// A vacant node becomes a leaf. A leaf at another position becomes a branch
    /// around the midpoint of the two positions, with each of the two in its own
    /// octant. A leaf at `pos` itself takes the new value. A branch hands the
    /// point to the child of its octant.
    pub fn insert(&mut self, pos: Point3, value: T)
        requires
            old(self).wf(),
        ensures
            old(self).inserted(pos, value, *final(self)),
            final(self).wf(),
            final(self).points() == old(self).points().insert(pos, value),
            forall|p: Point3| #[trigger] final(self).holds(p) == (p == pos || old(self).holds(p)),
            final(self).value_at(pos) == value,
            forall|p: Point3|
                p != pos && old(self).holds(p) ==> final(self).value_at(p) == old(self).value_at(p),
        decreases *old(self),
    {
        let ghost pre: Node<T> = *self;
        match self {
            Node::Empty => {
                *self = Node::Leaf { position: pos, value };
            },
            Node::Leaf { position, value: held } => {
                let old_pos: Point3 = *position;
                let old_value: T = *held;
                if old_pos == pos {
                    *self = Node::Leaf { position: pos, value };
                } else {
                    let split: Point3 = old_pos.midpoint(&pos);
                    let old_index: usize = octant_index(&old_pos, &split);
                    let new_index: usize = octant_index(&pos, &split);
                    proof {
                        lemma_midpoint_separates(old_pos, pos);
                    }
                    let mut children: Vec<Node<T>> = vacant_children();
                    children.set(old_index, Node::Leaf { position: old_pos, value: old_value });
                    children.set(new_index, Node::Leaf { position: pos, value });
                    proof {
                        assert forall|i: int| 0 <= i < 8 implies (#[trigger] children[i]).wf() by {
                        }
                        assert forall|i: int, p: Point3|
                            0 <= i < 8 && (#[trigger] children[i].holds(p)) implies spec_octant_index(
                            p,
                            split,
                        ) == i by {
                        }
                    }
                    *self = Node::Branch { children, split };
                }
            },
            Node::Branch { children, split } => {
                let index: usize = octant_index(&pos, split);
                let ghost before: Seq<Node<T>> = children@;
                children[index].insert(pos, value);
                proof {
                    assert(children@ == before.update(index as int, children@[index as int]));
                    assert forall|i: int| 0 <= i < 8 implies (#[trigger] children[i]).wf() by {
                        if i != index {
                            assert(children[i] == before[i]);
                        }
                    }
                    assert forall|i: int, p: Point3|
                        0 <= i < 8 && (#[trigger] children[i].holds(p)) implies spec_octant_index(
                        p,
                        *split,
                    ) == i by {
                        if i != index {
                            assert(children[i] == before[i]);
                        }
                    }
                }
            },
        }
        proof {
            match pre {
                Node::Empty => {
                    assert forall|p: Point3| #[trigger] self.holds(p) == (p == pos || pre.holds(p)) by {
                    }
                },
                Node::Leaf { position, value: held } => {
                    if position == pos {
                        assert forall|p: Point3| #[trigger] self.holds(p) == (p == pos || pre.holds(p)) by {
                        }
                    } else {
                        let split: Point3 = position.spec_midpoint(pos);
                        let kids: Seq<Node<T>> = self->children@;
                        assert(self->split == split);
                        assert forall|p: Point3| #[trigger] self.holds(p) == (p == pos || pre.holds(p)) by {
                            let i: int = spec_octant_index(p, split);
                            assert(self.holds(p) == kids[i].holds(p));
                        }
                        assert(self.value_at(pos) == kids[spec_octant_index(pos, split)].value_at(
                            pos,
                        ));
                        assert(self.value_at(position) == kids[spec_octant_index(
                            position,
                            split,
                        )].value_at(position));
                    }
                },
                Node::Branch { children, split } => {
                    let index: int = spec_octant_index(pos, split);
                    let kids: Seq<Node<T>> = self->children@;
                    assert(self->split == split);
                    assert(kids == children@.update(index, kids[index]));
                    assert forall|p: Point3| #[trigger] self.holds(p) == (p == pos || pre.holds(p)) by {
                        let i: int = spec_octant_index(p, split);
                        assert(self.holds(p) == kids[i].holds(p));
                        assert(pre.holds(p) == children[i].holds(p));
                        if i != index {
                            assert(kids[i] == children[i]);
                        }
                    }
                    assert(self.value_at(pos) == kids[index].value_at(pos));
                    assert forall|p: Point3| p != pos && pre.holds(p) implies self.value_at(p)
                        == pre.value_at(p) by {
                        let i: int = spec_octant_index(p, split);
                        assert(self.value_at(p) == kids[i].value_at(p));
                        assert(pre.value_at(p) == children[i].value_at(p));
                        if i != index {
                            assert(kids[i] == children[i]);
                        }
                    }
                },
            }
            assert(self.points() =~= pre.points().insert(pos, value));
        }
    }
}

impl<T> Node<T> {
    /// Every point stored below lies in `region`.
    pub open spec fn within(self, region: AABB) -> bool {
        forall|p: Point3| #[trigger] self.holds(p) ==> region.spec_contains(p)
    }

    /// At a branch, child `i` stores its points in its part of the region.
    pub proof fn lemma_child_within(self, region: AABB, i: int)
        requires
            self is Branch,
            self.wf(),
            self.within(region),
            0 <= i < 8,
        ensures
            self->children[i].wf(),
            self->children[i].within(region.spec_octant(self->split, i)),
    {
        let child: Node<T> = self->children[i];
        assert forall|p: Point3| #[trigger] child.holds(p) implies region.spec_octant(
            self->split,
            i,
        ).spec_contains(p) by {
            assert(spec_octant_index(p, self->split) == i);
            assert(self.holds(p));
            lemma_octant_holds_its_points(region, self->split, p);
        }
    }
}

} // verus!
