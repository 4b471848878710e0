//! A point-keyed octree over the three-dimensional integer lattice, with the
//! box geometry that its proximity queries prune by.
//!
//! Points have whole coordinates; lengths are compared by their squares, so
//! every test of distance is exact. The tree stores one value at each point,
//! grows its bound with every point stored, and answers two questions: which
//! stored point is nearest to a place, and which stored points lie within a
//! radius of it.
//!
//! - `point`: lattice points, displacements, squared lengths, octants.
//! - `aabb`: axis-aligned boxes.
//! - `intersection`: how a sphere lies to a box.
//! - `node`: the nodes of the tree, what they store, and how a point is stored.
//! - `nearest`, `search`: the two descents.
//! - `octree`: the tree, and what its answers mean.
//! - `policy`: rules for when a leaf gives way to a branch.
//!
//! What is stored is spoken of as a map from points to values, `Octree::view`.
//! Every function that takes a tree asks for `Octree::wf`, which `Octree::new`
//! gives and `Octree::insert` keeps.

pub mod aabb;
pub mod intersection;
pub mod nearest;
pub mod node;
pub mod octree;
pub mod point;
pub mod policy;
pub mod search;

pub use aabb::AABB;
pub use intersection::SphereAABBOverlap;
pub use node::Node;
pub use octree::Octree;
pub use point::{Point3, Vec3};
pub use policy::{MaxElements, Policy, PolicyEnum};
