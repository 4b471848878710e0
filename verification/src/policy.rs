//! When a leaf is to give way to a branch.

use vstd::prelude::*;

verus! {

/// A rule for when a leaf is to give way to a branch.
#[derive(Clone, Copy, Debug, PartialEq, Eq, Structural)]
pub enum PolicyEnum {
    /// A leaf gives way once it would hold more than this many points.
    MaxElements(usize),
}

/// A type that stands for one such rule.
pub trait Policy {
    /// The rule that the type stands for.
    spec fn spec_policy() -> PolicyEnum;

    /// The rule that the type stands for.
    fn policy() -> (r: PolicyEnum)
        ensures
            r == Self::spec_policy(),
    ;
}

/// The rule `PolicyEnum::MaxElements(N)` as a type.
pub struct MaxElements<const N: usize>;

impl<const N: usize> Policy for MaxElements<N> {
    open spec fn spec_policy() -> PolicyEnum {
        PolicyEnum::MaxElements(N)
    }

    fn policy() -> (r: PolicyEnum) {
        PolicyEnum::MaxElements(N)
    }
}

} // verus!
