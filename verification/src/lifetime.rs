//! Lifetimes and the two kinds of access that a reference grants.

use vstd::prelude::*;

verus! {

/// A lifetime parameter is named by a small integer of its signature.
pub type LifetimeId = usize;

/// The lifetime that a reference carries.
#[derive(Clone, Copy, Debug, PartialEq, Eq, Structural)]
pub enum Lifetime {
    /// Tied to exactly one region, named by its place in the region tree.
    Concrete(usize),
    /// A parameter of a signature, resolved to a region at each call site.
    Param(usize),
}

/// Whether a reference or a borrow shares its value or has it alone.
#[derive(Clone, Copy, Debug, PartialEq, Eq, Structural)]
pub enum Mutability {
    Shared,
    Exclusive,
}

impl Lifetime {
    /// The region of a concrete lifetime.
    pub open spec fn spec_region(self) -> Option<usize> {
        match self {
            Lifetime::Concrete(r) => Some(r),
            Lifetime::Param(_) => None,
        }
    }

    /// The region of a concrete lifetime.
    #[verifier::when_used_as_spec(spec_region)]
    pub fn region(self) -> (r: Option<usize>)
        ensures
            r == self.spec_region(),
    {
        match self {
            Lifetime::Concrete(r) => Some(r),
            Lifetime::Param(_) => None,
        }
    }
}

} // verus!
