//! The flattened instruction list of a block, in program order.

use vstd::prelude::*;
use crate::binding::DeclaredType;
use crate::lifetime::Mutability;

verus! {

/// One step of a block.
///
/// Regions, bindings and references are named by the order in which the
/// block makes them: the region of the block itself is region 0 and each
/// `Open` makes the next; each `Declare` makes the next binding; each
/// `Borrow` and each `Reborrow` makes the next reference.
#[derive(Clone, Copy, Debug, PartialEq, Eq, Structural)]
pub enum Instr {
    /// Opens a region inside the current one and enters it.
    Open,
    /// Closes the current region and returns to the one around it.
    Close,
    /// Declares a binding in the current region.
    Declare { name: u64, ty: DeclaredType },
    /// Reads the whole value of a binding.
    Read { binding: usize },
    /// Reads one field of a binding.
    ReadField { binding: usize, field: usize },
    /// Moves the whole value out of a binding.
    Move { binding: usize },
    /// Moves one field out of a binding.
    MoveField { binding: usize, field: usize },
    /// Borrows a binding; the reference belongs to `region`.
    Borrow { binding: usize, kind: Mutability, region: usize },
    /// Makes a reference out of another one, as a call does that returns
    /// a reference tied to its argument. The new reference stands for the
    /// same borrow.
    Reborrow { through: usize },
    /// Reads a reference or passes it on.
    Use { reference: usize },
}

/// A stretch of the program: from the step `start` to the step `end`.
#[derive(Clone, Copy, Debug, PartialEq, Eq, Structural)]
pub struct Span {
    pub start: usize,
    pub end: usize,
}

} // verus!
