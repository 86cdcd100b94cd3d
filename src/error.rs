use vstd::prelude::*;

verus! {

/// Failures reported by the structures of this library instead of aborting.
#[derive(Debug, Clone, Copy, PartialEq, Eq, Structural)]
pub enum StructureError {
    /// A push on a bounded structure that already holds its maximum.
    CapacityExceeded,
    /// A pop on a structure that holds nothing.
    EmptyCollection,
    /// A vertex or heap index outside the valid range.
    IndexOutOfRange,
    /// A link set on a node that already has one.
    DuplicateLink,
}

} // verus!
