use vstd::prelude::*;

verus! {

/// Why an operation of the memory manager was refused.
#[derive(Clone, Copy, Debug, PartialEq, Eq, Structural)]
pub enum ErrorKind {
    /// The address is not mapped, is not the start of its region, or the
    /// region is not a shared-memory mapping.
    InvalidArgument,
    /// No shared-memory segment has the given identifier.
    NotFound,
}

/// A region could not be inserted because it intersects a stored one.
#[derive(Clone, Copy, Debug, PartialEq, Eq, Structural)]
pub struct Overlap;

} // verus!
