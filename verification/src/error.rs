//! The conditions on which an operation of the store gives up.

use vstd::prelude::*;

verus! {

/// Why an operation on the store could not be carried out.
#[derive(Clone, Copy, Debug, PartialEq, Eq)]
pub enum Error {
    /// The first page that is not erased is not marked active: its header
    /// holds a unit that no intact store shows there.
    CorruptHeader,
    /// The page that a collection cycle would move the data to is not erased.
    GcInvariantViolated,
    /// The address is one of the two that mark free space and dead entries.
    ReservedAddress,
    /// The value does not fit in the active page, not even after a
    /// collection cycle.
    OutOfSpace,
}

} // verus!
