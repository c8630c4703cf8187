//! The ways in which an operation on a sorted list can fail.

use vstd::prelude::*;

verus! {

/// Why an operation on a sorted list did not succeed.
#[derive(Clone, Copy, Debug, PartialEq, Eq, Structural)]
pub enum SortedListError {
    /// Two objects could not be ordered: the comparison itself failed.
    Incomparable,
    /// No stored object is the one that was asked for.
    NotFound,
    /// A search was started on a range whose beginning lies after its end.
    InvalidRange,
}

} // verus!
