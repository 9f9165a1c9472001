//! Errors that the buffer reports.

use vstd::prelude::*;

verus! {

/// Why a buffer could not be made.
#[derive(Debug, Clone, Copy, PartialEq, Eq, Structural)]
pub enum RingBuffError {
    /// A buffer needs room for at least one element.
    InvalidCapacity,
}

} // verus!
