//! What can go wrong while a figure is built.

use vstd::prelude::*;

verus! {

/// The ways in which a construction can fail. Every one of them is local:
/// the caller may skip the feature that failed and go on.
#[derive(Clone, Copy, Debug, PartialEq, Eq, Structural)]
pub enum KernelError {
    /// A line was asked for along a vector of length zero.
    DegenerateDirection,
    /// The meeting point of two lines with the same or opposite directions
    /// was asked for.
    ParallelLines,
    /// A polygon was asked for from fewer than three lines, or from a cycle
    /// in which two neighbours are parallel.
    InvalidCycle,
    /// Clipping left nothing of `dropped` rings.
    ClippingFailure { dropped: usize },
}

} // verus!
