//! The errors that the library reports.

use vstd::prelude::*;

verus! {

/// Why a computation was refused. Every error is terminal: nothing partial is
/// returned alongside it.
#[derive(Debug, Clone, Copy, PartialEq, Eq)]
pub enum ClusterError {
    /// The radius is negative or the density threshold is zero.
    InvalidParameter,
    /// Two inputs that must describe the same rows disagree in length, or the
    /// rows of a matrix disagree in width.
    ShapeMismatch,
}

} // verus!
