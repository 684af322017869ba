//! The ways in which an operation of the engine can be refused.

use vstd::prelude::*;

verus! {

/// Why an operation of the engine was refused.
#[derive(Clone, Copy, Debug, PartialEq, Eq, Structural)]
pub enum PuzzleError {
    /// Two values that must act on the same number of grips do not.
    DegreeMismatch,
    /// A grip or face index is not below the degree.
    IndexOutOfRange,
    /// A puzzle was asked for without any generator, so its degree is unknown.
    EmptyGenerators,
}

} // verus!
