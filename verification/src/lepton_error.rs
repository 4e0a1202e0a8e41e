//! The ways in which coding can fail.

use vstd::prelude::*;

verus! {

#[derive(Clone, Copy, Debug, PartialEq, Eq, Structural)]
pub enum ExitCode {
    /// The coded stream contradicts itself, or holds more than was announced.
    StreamInconsistent,
    /// The image is of a kind that cannot be coded.
    UnsupportedJpeg,
    /// A coefficient is too large to be coded.
    CoefficientOutOfRange,
    /// The stream could not be read or written.
    OsError,
    /// An internal check failed.
    AssertionFailure,
}

} // verus!
