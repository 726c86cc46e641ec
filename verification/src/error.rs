//! Why a puzzle text has no answer.

use vstd::prelude::*;

verus! {

/// Why a puzzle has no answer.
#[derive(Debug, Clone, Copy, PartialEq, Eq, Structural)]
pub enum PuzzleError {
    /// A pattern was not accepted by the regex engine.
    Pattern,
    /// The text is not an input of the puzzle.
    Malformed,
    /// A number on the way to the answer does not fit its type.
    Overflow,
    /// The way that the puzzle asks for has no end.
    Endless,
}

} // verus!
