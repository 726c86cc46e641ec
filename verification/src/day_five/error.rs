//! The ways in which an almanac can fail to load or to answer.

use vstd::prelude::*;

verus! {

/// Why an almanac was refused, or why it has no answer.
#[derive(Debug, Clone, Copy, PartialEq, Eq, Structural)]
pub enum AlmanacError {
    /// The pattern for stage headers was not accepted by the regex engine.
    Pattern,
    /// The text has no first line, or that line does not begin with the
    /// `seeds:` label.
    SeedLine,
    /// The line after the seeds is not blank.
    Separator,
    /// A line that should name a stage does not.
    Header,
    /// A field is not a decimal number that fits in 64 bits.
    Number,
    /// A mapping line does not hold exactly three fields.
    FieldCount,
    /// An interval would end beyond the largest 64-bit value.
    Overflow,
    /// Two mappings of one stage claim the same source value.
    Overlap,
    /// The stages do not lead from the origin to the terminal domain.
    BrokenChain,
    /// There is no seed to resolve.
    NoSeeds,
    /// The seeds cannot be read as pairs of start and length.
    UnpairedSeed,
}

} // verus!
