//! One offset mapping: a source interval and the destination interval of
//! the same length that its values move to.

use crate::day_five::ranges::in_span;
use std::ops::Range;
use vstd::prelude::*;

verus! {

/// A source interval paired with the destination interval it maps onto.
#[derive(Debug, PartialEq, Eq)]
pub struct RangePair {
    pub source: Range<u64>,
    pub destination: Range<u64>,
}

/// What a mapping makes of an interval that starts inside its source.
#[derive(Debug, PartialEq, Eq)]
pub enum RangeConversion {
    /// The whole interval lay inside the source: its image.
    Complete(Range<u64>),
    /// The interval ran past the source's end: the image of the part
    /// inside, and the part beyond, unmapped.
    Remainder(Range<u64>, Range<u64>),
}

/// The mapping that moves `length` values from `source_start` on to
/// `destination_start` on.
pub open spec fn pair_of(destination_start: u64, source_start: u64, length: u64) -> RangePair {
    RangePair {
        source: source_start..((source_start + length) as u64),
        destination: destination_start..((destination_start + length) as u64),
    }
}

impl RangePair {
    /// Neither interval is inverted and both have the same length.
    pub open spec fn wf(&self) -> bool {
        &&& self.source.start <= self.source.end
        &&& self.destination.start <= self.destination.end
        &&& self.destination.end - self.destination.start == self.source.end - self.source.start
    }

    /// Where the mapping sends `v`: as far above the destination's start as
    /// `v` is above the source's.
    pub open spec fn shift(&self, v: int) -> int {
        v - self.source.start + self.destination.start
    }

    /// The mapping of `length` values from `source_start` to
    /// `destination_start`, unless one of the two intervals would end
    /// beyond the largest `u64`.
    pub fn new(destination_start: u64, source_start: u64, length: u64) -> (pair: Option<RangePair>)
        ensures
            pair is Some <==> source_start + length <= u64::MAX && destination_start + length
                <= u64::MAX,
            pair matches Some(p) ==> p == pair_of(destination_start, source_start, length)
                && p.wf(),
    {
        match (source_start.checked_add(length), destination_start.checked_add(length)) {
            (Some(source_end), Some(destination_end)) => Some(
                RangePair {
                    source: source_start..source_end,
                    destination: destination_start..destination_end,
                },
            ),
            _ => None,
        }
    }

    /// The image of `input`, a value of the source interval or its end.
    /// The source's start is subtracted first, so nothing leaves `u64`
    /// even where the destination lies below the source.
    pub fn to_destination(&self, input: &u64) -> (output: u64)
        requires
            self.wf(),
            self.source.start <= *input <= self.source.end,
        ensures
            output == self.shift(*input as int),
    {
        (*input - self.source.start) + self.destination.start
    }

    /// The image of `input`, an interval that lies inside the source.
    pub fn contained_range_to_destination(&self, input: &Range<u64>) -> (output: Range<u64>)
        requires
            self.wf(),
            self.source.start <= input.start <= input.end <= self.source.end,
        ensures
            output.start == self.shift(input.start as int),
            output.end == self.shift(input.end as int),
    {
        self.to_destination(&input.start)..self.to_destination(&input.end)
    }

    /// Maps as much of `input` as the source holds. `input` is not empty
    /// and starts inside the source.
    pub fn range_to_destination(&self, input: &Range<u64>) -> (converted: RangeConversion)
        requires
            self.wf(),
            in_span(self.source, input.start as int),
            input.start < input.end,
        ensures
            input.end <= self.source.end ==> converted == RangeConversion::Complete(
                (self.shift(input.start as int) as u64)..(self.shift(input.end as int) as u64),
            ),
            input.end > self.source.end ==> converted == RangeConversion::Remainder(
                (self.shift(input.start as int) as u64)..self.destination.end,
                self.source.end..input.end,
            ),
    {
        if input.end > self.source.end {
            let (to_convert, remainder) = crate::day_five::ranges::split_range(input, &self.source.end);
            RangeConversion::Remainder(
                self.contained_range_to_destination(&to_convert),
                remainder,
            )
        } else {
            RangeConversion::Complete(self.contained_range_to_destination(input))
        }
    }
}

} // verus!
