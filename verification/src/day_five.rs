//! Seeds and their locations: an almanac of stages, each a table of offset
//! mappings, through which single values and whole intervals are sent to
//! find the lowest location.

pub mod almanac;
pub mod coverage;
pub mod error;
pub mod header;
pub mod lowest;
pub mod mapping;
pub mod parse;
pub mod piecewise;
pub mod ranges;
pub mod stage;

pub use almanac::Almanac;
pub use error::AlmanacError;
pub use lowest::{part_one, part_two};
pub use mapping::{RangeConversion, RangePair};
pub use parse::{extract_seeds, parse_input};
pub use ranges::{combine_ranges, split_range};
pub use stage::RangeMap;
