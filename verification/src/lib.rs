//! Verified solutions to a set of puzzles, one module for each day.

pub mod day_eight;
pub mod day_five;
pub mod day_four;
pub mod day_one;
pub mod day_seven;
pub mod day_six;
pub mod day_three;
pub mod day_two;
pub mod error;
pub mod order;
pub mod pattern;
pub mod solution;
pub mod text;
