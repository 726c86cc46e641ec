//! What every day's solution offers.

use vstd::prelude::*;

verus! {

/// The two parts of a day's puzzle, each answered from the puzzle text.
pub trait Solution {
    /// What an answer looks like.
    type Answer;

    /// `answer` is what the first part asks for of `text`.
    spec fn answers_part_one(text: Seq<char>, answer: Self::Answer) -> bool;

    /// `answer` is what the second part asks for of `text`.
    spec fn answers_part_two(text: Seq<char>, answer: Self::Answer) -> bool;

    /// The answer to the first part.
    fn part_one(&self, input: &str) -> (answer: Self::Answer)
        ensures
            Self::answers_part_one(input@, answer),
    ;

    /// The answer to the second part.
    fn part_two(&self, input: &str) -> (answer: Self::Answer)
        ensures
            Self::answers_part_two(input@, answer),
    ;
}

} // verus!
