//! Calibration values: the first and the last digit of each line, read as
//! a number of two digits. In the second part a digit may be spelled out.

use crate::error::PuzzleError;
use crate::pattern::{captures, groups_view, regex_captures, regex_compiles};
use crate::text::{chars_of, copy_span, digit_of, lines_of, split_lines, views};
use vstd::prelude::*;
use vstd::string::*;

verus! {

/// The pattern of a spelled-out digit at the head of a text.
pub const LEADING_NUMBER: &'static str = "^(one|two|three|four|five|six|seven|eight|nine)";

/// What stands at one place of a line.
pub enum Found {
    /// Neither a digit nor a spelled-out digit.
    Nothing,
    /// A digit, or a spelled-out one, of this value.
    Number(u32),
    /// A word that the pattern matched and that spells no digit.
    Unknown,
}

/// The values of the digits of `line`, in their order.
pub open spec fn digits_in(line: Seq<char>) -> Seq<u32>
    decreases line.len(),
{
    if line.len() == 0 {
        Seq::empty()
    } else {
        match digit_of(line.last()) {
            None => digits_in(line.drop_last()),
            Some(d) => digits_in(line.drop_last()).push(d as u32),
        }
    }
}

/// The number of two digits that the first and the last of `numbers` make.
pub open spec fn two_digits(numbers: Seq<u32>) -> Option<int> {
    if numbers.len() == 0 {
        None
    } else {
        Some(numbers.first() * 10 + numbers.last())
    }
}

/// The digit that `word` spells.
pub open spec fn spelled(word: Seq<char>) -> Option<u32> {
    if word == "one"@ {
        Some(1u32)
    } else if word == "two"@ {
        Some(2u32)
    } else if word == "three"@ {
        Some(3u32)
    } else if word == "four"@ {
        Some(4u32)
    } else if word == "five"@ {
        Some(5u32)
    } else if word == "six"@ {
        Some(6u32)
    } else if word == "seven"@ {
        Some(7u32)
    } else if word == "eight"@ {
        Some(8u32)
    } else if word == "nine"@ {
        Some(9u32)
    } else {
        None
    }
}

/// What a search for a spelled-out digit found: the digit that the whole
/// match spells.
pub open spec fn word_in(groups: Option<Seq<Option<Seq<char>>>>) -> Found {
    match groups {
        None => Found::Nothing,
        Some(list) => if list.len() > 0 && list[0] is Some {
            match spelled(list[0].unwrap()) {
                None => Found::Unknown,
                Some(d) => Found::Number(d),
            }
        } else {
            Found::Unknown
        },
    }
}

/// What stands at the head of `rest`: a digit, or else what the search for
/// a spelled-out digit finds there. Where no digit stands, nothing is
/// found if the regex engine refuses the pattern.
pub open spec fn found_at(rest: Seq<char>) -> Result<Found, PuzzleError> {
    match digit_of(rest[0]) {
        Some(d) => Ok(Found::Number(d as u32)),
        None => if regex_compiles(LEADING_NUMBER@) {
            Ok(word_in(regex_captures(LEADING_NUMBER@, rest)))
        } else {
            Err(PuzzleError::Pattern)
        },
    }
}

/// The digits of `line` from place `from` on, spelled-out ones too, each
/// as often as it is found: spelled-out digits may share letters. The
/// first place at which the search fails, or finds a word that spells no
/// digit, decides what is wrong with the line.
pub open spec fn numbers_from(line: Seq<char>, from: int) -> Result<Seq<u32>, PuzzleError>
    decreases line.len() - from,
{
    if from < 0 || from >= line.len() {
        Ok(Seq::empty())
    } else {
        match found_at(line.skip(from)) {
            Err(e) => Err(e),
            Ok(Found::Unknown) => Err(PuzzleError::Malformed),
            Ok(Found::Nothing) => numbers_from(line, from + 1),
            Ok(Found::Number(d)) => match numbers_from(line, from + 1) {
                Err(e) => Err(e),
                Ok(rest) => Ok(seq![d] + rest),
            },
        }
    }
}

/// The sum of the values of `lines` added to `so_far`, the value of a line
/// being the number of two digits that the first and last digit of it
/// make. With `spelled_too`, spelled-out digits count as digits.
pub open spec fn total_value(lines: Seq<Seq<char>>, spelled_too: bool, so_far: int) -> Result<
    int,
    PuzzleError,
>
    decreases lines.len(),
{
    if lines.len() == 0 {
        Ok(so_far)
    } else {
        let numbers = if spelled_too {
            numbers_from(lines[0], 0)
        } else {
            Ok(digits_in(lines[0]))
        };
        match numbers {
            Err(e) => Err(e),
            Ok(list) => match two_digits(list) {
                None => Err(PuzzleError::Malformed),
                Some(value) => if so_far + value > u32::MAX {
                    Err(PuzzleError::Overflow)
                } else {
                    total_value(lines.skip(1), spelled_too, so_far + value)
                },
            },
        }
    }
}

/// The answer to the first part for `text`.
pub open spec fn part_one_of(text: Seq<char>) -> Result<int, PuzzleError> {
    total_value(lines_of(text), false, 0)
}

/// The answer to the second part for `text`.
pub open spec fn part_two_of(text: Seq<char>) -> Result<int, PuzzleError> {
    total_value(lines_of(text), true, 0)
}

/// The value of the digit `c`, if it is one.
pub fn digit_value(c: char) -> (value: Option<u32>)
    ensures
        match value {
            Some(d) => digit_of(c) == Some(d as int),
            None => digit_of(c) is None,
        },
{
    if c >= '0' && c <= '9' {
        Some(c as u32 - '0' as u32)
    } else {
        None
    }
}

/// The values of the digits of `line`.
pub fn digits_of_line(line: &Vec<char>) -> (digits: Vec<u32>)
    ensures
        digits@ == digits_in(line@),
{
    let mut digits: Vec<u32> = Vec::new();
    let mut i: usize = 0;
    proof {
        assert(line@.take(0) =~= Seq::<char>::empty());
    }
    while i < line.len()
        invariant
            i <= line.len(),
            digits@ == digits_in(line@.take(i as int)),
        decreases line.len() - i,
    {
        proof {
            assert(line@.take(i + 1).drop_last() == line@.take(i as int));
            assert(line@.take(i + 1).last() == line[i as int]);
        }
        match digit_value(line[i]) {
            None => {},
            Some(d) => {
                digits.push(d);
            },
        }
        i = i + 1;
    }
    proof {
        assert(line@.take(i as int) == line@);
    }
    digits
}

/// The digit that `word` spells.
pub fn spelled_digit(word: &String) -> (digit: Option<u32>)
    ensures
        digit == spelled(word@),
{
    if *word == String::from_str("one") {
        Some(1)
    } else if *word == String::from_str("two") {
        Some(2)
    } else if *word == String::from_str("three") {
        Some(3)
    } else if *word == String::from_str("four") {
        Some(4)
    } else if *word == String::from_str("five") {
        Some(5)
    } else if *word == String::from_str("six") {
        Some(6)
    } else if *word == String::from_str("seven") {
        Some(7)
    } else if *word == String::from_str("eight") {
        Some(8)
    } else if *word == String::from_str("nine") {
        Some(9)
    } else {
        None
    }
}

/// What a search for a spelled-out digit found.
pub fn word_found(groups: &Option<Vec<Option<String>>>) -> (found: Found)
    ensures
        found == word_in(groups_view(*groups)),
{
    match groups {
        None => Found::Nothing,
        Some(list) => {
            if list.len() > 0 {
                match &list[0] {
                    None => Found::Unknown,
                    Some(word) => match spelled_digit(word) {
                        None => Found::Unknown,
                        Some(d) => Found::Number(d),
                    },
                }
            } else {
                Found::Unknown
            }
        },
    }
}

/// `rest` with `done` put before it.
spec fn numbers_after(done: Seq<u32>, rest: Result<Seq<u32>, PuzzleError>) -> Result<
    Seq<u32>,
    PuzzleError,
> {
    match rest {
        Err(e) => Err(e),
        Ok(more) => Ok(done + more),
    }
}

/// The digits of `line`, spelled-out ones too.
fn numbers_of_line(line: &Vec<char>) -> (numbers: Result<Vec<u32>, PuzzleError>)
    ensures
        match numbers {
            Ok(list) => numbers_from(line@, 0) == Ok::<Seq<u32>, PuzzleError>(list@),
            Err(e) => numbers_from(line@, 0) == Err::<Seq<u32>, PuzzleError>(e),
        },
{
    let mut list: Vec<u32> = Vec::new();
    let mut i: usize = 0;
    proof {
        let whole = numbers_from(line@, 0);
        if whole is Ok {
            assert(list@ + whole.unwrap() =~= whole.unwrap());
        }
    }
    while i < line.len()
        invariant
            i <= line.len(),
            numbers_from(line@, 0) == numbers_after(list@, numbers_from(line@, i as int)),
        decreases line.len() - i,
    {
        let ghost done = list@;
        let ghost rest = line@.skip(i as int);
        proof {
            assert(rest[0] == line[i as int]);
        }
        let found = match digit_value(line[i]) {
            Some(d) => Found::Number(d),
            None => {
                let tail = copy_span(line, i, line.len());
                proof {
                    assert(tail@ == rest);
                }
                match captures(LEADING_NUMBER, &tail) {
                    Err(_) => {
                        return Err(PuzzleError::Pattern);
                    },
                    Ok(groups) => word_found(&groups),
                }
            },
        };
        assert(found_at(rest) == Ok::<Found, PuzzleError>(found));
        match found {
            Found::Unknown => {
                return Err(PuzzleError::Malformed);
            },
            Found::Nothing => {},
            Found::Number(d) => {
                list.push(d);
                proof {
                    let more = numbers_from(line@, i + 1);
                    if more is Ok {
                        assert(done + (seq![d] + more.unwrap()) =~= list@ + more.unwrap());
                    }
                }
            },
        }
        i = i + 1;
    }
    proof {
        assert(list@ + Seq::<u32>::empty() =~= list@);
    }
    Ok(list)
}

/// The digits of `input`, spelled-out ones too, in the order in which
/// they start.
pub fn extract_numbers(input: &str) -> (numbers: Result<Vec<u32>, PuzzleError>)
    ensures
        match numbers {
            Ok(list) => numbers_from(input@, 0) == Ok::<Seq<u32>, PuzzleError>(list@),
            Err(e) => numbers_from(input@, 0) == Err::<Seq<u32>, PuzzleError>(e),
        },
{
    let line = chars_of(input);
    numbers_of_line(&line)
}

/// The number of two digits that the first and the last of `numbers` make.
pub fn first_and_last(numbers: &Vec<u32>) -> (value: Option<u32>)
    requires
        forall|i: int| 0 <= i < numbers.len() ==> #[trigger] numbers[i] <= 9,
    ensures
        match value {
            Some(v) => two_digits(numbers@) == Some(v as int),
            None => two_digits(numbers@) is None,
        },
{
    if numbers.len() == 0 {
        None
    } else {
        Some(numbers[0] * 10 + numbers[numbers.len() - 1])
    }
}

/// Every digit is at most nine.
proof fn lemma_digits_small(line: Seq<char>)
    ensures
        forall|i: int| 0 <= i < digits_in(line).len() ==> #[trigger] digits_in(line)[i] <= 9,
    decreases line.len(),
{
    if line.len() > 0 {
        lemma_digits_small(line.drop_last());
        let before = digits_in(line.drop_last());
        assert('0' as u32 == 48 && '9' as u32 == 57);
        assert forall|i: int| 0 <= i < digits_in(line).len() implies #[trigger] digits_in(
            line,
        )[i] <= 9 by {
            if i < before.len() {
                assert(digits_in(line)[i] == before[i]);
            }
        }
    }
}

/// Every digit found, spelled out or not, is at most nine.
proof fn lemma_numbers_small(line: Seq<char>, from: int)
    requires
        numbers_from(line, from) is Ok,
    ensures
        forall|i: int|
            0 <= i < numbers_from(line, from).unwrap().len() ==> #[trigger] numbers_from(
                line,
                from,
            ).unwrap()[i] <= 9,
    decreases line.len() - from,
{
    if 0 <= from < line.len() {
        lemma_numbers_small(line, from + 1);
    }
}

/// The sum of the lines' values.
fn total_of(input: &str, spelled_too: bool) -> (answer: Result<u32, PuzzleError>)
    ensures
        match answer {
            Ok(total) => total_value(lines_of(input@), spelled_too, 0) == Ok::<int, PuzzleError>(
                total as int,
            ),
            Err(e) => total_value(lines_of(input@), spelled_too, 0) == Err::<int, PuzzleError>(
                e,
            ),
        },
{
    let text = chars_of(input);
    let lines = split_lines(&text);
    let ghost all = views(lines@);
    let mut total: u32 = 0;
    let mut i: usize = 0;
    proof {
        assert(all.skip(0) == all);
    }
    while i < lines.len()
        invariant
            i <= lines.len(),
            all == views(lines@),
            total_value(lines_of(input@), spelled_too, 0) == total_value(
                all.skip(i as int),
                spelled_too,
                total as int,
            ),
        decreases lines.len() - i,
    {
        proof {
            assert(all.skip(i as int)[0] == lines[i as int]@);
            assert(all.skip(i as int).skip(1) == all.skip(i + 1));
        }
        let numbers = if spelled_too {
            match numbers_of_line(&lines[i]) {
                Err(e) => {
                    return Err(e);
                },
                Ok(list) => {
                    proof {
                        lemma_numbers_small(lines[i as int]@, 0);
                    }
                    list
                },
            }
        } else {
            proof {
                lemma_digits_small(lines[i as int]@);
            }
            digits_of_line(&lines[i])
        };
        let value = match first_and_last(&numbers) {
            None => {
                return Err(PuzzleError::Malformed);
            },
            Some(v) => v,
        };
        total = match total.checked_add(value) {
            None => {
                return Err(PuzzleError::Overflow);
            },
            Some(next) => next,
        };
        i = i + 1;
    }
    Ok(total)
}

/// The sum of the calibration values of the lines of `input`, a line's
/// value being made of its first and its last digit.
pub fn part_one(input: &str) -> (answer: Result<u32, PuzzleError>)
    ensures
        match answer {
            Ok(total) => part_one_of(input@) == Ok::<int, PuzzleError>(total as int),
            Err(e) => part_one_of(input@) == Err::<int, PuzzleError>(e),
        },
{
    total_of(input, false)
}

/// The sum of the calibration values of the lines of `input`, where a
/// digit may be spelled out.
pub fn part_two(input: &str) -> (answer: Result<u32, PuzzleError>)
    ensures
        match answer {
            Ok(total) => part_two_of(input@) == Ok::<int, PuzzleError>(total as int),
            Err(e) => part_two_of(input@) == Err::<int, PuzzleError>(e),
        },
{
    total_of(input, true)
}

} // verus!
