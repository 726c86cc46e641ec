//! Boat races: in how many ways the record of each race can be beaten.
//! A boat held for `h` of a race's `t` milliseconds travels `h * (t - h)`.

use crate::error::PuzzleError;
use crate::text::{chars_of, fields_of, lines_of, numbers_of, parse_numbers, split_fields, split_lines, views};
use vstd::prelude::*;

verus! {

/// The day's solution.
pub struct Solution;

/// How far a boat travels in a race of `time` when held for `hold`.
pub open spec fn distance(time: int, hold: int) -> int {
    time * hold - hold * hold
}

/// How many of the hold times below `upto` beat `record`.
pub open spec fn ways(time: int, record: int, upto: int) -> int
    decreases upto,
{
    if upto <= 0 {
        0
    } else {
        ways(time, record, upto - 1) + if distance(time, upto - 1) > record {
            1int
        } else {
            0int
        }
    }
}

/// How many hold times from zero up to but not including `time` beat `record`.
pub open spec fn winning_methods(time: int, record: int) -> int {
    ways(time, record, time)
}

/// The numbers of `line` after its first field.
pub open spec fn numbers_in(line: Seq<char>) -> Option<Seq<u64>> {
    let fields = fields_of(line);
    if fields.len() == 0 {
        Some(Seq::empty())
    } else {
        numbers_of(fields.skip(1))
    }
}

/// The product of the ways to win each race, `so_far` times over; the
/// races are those for which both a time and a record are given.
pub open spec fn product_of_ways(times: Seq<u64>, records: Seq<u64>, so_far: int) -> Result<
    int,
    PuzzleError,
>
    decreases times.len(),
{
    if times.len() == 0 || records.len() == 0 {
        Ok(so_far)
    } else {
        let next = so_far * winning_methods(times[0] as int, records[0] as int);
        if next > u64::MAX {
            Err(PuzzleError::Overflow)
        } else {
            product_of_ways(times.skip(1), records.skip(1), next)
        }
    }
}

/// The answer to the first part for `text`: the product of the numbers of
/// ways to beat each race's record. The times stand on the first line, the
/// records on the second.
pub open spec fn part_one_of(text: Seq<char>) -> Result<int, PuzzleError> {
    let lines = lines_of(text);
    if lines.len() < 2 {
        Err(PuzzleError::Malformed)
    } else {
        match (numbers_in(lines[0]), numbers_in(lines[1])) {
            (Some(times), Some(records)) => product_of_ways(times, records, 1),
            _ => Err(PuzzleError::Malformed),
        }
    }
}

/// Moving the hold time up by one changes the distance by `time - 2 * hold - 1`.
proof fn lemma_distance_step(time: int, hold: int)
    ensures
        distance(time, hold + 1) - distance(time, hold) == time - 2 * hold - 1,
{
    assert(time * (hold + 1) - (hold + 1) * (hold + 1) - (time * hold - hold * hold) == time - 2
        * hold - 1) by (nonlinear_arith);
}

/// Once the distance has gone down, it does not come up again.
proof fn lemma_distance_falls(time: int, from: int, later: int)
    requires
        distance(time, from) < distance(time, from - 1),
        from <= later,
    ensures
        distance(time, later) <= distance(time, from),
    decreases later - from,
{
    if from < later {
        lemma_distance_falls(time, from, later - 1);
        lemma_distance_step(time, from - 1);
        lemma_distance_step(time, later - 1);
    }
}

/// Where no hold time from `from` up to `upto` beats the record, none is counted.
proof fn lemma_no_more_ways(time: int, record: int, from: int, upto: int)
    requires
        0 <= from <= upto,
        forall|hold: int| from <= hold < upto ==> distance(time, hold) <= record,
    ensures
        ways(time, record, upto) == ways(time, record, from),
    decreases upto - from,
{
    if from < upto {
        lemma_no_more_ways(time, record, from, upto - 1);
    }
}

/// How far a boat travels in a race of `time` when held for `x`, which is
/// no longer than the race.
pub fn calculate_distance(time: &u64, x: u64) -> (travelled: u64)
    requires
        x <= *time,
        distance(*time as int, x as int) <= u64::MAX,
    ensures
        travelled == distance(*time as int, x as int),
{
    let wide = distance_wide(*time, x);
    wide as u64
}

/// The distance in a type that holds it whatever the race.
fn distance_wide(time: u64, x: u64) -> (travelled: u128)
    requires
        x <= time,
    ensures
        travelled == distance(time as int, x as int),
{
    let hold = x as u128;
    let rest = (time - x) as u128;
    assert(hold * rest <= 0xffff_ffff_ffff_ffff * 0xffff_ffff_ffff_ffff) by (nonlinear_arith)
        requires
            0 <= hold <= 0xffff_ffff_ffff_ffff,
            0 <= rest <= 0xffff_ffff_ffff_ffff,
    ;
    assert(hold * rest == time * x - x * x) by (nonlinear_arith)
        requires
            hold == x,
            rest == time - x,
    ;
    hold * rest
}

/// In how many ways a race of `time` beats the record `distance`: the hold
/// times below `time` that travel further.
pub fn count_winning_methods(time: &u64, distance: &u64) -> (winning: u64)
    ensures
        winning == winning_methods(*time as int, *distance as int),
{
    let race = *time;
    let record = *distance;
    let mut beaten = false;
    let mut winning: u64 = 0;
    let mut x: u64 = 0;
    while x < race
        invariant
            x <= race,
            race == *time,
            record == *distance,
            winning == ways(race as int, record as int, x as int),
            winning <= x,
            beaten ==> x > 0 && self::distance(race as int, x - 1) > record,
            !beaten ==> winning == 0,
        decreases race - x,
    {
        let beats = distance_wide(race, x) > record as u128;
        if beaten && !beats {
            proof {
                assert forall|hold: int| x <= hold < race implies self::distance(
                    race as int,
                    hold,
                ) <= record by {
                    lemma_distance_falls(race as int, x as int, hold);
                }
                lemma_no_more_ways(race as int, record as int, x as int, race as int);
            }
            return winning;
        }
        if beats {
            beaten = true;
            winning = winning + 1;
        }
        x = x + 1;
    }
    winning
}

/// The numbers of `input` after its first field.
pub fn extract_numbers(input: &str) -> (numbers: Result<Vec<u64>, PuzzleError>)
    ensures
        match numbers {
            Ok(list) => numbers_in(input@) == Some(list@),
            Err(e) => e == PuzzleError::Malformed && numbers_in(input@) is None,
        },
{
    let line = chars_of(input);
    numbers_after_label(&line)
}

/// The numbers of `line` after its first field.
fn numbers_after_label(line: &Vec<char>) -> (numbers: Result<Vec<u64>, PuzzleError>)
    ensures
        match numbers {
            Ok(list) => numbers_in(line@) == Some(list@),
            Err(e) => e == PuzzleError::Malformed && numbers_in(line@) is None,
        },
{
    let fields = split_fields(line);
    if fields.len() == 0 {
        return Ok(Vec::new());
    }
    match parse_numbers(&fields, 1) {
        None => Err(PuzzleError::Malformed),
        Some(list) => Ok(list),
    }
}

/// The product of the numbers of ways to beat each race's record.
pub fn part_one(input: &str) -> (answer: Result<u64, PuzzleError>)
    ensures
        match answer {
            Ok(product) => part_one_of(input@) == Ok::<int, PuzzleError>(product as int),
            Err(e) => part_one_of(input@) == Err::<int, PuzzleError>(e),
        },
{
    let text = chars_of(input);
    let lines = split_lines(&text);
    if lines.len() < 2 {
        return Err(PuzzleError::Malformed);
    }
    let times = match numbers_after_label(&lines[0]) {
        Err(e) => {
            return Err(e);
        },
        Ok(list) => list,
    };
    let records = match numbers_after_label(&lines[1]) {
        Err(e) => {
            return Err(e);
        },
        Ok(list) => list,
    };
    let mut product: u64 = 1;
    let mut i: usize = 0;
    proof {
        assert(times@.skip(0) == times@);
        assert(records@.skip(0) == records@);
    }
    while i < times.len() && i < records.len()
        invariant
            i <= times.len(),
            i <= records.len(),
            part_one_of(input@) == product_of_ways(times@, records@, 1),
            product_of_ways(times@, records@, 1) == product_of_ways(
                times@.skip(i as int),
                records@.skip(i as int),
                product as int,
            ),
        decreases times.len() - i,
    {
        proof {
            assert(times@.skip(i as int).skip(1) == times@.skip(i + 1));
            assert(records@.skip(i as int).skip(1) == records@.skip(i + 1));
        }
        let count = count_winning_methods(&times[i], &records[i]);
        product = match product.checked_mul(count) {
            None => {
                return Err(PuzzleError::Overflow);
            },
            Some(next) => next,
        };
        i = i + 1;
    }
    Ok(product)
}

/// The second part has no solution yet: its answer is always zero.
pub fn part_two(input: &str) -> (answer: Result<u64, PuzzleError>)
    ensures
        answer == Ok::<u64, PuzzleError>(0),
{
    Ok(0)
}

impl crate::solution::Solution for Solution {
    type Answer = Result<u64, PuzzleError>;

    open spec fn answers_part_one(text: Seq<char>, answer: Result<u64, PuzzleError>) -> bool {
        match answer {
            Ok(product) => part_one_of(text) == Ok::<int, PuzzleError>(product as int),
            Err(e) => part_one_of(text) == Err::<int, PuzzleError>(e),
        }
    }

    open spec fn answers_part_two(text: Seq<char>, answer: Result<u64, PuzzleError>) -> bool {
        answer == Ok::<u64, PuzzleError>(0)
    }

    fn part_one(&self, input: &str) -> (answer: Result<u64, PuzzleError>) {
        part_one(input)
    }

    fn part_two(&self, input: &str) -> (answer: Result<u64, PuzzleError>) {
        part_two(input)
    }
}

} // verus!
