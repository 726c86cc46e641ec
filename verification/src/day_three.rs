//! An engine schematic: a grid of numbers, symbols and dots. A number
//! next to a symbol is a part number; a star next to exactly two numbers is
//! a gear.

use crate::error::PuzzleError;
use crate::text::{chars_of, copy_span, lemma_run_len_bound, lines_of, number_of, parse_number, run_end, run_len, split_lines, views, CharClass};
use vstd::prelude::*;

verus! {

/// A number of the grid: the line it stands on, the columns it spans and
/// its value.
#[derive(Debug, Clone, Copy, PartialEq, Eq, Structural)]
pub struct NumberBox {
    pub x_min: usize,
    pub x_max: usize,
    pub y: usize,
    pub number: u32,
}

/// A symbol of the grid and its place.
#[derive(Debug, Clone, Copy, PartialEq, Eq, Structural)]
pub struct Symbol {
    pub x: usize,
    pub y: usize,
    pub symbol: char,
}

impl NumberBox {
    /// The place `(x, y)` is on the box or next to it, diagonally too.
    pub open spec fn touches(&self, x: int, y: int) -> bool {
        self.x_min - 1 <= x <= self.x_max + 1 && self.y - 1 <= y <= self.y + 1
    }

    /// Whether the place `(x, y)` is on the box or next to it, diagonally too.
    pub fn is_adjacent_to(&self, x: usize, y: usize) -> (near: bool)
        ensures
            near == self.touches(x as int, y as int),
    {
        if x > 0 && x - 1 > self.x_max {
            return false;
        }
        if self.x_min > 0 && x < self.x_min - 1 {
            return false;
        }
        if y > 0 && y - 1 > self.y {
            return false;
        }
        if self.y > 0 && y < self.y - 1 {
            return false;
        }
        true
    }
}

/// How many bytes `c` takes in UTF-8.
pub open spec fn bytes_of(c: char) -> nat {
    if (c as u32) < 0x80 {
        1
    } else if (c as u32) < 0x800 {
        2
    } else if (c as u32) < 0x10000 {
        3
    } else {
        4
    }
}

/// How many bytes `line` takes in UTF-8.
pub open spec fn byte_len(line: Seq<char>) -> nat
    decreases line.len(),
{
    if line.len() == 0 {
        0
    } else {
        byte_len(line.drop_last()) + bytes_of(line.last())
    }
}

/// `c` is a decimal digit.
pub open spec fn is_digit(c: char) -> bool {
    '0' <= c <= '9'
}

/// The value of the run of digits `run`, if it fits in 32 bits.
pub open spec fn run_value(run: Seq<char>) -> Option<u32> {
    match number_of(run) {
        None => None,
        Some(n) => if n <= u32::MAX {
            Some(n as u32)
        } else {
            None
        },
    }
}

/// The numbers of line `y` from column `from` on, each a longest run of
/// digits. A number that runs to the end of the line is taken to end one
/// before the line's length in bytes. There is no answer where a number
/// or a line's length in bytes does not fit its type.
pub open spec fn boxes_from(line: Seq<char>, y: usize, from: int) -> Option<Seq<NumberBox>>
    decreases line.len() - from,
{
    if from < 0 || from >= line.len() {
        Some(Seq::empty())
    } else if is_digit(line[from]) {
        proof {
            lemma_run_len_bound(line.skip(from), CharClass::Digit);
        }
        let to = from + run_len(line.skip(from), CharClass::Digit);
        let x_max: int = if to == line.len() {
            byte_len(line) - 1
        } else {
            to - 1
        };
        match (run_value(line.subrange(from, to)), boxes_from(line, y, to)) {
            (Some(number), Some(rest)) => if x_max < usize::MAX {
                Some(
                    seq![NumberBox { x_min: from as usize, x_max: x_max as usize, y, number }]
                        + rest,
                )
            } else {
                None
            },
            _ => None,
        }
    } else {
        boxes_from(line, y, from + 1)
    }
}

/// The symbols of line `y`: what is neither a digit nor a dot.
pub open spec fn symbols_on(line: Seq<char>, y: usize) -> Seq<Symbol>
    decreases line.len(),
{
    if line.len() == 0 {
        Seq::empty()
    } else {
        let c = line.last();
        let before = symbols_on(line.drop_last(), y);
        if is_digit(c) || c == '.' {
            before
        } else {
            before.push(Symbol { x: (line.len() - 1) as usize, y, symbol: c })
        }
    }
}

/// The numbers of the first `upto` lines.
pub open spec fn boxes_in(lines: Seq<Seq<char>>, upto: int) -> Option<Seq<NumberBox>>
    decreases upto,
{
    if upto <= 0 {
        Some(Seq::empty())
    } else {
        match (boxes_in(lines, upto - 1), boxes_from(lines[upto - 1], (upto - 1) as usize, 0)) {
            (Some(before), Some(here)) => Some(before + here),
            _ => None,
        }
    }
}

/// The symbols of the first `upto` lines.
pub open spec fn symbols_in(lines: Seq<Seq<char>>, upto: int) -> Seq<Symbol>
    decreases upto,
{
    if upto <= 0 {
        Seq::empty()
    } else {
        symbols_in(lines, upto - 1) + symbols_on(lines[upto - 1], (upto - 1) as usize)
    }
}

/// The numbers and the symbols of `text`, line by line.
pub open spec fn parsed(text: Seq<char>) -> Option<(Seq<NumberBox>, Seq<Symbol>)> {
    let lines = lines_of(text);
    match boxes_in(lines, lines.len() as int) {
        None => None,
        Some(boxes) => Some((boxes, symbols_in(lines, lines.len() as int))),
    }
}

/// Some symbol is on `b` or next to it.
pub open spec fn is_part(b: NumberBox, symbols: Seq<Symbol>) -> bool {
    exists|i: int|
        0 <= i < symbols.len() && b.touches(
            (#[trigger] symbols[i]).x as int,
            symbols[i].y as int,
        )
}

/// The sum of the part numbers among `boxes`, on top of `so_far`.
pub open spec fn parts_total(boxes: Seq<NumberBox>, symbols: Seq<Symbol>, so_far: int) -> Option<
    int,
>
    decreases boxes.len(),
{
    if boxes.len() == 0 {
        Some(so_far)
    } else {
        let share: int = if is_part(boxes[0], symbols) {
            boxes[0].number as int
        } else {
            0
        };
        if so_far + share > u32::MAX {
            None
        } else {
            parts_total(boxes.skip(1), symbols, so_far + share)
        }
    }
}

/// The numbers of `boxes` that are on the place `(x, y)` or next to it.
pub open spec fn neighbours(boxes: Seq<NumberBox>, x: int, y: int) -> Seq<NumberBox>
    decreases boxes.len(),
{
    if boxes.len() == 0 {
        Seq::empty()
    } else if boxes.last().touches(x, y) {
        neighbours(boxes.drop_last(), x, y).push(boxes.last())
    } else {
        neighbours(boxes.drop_last(), x, y)
    }
}

/// The ratio of the gear `s`: the product of its two numbers. What is no
/// star, or has not exactly two numbers next to it, is no gear and counts
/// for nothing.
pub open spec fn gear_ratio(s: Symbol, boxes: Seq<NumberBox>) -> int {
    let near = neighbours(boxes, s.x as int, s.y as int);
    if s.symbol == '*' && near.len() == 2 {
        near[0].number * near[1].number
    } else {
        0
    }
}

/// The sum of the gear ratios of `symbols`, on top of `so_far`.
pub open spec fn gears_total(symbols: Seq<Symbol>, boxes: Seq<NumberBox>, so_far: int) -> Option<
    int,
>
    decreases symbols.len(),
{
    if symbols.len() == 0 {
        Some(so_far)
    } else {
        let ratio = gear_ratio(symbols[0], boxes);
        if ratio > u32::MAX || so_far + ratio > u32::MAX {
            None
        } else {
            gears_total(symbols.skip(1), boxes, so_far + ratio)
        }
    }
}

/// The answer to the first part for `text`: the sum of the part numbers.
pub open spec fn part_one_of(text: Seq<char>) -> Result<int, PuzzleError> {
    match parsed(text) {
        None => Err(PuzzleError::Overflow),
        Some((boxes, symbols)) => match parts_total(boxes, symbols, 0) {
            None => Err(PuzzleError::Overflow),
            Some(sum) => Ok(sum),
        },
    }
}

/// The answer to the second part for `text`: the sum of the gear ratios.
pub open spec fn part_two_of(text: Seq<char>) -> Result<int, PuzzleError> {
    match parsed(text) {
        None => Err(PuzzleError::Overflow),
        Some((boxes, symbols)) => match gears_total(symbols, boxes, 0) {
            None => Err(PuzzleError::Overflow),
            Some(sum) => Ok(sum),
        },
    }
}

/// How many bytes `line` takes in UTF-8, unless that is more than fit.
fn byte_length(line: &Vec<char>) -> (bytes: Option<usize>)
    ensures
        match bytes {
            Some(n) => n == byte_len(line@),
            None => byte_len(line@) > usize::MAX,
        },
{
    let mut bytes: usize = 0;
    let mut i: usize = 0;
    proof {
        assert(line@.take(0) =~= Seq::<char>::empty());
    }
    while i < line.len()
        invariant
            i <= line.len(),
            bytes == byte_len(line@.take(i as int)),
        decreases line.len() - i,
    {
        proof {
            assert(line@.take(i + 1).drop_last() == line@.take(i as int));
            assert(line@.take(i + 1).last() == line[i as int]);
        }
        let n = line[i] as u32;
        let width: usize = if n < 0x80 {
            1
        } else if n < 0x800 {
            2
        } else if n < 0x10000 {
            3
        } else {
            4
        };
        bytes = match bytes.checked_add(width) {
            None => {
                proof {
                    lemma_byte_len_grows(line@, i + 1);
                }
                return None;
            },
            Some(next) => next,
        };
        i = i + 1;
    }
    proof {
        assert(line@.take(i as int) == line@);
    }
    Some(bytes)
}

/// A line takes at least as many bytes as any of its beginnings.
proof fn lemma_byte_len_grows(line: Seq<char>, k: int)
    requires
        0 <= k <= line.len(),
    ensures
        byte_len(line.take(k)) <= byte_len(line),
    decreases line.len() - k,
{
    if k < line.len() {
        lemma_byte_len_grows(line, k + 1);
        assert(line.take(k + 1).drop_last() == line.take(k));
    } else {
        assert(line.take(k) == line);
    }
}

/// `rest` with `done` put before it.
spec fn boxes_after(done: Seq<NumberBox>, rest: Option<Seq<NumberBox>>) -> Option<Seq<NumberBox>> {
    match rest {
        None => None,
        Some(more) => Some(done + more),
    }
}

/// The numbers of line `y`.
fn boxes_of_line(line: &Vec<char>, y: usize) -> (boxes: Option<Vec<NumberBox>>)
    ensures
        match boxes {
            Some(list) => boxes_from(line@, y, 0) == Some(list@),
            None => boxes_from(line@, y, 0) is None,
        },
{
    let mut list: Vec<NumberBox> = Vec::new();
    let mut at: usize = 0;
    proof {
        let whole = boxes_from(line@, y, 0);
        if whole is Some {
            assert(list@ + whole.unwrap() =~= whole.unwrap());
        }
    }
    while at < line.len()
        invariant
            at <= line.len(),
            boxes_from(line@, y, 0) == boxes_after(list@, boxes_from(line@, y, at as int)),
        decreases line.len() - at,
    {
        let ghost done = list@;
        let c = line[at];
        if c >= '0' && c <= '9' {
            let to = run_end(line, at, CharClass::Digit);
            let run = copy_span(line, at, to);
            let number = match parse_number(&run) {
                None => {
                    return None;
                },
                Some(n) => {
                    if n > u32::MAX as u64 {
                        return None;
                    }
                    n as u32
                },
            };
            let x_max = if to == line.len() {
                match byte_length(line) {
                    None => {
                        return None;
                    },
                    Some(bytes) => {
                        proof {
                            lemma_bytes_at_least_chars(line@);
                        }
                        bytes - 1
                    },
                }
            } else {
                proof {
                    crate::text::lemma_run_len_holds(line@.skip(at as int), CharClass::Digit);
                    assert(line@.skip(at as int)[0] == c);
                }
                to - 1
            };
            let found = NumberBox { x_min: at, x_max, y, number };
            list.push(found);
            proof {
                let more = boxes_from(line@, y, to as int);
                if more is Some {
                    assert(done + (seq![found] + more.unwrap()) =~= list@ + more.unwrap());
                }
            }
            at = to;
        } else {
            at = at + 1;
        }
    }
    proof {
        assert(list@ + Seq::<NumberBox>::empty() =~= list@);
    }
    Some(list)
}

/// A line takes at least one byte for each character.
proof fn lemma_bytes_at_least_chars(line: Seq<char>)
    ensures
        line.len() <= byte_len(line),
    decreases line.len(),
{
    if line.len() > 0 {
        lemma_bytes_at_least_chars(line.drop_last());
    }
}

/// The symbols of line `y`.
fn symbols_of_line(line: &Vec<char>, y: usize) -> (symbols: Vec<Symbol>)
    ensures
        symbols@ == symbols_on(line@, y),
{
    let mut symbols: Vec<Symbol> = Vec::new();
    let mut x: usize = 0;
    proof {
        assert(line@.take(0) =~= Seq::<char>::empty());
    }
    while x < line.len()
        invariant
            x <= line.len(),
            symbols@ == symbols_on(line@.take(x as int), y),
        decreases line.len() - x,
    {
        proof {
            assert(line@.take(x + 1).drop_last() == line@.take(x as int));
            assert(line@.take(x + 1).last() == line[x as int]);
        }
        let c = line[x];
        if !(c >= '0' && c <= '9') && c != '.' {
            symbols.push(Symbol { x, y, symbol: c });
        }
        x = x + 1;
    }
    proof {
        assert(line@.take(x as int) == line@);
    }
    symbols
}

/// The numbers and the symbols of `input`, line by line. Fails where a
/// number does not fit in 32 bits.
pub fn parse_input(input: &str) -> (found: Result<(Vec<NumberBox>, Vec<Symbol>), PuzzleError>)
    ensures
        match found {
            Ok((boxes, symbols)) => parsed(input@) == Some((boxes@, symbols@)),
            Err(e) => e == PuzzleError::Overflow && parsed(input@) is None,
        },
{
    let text = chars_of(input);
    let lines = split_lines(&text);
    let ghost all = views(lines@);
    let mut boxes: Vec<NumberBox> = Vec::new();
    let mut symbols: Vec<Symbol> = Vec::new();
    let mut y: usize = 0;
    while y < lines.len()
        invariant
            y <= lines.len(),
            all == views(lines@),
            all == lines_of(input@),
            boxes_in(all, y as int) == Some(boxes@),
            symbols@ == symbols_in(all, y as int),
        decreases lines.len() - y,
    {
        assert(all[y as int] == lines[y as int]@);
        let mut here = match boxes_of_line(&lines[y], y) {
            None => {
                proof {
                    lemma_boxes_fail(all, y + 1, all.len() as int);
                }
                return Err(PuzzleError::Overflow);
            },
            Some(list) => list,
        };
        boxes.append(&mut here);
        let mut marks = symbols_of_line(&lines[y], y);
        symbols.append(&mut marks);
        y = y + 1;
    }
    Ok((boxes, symbols))
}

/// Where the first `k` lines hold a number that does not fit, so do the
/// first `n`.
proof fn lemma_boxes_fail(lines: Seq<Seq<char>>, k: int, n: int)
    requires
        0 <= k <= n,
        boxes_in(lines, k) is None,
    ensures
        boxes_in(lines, n) is None,
    decreases n - k,
{
    if k < n {
        lemma_boxes_fail(lines, k, n - 1);
    }
}

/// Whether some symbol is on `b` or next to it.
fn near_a_symbol(b: &NumberBox, symbols: &Vec<Symbol>) -> (near: bool)
    ensures
        near == is_part(*b, symbols@),
{
    let mut i: usize = 0;
    while i < symbols.len()
        invariant
            i <= symbols.len(),
            forall|k: int| 0 <= k < i ==> !b.touches((#[trigger] symbols[k]).x as int, symbols[k].y as int),
        decreases symbols.len() - i,
    {
        if b.is_adjacent_to(symbols[i].x, symbols[i].y) {
            return true;
        }
        i = i + 1;
    }
    false
}

/// The sum of the numbers that have a symbol on them or next to them.
pub fn part_one(input: &str) -> (answer: Result<u32, PuzzleError>)
    ensures
        match answer {
            Ok(sum) => part_one_of(input@) == Ok::<int, PuzzleError>(sum as int),
            Err(e) => part_one_of(input@) == Err::<int, PuzzleError>(e),
        },
{
    let (boxes, symbols) = match parse_input(input) {
        Err(e) => {
            return Err(e);
        },
        Ok(found) => found,
    };
    let mut sum: u32 = 0;
    let mut i: usize = 0;
    proof {
        assert(boxes@.skip(0) == boxes@);
    }
    while i < boxes.len()
        invariant
            i <= boxes.len(),
            parsed(input@) == Some((boxes@, symbols@)),
            parts_total(boxes@, symbols@, 0) == parts_total(
                boxes@.skip(i as int),
                symbols@,
                sum as int,
            ),
        decreases boxes.len() - i,
    {
        proof {
            assert(boxes@.skip(i as int)[0] == boxes[i as int]);
            assert(boxes@.skip(i as int).skip(1) == boxes@.skip(i + 1));
        }
        let share = if near_a_symbol(&boxes[i], &symbols) {
            boxes[i].number
        } else {
            0
        };
        sum = match sum.checked_add(share) {
            None => {
                return Err(PuzzleError::Overflow);
            },
            Some(next) => next,
        };
        i = i + 1;
    }
    Ok(sum)
}

/// The numbers of `boxes` that are on the place `(x, y)` or next to it.
fn boxes_near(boxes: &Vec<NumberBox>, x: usize, y: usize) -> (near: Vec<NumberBox>)
    ensures
        near@ == neighbours(boxes@, x as int, y as int),
{
    let mut near: Vec<NumberBox> = Vec::new();
    let mut i: usize = 0;
    proof {
        assert(boxes@.take(0) =~= Seq::<NumberBox>::empty());
    }
    while i < boxes.len()
        invariant
            i <= boxes.len(),
            near@ == neighbours(boxes@.take(i as int), x as int, y as int),
        decreases boxes.len() - i,
    {
        proof {
            assert(boxes@.take(i + 1).drop_last() == boxes@.take(i as int));
            assert(boxes@.take(i + 1).last() == boxes[i as int]);
        }
        if boxes[i].is_adjacent_to(x, y) {
            near.push(boxes[i]);
        }
        i = i + 1;
    }
    proof {
        assert(boxes@.take(i as int) == boxes@);
    }
    near
}

/// The sum of the products of the two numbers next to each star that has
/// exactly two numbers next to it.
pub fn part_two(input: &str) -> (answer: Result<u32, PuzzleError>)
    ensures
        match answer {
            Ok(sum) => part_two_of(input@) == Ok::<int, PuzzleError>(sum as int),
            Err(e) => part_two_of(input@) == Err::<int, PuzzleError>(e),
        },
{
    let (boxes, symbols) = match parse_input(input) {
        Err(e) => {
            return Err(e);
        },
        Ok(found) => found,
    };
    let mut sum: u32 = 0;
    let mut i: usize = 0;
    proof {
        assert(symbols@.skip(0) == symbols@);
    }
    while i < symbols.len()
        invariant
            i <= symbols.len(),
            parsed(input@) == Some((boxes@, symbols@)),
            gears_total(symbols@, boxes@, 0) == gears_total(
                symbols@.skip(i as int),
                boxes@,
                sum as int,
            ),
        decreases symbols.len() - i,
    {
        proof {
            assert(symbols@.skip(i as int)[0] == symbols[i as int]);
            assert(symbols@.skip(i as int).skip(1) == symbols@.skip(i + 1));
        }
        let mut ratio: u32 = 0;
        if symbols[i].symbol == '*' {
            let near = boxes_near(&boxes, symbols[i].x, symbols[i].y);
            if near.len() == 2 {
                ratio = match near[0].number.checked_mul(near[1].number) {
                    None => {
                        return Err(PuzzleError::Overflow);
                    },
                    Some(product) => product,
                };
            }
        }
        sum = match sum.checked_add(ratio) {
            None => {
                return Err(PuzzleError::Overflow);
            },
            Some(next) => next,
        };
        i = i + 1;
    }
    Ok(sum)
}

} // verus!
