//! A game of cubes: each line is a game, a list of draws of coloured
//! cubes. Which games are possible with a given stock of cubes, and how
//! many cubes of each colour does a game need at least?

use crate::error::PuzzleError;
use crate::text::{chars_of, fields_of, lines_of, number_of, parse_number, pieces_of, same_text, split_fields, split_lines, split_pieces, views, CharClass};
use vstd::prelude::*;

verus! {

/// The day's solution.
pub struct Solution;

/// A number of cubes and their colour.
pub struct Draw {
    pub count: u32,
    pub colour: Vec<char>,
}

/// What a draw stands for.
pub struct DrawView {
    pub count: u32,
    pub colour: Seq<char>,
}

impl View for Draw {
    type V = DrawView;

    open spec fn view(&self) -> DrawView {
        DrawView { count: self.count, colour: self.colour@ }
    }
}

/// What each draw of `v` stands for.
pub open spec fn draw_views(v: Seq<Draw>) -> Seq<DrawView> {
    Seq::new(v.len(), |i: int| v[i]@)
}

/// The character that parts a game's name from its draws.
pub open spec fn colon() -> CharClass {
    CharClass::Except(':', ':')
}

/// The characters that part one draw from the next.
pub open spec fn list_marks() -> CharClass {
    CharClass::Except(';', ',')
}

/// The number that `field` writes, if it fits in 32 bits.
pub open spec fn small_number(field: Seq<char>) -> Option<u32> {
    match number_of(field) {
        None => None,
        Some(n) => if n <= u32::MAX {
            Some(n as u32)
        } else {
            None
        },
    }
}

/// The draw that `piece` writes: a number and a colour, and whatever
/// follows them.
pub open spec fn draw_of(piece: Seq<char>) -> Option<DrawView> {
    let fields = fields_of(piece);
    if fields.len() < 2 {
        None
    } else {
        match small_number(fields[0]) {
            None => None,
            Some(count) => Some(DrawView { count, colour: fields[1] }),
        }
    }
}

/// How many cubes of `colour` there are in stock.
pub open spec fn limit_of(colour: Seq<char>) -> Option<u32> {
    if colour == "red"@ {
        Some(12u32)
    } else if colour == "green"@ {
        Some(13u32)
    } else if colour == "blue"@ {
        Some(14u32)
    } else {
        None
    }
}

/// Whether the stock allows every draw of `pieces`, looking at them in
/// order and no further than the first draw that it does not allow.
pub open spec fn possible(pieces: Seq<Seq<char>>) -> Option<bool>
    decreases pieces.len(),
{
    if pieces.len() == 0 {
        Some(true)
    } else {
        match draw_of(pieces[0]) {
            None => None,
            Some(draw) => match limit_of(draw.colour) {
                None => None,
                Some(limit) => if draw.count > limit {
                    Some(false)
                } else {
                    possible(pieces.skip(1))
                },
            },
        }
    }
}

/// The number of the game `line`: the second field of what stands before
/// the colon.
pub open spec fn game_id(line: Seq<char>) -> Option<u32> {
    let head = fields_of(pieces_of(line, colon())[0]);
    if head.len() < 2 {
        None
    } else {
        small_number(head[1])
    }
}

/// The draws of the game `line`, as they are written.
pub open spec fn draws_in(line: Seq<char>) -> Option<Seq<Seq<char>>> {
    let parts = pieces_of(line, colon());
    if parts.len() < 2 {
        None
    } else {
        Some(pieces_of(parts[1], list_marks()))
    }
}

/// What the game `line` adds to the first answer: its number if the stock
/// allows it, else nothing.
pub open spec fn game_value(line: Seq<char>) -> Option<u32> {
    match (game_id(line), draws_in(line)) {
        (Some(id), Some(pieces)) => match possible(pieces) {
            None => None,
            Some(true) => Some(id),
            Some(false) => Some(0u32),
        },
        _ => None,
    }
}

/// `tally` with `draw` taken in: the count of the draw's colour is raised
/// to the draw's count if it was lower, and a new colour is put at the end.
pub open spec fn raised(tally: Seq<DrawView>, draw: DrawView) -> Seq<DrawView>
    decreases tally.len(),
{
    if tally.len() == 0 {
        seq![draw]
    } else if tally[0].colour == draw.colour {
        seq![
            DrawView {
                count: if tally[0].count < draw.count {
                    draw.count
                } else {
                    tally[0].count
                },
                colour: draw.colour,
            },
        ] + tally.skip(1)
    } else {
        seq![tally[0]] + raised(tally.skip(1), draw)
    }
}

/// The largest count of each colour among the draws `pieces`, the colours
/// in the order in which they first come.
pub open spec fn fewest(pieces: Seq<Seq<char>>) -> Option<Seq<DrawView>>
    decreases pieces.len(),
{
    if pieces.len() == 0 {
        Some(Seq::empty())
    } else {
        match (fewest(pieces.drop_last()), draw_of(pieces.last())) {
            (Some(tally), Some(draw)) => Some(raised(tally, draw)),
            _ => None,
        }
    }
}

/// The product of the counts of `tally`.
pub open spec fn product(tally: Seq<DrawView>) -> nat
    decreases tally.len(),
{
    if tally.len() == 0 {
        1
    } else {
        product(tally.drop_last()) * (tally.last().count as nat)
    }
}

/// The power of the game `line`: the product of the fewest cubes of each
/// colour that its draws need.
pub open spec fn game_power(line: Seq<char>) -> Result<int, PuzzleError> {
    match draws_in(line) {
        None => Err(PuzzleError::Malformed),
        Some(pieces) => match fewest(pieces) {
            None => Err(PuzzleError::Malformed),
            Some(tally) => if product(tally) > u32::MAX {
                Err(PuzzleError::Overflow)
            } else {
                Ok(product(tally) as int)
            },
        },
    }
}

/// What each game of `lines` adds, summed up on top of `so_far`: with
/// `powers` its power, else its value.
pub open spec fn total(lines: Seq<Seq<char>>, powers: bool, so_far: int) -> Result<
    int,
    PuzzleError,
>
    decreases lines.len(),
{
    if lines.len() == 0 {
        Ok(so_far)
    } else {
        let share: Result<int, PuzzleError> = if powers {
            game_power(lines[0])
        } else {
            match game_value(lines[0]) {
                None => Err(PuzzleError::Malformed),
                Some(v) => Ok(v as int),
            }
        };
        match share {
            Err(e) => Err(e),
            Ok(v) => if so_far + v > u32::MAX {
                Err(PuzzleError::Overflow)
            } else {
                total(lines.skip(1), powers, so_far + v)
            },
        }
    }
}

/// The answer to the first part for `text`: the sum of the numbers of the
/// games that the stock allows.
pub open spec fn part_one_of(text: Seq<char>) -> Result<int, PuzzleError> {
    total(lines_of(text), false, 0)
}

/// The answer to the second part for `text`: the sum of the games' powers.
pub open spec fn part_two_of(text: Seq<char>) -> Result<int, PuzzleError> {
    total(lines_of(text), true, 0)
}

/// Reads `field` as a number of 32 bits.
pub fn parse_small(field: &Vec<char>) -> (number: Option<u32>)
    ensures
        number == small_number(field@),
{
    match parse_number(field) {
        None => None,
        Some(n) => if n <= u32::MAX as u64 {
            Some(n as u32)
        } else {
            None
        },
    }
}

/// Reads `piece` as a draw.
pub fn parse_draw(piece: &Vec<char>) -> (draw: Option<Draw>)
    ensures
        match draw {
            Some(d) => draw_of(piece@) == Some(d@),
            None => draw_of(piece@) is None,
        },
{
    let mut fields = split_fields(piece);
    if fields.len() < 2 {
        return None;
    }
    let count = match parse_small(&fields[0]) {
        None => {
            return None;
        },
        Some(n) => n,
    };
    let ghost all = views(fields@);
    let colour = fields.swap_remove(1);
    assert(colour@ == all[1]);
    Some(Draw { count, colour })
}

/// How many cubes of `colour` there are in stock.
pub fn limit(colour: &Vec<char>) -> (stock: Option<u32>)
    ensures
        stock == limit_of(colour@),
{
    if same_text(colour, &chars_of("red")) {
        Some(12)
    } else if same_text(colour, &chars_of("green")) {
        Some(13)
    } else if same_text(colour, &chars_of("blue")) {
        Some(14)
    } else {
        None
    }
}

/// Whether the stock allows every draw of `pieces`.
fn check_draws(pieces: &Vec<Vec<char>>) -> (allowed: Option<bool>)
    ensures
        allowed == possible(views(pieces@)),
{
    let ghost all = views(pieces@);
    let mut i: usize = 0;
    proof {
        assert(all.skip(0) == all);
    }
    while i < pieces.len()
        invariant
            i <= pieces.len(),
            all == views(pieces@),
            possible(all) == possible(all.skip(i as int)),
        decreases pieces.len() - i,
    {
        proof {
            assert(all.skip(i as int)[0] == pieces[i as int]@);
            assert(all.skip(i as int).skip(1) == all.skip(i + 1));
        }
        let draw = match parse_draw(&pieces[i]) {
            None => {
                return None;
            },
            Some(d) => d,
        };
        let stock = match limit(&draw.colour) {
            None => {
                return None;
            },
            Some(n) => n,
        };
        if draw.count > stock {
            return Some(false);
        }
        i = i + 1;
    }
    Some(true)
}

/// The parts of `line` before and after its first colon.
fn game_parts(line: &Vec<char>) -> (parts: Vec<Vec<char>>)
    ensures
        views(parts@) == pieces_of(line@, colon()),
        parts.len() > 0,
{
    split_pieces(line, CharClass::Except(':', ':'))
}

/// What the game `line` adds to the first answer.
fn value_of_game(line: &Vec<char>) -> (value: Option<u32>)
    ensures
        value == game_value(line@),
{
    let parts = game_parts(line);
    let head = split_fields(&parts[0]);
    if head.len() < 2 {
        return None;
    }
    let id = match parse_small(&head[1]) {
        None => {
            return None;
        },
        Some(n) => n,
    };
    if parts.len() < 2 {
        return None;
    }
    let pieces = split_pieces(&parts[1], CharClass::Except(';', ','));
    match check_draws(&pieces) {
        None => None,
        Some(true) => Some(id),
        Some(false) => Some(0),
    }
}

/// Where the first draws of a tally are of other colours, taking a draw in
/// changes only the later ones.
proof fn lemma_raised_back(tally: Seq<DrawView>, draw: DrawView, k: int)
    requires
        0 <= k <= tally.len(),
        forall|j: int| 0 <= j < k ==> (#[trigger] tally[j]).colour != draw.colour,
    ensures
        raised(tally, draw) == tally.take(k) + raised(tally.skip(k), draw),
    decreases k,
{
    if k == 0 {
        assert(tally.skip(0) == tally);
        assert(tally.take(0) + raised(tally, draw) =~= raised(tally, draw));
    } else {
        let rest = tally.skip(1);
        assert(tally[0].colour != draw.colour);
        assert forall|j: int| 0 <= j < k - 1 implies (#[trigger] rest[j]).colour
            != draw.colour by {
            assert(rest[j] == tally[j + 1]);
        }
        lemma_raised_back(rest, draw, k - 1);
        assert(rest.skip(k - 1) == tally.skip(k));
        assert(seq![tally[0]] + (rest.take(k - 1) + raised(tally.skip(k), draw)) =~= tally.take(k)
            + raised(tally.skip(k), draw));
    }
}

/// Takes `draw` into `tally`.
fn raise(tally: &mut Vec<Draw>, draw: Draw)
    ensures
        draw_views(final(tally)@) == raised(draw_views(old(tally)@), draw@),
{
    let ghost before = draw_views(tally@);
    let mut i: usize = 0;
    while i < tally.len()
        invariant
            i <= tally.len(),
            tally@ == old(tally)@,
            before == draw_views(tally@),
            forall|j: int| 0 <= j < i ==> (#[trigger] before[j]).colour != draw@.colour,
        decreases tally.len() - i,
    {
        if same_text(&tally[i].colour, &draw.colour) {
            let held = tally[i].count;
            let count = if held < draw.count {
                draw.count
            } else {
                held
            };
            let ghost shown = draw@;
            tally.set(i, Draw { count, colour: draw.colour });
            proof {
                lemma_raised_back(before, shown, i as int);
                let back = before.skip(i as int);
                assert(back[0] == before[i as int]);
                assert(back.skip(1) == before.skip(i + 1));
                assert(draw_views(tally@) =~= before.take(i as int) + (seq![
                    DrawView { count, colour: shown.colour },
                ] + before.skip(i + 1)));
            }
            return ;
        }
        i = i + 1;
    }
    let ghost shown = draw@;
    tally.push(draw);
    proof {
        lemma_raised_back(before, shown, before.len() as int);
        assert(before.take(before.len() as int) == before);
        assert(before.skip(before.len() as int) =~= Seq::<DrawView>::empty());
        assert(draw_views(tally@) =~= before + seq![shown]);
    }
}

/// The largest count of each colour among the draws `pieces`.
fn fewest_cubes(pieces: &Vec<Vec<char>>) -> (tally: Option<Vec<Draw>>)
    ensures
        match tally {
            Some(list) => fewest(views(pieces@)) == Some(draw_views(list@)),
            None => fewest(views(pieces@)) is None,
        },
{
    let ghost all = views(pieces@);
    let mut list: Vec<Draw> = Vec::new();
    let mut i: usize = 0;
    proof {
        assert(all.take(0) =~= Seq::<Seq<char>>::empty());
        assert(draw_views(list@) =~= Seq::<DrawView>::empty());
    }
    while i < pieces.len()
        invariant
            i <= pieces.len(),
            all == views(pieces@),
            fewest(all.take(i as int)) == Some(draw_views(list@)),
        decreases pieces.len() - i,
    {
        proof {
            assert(all.take(i + 1).drop_last() == all.take(i as int));
            assert(all.take(i + 1).last() == pieces[i as int]@);
        }
        match parse_draw(&pieces[i]) {
            None => {
                proof {
                    lemma_fewest_fails(all, i + 1);
                }
                return None;
            },
            Some(draw) => {
                raise(&mut list, draw);
            },
        }
        i = i + 1;
    }
    proof {
        assert(all.take(i as int) == all);
    }
    Some(list)
}

/// Where the first `k` draws have no tally, neither have all of them.
proof fn lemma_fewest_fails(pieces: Seq<Seq<char>>, k: int)
    requires
        0 <= k <= pieces.len(),
        fewest(pieces.take(k)) is None,
    ensures
        fewest(pieces) is None,
    decreases pieces.len() - k,
{
    if k < pieces.len() {
        assert(pieces.take(k + 1).drop_last() == pieces.take(k));
        lemma_fewest_fails(pieces, k + 1);
    } else {
        assert(pieces.take(k) == pieces);
    }
}

/// A product with a factor of zero is zero, and one without is at least
/// the product of any of its first factors.
proof fn lemma_product(tally: Seq<DrawView>, k: int)
    requires
        0 <= k <= tally.len(),
    ensures
        (exists|j: int| 0 <= j < tally.len() && (#[trigger] tally[j]).count == 0) ==> product(tally)
            == 0,
        (forall|j: int| 0 <= j < tally.len() ==> (#[trigger] tally[j]).count > 0) ==> product(
            tally.take(k),
        ) <= product(tally) && product(tally) > 0,
    decreases tally.len(),
{
    if tally.len() > 0 {
        let rest = tally.drop_last();
        let last = tally.last().count;
        if k < tally.len() {
            lemma_product(rest, k);
            assert(rest.take(k) == tally.take(k));
        } else {
            lemma_product(rest, rest.len() as int);
            assert(tally.take(k) == tally);
        }
        if exists|j: int| 0 <= j < tally.len() && (#[trigger] tally[j]).count == 0 {
            let j = choose|j: int| 0 <= j < tally.len() && (#[trigger] tally[j]).count == 0;
            if j < rest.len() {
                assert(rest[j].count == 0);
                assert(product(rest) == 0);
            }
            assert(product(rest) * last == 0) by (nonlinear_arith)
                requires
                    product(rest) == 0 || last == 0,
            ;
        }
        if forall|j: int| 0 <= j < tally.len() ==> (#[trigger] tally[j]).count > 0 {
            assert forall|j: int| 0 <= j < rest.len() implies (#[trigger] rest[j]).count > 0 by {
                assert(rest[j] == tally[j]);
            }
            assert(tally[tally.len() - 1].count > 0);
            assert(product(rest) * last >= product(rest) && product(rest) * last > 0)
                by (nonlinear_arith)
                requires
                    product(rest) > 0,
                    last > 0,
            ;
        }
    } else {
        assert(tally.take(k) =~= tally);
    }
}

/// The product of the counts of `tally`, if it fits in 32 bits.
pub fn product_of(tally: &Vec<Draw>) -> (power: Option<u32>)
    ensures
        match power {
            Some(p) => p == product(draw_views(tally@)),
            None => product(draw_views(tally@)) > u32::MAX,
        },
{
    let ghost all = draw_views(tally@);
    let mut i: usize = 0;
    while i < tally.len()
        invariant
            i <= tally.len(),
            all == draw_views(tally@),
            forall|j: int| 0 <= j < i ==> (#[trigger] all[j]).count > 0,
        decreases tally.len() - i,
    {
        if tally[i].count == 0 {
            proof {
                assert(all[i as int].count == 0);
                lemma_product(all, 0);
            }
            return Some(0);
        }
        i = i + 1;
    }
    let mut power: u32 = 1;
    let mut k: usize = 0;
    proof {
        assert(all.take(0) =~= Seq::<DrawView>::empty());
    }
    while k < tally.len()
        invariant
            k <= tally.len(),
            all == draw_views(tally@),
            forall|j: int| 0 <= j < all.len() ==> (#[trigger] all[j]).count > 0,
            power == product(all.take(k as int)),
        decreases tally.len() - k,
    {
        proof {
            assert(all.take(k + 1).drop_last() == all.take(k as int));
            assert(all.take(k + 1).last() == tally[k as int]@);
            lemma_product(all, k + 1);
        }
        power = match power.checked_mul(tally[k].count) {
            None => {
                return None;
            },
            Some(next) => next,
        };
        k = k + 1;
    }
    proof {
        assert(all.take(k as int) == all);
    }
    Some(power)
}

/// The power of the game `line`.
fn power_of_game(line: &Vec<char>) -> (power: Result<u32, PuzzleError>)
    ensures
        match power {
            Ok(p) => game_power(line@) == Ok::<int, PuzzleError>(p as int),
            Err(e) => game_power(line@) == Err::<int, PuzzleError>(e),
        },
{
    let parts = game_parts(line);
    if parts.len() < 2 {
        return Err(PuzzleError::Malformed);
    }
    let pieces = split_pieces(&parts[1], CharClass::Except(';', ','));
    let tally = match fewest_cubes(&pieces) {
        None => {
            return Err(PuzzleError::Malformed);
        },
        Some(list) => list,
    };
    match product_of(&tally) {
        None => Err(PuzzleError::Overflow),
        Some(p) => Ok(p),
    }
}

/// What the games add up to.
fn total_of(input: &str, powers: bool) -> (answer: Result<u32, PuzzleError>)
    ensures
        match answer {
            Ok(sum) => total(lines_of(input@), powers, 0) == Ok::<int, PuzzleError>(sum as int),
            Err(e) => total(lines_of(input@), powers, 0) == Err::<int, PuzzleError>(e),
        },
{
    let text = chars_of(input);
    let lines = split_lines(&text);
    let ghost all = views(lines@);
    let mut sum: u32 = 0;
    let mut i: usize = 0;
    proof {
        assert(all.skip(0) == all);
    }
    while i < lines.len()
        invariant
            i <= lines.len(),
            all == views(lines@),
            total(lines_of(input@), powers, 0) == total(all.skip(i as int), powers, sum as int),
        decreases lines.len() - i,
    {
        proof {
            assert(all.skip(i as int)[0] == lines[i as int]@);
            assert(all.skip(i as int).skip(1) == all.skip(i + 1));
        }
        let share = if powers {
            match power_of_game(&lines[i]) {
                Err(e) => {
                    return Err(e);
                },
                Ok(p) => p,
            }
        } else {
            match value_of_game(&lines[i]) {
                None => {
                    return Err(PuzzleError::Malformed);
                },
                Some(v) => v,
            }
        };
        sum = match sum.checked_add(share) {
            None => {
                return Err(PuzzleError::Overflow);
            },
            Some(next) => next,
        };
        i = i + 1;
    }
    Ok(sum)
}

/// The sum of the numbers of the games that the stock allows.
pub fn part_one(input: &str) -> (answer: Result<u32, PuzzleError>)
    ensures
        match answer {
            Ok(sum) => part_one_of(input@) == Ok::<int, PuzzleError>(sum as int),
            Err(e) => part_one_of(input@) == Err::<int, PuzzleError>(e),
        },
{
    total_of(input, false)
}

/// The sum of the powers of the games.
pub fn part_two(input: &str) -> (answer: Result<u32, PuzzleError>)
    ensures
        match answer {
            Ok(sum) => part_two_of(input@) == Ok::<int, PuzzleError>(sum as int),
            Err(e) => part_two_of(input@) == Err::<int, PuzzleError>(e),
        },
{
    total_of(input, true)
}

impl crate::solution::Solution for Solution {
    type Answer = Result<u32, PuzzleError>;

    open spec fn answers_part_one(text: Seq<char>, answer: Result<u32, PuzzleError>) -> bool {
        match answer {
            Ok(sum) => part_one_of(text) == Ok::<int, PuzzleError>(sum as int),
            Err(e) => part_one_of(text) == Err::<int, PuzzleError>(e),
        }
    }

    open spec fn answers_part_two(text: Seq<char>, answer: Result<u32, PuzzleError>) -> bool {
        match answer {
            Ok(sum) => part_two_of(text) == Ok::<int, PuzzleError>(sum as int),
            Err(e) => part_two_of(text) == Err::<int, PuzzleError>(e),
        }
    }

    fn part_one(&self, input: &str) -> (answer: Result<u32, PuzzleError>) {
        part_one(input)
    }

    fn part_two(&self, input: &str) -> (answer: Result<u32, PuzzleError>) {
        part_two(input)
    }
}

} // verus!
