//! Scratchcards: each card lists winning numbers and, after a bar, the
//! numbers one has. A card scores by how many of one's numbers win, and it
//! wins copies of the cards after it.

use crate::error::PuzzleError;
use crate::text::{chars_of, fields_of, lines_of, numbers_of, parse_numbers, pieces_of, split_fields, split_lines, split_pieces, views, CharClass};
use std::collections::HashSet;
use vstd::prelude::*;

verus! {

broadcast use vstd::std_specs::hash::group_hash_axioms;

/// The characters that part a card's name, its winning numbers and the
/// numbers one has.
pub open spec fn markers() -> CharClass {
    CharClass::Except(':', '|')
}

/// The numbers that `part` lists, if every field of it is a number that
/// fits in 32 bits.
pub open spec fn numbers_on(part: Seq<char>) -> Option<Seq<u64>> {
    match numbers_of(fields_of(part)) {
        None => None,
        Some(numbers) => if forall|i: int|
            0 <= i < numbers.len() ==> #[trigger] numbers[i] <= u32::MAX {
            Some(numbers)
        } else {
            None
        },
    }
}

/// How many of the numbers `own` are among `winning`; a number that
/// stands twice in `own` counts twice.
pub open spec fn hits(own: Seq<u64>, winning: Seq<u64>) -> nat
    decreases own.len(),
{
    if own.len() == 0 {
        0
    } else {
        hits(own.drop_last(), winning) + if winning.contains(own.last()) {
            1nat
        } else {
            0nat
        }
    }
}

/// How many of the numbers one has on the card `line` win.
pub open spec fn winners_on(line: Seq<char>) -> Option<nat> {
    let parts = pieces_of(line, markers());
    if parts.len() < 3 {
        None
    } else {
        match (numbers_on(parts[1]), numbers_on(parts[2])) {
            (Some(winning), Some(own)) => Some(hits(own, winning)),
            _ => None,
        }
    }
}

/// Two to the power of `k`.
pub open spec fn doubled(k: nat) -> nat
    decreases k,
{
    if k == 0 {
        1
    } else {
        2 * doubled((k - 1) as nat)
    }
}

/// What a card with `winners` winning numbers is worth: nothing without
/// one, one point for the first, and twice as much for each one more.
pub open spec fn points(winners: nat) -> nat {
    if winners == 0 {
        0
    } else {
        doubled((winners - 1) as nat)
    }
}

/// The points of the cards `lines` added to `so_far`.
pub open spec fn total_points(lines: Seq<Seq<char>>, so_far: int) -> Result<int, PuzzleError>
    decreases lines.len(),
{
    if lines.len() == 0 {
        Ok(so_far)
    } else {
        match winners_on(lines[0]) {
            None => Err(PuzzleError::Malformed),
            Some(winners) => if so_far + points(winners) > u32::MAX {
                Err(PuzzleError::Overflow)
            } else {
                total_points(lines.skip(1), so_far + points(winners))
            },
        }
    }
}

/// The answer to the first part for `text`: the points of all its cards.
pub open spec fn part_one_of(text: Seq<char>) -> Result<int, PuzzleError> {
    total_points(lines_of(text), 0)
}

/// The copies won so far of card `k`.
pub open spec fn won(extras: Seq<int>, k: int) -> int {
    if 0 <= k < extras.len() {
        extras[k]
    } else {
        0
    }
}

/// `extras` after each of the `count` cards from card `from` on has won
/// `amount` more copies.
pub open spec fn with_copies(extras: Seq<int>, from: int, count: int, amount: int) -> Seq<int> {
    Seq::new(
        if extras.len() >= from + count {
            extras.len()
        } else {
            (from + count) as nat
        },
        |k: int|
            won(extras, k) + if from <= k < from + count {
                amount
            } else {
                0
            },
    )
}

/// Some of the `count` cards from card `from` on would have more copies
/// than fit in 32 bits if it won `amount` more.
pub open spec fn too_many(extras: Seq<int>, from: int, count: int, amount: int) -> bool {
    exists|k: int| from <= k < from + count && #[trigger] won(extras, k) + amount > u32::MAX
}

/// The number of cards one ends up with, added to `so_far`, counting from
/// card `index` on: each card counts once and once for each copy won, and
/// each of its instances wins a copy of each of the next cards, as many
/// cards as it has winning numbers.
pub open spec fn total_cards(lines: Seq<Seq<char>>, index: int, extras: Seq<int>, so_far: int) -> Result<
    int,
    PuzzleError,
>
    decreases lines.len() - index,
{
    if index < 0 || index >= lines.len() {
        Ok(so_far)
    } else {
        match winners_on(lines[index]) {
            None => Err(PuzzleError::Malformed),
            Some(winners) => {
                let instances = won(extras, index) + 1;
                if instances > u32::MAX || index + 1 + winners > usize::MAX || too_many(
                    extras,
                    index + 1,
                    winners as int,
                    instances,
                ) || so_far + instances > u32::MAX {
                    Err(PuzzleError::Overflow)
                } else {
                    total_cards(
                        lines,
                        index + 1,
                        with_copies(extras, index + 1, winners as int, instances),
                        so_far + instances,
                    )
                }
            },
        }
    }
}

/// The answer to the second part for `text`: the number of cards one ends
/// up with.
pub open spec fn part_two_of(text: Seq<char>) -> Result<int, PuzzleError> {
    total_cards(lines_of(text), 0, Seq::empty(), 0)
}

/// Doubling more often gives no less.
proof fn lemma_doubled_grows(j: nat, k: nat)
    requires
        j <= k,
    ensures
        doubled(j) <= doubled(k),
    decreases k,
{
    if j < k {
        lemma_doubled_grows(j, (k - 1) as nat);
    }
}

/// Reads the numbers that `part` lists.
fn numbers_listed(part: &Vec<char>) -> (numbers: Option<Vec<u64>>)
    ensures
        match numbers {
            Some(list) => numbers_on(part@) == Some(list@),
            None => numbers_on(part@) is None,
        },
{
    let fields = split_fields(part);
    proof {
        assert(views(fields@).skip(0) == views(fields@));
    }
    let list = match parse_numbers(&fields, 0) {
        None => {
            return None;
        },
        Some(list) => list,
    };
    let mut i: usize = 0;
    while i < list.len()
        invariant
            i <= list.len(),
            numbers_of(fields_of(part@)) == Some(list@),
            forall|k: int| 0 <= k < i ==> #[trigger] list[k] <= u32::MAX,
        decreases list.len() - i,
    {
        if list[i] > u32::MAX as u64 {
            return None;
        }
        i = i + 1;
    }
    Some(list)
}

/// How many of the numbers `own` are among `winning`.
fn count_hits(own: &Vec<u64>, winning: &Vec<u64>) -> (count: usize)
    ensures
        count == hits(own@, winning@),
{
    let mut known: HashSet<u64> = HashSet::new();
    let mut i: usize = 0;
    while i < winning.len()
        invariant
            i <= winning.len(),
            forall|x: u64| known@.contains(x) <==> winning@.take(i as int).contains(x),
        decreases winning.len() - i,
    {
        let ghost before = winning@.take(i as int);
        known.insert(winning[i]);
        proof {
            let after = winning@.take(i + 1);
            assert(after == before.push(winning[i as int]));
            assert forall|x: u64| known@.contains(x) <==> after.contains(x) by {
                if before.contains(x) {
                    let k = choose|k: int| 0 <= k < before.len() && before[k] == x;
                    assert(after[k] == x);
                }
                if x == winning[i as int] {
                    assert(after[i as int] == x);
                }
            }
        }
        i = i + 1;
    }
    proof {
        assert(winning@.take(i as int) == winning@);
    }
    let mut count: usize = 0;
    let mut j: usize = 0;
    while j < own.len()
        invariant
            j <= own.len(),
            count <= j,
            forall|x: u64| known@.contains(x) <==> winning@.contains(x),
            count == hits(own@.take(j as int), winning@),
        decreases own.len() - j,
    {
        proof {
            assert(own@.take(j + 1).drop_last() == own@.take(j as int));
            assert(own@.take(j + 1).last() == own[j as int]);
        }
        if known.contains(&own[j]) {
            count = count + 1;
        }
        j = j + 1;
    }
    proof {
        assert(own@.take(j as int) == own@);
    }
    count
}

/// How many of the numbers one has on the card win.
fn winners_of(line: &Vec<char>) -> (winners: Option<usize>)
    ensures
        match winners {
            Some(count) => winners_on(line@) == Some(count as nat),
            None => winners_on(line@) is None,
        },
{
    let parts = split_pieces(line, CharClass::Except(':', '|'));
    if parts.len() < 3 {
        return None;
    }
    let winning = match numbers_listed(&parts[1]) {
        None => {
            return None;
        },
        Some(list) => list,
    };
    let own = match numbers_listed(&parts[2]) {
        None => {
            return None;
        },
        Some(list) => list,
    };
    Some(count_hits(&own, &winning))
}

/// How many of the numbers one has on the card `line` win. The card's
/// name, its winning numbers and one's own numbers are parted by a colon
/// and a bar.
pub fn count_winners(line: &str) -> (winners: Result<usize, PuzzleError>)
    ensures
        match winners {
            Ok(count) => winners_on(line@) == Some(count as nat),
            Err(e) => e == PuzzleError::Malformed && winners_on(line@) is None,
        },
{
    let text = chars_of(line);
    match winners_of(&text) {
        None => Err(PuzzleError::Malformed),
        Some(count) => Ok(count),
    }
}

/// What a card with `winners` winning numbers is worth, if that fits in 32 bits.
pub fn card_points(winners: usize) -> (worth: Option<u32>)
    ensures
        match worth {
            Some(p) => p == points(winners as nat),
            None => points(winners as nat) > u32::MAX,
        },
{
    if winners == 0 {
        return Some(0);
    }
    let mut worth: u32 = 1;
    let mut k: usize = 1;
    while k < winners
        invariant
            1 <= k <= winners,
            worth == doubled((k - 1) as nat),
        decreases winners - k,
    {
        worth = match worth.checked_mul(2) {
            None => {
                proof {
                    lemma_doubled_grows(k as nat, (winners - 1) as nat);
                }
                return None;
            },
            Some(next) => next,
        };
        k = k + 1;
    }
    Some(worth)
}

/// The points of all the cards of `input`.
pub fn part_one(input: &str) -> (answer: Result<u32, PuzzleError>)
    ensures
        match answer {
            Ok(total) => part_one_of(input@) == Ok::<int, PuzzleError>(total as int),
            Err(e) => part_one_of(input@) == Err::<int, PuzzleError>(e),
        },
{
    let text = chars_of(input);
    let lines = split_lines(&text);
    let ghost all = views(lines@);
    let mut total: u32 = 0;
    let mut i: usize = 0;
    proof {
        assert(all.skip(0) == all);
    }
    while i < lines.len()
        invariant
            i <= lines.len(),
            all == views(lines@),
            part_one_of(input@) == total_points(all.skip(i as int), total as int),
        decreases lines.len() - i,
    {
        proof {
            assert(all.skip(i as int)[0] == lines[i as int]@);
            assert(all.skip(i as int).skip(1) == all.skip(i + 1));
        }
        let winners = match winners_of(&lines[i]) {
            None => {
                return Err(PuzzleError::Malformed);
            },
            Some(count) => count,
        };
        let worth = match card_points(winners) {
            None => {
                return Err(PuzzleError::Overflow);
            },
            Some(p) => p,
        };
        total = match total.checked_add(worth) {
            None => {
                return Err(PuzzleError::Overflow);
            },
            Some(next) => next,
        };
        i = i + 1;
    }
    Ok(total)
}

/// The copies in `extras` as integers.
pub open spec fn copies(extras: Seq<u32>) -> Seq<int> {
    Seq::new(extras.len(), |k: int| extras[k] as int)
}

/// Gives each of the `count` cards from card `from` on `amount` more
/// copies, unless one of them would then have more than fit.
fn add_copies(extras: &mut Vec<u32>, from: usize, count: usize, amount: u32) -> (done: bool)
    requires
        from + count <= usize::MAX,
    ensures
        done == !too_many(copies(old(extras)@), from as int, count as int, amount as int),
        done ==> copies(final(extras)@) == with_copies(
            copies(old(extras)@),
            from as int,
            count as int,
            amount as int,
        ),
{
    let ghost before = copies(extras@);
    while extras.len() < from + count
        invariant
            from + count <= usize::MAX,
            before == copies(old(extras)@),
            extras.len() >= old(extras).len(),
            extras.len() <= old(extras).len() || extras.len() <= from + count,
            forall|k: int| #![trigger won(copies(extras@), k)] won(copies(extras@), k) == won(before, k),
        decreases from + count - extras.len(),
    {
        let ghost held = copies(extras@);
        extras.push(0);
        proof {
            assert forall|k: int| #![trigger won(copies(extras@), k)] won(copies(extras@), k) == won(
                before,
                k,
            ) by {
                assert(won(held, k) == won(before, k));
            }
        }
    }
    let mut k: usize = from;
    while k < from + count
        invariant
            from <= k <= from + count <= extras.len(),
            before == copies(old(extras)@),
            extras.len() == if before.len() >= from + count {
                before.len()
            } else {
                (from + count) as nat
            },
            forall|j: int|
                #![trigger won(copies(extras@), j)]
                won(copies(extras@), j) == won(before, j) + if from <= j < k {
                    amount as int
                } else {
                    0
                },
            forall|j: int| from <= j < k ==> #[trigger] won(before, j) + amount <= u32::MAX,
        decreases from + count - k,
    {
        let ghost held = copies(extras@);
        let raised = match extras[k].checked_add(amount) {
            None => {
                proof {
                    assert(won(held, k as int) == won(before, k as int));
                    assert(won(before, k as int) + amount > u32::MAX);
                    assert(too_many(before, from as int, count as int, amount as int));
                }
                return false;
            },
            Some(sum) => sum,
        };
        extras.set(k, raised);
        proof {
            assert(won(held, k as int) == won(before, k as int));
            assert forall|j: int|
                #![trigger won(copies(extras@), j)]
                won(copies(extras@), j) == won(before, j) + if from <= j < k + 1 {
                    amount as int
                } else {
                    0
                } by {
                assert(won(held, j) == won(before, j) + if from <= j < k {
                    amount as int
                } else {
                    0
                });
            }
        }
        k = k + 1;
    }
    proof {
        let target = with_copies(before, from as int, count as int, amount as int);
        assert forall|j: int| 0 <= j < target.len() implies copies(extras@)[j] == target[j] by {
            assert(won(copies(extras@), j) == won(before, j) + if from <= j < k {
                amount as int
            } else {
                0
            });
        }
        assert(copies(extras@) =~= target);
        assert(!too_many(before, from as int, count as int, amount as int)) by {
            if too_many(before, from as int, count as int, amount as int) {
                let j = choose|j: int|
                    from <= j < from + count && #[trigger] won(before, j) + amount > u32::MAX;
                assert(won(before, j) + amount <= u32::MAX);
            }
        }
    }
    true
}

/// The number of cards one ends up with.
pub fn part_two(input: &str) -> (answer: Result<u32, PuzzleError>)
    ensures
        match answer {
            Ok(total) => part_two_of(input@) == Ok::<int, PuzzleError>(total as int),
            Err(e) => part_two_of(input@) == Err::<int, PuzzleError>(e),
        },
{
    let text = chars_of(input);
    let lines = split_lines(&text);
    let ghost all = views(lines@);
    let mut extras: Vec<u32> = Vec::new();
    let mut total: u32 = 0;
    let mut i: usize = 0;
    proof {
        assert(copies(extras@) =~= Seq::<int>::empty());
    }
    while i < lines.len()
        invariant
            i <= lines.len(),
            all == views(lines@),
            part_two_of(input@) == total_cards(all, i as int, copies(extras@), total as int),
        decreases lines.len() - i,
    {
        let winners = match winners_of(&lines[i]) {
            None => {
                return Err(PuzzleError::Malformed);
            },
            Some(count) => count,
        };
        let held: u32 = if i < extras.len() {
            extras[i]
        } else {
            0
        };
        assert(held == won(copies(extras@), i as int));
        let instances = match held.checked_add(1) {
            None => {
                return Err(PuzzleError::Overflow);
            },
            Some(n) => n,
        };
        if winners > usize::MAX - (i + 1) {
            return Err(PuzzleError::Overflow);
        }
        if !add_copies(&mut extras, i + 1, winners, instances) {
            return Err(PuzzleError::Overflow);
        }
        total = match total.checked_add(instances) {
            None => {
                return Err(PuzzleError::Overflow);
            },
            Some(next) => next,
        };
        i = i + 1;
    }
    Ok(total)
}

} // verus!
