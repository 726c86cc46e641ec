//! Camel cards: hands of five cards are ranked by their type and, within
//! a type, card by card. Each hand wins its bid times its rank.

use crate::error::PuzzleError;
use crate::order::{sort_order, sorted_order};
use crate::text::{chars_of, fields_of, lines_of, number_of, parse_number, split_fields, split_lines, views};
use std::cmp::Ordering;
use std::collections::HashMap;
use vstd::prelude::*;

verus! {

broadcast use vstd::std_specs::hash::group_hash_axioms;

/// The day's solution.
pub struct Solution;

/// A hand: its cards, its bid and the strength of its type.
pub struct Hand {
    pub cards: Vec<char>,
    pub bid: u64,
    pub strength: u64,
}

/// What a hand stands for.
pub struct HandView {
    pub cards: Seq<char>,
    pub bid: u64,
    pub strength: u64,
}

impl View for Hand {
    type V = HandView;

    open spec fn view(&self) -> HandView {
        HandView { cards: self.cards@, bid: self.bid, strength: self.strength }
    }
}

/// What each hand of `v` stands for.
pub open spec fn hand_views(v: Seq<Hand>) -> Seq<HandView> {
    Seq::new(v.len(), |i: int| v[i]@)
}

/// A card and how often it was counted.
pub struct Count {
    pub card: char,
    pub times: usize,
}

/// `tally` with the card `c` counted once more; a new card is put at the end.
pub open spec fn bumped(tally: Seq<Count>, c: char) -> Seq<Count>
    decreases tally.len(),
{
    if tally.len() == 0 {
        seq![Count { card: c, times: 1 }]
    } else if tally[0].card == c {
        seq![Count { card: c, times: (tally[0].times + 1) as usize }] + tally.skip(1)
    } else {
        seq![tally[0]] + bumped(tally.skip(1), c)
    }
}

/// How often each card of `cards` occurs, the cards in the order in which
/// they first come.
pub open spec fn counted(cards: Seq<char>) -> Seq<Count>
    decreases cards.len(),
{
    if cards.len() == 0 {
        Seq::empty()
    } else {
        bumped(counted(cards.drop_last()), cards.last())
    }
}

/// The largest count of `tally`.
pub open spec fn most(tally: Seq<Count>) -> int
    decreases tally.len(),
{
    if tally.len() == 0 {
        0
    } else if most(tally.drop_last()) >= tally.last().times {
        most(tally.drop_last())
    } else {
        tally.last().times as int
    }
}

/// How often the card `c` was counted.
pub open spec fn times_of(tally: Seq<Count>, c: char) -> int
    decreases tally.len(),
{
    if tally.len() == 0 {
        0
    } else if tally.last().card == c {
        tally.last().times as int
    } else {
        times_of(tally.drop_last(), c)
    }
}

/// `tally` without the counts of the card `c`.
pub open spec fn without(tally: Seq<Count>, c: char) -> Seq<Count>
    decreases tally.len(),
{
    if tally.len() == 0 {
        Seq::empty()
    } else if tally.last().card == c {
        without(tally.drop_last(), c)
    } else {
        without(tally.drop_last(), c).push(tally.last())
    }
}

/// The strength of a hand with `kinds` different cards, the commonest of
/// them `top` times: five alike are worth 6, four alike 5, a full house 4,
/// three alike 3, two pairs 2, one pair 1, and five different cards 0. A
/// hand without cards or with more than five kinds has none.
pub open spec fn class_of(kinds: int, top: int) -> Option<u64> {
    if kinds == 1 {
        Some(6u64)
    } else if kinds == 2 {
        if top > 3 {
            Some(5u64)
        } else {
            Some(4u64)
        }
    } else if kinds == 3 {
        if top > 2 {
            Some(3u64)
        } else {
            Some(2u64)
        }
    } else if kinds == 4 {
        Some(1u64)
    } else if kinds == 5 {
        Some(0u64)
    } else {
        None
    }
}

/// The strength of the hand `cards`. No card may occur more than 255 times.
pub open spec fn strength_of(cards: Seq<char>) -> Option<u64> {
    let tally = counted(cards);
    if most(tally) > 255 {
        None
    } else {
        class_of(tally.len() as int, most(tally))
    }
}

/// The strength of the hand `cards` where `J` is a joker that counts as
/// the commonest other card. A hand of jokers alone counts as five alike.
pub open spec fn joker_strength_of(cards: Seq<char>) -> Option<u64> {
    let tally = counted(cards);
    let others = without(tally, 'J');
    if most(tally) > 255 {
        None
    } else if others.len() == 0 {
        Some(6u64)
    } else if most(others) + times_of(tally, 'J') > 255 {
        None
    } else {
        class_of(others.len() as int, most(others) + times_of(tally, 'J'))
    }
}

/// The ranks of the cards `order`, the first the lowest, by code point.
/// Where a card stands twice, its later place counts.
pub open spec fn ranks_of(order: Seq<char>) -> Map<u32, u8>
    decreases order.len(),
{
    if order.len() == 0 {
        Map::empty()
    } else {
        ranks_of(order.drop_last()).insert(order.last() as u32, (order.len() - 1) as u8)
    }
}

/// The rank of the card `c`, if it has one.
pub open spec fn rank(ranks: Map<u32, u8>, c: char) -> Option<u8> {
    if ranks.contains_key(c as u32) {
        Some(ranks[c as u32])
    } else {
        None
    }
}

/// How the hand `a` stands to the hand `b`, comparing their cards place
/// by place as far as both have cards: the first place with cards of
/// different rank decides. One stands for greater, minus one for less.
pub open spec fn sub_sign(a: Seq<char>, b: Seq<char>, ranks: Map<u32, u8>) -> Option<int>
    decreases a.len(),
{
    if a.len() == 0 || b.len() == 0 {
        Some(0int)
    } else {
        match (rank(ranks, a[0]), rank(ranks, b[0])) {
            (Some(l), Some(r)) => if l > r {
                Some(1int)
            } else if r > l {
                Some(-1int)
            } else {
                sub_sign(a.skip(1), b.skip(1), ranks)
            },
            _ => None,
        }
    }
}

/// How the hand `a` stands to the hand `b`, card by card.
pub open spec fn sub_order(a: Seq<char>, b: Seq<char>, ranks: Map<u32, u8>) -> Option<Ordering> {
    match sub_sign(a, b, ranks) {
        None => None,
        Some(sign) => if sign > 0 {
            Some(Ordering::Greater)
        } else if sign < 0 {
            Some(Ordering::Less)
        } else {
            Some(Ordering::Equal)
        },
    }
}

/// The ranks of `cards` written as digits to the base 256 after `so_far`.
pub open spec fn packed(cards: Seq<char>, ranks: Map<u32, u8>, so_far: int) -> Option<int>
    decreases cards.len(),
{
    if cards.len() == 0 {
        Some(so_far)
    } else {
        match rank(ranks, cards[0]) {
            None => None,
            Some(r) => packed(cards.skip(1), ranks, so_far * 256 + r),
        }
    }
}

/// The key by which a hand of five cards is sorted: its strength, then
/// the ranks of its cards.
pub open spec fn key_of(hand: HandView, ranks: Map<u32, u8>) -> Option<u64> {
    if hand.cards.len() != 5 || hand.strength > 6 {
        None
    } else {
        match packed(hand.cards, ranks, hand.strength as int) {
            None => None,
            Some(key) => Some(key as u64),
        }
    }
}

/// The keys of `hands`, if each has one.
pub open spec fn keys_of(hands: Seq<HandView>, ranks: Map<u32, u8>) -> Option<Seq<u64>>
    decreases hands.len(),
{
    if hands.len() == 0 {
        Some(Seq::empty())
    } else {
        match (keys_of(hands.drop_last(), ranks), key_of(hands.last(), ranks)) {
            (Some(before), Some(key)) => Some(before.push(key)),
            _ => None,
        }
    }
}

/// The hand that `line` writes: its cards and its bid.
pub open spec fn hand_on(line: Seq<char>, jokers: bool) -> Option<HandView> {
    let fields = fields_of(line);
    if fields.len() < 2 {
        None
    } else {
        let strength = if jokers {
            joker_strength_of(fields[0])
        } else {
            strength_of(fields[0])
        };
        match (number_of(fields[1]), strength) {
            (Some(bid), Some(s)) => Some(HandView { cards: fields[0], bid, strength: s }),
            _ => None,
        }
    }
}

/// The hands that `lines` write.
pub open spec fn hands_on(lines: Seq<Seq<char>>, jokers: bool) -> Option<Seq<HandView>>
    decreases lines.len(),
{
    if lines.len() == 0 {
        Some(Seq::empty())
    } else {
        match (hands_on(lines.drop_last(), jokers), hand_on(lines.last(), jokers)) {
            (Some(before), Some(hand)) => Some(before.push(hand)),
            _ => None,
        }
    }
}

/// What the hands win from place `from` of `order` on, on top of
/// `so_far`: the hand at place `k` wins `k + 1` times its bid.
pub open spec fn winnings(hands: Seq<HandView>, order: Seq<usize>, from: int, so_far: int) -> Option<
    int,
>
    decreases order.len() - from,
{
    if from < 0 || from >= order.len() {
        Some(so_far)
    } else {
        let gain = (from + 1) * hands[order[from] as int].bid;
        if so_far + gain > u64::MAX {
            None
        } else {
            winnings(hands, order, from + 1, so_far + gain)
        }
    }
}

/// The cards from the weakest to the strongest.
pub open spec fn plain_order() -> Seq<char> {
    seq!['2', '3', '4', '5', '6', '7', '8', '9', 'T', 'J', 'Q', 'K', 'A']
}

/// The cards from the weakest to the strongest where `J` is a joker.
pub open spec fn joker_order() -> Seq<char> {
    seq!['J', '2', '3', '4', '5', '6', '7', '8', '9', 'T', 'Q', 'K', 'A']
}

/// The total winnings of the hands of `text`. Every hand has five cards
/// of the thirteen kinds. The weakest hand has rank one; hands that are
/// equal card by card keep the order in which they are listed.
pub open spec fn total_of(text: Seq<char>, jokers: bool) -> Result<int, PuzzleError> {
    let ranks = ranks_of(
        if jokers {
            joker_order()
        } else {
            plain_order()
        },
    );
    match hands_on(lines_of(text), jokers) {
        None => Err(PuzzleError::Malformed),
        Some(hands) => match keys_of(hands, ranks) {
            None => Err(PuzzleError::Malformed),
            Some(keys) => match winnings(hands, sorted_order(keys), 0, 0) {
                None => Err(PuzzleError::Overflow),
                Some(total) => Ok(total),
            },
        },
    }
}

/// The answer to the first part for `text`.
pub open spec fn part_one_of(text: Seq<char>) -> Result<int, PuzzleError> {
    total_of(text, false)
}

/// The answer to the second part for `text`.
pub open spec fn part_two_of(text: Seq<char>) -> Result<int, PuzzleError> {
    total_of(text, true)
}

/// Packing ranks after a number keeps the order: of two lists of ranked
/// cards of one length, the one packed after the smaller number comes out
/// smaller, and after equal numbers the one that is the lesser card by card.
pub proof fn lemma_packed_orders(
    a: Seq<char>,
    b: Seq<char>,
    ranks: Map<u32, u8>,
    x: int,
    y: int,
)
    requires
        a.len() == b.len(),
        packed(a, ranks, x) is Some,
        packed(b, ranks, y) is Some,
    ensures
        sub_sign(a, b, ranks) is Some,
        packed(a, ranks, x).unwrap() < packed(b, ranks, y).unwrap() <==> x < y || (x == y
            && sub_sign(a, b, ranks) == Some(-1int)),
        packed(a, ranks, x).unwrap() == packed(b, ranks, y).unwrap() <==> x == y && sub_sign(
            a,
            b,
            ranks,
        ) == Some(0int),
    decreases a.len(),
{
    if a.len() > 0 {
        let l = rank(ranks, a[0]).unwrap();
        let r = rank(ranks, b[0]).unwrap();
        lemma_packed_orders(a.skip(1), b.skip(1), ranks, x * 256 + l, y * 256 + r);
    }
}

/// Hands are sorted by strength first and card by card second: the key of
/// a hand is below the key of another exactly when the hand is the weaker
/// of the two, or as strong and the lesser card by card.
pub proof fn lemma_keys_order_hands(a: HandView, b: HandView, ranks: Map<u32, u8>)
    requires
        key_of(a, ranks) is Some,
        key_of(b, ranks) is Some,
    ensures
        key_of(a, ranks).unwrap() < key_of(b, ranks).unwrap() <==> a.strength < b.strength || (
        a.strength == b.strength && sub_sign(a.cards, b.cards, ranks) == Some(-1int)),
        key_of(a, ranks).unwrap() == key_of(b, ranks).unwrap() <==> a.strength == b.strength
            && sub_sign(a.cards, b.cards, ranks) == Some(0int),
{
    lemma_packed_orders(a.cards, b.cards, ranks, a.strength as int, b.strength as int);
    lemma_packed_bound(a.cards, ranks, a.strength as int, 7);
    lemma_packed_bound(b.cards, ranks, b.strength as int, 7);
    assert(grown(5) == 1099511627776) by {
        reveal_with_fuel(grown, 6);
    }
}

/// Packing the ranks of `n` cards after a number below `bound` gives a
/// number below `bound` times 256 to the power of `n`.
proof fn lemma_packed_bound(cards: Seq<char>, ranks: Map<u32, u8>, x: int, bound: int)
    requires
        0 <= x < bound,
        packed(cards, ranks, x) is Some,
    ensures
        0 <= packed(cards, ranks, x).unwrap() < bound * grown(cards.len()),
    decreases cards.len(),
{
    if cards.len() > 0 {
        let r = rank(ranks, cards[0]).unwrap();
        lemma_packed_bound(cards.skip(1), ranks, x * 256 + r, bound * 256);
        assert(bound * 256 * grown((cards.len() - 1) as nat) == bound * grown(cards.len()))
            by (nonlinear_arith)
            requires
                grown(cards.len()) == 256 * grown((cards.len() - 1) as nat),
        ;
    }
}

/// 256 to the power of `n`.
spec fn grown(n: nat) -> int
    decreases n,
{
    if n == 0 {
        1
    } else {
        256 * grown((n - 1) as nat)
    }
}

/// Where the first counts of a tally are of other cards, counting a card
/// changes only the later ones.
proof fn lemma_bumped_back(tally: Seq<Count>, c: char, k: int)
    requires
        0 <= k <= tally.len(),
        forall|j: int| 0 <= j < k ==> (#[trigger] tally[j]).card != c,
    ensures
        bumped(tally, c) == tally.take(k) + bumped(tally.skip(k), c),
    decreases k,
{
    if k == 0 {
        assert(tally.skip(0) == tally);
        assert(tally.take(0) + bumped(tally, c) =~= bumped(tally, c));
    } else {
        let rest = tally.skip(1);
        assert(tally[0].card != c);
        assert forall|j: int| 0 <= j < k - 1 implies (#[trigger] rest[j]).card != c by {
            assert(rest[j] == tally[j + 1]);
        }
        lemma_bumped_back(rest, c, k - 1);
        assert(rest.skip(k - 1) == tally.skip(k));
        assert(seq![tally[0]] + (rest.take(k - 1) + bumped(tally.skip(k), c)) =~= tally.take(k)
            + bumped(tally.skip(k), c));
    }
}

/// Counts the card `c` once more. Gives `false`, and leaves the tally as
/// it is, where the card's count is already as high as counts go.
fn bump(tally: &mut Vec<Count>, c: char) -> (done: bool)
    ensures
        done ==> final(tally)@ == bumped(old(tally)@, c),
        !done ==> final(tally)@ == old(tally)@ && exists|i: int|
            0 <= i < old(tally).len() && (#[trigger] old(tally)[i]).times == usize::MAX,
{
    let ghost before = tally@;
    let mut i: usize = 0;
    while i < tally.len()
        invariant
            i <= tally.len(),
            tally@ == before,
            before == old(tally)@,
            forall|j: int| 0 <= j < i ==> (#[trigger] before[j]).card != c,
        decreases tally.len() - i,
    {
        if tally[i].card == c {
            let times = tally[i].times;
            if times == usize::MAX {
                return false;
            }
            tally.set(i, Count { card: c, times: times + 1 });
            proof {
                lemma_bumped_back(before, c, i as int);
                let back = before.skip(i as int);
                assert(back[0] == before[i as int]);
                assert(back.skip(1) == before.skip(i + 1));
                assert(tally@ =~= before.take(i as int) + (seq![
                    Count { card: c, times: (times + 1) as usize },
                ] + before.skip(i + 1)));
            }
            return true;
        }
        i = i + 1;
    }
    tally.push(Count { card: c, times: 1 });
    proof {
        lemma_bumped_back(before, c, before.len() as int);
        assert(before.take(before.len() as int) == before);
        assert(before.skip(before.len() as int) =~= Seq::<Count>::empty());
        assert(tally@ =~= before + seq![Count { card: c, times: 1 }]);
    }
    true
}

/// How often each card of `cards` occurs.
fn count_cards(cards: &Vec<char>) -> (tally: Vec<Count>)
    ensures
        tally@ == counted(cards@),
{
    let mut list: Vec<Count> = Vec::new();
    let mut i: usize = 0;
    proof {
        assert(cards@.take(0) =~= Seq::<char>::empty());
    }
    while i < cards.len()
        invariant
            i <= cards.len(),
            list@ == counted(cards@.take(i as int)),
            forall|k: int| 0 <= k < list.len() ==> (#[trigger] list[k]).times <= i,
        decreases cards.len() - i,
    {
        proof {
            assert(cards@.take(i + 1).drop_last() == cards@.take(i as int));
            assert(cards@.take(i + 1).last() == cards[i as int]);
        }
        let ghost before = list@;
        let done = bump(&mut list, cards[i]);
        assert(done);
        proof {
            lemma_bumped_steps(before, cards[i as int], i as int);
        }
        i = i + 1;
    }
    proof {
        assert(cards@.take(i as int) == cards@);
    }
    list
}

/// Counting a card raises no count by more than one.
proof fn lemma_bumped_steps(tally: Seq<Count>, c: char, bound: int)
    requires
        forall|k: int| 0 <= k < tally.len() ==> (#[trigger] tally[k]).times <= bound,
        0 <= bound < usize::MAX,
    ensures
        forall|k: int|
            0 <= k < bumped(tally, c).len() ==> (#[trigger] bumped(tally, c)[k]).times <= bound
                + 1,
    decreases tally.len(),
{
    if tally.len() > 0 {
        let rest = tally.skip(1);
        assert forall|k: int| 0 <= k < rest.len() implies (#[trigger] rest[k]).times <= bound by {
            assert(rest[k] == tally[k + 1]);
        }
        if tally[0].card == c {
            assert forall|k: int| 0 <= k < bumped(tally, c).len() implies (#[trigger] bumped(
                tally,
                c,
            )[k]).times <= bound + 1 by {
                if k > 0 {
                    assert(bumped(tally, c)[k] == rest[k - 1]);
                }
            }
        } else {
            lemma_bumped_steps(rest, c, bound);
            assert forall|k: int| 0 <= k < bumped(tally, c).len() implies (#[trigger] bumped(
                tally,
                c,
            )[k]).times <= bound + 1 by {
                if k > 0 {
                    assert(bumped(tally, c)[k] == bumped(rest, c)[k - 1]);
                }
            }
        }
    }
}

/// The largest count of `tally`.
fn largest(tally: &Vec<Count>) -> (top: usize)
    ensures
        top == most(tally@),
{
    let mut top: usize = 0;
    let mut i: usize = 0;
    proof {
        assert(tally@.take(0) =~= Seq::<Count>::empty());
    }
    while i < tally.len()
        invariant
            i <= tally.len(),
            top == most(tally@.take(i as int)),
        decreases tally.len() - i,
    {
        proof {
            assert(tally@.take(i + 1).drop_last() == tally@.take(i as int));
            assert(tally@.take(i + 1).last() == tally[i as int]);
        }
        if tally[i].times > top {
            top = tally[i].times;
        }
        i = i + 1;
    }
    proof {
        assert(tally@.take(i as int) == tally@);
    }
    top
}

/// The strength of a hand with `kinds` different cards, the commonest of
/// them `top` times.
pub fn hand_class(kinds: usize, top: usize) -> (strength: Option<u64>)
    ensures
        strength == class_of(kinds as int, top as int),
{
    if kinds == 1 {
        Some(6)
    } else if kinds == 2 {
        if top > 3 {
            Some(5)
        } else {
            Some(4)
        }
    } else if kinds == 3 {
        if top > 2 {
            Some(3)
        } else {
            Some(2)
        }
    } else if kinds == 4 {
        Some(1)
    } else if kinds == 5 {
        Some(0)
    } else {
        None
    }
}

/// The strength of the hand `cards`.
fn strength(cards: &Vec<char>) -> (found: Option<u64>)
    ensures
        found == strength_of(cards@),
{
    let tally = count_cards(cards);
    let top = largest(&tally);
    if top > 255 {
        return None;
    }
    hand_class(tally.len(), top)
}

/// The counts of `tally` for cards other than `c`, and how often `c` was counted.
fn set_aside(tally: &Vec<Count>, c: char) -> (parts: (Vec<Count>, usize))
    ensures
        parts.0@ == without(tally@, c),
        parts.1 == times_of(tally@, c),
{
    let mut others: Vec<Count> = Vec::new();
    let mut times: usize = 0;
    let mut i: usize = 0;
    proof {
        assert(tally@.take(0) =~= Seq::<Count>::empty());
    }
    while i < tally.len()
        invariant
            i <= tally.len(),
            others@ == without(tally@.take(i as int), c),
            times == times_of(tally@.take(i as int), c),
        decreases tally.len() - i,
    {
        proof {
            assert(tally@.take(i + 1).drop_last() == tally@.take(i as int));
            assert(tally@.take(i + 1).last() == tally[i as int]);
        }
        if tally[i].card == c {
            times = tally[i].times;
        } else {
            others.push(Count { card: tally[i].card, times: tally[i].times });
        }
        i = i + 1;
    }
    proof {
        assert(tally@.take(i as int) == tally@);
    }
    (others, times)
}

/// The strength of the hand `cards` where `J` is a joker.
fn joker_strength(cards: &Vec<char>) -> (found: Option<u64>)
    ensures
        found == joker_strength_of(cards@),
{
    let tally = count_cards(cards);
    if largest(&tally) > 255 {
        return None;
    }
    let (others, jokers) = set_aside(&tally, 'J');
    if others.len() == 0 {
        return Some(6);
    }
    let top = largest(&others);
    if jokers > 255 || top > 255 - jokers {
        return None;
    }
    hand_class(others.len(), top + jokers)
}

impl Hand {
    /// The strength of the hand whose cards `input` writes.
    pub fn calc_hand_strength(input: &str) -> (found: Option<u64>)
        ensures
            found == strength_of(input@),
    {
        strength(&chars_of(input))
    }

    /// The strength of the hand whose cards `input` writes, `J` a joker.
    pub fn calc_part_two_hand_strength(input: &str) -> (found: Option<u64>)
        ensures
            found == joker_strength_of(input@),
    {
        joker_strength(&chars_of(input))
    }

    /// The hand that the line `input` writes: its cards, then its bid.
    pub fn parse_new(input: &str) -> (hand: Option<Hand>)
        ensures
            match hand {
                Some(h) => hand_on(input@, false) == Some(h@),
                None => hand_on(input@, false) is None,
            },
    {
        read_hand(&chars_of(input), false)
    }

    /// The hand that the line `input` writes, `J` a joker.
    pub fn parse_part_two(input: &str) -> (hand: Option<Hand>)
        ensures
            match hand {
                Some(h) => hand_on(input@, true) == Some(h@),
                None => hand_on(input@, true) is None,
            },
    {
        read_hand(&chars_of(input), true)
    }

    /// How this hand stands to `other`, card by card. There is no answer
    /// where a card that has to be looked at has no rank.
    pub fn order_by_sub_strength(&self, other: &Hand, card_map: &HashMap<u32, u8>) -> (found: Option<
        Ordering,
    >)
        ensures
            found == sub_order(self.cards@, other.cards@, card_map@),
    {
        match compare_cards(&self.cards, &other.cards, card_map) {
            None => None,
            Some(sign) => if sign > 0 {
                Some(Ordering::Greater)
            } else if sign < 0 {
                Some(Ordering::Less)
            } else {
                Some(Ordering::Equal)
            },
        }
    }
}

/// How the cards `a` stand to the cards `b`, place by place: one for
/// greater, minus one for less, zero for no difference.
fn compare_cards(a: &Vec<char>, b: &Vec<char>, card_map: &HashMap<u32, u8>) -> (found: Option<i8>)
    ensures
        match found {
            Some(sign) => sub_sign(a@, b@, card_map@) == Some(sign as int),
            None => sub_sign(a@, b@, card_map@) is None,
        },
{
    let mut i: usize = 0;
    proof {
        assert(a@.skip(0) == a@);
        assert(b@.skip(0) == b@);
    }
    while i < a.len() && i < b.len()
        invariant
            i <= a.len(),
            i <= b.len(),
            sub_sign(a@, b@, card_map@) == sub_sign(a@.skip(i as int), b@.skip(i as int), card_map@),
        decreases a.len() - i,
    {
        proof {
            assert(a@.skip(i as int)[0] == a[i as int]);
            assert(b@.skip(i as int)[0] == b[i as int]);
            assert(a@.skip(i as int).skip(1) == a@.skip(i + 1));
            assert(b@.skip(i as int).skip(1) == b@.skip(i + 1));
        }
        let l = match card_rank(card_map, a[i]) {
            None => {
                return None;
            },
            Some(r) => r,
        };
        let r = match card_rank(card_map, b[i]) {
            None => {
                return None;
            },
            Some(r) => r,
        };
        if l > r {
            return Some(1);
        } else if r > l {
            return Some(-1);
        }
        i = i + 1;
    }
    Some(0)
}

/// Reads `line` as a hand.
fn read_hand(line: &Vec<char>, jokers: bool) -> (hand: Option<Hand>)
    ensures
        match hand {
            Some(h) => hand_on(line@, jokers) == Some(h@),
            None => hand_on(line@, jokers) is None,
        },
{
    let mut fields = split_fields(line);
    if fields.len() < 2 {
        return None;
    }
    let bid = match parse_number(&fields[1]) {
        None => {
            return None;
        },
        Some(n) => n,
    };
    let found = if jokers {
        joker_strength(&fields[0])
    } else {
        strength(&fields[0])
    };
    let strength = match found {
        None => {
            return None;
        },
        Some(s) => s,
    };
    let ghost all = views(fields@);
    let cards = fields.swap_remove(0);
    assert(cards@ == all[0]);
    Some(Hand { cards, bid, strength })
}

/// The ranks of the cards `char_order`, the first the lowest, keyed by
/// code point.
pub fn create_card_map(char_order: &[char]) -> (card_map: HashMap<u32, u8>)
    requires
        char_order.len() <= 256,
    ensures
        card_map@ == ranks_of(char_order@),
{
    let mut card_map: HashMap<u32, u8> = HashMap::new();
    let mut i: usize = 0;
    proof {
        assert(char_order@.take(0) =~= Seq::<char>::empty());
    }
    while i < char_order.len()
        invariant
            i <= char_order.len() <= 256,
            card_map@ == ranks_of(char_order@.take(i as int)),
        decreases char_order.len() - i,
    {
        proof {
            assert(char_order@.take(i + 1).drop_last() == char_order@.take(i as int));
            assert(char_order@.take(i + 1).last() == char_order[i as int]);
        }
        card_map.insert(char_order[i] as u32, i as u8);
        i = i + 1;
    }
    proof {
        assert(char_order@.take(i as int) == char_order@);
    }
    card_map
}

/// The rank of the card `c`, if it has one.
pub fn card_rank(card_map: &HashMap<u32, u8>, c: char) -> (found: Option<u8>)
    ensures
        found == rank(card_map@, c),
{
    let code = c as u32;
    match card_map.get(&code) {
        None => None,
        Some(r) => Some(*r),
    }
}

/// How large a key may have grown after `i` cards: seven times 256 to
/// the power of `i`.
spec fn room(i: int) -> int {
    if i <= 0 {
        7
    } else if i == 1 {
        1792
    } else if i == 2 {
        458752
    } else if i == 3 {
        117440512
    } else if i == 4 {
        30064771072
    } else {
        7696581394432
    }
}

/// The key by which `hand` is sorted.
fn hand_key(hand: &Hand, card_map: &HashMap<u32, u8>) -> (key: Option<u64>)
    ensures
        key == key_of(hand@, card_map@),
{
    if hand.cards.len() != 5 || hand.strength > 6 {
        return None;
    }
    let mut key: u64 = hand.strength;
    let mut i: usize = 0;
    proof {
        assert(hand.cards@.skip(0) == hand.cards@);
    }
    while i < 5
        invariant
            i <= 5,
            hand.cards.len() == 5,
            key < room(i as int),
            packed(hand.cards@, card_map@, hand.strength as int) == packed(
                hand.cards@.skip(i as int),
                card_map@,
                key as int,
            ),
        decreases 5 - i,
    {
        proof {
            assert(hand.cards@.skip(i as int)[0] == hand.cards[i as int]);
            assert(hand.cards@.skip(i as int).skip(1) == hand.cards@.skip(i + 1));
        }
        let r = match card_rank(card_map, hand.cards[i]) {
            None => {
                return None;
            },
            Some(r) => r,
        };
        key = key * 256 + r as u64;
        i = i + 1;
    }
    Some(key)
}

/// The total winnings of the hands of `input`.
fn total_winnings(input: &str, jokers: bool) -> (answer: Result<u64, PuzzleError>)
    ensures
        match answer {
            Ok(total) => total_of(input@, jokers) == Ok::<int, PuzzleError>(total as int),
            Err(e) => total_of(input@, jokers) == Err::<int, PuzzleError>(e),
        },
{
    let order_of_cards: [char; 13] = if jokers {
        ['J', '2', '3', '4', '5', '6', '7', '8', '9', 'T', 'Q', 'K', 'A']
    } else {
        ['2', '3', '4', '5', '6', '7', '8', '9', 'T', 'J', 'Q', 'K', 'A']
    };
    proof {
        if jokers {
            assert(order_of_cards@ =~= joker_order());
        } else {
            assert(order_of_cards@ =~= plain_order());
        }
    }
    let card_map = create_card_map(order_of_cards.as_slice());
    let text = chars_of(input);
    let lines = split_lines(&text);
    let ghost all = views(lines@);
    let mut hands: Vec<Hand> = Vec::new();
    let mut keys: Vec<u64> = Vec::new();
    let mut i: usize = 0;
    proof {
        assert(all.take(0) =~= Seq::<Seq<char>>::empty());
        assert(hand_views(hands@) =~= Seq::<HandView>::empty());
    }
    while i < lines.len()
        invariant
            i <= lines.len(),
            all == views(lines@),
            all == lines_of(input@),
            card_map@ == ranks_of(
                if jokers {
                    joker_order()
                } else {
                    plain_order()
                },
            ),
            hands_on(all.take(i as int), jokers) == Some(hand_views(hands@)),
            keys_of(hand_views(hands@), card_map@) == Some(keys@),
            hands.len() == keys.len(),
        decreases lines.len() - i,
    {
        proof {
            assert(all.take(i + 1).drop_last() == all.take(i as int));
            assert(all.take(i + 1).last() == lines[i as int]@);
        }
        let ghost before = hand_views(hands@);
        let hand = match read_hand(&lines[i], jokers) {
            None => {
                proof {
                    lemma_hands_fail(all, jokers, i + 1);
                }
                return Err(PuzzleError::Malformed);
            },
            Some(h) => h,
        };
        let ghost shown = hand@;
        let key = match hand_key(&hand, &card_map) {
            None => {
                proof {
                    let whole = hands_on(all, jokers);
                    if whole is Some {
                        lemma_hands_prefix(all, jokers, i + 1);
                        assert(whole.unwrap().take(i + 1) == before.push(shown));
                        assert(before.push(shown).drop_last() == before);
                        lemma_keys_fail(whole.unwrap(), card_map@, i + 1);
                    }
                }
                return Err(PuzzleError::Malformed);
            },
            Some(k) => k,
        };
        hands.push(hand);
        keys.push(key);
        proof {
            assert(hand_views(hands@) =~= before.push(shown));
            assert(hand_views(hands@).drop_last() == before);
        }
        i = i + 1;
    }
    proof {
        assert(all.take(i as int) == all);
    }
    let order = sort_order(&keys);
    let ghost shown = hand_views(hands@);
    let mut total: u64 = 0;
    let mut k: usize = 0;
    while k < order.len()
        invariant
            k <= order.len(),
            order.len() == hands.len(),
            shown == hand_views(hands@),
            forall|j: int| 0 <= j < order.len() ==> #[trigger] order[j] < hands.len(),
            total_of(input@, jokers) == match winnings(shown, order@, 0, 0) {
                None => Err::<int, PuzzleError>(PuzzleError::Overflow),
                Some(sum) => Ok::<int, PuzzleError>(sum),
            },
            winnings(shown, order@, 0, 0) == winnings(shown, order@, k as int, total as int),
        decreases order.len() - k,
    {
        let bid = hands[order[k]].bid;
        assert(order[k as int] < hands.len());
        assert(shown[order[k as int] as int].bid == bid);
        let place = k as u64 + 1;
        let gain = match place.checked_mul(bid) {
            None => {
                return Err(PuzzleError::Overflow);
            },
            Some(g) => g,
        };
        total = match total.checked_add(gain) {
            None => {
                return Err(PuzzleError::Overflow);
            },
            Some(t) => t,
        };
        k = k + 1;
    }
    Ok(total)
}

/// Where the first `k` lines write no hands, neither do all of them.
proof fn lemma_hands_fail(lines: Seq<Seq<char>>, jokers: bool, k: int)
    requires
        0 <= k <= lines.len(),
        hands_on(lines.take(k), jokers) is None,
    ensures
        hands_on(lines, jokers) is None,
    decreases lines.len() - k,
{
    if k < lines.len() {
        assert(lines.take(k + 1).drop_last() == lines.take(k));
        lemma_hands_fail(lines, jokers, k + 1);
    } else {
        assert(lines.take(k) == lines);
    }
}

/// The hands of the first `k` lines are the first `k` of the hands of all.
proof fn lemma_hands_prefix(lines: Seq<Seq<char>>, jokers: bool, k: int)
    requires
        0 <= k <= lines.len(),
        hands_on(lines, jokers) is Some,
    ensures
        hands_on(lines.take(k), jokers) is Some,
        hands_on(lines, jokers).unwrap().len() == lines.len(),
        hands_on(lines.take(k), jokers).unwrap() == hands_on(lines, jokers).unwrap().take(k),
    decreases lines.len(),
{
    if lines.len() == 0 {
        assert(lines.take(k) =~= lines);
        assert(hands_on(lines, jokers).unwrap().take(k) =~= hands_on(lines, jokers).unwrap());
    } else if k == lines.len() {
        lemma_hands_prefix(lines.drop_last(), jokers, k - 1);
        assert(lines.take(k) == lines);
        assert(hands_on(lines, jokers).unwrap().take(k) =~= hands_on(lines, jokers).unwrap());
    } else {
        lemma_hands_prefix(lines.drop_last(), jokers, k);
        assert(lines.drop_last().take(k) == lines.take(k));
        assert(hands_on(lines, jokers).unwrap().take(k) =~= hands_on(
            lines.drop_last(),
            jokers,
        ).unwrap().take(k));
    }
}

/// Where one of the first `k` hands has no key, the hands have no keys.
proof fn lemma_keys_fail(hands: Seq<HandView>, ranks: Map<u32, u8>, k: int)
    requires
        0 <= k <= hands.len(),
        keys_of(hands.take(k), ranks) is None,
    ensures
        keys_of(hands, ranks) is None,
    decreases hands.len() - k,
{
    if k < hands.len() {
        assert(hands.take(k + 1).drop_last() == hands.take(k));
        lemma_keys_fail(hands, ranks, k + 1);
    } else {
        assert(hands.take(k) == hands);
    }
}

/// The total winnings of the hands of `input`.
pub fn part_one(input: &str) -> (answer: Result<u64, PuzzleError>)
    ensures
        match answer {
            Ok(total) => part_one_of(input@) == Ok::<int, PuzzleError>(total as int),
            Err(e) => part_one_of(input@) == Err::<int, PuzzleError>(e),
        },
{
    total_winnings(input, false)
}

/// The total winnings of the hands of `input` where `J` is a joker, the
/// weakest card of all.
pub fn part_two(input: &str) -> (answer: Result<u64, PuzzleError>)
    ensures
        match answer {
            Ok(total) => part_two_of(input@) == Ok::<int, PuzzleError>(total as int),
            Err(e) => part_two_of(input@) == Err::<int, PuzzleError>(e),
        },
{
    total_winnings(input, true)
}

impl crate::solution::Solution for Solution {
    type Answer = Result<u64, PuzzleError>;

    open spec fn answers_part_one(text: Seq<char>, answer: Result<u64, PuzzleError>) -> bool {
        match answer {
            Ok(total) => part_one_of(text) == Ok::<int, PuzzleError>(total as int),
            Err(e) => part_one_of(text) == Err::<int, PuzzleError>(e),
        }
    }

    open spec fn answers_part_two(text: Seq<char>, answer: Result<u64, PuzzleError>) -> bool {
        match answer {
            Ok(total) => part_two_of(text) == Ok::<int, PuzzleError>(total as int),
            Err(e) => part_two_of(text) == Err::<int, PuzzleError>(e),
        }
    }

    fn part_one(&self, input: &str) -> (answer: Result<u64, PuzzleError>) {
        part_one(input)
    }

    fn part_two(&self, input: &str) -> (answer: Result<u64, PuzzleError>) {
        part_two(input)
    }
}

} // verus!
