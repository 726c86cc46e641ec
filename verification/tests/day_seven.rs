use advent::day_seven::{card_rank, create_card_map, hand_class, part_one, part_two, Hand, Solution};
use advent::error::PuzzleError;
use advent::solution::Solution as Day;
use std::cmp::Ordering;

fn test_input() -> &'static str {
    "32T3K 765
T55J5 684
KK677 28
KTJJT 220
QQQJA 483"
}

fn plain() -> [char; 13] {
    ['2', '3', '4', '5', '6', '7', '8', '9', 'T', 'J', 'Q', 'K', 'A']
}

fn hand(cards: &str) -> Hand {
    Hand { cards: cards.chars().collect(), bid: 0, strength: 0 }
}

#[test]
fn it_multiplies_bid_by_rank() {
    let result = part_one(test_input());
    assert_eq!(result, Ok(6440));
}

#[test]
fn it_multiplies_bid_by_rank_using_jokers() {
    let result = part_two(test_input());
    assert_eq!(result, Ok(5905));
}

#[test]
fn the_card_solution_answers_as_the_functions_do() {
    assert_eq!(Solution.part_one(test_input()), Ok(6440));
    assert_eq!(Solution.part_two(test_input()), Ok(5905));
}

#[test]
fn it_tells_the_seven_types_of_hand() {
    assert_eq!(Hand::calc_hand_strength("AAAAA"), Some(6));
    assert_eq!(Hand::calc_hand_strength("AA8AA"), Some(5));
    assert_eq!(Hand::calc_hand_strength("23332"), Some(4));
    assert_eq!(Hand::calc_hand_strength("TTT98"), Some(3));
    assert_eq!(Hand::calc_hand_strength("23432"), Some(2));
    assert_eq!(Hand::calc_hand_strength("A23A4"), Some(1));
    assert_eq!(Hand::calc_hand_strength("23456"), Some(0));
}

#[test]
fn a_hand_without_cards_or_with_six_kinds_has_no_strength() {
    assert_eq!(Hand::calc_hand_strength(""), None);
    assert_eq!(Hand::calc_hand_strength("234567"), None);
    assert_eq!(Hand::calc_part_two_hand_strength("234567"), None);
    assert_eq!(Hand::calc_part_two_hand_strength(""), Some(6));
    assert_eq!(Hand::calc_hand_strength("AA"), Some(6));
}

#[test]
fn a_card_held_more_than_255_times_gives_no_strength() {
    let many: String = std::iter::repeat('A').take(256).collect();
    assert_eq!(Hand::calc_hand_strength(&many), None);
    assert_eq!(Hand::calc_part_two_hand_strength(&many), None);
    let enough: String = std::iter::repeat('A').take(255).collect();
    assert_eq!(Hand::calc_hand_strength(&enough), Some(6));
    let with_joker = format!("{}J", enough);
    assert_eq!(Hand::calc_hand_strength(&with_joker), Some(5));
    assert_eq!(Hand::calc_part_two_hand_strength(&with_joker), None);
}

#[test]
fn jokers_join_the_commonest_card() {
    assert_eq!(Hand::calc_part_two_hand_strength("QJJQ2"), Some(5));
    assert_eq!(Hand::calc_part_two_hand_strength("T55J5"), Some(5));
    assert_eq!(Hand::calc_part_two_hand_strength("KTJJT"), Some(5));
    assert_eq!(Hand::calc_part_two_hand_strength("JJJJJ"), Some(6));
    assert_eq!(Hand::calc_part_two_hand_strength("2345J"), Some(1));
    assert_eq!(Hand::calc_part_two_hand_strength("2233J"), Some(4));
    assert_eq!(Hand::calc_part_two_hand_strength("32T3K"), Some(1));
}

#[test]
fn it_maps_hand_shapes_to_strengths() {
    assert_eq!(hand_class(1, 5), Some(6));
    assert_eq!(hand_class(2, 4), Some(5));
    assert_eq!(hand_class(2, 3), Some(4));
    assert_eq!(hand_class(3, 3), Some(3));
    assert_eq!(hand_class(3, 2), Some(2));
    assert_eq!(hand_class(4, 2), Some(1));
    assert_eq!(hand_class(5, 1), Some(0));
    assert_eq!(hand_class(0, 0), None);
    assert_eq!(hand_class(6, 1), None);
}

#[test]
fn it_reads_a_hand() {
    let hand = Hand::parse_new("T55J5 684").unwrap();
    assert_eq!(hand.cards, vec!['T', '5', '5', 'J', '5']);
    assert_eq!(hand.bid, 684);
    assert_eq!(hand.strength, 3);
    let hand = Hand::parse_part_two("T55J5 684").unwrap();
    assert_eq!(hand.strength, 5);
    assert!(Hand::parse_new("T55J5").is_none());
    assert!(Hand::parse_new("T55J5 x").is_none());
    assert!(Hand::parse_new("").is_none());
    assert!(Hand::parse_part_two("234567 1").is_none());
}

#[test]
fn it_ranks_the_cards_by_their_place() {
    let map = create_card_map(&plain());
    assert_eq!(card_rank(&map, '2'), Some(0));
    assert_eq!(card_rank(&map, 'T'), Some(8));
    assert_eq!(card_rank(&map, 'A'), Some(12));
    assert_eq!(card_rank(&map, 'X'), None);
    let twice = create_card_map(&['A', 'B', 'A']);
    assert_eq!(card_rank(&twice, 'A'), Some(2));
    assert_eq!(card_rank(&twice, 'B'), Some(1));
}

#[test]
fn it_orders_hands_card_by_card() {
    let map = create_card_map(&plain());
    assert_eq!(hand("33332").order_by_sub_strength(&hand("2AAAA"), &map), Some(Ordering::Greater));
    assert_eq!(hand("77788").order_by_sub_strength(&hand("77888"), &map), Some(Ordering::Less));
    assert_eq!(hand("KK677").order_by_sub_strength(&hand("KK677"), &map), Some(Ordering::Equal));
    assert_eq!(hand("KK").order_by_sub_strength(&hand("KK677"), &map), Some(Ordering::Equal));
    assert_eq!(hand("KX").order_by_sub_strength(&hand("KK677"), &map), None);
    assert_eq!(hand("AX").order_by_sub_strength(&hand("KY"), &map), Some(Ordering::Greater));
}

#[test]
fn the_joker_is_the_weakest_card_in_the_second_part() {
    assert_eq!(part_one("J2345 10\n22345 1"), Ok(12));
    assert_eq!(part_two("J2345 10\nJ3345 1"), Ok(12));
    assert_eq!(part_two("JKKK2 10\nQQQQ2 1"), Ok(12));
    assert_eq!(part_one("JKKK2 10\nQQQQ2 1"), Ok(12));
    assert_eq!(part_one("JKKK2 10\nT9992 1"), Ok(21));
    assert_eq!(part_two("JKKK2 10\nT9992 1"), Ok(21));
}

#[test]
fn equal_hands_keep_their_order() {
    assert_eq!(part_one("23456 1\n23456 10"), Ok(21));
    assert_eq!(part_one("23456 10\n23456 1"), Ok(12));
}

#[test]
fn a_hand_of_other_than_five_ranked_cards_is_refused() {
    assert_eq!(part_one("2345 1"), Err(PuzzleError::Malformed));
    assert_eq!(part_one("23456 1\n2345X 1"), Err(PuzzleError::Malformed));
    assert_eq!(part_one("23456 1\n234 1\n23456 2"), Err(PuzzleError::Malformed));
    assert_eq!(part_two("234567 1"), Err(PuzzleError::Malformed));
    assert_eq!(part_one("23456"), Err(PuzzleError::Malformed));
}

#[test]
fn winnings_beyond_sixty_four_bits_are_refused() {
    assert_eq!(part_one("23456 18446744073709551615"), Ok(18446744073709551615));
    assert_eq!(
        part_one("23456 18446744073709551615\n23457 1"),
        Err(PuzzleError::Overflow)
    );
    assert_eq!(
        part_one("23456 1\n23457 9223372036854775808"),
        Err(PuzzleError::Overflow)
    );
    assert_eq!(part_one(""), Ok(0));
    assert_eq!(part_two(""), Ok(0));
}
