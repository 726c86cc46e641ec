use advent::day_four::{card_points, count_winners, part_one, part_two};
use advent::error::PuzzleError;

fn test_input() -> &'static str {
    "Card 1: 41 48 83 86 17 | 83 86  6 31 17  9 48 53
Card 2: 13 32 20 16 61 | 61 30 68 82 17 32 24 19
Card 3:  1 21 53 59 44 | 69 82 63 72 16 21 14  1
Card 4: 41 92 73 84 69 | 59 84 76 51 58  5 54 83
Card 5: 87 83 26 28 32 | 88 30 70 12 93 22 82 36
Card 6: 31 18 13 56 72 | 74 77 10 23 35 67 36 11"
}

#[test]
fn it_totals_the_winnings() {
    let result = part_one(test_input());
    assert_eq!(result, Ok(13));
}

#[test]
fn it_totals_the_amount_of_scratchcards() {
    let result = part_two(test_input());
    assert_eq!(result, Ok(30));
}

#[test]
fn it_counts_the_winning_numbers_of_a_card() {
    assert_eq!(count_winners("Card 1: 41 48 83 86 17 | 83 86  6 31 17  9 48 53"), Ok(4));
    assert_eq!(count_winners("Card 5: 87 83 26 28 32 | 88 30 70 12 93 22 82 36"), Ok(0));
}

#[test]
fn a_number_held_twice_counts_twice() {
    assert_eq!(count_winners("Card 1: 7 | 7 7 8"), Ok(2));
}

#[test]
fn a_card_without_a_bar_is_refused() {
    assert_eq!(count_winners("Card 1: 41 48 83"), Err(PuzzleError::Malformed));
    assert_eq!(part_one("Card 1: 41 48 83"), Err(PuzzleError::Malformed));
    assert_eq!(part_two("Card 1: 41 48 83"), Err(PuzzleError::Malformed));
}

#[test]
fn a_field_that_is_no_number_is_refused() {
    assert_eq!(count_winners("Card 1: 41 x | 41"), Err(PuzzleError::Malformed));
    assert_eq!(count_winners("Card 1: 41 | 4294967296"), Err(PuzzleError::Malformed));
    assert_eq!(count_winners("Card 1: 41 | 4294967295"), Ok(0));
}

#[test]
fn points_double_with_each_winner() {
    assert_eq!(card_points(0), Some(0));
    assert_eq!(card_points(1), Some(1));
    assert_eq!(card_points(2), Some(2));
    assert_eq!(card_points(5), Some(16));
    assert_eq!(card_points(32), Some(2147483648));
    assert_eq!(card_points(33), None);
}

#[test]
fn points_beyond_thirty_two_bits_are_refused() {
    let numbers: Vec<String> = (1..=33).map(|n: u32| n.to_string()).collect();
    let card = format!("Card 1: {} | {}", numbers.join(" "), numbers.join(" "));
    assert_eq!(count_winners(&card), Ok(33));
    assert_eq!(part_one(&card), Err(PuzzleError::Overflow));
    assert_eq!(part_two(&card), Ok(1));
}

#[test]
fn copies_won_beyond_the_last_card_do_not_count() {
    assert_eq!(part_two("Card 1: 1 2 3 | 1 2 3\nCard 2: 5 | 6"), Ok(3));
}

#[test]
fn a_text_without_cards_has_no_points_and_no_cards() {
    assert_eq!(part_one(""), Ok(0));
    assert_eq!(part_two(""), Ok(0));
}
