use advent::day_one::{
    digit_value, extract_numbers, first_and_last, part_one, part_two, spelled_digit, word_found,
    Found,
};
use advent::error::PuzzleError;

fn part1_input() -> &'static str {
    "1abc2
pqr3stu8vwx
a1b2c3d4e5f
treb7uchet"
}

#[test]
fn test_part_one() {
    let result = part_one(part1_input());
    assert_eq!(result, Ok(142));
}

#[test]
fn test_extract_numbers() {
    let result = extract_numbers("0onetwothreefourfivesixseveneightnine");
    assert_eq!(result, Ok(vec![0, 1, 2, 3, 4, 5, 6, 7, 8, 9]));
}

fn part2_input() -> &'static str {
    "two1nine
eightwothree
abcone2threexyz
xtwone3four
4nineeightseven2
zoneight234
7pqrstsixteen"
}

#[test]
fn test_part_two() {
    let result = part_two(part2_input());
    assert_eq!(result, Ok(281));
}

#[test]
fn spelled_digits_that_share_a_letter_are_both_found() {
    assert_eq!(extract_numbers("eightwo"), Ok(vec![8, 2]));
    assert_eq!(extract_numbers("oneight"), Ok(vec![1, 8]));
}

#[test]
fn a_word_is_found_only_where_it_starts() {
    assert_eq!(extract_numbers("xone"), Ok(vec![1]));
    assert_eq!(extract_numbers("on e"), Ok(vec![]));
    assert_eq!(extract_numbers(""), Ok(vec![]));
}

#[test]
fn a_line_without_a_digit_is_refused() {
    assert_eq!(part_one("abc"), Err(PuzzleError::Malformed));
    assert_eq!(part_one("1\none\n2"), Err(PuzzleError::Malformed));
    assert_eq!(part_two("abc"), Err(PuzzleError::Malformed));
    assert_eq!(part_two("1\none\n2"), Ok(44));
}

#[test]
fn a_single_digit_is_first_and_last() {
    assert_eq!(part_one("treb7uchet"), Ok(77));
    assert_eq!(part_two("seven"), Ok(77));
}

#[test]
fn a_sum_of_calibration_values_beyond_thirty_two_bits_is_refused() {
    let mut text = String::new();
    for _ in 0..43383509 {
        text.push_str("99\n");
    }
    assert_eq!(part_one(&text), Err(PuzzleError::Overflow));
}

#[test]
fn a_text_without_lines_calibrates_to_zero() {
    assert_eq!(part_one(""), Ok(0));
    assert_eq!(part_two(""), Ok(0));
}

#[test]
fn it_tells_digits_from_other_characters() {
    assert_eq!(digit_value('0'), Some(0));
    assert_eq!(digit_value('9'), Some(9));
    assert_eq!(digit_value('a'), None);
    assert_eq!(digit_value('/'), None);
    assert_eq!(digit_value(':'), None);
}

#[test]
fn it_knows_the_nine_words() {
    let words = ["one", "two", "three", "four", "five", "six", "seven", "eight", "nine"];
    for (i, word) in words.iter().enumerate() {
        assert_eq!(spelled_digit(&word.to_string()), Some(i as u32 + 1));
    }
    assert_eq!(spelled_digit(&"zero".to_string()), None);
    assert_eq!(spelled_digit(&"".to_string()), None);
}

#[test]
fn it_reads_what_a_search_found() {
    assert!(matches!(word_found(&None), Found::Nothing));
    let hit = Some(vec![Some("six".to_string()), Some("six".to_string())]);
    assert!(matches!(word_found(&hit), Found::Number(6)));
    let odd = Some(vec![Some("ten".to_string())]);
    assert!(matches!(word_found(&odd), Found::Unknown));
    assert!(matches!(word_found(&Some(vec![None])), Found::Unknown));
    assert!(matches!(word_found(&Some(vec![])), Found::Unknown));
}

#[test]
fn it_joins_the_first_and_the_last_number() {
    assert_eq!(first_and_last(&vec![1, 2, 3]), Some(13));
    assert_eq!(first_and_last(&vec![7]), Some(77));
    assert_eq!(first_and_last(&vec![]), None);
}
