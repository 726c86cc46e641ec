use advent::day_three::{parse_input, part_one, part_two, NumberBox, Symbol};
use advent::error::PuzzleError;

fn test_input() -> &'static str {
    "467..114..
...*......
..35..633.
......#...
617*......
.....+.58.
..592.....
......755.
...$.*....
.664.598.."
}

#[test]
fn it_calculates_the_sum_of_part_numbers() {
    let result = part_one(test_input());
    assert_eq!(result, Ok(4361));
}

#[test]
fn it_calculates_the_sum_of_adjacent_gear_products() {
    let result = part_two(test_input());
    assert_eq!(result, Ok(467835));
}

#[test]
fn a_box_is_next_to_the_places_around_it() {
    let b = NumberBox { x_min: 2, x_max: 4, y: 3, number: 7 };
    assert!(b.is_adjacent_to(1, 2));
    assert!(b.is_adjacent_to(5, 4));
    assert!(b.is_adjacent_to(3, 3));
    assert!(b.is_adjacent_to(1, 3));
    assert!(b.is_adjacent_to(5, 3));
    assert!(!b.is_adjacent_to(0, 3));
    assert!(!b.is_adjacent_to(6, 3));
    assert!(!b.is_adjacent_to(3, 1));
    assert!(!b.is_adjacent_to(3, 5));
}

#[test]
fn a_box_at_the_edge_has_no_places_beyond_it() {
    let b = NumberBox { x_min: 0, x_max: 0, y: 0, number: 7 };
    assert!(b.is_adjacent_to(0, 0));
    assert!(b.is_adjacent_to(1, 1));
    assert!(!b.is_adjacent_to(2, 0));
    assert!(!b.is_adjacent_to(0, 2));
    let far = NumberBox { x_min: usize::MAX, x_max: usize::MAX, y: usize::MAX, number: 7 };
    assert!(far.is_adjacent_to(usize::MAX, usize::MAX));
    assert!(far.is_adjacent_to(usize::MAX - 1, usize::MAX - 1));
    assert!(!far.is_adjacent_to(usize::MAX - 2, usize::MAX));
}

#[test]
fn it_finds_the_numbers_and_the_symbols() {
    let (boxes, symbols) = parse_input("467..114..\n...*....7#").unwrap();
    assert_eq!(
        boxes,
        vec![
            NumberBox { x_min: 0, x_max: 2, y: 0, number: 467 },
            NumberBox { x_min: 5, x_max: 7, y: 0, number: 114 },
            NumberBox { x_min: 8, x_max: 8, y: 1, number: 7 },
        ]
    );
    assert_eq!(
        symbols,
        vec![Symbol { x: 3, y: 1, symbol: '*' }, Symbol { x: 9, y: 1, symbol: '#' }]
    );
}

#[test]
fn a_number_at_the_end_of_a_line_ends_with_the_line() {
    let (boxes, symbols) = parse_input("..12\n34").unwrap();
    assert_eq!(
        boxes,
        vec![
            NumberBox { x_min: 2, x_max: 3, y: 0, number: 12 },
            NumberBox { x_min: 0, x_max: 1, y: 1, number: 34 },
        ]
    );
    assert_eq!(symbols, vec![]);
}

#[test]
fn a_number_at_the_end_of_a_line_is_measured_in_bytes() {
    let (boxes, symbols) = parse_input("é12").unwrap();
    assert_eq!(boxes, vec![NumberBox { x_min: 1, x_max: 3, y: 0, number: 12 }]);
    assert_eq!(symbols, vec![Symbol { x: 0, y: 0, symbol: 'é' }]);
}

#[test]
fn a_number_beyond_thirty_two_bits_is_refused() {
    assert!(matches!(parse_input("4294967296"), Err(PuzzleError::Overflow)));
    assert_eq!(part_one("4294967296"), Err(PuzzleError::Overflow));
    assert_eq!(part_two("4294967296"), Err(PuzzleError::Overflow));
    assert_eq!(part_one("#4294967295"), Ok(4294967295));
    assert_eq!(part_one("99999999999999999999999"), Err(PuzzleError::Overflow));
}

#[test]
fn a_sum_of_part_numbers_beyond_thirty_two_bits_is_refused() {
    assert_eq!(part_one("4294967295#1"), Err(PuzzleError::Overflow));
    assert_eq!(part_one("4294967295#.1"), Ok(4294967295));
}

#[test]
fn a_gear_ratio_beyond_thirty_two_bits_is_refused() {
    assert_eq!(part_two("65536*65536"), Err(PuzzleError::Overflow));
    assert_eq!(part_two("65536*65535"), Ok(4294901760));
}

#[test]
fn a_star_with_one_or_three_numbers_is_no_gear() {
    assert_eq!(part_two("12*"), Ok(0));
    assert_eq!(part_two("1.2\n.*.\n3.."), Ok(0));
    assert_eq!(part_two("1.2\n.#."), Ok(0));
    assert_eq!(part_two("1.2\n.*."), Ok(2));
}

#[test]
fn a_number_counts_once_however_many_symbols_surround_it() {
    assert_eq!(part_one("#5#\n###"), Ok(5));
    assert_eq!(part_one(""), Ok(0));
    assert_eq!(part_two(""), Ok(0));
}
