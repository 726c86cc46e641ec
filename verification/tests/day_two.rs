use advent::day_two::{limit, parse_draw, parse_small, part_one, part_two, product_of, Draw, Solution};
use advent::error::PuzzleError;
use advent::solution::Solution as Day;

fn test_input() -> &'static str {
    "Game 1: 3 blue, 4 red; 1 red, 2 green, 6 blue; 2 green
Game 2: 1 blue, 2 green; 3 green, 4 blue, 1 red; 1 green, 1 blue
Game 3: 8 green, 6 blue, 20 red; 5 blue, 4 red, 13 green; 5 green, 1 red
Game 4: 1 green, 3 red, 6 blue; 3 green, 6 red; 3 green, 15 blue, 14 red
Game 5: 6 red, 1 blue, 3 green; 2 blue, 1 red, 2 green"
}

fn chars(s: &str) -> Vec<char> {
    s.chars().collect()
}

#[test]
fn it_sums_ids_of_possible_games() {
    let result = part_one(test_input());
    assert_eq!(result, Ok(8));
}

#[test]
fn it_sums_power_of_minimum_sets() {
    let result = part_two(test_input());
    assert_eq!(result, Ok(2286));
}

#[test]
fn the_cube_solution_answers_as_the_functions_do() {
    assert_eq!(Solution.part_one(test_input()), Ok(8));
    assert_eq!(Solution.part_two(test_input()), Ok(2286));
}

#[test]
fn the_stock_is_twelve_red_thirteen_green_fourteen_blue() {
    assert_eq!(limit(&chars("red")), Some(12));
    assert_eq!(limit(&chars("green")), Some(13));
    assert_eq!(limit(&chars("blue")), Some(14));
    assert_eq!(limit(&chars("yellow")), None);
    assert_eq!(part_one("Game 7: 12 red, 13 green, 14 blue"), Ok(7));
    assert_eq!(part_one("Game 7: 13 red"), Ok(0));
    assert_eq!(part_one("Game 7: 14 green"), Ok(0));
    assert_eq!(part_one("Game 7: 15 blue"), Ok(0));
}

#[test]
fn a_colour_out_of_stock_is_refused_in_the_first_part_only() {
    assert_eq!(part_one("Game 1: 3 yellow"), Err(PuzzleError::Malformed));
    assert_eq!(part_two("Game 1: 3 yellow, 2 red"), Ok(6));
}

#[test]
fn nothing_is_read_after_a_draw_that_the_stock_does_not_allow() {
    assert_eq!(part_one("Game 3: 20 red, nonsense"), Ok(0));
    assert_eq!(part_one("Game 3: 2 red, nonsense"), Err(PuzzleError::Malformed));
    assert_eq!(part_two("Game 3: 20 red, nonsense"), Err(PuzzleError::Malformed));
}

#[test]
fn a_game_without_a_colon_or_a_number_is_refused() {
    assert_eq!(part_one("Game 1 3 blue"), Err(PuzzleError::Malformed));
    assert_eq!(part_two("Game 1 3 blue"), Err(PuzzleError::Malformed));
    assert_eq!(part_one("Game: 3 blue"), Err(PuzzleError::Malformed));
    assert_eq!(part_two("Game: 3 blue"), Ok(3));
    assert_eq!(part_one("Game x: 3 blue"), Err(PuzzleError::Malformed));
    assert_eq!(part_one("Game 1:"), Err(PuzzleError::Malformed));
}

#[test]
fn it_reads_a_draw() {
    let draw = parse_draw(&chars(" 3 blue")).unwrap();
    assert_eq!(draw.count, 3);
    assert_eq!(draw.colour, chars("blue"));
    assert!(parse_draw(&chars("blue")).is_none());
    assert!(parse_draw(&chars("blue 3")).is_none());
    assert!(parse_draw(&chars("")).is_none());
    assert!(parse_draw(&chars("4294967296 red")).is_none());
    assert_eq!(parse_small(&chars("4294967295")), Some(4294967295));
    assert_eq!(parse_small(&chars("4294967296")), None);
}

#[test]
fn a_power_is_the_product_of_the_largest_counts() {
    assert_eq!(part_two("Game 1: 3 blue, 4 red; 1 red, 2 green, 6 blue; 2 green"), Ok(48));
    let tally = vec![
        Draw { count: 4, colour: chars("red") },
        Draw { count: 2, colour: chars("green") },
        Draw { count: 6, colour: chars("blue") },
    ];
    assert_eq!(product_of(&tally), Some(48));
    assert_eq!(product_of(&vec![]), Some(1));
}

#[test]
fn a_power_beyond_thirty_two_bits_is_refused() {
    assert_eq!(part_two("Game 1: 65536 red, 65536 blue"), Err(PuzzleError::Overflow));
    assert_eq!(part_two("Game 1: 65536 red, 65535 blue"), Ok(4294901760));
    assert_eq!(part_two("Game 1: 65536 red, 65536 blue, 0 green"), Ok(0));
}

#[test]
fn a_sum_of_game_numbers_beyond_thirty_two_bits_is_refused() {
    assert_eq!(
        part_one("Game 4294967295: 1 red\nGame 1: 1 red"),
        Err(PuzzleError::Overflow)
    );
    assert_eq!(part_one("Game 4294967295: 1 red\nGame 1: 13 red"), Ok(4294967295));
}

#[test]
fn a_text_without_games_sums_to_zero() {
    assert_eq!(part_one(""), Ok(0));
    assert_eq!(part_two(""), Ok(0));
}
