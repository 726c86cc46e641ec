use advent::day_six::{calculate_distance, count_winning_methods, extract_numbers, part_one, part_two, Solution};
use advent::error::PuzzleError;
use advent::solution::Solution as Day;

fn test_input() -> &'static str {
    "Time:      7  15   30
Distance:  9  40  200"
}

#[test]
fn it_multiplies_ways_of_beating_record() {
    let result = part_one(test_input());
    assert_eq!(result, Ok(288));
}

#[test]
fn it_counts_the_ways_of_beating_one_record() {
    assert_eq!(count_winning_methods(&7, &9), 4);
    assert_eq!(count_winning_methods(&15, &40), 8);
    assert_eq!(count_winning_methods(&30, &200), 9);
}

#[test]
fn a_record_out_of_reach_is_beaten_in_no_way() {
    assert_eq!(count_winning_methods(&7, &12), 0);
    assert_eq!(count_winning_methods(&0, &0), 0);
    assert_eq!(count_winning_methods(&1, &0), 0);
    assert_eq!(count_winning_methods(&2, &0), 1);
}

#[test]
fn it_calculates_the_distance_of_a_hold_time() {
    assert_eq!(calculate_distance(&7, 0), 0);
    assert_eq!(calculate_distance(&7, 3), 12);
    assert_eq!(calculate_distance(&7, 7), 0);
    assert_eq!(calculate_distance(&4294967296, 4294967295), 4294967295);
}

#[test]
fn it_reads_the_numbers_after_the_label() {
    assert_eq!(extract_numbers("Time:      7  15   30"), Ok(vec![7, 15, 30]));
    assert_eq!(extract_numbers("Time:"), Ok(vec![]));
    assert_eq!(extract_numbers(""), Ok(vec![]));
    assert_eq!(extract_numbers("Time: 7 x"), Err(PuzzleError::Malformed));
}

#[test]
fn races_without_a_record_are_left_out() {
    assert_eq!(part_one("Time: 7 15 30\nDistance: 9"), Ok(4));
    assert_eq!(part_one("Time:\nDistance:"), Ok(1));
}

#[test]
fn a_text_of_one_line_is_refused() {
    assert_eq!(part_one("Time: 7 15 30"), Err(PuzzleError::Malformed));
}

#[test]
fn a_product_beyond_sixty_four_bits_is_refused() {
    let text = "Time: 100001 100001 100001 100001\nDistance: 0 0 0 0";
    assert_eq!(part_one(text), Err(PuzzleError::Overflow));
}

#[test]
fn the_second_part_answers_zero() {
    assert_eq!(part_two(test_input()), Ok(0));
}

#[test]
fn the_race_solution_answers_as_the_functions_do() {
    assert_eq!(Solution.part_one(test_input()), Ok(288));
    assert_eq!(Solution.part_two(test_input()), Ok(0));
}
