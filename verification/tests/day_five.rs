use advent::day_five::{combine_ranges, part_one, part_two, AlmanacError};

fn test_input() -> &'static str {
    "seeds: 79 14 55 13

seed-to-soil map:
50 98 2
52 50 48

soil-to-fertilizer map:
0 15 37
37 52 2
39 0 15

fertilizer-to-water map:
49 53 8
0 11 42
42 0 7
57 7 4

water-to-light map:
88 18 7
18 25 70

light-to-temperature map:
45 77 23
81 45 19
68 64 13

temperature-to-humidity map:
0 69 1
1 0 69

humidity-to-location map:
60 56 37
56 93 4"
}

#[test]
fn it_combines_adjecent_ranges() {
    let result = combine_ranges(vec![0..2, 2..4]);
    assert_eq!(result, vec![0..4]);
}

#[test]
fn it_leaves_ranges_with_gaps() {
    let result = combine_ranges(vec![0..2, 3..5]);
    assert_eq!(result, vec![0..2, 3..5]);
}

#[test]
fn order_of_ranges_does_not_matter() {
    let result = combine_ranges(vec![2..4, 0..2, 3..5]);
    assert_eq!(result, vec![0..5]);
}

#[test]
fn it_finds_the_lowest_location_number() {
    let result = part_one(test_input());
    assert_eq!(result, Ok(35));
}

#[test]
fn it_finds_the_lowest_location_in_ranges() {
    let result = part_two(test_input());
    assert_eq!(result, Ok(46));
}

#[test]
fn a_trailing_line_feed_changes_nothing() {
    let text = format!("{}\n", test_input());
    assert_eq!(part_one(&text), Ok(35));
    assert_eq!(part_two(&text), Ok(46));
}

#[test]
fn carriage_returns_before_line_feeds_change_nothing() {
    let text = test_input().replace('\n', "\r\n");
    assert_eq!(part_one(&text), Ok(35));
    assert_eq!(part_two(&text), Ok(46));
}

#[test]
fn a_text_without_seeds_has_no_lowest_location() {
    let text = "seeds:\n\nseed-to-location map:\n1 2 3\n";
    assert_eq!(part_one(text), Err(AlmanacError::NoSeeds));
    assert_eq!(part_two(text), Err(AlmanacError::NoSeeds));
}

#[test]
fn seed_intervals_of_no_length_leave_nothing_to_find() {
    let text = "seeds: 5 0 9 0\n\nseed-to-location map:\n1 2 3\n";
    assert_eq!(part_one(text), Ok(0));
    assert_eq!(part_two(text), Err(AlmanacError::NoSeeds));
}

#[test]
fn a_start_without_a_length_is_refused_in_range_mode() {
    let text = "seeds: 5 1 9\n\nseed-to-location map:\n1 2 3\n";
    assert_eq!(part_one(text), Ok(1));
    assert_eq!(part_two(text), Err(AlmanacError::UnpairedSeed));
}

#[test]
fn a_seed_interval_beyond_the_largest_value_is_refused() {
    let text = "seeds: 18446744073709551615 1\n\nseed-to-location map:\n1 2 3\n";
    assert_eq!(part_one(text), Ok(1));
    assert_eq!(part_two(text), Err(AlmanacError::Overflow));
}
