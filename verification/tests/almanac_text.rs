use advent::day_five::header::{header_names, parse_header};
use advent::day_five::{extract_seeds, parse_input, part_one, part_two, AlmanacError, RangeMap, RangePair};
use advent::day_five::almanac::Almanac;
use advent::day_five::parse::parse_row;

fn chars(s: &str) -> Vec<char> {
    s.chars().collect()
}

fn lines(text: &[&str]) -> Vec<Vec<char>> {
    text.iter().map(|l| chars(l)).collect()
}

fn error_of(text: &str) -> AlmanacError {
    match parse_input(text) {
        Ok(_) => panic!("the text was accepted"),
        Err(e) => e,
    }
}

#[test]
fn it_reads_the_seeds_and_the_route() {
    let text = "seeds: 79 14 55 13\n\nsoil-to-location map:\n0 15 37\n\nseed-to-soil map:\n50 98 2\n52 50 48\n";
    let (seeds, almanac) = parse_input(text).unwrap();
    assert_eq!(seeds, vec![79, 14, 55, 13]);
    assert_eq!(almanac.len(), 2);
    assert_eq!(almanac.seed_to_location(&79), 81);
    assert_eq!(almanac.seed_to_location(&14), 14);
    assert_eq!(almanac.seed_to_location(&13), 13);
    assert_eq!(almanac.seed_to_location(&98), 35);
}

#[test]
fn a_header_gives_the_two_names_of_its_stage() {
    assert_eq!(
        parse_header(&chars("seed-to-soil map:")),
        Ok(("seed".to_string(), "soil".to_string()))
    );
    assert_eq!(
        parse_header(&chars("the light_2-to-temperature map: and more")),
        Ok(("light_2".to_string(), "temperature".to_string()))
    );
    assert_eq!(parse_header(&chars("seed-to-soil map")), Err(AlmanacError::Header));
    assert_eq!(parse_header(&chars("seed to soil map:")), Err(AlmanacError::Header));
    assert_eq!(parse_header(&chars("-to-soil map:")), Err(AlmanacError::Header));
    assert_eq!(parse_header(&chars("")), Err(AlmanacError::Header));
    assert_eq!(parse_header(&chars("50 98 2")), Err(AlmanacError::Header));
}

#[test]
fn the_names_are_the_first_and_second_group_of_a_match() {
    let groups = Some(vec![
        Some("seed-to-soil map:".to_string()),
        Some("seed".to_string()),
        Some("soil".to_string()),
    ]);
    assert_eq!(header_names(&groups), Some(("seed".to_string(), "soil".to_string())));
    assert_eq!(header_names(&None), None);
    assert_eq!(header_names(&Some(vec![])), None);
    assert_eq!(header_names(&Some(vec![Some("a".to_string()), Some("b".to_string())])), None);
    let gap = Some(vec![Some("a".to_string()), None, Some("c".to_string())]);
    assert_eq!(header_names(&gap), None);
    let more = Some(vec![
        Some("w".to_string()),
        Some("x".to_string()),
        Some("y".to_string()),
        Some("z".to_string()),
    ]);
    assert_eq!(header_names(&more), Some(("x".to_string(), "y".to_string())));
}

#[test]
fn it_reads_the_seeds_after_their_label() {
    assert_eq!(extract_seeds(&lines(&["seeds: 79 14 55 13", ""])), Ok(vec![79, 14, 55, 13]));
    assert_eq!(extract_seeds(&lines(&["  seeds:   7  "])), Ok(vec![7]));
    assert_eq!(extract_seeds(&lines(&["seeds:"])), Ok(vec![]));
    assert_eq!(extract_seeds(&lines(&["seeds: +7"])), Ok(vec![7]));
    assert_eq!(extract_seeds(&lines(&[])), Err(AlmanacError::SeedLine));
    assert_eq!(extract_seeds(&lines(&[""])), Err(AlmanacError::SeedLine));
    assert_eq!(extract_seeds(&lines(&["seeds 79 14"])), Err(AlmanacError::SeedLine));
    assert_eq!(extract_seeds(&lines(&["seeds:79 14"])), Err(AlmanacError::SeedLine));
    assert_eq!(extract_seeds(&lines(&["79 14"])), Err(AlmanacError::SeedLine));
    assert_eq!(extract_seeds(&lines(&["seeds: 79 x"])), Err(AlmanacError::Number));
    assert_eq!(extract_seeds(&lines(&["seeds: 18446744073709551616"])), Err(AlmanacError::Number));
}

#[test]
fn it_reads_a_row_of_three_numbers() {
    assert_eq!(parse_row(&chars("50 98 2")), Ok((50, 98, 2)));
    assert_eq!(parse_row(&chars("18446744073709551615 0 18446744073709551615")),
        Ok((u64::MAX, 0, u64::MAX)));
    assert_eq!(parse_row(&chars("50 98")), Err(AlmanacError::FieldCount));
    assert_eq!(parse_row(&chars("50 98 2 x")), Err(AlmanacError::FieldCount));
    assert_eq!(parse_row(&chars("x 98 2")), Err(AlmanacError::Number));
    assert_eq!(parse_row(&chars("50 98 2.0")), Err(AlmanacError::Number));
}

#[test]
fn it_reads_one_block_and_tells_where_the_next_starts() {
    let text = lines(&["seed-to-soil map:", "50 98 2", "52 50 48", "", "soil-to-x map:", "1 2 3"]);
    let (stage, next) = RangeMap::parse_new(&text, 0).unwrap();
    assert_eq!(next, 4);
    assert_eq!(stage.source_name(), "seed");
    assert_eq!(stage.dest_name(), "soil");
    assert_eq!(
        stage.pairs(),
        &vec![
            RangePair { source: 50..98, destination: 52..100 },
            RangePair { source: 98..100, destination: 50..52 },
        ]
    );
    let (stage, next) = RangeMap::parse_new(&text, 4).unwrap();
    assert_eq!(next, 6);
    assert_eq!(stage.source_name(), "soil");
    assert_eq!(stage.pairs(), &vec![RangePair { source: 2..5, destination: 1..4 }]);
    assert!(matches!(RangeMap::parse_new(&text, 1), Err(AlmanacError::Header)));
    assert!(matches!(RangeMap::parse_new(&text, 3), Err(AlmanacError::Header)));
}

#[test]
fn a_block_may_have_no_rows() {
    let text = lines(&["seed-to-location map:", "", "x-to-y map:"]);
    let (stage, next) = RangeMap::parse_new(&text, 0).unwrap();
    assert_eq!((stage.len(), next), (0, 2));
    let (stage, next) = RangeMap::parse_new(&text, 2).unwrap();
    assert_eq!((stage.len(), next), (0, 3));
    assert_eq!(part_one("seeds: 4 9\n\nseed-to-location map:\n"), Ok(4));
}

#[test]
fn it_reads_the_blocks_into_an_almanac() {
    let text = lines(&["junk", "seed-to-soil map:", "10 0 5", "", "soil-to-location map:", "100 10 5"]);
    let almanac = Almanac::parse_new(&text, 1).unwrap();
    assert_eq!(almanac.len(), 2);
    assert_eq!(almanac.seed_to_location(&2), 102);
    assert!(matches!(Almanac::parse_new(&text, 0), Err(AlmanacError::Header)));
    assert!(matches!(Almanac::parse_new(&text, 4), Err(AlmanacError::BrokenChain)));
    assert!(matches!(Almanac::parse_new(&text, 6), Err(AlmanacError::BrokenChain)));
}

#[test]
fn a_text_without_a_line_of_seeds_is_refused() {
    assert_eq!(error_of(""), AlmanacError::SeedLine);
    assert_eq!(error_of("\nseeds: 1"), AlmanacError::SeedLine);
    assert_eq!(error_of("seed-to-location map:\n1 2 3"), AlmanacError::SeedLine);
    assert_eq!(part_one(""), Err(AlmanacError::SeedLine));
    assert_eq!(part_two(""), Err(AlmanacError::SeedLine));
}

#[test]
fn a_second_line_that_is_not_empty_is_refused() {
    assert_eq!(error_of("seeds: 1\nseed-to-location map:\n1 2 3"), AlmanacError::Separator);
    assert_eq!(error_of("seeds: 1\n \nseed-to-location map:\n1 2 3"), AlmanacError::Separator);
    assert_eq!(part_one("seeds: 1\n\r\nseed-to-location map:\n1 2 3"), Ok(1));
}

#[test]
fn a_block_without_a_header_is_refused() {
    assert_eq!(error_of("seeds: 1\n\n1 2 3"), AlmanacError::Header);
    assert_eq!(error_of("seeds: 1\n\nseed-to-location map:\n1 2 3\n\n\nx-to-y map:"), AlmanacError::Header);
    assert_eq!(error_of("seeds: 1\n\n\nseed-to-location map:\n1 2 3"), AlmanacError::Header);
}

#[test]
fn a_row_that_is_not_three_numbers_is_refused() {
    assert_eq!(error_of("seeds: 1\n\nseed-to-location map:\n1 2"), AlmanacError::FieldCount);
    assert_eq!(error_of("seeds: 1\n\nseed-to-location map:\n1 2 3 4"), AlmanacError::FieldCount);
    assert_eq!(error_of("seeds: 1\n\nseed-to-location map:\n1 2 3\n \n"), AlmanacError::FieldCount);
    assert_eq!(error_of("seeds: 1\n\nseed-to-location map:\n1 2 3\nx-to-y map:"), AlmanacError::FieldCount);
    assert_eq!(error_of("seeds: 1\n\nseed-to-location map:\n1 b 3"), AlmanacError::Number);
    assert_eq!(error_of("seeds: x\n\nseed-to-location map:\n1 2 3"), AlmanacError::Number);
}

#[test]
fn the_first_fault_of_a_text_is_the_one_reported() {
    assert_eq!(error_of("seeds: x\nnot empty\nno header"), AlmanacError::Number);
    assert_eq!(error_of("seeds: 1\nnot empty\nno header"), AlmanacError::Separator);
    assert_eq!(
        error_of("seeds: 1\n\nseed-to-soil map:\n18446744073709551615 0 1\n1 2\n"),
        AlmanacError::FieldCount
    );
    assert_eq!(
        error_of("seeds: 1\n\nseed-to-soil map:\n18446744073709551615 0 1\n0 0 5\n"),
        AlmanacError::Overflow
    );
    assert_eq!(
        error_of("seeds: 1\n\nseed-to-soil map:\n0 0 5\n9 4 5\n\nno header"),
        AlmanacError::Overlap
    );
    assert_eq!(
        error_of("seeds: 1\n\nseed-to-soil map:\n0 0 5\n\nno header"),
        AlmanacError::Header
    );
}

#[test]
fn rows_that_do_not_fit_or_that_clash_are_refused() {
    assert_eq!(
        error_of("seeds: 1\n\nseed-to-location map:\n0 18446744073709551615 1"),
        AlmanacError::Overflow
    );
    assert_eq!(error_of("seeds: 1\n\nseed-to-location map:\n0 5 5\n20 9 1"), AlmanacError::Overlap);
    assert_eq!(part_one("seeds: 9\n\nseed-to-location map:\n0 5 5\n20 10 1\n7 9 0"), Ok(4));
}

#[test]
fn blocks_that_do_not_lead_to_the_location_are_refused() {
    assert_eq!(error_of("seeds: 1"), AlmanacError::BrokenChain);
    assert_eq!(error_of("seeds: 1\n"), AlmanacError::BrokenChain);
    assert_eq!(error_of("seeds: 1\n\n"), AlmanacError::BrokenChain);
    assert_eq!(error_of("seeds: 1\n\nseed-to-soil map:\n1 2 3"), AlmanacError::BrokenChain);
    assert_eq!(error_of("seeds: 1\n\nsoil-to-location map:\n1 2 3"), AlmanacError::BrokenChain);
    assert_eq!(
        error_of("seeds: 1\n\nseed-to-soil map:\n\nsoil-to-seed map:\n"),
        AlmanacError::BrokenChain
    );
    assert_eq!(part_one("seeds: 1\n\nseed-to-soil map:\n1 2 3"), Err(AlmanacError::BrokenChain));
    assert_eq!(part_two("seeds: 1 1\n\nseed-to-soil map:\n1 2 3"), Err(AlmanacError::BrokenChain));
}

#[test]
fn the_stages_may_stand_in_any_order() {
    let text = "seeds: 0 3\n\nsoil-to-location map:\n100 10 5\n\nseed-to-soil map:\n10 0 5\n";
    assert_eq!(part_one(text), Ok(100));
    assert_eq!(part_two(text), Ok(100));
}
