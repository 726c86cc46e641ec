use advent::day_five::almanac::Almanac;
use advent::day_five::lowest::{lowest, lowest_location, lowest_location_in_ranges, lowest_start, seed_ranges};
use advent::day_five::{combine_ranges, split_range, AlmanacError, RangeConversion, RangeMap, RangePair};

fn stage(from: &str, to: &str, rows: Vec<(u64, u64, u64)>) -> RangeMap {
    RangeMap::new(from.to_string(), to.to_string(), rows).unwrap()
}

fn soil() -> RangeMap {
    stage("seed", "soil", vec![(50, 98, 2), (52, 50, 48)])
}

fn total(ranges: &Vec<std::ops::Range<u64>>) -> u64 {
    ranges.iter().map(|r| r.end.saturating_sub(r.start)).sum()
}

#[test]
fn it_splits_a_range_at_an_index() {
    assert_eq!(split_range(&(3..9), &5), (3..5, 5..9));
    assert_eq!(split_range(&(3..9), &3), (3..3, 3..9));
    assert_eq!(split_range(&(3..9), &9), (3..9, 9..9));
}

#[test]
fn nested_ranges_do_not_shrink_the_merged_range() {
    assert_eq!(combine_ranges(vec![0..10, 2..4]), vec![0..10]);
    assert_eq!(combine_ranges(vec![2..4, 0..10, 3..5]), vec![0..10]);
    assert_eq!(combine_ranges(vec![0..10, 2..4, 11..12, 10..11]), vec![0..12]);
}

#[test]
fn empty_ranges_are_left_out_of_the_merged_ranges() {
    assert_eq!(combine_ranges(vec![]), vec![]);
    assert_eq!(combine_ranges(vec![5..5]), vec![]);
    assert_eq!(combine_ranges(vec![7..3]), vec![]);
    assert_eq!(combine_ranges(vec![5..5, 0..2, 9..9, 2..2]), vec![0..2]);
    assert_eq!(combine_ranges(vec![0..u64::MAX, 5..6]), vec![0..u64::MAX]);
}

#[test]
fn merging_twice_is_merging_once() {
    let inputs = vec![
        vec![2..4, 0..2, 3..5],
        vec![0..2, 3..5],
        vec![10..20, 5..5, 0..1, 15..30, 1..2, 40..41],
        vec![],
    ];
    for input in inputs {
        let once = combine_ranges(input);
        let copy: Vec<std::ops::Range<u64>> = once.iter().map(|r| r.start..r.end).collect();
        assert_eq!(combine_ranges(copy), once);
    }
}

#[test]
fn merging_keeps_the_length_of_ranges_that_share_nothing() {
    let apart = vec![0..2, 3..5, 9..10];
    assert_eq!(total(&combine_ranges(apart.clone())), total(&apart));
    let touching = vec![0..2, 2..4];
    assert_eq!(total(&combine_ranges(touching.clone())), total(&touching));
    let overlapping = vec![0..3, 2..4];
    assert_eq!(total(&combine_ranges(overlapping.clone())), 4);
    assert!(total(&combine_ranges(overlapping.clone())) < total(&overlapping));
}

#[test]
fn a_mapping_moves_its_source_onto_its_destination() {
    let pair = RangePair::new(52, 50, 48).unwrap();
    assert_eq!(pair, RangePair { source: 50..98, destination: 52..100 });
    assert_eq!(pair.to_destination(&50), 52);
    assert_eq!(pair.to_destination(&79), 81);
    assert_eq!(pair.to_destination(&98), 100);
    assert_eq!(pair.contained_range_to_destination(&(60..70)), 62..72);
    assert_eq!(pair.contained_range_to_destination(&(50..98)), 52..100);
}

#[test]
fn a_destination_below_the_source_needs_no_signed_arithmetic() {
    let pair = RangePair::new(0, u64::MAX - 10, 10).unwrap();
    assert_eq!(pair.to_destination(&(u64::MAX - 10)), 0);
    assert_eq!(pair.to_destination(&(u64::MAX - 1)), 9);
    let up = RangePair::new(u64::MAX - 10, 0, 10).unwrap();
    assert_eq!(up.to_destination(&9), u64::MAX - 1);
    assert_eq!(up.contained_range_to_destination(&(0..10)), (u64::MAX - 10)..u64::MAX);
}

#[test]
fn a_mapping_that_ends_beyond_the_largest_value_is_refused() {
    assert!(RangePair::new(0, u64::MAX, 1).is_none());
    assert!(RangePair::new(u64::MAX, 0, 1).is_none());
    assert!(RangePair::new(u64::MAX, u64::MAX, 0).is_some());
    assert!(RangePair::new(u64::MAX - 1, 5, 1).is_some());
}

#[test]
fn a_mapping_converts_what_it_holds_and_hands_back_the_rest() {
    let pair = RangePair::new(52, 50, 48).unwrap();
    assert_eq!(pair.range_to_destination(&(60..70)), RangeConversion::Complete(62..72));
    assert_eq!(pair.range_to_destination(&(60..98)), RangeConversion::Complete(62..100));
    assert_eq!(
        pair.range_to_destination(&(60..120)),
        RangeConversion::Remainder(62..100, 98..120)
    );
    assert_eq!(
        pair.range_to_destination(&(97..99)),
        RangeConversion::Remainder(99..100, 98..99)
    );
}

#[test]
fn it_reads_a_mapping_from_a_line() {
    assert_eq!(
        RangePair::parse_new("50 98 2"),
        Ok(RangePair { source: 98..100, destination: 50..52 })
    );
    assert_eq!(
        RangePair::parse_new("  7\t3   0 "),
        Ok(RangePair { source: 3..3, destination: 7..7 })
    );
    assert_eq!(RangePair::parse_new("50 98"), Err(AlmanacError::FieldCount));
    assert_eq!(RangePair::parse_new("50 98 2 1"), Err(AlmanacError::FieldCount));
    assert_eq!(RangePair::parse_new(""), Err(AlmanacError::FieldCount));
    assert_eq!(RangePair::parse_new("50 x 2"), Err(AlmanacError::Number));
    assert_eq!(RangePair::parse_new("50 -1 2"), Err(AlmanacError::Number));
    assert_eq!(RangePair::parse_new("50 18446744073709551616 2"), Err(AlmanacError::Number));
    assert_eq!(RangePair::parse_new("50 18446744073709551615 2"), Err(AlmanacError::Overflow));
    assert_eq!(RangePair::parse_new("18446744073709551615 5 1"), Err(AlmanacError::Overflow));
}

#[test]
fn a_stage_sorts_its_mappings_by_source() {
    let water = stage("fertilizer", "water", vec![(49, 53, 8), (0, 11, 42), (42, 0, 7), (57, 7, 4)]);
    assert_eq!(water.source_name(), "fertilizer");
    assert_eq!(water.dest_name(), "water");
    assert_eq!(water.len(), 4);
    assert_eq!(
        water.pairs(),
        &vec![
            RangePair { source: 0..7, destination: 42..49 },
            RangePair { source: 7..11, destination: 57..61 },
            RangePair { source: 11..53, destination: 0..42 },
            RangePair { source: 53..61, destination: 49..57 },
        ]
    );
}

#[test]
fn a_stage_leaves_out_rows_of_no_length() {
    let s = stage("a", "b", vec![(5, 10, 0), (50, 98, 2), (0, 98, 0), (7, 99, 0)]);
    assert_eq!(s.pairs(), &vec![RangePair { source: 98..100, destination: 50..52 }]);
    assert_eq!(s.to_destination(&10), 10);
    assert_eq!(s.to_destination(&98), 50);
    assert_eq!(stage("a", "b", vec![]).len(), 0);
}

#[test]
fn a_stage_with_clashing_or_overlong_rows_is_refused() {
    let made = RangeMap::new("a".to_string(), "b".to_string(), vec![(0, 10, 5), (100, 14, 5)]);
    assert!(matches!(made, Err(AlmanacError::Overlap)));
    let made = RangeMap::new("a".to_string(), "b".to_string(), vec![(0, 10, 5), (100, 10, 5)]);
    assert!(matches!(made, Err(AlmanacError::Overlap)));
    let made = RangeMap::new("a".to_string(), "b".to_string(), vec![(0, 10, 5), (100, 15, 5)]);
    assert!(made.is_ok());
    let made = RangeMap::new("a".to_string(), "b".to_string(), vec![(0, u64::MAX, 2)]);
    assert!(matches!(made, Err(AlmanacError::Overflow)));
    let made = RangeMap::new(
        "a".to_string(),
        "b".to_string(),
        vec![(0, 10, 5), (100, 12, 5), (0, u64::MAX, 2)],
    );
    assert!(matches!(made, Err(AlmanacError::Overflow)));
}

#[test]
fn it_finds_the_mapping_that_holds_a_value_or_the_next_one() {
    let s = stage("a", "b", vec![(0, 10, 5), (100, 20, 5), (7, 25, 1)]);
    assert_eq!(s.find_containing_range(&10), Ok(0));
    assert_eq!(s.find_containing_range(&14), Ok(0));
    assert_eq!(s.find_containing_range(&20), Ok(1));
    assert_eq!(s.find_containing_range(&25), Ok(2));
    assert_eq!(s.find_containing_range(&0), Err(0));
    assert_eq!(s.find_containing_range(&9), Err(0));
    assert_eq!(s.find_containing_range(&15), Err(1));
    assert_eq!(s.find_containing_range(&19), Err(1));
    assert_eq!(s.find_containing_range(&26), Err(3));
    assert_eq!(s.find_containing_range(&u64::MAX), Err(3));
    assert_eq!(stage("a", "b", vec![]).find_containing_range(&5), Err(0));
}

#[test]
fn a_stage_moves_the_values_it_maps_and_keeps_the_others() {
    let s = soil();
    assert_eq!(s.to_destination(&79), 81);
    assert_eq!(s.to_destination(&14), 14);
    assert_eq!(s.to_destination(&55), 57);
    assert_eq!(s.to_destination(&13), 13);
    assert_eq!(s.to_destination(&98), 50);
    assert_eq!(s.to_destination(&99), 51);
    assert_eq!(s.to_destination(&100), 100);
    assert_eq!(s.to_destination(&49), 49);
}

#[test]
fn a_range_across_two_mappings_and_a_gap_gives_three_ranges() {
    let s = stage("a", "b", vec![(100, 10, 10), (5, 20, 10)]);
    assert_eq!(s.range_to_destination(&(12..35)), vec![102..110, 5..15, 30..35]);
}

#[test]
fn gaps_before_between_and_after_mappings_pass_unchanged() {
    let s = stage("a", "b", vec![(100, 10, 5), (200, 20, 5)]);
    assert_eq!(s.range_to_destination(&(0..5)), vec![0..5]);
    assert_eq!(s.range_to_destination(&(0..10)), vec![0..10]);
    assert_eq!(s.range_to_destination(&(0..12)), vec![0..10, 100..102]);
    assert_eq!(s.range_to_destination(&(16..18)), vec![16..18]);
    assert_eq!(
        s.range_to_destination(&(0..30)),
        vec![0..10, 100..105, 15..20, 200..205, 25..30]
    );
    assert_eq!(s.range_to_destination(&(25..30)), vec![25..30]);
    assert_eq!(s.range_to_destination(&(12..14)), vec![102..104]);
    assert_eq!(s.range_to_destination(&(14..21)), vec![104..105, 15..20, 200..201]);
    assert_eq!(stage("a", "b", vec![]).range_to_destination(&(3..9)), vec![3..9]);
}

#[test]
fn a_range_is_cut_where_two_mappings_meet() {
    let s = stage("a", "b", vec![(100, 10, 5), (105, 15, 5)]);
    assert_eq!(s.range_to_destination(&(12..18)), vec![102..105, 105..108]);
}

#[test]
fn an_empty_range_has_no_image() {
    let s = soil();
    assert_eq!(s.range_to_destination(&(60..60)), vec![]);
    assert_eq!(s.range_to_destination(&(70..60)), vec![]);
    assert_eq!(s.ranges_to_destination(vec![]), vec![]);
    assert_eq!(s.ranges_to_destination(vec![5..5, 60..62, 9..1]), vec![62..64]);
}

#[test]
fn a_range_that_ends_at_the_largest_value_is_moved_whole() {
    let s = stage("a", "b", vec![(0, u64::MAX - 4, 4)]);
    assert_eq!(
        s.range_to_destination(&(u64::MAX - 8..u64::MAX)),
        vec![u64::MAX - 8..u64::MAX - 4, 0..4]
    );
}

#[test]
fn the_image_of_ranges_comes_in_the_order_of_the_ranges() {
    let s = soil();
    assert_eq!(
        s.ranges_to_destination(vec![95..101, 0..3, 49..51]),
        vec![97..100, 50..52, 100..101, 0..3, 49..50, 52..53]
    );
}

#[test]
fn a_stage_keeps_the_length_of_a_range() {
    let s = stage("a", "b", vec![(100, 10, 5), (0, 20, 5), (7, 25, 1), (50, 26, 100)]);
    for range in [0..1000, 12..23, 0..10, 24..27, 126..130, 14..15] {
        let image = s.range_to_destination(&range);
        assert_eq!(total(&image), range.end - range.start);
        assert!(image.iter().all(|r| r.start < r.end));
    }
}

#[test]
fn a_value_goes_where_the_range_of_it_alone_starts() {
    let s = stage("a", "b", vec![(100, 10, 5), (0, 20, 5), (7, 25, 1)]);
    for v in [0u64, 9, 10, 12, 14, 15, 19, 20, 24, 25, 26, 1000] {
        let image = s.ranges_to_destination(vec![v..v + 1]);
        assert_eq!(image.len(), 1);
        assert_eq!(image[0].start, s.to_destination(&v));
        assert_eq!(image[0].end, s.to_destination(&v) + 1);
    }
}

#[test]
fn an_almanac_follows_the_names_from_seed_to_location() {
    let maps = vec![
        stage("soil", "location", vec![(0, 100, 10)]),
        stage("water", "light", vec![(5, 5, 5)]),
        stage("seed", "soil", vec![(100, 0, 10)]),
    ];
    let almanac = Almanac::new(maps).unwrap();
    assert_eq!(almanac.len(), 2);
    assert_eq!(almanac.seed_to_location(&3), 3);
    assert_eq!(almanac.seed_to_location(&10), 10);
    assert_eq!(almanac.seed_to_location(&105), 5);
    assert_eq!(almanac.seed_range_to_location(vec![8..12]), vec![10..12, 8..10]);
}

#[test]
fn the_later_of_two_stages_from_one_name_counts() {
    let maps = vec![
        stage("seed", "location", vec![(100, 0, 10)]),
        stage("seed", "location", vec![(200, 0, 10)]),
    ];
    let almanac = Almanac::new(maps).unwrap();
    assert_eq!(almanac.len(), 1);
    assert_eq!(almanac.seed_to_location(&3), 203);
}

#[test]
fn stages_that_do_not_reach_the_location_are_refused() {
    assert!(matches!(Almanac::new(vec![]), Err(AlmanacError::BrokenChain)));
    let no_seed = vec![stage("soil", "location", vec![])];
    assert!(matches!(Almanac::new(no_seed), Err(AlmanacError::BrokenChain)));
    let gap = vec![stage("seed", "soil", vec![]), stage("water", "location", vec![])];
    assert!(matches!(Almanac::new(gap), Err(AlmanacError::BrokenChain)));
    let circle = vec![
        stage("seed", "soil", vec![]),
        stage("soil", "seed", vec![]),
        stage("water", "location", vec![]),
    ];
    assert!(matches!(Almanac::new(circle), Err(AlmanacError::BrokenChain)));
    let itself = vec![stage("seed", "seed", vec![])];
    assert!(matches!(Almanac::new(itself), Err(AlmanacError::BrokenChain)));
}

#[test]
fn a_route_may_pass_every_stage() {
    let maps = vec![
        stage("c", "location", vec![(3, 2, 1)]),
        stage("b", "c", vec![(2, 1, 1)]),
        stage("a", "b", vec![(1, 0, 1)]),
        stage("seed", "a", vec![(0, 9, 1)]),
    ];
    let almanac = Almanac::new(maps).unwrap();
    assert_eq!(almanac.len(), 4);
    assert_eq!(almanac.seed_to_location(&9), 3);
    assert_eq!(almanac.seed_to_location(&0), 3);
    assert_eq!(almanac.seed_to_location(&4), 4);
}

#[test]
fn ranges_are_merged_before_each_stage_and_not_after_the_last() {
    let maps = vec![
        stage("seed", "soil", vec![(10, 0, 5)]),
        stage("soil", "location", vec![(100, 12, 100)]),
    ];
    let almanac = Almanac::new(maps).unwrap();
    assert_eq!(
        almanac.seed_range_to_location(vec![3..6, 0..4, 11..12]),
        vec![5..6, 10..12, 100..103]
    );
    assert_eq!(almanac.seed_range_to_location(vec![]), vec![]);
    assert_eq!(almanac.seed_range_to_location(vec![4..4]), vec![]);
}

#[test]
fn the_lowest_start_of_the_ranges_is_the_lowest_location_of_their_values() {
    let maps = vec![
        stage("seed", "soil", vec![(50, 98, 2), (52, 50, 48)]),
        stage("soil", "location", vec![(0, 15, 37), (37, 52, 2), (39, 0, 15)]),
    ];
    let almanac = Almanac::new(maps).unwrap();
    let seeds: Vec<u64> = (40..110).collect();
    let by_value = lowest_location(&almanac, &seeds);
    let by_range = lowest_location_in_ranges(&almanac, vec![40..110]);
    assert_eq!(by_value, by_range);
    assert_eq!(by_range, Some(25));
    assert_eq!(lowest_location(&almanac, &vec![]), None);
    assert_eq!(lowest_location_in_ranges(&almanac, vec![]), None);
}

#[test]
fn it_finds_the_least_value_and_the_least_start() {
    assert_eq!(lowest(&vec![82, 43, 86, 35]), Some(35));
    assert_eq!(lowest(&vec![7]), Some(7));
    assert_eq!(lowest(&vec![]), None);
    assert_eq!(lowest(&vec![0, u64::MAX]), Some(0));
    assert_eq!(lowest_start(&vec![60..61, 46..57, 82..85]), Some(46));
    assert_eq!(lowest_start(&vec![]), None);
}

#[test]
fn it_pairs_seeds_into_ranges() {
    assert_eq!(seed_ranges(&vec![79, 14, 55, 13]), Ok(vec![79..93, 55..68]));
    assert_eq!(seed_ranges(&vec![]), Ok(vec![]));
    assert_eq!(seed_ranges(&vec![5, 0]), Ok(vec![5..5]));
    assert_eq!(seed_ranges(&vec![79, 14, 55]), Err(AlmanacError::UnpairedSeed));
    assert_eq!(seed_ranges(&vec![u64::MAX, 1, 55]), Err(AlmanacError::Overflow));
    assert_eq!(seed_ranges(&vec![u64::MAX, 0]), Ok(vec![u64::MAX..u64::MAX]));
}
