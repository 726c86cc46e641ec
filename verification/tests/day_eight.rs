use advent::day_eight::{count_steps, find_index, part_one, part_two, route_of, Node, Solution};
use advent::error::PuzzleError;
use advent::solution::Solution as Day;

fn test_input_one() -> &'static str {
    "RL

AAA = (BBB, CCC)
BBB = (DDD, EEE)
CCC = (ZZZ, GGG)
DDD = (DDD, DDD)
EEE = (EEE, EEE)
GGG = (GGG, GGG)
ZZZ = (ZZZ, ZZZ)"
}

fn test_input_two() -> &'static str {
    "LLR

AAA = (BBB, BBB)
BBB = (AAA, ZZZ)
ZZZ = (ZZZ, ZZZ)"
}

fn node(name: &str, left: &str, right: &str) -> Node {
    Node { name: name.to_string(), left: left.to_string(), right: right.to_string() }
}

fn chars(s: &str) -> Vec<char> {
    s.chars().collect()
}

#[test]
fn it_passes_first_example() {
    let result = part_one(test_input_one());
    assert_eq!(result, Ok(2));
}

#[test]
fn it_passes_second_example() {
    let result = part_one(test_input_two());
    assert_eq!(result, Ok(6));
}

#[test]
fn the_network_solution_answers_as_the_functions_do() {
    assert_eq!(Solution.part_one(test_input_two()), Ok(6));
    assert_eq!(Solution.part_two(test_input_two()), Ok(0));
    assert_eq!(part_two(test_input_one()), Ok(0));
}

#[test]
fn it_reads_a_node_from_the_groups_of_a_match() {
    let groups = Some(vec![
        Some("AAA = (BBB, CCC)".to_string()),
        Some("AAA".to_string()),
        Some("BBB".to_string()),
        Some("CCC".to_string()),
    ]);
    let found = route_of(&groups).unwrap();
    assert_eq!(found.name, "AAA");
    assert_eq!(found.left, "BBB");
    assert_eq!(found.right, "CCC");
    assert!(route_of(&None).is_none());
    assert!(route_of(&Some(vec![Some("x".to_string())])).is_none());
    let gap = Some(vec![
        Some("x".to_string()),
        Some("AAA".to_string()),
        None,
        Some("CCC".to_string()),
    ]);
    assert!(route_of(&gap).is_none());
}

#[test]
fn the_last_declaration_of_a_node_counts() {
    let nodes = vec![node("AAA", "AAA", "AAA"), node("BBB", "ZZZ", "ZZZ"), node("AAA", "BBB", "BBB")];
    assert_eq!(find_index(&nodes, &"AAA".to_string()), Some(2));
    assert_eq!(find_index(&nodes, &"BBB".to_string()), Some(1));
    assert_eq!(find_index(&nodes, &"CCC".to_string()), None);
    assert_eq!(count_steps(&nodes, &chars("L")), Ok(2));
    assert_eq!(part_one("L\n\nAAA = (AAA, AAA)\nBBB = (ZZZ, ZZZ)\nAAA = (BBB, BBB)"), Ok(2));
}

#[test]
fn a_walk_that_never_reaches_the_goal_is_endless() {
    let nodes = vec![node("AAA", "BBB", "BBB"), node("BBB", "AAA", "AAA"), node("ZZZ", "ZZZ", "ZZZ")];
    assert_eq!(count_steps(&nodes, &chars("LR")), Err(PuzzleError::Endless));
    assert_eq!(
        part_one("LR\n\nAAA = (BBB, BBB)\nBBB = (AAA, AAA)"),
        Err(PuzzleError::Endless)
    );
}

#[test]
fn a_long_walk_that_reaches_the_goal_is_counted() {
    let nodes = vec![node("AAA", "AAA", "BBB"), node("BBB", "AAA", "ZZZ")];
    assert_eq!(count_steps(&nodes, &chars("LLRLR")), Err(PuzzleError::Endless));
    assert_eq!(count_steps(&nodes, &chars("LLLLLLLRR")), Ok(9));
    let far = vec![node("AAA", "BBB", "BBB"), node("BBB", "AAA", "ZZZ")];
    assert_eq!(count_steps(&far, &chars("LLLR")), Ok(4));
    assert_eq!(count_steps(&far, &chars("LLLLLR")), Ok(6));
}

#[test]
fn a_way_to_a_node_that_is_not_declared_is_refused() {
    let nodes = vec![node("AAA", "BBB", "CCC")];
    assert_eq!(count_steps(&nodes, &chars("L")), Err(PuzzleError::Malformed));
    assert_eq!(count_steps(&vec![], &chars("L")), Err(PuzzleError::Malformed));
    assert_eq!(part_one("L\n\nAAA = (BBB, CCC)"), Err(PuzzleError::Malformed));
}

#[test]
fn a_walk_without_turns_is_refused() {
    let nodes = vec![node("AAA", "ZZZ", "ZZZ")];
    assert_eq!(count_steps(&nodes, &chars("")), Err(PuzzleError::Malformed));
    assert_eq!(part_one("\n\nAAA = (ZZZ, ZZZ)"), Err(PuzzleError::Malformed));
    assert_eq!(part_one(""), Err(PuzzleError::Malformed));
}

#[test]
fn whatever_is_no_left_turn_is_a_right_turn() {
    let nodes = vec![node("AAA", "AAA", "ZZZ")];
    assert_eq!(count_steps(&nodes, &chars("x")), Ok(1));
    assert_eq!(count_steps(&nodes, &chars("LLx")), Ok(3));
}

#[test]
fn a_line_that_declares_no_node_is_refused() {
    assert_eq!(part_one("L\n\nAAA = (ZZZ, ZZZ)\nnonsense"), Err(PuzzleError::Malformed));
    assert_eq!(part_one("L\n\nAAA = (ZZZ, ZZZ)\n"), Ok(1));
    assert_eq!(part_one("L\nthis line is skipped\nAAA = (ZZZ, ZZZ)"), Ok(1));
    assert_eq!(part_one("L\n\nAAA = (ZZZ, ZZZ)\n\n"), Err(PuzzleError::Malformed));
}
