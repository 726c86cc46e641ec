//! A network of nodes, each with a way to the left and a way to the
//! right, and a list of turns to take over and over: how many steps lead
//! from `AAA` to `ZZZ`?

use crate::error::PuzzleError;
use crate::pattern::{captures, groups_view, regex_captures, regex_compiles};
use crate::text::{chars_of, lines_of, split_lines, views};
use vstd::prelude::*;
use vstd::string::*;

verus! {

/// The day's solution.
pub struct Solution;

/// The pattern of a line that declares a node: its name, then in
/// brackets the names of the nodes to its left and to its right.
pub const ROUTE_PATTERN: &'static str = "(\\w+) = \\((\\w+), (\\w+)\\)";

/// Where the walk starts.
pub const START: &'static str = "AAA";

/// Where the walk ends.
pub const GOAL: &'static str = "ZZZ";

/// A node and its two neighbours.
pub struct Node {
    pub name: String,
    pub left: String,
    pub right: String,
}

/// What a node stands for.
pub struct NodeView {
    pub name: Seq<char>,
    pub left: Seq<char>,
    pub right: Seq<char>,
}

impl View for Node {
    type V = NodeView;

    open spec fn view(&self) -> NodeView {
        NodeView { name: self.name@, left: self.left@, right: self.right@ }
    }
}

/// What each node of `v` stands for.
pub open spec fn node_views(v: Seq<Node>) -> Seq<NodeView> {
    Seq::new(v.len(), |i: int| v[i]@)
}

/// The node in the groups of a match: its name and its two neighbours are
/// the first three capture groups.
pub open spec fn node_in(groups: Option<Seq<Option<Seq<char>>>>) -> Option<NodeView> {
    match groups {
        None => None,
        Some(list) => if list.len() > 3 && list[1] is Some && list[2] is Some && list[3] is Some {
            Some(
                NodeView {
                    name: list[1].unwrap(),
                    left: list[2].unwrap(),
                    right: list[3].unwrap(),
                },
            )
        } else {
            None
        },
    }
}

/// The node that `line` declares. There is none where the regex engine
/// refuses the pattern, whatever the line, and none where the line
/// declares no node.
pub open spec fn node_on(line: Seq<char>) -> Result<NodeView, PuzzleError> {
    if !regex_compiles(ROUTE_PATTERN@) {
        Err(PuzzleError::Pattern)
    } else {
        match node_in(regex_captures(ROUTE_PATTERN@, line)) {
            None => Err(PuzzleError::Malformed),
            Some(node) => Ok(node),
        }
    }
}

/// The nodes that `lines` declare, each line one. The first line that
/// declares none decides what is wrong.
pub open spec fn nodes_on(lines: Seq<Seq<char>>) -> Result<Seq<NodeView>, PuzzleError>
    decreases lines.len(),
{
    if lines.len() == 0 {
        Ok(Seq::empty())
    } else {
        match nodes_on(lines.drop_last()) {
            Err(e) => Err(e),
            Ok(before) => match node_on(lines.last()) {
                Err(e) => Err(e),
                Ok(node) => Ok(before.push(node)),
            },
        }
    }
}

/// The node called `name`: the last one declared, if several are.
pub open spec fn find_node(nodes: Seq<NodeView>, name: Seq<char>) -> Option<int>
    decreases nodes.len(),
{
    if nodes.len() == 0 {
        None
    } else if nodes.last().name == name {
        Some(nodes.len() - 1)
    } else {
        find_node(nodes.drop_last(), name)
    }
}

/// The number of steps to the goal from the node `at`, where `taken` steps
/// have been taken already and no more than `left` more are allowed. Step
/// `k` goes left where turn `k` of `turns`, taken round and round, is `L`,
/// and right where it is anything else.
pub open spec fn walk(
    nodes: Seq<NodeView>,
    turns: Seq<char>,
    at: Seq<char>,
    taken: int,
    left: nat,
) -> Result<int, PuzzleError>
    decreases left,
{
    if at == GOAL@ {
        Ok(taken)
    } else if left == 0 {
        Err(PuzzleError::Endless)
    } else if turns.len() == 0 {
        Err(PuzzleError::Malformed)
    } else {
        match find_node(nodes, at) {
            None => Err(PuzzleError::Malformed),
            Some(i) => if taken + 1 > u64::MAX {
                Err(PuzzleError::Overflow)
            } else {
                walk(
                    nodes,
                    turns,
                    if turns[taken % (turns.len() as int)] == 'L' {
                        nodes[i].left
                    } else {
                        nodes[i].right
                    },
                    taken + 1,
                    (left - 1) as nat,
                )
            },
        }
    }
}

/// The number of steps after which a walk is given up: one more than
/// there are pairs of a node and a place in the list of turns. A walk that
/// has not reached the goal by then never will.
pub open spec fn enough_steps(nodes: Seq<NodeView>, turns: Seq<char>) -> nat {
    nodes.len() * turns.len() + 1
}

/// The answer to the first part for `text`: the number of steps from the
/// start to the goal. The turns stand on the first line, the nodes from
/// the third line on.
pub open spec fn part_one_of(text: Seq<char>) -> Result<int, PuzzleError> {
    let lines = lines_of(text);
    if lines.len() == 0 {
        Err(PuzzleError::Malformed)
    } else {
        match nodes_on(
            if lines.len() < 2 {
                Seq::empty()
            } else {
                lines.skip(2)
            },
        ) {
            Err(e) => Err(e),
            Ok(nodes) => walk(nodes, lines[0], START@, 0, enough_steps(nodes, lines[0])),
        }
    }
}

/// A walk that comes to an end within `left` steps comes to the same end
/// with any larger number of steps allowed.
pub proof fn lemma_walk_settles(
    nodes: Seq<NodeView>,
    turns: Seq<char>,
    at: Seq<char>,
    taken: int,
    left: nat,
    more: nat,
)
    requires
        left <= more,
        walk(nodes, turns, at, taken, left) != Err::<int, PuzzleError>(PuzzleError::Endless),
    ensures
        walk(nodes, turns, at, taken, more) == walk(nodes, turns, at, taken, left),
    decreases left,
{
    if at != GOAL@ && left > 0 && turns.len() > 0 {
        match find_node(nodes, at) {
            None => {},
            Some(i) => {
                if taken + 1 <= u64::MAX {
                    let next = if turns[taken % (turns.len() as int)] == 'L' {
                        nodes[i].left
                    } else {
                        nodes[i].right
                    };
                    lemma_walk_settles(
                        nodes,
                        turns,
                        next,
                        taken + 1,
                        (left - 1) as nat,
                        (more - 1) as nat,
                    );
                }
            },
        }
    }
}

/// Where one step leads from the node `at` after `taken` steps, if the
/// node is declared and there are turns to take.
pub open spec fn next_of(nodes: Seq<NodeView>, turns: Seq<char>, at: Seq<char>, taken: int) -> Option<
    Seq<char>,
> {
    if turns.len() == 0 {
        None
    } else {
        match find_node(nodes, at) {
            None => None,
            Some(i) => Some(
                if turns[taken % (turns.len() as int)] == 'L' {
                    nodes[i].left
                } else {
                    nodes[i].right
                },
            ),
        }
    }
}

/// Where the walk stands after `k` steps, if it has neither reached the
/// goal nor lost its way before.
pub open spec fn place(nodes: Seq<NodeView>, turns: Seq<char>, k: nat) -> Option<Seq<char>>
    decreases k,
{
    if k == 0 {
        Some(START@)
    } else {
        match place(nodes, turns, (k - 1) as nat) {
            None => None,
            Some(at) => if at == GOAL@ {
                None
            } else {
                next_of(nodes, turns, at, k - 1)
            },
        }
    }
}

/// The walk goes on for ever: at every step it stands at a node that is
/// not the goal.
pub open spec fn goes_on(nodes: Seq<NodeView>, turns: Seq<char>, upto: int) -> bool {
    forall|k: nat|
        k <= upto ==> (#[trigger] place(nodes, turns, k)) is Some && place(nodes, turns, k).unwrap()
            != GOAL@
}

/// The node found for a name is declared and has that name.
proof fn lemma_find_node(nodes: Seq<NodeView>, name: Seq<char>)
    ensures
        find_node(nodes, name) matches Some(i) ==> 0 <= i < nodes.len() && nodes[i].name == name,
    decreases nodes.len(),
{
    if nodes.len() > 0 && nodes.last().name != name {
        lemma_find_node(nodes.drop_last(), name);
    }
}

/// A walk that is given up has stood, at each of its steps, at a node
/// that is not the goal, and it went on from a declared node.
proof fn lemma_given_up_places(
    nodes: Seq<NodeView>,
    turns: Seq<char>,
    at: Seq<char>,
    taken: nat,
    left: nat,
    d: nat,
)
    requires
        place(nodes, turns, taken) == Some(at),
        walk(nodes, turns, at, taken as int, left) == Err::<int, PuzzleError>(PuzzleError::Endless),
        d <= left,
    ensures
        place(nodes, turns, taken + d) is Some,
        place(nodes, turns, taken + d).unwrap() != GOAL@,
        d < left ==> turns.len() > 0 && find_node(
            nodes,
            place(nodes, turns, taken + d).unwrap(),
        ) is Some,
    decreases left,
{
    if left > 0 {
        let next = next_of(nodes, turns, at, taken as int).unwrap();
        assert(place(nodes, turns, taken + 1) == Some(next));
        if d > 0 {
            lemma_given_up_places(
                nodes,
                turns,
                next,
                taken + 1,
                (left - 1) as nat,
                (d - 1) as nat,
            );
        }
    }
}

/// From two steps at which the walk stands at one node at the same place
/// in the turns, it goes the same way.
proof fn lemma_same_way(nodes: Seq<NodeView>, turns: Seq<char>, i: nat, j: nat, d: nat)
    requires
        turns.len() > 0,
        place(nodes, turns, i) == place(nodes, turns, j),
        i % turns.len() == j % turns.len(),
    ensures
        place(nodes, turns, i + d) == place(nodes, turns, j + d),
    decreases d,
{
    if d > 0 {
        lemma_same_way(nodes, turns, i, j, (d - 1) as nat);
        let length = turns.len() as int;
        vstd::arithmetic::div_mod::lemma_add_mod_noop(i as int, d - 1, length);
        vstd::arithmetic::div_mod::lemma_add_mod_noop(j as int, d - 1, length);
        assert((i + d - 1) % length == (j + d - 1) % length);
    }
}

/// A walk that stands at one node at the same place in the turns twice,
/// without having reached the goal till then, goes on for ever.
proof fn lemma_round_and_round(nodes: Seq<NodeView>, turns: Seq<char>, i: nat, j: nat, k: nat)
    requires
        turns.len() > 0,
        i < j,
        place(nodes, turns, i) == place(nodes, turns, j),
        i % turns.len() == j % turns.len(),
        goes_on(nodes, turns, j as int),
    ensures
        place(nodes, turns, k) is Some,
        place(nodes, turns, k).unwrap() != GOAL@,
    decreases k,
{
    if k > j {
        lemma_same_way(nodes, turns, i, j, (k - j) as nat);
        lemma_round_and_round(nodes, turns, i, j, (i + k - j) as nat);
    }
}

/// A walk that goes on for ever comes to no end, however many steps are
/// allowed: it is given up, or its steps can no longer be counted.
proof fn lemma_no_end(nodes: Seq<NodeView>, turns: Seq<char>, at: Seq<char>, taken: nat, left: nat)
    requires
        place(nodes, turns, taken) == Some(at),
        forall|k: nat|
            (#[trigger] place(nodes, turns, k)) is Some && place(nodes, turns, k).unwrap() != GOAL@,
    ensures
        walk(nodes, turns, at, taken as int, left) == Err::<int, PuzzleError>(PuzzleError::Endless)
            || walk(nodes, turns, at, taken as int, left) == Err::<int, PuzzleError>(
            PuzzleError::Overflow,
        ),
    decreases left,
{
    assert(place(nodes, turns, taken).unwrap() != GOAL@);
    if left > 0 {
        assert(place(nodes, turns, taken + 1) is Some);
        if taken + 1 <= u64::MAX {
            let next = next_of(nodes, turns, at, taken as int).unwrap();
            lemma_no_end(nodes, turns, next, taken + 1, (left - 1) as nat);
        }
    }
}

/// What tells the state of the walk after `k` steps: the node it stands
/// at and its place in the turns, as one number.
spec fn state(nodes: Seq<NodeView>, turns: Seq<char>, k: int) -> int {
    find_node(nodes, place(nodes, turns, k as nat).unwrap()).unwrap() * turns.len() + k % (
    turns.len() as int)
}

/// A walk that is given up after as many steps as are enough would never
/// have come to an end: with more steps allowed it is given up too, or its
/// steps can no longer be counted.
pub proof fn lemma_given_up_for_good(nodes: Seq<NodeView>, turns: Seq<char>, more: nat)
    requires
        walk(nodes, turns, START@, 0, enough_steps(nodes, turns)) == Err::<int, PuzzleError>(
            PuzzleError::Endless,
        ),
    ensures
        walk(nodes, turns, START@, 0, more) == Err::<int, PuzzleError>(PuzzleError::Endless)
            || walk(nodes, turns, START@, 0, more) == Err::<int, PuzzleError>(
            PuzzleError::Overflow,
        ),
{
    let count = nodes.len() as int;
    let length = turns.len() as int;
    let limit = enough_steps(nodes, turns);
    lemma_given_up_places(nodes, turns, START@, 0, limit, 0);
    assert(length > 0);
    let states = Seq::new((count * length + 1) as nat, |k: int| state(nodes, turns, k));
    let all = vstd::set_lib::set_int_range(0, count * length);
    assert forall|k: int| 0 <= k < states.len() implies 0 <= #[trigger] states[k] < count
        * length by {
        lemma_given_up_places(nodes, turns, START@, 0, limit, k as nat);
        let at = place(nodes, turns, k as nat).unwrap();
        lemma_find_node(nodes, at);
        let i = find_node(nodes, at).unwrap();
        vstd::arithmetic::div_mod::lemma_mod_bound(k, length);
        assert(i * length + k % length < count * length) by (nonlinear_arith)
            requires
                0 <= i < count,
                0 <= k % length < length,
        ;
        assert(0 <= i * length) by (nonlinear_arith)
            requires
                0 <= i,
                0 < length,
        ;
    }
    if states.no_duplicates() {
        states.unique_seq_to_set();
        vstd::set_lib::lemma_int_range(0, count * length);
        assert forall|x: int| states.to_set().contains(x) implies all.contains(x) by {
            let k = choose|k: int| 0 <= k < states.len() && states[k] == x;
            assert(0 <= states[k] < count * length);
        }
        vstd::set_lib::lemma_len_subset(states.to_set(), all);
    } else {
        let (i, j) = choose|i: int, j: int|
            0 <= i < states.len() && 0 <= j < states.len() && i != j && states[i] == states[j];
        let (i, j) = if i < j {
            (i, j)
        } else {
            (j, i)
        };
        lemma_given_up_places(nodes, turns, START@, 0, limit, i as nat);
        lemma_given_up_places(nodes, turns, START@, 0, limit, j as nat);
        let at_i = place(nodes, turns, i as nat).unwrap();
        let at_j = place(nodes, turns, j as nat).unwrap();
        lemma_find_node(nodes, at_i);
        lemma_find_node(nodes, at_j);
        let x = find_node(nodes, at_i).unwrap();
        let y = find_node(nodes, at_j).unwrap();
        vstd::arithmetic::div_mod::lemma_mod_bound(i, length);
        vstd::arithmetic::div_mod::lemma_mod_bound(j, length);
        vstd::arithmetic::div_mod::lemma_fundamental_div_mod_converse(
            states[i],
            length,
            x,
            i % length,
        );
        vstd::arithmetic::div_mod::lemma_fundamental_div_mod_converse(
            states[j],
            length,
            y,
            j % length,
        );
        assert(x == y && i % length == j % length);
        assert(at_i == at_j);
        assert(goes_on(nodes, turns, j)) by {
            assert forall|k: nat| k <= j implies (#[trigger] place(nodes, turns, k)) is Some
                && place(nodes, turns, k).unwrap() != GOAL@ by {
                lemma_given_up_places(nodes, turns, START@, 0, limit, k);
            }
        }
        assert forall|k: nat|
            (#[trigger] place(nodes, turns, k)) is Some && place(nodes, turns, k).unwrap()
                != GOAL@ by {
            lemma_round_and_round(nodes, turns, i as nat, j as nat, k);
        }
        lemma_no_end(nodes, turns, START@, 0, more);
    }
}

/// The node that a match captured.
pub fn route_of(groups: &Option<Vec<Option<String>>>) -> (node: Option<Node>)
    ensures
        match node {
            Some(n) => node_in(groups_view(*groups)) == Some(n@),
            None => node_in(groups_view(*groups)) is None,
        },
{
    match groups {
        None => None,
        Some(list) => {
            if list.len() > 3 {
                match (&list[1], &list[2], &list[3]) {
                    (Some(name), Some(left), Some(right)) => Some(
                        Node { name: name.clone(), left: left.clone(), right: right.clone() },
                    ),
                    _ => None,
                }
            } else {
                None
            }
        },
    }
}

/// Reads `line` as the declaration of a node.
fn parse_node(line: &Vec<char>) -> (node: Result<Node, PuzzleError>)
    ensures
        match node {
            Ok(n) => node_on(line@) == Ok::<NodeView, PuzzleError>(n@),
            Err(e) => node_on(line@) == Err::<NodeView, PuzzleError>(e),
        },
{
    match captures(ROUTE_PATTERN, line) {
        Err(_) => Err(PuzzleError::Pattern),
        Ok(groups) => match route_of(&groups) {
            None => Err(PuzzleError::Malformed),
            Some(node) => Ok(node),
        },
    }
}

/// What is wrong with the first `k` lines is what is wrong with all of them.
proof fn lemma_nodes_fail(lines: Seq<Seq<char>>, k: int)
    requires
        0 <= k <= lines.len(),
        nodes_on(lines.take(k)) is Err,
    ensures
        nodes_on(lines) == nodes_on(lines.take(k)),
    decreases lines.len() - k,
{
    if k < lines.len() {
        assert(lines.take(k + 1).drop_last() == lines.take(k));
        lemma_nodes_fail(lines, k + 1);
    } else {
        assert(lines.take(k) == lines);
    }
}

/// The index of the node called `name`.
pub fn find_index(nodes: &Vec<Node>, name: &String) -> (found: Option<usize>)
    ensures
        match found {
            Some(i) => find_node(node_views(nodes@), name@) == Some(i as int) && i < nodes.len(),
            None => find_node(node_views(nodes@), name@) is None,
        },
{
    let ghost all = node_views(nodes@);
    let mut i: usize = nodes.len();
    proof {
        assert(all.take(i as int) == all);
    }
    while i > 0
        invariant
            i <= nodes.len(),
            all == node_views(nodes@),
            find_node(all, name@) == find_node(all.take(i as int), name@),
        decreases i,
    {
        i = i - 1;
        proof {
            assert(all.take(i + 1).last() == nodes[i as int]@);
            assert(all.take(i + 1).drop_last() == all.take(i as int));
        }
        if nodes[i].name == *name {
            return Some(i);
        }
    }
    None
}

/// The number of steps from the start to the goal through `nodes`,
/// taking `turns` round and round.
pub fn count_steps(nodes: &Vec<Node>, turns: &Vec<char>) -> (steps: Result<u64, PuzzleError>)
    ensures
        match steps {
            Ok(n) => walk(
                node_views(nodes@),
                turns@,
                START@,
                0,
                enough_steps(node_views(nodes@), turns@),
            ) == Ok::<int, PuzzleError>(n as int),
            Err(e) => walk(
                node_views(nodes@),
                turns@,
                START@,
                0,
                enough_steps(node_views(nodes@), turns@),
            ) == Err::<int, PuzzleError>(e),
        },
{
    let start = String::from_str(START);
    let goal = String::from_str(GOAL);
    let ghost all = node_views(nodes@);
    let count = nodes.len() as u128;
    let length = turns.len() as u128;
    assert(count * length <= 0xffff_ffff_ffff_ffff * 0xffff_ffff_ffff_ffff) by (nonlinear_arith)
        requires
            0 <= count <= 0xffff_ffff_ffff_ffff,
            0 <= length <= 0xffff_ffff_ffff_ffff,
    ;
    let mut left: u128 = count * length + 1;
    let mut taken: u64 = 0;
    let mut at: &String = &start;
    loop
        invariant_except_break
            all == node_views(nodes@),
            goal@ == GOAL@,
            walk(all, turns@, START@, 0, enough_steps(all, turns@)) == walk(
                all,
                turns@,
                at@,
                taken as int,
                left as nat,
            ),
        ensures
            at@ == GOAL@,
            walk(all, turns@, START@, 0, enough_steps(all, turns@)) == Ok::<int, PuzzleError>(
                taken as int,
            ),
        decreases left,
    {
        if *at == goal {
            break ;
        }
        if left == 0 {
            return Err(PuzzleError::Endless);
        }
        if turns.len() == 0 {
            return Err(PuzzleError::Malformed);
        }
        let i = match find_index(nodes, at) {
            None => {
                return Err(PuzzleError::Malformed);
            },
            Some(i) => i,
        };
        let turn = turns[(taken % (turns.len() as u64)) as usize];
        let next = match taken.checked_add(1) {
            None => {
                return Err(PuzzleError::Overflow);
            },
            Some(n) => n,
        };
        assert(all[i as int] == nodes[i as int]@);
        at = if turn == 'L' {
            &nodes[i].left
        } else {
            &nodes[i].right
        };
        taken = next;
        left = left - 1;
    }
    Ok(taken)
}

/// The number of steps from `AAA` to `ZZZ`.
pub fn part_one(input: &str) -> (answer: Result<u64, PuzzleError>)
    ensures
        match answer {
            Ok(steps) => part_one_of(input@) == Ok::<int, PuzzleError>(steps as int),
            Err(e) => part_one_of(input@) == Err::<int, PuzzleError>(e),
        },
{
    let text = chars_of(input);
    let lines = split_lines(&text);
    if lines.len() == 0 {
        return Err(PuzzleError::Malformed);
    }
    let ghost all = views(lines@);
    let ghost rest = if lines.len() < 2 {
        Seq::<Seq<char>>::empty()
    } else {
        all.skip(2)
    };
    let mut nodes: Vec<Node> = Vec::new();
    let mut i: usize = 2;
    proof {
        assert(rest.take(0) =~= Seq::<Seq<char>>::empty());
        assert(node_views(nodes@) =~= Seq::<NodeView>::empty());
    }
    while i < lines.len()
        invariant
            2 <= i,
            i <= lines.len() || (lines.len() < 2 && i == 2),
            all == views(lines@),
            all == lines_of(input@),
            rest == if lines.len() < 2 {
                Seq::<Seq<char>>::empty()
            } else {
                all.skip(2)
            },
            nodes_on(rest.take(i - 2)) == Ok::<Seq<NodeView>, PuzzleError>(node_views(nodes@)),
        decreases lines.len() - i,
    {
        proof {
            assert(rest.take(i - 1).drop_last() == rest.take(i - 2));
            assert(rest.take(i - 1).last() == lines[i as int]@);
        }
        let ghost before = node_views(nodes@);
        match parse_node(&lines[i]) {
            Err(e) => {
                proof {
                    lemma_nodes_fail(rest, i - 1);
                }
                return Err(e);
            },
            Ok(node) => {
                let ghost shown = node@;
                nodes.push(node);
                proof {
                    assert(node_views(nodes@) =~= before.push(shown));
                }
            },
        }
        i = i + 1;
    }
    proof {
        assert(rest.take(i - 2) =~= rest);
        assert(all[0] == lines[0]@);
    }
    count_steps(&nodes, &lines[0])
}

/// The second part has no solution yet: its answer is always zero.
pub fn part_two(input: &str) -> (answer: Result<u64, PuzzleError>)
    ensures
        answer == Ok::<u64, PuzzleError>(0),
{
    Ok(0)
}

impl crate::solution::Solution for Solution {
    type Answer = Result<u64, PuzzleError>;

    open spec fn answers_part_one(text: Seq<char>, answer: Result<u64, PuzzleError>) -> bool {
        match answer {
            Ok(steps) => part_one_of(text) == Ok::<int, PuzzleError>(steps as int),
            Err(e) => part_one_of(text) == Err::<int, PuzzleError>(e),
        }
    }

    open spec fn answers_part_two(text: Seq<char>, answer: Result<u64, PuzzleError>) -> bool {
        answer == Ok::<u64, PuzzleError>(0)
    }

    fn part_one(&self, input: &str) -> (answer: Result<u64, PuzzleError>) {
        part_one(input)
    }

    fn part_two(&self, input: &str) -> (answer: Result<u64, PuzzleError>) {
        part_two(input)
    }
}

} // verus!
