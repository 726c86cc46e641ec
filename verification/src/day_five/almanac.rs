//! An almanac: the stages that lead from the origin domain to the terminal
//! domain, found once when the almanac is made, and the queries that send
//! values and intervals through them.

use crate::day_five::error::AlmanacError;
use crate::day_five::coverage::lemma_normalize_total_le;
use crate::day_five::piecewise::{fragments_of, image, lemma_fragments_of_are_image, lemma_fragments_of_not_empty, lemma_stage_keeps_total_len, reached, table_wf};
use crate::day_five::ranges::{combine_ranges, covers, lemma_normalize, normalize, total_len};
use crate::day_five::stage::{RangeMap, StageView};
use std::ops::Range;
use vstd::prelude::*;
use vstd::set_lib::{lemma_int_range, lemma_len_subset, set_int_range};
use vstd::string::*;

verus! {

/// The domain that every query starts in.
pub const ORIGIN: &'static str = "seed";

/// The domain that every query ends in.
pub const TERMINAL: &'static str = "location";

/// The declared stages and the route through them.
pub struct Almanac {
    maps: Vec<RangeMap>,
    chain: Vec<usize>,
}

/// What each stage of `maps` stands for.
pub open spec fn stage_views(maps: Seq<RangeMap>) -> Seq<StageView> {
    Seq::new(maps.len(), |i: int| maps[i]@)
}

/// The stage that maps from `name`: the last one declared, if several do.
pub open spec fn find_stage(stages: Seq<StageView>, name: Seq<char>) -> Option<int>
    decreases stages.len(),
{
    if stages.len() == 0 {
        None
    } else if stages.last().source_name == name {
        Some(stages.len() - 1)
    } else {
        find_stage(stages.drop_last(), name)
    }
}

/// The stages to pass, in order, from the domain `name` to the domain
/// `terminal`, each found by the name that the one before it leads to;
/// `None` if a name has no stage or `steps` stages do not reach `terminal`.
pub open spec fn chain_from(
    stages: Seq<StageView>,
    name: Seq<char>,
    terminal: Seq<char>,
    steps: nat,
) -> Option<Seq<int>>
    decreases steps,
{
    if steps == 0 {
        None
    } else {
        match find_stage(stages, name) {
            None => None,
            Some(i) => if stages[i].dest_name == terminal {
                Some(seq![i])
            } else {
                match chain_from(stages, stages[i].dest_name, terminal, (steps - 1) as nat) {
                    None => None,
                    Some(rest) => Some(seq![i] + rest),
                }
            },
        }
    }
}

/// The route from the origin to the terminal domain. A route never passes a
/// stage twice, so it has at most as many steps as there are stages.
pub open spec fn route_of(stages: Seq<StageView>) -> Option<Seq<int>> {
    chain_from(stages, ORIGIN@, TERMINAL@, stages.len())
}

/// The stages of `stages` that `chain` names, in its order.
pub open spec fn along(stages: Seq<StageView>, chain: Seq<int>) -> Seq<StageView> {
    Seq::new(chain.len(), |k: int| stages[chain[k]])
}

/// Every table on the route is well formed.
pub open spec fn route_wf(route: Seq<StageView>) -> bool {
    forall|k: int| 0 <= k < route.len() ==> table_wf((#[trigger] route[k]).pairs)
}

/// Where `v` ends up after every stage of `route`, taken in order.
pub open spec fn resolve(route: Seq<StageView>, v: int) -> int
    decreases route.len(),
{
    if route.len() == 0 {
        v
    } else {
        image(route.last().pairs, resolve(route.drop_last(), v))
    }
}

/// Where the intervals `s` end up after every stage of `route`: before
/// each stage they are normalized, then split and moved by it. What the
/// last stage gives is left as it is.
pub open spec fn resolve_ranges(route: Seq<StageView>, s: Seq<Range<u64>>) -> Seq<Range<u64>>
    decreases route.len(),
{
    if route.len() == 0 {
        s
    } else {
        fragments_of(route.last().pairs, normalize(resolve_ranges(route.drop_last(), s)))
    }
}

/// Some value that `s` covers ends up at `w`.
pub open spec fn arrives(route: Seq<StageView>, s: Seq<Range<u64>>, w: int) -> bool {
    exists|v: int| covers(s, v) && #[trigger] resolve(route, v) == w
}

/// Sending intervals through a route gives intervals that cover where the
/// covered values end up one by one, and nothing else.
pub proof fn lemma_ranges_follow_values(route: Seq<StageView>, s: Seq<Range<u64>>, w: int)
    requires
        route_wf(route),
    ensures
        covers(resolve_ranges(route, s), w) <==> arrives(route, s, w),
    decreases route.len(),
{
    if route.len() == 0 {
        if arrives(route, s, w) {
            let v = choose|v: int| covers(s, v) && #[trigger] resolve(route, v) == w;
            assert(covers(s, w));
        }
        if covers(s, w) {
            assert(resolve(route, w) == w);
        }
    } else {
        let table = route.last().pairs;
        let earlier = route.drop_last();
        let before = resolve_ranges(earlier, s);
        let tidy = normalize(before);
        assert(table_wf(route[route.len() - 1].pairs));
        assert forall|k: int| 0 <= k < earlier.len() implies table_wf(
            (#[trigger] earlier[k]).pairs,
        ) by {
            assert(earlier[k] == route[k]);
        }
        lemma_fragments_of_are_image(table, tidy, w);
        lemma_normalize(before);
        if reached(table, tidy, w) {
            let u = choose|u: int| covers(tidy, u) && #[trigger] image(table, u) == w;
            assert(covers(before, u));
            lemma_ranges_follow_values(earlier, s, u);
            let v = choose|v: int| covers(s, v) && #[trigger] resolve(earlier, v) == u;
            assert(covers(s, v) && resolve(route, v) == w);
        }
        if arrives(route, s, w) {
            let v = choose|v: int| covers(s, v) && #[trigger] resolve(route, v) == w;
            let u = resolve(earlier, v);
            lemma_ranges_follow_values(earlier, s, u);
            assert(arrives(earlier, s, u));
            assert(covers(before, u));
            assert(covers(tidy, u) && image(table, u) == w);
        }
    }
}

/// No interval that comes out of a route is empty.
pub proof fn lemma_route_gives_no_empty(route: Seq<StageView>, s: Seq<Range<u64>>, k: int)
    requires
        route_wf(route),
        route.len() > 0,
        0 <= k < resolve_ranges(route, s).len(),
    ensures
        resolve_ranges(route, s)[k].start < resolve_ranges(route, s)[k].end,
{
    assert(table_wf(route[route.len() - 1].pairs));
    lemma_fragments_of_not_empty(
        route.last().pairs,
        normalize(resolve_ranges(route.drop_last(), s)),
        k,
    );
}

/// A route never makes intervals longer in total: each stage keeps the
/// length of what it is handed, and normalizing before it can only merge.
pub proof fn lemma_route_never_lengthens(route: Seq<StageView>, s: Seq<Range<u64>>)
    requires
        route_wf(route),
    ensures
        total_len(resolve_ranges(route, s)) <= total_len(s),
    decreases route.len(),
{
    if route.len() > 0 {
        let earlier = route.drop_last();
        let before = resolve_ranges(earlier, s);
        assert(table_wf(route[route.len() - 1].pairs));
        assert forall|k: int| 0 <= k < earlier.len() implies table_wf(
            (#[trigger] earlier[k]).pairs,
        ) by {
            assert(earlier[k] == route[k]);
        }
        lemma_route_never_lengthens(earlier, s);
        lemma_normalize_total_le(before);
        lemma_stage_keeps_total_len(route.last().pairs, normalize(before));
    }
}

/// The stage found for a name is one of the stages and maps from that name.
pub proof fn lemma_find_stage(stages: Seq<StageView>, name: Seq<char>)
    ensures
        find_stage(stages, name) matches Some(i) ==> 0 <= i < stages.len()
            && stages[i].source_name == name,
    decreases stages.len(),
{
    if stages.len() > 0 && stages.last().source_name != name {
        lemma_find_stage(stages.drop_last(), name);
    }
}

/// A chain found within `steps` steps is not empty and no longer than `steps`.
pub proof fn lemma_chain_len(
    stages: Seq<StageView>,
    name: Seq<char>,
    terminal: Seq<char>,
    steps: nat,
)
    requires
        chain_from(stages, name, terminal, steps) is Some,
    ensures
        1 <= chain_from(stages, name, terminal, steps).unwrap().len() <= steps,
    decreases steps,
{
    let i = find_stage(stages, name).unwrap();
    if stages[i].dest_name != terminal {
        lemma_chain_len(stages, stages[i].dest_name, terminal, (steps - 1) as nat);
    }
}

/// A chain found within `steps` steps is found again with any number of
/// steps that is at least its length.
pub proof fn lemma_chain_settles(
    stages: Seq<StageView>,
    name: Seq<char>,
    terminal: Seq<char>,
    steps: nat,
    other: nat,
)
    requires
        chain_from(stages, name, terminal, steps) is Some,
        other >= chain_from(stages, name, terminal, steps).unwrap().len(),
    ensures
        chain_from(stages, name, terminal, other) == chain_from(stages, name, terminal, steps),
    decreases steps,
{
    let i = find_stage(stages, name).unwrap();
    if stages[i].dest_name != terminal {
        lemma_chain_settles(
            stages,
            stages[i].dest_name,
            terminal,
            (steps - 1) as nat,
            (other - 1) as nat,
        );
    }
}

/// What follows step `p` of a chain is the chain from the domain that
/// step `p` maps from, and that step is one of the stages.
pub proof fn lemma_chain_suffix(
    stages: Seq<StageView>,
    name: Seq<char>,
    terminal: Seq<char>,
    steps: nat,
    p: int,
)
    requires
        chain_from(stages, name, terminal, steps) is Some,
        0 <= p < chain_from(stages, name, terminal, steps).unwrap().len(),
    ensures
        0 <= chain_from(stages, name, terminal, steps).unwrap()[p] < stages.len(),
        p < steps,
        chain_from(
            stages,
            stages[chain_from(stages, name, terminal, steps).unwrap()[p]].source_name,
            terminal,
            (steps - p) as nat,
        ) == Some(chain_from(stages, name, terminal, steps).unwrap().skip(p)),
    decreases steps,
{
    let chain = chain_from(stages, name, terminal, steps).unwrap();
    let i = find_stage(stages, name).unwrap();
    lemma_find_stage(stages, name);
    if p == 0 {
        assert(chain[0] == i);
        assert(chain.skip(0) =~= chain);
    } else {
        let rest = chain_from(stages, stages[i].dest_name, terminal, (steps - 1) as nat).unwrap();
        assert(chain =~= seq![i] + rest);
        lemma_chain_suffix(stages, stages[i].dest_name, terminal, (steps - 1) as nat, p - 1);
        assert(chain[p] == rest[p - 1]);
        assert(chain.skip(p) =~= rest.skip(p - 1));
    }
}

/// A chain passes no stage twice.
pub proof fn lemma_chain_distinct(
    stages: Seq<StageView>,
    name: Seq<char>,
    terminal: Seq<char>,
    steps: nat,
    p: int,
    q: int,
)
    requires
        chain_from(stages, name, terminal, steps) is Some,
        0 <= p < q < chain_from(stages, name, terminal, steps).unwrap().len(),
    ensures
        chain_from(stages, name, terminal, steps).unwrap()[p] != chain_from(
            stages,
            name,
            terminal,
            steps,
        ).unwrap()[q],
{
    let chain = chain_from(stages, name, terminal, steps).unwrap();
    if chain[p] == chain[q] {
        lemma_chain_suffix(stages, name, terminal, steps, p);
        lemma_chain_suffix(stages, name, terminal, steps, q);
        let from = stages[chain[p]].source_name;
        lemma_chain_len(stages, from, terminal, (steps - q) as nat);
        lemma_chain_settles(stages, from, terminal, (steps - q) as nat, (steps - p) as nat);
        assert(chain.skip(p).len() != chain.skip(q).len());
    }
}

/// Following the names for more steps than there are stages finds no
/// route that as many steps as there are stages do not find.
pub proof fn lemma_route_steps_suffice(stages: Seq<StageView>, steps: nat)
    requires
        steps >= stages.len(),
    ensures
        chain_from(stages, ORIGIN@, TERMINAL@, steps) == route_of(stages),
{
    let found = chain_from(stages, ORIGIN@, TERMINAL@, steps);
    if found is Some {
        let chain = found.unwrap();
        assert forall|p: int, q: int| 0 <= p < chain.len() && 0 <= q < chain.len() && p
            != q implies chain[p] != chain[q] by {
            if p < q {
                lemma_chain_distinct(stages, ORIGIN@, TERMINAL@, steps, p, q);
            } else {
                lemma_chain_distinct(stages, ORIGIN@, TERMINAL@, steps, q, p);
            }
        }
        assert(chain.no_duplicates());
        chain.unique_seq_to_set();
        let all = set_int_range(0, stages.len() as int);
        lemma_int_range(0, stages.len() as int);
        assert forall|i: int| chain.to_set().contains(i) implies all.contains(i) by {
            let p = choose|p: int| 0 <= p < chain.len() && chain[p] == i;
            lemma_chain_suffix(stages, ORIGIN@, TERMINAL@, steps, p);
        }
        lemma_len_subset(chain.to_set(), all);
        lemma_chain_settles(stages, ORIGIN@, TERMINAL@, steps, stages.len());
    } else if route_of(stages) is Some {
        lemma_chain_len(stages, ORIGIN@, TERMINAL@, stages.len());
        lemma_chain_settles(stages, ORIGIN@, TERMINAL@, stages.len(), steps);
    }
}

/// `tail` with `head` put before it.
spec fn after(head: Seq<int>, tail: Option<Seq<int>>) -> Option<Seq<int>> {
    match tail {
        None => None,
        Some(rest) => Some(head + rest),
    }
}

/// The indices of `chain` as integers.
spec fn indices(chain: Seq<usize>) -> Seq<int> {
    Seq::new(chain.len(), |k: int| chain[k] as int)
}

/// The index of the stage that maps from `name`.
fn find_stage_index(maps: &Vec<RangeMap>, name: &String) -> (found: Option<usize>)
    ensures
        match found {
            Some(i) => find_stage(stage_views(maps@), name@) == Some(i as int) && i < maps.len(),
            None => find_stage(stage_views(maps@), name@) is None,
        },
{
    let ghost stages = stage_views(maps@);
    let mut i: usize = maps.len();
    proof {
        assert(stages.take(i as int) == stages);
    }
    while i > 0
        invariant
            i <= maps.len(),
            stages == stage_views(maps@),
            find_stage(stages, name@) == find_stage(stages.take(i as int), name@),
        decreases i,
    {
        i = i - 1;
        proof {
            assert(stages.take(i + 1).last() == maps[i as int]@);
            assert(stages.take(i + 1).drop_last() == stages.take(i as int));
        }
        if *maps[i].source_name() == *name {
            return Some(i);
        }
    }
    None
}

impl View for Almanac {
    type V = Seq<StageView>;

    /// The stages of the route, in the order in which a query passes them.
    closed spec fn view(&self) -> Seq<StageView> {
        along(stage_views(self.maps@), indices(self.chain@))
    }
}

impl Almanac {
    #[verifier::type_invariant]
    spec fn inv(self) -> bool {
        forall|k: int|
            0 <= k < self.chain.len() ==> #[trigger] self.chain[k] < self.maps.len()
                && self.maps[self.chain[k] as int].wf()
    }

    /// Every stage on the route is well formed. Every almanac that this
    /// library hands out is.
    pub open spec fn wf(&self) -> bool {
        route_wf(self@)
    }

    /// The almanac of the stages `maps`. Its route starts at the stage
    /// that maps from the origin domain and follows each stage's
    /// destination name until a stage leads to the terminal domain. Where
    /// two stages map from one name, the later one counts. Stages that do
    /// not lead there are refused.
    pub fn new(maps: Vec<RangeMap>) -> (made: Result<Almanac, AlmanacError>)
        ensures
            match made {
                Ok(almanac) => route_of(stage_views(maps@)) matches Some(chain) && almanac@
                    == along(stage_views(maps@), chain) && almanac.wf(),
                Err(e) => e == AlmanacError::BrokenChain && route_of(stage_views(maps@)) is None,
            },
    {
        let origin = String::from_str(ORIGIN);
        let terminal = String::from_str(TERMINAL);
        let ghost stages = stage_views(maps@);
        let mut chain: Vec<usize> = Vec::new();
        let mut name: &String = &origin;
        let mut steps: usize = maps.len();
        proof {
            let whole = chain_from(stages, name@, terminal@, steps as nat);
            if whole is Some {
                assert(indices(chain@) + whole.unwrap() =~= whole.unwrap());
            }
        }
        while steps > 0
            invariant
                stages == stage_views(maps@),
                terminal@ == TERMINAL@,
                steps <= maps.len(),
                forall|k: int|
                    0 <= k < chain.len() ==> #[trigger] chain[k] < maps.len() && maps[chain[k] as int].wf(),
                route_of(stages) == after(
                    indices(chain@),
                    chain_from(stages, name@, terminal@, steps as nat),
                ),
            decreases steps,
        {
            let ghost before = indices(chain@);
            match find_stage_index(&maps, name) {
                None => {
                    return Err(AlmanacError::BrokenChain);
                },
                Some(i) => {
                    let leads_to = maps[i].dest_name();
                    chain.push(i);
                    proof {
                        assert(indices(chain@) =~= before + seq![i as int]);
                        assert(stages[i as int] == maps[i as int]@);
                    }
                    if *leads_to == terminal {
                        let ghost found = indices(chain@);
                        return Ok(Almanac { maps, chain });
                    }
                    proof {
                        let rest = chain_from(
                            stages,
                            stages[i as int].dest_name,
                            terminal@,
                            (steps - 1) as nat,
                        );
                        if rest is Some {
                            assert(before + (seq![i as int] + rest.unwrap()) =~= indices(chain@)
                                + rest.unwrap());
                        }
                    }
                    name = leads_to;
                    steps = steps - 1;
                },
            }
        }
        Err(AlmanacError::BrokenChain)
    }

    /// The number of stages on the route.
    pub fn len(&self) -> (n: usize)
        ensures
            n == self@.len(),
            self.wf(),
    {
        proof {
            use_type_invariant(self);
        }
        self.chain.len()
    }

    /// Where the seed ends up: the value sent through every stage of the
    /// route in order.
    pub fn seed_to_location(&self, seed: &u64) -> (location: u64)
        ensures
            location == resolve(self@, *seed as int),
            self.wf(),
    {
        proof {
            use_type_invariant(self);
        }
        let mut value = *seed;
        let mut k: usize = 0;
        while k < self.chain.len()
            invariant
                k <= self.chain.len(),
                forall|j: int|
                    0 <= j < self.chain.len() ==> #[trigger] self.chain[j] < self.maps.len(),
                value == resolve(self@.take(k as int), *seed as int),
            decreases self.chain.len() - k,
        {
            let stage = &self.maps[self.chain[k]];
            proof {
                let upto = self@.take(k + 1);
                assert(upto.drop_last() == self@.take(k as int));
                assert(upto.last() == stage@);
            }
            value = stage.to_destination(&value);
            k = k + 1;
        }
        proof {
            assert(self@.take(k as int) == self@);
        }
        value
    }

    /// Where the seed intervals end up: normalized, then split and moved
    /// by the first stage, and so on through the route. The result covers
    /// the locations of the seeds in `seed_ranges` and is in general neither
    /// sorted nor merged.
    pub fn seed_range_to_location(&self, seed_ranges: Vec<Range<u64>>) -> (locations: Vec<
        Range<u64>,
    >)
        ensures
            locations@ == resolve_ranges(self@, seed_ranges@),
            self.wf(),
    {
        proof {
            use_type_invariant(self);
        }
        let ghost seeds = seed_ranges@;
        let mut current = seed_ranges;
        let mut k: usize = 0;
        while k < self.chain.len()
            invariant
                k <= self.chain.len(),
                forall|j: int|
                    0 <= j < self.chain.len() ==> #[trigger] self.chain[j] < self.maps.len(),
                current@ == resolve_ranges(self@.take(k as int), seeds),
            decreases self.chain.len() - k,
        {
            let stage = &self.maps[self.chain[k]];
            proof {
                let upto = self@.take(k + 1);
                assert(upto.drop_last() == self@.take(k as int));
                assert(upto.last() == stage@);
            }
            current = stage.ranges_to_destination(combine_ranges(current));
            k = k + 1;
        }
        proof {
            assert(self@.take(k as int) == self@);
        }
        current
    }
}

} // verus!
