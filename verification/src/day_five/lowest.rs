//! The two questions asked of an almanac text: the lowest location of the
//! seeds it lists, read one by one or as pairs of start and length.

use crate::day_five::almanac::{arrives, lemma_ranges_follow_values, lemma_route_gives_no_empty, resolve, resolve_ranges, route_wf, Almanac};
use crate::day_five::ranges::{covers, in_span};
use crate::day_five::error::AlmanacError;
use crate::day_five::parse::{loaded, parse_input};
use crate::day_five::stage::StageView;
use std::ops::Range;
use vstd::prelude::*;

verus! {

/// The smaller of two integers.
pub open spec fn lesser(a: int, b: int) -> int {
    if a <= b {
        a
    } else {
        b
    }
}

/// The least of the integers of `s`, which is not empty.
pub open spec fn least_of(s: Seq<int>) -> int
    decreases s.len(),
{
    if s.len() == 0 {
        0
    } else if s.len() == 1 {
        s[0]
    } else {
        lesser(least_of(s.drop_last()), s.last())
    }
}

/// The least of a non-empty list is one of its members, and none is below it.
pub proof fn lemma_least_of(s: Seq<int>)
    requires
        s.len() > 0,
    ensures
        s.contains(least_of(s)),
        forall|i: int| 0 <= i < s.len() ==> least_of(s) <= #[trigger] s[i],
    decreases s.len(),
{
    if s.len() == 1 {
        assert(s[0] == least_of(s));
    } else {
        let t = s.drop_last();
        lemma_least_of(t);
        let k = choose|k: int| 0 <= k < t.len() && t[k] == least_of(t);
        assert(s[k] == t[k]);
        assert(s[s.len() - 1] == s.last());
        assert forall|i: int| 0 <= i < s.len() implies least_of(s) <= #[trigger] s[i] by {
            if i < t.len() {
                assert(t[i] == s[i]);
            }
        }
    }
}

/// The values of `s` as integers.
pub open spec fn as_ints(s: Seq<u64>) -> Seq<int> {
    Seq::new(s.len(), |i: int| s[i] as int)
}

/// The starts of the intervals of `s`.
pub open spec fn starts(s: Seq<Range<u64>>) -> Seq<int> {
    Seq::new(s.len(), |i: int| s[i].start as int)
}

/// Where each seed ends up.
pub open spec fn locations(route: Seq<StageView>, seeds: Seq<u64>) -> Seq<int> {
    Seq::new(seeds.len(), |i: int| resolve(route, seeds[i] as int))
}

/// The intervals that `seeds` declare, read in pairs of start and length.
pub open spec fn paired(seeds: Seq<u64>) -> Result<Seq<Range<u64>>, AlmanacError>
    decreases seeds.len(),
{
    if seeds.len() == 0 {
        Ok(Seq::empty())
    } else if seeds.len() == 1 {
        Err(AlmanacError::UnpairedSeed)
    } else if seeds[0] + seeds[1] > u64::MAX {
        Err(AlmanacError::Overflow)
    } else {
        match paired(seeds.skip(2)) {
            Err(e) => Err(e),
            Ok(rest) => Ok(seq![seeds[0]..((seeds[0] + seeds[1]) as u64)] + rest),
        }
    }
}

/// The lowest location of the seeds of `text`, each seed a single value.
pub open spec fn part_one_of(text: Seq<char>) -> Result<int, AlmanacError> {
    match loaded(text) {
        Err(e) => Err(e),
        Ok((seeds, route)) => if seeds.len() == 0 {
            Err(AlmanacError::NoSeeds)
        } else {
            Ok(least_of(locations(route, seeds)))
        },
    }
}

/// The lowest start among the location intervals of the seeds of `text`,
/// the seeds read as pairs of start and length.
pub open spec fn part_two_of(text: Seq<char>) -> Result<int, AlmanacError> {
    match loaded(text) {
        Err(e) => Err(e),
        Ok((seeds, route)) => match paired(seeds) {
            Err(e) => Err(e),
            Ok(ranges) => if resolve_ranges(route, ranges).len() == 0 {
                Err(AlmanacError::NoSeeds)
            } else {
                Ok(least_of(starts(resolve_ranges(route, ranges))))
            },
        },
    }
}

/// The lowest start of a list of intervals of which none is empty is the
/// lowest value that the list covers.
pub proof fn lemma_least_start_is_least_covered(s: Seq<Range<u64>>)
    requires
        s.len() > 0,
        forall|i: int| 0 <= i < s.len() ==> (#[trigger] s[i]).start < s[i].end,
    ensures
        covers(s, least_of(starts(s))),
        forall|v: int| covers(s, v) ==> least_of(starts(s)) <= v,
{
    let firsts = starts(s);
    let least = least_of(firsts);
    lemma_least_of(firsts);
    let k = choose|k: int| 0 <= k < firsts.len() && firsts[k] == least;
    assert(in_span(s[k], least));
    assert forall|v: int| covers(s, v) implies least <= v by {
        let i = choose|i: int| 0 <= i < s.len() && in_span(#[trigger] s[i], v);
        assert(least <= firsts[i]);
    }
}

/// The lowest start among the intervals that come out of a route is the
/// lowest location of all the values that the seed intervals cover: some
/// covered seed ends up there, and none ends up below.
pub proof fn lemma_lowest_start_is_lowest_location(route: Seq<StageView>, s: Seq<Range<u64>>)
    requires
        route_wf(route),
        route.len() > 0,
        resolve_ranges(route, s).len() > 0,
    ensures
        arrives(route, s, least_of(starts(resolve_ranges(route, s)))),
        forall|v: int|
            covers(s, v) ==> least_of(starts(resolve_ranges(route, s))) <= #[trigger] resolve(
                route,
                v,
            ),
{
    let out = resolve_ranges(route, s);
    let least = least_of(starts(out));
    assert forall|i: int| 0 <= i < out.len() implies (#[trigger] out[i]).start < out[i].end by {
        lemma_route_gives_no_empty(route, s, i);
    }
    lemma_least_start_is_least_covered(out);
    lemma_ranges_follow_values(route, s, least);
    assert forall|v: int| covers(s, v) implies least <= #[trigger] resolve(route, v) by {
        let w = resolve(route, v);
        lemma_ranges_follow_values(route, s, w);
        assert(arrives(route, s, w));
    }
}

/// The least of `values`, if there is any.
pub fn lowest(values: &Vec<u64>) -> (least: Option<u64>)
    ensures
        match least {
            None => values.len() == 0,
            Some(m) => values.len() > 0 && m == least_of(as_ints(values@)),
        },
{
    if values.len() == 0 {
        return None;
    }
    let ghost all = as_ints(values@);
    let mut least = values[0];
    let mut i: usize = 1;
    proof {
        assert(all.take(1).len() == 1);
    }
    while i < values.len()
        invariant
            1 <= i <= values.len(),
            all == as_ints(values@),
            least == least_of(all.take(i as int)),
        decreases values.len() - i,
    {
        proof {
            assert(all.take(i + 1).drop_last() == all.take(i as int));
            assert(all.take(i + 1).last() == values[i as int]);
        }
        if values[i] < least {
            least = values[i];
        }
        i = i + 1;
    }
    proof {
        assert(all.take(i as int) == all);
    }
    Some(least)
}

/// The lowest start among `ranges`, if there is any.
pub fn lowest_start(ranges: &Vec<Range<u64>>) -> (least: Option<u64>)
    ensures
        match least {
            None => ranges.len() == 0,
            Some(m) => ranges.len() > 0 && m == least_of(starts(ranges@)),
        },
{
    let mut firsts: Vec<u64> = Vec::new();
    let mut i: usize = 0;
    while i < ranges.len()
        invariant
            i <= ranges.len(),
            firsts.len() == i,
            forall|k: int| 0 <= k < i ==> #[trigger] firsts[k] == ranges[k].start,
        decreases ranges.len() - i,
    {
        firsts.push(ranges[i].start);
        i = i + 1;
    }
    proof {
        assert(as_ints(firsts@) =~= starts(ranges@));
    }
    lowest(&firsts)
}

/// `rest` with `done` put before it.
spec fn ranges_after(done: Seq<Range<u64>>, rest: Result<Seq<Range<u64>>, AlmanacError>) -> Result<
    Seq<Range<u64>>,
    AlmanacError,
> {
    match rest {
        Err(e) => Err(e),
        Ok(more) => Ok(done + more),
    }
}

/// Reads `seeds` in pairs of start and length. Fails with `UnpairedSeed`
/// where a start is left without a length, and with `Overflow` where an
/// interval would end beyond `u64`.
pub fn seed_ranges(seeds: &Vec<u64>) -> (ranges: Result<Vec<Range<u64>>, AlmanacError>)
    ensures
        match ranges {
            Ok(list) => paired(seeds@) == Ok::<Seq<Range<u64>>, AlmanacError>(list@),
            Err(e) => paired(seeds@) == Err::<Seq<Range<u64>>, AlmanacError>(e),
        },
{
    let mut list: Vec<Range<u64>> = Vec::new();
    let mut i: usize = 0;
    proof {
        assert(seeds@.skip(0) == seeds@);
        let whole = paired(seeds@);
        if whole is Ok {
            assert(list@ + whole.unwrap() =~= whole.unwrap());
        }
    }
    while i < seeds.len()
        invariant
            i <= seeds.len(),
            paired(seeds@) == ranges_after(list@, paired(seeds@.skip(i as int))),
        decreases seeds.len() - i,
    {
        let ghost rest = seeds@.skip(i as int);
        let ghost done = list@;
        proof {
            assert(rest[0] == seeds[i as int]);
        }
        if i + 1 == seeds.len() {
            return Err(AlmanacError::UnpairedSeed);
        }
        proof {
            assert(rest[1] == seeds[i + 1]);
            assert(rest.skip(2) == seeds@.skip(i + 2));
        }
        let start = seeds[i];
        match start.checked_add(seeds[i + 1]) {
            None => {
                return Err(AlmanacError::Overflow);
            },
            Some(end) => {
                list.push(start..end);
                proof {
                    let more = paired(seeds@.skip(i + 2));
                    if more is Ok {
                        assert(done + (seq![start..end] + more.unwrap()) =~= list@ + more.unwrap());
                    }
                }
            },
        }
        i = i + 2;
    }
    proof {
        assert(list@ + Seq::<Range<u64>>::empty() =~= list@);
    }
    Ok(list)
}

/// The lowest location that a seed of `seeds` ends up at, if there is a seed.
pub fn lowest_location(almanac: &Almanac, seeds: &Vec<u64>) -> (least: Option<u64>)
    ensures
        match least {
            None => seeds.len() == 0,
            Some(m) => seeds.len() > 0 && m == least_of(locations(almanac@, seeds@)),
        },
{
    let mut found: Vec<u64> = Vec::new();
    let mut i: usize = 0;
    while i < seeds.len()
        invariant
            i <= seeds.len(),
            found.len() == i,
            forall|k: int| 0 <= k < i ==> #[trigger] found[k] == resolve(almanac@, seeds[k] as int),
        decreases seeds.len() - i,
    {
        found.push(almanac.seed_to_location(&seeds[i]));
        i = i + 1;
    }
    proof {
        assert(as_ints(found@) =~= locations(almanac@, seeds@));
    }
    lowest(&found)
}

/// The lowest start among the intervals that the seed intervals end up
/// as, if any is left. Within one such interval the locations ascend, so
/// its start is its lowest location; the intervals themselves come in no
/// order, so all of them are looked at.
pub fn lowest_location_in_ranges(almanac: &Almanac, seed_ranges: Vec<Range<u64>>) -> (least: Option<
    u64,
>)
    ensures
        match least {
            None => resolve_ranges(almanac@, seed_ranges@).len() == 0,
            Some(m) => resolve_ranges(almanac@, seed_ranges@).len() > 0 && m == least_of(
                starts(resolve_ranges(almanac@, seed_ranges@)),
            ),
        },
{
    let found = almanac.seed_range_to_location(seed_ranges);
    lowest_start(&found)
}

/// The lowest location of the seeds that `input` lists.
pub fn part_one(input: &str) -> (answer: Result<u64, AlmanacError>)
    ensures
        match answer {
            Ok(least) => part_one_of(input@) == Ok::<int, AlmanacError>(least as int),
            Err(e) => part_one_of(input@) == Err::<int, AlmanacError>(e),
        },
{
    let (seeds, almanac) = match parse_input(input) {
        Err(e) => {
            return Err(e);
        },
        Ok(parsed) => parsed,
    };
    match lowest_location(&almanac, &seeds) {
        None => Err(AlmanacError::NoSeeds),
        Some(least) => Ok(least),
    }
}

/// The lowest location of the seeds that `input` lists as pairs of start
/// and length.
pub fn part_two(input: &str) -> (answer: Result<u64, AlmanacError>)
    ensures
        match answer {
            Ok(least) => part_two_of(input@) == Ok::<int, AlmanacError>(least as int),
            Err(e) => part_two_of(input@) == Err::<int, AlmanacError>(e),
        },
{
    let (seeds, almanac) = match parse_input(input) {
        Err(e) => {
            return Err(e);
        },
        Ok(parsed) => parsed,
    };
    let ranges = match seed_ranges(&seeds) {
        Err(e) => {
            return Err(e);
        },
        Ok(ranges) => ranges,
    };
    match lowest_location_in_ranges(&almanac, ranges) {
        None => Err(AlmanacError::NoSeeds),
        Some(least) => Ok(least),
    }
}

} // verus!
