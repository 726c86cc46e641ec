//! How many integers a list of intervals covers, against the sum of the
//! intervals' lengths: what normalizing keeps and what it gives up.

use crate::day_five::ranges::{covers, in_span, is_normal, lemma_covers_last, lemma_normalize, normalize, same_cover, span_len, total_len};
use std::ops::Range;
use vstd::prelude::*;
use vstd::set_lib::{lemma_int_range, lemma_set_empty_equivalency_len, lemma_set_intersect_union_lens, set_int_range};

verus! {

/// The integers that `r` holds.
pub open spec fn span_set(r: Range<u64>) -> Set<int> {
    Set::new(|v: int| in_span(r, v))
}

/// The integers that `s` covers.
pub open spec fn cover_set(s: Seq<Range<u64>>) -> Set<int> {
    Set::new(|v: int| covers(s, v))
}

/// `a` and `b` hold an integer in common.
pub open spec fn overlapping(a: Range<u64>, b: Range<u64>) -> bool {
    a.start < a.end && b.start < b.end && a.start < b.end && b.start < a.end
}

/// `a` and `b` overlap, or one starts where the other ends.
pub open spec fn meeting(a: Range<u64>, b: Range<u64>) -> bool {
    a.start <= b.end && b.start <= a.end
}

/// No two intervals of `s` hold an integer in common.
pub open spec fn pairwise_disjoint(s: Seq<Range<u64>>) -> bool {
    forall|i: int, j: int| 0 <= i < j < s.len() ==> !overlapping(#[trigger] s[i], #[trigger] s[j])
}

/// No two intervals of `s` overlap or touch.
pub open spec fn pairwise_apart(s: Seq<Range<u64>>) -> bool {
    forall|i: int, j: int| 0 <= i < j < s.len() ==> !meeting(#[trigger] s[i], #[trigger] s[j])
}

/// An interval holds as many integers as its length says.
pub proof fn lemma_span_set(r: Range<u64>)
    ensures
        span_set(r).finite(),
        span_set(r).len() == span_len(r),
{
    if r.start < r.end {
        lemma_int_range(r.start as int, r.end as int);
        assert(span_set(r) =~= set_int_range(r.start as int, r.end as int));
    } else {
        assert(span_set(r) =~= Set::<int>::empty());
    }
}

/// A list covers what its last interval holds and what the ones before it cover.
proof fn lemma_cover_set_step(s: Seq<Range<u64>>)
    requires
        s.len() > 0,
    ensures
        cover_set(s) == cover_set(s.drop_last()) + span_set(s.last()),
{
    assert forall|v: int|
        cover_set(s).contains(v) <==> (cover_set(s.drop_last()) + span_set(s.last())).contains(
            v,
        ) by {
        lemma_covers_last(s, v);
    }
    assert(cover_set(s) =~= cover_set(s.drop_last()) + span_set(s.last()));
}

/// The last interval of `s` overlaps none of the earlier ones exactly when
/// it holds nothing that they cover.
proof fn lemma_last_disjoint(s: Seq<Range<u64>>)
    requires
        s.len() > 0,
    ensures
        cover_set(s.drop_last()).intersect(span_set(s.last())) == Set::<int>::empty() <==> (forall|
            i: int,
        |
            0 <= i < s.len() - 1 ==> !overlapping(#[trigger] s[i], s.last())),
{
    let rest = s.drop_last();
    let last = s.last();
    let common = cover_set(rest).intersect(span_set(last));
    if common == Set::<int>::empty() {
        assert forall|i: int| 0 <= i < s.len() - 1 implies !overlapping(#[trigger] s[i], last) by {
            if overlapping(s[i], last) {
                let v: int = if s[i].start <= last.start {
                    last.start as int
                } else {
                    s[i].start as int
                };
                assert(in_span(rest[i], v));
                assert(covers(rest, v));
                assert(common.contains(v));
            }
        }
    }
    if forall|i: int| 0 <= i < s.len() - 1 ==> !overlapping(#[trigger] s[i], last) {
        assert forall|v: int| !common.contains(v) by {
            if common.contains(v) {
                let i = choose|i: int| 0 <= i < rest.len() && in_span(#[trigger] rest[i], v);
                assert(overlapping(s[i], last));
            }
        }
        assert(common =~= Set::<int>::empty());
    }
}

/// A list covers no more integers than its lengths add up to, and exactly
/// as many when no two of its intervals overlap.
pub proof fn lemma_cover_len(s: Seq<Range<u64>>)
    ensures
        cover_set(s).finite(),
        cover_set(s).len() <= total_len(s),
        cover_set(s).len() == total_len(s) <==> pairwise_disjoint(s),
    decreases s.len(),
{
    if s.len() == 0 {
        assert(cover_set(s) =~= Set::<int>::empty());
    } else {
        let rest = s.drop_last();
        let last = s.last();
        let a = cover_set(rest);
        let b = span_set(last);
        lemma_cover_len(rest);
        lemma_span_set(last);
        lemma_cover_set_step(s);
        lemma_set_intersect_union_lens(a, b);
        lemma_last_disjoint(s);
        vstd::set_lib::lemma_len_intersect(a, b);
        lemma_set_empty_equivalency_len(a.intersect(b));
        if pairwise_disjoint(s) {
            assert forall|i: int, j: int| 0 <= i < j < rest.len() implies !overlapping(
                #[trigger] rest[i],
                #[trigger] rest[j],
            ) by {
                assert(!overlapping(s[i], s[j]));
            }
            assert forall|i: int| 0 <= i < s.len() - 1 implies !overlapping(
                #[trigger] s[i],
                last,
            ) by {
                assert(!overlapping(s[i], s[s.len() - 1]));
            }
        }
        if pairwise_disjoint(rest) && (forall|i: int|
            0 <= i < s.len() - 1 ==> !overlapping(#[trigger] s[i], last)) {
            assert forall|i: int, j: int| 0 <= i < j < s.len() implies !overlapping(
                #[trigger] s[i],
                #[trigger] s[j],
            ) by {
                if j < s.len() - 1 {
                    assert(!overlapping(rest[i], rest[j]));
                }
            }
        }
    }
}

/// Lists that cover the same integers have the same set of covered integers.
proof fn lemma_same_cover_set(a: Seq<Range<u64>>, b: Seq<Range<u64>>)
    requires
        same_cover(a, b),
    ensures
        cover_set(a) == cover_set(b),
{
    assert(cover_set(a) =~= cover_set(b));
}

/// Normalizing never adds length.
pub proof fn lemma_normalize_total_le(s: Seq<Range<u64>>)
    ensures
        total_len(normalize(s)) <= total_len(s),
{
    lemma_normalize_total_eq(s);
    lemma_cover_len(s);
    lemma_cover_len(normalize(s));
    lemma_normalize(s);
    lemma_same_cover_set(normalize(s), s);
}

/// Normalizing keeps the total length exactly when no two of the intervals
/// hold an integer in common.
pub proof fn lemma_normalize_total_eq(s: Seq<Range<u64>>)
    ensures
        total_len(normalize(s)) == total_len(s) <==> pairwise_disjoint(s),
{
    let n = normalize(s);
    lemma_normalize(s);
    lemma_same_cover_set(n, s);
    lemma_cover_len(s);
    lemma_cover_len(n);
    assert(pairwise_disjoint(n)) by {
        assert forall|i: int, j: int| 0 <= i < j < n.len() implies !overlapping(
            #[trigger] n[i],
            #[trigger] n[j],
        ) by {
            assert(n[i].end < n[j].start);
        }
    }
}

/// Normalizing keeps the total length exactly when no two of the intervals
/// overlap or touch, for every list but those in which some intervals touch
/// and none overlap: there the length is kept although intervals are joined.
pub proof fn lemma_normalize_total_eq_apart(s: Seq<Range<u64>>)
    requires
        pairwise_apart(s) || !pairwise_disjoint(s),
    ensures
        total_len(normalize(s)) == total_len(s) <==> pairwise_apart(s),
{
    lemma_normalize_total_eq(s);
    if pairwise_apart(s) {
        assert forall|i: int, j: int| 0 <= i < j < s.len() implies !overlapping(
            #[trigger] s[i],
            #[trigger] s[j],
        ) by {
            assert(!meeting(s[i], s[j]));
        }
    }
}

} // verus!
