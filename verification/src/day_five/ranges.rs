//! Half-open intervals over `u64`, sets of them, and their normal form:
//! the ascending list of maximal intervals that covers the same integers.

use crate::order::{is_sorted_order, sort_order};
use std::ops::Range;
use vstd::prelude::*;

verus! {

/// `v` lies in the half-open interval `r`. An interval whose end is not
/// above its start holds nothing.
pub open spec fn in_span(r: Range<u64>, v: int) -> bool {
    r.start <= v < r.end
}

/// The number of integers in `r`.
pub open spec fn span_len(r: Range<u64>) -> nat {
    if r.start < r.end {
        (r.end - r.start) as nat
    } else {
        0
    }
}

/// The sum of the lengths of the intervals of `s`.
pub open spec fn total_len(s: Seq<Range<u64>>) -> nat
    decreases s.len(),
{
    if s.len() == 0 {
        0
    } else {
        total_len(s.drop_last()) + span_len(s.last())
    }
}

/// Some interval of `s` holds `v`.
pub open spec fn covers(s: Seq<Range<u64>>, v: int) -> bool {
    exists|i: int| 0 <= i < s.len() && in_span(#[trigger] s[i], v)
}

/// `a` and `b` cover the same integers.
pub open spec fn same_cover(a: Seq<Range<u64>>, b: Seq<Range<u64>>) -> bool {
    forall|v: int| #![trigger covers(a, v)] #![trigger covers(b, v)] covers(a, v) <==> covers(b, v)
}

/// No interval of `s` is empty, they ascend, and between each and the next
/// lies at least one integer that neither holds.
pub open spec fn is_normal(s: Seq<Range<u64>>) -> bool {
    &&& forall|i: int| 0 <= i < s.len() ==> (#[trigger] s[i]).start < s[i].end
    &&& forall|i: int, j: int|
        0 <= i < j < s.len() ==> (#[trigger] s[i]).end < (#[trigger] s[j]).start
}

/// The normal form of `s`: the one normal list that covers what `s` covers.
pub open spec fn normalize(s: Seq<Range<u64>>) -> Seq<Range<u64>> {
    choose|n: Seq<Range<u64>>| is_normal(n) && same_cover(n, s)
}

/// Cuts `range` at `split_index` into the part below it and the part from it on.
pub fn split_range(range: &Range<u64>, split_index: &u64) -> (parts: (Range<u64>, Range<u64>))
    ensures
        parts.0.start == range.start,
        parts.0.end == *split_index,
        parts.1.start == *split_index,
        parts.1.end == range.end,
{
    (range.start..*split_index, *split_index..range.end)
}

/// A normal list covers nothing at or above the end of its last interval,
/// and what it covers below the last interval's start its earlier intervals cover.
proof fn lemma_normal_last(s: Seq<Range<u64>>, v: int)
    requires
        is_normal(s),
        s.len() > 0,
    ensures
        covers(s, v) ==> v < s.last().end,
        covers(s.drop_last(), v) <==> covers(s, v) && v < s.last().start,
{
    let t = s.drop_last();
    if covers(s, v) {
        let i = choose|i: int| 0 <= i < s.len() && in_span(#[trigger] s[i], v);
        if i < s.len() - 1 {
            assert(s[i].end < s.last().start);
            assert(in_span(t[i], v));
        }
    }
    if covers(t, v) {
        let i = choose|i: int| 0 <= i < t.len() && in_span(#[trigger] t[i], v);
        assert(in_span(s[i], v));
        assert(s[i].end < s.last().start);
    }
}

/// Two normal lists that cover the same integers are the same list.
pub proof fn lemma_normal_unique(a: Seq<Range<u64>>, b: Seq<Range<u64>>)
    requires
        is_normal(a),
        is_normal(b),
        same_cover(a, b),
    ensures
        a == b,
    decreases a.len(),
{
    if a.len() == 0 {
        if b.len() > 0 {
            assert(in_span(b[0], b[0].start as int));
            assert(covers(b, b[0].start as int));
            assert(covers(a, b[0].start as int));
        }
        assert(a =~= b);
    } else if b.len() == 0 {
        assert(in_span(a[0], a[0].start as int));
        assert(covers(a, a[0].start as int));
        assert(covers(b, a[0].start as int));
    } else {
        let x = a.last();
        let y = b.last();
        assert(x.end == y.end) by {
            assert(in_span(a[a.len() - 1], x.end - 1));
            assert(in_span(b[b.len() - 1], y.end - 1));
            assert(covers(a, x.end - 1));
            assert(covers(b, y.end - 1));
            lemma_normal_last(b, x.end - 1);
            lemma_normal_last(a, y.end - 1);
        }
        assert(x.start == y.start) by {
            if x.start < y.start {
                assert(in_span(a[a.len() - 1], y.start - 1));
                assert(covers(a, y.start - 1));
                lemma_normal_last(b, y.start - 1);
                lemma_normal_last(b.drop_last(), y.start - 1);
            }
            if y.start < x.start {
                assert(in_span(b[b.len() - 1], x.start - 1));
                assert(covers(b, x.start - 1));
                lemma_normal_last(a, x.start - 1);
                lemma_normal_last(a.drop_last(), x.start - 1);
            }
        }
        assert(same_cover(a.drop_last(), b.drop_last())) by {
            assert forall|v: int| covers(a.drop_last(), v) <==> covers(b.drop_last(), v) by {
                lemma_normal_last(a, v);
                lemma_normal_last(b, v);
            }
        }
        lemma_normal_unique(a.drop_last(), b.drop_last());
        assert(a =~= a.drop_last().push(x));
        assert(b =~= b.drop_last().push(y));
    }
}

/// The smallest interval that holds both `a` and `b`.
pub open spec fn hull(a: Range<u64>, b: Range<u64>) -> Range<u64> {
    (if a.start <= b.start {
        a.start
    } else {
        b.start
    })..(if a.end >= b.end {
        a.end
    } else {
        b.end
    })
}

/// A normal list that covers what the normal list `n` covers and `x` besides.
proof fn lemma_absorb(n: Seq<Range<u64>>, x: Range<u64>) -> (m: Seq<Range<u64>>)
    requires
        is_normal(n),
    ensures
        is_normal(m),
        forall|v: int| #![trigger covers(m, v)] covers(m, v) <==> covers(n, v) || in_span(x, v),
    decreases n.len(),
{
    if x.start >= x.end {
        n
    } else if n.len() == 0 {
        let m = seq![x];
        assert forall|v: int| #![trigger covers(m, v)] covers(m, v) <==> covers(n, v) || in_span(
            x,
            v,
        ) by {
            if in_span(x, v) {
                assert(in_span(m[0], v));
            }
        }
        m
    } else {
        let last = n.last();
        let rest = n.drop_last();
        if last.end < x.start {
            let m = n.push(x);
            assert forall|v: int| #![trigger covers(m, v)] covers(m, v) <==> covers(n, v)
                || in_span(x, v) by {
                if covers(n, v) {
                    let i = choose|i: int| 0 <= i < n.len() && in_span(#[trigger] n[i], v);
                    assert(in_span(m[i], v));
                }
                if in_span(x, v) {
                    assert(in_span(m[n.len() as int], v));
                }
            }
            assert forall|i: int, j: int| 0 <= i < j < m.len() implies (#[trigger] m[i]).end < (
            #[trigger] m[j]).start by {
                if j == n.len() && i < n.len() - 1 {
                    assert(n[i].end < n[n.len() - 1].start);
                }
            }
            m
        } else if x.end < last.start {
            let inner = lemma_absorb(rest, x);
            let m = inner.push(last);
            assert forall|v: int| #![trigger covers(m, v)] covers(m, v) <==> covers(n, v)
                || in_span(x, v) by {
                lemma_normal_last(n, v);
                if covers(m, v) {
                    let i = choose|i: int| 0 <= i < m.len() && in_span(#[trigger] m[i], v);
                    if i < inner.len() {
                        assert(in_span(inner[i], v));
                        assert(covers(inner, v));
                    } else {
                        assert(in_span(n[n.len() - 1], v));
                    }
                }
                if covers(inner, v) {
                    let i = choose|i: int| 0 <= i < inner.len() && in_span(#[trigger] inner[i], v);
                    assert(in_span(m[i], v));
                }
                if in_span(last, v) {
                    assert(in_span(m[inner.len() as int], v));
                    assert(in_span(n[n.len() - 1], v));
                }
            }
            assert forall|i: int, j: int| 0 <= i < j < m.len() implies (#[trigger] m[i]).end < (
            #[trigger] m[j]).start by {
                if j == inner.len() {
                    let w = inner[i].end - 1;
                    assert(in_span(inner[i], w));
                    assert(covers(inner, w));
                    lemma_normal_last(n, w);
                }
            }
            m
        } else {
            let joined = hull(last, x);
            let m = lemma_absorb(rest, joined);
            assert forall|v: int| #![trigger covers(m, v)] covers(m, v) <==> covers(n, v)
                || in_span(x, v) by {
                lemma_normal_last(n, v);
                if in_span(last, v) {
                    assert(in_span(n[n.len() - 1], v));
                }
                if covers(n, v) && !covers(rest, v) {
                    let i = choose|i: int| 0 <= i < n.len() && in_span(#[trigger] n[i], v);
                    if i < n.len() - 1 {
                        assert(in_span(rest[i], v));
                    }
                }
            }
            m
        }
    }
}

/// Every list of intervals has a normal form.
proof fn lemma_normal_form_exists(s: Seq<Range<u64>>) -> (n: Seq<Range<u64>>)
    ensures
        is_normal(n),
        same_cover(n, s),
    decreases s.len(),
{
    if s.len() == 0 {
        let n = Seq::<Range<u64>>::empty();
        assert(same_cover(n, s));
        n
    } else {
        let inner = lemma_normal_form_exists(s.drop_last());
        let n = lemma_absorb(inner, s.last());
        assert forall|v: int| covers(n, v) <==> covers(s, v) by {
            lemma_covers_last(s, v);
        }
        n
    }
}

/// What a non-empty list covers, its last interval or the ones before it cover.
pub proof fn lemma_covers_last(s: Seq<Range<u64>>, v: int)
    requires
        s.len() > 0,
    ensures
        covers(s, v) <==> covers(s.drop_last(), v) || in_span(s.last(), v),
{
    let t = s.drop_last();
    if covers(s, v) {
        let i = choose|i: int| 0 <= i < s.len() && in_span(#[trigger] s[i], v);
        if i < s.len() - 1 {
            assert(in_span(t[i], v));
        }
    }
    if covers(t, v) {
        let i = choose|i: int| 0 <= i < t.len() && in_span(#[trigger] t[i], v);
        assert(in_span(s[i], v));
    }
    if in_span(s.last(), v) {
        assert(in_span(s[s.len() - 1], v));
    }
}

/// The normal form of `s` is normal and covers what `s` covers.
pub proof fn lemma_normalize(s: Seq<Range<u64>>)
    ensures
        is_normal(normalize(s)),
        same_cover(normalize(s), s),
{
    let n = lemma_normal_form_exists(s);
    assert(is_normal(n) && same_cover(n, s));
}

/// A normal list that covers what `s` covers is the normal form of `s`.
pub proof fn lemma_is_normal_form(n: Seq<Range<u64>>, s: Seq<Range<u64>>)
    requires
        is_normal(n),
        same_cover(n, s),
    ensures
        n == normalize(s),
{
    lemma_normalize(s);
    lemma_normal_unique(n, normalize(s));
}

/// Normalizing twice gives what normalizing once gives.
pub proof fn lemma_normalize_idempotent(s: Seq<Range<u64>>)
    ensures
        normalize(normalize(s)) == normalize(s),
{
    lemma_normalize(s);
    lemma_is_normal_form(normalize(s), normalize(s));
}

/// The normal form depends only on what is covered.
pub proof fn lemma_normalize_by_cover(a: Seq<Range<u64>>, b: Seq<Range<u64>>)
    requires
        same_cover(a, b),
    ensures
        normalize(a) == normalize(b),
{
    lemma_normalize(a);
    lemma_normalize(b);
    lemma_normal_unique(normalize(a), normalize(b));
}

/// The starts of `ranges`, in their order.
fn starts_of(ranges: &Vec<Range<u64>>) -> (keys: Vec<u64>)
    ensures
        keys.len() == ranges.len(),
        forall|i: int| 0 <= i < keys.len() ==> #[trigger] keys[i] == ranges[i].start,
{
    let mut keys: Vec<u64> = Vec::new();
    for i in 0..ranges.len()
        invariant
            keys.len() == i,
            forall|k: int| 0 <= k < i ==> #[trigger] keys[k] == ranges[k].start,
    {
        keys.push(ranges[i].start);
    }
    keys
}

/// One of the first `k` intervals in visiting order holds `v`.
spec fn seen_covers(s: Seq<Range<u64>>, order: Seq<usize>, k: int, v: int) -> bool {
    exists|j: int| 0 <= j < k && in_span(s[#[trigger] order[j] as int], v)
}

/// What `acc` and the interval held open beside it cover together.
spec fn swept(acc: Seq<Range<u64>>, open: Option<(u64, u64)>, v: int) -> bool {
    covers(acc, v) || (open matches Some(o) && o.0 <= v < o.1)
}

/// Merges `ranges` into their normal form: sorted by start, overlapping and
/// touching intervals joined, empty ones left out.
pub fn combine_ranges(ranges: Vec<Range<u64>>) -> (merged: Vec<Range<u64>>)
    ensures
        merged@ == normalize(ranges@),
        is_normal(merged@),
        same_cover(merged@, ranges@),
{
    let keys = starts_of(&ranges);
    let order = sort_order(&keys);
    let mut merged: Vec<Range<u64>> = Vec::new();
    let mut open: Option<(u64, u64)> = None;
    let n = order.len();
    let mut k: usize = 0;
    while k < n
        invariant
            k <= n,
            n == order.len(),
            n == ranges.len(),
            keys.len() == ranges.len(),
            forall|i: int| 0 <= i < keys.len() ==> #[trigger] keys[i] == ranges[i].start,
            is_sorted_order(keys@, order@),
            is_normal(merged@),
            open is None ==> merged.len() == 0,
            open matches Some(o) ==> {
                &&& o.0 < o.1
                &&& forall|i: int| 0 <= i < merged.len() ==> (#[trigger] merged[i]).end < o.0
                &&& forall|j: int| k <= j < n ==> o.0 <= keys[#[trigger] order[j] as int]
            },
            forall|v: int|
                #![trigger swept(merged@, open, v)]
                #![trigger seen_covers(ranges@, order@, k as int, v)]
                swept(merged@, open, v) <==> seen_covers(ranges@, order@, k as int, v),
        decreases n - k,
    {
        let ghost before = merged@;
        let ghost held = open;
        let at = order[k];
        let start = ranges[at].start;
        let end = ranges[at].end;
        assert(keys[order[k as int] as int] == start);
        if start < end {
            match open {
                None => {
                    open = Some((start, end));
                    assert forall|j: int| k + 1 <= j < n implies start <= keys[#[trigger] order[j] as int] by {
                        assert(crate::order::precedes(keys@, order[k as int], order[j]));
                    }
                },
                Some(o) => {
                    if start <= o.1 {
                        if o.1 < end {
                            open = Some((o.0, end));
                        }
                    } else {
                        merged.push(o.0..o.1);
                        open = Some((start, end));
                        assert forall|j: int| k + 1 <= j < n implies start <= keys[#[trigger] order[j] as int] by {
                            assert(crate::order::precedes(keys@, order[k as int], order[j]));
                        }
                        assert forall|v: int| covers(merged@, v) <==> covers(before, v) || o.0 <= v
                            < o.1 by {
                            lemma_covers_last(merged@, v);
                            assert(merged@.drop_last() == before);
                        }
                    }
                },
            }
        }
        proof {
            assert forall|v: int|
                #![trigger swept(merged@, open, v)]
                #![trigger seen_covers(ranges@, order@, k + 1, v)]
                swept(merged@, open, v) <==> seen_covers(ranges@, order@, k + 1, v) by {
                assert(swept(before, held, v) <==> seen_covers(ranges@, order@, k as int, v));
                if seen_covers(ranges@, order@, k + 1, v) {
                    let j = choose|j: int| 0 <= j < k + 1 && in_span(ranges@[#[trigger] order@[j] as int], v);
                    if j < k {
                        assert(seen_covers(ranges@, order@, k as int, v));
                    }
                }
                if seen_covers(ranges@, order@, k as int, v) {
                    let j = choose|j: int| 0 <= j < k && in_span(ranges@[#[trigger] order@[j] as int], v);
                    assert(0 <= j < k + 1 && in_span(ranges@[order@[j] as int], v));
                }
                if start <= v < end {
                    assert(in_span(ranges@[order@[k as int] as int], v));
                }
            }
        }
        k = k + 1;
    }
    let ghost before = merged@;
    if let Some(o) = open {
        merged.push(o.0..o.1);
        proof {
            assert forall|v: int| covers(merged@, v) <==> covers(before, v) || o.0 <= v < o.1 by {
                lemma_covers_last(merged@, v);
                assert(merged@.drop_last() == before);
            }
        }
    }
    proof {
        assert forall|v: int| covers(merged@, v) <==> covers(ranges@, v) by {
            assert(swept(before, open, v) <==> seen_covers(ranges@, order@, n as int, v));
            if covers(ranges@, v) {
                let i = choose|i: int| 0 <= i < ranges.len() && in_span(#[trigger] ranges@[i], v);
                assert(order@.contains(i as usize));
                let j = choose|j: int| 0 <= j < order.len() && order@[j] == i as usize;
                assert(in_span(ranges@[order@[j] as int], v));
            }
            if seen_covers(ranges@, order@, n as int, v) {
                let j = choose|j: int| 0 <= j < n && in_span(ranges@[#[trigger] order@[j] as int], v);
                assert(in_span(ranges@[order@[j] as int], v));
            }
        }
        lemma_is_normal_form(merged@, ranges@);
    }
    merged
}

} // verus!
