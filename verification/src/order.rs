//! Stable ordering of a list of keys: a merge sort that returns the order
//! in which to visit the keys rather than moving them.

use vstd::prelude::*;

verus! {

/// Index `a` comes before index `b`: its key is smaller, or the keys are
/// equal and `a` is the earlier index.
pub open spec fn precedes(keys: Seq<u64>, a: usize, b: usize) -> bool {
    keys[a as int] < keys[b as int] || (keys[a as int] == keys[b as int] && a < b)
}

/// `order` holds the indices `lo..hi` of `keys`, each once, so that each entry
/// comes before every later one.
pub open spec fn is_sorted_span(keys: Seq<u64>, lo: int, hi: int, order: Seq<usize>) -> bool {
    &&& order.len() == hi - lo
    &&& forall|i: int| 0 <= i < order.len() ==> lo <= #[trigger] order[i] < hi
    &&& forall|k: int| lo <= k < hi ==> #[trigger] order.contains(k as usize)
    &&& ascending(keys, order)
}

/// Each entry of `order` comes before every later entry.
pub open spec fn ascending(keys: Seq<u64>, order: Seq<usize>) -> bool {
    forall|i: int, j: int|
        0 <= i < j < order.len() ==> precedes(keys, #[trigger] order[i], #[trigger] order[j])
}

/// `order` is the stable ascending order of all of `keys`.
pub open spec fn is_sorted_order(keys: Seq<u64>, order: Seq<usize>) -> bool {
    is_sorted_span(keys, 0, keys.len() as int, order)
}

/// The stable ascending order of `keys`: there is exactly one.
pub open spec fn sorted_order(keys: Seq<u64>) -> Seq<usize> {
    choose|order: Seq<usize>| is_sorted_order(keys, order)
}

/// An ascending list holds the index that comes last only at its end, and
/// holds every index once.
proof fn lemma_ascending_last(keys: Seq<u64>, order: Seq<usize>, x: usize)
    requires
        ascending(keys, order),
        order.len() > 0,
    ensures
        order.drop_last().contains(x) <==> order.contains(x) && x != order.last(),
        order.contains(x) && x != order.last() ==> precedes(keys, x, order.last()),
{
    let rest = order.drop_last();
    if rest.contains(x) {
        let k = choose|k: int| 0 <= k < rest.len() && rest[k] == x;
        assert(order[k] == x);
        assert(precedes(keys, order[k], order[order.len() - 1]));
    }
    if order.contains(x) && x != order.last() {
        let k = choose|k: int| 0 <= k < order.len() && order[k] == x;
        assert(rest[k] == x);
        assert(precedes(keys, order[k], order[order.len() - 1]));
    }
}

/// Two ascending lists of the same indices are the same list.
pub proof fn lemma_ascending_unique(keys: Seq<u64>, a: Seq<usize>, b: Seq<usize>)
    requires
        ascending(keys, a),
        ascending(keys, b),
        forall|x: usize| a.contains(x) <==> b.contains(x),
    ensures
        a == b,
    decreases a.len(),
{
    if a.len() == 0 {
        if b.len() > 0 {
            assert(b.contains(b[0]));
        }
        assert(a =~= b);
    } else if b.len() == 0 {
        assert(a.contains(a[0]));
    } else {
        let x = a.last();
        let y = b.last();
        assert(a.contains(x)) by {
            assert(a[a.len() - 1] == x);
        }
        assert(b.contains(y)) by {
            assert(b[b.len() - 1] == y);
        }
        lemma_ascending_last(keys, a, y);
        lemma_ascending_last(keys, b, x);
        assert(x == y);
        assert forall|z: usize| a.drop_last().contains(z) <==> b.drop_last().contains(z) by {
            lemma_ascending_last(keys, a, z);
            lemma_ascending_last(keys, b, z);
        }
        assert(ascending(keys, a.drop_last())) by {
            assert forall|i: int, j: int| 0 <= i < j < a.drop_last().len() implies precedes(
                keys,
                #[trigger] a.drop_last()[i],
                #[trigger] a.drop_last()[j],
            ) by {
                assert(precedes(keys, a[i], a[j]));
            }
        }
        assert(ascending(keys, b.drop_last())) by {
            assert forall|i: int, j: int| 0 <= i < j < b.drop_last().len() implies precedes(
                keys,
                #[trigger] b.drop_last()[i],
                #[trigger] b.drop_last()[j],
            ) by {
                assert(precedes(keys, b[i], b[j]));
            }
        }
        lemma_ascending_unique(keys, a.drop_last(), b.drop_last());
        assert(a =~= a.drop_last().push(x));
        assert(b =~= b.drop_last().push(y));
    }
}

/// A stable ascending order of `keys` is the one there is.
pub proof fn lemma_is_sorted_order(keys: Seq<u64>, order: Seq<usize>)
    requires
        is_sorted_order(keys, order),
    ensures
        order == sorted_order(keys),
{
    let other = sorted_order(keys);
    assert(is_sorted_order(keys, other));
    assert forall|x: usize| order.contains(x) <==> other.contains(x) by {
        if order.contains(x) {
            let k = choose|k: int| 0 <= k < order.len() && order[k] == x;
            assert(0 <= order[k] < keys.len());
            assert(other.contains((x as int) as usize));
        }
        if other.contains(x) {
            let k = choose|k: int| 0 <= k < other.len() && other[k] == x;
            assert(0 <= other[k] < keys.len());
            assert(order.contains((x as int) as usize));
        }
    }
    lemma_ascending_unique(keys, order, other);
}

/// Merges two ascending runs of distinct indices into one.
fn merge_runs(keys: &Vec<u64>, left: &Vec<usize>, right: &Vec<usize>) -> (out: Vec<usize>)
    requires
        ascending(keys@, left@),
        ascending(keys@, right@),
        forall|i: int| 0 <= i < left.len() ==> #[trigger] left[i] < keys.len(),
        forall|j: int| 0 <= j < right.len() ==> #[trigger] right[j] < keys.len(),
        forall|i: int, j: int|
            0 <= i < left.len() && 0 <= j < right.len() ==> #[trigger] left[i] != #[trigger] right[j],
        left.len() + right.len() <= usize::MAX,
    ensures
        out.len() == left.len() + right.len(),
        ascending(keys@, out@),
        forall|x: usize| out@.contains(x) <==> left@.contains(x) || right@.contains(x),
{
    let mut out: Vec<usize> = Vec::new();
    let mut i: usize = 0;
    let mut j: usize = 0;
    while i < left.len() || j < right.len()
        invariant
            i <= left.len(),
            j <= right.len(),
            out.len() == i + j,
            ascending(keys@, left@),
            ascending(keys@, right@),
            ascending(keys@, out@),
            forall|p: int| 0 <= p < left.len() ==> #[trigger] left[p] < keys.len(),
            forall|q: int| 0 <= q < right.len() ==> #[trigger] right[q] < keys.len(),
            forall|p: int, q: int|
                0 <= p < left.len() && 0 <= q < right.len() ==> #[trigger] left[p] != #[trigger] right[q],
            forall|p: int, q: int|
                0 <= p < out.len() && i <= q < left.len() ==> precedes(
                    keys@,
                    #[trigger] out[p],
                    #[trigger] left[q],
                ),
            forall|p: int, q: int|
                0 <= p < out.len() && j <= q < right.len() ==> precedes(
                    keys@,
                    #[trigger] out[p],
                    #[trigger] right[q],
                ),
            forall|x: usize|
                out@.contains(x) <==> left@.take(i as int).contains(x) || right@.take(
                    j as int,
                ).contains(x),
        decreases left.len() - i + (right.len() - j),
    {
        let ghost before = out@;
        let take_left = if i == left.len() {
            false
        } else if j == right.len() {
            true
        } else {
            let a = left[i];
            let b = right[j];
            keys[a] < keys[b] || (keys[a] == keys[b] && a < b)
        };
        if take_left {
            let a = left[i];
            out.push(a);
            proof {
                assert(left@.take(i + 1) == left@.take(i as int).push(a));
                assert forall|x: usize|
                    out@.contains(x) <==> left@.take(i + 1).contains(x) || right@.take(
                        j as int,
                    ).contains(x) by {
                    lemma_push_contains(before, a, x);
                    lemma_push_contains(left@.take(i as int), a, x);
                }
            }
            i = i + 1;
        } else {
            let b = right[j];
            out.push(b);
            proof {
                assert(right@.take(j + 1) == right@.take(j as int).push(b));
                assert forall|x: usize|
                    out@.contains(x) <==> left@.take(i as int).contains(x) || right@.take(
                        j + 1,
                    ).contains(x) by {
                    lemma_push_contains(before, b, x);
                    lemma_push_contains(right@.take(j as int), b, x);
                }
            }
            j = j + 1;
        }
    }
    proof {
        assert(left@.take(i as int) == left@);
        assert(right@.take(j as int) == right@);
    }
    out
}

/// An element is in `s.push(a)` exactly when it is `a` or in `s`.
proof fn lemma_push_contains(s: Seq<usize>, a: usize, x: usize)
    ensures
        s.push(a).contains(x) <==> s.contains(x) || x == a,
{
    if s.contains(x) {
        let k = choose|k: int| 0 <= k < s.len() && s[k] == x;
        assert(s.push(a)[k] == x);
    }
    if x == a {
        assert(s.push(a)[s.len() as int] == x);
    }
}

/// Sorts the indices `lo..hi` of `keys`.
fn sort_span(keys: &Vec<u64>, lo: usize, hi: usize) -> (order: Vec<usize>)
    requires
        lo <= hi <= keys.len(),
    ensures
        is_sorted_span(keys@, lo as int, hi as int, order@),
    decreases hi - lo,
{
    if hi - lo < 2 {
        let mut order: Vec<usize> = Vec::new();
        if lo < hi {
            order.push(lo);
            assert(order@[0] == lo);
        }
        return order;
    }
    let mid = lo + (hi - lo) / 2;
    let left = sort_span(keys, lo, mid);
    let right = sort_span(keys, mid, hi);
    let order = merge_runs(keys, &left, &right);
    proof {
        assert forall|i: int| 0 <= i < order.len() implies lo <= #[trigger] order[i] < hi by {
            assert(order@.contains(order[i]));
        }
        assert forall|k: int| lo <= k < hi implies #[trigger] order@.contains(k as usize) by {
            if k < mid {
                assert(left@.contains(k as usize));
            } else {
                assert(right@.contains(k as usize));
            }
        }
    }
    order
}

/// The order in which to visit `keys` so that they ascend; equal keys are
/// visited in the order in which they stand.
pub fn sort_order(keys: &Vec<u64>) -> (order: Vec<usize>)
    ensures
        is_sorted_order(keys@, order@),
        order@ == sorted_order(keys@),
{
    let order = sort_span(keys, 0, keys.len());
    proof {
        lemma_is_sorted_order(keys@, order@);
    }
    order
}

} // verus!
