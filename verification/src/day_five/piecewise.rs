//! The piecewise function that a table of mappings stands for: a value
//! inside a mapping's source moves by that mapping's offset, every other
//! value stays. An interval under it falls into pieces, one for each
//! stretch between two boundaries of the table.

use crate::day_five::mapping::RangePair;
use crate::day_five::ranges::{covers, in_span, span_len, total_len};
use std::ops::Range;
use vstd::prelude::*;

verus! {

/// The mappings are well formed, none is empty, they ascend by source, and
/// no two sources overlap.
pub open spec fn table_wf(m: Seq<RangePair>) -> bool {
    &&& forall|i: int|
        0 <= i < m.len() ==> (#[trigger] m[i]).wf() && m[i].source.start < m[i].source.end
    &&& forall|i: int, j: int|
        0 <= i < j < m.len() ==> (#[trigger] m[i]).source.end <= (#[trigger] m[j]).source.start
}

/// Mapping `i` of `m` holds `v` in its source.
pub open spec fn maps_at(m: Seq<RangePair>, i: int, v: int) -> bool {
    0 <= i < m.len() && in_span(m[i].source, v)
}

/// Where the table sends `v`.
pub open spec fn image(m: Seq<RangePair>, v: int) -> int {
    if exists|i: int| maps_at(m, i, v) {
        m[choose|i: int| maps_at(m, i, v)].shift(v)
    } else {
        v
    }
}

/// Some mapping's source starts or ends at `b`.
pub open spec fn is_boundary(m: Seq<RangePair>, b: int) -> bool {
    exists|i: int|
        0 <= i < m.len() && ((#[trigger] m[i]).source.start == b || m[i].source.end == b)
}

/// The end of the piece that starts at `v`: the first boundary above `v`,
/// or `end` where none lies below it.
pub open spec fn piece_end(m: Seq<RangePair>, v: int, end: int) -> int
    decreases end - v,
{
    if v + 1 >= end {
        end
    } else if is_boundary(m, v + 1) {
        v + 1
    } else {
        piece_end(m, v + 1, end)
    }
}

/// The image of the piece `start..cut`, on which the table moves every
/// value as it moves `start`.
pub open spec fn moved(m: Seq<RangePair>, start: int, cut: int) -> Range<u64> {
    (image(m, start) as u64)..((image(m, start) + (cut - start)) as u64)
}

/// The images of the pieces of `start..end`, from the lowest piece up.
/// An empty interval has none.
pub open spec fn fragments(m: Seq<RangePair>, start: int, end: int) -> Seq<Range<u64>>
    decreases end - start,
{
    if start >= end {
        Seq::empty()
    } else {
        proof {
            lemma_piece_end_bounds(m, start, end);
        }
        let cut = piece_end(m, start, end);
        seq![moved(m, start, cut)] + fragments(m, cut, end)
    }
}

/// The fragments of each interval of `s` in turn, one list after the other.
pub open spec fn fragments_of(m: Seq<RangePair>, s: Seq<Range<u64>>) -> Seq<Range<u64>>
    decreases s.len(),
{
    if s.len() == 0 {
        Seq::empty()
    } else {
        fragments_of(m, s.drop_last()) + fragments(
            m,
            s.last().start as int,
            s.last().end as int,
        )
    }
}

/// A piece of a non-empty interval is not empty and stays inside it.
pub proof fn lemma_piece_end_bounds(m: Seq<RangePair>, v: int, end: int)
    requires
        v < end,
    ensures
        v < piece_end(m, v, end) <= end,
    decreases end - v,
{
    if v + 1 < end && !is_boundary(m, v + 1) {
        lemma_piece_end_bounds(m, v + 1, end);
    }
}

/// At most one mapping of a table holds a given value.
pub proof fn lemma_holder_unique(m: Seq<RangePair>, i: int, j: int, v: int)
    requires
        table_wf(m),
        maps_at(m, i, v),
        maps_at(m, j, v),
    ensures
        i == j,
{
    if i < j {
        assert(m[i].source.end <= m[j].source.start);
    }
    if j < i {
        assert(m[j].source.end <= m[i].source.start);
    }
}

/// A value inside mapping `i` moves by that mapping's offset, and lands
/// inside its destination.
pub proof fn lemma_image_inside(m: Seq<RangePair>, i: int, v: int)
    requires
        table_wf(m),
        maps_at(m, i, v),
    ensures
        image(m, v) == m[i].shift(v),
        in_span(m[i].destination, image(m, v)),
{
    let j = choose|j: int| maps_at(m, j, v);
    lemma_holder_unique(m, i, j, v);
    assert(m[i].wf());
}

/// A value that no mapping holds stays where it is.
pub proof fn lemma_image_outside(m: Seq<RangePair>, v: int)
    requires
        forall|i: int| !maps_at(m, i, v),
    ensures
        image(m, v) == v,
{
}

/// `v` lies in the gap below mapping `k`: every earlier mapping ends at or
/// below `v`, and mapping `k`, if there is one, starts above it.
pub open spec fn in_gap(m: Seq<RangePair>, k: int, v: int) -> bool {
    &&& 0 <= k <= m.len()
    &&& forall|j: int| 0 <= j < k ==> (#[trigger] m[j]).source.end <= v
    &&& k < m.len() ==> v < m[k].source.start
}

/// No mapping holds a value that lies in a gap.
pub proof fn lemma_gap_unmapped(m: Seq<RangePair>, k: int, v: int)
    requires
        table_wf(m),
        in_gap(m, k, v),
    ensures
        forall|i: int| !maps_at(m, i, v),
        image(m, v) == v,
{
    assert forall|i: int| !maps_at(m, i, v) by {
        if maps_at(m, i, v) {
            if i < k {
                assert(m[i].source.end <= v);
            } else if i > k {
                assert(m[k].source.end <= m[i].source.start);
            }
        }
    }
}

/// The piece that starts inside mapping `i` ends where that mapping's
/// source ends, or at `end` if that comes first.
pub proof fn lemma_piece_end_inside(m: Seq<RangePair>, i: int, v: int, end: int)
    requires
        table_wf(m),
        maps_at(m, i, v),
        v < end,
    ensures
        piece_end(m, v, end) == if m[i].source.end <= end {
            m[i].source.end as int
        } else {
            end
        },
    decreases end - v,
{
    if v + 1 >= end {
    } else if is_boundary(m, v + 1) {
        let j = choose|j: int|
            0 <= j < m.len() && ((#[trigger] m[j]).source.start == v + 1 || m[j].source.end == v
                + 1);
        assert(m[j].wf());
        if j < i {
            assert(m[j].source.end <= m[i].source.start);
        }
        if i < j {
            assert(m[i].source.end <= m[j].source.start);
        }
    } else {
        assert(m[i].source.end != v + 1);
        lemma_piece_end_inside(m, i, v + 1, end);
    }
}

/// The piece that starts in the gap below mapping `k` ends where that
/// mapping's source starts, or at `end` if that comes first or no mapping
/// follows.
pub proof fn lemma_piece_end_gap(m: Seq<RangePair>, k: int, v: int, end: int)
    requires
        table_wf(m),
        in_gap(m, k, v),
        v < end,
    ensures
        piece_end(m, v, end) == if k < m.len() && m[k].source.start <= end {
            m[k].source.start as int
        } else {
            end
        },
    decreases end - v,
{
    if v + 1 >= end {
    } else if is_boundary(m, v + 1) {
        let j = choose|j: int|
            0 <= j < m.len() && ((#[trigger] m[j]).source.start == v + 1 || m[j].source.end == v
                + 1);
        assert(m[j].wf());
        if j < k {
            assert(m[j].source.end <= v);
        }
        if k < j {
            assert(m[k].source.end <= m[j].source.start);
        }
    } else {
        if k < m.len() {
            assert(m[k].source.start != v + 1);
        }
        lemma_piece_end_gap(m, k, v + 1, end);
    }
}

/// Every value is held by a mapping or lies in a gap of the table: the
/// index of that mapping, or of the mapping that ends the gap.
pub proof fn lemma_locate(m: Seq<RangePair>, v: int) -> (k: int)
    requires
        table_wf(m),
    ensures
        maps_at(m, k, v) || in_gap(m, k, v),
    decreases m.len(),
{
    if m.len() == 0 {
        0
    } else {
        let last = m.last();
        let rest = m.drop_last();
        if last.source.end <= v {
            assert forall|j: int| 0 <= j < m.len() implies (#[trigger] m[j]).source.end <= v by {
                if j < m.len() - 1 {
                    assert(m[j].source.end <= m[m.len() - 1].source.start);
                }
            }
            m.len() as int
        } else if last.source.start <= v {
            m.len() - 1
        } else {
            let k = lemma_locate(rest, v);
            if maps_at(rest, k, v) {
                assert(maps_at(m, k, v));
            } else {
                assert forall|j: int| 0 <= j < k implies (#[trigger] m[j]).source.end <= v by {
                    assert(rest[j].source.end <= v);
                }
                if k < rest.len() {
                    assert(m[k] == rest[k]);
                }
                assert(in_gap(m, k, v));
            }
            k
        }
    }
}

/// The image of a `u64` value is a `u64` value.
pub proof fn lemma_image_bounds(m: Seq<RangePair>, v: int)
    requires
        table_wf(m),
        0 <= v <= u64::MAX,
    ensures
        0 <= image(m, v) <= u64::MAX,
{
    let k = lemma_locate(m, v);
    if maps_at(m, k, v) {
        lemma_image_inside(m, k, v);
    } else {
        lemma_gap_unmapped(m, k, v);
    }
}

/// Within one piece the table moves every value as it moves the first,
/// and the piece's image does not leave `u64`.
pub proof fn lemma_piece_linear(m: Seq<RangePair>, start: int, end: int, u: int)
    requires
        table_wf(m),
        0 <= start < end <= u64::MAX,
        start <= u < piece_end(m, start, end),
    ensures
        image(m, u) == image(m, start) + (u - start),
        0 <= image(m, start),
        image(m, start) + (piece_end(m, start, end) - start) <= u64::MAX,
{
    let k = lemma_locate(m, start);
    if maps_at(m, k, start) {
        lemma_piece_end_inside(m, k, start, end);
        lemma_image_inside(m, k, start);
        assert(maps_at(m, k, u));
        lemma_image_inside(m, k, u);
    } else {
        lemma_piece_end_gap(m, k, start, end);
        lemma_gap_unmapped(m, k, start);
        assert(in_gap(m, k, u));
        lemma_gap_unmapped(m, k, u);
    }
}

/// The image of a piece is as long as the piece.
pub proof fn lemma_moved_len(m: Seq<RangePair>, start: int, end: int)
    requires
        table_wf(m),
        0 <= start < end <= u64::MAX,
    ensures
        moved(m, start, piece_end(m, start, end)).start == image(m, start),
        moved(m, start, piece_end(m, start, end)).end == image(m, start) + (piece_end(
            m,
            start,
            end,
        ) - start),
        span_len(moved(m, start, piece_end(m, start, end))) == piece_end(m, start, end) - start,
{
    lemma_piece_end_bounds(m, start, end);
    lemma_piece_linear(m, start, end, start);
}

/// The lengths of two lists laid end to end add up.
pub proof fn lemma_total_len_add(a: Seq<Range<u64>>, b: Seq<Range<u64>>)
    ensures
        total_len(a + b) == total_len(a) + total_len(b),
    decreases b.len(),
{
    if b.len() == 0 {
        assert(a + b =~= a);
    } else {
        assert((a + b).drop_last() =~= a + b.drop_last());
        assert((a + b).last() == b.last());
        lemma_total_len_add(a, b.drop_last());
    }
}

/// The length of a list of one interval is that interval's length.
pub proof fn lemma_total_len_one(r: Range<u64>)
    ensures
        total_len(seq![r]) == span_len(r),
{
    assert(seq![r].drop_last() =~= Seq::<Range<u64>>::empty());
    assert(total_len(seq![r].drop_last()) == 0);
}

/// The fragments of an interval are together as long as the interval:
/// splitting drops nothing and doubles nothing.
pub proof fn lemma_fragments_total_len(m: Seq<RangePair>, start: int, end: int)
    requires
        table_wf(m),
        0 <= start <= end <= u64::MAX,
    ensures
        total_len(fragments(m, start, end)) == end - start,
    decreases end - start,
{
    if start < end {
        let cut = piece_end(m, start, end);
        lemma_piece_end_bounds(m, start, end);
        lemma_moved_len(m, start, end);
        lemma_fragments_total_len(m, cut, end);
        lemma_total_len_one(moved(m, start, cut));
        lemma_total_len_add(seq![moved(m, start, cut)], fragments(m, cut, end));
    }
}

/// The image of one interval is as long as the interval.
pub proof fn lemma_stage_keeps_length(m: Seq<RangePair>, r: Range<u64>)
    requires
        table_wf(m),
    ensures
        total_len(fragments_of(m, seq![r])) == span_len(r),
{
    assert(seq![r].drop_last() =~= Seq::<Range<u64>>::empty());
    assert(fragments_of(m, seq![r].drop_last()) =~= Seq::<Range<u64>>::empty());
    assert(fragments_of(m, seq![r]) =~= fragments(m, r.start as int, r.end as int));
    if r.start <= r.end {
        lemma_fragments_total_len(m, r.start as int, r.end as int);
    }
}

/// The image of a list of intervals is as long as the list.
pub proof fn lemma_stage_keeps_total_len(m: Seq<RangePair>, s: Seq<Range<u64>>)
    requires
        table_wf(m),
    ensures
        total_len(fragments_of(m, s)) == total_len(s),
    decreases s.len(),
{
    if s.len() > 0 {
        let r = s.last();
        lemma_stage_keeps_total_len(m, s.drop_last());
        lemma_total_len_add(
            fragments_of(m, s.drop_last()),
            fragments(m, r.start as int, r.end as int),
        );
        if r.start <= r.end {
            lemma_fragments_total_len(m, r.start as int, r.end as int);
        }
    }
}

/// No fragment is empty.
pub proof fn lemma_fragments_not_empty(m: Seq<RangePair>, start: int, end: int, k: int)
    requires
        table_wf(m),
        0 <= start <= end <= u64::MAX,
        0 <= k < fragments(m, start, end).len(),
    ensures
        fragments(m, start, end)[k].start < fragments(m, start, end)[k].end,
    decreases end - start,
{
    if start < end {
        let cut = piece_end(m, start, end);
        lemma_piece_end_bounds(m, start, end);
        lemma_moved_len(m, start, end);
        if k > 0 {
            lemma_fragments_not_empty(m, cut, end, k - 1);
        }
    }
}

/// The image of the single value `v` is the start of the one fragment of
/// the interval that holds `v` alone.
pub proof fn lemma_point_is_unit_range(m: Seq<RangePair>, v: int)
    requires
        table_wf(m),
        0 <= v < u64::MAX,
    ensures
        fragments(m, v, v + 1).len() == 1,
        fragments(m, v, v + 1)[0].start == image(m, v),
        fragments(m, v, v + 1)[0].end == image(m, v) + 1,
{
    lemma_moved_len(m, v, v + 1);
    assert(fragments(m, v + 1, v + 1) =~= Seq::<Range<u64>>::empty());
}

/// Some value of `start..end` has the image `w`.
pub open spec fn reaches(m: Seq<RangePair>, start: int, end: int, w: int) -> bool {
    exists|v: int| start <= v < end && #[trigger] image(m, v) == w
}

/// The fragments of an interval cover exactly the images of its values.
pub proof fn lemma_fragments_are_image(m: Seq<RangePair>, start: int, end: int, w: int)
    requires
        table_wf(m),
        0 <= start <= end <= u64::MAX,
    ensures
        covers(fragments(m, start, end), w) <==> reaches(m, start, end, w),
    decreases end - start,
{
    let all = fragments(m, start, end);
    if start < end {
        let cut = piece_end(m, start, end);
        let piece = moved(m, start, cut);
        let rest = fragments(m, cut, end);
        lemma_piece_end_bounds(m, start, end);
        lemma_moved_len(m, start, end);
        lemma_fragments_are_image(m, cut, end, w);
        assert(all == seq![piece] + rest);
        if covers(all, w) {
            let k = choose|k: int| 0 <= k < all.len() && in_span(#[trigger] all[k], w);
            if k == 0 {
                let u = start + (w - image(m, start));
                lemma_piece_linear(m, start, end, u);
                assert(start <= u < end && image(m, u) == w);
            } else {
                assert(in_span(rest[k - 1], w));
                assert(covers(rest, w));
                let u = choose|u: int| cut <= u < end && #[trigger] image(m, u) == w;
                assert(start <= u < end && image(m, u) == w);
            }
        }
        if reaches(m, start, end, w) {
            let u = choose|u: int| start <= u < end && #[trigger] image(m, u) == w;
            if u < cut {
                lemma_piece_linear(m, start, end, u);
                assert(in_span(all[0], w));
            } else {
                assert(cut <= u < end && image(m, u) == w);
                assert(reaches(m, cut, end, w));
                let k = choose|k: int| 0 <= k < rest.len() && in_span(#[trigger] rest[k], w);
                assert(in_span(all[k + 1], w));
            }
        }
    }
}

/// Some value that `s` covers has the image `w`.
pub open spec fn reached(m: Seq<RangePair>, s: Seq<Range<u64>>, w: int) -> bool {
    exists|v: int| covers(s, v) && #[trigger] image(m, v) == w
}

/// What the fragments of a list of intervals cover is `v`'s image for the
/// values `v` that the list covers, and nothing else.
pub proof fn lemma_fragments_of_are_image(m: Seq<RangePair>, s: Seq<Range<u64>>, w: int)
    requires
        table_wf(m),
    ensures
        covers(fragments_of(m, s), w) <==> reached(m, s, w),
    decreases s.len(),
{
    if s.len() == 0 {
        if reached(m, s, w) {
            let v = choose|v: int| covers(s, v) && #[trigger] image(m, v) == w;
            assert(covers(s, v));
        }
    } else {
        let r = s.last();
        let before = fragments_of(m, s.drop_last());
        let pieces = fragments(m, r.start as int, r.end as int);
        lemma_fragments_of_are_image(m, s.drop_last(), w);
        if r.start <= r.end {
            lemma_fragments_are_image(m, r.start as int, r.end as int, w);
        }
        lemma_covers_add(before, pieces, w);
        if reached(m, s.drop_last(), w) {
            let v = choose|v: int| covers(s.drop_last(), v) && #[trigger] image(m, v) == w;
            crate::day_five::ranges::lemma_covers_last(s, v);
            assert(covers(s, v) && image(m, v) == w);
        }
        if reaches(m, r.start as int, r.end as int, w) {
            let v = choose|v: int| r.start <= v < r.end && #[trigger] image(m, v) == w;
            crate::day_five::ranges::lemma_covers_last(s, v);
            assert(covers(s, v) && image(m, v) == w);
        }
        if reached(m, s, w) {
            let v = choose|v: int| covers(s, v) && #[trigger] image(m, v) == w;
            crate::day_five::ranges::lemma_covers_last(s, v);
            if covers(s.drop_last(), v) {
                assert(reached(m, s.drop_last(), w));
            } else {
                assert(r.start <= v < r.end && image(m, v) == w);
                assert(reaches(m, r.start as int, r.end as int, w));
            }
        }
    }
}

/// Two lists laid end to end cover what either covers.
pub proof fn lemma_covers_add(a: Seq<Range<u64>>, b: Seq<Range<u64>>, v: int)
    ensures
        covers(a + b, v) <==> covers(a, v) || covers(b, v),
{
    let c = a + b;
    if covers(a, v) {
        let i = choose|i: int| 0 <= i < a.len() && in_span(#[trigger] a[i], v);
        assert(in_span(c[i], v));
    }
    if covers(b, v) {
        let i = choose|i: int| 0 <= i < b.len() && in_span(#[trigger] b[i], v);
        assert(in_span(c[a.len() + i], v));
    }
    if covers(c, v) {
        let i = choose|i: int| 0 <= i < c.len() && in_span(#[trigger] c[i], v);
        if i < a.len() {
            assert(in_span(a[i], v));
        } else {
            assert(in_span(b[i - a.len()], v));
        }
    }
}

/// No fragment of a list of intervals is empty.
pub proof fn lemma_fragments_of_not_empty(m: Seq<RangePair>, s: Seq<Range<u64>>, k: int)
    requires
        table_wf(m),
        0 <= k < fragments_of(m, s).len(),
    ensures
        fragments_of(m, s)[k].start < fragments_of(m, s)[k].end,
    decreases s.len(),
{
    if s.len() > 0 {
        let r = s.last();
        let before = fragments_of(m, s.drop_last());
        if k < before.len() {
            lemma_fragments_of_not_empty(m, s.drop_last(), k);
        } else {
            lemma_fragments_not_empty(m, r.start as int, r.end as int, k - before.len());
        }
    }
}

/// The image of the single value `v` is the start of the first interval
/// that the stage makes of the interval that holds `v` alone.
pub proof fn lemma_point_is_range_start(m: Seq<RangePair>, v: u64)
    requires
        table_wf(m),
        v < u64::MAX,
    ensures
        fragments_of(m, seq![v..((v + 1) as u64)]).len() == 1,
        fragments_of(m, seq![v..((v + 1) as u64)])[0].start == image(m, v as int),
{
    let s = seq![v..((v + 1) as u64)];
    assert(s.drop_last() =~= Seq::<Range<u64>>::empty());
    assert(fragments_of(m, s.drop_last()) =~= Seq::<Range<u64>>::empty());
    assert(fragments_of(m, s) =~= fragments(m, v as int, v + 1));
    lemma_point_is_unit_range(m, v as int);
}

} // verus!
