//! A stage: a named step from one domain to the next, held as a table of
//! mappings sorted by source. Values and intervals that no mapping holds
//! pass through unchanged.

use crate::day_five::error::AlmanacError;
use crate::day_five::mapping::{pair_of, RangeConversion, RangePair};
use crate::order::{is_sorted_order, precedes, sort_order};
use crate::day_five::piecewise::{fragments, fragments_of, image, in_gap, lemma_gap_unmapped, lemma_image_inside, lemma_piece_end_bounds, lemma_piece_end_gap, lemma_piece_end_inside, maps_at, moved, piece_end, table_wf};
use crate::day_five::ranges::in_span;
use std::ops::Range;
use vstd::prelude::*;

verus! {

/// One stage of an almanac.
pub struct RangeMap {
    source_name: String,
    dest_name: String,
    pairs: Vec<RangePair>,
}

/// What a stage stands for: the names of the two domains and the table.
pub struct StageView {
    pub source_name: Seq<char>,
    pub dest_name: Seq<char>,
    pub pairs: Seq<RangePair>,
}

impl View for RangeMap {
    type V = StageView;

    closed spec fn view(&self) -> StageView {
        StageView {
            source_name: self.source_name@,
            dest_name: self.dest_name@,
            pairs: self.pairs@,
        }
    }
}

/// Both intervals of the row `(destination start, source start, length)`
/// end within `u64`.
pub open spec fn row_fits(row: (u64, u64, u64)) -> bool {
    row.1 + row.2 <= u64::MAX && row.0 + row.2 <= u64::MAX
}

/// Every row fits.
pub open spec fn rows_fit(rows: Seq<(u64, u64, u64)>) -> bool {
    forall|i: int| 0 <= i < rows.len() ==> row_fits(#[trigger] rows[i])
}

/// Two rows of non-zero length whose sources share a value.
pub open spec fn rows_clash(a: (u64, u64, u64), b: (u64, u64, u64)) -> bool {
    a.2 > 0 && b.2 > 0 && a.1 < b.1 + b.2 && b.1 < a.1 + a.2
}

/// No two rows clash.
pub open spec fn rows_disjoint(rows: Seq<(u64, u64, u64)>) -> bool {
    forall|i: int, j: int|
        0 <= i < j < rows.len() ==> !rows_clash(#[trigger] rows[i], #[trigger] rows[j])
}

/// The mapping that a row declares.
pub open spec fn row_pair(row: (u64, u64, u64)) -> RangePair {
    pair_of(row.0, row.1, row.2)
}

/// Some row of non-zero length declares the mapping `pair`.
pub open spec fn declares(rows: Seq<(u64, u64, u64)>, pair: RangePair) -> bool {
    exists|i: int| 0 <= i < rows.len() && (#[trigger] rows[i]).2 > 0 && pair == row_pair(rows[i])
}

/// `pairs` holds the mappings that the rows of non-zero length declare, and
/// no other.
pub open spec fn holds_rows(pairs: Seq<RangePair>, rows: Seq<(u64, u64, u64)>) -> bool {
    forall|pair: RangePair|
        #![trigger pairs.contains(pair)]
        #![trigger declares(rows, pair)]
        pairs.contains(pair) <==> declares(rows, pair)
}

/// The table that the rows declare: their mappings of non-zero length,
/// sorted by source.
pub open spec fn table_of(rows: Seq<(u64, u64, u64)>) -> Seq<RangePair> {
    choose|table: Seq<RangePair>| table_wf(table) && holds_rows(table, rows)
}

/// In a table no mapping stands twice.
proof fn lemma_table_distinct(t: Seq<RangePair>, i: int, j: int)
    requires
        table_wf(t),
        0 <= i < t.len(),
        0 <= j < t.len(),
        t[i] == t[j],
    ensures
        i == j,
{
    if i < j {
        assert(t[i].source.end <= t[j].source.start);
    }
    if j < i {
        assert(t[j].source.end <= t[i].source.start);
    }
}

/// Two tables that hold the same mappings are the same table.
pub proof fn lemma_table_unique(a: Seq<RangePair>, b: Seq<RangePair>)
    requires
        table_wf(a),
        table_wf(b),
        forall|pair: RangePair| a.contains(pair) <==> b.contains(pair),
    ensures
        a == b,
    decreases a.len(),
{
    if a.len() == 0 {
        if b.len() > 0 {
            assert(b.contains(b[0]));
        }
        assert(a =~= b);
    } else if b.len() == 0 {
        assert(a.contains(a[0]));
    } else {
        let x = a.last();
        let y = b.last();
        assert(a.contains(x));
        assert(b.contains(y));
        let j = choose|j: int| 0 <= j < b.len() && b[j] == x;
        let i = choose|i: int| 0 <= i < a.len() && a[i] == y;
        if i < a.len() - 1 && j < b.len() - 1 {
            assert(a[i].source.end <= a[a.len() - 1].source.start);
            assert(b[j].source.end <= b[b.len() - 1].source.start);
        }
        assert(x == y);
        let ra = a.drop_last();
        let rb = b.drop_last();
        assert forall|pair: RangePair| ra.contains(pair) <==> rb.contains(pair) by {
            if ra.contains(pair) {
                let k = choose|k: int| 0 <= k < ra.len() && ra[k] == pair;
                assert(a[k] == pair);
                assert(a.contains(pair));
                if pair == x {
                    lemma_table_distinct(a, k, a.len() - 1);
                }
                let l = choose|l: int| 0 <= l < b.len() && b[l] == pair;
                assert(rb[l] == pair);
            }
            if rb.contains(pair) {
                let k = choose|k: int| 0 <= k < rb.len() && rb[k] == pair;
                assert(b[k] == pair);
                assert(b.contains(pair));
                if pair == y {
                    lemma_table_distinct(b, k, b.len() - 1);
                }
                let l = choose|l: int| 0 <= l < a.len() && a[l] == pair;
                assert(ra[l] == pair);
            }
        }
        lemma_table_unique(ra, rb);
        assert(a =~= ra.push(x));
        assert(b =~= rb.push(y));
    }
}

/// A table that holds the rows' mappings is the table that the rows declare.
pub proof fn lemma_is_table_of(table: Seq<RangePair>, rows: Seq<(u64, u64, u64)>)
    requires
        table_wf(table),
        holds_rows(table, rows),
    ensures
        table == table_of(rows),
{
    let other = table_of(rows);
    assert(table_wf(other) && holds_rows(other, rows));
    assert forall|pair: RangePair| table.contains(pair) <==> other.contains(pair) by {
        assert(table.contains(pair) <==> declares(rows, pair));
        assert(other.contains(pair) <==> declares(rows, pair));
    }
    lemma_table_unique(table, other);
}

/// `pairs` are the mappings of the rows of non-zero length among the first
/// `upto` rows, in the rows' order; `origin` gives each mapping's row.
spec fn drawn_from(
    pairs: Seq<RangePair>,
    rows: Seq<(u64, u64, u64)>,
    origin: Seq<int>,
    upto: int,
) -> bool {
    &&& origin.len() == pairs.len()
    &&& forall|a: int|
        0 <= a < pairs.len() ==> 0 <= #[trigger] origin[a] < upto && rows[origin[a]].2 > 0
            && pairs[a] == row_pair(rows[origin[a]])
    &&& forall|a: int, b: int|
        0 <= a < b < pairs.len() ==> #[trigger] origin[a] < #[trigger] origin[b]
    &&& forall|i: int| 0 <= i < upto && rows[i].2 > 0 ==> #[trigger] origin.contains(i)
}

/// The mappings that the rows of non-zero length declare, in the rows'
/// order, unless a row does not fit.
fn pairs_of_rows(rows: &Vec<(u64, u64, u64)>) -> (made: Option<(Vec<RangePair>, Ghost<Seq<int>>)>)
    ensures
        made is Some <==> rows_fit(rows@),
        made matches Some(found) ==> drawn_from(found.0@, rows@, found.1@, rows.len() as int),
{
    let mut pairs: Vec<RangePair> = Vec::new();
    let ghost mut origin: Seq<int> = Seq::empty();
    let mut i: usize = 0;
    while i < rows.len()
        invariant
            i <= rows.len(),
            rows_fit(rows@.take(i as int)),
            drawn_from(pairs@, rows@, origin, i as int),
        decreases rows.len() - i,
    {
        let row = rows[i];
        let ghost before = pairs@;
        let ghost origin_before = origin;
        match RangePair::new(row.0, row.1, row.2) {
            None => {
                assert(!row_fits(rows@[i as int]));
                return None;
            },
            Some(pair) => {
                if row.2 > 0 {
                    pairs.push(pair);
                    proof {
                        origin = origin.push(i as int);
                        assert forall|r: int| 0 <= r < i + 1 && rows@[r].2 > 0 implies #[trigger] origin.contains(
                            r,
                        ) by {
                            if r < i {
                                assert(origin_before.contains(r));
                                let a = choose|a: int|
                                    0 <= a < origin_before.len() && origin_before[a] == r;
                                assert(origin[a] == r);
                            } else {
                                assert(origin[before.len() as int] == r);
                            }
                        }
                    }
                }
            },
        }
        proof {
            assert forall|r: int| 0 <= r < i + 1 implies row_fits(
                #[trigger] rows@.take(i + 1)[r],
            ) by {
                if r < i {
                    assert(row_fits(rows@.take(i as int)[r]));
                }
            }
        }
        i = i + 1;
    }
    proof {
        assert(rows@.take(i as int) == rows@);
    }
    Some((pairs, Ghost(origin)))
}

/// The source starts of `pairs`, in their order.
fn source_starts(pairs: &Vec<RangePair>) -> (keys: Vec<u64>)
    ensures
        keys.len() == pairs.len(),
        forall|i: int| 0 <= i < keys.len() ==> #[trigger] keys[i] == pairs[i].source.start,
{
    let mut keys: Vec<u64> = Vec::new();
    let mut i: usize = 0;
    while i < pairs.len()
        invariant
            i <= pairs.len(),
            keys.len() == i,
            forall|k: int| 0 <= k < i ==> #[trigger] keys[k] == pairs[k].source.start,
        decreases pairs.len() - i,
    {
        keys.push(pairs[i].source.start);
        i = i + 1;
    }
    keys
}

/// A sorted, overlap-free arrangement of the rows' mappings holds them all,
/// and shows that no two rows clash.
proof fn lemma_sorted_holds_rows(
    sorted: Seq<RangePair>,
    pairs: Seq<RangePair>,
    order: Seq<usize>,
    keys: Seq<u64>,
    rows: Seq<(u64, u64, u64)>,
    origin: Seq<int>,
)
    requires
        keys.len() == pairs.len(),
        pairs.len() <= usize::MAX,
        is_sorted_order(keys, order),
        drawn_from(pairs, rows, origin, rows.len() as int),
        rows_fit(rows),
        sorted.len() == pairs.len(),
        forall|i: int| 0 <= i < sorted.len() ==> #[trigger] sorted[i] == pairs[order[i] as int],
        table_wf(sorted),
    ensures
        holds_rows(sorted, rows),
        rows_disjoint(rows),
{
    assert forall|pair: RangePair| sorted.contains(pair) implies declares(rows, pair) by {
        let k = choose|k: int| 0 <= k < sorted.len() && sorted[k] == pair;
        let a = order[k] as int;
        let i = origin[a];
        assert(rows[i].2 > 0 && pair == row_pair(rows[i]));
    }
    assert forall|pair: RangePair| declares(rows, pair) implies sorted.contains(pair) by {
        let i = choose|i: int|
            0 <= i < rows.len() && (#[trigger] rows[i]).2 > 0 && pair == row_pair(rows[i]);
        let k = lemma_place_of_row(pairs, order, keys, rows, origin, i);
        assert(sorted[k] == pair);
    }
    assert forall|i: int, j: int| 0 <= i < j < rows.len() implies !rows_clash(
        #[trigger] rows[i],
        #[trigger] rows[j],
    ) by {
        if rows[i].2 > 0 && rows[j].2 > 0 {
            let ki = lemma_place_of_row(pairs, order, keys, rows, origin, i);
            let kj = lemma_place_of_row(pairs, order, keys, rows, origin, j);
            assert(row_fits(rows[i]) && row_fits(rows[j]));
            assert(sorted[ki] == row_pair(rows[i]));
            assert(sorted[kj] == row_pair(rows[j]));
            if ki < kj {
                assert(sorted[ki].source.end <= sorted[kj].source.start);
            } else if kj < ki {
                assert(sorted[kj].source.end <= sorted[ki].source.start);
            }
        }
    }
}

/// The place in the sorted order of the mapping that row `i` declares.
proof fn lemma_place_of_row(
    pairs: Seq<RangePair>,
    order: Seq<usize>,
    keys: Seq<u64>,
    rows: Seq<(u64, u64, u64)>,
    origin: Seq<int>,
    i: int,
) -> (k: int)
    requires
        keys.len() == pairs.len(),
        pairs.len() <= usize::MAX,
        is_sorted_order(keys, order),
        drawn_from(pairs, rows, origin, rows.len() as int),
        0 <= i < rows.len(),
        rows[i].2 > 0,
    ensures
        0 <= k < order.len(),
        0 <= order[k] < pairs.len(),
        origin[order[k] as int] == i,
        pairs[order[k] as int] == row_pair(rows[i]),
{
    assert(origin.contains(i));
    let a = choose|a: int| 0 <= a < origin.len() && origin[a] == i;
    assert(order.contains(a as usize));
    let k = choose|k: int| 0 <= k < order.len() && order[k] == a as usize;
    k
}

impl RangeMap {
    #[verifier::type_invariant]
    spec fn inv(self) -> bool {
        table_wf(self.pairs@)
    }

    /// The table is sorted and free of overlap and of empty mappings. Every
    /// stage that this library hands out is well formed.
    pub open spec fn wf(&self) -> bool {
        table_wf(self@.pairs)
    }

    /// The stage from `source_name` to `dest_name` that the rows declare,
    /// each row a triple of destination start, source start and length.
    /// Rows of length zero map nothing and are left out; the others are
    /// sorted by source start. A row that does not fit in `u64` is
    /// refused, and so are two rows that claim the same source value.
    pub fn new(source_name: String, dest_name: String, rows: Vec<(u64, u64, u64)>) -> (made: Result<
        RangeMap,
        AlmanacError,
    >)
        ensures
            made is Ok <==> rows_fit(rows@) && rows_disjoint(rows@),
            !rows_fit(rows@) ==> (made matches Err(e) && e == AlmanacError::Overflow),
            rows_fit(rows@) && !rows_disjoint(rows@) ==> (made matches Err(e) && e
                == AlmanacError::Overlap),
            made matches Ok(stage) ==> {
                &&& stage@.source_name == source_name@
                &&& stage@.dest_name == dest_name@
                &&& stage.wf()
                &&& holds_rows(stage@.pairs, rows@)
                &&& stage@.pairs == table_of(rows@)
            },
    {
        let (pairs, Ghost(origin)) = match pairs_of_rows(&rows) {
            None => {
                return Err(AlmanacError::Overflow);
            },
            Some(found) => found,
        };
        let keys = source_starts(&pairs);
        let order = sort_order(&keys);
        let mut sorted: Vec<RangePair> = Vec::new();
        let mut k: usize = 0;
        while k < order.len()
            invariant
                k <= order.len(),
                order.len() == pairs.len(),
                keys.len() == pairs.len(),
                forall|i: int| 0 <= i < keys.len() ==> #[trigger] keys[i] == pairs[i].source.start,
                is_sorted_order(keys@, order@),
                drawn_from(pairs@, rows@, origin, rows.len() as int),
                rows_fit(rows@),
                sorted.len() == k,
                forall|i: int| 0 <= i < k ==> #[trigger] sorted[i] == pairs[order[i] as int],
                table_wf(sorted@),
            decreases order.len() - k,
        {
            let pair = &pairs[order[k]];
            proof {
                let a = order[k as int] as int;
                assert(pairs[a] == row_pair(rows[origin[a]]));
                assert(row_fits(rows[origin[a]]));
            }
            if k > 0 {
                let previous = &sorted[k - 1];
                if previous.source.end > pair.source.start {
                    proof {
                        let a = order[k - 1] as int;
                        let b = order[k as int] as int;
                        assert(precedes(keys@, order[k - 1], order[k as int]));
                        assert(pairs[a] == row_pair(rows[origin[a]]));
                        assert(pairs[b] == row_pair(rows[origin[b]]));
                        assert(row_fits(rows[origin[a]]) && row_fits(rows[origin[b]]));
                        assert(a != b);
                        if a < b {
                            assert(origin[a] < origin[b]);
                        } else {
                            assert(origin[b] < origin[a]);
                        }
                        assert(rows_clash(rows[origin[a]], rows[origin[b]]));
                        assert(rows_clash(rows[origin[b]], rows[origin[a]]));
                    }
                    return Err(AlmanacError::Overlap);
                }
            }
            let ghost before = sorted@;
            sorted.push(
                RangePair {
                    source: pair.source.start..pair.source.end,
                    destination: pair.destination.start..pair.destination.end,
                },
            );
            proof {
                assert(sorted[k as int] == pairs[order[k as int] as int]);
                assert forall|i: int, j: int| 0 <= i < j < sorted.len() implies (
                #[trigger] sorted[i]).source.end <= (#[trigger] sorted[j]).source.start by {
                    if j == k {
                        if i < k - 1 {
                            assert(before[i].source.end <= before[k - 1].source.start);
                        }
                    } else {
                        assert(before[i].source.end <= before[j].source.start);
                    }
                }
            }
            k = k + 1;
        }
        proof {
            lemma_sorted_holds_rows(sorted@, pairs@, order@, keys@, rows@, origin);
            lemma_is_table_of(sorted@, rows@);
        }
        Ok(RangeMap { source_name, dest_name, pairs: sorted })
    }

    /// The domain that the stage maps from.
    pub fn source_name(&self) -> (name: &String)
        ensures
            name@ == self@.source_name,
            self.wf(),
    {
        proof {
            use_type_invariant(self);
        }
        &self.source_name
    }

    /// The domain that the stage maps to.
    pub fn dest_name(&self) -> (name: &String)
        ensures
            name@ == self@.dest_name,
            self.wf(),
    {
        proof {
            use_type_invariant(self);
        }
        &self.dest_name
    }

    /// The table: the mappings in ascending order of their sources.
    pub fn pairs(&self) -> (table: &Vec<RangePair>)
        ensures
            table@ == self@.pairs,
            self.wf(),
    {
        proof {
            use_type_invariant(self);
        }
        &self.pairs
    }

    /// The number of mappings in the table.
    pub fn len(&self) -> (n: usize)
        ensures
            n == self@.pairs.len(),
            self.wf(),
    {
        proof {
            use_type_invariant(self);
        }
        self.pairs.len()
    }

    /// Where `input` stands in the table: `Ok` with the index of the
    /// mapping that holds it, or `Err` with the index of the first mapping
    /// that starts above it, which is the number of mappings if none does.
    pub fn find_containing_range(&self, input: &u64) -> (located: Result<usize, usize>)
        ensures
            self.wf(),
            match located {
                Ok(i) => maps_at(self@.pairs, i as int, *input as int),
                Err(k) => in_gap(self@.pairs, k as int, *input as int),
            },
    {
        proof {
            use_type_invariant(self);
        }
        let value = *input;
        let mut low: usize = 0;
        let mut high: usize = self.pairs.len();
        while low < high
            invariant
                low <= high <= self.pairs.len(),
                value == *input,
                table_wf(self.pairs@),
                forall|j: int| 0 <= j < low ==> (#[trigger] self.pairs[j]).source.end <= value,
                forall|j: int|
                    high <= j < self.pairs.len() ==> value < (#[trigger] self.pairs[j]).source.start,
            decreases high - low,
        {
            let mid = low + (high - low) / 2;
            let pair = &self.pairs[mid];
            if pair.source.start <= value && value < pair.source.end {
                return Ok(mid);
            }
            if pair.source.start < value {
                assert forall|j: int| 0 <= j < mid + 1 implies (#[trigger] self.pairs[j]).source.end
                    <= value by {
                    if j < mid {
                        assert(self.pairs[j].source.end <= self.pairs[mid as int].source.start);
                    }
                }
                low = mid + 1;
            } else {
                assert forall|j: int| mid <= j < self.pairs.len() implies value < (
                #[trigger] self.pairs[j]).source.start by {
                    if mid < j {
                        assert(self.pairs[mid as int].source.end <= self.pairs[j].source.start);
                    }
                }
                high = mid;
            }
        }
        Err(low)
    }

    /// Where the stage sends `input`: moved by the mapping that holds it,
    /// or unchanged if none does.
    pub fn to_destination(&self, input: &u64) -> (output: u64)
        ensures
            output == image(self@.pairs, *input as int),
    {
        proof {
            use_type_invariant(self);
        }
        match self.find_containing_range(input) {
            Ok(index) => {
                proof {
                    lemma_image_inside(self.pairs@, index as int, *input as int);
                }
                self.pairs[index].to_destination(input)
            },
            Err(index) => {
                proof {
                    lemma_gap_unmapped(self.pairs@, index as int, *input as int);
                }
                *input
            },
        }
    }
    /// The image of `range` under the stage: one interval for each stretch
    /// of `range` inside one mapping or inside one gap, from the lowest
    /// stretch up. Stretches inside a mapping move by its offset, those in
    /// a gap stay. An empty `range` gives nothing.
    pub fn range_to_destination(&self, range: &Range<u64>) -> (output: Vec<Range<u64>>)
        ensures
            output@ == fragments(self@.pairs, range.start as int, range.end as int),
    {
        proof {
            use_type_invariant(self);
        }
        let mut output: Vec<Range<u64>> = Vec::new();
        let end = range.end;
        let mut start = range.start;
        if start >= end {
            return output;
        }
        let mut index = match self.find_containing_range(&start) {
            Ok(i) => i,
            Err(k) => k,
        };
        while start < end
            invariant
                table_wf(self.pairs@),
                range.start <= start <= end,
                end == range.end,
                index <= self.pairs.len(),
                start < end ==> maps_at(self.pairs@, index as int, start as int) || in_gap(
                    self.pairs@,
                    index as int,
                    start as int,
                ),
                output@ + fragments(self.pairs@, start as int, end as int) == fragments(
                    self.pairs@,
                    range.start as int,
                    range.end as int,
                ),
            decreases end - start,
        {
            let ghost table = self.pairs@;
            let ghost done = output@;
            let ghost from = start as int;
            let ghost cut = piece_end(table, from, end as int);
            proof {
                lemma_piece_end_bounds(table, from, end as int);
                if maps_at(table, index as int, from) {
                    lemma_image_inside(table, index as int, from);
                    lemma_piece_end_inside(table, index as int, from, end as int);
                } else {
                    lemma_gap_unmapped(table, index as int, from);
                    lemma_piece_end_gap(table, index as int, from, end as int);
                }
            }
            if index == self.pairs.len() {
                output.push(start..end);
                start = end;
            } else {
                let pair = &self.pairs[index];
                if start < pair.source.start {
                    let stop = if pair.source.start < end {
                        pair.source.start
                    } else {
                        end
                    };
                    output.push(start..stop);
                    start = stop;
                } else {
                    match pair.range_to_destination(&(start..end)) {
                        RangeConversion::Complete(converted) => {
                            output.push(converted);
                            start = end;
                        },
                        RangeConversion::Remainder(converted, remainder) => {
                            output.push(converted);
                            start = remainder.start;
                            index = index + 1;
                            proof {
                                assert forall|j: int| 0 <= j < index implies (
                                #[trigger] table[j]).source.end <= start by {
                                    if j < index - 1 {
                                        assert(table[j].source.end <= table[index - 1].source.start);
                                    }
                                }
                                if index < table.len() {
                                    assert(table[index - 1].source.end <= table[index as int].source.start);
                                }
                            }
                        },
                    }
                }
            }
            proof {
                assert(start == cut);
                assert(output@ == done.push(moved(table, from, cut)));
                assert(done + (seq![moved(table, from, cut)] + fragments(table, cut, end as int))
                    =~= output@ + fragments(table, cut, end as int));
            }
        }
        proof {
            assert(output@ + Seq::<Range<u64>>::empty() =~= output@);
        }
        output
    }

    /// The image of every interval of `input` under the stage, the pieces
    /// of the first interval first. The result is in general neither
    /// sorted nor merged.
    pub fn ranges_to_destination(&self, input: Vec<Range<u64>>) -> (output: Vec<Range<u64>>)
        ensures
            output@ == fragments_of(self@.pairs, input@),
    {
        let mut output: Vec<Range<u64>> = Vec::new();
        let mut i: usize = 0;
        while i < input.len()
            invariant
                i <= input.len(),
                output@ == fragments_of(self@.pairs, input@.take(i as int)),
            decreases input.len() - i,
        {
            let mut pieces = self.range_to_destination(&input[i]);
            output.append(&mut pieces);
            proof {
                let upto = input@.take(i + 1);
                assert(upto.drop_last() == input@.take(i as int));
                assert(upto.last() == input@[i as int]);
            }
            i = i + 1;
        }
        proof {
            assert(input@.take(i as int) == input@);
        }
        output
    }
}

} // verus!
