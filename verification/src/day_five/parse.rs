//! The text form of an almanac: a line of seeds, a blank line, and one
//! block for each stage, a header line followed by the stage's rows. Blocks
//! are parted by blank lines.

use crate::day_five::almanac::{along, route_of, stage_views, Almanac};
use crate::day_five::error::AlmanacError;
use crate::day_five::mapping::RangePair;
use crate::day_five::header::{header_of, parse_header};
use crate::day_five::stage::{row_fits, row_pair, rows_disjoint, rows_fit, table_of, RangeMap, StageView};
use crate::text::{chars_of, fields_of, lines_of, numbers_of, parse_numbers, same_text, split_fields, split_lines, views};
use vstd::prelude::*;

verus! {

/// The label that the line of seeds begins with.
pub const SEEDS_LABEL: &'static str = "seeds:";

/// The row that `line` writes: destination start, source start and
/// length, three numbers and no more.
pub open spec fn row_of(line: Seq<char>) -> Result<(u64, u64, u64), AlmanacError> {
    let fields = fields_of(line);
    if fields.len() != 3 {
        Err(AlmanacError::FieldCount)
    } else {
        match numbers_of(fields) {
            None => Err(AlmanacError::Number),
            Some(numbers) => Ok((numbers[0], numbers[1], numbers[2])),
        }
    }
}

/// The mapping that `line` declares.
pub open spec fn pair_in(line: Seq<char>) -> Result<RangePair, AlmanacError> {
    match row_of(line) {
        Err(e) => Err(e),
        Ok(row) => if row_fits(row) {
            Ok(row_pair(row))
        } else {
            Err(AlmanacError::Overflow)
        },
    }
}

/// The seeds that `line` lists after its label.
pub open spec fn seeds_of(line: Seq<char>) -> Result<Seq<u64>, AlmanacError> {
    let fields = fields_of(line);
    if fields.len() == 0 || fields[0] != SEEDS_LABEL@ {
        Err(AlmanacError::SeedLine)
    } else {
        match numbers_of(fields.skip(1)) {
            None => Err(AlmanacError::Number),
            Some(numbers) => Ok(numbers),
        }
    }
}

/// The seeds that the first of `lines` lists.
pub open spec fn seeds_in(lines: Seq<Seq<char>>) -> Result<Seq<u64>, AlmanacError> {
    if lines.len() == 0 {
        Err(AlmanacError::SeedLine)
    } else {
        seeds_of(lines[0])
    }
}

/// The rows that `lines` write, each line one row.
pub open spec fn rows_of(lines: Seq<Seq<char>>) -> Result<Seq<(u64, u64, u64)>, AlmanacError>
    decreases lines.len(),
{
    if lines.len() == 0 {
        Ok(Seq::empty())
    } else {
        match row_of(lines[0]) {
            Err(e) => Err(e),
            Ok(first) => match rows_of(lines.skip(1)) {
                Err(e) => Err(e),
                Ok(rest) => Ok(seq![first] + rest),
            },
        }
    }
}

/// How many lines stand before the first empty one.
pub open spec fn block_len(lines: Seq<Seq<char>>) -> nat
    decreases lines.len(),
{
    if lines.len() == 0 || lines[0].len() == 0 {
        0
    } else {
        1 + block_len(lines.skip(1))
    }
}

/// A block is no longer than the lines it is taken from.
pub proof fn lemma_block_len_bound(lines: Seq<Seq<char>>)
    ensures
        block_len(lines) <= lines.len(),
    decreases lines.len(),
{
    if lines.len() > 0 && lines[0].len() > 0 {
        lemma_block_len_bound(lines.skip(1));
    }
}

/// The block at the head of `lines` has `k` lines when the first `k` are not
/// empty and the next one, if any, is.
proof fn lemma_block_len_is(lines: Seq<Seq<char>>, k: int)
    requires
        0 <= k <= lines.len(),
        forall|j: int| 0 <= j < k ==> (#[trigger] lines[j]).len() > 0,
        k < lines.len() ==> lines[k].len() == 0,
    ensures
        block_len(lines) == k,
    decreases lines.len(),
{
    if k > 0 {
        let t = lines.skip(1);
        assert forall|j: int| 0 <= j < k - 1 implies (#[trigger] t[j]).len() > 0 by {
            assert(t[j] == lines[j + 1]);
        }
        if k < lines.len() {
            assert(t[k - 1] == lines[k]);
        }
        lemma_block_len_is(t, k - 1);
    }
}

/// The stage that the block at the head of `lines` declares, and the
/// number of lines that the block takes: its header, its rows, and the
/// empty line after them if there is one.
pub open spec fn block_of(lines: Seq<Seq<char>>) -> Result<(StageView, int), AlmanacError> {
    match header_of(lines[0]) {
        Err(e) => Err(e),
        Ok(names) => {
            let n = block_len(lines.skip(1)) as int;
            match rows_of(lines.subrange(1, 1 + n)) {
                Err(e) => Err(e),
                Ok(rows) => if !rows_fit(rows) {
                    Err(AlmanacError::Overflow)
                } else if !rows_disjoint(rows) {
                    Err(AlmanacError::Overlap)
                } else {
                    Ok(
                        (
                            StageView {
                                source_name: names.0,
                                dest_name: names.1,
                                pairs: table_of(rows),
                            },
                            if 1 + n < lines.len() {
                                n + 2
                            } else {
                                n + 1
                            },
                        ),
                    )
                },
            }
        },
    }
}

/// The stages that the blocks of `lines` declare, in their order.
pub open spec fn stages_of(lines: Seq<Seq<char>>) -> Result<Seq<StageView>, AlmanacError>
    decreases lines.len(),
{
    if lines.len() == 0 {
        Ok(Seq::empty())
    } else {
        match block_of(lines) {
            Err(e) => Err(e),
            Ok((stage, used)) => {
                proof {
                    lemma_block_len_bound(lines.skip(1));
                }
                match stages_of(lines.skip(used)) {
                    Err(e) => Err(e),
                    Ok(rest) => Ok(seq![stage] + rest),
                }
            },
        }
    }
}

/// The route of the almanac that the blocks of `lines` declare.
pub open spec fn almanac_of(lines: Seq<Seq<char>>) -> Result<Seq<StageView>, AlmanacError> {
    match stages_of(lines) {
        Err(e) => Err(e),
        Ok(stages) => match route_of(stages) {
            None => Err(AlmanacError::BrokenChain),
            Some(chain) => Ok(along(stages, chain)),
        },
    }
}

/// The seeds and the route that `text` declares: the seeds on the first
/// line, an empty second line, the blocks from the third line on.
pub open spec fn loaded(text: Seq<char>) -> Result<(Seq<u64>, Seq<StageView>), AlmanacError> {
    let lines = lines_of(text);
    match seeds_in(lines) {
        Err(e) => Err(e),
        Ok(seeds) => if lines.len() > 1 && lines[1].len() > 0 {
            Err(AlmanacError::Separator)
        } else {
            match almanac_of(
                lines.skip(
                    if lines.len() > 1 {
                        2
                    } else {
                        1
                    },
                ),
            ) {
                Err(e) => Err(e),
                Ok(route) => Ok((seeds, route)),
            }
        },
    }
}

/// Reads `line` as a row of destination start, source start and length.
pub fn parse_row(line: &Vec<char>) -> (row: Result<(u64, u64, u64), AlmanacError>)
    ensures
        row == row_of(line@),
{
    let fields = split_fields(line);
    if fields.len() != 3 {
        return Err(AlmanacError::FieldCount);
    }
    proof {
        assert(views(fields@).skip(0) == views(fields@));
    }
    match parse_numbers(&fields, 0) {
        None => Err(AlmanacError::Number),
        Some(numbers) => Ok((numbers[0], numbers[1], numbers[2])),
    }
}

/// The seeds that the first of `lines` lists: the numbers after the
/// `seeds:` label.
pub fn extract_seeds(lines: &Vec<Vec<char>>) -> (seeds: Result<Vec<u64>, AlmanacError>)
    ensures
        match seeds {
            Ok(list) => seeds_in(views(lines@)) == Ok::<Seq<u64>, AlmanacError>(list@),
            Err(e) => seeds_in(views(lines@)) == Err::<Seq<u64>, AlmanacError>(e),
        },
{
    if lines.len() == 0 {
        return Err(AlmanacError::SeedLine);
    }
    let fields = split_fields(&lines[0]);
    if fields.len() == 0 {
        return Err(AlmanacError::SeedLine);
    }
    let label = chars_of(SEEDS_LABEL);
    if !same_text(&fields[0], &label) {
        return Err(AlmanacError::SeedLine);
    }
    match parse_numbers(&fields, 1) {
        None => Err(AlmanacError::Number),
        Some(list) => Ok(list),
    }
}

impl RangePair {
    /// The mapping that the line `input` declares: three numbers, the
    /// destination start, the source start and the length.
    pub fn parse_new(input: &str) -> (pair: Result<RangePair, AlmanacError>)
        ensures
            pair == pair_in(input@),
            pair matches Ok(p) ==> p.wf(),
    {
        let line = chars_of(input);
        match parse_row(&line) {
            Err(e) => Err(e),
            Ok(row) => match RangePair::new(row.0, row.1, row.2) {
                None => Err(AlmanacError::Overflow),
                Some(pair) => Ok(pair),
            },
        }
    }
}

/// `rest` with `done` put before it.
spec fn rows_after(
    done: Seq<(u64, u64, u64)>,
    rest: Result<Seq<(u64, u64, u64)>, AlmanacError>,
) -> Result<Seq<(u64, u64, u64)>, AlmanacError> {
    match rest {
        Err(e) => Err(e),
        Ok(more) => Ok(done + more),
    }
}

/// `rest` with `done` put before it.
spec fn stages_after(done: Seq<StageView>, rest: Result<Seq<StageView>, AlmanacError>) -> Result<
    Seq<StageView>,
    AlmanacError,
> {
    match rest {
        Err(e) => Err(e),
        Ok(more) => Ok(done + more),
    }
}

/// Where the block of non-empty lines that starts at `from` ends.
fn block_end(lines: &Vec<Vec<char>>, from: usize) -> (end: usize)
    requires
        from <= lines.len(),
    ensures
        from <= end <= lines.len(),
        end - from == block_len(views(lines@).skip(from as int)),
{
    let mut end = from;
    while end < lines.len() && lines[end].len() > 0
        invariant
            from <= end <= lines.len(),
            forall|j: int| from <= j < end ==> (#[trigger] lines[j]).len() > 0,
        decreases lines.len() - end,
    {
        end = end + 1;
    }
    proof {
        let s = views(lines@).skip(from as int);
        assert forall|j: int| 0 <= j < end - from implies (#[trigger] s[j]).len() > 0 by {
            assert(s[j] == lines[from + j]@);
        }
        if end < lines.len() {
            assert(s[end - from] == lines[end as int]@);
        }
        lemma_block_len_is(s, end - from);
    }
    end
}

/// Reads the lines from `from` up to `to` as rows.
fn parse_rows(lines: &Vec<Vec<char>>, from: usize, to: usize) -> (rows: Result<
    Vec<(u64, u64, u64)>,
    AlmanacError,
>)
    requires
        from <= to <= lines.len(),
    ensures
        match rows {
            Ok(list) => rows_of(views(lines@).subrange(from as int, to as int)) == Ok::<
                Seq<(u64, u64, u64)>,
                AlmanacError,
            >(list@),
            Err(e) => rows_of(views(lines@).subrange(from as int, to as int)) == Err::<
                Seq<(u64, u64, u64)>,
                AlmanacError,
            >(e),
        },
{
    let ghost all = views(lines@);
    let mut list: Vec<(u64, u64, u64)> = Vec::new();
    let mut i: usize = from;
    proof {
        let whole = rows_of(all.subrange(from as int, to as int));
        if whole is Ok {
            assert(list@ + whole.unwrap() =~= whole.unwrap());
        }
    }
    while i < to
        invariant
            from <= i <= to <= lines.len(),
            all == views(lines@),
            rows_of(all.subrange(from as int, to as int)) == rows_after(
                list@,
                rows_of(all.subrange(i as int, to as int)),
            ),
        decreases to - i,
    {
        let ghost rest = all.subrange(i as int, to as int);
        let ghost done = list@;
        proof {
            assert(rest[0] == lines[i as int]@);
            assert(rest.skip(1) == all.subrange(i + 1, to as int));
        }
        match parse_row(&lines[i]) {
            Err(e) => {
                return Err(e);
            },
            Ok(row) => {
                list.push(row);
                proof {
                    let more = rows_of(all.subrange(i + 1, to as int));
                    if more is Ok {
                        assert(done + (seq![row] + more.unwrap()) =~= list@ + more.unwrap());
                    }
                }
            },
        }
        i = i + 1;
    }
    proof {
        assert(list@ + Seq::<(u64, u64, u64)>::empty() =~= list@);
    }
    Ok(list)
}

impl RangeMap {
    /// Reads the block that starts at line `from`: a header, then rows up
    /// to an empty line or the end. Gives the stage and the index of the
    /// line at which the next block starts.
    pub fn parse_new(lines: &Vec<Vec<char>>, from: usize) -> (parsed: Result<
        (RangeMap, usize),
        AlmanacError,
    >)
        requires
            from < lines.len(),
        ensures
            match parsed {
                Ok((stage, next)) => from < next <= lines.len() && block_of(
                    views(lines@).skip(from as int),
                ) == Ok::<(StageView, int), AlmanacError>((stage@, next - from)),
                Err(e) => block_of(views(lines@).skip(from as int)) == Err::<
                    (StageView, int),
                    AlmanacError,
                >(e),
            },
    {
        let ghost all = views(lines@);
        let ghost block = all.skip(from as int);
        proof {
            assert(block[0] == lines[from as int]@);
            assert(block.skip(1) == all.skip(from + 1));
        }
        let (source_name, dest_name) = match parse_header(&lines[from]) {
            Err(e) => {
                return Err(e);
            },
            Ok(names) => names,
        };
        let end = block_end(lines, from + 1);
        proof {
            assert(block.subrange(1, 1 + (end - from - 1)) == all.subrange(from + 1, end as int));
        }
        let rows = match parse_rows(lines, from + 1, end) {
            Err(e) => {
                return Err(e);
            },
            Ok(rows) => rows,
        };
        let next = if end < lines.len() {
            end + 1
        } else {
            end
        };
        match RangeMap::new(source_name, dest_name, rows) {
            Err(e) => Err(e),
            Ok(stage) => Ok((stage, next)),
        }
    }
}

impl Almanac {
    /// Reads the blocks from line `from` on and makes the almanac of
    /// their stages.
    pub fn parse_new(lines: &Vec<Vec<char>>, from: usize) -> (parsed: Result<Almanac, AlmanacError>)
        requires
            from <= lines.len(),
        ensures
            match parsed {
                Ok(almanac) => almanac_of(views(lines@).skip(from as int)) == Ok::<
                    Seq<StageView>,
                    AlmanacError,
                >(almanac@),
                Err(e) => almanac_of(views(lines@).skip(from as int)) == Err::<
                    Seq<StageView>,
                    AlmanacError,
                >(e),
            },
    {
        let ghost all = views(lines@);
        let mut maps: Vec<RangeMap> = Vec::new();
        let mut at: usize = from;
        proof {
            let whole = stages_of(all.skip(from as int));
            if whole is Ok {
                assert(stage_views(maps@) + whole.unwrap() =~= whole.unwrap());
            }
        }
        while at < lines.len()
            invariant
                from <= at <= lines.len(),
                all == views(lines@),
                stages_of(all.skip(from as int)) == stages_after(
                    stage_views(maps@),
                    stages_of(all.skip(at as int)),
                ),
            decreases lines.len() - at,
        {
            let ghost done = stage_views(maps@);
            match RangeMap::parse_new(lines, at) {
                Err(e) => {
                    return Err(e);
                },
                Ok((stage, next)) => {
                    proof {
                        assert(all.skip(at as int).skip(next - at) == all.skip(next as int));
                    }
                    let ghost view = stage@;
                    maps.push(stage);
                    proof {
                        assert(stage_views(maps@) =~= done + seq![view]);
                        let more = stages_of(all.skip(next as int));
                        if more is Ok {
                            assert(done + (seq![view] + more.unwrap()) =~= stage_views(maps@)
                                + more.unwrap());
                        }
                    }
                    at = next;
                },
            }
        }
        proof {
            assert(stage_views(maps@) + Seq::<StageView>::empty() =~= stage_views(maps@));
        }
        Almanac::new(maps)
    }
}

/// Reads `input` as an almanac: the seeds and the route through the stages.
pub fn parse_input(input: &str) -> (parsed: Result<(Vec<u64>, Almanac), AlmanacError>)
    ensures
        match parsed {
            Ok((seeds, almanac)) => loaded(input@) == Ok::<
                (Seq<u64>, Seq<StageView>),
                AlmanacError,
            >((seeds@, almanac@)),
            Err(e) => loaded(input@) == Err::<(Seq<u64>, Seq<StageView>), AlmanacError>(e),
        },
{
    let text = chars_of(input);
    let lines = split_lines(&text);
    let seeds = match extract_seeds(&lines) {
        Err(e) => {
            return Err(e);
        },
        Ok(seeds) => seeds,
    };
    if lines.len() > 1 && lines[1].len() > 0 {
        return Err(AlmanacError::Separator);
    }
    let from: usize = if lines.len() > 1 {
        2
    } else {
        1
    };
    match Almanac::parse_new(&lines, from) {
        Err(e) => Err(e),
        Ok(almanac) => Ok((seeds, almanac)),
    }
}

} // verus!
