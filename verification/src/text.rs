//! Text as a list of characters: lines, whitespace-separated fields and
//! decimal numbers.

use vstd::prelude::*;

verus! {

/// How a run of characters is told from what follows it.
#[derive(Clone, Copy)]
pub enum CharClass {
    /// White space.
    Blank,
    /// Anything but white space.
    Solid,
    /// A decimal digit.
    Digit,
    /// Anything but the two characters named.
    Except(char, char),
}

/// The class of the characters within a line: anything but a line feed.
pub open spec fn inline() -> CharClass {
    CharClass::Except('\n', '\n')
}

/// `c` is white space: one of the characters with Unicode's `White_Space`
/// property.
pub open spec fn is_space(c: char) -> bool {
    let n = c as u32;
    (0x09 <= n <= 0x0D) || n == 0x20 || n == 0x85 || n == 0xA0 || n == 0x1680 || (0x2000 <= n
        <= 0x200A) || n == 0x2028 || n == 0x2029 || n == 0x202F || n == 0x205F || n == 0x3000
}

/// `c` belongs to `class`.
pub open spec fn in_class(class: CharClass, c: char) -> bool {
    match class {
        CharClass::Blank => is_space(c),
        CharClass::Solid => !is_space(c),
        CharClass::Digit => '0' <= c <= '9',
        CharClass::Except(a, b) => c != a && c != b,
    }
}

/// The length of the longest prefix of `s` whose characters all belong to
/// `class`.
pub open spec fn run_len(s: Seq<char>, class: CharClass) -> nat
    decreases s.len(),
{
    if s.len() == 0 || !in_class(class, s[0]) {
        0
    } else {
        1 + run_len(s.skip(1), class)
    }
}

/// A run is no longer than the text.
pub proof fn lemma_run_len_bound(s: Seq<char>, class: CharClass)
    ensures
        run_len(s, class) <= s.len(),
    decreases s.len(),
{
    if s.len() > 0 && in_class(class, s[0]) {
        lemma_run_len_bound(s.skip(1), class);
    }
}

/// The run of `class` at the head of `s` has length `k` when the first `k`
/// characters belong to `class` and the next one, if any, does not.
pub proof fn lemma_run_len_is(s: Seq<char>, class: CharClass, k: int)
    requires
        0 <= k <= s.len(),
        forall|j: int| 0 <= j < k ==> in_class(class, #[trigger] s[j]),
        k < s.len() ==> !in_class(class, s[k]),
    ensures
        run_len(s, class) == k,
    decreases s.len(),
{
    if k > 0 {
        let t = s.skip(1);
        assert forall|j: int| 0 <= j < k - 1 implies in_class(class, #[trigger] t[j]) by {
            assert(t[j] == s[j + 1]);
        }
        if k < s.len() {
            assert(t[k - 1] == s[k]);
        }
        lemma_run_len_is(t, class, k - 1);
    }
}

/// Every character of a run belongs to its class, and the one after it does not.
pub proof fn lemma_run_len_holds(s: Seq<char>, class: CharClass)
    ensures
        forall|j: int| 0 <= j < run_len(s, class) ==> in_class(class, #[trigger] s[j]),
        run_len(s, class) < s.len() ==> !in_class(class, s[run_len(s, class) as int]),
    decreases s.len(),
{
    if s.len() > 0 && in_class(class, s[0]) {
        let t = s.skip(1);
        lemma_run_len_holds(t, class);
        lemma_run_len_bound(t, class);
        assert forall|j: int| 0 <= j < run_len(s, class) implies in_class(
            class,
            #[trigger] s[j],
        ) by {
            if j > 0 {
                assert(s[j] == t[j - 1]);
            }
        }
        if run_len(s, class) < s.len() {
            assert(s[run_len(s, class) as int] == t[run_len(t, class) as int]);
        }
    }
}

/// Whether `c` is white space.
pub fn is_space_char(c: char) -> (yes: bool)
    ensures
        yes == is_space(c),
{
    let n = c as u32;
    (0x09 <= n && n <= 0x0D) || n == 0x20 || n == 0x85 || n == 0xA0 || n == 0x1680 || (0x2000
        <= n && n <= 0x200A) || n == 0x2028 || n == 0x2029 || n == 0x202F || n == 0x205F || n
        == 0x3000
}

/// Whether `c` belongs to `class`.
pub fn char_in_class(class: CharClass, c: char) -> (yes: bool)
    ensures
        yes == in_class(class, c),
{
    match class {
        CharClass::Blank => is_space_char(c),
        CharClass::Solid => !is_space_char(c),
        CharClass::Digit => '0' <= c && c <= '9',
        CharClass::Except(a, b) => c != a && c != b,
    }
}

/// Where the run of `class` that starts at `from` ends.
pub fn run_end(text: &Vec<char>, from: usize, class: CharClass) -> (end: usize)
    requires
        from <= text.len(),
    ensures
        from <= end <= text.len(),
        end - from == run_len(text@.skip(from as int), class),
{
    let mut end = from;
    while end < text.len() && char_in_class(class, text[end])
        invariant
            from <= end <= text.len(),
            forall|j: int| from <= j < end ==> in_class(class, #[trigger] text[j]),
        decreases text.len() - end,
    {
        end = end + 1;
    }
    proof {
        let s = text@.skip(from as int);
        assert forall|j: int| 0 <= j < end - from implies in_class(class, #[trigger] s[j]) by {
            assert(s[j] == text[from + j]);
        }
        lemma_run_len_is(s, class, end - from);
    }
    end
}

/// The characters of `text` from `from` up to `to`.
pub fn copy_span(text: &Vec<char>, from: usize, to: usize) -> (part: Vec<char>)
    requires
        from <= to <= text.len(),
    ensures
        part@ == text@.subrange(from as int, to as int),
{
    let mut part: Vec<char> = Vec::new();
    let mut i = from;
    while i < to
        invariant
            from <= i <= to <= text.len(),
            part@ == text@.subrange(from as int, i as int),
        decreases to - i,
    {
        part.push(text[i]);
        assert(text@.subrange(from as int, i + 1) == text@.subrange(from as int, i as int).push(
            text[i as int],
        ));
        i = i + 1;
    }
    part
}

/// The characters of `s`.
pub fn chars_of(s: &str) -> (text: Vec<char>)
    ensures
        text@ == s@,
{
    let mut text: Vec<char> = Vec::new();
    for c in it: s.chars()
        invariant
            text@ == s@.take(it.index() as int),
            it.seq() == s@,
    {
        text.push(c);
    }
    text
}

/// What each list of `v` holds.
pub open spec fn views(v: Seq<Vec<char>>) -> Seq<Seq<char>> {
    Seq::new(v.len(), |i: int| v[i]@)
}

/// `line` without the carriage return at its end, if it has one.
pub open spec fn strip_cr(line: Seq<char>) -> Seq<char> {
    if line.len() > 0 && line.last() == '\r' {
        line.drop_last()
    } else {
        line
    }
}

/// The lines of `s`. A line ends at a line feed, and a carriage return
/// just before the line feed belongs to the line ending. What follows the
/// last line feed is a line too, unless it is empty.
pub open spec fn lines_of(s: Seq<char>) -> Seq<Seq<char>>
    decreases s.len(),
{
    if s.len() == 0 {
        Seq::empty()
    } else {
        proof {
            lemma_run_len_bound(s, inline());
        }
        let k = run_len(s, inline()) as int;
        if k == s.len() {
            seq![s]
        } else {
            seq![strip_cr(s.take(k))] + lines_of(s.skip(k + 1))
        }
    }
}

/// The fields of `s`: its longest runs of characters that are not white space.
pub open spec fn fields_of(s: Seq<char>) -> Seq<Seq<char>>
    decreases s.len(),
{
    proof {
        lemma_run_len_bound(s, CharClass::Blank);
        lemma_run_len_bound(s.skip(run_len(s, CharClass::Blank) as int), CharClass::Solid);
    }
    let a = run_len(s, CharClass::Blank) as int;
    let b = run_len(s.skip(a), CharClass::Solid) as int;
    if b == 0 {
        Seq::empty()
    } else {
        seq![s.subrange(a, a + b)] + fields_of(s.skip(a + b))
    }
}

/// Splits `text` into its lines.
pub fn split_lines(text: &Vec<char>) -> (lines: Vec<Vec<char>>)
    ensures
        views(lines@) == lines_of(text@),
{
    let mut lines: Vec<Vec<char>> = Vec::new();
    let mut at: usize = 0;
    proof {
        assert(text@.skip(0) == text@);
        assert(views(lines@) + lines_of(text@) =~= lines_of(text@));
    }
    while at < text.len()
        invariant
            at <= text.len(),
            views(lines@) + lines_of(text@.skip(at as int)) == lines_of(text@),
        decreases text.len() - at,
    {
        let ghost rest = text@.skip(at as int);
        let ghost done = views(lines@);
        let stop = run_end(text, at, CharClass::Except('\n', '\n'));
        if stop == text.len() {
            lines.push(copy_span(text, at, stop));
            proof {
                assert(text@.subrange(at as int, stop as int) == rest);
                assert(views(lines@) =~= done + seq![rest]);
                assert(text@.skip(stop as int).len() == 0);
                assert(done + seq![rest] + lines_of(text@.skip(stop as int)) =~= done + seq![rest]);
            }
            at = stop;
        } else {
            let cut = if stop > at && text[stop - 1] == '\r' {
                stop - 1
            } else {
                stop
            };
            lines.push(copy_span(text, at, cut));
            proof {
                let k = stop - at;
                assert(rest.take(k) == text@.subrange(at as int, stop as int));
                assert(strip_cr(rest.take(k)) == text@.subrange(at as int, cut as int));
                assert(rest.skip(k + 1) == text@.skip(stop + 1));
                assert(views(lines@) =~= done + seq![strip_cr(rest.take(k))]);
                assert(done + (seq![strip_cr(rest.take(k))] + lines_of(rest.skip(k + 1)))
                    =~= views(lines@) + lines_of(text@.skip(stop + 1)));
            }
            at = stop + 1;
        }
    }
    proof {
        assert(views(lines@) + lines_of(text@.skip(at as int)) =~= views(lines@));
    }
    lines
}

/// Splits `line` into its fields.
pub fn split_fields(line: &Vec<char>) -> (fields: Vec<Vec<char>>)
    ensures
        views(fields@) == fields_of(line@),
{
    let mut fields: Vec<Vec<char>> = Vec::new();
    let mut at: usize = 0;
    proof {
        assert(line@.skip(0) == line@);
        assert(views(fields@) + fields_of(line@) =~= fields_of(line@));
    }
    loop
        invariant
            at <= line.len(),
            views(fields@) + fields_of(line@.skip(at as int)) == fields_of(line@),
        ensures
            views(fields@) == fields_of(line@),
        decreases line.len() - at,
    {
        let ghost rest = line@.skip(at as int);
        let ghost done = views(fields@);
        let from = run_end(line, at, CharClass::Blank);
        let to = run_end(line, from, CharClass::Solid);
        proof {
            assert(rest.skip(from - at) == line@.skip(from as int));
        }
        if to == from {
            proof {
                assert(done + fields_of(rest) =~= done);
            }
            break ;
        }
        fields.push(copy_span(line, from, to));
        proof {
            let a = from - at;
            let b = to - from;
            assert(rest.subrange(a, a + b) == line@.subrange(from as int, to as int));
            assert(rest.skip(a + b) == line@.skip(to as int));
            assert(views(fields@) =~= done + seq![rest.subrange(a, a + b)]);
            assert(done + (seq![rest.subrange(a, a + b)] + fields_of(rest.skip(a + b)))
                =~= views(fields@) + fields_of(line@.skip(to as int)));
        }
        at = to;
    }
    fields
}

/// The pieces of `s` between the characters that do not belong to `class`.
/// Two such characters side by side have an empty piece between them, and
/// so has the text's start or end with one beside it.
pub open spec fn pieces_of(s: Seq<char>, class: CharClass) -> Seq<Seq<char>>
    decreases s.len(),
{
    proof {
        lemma_run_len_bound(s, class);
    }
    let k = run_len(s, class) as int;
    if k == s.len() {
        seq![s]
    } else {
        seq![s.take(k)] + pieces_of(s.skip(k + 1), class)
    }
}

/// Splits `text` at every character that does not belong to `class`.
pub fn split_pieces(text: &Vec<char>, class: CharClass) -> (pieces: Vec<Vec<char>>)
    ensures
        views(pieces@) == pieces_of(text@, class),
        pieces.len() > 0,
{
    let mut pieces: Vec<Vec<char>> = Vec::new();
    let mut at: usize = 0;
    proof {
        assert(text@.skip(0) == text@);
        assert(views(pieces@) + pieces_of(text@, class) =~= pieces_of(text@, class));
    }
    loop
        invariant_except_break
            at <= text.len(),
            views(pieces@) + pieces_of(text@.skip(at as int), class) == pieces_of(text@, class),
        ensures
            views(pieces@) == pieces_of(text@, class),
            pieces.len() > 0,
        decreases text.len() - at,
    {
        let ghost rest = text@.skip(at as int);
        let ghost done = views(pieces@);
        let stop = run_end(text, at, class);
        pieces.push(copy_span(text, at, stop));
        if stop == text.len() {
            proof {
                assert(text@.subrange(at as int, stop as int) == rest);
                assert(views(pieces@) =~= done + seq![rest]);
            }
            break ;
        }
        proof {
            let k = stop - at;
            assert(rest.take(k) == text@.subrange(at as int, stop as int));
            assert(rest.skip(k + 1) == text@.skip(stop + 1));
            assert(views(pieces@) =~= done + seq![rest.take(k)]);
            assert(done + (seq![rest.take(k)] + pieces_of(rest.skip(k + 1), class)) =~= views(
                pieces@,
            ) + pieces_of(text@.skip(stop + 1), class));
        }
        at = stop + 1;
    }
    pieces
}

/// The value of the decimal digit `c`.
pub open spec fn digit_of(c: char) -> Option<int> {
    if '0' <= c <= '9' {
        Some(c as u32 - '0' as u32)
    } else {
        None
    }
}

/// Every character of `s` is a decimal digit.
pub open spec fn all_digits(s: Seq<char>) -> bool {
    forall|i: int| 0 <= i < s.len() ==> digit_of(#[trigger] s[i]) is Some
}

/// The number that the digits `s` write in base ten.
pub open spec fn decimal(s: Seq<char>) -> nat
    decreases s.len(),
{
    if s.len() == 0 {
        0
    } else {
        (decimal(s.drop_last()) * 10 + digit_of(s.last()).unwrap_or(0)) as nat
    }
}

/// `field` without the plus sign at its head, if it has one.
pub open spec fn unsigned(field: Seq<char>) -> Seq<char> {
    if field.len() > 0 && field[0] == '+' {
        field.skip(1)
    } else {
        field
    }
}

/// The number that `field` writes: one or more decimal digits, with or
/// without a plus sign before them, whose value fits in 64 bits.
pub open spec fn number_of(field: Seq<char>) -> Option<u64> {
    let digits = unsigned(field);
    if digits.len() > 0 && all_digits(digits) && decimal(digits) <= u64::MAX {
        Some(decimal(digits) as u64)
    } else {
        None
    }
}

/// The number that a run of digits writes is at least what any prefix of
/// it writes.
proof fn lemma_decimal_grows(s: Seq<char>, k: int)
    requires
        0 <= k <= s.len(),
    ensures
        decimal(s.take(k)) <= decimal(s),
    decreases s.len() - k,
{
    if k < s.len() {
        lemma_decimal_grows(s, k + 1);
        assert(s.take(k + 1).drop_last() == s.take(k));
    } else {
        assert(s.take(k) == s);
    }
}

/// Reads `field` as a number.
pub fn parse_number(field: &Vec<char>) -> (number: Option<u64>)
    ensures
        number == number_of(field@),
{
    let from: usize = if field.len() > 0 && field[0] == '+' {
        1
    } else {
        0
    };
    let ghost digits = unsigned(field@);
    assert(digits == field@.skip(from as int));
    if from == field.len() {
        return None;
    }
    let mut value: u64 = 0;
    let mut i: usize = from;
    proof {
        assert(digits.take(0) =~= Seq::<char>::empty());
    }
    while i < field.len()
        invariant
            from <= i <= field.len(),
            from < field.len(),
            digits == unsigned(field@),
            digits == field@.skip(from as int),
            all_digits(digits.take(i - from)),
            value == decimal(digits.take(i - from)),
        decreases field.len() - i,
    {
        let c = field[i];
        assert(digits[i - from] == c);
        if c < '0' || c > '9' {
            assert(!all_digits(digits));
            return None;
        }
        let d: u64 = (c as u32 - '0' as u32) as u64;
        proof {
            let next = digits.take(i - from + 1);
            assert(next.drop_last() == digits.take(i - from));
            assert(next.last() == c);
            assert forall|j: int| 0 <= j < next.len() implies digit_of(#[trigger] next[j]) is Some by {
                if j < i - from {
                    assert(digits.take(i - from)[j] == next[j]);
                }
            }
            lemma_decimal_grows(digits, i - from + 1);
        }
        let shifted = match value.checked_mul(10) {
            Some(x) => x,
            None => {
                return None;
            },
        };
        value = match shifted.checked_add(d) {
            Some(x) => x,
            None => {
                return None;
            },
        };
        i = i + 1;
    }
    proof {
        assert(digits.take(i - from) == digits);
    }
    Some(value)
}

/// The numbers that the fields write, if each of them writes one.
pub open spec fn numbers_of(fields: Seq<Seq<char>>) -> Option<Seq<u64>>
    decreases fields.len(),
{
    if fields.len() == 0 {
        Some(Seq::empty())
    } else {
        match number_of(fields[0]) {
            None => None,
            Some(first) => match numbers_of(fields.skip(1)) {
                None => None,
                Some(rest) => Some(seq![first] + rest),
            },
        }
    }
}

/// `rest` with `done` put before it.
spec fn numbers_after(done: Seq<u64>, rest: Option<Seq<u64>>) -> Option<Seq<u64>> {
    match rest {
        None => None,
        Some(more) => Some(done + more),
    }
}

/// Reads the fields from `from` on as numbers.
pub fn parse_numbers(fields: &Vec<Vec<char>>, from: usize) -> (numbers: Option<Vec<u64>>)
    requires
        from <= fields.len(),
    ensures
        match numbers {
            Some(list) => numbers_of(views(fields@).skip(from as int)) == Some(list@)
                && list.len() == fields.len() - from,
            None => numbers_of(views(fields@).skip(from as int)) is None,
        },
{
    let ghost all = views(fields@);
    let mut list: Vec<u64> = Vec::new();
    let mut i: usize = from;
    proof {
        let whole = numbers_of(all.skip(from as int));
        if whole is Some {
            assert(list@ + whole.unwrap() =~= whole.unwrap());
        }
    }
    while i < fields.len()
        invariant
            from <= i <= fields.len(),
            all == views(fields@),
            list.len() == i - from,
            numbers_of(all.skip(from as int)) == numbers_after(list@, numbers_of(all.skip(i as int))),
        decreases fields.len() - i,
    {
        let ghost rest = all.skip(i as int);
        let ghost done = list@;
        proof {
            assert(rest[0] == fields[i as int]@);
            assert(rest.skip(1) == all.skip(i + 1));
        }
        match parse_number(&fields[i]) {
            None => {
                return None;
            },
            Some(x) => {
                list.push(x);
                proof {
                    let more = numbers_of(all.skip(i + 1));
                    if more is Some {
                        assert(done + (seq![x] + more.unwrap()) =~= list@ + more.unwrap());
                    }
                }
            },
        }
        i = i + 1;
    }
    proof {
        assert(list@ + Seq::<u64>::empty() =~= list@);
    }
    Some(list)
}

/// Whether `a` and `b` hold the same characters.
pub fn same_text(a: &Vec<char>, b: &Vec<char>) -> (same: bool)
    ensures
        same == (a@ == b@),
{
    if a.len() != b.len() {
        return false;
    }
    let mut i: usize = 0;
    while i < a.len()
        invariant
            i <= a.len(),
            a.len() == b.len(),
            forall|j: int| 0 <= j < i ==> a[j] == b[j],
        decreases a.len() - i,
    {
        if a[i] != b[i] {
            return false;
        }
        i = i + 1;
    }
    assert(a@ =~= b@);
    true
}

} // verus!
