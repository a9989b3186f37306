//! Turning a pair of grid coordinates into text, independent of any
//! terminal host.
//!
//! A selection runs between two [`Cursor`]s in reading order, inclusive of
//! the end cell, clamped against stale coordinates, and counted in
//! characters rather than bytes. [`trim_trailing_blanks`] removes the
//! padding a terminal grid adds to every row.

use vstd::prelude::*;
use crate::text;

verus! {

/// A zero-based position within a grid of text lines: `row` indexes a
/// line, `col` is a **character** offset within it.
#[derive(Debug, Clone, Copy, PartialEq, Eq, Structural, PartialOrd, Ord, Hash)]
pub struct Cursor {
    /// The zero-based line index.
    pub row: usize,
    /// The zero-based character offset within the line at `row`.
    pub col: usize,
}

impl Cursor {
    /// Creates a cursor at the given row and column.
    pub fn new(row: usize, col: usize) -> (c: Self)
        ensures
            c.row == row,
            c.col == col,
    {
        Cursor { row, col }
    }
}

/// Row-major reading order: `a` comes strictly before `b`.
pub open spec fn cursor_lt(a: Cursor, b: Cursor) -> bool {
    a.row < b.row || (a.row == b.row && a.col < b.col)
}

/// The two endpoints in reading order (earlier first).
pub open spec fn ordered(a: Cursor, b: Cursor) -> (Cursor, Cursor) {
    if cursor_lt(b, a) {
        (b, a)
    } else {
        (a, b)
    }
}

/// Whether `b` comes strictly before `a` in reading order.
pub fn cursor_before(b: Cursor, a: Cursor) -> (r: bool)
    ensures
        r == cursor_lt(b, a),
{
    b.row < a.row || (b.row == a.row && b.col < a.col)
}

/// Orders two endpoints so that the first never comes after the second.
pub fn order_endpoints(a: Cursor, b: Cursor) -> (r: (Cursor, Cursor))
    ensures
        r == ordered(a, b),
{
    if cursor_before(b, a) {
        (b, a)
    } else {
        (a, b)
    }
}

pub open spec fn min_int(a: int, b: int) -> int {
    if a <= b {
        a
    } else {
        b
    }
}

/// The characters of `l` from `from` through `to` inclusive, `to` clamped
/// to the last character: empty when `from` lies past the end of the line
/// (a column there contributes nothing) or past the clamped `to`.
pub open spec fn inclusive_range(l: Seq<char>, from: int, to: int) -> Seq<char> {
    if from >= l.len() {
        Seq::empty()
    } else {
        let t = min_int(to, l.len() - 1);
        if from > t {
            Seq::empty()
        } else {
            l.subrange(from, t + 1)
        }
    }
}

/// The characters of `l` from `from` (clamped to its length) to the end.
pub open spec fn tail_from(l: Seq<char>, from: int) -> Seq<char> {
    l.subrange(min_int(from, l.len() as int), l.len() as int)
}

/// The character views of a slice of string slices.
pub open spec fn str_views(lines: Seq<&str>) -> Seq<Seq<char>> {
    lines.map_values(|l: &str| l@)
}

/// The text a selection between `start` and `end` covers (either order):
/// empty when the earlier row is past the last line; one inclusive
/// character range on a single row; otherwise the tail of the first row,
/// every row strictly between, and the head of the (clamped) last row,
/// joined with `\n`.
pub open spec fn span_text(lines: Seq<Seq<char>>, start: Cursor, end: Cursor) -> Seq<char> {
    let (s, e) = ordered(start, end);
    if s.row >= lines.len() {
        Seq::empty()
    } else {
        let er = min_int(e.row as int, lines.len() - 1);
        if s.row == er {
            inclusive_range(lines[s.row as int], s.col as int, e.col as int)
        } else {
            text::join_with(
                seq![tail_from(lines[s.row as int], s.col as int)] + lines.subrange(
                    s.row + 1,
                    er,
                ) + seq![inclusive_range(lines[er], 0, e.col as int)],
                seq!['\n'],
            )
        }
    }
}

/// Appends `inclusive_range(cs, from, to)` to `out`.
fn append_inclusive(out: &mut Vec<char>, cs: &[char], from: usize, to: usize)
    ensures
        final(out)@ == old(out)@ + inclusive_range(cs@, from as int, to as int),
{
    if from >= cs.len() {
        proof {
            assert(old(out)@ + Seq::<char>::empty() =~= old(out)@);
        }
        return;
    }
    let last = cs.len() - 1;
    let f = from;
    let t = if to < last {
        to
    } else {
        last
    };
    if f > t {
        proof {
            assert(old(out)@ + Seq::<char>::empty() =~= old(out)@);
        }
        return;
    }
    text::append_range(out, cs, f, t + 1);
}

/// Appends `tail_from(cs, from)` to `out`.
fn append_tail(out: &mut Vec<char>, cs: &[char], from: usize)
    ensures
        final(out)@ == old(out)@ + tail_from(cs@, from as int),
{
    let f = if from < cs.len() {
        from
    } else {
        cs.len()
    };
    text::append_range(out, cs, f, cs.len());
}

/// The characters a selection covers; see [`span_text`].
pub fn span_chars(lines: &[&str], start: Cursor, end: Cursor) -> (r: Vec<char>)
    ensures
        r@ == span_text(str_views(lines@), start, end),
{
    let ghost views = str_views(lines@);
    let (s, e) = order_endpoints(start, end);
    let mut out: Vec<char> = Vec::new();
    if s.row >= lines.len() {
        return out;
    }
    let end_row = if e.row < lines.len() - 1 {
        e.row
    } else {
        lines.len() - 1
    };
    if s.row == end_row {
        let cs = text::chars_of(lines[s.row]);
        append_inclusive(&mut out, cs.as_slice(), s.col, e.col);
        proof {
            assert(out@ =~= span_text(views, start, end));
        }
        return out;
    }
    let ghost pieces = seq![tail_from(views[s.row as int], s.col as int)] + views.subrange(
        s.row + 1,
        end_row as int,
    ) + seq![inclusive_range(views[end_row as int], 0, e.col as int)];
    let first = text::chars_of(lines[s.row]);
    append_tail(&mut out, first.as_slice(), s.col);
    proof {
        assert(out@ =~= tail_from(views[s.row as int], s.col as int));
        assert(pieces.take(1) =~= seq![pieces[0]]);
    }
    let mut r = s.row + 1;
    while r < end_row
        invariant
            s.row < r <= end_row < lines@.len(),
            views == str_views(lines@),
            pieces.len() == end_row - s.row + 1,
            forall|k: int| s.row < k < end_row ==> pieces[k - s.row] == views[k],
            out@ == text::join_with(pieces.take(r - s.row), seq!['\n']),
        decreases end_row - r,
    {
        proof {
            text::lemma_join_push(pieces.take(r - s.row), pieces[r - s.row], seq!['\n']);
            assert(pieces.take(r - s.row + 1) =~= pieces.take(r - s.row).push(pieces[r - s.row]));
        }
        out.push('\n');
        text::append_str(&mut out, lines[r]);
        proof {
            assert(views[r as int] == lines@[r as int]@);
        }
        r = r + 1;
    }
    proof {
        text::lemma_join_push(pieces.take(r - s.row), pieces[r - s.row], seq!['\n']);
        assert(pieces.take(r - s.row + 1) =~= pieces);
        assert(pieces.take(r - s.row).push(pieces[r - s.row]) =~= pieces);
    }
    out.push('\n');
    let last = text::chars_of(lines[end_row]);
    append_inclusive(&mut out, last.as_slice(), 0, e.col);
    proof {
        assert(out@ =~= text::join_with(pieces, seq!['\n']));
    }
    out
}

/// Extracts the text a terminal selection from `start` to `end` covers.
///
/// Direction-independent, end-inclusive, clamped against out-of-range
/// coordinates, and indexed by characters; see [`span_text`].
pub fn extract_span(lines: &[&str], start: Cursor, end: Cursor) -> (r: String)
    ensures
        r@ == span_text(str_views(lines@), start, end),
{
    let cs = span_chars(lines, start, end);
    text::string_of(cs.as_slice())
}

/// A space or a tab: the padding a terminal grid leaves at the end of a
/// row.
pub open spec fn is_pad(c: char) -> bool {
    c == ' ' || c == '\t'
}

/// Walking back from `j`, the first position whose preceding character is
/// not a space or tab.
pub open spec fn back_pad(s: Seq<char>, j: int) -> int
    decreases j,
{
    if 0 < j <= s.len() && is_pad(s[j - 1]) {
        back_pad(s, j - 1)
    } else {
        j
    }
}

/// `l` without its trailing spaces and tabs.
pub open spec fn trim_pad(l: Seq<char>) -> Seq<char> {
    l.subrange(0, back_pad(l, l.len() as int))
}

/// Every `\n`-separated line of `t` with trailing spaces and tabs removed,
/// rejoined with `\n`.
pub open spec fn trimmed_text(t: Seq<char>) -> Seq<char> {
    text::join_with(text::split_on(t, '\n').map_values(|l: Seq<char>| trim_pad(l)), seq!['\n'])
}

pub proof fn lemma_back_pad_bounds(s: Seq<char>, j: int)
    requires
        0 <= j <= s.len(),
    ensures
        0 <= back_pad(s, j) <= j,
        forall|k: int| back_pad(s, j) <= k < j ==> is_pad(#[trigger] s[k]),
        back_pad(s, j) > 0 ==> !is_pad(s[back_pad(s, j) - 1]),
    decreases j,
{
    if j > 0 && is_pad(s[j - 1]) {
        lemma_back_pad_bounds(s, j - 1);
    }
}

fn trim_pad_chars(l: &Vec<char>) -> (r: Vec<char>)
    ensures
        r@ == trim_pad(l@),
{
    let mut j = l.len();
    while j > 0 && (l[j - 1] == ' ' || l[j - 1] == '\t')
        invariant
            j <= l@.len(),
            back_pad(l@, j as int) == back_pad(l@, l@.len() as int),
        decreases j,
    {
        j = j - 1;
    }
    let mut out: Vec<char> = Vec::new();
    text::append_range(&mut out, l.as_slice(), 0, j);
    proof {
        assert(out@ =~= trim_pad(l@));
    }
    out
}

/// Strips trailing spaces and tabs from every line of `text`, keeping the
/// line structure (and any trailing newline) exactly.
pub fn trim_trailing_blanks(text: &str) -> (r: String)
    ensures
        r@ == trimmed_text(text@),
{
    let cs = text::chars_of(text);
    let pieces = text::split_chars(cs.as_slice(), '\n');
    let ghost sp = text::split_on(text@, '\n');
    let mut trimmed: Vec<Vec<char>> = Vec::new();
    let mut i: usize = 0;
    while i < pieces.len()
        invariant
            i <= pieces@.len(),
            sp == text::split_on(text@, '\n'),
            pieces@.len() == sp.len(),
            forall|k: int| 0 <= k < pieces@.len() ==> #[trigger] pieces@[k]@ == sp[k],
            trimmed@.len() == i,
            forall|k: int| 0 <= k < i ==> #[trigger] trimmed@[k]@ == trim_pad(sp[k]),
        decreases pieces@.len() - i,
    {
        let t = trim_pad_chars(&pieces[i]);
        trimmed.push(t);
        i = i + 1;
    }
    let out = text::join_chars(&trimmed, '\n');
    proof {
        assert(trimmed@.map_values(|v: Vec<char>| v@) =~= sp.map_values(
            |l: Seq<char>| trim_pad(l),
        ));
    }
    text::string_of(out.as_slice())
}

/// A selection reads the same whichever endpoint the drag started from.
pub proof fn law_span_direction_independent(lines: Seq<Seq<char>>, a: Cursor, b: Cursor)
    ensures
        span_text(lines, a, b) == span_text(lines, b, a),
{
    if !cursor_lt(a, b) && !cursor_lt(b, a) {
        assert(a == b);
    }
}

/// Trimming keeps the number of lines, and each line of the result is the
/// corresponding input line without its trailing spaces and tabs.
pub proof fn law_trim_keeps_lines(t: Seq<char>)
    ensures
        text::split_on(trimmed_text(t), '\n') == text::split_on(t, '\n').map_values(
            |l: Seq<char>| trim_pad(l),
        ),
        text::split_on(trimmed_text(t), '\n').len() == text::split_on(t, '\n').len(),
{
    let sp = text::split_on(t, '\n');
    let tp = sp.map_values(|l: Seq<char>| trim_pad(l));
    text::lemma_split_nonempty(t, '\n');
    text::lemma_split_pieces_free(t, '\n');
    assert forall|i: int, k: int| 0 <= i < tp.len() && 0 <= k < tp[i].len() implies tp[i][k]
        != '\n' by {
        lemma_back_pad_bounds(sp[i], sp[i].len() as int);
        assert(tp[i][k] == sp[i][k]);
    }
    text::lemma_split_join(tp, '\n');
}

/// Trimming a line removes exactly its trailing run of spaces and tabs:
/// what is left is a prefix of the line, everything cut is a space or a
/// tab, and what is left does not end in one.
pub proof fn law_trim_pad_cuts_only_padding(l: Seq<char>)
    ensures
        trim_pad(l).len() <= l.len(),
        trim_pad(l) == l.subrange(0, trim_pad(l).len() as int),
        forall|k: int| trim_pad(l).len() <= k < l.len() ==> (#[trigger] l[k] == ' ' || l[k] == '\t'),
        trim_pad(l).len() > 0 ==> trim_pad(l).last() != ' ' && trim_pad(l).last() != '\t',
{
    lemma_back_pad_bounds(l, l.len() as int);
}

/// A selection covers exactly the cells between its endpoints in reading
/// order, the end cell included: on one row, the characters from the first
/// column through the last (nothing when the first lies past the line's
/// end); across rows, one line of text per row, the first row from its
/// start column, the rows between whole, and the last row through its end
/// column.
pub proof fn law_span_covers_cells(lines: Seq<Seq<char>>, a: Cursor, b: Cursor)
    requires
        a.row <= b.row < lines.len(),
        a.row == b.row ==> a.col <= b.col,
        forall|i: int, k: int| 0 <= i < lines.len() && 0 <= k < lines[i].len() ==> #[trigger] lines[i][k]
            != '\n',
    ensures
        ({
            let first = lines[a.row as int];
            let last = lines[b.row as int];
            let first_end: int = if b.col + 1 <= first.len() { b.col + 1 } else { first.len() as int };
            let last_end: int = if b.col + 1 <= last.len() { b.col + 1 } else { last.len() as int };
            let first_start: int = if a.col <= first.len() { a.col as int } else { first.len() as int };
            &&& a.row == b.row ==> span_text(lines, a, b) == if a.col < first.len() {
                first.subrange(a.col as int, first_end)
            } else {
                Seq::empty()
            }
            &&& a.row < b.row ==> text::split_on(span_text(lines, a, b), '\n') == seq![
                first.subrange(first_start, first.len() as int),
            ] + lines.subrange(a.row + 1, b.row as int) + seq![last.subrange(0, last_end)]
        }),
{
    assert(ordered(a, b) == (a, b));
    assert(min_int(b.row as int, lines.len() - 1) == b.row);
    if a.row < b.row {
        let first = lines[a.row as int];
        let last = lines[b.row as int];
        let pieces = seq![tail_from(first, a.col as int)] + lines.subrange(a.row + 1, b.row as int)
            + seq![inclusive_range(last, 0, b.col as int)];
        assert forall|i: int, k: int| 0 <= i < pieces.len() && 0 <= k < pieces[i].len() implies pieces[i][k]
            != '\n' by {
            if i == 0 {
                assert(pieces[0][k] == first[min_int(a.col as int, first.len() as int) + k]);
            } else if i == pieces.len() - 1 {
                assert(pieces[i][k] == last[k]);
            } else {
                assert(pieces[i] == lines[a.row + i]);
            }
        }
        text::lemma_split_join(pieces, '\n');
        if last.len() == 0 {
            assert(last.subrange(0, 0) =~= Seq::<char>::empty());
        }
    }
}

} // verus!
