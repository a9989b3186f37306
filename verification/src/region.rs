//! tmux-style selection shapes over a captured [`Scrollback`]: a run of
//! characters in reading order, whole lines, or a rectangular block.
//!
//! [`extract_region`] turns an anchor, a cursor and a [`SelectionMode`]
//! into text; [`selected_columns`] gives the highlighted column range of
//! one row. Anchor and cursor are interchangeable, and both live in the
//! scrollback's absolute row space.

use vstd::prelude::*;
use crate::scrollback::{Scrollback, ScrollbackView};
use crate::selection::{self, Cursor};
use crate::text;

verus! {

/// Which of tmux's three selection shapes a selection uses.
#[derive(Debug, Clone, Copy, PartialEq, Eq, Structural)]
pub enum SelectionMode {
    /// An arbitrary run of text in reading order.
    Char,
    /// Whole lines, regardless of columns.
    Line,
    /// A rectangle: the same column range on every row.
    Block,
}

/// The inclusive column range spanned by two cursors, compared
/// independently of their rows.
pub open spec fn column_bounds(a: Cursor, b: Cursor) -> (usize, usize) {
    if a.col <= b.col {
        (a.col, b.col)
    } else {
        (b.col, a.col)
    }
}

/// The characters of `l` from `min_col` through `max_col` inclusive: empty
/// when the line is shorter than `min_col + 1`, cut short at the line's
/// end otherwise.
pub open spec fn block_slice(l: Seq<char>, min_col: int, max_col: int) -> Seq<char> {
    if min_col >= l.len() {
        Seq::empty()
    } else {
        l.subrange(min_col, selection::min_int(max_col, l.len() - 1) + 1)
    }
}

/// The rows `lo..=hi` of `v`, each cut to the block's columns.
pub open spec fn block_rows(v: ScrollbackView, lo: nat, hi: nat, min_col: int, max_col: int) -> Seq<
    Seq<char>,
> {
    Seq::new((hi - lo + 1) as nat, |k: int| block_slice(v.lines[lo as int + k], min_col, max_col))
}

/// The text a selection from `anchor` to `cursor` in `mode` covers.
pub open spec fn region_text(
    v: ScrollbackView,
    anchor: Cursor,
    cursor: Cursor,
    mode: SelectionMode,
) -> Seq<char> {
    if v.lines.len() == 0 {
        Seq::empty()
    } else {
        let (s, e) = selection::ordered(anchor, cursor);
        let lo = v.clamp_row(s.row as nat);
        let hi = v.clamp_row(e.row as nat);
        match mode {
            SelectionMode::Char => selection::span_text(v.lines, s, e),
            SelectionMode::Line => text::join_with(v.lines.subrange(lo as int, hi + 1 as int), seq!['\n']),
            SelectionMode::Block => {
                let (min_col, max_col) = column_bounds(anchor, cursor);
                text::join_with(
                    block_rows(v, lo, hi, min_col as int, max_col as int),
                    seq!['\n'],
                )
            },
        }
    }
}

/// The inclusive column range of `row` a selection highlights, if any.
pub open spec fn columns_of(
    row: usize,
    anchor: Cursor,
    cursor: Cursor,
    mode: SelectionMode,
    line_width: usize,
) -> Option<(usize, usize)> {
    let (s, e) = selection::ordered(anchor, cursor);
    if row < s.row || row > e.row {
        None
    } else {
        let full_end: usize = if line_width == 0 {
            0
        } else {
            (line_width - 1) as usize
        };
        match mode {
            SelectionMode::Line => Some((0, full_end)),
            SelectionMode::Block => Some(column_bounds(anchor, cursor)),
            SelectionMode::Char => if s.row == e.row {
                Some((s.col, e.col))
            } else if row == s.row {
                Some((s.col, full_end))
            } else if row == e.row {
                Some((0, e.col))
            } else {
                Some((0, full_end))
            },
        }
    }
}

fn column_bounds_of(a: Cursor, b: Cursor) -> (r: (usize, usize))
    ensures
        r == column_bounds(a, b),
{
    if a.col <= b.col {
        (a.col, b.col)
    } else {
        (b.col, a.col)
    }
}

fn block_slice_chars(line: &str, min_col: usize, max_col: usize) -> (r: Vec<char>)
    requires
        min_col <= max_col,
    ensures
        r@ == block_slice(line@, min_col as int, max_col as int),
{
    let cs = text::chars_of(line);
    let mut out: Vec<char> = Vec::new();
    if min_col >= cs.len() {
        return out;
    }
    let end = if max_col < cs.len() - 1 {
        max_col
    } else {
        cs.len() - 1
    };
    text::append_range(&mut out, cs.as_slice(), min_col, end + 1);
    proof {
        assert(out@ =~= block_slice(line@, min_col as int, max_col as int));
    }
    out
}

/// Extracts the text a selection from `anchor` to `cursor` covers,
/// interpreted according to `mode`; see [`region_text`].
pub fn extract_region(
    scrollback: &Scrollback,
    anchor: Cursor,
    cursor: Cursor,
    mode: SelectionMode,
) -> (r: String)
    ensures
        r@ == region_text(scrollback@, anchor, cursor, mode),
{
    if scrollback.is_empty() {
        return String::new();
    }
    let (start, end) = selection::order_endpoints(anchor, cursor);
    let min_row = scrollback.clamp_row(start.row);
    let max_row = scrollback.clamp_row(end.row);
    let ghost v = scrollback@;
    let n = scrollback.len();
    match mode {
        SelectionMode::Char => {
            let all = scrollback.lines();
            let mut refs: Vec<&str> = Vec::new();
            let mut i: usize = 0;
            while i < all.len()
                invariant
                    i <= all@.len(),
                    refs@.len() == i,
                    forall|k: int| 0 <= k < i ==> #[trigger] refs@[k]@ == all@[k]@,
                decreases all@.len() - i,
            {
                refs.push(all[i].as_str());
                i = i + 1;
            }
            proof {
                assert(selection::str_views(refs@) =~= crate::scrollback::string_views(all@));
            }
            selection::extract_span(refs.as_slice(), start, end)
        },
        SelectionMode::Line => {
            let mut parts: Vec<Vec<char>> = Vec::new();
            let mut row = min_row;
            while row <= max_row
                invariant
                    v == scrollback@,
                    min_row <= row <= max_row + 1,
                    max_row < v.lines.len() == n,
                    parts@.len() == row - min_row,
                    forall|k: int|
                        0 <= k < parts@.len() ==> #[trigger] parts@[k]@ == v.lines[min_row + k],
                decreases max_row + 1 - row,
            {
                let line = scrollback.line(row);
                if let Some(l) = line {
                    parts.push(text::chars_of(l));
                }
                row = row + 1;
            }
            proof {
                assert(parts@.map_values(|p: Vec<char>| p@) =~= v.lines.subrange(
                    min_row as int,
                    max_row + 1,
                ));
            }
            let out = text::join_chars(&parts, '\n');
            text::string_of(out.as_slice())
        },
        SelectionMode::Block => {
            let (min_col, max_col) = column_bounds_of(anchor, cursor);
            let mut parts: Vec<Vec<char>> = Vec::new();
            let mut row = min_row;
            while row <= max_row
                invariant
                    v == scrollback@,
                    min_row <= row <= max_row + 1,
                    max_row < v.lines.len() == n,
                    min_col <= max_col,
                    parts@.len() == row - min_row,
                    forall|k: int|
                        0 <= k < parts@.len() ==> #[trigger] parts@[k]@ == block_slice(
                            v.lines[min_row + k],
                            min_col as int,
                            max_col as int,
                        ),
                decreases max_row + 1 - row,
            {
                let line = scrollback.line(row);
                if let Some(l) = line {
                    parts.push(block_slice_chars(l, min_col, max_col));
                }
                row = row + 1;
            }
            proof {
                assert(parts@.map_values(|p: Vec<char>| p@) =~= block_rows(
                    v,
                    min_row as nat,
                    max_row as nat,
                    min_col as int,
                    max_col as int,
                ));
            }
            let out = text::join_chars(&parts, '\n');
            text::string_of(out.as_slice())
        },
    }
}

/// The inclusive `(start_col, end_col)` range of `row` that a selection
/// from `anchor` to `cursor` covers, or `None` if `row` lies outside it;
/// see [`columns_of`].
pub fn selected_columns(
    row: usize,
    anchor: Cursor,
    cursor: Cursor,
    mode: SelectionMode,
    line_width: usize,
) -> (r: Option<(usize, usize)>)
    ensures
        r == columns_of(row, anchor, cursor, mode, line_width),
{
    let (start, end) = selection::order_endpoints(anchor, cursor);
    if row < start.row || row > end.row {
        return None;
    }
    let full_end = if line_width == 0 {
        0
    } else {
        line_width - 1
    };
    match mode {
        SelectionMode::Line => Some((0, full_end)),
        SelectionMode::Block => Some(column_bounds_of(anchor, cursor)),
        SelectionMode::Char => {
            if start.row == end.row {
                Some((start.col, end.col))
            } else if row == start.row {
                Some((start.col, full_end))
            } else if row == end.row {
                Some((0, end.col))
            } else {
                Some((0, full_end))
            }
        },
    }
}

/// The characters of `l` inside a highlighted column range, clamped to the
/// line; nothing when no range is highlighted.
pub open spec fn highlight_of(l: Seq<char>, cols: Option<(usize, usize)>) -> Seq<char> {
    match cols {
        Some((a, b)) => selection::inclusive_range(l, a as int, b as int),
        None => Seq::empty(),
    }
}

/// The text a renderer highlights: for every row of the selection, the
/// characters of that row inside its [`columns_of`] range (clamped to the
/// line the way a renderer clamps), joined with `\n`.
pub open spec fn highlighted_text(
    v: ScrollbackView,
    anchor: Cursor,
    cursor: Cursor,
    mode: SelectionMode,
) -> Seq<char> {
    let (s, e) = selection::ordered(anchor, cursor);
    text::join_with(
        Seq::new(
            (e.row - s.row + 1) as nat,
            |k: int|
                {
                    let row = (s.row + k) as usize;
                    let cols = columns_of(row, anchor, cursor, mode, v.width(row as nat) as usize);
                    highlight_of(v.lines[row as int], cols)
                },
        ),
        seq!['\n'],
    )
}

/// What a renderer highlights is exactly what copying extracts, for every
/// selection that lies within the captured lines; and rows outside the
/// selection are never highlighted.
pub proof fn law_highlight_matches_copy(
    v: ScrollbackView,
    anchor: Cursor,
    cursor: Cursor,
    mode: SelectionMode,
)
    requires
        v.lines.len() <= usize::MAX,
        forall|r: int| 0 <= r < v.lines.len() ==> #[trigger] v.lines[r].len() <= usize::MAX,
        selection::ordered(anchor, cursor).1.row < v.lines.len(),
    ensures
        highlighted_text(v, anchor, cursor, mode) == region_text(v, anchor, cursor, mode),
        forall|row: usize|
            #![trigger columns_of(row, anchor, cursor, mode, 0)]
            columns_of(row, anchor, cursor, mode, 0) is Some <==> selection::ordered(
                anchor,
                cursor,
            ).0.row <= row <= selection::ordered(anchor, cursor).1.row,
{
    let (s, e) = selection::ordered(anchor, cursor);
    assert(s.row <= e.row);
    let n = (e.row - s.row + 1) as nat;
    let hl = Seq::new(
        n,
        |k: int|
            {
                let row = (s.row + k) as usize;
                let cols = columns_of(row, anchor, cursor, mode, v.width(row as nat) as usize);
                highlight_of(v.lines[row as int], cols)
            },
    );
    assert(v.lines.len() > 0);
    assert(v.clamp_row(s.row as nat) == s.row);
    assert(v.clamp_row(e.row as nat) == e.row);
    match mode {
        SelectionMode::Line => {
            let parts = v.lines.subrange(s.row as int, e.row + 1);
            assert forall|k: int| 0 <= k < n implies hl[k] == parts[k] by {
                let l = v.lines[s.row + k];
                assert(l.len() <= usize::MAX);
                if l.len() > 0 {
                    assert(l.subrange(0, l.len() as int) =~= l);
                } else {
                    assert(l =~= Seq::<char>::empty());
                }
            }
            assert(hl =~= parts);
        },
        SelectionMode::Block => {
            let (min_col, max_col) = column_bounds(anchor, cursor);
            let parts = block_rows(v, s.row as nat, e.row as nat, min_col as int, max_col as int);
            assert forall|k: int| 0 <= k < n implies hl[k] == parts[k] by {
                let r = (s.row + k) as nat;
                let l = v.lines[r as int];
                assert(v.width(r) == l.len());
                let cols = columns_of(r as usize, anchor, cursor, mode, v.width(r) as usize);
                assert(cols == Some(column_bounds(anchor, cursor)));
                assert(selection::inclusive_range(l, min_col as int, max_col as int) == block_slice(
                    l,
                    min_col as int,
                    max_col as int,
                ));
            }
            assert(hl =~= parts);
        },
        SelectionMode::Char => {
            if s.row == e.row {
                assert(hl =~= seq![hl[0]]);
            } else {
                let l0 = v.lines[s.row as int];
                let le = v.lines[e.row as int];
                let parts = seq![selection::tail_from(l0, s.col as int)] + v.lines.subrange(
                    s.row + 1,
                    e.row as int,
                ) + seq![selection::inclusive_range(le, 0, e.col as int)];
                assert(selection::min_int(e.row as int, v.lines.len() - 1) == e.row);
                assert forall|k: int| 0 <= k < n implies hl[k] == parts[k] by {
                    let l = v.lines[s.row + k];
                    assert(l.len() <= usize::MAX);
                    if k == 0 {
                        if s.col < l.len() {
                            assert(l.subrange(s.col as int, l.len() as int) =~= selection::tail_from(
                                l,
                                s.col as int,
                            ));
                        } else {
                            assert(selection::tail_from(l, s.col as int) =~= Seq::<char>::empty());
                        }
                    } else if k == n - 1 {
                    } else {
                        if l.len() > 0 {
                            assert(l.subrange(0, l.len() as int) =~= l);
                        } else {
                            assert(l =~= Seq::<char>::empty());
                        }
                    }
                }
                assert(hl =~= parts);
            }
        },
    }
}

/// Anchor and cursor are interchangeable: swapping them never changes the
/// text a selection covers, in any mode.
pub proof fn law_region_symmetric(v: ScrollbackView, anchor: Cursor, cursor: Cursor, mode: SelectionMode)
    ensures
        region_text(v, anchor, cursor, mode) == region_text(v, cursor, anchor, mode),
{
    if !selection::cursor_lt(anchor, cursor) && !selection::cursor_lt(cursor, anchor) {
        assert(anchor == cursor);
    }
}

/// Line mode copies every line from the first selected row through the
/// last, whole, one per line of text; block mode copies the same rows,
/// each cut to the columns between the two endpoints' columns (inclusive,
/// stopping at the line's end, nothing for a line too short to reach the
/// first column).
pub proof fn law_line_and_block_shapes(v: ScrollbackView, anchor: Cursor, cursor: Cursor)
    requires
        anchor.row < v.lines.len(),
        cursor.row < v.lines.len(),
        forall|i: int, k: int| 0 <= i < v.lines.len() && 0 <= k < v.lines[i].len() ==> #[trigger] v.lines[i][k]
            != '\n',
    ensures
        ({
            let lo: int = if anchor.row <= cursor.row { anchor.row as int } else { cursor.row as int };
            let hi: int = if anchor.row <= cursor.row { cursor.row as int } else { anchor.row as int };
            let lc: int = if anchor.col <= cursor.col { anchor.col as int } else { cursor.col as int };
            let hc: int = if anchor.col <= cursor.col { cursor.col as int } else { anchor.col as int };
            &&& text::split_on(region_text(v, anchor, cursor, SelectionMode::Line), '\n')
                == v.lines.subrange(lo, hi + 1)
            &&& text::split_on(region_text(v, anchor, cursor, SelectionMode::Block), '\n')
                == Seq::new(
                (hi - lo + 1) as nat,
                |k: int|
                    if lc < v.lines[lo + k].len() {
                        v.lines[lo + k].subrange(
                            lc,
                            if hc + 1 <= v.lines[lo + k].len() {
                                hc + 1
                            } else {
                                v.lines[lo + k].len() as int
                            },
                        )
                    } else {
                        Seq::empty()
                    },
            )
        }),
{
    let (s, e) = selection::ordered(anchor, cursor);
    let lo: int = if anchor.row <= cursor.row { anchor.row as int } else { cursor.row as int };
    let hi: int = if anchor.row <= cursor.row { cursor.row as int } else { anchor.row as int };
    let lc: int = if anchor.col <= cursor.col { anchor.col as int } else { cursor.col as int };
    let hc: int = if anchor.col <= cursor.col { cursor.col as int } else { anchor.col as int };
    assert(s.row == lo && e.row == hi);
    assert(v.clamp_row(s.row as nat) == lo);
    assert(v.clamp_row(e.row as nat) == hi);
    let lp = v.lines.subrange(lo, hi + 1);
    assert forall|i: int, k: int| 0 <= i < lp.len() && 0 <= k < lp[i].len() implies lp[i][k]
        != '\n' by {
        assert(lp[i] == v.lines[lo + i]);
    }
    text::lemma_split_join(lp, '\n');
    assert(column_bounds(anchor, cursor) == (lc as usize, hc as usize));
    let bp = block_rows(v, lo as nat, hi as nat, lc, hc);
    assert forall|i: int, k: int| 0 <= i < bp.len() && 0 <= k < bp[i].len() implies bp[i][k]
        != '\n' by {
        let l = v.lines[lo + i];
        assert(bp[i][k] == l[lc + k]);
    }
    text::lemma_split_join(bp, '\n');
    let want = Seq::new(
        (hi - lo + 1) as nat,
        |k: int|
            if lc < v.lines[lo + k].len() {
                v.lines[lo + k].subrange(
                    lc,
                    if hc + 1 <= v.lines[lo + k].len() {
                        hc + 1
                    } else {
                        v.lines[lo + k].len() as int
                    },
                )
            } else {
                Seq::empty()
            },
    );
    assert(bp =~= want);
}

} // verus!
