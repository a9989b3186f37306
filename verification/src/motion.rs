//! Vi-style cursor motions over a captured [`Scrollback`].
//!
//! [`Motion`] names a movement; [`apply`] turns a motion, the current
//! cursor and the scrollback into the new cursor. Vertical motions clamp
//! the column to the line they land on (no remembered "desired column"),
//! and word motions stay on the current line.

use vstd::prelude::*;
use crate::scrollback::{Scrollback, ScrollbackView};
use crate::selection::Cursor;
use crate::text;

verus! {

/// A single vi-style cursor movement.
#[derive(Debug, Clone, Copy, PartialEq, Eq, Structural)]
pub enum Motion {
    /// One character left, without wrapping. (`h`)
    Left,
    /// One character right, without wrapping. (`l`)
    Right,
    /// One line up. (`k`)
    Up,
    /// One line down. (`j`)
    Down,
    /// The first column of the line. (`0`)
    LineStart,
    /// The first non-blank character of the line. (`^`)
    LineFirstNonBlank,
    /// One past the last character of the line. (`$`)
    LineEnd,
    /// The start of the next word on the line. (`w`)
    WordForward,
    /// The start of the current or previous word on the line. (`b`)
    WordBackward,
    /// The end of the next word on the line. (`e`)
    WordEnd,
    /// The first line. (`gg`)
    Top,
    /// The last line. (`G`)
    Bottom,
    /// Half a page up. (`Ctrl-u`)
    HalfPageUp,
    /// Half a page down. (`Ctrl-d`)
    HalfPageDown,
    /// A full page up. (`Ctrl-b`)
    PageUp,
    /// A full page down. (`Ctrl-f`)
    PageDown,
}

/// The three-way character classification word motions use.
#[derive(Debug, Clone, Copy, PartialEq, Eq, Structural)]
pub enum CharClass {
    /// A whitespace character.
    Whitespace,
    /// An alphanumeric character or underscore.
    Word,
    /// Any other character.
    Punctuation,
}

/// The class of `c`.
pub open spec fn class_of(c: char) -> CharClass {
    if text::is_ws(c) {
        CharClass::Whitespace
    } else if text::is_alnum(c) || c == '_' {
        CharClass::Word
    } else {
        CharClass::Punctuation
    }
}

/// Classifies a single character for word motions.
pub fn classify(c: char) -> (k: CharClass)
    ensures
        k == class_of(c),
{
    if text::is_whitespace_char(c) {
        CharClass::Whitespace
    } else if text::is_alphanumeric_char(c) || c == '_' {
        CharClass::Word
    } else {
        CharClass::Punctuation
    }
}

/// The end (exclusive) of the run of `cls` characters starting at `i`.
pub open spec fn run_end(l: Seq<char>, i: int, cls: CharClass) -> int
    decreases l.len() - i,
{
    if 0 <= i < l.len() && class_of(l[i]) == cls {
        run_end(l, i + 1, cls)
    } else {
        i
    }
}

/// The start of the run of `cls` characters ending just before `i`.
pub open spec fn run_start(l: Seq<char>, i: int, cls: CharClass) -> int
    decreases i,
{
    if 0 < i <= l.len() && class_of(l[i - 1]) == cls {
        run_start(l, i - 1, cls)
    } else {
        i
    }
}

/// Walking back from `i`, the first index that is not whitespace (or `0`).
pub open spec fn back_skip_ws(l: Seq<char>, i: int) -> int
    decreases i,
{
    if 0 < i < l.len() && text::is_ws(l[i]) {
        back_skip_ws(l, i - 1)
    } else {
        i
    }
}

/// Where `w` lands from column `col` of line `l`.
pub open spec fn word_forward(l: Seq<char>, col: int) -> int {
    if col >= l.len() {
        l.len() as int
    } else {
        let c0 = class_of(l[col]);
        let j = if c0 != CharClass::Whitespace {
            run_end(l, col, c0)
        } else {
            col
        };
        run_end(l, j, CharClass::Whitespace)
    }
}

/// Where `e` lands from column `col` of line `l`.
pub open spec fn word_end(l: Seq<char>, col: int) -> int {
    if l.len() == 0 {
        0
    } else {
        let i = if col < l.len() {
            col + 1
        } else {
            col
        };
        let j = run_end(l, i, CharClass::Whitespace);
        if j >= l.len() {
            l.len() - 1
        } else {
            run_end(l, j, class_of(l[j])) - 1
        }
    }
}

/// Where `b` lands from column `col` (at most `l.len()`) of line `l`.
pub open spec fn word_backward(l: Seq<char>, col: int) -> int {
    if l.len() == 0 || col == 0 {
        0
    } else {
        let i = back_skip_ws(l, col - 1);
        if text::is_ws(l[i]) {
            0
        } else {
            run_start(l, i, class_of(l[i]))
        }
    }
}

/// The column of the first non-whitespace character of `l`, or `0`.
pub open spec fn first_non_blank(l: Seq<char>) -> int {
    let j = text::skip_ws(l, 0);
    if j < l.len() {
        j
    } else {
        0
    }
}

pub open spec fn sat_sub(a: usize, b: usize) -> usize {
    if a >= b {
        (a - b) as usize
    } else {
        0
    }
}

pub open spec fn sat_add(a: usize, b: usize) -> usize {
    if a + b <= usize::MAX {
        (a + b) as usize
    } else {
        usize::MAX
    }
}

/// Where `m` moves an already-clamped cursor `c`, before the final clamp;
/// `h` is the pane height (at least 1).
pub open spec fn motion_target(m: Motion, v: ScrollbackView, c: Cursor, h: usize) -> Cursor {
    let l = v.lines[c.row as int];
    match m {
        Motion::Left => Cursor { row: c.row, col: sat_sub(c.col, 1) },
        Motion::Right => Cursor { row: c.row, col: sat_add(c.col, 1) },
        Motion::Up => Cursor { row: sat_sub(c.row, 1), col: c.col },
        Motion::Down => Cursor { row: sat_add(c.row, 1), col: c.col },
        Motion::LineStart => Cursor { row: c.row, col: 0 },
        Motion::LineFirstNonBlank => Cursor { row: c.row, col: first_non_blank(l) as usize },
        Motion::LineEnd => Cursor { row: c.row, col: l.len() as usize },
        Motion::WordForward => Cursor { row: c.row, col: word_forward(l, c.col as int) as usize },
        Motion::WordBackward => Cursor { row: c.row, col: word_backward(l, c.col as int) as usize },
        Motion::WordEnd => Cursor { row: c.row, col: word_end(l, c.col as int) as usize },
        Motion::Top => Cursor { row: 0, col: 0 },
        Motion::Bottom => Cursor { row: v.last_row() as usize, col: 0 },
        Motion::HalfPageUp => Cursor {
            row: sat_sub(c.row, if h / 2 >= 1 { (h / 2) as usize } else { 1 }),
            col: c.col,
        },
        Motion::HalfPageDown => Cursor {
            row: sat_add(c.row, if h / 2 >= 1 { (h / 2) as usize } else { 1 }),
            col: c.col,
        },
        Motion::PageUp => Cursor { row: sat_sub(c.row, h), col: c.col },
        Motion::PageDown => Cursor { row: sat_add(c.row, h), col: c.col },
    }
}

/// Where [`apply`] lands: the origin on an empty scrollback; otherwise the
/// cursor is clamped, moved, and clamped again (a `height` of `0` counts as
/// `1`).
pub open spec fn apply_spec(m: Motion, v: ScrollbackView, cursor: Cursor, height: usize) -> Cursor {
    if v.lines.len() == 0 {
        Cursor { row: 0, col: 0 }
    } else {
        let h: usize = if height >= 1 {
            height
        } else {
            1
        };
        v.clamp_cursor(motion_target(m, v, v.clamp_cursor(cursor), h))
    }
}

fn line_chars(scrollback: &Scrollback, row: usize) -> (r: Vec<char>)
    requires
        row < scrollback@.lines.len(),
    ensures
        r@ == scrollback@.lines[row as int],
{
    match scrollback.line(row) {
        Some(l) => text::chars_of(l),
        None => Vec::new(),
    }
}

fn first_non_blank_col(l: &[char]) -> (r: usize)
    ensures
        r == first_non_blank(l@),
{
    let mut j: usize = 0;
    while j < l.len() && text::is_whitespace_char(l[j])
        invariant
            j <= l@.len(),
            text::skip_ws(l@, j as int) == text::skip_ws(l@, 0),
        decreases l@.len() - j,
    {
        j = j + 1;
    }
    if j < l.len() {
        j
    } else {
        0
    }
}

fn scan_run_end(l: &[char], i: usize, cls: CharClass) -> (r: usize)
    requires
        i <= l@.len(),
    ensures
        r == run_end(l@, i as int, cls),
        i <= r <= l@.len(),
{
    let mut j = i;
    while j < l.len() && classify(l[j]) == cls
        invariant
            i <= j <= l@.len(),
            run_end(l@, j as int, cls) == run_end(l@, i as int, cls),
        decreases l@.len() - j,
    {
        j = j + 1;
    }
    j
}

fn word_forward_col(l: &[char], col: usize) -> (r: usize)
    ensures
        r == word_forward(l@, col as int),
{
    let len = l.len();
    if col >= len {
        return len;
    }
    let c0 = classify(l[col]);
    let j = if c0 != CharClass::Whitespace {
        scan_run_end(l, col, c0)
    } else {
        col
    };
    scan_run_end(l, j, CharClass::Whitespace)
}

fn word_end_col(l: &[char], col: usize) -> (r: usize)
    ensures
        r == word_end(l@, col as int),
{
    let len = l.len();
    if len == 0 {
        return 0;
    }
    let i = if col < len {
        col + 1
    } else {
        col
    };
    if i > len {
        // `col` lies past the end of the line: no run starts there.
        return len - 1;
    }
    let j = scan_run_end(l, i, CharClass::Whitespace);
    if j >= len {
        return len - 1;
    }
    let cls = classify(l[j]);
    let k = scan_run_end(l, j, cls);
    proof {
        assert(class_of(l@[j as int]) == cls);
    }
    k - 1
}

fn back_skip_ws_col(l: &[char], i: usize) -> (r: usize)
    requires
        i < l@.len(),
    ensures
        r == back_skip_ws(l@, i as int),
        r <= i,
{
    let mut j = i;
    while j > 0 && text::is_whitespace_char(l[j])
        invariant
            j <= i < l@.len(),
            back_skip_ws(l@, j as int) == back_skip_ws(l@, i as int),
        decreases j,
    {
        j = j - 1;
    }
    j
}

fn scan_run_start(l: &[char], i: usize, cls: CharClass) -> (r: usize)
    requires
        i <= l@.len(),
    ensures
        r == run_start(l@, i as int, cls),
        r <= i,
{
    let mut j = i;
    while j > 0 && classify(l[j - 1]) == cls
        invariant
            j <= i <= l@.len(),
            run_start(l@, j as int, cls) == run_start(l@, i as int, cls),
        decreases j,
    {
        j = j - 1;
    }
    j
}

fn word_backward_col(l: &[char], col: usize) -> (r: usize)
    requires
        col <= l@.len(),
    ensures
        r == word_backward(l@, col as int),
{
    if l.len() == 0 || col == 0 {
        return 0;
    }
    let i = back_skip_ws_col(l, col - 1);
    if text::is_whitespace_char(l[i]) {
        return 0;
    }
    let cls = classify(l[i]);
    proof {
        assert(0 < i + 1 <= l@.len());
    }
    let k = scan_run_start(l, i, cls);
    k
}

/// Applies `motion` to `cursor`, returning where it lands; see
/// [`apply_spec`]. `height` is consulted only by the paging motions.
pub fn apply(motion: Motion, scrollback: &Scrollback, cursor: Cursor, height: usize) -> (r: Cursor)
    ensures
        r == apply_spec(motion, scrollback@, cursor, height),
{
    if scrollback.is_empty() {
        return Cursor::new(0, 0);
    }
    let height = if height >= 1 {
        height
    } else {
        1
    };
    let cursor = scrollback.clamp_cursor(cursor);
    let ghost v = scrollback@;
    let result = match motion {
        Motion::Left => Cursor::new(cursor.row, cursor.col.saturating_sub(1)),
        Motion::Right => Cursor::new(cursor.row, cursor.col.saturating_add(1)),
        Motion::Up => Cursor::new(cursor.row.saturating_sub(1), cursor.col),
        Motion::Down => Cursor::new(cursor.row.saturating_add(1), cursor.col),
        Motion::LineStart => Cursor::new(cursor.row, 0),
        Motion::LineFirstNonBlank => {
            let l = line_chars(scrollback, cursor.row);
            Cursor::new(cursor.row, first_non_blank_col(l.as_slice()))
        },
        Motion::LineEnd => Cursor::new(cursor.row, scrollback.line_width(cursor.row)),
        Motion::WordForward => {
            let l = line_chars(scrollback, cursor.row);
            Cursor::new(cursor.row, word_forward_col(l.as_slice(), cursor.col))
        },
        Motion::WordBackward => {
            let l = line_chars(scrollback, cursor.row);
            Cursor::new(cursor.row, word_backward_col(l.as_slice(), cursor.col))
        },
        Motion::WordEnd => {
            let l = line_chars(scrollback, cursor.row);
            Cursor::new(cursor.row, word_end_col(l.as_slice(), cursor.col))
        },
        Motion::Top => Cursor::new(0, 0),
        Motion::Bottom => Cursor::new(scrollback.last_row(), 0),
        Motion::HalfPageUp => {
            let step = if height / 2 >= 1 {
                height / 2
            } else {
                1
            };
            Cursor::new(cursor.row.saturating_sub(step), cursor.col)
        },
        Motion::HalfPageDown => {
            let step = if height / 2 >= 1 {
                height / 2
            } else {
                1
            };
            Cursor::new(cursor.row.saturating_add(step), cursor.col)
        },
        Motion::PageUp => Cursor::new(cursor.row.saturating_sub(height), cursor.col),
        Motion::PageDown => Cursor::new(cursor.row.saturating_add(height), cursor.col),
    };
    proof {
        assert(result == motion_target(motion, v, cursor, height));
    }
    scrollback.clamp_cursor(result)
}

/// Every motion lands on a real position of a non-empty scrollback, and on
/// the origin of an empty one.
pub proof fn law_motion_lands_in_bounds(m: Motion, v: ScrollbackView, cursor: Cursor, height: usize)
    ensures
        v.lines.len() == 0 ==> apply_spec(m, v, cursor, height) == (Cursor { row: 0, col: 0 }),
        v.lines.len() > 0 ==> v.holds(apply_spec(m, v, cursor, height)),
{
}

/// Horizontal and word motions never change the (clamped) row.
pub proof fn law_horizontal_motions_keep_row(
    m: Motion,
    v: ScrollbackView,
    cursor: Cursor,
    height: usize,
)
    requires
        v.lines.len() > 0,
        m == Motion::Left || m == Motion::Right || m == Motion::LineStart || m
            == Motion::LineFirstNonBlank || m == Motion::LineEnd || m == Motion::WordForward || m
            == Motion::WordBackward || m == Motion::WordEnd,
    ensures
        apply_spec(m, v, cursor, height).row == v.clamp_row(cursor.row as nat),
{
}

/// Vertical motions move the row by their exact distance, stopping at the
/// first and last lines: `j`/`k` by one line, `Ctrl-d`/`Ctrl-u` by half the
/// height (at least one line), `Ctrl-f`/`Ctrl-b` by the whole height, `gg`
/// and `G` to the first and last lines; the column is kept, cut to the
/// width of the line landed on (`0` for `gg` and `G`).
pub proof fn law_vertical_distances(m: Motion, v: ScrollbackView, c: Cursor, height: usize)
    requires
        v.lines.len() > 0,
        v.holds(c),
        v.lines.len() <= usize::MAX,
        height >= 1,
    ensures
        ({
            let r = apply_spec(m, v, c, height);
            let last = v.lines.len() - 1;
            let half: int = if height >= 2 { height as int / 2 } else { 1 };
            let down = |d: int| if c.row + d <= last { c.row + d } else { last };
            let up = |d: int| if c.row >= d { c.row - d } else { 0 };
            let col_at = |row: int|
                if c.col <= v.lines[row].len() { c.col as int } else { v.lines[row].len() as int };
            &&& m == Motion::PageDown ==> r.row == down(height as int) && r.col == col_at(r.row as int)
            &&& m == Motion::PageUp ==> r.row == up(height as int) && r.col == col_at(r.row as int)
            &&& m == Motion::HalfPageDown ==> r.row == down(half) && r.col == col_at(r.row as int)
            &&& m == Motion::HalfPageUp ==> r.row == up(half) && r.col == col_at(r.row as int)
            &&& m == Motion::Down ==> r.row == down(1) && r.col == col_at(r.row as int)
            &&& m == Motion::Up ==> r.row == up(1) && r.col == col_at(r.row as int)
            &&& m == Motion::Top ==> r.row == 0 && r.col == 0
            &&& m == Motion::Bottom ==> r.row == last && r.col == 0
        }),
{
    assert(v.clamp_cursor(c) == c);
    let t = motion_target(m, v, c, height);
    assert(apply_spec(m, v, c, height) == v.clamp_cursor(t));
    assert(v.last_row() == v.lines.len() - 1);
}

/// Horizontal motions keep the row: `h` and `l` move one column (not past
/// the line's start or one past its end), `0` goes to the first column and
/// `$` to one past the last character.
pub proof fn law_horizontal_distances(m: Motion, v: ScrollbackView, c: Cursor, height: usize)
    requires
        v.lines.len() > 0,
        v.holds(c),
        v.lines[c.row as int].len() <= usize::MAX,
    ensures
        ({
            let r = apply_spec(m, v, c, height);
            let w = v.lines[c.row as int].len();
            &&& m == Motion::Left ==> r.row == c.row && r.col == if c.col >= 1 { c.col - 1 } else { 0 }
            &&& m == Motion::Right ==> r.row == c.row && r.col == if c.col + 1 <= w { c.col + 1 } else { w as int }
            &&& m == Motion::LineStart ==> r.row == c.row && r.col == 0
            &&& m == Motion::LineEnd ==> r.row == c.row && r.col == w
        }),
{
    assert(v.clamp_cursor(c) == c);
    let h: usize = if height >= 1 { height } else { 1 };
    let t = motion_target(m, v, c, h);
    assert(apply_spec(m, v, c, height) == v.clamp_cursor(t));
    assert(v.last_row() == v.lines.len() - 1);
    assert(c.row < v.lines.len());
}

/// Whether a word starts at column `j` of `l`: a non-blank character that
/// begins the line or differs in class from the one before it.
pub open spec fn starts_word(l: Seq<char>, j: int) -> bool {
    &&& 0 <= j < l.len()
    &&& !text::is_ws(l[j])
    &&& (j == 0 || class_of(l[j - 1]) != class_of(l[j]))
}

/// Whether a word ends at column `j` of `l`: a non-blank character that
/// ends the line or differs in class from the one after it.
pub open spec fn ends_word(l: Seq<char>, j: int) -> bool {
    &&& 0 <= j < l.len()
    &&& !text::is_ws(l[j])
    &&& (j + 1 == l.len() || class_of(l[j + 1]) != class_of(l[j]))
}

proof fn lemma_run_end(l: Seq<char>, i: int, cls: CharClass)
    requires
        0 <= i <= l.len(),
    ensures
        i <= run_end(l, i, cls) <= l.len(),
        forall|k: int| i <= k < run_end(l, i, cls) ==> class_of(#[trigger] l[k]) == cls,
        run_end(l, i, cls) < l.len() ==> class_of(l[run_end(l, i, cls)]) != cls,
    decreases l.len() - i,
{
    if i < l.len() && class_of(l[i]) == cls {
        lemma_run_end(l, i + 1, cls);
    }
}

proof fn lemma_run_start(l: Seq<char>, i: int, cls: CharClass)
    requires
        0 <= i <= l.len(),
    ensures
        0 <= run_start(l, i, cls) <= i,
        forall|k: int| run_start(l, i, cls) <= k < i ==> class_of(#[trigger] l[k]) == cls,
        run_start(l, i, cls) > 0 ==> class_of(l[run_start(l, i, cls) - 1]) != cls,
    decreases i,
{
    if 0 < i && class_of(l[i - 1]) == cls {
        lemma_run_start(l, i - 1, cls);
    }
}

proof fn lemma_back_skip_ws(l: Seq<char>, i: int)
    requires
        0 <= i < l.len(),
    ensures
        0 <= back_skip_ws(l, i) <= i,
        forall|k: int| back_skip_ws(l, i) < k <= i ==> text::is_ws(#[trigger] l[k]),
        back_skip_ws(l, i) > 0 ==> !text::is_ws(l[back_skip_ws(l, i)]),
    decreases i,
{
    if 0 < i && text::is_ws(l[i]) {
        lemma_back_skip_ws(l, i - 1);
    }
}

/// `w` goes to the start of the next word on the line: the first word
/// start after the cursor, or the end of the line when none follows.
pub proof fn lemma_word_forward(l: Seq<char>, col: int)
    requires
        0 <= col < l.len(),
    ensures
        col < word_forward(l, col) <= l.len(),
        word_forward(l, col) == l.len() || starts_word(l, word_forward(l, col)),
        forall|k: int| col < k < word_forward(l, col) ==> !#[trigger] starts_word(l, k),
{
    let c0 = class_of(l[col]);
    if c0 != CharClass::Whitespace {
        lemma_run_end(l, col, c0);
        let j = run_end(l, col, c0);
        lemma_run_end(l, j, CharClass::Whitespace);
        let r = run_end(l, j, CharClass::Whitespace);
        assert forall|k: int| col < k < r implies !#[trigger] starts_word(l, k) by {
            if k < j {
                assert(class_of(l[k - 1]) == c0);
            }
        }
        if r < l.len() && r == j {
            assert(class_of(l[r - 1]) == c0);
        }
    } else {
        lemma_run_end(l, col, CharClass::Whitespace);
    }
}

/// `e` goes to the end of the next word on the line: the first word end
/// after the cursor, or the line's last column when none follows.
pub proof fn lemma_word_end(l: Seq<char>, col: int)
    requires
        0 <= col <= l.len(),
        l.len() > 0,
    ensures
        0 <= word_end(l, col) < l.len(),
        (col < word_end(l, col) && ends_word(l, word_end(l, col))) || (word_end(l, col) == l.len()
            - 1 && forall|k: int| col < k < l.len() ==> !#[trigger] ends_word(l, k)),
        forall|k: int| col < k < word_end(l, col) ==> !#[trigger] ends_word(l, k),
{
    let i = if col < l.len() { col + 1 } else { col };
    lemma_run_end(l, i, CharClass::Whitespace);
    let j = run_end(l, i, CharClass::Whitespace);
    if j < l.len() {
        let cls = class_of(l[j]);
        lemma_run_end(l, j, cls);
        let e = run_end(l, j, cls);
        assert forall|k: int| col < k < e - 1 implies !#[trigger] ends_word(l, k) by {
            if k >= j {
                assert(class_of(l[k + 1]) == cls);
                assert(class_of(l[k]) == cls);
            }
        }
        assert(class_of(l[e - 1]) == cls);
    }
}

/// `b` goes to the start of the word at or before the cursor: the last
/// word start before it, or the line's first column when none precedes.
pub proof fn lemma_word_backward(l: Seq<char>, col: int)
    requires
        0 < col <= l.len(),
    ensures
        0 <= word_backward(l, col) < col,
        word_backward(l, col) == 0 || starts_word(l, word_backward(l, col)),
        forall|k: int| word_backward(l, col) < k < col ==> !#[trigger] starts_word(l, k),
{
    lemma_back_skip_ws(l, col - 1);
    let i = back_skip_ws(l, col - 1);
    if !text::is_ws(l[i]) {
        let cls = class_of(l[i]);
        lemma_run_start(l, i, cls);
        let b = run_start(l, i, cls);
        assert forall|k: int| b < k < col implies !#[trigger] starts_word(l, k) by {
            if k <= i {
                assert(class_of(l[k - 1]) == cls);
            }
        }
        if b < i {
            assert(class_of(l[b]) == cls);
        }
    }
}

/// The word and line-start motions keep the row and land where vi does:
/// `w` on the first word start after the cursor (or the line's end), `b` on
/// the last word start before it (or the first column), `e` on the first
/// word end after it (or the last column), and `^` on the first non-blank
/// character (or the first column of a blank line).
pub proof fn law_word_motions(m: Motion, v: ScrollbackView, c: Cursor, height: usize)
    requires
        v.lines.len() > 0,
        v.holds(c),
        v.lines[c.row as int].len() <= usize::MAX,
    ensures
        ({
            let r = apply_spec(m, v, c, height);
            let l = v.lines[c.row as int];
            let x = c.col as int;
            let y = r.col as int;
            &&& m == Motion::WordForward ==> r.row == c.row && (x < l.len() ==> x < y <= l.len()
                && (y == l.len() || starts_word(l, y)) && forall|k: int|
                x < k < y ==> !#[trigger] starts_word(l, k)) && (x == l.len() ==> y == x)
            &&& m == Motion::WordBackward ==> r.row == c.row && (x > 0 ==> y < x && (y == 0
                || starts_word(l, y)) && forall|k: int| y < k < x ==> !#[trigger] starts_word(l, k))
                && (x == 0 ==> y == 0)
            &&& m == Motion::WordEnd ==> r.row == c.row && (l.len() == 0 ==> y == 0) && (l.len() > 0
                ==> y < l.len() && ((x < y && ends_word(l, y)) || (y == l.len() - 1 && forall|k: int|
                x < k < l.len() ==> !#[trigger] ends_word(l, k))) && forall|k: int|
                x < k < y ==> !#[trigger] ends_word(l, k))
            &&& m == Motion::LineFirstNonBlank ==> r.row == c.row && ((y < l.len() && !text::is_ws(
                l[y]) && forall|k: int| 0 <= k < y ==> text::is_ws(#[trigger] l[k])) || (y == 0
                && forall|k: int| 0 <= k < l.len() ==> text::is_ws(#[trigger] l[k])))
        }),
{
    assert(v.clamp_cursor(c) == c);
    assert(c.row < v.lines.len());
    let l = v.lines[c.row as int];
    let x = c.col as int;
    assert(x <= l.len());
    match m {
        Motion::WordForward => {
            if x < l.len() {
                lemma_word_forward(l, x);
            }
        },
        Motion::WordBackward => {
            if x > 0 {
                lemma_word_backward(l, x);
            }
        },
        Motion::WordEnd => {
            if l.len() > 0 {
                lemma_word_end(l, x);
            }
        },
        Motion::LineFirstNonBlank => {
            text::lemma_skip_ws_bounds(l, 0);
        },
        _ => {},
    }
}

} // verus!
