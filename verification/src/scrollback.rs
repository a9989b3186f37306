//! A captured snapshot of a terminal pane's text.
//!
//! The lines above the viewport, the viewport itself and the lines below it
//! are flattened into one sequence with **absolute** row indices: row `0`
//! is always the oldest captured line, wherever the viewport sits. A
//! snapshot never changes after capture.

use vstd::prelude::*;
use vstd::string::StrSliceExecFns;
use crate::selection::Cursor;

verus! {

/// The mathematical content of a [`Scrollback`].
pub struct ScrollbackView {
    /// Every captured line, oldest first.
    pub lines: Seq<Seq<char>>,
    /// Absolute row of the first viewport line.
    pub viewport_start: nat,
    /// Number of viewport lines.
    pub viewport_len: nat,
}

impl ScrollbackView {
    /// The index of the last line, or `0` when there are none.
    pub open spec fn last_row(self) -> nat {
        if self.lines.len() == 0 {
            0
        } else {
            (self.lines.len() - 1) as nat
        }
    }

    /// `row` clamped into the valid range.
    pub open spec fn clamp_row(self, row: nat) -> nat {
        if row <= self.last_row() {
            row
        } else {
            self.last_row()
        }
    }

    /// The character count of line `row`, or `0` past the end.
    pub open spec fn width(self, row: nat) -> nat {
        if row < self.lines.len() {
            self.lines[row as int].len()
        } else {
            0
        }
    }

    /// `c` clamped: the row via [`Self::clamp_row`], then the column to
    /// that row's width.
    pub open spec fn clamp_cursor(self, c: Cursor) -> Cursor {
        let row = self.clamp_row(c.row as nat);
        let w = self.width(row);
        Cursor { row: row as usize, col: if c.col <= w { c.col } else { w as usize } }
    }

    /// Whether `c` already addresses a real position (row in range, column
    /// at most one past the line's last character).
    pub open spec fn holds(self, c: Cursor) -> bool {
        self.clamp_cursor(c) == c
    }
}

/// The character views of a vector of strings.
pub open spec fn string_views(v: Seq<String>) -> Seq<Seq<char>> {
    v.map_values(|s: String| s@)
}

/// A flattened, absolutely-indexed snapshot of a pane's captured text.
#[derive(Debug, PartialEq, Eq)]
pub struct Scrollback {
    lines: Vec<String>,
    viewport_start: usize,
    viewport_len: usize,
}

impl View for Scrollback {
    type V = ScrollbackView;

    closed spec fn view(&self) -> ScrollbackView {
        ScrollbackView {
            lines: string_views(self.lines@),
            viewport_start: self.viewport_start as nat,
            viewport_len: self.viewport_len as nat,
        }
    }
}

impl Scrollback {
    #[verifier::type_invariant]
    closed spec fn inv(self) -> bool {
        self.viewport_start + self.viewport_len <= self.lines@.len()
    }

    /// Builds a snapshot from the three pieces a host reports: `above`
    /// becomes rows `[0, above.len())`, then `viewport`, then `below`.
    pub fn from_parts(above: Vec<String>, viewport: Vec<String>, below: Vec<String>) -> (s: Self)
        requires
            above@.len() + viewport@.len() + below@.len() <= usize::MAX,
        ensures
            s@.lines == string_views(above@) + string_views(viewport@) + string_views(below@),
            s@.viewport_start == above@.len(),
            s@.viewport_len == viewport@.len(),
    {
        let viewport_start = above.len();
        let viewport_len = viewport.len();
        let mut lines = above;
        let mut middle = viewport;
        let mut tail = below;
        lines.append(&mut middle);
        lines.append(&mut tail);
        proof {
            assert(lines@ =~= above@ + viewport@ + below@);
        }
        let s = Scrollback { lines, viewport_start, viewport_len };
        proof {
            assert(string_views(s.lines@) =~= string_views(above@) + string_views(viewport@)
                + string_views(below@));
        }
        s
    }

    /// An empty snapshot: no captured lines at all.
    pub fn empty() -> (s: Self)
        ensures
            s@.lines.len() == 0,
            s@.viewport_start == 0,
            s@.viewport_len == 0,
    {
        Scrollback { lines: Vec::new(), viewport_start: 0, viewport_len: 0 }
    }

    /// The total number of captured lines.
    pub fn len(&self) -> (n: usize)
        ensures
            n == self@.lines.len(),
    {
        self.lines.len()
    }

    /// Whether no lines were captured.
    pub fn is_empty(&self) -> (b: bool)
        ensures
            b == (self@.lines.len() == 0),
    {
        self.lines.len() == 0
    }

    /// The line at absolute row `row`, or `None` past the end.
    pub fn line(&self, row: usize) -> (r: Option<&str>)
        ensures
            row < self@.lines.len() ==> (r matches Some(l) && l@ == self@.lines[row as int]),
            row >= self@.lines.len() ==> r is None,
    {
        if row < self.lines.len() {
            Some(self.lines[row].as_str())
        } else {
            None
        }
    }

    /// All captured lines, in absolute row order.
    pub fn lines(&self) -> (r: &[String])
        ensures
            string_views(r@) == self@.lines,
    {
        self.lines.as_slice()
    }

    /// The absolute row of the first viewport line.
    pub fn viewport_start(&self) -> (r: usize)
        ensures
            r == self@.viewport_start,
    {
        self.viewport_start
    }

    /// One past the last viewport row.
    pub fn viewport_end(&self) -> (r: usize)
        ensures
            r == self@.viewport_start + self@.viewport_len,
    {
        proof {
            use_type_invariant(self);
        }
        let _total = self.lines.len();
        self.viewport_start + self.viewport_len
    }

    /// The index of the last captured line, or `0` if there are none.
    pub fn last_row(&self) -> (r: usize)
        ensures
            r == self@.last_row(),
    {
        if self.lines.len() == 0 {
            0
        } else {
            self.lines.len() - 1
        }
    }

    /// `row` clamped into the valid range (everything clamps to `0` when
    /// empty).
    pub fn clamp_row(&self, row: usize) -> (r: usize)
        ensures
            r == self@.clamp_row(row as nat),
    {
        let last = self.last_row();
        if row <= last {
            row
        } else {
            last
        }
    }

    /// The number of characters (not bytes) in line `row`; `0` past the
    /// end.
    pub fn line_width(&self, row: usize) -> (w: usize)
        ensures
            w == self@.width(row as nat),
    {
        if row < self.lines.len() {
            self.lines[row].as_str().unicode_len()
        } else {
            0
        }
    }

    /// Clamps a cursor so it addresses a real position in this snapshot.
    pub fn clamp_cursor(&self, cursor: Cursor) -> (c: Cursor)
        ensures
            c == self@.clamp_cursor(cursor),
    {
        let row = self.clamp_row(cursor.row);
        let w = self.line_width(row);
        let col = if cursor.col <= w {
            cursor.col
        } else {
            w
        };
        Cursor::new(row, col)
    }
}

impl Clone for Scrollback {
    fn clone(&self) -> (s: Self)
        ensures
            s@ == self@,
    {
        proof {
            use_type_invariant(self);
        }
        let lines = self.lines.clone();
        proof {
            assert(string_views(lines@) =~= string_views(self.lines@));
        }
        Scrollback {
            lines,
            viewport_start: self.viewport_start,
            viewport_len: self.viewport_len,
        }
    }
}

impl Default for Scrollback {
    /// An empty snapshot, the same as [`Scrollback::empty`].
    fn default() -> (s: Self)
        ensures
            s@.lines.len() == 0,
            s@.viewport_start == 0,
            s@.viewport_len == 0,
    {
        Self::empty()
    }
}

/// Clamping is idempotent: a clamped cursor is already a real position.
pub proof fn law_clamp_cursor_idempotent(s: ScrollbackView, c: Cursor)
    ensures
        s.holds(s.clamp_cursor(c)),
{
}

/// Clamping moves a cursor to the nearest real position: a row past the
/// end becomes the last row, a column past the end of its line becomes
/// one past that line's last character, and anything in range stays.
pub proof fn law_clamp_cursor_nearest(s: ScrollbackView, c: Cursor)
    requires
        s.lines.len() > 0,
        s.lines.len() <= usize::MAX,
        forall|i: int| 0 <= i < s.lines.len() ==> #[trigger] s.lines[i].len() <= usize::MAX,
    ensures
        ({
            let r = s.clamp_cursor(c);
            let row: int = if c.row < s.lines.len() { c.row as int } else { s.lines.len() - 1 };
            &&& r.row == row
            &&& r.col == if c.col <= s.lines[row].len() { c.col as int } else { s.lines[row].len() as int }
        }),
{
}

} // verus!
