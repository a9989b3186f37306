//! The tmux-style copy-mode state machine: lifecycle, the scroll viewport
//! and the current selection.
//!
//! A session keeps three things consistent: the cursor always addresses a
//! real position of the captured scrollback, the selection anchor (when
//! there is one) does too, and the viewport's first row never lies past
//! the last line. Moving the cursor never scrolls; the viewport is
//! reconciled against the live pane height by [`CopySession::scroll_to_cursor`].

use vstd::prelude::*;
use crate::region::{self, SelectionMode};
use crate::scrollback::{Scrollback, ScrollbackView};
use crate::selection::Cursor;

verus! {

/// The mathematical state of a [`CopySession`].
pub struct SessionView {
    /// The captured snapshot being browsed.
    pub scrollback: ScrollbackView,
    /// The cursor, in absolute rows.
    pub cursor: Cursor,
    /// The first row scrolled into view.
    pub top: nat,
    /// The selection's anchor, if a selection is active.
    pub anchor: Option<Cursor>,
    /// The selection's shape (meaningful even with no selection).
    pub mode: SelectionMode,
}

/// A pane height of `0` counts as `1`.
pub open spec fn effective_height(height: usize) -> nat {
    if height == 0 {
        1
    } else {
        height as nat
    }
}

/// The viewport's first row after scrolling the least amount that brings
/// `row` into `[top, top + h)`.
pub open spec fn scrolled_top(top: nat, row: nat, h: nat) -> nat {
    if row < top {
        row
    } else if row >= top + h {
        (row + 1 - h) as nat
    } else {
        top
    }
}

/// The on-screen line of the cursor in a window of `h` rows, if visible.
pub open spec fn screen_row(s: SessionView, h: nat) -> Option<nat> {
    if s.cursor.row < s.top || s.cursor.row >= s.top + h {
        None
    } else {
        Some((s.cursor.row - s.top) as nat)
    }
}

/// The state of a single copy-mode session.
#[derive(Debug)]
pub struct CopySession {
    scrollback: Scrollback,
    cursor: Cursor,
    top: usize,
    selection_anchor: Option<Cursor>,
    selection_mode: SelectionMode,
}

impl View for CopySession {
    type V = SessionView;

    closed spec fn view(&self) -> SessionView {
        SessionView {
            scrollback: self.scrollback@,
            cursor: self.cursor,
            top: self.top as nat,
            anchor: self.selection_anchor,
            mode: self.selection_mode,
        }
    }
}

/// The invariant every session keeps.
pub open spec fn session_ok(s: SessionView) -> bool {
    &&& s.scrollback.holds(s.cursor)
    &&& s.top <= s.scrollback.last_row()
    &&& (s.anchor matches Some(a) ==> s.scrollback.holds(a))
}

impl CopySession {
    #[verifier::type_invariant]
    closed spec fn inv(self) -> bool {
        session_ok(self@)
    }

    /// Every session satisfies [`session_ok`].
    pub fn check_invariant(&self)
        ensures
            session_ok(self@),
    {
        proof {
            use_type_invariant(self);
        }
    }

    /// Starts a new session over `scrollback`, with the cursor at the first
    /// viewport row, column `0` (clamped), no selection, character shape,
    /// and the viewport scrolled just enough to show the cursor.
    pub fn new(scrollback: Scrollback, height: usize) -> (s: Self)
        ensures
            s@.scrollback == scrollback@,
            s@.cursor == scrollback@.clamp_cursor(
                Cursor { row: scrollback@.viewport_start as usize, col: 0 },
            ),
            s@.top == scrolled_top(0, s@.cursor.row as nat, effective_height(height)),
            s@.anchor is None,
            s@.mode == SelectionMode::Char,
    {
        let start_row = scrollback.viewport_start();
        let cursor = scrollback.clamp_cursor(Cursor::new(start_row, 0));
        let _n = scrollback.len();
        let h = if height == 0 {
            1
        } else {
            height
        };
        let top = if cursor.row >= h {
            cursor.row + 1 - h
        } else {
            0
        };
        CopySession {
            scrollback,
            cursor,
            top,
            selection_anchor: None,
            selection_mode: SelectionMode::Char,
        }
    }

    /// The captured snapshot this session is browsing.
    pub fn scrollback(&self) -> (r: &Scrollback)
        ensures
            r@ == self@.scrollback,
    {
        &self.scrollback
    }

    /// The cursor's current position.
    pub fn cursor(&self) -> (c: Cursor)
        ensures
            c == self@.cursor,
    {
        self.cursor
    }

    /// Moves the cursor to `cursor`, clamped into the scrollback. Never
    /// scrolls and never touches the selection.
    pub fn set_cursor(&mut self, cursor: Cursor)
        ensures
            final(self)@ == (SessionView {
                cursor: old(self)@.scrollback.clamp_cursor(cursor),
                ..old(self)@
            }),
    {
        proof {
            use_type_invariant(&*self);
        }
        let c = self.scrollback.clamp_cursor(cursor);
        self.cursor = c;
    }

    /// The first row currently scrolled into view.
    pub fn top(&self) -> (t: usize)
        ensures
            t == self@.top,
    {
        self.top
    }

    /// Scrolls the least amount that brings the cursor's row into
    /// `[top, top + height)` (a `height` of `0` counts as `1`).
    pub fn scroll_to_cursor(&mut self, height: usize)
        ensures
            final(self)@ == (SessionView {
                top: scrolled_top(
                    old(self)@.top,
                    old(self)@.cursor.row as nat,
                    effective_height(height),
                ),
                ..old(self)@
            }),
    {
        proof {
            use_type_invariant(&*self);
        }
        let _n = self.scrollback.len();
        let h = if height == 0 {
            1
        } else {
            height
        };
        if self.cursor.row < self.top {
            self.top = self.cursor.row;
        } else if self.cursor.row - self.top >= h {
            self.top = self.cursor.row + 1 - h;
        }
    }

    /// The lines visible in a viewport of `height` rows (`0` counts as
    /// `1`), as `(absolute_row, line)` pairs, stopping at the end of the
    /// scrollback.
    pub fn visible_rows(&self, height: usize) -> (r: Vec<(usize, &str)>)
        ensures
            ({
                let v = self@.scrollback;
                let end = if self@.top + effective_height(height) <= v.lines.len() {
                    self@.top + effective_height(height)
                } else {
                    v.lines.len()
                };
                &&& r@.len() == (if end >= self@.top {
                    end - self@.top
                } else {
                    0
                })
                &&& forall|k: int|
                    0 <= k < r@.len() ==> (#[trigger] r@[k]).0 == self@.top + k && r@[k].1@
                        == v.lines[self@.top + k]
            }),
    {
        proof {
            use_type_invariant(self);
        }
        let h = if height == 0 {
            1
        } else {
            height
        };
        let n = self.scrollback.len();
        let end = if self.top.saturating_add(h) <= n {
            self.top.saturating_add(h)
        } else {
            n
        };
        let mut out: Vec<(usize, &str)> = Vec::new();
        let mut row = self.top;
        while row < end
            invariant
                self.top <= row <= end <= n,
                n == self@.scrollback.lines.len(),
                out@.len() == row - self.top,
                forall|k: int|
                    0 <= k < out@.len() ==> (#[trigger] out@[k]).0 == self@.top + k && out@[k].1@
                        == self@.scrollback.lines[self@.top + k],
            decreases end - row,
        {
            match self.scrollback.line(row) {
                Some(l) => out.push((row, l)),
                None => {},
            }
            row = row + 1;
        }
        out
    }

    /// The cursor's row relative to `top`, or `None` if it is not within
    /// a window of `height` rows (`0` counts as `1`).
    pub fn cursor_screen_row(&self, height: usize) -> (r: Option<usize>)
        ensures
            match screen_row(self@, effective_height(height)) {
                Some(x) => r == Some(x as usize),
                None => r is None,
            },
    {
        let h = if height == 0 {
            1
        } else {
            height
        };
        if self.cursor.row < self.top || self.cursor.row - self.top >= h {
            return None;
        }
        Some(self.cursor.row - self.top)
    }

    /// Starts a new selection of shape `mode`, anchored at the cursor.
    pub fn start_selection(&mut self, mode: SelectionMode)
        ensures
            final(self)@ == (SessionView {
                anchor: Some(old(self)@.cursor),
                mode,
                ..old(self)@
            }),
    {
        proof {
            use_type_invariant(&*self);
        }
        self.selection_anchor = Some(self.cursor);
        self.selection_mode = mode;
    }

    /// Changes the selection's shape without moving its anchor; starts a
    /// selection at the cursor if none is active.
    pub fn set_selection_mode(&mut self, mode: SelectionMode)
        ensures
            final(self)@ == (SessionView {
                anchor: if old(self)@.anchor is None {
                    Some(old(self)@.cursor)
                } else {
                    old(self)@.anchor
                },
                mode,
                ..old(self)@
            }),
    {
        proof {
            use_type_invariant(&*self);
        }
        if self.selection_anchor.is_none() {
            self.selection_anchor = Some(self.cursor);
        }
        self.selection_mode = mode;
    }

    /// Clears a selection active in `mode`; switches an active selection of
    /// another shape to `mode` without moving its anchor; starts a selection
    /// of shape `mode` at the cursor when none is active.
    pub fn toggle_selection(&mut self, mode: SelectionMode)
        ensures
            (old(self)@.anchor is Some && old(self)@.mode == mode) ==> final(self)@ == (
            SessionView { anchor: None, ..old(self)@ }),
            (old(self)@.anchor is Some && old(self)@.mode != mode) ==> final(self)@ == (
            SessionView { mode, ..old(self)@ }),
            old(self)@.anchor is None ==> final(self)@ == (SessionView {
                anchor: Some(old(self)@.cursor),
                mode,
                ..old(self)@
            }),
    {
        proof {
            use_type_invariant(&*self);
        }
        if self.selection_anchor.is_some() && self.selection_mode == mode {
            self.clear_selection();
        } else {
            self.set_selection_mode(mode);
        }
    }

    /// Clears the active selection, if any.
    pub fn clear_selection(&mut self)
        ensures
            final(self)@ == (SessionView { anchor: None, ..old(self)@ }),
    {
        proof {
            use_type_invariant(&*self);
        }
        self.selection_anchor = None;
    }

    /// The selection's anchor, or `None` when no selection is active.
    pub fn selection_anchor(&self) -> (a: Option<Cursor>)
        ensures
            a == self@.anchor,
    {
        self.selection_anchor
    }

    /// The selection's shape.
    pub fn selection_mode(&self) -> (m: SelectionMode)
        ensures
            m == self@.mode,
    {
        self.selection_mode
    }

    /// Whether a selection is active.
    pub fn has_selection(&self) -> (b: bool)
        ensures
            b == self@.anchor is Some,
    {
        self.selection_anchor.is_some()
    }

    /// The selected text, or `None` when no selection is active.
    pub fn selected_text(&self) -> (r: Option<String>)
        ensures
            match self@.anchor {
                Some(a) => r matches Some(t) && t@ == region::region_text(
                    self@.scrollback,
                    a,
                    self@.cursor,
                    self@.mode,
                ),
                None => r is None,
            },
    {
        match self.selection_anchor {
            Some(anchor) => Some(
                region::extract_region(&self.scrollback, anchor, self.cursor, self.selection_mode),
            ),
            None => None,
        }
    }

    /// The selected column range of `row`, or `None` when no selection is
    /// active or `row` lies outside it.
    pub fn selected_columns_for_row(&self, row: usize) -> (r: Option<(usize, usize)>)
        ensures
            match self@.anchor {
                Some(a) => r == region::columns_of(
                    row,
                    a,
                    self@.cursor,
                    self@.mode,
                    self@.scrollback.width(row as nat) as usize,
                ),
                None => r is None,
            },
    {
        match self.selection_anchor {
            Some(anchor) => {
                let width = self.scrollback.line_width(row);
                region::selected_columns(row, anchor, self.cursor, self.selection_mode, width)
            },
            None => None,
        }
    }
}

impl Clone for CopySession {
    fn clone(&self) -> (s: Self)
        ensures
            s@ == self@,
    {
        proof {
            use_type_invariant(self);
        }
        CopySession {
            scrollback: self.scrollback.clone(),
            cursor: self.cursor,
            top: self.top,
            selection_anchor: self.selection_anchor,
            selection_mode: self.selection_mode,
        }
    }
}

/// Whether copy mode is active, and if so, its session.
#[derive(Debug)]
pub enum CopyMode {
    /// Copy mode is off.
    Inactive,
    /// Copy mode is on, with its session.
    Active(CopySession),
}

impl View for CopyMode {
    type V = Option<SessionView>;

    open spec fn view(&self) -> Option<SessionView> {
        match self {
            CopyMode::Active(s) => Some(s@),
            CopyMode::Inactive => None,
        }
    }
}

impl Default for CopyMode {
    /// Copy mode starts off.
    fn default() -> (m: Self)
        ensures
            m@ is None,
    {
        CopyMode::Inactive
    }
}

impl Clone for CopyMode {
    fn clone(&self) -> (m: Self)
        ensures
            m@ == self@,
    {
        match self {
            CopyMode::Inactive => CopyMode::Inactive,
            CopyMode::Active(s) => CopyMode::Active(s.clone()),
        }
    }
}

impl CopyMode {
    /// Whether copy mode is active.
    pub fn is_active(&self) -> (b: bool)
        ensures
            b == self@ is Some,
    {
        match self {
            CopyMode::Active(_) => true,
            CopyMode::Inactive => false,
        }
    }

    /// The current session, if copy mode is active.
    pub fn session(&self) -> (r: Option<&CopySession>)
        ensures
            match self@ {
                Some(s) => r matches Some(x) && x@ == s,
                None => r is None,
            },
    {
        match self {
            CopyMode::Active(session) => Some(session),
            CopyMode::Inactive => None,
        }
    }

    /// A mutable reference to the current session, if copy mode is active.
    pub fn session_mut(&mut self) -> (r: Option<&mut CopySession>)
        ensures
            old(self)@ is None ==> r is None && final(self)@ is None,
            old(self)@ is Some ==> r is Some,
            r matches Some(x) ==> ((*x)@ == old(self)@->0 && final(self)@ == Some((*final(x))@)),
    {
        match self {
            CopyMode::Active(session) => Some(session),
            CopyMode::Inactive => None,
        }
    }

    /// Enters copy mode over `scrollback`, replacing any existing session.
    pub fn enter(&mut self, scrollback: Scrollback, height: usize)
        ensures
            final(self)@ matches Some(s) && s.scrollback == scrollback@ && s.cursor
                == scrollback@.clamp_cursor(
                Cursor { row: scrollback@.viewport_start as usize, col: 0 },
            ) && s.top == scrolled_top(0, s.cursor.row as nat, effective_height(height))
                && s.anchor is None && s.mode == SelectionMode::Char,
    {
        *self = CopyMode::Active(CopySession::new(scrollback, height));
    }

    /// Leaves copy mode; returns whether it was active.
    pub fn exit(&mut self) -> (changed: bool)
        ensures
            changed == old(self)@ is Some,
            final(self)@ is None,
    {
        match self {
            CopyMode::Inactive => false,
            CopyMode::Active(_) => {
                *self = CopyMode::Inactive;
                true
            },
        }
    }
}

/// After scrolling to the cursor, the cursor is visible in a window of the
/// same height.
pub proof fn law_scroll_reveals_cursor(s: SessionView, height: usize)
    ensures
        screen_row(
            SessionView {
                top: scrolled_top(s.top, s.cursor.row as nat, effective_height(height)),
                ..s
            },
            effective_height(height),
        ) is Some,
{
}

/// Scrolling when the cursor is already visible changes nothing.
pub proof fn law_scroll_is_minimal(s: SessionView, height: usize)
    requires
        screen_row(s, effective_height(height)) is Some,
    ensures
        scrolled_top(s.top, s.cursor.row as nat, effective_height(height)) == s.top,
{
}

/// Scrolling moves the viewport as little as possible: no other first row
/// that shows the cursor lies closer to the old one.
pub proof fn law_scroll_is_least(s: SessionView, height: usize, other: nat)
    requires
        other <= s.cursor.row < other + effective_height(height),
    ensures
        ({
            let t = scrolled_top(s.top, s.cursor.row as nat, effective_height(height));
            &&& t <= s.cursor.row < t + effective_height(height)
            &&& (if t >= s.top { t - s.top } else { s.top - t }) <= (if other >= s.top {
                other - s.top
            } else {
                s.top - other
            })
        }),
{
}

} // verus!
