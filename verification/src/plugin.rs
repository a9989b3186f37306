//! The plugin's decisions, apart from the host that carries them out.
//!
//! [`PluginState`] holds what the plugin remembers between host events:
//! the permission gate, the buffer ring, the terminal pane last seen
//! focused, the status line, copy mode and the last command-line pipe
//! handled. Each host event becomes a method call; where the host must do
//! something (read a pane, write to one, show the plugin), the method says
//! so in its result and a second call hands back what the host answered.
//! Rendering produces the lines to print.

use vstd::prelude::*;
use crate::text;
use crate::buffer;
use crate::buffer::BufferRing;
use crate::buffer::RingView;
use crate::copy_mode::CopyMode;
use crate::copy_mode::SessionView;
use crate::permissions::PermissionState;
use crate::permissions::answer_state;
use crate::scrollback::Scrollback;
use crate::selection;
use crate::selection::Cursor;

verus! {

/// How many characters of a buffer the list shows per row.
pub const PREVIEW_WIDTH: usize = 60;

/// The window height assumed on entering copy mode, before the first
/// render tells the real one.
pub const PROVISIONAL_HEIGHT: usize = 24;

/// What the host reports of one pane, reduced to what target tracking
/// reads.
#[derive(Debug, Clone, Copy, PartialEq, Eq, Structural)]
pub struct PaneFacts {
    /// The terminal (or plugin) pane id.
    pub id: u32,
    /// Whether the pane is focused in its layer.
    pub is_focused: bool,
    /// Whether the pane is a plugin rather than a terminal.
    pub is_plugin: bool,
    /// Whether the pane's process has exited.
    pub exited: bool,
}

/// The mathematical content of a [`PluginState`].
pub struct PluginView {
    /// The permission gate.
    pub permissions: PermissionState,
    /// The buffer ring.
    pub ring: RingView,
    /// The terminal pane last seen focused.
    pub target_pane: Option<u32>,
    /// The status line.
    pub status: Option<Seq<char>>,
    /// The copy-mode session, when copy mode is on.
    pub copy: Option<SessionView>,
    /// The id of the last command-line pipe acted on.
    pub last_cli_pipe: Option<Seq<char>>,
}

/// What the plugin remembers between host events.
#[derive(Debug)]
pub struct PluginState {
    permissions: PermissionState,
    ring: BufferRing,
    target_pane: Option<u32>,
    status: Option<String>,
    copy_mode: CopyMode,
    last_cli_pipe: Option<String>,
}

impl View for PluginState {
    type V = PluginView;

    closed spec fn view(&self) -> PluginView {
        PluginView {
            permissions: self.permissions,
            ring: self.ring@,
            target_pane: self.target_pane,
            status: buffer::opt_view(self.status),
            copy: self.copy_mode@,
            last_cli_pipe: buffer::opt_view(self.last_cli_pipe),
        }
    }
}

// ---------------------------------------------------------------------
// Messages
// ---------------------------------------------------------------------

/// `prefix`, the decimal form of `n`, then `suffix`.
fn number_message(prefix: &str, n: u64, suffix: &str) -> (s: String)
    ensures
        s@ == prefix@ + text::decimal(n as nat) + suffix@,
{
    let mut out: Vec<char> = Vec::new();
    text::append_str(&mut out, prefix);
    text::push_decimal(&mut out, n);
    text::append_str(&mut out, suffix);
    text::string_of(out.as_slice())
}

/// `prefix`, `middle`, then `suffix`.
fn text_message(prefix: &str, middle: &str, suffix: &str) -> (s: String)
    ensures
        s@ == prefix@ + middle@ + suffix@,
{
    let mut out: Vec<char> = Vec::new();
    text::append_str(&mut out, prefix);
    text::append_str(&mut out, middle);
    text::append_str(&mut out, suffix);
    text::string_of(out.as_slice())
}

/// The status after a buffer enters the ring.
pub open spec fn yanked_message(count: nat) -> Seq<char> {
    "yanked ("@ + text::decimal(count) + " in ring)"@
}

/// The status after the host could not read a pane.
pub open spec fn read_error_message(err: Seq<char>) -> Seq<char> {
    "could not read pane: "@ + err
}

/// The status when no terminal pane has been seen.
pub open spec fn no_pane_message() -> Seq<char> {
    "no terminal pane seen yet — focus one first"@
}

/// The warning for an invalid `buffer_limit`, naming the fallback.
pub open spec fn limit_warning(raw: Seq<char>) -> Seq<char> {
    let detail = match buffer::buffer_limit_of(raw) {
        Err(Some(t)) => buffer::not_a_number_message(t),
        _ => "buffer_limit must be at least 1, got 0"@,
    };
    detail + "; using "@ + text::decimal(buffer::DEFAULT_BUFFER_LIMIT as nat)
}

/// The ring limit a `buffer_limit` setting gives: its value when valid,
/// the default otherwise.
pub open spec fn configured_limit(raw: Option<Seq<char>>) -> nat {
    match raw {
        Some(r) => match buffer::buffer_limit_of(r) {
            Ok(n) => n,
            Err(_) => buffer::DEFAULT_BUFFER_LIMIT as nat,
        },
        None => buffer::DEFAULT_BUFFER_LIMIT as nat,
    }
}

/// The status a `buffer_limit` setting leaves: a warning when invalid.
pub open spec fn configured_status(raw: Option<Seq<char>>) -> Option<Seq<char>> {
    match raw {
        Some(r) => match buffer::buffer_limit_of(r) {
            Ok(_) => None,
            Err(_) => Some(limit_warning(r)),
        },
        None => None,
    }
}

// ---------------------------------------------------------------------
// Target tracking
// ---------------------------------------------------------------------

/// The first pane in `panes` that is a focused, live terminal.
pub open spec fn first_focused_terminal(panes: Seq<PaneFacts>) -> Option<u32>
    decreases panes.len(),
{
    if panes.len() == 0 {
        None
    } else if panes[0].is_focused && !panes[0].is_plugin && !panes[0].exited {
        Some(panes[0].id)
    } else {
        first_focused_terminal(panes.drop_first())
    }
}

/// Where a paste goes: the host's focused pane when it is a terminal,
/// otherwise the terminal pane last seen focused.
pub open spec fn paste_target_of(focused: Option<(bool, u32)>, last_seen: Option<u32>) -> Option<
    u32,
> {
    match focused {
        Some((true, id)) => Some(id),
        _ => last_seen,
    }
}

/// The payload of a pipe as a selector: trimmed, and absent when empty.
pub open spec fn selector_of(payload: Option<Seq<char>>) -> Option<Seq<char>> {
    match payload {
        Some(p) => if text::trim(p).len() > 0 {
            Some(text::trim(p))
        } else {
            None
        },
        None => None,
    }
}

/// The ring after an unnamed buffer holding `t` is pushed.
pub open spec fn pushed(r: RingView, t: Seq<char>) -> RingView {
    RingView {
        buffers: buffer::keep_recent(
            seq![buffer::fresh(r.next_id, t, None)] + r.buffers,
            r.limit,
        ),
        next_id: r.next_id + 1,
        ..r
    }
}

/// What a pipe command asks of the host after the state has been updated.
#[derive(Debug, Clone, PartialEq, Eq)]
pub enum PipeAction {
    /// Nothing happened; no redraw.
    Ignored,
    /// The state changed; redraw.
    Redraw,
    /// Paste the buffer the selector picks (the most recent one for
    /// `None`) into the target pane, via [`PluginState::paste`].
    Paste(Option<String>),
    /// Show the plugin, then enter copy mode over the target pane, via
    /// [`PluginState::copy_mode_source`] and [`PluginState::enter_copy_mode`].
    EnterCopyMode,
    /// Show the plugin (its buffer list).
    Show,
}

/// What a key press asks of the host.
#[derive(Debug, Clone, Copy, PartialEq, Eq, Structural)]
pub enum KeyAction {
    /// The key is not one of the plugin's.
    NotHandled,
    /// The key was handled; redraw.
    Handled,
    /// Yank the target pane's selection, via [`PluginState::yank_source`]
    /// and [`PluginState::yank`]; then redraw.
    Yank,
}

impl PluginState {
    /// The state right after loading, with the `buffer_limit` setting if
    /// there is one: an invalid value falls back to the default limit and
    /// leaves a warning in the status line.
    pub fn load(buffer_limit: Option<&str>) -> (s: Self)
        ensures
            s@.permissions == PermissionState::Pending,
            s@.ring.buffers.len() == 0,
            s@.ring.limit == configured_limit(
                match buffer_limit {
                    Some(r) => Some(r@),
                    None => None,
                },
            ),
            s@.ring.next_id == 0,
            s@.target_pane is None,
            s@.status == configured_status(
                match buffer_limit {
                    Some(r) => Some(r@),
                    None => None,
                },
            ),
            s@.copy is None,
            s@.last_cli_pipe is None,
    {
        let (limit, status) = match buffer_limit {
            Some(raw) => match buffer::parse_buffer_limit(raw) {
                Ok(limit) => (limit, None),
                Err(err) => {
                    let detail = err.message();
                    let mut out: Vec<char> = Vec::new();
                    text::append_str(&mut out, detail.as_str());
                    text::append_str(&mut out, "; using ");
                    text::push_decimal(&mut out, buffer::DEFAULT_BUFFER_LIMIT as u64);
                    proof {
                        match buffer::buffer_limit_of(raw@) {
                            Err(Some(t)) => {},
                            _ => {},
                        }
                    }
                    (buffer::DEFAULT_BUFFER_LIMIT, Some(text::string_of(out.as_slice())))
                },
            },
            None => (buffer::DEFAULT_BUFFER_LIMIT, None),
        };
        let ring = BufferRing::new(limit);
        PluginState {
            permissions: PermissionState::Pending,
            ring,
            target_pane: None,
            status,
            copy_mode: CopyMode::Inactive,
            last_cli_pipe: None,
        }
    }

    /// The buffer ring.
    pub fn ring(&self) -> (r: &BufferRing)
        ensures
            r@ == self@.ring,
    {
        &self.ring
    }

    /// The status line, if any.
    pub fn status(&self) -> (r: Option<&str>)
        ensures
            match self@.status {
                Some(s) => r matches Some(x) && x@ == s,
                None => r is None,
            },
    {
        match &self.status {
            Some(s) => Some(s.as_str()),
            None => None,
        }
    }

    /// The terminal pane last seen focused.
    pub fn target_pane(&self) -> (r: Option<u32>)
        ensures
            r == self@.target_pane,
    {
        self.target_pane
    }

    /// Whether copy mode is on.
    pub fn in_copy_mode(&self) -> (b: bool)
        ensures
            b == self@.copy is Some,
    {
        self.copy_mode.is_active()
    }

    /// Whether gated host calls may be made.
    pub fn ready(&self) -> (b: bool)
        ensures
            b == (self@.permissions == PermissionState::Granted),
    {
        self.permissions.is_ready()
    }

    /// Records the host's answer to the permission request; returns
    /// whether a redraw is needed.
    pub fn resolve_permissions(&mut self, granted: bool) -> (changed: bool)
        ensures
            changed == (old(self)@.permissions != answer_state(granted)),
            final(self)@ == (PluginView { permissions: answer_state(granted), ..old(self)@ }),
    {
        self.permissions.resolve(granted)
    }

    /// Records the first focused, live terminal pane of `panes` as the
    /// target; keeps the old target when there is none (the plugin's own
    /// pane may hold the focus).
    pub fn track_focused_pane(&mut self, panes: &[PaneFacts])
        ensures
            final(self)@ == (PluginView {
                target_pane: match first_focused_terminal(panes@) {
                    Some(id) => Some(id),
                    None => old(self)@.target_pane,
                },
                ..old(self)@
            }),
    {
        let mut i: usize = 0;
        proof {
            assert(panes@.skip(0) =~= panes@);
        }
        while i < panes.len()
            invariant
                i <= panes@.len(),
                self@ == old(self)@,
                first_focused_terminal(panes@) == first_focused_terminal(panes@.skip(i as int)),
            decreases panes@.len() - i,
        {
            let p = panes[i];
            proof {
                assert(panes@.skip(i as int)[0] == p);
                assert(panes@.skip(i as int).drop_first() =~= panes@.skip(i + 1));
            }
            if p.is_focused && !p.is_plugin && !p.exited {
                self.target_pane = Some(p.id);
                return;
            }
            i = i + 1;
        }
        proof {
            assert(panes@.skip(i as int) =~= Seq::<PaneFacts>::empty());
        }
    }

    /// Leaves copy mode, noting it in the status line when it was on.
    fn exit_copy_mode(&mut self)
        ensures
            final(self)@ == (PluginView {
                copy: None,
                status: if old(self)@.copy is Some {
                    Some("left copy mode"@)
                } else {
                    old(self)@.status
                },
                ..old(self)@
            }),
    {
        if self.copy_mode.exit() {
            self.status = Some("left copy mode".to_owned());
        }
    }
}

/// The state after leaving copy mode.
pub open spec fn exited(s: PluginView) -> PluginView {
    PluginView {
        copy: None,
        status: if s.copy is Some {
            Some("left copy mode"@)
        } else {
            s.status
        },
        ..s
    }
}

/// The state after remembering a command-line pipe id.
pub open spec fn after_cli(s: PluginView, cli: Option<Seq<char>>) -> PluginView {
    match cli {
        Some(id) => PluginView { last_cli_pipe: Some(id), ..s },
        None => s,
    }
}

/// Whether a pipe is dropped: before permissions are granted, or when it
/// repeats the command-line pipe just acted on (the end of its stream).
pub open spec fn pipe_ignored(s: PluginView, cli: Option<Seq<char>>) -> bool {
    s.permissions != PermissionState::Granted || (cli is Some && s.last_cli_pipe == cli)
}

/// The state after a `yank` pipe with selector `sel`.
pub open spec fn yank_result(s: PluginView, sel: Option<Seq<char>>) -> PluginView {
    match sel {
        Some(t) => if s.ring.next_id < u64::MAX {
            PluginView {
                ring: pushed(s.ring, t),
                status: Some(yanked_message(pushed(s.ring, t).buffers.len())),
                ..s
            }
        } else {
            PluginView { status: Some("nothing to yank — empty payload"@), ..s }
        },
        None => PluginView { status: Some("nothing to yank — empty payload"@), ..s },
    }
}

/// The character view of an optional `&str`.
pub open spec fn str_opt_view(o: Option<&str>) -> Option<Seq<char>> {
    match o {
        Some(s) => Some(s@),
        None => None,
    }
}

impl PluginState {
    /// Handles a pipe command (`yank`, `paste`, `copy_mode`, `cancel`,
    /// `list`); `cli_pipe` is the pipe id of a command-line pipe. Nothing
    /// happens before permissions are granted, nor for the later messages
    /// of a command-line pipe already acted on. The payload, trimmed and
    /// when not empty, is the text to yank or the buffer to paste.
    pub fn pipe(&mut self, cli_pipe: Option<&str>, name: &str, payload: Option<&str>) -> (r:
        PipeAction)
        ensures
            ({
                let cli = str_opt_view(cli_pipe);
                let s0 = old(self)@;
                let s1 = after_cli(s0, cli);
                let sel = selector_of(str_opt_view(payload));
                &&& pipe_ignored(s0, cli) ==> r is Ignored && final(self)@ == s0
                &&& !pipe_ignored(s0, cli) ==> {
                    &&& name@ == "yank"@ ==> r is Redraw && final(self)@ == yank_result(s1, sel)
                    &&& name@ == "paste"@ ==> final(self)@ == s1 && (r matches PipeAction::Paste(
                        x,
                    ) && buffer::opt_view(x) == sel)
                    &&& name@ == "copy_mode"@ ==> final(self)@ == s1 && r is EnterCopyMode
                    &&& name@ == "cancel"@ ==> r is Redraw && final(self)@ == exited(s1)
                    &&& name@ == "list"@ ==> r is Show && final(self)@ == exited(s1)
                    &&& (name@ != "yank"@ && name@ != "paste"@ && name@ != "copy_mode"@ && name@
                        != "cancel"@ && name@ != "list"@) ==> r is Redraw && final(self)@ == (
                    PluginView { status: Some("unknown command '"@ + name@ + "'"@), ..s1 })
                }
            }),
    {
        proof {
            reveal_strlit("yank");
            reveal_strlit("paste");
            reveal_strlit("copy_mode");
            reveal_strlit("cancel");
            reveal_strlit("list");
            assert("yank"@[0] != "list"@[0]);
        }
        if !self.permissions.is_ready() {
            return PipeAction::Ignored;
        }
        if let Some(id) = cli_pipe {
            let repeat = match &self.last_cli_pipe {
                Some(last) => text::str_eq(last.as_str(), id),
                None => false,
            };
            if repeat {
                return PipeAction::Ignored;
            }
            self.last_cli_pipe = Some(id.to_owned());
        }
        let selector: Option<String> = match payload {
            Some(p) => {
                let cs = text::chars_of(p);
                let t = text::trim_chars(cs.as_slice());
                if t.len() > 0 {
                    Some(text::string_of(t.as_slice()))
                } else {
                    None
                }
            },
            None => None,
        };
        if text::str_eq(name, "yank") {
            let pushed_id = match &selector {
                Some(t) => {
                    if self.ring.has_id_capacity() {
                        proof {
                            text::lemma_trimmed_not_blank(payload->0@);
                        }
                        self.ring.push(t.as_str())
                    } else {
                        None
                    }
                },
                None => None,
            };
            match pushed_id {
                Some(_) => {
                    let n = self.ring.len();
                    self.status = Some(number_message("yanked (", n as u64, " in ring)"));
                },
                None => {
                    self.status = Some("nothing to yank — empty payload".to_owned());
                },
            }
            PipeAction::Redraw
        } else if text::str_eq(name, "paste") {
            PipeAction::Paste(selector)
        } else if text::str_eq(name, "copy_mode") {
            PipeAction::EnterCopyMode
        } else if text::str_eq(name, "cancel") {
            self.exit_copy_mode();
            PipeAction::Redraw
        } else if text::str_eq(name, "list") {
            self.exit_copy_mode();
            PipeAction::Show
        } else {
            self.status = Some(text_message("unknown command '", name, "'"));
            PipeAction::Redraw
        }
    }
}

/// A selection the host reported in a pane's viewport.
#[derive(Debug, Clone, PartialEq, Eq)]
pub struct SelectionCapture {
    /// The viewport's lines.
    pub lines: Vec<String>,
    /// The selection's first line (may be negative above the viewport).
    pub start_line: isize,
    /// The selection's first column.
    pub start_col: usize,
    /// The selection's last line.
    pub end_line: isize,
    /// The selection's last column.
    pub end_col: usize,
}

/// A host line number as a row: negative lines count as row `0`.
pub open spec fn row_of(line: isize) -> usize {
    if line < 0 {
        0
    } else {
        line as usize
    }
}

/// The character views of a sequence of strings.
pub open spec fn string_views(v: Seq<String>) -> Seq<Seq<char>> {
    v.map_values(|s: String| s@)
}

/// The text a selection capture yanks: the covered span with each line's
/// trailing blanks removed.
pub open spec fn captured_text(c: SelectionCapture) -> Seq<char> {
    selection::trimmed_text(
        selection::span_text(
            string_views(c.lines@),
            Cursor { row: row_of(c.start_line), col: c.start_col },
            Cursor { row: row_of(c.end_line), col: c.end_col },
        ),
    )
}

/// The state after pushing `t` as a yank of a selection.
pub open spec fn yank_selection_result(s: PluginView, t: Seq<char>) -> PluginView {
    if !text::is_blank(t) && s.ring.next_id < u64::MAX {
        PluginView {
            ring: pushed(s.ring, t),
            status: Some(yanked_message(pushed(s.ring, t).buffers.len())),
            ..s
        }
    } else {
        PluginView { status: Some("selection was empty — nothing yanked"@), ..s }
    }
}

/// The text a paste writes: the buffer the selector resolves to, or the
/// most recent one without a selector.
pub open spec fn paste_choice(r: RingView, sel: Option<Seq<char>>) -> Option<Seq<char>> {
    match sel {
        Some(x) => match buffer::resolve_index(r.buffers, x) {
            Some(k) => Some(r.buffers[k].text),
            None => None,
        },
        None => if r.buffers.len() > 0 {
            Some(r.buffers[0].text)
        } else {
            None
        },
    }
}

/// The status when a paste finds nothing to write.
pub open spec fn paste_miss_message(sel: Option<Seq<char>>) -> Seq<char> {
    match sel {
        Some(x) => "no buffer matching '"@ + x + "'"@,
        None => "ring is empty — nothing to paste"@,
    }
}

fn refs_of(v: &Vec<String>) -> (r: Vec<&str>)
    ensures
        selection::str_views(r@) == string_views(v@),
{
    let mut out: Vec<&str> = Vec::new();
    let mut i: usize = 0;
    while i < v.len()
        invariant
            i <= v@.len(),
            selection::str_views(out@) == string_views(v@).take(i as int),
        decreases v@.len() - i,
    {
        let ghost before = out@;
        out.push(v[i].as_str());
        proof {
            assert(selection::str_views(out@) =~= selection::str_views(before).push(v@[i as int]@));
            assert(string_views(v@).take(i + 1) =~= string_views(v@).take(i as int).push(
                v@[i as int]@,
            ));
        }
        i = i + 1;
    }
    proof {
        assert(string_views(v@).take(i as int) =~= string_views(v@));
    }
    out
}

fn row_from_line(line: isize) -> (r: usize)
    ensures
        r == row_of(line),
{
    if line < 0 {
        0
    } else {
        line as usize
    }
}

impl PluginState {
    /// The pane a capture (copy mode or yank) reads; without one, says so
    /// in the status line.
    pub fn capture_source(&mut self) -> (r: Option<u32>)
        ensures
            r == old(self)@.target_pane,
            r is Some ==> final(self)@ == old(self)@,
            r is None ==> final(self)@ == (PluginView {
                status: Some(no_pane_message()),
                ..old(self)@
            }),
    {
        match self.target_pane {
            Some(id) => Some(id),
            None => {
                self.status = Some("no terminal pane seen yet — focus one first".to_owned());
                None
            },
        }
    }

    /// Enters copy mode over what the host read of the target pane (its
    /// full scrollback), in a window of `height` rows; a read error or an
    /// empty pane is reported in the status line instead.
    pub fn enter_copy_mode(&mut self, capture: Result<Scrollback, String>, height: usize)
        ensures
            match capture {
                Err(e) => final(self)@ == (PluginView {
                    status: Some(read_error_message(e@)),
                    ..old(self)@
                }),
                Ok(sb) => if sb@.lines.len() == 0 {
                    final(self)@ == (PluginView {
                        status: Some("target pane has no content to copy"@),
                        ..old(self)@
                    })
                } else {
                    &&& final(self)@.status == Some(
                        "copy mode — "@ + text::decimal(sb@.lines.len()) + " line(s) captured"@,
                    )
                    &&& final(self)@.copy matches Some(c) && c.scrollback == sb@ && c.cursor
                        == sb@.clamp_cursor(Cursor { row: sb@.viewport_start as usize, col: 0 })
                        && c.top == crate::copy_mode::scrolled_top(
                        0,
                        c.cursor.row as nat,
                        crate::copy_mode::effective_height(height),
                    ) && c.anchor is None && c.mode == crate::region::SelectionMode::Char
                    &&& final(self)@ == (PluginView {
                        status: final(self)@.status,
                        copy: final(self)@.copy,
                        ..old(self)@
                    })
                },
            },
    {
        match capture {
            Err(e) => {
                self.status = Some(text_message("could not read pane: ", e.as_str(), ""));
                proof {
                    reveal_strlit("");
                    assert("could not read pane: "@ + e@ + ""@ =~= read_error_message(e@));
                }
            },
            Ok(sb) => {
                if sb.is_empty() {
                    self.status = Some("target pane has no content to copy".to_owned());
                } else {
                    let n = sb.len();
                    self.copy_mode.enter(sb, height);
                    self.status = Some(number_message("copy mode — ", n as u64, " line(s) captured"));
                }
            },
        }
    }

    /// Yanks what the host reported of the target pane's viewport: the
    /// selected span, trailing blanks of each line removed, as a new
    /// buffer; read errors, a missing selection and blank text are
    /// reported in the status line instead.
    pub fn yank(&mut self, capture: Result<Option<SelectionCapture>, String>)
        ensures
            match capture {
                Err(e) => final(self)@ == (PluginView {
                    status: Some(read_error_message(e@)),
                    ..old(self)@
                }),
                Ok(None) => final(self)@ == (PluginView {
                    status: Some("nothing selected in the target pane"@),
                    ..old(self)@
                }),
                Ok(Some(c)) => final(self)@ == yank_selection_result(old(self)@, captured_text(c)),
            },
    {
        match capture {
            Err(e) => {
                self.status = Some(text_message("could not read pane: ", e.as_str(), ""));
                proof {
                    reveal_strlit("");
                    assert("could not read pane: "@ + e@ + ""@ =~= read_error_message(e@));
                }
            },
            Ok(None) => {
                self.status = Some("nothing selected in the target pane".to_owned());
            },
            Ok(Some(c)) => {
                let refs = refs_of(&c.lines);
                let start = Cursor::new(row_from_line(c.start_line), c.start_col);
                let end = Cursor::new(row_from_line(c.end_line), c.end_col);
                let span = selection::extract_span(refs.as_slice(), start, end);
                let t = selection::trim_trailing_blanks(span.as_str());
                let blank = text::str_blank(t.as_str());
                let pushed_id = if !blank && self.ring.has_id_capacity() {
                    self.ring.push(t)
                } else {
                    None
                };
                match pushed_id {
                    Some(_) => {
                        let n = self.ring.len();
                        self.status = Some(number_message("yanked (", n as u64, " in ring)"));
                    },
                    None => {
                        self.status = Some("selection was empty — nothing yanked".to_owned());
                    },
                }
            },
        }
    }

    /// Picks the text to paste and its pane: the host's focused pane when
    /// it is a terminal (`focused` is its terminal flag and id), else the
    /// pane last seen focused; the buffer the selector resolves to, or the
    /// most recent one. Returns the pane and text to write, or `None` with
    /// the reason in the status line.
    pub fn paste(&mut self, focused: Option<(bool, u32)>, selector: Option<&str>) -> (r: Option<
        (u32, String),
    >)
        ensures
            ({
                let target = paste_target_of(focused, old(self)@.target_pane);
                let sel = str_opt_view(selector);
                let choice = paste_choice(old(self)@.ring, sel);
                &&& target is None ==> r is None && final(self)@ == (PluginView {
                    status: Some("no terminal pane to paste into"@),
                    ..old(self)@
                })
                &&& target is Some && choice is None ==> r is None && final(self)@ == (PluginView {
                    status: Some(paste_miss_message(sel)),
                    ..old(self)@
                })
                &&& target is Some && choice is Some ==> (r matches Some((p, t)) && p == target->0
                    && t@ == choice->0 && final(self)@ == (PluginView {
                    status: Some(
                        "pasted "@ + text::decimal(crate::persist::byte_len(t@) as usize as nat)
                            + " bytes"@,
                    ),
                    ..old(self)@
                }))
            }),
    {
        let target = match focused {
            Some((true, id)) => Some(id),
            _ => self.target_pane,
        };
        let pane = match target {
            Some(p) => p,
            None => {
                self.status = Some("no terminal pane to paste into".to_owned());
                return None;
            },
        };
        let chosen = match selector {
            Some(sel) => match self.ring.resolve(sel) {
                Some(b) => Some(b.text().to_owned()),
                None => {
                    self.status = Some(text_message("no buffer matching '", sel, "'"));
                    return None;
                },
            },
            None => match self.ring.most_recent() {
                Some(b) => Some(b.text().to_owned()),
                None => {
                    self.status = Some("ring is empty — nothing to paste".to_owned());
                    return None;
                },
            },
        };
        match chosen {
            Some(t) => {
                let n = t.as_str().len();
                self.status = Some(number_message("pasted ", n as u64, " bytes"));
                Some((pane, t))
            },
            None => None,
        }
    }

    /// Handles a key press (`key` is its character, `plain` whether no
    /// modifier was held): once permissions are granted, an unmodified `y`
    /// asks for a yank and `d` deletes the most recent buffer.
    pub fn handle_key(&mut self, key: Option<char>, plain: bool) -> (r: KeyAction)
        ensures
            (old(self)@.permissions != PermissionState::Granted || !plain || (key != Some('y')
                && key != Some('d'))) ==> r == KeyAction::NotHandled && final(self)@ == old(self)@,
            (old(self)@.permissions == PermissionState::Granted && plain && key == Some('y')) ==> r
                == KeyAction::Yank && final(self)@ == old(self)@,
            (old(self)@.permissions == PermissionState::Granted && plain && key == Some('d')) ==> r
                == KeyAction::Handled && final(self)@ == (if old(self)@.ring.buffers.len() > 0 {
                PluginView {
                    ring: RingView {
                        buffers: old(self)@.ring.buffers.remove(0),
                        ..old(self)@.ring
                    },
                    status: Some("deleted most recent buffer"@),
                    ..old(self)@
                }
            } else {
                PluginView { status: Some("ring is empty — nothing to delete"@), ..old(self)@ }
            }),
    {
        if !self.permissions.is_ready() || !plain {
            return KeyAction::NotHandled;
        }
        match key {
            Some('y') => KeyAction::Yank,
            Some('d') => {
                let first = match self.ring.most_recent() {
                    Some(b) => Some(b.id()),
                    None => None,
                };
                match first {
                    Some(id) => {
                        proof {
                            assert(buffer::find_id(self@.ring.buffers, id@, 0) == 0);
                        }
                        self.ring.remove(id);
                        self.status = Some("deleted most recent buffer".to_owned());
                    },
                    None => {
                        self.status = Some("ring is empty — nothing to delete".to_owned());
                    },
                }
                KeyAction::Handled
            },
            _ => KeyAction::NotHandled,
        }
    }
}

// ---------------------------------------------------------------------
// Rendering
// ---------------------------------------------------------------------

/// The explanation shown instead of everything else while permissions are
/// not granted.
pub open spec fn permission_notice(p: PermissionState) -> Option<Seq<char>> {
    match p {
        PermissionState::Pending => Some(
            "zclip: waiting for permission — accept the prompt to continue."@,
        ),
        PermissionState::Denied => Some(
            "zclip: permissions denied. zclip cannot read or write panes. Reload the plugin to be asked again."@,
        ),
        PermissionState::Granted => None,
    }
}

/// A buffer's name as the list shows it (` [name]`, or nothing).
pub open spec fn name_part(name: Option<Seq<char>>) -> Seq<char> {
    match name {
        Some(n) => " ["@ + n + "]"@,
        None => Seq::empty(),
    }
}

/// The list row of the buffer at `index`.
pub open spec fn buffer_row(index: nat, b: buffer::BufferView) -> Seq<char> {
    "  "@ + text::decimal(index) + ":"@ + name_part(b.name) + " "@ + buffer::preview_of(
        b.text,
        PREVIEW_WIDTH as nat,
    ) + " ("@ + text::decimal(buffer::line_count_of(b.text)) + " line(s))"@
}

/// How many buffers fit in `rows` rows next to the list's other lines
/// (at least one).
pub open spec fn list_capacity(rows: usize) -> nat {
    if rows > 6 {
        (rows - 5) as nat
    } else {
        1
    }
}

/// The status line as printed, if any.
pub open spec fn status_lines(status: Option<Seq<char>>) -> Seq<Seq<char>> {
    match status {
        Some(st) => seq!["  "@ + st],
        None => Seq::empty(),
    }
}

/// The buffer list screen.
pub open spec fn list_lines(s: PluginView, rows: usize) -> Seq<Seq<char>> {
    let bs = s.ring.buffers;
    let shown = if bs.len() < list_capacity(rows) {
        bs.len()
    } else {
        list_capacity(rows)
    };
    let head = seq!["zclip "@ + crate::VERSION@ + " — "@ + text::decimal(bs.len()) + " buffer(s)"@, Seq::empty()];
    let body = if bs.len() == 0 {
        seq!["  (empty) enter copy mode to capture text"@]
    } else {
        Seq::new(shown, |i: int| buffer_row(i as nat, bs[i]))
    };
    head + body + seq![Seq::empty()] + status_lines(s.status) + seq![
        "  y yank (mouse selection)   d delete"@,
    ]
}

/// The copy-mode window height for a pane of `rows` rows (at least one).
pub open spec fn copy_height(rows: usize) -> usize {
    if rows > 4 {
        (rows - 3) as usize
    } else {
        1
    }
}

/// One line of the copy-mode window: a `>` marker on the cursor's row,
/// then the line cut to `cols - 2` characters.
pub open spec fn copy_row(row: nat, cursor_row: nat, line: Seq<char>, cols: usize) -> Seq<char> {
    let width: nat = if cols > 2 {
        (cols - 2) as nat
    } else {
        0
    };
    let marker = if row == cursor_row {
        '>'
    } else {
        ' '
    };
    seq![marker, ' '] + line.take(
        if line.len() < width {
            line.len() as int
        } else {
            width as int
        },
    )
}

/// The rows of a session visible in a window of `h` rows.
pub open spec fn visible_count(c: SessionView, h: nat) -> nat {
    let n = c.scrollback.lines.len();
    if c.top + h <= n {
        h
    } else if c.top <= n {
        (n - c.top) as nat
    } else {
        0
    }
}

/// The copy-mode screen of session `c` (already scrolled to its cursor).
pub open spec fn copy_lines(c: SessionView, status: Option<Seq<char>>, rows: usize, cols: usize) -> Seq<
    Seq<char>,
> {
    let h = copy_height(rows) as nat;
    let head = seq![
        "zclip copy mode — line "@ + text::decimal((c.cursor.row + 1) as nat) + "/"@ + text::decimal(
            c.scrollback.lines.len(),
        ) + " (snapshot)"@,
    ];
    head + Seq::new(
        visible_count(c, h),
        |k: int|
            copy_row(
                (c.top + k) as nat,
                c.cursor.row as nat,
                c.scrollback.lines[c.top + k],
                cols,
            ),
    ) + status_lines(status)
}

/// The views of the printed lines.
pub open spec fn line_views(v: Seq<String>) -> Seq<Seq<char>> {
    v.map_values(|s: String| s@)
}

fn push_line(out: &mut Vec<String>, chars: &Vec<char>)
    ensures
        line_views(final(out)@) == line_views(old(out)@).push(chars@),
{
    let ghost before = out@;
    out.push(text::string_of(chars.as_slice()));
    proof {
        assert(line_views(out@) =~= line_views(before).push(chars@));
    }
}

fn push_status(out: &mut Vec<String>, status: &Option<String>)
    ensures
        line_views(final(out)@) == line_views(old(out)@) + status_lines(buffer::opt_view(*status)),
{
    match status {
        Some(st) => {
            let mut l: Vec<char> = Vec::new();
            text::append_str(&mut l, "  ");
            text::append_str(&mut l, st.as_str());
            push_line(out, &l);
            proof {
                assert(line_views(out@) =~= line_views(old(out)@) + status_lines(
                    buffer::opt_view(*status),
                ));
            }
        },
        None => {
            proof {
                assert(line_views(out@) =~= line_views(old(out)@) + Seq::<Seq<char>>::empty());
            }
        },
    }
}

impl PluginState {
    /// The buffer list screen for a pane of `rows` rows.
    fn render_list(&self, rows: usize) -> (r: Vec<String>)
        ensures
            line_views(r@) == list_lines(self@, rows),
    {
        let n = self.ring.len();
        let mut out: Vec<String> = Vec::new();
        let mut l: Vec<char> = Vec::new();
        text::append_str(&mut l, "zclip ");
        text::append_str(&mut l, crate::VERSION);
        text::append_str(&mut l, " — ");
        text::push_decimal(&mut l, n as u64);
        text::append_str(&mut l, " buffer(s)");
        push_line(&mut out, &l);
        push_line(&mut out, &Vec::new());
        let ghost head = line_views(out@);
        let ghost bs = self@.ring.buffers;
        if n == 0 {
            let mut e: Vec<char> = Vec::new();
            text::append_str(&mut e, "  (empty) enter copy mode to capture text");
            push_line(&mut out, &e);
        } else {
            let capacity: usize = if rows > 6 {
                rows - 5
            } else {
                1
            };
            let shown = if n < capacity {
                n
            } else {
                capacity
            };
            let mut i: usize = 0;
            while i < shown
                invariant
                    i <= shown <= n,
                    n == bs.len(),
                    bs == self@.ring.buffers,
                    line_views(out@) == head + Seq::new(i as nat, |k: int| buffer_row(k as nat, bs[k])),
                decreases shown - i,
            {
                let b = self.ring.get(i).unwrap();
                let mut row: Vec<char> = Vec::new();
                text::append_str(&mut row, "  ");
                text::push_decimal(&mut row, i as u64);
                text::append_str(&mut row, ":");
                let ghost before_name = row@;
                match b.name() {
                    Some(name) => {
                        text::append_str(&mut row, " [");
                        text::append_str(&mut row, name);
                        text::append_str(&mut row, "]");
                    },
                    None => {},
                }
                proof {
                    assert(row@ =~= before_name + name_part(b@.name));
                }
                text::append_str(&mut row, " ");
                let p = b.preview(PREVIEW_WIDTH);
                text::append_str(&mut row, p.as_str());
                text::append_str(&mut row, " (");
                let lc = b.line_count();
                text::push_decimal(&mut row, lc as u64);
                text::append_str(&mut row, " line(s))");
                proof {
                    assert(bs[i as int] == b@);
                    assert(row@ =~= buffer_row(i as nat, bs[i as int]));
                }
                let ghost before = line_views(out@);
                push_line(&mut out, &row);
                proof {
                    assert(Seq::new((i + 1) as nat, |k: int| buffer_row(k as nat, bs[k])) =~= Seq::new(
                        i as nat,
                        |k: int| buffer_row(k as nat, bs[k]),
                    ).push(buffer_row(i as nat, bs[i as int])));
                    assert(line_views(out@) =~= head + Seq::new(
                        (i + 1) as nat,
                        |k: int| buffer_row(k as nat, bs[k]),
                    ));
                }
                i = i + 1;
            }
        }
        push_line(&mut out, &Vec::new());
        push_status(&mut out, &self.status);
        let mut hint: Vec<char> = Vec::new();
        text::append_str(&mut hint, "  y yank (mouse selection)   d delete");
        push_line(&mut out, &hint);
        proof {
            assert(line_views(out@) =~= list_lines(self@, rows));
        }
        out
    }

    /// What to print for a pane of `rows` by `cols`: the permission notice
    /// until permissions are granted; in copy mode, the window (first
    /// scrolled to the cursor) with the cursor's row marked; otherwise the
    /// buffer list.
    pub fn render(&mut self, rows: usize, cols: usize) -> (r: Vec<String>)
        ensures
            permission_notice(old(self)@.permissions) matches Some(m) ==> line_views(r@) == seq![m]
                && final(self)@ == old(self)@,
            old(self)@.permissions == PermissionState::Granted && old(self)@.copy is None ==> line_views(r@)
                == list_lines(old(self)@, rows) && final(self)@ == old(self)@,
            old(self)@.permissions == PermissionState::Granted && old(self)@.copy is Some ==> ({
                let c = old(self)@.copy->0;
                let moved = SessionView {
                    top: crate::copy_mode::scrolled_top(
                        c.top,
                        c.cursor.row as nat,
                        copy_height(rows) as nat,
                    ),
                    ..c
                };
                &&& final(self)@ == (PluginView { copy: Some(moved), ..old(self)@ })
                &&& line_views(r@) == copy_lines(moved, old(self)@.status, rows, cols)
            }),
    {
        match self.permissions.message() {
            Some(m) => {
                let mut l: Vec<char> = Vec::new();
                text::append_str(&mut l, m);
                let mut out: Vec<String> = Vec::new();
                push_line(&mut out, &l);
                proof {
                    assert(line_views(out@) =~= seq![m@]);
                }
                return out;
            },
            None => {},
        }
        if !self.copy_mode.is_active() {
            return self.render_list(rows);
        }
        let height: usize = if rows > 4 {
            rows - 3
        } else {
            1
        };
        let status = &self.status;
        let mut out: Vec<String> = Vec::new();
        match self.copy_mode.session_mut() {
            Some(session) => {
                session.scroll_to_cursor(height);
                let session = &*session;
                let cursor_row = session.cursor().row;
                let total = session.scrollback().len();
                let mut l: Vec<char> = Vec::new();
                text::append_str(&mut l, "zclip copy mode — line ");
                session.check_invariant();
                text::push_decimal(&mut l, (cursor_row as u64) + 1);
                text::append_str(&mut l, "/");
                text::push_decimal(&mut l, total as u64);
                text::append_str(&mut l, " (snapshot)");
                push_line(&mut out, &l);
                let ghost head = line_views(out@);
                let ghost c = session@;
                let rows_shown = session.visible_rows(height);
                let width: usize = if cols > 2 {
                    cols - 2
                } else {
                    0
                };
                let mut k: usize = 0;
                while k < rows_shown.len()
                    invariant
                        k <= rows_shown@.len(),
                        rows_shown@.len() == visible_count(c, height as nat),
                        forall|j: int|
                            0 <= j < rows_shown@.len() ==> (#[trigger] rows_shown@[j]).0 == c.top + j
                                && rows_shown@[j].1@ == c.scrollback.lines[c.top + j],
                        line_views(out@) == head + Seq::new(
                            k as nat,
                            |j: int|
                                copy_row(
                                    (c.top + j) as nat,
                                    c.cursor.row as nat,
                                    c.scrollback.lines[c.top + j],
                                    cols,
                                ),
                        ),
                        cursor_row == c.cursor.row,
                        width == (if cols > 2 {
                            (cols - 2) as nat
                        } else {
                            0
                        }),
                    decreases rows_shown@.len() - k,
                {
                    let (row, line) = rows_shown[k];
                    let cs = text::chars_of(line);
                    let mut t: Vec<char> = Vec::new();
                    if row == cursor_row {
                        t.push('>');
                    } else {
                        t.push(' ');
                    }
                    t.push(' ');
                    let take = if cs.len() < width {
                        cs.len()
                    } else {
                        width
                    };
                    text::append_range(&mut t, cs.as_slice(), 0, take);
                    proof {
                        assert(t@ =~= copy_row(
                            (c.top + k) as nat,
                            c.cursor.row as nat,
                            c.scrollback.lines[c.top + k],
                            cols,
                        ));
                    }
                    push_line(&mut out, &t);
                    proof {
                        assert(Seq::new(
                            (k + 1) as nat,
                            |j: int|
                                copy_row(
                                    (c.top + j) as nat,
                                    c.cursor.row as nat,
                                    c.scrollback.lines[c.top + j],
                                    cols,
                                ),
                        ) =~= Seq::new(
                            k as nat,
                            |j: int|
                                copy_row(
                                    (c.top + j) as nat,
                                    c.cursor.row as nat,
                                    c.scrollback.lines[c.top + j],
                                    cols,
                                ),
                        ).push(
                            copy_row(
                                (c.top + k) as nat,
                                c.cursor.row as nat,
                                c.scrollback.lines[c.top + k],
                                cols,
                            ),
                        ));
                    }
                    k = k + 1;
                }
            },
            None => {},
        }
        push_status(&mut out, status);
        out
    }
}

/// A command-line pipe is acted on once: whatever its first message did,
/// every later message of the same pipe is ignored.
pub proof fn law_cli_pipe_runs_once(
    s: PluginView,
    id: Seq<char>,
    sel: Option<Seq<char>>,
    name: Seq<char>,
)
    requires
        !pipe_ignored(s, Some(id)),
    ensures
        ({
            let s1 = after_cli(s, Some(id));
            &&& pipe_ignored(s1, Some(id))
            &&& pipe_ignored(yank_result(s1, sel), Some(id))
            &&& pipe_ignored(exited(s1), Some(id))
            &&& pipe_ignored(
                PluginView { status: Some("unknown command '"@ + name + "'"@), ..s1 },
                Some(id),
            )
        }),
{
}

/// A selection yank keeps the selected span line for line, each line cut
/// only of its trailing spaces and tabs (the padding a terminal grid adds
/// to every row, whether one row is selected or several): no line of the
/// yanked text ends in a space or a tab.
pub proof fn law_yank_trims_each_line(c: SelectionCapture)
    ensures
        ({
            let span = selection::span_text(
                string_views(c.lines@),
                Cursor { row: row_of(c.start_line), col: c.start_col },
                Cursor { row: row_of(c.end_line), col: c.end_col },
            );
            let inp = text::split_on(span, '\n');
            let out = text::split_on(captured_text(c), '\n');
            &&& out.len() == inp.len()
            &&& forall|i: int|
                0 <= i < out.len() ==> (#[trigger] out[i]).len() <= inp[i].len() && out[i]
                    == inp[i].subrange(0, out[i].len() as int)
            &&& forall|i: int, k: int|
                0 <= i < out.len() && out[i].len() <= k < inp[i].len() ==> (#[trigger] inp[i][k]
                    == ' ' || inp[i][k] == '\t')
            &&& forall|i: int|
                0 <= i < out.len() && (#[trigger] out[i]).len() > 0 ==> out[i].last() != ' '
                    && out[i].last() != '\t'
        }),
{
    let span = selection::span_text(
        string_views(c.lines@),
        Cursor { row: row_of(c.start_line), col: c.start_col },
        Cursor { row: row_of(c.end_line), col: c.end_col },
    );
    let inp = text::split_on(span, '\n');
    let out = text::split_on(captured_text(c), '\n');
    selection::law_trim_keeps_lines(span);
    assert forall|i: int| 0 <= i < out.len() implies #[trigger] out[i] == selection::trim_pad(
        inp[i],
    ) && selection::trim_pad(inp[i]).len() <= inp[i].len() && selection::trim_pad(inp[i])
        == inp[i].subrange(0, selection::trim_pad(inp[i]).len() as int) && (forall|k: int|
        selection::trim_pad(inp[i]).len() <= k < inp[i].len() ==> (#[trigger] inp[i][k] == ' '
            || inp[i][k] == '\t')) && (selection::trim_pad(inp[i]).len() > 0
        ==> selection::trim_pad(inp[i]).last() != ' ' && selection::trim_pad(inp[i]).last()
        != '\t') by {
        selection::law_trim_pad_cuts_only_padding(inp[i]);
    }
}

/// A paste without a selector writes the most recent buffer: the one with
/// the highest creation number; an empty ring gives nothing to paste.
pub proof fn law_paste_takes_most_recent(r: RingView)
    requires
        buffer::ring_ok(r),
    ensures
        r.buffers.len() == 0 ==> paste_choice(r, None) is None,
        r.buffers.len() > 0 ==> exists|i: int|
            0 <= i < r.buffers.len() && paste_choice(r, None) == Some(r.buffers[i].text) && forall|
                j: int,
            |
                0 <= j < r.buffers.len() ==> #[trigger] r.buffers[j].seq <= r.buffers[i].seq,
{
    if r.buffers.len() > 0 {
        assert forall|j: int| 0 <= j < r.buffers.len() implies #[trigger] r.buffers[j].seq
            <= r.buffers[0].seq by {
            if j > 0 {
                assert(r.buffers[0].seq > r.buffers[j].seq);
            }
        }
    }
}

/// What a yank puts in the ring is what a paste without a selector writes
/// next, whether it came from a selection or from a pipe's payload.
pub proof fn law_paste_after_yank(s: PluginView, t: Seq<char>)
    requires
        buffer::ring_ok(s.ring),
        s.ring.next_id < u64::MAX,
    ensures
        !text::is_blank(t) ==> paste_choice(yank_selection_result(s, t).ring, None) == Some(t),
        paste_choice(yank_result(s, Some(t)).ring, None) == Some(t),
{
    buffer::law_push_keeps_named_and_front(s.ring, t);
}

/// Whether a pane can receive a paste: focused, a terminal, and alive.
pub open spec fn live_focused_terminal(p: PaneFacts) -> bool {
    p.is_focused && !p.is_plugin && !p.exited
}

/// Target tracking picks the first pane, in the host's order, that is a
/// focused, live terminal, and finds nothing only when no pane is one.
pub proof fn law_tracking_picks_first_terminal(panes: Seq<PaneFacts>)
    ensures
        first_focused_terminal(panes) is None <==> forall|i: int|
            0 <= i < panes.len() ==> !live_focused_terminal(#[trigger] panes[i]),
        first_focused_terminal(panes) is Some ==> exists|i: int|
            0 <= i < panes.len() && live_focused_terminal(#[trigger] panes[i]) && first_focused_terminal(
                panes,
            ) == Some(panes[i].id) && forall|j: int| 0 <= j < i ==> !live_focused_terminal(
                #[trigger] panes[j],
            ),
    decreases panes.len(),
{
    if panes.len() > 0 {
        let rest = panes.drop_first();
        law_tracking_picks_first_terminal(rest);
        if live_focused_terminal(panes[0]) {
            assert(live_focused_terminal(panes[0]) && first_focused_terminal(panes) == Some(
                panes[0].id,
            ));
        } else {
            assert forall|i: int| 1 <= i < panes.len() implies #[trigger] panes[i] == rest[i - 1] by {}
            if first_focused_terminal(rest) is Some {
                let i = choose|i: int|
                    0 <= i < rest.len() && live_focused_terminal(#[trigger] rest[i])
                        && first_focused_terminal(rest) == Some(rest[i].id) && forall|j: int|
                        0 <= j < i ==> !live_focused_terminal(#[trigger] rest[j]);
                assert(panes[i + 1] == rest[i]);
                assert forall|j: int| 0 <= j < i + 1 implies !live_focused_terminal(
                    #[trigger] panes[j],
                ) by {
                    if j > 0 {
                        assert(panes[j] == rest[j - 1]);
                    }
                }
            } else {
                assert forall|i: int| 0 <= i < panes.len() implies !live_focused_terminal(
                    #[trigger] panes[i],
                ) by {
                    if i > 0 {
                        assert(panes[i] == rest[i - 1]);
                    }
                }
            }
        }
    }
}

/// A `buffer_limit` setting of a positive decimal number that fits in
/// `usize` (whitespace around it allowed) becomes the ring's limit with no
/// warning; `0` falls back to the default limit with a warning.
pub proof fn law_load_reads_limit(n: nat, front: Seq<char>, back: Seq<char>)
    requires
        forall|k: int| 0 <= k < front.len() ==> text::is_ws(#[trigger] front[k]),
        forall|k: int| 0 <= k < back.len() ==> text::is_ws(#[trigger] back[k]),
    ensures
        1 <= n <= usize::MAX ==> configured_limit(Some(front + text::decimal(n) + back)) == n
            && configured_status(Some(front + text::decimal(n) + back)) is None,
        n == 0 ==> configured_limit(Some(front + text::decimal(n) + back))
            == buffer::DEFAULT_BUFFER_LIMIT && configured_status(
            Some(front + text::decimal(n) + back),
        ) is Some,
{
    buffer::law_buffer_limit_reads_decimals(n, front, back);
}

/// The copy-mode screen shows a title, then the visible rows in order,
/// each cut to fit `cols` columns behind a two-character gutter, with the
/// `>` marker on the cursor's row and on no other.
pub proof fn law_copy_screen_marks_cursor(c: SessionView, status: Option<Seq<char>>, rows: usize, cols: usize)
    ensures
        ({
            let out = copy_lines(c, status, rows, cols);
            let n = visible_count(c, copy_height(rows) as nat);
            let width: int = if cols > 2 { cols - 2 } else { 0 };
            &&& out.len() == 1 + n + (if status is Some { 1int } else { 0 })
            &&& forall|k: int|
                0 <= k < n ==> {
                    let line = #[trigger] out[1 + k];
                    let src = c.scrollback.lines[c.top + k];
                    &&& line.len() >= 2
                    &&& (line[0] == '>' <==> c.top + k == c.cursor.row)
                    &&& line[1] == ' '
                    &&& line.len() - 2 <= width
                    &&& line.skip(2) == src.take(line.len() - 2)
                    &&& (src.len() <= width ==> line.skip(2) == src)
                }
        }),
{
    let out = copy_lines(c, status, rows, cols);
    let n = visible_count(c, copy_height(rows) as nat);
    assert forall|k: int| 0 <= k < n implies {
        let line = #[trigger] out[1 + k];
        let src = c.scrollback.lines[c.top + k];
        let width: int = if cols > 2 { cols - 2 } else { 0 };
        &&& line.len() >= 2
        &&& (line[0] == '>' <==> c.top + k == c.cursor.row)
        &&& line[1] == ' '
        &&& line.len() - 2 <= width
        &&& line.skip(2) == src.take(line.len() - 2)
        &&& (src.len() <= width ==> line.skip(2) == src)
    } by {
        let line = out[1 + k];
        let src = c.scrollback.lines[c.top + k];
        assert(line == copy_row((c.top + k) as nat, c.cursor.row as nat, src, cols));
        assert(line.skip(2) =~= src.take(line.len() - 2));
        if src.len() <= (if cols > 2 { cols - 2 } else { 0 }) {
            assert(src.take(src.len() as int) =~= src);
        }
    }
}

} // verus!
