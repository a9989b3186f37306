use zclip_core::plugin::{KeyAction, PaneFacts, PipeAction, PluginState, SelectionCapture};
use zclip_core::scrollback::Scrollback;

fn strings(items: &[&str]) -> Vec<String> {
    items.iter().map(|s| (*s).to_string()).collect()
}

fn granted() -> PluginState {
    let mut state = PluginState::load(None);
    assert!(state.resolve_permissions(true));
    state
}

fn terminal(id: u32, is_focused: bool) -> PaneFacts {
    PaneFacts {
        id,
        is_focused,
        is_plugin: false,
        exited: false,
    }
}

#[test]
fn load_without_a_limit_uses_the_default() {
    let state = PluginState::load(None);
    assert_eq!(state.ring().limit(), 50);
    assert_eq!(state.status(), None);
    assert!(!state.ready());
}

#[test]
fn load_with_a_valid_limit_uses_it() {
    let state = PluginState::load(Some(" 7 "));
    assert_eq!(state.ring().limit(), 7);
    assert_eq!(state.status(), None);
}

#[test]
fn load_with_an_invalid_limit_falls_back_and_warns() {
    let state = PluginState::load(Some("lots"));
    assert_eq!(state.ring().limit(), 50);
    assert_eq!(
        state.status(),
        Some("'lots' is not a valid buffer_limit (expected a positive integer); using 50")
    );
    let zero = PluginState::load(Some("0"));
    assert_eq!(zero.ring().limit(), 50);
    assert_eq!(
        zero.status(),
        Some("buffer_limit must be at least 1, got 0; using 50")
    );
}

#[test]
fn pipes_are_ignored_until_permissions_are_granted() {
    let mut state = PluginState::load(None);
    assert_eq!(state.pipe(None, "yank", Some("text")), PipeAction::Ignored);
    assert!(state.ring().is_empty());
    state.resolve_permissions(false);
    assert_eq!(state.pipe(None, "yank", Some("text")), PipeAction::Ignored);
    assert!(state.ring().is_empty());
}

#[test]
fn yank_pipe_stores_the_trimmed_payload() {
    let mut state = granted();
    assert_eq!(state.pipe(None, "yank", Some("  hello  ")), PipeAction::Redraw);
    assert_eq!(state.ring().len(), 1);
    assert_eq!(state.ring().get(0).unwrap().text(), "hello");
    assert_eq!(state.status(), Some("yanked (1 in ring)"));
}

#[test]
fn yank_pipe_with_a_blank_payload_stores_nothing() {
    let mut state = granted();
    assert_eq!(state.pipe(None, "yank", Some("   ")), PipeAction::Redraw);
    assert!(state.ring().is_empty());
    assert_eq!(state.status(), Some("nothing to yank — empty payload"));
    state.pipe(None, "yank", None);
    assert!(state.ring().is_empty());
}

#[test]
fn a_cli_pipe_is_acted_on_once() {
    let mut state = granted();
    assert_eq!(state.pipe(Some("p1"), "yank", Some("one")), PipeAction::Redraw);
    assert_eq!(state.pipe(Some("p1"), "yank", None), PipeAction::Ignored);
    assert_eq!(state.ring().len(), 1);
    assert_eq!(state.pipe(Some("p2"), "yank", Some("two")), PipeAction::Redraw);
    assert_eq!(state.ring().len(), 2);
}

#[test]
fn paste_pipe_hands_back_the_trimmed_selector() {
    let mut state = granted();
    assert_eq!(
        state.pipe(None, "paste", Some(" clip ")),
        PipeAction::Paste(Some("clip".to_string()))
    );
    assert_eq!(state.pipe(None, "paste", Some("  ")), PipeAction::Paste(None));
}

#[test]
fn unknown_pipe_names_are_reported() {
    let mut state = granted();
    assert_eq!(state.pipe(None, "frobnicate", None), PipeAction::Redraw);
    assert_eq!(state.status(), Some("unknown command 'frobnicate'"));
}

#[test]
fn copy_mode_cancel_and_list_pipes() {
    let mut state = granted();
    assert_eq!(state.pipe(None, "copy_mode", None), PipeAction::EnterCopyMode);
    state.track_focused_pane(&[terminal(3, true)]);
    assert_eq!(state.capture_source(), Some(3));
    state.enter_copy_mode(
        Ok(Scrollback::from_parts(vec![], strings(&["a", "b"]), vec![])),
        24,
    );
    assert!(state.in_copy_mode());
    assert_eq!(state.status(), Some("copy mode — 2 line(s) captured"));
    assert_eq!(state.pipe(None, "cancel", None), PipeAction::Redraw);
    assert!(!state.in_copy_mode());
    assert_eq!(state.status(), Some("left copy mode"));
    assert_eq!(state.pipe(None, "list", None), PipeAction::Show);
    assert_eq!(state.status(), Some("left copy mode"));
}

#[test]
fn capture_without_a_target_pane_explains_itself() {
    let mut state = granted();
    assert_eq!(state.capture_source(), None);
    assert_eq!(
        state.status(),
        Some("no terminal pane seen yet — focus one first")
    );
}

#[test]
fn entering_copy_mode_reports_read_errors_and_empty_panes() {
    let mut state = granted();
    state.enter_copy_mode(Err("gone".to_string()), 24);
    assert_eq!(state.status(), Some("could not read pane: gone"));
    state.enter_copy_mode(Ok(Scrollback::empty()), 24);
    assert_eq!(state.status(), Some("target pane has no content to copy"));
    assert!(!state.in_copy_mode());
}

#[test]
fn track_focused_pane_keeps_the_last_terminal_seen() {
    let mut state = granted();
    let plugin_pane = PaneFacts {
        id: 1,
        is_focused: true,
        is_plugin: true,
        exited: false,
    };
    let exited = PaneFacts {
        id: 2,
        is_focused: true,
        is_plugin: false,
        exited: true,
    };
    state.track_focused_pane(&[plugin_pane, exited, terminal(4, false), terminal(5, true)]);
    assert_eq!(state.target_pane(), Some(5));
    state.track_focused_pane(&[plugin_pane]);
    assert_eq!(state.target_pane(), Some(5));
}

#[test]
fn yank_of_a_selection_trims_trailing_blanks() {
    let mut state = granted();
    let capture = SelectionCapture {
        lines: strings(&["hello world   ", "second line   "]),
        start_line: -2,
        start_col: 6,
        end_line: 1,
        end_col: 5,
    };
    state.yank(Ok(Some(capture)));
    assert_eq!(state.ring().get(0).unwrap().text(), "world\nsecond");
    assert_eq!(state.status(), Some("yanked (1 in ring)"));
}

#[test]
fn yank_reports_missing_and_blank_selections() {
    let mut state = granted();
    state.yank(Ok(None));
    assert_eq!(state.status(), Some("nothing selected in the target pane"));
    let blank = SelectionCapture {
        lines: strings(&["     "]),
        start_line: 0,
        start_col: 0,
        end_line: 0,
        end_col: 4,
    };
    state.yank(Ok(Some(blank)));
    assert_eq!(state.status(), Some("selection was empty — nothing yanked"));
    assert!(state.ring().is_empty());
    state.yank(Err("boom".to_string()));
    assert_eq!(state.status(), Some("could not read pane: boom"));
}

#[test]
fn paste_prefers_the_focused_terminal_and_counts_bytes() {
    let mut state = granted();
    state.pipe(None, "yank", Some("日本"));
    assert_eq!(
        state.paste(Some((true, 9)), None),
        Some((9, "日本".to_string()))
    );
    assert_eq!(state.status(), Some("pasted 6 bytes"));
}

#[test]
fn paste_falls_back_to_the_tracked_pane_or_explains_itself() {
    let mut state = granted();
    state.pipe(None, "yank", Some("text"));
    assert_eq!(state.paste(Some((false, 1)), None), None);
    assert_eq!(state.status(), Some("no terminal pane to paste into"));
    state.track_focused_pane(&[terminal(7, true)]);
    assert_eq!(
        state.paste(Some((false, 1)), None),
        Some((7, "text".to_string()))
    );
    assert_eq!(state.paste(None, Some("nope")), None);
    assert_eq!(state.status(), Some("no buffer matching 'nope'"));
}

#[test]
fn paste_from_an_empty_ring_explains_itself() {
    let mut state = granted();
    assert_eq!(state.paste(Some((true, 2)), None), None);
    assert_eq!(state.status(), Some("ring is empty — nothing to paste"));
}

#[test]
fn keys_yank_and_delete() {
    let mut state = PluginState::load(None);
    assert_eq!(state.handle_key(Some('d'), true), KeyAction::NotHandled);
    state.resolve_permissions(true);
    assert_eq!(state.handle_key(Some('y'), true), KeyAction::Yank);
    assert_eq!(state.handle_key(Some('y'), false), KeyAction::NotHandled);
    assert_eq!(state.handle_key(Some('q'), true), KeyAction::NotHandled);
    assert_eq!(state.handle_key(Some('d'), true), KeyAction::Handled);
    assert_eq!(state.status(), Some("ring is empty — nothing to delete"));
    state.pipe(None, "yank", Some("a"));
    state.pipe(None, "yank", Some("b"));
    assert_eq!(state.handle_key(Some('d'), true), KeyAction::Handled);
    assert_eq!(state.status(), Some("deleted most recent buffer"));
    assert_eq!(state.ring().len(), 1);
    assert_eq!(state.ring().get(0).unwrap().text(), "a");
}

#[test]
fn render_shows_the_permission_notice_first() {
    let mut state = PluginState::load(None);
    assert_eq!(
        state.render(20, 80),
        vec!["zclip: waiting for permission — accept the prompt to continue.".to_string()]
    );
}

#[test]
fn render_of_an_empty_list() {
    let mut state = granted();
    assert_eq!(
        state.render(20, 80),
        strings(&[
            "zclip 0.1.0 — 0 buffer(s)",
            "",
            "  (empty) enter copy mode to capture text",
            "",
            "  y yank (mouse selection)   d delete",
        ])
    );
}

#[test]
fn render_of_a_list_with_names_and_a_status() {
    let mut state = granted();
    state.pipe(None, "yank", Some("one\ntwo"));
    state.pipe(None, "yank", Some("three"));
    assert_eq!(
        state.render(20, 80),
        strings(&[
            "zclip 0.1.0 — 2 buffer(s)",
            "",
            "  0: three (1 line(s))",
            "  1: one two (2 line(s))",
            "",
            "  yanked (2 in ring)",
            "  y yank (mouse selection)   d delete",
        ])
    );
    // Only one row fits in a tiny pane.
    let rendered = state.render(3, 80);
    assert_eq!(rendered[2], "  0: three (1 line(s))");
    assert_eq!(rendered[3], "");
}

#[test]
fn render_of_copy_mode_marks_the_cursor_and_truncates() {
    let mut state = granted();
    state.track_focused_pane(&[terminal(1, true)]);
    state.enter_copy_mode(
        Ok(Scrollback::from_parts(
            strings(&["old"]),
            strings(&["abcdefgh", "xy"]),
            vec![],
        )),
        24,
    );
    assert_eq!(
        state.render(10, 6),
        strings(&[
            "zclip copy mode — line 2/3 (snapshot)",
            "  old",
            "> abcd",
            "  xy",
            "  copy mode — 3 line(s) captured",
        ])
    );
}
