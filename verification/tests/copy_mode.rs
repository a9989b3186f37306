use zclip_core::copy_mode::{CopyMode, CopySession};
use zclip_core::region::SelectionMode;
use zclip_core::scrollback::Scrollback;
use zclip_core::selection::Cursor;

fn strings(items: &[&str]) -> Vec<String> {
    items.iter().map(|s| (*s).to_string()).collect()
}

#[test]
fn entering_makes_copy_mode_active() {
    let mut mode = CopyMode::default();
    assert!(!mode.is_active());

    mode.enter(Scrollback::empty(), 10);

    assert!(mode.is_active());
    assert!(mode.session().is_some());
}

#[test]
fn exit_returns_true_once_then_false_on_a_second_call() {
    let mut mode = CopyMode::default();
    mode.enter(Scrollback::empty(), 10);

    assert!(mode.exit(), "first exit actually changed state");
    assert!(!mode.exit(), "already inactive, nothing changed");
    assert!(!mode.is_active());
}

#[test]
fn exit_while_already_inactive_returns_false() {
    let mut mode = CopyMode::default();
    assert!(!mode.exit());
}

#[test]
fn re_entering_replaces_the_existing_session() {
    let mut mode = CopyMode::default();
    mode.enter(
        Scrollback::from_parts(vec![], strings(&["first", "session"]), vec![]),
        10,
    );
    mode.session_mut().unwrap().set_cursor(Cursor::new(1, 3));

    mode.enter(
        Scrollback::from_parts(vec![], strings(&["second", "session"]), vec![]),
        10,
    );

    let session = mode.session().unwrap();
    assert_eq!(
        session.cursor(),
        Cursor::new(0, 0),
        "re-entering must reset the cursor to the new snapshot's viewport start"
    );
    assert_eq!(session.scrollback().line(0), Some("second"));
}

#[test]
fn cursor_starts_at_the_first_viewport_row_not_row_zero_when_there_is_history_above() {
    let scrollback =
        Scrollback::from_parts(strings(&["old 1", "old 2"]), strings(&["view 1"]), vec![]);

    let session = CopySession::new(scrollback, 10);

    assert_eq!(session.cursor(), Cursor::new(2, 0));
}

#[test]
fn scroll_to_cursor_scrolls_up_when_cursor_is_above_the_window() {
    let scrollback =
        Scrollback::from_parts(vec![], strings(&["a", "b", "c", "d", "e"]), vec![]);
    let mut session = CopySession::new(scrollback, 2);
    // Scroll the window down to top = 3, then put the cursor back on row 0.
    session.set_cursor(Cursor::new(4, 0));
    session.scroll_to_cursor(2);
    assert_eq!(session.top(), 3);
    session.set_cursor(Cursor::new(0, 0));

    session.scroll_to_cursor(2);

    assert_eq!(session.top(), 0, "scrolling up to reveal row 0");
}

#[test]
fn scroll_to_cursor_scrolls_down_when_cursor_is_below_the_window() {
    let scrollback =
        Scrollback::from_parts(vec![], strings(&["a", "b", "c", "d", "e"]), vec![]);
    let mut session = CopySession::new(scrollback, 2);
    assert_eq!(session.top(), 0);
    session.set_cursor(Cursor::new(4, 0));

    session.scroll_to_cursor(2);

    assert_eq!(
        session.top(),
        3,
        "top becomes cursor.row + 1 - height so the cursor is the last visible row"
    );
}

#[test]
fn scroll_to_cursor_leaves_top_unchanged_when_cursor_already_visible() {
    let scrollback =
        Scrollback::from_parts(vec![], strings(&["a", "b", "c", "d", "e"]), vec![]);
    let mut session = CopySession::new(scrollback, 3);
    // Scroll the window down to top = 1, then put the cursor on row 2.
    session.set_cursor(Cursor::new(3, 0));
    session.scroll_to_cursor(3);
    assert_eq!(session.top(), 1);
    session.set_cursor(Cursor::new(2, 0));

    session.scroll_to_cursor(3);

    assert_eq!(session.top(), 1);
}

#[test]
fn visible_rows_yields_absolute_indices_and_stops_at_the_end_of_the_scrollback() {
    let scrollback = Scrollback::from_parts(vec![], strings(&["a", "b", "c"]), vec![]);
    let session = CopySession::new(scrollback, 10);

    let rows: Vec<(usize, &str)> = session.visible_rows(10).into_iter().collect();

    assert_eq!(rows, vec![(0, "a"), (1, "b"), (2, "c")]);
}

#[test]
fn visible_rows_with_height_larger_than_the_scrollback_does_not_repeat_or_panic() {
    let scrollback = Scrollback::from_parts(vec![], strings(&["only"]), vec![]);
    let session = CopySession::new(scrollback, 50);

    let rows: Vec<(usize, &str)> = session.visible_rows(50).into_iter().collect();

    assert_eq!(rows, vec![(0, "only")]);
}

#[test]
fn cursor_screen_row_returns_the_offset_from_top() {
    let scrollback = Scrollback::from_parts(vec![], strings(&["a", "b", "c", "d"]), vec![]);
    let mut session = CopySession::new(scrollback, 2);
    // Scroll the window down to top = 1 with the cursor on row 2.
    session.set_cursor(Cursor::new(2, 0));
    session.scroll_to_cursor(2);
    assert_eq!(session.top(), 1);

    assert_eq!(session.cursor_screen_row(2), Some(1));
}

#[test]
fn cursor_screen_row_returns_none_when_the_cursor_has_scrolled_away() {
    let scrollback = Scrollback::from_parts(vec![], strings(&["a", "b", "c", "d"]), vec![]);
    let mut session = CopySession::new(scrollback, 2);
    assert_eq!(session.top(), 0);
    session.set_cursor(Cursor::new(3, 0));

    assert_eq!(session.cursor_screen_row(2), None);
}

#[test]
fn set_cursor_clamps_an_out_of_range_row_and_col() {
    let scrollback =
        Scrollback::from_parts(vec![], strings(&["short", "a longer line"]), vec![]);
    let mut session = CopySession::new(scrollback, 10);

    session.set_cursor(Cursor::new(99, 99));

    assert_eq!(session.cursor(), Cursor::new(1, 13));
}

#[test]
fn set_cursor_never_scrolls_in_either_direction() {
    // The viewport is reconciled at render time by scroll_to_cursor, which
    // is the only place the live pane height is known. set_cursor moving
    // `top` even "just upward" would make the cursor-visible invariant hold
    // asymmetrically, which is worse than it not holding here at all.
    let above = strings(&["h0", "h1", "h2", "h3", "h4"]);
    let scrollback = Scrollback::from_parts(above, strings(&["v0", "v1", "v2"]), vec![]);
    let mut session = CopySession::new(scrollback, 3);
    let top_on_entry = session.top();

    session.set_cursor(Cursor::new(0, 0)); // far above the window
    assert_eq!(session.top(), top_on_entry, "must not scroll up");

    session.set_cursor(Cursor::new(7, 0)); // far below the window
    assert_eq!(session.top(), top_on_entry, "must not scroll down");

    // ...and the render pass reconciles it.
    session.scroll_to_cursor(3);
    assert_eq!(session.cursor_screen_row(3), Some(2));
}

#[test]
fn zero_height_does_not_panic_in_visible_rows() {
    let scrollback = Scrollback::from_parts(vec![], strings(&["a", "b"]), vec![]);
    let session = CopySession::new(scrollback, 0);

    let rows: Vec<(usize, &str)> = session.visible_rows(0).into_iter().collect();

    assert_eq!(rows, vec![(0, "a")]);
}

#[test]
fn zero_height_does_not_panic_in_scroll_to_cursor() {
    let scrollback = Scrollback::from_parts(vec![], strings(&["a", "b", "c"]), vec![]);
    let mut session = CopySession::new(scrollback, 0);
    session.set_cursor(Cursor::new(2, 0));

    session.scroll_to_cursor(0);

    assert_eq!(session.top(), 2);
}

#[test]
fn zero_height_does_not_panic_in_cursor_screen_row() {
    let scrollback = Scrollback::from_parts(vec![], strings(&["a"]), vec![]);
    let session = CopySession::new(scrollback, 0);

    assert_eq!(session.cursor_screen_row(0), Some(0));
}

#[test]
fn empty_scrollback_enter_then_visible_rows_yields_nothing_and_cursor_is_origin() {
    let mut mode = CopyMode::default();

    mode.enter(Scrollback::empty(), 10);

    let session = mode.session().unwrap();
    assert_eq!(session.cursor(), Cursor::new(0, 0));
    assert_eq!(session.visible_rows(10).len(), 0);
    assert_eq!(session.cursor_screen_row(10), Some(0));
}

#[test]
fn start_selection_anchors_at_the_current_cursor_position() {
    let scrollback = Scrollback::from_parts(vec![], strings(&["hello world"]), vec![]);
    let mut session = CopySession::new(scrollback, 10);
    session.set_cursor(Cursor::new(0, 3));

    session.start_selection(SelectionMode::Char);

    assert_eq!(session.selection_anchor(), Some(Cursor::new(0, 3)));
    assert!(session.has_selection());
}

#[test]
fn moving_the_cursor_after_starting_a_selection_extends_the_selected_text() {
    let scrollback = Scrollback::from_parts(vec![], strings(&["hello world"]), vec![]);
    let mut session = CopySession::new(scrollback, 10);
    session.set_cursor(Cursor::new(0, 0));
    session.start_selection(SelectionMode::Char);

    let before = session.selected_text();
    session.set_cursor(Cursor::new(0, 4));
    let after = session.selected_text();

    assert_eq!(before, Some("h".to_string()));
    assert_eq!(after, Some("hello".to_string()));
}

#[test]
fn toggle_selection_with_the_same_mode_clears_it() {
    let scrollback = Scrollback::from_parts(vec![], strings(&["hello world"]), vec![]);
    let mut session = CopySession::new(scrollback, 10);
    session.toggle_selection(SelectionMode::Char);
    assert!(session.has_selection());

    session.toggle_selection(SelectionMode::Char);

    assert!(!session.has_selection());
    assert_eq!(session.selected_text(), None);
}

#[test]
fn toggle_selection_with_a_different_mode_switches_and_keeps_the_anchor() {
    let scrollback = Scrollback::from_parts(vec![], strings(&["hello world"]), vec![]);
    let mut session = CopySession::new(scrollback, 10);
    session.set_cursor(Cursor::new(0, 2));
    session.toggle_selection(SelectionMode::Char);
    let anchor = session.selection_anchor();

    session.toggle_selection(SelectionMode::Line);

    assert!(session.has_selection());
    assert_eq!(session.selection_mode(), SelectionMode::Line);
    assert_eq!(
        session.selection_anchor(),
        anchor,
        "switching mode must not move the anchor"
    );
}

#[test]
fn set_selection_mode_preserves_the_anchor() {
    let scrollback = Scrollback::from_parts(vec![], strings(&["hello world"]), vec![]);
    let mut session = CopySession::new(scrollback, 10);
    session.set_cursor(Cursor::new(0, 5));
    session.start_selection(SelectionMode::Char);
    let anchor = session.selection_anchor();

    session.set_selection_mode(SelectionMode::Block);

    assert_eq!(session.selection_mode(), SelectionMode::Block);
    assert_eq!(session.selection_anchor(), anchor);
}

#[test]
fn set_selection_mode_with_no_active_selection_starts_one_at_the_cursor() {
    let scrollback = Scrollback::from_parts(vec![], strings(&["hello world"]), vec![]);
    let mut session = CopySession::new(scrollback, 10);
    session.set_cursor(Cursor::new(0, 6));
    assert!(!session.has_selection());

    session.set_selection_mode(SelectionMode::Line);

    assert!(session.has_selection());
    assert_eq!(session.selection_anchor(), Some(Cursor::new(0, 6)));
    assert_eq!(session.selection_mode(), SelectionMode::Line);
}

#[test]
fn clear_selection_makes_selected_text_none() {
    let scrollback = Scrollback::from_parts(vec![], strings(&["hello world"]), vec![]);
    let mut session = CopySession::new(scrollback, 10);
    session.start_selection(SelectionMode::Char);
    assert!(session.selected_text().is_some());

    session.clear_selection();

    assert_eq!(session.selected_text(), None);
    assert!(!session.has_selection());
}

#[test]
fn re_entering_copy_mode_drops_any_previous_selection() {
    let mut mode = CopyMode::default();
    mode.enter(
        Scrollback::from_parts(vec![], strings(&["first", "session"]), vec![]),
        10,
    );
    mode.session_mut()
        .unwrap()
        .start_selection(SelectionMode::Line);
    assert!(mode.session().unwrap().has_selection());

    mode.enter(
        Scrollback::from_parts(vec![], strings(&["second", "session"]), vec![]),
        10,
    );

    assert!(!mode.session().unwrap().has_selection());
    assert_eq!(mode.session().unwrap().selected_text(), None);
}

#[test]
fn selected_text_is_none_with_no_active_selection() {
    let scrollback = Scrollback::from_parts(vec![], strings(&["hello world"]), vec![]);
    let session = CopySession::new(scrollback, 10);

    assert_eq!(session.selected_text(), None);
}

#[test]
fn selected_columns_for_row_returns_none_outside_the_selection() {
    let scrollback = Scrollback::from_parts(vec![], strings(&["one", "two", "three"]), vec![]);
    let mut session = CopySession::new(scrollback, 10);
    session.set_cursor(Cursor::new(0, 0));
    session.start_selection(SelectionMode::Char);
    session.set_cursor(Cursor::new(1, 0));

    assert_eq!(session.selected_columns_for_row(2), None);
}
