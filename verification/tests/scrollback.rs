use zclip_core::scrollback::Scrollback;
use zclip_core::selection::Cursor;

fn strings(items: &[&str]) -> Vec<String> {
    items.iter().map(|s| (*s).to_string()).collect()
}

#[test]
fn empty_scrollback_has_no_lines_and_an_empty_viewport() {
    let scrollback = Scrollback::empty();

    assert_eq!(scrollback.len(), 0);
    assert!(scrollback.is_empty());
    assert_eq!(scrollback.viewport_start(), 0);
    assert_eq!(scrollback.viewport_end(), 0);
}

#[test]
fn default_matches_empty() {
    assert_eq!(Scrollback::default(), Scrollback::empty());
}

#[test]
fn viewport_only_has_no_history_above_or_below() {
    let scrollback = Scrollback::from_parts(vec![], strings(&["a", "b"]), vec![]);

    assert_eq!(scrollback.len(), 2);
    assert_eq!(scrollback.viewport_start(), 0);
    assert_eq!(scrollback.viewport_end(), 2);
}

#[test]
fn all_three_parts_are_flattened_with_correct_viewport_bounds() {
    let above = strings(&["above 1", "above 2"]);
    let viewport = strings(&["view 1", "view 2", "view 3"]);
    let below = strings(&["below 1"]);
    let scrollback = Scrollback::from_parts(above, viewport, below);

    assert_eq!(scrollback.len(), 6);
    assert_eq!(scrollback.viewport_start(), 2, "two lines of history above");
    assert_eq!(
        scrollback.viewport_end(),
        5,
        "viewport is 3 lines starting at row 2"
    );
    assert_eq!(scrollback.line(0), Some("above 1"));
    assert_eq!(scrollback.line(2), Some("view 1"));
    assert_eq!(scrollback.line(5), Some("below 1"));
}

#[test]
fn line_returns_none_out_of_range_and_some_in_range() {
    let scrollback = Scrollback::from_parts(vec![], strings(&["only line"]), vec![]);

    assert_eq!(scrollback.line(0), Some("only line"));
    assert_eq!(scrollback.line(1), None);
    assert_eq!(scrollback.line(100), None);
}

#[test]
fn clamp_row_on_empty_scrollback_is_always_zero() {
    let scrollback = Scrollback::empty();

    assert_eq!(scrollback.clamp_row(0), 0);
    assert_eq!(scrollback.clamp_row(5), 0);
}

#[test]
fn clamp_row_on_populated_scrollback_clamps_to_the_last_row() {
    let scrollback = Scrollback::from_parts(vec![], strings(&["a", "b", "c"]), vec![]);

    assert_eq!(scrollback.clamp_row(0), 0);
    assert_eq!(scrollback.clamp_row(2), 2);
    assert_eq!(scrollback.clamp_row(99), 2);
}

#[test]
fn clamp_cursor_clamps_row_and_col_independently() {
    let scrollback =
        Scrollback::from_parts(vec![], strings(&["short", "a longer line"]), vec![]);

    let clamped = scrollback.clamp_cursor(Cursor::new(99, 99));
    assert_eq!(clamped.row, 1, "row clamps to the last row");
    assert_eq!(
        clamped.col, 13,
        "col clamps to the clamped row's own width, not the original row's"
    );
}

#[test]
fn line_width_counts_multibyte_characters_not_bytes() {
    let scrollback = Scrollback::from_parts(vec![], strings(&["日本語"]), vec![]);

    assert_eq!(
        scrollback.line_width(0),
        3,
        "three characters, even though the line is 9 bytes"
    );
}

#[test]
fn clamp_cursor_col_clamps_correctly_on_a_multibyte_line() {
    let scrollback = Scrollback::from_parts(vec![], strings(&["日本語"]), vec![]);

    let clamped = scrollback.clamp_cursor(Cursor::new(0, 100));
    assert_eq!(clamped.row, 0);
    assert_eq!(
        clamped.col, 3,
        "clamps to the character count, not byte count"
    );
}
