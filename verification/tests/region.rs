use zclip_core::region::{extract_region, selected_columns, SelectionMode};
use zclip_core::scrollback::Scrollback;
use zclip_core::selection::Cursor;

fn strings(items: &[&str]) -> Vec<String> {
    items.iter().map(|s| (*s).to_string()).collect()
}

/// A scrollback with two lines of history above a three-line viewport,
/// so tests can select across that boundary. Row layout:
/// `0: "history 0"`, `1: "history 1"`, `2: "view 0"`, `3: "view 1"`,
/// `4: "view 2"`.
fn sample_with_history() -> Scrollback {
    Scrollback::from_parts(
        strings(&["history 0", "history 1"]),
        strings(&["view 0", "view 1", "view 2"]),
        vec![],
    )
}

#[test]
fn char_single_row_selection_extracts_the_substring() {
    let scrollback = Scrollback::from_parts(vec![], strings(&["hello world"]), vec![]);
    let result = extract_region(
        &scrollback,
        Cursor::new(0, 0),
        Cursor::new(0, 4),
        SelectionMode::Char,
    );
    assert_eq!(result, "hello");
}

#[test]
fn line_single_row_selection_returns_the_whole_line_ignoring_columns() {
    let scrollback = Scrollback::from_parts(vec![], strings(&["hello world"]), vec![]);
    let result = extract_region(
        &scrollback,
        Cursor::new(0, 3),
        Cursor::new(0, 3),
        SelectionMode::Line,
    );
    assert_eq!(result, "hello world");
}

#[test]
fn block_single_row_selection_extracts_the_column_range() {
    let scrollback = Scrollback::from_parts(vec![], strings(&["hello world"]), vec![]);
    let result = extract_region(
        &scrollback,
        Cursor::new(0, 0),
        Cursor::new(0, 4),
        SelectionMode::Block,
    );
    assert_eq!(result, "hello");
}

#[test]
fn char_multi_row_selection_produces_the_exact_expected_string() {
    let scrollback = Scrollback::from_parts(
        vec![],
        strings(&["first line", "middle", "last line"]),
        vec![],
    );
    let result = extract_region(
        &scrollback,
        Cursor::new(0, 6),
        Cursor::new(2, 3),
        SelectionMode::Char,
    );
    assert_eq!(result, "line\nmiddle\nlast");
}

#[test]
fn line_multi_row_selection_joins_whole_lines_verbatim() {
    let scrollback = Scrollback::from_parts(
        vec![],
        strings(&["  padded start", "middle", "end   "]),
        vec![],
    );
    let result = extract_region(
        &scrollback,
        Cursor::new(0, 10),
        Cursor::new(2, 0),
        SelectionMode::Line,
    );
    assert_eq!(
        result, "  padded start\nmiddle\nend   ",
        "no trimming, columns are irrelevant"
    );
}

#[test]
fn block_multi_row_selection_forms_a_rectangle() {
    let scrollback =
        Scrollback::from_parts(vec![], strings(&["abcdef", "ghijkl", "mnopqr"]), vec![]);
    let result = extract_region(
        &scrollback,
        Cursor::new(0, 1),
        Cursor::new(2, 3),
        SelectionMode::Block,
    );
    assert_eq!(result, "bcd\nhij\nnop");
}

#[test]
fn reversed_anchor_and_cursor_produce_identical_output_for_char_mode() {
    let scrollback =
        Scrollback::from_parts(vec![], strings(&["first line", "last line"]), vec![]);
    let forward = extract_region(
        &scrollback,
        Cursor::new(0, 2),
        Cursor::new(1, 4),
        SelectionMode::Char,
    );
    let backward = extract_region(
        &scrollback,
        Cursor::new(1, 4),
        Cursor::new(0, 2),
        SelectionMode::Char,
    );
    assert_eq!(forward, backward);
}

#[test]
fn reversed_anchor_and_cursor_produce_identical_output_for_line_mode() {
    let scrollback =
        Scrollback::from_parts(vec![], strings(&["first line", "last line"]), vec![]);
    let forward = extract_region(
        &scrollback,
        Cursor::new(0, 2),
        Cursor::new(1, 4),
        SelectionMode::Line,
    );
    let backward = extract_region(
        &scrollback,
        Cursor::new(1, 4),
        Cursor::new(0, 2),
        SelectionMode::Line,
    );
    assert_eq!(forward, backward);
}

#[test]
fn reversed_anchor_and_cursor_produce_identical_output_for_block_mode() {
    let scrollback =
        Scrollback::from_parts(vec![], strings(&["abcdef", "ghijkl", "mnopqr"]), vec![]);
    let forward = extract_region(
        &scrollback,
        Cursor::new(0, 1),
        Cursor::new(2, 3),
        SelectionMode::Block,
    );
    let backward = extract_region(
        &scrollback,
        Cursor::new(2, 3),
        Cursor::new(0, 1),
        SelectionMode::Block,
    );
    assert_eq!(forward, backward);
}

#[test]
fn block_selection_with_a_row_shorter_than_min_col_yields_an_empty_line_but_keeps_the_row_count(
) {
    let scrollback = Scrollback::from_parts(
        vec![],
        strings(&["a very long first line", "hi", "z"]),
        vec![],
    );
    let result = extract_region(
        &scrollback,
        Cursor::new(0, 5),
        Cursor::new(2, 8),
        SelectionMode::Block,
    );
    let rows: Vec<&str> = result.split('\n').collect();
    assert_eq!(rows.len(), 3, "the rectangle keeps all three rows");
    assert_eq!(rows[1], "", "row too short for min_col contributes nothing");
    assert_eq!(rows[2], "", "row 'z' is also shorter than min_col");
}

#[test]
fn block_dragged_down_left_still_forms_a_proper_rectangle() {
    let scrollback =
        Scrollback::from_parts(vec![], strings(&["abcdef", "ghijkl", "mnopqr"]), vec![]);
    // Anchor at the top-right of the intended rectangle, cursor at the
    // bottom-left: min_row/max_row come from the rows, min_col/max_col
    // from the columns, independently of which endpoint is "the anchor".
    let anchor = Cursor::new(0, 3);
    let cursor = Cursor::new(2, 1);
    let result = extract_region(&scrollback, anchor, cursor, SelectionMode::Block);
    assert_eq!(result, "bcd\nhij\nnop");
}

#[test]
fn selection_spans_the_viewport_history_boundary_in_char_mode() {
    let scrollback = sample_with_history();
    let result = extract_region(
        &scrollback,
        Cursor::new(1, 4),
        Cursor::new(2, 3),
        SelectionMode::Char,
    );
    assert_eq!(result, "ory 1\nview");
}

#[test]
fn selection_spans_the_viewport_history_boundary_in_line_mode() {
    let scrollback = sample_with_history();
    let result = extract_region(
        &scrollback,
        Cursor::new(1, 0),
        Cursor::new(2, 0),
        SelectionMode::Line,
    );
    assert_eq!(result, "history 1\nview 0");
}

#[test]
fn selection_spans_the_viewport_history_boundary_in_block_mode() {
    let scrollback = sample_with_history();
    let result = extract_region(
        &scrollback,
        Cursor::new(1, 0),
        Cursor::new(2, 3),
        SelectionMode::Block,
    );
    assert_eq!(result, "hist\nview");
}

#[test]
fn block_selection_over_a_cjk_line_uses_character_columns_not_bytes() {
    let scrollback = Scrollback::from_parts(vec![], strings(&["日本語のテキスト"]), vec![]);
    let result = extract_region(
        &scrollback,
        Cursor::new(0, 0),
        Cursor::new(0, 2),
        SelectionMode::Block,
    );
    assert_eq!(result, "日本語");
}

#[test]
fn empty_scrollback_returns_empty_string_in_char_mode() {
    let scrollback = Scrollback::empty();
    let result = extract_region(
        &scrollback,
        Cursor::new(0, 0),
        Cursor::new(5, 5),
        SelectionMode::Char,
    );
    assert_eq!(result, "");
}

#[test]
fn empty_scrollback_returns_empty_string_in_line_mode() {
    let scrollback = Scrollback::empty();
    let result = extract_region(
        &scrollback,
        Cursor::new(0, 0),
        Cursor::new(5, 5),
        SelectionMode::Line,
    );
    assert_eq!(result, "");
}

#[test]
fn empty_scrollback_returns_empty_string_in_block_mode() {
    let scrollback = Scrollback::empty();
    let result = extract_region(
        &scrollback,
        Cursor::new(0, 0),
        Cursor::new(5, 5),
        SelectionMode::Block,
    );
    assert_eq!(result, "");
}

#[test]
fn selected_columns_returns_none_outside_the_selected_rows() {
    let anchor = Cursor::new(1, 0);
    let cursor = Cursor::new(3, 0);
    assert_eq!(
        selected_columns(0, anchor, cursor, SelectionMode::Char, 10),
        None
    );
    assert_eq!(
        selected_columns(4, anchor, cursor, SelectionMode::Char, 10),
        None
    );
}

#[test]
fn selected_columns_char_mode_first_middle_and_last_row() {
    let anchor = Cursor::new(1, 4);
    let cursor = Cursor::new(3, 2);

    assert_eq!(
        selected_columns(1, anchor, cursor, SelectionMode::Char, 10),
        Some((4, 9)),
        "first row: from start.col to the end of the line"
    );
    assert_eq!(
        selected_columns(2, anchor, cursor, SelectionMode::Char, 10),
        Some((0, 9)),
        "middle row: the whole line"
    );
    assert_eq!(
        selected_columns(3, anchor, cursor, SelectionMode::Char, 10),
        Some((0, 2)),
        "last row: from the start of the line to end.col"
    );
}

#[test]
fn selected_columns_agrees_with_extract_region_for_a_multi_row_char_selection() {
    let scrollback = Scrollback::from_parts(
        vec![],
        strings(&["first line", "middle", "last line"]),
        vec![],
    );
    let anchor = Cursor::new(0, 6);
    let cursor = Cursor::new(2, 3);

    let extracted = extract_region(&scrollback, anchor, cursor, SelectionMode::Char);

    let mut rebuilt = Vec::new();
    for row in 0..scrollback.len() {
        let width = scrollback.line_width(row);
        if let Some((start_col, end_col)) =
            selected_columns(row, anchor, cursor, SelectionMode::Char, width)
        {
            let chars: Vec<char> = scrollback.line(row).unwrap().chars().collect();
            let end = end_col.min(chars.len().saturating_sub(1));
            let slice: String = if chars.is_empty() {
                String::new()
            } else {
                chars[start_col.min(chars.len() - 1)..=end].iter().collect()
            };
            rebuilt.push(slice);
        }
    }

    assert_eq!(rebuilt.join("\n"), extracted);
}
