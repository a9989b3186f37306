use zclip_core::selection::{extract_span, trim_trailing_blanks, Cursor};

#[test]
fn single_row_selection_is_end_inclusive() {
    let lines = ["hello"];
    let result = extract_span(&lines, Cursor::new(0, 0), Cursor::new(0, 2));
    assert_eq!(result, "hel", "col 2 must be included, not excluded");
}

#[test]
fn single_row_start_equals_end_yields_one_character() {
    let lines = ["hello"];
    let result = extract_span(&lines, Cursor::new(0, 1), Cursor::new(0, 1));
    assert_eq!(result, "e");
}

#[test]
fn multi_row_selection_spans_three_rows_exactly() {
    let lines = ["first line", "middle line", "last line"];
    let result = extract_span(&lines, Cursor::new(0, 6), Cursor::new(2, 3));
    assert_eq!(result, "line\nmiddle line\nlast");
}

#[test]
fn two_row_selection_joins_start_tail_and_end_head() {
    let lines = ["abcdef", "ghijkl"];
    let result = extract_span(&lines, Cursor::new(0, 3), Cursor::new(1, 2));
    assert_eq!(result, "def\nghi");
}

#[test]
fn reversed_coordinates_produce_identical_output_to_forward_selection() {
    let lines = ["first line", "middle line", "last line"];
    let forward = extract_span(&lines, Cursor::new(0, 6), Cursor::new(2, 3));
    let backward = extract_span(&lines, Cursor::new(2, 3), Cursor::new(0, 6));
    assert_eq!(forward, backward);
}

#[test]
fn start_row_out_of_range_returns_empty_string() {
    let lines = ["only line"];
    let result = extract_span(&lines, Cursor::new(5, 0), Cursor::new(6, 0));
    assert_eq!(result, "");
}

#[test]
fn end_row_past_the_end_clamps_to_the_last_line() {
    let lines = ["one", "two"];
    let result = extract_span(&lines, Cursor::new(0, 0), Cursor::new(99, 2));
    assert_eq!(result, "one\ntwo");
}

#[test]
fn col_past_end_of_line_clamps_including_a_short_middle_line() {
    let lines = ["a long first line", "hi", "another long last line"];
    let result = extract_span(&lines, Cursor::new(0, 100), Cursor::new(2, 100));
    assert_eq!(
        result, "\nhi\nanother long last line",
        "start col beyond the first line's length contributes nothing from it; \
         the short middle line is untouched by any clamping; the end col beyond \
         the last line's length clamps to its final character"
    );
}

#[test]
fn empty_lines_slice_returns_empty_string() {
    let lines: [&str; 0] = [];
    let result = extract_span(&lines, Cursor::new(0, 0), Cursor::new(0, 0));
    assert_eq!(result, "");
}

#[test]
fn selection_over_empty_string_lines() {
    let lines = ["", "", ""];
    let result = extract_span(&lines, Cursor::new(0, 0), Cursor::new(2, 0));
    assert_eq!(result, "\n\n");
}

#[test]
fn multibyte_utf8_selection_returns_correct_characters() {
    let lines = ["日本語のテキスト"];
    let result = extract_span(&lines, Cursor::new(0, 0), Cursor::new(0, 2));
    assert_eq!(result, "日本語");
}

#[test]
fn mixed_ascii_and_multibyte_on_the_same_line() {
    let lines = ["ab日本語cd"];
    let result = extract_span(&lines, Cursor::new(0, 1), Cursor::new(0, 5));
    assert_eq!(result, "b日本語c");
}

#[test]
fn multibyte_line_as_a_middle_row_of_a_multi_row_selection() {
    let lines = ["start", "日本語のテキスト", "end line"];
    let result = extract_span(&lines, Cursor::new(0, 2), Cursor::new(2, 2));
    assert_eq!(result, "art\n日本語のテキスト\nend");
}

#[test]
fn interior_whitespace_is_preserved_verbatim() {
    let lines = ["a  b   c"];
    let result = extract_span(&lines, Cursor::new(0, 0), Cursor::new(0, 7));
    assert_eq!(result, "a  b   c");
}

#[test]
fn trim_trailing_blanks_removes_trailing_spaces() {
    let result = trim_trailing_blanks("hello   \nworld");
    assert_eq!(result, "hello\nworld");
}

#[test]
fn trim_trailing_blanks_preserves_leading_whitespace() {
    let result = trim_trailing_blanks("    indented   ");
    assert_eq!(result, "    indented");
}

#[test]
fn trim_trailing_blanks_turns_whitespace_only_line_into_empty_string() {
    let result = trim_trailing_blanks("first\n     \nlast");
    assert_eq!(result, "first\n\nlast");
}

#[test]
fn trim_trailing_blanks_leaves_interior_spaces_untouched() {
    let result = trim_trailing_blanks("a  b  c   ");
    assert_eq!(result, "a  b  c");
}

#[test]
fn trim_trailing_blanks_preserves_line_count() {
    let input = "one  \ntwo  \nthree  ";
    let result = trim_trailing_blanks(input);
    assert_eq!(result.split('\n').count(), input.split('\n').count());
}

#[test]
fn trim_trailing_blanks_without_trailing_newline_adds_none() {
    let result = trim_trailing_blanks("no newline   ");
    assert_eq!(result, "no newline");
    assert!(!result.ends_with('\n'));
}

#[test]
fn trim_trailing_blanks_with_trailing_newline_keeps_it() {
    let result = trim_trailing_blanks("line one   \n");
    assert_eq!(result, "line one\n");
}

#[test]
fn trim_trailing_blanks_treats_tabs_as_trailing_blanks() {
    let result = trim_trailing_blanks("hello\t\t\nworld");
    assert_eq!(result, "hello\nworld");
}
