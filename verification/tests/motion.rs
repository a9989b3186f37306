use zclip_core::motion::{apply, Motion};
use zclip_core::scrollback::Scrollback;
use zclip_core::selection::Cursor;

fn strings(items: &[&str]) -> Vec<String> {
    items.iter().map(|s| (*s).to_string()).collect()
}

fn scrollback_of(lines: &[&str]) -> Scrollback {
    Scrollback::from_parts(vec![], strings(lines), vec![])
}

#[test]
fn left_moves_one_column_left() {
    let scrollback = scrollback_of(&["hello"]);
    let result = apply(Motion::Left, &scrollback, Cursor::new(0, 3), 10);
    assert_eq!(result, Cursor::new(0, 2));
}

#[test]
fn left_at_column_zero_stays_put_and_does_not_wrap_to_previous_line() {
    let scrollback = scrollback_of(&["one", "two"]);
    let result = apply(Motion::Left, &scrollback, Cursor::new(1, 0), 10);
    assert_eq!(result, Cursor::new(1, 0), "must not wrap to row 0");
}

#[test]
fn right_moves_one_column_right() {
    let scrollback = scrollback_of(&["hello"]);
    let result = apply(Motion::Right, &scrollback, Cursor::new(0, 1), 10);
    assert_eq!(result, Cursor::new(0, 2));
}

#[test]
fn right_at_end_of_line_stays_put_and_does_not_wrap_to_next_line() {
    let scrollback = scrollback_of(&["hi", "there"]);
    let result = apply(Motion::Right, &scrollback, Cursor::new(0, 2), 10);
    assert_eq!(result, Cursor::new(0, 2), "must not wrap to row 1");
}

#[test]
fn up_moves_one_row_up_preserving_column() {
    let scrollback = scrollback_of(&["one", "two", "three"]);
    let result = apply(Motion::Up, &scrollback, Cursor::new(2, 1), 10);
    assert_eq!(result, Cursor::new(1, 1));
}

#[test]
fn up_at_row_zero_stays_put() {
    let scrollback = scrollback_of(&["one", "two"]);
    let result = apply(Motion::Up, &scrollback, Cursor::new(0, 1), 10);
    assert_eq!(result, Cursor::new(0, 1));
}

#[test]
fn down_moves_one_row_down_preserving_column() {
    let scrollback = scrollback_of(&["one", "two", "three"]);
    let result = apply(Motion::Down, &scrollback, Cursor::new(0, 2), 10);
    assert_eq!(result, Cursor::new(1, 2));
}

#[test]
fn down_at_last_row_stays_put() {
    let scrollback = scrollback_of(&["one", "two"]);
    let result = apply(Motion::Down, &scrollback, Cursor::new(1, 1), 10);
    assert_eq!(result, Cursor::new(1, 1));
}

#[test]
fn moving_onto_a_shorter_line_clamps_the_column() {
    let scrollback = scrollback_of(&["a long first line", "hi"]);
    let result = apply(Motion::Down, &scrollback, Cursor::new(0, 15), 10);
    assert_eq!(
        result,
        Cursor::new(1, 2),
        "clamped to the short line's width"
    );
}

#[test]
fn moving_back_onto_the_longer_line_does_not_restore_the_original_column() {
    // Pins the documented "no desired column" simplification: down onto
    // a short line clamps col, and up again does *not* remember the
    // original column, unlike real vi.
    let scrollback = scrollback_of(&["a long first line", "hi"]);
    let after_down = apply(Motion::Down, &scrollback, Cursor::new(0, 15), 10);
    let after_up = apply(Motion::Up, &scrollback, after_down, 10);
    assert_eq!(
        after_up,
        Cursor::new(0, 2),
        "column stays clamped to 2, not restored to the original 15"
    );
}

#[test]
fn line_start_moves_to_column_zero() {
    let scrollback = scrollback_of(&["hello"]);
    let result = apply(Motion::LineStart, &scrollback, Cursor::new(0, 4), 10);
    assert_eq!(result, Cursor::new(0, 0));
}

#[test]
fn line_first_non_blank_skips_leading_whitespace() {
    let scrollback = scrollback_of(&["    indented"]);
    let result = apply(
        Motion::LineFirstNonBlank,
        &scrollback,
        Cursor::new(0, 0),
        10,
    );
    assert_eq!(result, Cursor::new(0, 4));
}

#[test]
fn line_first_non_blank_on_all_whitespace_line_is_column_zero() {
    let scrollback = scrollback_of(&["      "]);
    let result = apply(
        Motion::LineFirstNonBlank,
        &scrollback,
        Cursor::new(0, 0),
        10,
    );
    assert_eq!(result, Cursor::new(0, 0));
}

#[test]
fn line_first_non_blank_on_empty_line_is_column_zero() {
    let scrollback = scrollback_of(&[""]);
    let result = apply(
        Motion::LineFirstNonBlank,
        &scrollback,
        Cursor::new(0, 0),
        10,
    );
    assert_eq!(result, Cursor::new(0, 0));
}

#[test]
fn line_end_moves_one_past_the_last_character() {
    let scrollback = scrollback_of(&["hello"]);
    let result = apply(Motion::LineEnd, &scrollback, Cursor::new(0, 0), 10);
    assert_eq!(result, Cursor::new(0, 5));
}

#[test]
fn line_end_on_empty_line_is_zero() {
    let scrollback = scrollback_of(&[""]);
    let result = apply(Motion::LineEnd, &scrollback, Cursor::new(0, 0), 10);
    assert_eq!(result, Cursor::new(0, 0));
}

#[test]
fn top_moves_to_the_first_row_and_column() {
    let scrollback = scrollback_of(&["one", "two", "three"]);
    let result = apply(Motion::Top, &scrollback, Cursor::new(2, 3), 10);
    assert_eq!(result, Cursor::new(0, 0));
}

#[test]
fn bottom_moves_to_the_last_row_column_zero() {
    let scrollback = scrollback_of(&["one", "two", "three"]);
    let result = apply(Motion::Bottom, &scrollback, Cursor::new(0, 1), 10);
    assert_eq!(result, Cursor::new(2, 0));
}

#[test]
fn half_page_down_advances_by_half_the_height() {
    let lines: Vec<&str> = vec!["l"; 20];
    let scrollback = scrollback_of(&lines);
    let result = apply(Motion::HalfPageDown, &scrollback, Cursor::new(0, 0), 10);
    assert_eq!(result, Cursor::new(5, 0));
}

#[test]
fn half_page_down_with_height_one_still_advances_by_one() {
    let scrollback = scrollback_of(&["one", "two"]);
    let result = apply(Motion::HalfPageDown, &scrollback, Cursor::new(0, 0), 1);
    assert_eq!(result, Cursor::new(1, 0));
}

#[test]
fn half_page_up_clamps_at_the_top() {
    let lines: Vec<&str> = vec!["l"; 20];
    let scrollback = scrollback_of(&lines);
    let result = apply(Motion::HalfPageUp, &scrollback, Cursor::new(2, 0), 10);
    assert_eq!(result, Cursor::new(0, 0));
}

#[test]
fn page_down_clamps_at_the_bottom() {
    let scrollback = scrollback_of(&["one", "two", "three"]);
    let result = apply(Motion::PageDown, &scrollback, Cursor::new(0, 0), 100);
    assert_eq!(result, Cursor::new(2, 0));
}

#[test]
fn page_up_clamps_at_the_top() {
    let scrollback = scrollback_of(&["one", "two", "three"]);
    let result = apply(Motion::PageUp, &scrollback, Cursor::new(1, 0), 100);
    assert_eq!(result, Cursor::new(0, 0));
}

#[test]
fn height_zero_does_not_panic_and_behaves_like_height_one() {
    let scrollback = scrollback_of(&["one", "two", "three"]);
    let page_down = apply(Motion::PageDown, &scrollback, Cursor::new(0, 0), 0);
    assert_eq!(page_down, Cursor::new(1, 0));
    let half_down = apply(Motion::HalfPageDown, &scrollback, Cursor::new(0, 0), 0);
    assert_eq!(half_down, Cursor::new(1, 0));
}

#[test]
fn word_forward_moves_across_simple_words() {
    let scrollback = scrollback_of(&["foo bar baz"]);
    let result = apply(Motion::WordForward, &scrollback, Cursor::new(0, 0), 10);
    assert_eq!(result, Cursor::new(0, 4), "start of \"bar\"");
}

#[test]
fn word_forward_treats_punctuation_runs_as_separate_words() {
    let scrollback = scrollback_of(&["foo.bar(baz)"]);
    let result = apply(Motion::WordForward, &scrollback, Cursor::new(0, 0), 10);
    assert_eq!(result, Cursor::new(0, 3), "the '.' is its own word");
}

#[test]
fn word_forward_skips_leading_and_trailing_whitespace() {
    let scrollback = scrollback_of(&["  foo   bar"]);
    let result = apply(Motion::WordForward, &scrollback, Cursor::new(0, 0), 10);
    assert_eq!(
        result,
        Cursor::new(0, 2),
        "lands on the first word, not col 0"
    );
}

#[test]
fn word_forward_at_the_last_word_goes_to_end_of_line() {
    let scrollback = scrollback_of(&["foo bar"]);
    let result = apply(Motion::WordForward, &scrollback, Cursor::new(0, 4), 10);
    assert_eq!(result, Cursor::new(0, 7), "no next word, so end of line");
}

#[test]
fn word_backward_moves_to_start_of_previous_word() {
    let scrollback = scrollback_of(&["foo bar baz"]);
    let result = apply(Motion::WordBackward, &scrollback, Cursor::new(0, 8), 10);
    assert_eq!(result, Cursor::new(0, 4), "start of \"bar\", not \"baz\"");
}

#[test]
fn word_backward_inside_a_word_goes_to_that_words_own_start() {
    let scrollback = scrollback_of(&["foo bar baz"]);
    let result = apply(Motion::WordBackward, &scrollback, Cursor::new(0, 9), 10);
    assert_eq!(
        result,
        Cursor::new(0, 8),
        "inside \"baz\", past its first char"
    );
}

#[test]
fn word_backward_at_column_zero_stays_put() {
    let scrollback = scrollback_of(&["foo bar"]);
    let result = apply(Motion::WordBackward, &scrollback, Cursor::new(0, 0), 10);
    assert_eq!(result, Cursor::new(0, 0));
}

#[test]
fn word_end_from_first_character_of_a_word_goes_to_that_words_end() {
    let scrollback = scrollback_of(&["foo bar"]);
    let result = apply(Motion::WordEnd, &scrollback, Cursor::new(0, 0), 10);
    assert_eq!(result, Cursor::new(0, 2), "last char of \"foo\"");
}

#[test]
fn word_end_already_at_a_words_end_advances_to_the_next_words_end() {
    let scrollback = scrollback_of(&["foo bar"]);
    let result = apply(Motion::WordEnd, &scrollback, Cursor::new(0, 2), 10);
    assert_eq!(result, Cursor::new(0, 6), "last char of \"bar\"");
}

#[test]
fn word_end_with_no_word_remaining_goes_to_the_lines_last_character() {
    let scrollback = scrollback_of(&["foo bar"]);
    let result = apply(Motion::WordEnd, &scrollback, Cursor::new(0, 6), 10);
    assert_eq!(result, Cursor::new(0, 6), "already the last character");
}

#[test]
fn word_motions_on_multibyte_utf8_line_use_character_indices() {
    let scrollback = scrollback_of(&["日本語 テキスト"]);

    let forward = apply(Motion::WordForward, &scrollback, Cursor::new(0, 0), 10);
    assert_eq!(
        forward,
        Cursor::new(0, 4),
        "index 4 is the 'テ' after the space, not a byte offset"
    );

    let end = apply(Motion::Right, &scrollback, Cursor::new(0, 0), 10);
    assert_eq!(end, Cursor::new(0, 1), "right moves by one character");

    let line_end = apply(Motion::LineEnd, &scrollback, Cursor::new(0, 0), 10);
    assert_eq!(
        line_end,
        Cursor::new(0, 8),
        "8 characters total, not the much larger byte length"
    );
}

#[test]
fn every_motion_on_an_empty_scrollback_returns_origin_without_panicking() {
    let scrollback = Scrollback::empty();
    let motions = [
        Motion::Left,
        Motion::Right,
        Motion::Up,
        Motion::Down,
        Motion::LineStart,
        Motion::LineFirstNonBlank,
        Motion::LineEnd,
        Motion::WordForward,
        Motion::WordBackward,
        Motion::WordEnd,
        Motion::Top,
        Motion::Bottom,
        Motion::HalfPageUp,
        Motion::HalfPageDown,
        Motion::PageUp,
        Motion::PageDown,
    ];

    for motion in motions {
        let result = apply(motion, &scrollback, Cursor::new(3, 5), 10);
        assert_eq!(
            result,
            Cursor::new(0, 0),
            "{motion:?} on an empty scrollback"
        );
    }
}
