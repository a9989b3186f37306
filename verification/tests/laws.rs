use zclip_core::copy_mode::CopySession;
use zclip_core::persist::MAX_TOTAL_BYTES;
use zclip_core::region::SelectionMode;
use zclip_core::scrollback::Scrollback;
use zclip_core::selection::{extract_span, Cursor};
use zclip_core::buffer::{BufferId, BufferRing, PasteBuffer};
use zclip_core::keymap::{resolve_keymap_entries, CopyModeAction};
use zclip_core::motion::{classify, CharClass};
use zclip_core::buffer::parse_buffer_limit;
use zclip_core::permissions::PermissionState;
use zclip_core::persist::{decode, encode, is_ring_file, parse_persist_mode, ring_file_name};

#[test]
fn pushing_into_a_full_ring_keeps_named_buffers_and_puts_the_new_one_first() {
    let mut ring = BufferRing::new(2);
    ring.push_named("pinned", "keep");
    ring.push("a");
    ring.push("b");
    let id = ring.push("c").unwrap();
    assert_eq!(ring.get(0).unwrap().id(), id);
    assert_eq!(ring.get(0).unwrap().text(), "c");
    assert!(ring.get_by_name("keep").is_some());
    let unnamed = ring.iter().filter(|b| !b.is_named()).count();
    assert_eq!(unnamed, 2);
}

#[test]
fn pushing_below_the_limit_evicts_nothing() {
    let mut ring = BufferRing::new(3);
    ring.push("a");
    ring.push("b");
    ring.push("c");
    let texts: Vec<&str> = ring.iter().map(PasteBuffer::text).collect();
    assert_eq!(texts, vec!["c", "b", "a"]);
}

#[test]
fn ids_are_fresh_and_distinct_after_evictions_and_removals() {
    let mut ring = BufferRing::new(1);
    let mut seen: Vec<BufferId> = Vec::new();
    for text in ["a", "b", "c", "d"] {
        let id = ring.push(text).unwrap();
        assert!(!seen.contains(&id));
        seen.push(id);
    }
    let first = ring.get(0).unwrap().id();
    ring.remove(first);
    let again = ring.push("e").unwrap();
    assert!(!seen.contains(&again));
    assert_eq!(again.number(), 4);
}

#[test]
fn raising_the_limit_keeps_the_ring_as_it_is() {
    let mut ring = BufferRing::new(2);
    ring.push("a");
    ring.push("b");
    ring.set_limit(10);
    let texts: Vec<&str> = ring.iter().map(PasteBuffer::text).collect();
    assert_eq!(texts, vec!["b", "a"]);
}

#[test]
fn a_name_wins_over_an_index_in_a_selector() {
    let mut ring = BufferRing::new(5);
    ring.push("zero");
    ring.push_named("named one", "1");
    ring.push("newest");
    assert_eq!(ring.resolve(" 1 ").unwrap().text(), "named one");
}

#[test]
fn every_escape_round_trips_through_a_ring_file() {
    let mut ring = BufferRing::new(5);
    ring.push_named("\\\n\r\t plain", "\t\\n");
    let restored = decode(&encode(&ring).body, 5).unwrap();
    assert_eq!(restored.skipped_records, 0);
    assert_eq!(restored.ring.get(0).unwrap().text(), "\\\n\r\t plain");
    assert_eq!(restored.ring.get(0).unwrap().name(), Some("\t\\n"));
}

#[test]
fn the_encoded_body_has_one_line_per_buffer_after_the_header() {
    let mut ring = BufferRing::new(5);
    ring.push("a\nb");
    ring.push_named("c", "n");
    let encoded = encode(&ring);
    assert_eq!(encoded.body, "zclip-ring\t1\n1\tnn\tc\n0\t-\ta\\nb\n");
    assert_eq!(encoded.skipped, 0);
}

#[test]
fn a_ring_file_name_is_recognised() {
    assert!(is_ring_file(&ring_file_name(0)));
    assert!(is_ring_file(&ring_file_name(u32::MAX)));
    assert_eq!(ring_file_name(u32::MAX), "ring-4294967295.zclip");
}

#[test]
fn word_characters_are_classified_through_unicode_tables() {
    assert_eq!(classify('a'), CharClass::Word);
    assert_eq!(classify('é'), CharClass::Word);
    assert_eq!(classify('日'), CharClass::Word);
    assert_eq!(classify('_'), CharClass::Word);
    assert_eq!(classify('-'), CharClass::Punctuation);
    assert_eq!(classify('\u{3000}'), CharClass::Whitespace);
}

#[test]
fn permission_states_have_labels() {
    assert_eq!(PermissionState::Pending.label(), "pending");
    assert_eq!(PermissionState::Granted.label(), "granted");
    assert_eq!(PermissionState::Denied.label(), "denied");
}

#[test]
fn error_messages_name_the_bad_input() {
    assert_eq!(
        parse_buffer_limit(" -3 ").unwrap_err().message(),
        "'-3' is not a valid buffer_limit (expected a positive integer)"
    );
    assert_eq!(
        parse_buffer_limit("0").unwrap_err().message(),
        "buffer_limit must be at least 1, got 0"
    );
    assert_eq!(
        parse_persist_mode(" Sometimes ").unwrap_err().message(),
        "'Sometimes' is not a valid persist (expected 'off' or 'session')"
    );
    assert_eq!(decode("", 5).unwrap_err().message(), "persisted ring is empty");
    assert_eq!(
        decode("x\n", 5).unwrap_err().message(),
        "persisted ring is missing the 'zclip-ring' header"
    );
    assert_eq!(
        decode("zclip-ring\t9\n", 5).unwrap_err().message(),
        "persisted ring has unsupported version '9'"
    );
}

#[test]
fn limits_accept_a_plus_sign_and_reject_overflow() {
    assert_eq!(parse_buffer_limit("+12"), Ok(12));
    assert!(parse_buffer_limit("99999999999999999999999").is_err());
}

#[test]
fn keymap_entries_in_order_choose_the_preset_and_override() {
    let entries = vec![
        ("key_yank".to_string(), "Y".to_string()),
        ("keymap".to_string(), "emacs".to_string()),
        ("key_frob".to_string(), "Z".to_string()),
        ("key_yank".to_string(), "Ctrl y".to_string()),
    ];
    let (bindings, warnings) = resolve_keymap_entries(&entries);
    let yank = bindings
        .iter()
        .find(|(a, _)| *a == CopyModeAction::Yank)
        .map(|(_, spec)| spec.as_str());
    assert_eq!(yank, Some("Ctrl y"), "the last override wins");
    assert_eq!(
        warnings,
        vec!["unknown copy-mode action 'frob' in 'key_frob', ignoring".to_string()]
    );
    let cancel = bindings
        .iter()
        .find(|(a, _)| *a == CopyModeAction::Cancel)
        .map(|(_, spec)| spec.as_str());
    assert_eq!(cancel, Some("Ctrl g, Esc"));
}

#[test]
fn a_selection_wholly_past_the_end_of_a_line_is_empty() {
    assert_eq!(extract_span(&["hello"], Cursor::new(0, 7), Cursor::new(0, 9)), "");
    assert_eq!(extract_span(&["hello"], Cursor::new(0, 3), Cursor::new(0, 9)), "lo");
    assert_eq!(
        extract_span(&["ab", "cd"], Cursor::new(0, 5), Cursor::new(1, 0)),
        "\nc"
    );
}

#[test]
fn unnamed_records_stop_at_the_first_that_does_not_fit() {
    let mut ring = BufferRing::new(10);
    ring.push("tiny");
    for _ in 0..5 {
        ring.push("x".repeat(1_048_000));
    }
    let encoded = encode(&ring);
    assert!(encoded.body.len() <= MAX_TOTAL_BYTES);
    assert_eq!(encoded.skipped, 2);
    let restored = decode(&encoded.body, 10).unwrap();
    assert_eq!(restored.ring.len(), 4);
    assert!(restored.ring.iter().all(|b| b.text() != "tiny"));
}

#[test]
fn switching_the_selection_shape_keeps_the_anchor_where_it_was() {
    let scrollback =
        Scrollback::from_parts(vec![], vec!["hello world".to_string()], vec![]);
    let mut session = CopySession::new(scrollback, 10);
    session.set_cursor(Cursor::new(0, 2));
    session.toggle_selection(SelectionMode::Char);
    session.set_cursor(Cursor::new(0, 8));
    session.toggle_selection(SelectionMode::Block);
    assert_eq!(session.selection_anchor(), Some(Cursor::new(0, 2)));
    assert_eq!(session.selection_mode(), SelectionMode::Block);
    assert_eq!(session.cursor(), Cursor::new(0, 8));
}
