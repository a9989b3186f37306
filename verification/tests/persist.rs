use zclip_core::buffer::{BufferRing, PasteBuffer};
use zclip_core::persist::{
    decode, encode, is_ring_file, is_stale, parse_persist_mode, ring_file_name, temp_file_name,
    DecodeError, PersistMode, PersistModeError, Restored, MAX_BUFFER_BYTES, MAX_TOTAL_BYTES,
    STALE_AFTER_SECS,
};

fn round_trip(ring: &BufferRing, limit: usize) -> Restored {
    let encoded = encode(ring);
    decode(&encoded.body, limit).expect("well-formed encode output must decode")
}

#[test]
fn round_trip_empty_ring() {
    let ring = BufferRing::new(5);
    let encoded = encode(&ring);

    assert_eq!(encoded.skipped, 0);
    // An empty ring's body is just the header, which is whitespace-only
    // apart from the letters -- but decode must still treat "no
    // records" as a legitimate empty restore, not an error, since a
    // freshly-created ring is exactly this case.
    let restored = decode(&encoded.body, 5).unwrap();
    assert!(restored.ring.is_empty());
    assert_eq!(restored.skipped_records, 0);
}

#[test]
fn round_trip_single_unnamed_buffer() {
    let mut ring = BufferRing::new(5);
    ring.push("hello world");

    let restored = round_trip(&ring, 5);

    assert_eq!(restored.ring.len(), 1);
    assert_eq!(restored.ring.get(0).unwrap().text(), "hello world");
    assert!(!restored.ring.get(0).unwrap().is_named());
}

#[test]
fn round_trip_preserves_tricky_text() {
    let tricky = [
        "line one\nline two",
        "crlf\r\nhere",
        "a\ttab\there",
        "back\\slash",
        "literal two char sequence: \\n not a newline",
        "  leading and trailing whitespace  ",
        "nul\u{0}byte",
        "escape\u{1b}char",
        "日本語のテキスト",
        "emoji: \u{1F600}\u{1F601}",
        "combining: e\u{0301}\u{0301}",
    ];
    for text in tricky {
        let mut ring = BufferRing::new(5);
        ring.push(text);

        let restored = round_trip(&ring, 5);

        assert_eq!(
            restored.ring.get(0).unwrap().text(),
            text,
            "round-trip mismatch for {text:?}"
        );
    }
}

#[test]
fn round_trip_name_with_tab_and_newline() {
    let mut ring = BufferRing::new(5);
    ring.push_named("text", "weird\tname\nhere");

    let restored = round_trip(&ring, 5);

    assert_eq!(
        restored.ring.get(0).unwrap().name(),
        Some("weird\tname\nhere")
    );
}

#[test]
fn round_trip_empty_name_is_distinct_from_unnamed() {
    let mut ring = BufferRing::new(5);
    ring.push_named("named text", "");
    ring.push("unnamed text");

    let restored = round_trip(&ring, 5);

    let named = restored.ring.get_by_name("").unwrap();
    assert_eq!(named.text(), "named text");
    assert!(named.is_named());

    let unnamed = restored
        .ring
        .iter()
        .find(|b| b.text() == "unnamed text")
        .unwrap();
    assert!(!unnamed.is_named());
}

#[test]
fn round_trip_format_injection_in_text_is_harmless() {
    let mut ring = BufferRing::new(5);
    ring.push("before");
    ring.push("zclip-ring\t1\n5\tn\\evil\tpwned");
    ring.push("after");

    let restored = round_trip(&ring, 5);

    assert_eq!(restored.ring.len(), 3);
    assert_eq!(
        restored.ring.get(1).unwrap().text(),
        "zclip-ring\t1\n5\tn\\evil\tpwned",
        "the malicious-looking text must survive verbatim, not be reinterpreted"
    );
}

#[test]
fn scrambled_record_order_is_still_restored_by_recency() {
    let mut ring = BufferRing::new(5);
    ring.push("oldest");
    ring.push("middle");
    ring.push("newest");
    let encoded = encode(&ring);

    // Deliberately reverse the record lines (but keep the header
    // first), simulating a file whose records are out of seq order.
    let mut lines: Vec<&str> = encoded.body.lines().collect();
    let header = lines.remove(0);
    lines.reverse();
    let mut scrambled = String::new();
    scrambled.push_str(header);
    scrambled.push('\n');
    for line in lines {
        scrambled.push_str(line);
        scrambled.push('\n');
    }

    let restored = decode(&scrambled, 5).unwrap();
    let texts: Vec<&str> = restored.ring.iter().map(PasteBuffer::text).collect();
    assert_eq!(texts, vec!["newest", "middle", "oldest"]);
}

#[test]
fn push_after_restore_lands_at_the_front_with_a_higher_seq() {
    let mut ring = BufferRing::new(5);
    ring.push("a");
    ring.push("b");
    let restored = round_trip(&ring, 5);

    let mut ring = restored.ring;
    let old_top_seq = ring.get(0).unwrap().seq();
    ring.push("c");

    assert_eq!(ring.get(0).unwrap().text(), "c");
    assert!(ring.get(0).unwrap().seq() > old_top_seq);
}

#[test]
fn restored_ids_are_unique() {
    let mut ring = BufferRing::new(5);
    ring.push("a");
    ring.push("b");
    ring.push("c");
    let restored = round_trip(&ring, 5);

    let ids: Vec<_> = restored.ring.iter().map(PasteBuffer::id).collect();
    let mut unique = ids.clone();
    unique.sort();
    unique.dedup();
    assert_eq!(ids.len(), unique.len());
}

#[test]
fn duplicate_names_collapse_to_the_newest() {
    // Hand-written body: two records genuinely share the name "clip"
    // (something `push_named`'s own overwrite semantics could never
    // produce, but a hand-edited or corrupted file might). The one
    // with the higher seq -- "second" -- must win.
    let body = "zclip-ring\t1\n1\tnclip\tfirst\n7\tnclip\tsecond\n";

    let restored = decode(body, 5).unwrap();

    assert_eq!(restored.ring.get_by_name("clip").unwrap().text(), "second");
    assert_eq!(
        restored
            .ring
            .iter()
            .filter(|b| b.name() == Some("clip"))
            .count(),
        1
    );
}

#[test]
fn blank_text_record_is_dropped() {
    let body = "zclip-ring\t1\n5\t-\t   \n6\t-\tkept\n";
    let restored = decode(body, 5).unwrap();

    assert_eq!(restored.ring.len(), 1);
    assert_eq!(restored.ring.get(0).unwrap().text(), "kept");
    assert_eq!(restored.skipped_records, 1);
}

#[test]
fn more_unnamed_than_limit_evicts_oldest_unnamed_via_real_enforce_limit() {
    let mut ring = BufferRing::new(10);
    for text in ["a", "b", "c", "d", "e"] {
        ring.push(text);
    }
    let encoded = encode(&ring);

    let restored = decode(&encoded.body, 2).unwrap();

    assert_eq!(restored.ring.len(), 2);
    let texts: Vec<&str> = restored.ring.iter().map(PasteBuffer::text).collect();
    assert_eq!(texts, vec!["e", "d"]);
}

#[test]
fn named_count_alone_exceeding_limit_keeps_them_all() {
    let mut ring = BufferRing::new(10);
    ring.push_named("a", "n1");
    ring.push_named("b", "n2");
    ring.push_named("c", "n3");
    let encoded = encode(&ring);

    let restored = decode(&encoded.body, 1).unwrap();

    assert_eq!(restored.ring.len(), 3, "named buffers are never evicted");
}

#[test]
fn decode_limit_comes_from_the_argument_not_the_file() {
    let mut ring = BufferRing::new(50);
    for text in ["a", "b", "c"] {
        ring.push(text);
    }
    let encoded = encode(&ring);

    let restored = decode(&encoded.body, 1).unwrap();

    assert_eq!(
        restored.ring.limit(),
        1,
        "the limit argument must win over whatever the ring had when saved"
    );
    assert_eq!(restored.ring.len(), 1);
}

#[test]
fn decode_empty_input_is_an_error() {
    assert_eq!(decode("", 5).unwrap_err(), DecodeError::Empty);
}

#[test]
fn decode_whitespace_only_input_is_an_error() {
    assert_eq!(decode("   \n\t \n", 5).unwrap_err(), DecodeError::Empty);
}

#[test]
fn decode_missing_header_is_an_error() {
    assert_eq!(
        decode("not a header\n5\t-\ttext\n", 5).unwrap_err(),
        DecodeError::MissingHeader
    );
}

#[test]
fn decode_unsupported_version_is_an_error() {
    assert_eq!(
        decode("zclip-ring\t2\n", 5).unwrap_err(),
        DecodeError::UnsupportedVersion("2".to_string())
    );
}

#[test]
fn decode_header_with_no_version_is_an_error() {
    assert_eq!(
        decode("zclip-ring\n", 5).unwrap_err(),
        DecodeError::UnsupportedVersion(String::new())
    );
}

#[test]
fn decode_truncated_final_line_without_trailing_newline_is_handled() {
    let body = "zclip-ring\t1\n5\t-\ttext";
    let restored = decode(body, 5).unwrap();
    assert_eq!(restored.ring.get(0).unwrap().text(), "text");
}

#[test]
fn decode_record_with_too_few_fields_is_skipped() {
    let body = "zclip-ring\t1\n5\t-\n";
    let restored = decode(body, 5).unwrap();
    assert!(restored.ring.is_empty());
    assert_eq!(restored.skipped_records, 1);
}

#[test]
fn decode_record_with_too_many_fields_is_skipped() {
    let body = "zclip-ring\t1\n5\t-\ttext\textra\n";
    let restored = decode(body, 5).unwrap();
    assert!(restored.ring.is_empty());
    assert_eq!(restored.skipped_records, 1);
}

#[test]
fn decode_non_numeric_seq_is_skipped() {
    let body = "zclip-ring\t1\nabc\t-\ttext\n";
    let restored = decode(body, 5).unwrap();
    assert!(restored.ring.is_empty());
    assert_eq!(restored.skipped_records, 1);
}

#[test]
fn decode_seq_of_u64_max_is_accepted_without_panicking() {
    let body = "zclip-ring\t1\n18446744073709551615\t-\ttext\n";
    let restored = decode(body, 5).unwrap();
    assert_eq!(restored.ring.len(), 1);
    assert_eq!(restored.skipped_records, 0);
}

#[test]
fn decode_dangling_trailing_backslash_is_skipped() {
    let body = "zclip-ring\t1\n5\t-\ttext\\\n";
    let restored = decode(body, 5).unwrap();
    assert!(restored.ring.is_empty());
    assert_eq!(restored.skipped_records, 1);
}

#[test]
fn decode_unknown_escape_is_skipped() {
    let body = "zclip-ring\t1\n5\t-\ttext\\qmore\n";
    let restored = decode(body, 5).unwrap();
    assert!(restored.ring.is_empty());
    assert_eq!(restored.skipped_records, 1);
}

#[test]
fn decode_name_field_with_bad_leading_byte_is_skipped() {
    let body = "zclip-ring\t1\n5\tx\ttext\n";
    let restored = decode(body, 5).unwrap();
    assert!(restored.ring.is_empty());
    assert_eq!(restored.skipped_records, 1);
}

#[test]
fn decode_handles_one_very_long_line_without_panicking() {
    let long_text = "a".repeat(1_000_000);
    let body = format!("zclip-ring\t1\n5\t-\t{long_text}\n");
    let restored = decode(&body, 5).unwrap();
    assert_eq!(restored.ring.get(0).unwrap().text().len(), 1_000_000);
}

#[test]
fn encode_skips_a_buffer_whose_encoding_exceeds_the_per_buffer_cap() {
    let mut ring = BufferRing::new(10);
    ring.push("before");
    ring.push("x".repeat(MAX_BUFFER_BYTES + 10));
    ring.push("after");

    let encoded = encode(&ring);

    assert_eq!(encoded.skipped, 1);
    assert!(!encoded.body.contains(&"x".repeat(100)));
    let restored = decode(&encoded.body, 10).unwrap();
    assert_eq!(restored.ring.len(), 2);
    let texts: Vec<&str> = restored.ring.iter().map(PasteBuffer::text).collect();
    assert_eq!(texts, vec!["after", "before"]);
}

#[test]
fn encode_named_first_budget_keeps_pinned_buffer_over_a_newer_unnamed_one() {
    let mut ring = BufferRing::new(10);
    // Named, oldest -- pinned, and must survive the budget cut.
    ring.push_named("n".repeat(850_000), "pinned");
    // Four unnamed, newer than the pinned buffer. Together with the
    // pinned buffer these exceed MAX_TOTAL_BYTES, so at least one must
    // be dropped despite being newer than the pinned buffer.
    ring.push("u1".to_string() + &"a".repeat(850_000));
    ring.push("u2".to_string() + &"b".repeat(850_000));
    ring.push("u3".to_string() + &"c".repeat(850_000));
    ring.push("u4".to_string() + &"d".repeat(850_000));

    let encoded = encode(&ring);

    assert!(encoded.body.len() <= MAX_TOTAL_BYTES);
    assert!(encoded.skipped >= 1);

    let restored = decode(&encoded.body, 10).unwrap();
    assert!(
        restored.ring.get_by_name("pinned").is_some(),
        "the pinned buffer must survive the budget cut"
    );
    assert!(
        restored.ring.len() < 5,
        "at least one newer unnamed buffer must have been dropped"
    );
}

#[test]
fn encode_skipped_count_matches_omitted_buffers() {
    let mut ring = BufferRing::new(10);
    for text in ["a", "b", "c"] {
        ring.push(text);
    }
    ring.push("x".repeat(MAX_BUFFER_BYTES + 1));

    let encoded = encode(&ring);
    assert_eq!(encoded.skipped, 1);
}

#[test]
fn parse_persist_mode_accepts_mixed_case_with_whitespace() {
    assert_eq!(parse_persist_mode("  OFF  "), Ok(PersistMode::Off));
    assert_eq!(parse_persist_mode("Session"), Ok(PersistMode::Session));
    assert_eq!(parse_persist_mode("session"), Ok(PersistMode::Session));
    assert_eq!(parse_persist_mode("off"), Ok(PersistMode::Off));
}

#[test]
fn parse_persist_mode_rejects_garbage_and_carries_the_input() {
    let err = parse_persist_mode("always").unwrap_err();
    assert_eq!(err, PersistModeError("always".to_string()));
    assert!(err.message().contains("always"));
}

#[test]
fn persist_mode_default_is_off() {
    assert_eq!(PersistMode::default(), PersistMode::Off);
}

#[test]
fn ring_file_name_format() {
    assert_eq!(ring_file_name(1234), "ring-1234.zclip");
}

#[test]
fn temp_file_name_format() {
    assert_eq!(temp_file_name(42), "ring-42.tmp");
}

#[test]
fn is_ring_file_accepts_well_formed_names() {
    assert!(is_ring_file("ring-0.zclip"));
    assert!(is_ring_file("ring-1234.zclip"));
}

#[test]
fn is_ring_file_rejects_malformed_names() {
    assert!(!is_ring_file("ring-.zclip"));
    assert!(!is_ring_file("ring-abc.zclip"));
    assert!(!is_ring_file("ring-12.zclip.tmp"));
    assert!(!is_ring_file("ring-12.tmp"));
    assert!(!is_ring_file("other-12.zclip"));
}

#[test]
fn is_stale_boundary_is_exclusive() {
    assert!(!is_stale(STALE_AFTER_SECS));
    assert!(is_stale(STALE_AFTER_SECS + 1));
    assert!(!is_stale(0));
}
