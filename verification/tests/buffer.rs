use zclip_core::buffer::{
    parse_buffer_limit, BufferId, BufferLimitError, BufferRing, PasteBuffer, RestoredBuffer,
};

#[test]
fn push_below_limit_keeps_everything() {
    let mut ring = BufferRing::new(5);
    ring.push("a");
    ring.push("b");
    ring.push("c");

    assert_eq!(ring.len(), 3);
    assert_eq!(ring.get(0).unwrap().text(), "c");
    assert_eq!(ring.get(1).unwrap().text(), "b");
    assert_eq!(ring.get(2).unwrap().text(), "a");
}

#[test]
fn push_exactly_at_limit_keeps_everything() {
    let mut ring = BufferRing::new(3);
    ring.push("a");
    ring.push("b");
    ring.push("c");

    assert_eq!(ring.len(), 3);
}

#[test]
fn push_above_limit_evicts_oldest_unnamed() {
    let mut ring = BufferRing::new(3);
    ring.push("a");
    ring.push("b");
    ring.push("c");
    ring.push("d");

    assert_eq!(ring.len(), 3);
    let texts: Vec<&str> = ring.iter().map(PasteBuffer::text).collect();
    assert_eq!(
        texts,
        vec!["d", "c", "b"],
        "a should have been evicted as oldest"
    );
}

#[test]
fn eviction_keeps_the_n_most_recent_in_order() {
    let mut ring = BufferRing::new(2);
    for text in ["one", "two", "three", "four", "five"] {
        ring.push(text);
    }

    let texts: Vec<&str> = ring.iter().map(PasteBuffer::text).collect();
    assert_eq!(texts, vec!["five", "four"]);
}

#[test]
fn named_buffers_survive_eviction_pressure() {
    let mut ring = BufferRing::new(2);
    let named_id = ring.push_named("keep me", "important").unwrap();
    ring.push("a");
    ring.push("b");
    ring.push("c");

    assert!(
        ring.get_by_id(named_id).is_some(),
        "named buffer must survive"
    );
    let unnamed_texts: Vec<&str> = ring
        .iter()
        .filter(|b| !b.is_named())
        .map(PasteBuffer::text)
        .collect();
    assert_eq!(
        unnamed_texts,
        vec!["c", "b"],
        "only the 2 most recent unnamed survive"
    );
    assert_eq!(ring.len(), 3);
}

#[test]
fn all_named_ring_accepts_further_named_pushes_without_loss() {
    let mut ring = BufferRing::new(1);
    ring.push_named("first", "n1");
    ring.push_named("second", "n2");
    ring.push_named("third", "n3");

    assert_eq!(ring.len(), 3, "no named buffer should ever be evicted");
    assert!(ring.get_by_name("n1").is_some());
    assert!(ring.get_by_name("n2").is_some());
    assert!(ring.get_by_name("n3").is_some());
}

#[test]
fn naming_a_buffer_frees_a_slot_for_unnamed_pushes() {
    let mut ring = BufferRing::new(2);
    let old_id = ring.push("old").unwrap();
    ring.push("newer");
    assert_eq!(ring.len(), 2);

    assert!(ring.set_name(old_id, "pinned"));
    ring.push("newest");

    assert_eq!(
        ring.len(),
        3,
        "naming freed a slot so nothing had to be evicted"
    );
    assert!(ring.get_by_id(old_id).is_some());
}

#[test]
fn clear_name_reimposes_the_limit_immediately() {
    let mut ring = BufferRing::new(2);
    let pinned_id = ring.push_named("keep me", "keep").unwrap();
    ring.push("a");
    ring.push("b");
    assert_eq!(ring.len(), 3);

    assert!(ring.clear_name(pinned_id));

    assert_eq!(
        ring.len(),
        2,
        "un-naming must immediately re-enforce the limit"
    );
    assert!(
        ring.get_by_id(pinned_id).is_none(),
        "the un-named buffer was the oldest unnamed one now, by insertion order"
    );
}

#[test]
fn push_named_with_existing_name_removes_prior_holder() {
    let mut ring = BufferRing::new(5);
    let first_id = ring.push_named("first text", "clip").unwrap();
    let second_id = ring.push_named("second text", "clip").unwrap();

    assert_eq!(
        ring.len(),
        1,
        "the old holder of the name must be gone, not just renamed"
    );
    assert!(ring.get_by_id(first_id).is_none());
    assert!(ring.get_by_id(second_id).is_some());
    assert_eq!(ring.get_by_name("clip").unwrap().text(), "second text");
}

#[test]
fn set_name_with_existing_name_removes_prior_holder() {
    let mut ring = BufferRing::new(5);
    let first_id = ring.push_named("first", "clip").unwrap();
    let second_id = ring.push("second").unwrap();

    assert!(ring.set_name(second_id, "clip"));

    assert_eq!(ring.len(), 1);
    assert!(ring.get_by_id(first_id).is_none());
    assert_eq!(ring.get_by_name("clip").unwrap().id(), second_id);
}

#[test]
fn renaming_a_buffer_to_its_own_name_does_not_destroy_it() {
    // Regression: `set_name` used to remove the prior holder of the name
    // before locating the target. When the target *was* the prior holder,
    // it deleted the buffer and returned false -- silent data loss on an
    // idempotent rename.
    let mut ring = BufferRing::new(5);
    let id = ring.push_named("precious", "clip").unwrap();

    assert!(ring.set_name(id, "clip"), "idempotent rename must succeed");
    assert_eq!(ring.len(), 1, "the buffer must still be there");
    assert_eq!(ring.get_by_id(id).unwrap().text(), "precious");
    assert_eq!(ring.get_by_name("clip").unwrap().id(), id);
}

#[test]
fn renaming_a_named_buffer_releases_its_previous_name() {
    let mut ring = BufferRing::new(5);
    let id = ring.push_named("text", "old").unwrap();

    assert!(ring.set_name(id, "new"));

    assert_eq!(ring.len(), 1);
    assert!(
        ring.get_by_name("old").is_none(),
        "the old name must no longer resolve"
    );
    assert_eq!(ring.get_by_name("new").unwrap().id(), id);
}

#[test]
fn get_zero_is_most_recent_and_ordering_matches_push_order() {
    let mut ring = BufferRing::new(5);
    ring.push("a");
    ring.push("b");
    ring.push("c");

    assert_eq!(ring.get(0).unwrap().text(), "c");
    assert_eq!(ring.most_recent().unwrap().text(), "c");
    assert_eq!(ring.get(1).unwrap().text(), "b");
    assert_eq!(ring.get(2).unwrap().text(), "a");
    assert!(ring.get(3).is_none());
}

#[test]
fn empty_ring_get_and_most_recent_return_none() {
    let ring = BufferRing::new(5);

    assert!(ring.get(0).is_none());
    assert!(ring.most_recent().is_none());
    assert!(ring.is_empty());
}

#[test]
fn blank_text_is_rejected() {
    let mut ring = BufferRing::new(5);

    assert!(ring.push("").is_none());
    assert!(ring.push("   ").is_none());
    assert!(ring.push("\n\t ").is_none());
    assert_eq!(ring.len(), 0);
}

#[test]
fn blank_named_text_is_also_rejected() {
    let mut ring = BufferRing::new(5);

    assert!(ring.push_named("", "name").is_none());
    assert!(ring.push_named("   ", "name").is_none());
    assert_eq!(ring.len(), 0);
}

#[test]
fn text_with_real_content_and_surrounding_whitespace_is_preserved_verbatim() {
    let mut ring = BufferRing::new(5);
    ring.push("  hello world  \n");

    assert_eq!(ring.get(0).unwrap().text(), "  hello world  \n");
}

#[test]
fn parse_buffer_limit_accepts_valid_numbers() {
    assert_eq!(parse_buffer_limit("50"), Ok(50));
    assert_eq!(parse_buffer_limit("1"), Ok(1));
}

#[test]
fn parse_buffer_limit_trims_surrounding_whitespace() {
    assert_eq!(parse_buffer_limit("  42  "), Ok(42));
    assert_eq!(parse_buffer_limit("\t7\n"), Ok(7));
}

#[test]
fn parse_buffer_limit_rejects_zero() {
    assert_eq!(parse_buffer_limit("0"), Err(BufferLimitError::Zero));
}

#[test]
fn parse_buffer_limit_rejects_non_numbers() {
    assert!(matches!(
        parse_buffer_limit("abc"),
        Err(BufferLimitError::NotANumber(_))
    ));
    assert!(matches!(
        parse_buffer_limit(""),
        Err(BufferLimitError::NotANumber(_))
    ));
    assert!(matches!(
        parse_buffer_limit("-1"),
        Err(BufferLimitError::NotANumber(_))
    ));
    assert!(matches!(
        parse_buffer_limit("3.5"),
        Err(BufferLimitError::NotANumber(_))
    ));
}

#[test]
fn set_limit_shrinking_evicts_immediately() {
    let mut ring = BufferRing::new(5);
    for text in ["a", "b", "c", "d", "e"] {
        ring.push(text);
    }

    ring.set_limit(2);

    assert_eq!(ring.len(), 2);
    let texts: Vec<&str> = ring.iter().map(PasteBuffer::text).collect();
    assert_eq!(texts, vec!["e", "d"]);
}

#[test]
fn set_limit_growing_does_not_resurrect_evicted_buffers() {
    let mut ring = BufferRing::new(2);
    for text in ["a", "b", "c"] {
        ring.push(text);
    }
    assert_eq!(ring.len(), 2);

    ring.set_limit(10);

    assert_eq!(
        ring.len(),
        2,
        "growing the limit must not bring back evicted buffers"
    );
}

#[test]
fn set_limit_zero_is_clamped_to_one() {
    let mut ring = BufferRing::new(5);
    ring.set_limit(0);

    assert_eq!(ring.limit(), 1);
}

#[test]
fn new_with_zero_limit_is_clamped_to_one() {
    let ring = BufferRing::new(0);

    assert_eq!(ring.limit(), 1);
}

#[test]
fn buffer_ids_are_unique_and_never_reused_after_eviction() {
    let mut ring = BufferRing::new(1);
    let first_id = ring.push("a").unwrap();
    let second_id = ring.push("b").unwrap();

    assert_ne!(first_id, second_id);
    assert!(ring.get_by_id(first_id).is_none(), "a was evicted");

    let third_id = ring.push("c").unwrap();
    assert_ne!(
        third_id, first_id,
        "ids must never be reused, even after eviction"
    );
    assert_ne!(third_id, second_id);
}

#[test]
fn preview_collapses_whitespace_runs() {
    let mut ring = BufferRing::new(5);
    ring.push("hello\n\nworld\t\tagain");

    assert_eq!(ring.get(0).unwrap().preview(100), "hello world again");
}

#[test]
fn preview_truncates_with_ellipsis() {
    let mut ring = BufferRing::new(5);
    ring.push("abcdefghij");

    let preview = ring.get(0).unwrap().preview(5);
    assert_eq!(preview, "abcd…");
    assert_eq!(preview.chars().count(), 5);
}

#[test]
fn preview_is_char_safe_on_multibyte_utf8() {
    let mut ring = BufferRing::new(5);
    ring.push("日本語のテキスト");

    let preview = ring.get(0).unwrap().preview(4);
    assert_eq!(preview, "日本語…");
    assert_eq!(preview.chars().count(), 4);
}

#[test]
fn preview_does_not_truncate_when_it_fits() {
    let mut ring = BufferRing::new(5);
    ring.push("short");

    assert_eq!(ring.get(0).unwrap().preview(100), "short");
}

#[test]
fn line_count_single_line() {
    let mut ring = BufferRing::new(5);
    ring.push("just one line");

    assert_eq!(ring.get(0).unwrap().line_count(), 1);
}

#[test]
fn line_count_multi_line() {
    let mut ring = BufferRing::new(5);
    ring.push("line one\nline two\nline three");

    assert_eq!(ring.get(0).unwrap().line_count(), 3);
}

#[test]
fn line_count_trailing_newline_does_not_add_a_phantom_line() {
    let mut ring = BufferRing::new(5);
    ring.push("line one\nline two\n");

    assert_eq!(ring.get(0).unwrap().line_count(), 2);
}

#[test]
fn resolve_matches_a_buffer_name() {
    let mut ring = BufferRing::new(5);
    ring.push_named("pinned text", "notes");
    ring.push("other");

    assert_eq!(ring.resolve("notes").unwrap().text(), "pinned text");
}

#[test]
fn resolve_falls_back_to_a_positional_index() {
    let mut ring = BufferRing::new(5);
    ring.push("oldest");
    ring.push("newest");

    assert_eq!(ring.resolve("0").unwrap().text(), "newest");
    assert_eq!(ring.resolve("1").unwrap().text(), "oldest");
}

#[test]
fn resolve_prefers_a_name_over_a_colliding_index() {
    let mut ring = BufferRing::new(5);
    ring.push("position one");
    // Deliberately name a buffer "1" while another buffer sits at index 1.
    ring.push_named("named one", "1");

    assert_eq!(
        ring.resolve("1").unwrap().text(),
        "named one",
        "an explicit name must win over a positional index"
    );
}

#[test]
fn resolve_trims_whitespace() {
    let mut ring = BufferRing::new(5);
    ring.push_named("text", "notes");

    assert!(ring.resolve("  notes  ").is_some());
}

#[test]
fn resolve_rejects_empty_unknown_and_out_of_range_selectors() {
    let mut ring = BufferRing::new(5);
    ring.push("only");

    assert!(ring.resolve("").is_none());
    assert!(ring.resolve("   ").is_none());
    assert!(ring.resolve("nosuchname").is_none());
    assert!(ring.resolve("7").is_none());
    assert!(ring.resolve("-1").is_none());
}

#[test]
fn remove_deletes_named_or_unnamed_buffers() {
    let mut ring = BufferRing::new(5);
    let unnamed_id = ring.push("a").unwrap();
    let named_id = ring.push_named("b", "keep").unwrap();

    assert!(ring.remove(unnamed_id).is_some());
    assert!(ring.remove(named_id).is_some());
    assert!(ring.is_empty());
}

#[test]
fn clear_drops_named_and_unnamed_buffers() {
    let mut ring = BufferRing::new(5);
    ring.push("a");
    ring.push_named("b", "keep");

    ring.clear();

    assert!(
        ring.is_empty(),
        "clear is explicit and must drop named buffers too"
    );
}

#[test]
fn is_named_reflects_current_state() {
    let mut ring = BufferRing::new(5);
    let id = ring.push("a").unwrap();

    assert!(!ring.get_by_id(id).unwrap().is_named());

    ring.set_name(id, "n");
    assert!(ring.get_by_id(id).unwrap().is_named());

    ring.clear_name(id);
    assert!(!ring.get_by_id(id).unwrap().is_named());
}

#[test]
fn set_name_on_unknown_id_returns_false() {
    let mut ring = BufferRing::new(5);
    let unknown = {
        let mut throwaway = BufferRing::new(1);
        let id = throwaway.push("x").unwrap();
        throwaway.push("y");
        id
    };

    assert!(!ring.set_name(unknown, "whatever"));
}

#[test]
fn clear_name_on_unknown_id_returns_false() {
    let mut ring = BufferRing::new(5);
    let unknown = {
        let mut throwaway = BufferRing::new(1);
        let id = throwaway.push("x").unwrap();
        throwaway.push("y");
        id
    };

    assert!(!ring.clear_name(unknown));
}

#[test]
fn seq_is_monotonically_increasing_with_creation_order() {
    let mut ring = BufferRing::new(5);
    ring.push("a");
    ring.push("b");
    ring.push("c");

    let mut seqs: Vec<u64> = ring.iter().map(PasteBuffer::seq).collect();
    seqs.reverse();
    assert!(seqs.windows(2).all(|w| w[0] < w[1]));
}

fn restored(seq: u64, name: Option<&str>, text: &str) -> RestoredBuffer {
    RestoredBuffer {
        seq,
        name: name.map(str::to_string),
        text: text.to_string(),
    }
}

#[test]
fn restore_orders_entries_most_recent_first_by_seq_regardless_of_input_order() {
    let ring = BufferRing::restore(
        5,
        vec![
            restored(1, None, "oldest"),
            restored(3, None, "newest"),
            restored(2, None, "middle"),
        ],
    );

    let texts: Vec<&str> = ring.iter().map(PasteBuffer::text).collect();
    assert_eq!(texts, vec!["newest", "middle", "oldest"]);
}

#[test]
fn restore_drops_blank_text_entries() {
    let ring =
        BufferRing::restore(5, vec![restored(1, None, "   "), restored(2, None, "kept")]);

    assert_eq!(ring.len(), 1);
    assert_eq!(ring.get(0).unwrap().text(), "kept");
}

#[test]
fn restore_collapses_duplicate_names_to_the_highest_seq() {
    let ring = BufferRing::restore(
        5,
        vec![
            restored(1, Some("clip"), "first"),
            restored(5, Some("clip"), "second"),
        ],
    );

    assert_eq!(ring.len(), 1);
    assert_eq!(ring.get_by_name("clip").unwrap().text(), "second");
}

#[test]
fn restore_assigns_fresh_unique_ids() {
    let ring = BufferRing::restore(5, vec![restored(1, None, "a"), restored(2, None, "b")]);

    let ids: Vec<BufferId> = ring.iter().map(PasteBuffer::id).collect();
    assert_ne!(ids[0], ids[1]);
}

#[test]
fn restore_assigns_fresh_seqs_with_the_most_recent_entry_highest() {
    let ring = BufferRing::restore(
        5,
        vec![restored(100, None, "newest"), restored(1, None, "oldest")],
    );

    assert!(ring.get(0).unwrap().seq() > ring.get(1).unwrap().seq());
}

#[test]
fn restore_next_id_and_next_seq_are_strictly_greater_than_anything_restored() {
    let mut ring = BufferRing::restore(5, vec![restored(1, None, "a"), restored(2, None, "b")]);

    let existing_ids: Vec<BufferId> = ring.iter().map(PasteBuffer::id).collect();
    let existing_seqs: Vec<u64> = ring.iter().map(PasteBuffer::seq).collect();

    let new_id = ring.push("c").unwrap();
    assert!(!existing_ids.contains(&new_id));
    assert!(!existing_seqs.contains(&ring.get(0).unwrap().seq()));
}

#[test]
fn restore_applies_the_argument_limit_evicting_oldest_unnamed_via_enforce_limit() {
    let ring = BufferRing::restore(
        2,
        vec![
            restored(1, None, "a"),
            restored(2, None, "b"),
            restored(3, None, "c"),
            restored(4, None, "d"),
        ],
    );

    assert_eq!(ring.len(), 2);
    let texts: Vec<&str> = ring.iter().map(PasteBuffer::text).collect();
    assert_eq!(texts, vec!["d", "c"]);
}

#[test]
fn restore_never_evicts_named_buffers_even_when_they_alone_exceed_the_limit() {
    let ring = BufferRing::restore(
        1,
        vec![
            restored(1, Some("n1"), "a"),
            restored(2, Some("n2"), "b"),
            restored(3, Some("n3"), "c"),
        ],
    );

    assert_eq!(ring.len(), 3, "named buffers must never be evicted");
}

#[test]
fn restore_len_can_legitimately_exceed_limit_when_named_buffers_are_present() {
    let ring = BufferRing::restore(
        1,
        vec![
            restored(1, Some("pinned"), "keep"),
            restored(2, None, "a"),
            restored(3, None, "b"),
        ],
    );

    assert_eq!(ring.len(), 2, "1 pinned + 1 unnamed within the limit of 1");
    assert!(ring.get_by_name("pinned").is_some());
}

#[test]
fn restore_of_empty_entries_yields_an_empty_ring() {
    let ring = BufferRing::restore(5, Vec::new());
    assert!(ring.is_empty());
}
