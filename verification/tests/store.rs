use zclip_core::buffer::BufferRing;
use zclip_core::persist::{encode, PersistMode};
use zclip_core::store::{load_ring, restore_message, save_body, ReadOutcome, RingStore};

#[test]
fn store_is_absent_when_persistence_is_off() {
    assert!(RingStore::new(PersistMode::Off, 1, 2).is_none());
}

#[test]
fn store_paths_are_keyed_on_pid_and_plugin_id() {
    let store = RingStore::new(PersistMode::Session, 1234, 42).unwrap();
    assert_eq!(store.dir(), "/cache/zclip");
    assert_eq!(store.path(), "/cache/zclip/ring-1234.zclip");
    assert_eq!(store.tmp(), "/cache/zclip/ring-42.tmp");
}

#[test]
fn gc_collects_only_other_stale_ring_files() {
    let store = RingStore::new(PersistMode::Session, 1, 2).unwrap();
    let week = 7 * 24 * 60 * 60;
    let other = Some("/cache/zclip/ring-9.zclip");
    assert!(store.should_collect(other, Some("ring-9.zclip"), Some(week + 1)));
    assert!(!store.should_collect(other, Some("ring-9.zclip"), Some(week)));
    assert!(!store.should_collect(other, Some("ring-9.zclip"), None));
    assert!(!store.should_collect(other, Some("notes.txt"), Some(week + 1)));
    assert!(!store.should_collect(other, None, Some(week + 1)));
    assert!(!store.should_collect(
        Some("/cache/zclip/ring-1.zclip"),
        Some("ring-1.zclip"),
        Some(week + 1)
    ));
}

#[test]
fn restore_message_mentions_skipped_records_only_when_there_are_some() {
    assert_eq!(restore_message(3, 0), "restored 3 buffer(s)");
    assert_eq!(
        restore_message(3, 2),
        "restored 3 buffer(s) (2 record(s) could not be restored)"
    );
}

#[test]
fn load_ring_of_a_missing_file_is_silent() {
    let (ring, message) = load_ring(ReadOutcome::Missing, 5);
    assert!(ring.is_empty());
    assert_eq!(ring.limit(), 5);
    assert_eq!(message, None);
}

#[test]
fn load_ring_reports_read_and_decode_failures() {
    let (ring, message) = load_ring(ReadOutcome::Failed("denied".to_string()), 5);
    assert!(ring.is_empty());
    assert_eq!(
        message.as_deref(),
        Some("could not read persisted ring: denied")
    );
    let (ring, message) = load_ring(ReadOutcome::Read("garbage".to_string()), 5);
    assert!(ring.is_empty());
    assert_eq!(
        message.as_deref(),
        Some("could not restore persisted ring: persisted ring is missing the 'zclip-ring' header")
    );
}

#[test]
fn load_ring_restores_what_was_saved() {
    let mut ring = BufferRing::new(5);
    ring.push("first");
    ring.push_named("second", "pinned");
    let body = save_body(&ring).unwrap();
    assert_eq!(body, encode(&ring).body);
    let (restored, message) = load_ring(ReadOutcome::Read(body), 5);
    assert_eq!(restored.len(), 2);
    assert_eq!(restored.get(0).unwrap().text(), "second");
    assert_eq!(restored.get(0).unwrap().name(), Some("pinned"));
    assert_eq!(message.as_deref(), Some("restored 2 buffer(s)"));
}

#[test]
fn saving_an_empty_ring_writes_nothing() {
    assert_eq!(save_body(&BufferRing::new(5)), None);
}
