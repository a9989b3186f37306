use zclip_core::VERSION;

#[test]
fn version_is_populated() {
    assert!(!VERSION.is_empty());
    assert!(VERSION.starts_with(char::is_numeric));
}
