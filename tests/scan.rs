use todos::scan::{is_source_extension, skip_entry};

#[test]
fn target_under_root_is_skipped() {
    assert!(skip_entry(1, Some("target")));
}

#[test]
fn target_deeper_is_scanned() {
    assert!(!skip_entry(2, Some("target")));
    assert!(!skip_entry(0, Some("target")));
}

#[test]
fn other_names_are_scanned() {
    assert!(!skip_entry(1, Some("src")));
    assert!(!skip_entry(1, Some("targets")));
    assert!(!skip_entry(1, None));
}

#[test]
fn only_rs_files_are_sources() {
    assert!(is_source_extension(Some("rs")));
    assert!(!is_source_extension(Some("RS")));
    assert!(!is_source_extension(Some("rsx")));
    assert!(!is_source_extension(Some("")));
    assert!(!is_source_extension(None));
}
