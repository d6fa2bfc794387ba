use icon_compiler::scan::{
    parse_file_name, parse_variant_dir, scan_entries, select_largest, IconKey, RawEntry,
    ScanError, SourceRecord,
};

fn key(category: &str, name: &str, variant: &str) -> IconKey {
    IconKey {
        category: category.to_owned(),
        name: name.to_owned(),
        variant: variant.to_owned(),
    }
}

fn record(category: &str, name: &str, variant: &str, size: u32, path: &str) -> SourceRecord {
    SourceRecord {
        key: key(category, name, variant),
        size,
        path: path.to_owned(),
    }
}

#[test]
fn parse_file_name_accepts_sized_icons() {
    assert_eq!(parse_file_name(&"24px.svg".to_owned()), Some(24));
    assert_eq!(parse_file_name(&"18px.svg".to_owned()), Some(18));
    assert_eq!(parse_file_name(&"024px.svg".to_owned()), Some(24));
}

#[test]
fn parse_file_name_rejects_other_names() {
    assert_eq!(parse_file_name(&"px.svg".to_owned()), None);
    assert_eq!(parse_file_name(&"ic_add_24px.svg".to_owned()), None);
    assert_eq!(parse_file_name(&"24px.png".to_owned()), None);
    assert_eq!(parse_file_name(&"24 px.svg".to_owned()), None);
    assert_eq!(parse_file_name(&"".to_owned()), None);
}

#[test]
fn parse_file_name_rejects_oversized_values() {
    assert_eq!(parse_file_name(&"99999999999px.svg".to_owned()), None);
    assert_eq!(parse_file_name(&"4294967295px.svg".to_owned()), Some(4294967295));
}

#[test]
fn parse_variant_dir_normalizes_empty_suffix() {
    assert_eq!(
        parse_variant_dir(&"materialicons".to_owned()),
        Some("normal".to_owned())
    );
    assert_eq!(
        parse_variant_dir(&"materialiconsoutlined".to_owned()),
        Some("outlined".to_owned())
    );
    assert_eq!(parse_variant_dir(&"othericons".to_owned()), None);
    assert_eq!(parse_variant_dir(&"material".to_owned()), None);
}

#[test]
fn select_largest_keeps_the_biggest_size() {
    // The size-selection policy: for sizes {18, 24, 48} the chosen record has
    // size 48, whatever order the records arrive in.
    let records = vec![
        record("action", "add", "normal", 24, "a/24"),
        record("action", "add", "normal", 48, "a/48"),
        record("action", "add", "normal", 18, "a/18"),
    ];
    let out = select_largest(records).unwrap();
    assert_eq!(out.len(), 1);
    assert_eq!(out[0].size, 48);
    assert_eq!(out[0].path, "a/48");
}

#[test]
fn select_largest_keeps_a_single_size() {
    let records = vec![record("action", "add", "normal", 24, "a/24")];
    let out = select_largest(records).unwrap();
    assert_eq!(out.len(), 1);
    assert_eq!(out[0].size, 24);
}

#[test]
fn select_largest_keeps_distinct_keys_apart() {
    let records = vec![
        record("action", "add", "normal", 24, "a"),
        record("action", "remove", "normal", 18, "b"),
        record("alert", "add", "normal", 48, "c"),
    ];
    let out = select_largest(records).unwrap();
    assert_eq!(out.len(), 3);
}

#[test]
fn select_largest_rejects_equal_duplicates() {
    let records = vec![
        record("action", "add", "normal", 24, "a/24"),
        record("action", "add", "normal", 24, "a/24-again"),
    ];
    match select_largest(records) {
        Err(ScanError::DuplicateRecord(path)) => assert_eq!(path, "a/24-again"),
        _ => panic!("expected a duplicate-record error"),
    }
}

fn entry(category: &str, name: &str, variant_dir: &str, file_name: &str, path: &str) -> RawEntry {
    RawEntry {
        category: category.to_owned(),
        name: name.to_owned(),
        variant_dir: variant_dir.to_owned(),
        file_name: file_name.to_owned(),
        path: path.to_owned(),
    }
}

#[test]
fn scan_entries_parses_and_skips() {
    let entries = vec![
        entry("action", "add", "materialicons", "24px.svg", "p1"),
        entry("action", "add", "materialicons", "notes.txt", "p2"),
        entry("alert", "warning", "materialiconsoutlined", "48px.svg", "p3"),
    ];
    let out = scan_entries(&entries).unwrap();
    assert_eq!(out.records.len(), 2);
    assert_eq!(out.records[0].key.category, "action");
    assert_eq!(out.records[0].key.name, "add");
    assert_eq!(out.records[0].key.variant, "normal");
    assert_eq!(out.records[0].size, 24);
    assert_eq!(out.records[1].key.variant, "outlined");
    assert_eq!(out.records[1].size, 48);
    assert_eq!(out.skipped, vec!["p2".to_owned()]);
}

#[test]
fn scan_entries_rejects_unexpected_variant_dirs() {
    let entries = vec![entry("action", "add", "strangeicons", "24px.svg", "p1")];
    match scan_entries(&entries) {
        Err(ScanError::VariantFormat(path)) => assert_eq!(path, "p1"),
        _ => panic!("expected a variant-format error"),
    }
}
