use jar_audit::archive::{is_directory_name, Archive, ArchiveError};
use jar_audit::pattern::IgnoreSpec;
use jar_audit::settings::{edit_outcome, entry_name_or_default, ignored_value_or_default, EditOutcome};
use std::io::{Cursor, Write};
use zip::write::FileOptions;
use zip::{CompressionMethod, ZipWriter};

fn build(files: &[(&str, &[u8])]) -> Vec<u8> {
    let mut w = ZipWriter::new(Cursor::new(Vec::new()));
    let stored = FileOptions::default().compression_method(CompressionMethod::Stored);
    for (name, data) in files {
        if name.ends_with('/') {
            w.add_directory(*name, stored).unwrap();
        } else {
            w.start_file(*name, stored).unwrap();
            w.write_all(data).unwrap();
        }
    }
    w.finish().unwrap().into_inner()
}

fn sample() -> Archive {
    let bytes = build(&[
        ("a.txt", b"alpha\n"),
        ("b/", b""),
        ("b/c.class", b"\xca\xfe\xba\xbe"),
        (".gitignore", b"target\n"),
    ]);
    Archive::open(bytes).unwrap()
}

#[test]
fn enumerate_in_directory_order() {
    let mut a = sample();
    assert_eq!(a.len(), 4);
    let entries = a.enumerate().unwrap();
    let seen: Vec<(String, bool)> =
        entries.iter().map(|e| (e.name.clone(), e.is_directory)).collect();
    assert_eq!(
        seen,
        vec![
            ("a.txt".to_string(), false),
            ("b/".to_string(), true),
            ("b/c.class".to_string(), false),
            (".gitignore".to_string(), false),
        ]
    );
}

#[test]
fn enumerate_twice_is_the_same() {
    let mut a = sample();
    let first: Vec<String> = a.enumerate().unwrap().into_iter().map(|e| e.name).collect();
    let second: Vec<String> = a.enumerate().unwrap().into_iter().map(|e| e.name).collect();
    assert_eq!(first, second);
}

#[test]
fn scenario_archive_listing() {
    let mut a = sample();
    let listed = a.list(&IgnoreSpec::parse(".class, b/")).unwrap();
    assert_eq!(listed, vec!["a.txt", ".gitignore"]);
}

#[test]
fn scenario_empty_policy_on_archive() {
    let bytes = build(&[("x.txt", b"1"), ("lib/y.class", b"2"), ("META-INF/MANIFEST.MF", b"3")]);
    let mut a = Archive::open(bytes).unwrap();
    let listed = a.list(&IgnoreSpec::parse("")).unwrap();
    assert_eq!(listed, vec!["x.txt", "lib/y.class", "META-INF/MANIFEST.MF"]);
}

#[test]
fn read_entry_returns_stored_text() {
    let mut a = sample();
    assert_eq!(a.read_entry("a.txt").unwrap(), "alpha\n");
    assert_eq!(a.read_entry(".gitignore").unwrap(), "target\n");
}

#[test]
fn read_entry_missing_name() {
    let mut a = sample();
    assert_eq!(a.read_entry("AUDIT_TRAIL"), Err(ArchiveError::EntryNotFound));
    assert_eq!(a.read_entry("A.TXT"), Err(ArchiveError::EntryNotFound));
}

#[test]
fn scenario_read_directory_marker() {
    let mut a = sample();
    assert_eq!(a.read_entry("b/"), Err(ArchiveError::EntryNotFound));
}

#[test]
fn read_entry_binary_is_not_text() {
    let mut a = sample();
    assert_eq!(a.read_entry("b/c.class"), Err(ArchiveError::EntryNotText));
}

#[test]
fn read_entry_deflated() {
    let mut w = ZipWriter::new(Cursor::new(Vec::new()));
    w.start_file("AUDIT_TRAIL", FileOptions::default()).unwrap();
    w.write_all("changed by éva\n".repeat(20).as_bytes()).unwrap();
    let bytes = w.finish().unwrap().into_inner();
    let mut a = Archive::open(bytes).unwrap();
    assert_eq!(a.read_entry("AUDIT_TRAIL").unwrap(), "changed by éva\n".repeat(20));
}

#[test]
fn open_rejects_non_archive() {
    assert_eq!(Archive::open(b"not a zip file".to_vec()).err(), Some(ArchiveError::Corrupt));
    assert_eq!(Archive::open(Vec::new()).err(), Some(ArchiveError::Corrupt));
}

#[test]
fn empty_archive_lists_nothing() {
    let mut a = Archive::open(build(&[])).unwrap();
    assert_eq!(a.len(), 0);
    assert!(a.list(&IgnoreSpec::parse("")).unwrap().is_empty());
}

#[test]
fn changes_are_not_offered() {
    let mut a = sample();
    assert_eq!(a.replace_entry("a.txt", "new"), Err(ArchiveError::Unsupported));
    assert_eq!(a.remove_entry("a.txt"), Err(ArchiveError::Unsupported));
    assert_eq!(a.read_entry("a.txt").unwrap(), "alpha\n");
}

#[test]
fn directory_names() {
    assert!(is_directory_name("b/"));
    assert!(is_directory_name("b\\"));
    assert!(!is_directory_name("b"));
    assert!(!is_directory_name(""));
}

#[test]
fn entry_name_defaults() {
    assert_eq!(entry_name_or_default(Some("X".into()), Some("Y".into())), "X");
    assert_eq!(entry_name_or_default(None, Some("Y".into())), "Y");
    assert_eq!(entry_name_or_default(None, None), "AUDIT_TRAIL");
}

#[test]
fn ignored_value_defaults() {
    assert_eq!(ignored_value_or_default(Some(".class".into())), ".class");
    assert_eq!(ignored_value_or_default(None), "");
}

#[test]
fn edit_outcomes() {
    assert_eq!(edit_outcome(&"a".to_string(), &"a".to_string()), EditOutcome::Unchanged);
    assert_eq!(edit_outcome(&"a".to_string(), &"b".to_string()), EditOutcome::Changed);
}

#[test]
fn damaged_local_header() {
    let mut bytes = build(&[("first.txt", b"one"), ("second.txt", b"two")]);
    assert_eq!(&bytes[0..4], b"PK\x03\x04");
    bytes[0] = b'X';
    let mut a = Archive::open(bytes).unwrap();
    assert_eq!(a.len(), 2);
    assert_eq!(a.enumerate().err(), Some(ArchiveError::Corrupt));
    assert_eq!(a.list(&IgnoreSpec::parse("")).err(), Some(ArchiveError::Corrupt));
    assert_eq!(a.read_entry("first.txt"), Err(ArchiveError::Corrupt));
    assert_eq!(a.read_entry("second.txt").unwrap(), "two");
    assert_eq!(a.read_entry("third.txt"), Err(ArchiveError::EntryNotFound));
}

#[test]
fn listing_twice_is_the_same() {
    let mut a = sample();
    let ignore = IgnoreSpec::parse(".class");
    let first = a.list(&ignore).unwrap();
    let second = a.list(&ignore).unwrap();
    assert_eq!(first, vec!["a.txt", ".gitignore"]);
    assert_eq!(first, second);
}
