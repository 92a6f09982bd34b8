use jar_audit::pattern::{
    contains_str, eq_ignore_ascii_case, get_file_extension, get_file_name, pattern_hides_file,
    starts_with, Entry, IgnoreSpec,
};

fn file(name: &str) -> Entry {
    Entry { name: name.to_string(), is_directory: false }
}

fn dir(name: &str) -> Entry {
    Entry { name: name.to_string(), is_directory: true }
}

fn policy(patterns: &[&str]) -> IgnoreSpec {
    IgnoreSpec { patterns: patterns.iter().map(|p| p.to_string()).collect() }
}

#[test]
fn extension_is_last_dot_suffix() {
    assert_eq!(get_file_extension("archive.tar.gz"), ".gz");
    assert_eq!(get_file_extension("src/Main.java"), ".java");
    assert_eq!(get_file_extension("x/.gitignore"), ".gitignore");
    assert_eq!(get_file_extension("name."), ".");
}

#[test]
fn extension_empty_without_alphanumeric_suffix() {
    assert_eq!(get_file_extension("README"), "");
    assert_eq!(get_file_extension("a.b-c"), "");
    assert_eq!(get_file_extension("dir.d/file"), "");
    assert_eq!(get_file_extension(""), "");
}

#[test]
fn file_name_is_last_segment() {
    assert_eq!(get_file_name("META-INF/MANIFEST.MF"), "MANIFEST.MF");
    assert_eq!(get_file_name("plain"), "plain");
    assert_eq!(get_file_name("a/b/"), "");
    assert_eq!(get_file_name("/top"), "top");
}

#[test]
fn string_helpers() {
    assert!(eq_ignore_ascii_case(".TXT", ".txt"));
    assert!(!eq_ignore_ascii_case(".txt", ".tx"));
    assert!(!eq_ignore_ascii_case(".txt", ".tat"));
    assert!(starts_with("MANIFEST.MF", "MANIFEST"));
    assert!(!starts_with("MAN", "MANIFEST"));
    assert!(contains_str("lib/b/c.class", "b/"));
    assert!(!contains_str("src/c.class", "b/"));
    assert!(contains_str("abc", ""));
}

#[test]
fn parse_splits_on_comma_space() {
    assert_eq!(IgnoreSpec::parse(".class, b/").patterns, vec![".class", "b/"]);
    assert_eq!(IgnoreSpec::parse("a,b, c").patterns, vec!["a,b", "c"]);
    assert_eq!(IgnoreSpec::parse(", ").patterns, vec!["", ""]);
    assert_eq!(IgnoreSpec::parse("one").patterns, vec!["one"]);
}

#[test]
fn parse_empty_value_gives_one_empty_pattern() {
    assert_eq!(IgnoreSpec::parse("").patterns, vec![""]);
}

#[test]
fn directories_hidden_under_any_policy() {
    assert!(policy(&[]).suppresses(&dir("b/")));
    assert!(IgnoreSpec::parse("").suppresses(&dir("META-INF/")));
    assert!(policy(&["zzz"]).suppresses(&dir("x/")));
}

#[test]
fn extension_pattern_ignores_case() {
    assert!(policy(&[".txt"]).suppresses(&file("report.TXT")));
    assert!(policy(&[".TXT"]).suppresses(&file("docs/report.txt")));
    assert!(!policy(&[".txt"]).suppresses(&file("report.txt.bak")));
    assert!(!policy(&[".tar.gz"]).suppresses(&file("x.tar.gz")));
}

#[test]
fn prefix_pattern_matches_base_name() {
    assert!(policy(&["MANIFEST"]).suppresses(&file("META-INF/MANIFEST.MF")));
    assert!(!policy(&["MANIFEST"]).suppresses(&file("META-INF/manifest.mf")));
    assert!(!policy(&["META"]).suppresses(&file("META-INF/MANIFEST.MF")));
}

#[test]
fn directory_pattern_matches_anywhere_in_path() {
    assert!(pattern_hides_file("b/c.class", "b/"));
    assert!(pattern_hides_file("lib/ab/x.txt", "b/"));
    assert!(!pattern_hides_file("a.txt", "b/"));
}

#[test]
fn empty_pattern_hides_no_file() {
    assert!(!pattern_hides_file("a.txt", ""));
    assert!(!IgnoreSpec::parse("").suppresses(&file(".gitignore")));
}

#[test]
fn scenario_filtered_listing() {
    let entries = vec![file("a.txt"), dir("b/"), file("b/c.class"), file(".gitignore")];
    let listed = policy(&[".class", "b/"]).filter_entries(&entries);
    assert_eq!(listed, vec!["a.txt", ".gitignore"]);
}

#[test]
fn scenario_empty_policy_lists_every_file() {
    let entries = vec![file("a.txt"), file("lib/x.class"), file(".gitignore"), file("a.txt")];
    let listed = IgnoreSpec::parse("").filter_entries(&entries);
    assert_eq!(listed, vec!["a.txt", "lib/x.class", ".gitignore", "a.txt"]);
}

#[test]
fn listing_keeps_order_and_duplicates() {
    let entries = vec![file("z.txt"), file("a.class"), file("m.txt"), file("z.txt")];
    let listed = policy(&[".class"]).filter_entries(&entries);
    assert_eq!(listed, vec!["z.txt", "m.txt", "z.txt"]);
}
