use pass_tui::codec::{path_to_store_key, store_key_to_path};
use pass_tui::order::cmp_segment;
use pass_tui::rows::{contains_text, key_in};
use pass_tui::session::trim_text;
use pass_tui::store::{classify_scan, index_from_scan, EntryKind, ScanRecord, StoreEntry};

fn segs(p: &str) -> Vec<String> {
    if p.is_empty() {
        Vec::new()
    } else {
        p.split('/').map(|s| s.to_string()).collect()
    }
}

fn record(p: &str, is_dir: bool) -> ScanRecord {
    ScanRecord { path: segs(p), is_dir, is_file: !is_dir }
}

#[test]
fn index_lists_dirs_and_entries() {
    let records = vec![
        record("a", true),
        record("a/b", true),
        record("a/b/one.gpg", false),
        record("x", true),
        record("x/two.gpg", false),
        record(".git", true),
        record(".git/ignore", false),
    ];
    let entries = index_from_scan(&records);
    assert!(entries.iter().any(|e| e.kind == EntryKind::Dir && e.path.is_empty()));
    assert!(entries.iter().any(|e| e.kind == EntryKind::Dir && e.path == segs("a")));
    assert!(entries.iter().any(|e| e.kind == EntryKind::Dir && e.path == segs("a/b")));
    assert!(entries.iter().any(|e| e.kind == EntryKind::Entry && e.path == segs("a/b/one")));
    assert!(entries.iter().any(|e| e.kind == EntryKind::Entry && e.path == segs("x/two")));
}

#[test]
fn index_is_sorted_directories_first_and_skips_metadata() {
    let records = vec![
        record("x/two.gpg", false),
        record("x", true),
        record("a/b/one.gpg", false),
        record("a", true),
        record("a/b", true),
        record(".git", true),
        record("notes.txt", false),
    ];
    let keys: Vec<(String, EntryKind)> =
        index_from_scan(&records).iter().map(|e| (e.store_key(), e.kind)).collect();
    assert_eq!(
        keys,
        vec![
            ("".to_string(), EntryKind::Dir),
            ("a".to_string(), EntryKind::Dir),
            ("a/b".to_string(), EntryKind::Dir),
            ("x".to_string(), EntryKind::Dir),
            ("a/b/one".to_string(), EntryKind::Entry),
            ("x/two".to_string(), EntryKind::Entry),
        ]
    );
}

#[test]
fn empty_store_has_only_the_root() {
    let entries = index_from_scan(&Vec::new());
    assert_eq!(entries.len(), 1);
    assert!(entries[0].is_dir());
    assert_eq!(entries[0].display_name(), "");
    assert_eq!(entries[0].store_key(), "");
}

#[test]
fn duplicate_records_give_one_entry() {
    let records = vec![record("a", true), record("a", true), record("a.gpg", false)];
    assert_eq!(index_from_scan(&records).len(), 3);
}

#[test]
fn content_suffix_is_stripped_only_with_a_name_before_it() {
    let leaf = classify_scan(&record("d/site.gpg", false)).expect("a leaf");
    assert_eq!(leaf.path, segs("d/site"));
    assert_eq!(leaf.kind, EntryKind::Entry);
    assert!(classify_scan(&record(".gpg", false)).is_none());
    assert!(classify_scan(&record("d/site.gpgx", false)).is_none());
    let dotted = classify_scan(&record("a..gpg", false)).expect("a leaf");
    assert_eq!(dotted.path, segs("a."));
    assert!(classify_scan(&ScanRecord { path: segs("link.gpg"), is_dir: false, is_file: false })
        .is_none());
    assert!(classify_scan(&record("", true)).is_none());
}

#[test]
fn entry_names_and_keys() {
    let e = StoreEntry { path: segs("web/mail/personal"), kind: EntryKind::Entry };
    assert_eq!(e.display_name(), "personal");
    assert_eq!(e.store_key(), "web/mail/personal");
    assert_eq!(e.relative_entry_path(), Some("web/mail/personal".to_string()));
    assert!(!e.is_dir());
    let d = StoreEntry { path: segs("web"), kind: EntryKind::Dir };
    assert_eq!(d.relative_entry_path(), None);
    assert!(d.is_dir());
}

#[test]
fn key_round_trip() {
    for p in ["a", "a/b/c", "web/mail.personal", "x y/z"] {
        let path = segs(p);
        let key = path_to_store_key(&path);
        assert_eq!(key, p);
        assert_eq!(store_key_to_path(&key), path);
    }
    assert_eq!(path_to_store_key(&Vec::new()), "");
    assert_eq!(store_key_to_path(""), Vec::<String>::new());
    assert_eq!(store_key_to_path("a//b"), vec!["a".to_string(), "".to_string(), "b".to_string()]);
}

#[test]
fn segments_compare_by_code_point() {
    assert!(cmp_segment("a", "b") < 0);
    assert!(cmp_segment("b", "a") > 0);
    assert_eq!(cmp_segment("same", "same"), 0);
    assert!(cmp_segment("ab", "abc") < 0);
    assert!(cmp_segment("Z", "a") < 0);
    assert!(cmp_segment("\u{e9}", "z") > 0);
}

#[test]
fn substring_search() {
    assert!(contains_text("personal", "son"));
    assert!(contains_text("personal", ""));
    assert!(!contains_text("personal", "Son"));
    assert!(!contains_text("on", "one"));
    assert!(contains_text("one", "one"));
}

#[test]
fn key_membership() {
    let keys = vec!["".to_string(), "a/b".to_string()];
    assert!(key_in(&keys, ""));
    assert!(key_in(&keys, "a/b"));
    assert!(!key_in(&keys, "a"));
}

#[test]
fn trimming_white_space() {
    assert_eq!(trim_text("  a b \t\n"), "a b");
    assert_eq!(trim_text("\u{2003}x\u{a0}"), "x");
    assert_eq!(trim_text("   "), "");
    assert_eq!(trim_text(""), "");
}

#[test]
fn nothing_below_the_metadata_directory_is_indexed() {
    let records = vec![
        record(".git", true),
        record(".git/hooks", true),
        record(".git/x.gpg", false),
        record("a/.git/y.gpg", false),
        record("a", true),
    ];
    let keys: Vec<String> = index_from_scan(&records).iter().map(|e| e.store_key()).collect();
    assert_eq!(keys, vec!["".to_string(), "a".to_string()]);
}
