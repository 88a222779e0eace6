use ksm::article::read_article_parameters;
use ksm::store::TableStore;
use ksm::sync::{file_name_matches, SyncAction};
use ksm::table::Table;

fn lines(v: &[&str]) -> Vec<String> {
    v.iter().map(|s| s.to_string()).collect()
}

fn sample_table(name_line: &str) -> Table {
    read_article_parameters(&lines(&[name_line, "None", "a = 1"])).expect("parse failed")
}

#[test]
fn file_name_convention() {
    assert!(file_name_matches("123.art", "art"));
    assert!(file_name_matches("1234.art", "art"));
    assert!(file_name_matches("12345.art", "art"));
    assert!(file_name_matches("123-4.dat", "dat"));
    assert!(file_name_matches("12345-9.art", "art"));

    assert!(!file_name_matches("12.art", "art"));
    assert!(!file_name_matches("123456.art", "art"));
    assert!(!file_name_matches("123.dat", "art"));
    assert!(!file_name_matches("123art", "art"));
    assert!(!file_name_matches("123.artx", "art"));
    assert!(!file_name_matches("123-45.art", "art"));
    assert!(!file_name_matches("123-.art", "art"));
    assert!(!file_name_matches("abc.art", "art"));
    assert!(!file_name_matches("x123.art", "art"));
    assert!(!file_name_matches("invalid_file_name.abc", "art"));
    assert!(!file_name_matches("", "art"));
}

#[test]
fn store_install_and_get() {
    let mut store = TableStore::new();
    assert!(store.get("101.art").is_none());
    store.install("101.art", sample_table("one"), 10);
    let entry = store.get("101.art").expect("entry missing");
    assert_eq!(entry.modified, 10);
    assert_eq!(entry.table.first_value_or_empty_string("pgm_name"), "one");
    // replacement is wholesale
    store.install("101.art", sample_table("two"), 20);
    let entry = store.get("101.art").expect("entry missing");
    assert_eq!(entry.modified, 20);
    assert_eq!(entry.table.first_value_or_empty_string("pgm_name"), "two");
}

#[test]
fn store_needs_refresh_semantics() {
    let mut store = TableStore::new();
    // an unknown name refreshes for any nonzero time
    assert!(store.needs_refresh("101.art", 1));
    assert!(!store.needs_refresh("101.art", 0));
    store.install("101.art", sample_table("one"), 10);
    assert!(!store.needs_refresh("101.art", 10));
    assert!(!store.needs_refresh("101.art", 9));
    assert!(store.needs_refresh("101.art", 11));
}

#[test]
fn store_names_snapshot() {
    let mut store = TableStore::new();
    store.install("101.art", sample_table("one"), 1);
    store.install("102.art", sample_table("two"), 1);
    let mut names = store.names();
    names.sort();
    assert_eq!(names, vec!["101.art".to_string(), "102.art".to_string()]);
}

#[test]
fn sync_no_change_performs_no_reparse() {
    // two scans over unchanged files: every parse happens in the first
    let listing = [("101.art", 5u64), ("102.art", 7u64), ("notes.txt", 9u64)];
    let mut store = TableStore::new();
    let mut parse_calls = 0;

    for pass in 0..2 {
        for (name, modified) in listing {
            match store.plan_entry(name, "art", modified) {
                SyncAction::Refresh => {
                    parse_calls += 1;
                    store.install(name, sample_table(name), modified);
                }
                SyncAction::Keep | SyncAction::Ignore => {}
            }
        }
        if pass == 0 {
            assert_eq!(parse_calls, 2, "first scan parses each matching file once");
        }
    }
    assert_eq!(parse_calls, 2, "second scan over unchanged files parses nothing");
}

#[test]
fn sync_modified_file_reparsed_alone() {
    let mut store = TableStore::new();
    store.install("101.art", sample_table("one"), 5);
    store.install("102.art", sample_table("two"), 7);

    // only the touched file is planned for refresh
    assert_eq!(store.plan_entry("101.art", "art", 6), SyncAction::Refresh);
    assert_eq!(store.plan_entry("102.art", "art", 7), SyncAction::Keep);

    store.install("101.art", sample_table("one-v2"), 6);
    let updated = store.get("101.art").expect("entry missing");
    assert_eq!(updated.modified, 6);
    assert_eq!(updated.table.first_value_or_empty_string("pgm_name"), "one-v2");
    // the other entry is untouched
    let other = store.get("102.art").expect("entry missing");
    assert_eq!(other.modified, 7);
    assert_eq!(other.table.first_value_or_empty_string("pgm_name"), "two");
}

#[test]
fn sync_ignores_foreign_names() {
    let store = TableStore::new();
    assert_eq!(store.plan_entry("readme.md", "art", 99), SyncAction::Ignore);
    assert_eq!(store.plan_entry("12.art", "art", 99), SyncAction::Ignore);
}
