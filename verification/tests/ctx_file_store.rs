use std::time::{Duration, SystemTime};

use atomcode_core::ctx::file_store::{derive_id, FileStore};

fn t(secs: u64) -> SystemTime {
    SystemTime::UNIX_EPOCH + Duration::from_secs(secs)
}

fn three_lines() -> String {
    "alpha\nbeta\ngamma\n".to_string()
}

#[test]
fn insert_and_get_round_trip() {
    let mut s = FileStore::new();
    let id = s.insert("/x.rs".to_string(), three_lines(), t(100));
    let e = s.get(&id).unwrap();
    assert_eq!(e.line_count, 3);
    assert_eq!(e.content, "alpha\nbeta\ngamma\n");
    assert_eq!(e.mtime, t(100));
}

#[test]
fn store_id_lookup_by_path_returns_latest() {
    let mut s = FileStore::new();
    let id1 = s.insert("/x.rs".to_string(), "v1".into(), t(100));
    let id2 = s.insert("/x.rs".to_string(), "v2".into(), t(200));
    assert_ne!(id1, id2);
    // Old id displaced by new — only the latest survives.
    assert!(s.get(&id1).is_none());
    assert!(s.get(&id2).is_some());
    assert_eq!(s.store_id_for_path("/x.rs"), Some(id2.as_str()));
}

#[test]
fn peek_lines_extracts_inclusive_range() {
    let mut s = FileStore::new();
    let id = s.insert("/x.rs".to_string(), three_lines(), t(0));
    assert_eq!(s.peek_lines(&id, 1, 1).unwrap(), "alpha");
    assert_eq!(s.peek_lines(&id, 1, 2).unwrap(), "alpha\nbeta");
    assert_eq!(s.peek_lines(&id, 2, 3).unwrap(), "beta\ngamma");
    assert_eq!(s.peek_lines(&id, 1, 99).unwrap(), "alpha\nbeta\ngamma");
}

#[test]
fn peek_lines_handles_zero_and_oob() {
    let mut s = FileStore::new();
    let id = s.insert("/x.rs".to_string(), three_lines(), t(0));
    // 0 / past-end / inverted ranges all yield Some("") — callers
    // can format a friendly "out of range" without an extra branch.
    assert_eq!(s.peek_lines(&id, 0, 1).unwrap(), "");
    assert_eq!(s.peek_lines(&id, 50, 99).unwrap(), "");
    assert_eq!(s.peek_lines(&id, 5, 2).unwrap(), "");
}

#[test]
fn peek_lines_unknown_id_returns_none() {
    let s = FileStore::new();
    assert!(s.peek_lines("fs_00000000", 1, 1).is_none());
}

#[test]
fn is_stale_detects_mtime_change() {
    let mut s = FileStore::new();
    let id = s.insert("/x.rs".to_string(), "x".into(), t(100));
    assert!(!s.is_stale(&id, t(100)));
    assert!(s.is_stale(&id, t(101)));
}

#[test]
fn is_stale_unknown_id_treated_as_stale() {
    let s = FileStore::new();
    // Unknown id routes through the same "stale" path so callers
    // don't need separate branches.
    assert!(s.is_stale("fs_deadbeef", t(0)));
}

#[test]
fn invalidate_drops_entry_for_path() {
    let mut s = FileStore::new();
    let id = s.insert("/x.rs".to_string(), "x".into(), t(100));
    assert!(s.get(&id).is_some());
    s.invalidate("/x.rs");
    assert!(s.get(&id).is_none());
    assert!(s.store_id_for_path("/x.rs").is_none());
}

#[test]
fn invalidate_unknown_path_is_noop() {
    let mut s = FileStore::new();
    s.invalidate("/nonexistent"); // no panic
    assert!(s.is_empty());
}

#[test]
fn invalidate_only_affects_named_path() {
    let mut s = FileStore::new();
    let id_a = s.insert("/a.rs".to_string(), "a".into(), t(0));
    let id_b = s.insert("/b.rs".to_string(), "b".into(), t(0));
    s.invalidate("/a.rs");
    assert!(s.get(&id_a).is_none());
    assert!(s.get(&id_b).is_some());
}

#[test]
fn derive_id_stable_for_same_input() {
    let p = "/x.rs";
    let id1 = derive_id(p, "hello");
    let id2 = derive_id(p, "hello");
    assert_eq!(id1, id2);
}

#[test]
fn derive_id_changes_with_content() {
    let p = "/x.rs";
    assert_ne!(derive_id(p, "hello"), derive_id(p, "world"));
}

#[test]
fn derive_id_changes_with_path() {
    assert_ne!(derive_id("/a", "x"), derive_id("/b", "x"));
}

/// Where the path ends and the content starts counts.
#[test]
fn derive_id_separates_path_and_content() {
    assert_ne!(derive_id("/a", "bx"), derive_id("/ab", "x"));
    let id = derive_id("/a", "x");
    assert!(id.starts_with("fs_"));
    assert_eq!(id.len(), 11);
}

#[test]
fn snapshots_count_bytes_and_entries() {
    let mut s = FileStore::new();
    assert_eq!(s.len(), 0);
    let id = s.insert("/x".to_string(), "h\u{e9}".into(), t(1));
    assert_eq!(s.get(&id).unwrap().size_bytes, 3);
    assert_eq!(s.len(), 1);
    let again = s.insert("/x".to_string(), "h\u{e9}".into(), t(2));
    assert_eq!(id, again);
    assert_eq!(s.len(), 1);
    assert_eq!(s.get(&id).unwrap().mtime, t(2));
}
