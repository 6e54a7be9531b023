use rocksdb_viewer::data::{build_snapshot, DataManager, Mailbox, FullDataLoader,
    PaginatedDataLoader, RawEntry, Snapshot};

fn entry(key: &str, value: &[u8]) -> RawEntry {
    (key.to_string(), value.to_vec())
}

fn sample_entries() -> Vec<RawEntry> {
    vec![
        entry("a:1:x", b"{\"f\":\"1\"}"),
        entry("b:5:y", b"{\"g\":\"2\"}"),
        entry("a:3:z", b"{\"f\":\"3\",\"h\":\"4\"}"),
        entry("a:2:w", b"{\"f\":\"5\"}"),
    ]
}

#[test]
fn snapshot_groups_sorted_by_type_records_newest_first() {
    let s = build_snapshot(&sample_entries());
    assert_eq!(s.groups.len(), 2);
    assert_eq!(s.groups[0].record_type, "a");
    assert_eq!(s.groups[1].record_type, "b");
    let keys: Vec<&str> = s.groups[0].records.iter().map(|r| r.key.as_str()).collect();
    // timestamps 3, 2, 1 -> newest first
    assert_eq!(keys, vec!["a:3:z", "a:2:w", "a:1:x"]);
    assert_eq!(s.groups[1].records.len(), 1);
}

#[test]
fn snapshot_ties_keep_arrival_order() {
    let entries = vec![
        entry("a:7:first", b"{}"),
        entry("a:7:second", b"{}"),
        entry("a:9:newest", b"{}"),
    ];
    let s = build_snapshot(&entries);
    let keys: Vec<&str> = s.groups[0].records.iter().map(|r| r.key.as_str()).collect();
    assert_eq!(keys, vec!["a:9:newest", "a:7:first", "a:7:second"]);
}

#[test]
fn headers_are_key_plus_sorted_distinct_fields() {
    let s = build_snapshot(&sample_entries());
    assert_eq!(s.groups[0].headers, vec!["key", "f", "h"]);
    assert_eq!(s.groups[1].headers, vec!["key", "g"]);
}

#[test]
fn non_object_only_type_gets_key_header_alone() {
    let entries = vec![entry("a:1:x", b"[1,2]"), entry("a:2:y", b"7")];
    let s = build_snapshot(&entries);
    assert_eq!(s.groups[0].headers, vec!["key"]);
}

#[test]
fn reload_of_unchanged_entries_is_identical() {
    let e = sample_entries();
    let s1 = build_snapshot(&e);
    let s2 = build_snapshot(&e);
    assert_eq!(s1.groups.len(), s2.groups.len());
    for (g1, g2) in s1.groups.iter().zip(s2.groups.iter()) {
        assert_eq!(g1.record_type, g2.record_type);
        assert_eq!(g1.headers, g2.headers);
        let k1: Vec<&str> = g1.records.iter().map(|r| r.key.as_str()).collect();
        let k2: Vec<&str> = g2.records.iter().map(|r| r.key.as_str()).collect();
        assert_eq!(k1, k2);
        for (r1, r2) in g1.records.iter().zip(g2.records.iter()) {
            assert_eq!(r1.raw_data, r2.raw_data);
        }
    }
}

#[test]
fn empty_store_yields_empty_snapshot() {
    let s = build_snapshot(&Vec::new());
    assert_eq!(s.groups.len(), 0);
}

#[test]
fn delete_record_removes_only_that_key_and_keeps_headers() {
    let mut dm = DataManager::new();
    dm.try_recv(Some(build_snapshot(&sample_entries())));
    dm.delete_record(&"a".to_string(), &"a:2:w".to_string());
    let groups = dm.get_records();
    let keys: Vec<&str> = groups[0].records.iter().map(|r| r.key.as_str()).collect();
    assert_eq!(keys, vec!["a:3:z", "a:1:x"]);
    // headers stay until the next refresh recomputes them
    assert_eq!(groups[0].headers, vec!["key", "f", "h"]);
    // the other group is untouched
    assert_eq!(groups[1].records.len(), 1);
}

#[test]
fn collect_headers_recomputes_from_current_records() {
    let mut dm = DataManager::new();
    dm.try_recv(Some(build_snapshot(&sample_entries())));
    // drop the only record carrying field "h"
    dm.delete_record(&"a".to_string(), &"a:3:z".to_string());
    dm.collect_headers();
    assert_eq!(dm.get_records()[0].headers, vec!["key", "f"]);
}

#[test]
fn get_headers_lookup() {
    let mut dm = DataManager::new();
    dm.try_recv(Some(build_snapshot(&sample_entries())));
    assert_eq!(dm.get_headers(&"b".to_string()).unwrap(), &vec!["key", "g"]);
    assert!(dm.get_headers(&"zzz".to_string()).is_none());
}

#[test]
fn try_recv_without_delivery_changes_nothing() {
    let mut dm = DataManager::new();
    assert!(!dm.try_recv(None));
    assert_eq!(dm.get_records().len(), 0);
}

#[test]
fn mailbox_overwrites_and_drains() {
    let mut mb = Mailbox::new();
    assert!(mb.try_pull().is_none());
    mb.publish(build_snapshot(&vec![entry("a:1", b"{}")]));
    mb.publish(build_snapshot(&sample_entries()));
    let got = mb.try_pull().expect("a pending snapshot");
    // the second publish replaced the first: two types, not one
    assert_eq!(got.groups.len(), 2);
    assert!(mb.try_pull().is_none());
}

#[test]
fn full_loader_change_detection() {
    let mut l = FullDataLoader::new("/tmp/db".to_string());
    assert_eq!(l.last_load_time, 0);
    assert!(l.has_changed(Some(5)));
    assert!(!l.has_changed(None));
    l.mark_loaded(10);
    assert!(!l.has_changed(Some(10)));
    assert!(l.has_changed(Some(11)));
}

#[test]
fn paginated_loader_pages_and_slices() {
    let mut l = PaginatedDataLoader::new("/tmp/db".to_string(), 2);
    assert_eq!(l.current_page, 0);
    l.prev_page();
    assert_eq!(l.current_page, 0);
    l.next_page();
    assert_eq!(l.current_page, 1);

    let entries = vec![
        entry("a:1:p", b"{}"),
        entry("a:2:q", b"{}"),
        entry("b:9:r", b"{}"),
        entry("a:4:s", b"{}"),
    ];
    // page 1 of size 2 covers raw positions 2 and 3; only "a:4:s" is type a
    let page = l.load_page(&entries, &"a".to_string());
    let keys: Vec<&str> = page.iter().map(|r| r.key.as_str()).collect();
    assert_eq!(keys, vec!["a:4:s"]);

    let whole = l.load_records(&entries);
    assert_eq!(whole.groups.len(), 2);
}

#[test]
fn loader_full_snapshot_matches_build() {
    let l = FullDataLoader::new("x".to_string());
    let s: Snapshot = l.load_records(&sample_entries());
    assert_eq!(s.groups.len(), 2);
}
