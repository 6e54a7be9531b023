use rocksdb_viewer::app::App;
use rocksdb_viewer::data::{build_snapshot, RawEntry};
use rocksdb_viewer::view::{total_pages_for, visible_pages, column_widths};

fn entry(key: &str, value: &[u8]) -> RawEntry {
    (key.to_string(), value.to_vec())
}

fn app_with(entries: Vec<RawEntry>) -> App {
    let mut app = App::new();
    app.sync_snapshot(Some(build_snapshot(&entries)));
    app
}

#[test]
fn filtering_by_key_substring() {
    // two types: a with 3 records, b with 1
    let mut app = app_with(vec![
        entry("a:3:alpha", b"{}"),
        entry("a:2:beta", b"{}"),
        entry("a:1:gamma", b"{}"),
        entry("b:1:delta", b"{}"),
    ]);
    app.input = "beta".to_string();
    let rows = app.get_filtered_records(&"a".to_string());
    assert_eq!(rows.len(), 1);
    assert_eq!(rows[0].key, "a:2:beta");
    assert_eq!(app.get_total_pages(&"a".to_string(), 10), 1);
}

#[test]
fn absent_type_yields_empty_view_and_one_page() {
    let app = app_with(vec![entry("a:1:x", b"{}")]);
    let rows = app.get_filtered_records(&"nothere".to_string());
    assert_eq!(rows.len(), 0);
    assert_eq!(app.get_total_pages(&"nothere".to_string(), 10), 1);
}

#[test]
fn numeric_sort_ascending_and_descending() {
    let mut app = app_with(vec![
        entry("a:1:p", b"{\"n\":\"9\"}"),
        entry("a:2:q", b"{\"n\":\"10\"}"),
        entry("a:3:r", b"{\"n\":\"2\"}"),
    ]);
    // headers are [key, n]; sort by column 1
    app.sort_column = Some(1);
    app.sort_ascending = true;
    let up = app.get_filtered_records(&"a".to_string());
    let ns: Vec<String> = up
        .iter()
        .map(|r| r.to_table_row(&vec!["key".to_string(), "n".to_string()])[1].clone())
        .collect();
    assert_eq!(ns, vec!["2", "9", "10"]);
    app.sort_ascending = false;
    let down = app.get_filtered_records(&"a".to_string());
    let ns: Vec<String> = down
        .iter()
        .map(|r| r.to_table_row(&vec!["key".to_string(), "n".to_string()])[1].clone())
        .collect();
    assert_eq!(ns, vec!["10", "9", "2"]);
}

#[test]
fn non_numeric_sort_is_lexicographic() {
    let mut app = app_with(vec![
        entry("a:1:p", b"{\"n\":\"pear\"}"),
        entry("a:2:q", b"{\"n\":\"apple\"}"),
        entry("a:3:r", b"{\"n\":\"plum\"}"),
    ]);
    app.sort_column = Some(1);
    app.sort_ascending = true;
    let rows = app.get_filtered_records(&"a".to_string());
    let ns: Vec<String> = rows
        .iter()
        .map(|r| r.to_table_row(&vec!["key".to_string(), "n".to_string()])[1].clone())
        .collect();
    assert_eq!(ns, vec!["apple", "pear", "plum"]);
}

#[test]
fn sort_by_key_column_zero() {
    let mut app = app_with(vec![
        entry("a:1:bb", b"{}"),
        entry("a:2:aa", b"{}"),
    ]);
    app.sort_column = Some(0);
    app.sort_ascending = true;
    let rows = app.get_filtered_records(&"a".to_string());
    assert_eq!(rows[0].key, "a:1:bb");
    assert_eq!(rows[1].key, "a:2:aa");
}

#[test]
fn page_count_formula() {
    assert_eq!(total_pages_for(0, 5), 1);
    assert_eq!(total_pages_for(1, 5), 1);
    assert_eq!(total_pages_for(5, 5), 1);
    assert_eq!(total_pages_for(6, 5), 2);
    assert_eq!(total_pages_for(11, 5), 3);
    // a zero page height counts as one row per page
    assert_eq!(total_pages_for(3, 0), 3);
}

#[test]
fn page_index_compression_middle() {
    let pages = visible_pages(10, 20);
    assert!(pages.contains(&0));
    assert!(pages.contains(&19));
    for p in 7..=13 {
        assert!(pages.contains(&p));
    }
    assert!(!pages.contains(&5));
    assert!(!pages.contains(&15));
}

#[test]
fn page_index_compression_small() {
    assert_eq!(visible_pages(0, 3), vec![0, 1, 2]);
    assert_eq!(visible_pages(2, 3), vec![0, 1, 2]);
    assert_eq!(visible_pages(0, 0), Vec::<usize>::new());
}

#[test]
fn page_index_compression_edges() {
    // near the start: the first six pages show
    let pages = visible_pages(1, 20);
    for p in 0..=5 {
        assert!(pages.contains(&p));
    }
    assert!(pages.contains(&19));
    // near the end: the last six pages show
    let pages = visible_pages(18, 20);
    for p in 14..=19 {
        assert!(pages.contains(&p));
    }
    assert!(pages.contains(&0));
    // ascending
    for w in pages.windows(2) {
        assert!(w[0] < w[1]);
    }
}

#[test]
fn widths_fit_when_small() {
    // headers "key" (len 3 + 1) and "a" (len 1 + 1), no records
    let headers = vec!["key".to_string(), "a".to_string()];
    let w = column_widths(&headers, &Vec::new(), None, 100);
    assert_eq!(w, vec![4, 2]);
}

#[test]
fn widths_grow_to_cells_capped_at_fifty() {
    let headers = vec!["key".to_string(), "f".to_string()];
    let long = "x".repeat(80);
    let value = format!("{{\"f\":\"{}\"}}", long).into_bytes();
    let entries = vec![entry("a:1:k", value.as_slice())];
    let snap = build_snapshot(&entries);
    let w = column_widths(&headers, &snap.groups[0].records, None, 200);
    assert_eq!(w[1], 50);
}

#[test]
fn widths_distribute_proportionally_with_floors() {
    let headers = vec!["key".to_string(), "a".to_string()];
    let w = column_widths(&headers, &Vec::new(), None, 5);
    // seeded widths [4, 2] do not fit in 5: proportional shares with
    // floors 24 (key column) and 14
    assert_eq!(w[0], 24);
    assert_eq!(w[1], 14);
}

#[test]
fn widths_reserve_arrow_space_on_sort_column() {
    let headers = vec!["key".to_string(), "a".to_string()];
    let w = column_widths(&headers, &Vec::new(), Some(0), 100);
    assert_eq!(w, vec![7, 2]);
}

#[test]
fn calculate_column_widths_for_absent_type() {
    let app = app_with(vec![entry("a:1:x", b"{}")]);
    assert_eq!(app.calculate_column_widths(&"none".to_string(), 42), vec![42]);
}

#[test]
fn page_rows_slices_current_page() {
    let mut app = app_with(vec![
        entry("a:5:v", b"{\"f\":\"5\"}"),
        entry("a:4:w", b"{\"f\":\"4\"}"),
        entry("a:3:x", b"{\"f\":\"3\"}"),
        entry("a:2:y", b"{\"f\":\"2\"}"),
        entry("a:1:z", b"{\"f\":\"1\"}"),
    ]);
    app.set_rows_per_page(2);
    app.selected_table = Some("a".to_string());
    app.selected_row = Some(0);
    let rows = app.page_rows();
    assert_eq!(rows.len(), 2);
    assert_eq!(rows[0], vec!["a:5:v", "5"]);
    assert_eq!(rows[1], vec!["a:4:w", "4"]);
    app.page_right();
    let rows = app.page_rows();
    assert_eq!(rows.len(), 2);
    assert_eq!(rows[0], vec!["a:3:x", "3"]);
    app.page_right();
    let rows = app.page_rows();
    assert_eq!(rows.len(), 1);
    assert_eq!(rows[0], vec!["a:1:z", "1"]);
}
