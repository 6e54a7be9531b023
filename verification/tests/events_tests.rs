use rocksdb_viewer::app::{App, Focus};
use rocksdb_viewer::data::{build_snapshot, RawEntry};
use rocksdb_viewer::events::{AppEvent, Effect};

fn entry(key: &str, value: &[u8]) -> RawEntry {
    (key.to_string(), value.to_vec())
}

fn app_with(entries: Vec<RawEntry>) -> App {
    let mut app = App::new();
    app.sync_snapshot(Some(build_snapshot(&entries)));
    app
}

fn select_first_type(app: &mut App) {
    // from the initial TypeSelection focus, commit the highlighted type
    app.handle_event(&AppEvent::Confirm, 0);
}

#[test]
fn confirm_selects_highlighted_type() {
    let mut app = app_with(vec![entry("a:1:x", b"{}"), entry("b:1:y", b"{}")]);
    assert_eq!(app.focus, Focus::TableSelect);
    app.handle_event(&AppEvent::MoveDown, 0);
    assert_eq!(app.table_select_index, 1);
    app.handle_event(&AppEvent::Confirm, 0);
    assert_eq!(app.focus, Focus::Table);
    assert_eq!(app.selected_table.as_deref(), Some("b"));
    assert_eq!(app.selected_row, Some(0));
    assert_eq!(app.current_page, 0);
    assert!(app.sort_column.is_none());
}

#[test]
fn cancel_returns_to_type_selection() {
    let mut app = app_with(vec![entry("a:1:x", b"{}")]);
    select_first_type(&mut app);
    assert_eq!(app.focus, Focus::Table);
    app.handle_event(&AppEvent::Cancel, 0);
    assert_eq!(app.focus, Focus::TableSelect);
    assert!(app.selected_table.is_none());
    assert!(app.selected_row.is_none());
    assert_eq!(app.current_page, 0);
}

#[test]
fn focus_cycles_forward() {
    let mut app = app_with(vec![entry("a:1:x", b"{}")]);
    select_first_type(&mut app);
    app.handle_event(&AppEvent::SwitchForward, 0);
    assert_eq!(app.focus, Focus::Pages);
    app.handle_event(&AppEvent::SwitchForward, 0);
    assert_eq!(app.focus, Focus::Input);
    // with a type selected, forward from the filter goes to the table
    app.handle_event(&AppEvent::SwitchForward, 0);
    assert_eq!(app.focus, Focus::Table);
}

#[test]
fn backward_steps_to_previous_type() {
    let mut app = app_with(vec![entry("a:1:x", b"{}"), entry("b:1:y", b"{}")]);
    app.handle_event(&AppEvent::MoveDown, 0);
    app.handle_event(&AppEvent::Confirm, 0);
    assert_eq!(app.selected_table.as_deref(), Some("b"));
    app.handle_event(&AppEvent::SwitchBackward, 0);
    assert_eq!(app.selected_table.as_deref(), Some("a"));
    // at the first type, backward falls through to the filter
    app.handle_event(&AppEvent::SwitchBackward, 0);
    assert_eq!(app.focus, Focus::Input);
}

#[test]
fn backward_falls_to_filter_when_type_not_offered() {
    let mut app = app_with(vec![entry("alpha:1:x", b"{}"), entry("beta:1:y", b"{}")]);
    app.handle_event(&AppEvent::Confirm, 0);
    assert_eq!(app.selected_table.as_deref(), Some("alpha"));
    // narrow the offered type list so the selected type is no longer in it
    app.handle_event(&AppEvent::FocusInput, 0);
    for c in "beta".chars() {
        app.handle_event(&AppEvent::InputChar(c), 0);
    }
    app.handle_event(&AppEvent::SwitchForward, 0); // back to the table
    assert_eq!(app.focus, Focus::Table);
    app.handle_event(&AppEvent::SwitchBackward, 0);
    assert_eq!(app.focus, Focus::Input);
    // the selection itself is untouched by the fall-through
    assert_eq!(app.selected_table.as_deref(), Some("alpha"));
}

#[test]
fn type_highlight_stops_at_the_last_type() {
    let mut app = app_with(vec![entry("a:1:x", b"{}"), entry("b:1:y", b"{}")]);
    app.handle_event(&AppEvent::MoveDown, 0);
    assert_eq!(app.table_select_index, 1);
    app.handle_event(&AppEvent::MoveDown, 0);
    assert_eq!(app.table_select_index, 1);
    app.handle_event(&AppEvent::MoveUp, 0);
    app.handle_event(&AppEvent::MoveUp, 0);
    assert_eq!(app.table_select_index, 0);
}

#[test]
fn rows_and_pages_follow_each_other() {
    let mut app = app_with(vec![
        entry("a:5:v", b"{}"),
        entry("a:4:w", b"{}"),
        entry("a:3:x", b"{}"),
        entry("a:2:y", b"{}"),
        entry("a:1:z", b"{}"),
    ]);
    app.set_rows_per_page(2);
    select_first_type(&mut app);
    assert_eq!(app.selected_row, Some(0));
    for _ in 0..3 {
        app.handle_event(&AppEvent::MoveDown, 0);
    }
    assert_eq!(app.selected_row, Some(3));
    assert_eq!(app.current_page, 1);
    app.handle_event(&AppEvent::MoveDown, 0);
    assert_eq!(app.selected_row, Some(4));
    assert_eq!(app.current_page, 2);
    // at the last row, down does nothing
    app.handle_event(&AppEvent::MoveDown, 0);
    assert_eq!(app.selected_row, Some(4));
    app.handle_event(&AppEvent::MoveUp, 0);
    assert_eq!(app.selected_row, Some(3));
    assert_eq!(app.current_page, 1);
}

#[test]
fn paging_snaps_selection_and_stays_in_bounds() {
    let mut app = app_with(vec![
        entry("a:5:v", b"{}"),
        entry("a:4:w", b"{}"),
        entry("a:3:x", b"{}"),
        entry("a:2:y", b"{}"),
        entry("a:1:z", b"{}"),
    ]);
    app.set_rows_per_page(2);
    select_first_type(&mut app);
    app.handle_event(&AppEvent::PageRight, 0);
    assert_eq!(app.current_page, 1);
    assert_eq!(app.selected_row, Some(2));
    app.handle_event(&AppEvent::PageRight, 0);
    assert_eq!(app.current_page, 2);
    assert_eq!(app.selected_row, Some(4));
    // already on the last page: no movement past the bound
    app.handle_event(&AppEvent::PageRight, 0);
    assert_eq!(app.current_page, 2);
    app.handle_event(&AppEvent::PageLeft, 0);
    assert_eq!(app.current_page, 1);
    assert_eq!(app.selected_row, Some(2));
}

#[test]
fn page_select_jumps_and_focuses_pager() {
    let mut app = app_with(vec![
        entry("a:4:w", b"{}"),
        entry("a:3:x", b"{}"),
        entry("a:2:y", b"{}"),
        entry("a:1:z", b"{}"),
    ]);
    app.set_rows_per_page(2);
    select_first_type(&mut app);
    app.handle_event(&AppEvent::PageSelect(1), 0);
    assert_eq!(app.current_page, 1);
    assert_eq!(app.focus, Focus::Pages);
    assert_eq!(app.selected_row, Some(2));
    // an out-of-range page is ignored
    app.handle_event(&AppEvent::PageSelect(9), 0);
    assert_eq!(app.current_page, 1);
}

#[test]
fn sort_toggle_sets_then_flips() {
    let mut app = app_with(vec![entry("a:1:x", b"{\"n\":\"1\"}"), entry("a:2:y", b"{\"n\":\"2\"}")]);
    select_first_type(&mut app);
    app.handle_event(&AppEvent::SortToggle(1), 0);
    assert_eq!(app.sort_column, Some(1));
    assert!(app.sort_ascending);
    assert_eq!(app.selected_row, Some(0));
    assert_eq!(app.current_page, 0);
    app.handle_event(&AppEvent::SortToggle(1), 0);
    assert!(!app.sort_ascending);
    app.handle_event(&AppEvent::SortToggle(0), 0);
    assert_eq!(app.sort_column, Some(0));
    assert!(app.sort_ascending);
}

#[test]
fn typing_filters_and_reclamps() {
    let mut app = app_with(vec![
        entry("a:3:alpha", b"{}"),
        entry("a:2:beta", b"{}"),
        entry("a:1:gamma", b"{}"),
    ]);
    select_first_type(&mut app);
    app.handle_event(&AppEvent::MoveDown, 0);
    app.handle_event(&AppEvent::MoveDown, 0);
    assert_eq!(app.selected_row, Some(2));
    // focus the filter and narrow to one row: selection re-clamps
    app.handle_event(&AppEvent::SwitchForward, 0); // Table -> Pages
    app.handle_event(&AppEvent::SwitchForward, 0); // Pages -> Input
    for c in "beta".chars() {
        app.handle_event(&AppEvent::InputChar(c), 0);
    }
    assert_eq!(app.input, "beta");
    assert_eq!(app.selected_row, Some(0));
    // widen again
    app.handle_event(&AppEvent::Backspace, 0);
    assert_eq!(app.input, "bet");
    // no match at all clears the selection
    for c in "xxx".chars() {
        app.handle_event(&AppEvent::InputChar(c), 0);
    }
    assert!(app.selected_row.is_none());
    assert_eq!(app.current_page, 0);
}

#[test]
fn inspect_opens_modal_with_hex() {
    let mut app = app_with(vec![entry("a:1:x", b"\x0f\xa0")]);
    select_first_type(&mut app);
    app.handle_event(&AppEvent::Inspect, 0);
    let modal = app.show_raw_data.clone().expect("modal open");
    assert_eq!(modal, "raw data for a:1:x:\n0f a0");
}

#[test]
fn modal_swallows_everything_but_quit_and_close() {
    let mut app = app_with(vec![entry("a:1:x", b"{}"), entry("a:2:y", b"{}")]);
    select_first_type(&mut app);
    app.handle_event(&AppEvent::Inspect, 0);
    assert!(app.show_raw_data.is_some());
    // swallowed: no selection movement while the modal is open
    app.handle_event(&AppEvent::MoveDown, 0);
    assert_eq!(app.selected_row, Some(0));
    assert!(app.show_raw_data.is_some());
    // Cancel closes the modal and nothing else changes
    app.handle_event(&AppEvent::Cancel, 0);
    assert!(app.show_raw_data.is_none());
    assert_eq!(app.focus, Focus::Table);
    // ForceQuit works inside the modal too
    app.handle_event(&AppEvent::Inspect, 0);
    app.handle_event(&AppEvent::ForceQuit, 0);
    assert!(app.should_quit);
}

#[test]
fn double_activation_within_window_opens_modal() {
    let mut app = app_with(vec![entry("a:1:x", b"\xff"), entry("a:2:y", b"{}")]);
    select_first_type(&mut app);
    app.handle_event(&AppEvent::Activate(0), 1000);
    assert!(app.show_raw_data.is_none());
    assert_eq!(app.selected_row, Some(0));
    app.handle_event(&AppEvent::Activate(0), 1400);
    let modal = app.show_raw_data.clone().expect("double activation inspects");
    assert_eq!(modal, "raw data for a:2:y:\n7b 7d");
    assert!(app.last_click.is_none());
}

#[test]
fn slow_activations_are_two_selections() {
    let mut app = app_with(vec![entry("a:1:x", b"\xff"), entry("a:2:y", b"{}")]);
    select_first_type(&mut app);
    app.handle_event(&AppEvent::Activate(0), 1000);
    app.handle_event(&AppEvent::Activate(0), 1600);
    assert!(app.show_raw_data.is_none());
    assert_eq!(app.selected_row, Some(0));
    let (t, _, r) = app.last_click.clone().expect("second activation remembered");
    assert_eq!(t, 1600);
    assert_eq!(r, 0);
}

#[test]
fn delete_flow_requests_key_and_applies_result() {
    let mut app = app_with(vec![entry("a:2:x", b"{}"), entry("a:1:y", b"{}")]);
    select_first_type(&mut app);
    let eff = app.handle_event(&AppEvent::DeleteRequest, 0);
    let key = match eff {
        Effect::DeleteKey(k) => k,
        Effect::Nothing => panic!("a valid selection requests a deletion"),
    };
    assert_eq!(key, "a:2:x");
    app.apply_delete_result(&key, None);
    assert_eq!(app.show_raw_data.as_deref(), Some("Successfully deleted key: a:2:x"));
    // the record is gone from the held snapshot and selection re-clamped
    assert_eq!(app.get_filtered_records(&"a".to_string()).len(), 1);
    assert_eq!(app.selected_row, Some(0));
    assert_eq!(app.selected_table.as_deref(), Some("a"));
}

#[test]
fn deleting_the_only_record_clears_selection() {
    let mut app = app_with(vec![entry("a:1:only", b"{}")]);
    select_first_type(&mut app);
    let eff = app.handle_event(&AppEvent::DeleteRequest, 0);
    let key = match eff {
        Effect::DeleteKey(k) => k,
        Effect::Nothing => panic!("a valid selection requests a deletion"),
    };
    app.apply_delete_result(&key, None);
    assert!(app.selected_table.is_none());
    assert!(app.selected_row.is_none());
    assert_eq!(app.current_page, 0);
}

#[test]
fn failed_delete_leaves_snapshot_and_reports() {
    let mut app = app_with(vec![entry("a:1:only", b"{}")]);
    select_first_type(&mut app);
    let err = "store is read-only".to_string();
    app.apply_delete_result(&"a:1:only".to_string(), Some(&err));
    assert_eq!(
        app.show_raw_data.as_deref(),
        Some("Error deleting key a:1:only: store is read-only")
    );
    assert_eq!(app.get_filtered_records(&"a".to_string()).len(), 1);
    assert_eq!(app.selected_table.as_deref(), Some("a"));
}

#[test]
fn snapshot_replacement_reclamps_selection() {
    let mut app = app_with(vec![
        entry("a:3:x", b"{}"),
        entry("a:2:y", b"{}"),
        entry("a:1:z", b"{}"),
    ]);
    select_first_type(&mut app);
    app.handle_event(&AppEvent::MoveDown, 0);
    app.handle_event(&AppEvent::MoveDown, 0);
    assert_eq!(app.selected_row, Some(2));
    // a fresh snapshot with fewer records arrives
    let updated = app.sync_snapshot(Some(build_snapshot(&vec![entry("a:3:x", b"{}")])));
    assert!(updated);
    assert_eq!(app.selected_row, Some(0));
    assert!(!app.sync_snapshot(None));
}

#[test]
fn pointer_type_selection() {
    let mut app = app_with(vec![entry("a:1:x", b"{}"), entry("b:1:y", b"{}")]);
    app.handle_event(&AppEvent::SelectTypeAt(1), 0);
    assert_eq!(app.selected_table.as_deref(), Some("b"));
    assert_eq!(app.focus, Focus::Table);
    assert_eq!(app.table_select_index, 1);
    // an out-of-range row is ignored
    app.handle_event(&AppEvent::Cancel, 0);
    app.handle_event(&AppEvent::SelectTypeAt(7), 0);
    assert!(app.selected_table.is_none());
}

#[test]
fn visible_types_follow_filter() {
    let mut app = app_with(vec![entry("alpha:1:x", b"{}"), entry("beta:1:y", b"{}")]);
    assert_eq!(app.visible_types(), vec!["alpha", "beta"]);
    app.handle_event(&AppEvent::FocusInput, 0);
    app.handle_event(&AppEvent::InputChar('b'), 0);
    assert_eq!(app.visible_types(), vec!["beta"]);
}

#[test]
fn force_quit_sets_flag() {
    let mut app = app_with(vec![]);
    app.handle_event(&AppEvent::ForceQuit, 0);
    assert!(app.should_quit);
}
