use battery_store::manager::Manager;
use battery_store::sample::{BatterySnapshot, BatteryState, SystemSnapshot};

fn battery(ts: i64, state: BatteryState, changed: bool, pct: i64, soh: i64, cap: i64) -> BatterySnapshot {
    BatterySnapshot {
        timestamp: ts,
        state,
        state_changed: changed,
        percentage: pct,
        energy_rate: 15_000,
        voltage: 12_300,
        state_of_health: soh,
        capacity: cap,
        full_capacity: 50_000,
        design_capacity: 55_000,
    }
}

fn system() -> SystemSnapshot {
    SystemSnapshot { cpu_load: 30_000, screen_brightness: 70_000 }
}

/// A manager whose history holds four closed-or-open intervals starting at
/// t = 0, 10, 20, 30.
fn manager_with_four_records() -> Manager {
    let mut m = Manager::build(1_000, 0);
    m.insert_battery(&battery(0, BatteryState::Charging, false, 900, 800, 40_000), &system());
    m.insert_battery(&battery(10, BatteryState::Discharging, true, 850, 790, 39_000), &system());
    m.insert_battery(&battery(20, BatteryState::Charging, true, 700, 780, 38_000), &system());
    m.insert_battery(&battery(30, BatteryState::Full, true, 1_000, 810, 41_000), &system());
    m
}

#[test]
fn pages_are_descending_and_deltas_span_page_boundaries() {
    let m = manager_with_four_records();
    let full = m.select_history_page(None, 10, 0, 100);
    assert_eq!(full.len(), 4);
    let keys: Vec<i64> = full.iter().map(|r| r.timestamp).collect();
    assert_eq!(keys, vec![30, 20, 10, 0]);
    // The oldest record of the filtered set has null deltas.
    let oldest = &full[3];
    assert_eq!(oldest.timestamp_diff, None);
    assert_eq!(oldest.prev_timestamp, None);
    assert_eq!(oldest.state_of_health_diff, None);
    assert_eq!(oldest.percentage_diff, None);
    assert_eq!(oldest.capacity_diff, None);
    // Every other row carries deltas against its chronological predecessor.
    let newest = &full[0];
    assert_eq!(newest.prev_timestamp, Some(20));
    assert_eq!(newest.timestamp_diff, Some(10));
    assert_eq!(newest.state_of_health_diff, Some(810 - 780));
    // Closing a record refreshes its instantaneous fields from the same
    // snapshot that opens the next one, so those deltas vanish.
    assert_eq!(newest.percentage_diff, Some(0));
    assert_eq!(newest.capacity_diff, Some(0));
}

#[test]
fn concatenated_pages_reproduce_the_full_sequence() {
    let m = manager_with_four_records();
    let full = m.select_history_page(None, 10, 0, 100);
    let mut paged = Vec::new();
    let mut cursor = None;
    loop {
        let page = m.select_history_page(cursor, 2, 0, 100);
        if page.is_empty() {
            break;
        }
        cursor = Some(page[page.len() - 1].timestamp);
        paged.extend(page);
    }
    assert_eq!(paged, full);
}

#[test]
fn empty_history_yields_an_empty_page() {
    let m = Manager::build(10, 0);
    let page = m.select_history_page(None, 10, 0, 100);
    assert!(page.is_empty());
}

#[test]
fn zero_size_yields_an_empty_page() {
    let m = manager_with_four_records();
    let page = m.select_history_page(None, 0, 0, 100);
    assert!(page.is_empty());
}

#[test]
fn cursor_and_window_filter_records() {
    let m = manager_with_four_records();
    // The cursor is exclusive.
    let page = m.select_history_page(Some(20), 10, 0, 100);
    let keys: Vec<i64> = page.iter().map(|r| r.timestamp).collect();
    assert_eq!(keys, vec![10, 0]);
    // The window is inclusive at both ends, but the default cursor makes
    // the upper end exclusive on the first page.
    let page = m.select_history_page(None, 10, 10, 30);
    let keys: Vec<i64> = page.iter().map(|r| r.timestamp).collect();
    assert_eq!(keys, vec![20, 10]);
    let page = m.select_history_page(Some(31), 10, 10, 30);
    let keys: Vec<i64> = page.iter().map(|r| r.timestamp).collect();
    assert_eq!(keys, vec![30, 20, 10]);
}

#[test]
fn page_rows_carry_record_fields() {
    let mut m = manager_with_four_records();
    let page = m.select_history_page(None, 1, 0, 100);
    assert_eq!(page.len(), 1);
    let row = &page[0];
    assert_eq!(row.timestamp, 30);
    assert_eq!(row.state, BatteryState::Full);
    assert_eq!(row.prev, Some(BatteryState::Charging));
    assert_eq!(row.end_at, None);
    assert_eq!(row.percentage, 1_000);
    assert_eq!(row.capacity, 41_000);
    assert_eq!(row.full_capacity, 50_000);
    assert_eq!(row.design_capacity, 55_000);
    m.close();
}
