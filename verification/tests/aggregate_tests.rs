use battery_store::aggregate::{down_sample, DownSampleParams};
use battery_store::sample::{BatteryState, RawSample};

fn raw(id: u64, ts: i64, state: BatteryState, pct: i64, rate: i64, volt: i64) -> RawSample {
    RawSample {
        id,
        timestamp: ts,
        state,
        percentage: pct,
        energy_rate: rate,
        voltage: volt,
        cpu_load: 10,
        screen_brightness: 50,
        state_of_health: 900,
    }
}

#[test]
fn one_row_per_nonempty_bucket() {
    // Samples once per second over (0, 10]; two-second buckets.
    let mut rows = Vec::new();
    for t in 1..=10i64 {
        rows.push(raw(t as u64, t, BatteryState::Charging, 500, 20, 12));
    }
    let out = down_sample(
        &rows,
        &DownSampleParams { start_time: 1, end_time: 11, interval_secs: 2 },
    );
    // Buckets 0 (ts 1), 2, 4, 6, 8, 10: six distinct non-empty buckets.
    let keys: Vec<i64> = out.iter().map(|t| t.timestamp).collect();
    assert_eq!(keys, vec![0, 2, 4, 6, 8, 10]);
}

#[test]
fn five_buckets_over_ten_seconds() {
    // A ten-second window split into two-second buckets, every second
    // holding a sample, yields exactly five rows.
    let mut rows = Vec::new();
    for t in 0..20i64 {
        rows.push(raw(t as u64, t, BatteryState::Discharging, 700, 15, 11));
    }
    let out = down_sample(
        &rows,
        &DownSampleParams { start_time: 10, end_time: 20, interval_secs: 2 },
    );
    assert_eq!(out.len(), 5);
    let keys: Vec<i64> = out.iter().map(|t| t.timestamp).collect();
    assert_eq!(keys, vec![10, 12, 14, 16, 18]);
}

#[test]
fn numeric_fields_are_bucket_means() {
    let rows = vec![
        raw(1, 4, BatteryState::Charging, 400, 10, 12),
        raw(2, 5, BatteryState::Charging, 500, 20, 14),
        raw(3, 5, BatteryState::Charging, 900, 60, 22),
    ];
    let out = down_sample(
        &rows,
        &DownSampleParams { start_time: 0, end_time: 10, interval_secs: 10 },
    );
    assert_eq!(out.len(), 1);
    let row = &out[0];
    assert_eq!(row.timestamp, 0);
    assert_eq!(row.percentage, (400 + 500 + 900) / 3);
    assert_eq!(row.energy_rate, (10 + 20 + 60) / 3);
    assert_eq!(row.voltage, (12 + 14 + 22) / 3);
    assert_eq!(row.cpu_load, 10);
    assert_eq!(row.screen_brightness, 50);
    assert_eq!(row.state_of_health, 900);
}

#[test]
fn state_is_last_observed_in_bucket() {
    let rows = vec![
        raw(1, 2, BatteryState::Charging, 500, 20, 12),
        raw(2, 7, BatteryState::Discharging, 480, 18, 12),
        raw(3, 5, BatteryState::Full, 490, 19, 12),
    ];
    let out = down_sample(
        &rows,
        &DownSampleParams { start_time: 0, end_time: 10, interval_secs: 10 },
    );
    assert_eq!(out.len(), 1);
    // The row with the maximum timestamp (7) decides the state.
    assert_eq!(out[0].state, BatteryState::Discharging);
}

#[test]
fn equal_timestamps_tie_break_by_highest_id() {
    let rows = vec![
        raw(5, 9, BatteryState::Charging, 500, 20, 12),
        raw(7, 9, BatteryState::Empty, 480, 18, 12),
        raw(6, 9, BatteryState::Full, 490, 19, 12),
    ];
    let out = down_sample(
        &rows,
        &DownSampleParams { start_time: 0, end_time: 10, interval_secs: 10 },
    );
    assert_eq!(out.len(), 1);
    // Three rows share timestamp 9; the highest ingestion id (7) wins.
    assert_eq!(out[0].state, BatteryState::Empty);
}

#[test]
fn empty_window_yields_no_rows() {
    let rows = vec![raw(1, 50, BatteryState::Charging, 500, 20, 12)];
    let out = down_sample(
        &rows,
        &DownSampleParams { start_time: 0, end_time: 10, interval_secs: 2 },
    );
    assert!(out.is_empty());
    let out = down_sample(
        &Vec::new(),
        &DownSampleParams { start_time: 0, end_time: 10, interval_secs: 2 },
    );
    assert!(out.is_empty());
}

#[test]
fn window_excludes_end_and_includes_start() {
    let rows = vec![
        raw(1, 10, BatteryState::Charging, 500, 20, 12),
        raw(2, 19, BatteryState::Charging, 500, 20, 12),
        raw(3, 20, BatteryState::Charging, 500, 20, 12),
    ];
    let out = down_sample(
        &rows,
        &DownSampleParams { start_time: 10, end_time: 20, interval_secs: 2 },
    );
    let keys: Vec<i64> = out.iter().map(|t| t.timestamp).collect();
    // ts 10 and 19 are in [10, 20); ts 20 is not.
    assert_eq!(keys, vec![10, 18]);
}
