use battery_store::sample::{BatterySnapshot, BatteryState, SystemSnapshot};
use battery_store::store::{BatteryStore, FaultAction, InsertModifyed, TierFault};

fn battery(ts: i64, state: BatteryState, changed: bool) -> BatterySnapshot {
    BatterySnapshot {
        timestamp: ts,
        state,
        state_changed: changed,
        percentage: 500_000,
        energy_rate: 15_000,
        voltage: 12_300,
        state_of_health: 800 + ts,
        capacity: 45_000,
        full_capacity: 50_000,
        design_capacity: 55_000,
    }
}

fn system() -> SystemSnapshot {
    SystemSnapshot { cpu_load: 30_000, screen_brightness: 70_000 }
}

#[test]
fn seed_record_only_before_first_merge() {
    // Samples at t = 0, 1, 2 with constant state and interval_secs = 10:
    // one seed history record at t = 0, nothing merged yet.
    let mut store = BatteryStore::new(10, 0);
    for t in 0..3i64 {
        let (changed, model, _) = store.insert(&battery(t, BatteryState::Charging, false), &system());
        let m = model.unwrap();
        assert_eq!(m.timestamp, t);
        if t == 0 {
            assert_eq!(changed, vec![InsertModifyed::BatteryHistory]);
        } else {
            assert!(changed.is_empty());
        }
    }
    assert_eq!(store.raw.len(), 3);
    assert!(store.realtime.is_empty());
    assert!(store.one_minute.is_empty());
    assert_eq!(store.history.len(), 1);
    let seed = &store.history[0];
    assert_eq!(seed.timestamp, 0);
    assert_eq!(seed.state, BatteryState::Charging);
    assert_eq!(seed.prev, None);
    assert_eq!(seed.end_at, None);
}

#[test]
fn transition_closes_open_interval() {
    // Charging at t = 0, then Discharging at t = 5: two records chained at
    // the transition time.
    let mut store = BatteryStore::new(10, 0);
    store.insert(&battery(0, BatteryState::Charging, false), &system());
    let (changed, _, event) = store.insert(&battery(5, BatteryState::Discharging, true), &system());
    assert_eq!(changed, vec![InsertModifyed::BatteryHistory]);
    assert_eq!(event, Some(5));
    assert_eq!(store.history.len(), 2);
    let first = &store.history[0];
    assert_eq!(first.timestamp, 0);
    assert_eq!(first.state, BatteryState::Charging);
    assert_eq!(first.prev, None);
    assert_eq!(first.end_at, Some(5));
    let second = &store.history[1];
    assert_eq!(second.timestamp, 5);
    assert_eq!(second.state, BatteryState::Discharging);
    assert_eq!(second.prev, Some(BatteryState::Charging));
    assert_eq!(second.end_at, None);
}

#[test]
fn three_records_over_a_round_trip() {
    // States A -> B -> A over several insertions: exactly three records,
    // prev-chained, covering contiguous non-overlapping intervals.
    let mut store = BatteryStore::new(100, 0);
    store.insert(&battery(0, BatteryState::Charging, false), &system());
    store.insert(&battery(3, BatteryState::Charging, false), &system());
    store.insert(&battery(5, BatteryState::Discharging, true), &system());
    store.insert(&battery(7, BatteryState::Discharging, false), &system());
    store.insert(&battery(9, BatteryState::Charging, true), &system());
    store.insert(&battery(11, BatteryState::Charging, false), &system());
    assert_eq!(store.history.len(), 3);
    let h = &store.history;
    assert_eq!(
        (h[0].timestamp, h[0].state, h[0].prev, h[0].end_at),
        (0, BatteryState::Charging, None, Some(5)),
    );
    assert_eq!(
        (h[1].timestamp, h[1].state, h[1].prev, h[1].end_at),
        (5, BatteryState::Discharging, Some(BatteryState::Charging), Some(9)),
    );
    assert_eq!(
        (h[2].timestamp, h[2].state, h[2].prev, h[2].end_at),
        (9, BatteryState::Charging, Some(BatteryState::Discharging), None),
    );
    // Contiguity: each interval ends exactly where the next begins.
    assert_eq!(h[0].end_at, Some(h[1].timestamp));
    assert_eq!(h[1].end_at, Some(h[2].timestamp));
}

#[test]
fn merge_fills_realtime_and_one_minute_tiers() {
    // Samples every second up to t = 11; the merge at t = 11 aggregates
    // the window [1, 11) into two-second realtime buckets and the previous
    // minute into a single one-minute bucket.
    let mut store = BatteryStore::new(10, 0);
    for t in 0..=11i64 {
        store.insert(&battery(t, BatteryState::Charging, false), &system());
    }
    let keys: Vec<i64> = store.realtime.iter().map(|r| r.timestamp).collect();
    assert_eq!(keys, vec![0, 2, 4, 6, 8, 10]);
    // Bucket 2 averages the samples at t = 2 and t = 3.
    assert_eq!(store.realtime[1].state_of_health, (802 + 803) / 2);
    // Bucket 10 holds only the sample at t = 10.
    assert_eq!(store.realtime[5].state_of_health, 810);
    // One one-minute bucket at minute 0, averaging all six realtime rows.
    assert_eq!(store.one_minute.len(), 1);
    assert_eq!(store.one_minute[0].timestamp, 0);
    assert_eq!(
        store.one_minute[0].state_of_health,
        (801 + 802 + 804 + 806 + 808 + 810) / 6,
    );
    assert_eq!(store.last_save_at, 11);
}

#[test]
fn rolling_statistics_use_peak_while_charging() {
    // After the merge, the open Charging record's rolling state of health
    // is the maximum over the one-minute rows of its window.
    let mut store = BatteryStore::new(10, 0);
    for t in 0..=11i64 {
        store.insert(&battery(t, BatteryState::Charging, false), &system());
    }
    assert_eq!(store.history.len(), 1);
    let open = &store.history[0];
    assert_eq!(open.end_at, None);
    let best_minute = (801 + 802 + 804 + 806 + 808 + 810) / 6;
    assert_eq!(open.state_of_health, best_minute);
    // Instantaneous fields follow the latest snapshot.
    assert_eq!(open.percentage, 500_000);
    assert_eq!(open.capacity, 45_000);
}

#[test]
fn rolling_statistics_use_worst_case_while_discharging() {
    // Sampling every second up to t = 66 produces two one-minute buckets;
    // a Discharging record's rolling state of health is their minimum.
    let mut store = BatteryStore::new(10, 0);
    for t in 0..=66i64 {
        store.insert(&battery(t, BatteryState::Discharging, false), &system());
    }
    assert_eq!(store.one_minute.len(), 2);
    let minute0 = store.one_minute[0].state_of_health;
    let minute60 = store.one_minute[1].state_of_health;
    // State of health grows over the session, so the buckets differ.
    assert!(minute0 < minute60);
    assert_eq!(store.history.len(), 1);
    assert_eq!(store.history[0].state, BatteryState::Discharging);
    assert_eq!(store.history[0].state_of_health, minute0);
}

#[test]
fn rolling_statistics_use_the_mean_for_other_states() {
    // For a state that is neither charging, full nor discharging, the
    // rolling refresh averages the one-minute buckets.
    let mut store = BatteryStore::new(10, 0);
    for t in 0..=66i64 {
        store.insert(&battery(t, BatteryState::Unknown, false), &system());
    }
    assert_eq!(store.one_minute.len(), 2);
    let minute0 = store.one_minute[0].state_of_health;
    let minute60 = store.one_minute[1].state_of_health;
    assert_eq!(store.history.len(), 1);
    assert_eq!(store.history[0].state_of_health, (minute0 + minute60) / 2);
}

#[test]
fn cleaner_drops_expired_rows_and_keeps_recent_ones() {
    // Raw rows older than sixty seconds disappear at the next merge;
    // younger rows survive.
    let mut store = BatteryStore::new(10, 0);
    for t in 0..3i64 {
        store.insert(&battery(t, BatteryState::Charging, false), &system());
    }
    store.insert(&battery(100, BatteryState::Charging, false), &system());
    // Cutoff 100 - 60 = 40: the rows at t = 0, 1, 2 expire; t = 100 stays.
    let keys: Vec<i64> = store.raw.iter().map(|r| r.timestamp).collect();
    assert_eq!(keys, vec![100]);
}

#[test]
fn schema_fault_is_recovered_and_other_faults_propagate() {
    assert_eq!(
        BatteryStore::short_tier_fault_action(&TierFault::SchemaMissing),
        FaultAction::ResetTierAndDropSample,
    );
    assert_eq!(
        BatteryStore::short_tier_fault_action(&TierFault::Other),
        FaultAction::Propagate,
    );
    let mut store = BatteryStore::new(10, 0);
    store.insert(&battery(0, BatteryState::Charging, false), &system());
    store.reset_short_tier();
    assert!(store.raw.is_empty());
    assert_eq!(store.history.len(), 1);
}
