//! The state-history tracker: open/closed battery-state intervals with
//! rolling statistics.
//!
//! At any time at most one record is open (`end_at == None`); it is always
//! the most recent one. A state transition refreshes the open record's
//! rolling statistics one last time, closes it at the transition time, and
//! opens a new record whose `prev` is the closed record's state, so the
//! records chain into contiguous, non-overlapping intervals.
use vstd::prelude::*;

use crate::sample::{
    tier_metric, tier_rows_wf, BatterySnapshot, BatteryState, Metric, StateHistoryRecord,
    SystemSnapshot, TierSample, METRIC_MAX,
};
use crate::stats::{
    lemma_max_push, lemma_min_push, lemma_sum_push, max_of, mean_of, min_of, sum_of,
};

verus! {

/// A rolling-statistics window never reaches further back than this many
/// seconds before the refresh time.
pub const ROLLING_WINDOW_MAX_SECS: i64 = 604_800;

/// Well-formedness of the history table: records strictly ascending by
/// start time, chained into contiguous intervals (each record ends exactly
/// where the next begins and knows its predecessor's state), with the last
/// record open and every other record closed.
pub open spec fn history_wf(h: Seq<StateHistoryRecord>) -> bool {
    &&& forall|i: int, j: int|
        0 <= i < j < h.len() ==> #[trigger] h[i].timestamp < #[trigger] h[j].timestamp
    &&& forall|i: int| 0 <= i < h.len() ==> (#[trigger] h[i]).wf()
    &&& forall|i: int|
        0 <= i < h.len() - 1 ==> (#[trigger] h[i].end_at) == Some(h[i + 1].timestamp)
    &&& forall|i: int| 0 <= i < h.len() - 1 ==> (#[trigger] h[i + 1].prev) == Some(h[i].state)
    &&& h.len() > 0 ==> h.last().end_at is None
    &&& h.len() > 0 ==> h[0].prev is None
}

/// The record opened at `battery.timestamp` from the instantaneous values
/// of a snapshot pair.
pub open spec fn open_record(
    battery: BatterySnapshot,
    system: SystemSnapshot,
    prev: Option<BatteryState>,
) -> StateHistoryRecord {
    StateHistoryRecord {
        timestamp: battery.timestamp,
        state: battery.state,
        prev,
        end_at: None,
        capacity: battery.capacity,
        full_capacity: battery.full_capacity,
        design_capacity: battery.design_capacity,
        percentage: battery.percentage,
        state_of_health: battery.state_of_health,
        energy_rate: battery.energy_rate,
        voltage: battery.voltage,
        cpu_load: system.cpu_load,
        screen_brightness: system.screen_brightness,
    }
}

/// The metric column `m` of a sequence of tier rows.
pub open spec fn metric_seq_tier(w: Seq<TierSample>, m: Metric) -> Seq<int> {
    w.map_values(|t: TierSample| tier_metric(t, m))
}

/// The one-minute rows with `lo <= timestamp <= hi`, in order.
pub open spec fn window_rows_tier(om: Seq<TierSample>, lo: int, hi: int) -> Seq<TierSample>
    decreases om.len(),
{
    if om.len() == 0 {
        Seq::empty()
    } else {
        let rest = window_rows_tier(om.drop_last(), lo, hi);
        if lo <= om.last().timestamp as int <= hi {
            rest.push(om.last())
        } else {
            rest
        }
    }
}

/// Start of the rolling window of a record refreshed at `now`: the record's
/// own start, clamped to at most `ROLLING_WINDOW_MAX_SECS` in the past.
pub open spec fn clamped_start(rec_ts: int, now: int) -> int {
    if rec_ts < now - ROLLING_WINDOW_MAX_SECS as int {
        now - ROLLING_WINDOW_MAX_SECS as int
    } else {
        rec_ts
    }
}

/// The refreshed value of one rolling metric: over a non-empty window the
/// aggregate depends on the record's state (peaks while charging or full,
/// worst case while discharging, the mean otherwise); an empty window
/// leaves the old value in place.
pub open spec fn rolling_value(state: BatteryState, w: Seq<TierSample>, m: Metric, old_v: int) -> int {
    if w.len() == 0 {
        old_v
    } else {
        match state {
            BatteryState::Charging => max_of(metric_seq_tier(w, m)),
            BatteryState::Full => max_of(metric_seq_tier(w, m)),
            BatteryState::Discharging => min_of(metric_seq_tier(w, m)),
            _ => mean_of(metric_seq_tier(w, m)),
        }
    }
}

/// A record after a rolling refresh at `now`: the five rolling metrics are
/// recomputed from the one-minute rows between the clamped interval start
/// and `now`, the instantaneous fields are taken from the snapshot, and
/// `end_at` is set to the given value (`Some` closes the record).
#[verifier::opaque]
pub open spec fn refreshed_record(
    rec: StateHistoryRecord,
    om: Seq<TierSample>,
    battery: BatterySnapshot,
    now: int,
    end_at: Option<i64>,
) -> StateHistoryRecord {
    let w = window_rows_tier(om, clamped_start(rec.timestamp as int, now), now);
    StateHistoryRecord {
        capacity: battery.capacity,
        full_capacity: battery.full_capacity,
        design_capacity: battery.design_capacity,
        percentage: battery.percentage,
        state_of_health: rolling_value(rec.state, w, Metric::StateOfHealth, rec.state_of_health as int) as i64,
        energy_rate: rolling_value(rec.state, w, Metric::EnergyRate, rec.energy_rate as int) as i64,
        voltage: rolling_value(rec.state, w, Metric::Voltage, rec.voltage as int) as i64,
        cpu_load: rolling_value(rec.state, w, Metric::CpuLoad, rec.cpu_load as int) as i64,
        screen_brightness: rolling_value(rec.state, w, Metric::ScreenBrightness, rec.screen_brightness as int) as i64,
        end_at,
        ..rec
    }
}

/// Whether delivering this snapshot creates a new history record: always on
/// a state transition, and once on the very first snapshot (the seed).
pub open spec fn observe_inserts(h: Seq<StateHistoryRecord>, battery: BatterySnapshot) -> bool {
    battery.state_changed || h.len() == 0
}

/// The history after one snapshot is delivered: seed on a cold start, close
/// the open record and open a successor on a transition, unchanged
/// otherwise.
pub open spec fn history_after_observe(
    h: Seq<StateHistoryRecord>,
    om: Seq<TierSample>,
    battery: BatterySnapshot,
    system: SystemSnapshot,
) -> Seq<StateHistoryRecord> {
    if h.len() == 0 {
        seq![open_record(battery, system, None)]
    } else if !battery.state_changed {
        h
    } else {
        let closed = refreshed_record(
            h.last(),
            om,
            battery,
            battery.timestamp as int,
            Some(battery.timestamp),
        );
        h.update(h.len() - 1, closed).push(open_record(battery, system, Some(h.last().state)))
    }
}

/// A snapshot creates exactly one record on a cold start or a transition
/// and none otherwise, so a session spanning the transitions A to B to A
/// ends with exactly three records.
pub proof fn lemma_observe_growth(
    h: Seq<StateHistoryRecord>,
    om: Seq<TierSample>,
    battery: BatterySnapshot,
    system: SystemSnapshot,
)
    ensures
        history_after_observe(h, om, battery, system).len() == if h.len() == 0 {
            1int
        } else if battery.state_changed {
            h.len() as int + 1
        } else {
            h.len() as int
        },
{
}

pub proof fn lemma_metric_seq_tier_push(w: Seq<TierSample>, t: TierSample, m: Metric)
    ensures
        metric_seq_tier(w.push(t), m) == metric_seq_tier(w, m).push(tier_metric(t, m)),
{
    assert(metric_seq_tier(w.push(t), m) =~= metric_seq_tier(w, m).push(tier_metric(t, m)));
}

/// The history after a cadence refresh of the open record's rolling
/// statistics (no record is created or closed).
pub open spec fn history_after_refresh(
    h: Seq<StateHistoryRecord>,
    om: Seq<TierSample>,
    battery: BatterySnapshot,
) -> Seq<StateHistoryRecord> {
    if h.len() == 0 {
        h
    } else {
        let refreshed = refreshed_record(h.last(), om, battery, battery.timestamp as int, None);
        h.update(h.len() - 1, refreshed)
    }
}

/// Build the record opened by the current snapshot pair.
fn make_open_record(
    battery: &BatterySnapshot,
    system: &SystemSnapshot,
    prev: Option<BatteryState>,
) -> (r: StateHistoryRecord)
    requires
        battery.wf(),
        system.wf(),
    ensures
        r == open_record(*battery, *system, prev),
        r.wf(),
{
    StateHistoryRecord {
        timestamp: battery.timestamp,
        state: battery.state,
        prev,
        end_at: None,
        capacity: battery.capacity,
        full_capacity: battery.full_capacity,
        design_capacity: battery.design_capacity,
        percentage: battery.percentage,
        state_of_health: battery.state_of_health,
        energy_rate: battery.energy_rate,
        voltage: battery.voltage,
        cpu_load: system.cpu_load,
        screen_brightness: system.screen_brightness,
    }
}

/// Recompute a record's rolling statistics from the one-minute rows between
/// its clamped start and `now`, take the instantaneous fields from the
/// snapshot, and set `end_at`.
fn refresh_record(
    rec: &StateHistoryRecord,
    om: &Vec<TierSample>,
    battery: &BatterySnapshot,
    now: i64,
    end_at: Option<i64>,
) -> (r: StateHistoryRecord)
    requires
        rec.wf(),
        battery.wf(),
        tier_rows_wf(om@),
        now >= 0,
    ensures
        r == refreshed_record(*rec, om@, *battery, now as int, end_at),
        r.timestamp == rec.timestamp,
        r.state == rec.state,
        r.prev == rec.prev,
        r.end_at == end_at,
        r.wf(),
{
    let lo: i64 = if rec.timestamp < now - ROLLING_WINDOW_MAX_SECS {
        now - ROLLING_WINDOW_MAX_SECS
    } else {
        rec.timestamp
    };
    let ghost glo = clamped_start(rec.timestamp as int, now as int);
    let ghost ghi = now as int;
    let mut count: u64 = 0;
    let mut sum_soh: u128 = 0;
    let mut sum_rate: u128 = 0;
    let mut sum_volt: u128 = 0;
    let mut sum_cpu: u128 = 0;
    let mut sum_bright: u128 = 0;
    let mut mx_soh: i64 = 0;
    let mut mx_rate: i64 = 0;
    let mut mx_volt: i64 = 0;
    let mut mx_cpu: i64 = 0;
    let mut mx_bright: i64 = 0;
    let mut mn_soh: i64 = 0;
    let mut mn_rate: i64 = 0;
    let mut mn_volt: i64 = 0;
    let mut mn_cpu: i64 = 0;
    let mut mn_bright: i64 = 0;
    let n = om.len();
    for j in 0..n
        invariant
            tier_rows_wf(om@),
            n == om@.len(),
            glo == lo as int,
            ghi == now as int,
            count == window_rows_tier(om@.take(j as int), glo, ghi).len(),
            count <= j,
            sum_soh == sum_of(metric_seq_tier(window_rows_tier(om@.take(j as int), glo, ghi), Metric::StateOfHealth)),
            sum_rate == sum_of(metric_seq_tier(window_rows_tier(om@.take(j as int), glo, ghi), Metric::EnergyRate)),
            sum_volt == sum_of(metric_seq_tier(window_rows_tier(om@.take(j as int), glo, ghi), Metric::Voltage)),
            sum_cpu == sum_of(metric_seq_tier(window_rows_tier(om@.take(j as int), glo, ghi), Metric::CpuLoad)),
            sum_bright == sum_of(metric_seq_tier(window_rows_tier(om@.take(j as int), glo, ghi), Metric::ScreenBrightness)),
            sum_soh <= count as int * (METRIC_MAX as int),
            sum_rate <= count as int * (METRIC_MAX as int),
            sum_volt <= count as int * (METRIC_MAX as int),
            sum_cpu <= count as int * (METRIC_MAX as int),
            sum_bright <= count as int * (METRIC_MAX as int),
            count > 0 ==> {
                let ms = window_rows_tier(om@.take(j as int), glo, ghi);
                &&& mx_soh == max_of(metric_seq_tier(ms, Metric::StateOfHealth))
                &&& mx_rate == max_of(metric_seq_tier(ms, Metric::EnergyRate))
                &&& mx_volt == max_of(metric_seq_tier(ms, Metric::Voltage))
                &&& mx_cpu == max_of(metric_seq_tier(ms, Metric::CpuLoad))
                &&& mx_bright == max_of(metric_seq_tier(ms, Metric::ScreenBrightness))
                &&& mn_soh == min_of(metric_seq_tier(ms, Metric::StateOfHealth))
                &&& mn_rate == min_of(metric_seq_tier(ms, Metric::EnergyRate))
                &&& mn_volt == min_of(metric_seq_tier(ms, Metric::Voltage))
                &&& mn_cpu == min_of(metric_seq_tier(ms, Metric::CpuLoad))
                &&& mn_bright == min_of(metric_seq_tier(ms, Metric::ScreenBrightness))
            },
            count > 0 ==> 0 <= mx_soh <= METRIC_MAX && 0 <= mx_rate <= METRIC_MAX && 0 <= mx_volt
                <= METRIC_MAX && 0 <= mx_cpu <= METRIC_MAX && 0 <= mx_bright <= METRIC_MAX,
            count > 0 ==> 0 <= mn_soh <= METRIC_MAX && 0 <= mn_rate <= METRIC_MAX && 0 <= mn_volt
                <= METRIC_MAX && 0 <= mn_cpu <= METRIC_MAX && 0 <= mn_bright <= METRIC_MAX,
    {
        let ghost pre = om@.take(j as int);
        let ghost w = window_rows_tier(pre, glo, ghi);
        proof {
            assert(om@.take(j as int + 1).drop_last() =~= pre);
            assert(om@.take(j as int + 1).last() == om@[j as int]);
        }
        let t = om[j];
        proof {
            assert(t == om@[j as int]);
            assert(om@[j as int].wf());
        }
        if lo <= t.timestamp && t.timestamp <= now {
            proof {
                assert(window_rows_tier(om@.take(j as int + 1), glo, ghi) == w.push(om@[j as int]));
                lemma_metric_seq_tier_push(w, om@[j as int], Metric::StateOfHealth);
                lemma_metric_seq_tier_push(w, om@[j as int], Metric::EnergyRate);
                lemma_metric_seq_tier_push(w, om@[j as int], Metric::Voltage);
                lemma_metric_seq_tier_push(w, om@[j as int], Metric::CpuLoad);
                lemma_metric_seq_tier_push(w, om@[j as int], Metric::ScreenBrightness);
                lemma_sum_push(metric_seq_tier(w, Metric::StateOfHealth), tier_metric(om@[j as int], Metric::StateOfHealth));
                lemma_sum_push(metric_seq_tier(w, Metric::EnergyRate), tier_metric(om@[j as int], Metric::EnergyRate));
                lemma_sum_push(metric_seq_tier(w, Metric::Voltage), tier_metric(om@[j as int], Metric::Voltage));
                lemma_sum_push(metric_seq_tier(w, Metric::CpuLoad), tier_metric(om@[j as int], Metric::CpuLoad));
                lemma_sum_push(metric_seq_tier(w, Metric::ScreenBrightness), tier_metric(om@[j as int], Metric::ScreenBrightness));
                if w.len() > 0 {
                    lemma_max_push(metric_seq_tier(w, Metric::StateOfHealth), tier_metric(om@[j as int], Metric::StateOfHealth));
                    lemma_max_push(metric_seq_tier(w, Metric::EnergyRate), tier_metric(om@[j as int], Metric::EnergyRate));
                    lemma_max_push(metric_seq_tier(w, Metric::Voltage), tier_metric(om@[j as int], Metric::Voltage));
                    lemma_max_push(metric_seq_tier(w, Metric::CpuLoad), tier_metric(om@[j as int], Metric::CpuLoad));
                    lemma_max_push(metric_seq_tier(w, Metric::ScreenBrightness), tier_metric(om@[j as int], Metric::ScreenBrightness));
                    lemma_min_push(metric_seq_tier(w, Metric::StateOfHealth), tier_metric(om@[j as int], Metric::StateOfHealth));
                    lemma_min_push(metric_seq_tier(w, Metric::EnergyRate), tier_metric(om@[j as int], Metric::EnergyRate));
                    lemma_min_push(metric_seq_tier(w, Metric::Voltage), tier_metric(om@[j as int], Metric::Voltage));
                    lemma_min_push(metric_seq_tier(w, Metric::CpuLoad), tier_metric(om@[j as int], Metric::CpuLoad));
                    lemma_min_push(metric_seq_tier(w, Metric::ScreenBrightness), tier_metric(om@[j as int], Metric::ScreenBrightness));
                } else {
                    assert(metric_seq_tier(w.push(om@[j as int]), Metric::StateOfHealth)[0]
                        == tier_metric(om@[j as int], Metric::StateOfHealth));
                }
                assert((count + 1) as int * (METRIC_MAX as int) == count as int * (METRIC_MAX as int)
                    + METRIC_MAX as int) by (nonlinear_arith);
            }
            if count == 0 {
                mx_soh = t.state_of_health;
                mx_rate = t.energy_rate;
                mx_volt = t.voltage;
                mx_cpu = t.cpu_load;
                mx_bright = t.screen_brightness;
                mn_soh = t.state_of_health;
                mn_rate = t.energy_rate;
                mn_volt = t.voltage;
                mn_cpu = t.cpu_load;
                mn_bright = t.screen_brightness;
            } else {
                if t.state_of_health > mx_soh {
                    mx_soh = t.state_of_health;
                }
                if t.energy_rate > mx_rate {
                    mx_rate = t.energy_rate;
                }
                if t.voltage > mx_volt {
                    mx_volt = t.voltage;
                }
                if t.cpu_load > mx_cpu {
                    mx_cpu = t.cpu_load;
                }
                if t.screen_brightness > mx_bright {
                    mx_bright = t.screen_brightness;
                }
                if t.state_of_health < mn_soh {
                    mn_soh = t.state_of_health;
                }
                if t.energy_rate < mn_rate {
                    mn_rate = t.energy_rate;
                }
                if t.voltage < mn_volt {
                    mn_volt = t.voltage;
                }
                if t.cpu_load < mn_cpu {
                    mn_cpu = t.cpu_load;
                }
                if t.screen_brightness < mn_bright {
                    mn_bright = t.screen_brightness;
                }
            }
            count = count + 1;
            sum_soh = sum_soh + (t.state_of_health as u128);
            sum_rate = sum_rate + (t.energy_rate as u128);
            sum_volt = sum_volt + (t.voltage as u128);
            sum_cpu = sum_cpu + (t.cpu_load as u128);
            sum_bright = sum_bright + (t.screen_brightness as u128);
        } else {
            proof {
                assert(window_rows_tier(om@.take(j as int + 1), glo, ghi) == w);
            }
        }
    }
    proof {
        assert(om@.take(n as int) =~= om@);
    }
    let ghost w = window_rows_tier(om@, glo, ghi);
    let soh: i64;
    let rate: i64;
    let volt: i64;
    let cpu: i64;
    let bright: i64;
    if count == 0 {
        soh = rec.state_of_health;
        rate = rec.energy_rate;
        volt = rec.voltage;
        cpu = rec.cpu_load;
        bright = rec.screen_brightness;
    } else {
        match rec.state {
            BatteryState::Charging | BatteryState::Full => {
                soh = mx_soh;
                rate = mx_rate;
                volt = mx_volt;
                cpu = mx_cpu;
                bright = mx_bright;
            },
            BatteryState::Discharging => {
                soh = mn_soh;
                rate = mn_rate;
                volt = mn_volt;
                cpu = mn_cpu;
                bright = mn_bright;
            },
            _ => {
                soh = crate::aggregate::mean_div(sum_soh, count);
                rate = crate::aggregate::mean_div(sum_rate, count);
                volt = crate::aggregate::mean_div(sum_volt, count);
                cpu = crate::aggregate::mean_div(sum_cpu, count);
                bright = crate::aggregate::mean_div(sum_bright, count);
            },
        }
    }
    let r = StateHistoryRecord {
        timestamp: rec.timestamp,
        state: rec.state,
        prev: rec.prev,
        end_at,
        capacity: battery.capacity,
        full_capacity: battery.full_capacity,
        design_capacity: battery.design_capacity,
        percentage: battery.percentage,
        state_of_health: soh,
        energy_rate: rate,
        voltage: volt,
        cpu_load: cpu,
        screen_brightness: bright,
    };
    proof {
        reveal(refreshed_record);
        assert(metric_seq_tier(w, Metric::StateOfHealth).len() == w.len());
        assert(r == refreshed_record(*rec, om@, *battery, now as int, end_at));
    }
    r
}

/// Deliver one snapshot to the tracker: seed the history on a cold start,
/// close the open interval and open its successor on a state transition,
/// and do nothing otherwise. Returns the start time of the record this call
/// created, if any.
pub fn observe_state(
    history: &mut Vec<StateHistoryRecord>,
    om: &Vec<TierSample>,
    battery: &BatterySnapshot,
    system: &SystemSnapshot,
) -> (inserted: Option<i64>)
    requires
        history_wf(old(history)@),
        tier_rows_wf(om@),
        battery.wf(),
        system.wf(),
        old(history)@.len() > 0 ==> old(history)@.last().timestamp <= battery.timestamp,
        battery.state_changed && old(history)@.len() > 0 ==> old(history)@.last().timestamp
            < battery.timestamp,
    ensures
        final(history)@ == history_after_observe(old(history)@, om@, *battery, *system),
        history_wf(final(history)@),
        inserted == if observe_inserts(old(history)@, *battery) {
            Some(battery.timestamp)
        } else {
            None::<i64>
        },
{
    let ghost h0 = history@;
    if history.len() == 0 {
        let r = make_open_record(battery, system, None);
        history.push(r);
        return Some(battery.timestamp);
    }
    if !battery.state_changed {
        return None;
    }
    let n = history.len();
    let last = history[n - 1];
    let closed = refresh_record(&last, om, battery, battery.timestamp, Some(battery.timestamp));
    let _ = history.pop();
    history.push(closed);
    let next = make_open_record(battery, system, Some(last.state));
    history.push(next);
    proof {
        assert(history@ =~= h0.update(n as int - 1, closed).push(next));
        let h = history@;
        assert forall|i: int, j: int|
            0 <= i < j < h.len() implies #[trigger] h[i].timestamp < #[trigger] h[j].timestamp by {
            if j < h.len() - 1 {
                assert(h[i].timestamp == h0[i].timestamp);
                assert(h[j].timestamp == h0[j].timestamp);
            } else {
                if i < h.len() - 1 {
                    assert(h[i].timestamp == h0[i].timestamp);
                    assert(h0[i].timestamp <= h0[n as int - 1].timestamp);
                }
            }
        }
        assert forall|i: int|
            0 <= i < h.len() - 1 implies (#[trigger] h[i].end_at) == Some(h[i + 1].timestamp) by {
            if i < n as int - 1 {
                assert(h[i] == h0[i]);
                if i < n as int - 2 {
                    assert(h0[i].end_at == Some(h0[i + 1].timestamp));
                }
            }
        }
        assert forall|i: int|
            0 <= i < h.len() - 1 implies (#[trigger] h[i + 1].prev) == Some(h[i].state) by {
            if i + 1 < n as int - 1 {
                assert(h[i + 1] == h0[i + 1]);
                assert(h[i] == h0[i]);
            } else if i + 1 == n as int - 1 {
                assert(h[i + 1] == closed);
                assert(h[i] == h0[i]);
                assert(h0[i + 1].prev == Some(h0[i].state));
            }
        }
    }
    Some(battery.timestamp)
}

/// Refresh the open record's rolling statistics in place, without closing
/// it; a no-op while the history is still empty.
pub fn refresh_open_record(
    history: &mut Vec<StateHistoryRecord>,
    om: &Vec<TierSample>,
    battery: &BatterySnapshot,
)
    requires
        history_wf(old(history)@),
        tier_rows_wf(om@),
        battery.wf(),
    ensures
        final(history)@ == history_after_refresh(old(history)@, om@, *battery),
        history_wf(final(history)@),
        final(history)@.len() == old(history)@.len(),
        forall|i: int|
            0 <= i < old(history)@.len() ==> (#[trigger] final(history)@[i].timestamp) == old(
                history,
            )@[i].timestamp,
{
    let ghost h0 = history@;
    if history.len() == 0 {
        return;
    }
    let n = history.len();
    let last = history[n - 1];
    let refreshed = refresh_record(&last, om, battery, battery.timestamp, None);
    let _ = history.pop();
    history.push(refreshed);
    proof {
        assert(history@ =~= h0.update(n as int - 1, refreshed));
        let h = history@;
        assert forall|i: int|
            0 <= i < h.len() - 1 implies (#[trigger] h[i].end_at) == Some(h[i + 1].timestamp) by {
            assert(h[i] == h0[i]);
            assert(h0[i].end_at == Some(h0[i + 1].timestamp));
        }
        assert forall|i: int|
            0 <= i < h.len() - 1 implies (#[trigger] h[i + 1].prev) == Some(h[i].state) by {
            if i + 1 < n as int - 1 {
                assert(h[i + 1] == h0[i + 1]);
            }
            assert(h[i] == h0[i]);
            assert(h0[i + 1].prev == Some(h0[i].state));
        }
    }
}

/// How many records of a history are open.
pub open spec fn open_count(h: Seq<StateHistoryRecord>) -> int
    decreases h.len(),
{
    if h.len() == 0 {
        0
    } else {
        open_count(h.drop_last()) + if h.last().end_at is None {
            1int
        } else {
            0int
        }
    }
}

proof fn lemma_open_count_all_closed(h: Seq<StateHistoryRecord>)
    requires
        forall|i: int| 0 <= i < h.len() ==> (#[trigger] h[i]).end_at is Some,
    ensures
        open_count(h) == 0,
    decreases h.len(),
{
    if h.len() > 0 {
        assert(forall|i: int| 0 <= i < h.drop_last().len() ==> #[trigger] h.drop_last()[i] == h[i]);
        lemma_open_count_all_closed(h.drop_last());
    }
}

/// At all times, at most one record of a well-formed history is open — and
/// exactly one as soon as the history is non-empty.
pub proof fn lemma_at_most_one_open(h: Seq<StateHistoryRecord>)
    requires
        history_wf(h),
    ensures
        open_count(h) == if h.len() == 0 {
            0int
        } else {
            1int
        },
{
    if h.len() > 0 {
        assert(forall|i: int| 0 <= i < h.drop_last().len() ==> #[trigger] h.drop_last()[i] == h[i]);
        assert forall|i: int| 0 <= i < h.drop_last().len() implies (#[trigger] h.drop_last()[i]).end_at
            is Some by {
            assert(h.drop_last()[i] == h[i]);
            assert(h[i].end_at == Some(h[i + 1].timestamp));
        }
        lemma_open_count_all_closed(h.drop_last());
    }
}

/// The records of a well-formed history chain into contiguous,
/// non-overlapping intervals: each closed record ends exactly where its
/// successor starts, each record's `prev` names its predecessor's state,
/// the first record has no predecessor, and only the last record is open.
pub proof fn lemma_history_chain(h: Seq<StateHistoryRecord>)
    requires
        history_wf(h),
    ensures
        forall|i: int| 0 <= i < h.len() - 1 ==> (#[trigger] h[i].end_at) == Some(h[i + 1].timestamp),
        forall|i: int| 0 <= i < h.len() - 1 ==> (#[trigger] h[i + 1].prev) == Some(h[i].state),
        forall|i: int| 0 <= i < h.len() - 1 ==> (#[trigger] h[i].timestamp) < h[i + 1].timestamp,
        h.len() > 0 ==> h[0].prev is None && h.last().end_at is None,
{
}

} // verus!
