//! The tier store: ingestion of raw samples, elapsed-time-driven cleaning
//! and merging across the three retention tiers, and delegation to the
//! state-history tracker.
//!
//! All mutation goes through [`BatteryStore::insert`]: it appends to the
//! raw tier, hands the snapshot to the tracker, and — once more than
//! `interval_secs` seconds have passed since the last merge — runs the
//! cleaner, downsamples raw rows into the realtime tier, upserts one-minute
//! buckets into the long tier, and refreshes the open history interval's
//! rolling statistics.
use vstd::prelude::*;

use crate::aggregate::{
    bucket_of, contains_bucket, down_sample, group_rows, is_bucket_output, is_down_sample,
    lemma_bucket_bounds, lemma_bucket_monotonic, lemma_group_members, DownSampleParams,
};
use crate::history::{
    history_after_observe, history_after_refresh, history_wf, lemma_at_most_one_open, observe_inserts,
    observe_state, open_count, refresh_open_record,
};
use crate::retention::{
    clean_raw, clean_tier, kept_raw, kept_tier, lemma_kept_raw_props, lemma_kept_tier_props,
    ONE_MINUTE_HORIZON_SECS, RAW_HORIZON_SECS, REALTIME_HORIZON_SECS,
};
use crate::sample::{
    raw_ordered, raw_rows_wf, raw_sample_of, tier_ordered, tier_rows_wf, BatterySnapshot,
    RawSample, StateHistoryRecord, SystemSnapshot, TierSample, TIME_MAX,
};

verus! {

/// Which sub-resources an ingestion call changed; the caller uses this to
/// decide whether to notify watchers.
#[derive(Clone, Copy, Debug, PartialEq, Eq, Structural)]
pub enum InsertModifyed {
    Unknown,
    BatteryHistory,
}

/// A fault reported by a storage backend holding the short tier.
#[derive(Clone, Copy, Debug, PartialEq, Eq, Structural)]
pub enum TierFault {
    /// The short tier's schema is gone (a transient corruption of the
    /// in-memory tier); locally recoverable.
    SchemaMissing,
    /// Any other storage fault; not recoverable here.
    Other,
}

/// What ingestion does about a short-tier fault.
#[derive(Clone, Copy, Debug, PartialEq, Eq, Structural)]
pub enum FaultAction {
    /// Recreate the short tier from scratch and drop the failed sample;
    /// later samples succeed.
    ResetTierAndDropSample,
    /// Surface the fault to the caller; the ingestion cycle aborts.
    Propagate,
}

/// Width of a realtime bucket, in seconds.
pub const REALTIME_BUCKET_SECS: i64 = 2;

/// Width of a one-minute bucket, in seconds.
pub const MINUTE_SECS: i64 = 60;

/// The in-memory telemetry store: three retention tiers and the
/// state-interval history, plus the merge clock.
pub struct BatteryStore {
    /// Short tier: one row per ingested sample, kept for one minute.
    pub raw: Vec<RawSample>,
    /// Medium tier: one row per realtime bucket, kept for a day.
    pub realtime: Vec<TierSample>,
    /// Long tier: one row per calendar minute, kept for thirty days.
    pub one_minute: Vec<TierSample>,
    /// State-interval history; never cleaned by the store.
    pub history: Vec<StateHistoryRecord>,
    /// Time of the last clean-and-merge cycle.
    pub last_save_at: i64,
    /// Seconds between clean-and-merge cycles.
    pub interval_secs: u32,
    /// Next ingestion sequence number.
    pub next_raw_id: u64,
    /// Timestamp of the most recently ingested sample.
    pub last_sample_at: i64,
}

impl BatteryStore {
    /// The store's invariant: each tier ordered and well formed, realtime
    /// buckets strictly older than the merge clock, and the history a
    /// well-formed interval chain no younger than the last sample.
    pub open spec fn wf(self) -> bool {
        &&& raw_rows_wf(self.raw@)
        &&& raw_ordered(self.raw@)
        &&& forall|i: int|
            0 <= i < self.raw@.len() ==> (#[trigger] self.raw@[i].id) < self.next_raw_id
        &&& forall|i: int|
            0 <= i < self.raw@.len() ==> (#[trigger] self.raw@[i].timestamp) <= self.last_sample_at
        &&& tier_rows_wf(self.realtime@)
        &&& tier_ordered(self.realtime@)
        &&& forall|i: int|
            0 <= i < self.realtime@.len() ==> (#[trigger] self.realtime@[i].timestamp)
                < self.last_save_at
        &&& tier_rows_wf(self.one_minute@)
        &&& tier_ordered(self.one_minute@)
        &&& history_wf(self.history@)
        &&& self.history@.len() > 0 ==> self.history@.last().timestamp <= self.last_sample_at
        &&& 0 <= self.last_save_at <= TIME_MAX
        &&& 0 <= self.last_sample_at <= TIME_MAX
    }

    /// An empty store whose merge clock starts at `now`.
    pub fn new(interval_secs: u32, now: i64) -> (s: BatteryStore)
        requires
            0 <= now <= TIME_MAX,
        ensures
            s.wf(),
            s.raw@.len() == 0,
            s.realtime@.len() == 0,
            s.one_minute@.len() == 0,
            s.history@.len() == 0,
            s.last_save_at == now,
            s.interval_secs == interval_secs,
            s.next_raw_id == 0,
            s.last_sample_at == now,
    {
        BatteryStore {
            raw: Vec::new(),
            realtime: Vec::new(),
            one_minute: Vec::new(),
            history: Vec::new(),
            last_save_at: now,
            interval_secs,
            next_raw_id: 0,
            last_sample_at: now,
        }
    }

    /// Decide what to do about a short-tier fault: the schema-missing
    /// condition is recovered locally, everything else is surfaced.
    pub fn short_tier_fault_action(fault: &TierFault) -> (a: FaultAction)
        ensures
            a is ResetTierAndDropSample <==> fault is SchemaMissing,
            a is Propagate <==> fault is Other,
    {
        match fault {
            TierFault::SchemaMissing => FaultAction::ResetTierAndDropSample,
            TierFault::Other => FaultAction::Propagate,
        }
    }

    /// Recreate the short tier from scratch (its schema re-applied, all
    /// rows lost); the other tiers and the history are untouched.
    pub fn reset_short_tier(&mut self)
        requires
            old(self).wf(),
        ensures
            final(self).wf(),
            final(self).raw@.len() == 0,
            final(self).realtime == old(self).realtime,
            final(self).one_minute == old(self).one_minute,
            final(self).history == old(self).history,
            final(self).last_save_at == old(self).last_save_at,
            final(self).interval_secs == old(self).interval_secs,
            final(self).next_raw_id == old(self).next_raw_id,
            final(self).last_sample_at == old(self).last_sample_at,
    {
        self.raw = Vec::new();
    }

    /// Delete every row older than its tier's horizon: one minute for raw
    /// rows, a day for realtime buckets, thirty days for one-minute
    /// buckets. The history is never cleaned.
    fn clean(&mut self, now: i64)
        requires
            old(self).wf(),
            0 <= now,
        ensures
            final(self).raw@ == kept_raw(old(self).raw@, now - RAW_HORIZON_SECS as int),
            final(self).realtime@ == kept_tier(old(self).realtime@, now - REALTIME_HORIZON_SECS as int),
            final(self).one_minute@ == kept_tier(old(self).one_minute@, now - ONE_MINUTE_HORIZON_SECS as int),
            final(self).history == old(self).history,
            final(self).last_save_at == old(self).last_save_at,
            final(self).interval_secs == old(self).interval_secs,
            final(self).next_raw_id == old(self).next_raw_id,
            final(self).last_sample_at == old(self).last_sample_at,
            final(self).wf(),
    {
        let r = clean_raw(&self.raw, now - RAW_HORIZON_SECS);
        self.raw = r;
        let r = clean_tier(&self.realtime, now - REALTIME_HORIZON_SECS);
        self.realtime = r;
        let r = clean_tier(&self.one_minute, now - ONE_MINUTE_HORIZON_SECS);
        self.one_minute = r;
        proof {
            lemma_kept_raw_props(old(self).raw@, now - RAW_HORIZON_SECS as int);
            lemma_kept_tier_props(old(self).realtime@, now - REALTIME_HORIZON_SECS as int);
            lemma_kept_tier_props(old(self).one_minute@, now - ONE_MINUTE_HORIZON_SECS as int);
            assert forall|i: int|
                0 <= i < self.raw@.len() implies (#[trigger] self.raw@[i].id) < self.next_raw_id
                && (#[trigger] self.raw@[i].timestamp) <= self.last_sample_at by {
                assert(old(self).raw@.contains(self.raw@[i]));
                let q = choose|q: int| 0 <= q < old(self).raw@.len() && old(self).raw@[q] == self.raw@[i];
                assert(old(self).raw@[q].id < old(self).next_raw_id);
                assert(old(self).raw@[q].timestamp <= old(self).last_sample_at);
            }
            assert forall|i: int|
                0 <= i < self.realtime@.len() implies (#[trigger] self.realtime@[i].timestamp)
                < self.last_save_at by {
                assert(old(self).realtime@.contains(self.realtime@[i]));
                let q = choose|q: int|
                    0 <= q < old(self).realtime@.len() && old(self).realtime@[q] == self.realtime@[i];
                assert(old(self).realtime@[q].timestamp < old(self).last_save_at);
            }
        }
    }
}

impl Default for BatteryStore {
    /// An empty store with a ten-second merge interval and its clocks at
    /// the epoch.
    fn default() -> (s: BatteryStore)
        ensures
            s.wf(),
            s.raw@.len() == 0,
            s.realtime@.len() == 0,
            s.one_minute@.len() == 0,
            s.history@.len() == 0,
            s.last_save_at == 0,
            s.interval_secs == 10,
            s.next_raw_id == 0,
            s.last_sample_at == 0,
    {
        BatteryStore::new(10, 0)
    }
}

/// At all times, at most one record of a well-formed store's history is
/// open — and exactly one as soon as any snapshot has been ingested. Every
/// store operation preserves `wf`, so this holds throughout a session.
pub proof fn lemma_store_at_most_one_open(s: BatteryStore)
    requires
        s.wf(),
    ensures
        open_count(s.history@) <= 1,
        s.history@.len() > 0 ==> open_count(s.history@) == 1,
{
    lemma_at_most_one_open(s.history@);
}

/// Raw-shaped copies of tier rows, with each row's position as its id, so
/// that the aggregator and its tie-breaking apply to them. Tier rows have
/// unique timestamps, so the synthetic ids never decide anything.
pub open spec fn tier_as_raw(s: Seq<TierSample>) -> Seq<RawSample> {
    Seq::new(
        s.len(),
        |i: int|
            RawSample {
                id: i as u64,
                timestamp: s[i].timestamp,
                state: s[i].state,
                percentage: s[i].percentage,
                energy_rate: s[i].energy_rate,
                voltage: s[i].voltage,
                cpu_load: s[i].cpu_load,
                screen_brightness: s[i].screen_brightness,
                state_of_health: s[i].state_of_health,
            },
    )
}

fn tier_to_raw(rows: &Vec<TierSample>) -> (out: Vec<RawSample>)
    ensures
        out@ == tier_as_raw(rows@),
        tier_rows_wf(rows@) ==> raw_rows_wf(out@),
{
    let mut out: Vec<RawSample> = Vec::new();
    let n = rows.len();
    for j in 0..n
        invariant
            n == rows@.len(),
            out@.len() == j,
            forall|i: int| 0 <= i < j ==> #[trigger] out@[i] == tier_as_raw(rows@)[i],
    {
        let t = rows[j];
        out.push(
            RawSample {
                id: j as u64,
                timestamp: t.timestamp,
                state: t.state,
                percentage: t.percentage,
                energy_rate: t.energy_rate,
                voltage: t.voltage,
                cpu_load: t.cpu_load,
                screen_brightness: t.screen_brightness,
                state_of_health: t.state_of_health,
            },
        );
    }
    proof {
        assert(out@ =~= tier_as_raw(rows@));
        if tier_rows_wf(rows@) {
            assert forall|i: int| 0 <= i < out@.len() implies (#[trigger] out@[i]).wf() by {
                assert(rows@[i].wf());
                assert(out@[i] == tier_as_raw(rows@)[i]);
                assert forall|m: crate::sample::Metric|
                    crate::sample::metric_ok_int(#[trigger] crate::sample::raw_metric(out@[i], m)) by {
                    assert(crate::sample::raw_metric(out@[i], m) == crate::sample::tier_metric(rows@[i], m));
                }
            }
        }
    }
    out
}

/// `result` is `base` with every row of `fresh` applied: a `fresh` row
/// replaces the row with the same bucket key if one exists, and is inserted
/// in key order otherwise.
pub open spec fn upserted(result: Seq<TierSample>, base: Seq<TierSample>, fresh: Seq<TierSample>) -> bool {
    &&& tier_ordered(result)
    &&& forall|i: int|
        0 <= i < result.len() ==> fresh.contains(#[trigger] result[i]) || (base.contains(result[i])
            && !contains_bucket(fresh, result[i].timestamp as int))
    &&& forall|k: int|
        0 <= k < fresh.len() ==> contains_bucket(result, (#[trigger] fresh[k]).timestamp as int)
    &&& forall|k: int|
        0 <= k < base.len() ==> contains_bucket(result, (#[trigger] base[k]).timestamp as int)
}

/// Upsert `fresh` rows into `base`, keyed by bucket timestamp.
fn upsert_rows(base: &Vec<TierSample>, fresh: &Vec<TierSample>) -> (out: Vec<TierSample>)
    requires
        tier_ordered(base@),
        tier_rows_wf(base@),
        tier_ordered(fresh@),
        tier_rows_wf(fresh@),
    ensures
        upserted(out@, base@, fresh@),
        tier_ordered(out@),
        tier_rows_wf(out@),
{
    let mut out: Vec<TierSample> = Vec::new();
    let nb = base.len();
    for j in 0..nb
        invariant
            nb == base@.len(),
            out@ == base@.take(j as int),
    {
        out.push(base[j]);
    }
    proof {
        assert(out@ =~= base@);
    }
    let m = fresh.len();
    for k in 0..m
        invariant
            m == fresh@.len(),
            tier_ordered(base@),
            tier_rows_wf(base@),
            tier_ordered(fresh@),
            tier_rows_wf(fresh@),
            tier_ordered(out@),
            tier_rows_wf(out@),
            upserted(out@, base@, fresh@.take(k as int)),
    {
        let ghost pre = out@;
        let ghost fpre = fresh@.take(k as int);
        let row = fresh[k];
        proof {
            assert(row == fresh@[k as int]);
            assert(row.wf());
            assert(fresh@.take(k as int + 1) =~= fpre.push(row));
        }
        let mut p: usize = 0;
        while p < out.len() && out[p].timestamp < row.timestamp
            invariant
                0 <= p <= out@.len(),
                out@ == pre,
                forall|q: int| 0 <= q < p ==> (#[trigger] out@[q].timestamp) < row.timestamp,
            decreases out@.len() - p,
        {
            p = p + 1;
        }
        if p < out.len() && out[p].timestamp == row.timestamp {
            out.remove(p);
            out.insert(p, row);
            proof {
                assert(out@ =~= pre.update(p as int, row));
                lemma_upsert_step(out@, pre, base@, fpre, row, p as int, true);
            }
        } else {
            out.insert(p, row);
            proof {
                lemma_upsert_step(out@, pre, base@, fpre, row, p as int, false);
            }
        }
    }
    proof {
        assert(fresh@.take(m as int) =~= fresh@);
    }
    out
}

/// Whether `result` is the long tier after one merge cycle at `now`: the
/// previous calendar minute of the realtime rows `rt`, downsampled into
/// minute buckets, upserted into `base`.
pub open spec fn merged_one_minute(
    result: Seq<TierSample>,
    base: Seq<TierSample>,
    rt: Seq<TierSample>,
    now: int,
) -> bool {
    exists|fresh: Seq<TierSample>|
        is_down_sample(
            fresh,
            tier_as_raw(rt),
            bucket_of(now, MINUTE_SECS as int) - MINUTE_SECS as int,
            now,
            MINUTE_SECS as int,
        ) && upserted(result, base, fresh)
}

impl BatteryStore {
    /// One merge cycle at `now`: downsample the just-elapsed window of raw
    /// rows into realtime buckets and append them to the medium tier (its
    /// windows are disjoint, so this never collides), then aggregate the
    /// previous calendar minute of realtime rows into one-minute buckets
    /// and upsert them into the long tier.
    fn merge(&mut self, now: i64)
        requires
            old(self).wf(),
            0 <= now <= TIME_MAX,
            old(self).last_save_at + old(self).interval_secs < now,
        ensures
            final(self).raw == old(self).raw,
            final(self).history == old(self).history,
            final(self).last_save_at == old(self).last_save_at,
            final(self).interval_secs == old(self).interval_secs,
            final(self).next_raw_id == old(self).next_raw_id,
            final(self).last_sample_at == old(self).last_sample_at,
            final(self).realtime@.len() >= old(self).realtime@.len(),
            final(self).realtime@.take(old(self).realtime@.len() as int) == old(self).realtime@,
            is_down_sample(
                final(self).realtime@.skip(old(self).realtime@.len() as int),
                old(self).raw@,
                now - old(self).interval_secs,
                now as int,
                REALTIME_BUCKET_SECS as int,
            ),
            tier_ordered(final(self).realtime@),
            tier_rows_wf(final(self).realtime@),
            forall|i: int|
                0 <= i < final(self).realtime@.len()
                    ==> (#[trigger] final(self).realtime@[i].timestamp) < now,
            merged_one_minute(
                final(self).one_minute@,
                old(self).one_minute@,
                final(self).realtime@,
                now as int,
            ),
            tier_ordered(final(self).one_minute@),
            tier_rows_wf(final(self).one_minute@),
    {
        let start = now - (self.interval_secs as i64);
        let params = DownSampleParams {
            start_time: start,
            end_time: now,
            interval_secs: REALTIME_BUCKET_SECS,
        };
        let added = down_sample(&self.raw, &params);
        let ghost rt0 = self.realtime@;
        let ghost lsa = self.last_save_at as int;
        proof {
            assert forall|b: int|
                0 <= b < added@.len() implies lsa <= (#[trigger] added@[b].timestamp) < now by {
                assert(is_bucket_output(added@[b], self.raw@, start as int, now as int, 2));
                let key = added@[b].timestamp as int;
                lemma_group_members(self.raw@, start as int, now as int, 2, key, 0);
                let g = group_rows(self.raw@, start as int, now as int, 2, key);
                let r = g[0];
                lemma_bucket_monotonic(start as int, r.timestamp as int, 2);
                lemma_bucket_bounds(start as int, 2);
                lemma_bucket_bounds(r.timestamp as int, 2);
            }
        }
        let na = added.len();
        let ghost snap0 = *self;
        for k in 0..na
            invariant
                na == added@.len(),
                self.realtime@ == rt0 + added@.take(k as int),
                self.raw == snap0.raw,
                self.one_minute == snap0.one_minute,
                self.history == snap0.history,
                self.last_save_at == snap0.last_save_at,
                self.interval_secs == snap0.interval_secs,
                self.next_raw_id == snap0.next_raw_id,
                self.last_sample_at == snap0.last_sample_at,
                lsa == snap0.last_save_at as int,
                tier_ordered(rt0),
                tier_rows_wf(rt0),
                tier_ordered(added@),
                tier_rows_wf(added@),
                forall|i: int| 0 <= i < rt0.len() ==> (#[trigger] rt0[i].timestamp) < lsa,
                forall|b: int| 0 <= b < added@.len() ==> lsa <= (#[trigger] added@[b].timestamp) < now,
        {
            proof {
                assert(rt0 + added@.take(k as int + 1) =~= (rt0 + added@.take(k as int)).push(
                    added@[k as int],
                ));
            }
            let row = added[k];
            self.realtime.push(row);
        }
        proof {
            assert(added@.take(na as int) =~= added@);
            assert(self.realtime@ == rt0 + added@);
            assert(self.realtime@.take(rt0.len() as int) =~= rt0);
            assert(self.realtime@.skip(rt0.len() as int) =~= added@);
            assert(tier_ordered(self.realtime@)) by {
                assert forall|i: int, j: int|
                    0 <= i < j < self.realtime@.len() implies (#[trigger] self.realtime@[i].timestamp)
                    < (#[trigger] self.realtime@[j].timestamp) by {
                    if i < rt0.len() && j >= rt0.len() {
                        assert(rt0[i].timestamp < lsa);
                        assert(added@[j - rt0.len()].timestamp >= lsa);
                    }
                }
            }
            assert(tier_rows_wf(self.realtime@)) by {
                assert forall|i: int| 0 <= i < self.realtime@.len() implies (#[trigger] self
                    .realtime@[i]).wf() by {
                    if i < rt0.len() {
                        assert(rt0[i].wf());
                    } else {
                        assert(added@[i - rt0.len()].wf());
                    }
                }
            }
        }
        let rt_raw = tier_to_raw(&self.realtime);
        let current_minute = crate::aggregate::bucket_key(now, MINUTE_SECS);
        let prev_minute = current_minute - MINUTE_SECS;
        let params2 = DownSampleParams {
            start_time: prev_minute,
            end_time: now,
            interval_secs: MINUTE_SECS,
        };
        let fresh = down_sample(&rt_raw, &params2);
        let om = upsert_rows(&self.one_minute, &fresh);
        let ghost om0 = self.one_minute@;
        self.one_minute = om;
        proof {
            assert(is_down_sample(
                fresh@,
                tier_as_raw(self.realtime@),
                bucket_of(now as int, MINUTE_SECS as int) - MINUTE_SECS as int,
                now as int,
                MINUTE_SECS as int,
            ));
            assert(upserted(self.one_minute@, om0, fresh@));
        }
    }
}

impl BatteryStore {
    /// Ingest one snapshot pair at `battery.timestamp`.
    ///
    /// Appends a raw row built from the snapshots, delegates to the
    /// state-history tracker, and — when more than `interval_secs` seconds
    /// have passed since the last cycle — cleans all three tiers, merges
    /// raw rows into realtime buckets and realtime rows into one-minute
    /// buckets, refreshes the open history interval's rolling statistics,
    /// and advances the merge clock.
    ///
    /// Returns which sub-resources changed, the appended raw row, and the
    /// start time of the history record this call created, if any.
    pub fn insert(&mut self, battery: &BatterySnapshot, system: &SystemSnapshot) -> (r: (
        Vec<InsertModifyed>,
        Option<RawSample>,
        Option<i64>,
    ))
        requires
            old(self).wf(),
            battery.wf(),
            system.wf(),
            battery.timestamp >= old(self).last_sample_at,
            battery.state_changed ==> battery.timestamp > old(self).last_sample_at,
            old(self).next_raw_id < u64::MAX,
        ensures
            final(self).wf(),
            final(self).interval_secs == old(self).interval_secs,
            final(self).next_raw_id == old(self).next_raw_id + 1,
            final(self).last_sample_at == battery.timestamp,
            ({
                let now = battery.timestamp as int;
                let sample = raw_sample_of(old(self).next_raw_id, *battery, *system);
                let due = old(self).last_save_at + old(self).interval_secs < now;
                let h1 = history_after_observe(
                    old(self).history@,
                    old(self).one_minute@,
                    *battery,
                    *system,
                );
                let rt_kept = kept_tier(old(self).realtime@, now - REALTIME_HORIZON_SECS as int);
                &&& (!due ==> {
                    &&& final(self).raw@ == old(self).raw@.push(sample)
                    &&& final(self).realtime == old(self).realtime
                    &&& final(self).one_minute == old(self).one_minute
                    &&& final(self).history@ == h1
                    &&& final(self).last_save_at == old(self).last_save_at
                })
                &&& (due ==> {
                    &&& final(self).last_save_at == battery.timestamp
                    &&& final(self).raw@ == kept_raw(
                        old(self).raw@.push(sample),
                        now - RAW_HORIZON_SECS as int,
                    )
                    &&& final(self).realtime@.take(rt_kept.len() as int) == rt_kept
                    &&& is_down_sample(
                        final(self).realtime@.skip(rt_kept.len() as int),
                        final(self).raw@,
                        now - old(self).interval_secs,
                        now,
                        REALTIME_BUCKET_SECS as int,
                    )
                    &&& merged_one_minute(
                        final(self).one_minute@,
                        kept_tier(old(self).one_minute@, now - ONE_MINUTE_HORIZON_SECS as int),
                        final(self).realtime@,
                        now,
                    )
                    &&& final(self).history@ == history_after_refresh(
                        h1,
                        final(self).one_minute@,
                        *battery,
                    )
                })
            }),
            r.0@ == if observe_inserts(old(self).history@, *battery) {
                seq![InsertModifyed::BatteryHistory]
            } else {
                Seq::<InsertModifyed>::empty()
            },
            r.1 == Some(raw_sample_of(old(self).next_raw_id, *battery, *system)),
            r.2 == if observe_inserts(old(self).history@, *battery) {
                Some(battery.timestamp)
            } else {
                None::<i64>
            },
    {
        let now = battery.timestamp;
        let sample = RawSample {
            id: self.next_raw_id,
            timestamp: battery.timestamp,
            state: battery.state,
            percentage: battery.percentage,
            energy_rate: battery.energy_rate,
            voltage: battery.voltage,
            cpu_load: system.cpu_load,
            screen_brightness: system.screen_brightness,
            state_of_health: battery.state_of_health,
        };
        self.raw.push(sample);
        self.next_raw_id = self.next_raw_id + 1;
        self.last_sample_at = now;
        let hist_new = observe_state(&mut self.history, &self.one_minute, battery, system);
        proof {
            assert(self.raw@ == old(self).raw@.push(sample));
            assert forall|i: int, j: int|
                0 <= i < j < self.raw@.len() implies (#[trigger] self.raw@[i].id)
                < (#[trigger] self.raw@[j].id) && self.raw@[i].timestamp <= self.raw@[j].timestamp by {
                if j == self.raw@.len() - 1 {
                    assert(self.raw@[i] == old(self).raw@[i]);
                    assert(old(self).raw@[i].id < old(self).next_raw_id);
                    assert(old(self).raw@[i].timestamp <= old(self).last_sample_at);
                } else {
                    assert(self.raw@[i] == old(self).raw@[i]);
                    assert(self.raw@[j] == old(self).raw@[j]);
                }
            }
            assert forall|i: int|
                0 <= i < self.raw@.len() implies (#[trigger] self.raw@[i].id) < self.next_raw_id
                && (#[trigger] self.raw@[i].timestamp) <= self.last_sample_at by {
                if i < self.raw@.len() - 1 {
                    assert(self.raw@[i] == old(self).raw@[i]);
                    assert(old(self).raw@[i].id < old(self).next_raw_id);
                    assert(old(self).raw@[i].timestamp <= old(self).last_sample_at);
                }
            }
            assert forall|i: int| 0 <= i < self.raw@.len() implies (#[trigger] self.raw@[i]).wf() by {
                if i < self.raw@.len() - 1 {
                    assert(self.raw@[i] == old(self).raw@[i]);
                    assert(old(self).raw@[i].wf());
                }
            }
            assert(self.wf());
        }
        if self.last_save_at + (self.interval_secs as i64) < now {
            self.clean(now);
            self.merge(now);
            refresh_open_record(&mut self.history, &self.one_minute, battery);
            self.last_save_at = now;
            proof {
                assert forall|i: int|
                    0 <= i < self.realtime@.len() implies (#[trigger] self.realtime@[i].timestamp)
                    < self.last_save_at by {}
                assert(self.wf());
            }
        }
        let mut changed: Vec<InsertModifyed> = Vec::new();
        let result_id: Option<i64>;
        match hist_new {
            Some(t) => {
                changed.push(InsertModifyed::BatteryHistory);
                result_id = Some(t);
            },
            None => {
                result_id = None;
            },
        }
        proof {
            if observe_inserts(old(self).history@, *battery) {
                assert(changed@ =~= seq![InsertModifyed::BatteryHistory]);
            } else {
                assert(changed@ =~= Seq::<InsertModifyed>::empty());
            }
        }
        (changed, Some(sample), result_id)
    }
}

/// One upsert step preserves the upsert invariant: replacing (or inserting
/// at) position `p` the row whose key the scan stopped at.
proof fn lemma_upsert_step(
    post: Seq<TierSample>,
    pre: Seq<TierSample>,
    base: Seq<TierSample>,
    fpre: Seq<TierSample>,
    row: TierSample,
    p: int,
    replaced: bool,
)
    requires
        row.wf(),
        tier_ordered(pre),
        tier_rows_wf(pre),
        upserted(pre, base, fpre),
        0 <= p <= pre.len(),
        forall|q: int| 0 <= q < p ==> (#[trigger] pre[q].timestamp) < row.timestamp,
        replaced ==> p < pre.len() && pre[p].timestamp == row.timestamp,
        !replaced ==> (p == pre.len() || pre[p].timestamp > row.timestamp),
        replaced ==> post == pre.update(p, row),
        !replaced ==> post == pre.insert(p, row),
    ensures
        tier_ordered(post),
        tier_rows_wf(post),
        upserted(post, base, fpre.push(row)),
{
    let fnew = fpre.push(row);
    assert(fnew.last() == row);
    assert(forall|k: int| 0 <= k < fpre.len() ==> #[trigger] fnew[k] == fpre[k]);
    if replaced {
        assert(tier_ordered(post)) by {
            assert forall|i: int, j: int|
                0 <= i < j < post.len() implies (#[trigger] post[i].timestamp)
                < (#[trigger] post[j].timestamp) by {
                assert(pre[i].timestamp < pre[j].timestamp);
            }
        }
        assert forall|i: int|
            0 <= i < post.len() implies fnew.contains(#[trigger] post[i]) || (base.contains(post[i])
            && !contains_bucket(fnew, post[i].timestamp as int)) by {
            if i == p {
                assert(fnew[fnew.len() - 1] == post[i]);
            } else {
                assert(post[i] == pre[i]);
                if fpre.contains(pre[i]) {
                    let k = choose|k: int| 0 <= k < fpre.len() && fpre[k] == pre[i];
                    assert(fnew[k] == pre[i]);
                } else {
                    assert(base.contains(pre[i]) && !contains_bucket(fpre, pre[i].timestamp as int));
                    assert(pre[i].timestamp != row.timestamp) by {
                        if i < p {
                            assert(pre[i].timestamp < row.timestamp);
                        } else {
                            assert(pre[p].timestamp < pre[i].timestamp);
                        }
                    }
                    assert(!contains_bucket(fnew, pre[i].timestamp as int));
                }
            }
        }
        assert forall|k: int|
            0 <= k < fnew.len() implies contains_bucket(post, (#[trigger] fnew[k]).timestamp as int) by {
            if k < fpre.len() {
                let i = choose|i: int| 0 <= i < pre.len() && pre[i].timestamp == fpre[k].timestamp as int;
                if i == p {
                    assert(post[p].timestamp == row.timestamp);
                } else {
                    assert(post[i] == pre[i]);
                }
            } else {
                assert(post[p].timestamp == row.timestamp);
            }
        }
        assert forall|k: int|
            0 <= k < base.len() implies contains_bucket(post, (#[trigger] base[k]).timestamp as int) by {
            let i = choose|i: int| 0 <= i < pre.len() && pre[i].timestamp == base[k].timestamp as int;
            if i == p {
                assert(post[p].timestamp == row.timestamp);
            } else {
                assert(post[i] == pre[i]);
            }
        }
        assert forall|i: int| 0 <= i < post.len() implies (#[trigger] post[i]).wf() by {
            if i != p {
                assert(post[i] == pre[i]);
            }
        }
    } else {
        assert(forall|i: int| 0 <= i < p ==> #[trigger] post[i] == pre[i]);
        assert(post[p] == row);
        assert(forall|i: int| p < i < post.len() ==> #[trigger] post[i] == pre[i - 1]);
        assert(tier_ordered(post)) by {
            assert forall|i: int, j: int|
                0 <= i < j < post.len() implies (#[trigger] post[i].timestamp)
                < (#[trigger] post[j].timestamp) by {
                if i < p && j == p {
                } else if i == p && j > p {
                    assert(post[j] == pre[j - 1]);
                    assert(pre[p].timestamp <= pre[j - 1].timestamp) by {
                        if p < j - 1 {
                            assert(pre[p].timestamp < pre[j - 1].timestamp);
                        }
                    }
                } else if i < p && j > p {
                    assert(pre[i].timestamp < row.timestamp);
                    assert(row.timestamp < pre[j - 1].timestamp) by {
                        assert(pre[p].timestamp <= pre[j - 1].timestamp) by {
                            if p < j - 1 {
                                assert(pre[p].timestamp < pre[j - 1].timestamp);
                            }
                        }
                    }
                } else {
                    assert(pre[if i < p { i } else { i - 1 }].timestamp
                        < pre[if j < p { j } else { j - 1 }].timestamp);
                }
            }
        }
        assert forall|i: int|
            0 <= i < post.len() implies fnew.contains(#[trigger] post[i]) || (base.contains(post[i])
            && !contains_bucket(fnew, post[i].timestamp as int)) by {
            if i == p {
                assert(fnew[fnew.len() - 1] == post[i]);
            } else {
                let ii = if i < p { i } else { i - 1 };
                assert(post[i] == pre[ii]);
                if fpre.contains(pre[ii]) {
                    let k = choose|k: int| 0 <= k < fpre.len() && fpre[k] == pre[ii];
                    assert(fnew[k] == pre[ii]);
                } else {
                    assert(base.contains(pre[ii]) && !contains_bucket(fpre, pre[ii].timestamp as int));
                    assert(pre[ii].timestamp != row.timestamp) by {
                        if ii < p {
                            assert(pre[ii].timestamp < row.timestamp);
                        } else {
                            assert(pre[p].timestamp > row.timestamp);
                            assert(pre[p].timestamp <= pre[ii].timestamp) by {
                                if p < ii {
                                    assert(pre[p].timestamp < pre[ii].timestamp);
                                }
                            }
                        }
                    }
                    assert(!contains_bucket(fnew, pre[ii].timestamp as int));
                }
            }
        }
        assert forall|k: int|
            0 <= k < fnew.len() implies contains_bucket(post, (#[trigger] fnew[k]).timestamp as int) by {
            if k < fpre.len() {
                let i = choose|i: int| 0 <= i < pre.len() && pre[i].timestamp == fpre[k].timestamp as int;
                if i < p {
                    assert(post[i] == pre[i]);
                } else {
                    assert(post[i + 1] == pre[i]);
                }
            } else {
                assert(post[p].timestamp == row.timestamp);
            }
        }
        assert forall|k: int|
            0 <= k < base.len() implies contains_bucket(post, (#[trigger] base[k]).timestamp as int) by {
            let i = choose|i: int| 0 <= i < pre.len() && pre[i].timestamp == base[k].timestamp as int;
            if i < p {
                assert(post[i] == pre[i]);
            } else {
                assert(post[i + 1] == pre[i]);
            }
        }
        assert forall|i: int| 0 <= i < post.len() implies (#[trigger] post[i]).wf() by {
            if i != p {
                let ii = if i < p { i } else { i - 1 };
                assert(post[i] == pre[ii]);
            }
        }
    }
}

} // verus!
