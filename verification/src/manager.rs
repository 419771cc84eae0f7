//! The manager: the store's public face toward the hosting application.
//!
//! It owns a [`BatteryStore`] and exposes ingestion and the paginated
//! history query; opening the underlying storage and closing its
//! connections are the host's concern and happen outside this crate.
use vstd::prelude::*;

use crate::aggregate::is_down_sample;
use crate::history::{history_after_observe, history_after_refresh, observe_inserts};
use crate::query::{effective_cursor, page_spec, select_history_page, HistoryInfo};
use crate::retention::{
    kept_raw, kept_tier, ONE_MINUTE_HORIZON_SECS, RAW_HORIZON_SECS, REALTIME_HORIZON_SECS,
};
use crate::sample::{raw_sample_of, BatterySnapshot, SystemSnapshot, TIME_MAX};
use crate::store::{merged_one_minute, BatteryStore, InsertModifyed, REALTIME_BUCKET_SECS};

verus! {

/// Owns the telemetry store on behalf of the hosting application.
pub struct Manager {
    pub store: BatteryStore,
}

impl Manager {
    pub open spec fn wf(self) -> bool {
        self.store.wf()
    }

    /// A manager over a fresh store whose merge clock starts at `now`.
    pub fn build(interval_secs: u32, now: i64) -> (m: Manager)
        requires
            0 <= now <= TIME_MAX,
        ensures
            m.wf(),
            m.store.raw@.len() == 0,
            m.store.realtime@.len() == 0,
            m.store.one_minute@.len() == 0,
            m.store.history@.len() == 0,
            m.store.last_save_at == now,
            m.store.interval_secs == interval_secs,
            m.store.next_raw_id == 0,
            m.store.last_sample_at == now,
    {
        Manager { store: BatteryStore::new(interval_secs, now) }
    }

    /// Ingest one snapshot pair; returns which sub-resources changed and
    /// the start time of the history record this call created, if any.
    pub fn insert_battery(&mut self, battery: &BatterySnapshot, system: &SystemSnapshot) -> (r: (
        Vec<InsertModifyed>,
        Option<i64>,
    ))
        requires
            old(self).wf(),
            battery.wf(),
            system.wf(),
            battery.timestamp >= old(self).store.last_sample_at,
            battery.state_changed ==> battery.timestamp > old(self).store.last_sample_at,
            old(self).store.next_raw_id < u64::MAX,
        ensures
            final(self).wf(),
            final(self).store.interval_secs == old(self).store.interval_secs,
            final(self).store.next_raw_id == old(self).store.next_raw_id + 1,
            final(self).store.last_sample_at == battery.timestamp,
            ({
                let now = battery.timestamp as int;
                let sample = raw_sample_of(old(self).store.next_raw_id, *battery, *system);
                let due = old(self).store.last_save_at + old(self).store.interval_secs < now;
                let h1 = history_after_observe(
                    old(self).store.history@,
                    old(self).store.one_minute@,
                    *battery,
                    *system,
                );
                let rt_kept = kept_tier(
                    old(self).store.realtime@,
                    now - REALTIME_HORIZON_SECS as int,
                );
                &&& (!due ==> {
                    &&& final(self).store.raw@ == old(self).store.raw@.push(sample)
                    &&& final(self).store.realtime == old(self).store.realtime
                    &&& final(self).store.one_minute == old(self).store.one_minute
                    &&& final(self).store.history@ == h1
                    &&& final(self).store.last_save_at == old(self).store.last_save_at
                })
                &&& (due ==> {
                    &&& final(self).store.last_save_at == battery.timestamp
                    &&& final(self).store.raw@ == kept_raw(
                        old(self).store.raw@.push(sample),
                        now - RAW_HORIZON_SECS as int,
                    )
                    &&& final(self).store.realtime@.take(rt_kept.len() as int) == rt_kept
                    &&& is_down_sample(
                        final(self).store.realtime@.skip(rt_kept.len() as int),
                        final(self).store.raw@,
                        now - old(self).store.interval_secs,
                        now,
                        REALTIME_BUCKET_SECS as int,
                    )
                    &&& merged_one_minute(
                        final(self).store.one_minute@,
                        kept_tier(
                            old(self).store.one_minute@,
                            now - ONE_MINUTE_HORIZON_SECS as int,
                        ),
                        final(self).store.realtime@,
                        now,
                    )
                    &&& final(self).store.history@ == history_after_refresh(
                        h1,
                        final(self).store.one_minute@,
                        *battery,
                    )
                })
            }),
            r.0@ == if observe_inserts(old(self).store.history@, *battery) {
                seq![InsertModifyed::BatteryHistory]
            } else {
                Seq::<InsertModifyed>::empty()
            },
            r.1 == if observe_inserts(old(self).store.history@, *battery) {
                Some(battery.timestamp)
            } else {
                None::<i64>
            },
    {
        let (changed, _model, history_event) = self.store.insert(battery, system);
        (changed, history_event)
    }

    /// Release the store. The in-memory tiers need no teardown; closing
    /// storage connections is the host's concern.
    pub fn close(&mut self)
        ensures
            *final(self) == *old(self),
    {
    }

    /// Read one page of the state-interval history: records with
    /// `start <= timestamp <= end` and `timestamp < cursor` (the cursor
    /// defaults to `end`), newest first, at most `size` rows, each row
    /// carrying deltas against the chronologically previous record of the
    /// full filtered set. A `size` of zero yields an empty page.
    pub fn select_history_page(&self, cursor: Option<i64>, size: u8, start: i64, end: i64) -> (out:
        Vec<HistoryInfo>)
        requires
            self.wf(),
        ensures
            out@ == page_spec(
                self.store.history@,
                start as int,
                end as int,
                effective_cursor(cursor, end),
                size as int,
            ),
    {
        select_history_page(&self.store.history, cursor, size, start, end)
    }
}

} // verus!
