//! The bucket aggregator: downsamples a set of raw rows over a time window
//! into one row per fixed-width time bucket.
//!
//! Numeric metrics are averaged across each bucket, while the categorical
//! `state` column is taken from the last row observed in the bucket (ties on
//! equal timestamps broken by the highest ingestion id), so that continuous
//! metrics are smoothed but the state reflects the most recent truth.
use vstd::prelude::*;

use crate::sample::{
    metric_ok_int, raw_metric, raw_rows_wf, tier_metric, tier_ordered, tier_rows_wf, ts_ok, Metric,
    RawSample, TierSample, METRIC_MAX,
};
use crate::stats::{lemma_sum_push, mean_of, sum_of};

verus! {

/// Parameters of one downsampling pass: the half-open window
/// `[start_time, end_time)` and the bucket width in seconds.
#[derive(Clone, Copy, Debug, PartialEq, Eq, Structural)]
pub struct DownSampleParams {
    pub start_time: i64,
    pub end_time: i64,
    pub interval_secs: i64,
}

/// The bucket that a timestamp falls into: the greatest multiple of
/// `interval` that is at most `ts`.
pub open spec fn bucket_of(ts: int, interval: int) -> int {
    (ts / interval) * interval
}

/// Whether a row lies inside the window `[start, end)`.
pub open spec fn selected(r: RawSample, start: int, end: int) -> bool {
    start <= r.timestamp < end
}

/// Whether a row lies inside the window and falls into bucket `b`.
pub open spec fn in_bucket(r: RawSample, start: int, end: int, interval: int, b: int) -> bool {
    selected(r, start, end) && bucket_of(r.timestamp as int, interval) == b
}

/// The subsequence of `rows` that lies in the window and falls into bucket
/// `b`, in input order.
pub open spec fn group_rows(rows: Seq<RawSample>, start: int, end: int, interval: int, b: int) -> Seq<RawSample>
    decreases rows.len(),
{
    if rows.len() == 0 {
        Seq::empty()
    } else {
        let rest = group_rows(rows.drop_last(), start, end, interval, b);
        if in_bucket(rows.last(), start, end, interval, b) {
            rest.push(rows.last())
        } else {
            rest
        }
    }
}

/// The metric column `m` of a row group.
pub open spec fn metric_seq(g: Seq<RawSample>, m: Metric) -> Seq<int> {
    g.map_values(|r: RawSample| raw_metric(r, m))
}

/// Whether `x` wins the "last observed" ordering against `r`: a strictly
/// larger timestamp, or an equal timestamp with a larger ingestion id.
pub open spec fn observed_later(x: RawSample, r: RawSample) -> bool {
    x.timestamp > r.timestamp || (x.timestamp == r.timestamp && x.id > r.id)
}

/// The last-observed row of a non-empty group: the row with the maximum
/// timestamp, ties broken by the highest ingestion id.
pub open spec fn best_of(g: Seq<RawSample>) -> RawSample
    recommends
        g.len() > 0,
    decreases g.len(),
{
    if g.len() <= 1 {
        g[0]
    } else {
        let b = best_of(g.drop_last());
        if observed_later(g.last(), b) {
            g.last()
        } else {
            b
        }
    }
}

/// Whether `t` is the aggregator's output row for its own bucket
/// `t.timestamp` over `rows` restricted to `[start, end)`: the bucket is
/// non-empty, every numeric field is the mean of the bucket's rows, and the
/// state is the last-observed row's state.
pub open spec fn is_bucket_output(t: TierSample, rows: Seq<RawSample>, start: int, end: int, interval: int) -> bool {
    let g = group_rows(rows, start, end, interval, t.timestamp as int);
    &&& g.len() > 0
    &&& t.state == best_of(g).state
    &&& forall|m: Metric| #[trigger] tier_metric(t, m) == mean_of(metric_seq(g, m))
}

/// Whether some output row carries bucket key `b`.
pub open spec fn contains_bucket(s: Seq<TierSample>, b: int) -> bool {
    exists|i: int| 0 <= i < s.len() && s[i].timestamp == b
}

/// The full contract of a downsampling pass: rows sorted ascending by
/// bucket, exactly one row per non-empty bucket of the window, and each row
/// the aggregate of its bucket.
pub open spec fn is_down_sample(out: Seq<TierSample>, rows: Seq<RawSample>, start: int, end: int, interval: int) -> bool {
    &&& tier_ordered(out)
    &&& forall|i: int| 0 <= i < out.len() ==> is_bucket_output(#[trigger] out[i], rows, start, end, interval)
    &&& forall|j: int| 0 <= j < rows.len() && selected(#[trigger] rows[j], start, end)
        ==> contains_bucket(out, bucket_of(rows[j].timestamp as int, interval))
}

pub proof fn lemma_best_push(g: Seq<RawSample>, r: RawSample)
    requires
        g.len() > 0,
    ensures
        best_of(g.push(r)) == if observed_later(r, best_of(g)) {
            r
        } else {
            best_of(g)
        },
{
    assert(g.push(r).drop_last() =~= g);
}

pub proof fn lemma_metric_seq_push(g: Seq<RawSample>, r: RawSample, m: Metric)
    ensures
        metric_seq(g.push(r), m) == metric_seq(g, m).push(raw_metric(r, m)),
{
    assert(metric_seq(g.push(r), m) =~= metric_seq(g, m).push(raw_metric(r, m)));
}

/// `bucket_of` never exceeds its argument and undershoots it by less than
/// one bucket width.
pub proof fn lemma_bucket_bounds(ts: int, interval: int)
    requires
        interval >= 1,
    ensures
        ts - interval < bucket_of(ts, interval) <= ts,
{
    vstd::arithmetic::div_mod::lemma_fundamental_div_mod(ts, interval);
    vstd::arithmetic::div_mod::lemma_mod_bound(ts, interval);
    assert(interval * (ts / interval) == (ts / interval) * interval) by (nonlinear_arith);
}

/// `bucket_of` is monotone in the timestamp.
pub proof fn lemma_bucket_monotonic(a: int, b: int, interval: int)
    requires
        interval >= 1,
        a <= b,
    ensures
        bucket_of(a, interval) <= bucket_of(b, interval),
{
    vstd::arithmetic::div_mod::lemma_div_is_ordered(a, b, interval);
    let qa = a / interval;
    let qb = b / interval;
    assert(qa * interval <= qb * interval) by (nonlinear_arith)
        requires
            qa <= qb,
            interval >= 1,
    ;
}

/// Whether some key of the sequence equals `b`.
pub open spec fn has_key(s: Seq<i64>, b: int) -> bool {
    exists|k: int| 0 <= k < s.len() && s[k] as int == b
}

/// The bucket that an (always non-negative) timestamp falls into.
pub(crate) fn bucket_key(ts: i64, interval: i64) -> (b: i64)
    requires
        ts >= 0,
        interval >= 1,
    ensures
        b as int == bucket_of(ts as int, interval as int),
        0 <= b <= ts,
{
    proof {
        lemma_bucket_bounds(ts as int, interval as int);
        vstd::arithmetic::div_mod::lemma_div_pos_is_pos(ts as int, interval as int);
        let q = (ts as int) / (interval as int);
        assert(q * interval >= 0) by (nonlinear_arith)
            requires
                q >= 0,
                interval >= 1,
        ;
    }
    let q: u64 = (ts as u64) / (interval as u64);
    let bu: u64 = q * (interval as u64);
    bu as i64
}

/// The sorted sequence of distinct bucket keys of the rows that fall in the
/// window `[start, end)`.
fn collect_buckets(rows: &Vec<RawSample>, start: i64, end: i64, interval: i64) -> (bs: Vec<i64>)
    requires
        interval >= 1,
        raw_rows_wf(rows@),
    ensures
        forall|k1: int, k2: int| 0 <= k1 < k2 < bs@.len() ==> #[trigger] bs@[k1] < #[trigger] bs@[k2],
        forall|k: int| 0 <= k < bs@.len()
            ==> group_rows(rows@, start as int, end as int, interval as int, #[trigger] bs@[k] as int).len() > 0,
        forall|j: int| 0 <= j < rows@.len() && selected(#[trigger] rows@[j], start as int, end as int)
            ==> has_key(bs@, bucket_of(rows@[j].timestamp as int, interval as int)),
        forall|k: int| 0 <= k < bs@.len() ==> #[trigger] bs@[k] >= 0,
{
    let mut bs: Vec<i64> = Vec::new();
    let n = rows.len();
    for j in 0..n
        invariant
            interval >= 1,
            raw_rows_wf(rows@),
            n == rows@.len(),
            forall|k1: int, k2: int| 0 <= k1 < k2 < bs@.len() ==> #[trigger] bs@[k1] < #[trigger] bs@[k2],
            forall|k: int| 0 <= k < bs@.len()
                ==> group_rows(rows@.take(j as int), start as int, end as int, interval as int, #[trigger] bs@[k] as int).len() > 0,
            forall|jj: int| 0 <= jj < j && selected(#[trigger] rows@[jj], start as int, end as int)
                ==> has_key(bs@, bucket_of(rows@[jj].timestamp as int, interval as int)),
            forall|k: int| 0 <= k < bs@.len() ==> #[trigger] bs@[k] >= 0,
    {
        let ghost pre = rows@.take(j as int);
        let ghost bs_pre = bs@;
        proof {
            assert(rows@.take(j as int + 1).drop_last() =~= pre);
            assert(rows@.take(j as int + 1).last() == rows@[j as int]);
        }
        let r = rows[j];
        if start <= r.timestamp && r.timestamp < end {
            let b = bucket_key(r.timestamp, interval);
            let mut p: usize = 0;
            while p < bs.len() && bs[p] < b
                invariant
                    0 <= p <= bs@.len(),
                    bs@ == bs_pre,
                    forall|k: int| 0 <= k < p ==> #[trigger] bs@[k] < b,
                decreases bs@.len() - p,
            {
                p = p + 1;
            }
            if p == bs.len() || bs[p] > b {
                bs.insert(p, b);
                proof {
                    assert forall|k: int|
                        0 <= k < bs@.len() implies group_rows(
                        rows@.take(j as int + 1),
                        start as int,
                        end as int,
                        interval as int,
                        #[trigger] bs@[k] as int,
                    ).len() > 0 by {
                        if k < p {
                            assert(bs@[k] == bs_pre[k]);
                        } else if k > p {
                            assert(bs@[k] == bs_pre[k - 1]);
                        } else {
                            assert(in_bucket(rows@[j as int], start as int, end as int, interval as int, b as int));
                        }
                    }
                    assert forall|jj: int|
                        0 <= jj < j + 1 && selected(#[trigger] rows@[jj], start as int, end as int) implies has_key(
                        bs@,
                        bucket_of(rows@[jj].timestamp as int, interval as int),
                    ) by {
                        if jj < j {
                            let k = choose|k: int|
                                0 <= k < bs_pre.len() && bs_pre[k] as int == bucket_of(
                                    rows@[jj].timestamp as int,
                                    interval as int,
                                );
                            if k < p {
                                assert(bs@[k] == bs_pre[k]);
                            } else {
                                assert(bs@[k + 1] == bs_pre[k]);
                            }
                        } else {
                            assert(bs@[p as int] as int == bucket_of(rows@[jj].timestamp as int, interval as int));
                        }
                    }
                }
            } else {
                proof {
                    assert(bs@[p as int] == b);
                    assert forall|k: int|
                        0 <= k < bs@.len() implies group_rows(
                        rows@.take(j as int + 1),
                        start as int,
                        end as int,
                        interval as int,
                        #[trigger] bs@[k] as int,
                    ).len() > 0 by {
                        assert(group_rows(pre, start as int, end as int, interval as int, bs@[k] as int).len() > 0);
                    }
                }
            }
        } else {
            proof {
                assert forall|k: int|
                    0 <= k < bs@.len() implies group_rows(
                    rows@.take(j as int + 1),
                    start as int,
                    end as int,
                    interval as int,
                    #[trigger] bs@[k] as int,
                ).len() > 0 by {
                    assert(group_rows(pre, start as int, end as int, interval as int, bs@[k] as int).len() > 0);
                }
            }
        }
    }
    proof {
        assert(rows@.take(n as int) =~= rows@);
    }
    bs
}

/// The aggregate row of one non-empty bucket: the mean of every numeric
/// metric over the bucket's rows, and the state of the last-observed row.
fn aggregate_bucket(rows: &Vec<RawSample>, start: i64, end: i64, interval: i64, b: i64) -> (t: TierSample)
    requires
        interval >= 1,
        raw_rows_wf(rows@),
        group_rows(rows@, start as int, end as int, interval as int, b as int).len() > 0,
    ensures
        t.timestamp == b,
        is_bucket_output(t, rows@, start as int, end as int, interval as int),
        forall|m: Metric| metric_ok_int(#[trigger] tier_metric(t, m)),
{
    let ghost gstart = start as int;
    let ghost gend = end as int;
    let ghost ginterval = interval as int;
    let ghost gb = b as int;
    let mut count: u64 = 0;
    let mut sum_pct: u128 = 0;
    let mut sum_rate: u128 = 0;
    let mut sum_volt: u128 = 0;
    let mut sum_cpu: u128 = 0;
    let mut sum_bright: u128 = 0;
    let mut sum_soh: u128 = 0;
    let mut best_ts: i64 = 0;
    let mut best_id: u64 = 0;
    let mut best_state = crate::sample::BatteryState::Unknown;
    let n = rows.len();
    for j in 0..n
        invariant
            interval >= 1,
            raw_rows_wf(rows@),
            n == rows@.len(),
            gstart == start as int,
            gend == end as int,
            ginterval == interval as int,
            gb == b as int,
            count == group_rows(rows@.take(j as int), gstart, gend, ginterval, gb).len(),
            count <= j,
            sum_pct == sum_of(metric_seq(group_rows(rows@.take(j as int), gstart, gend, ginterval, gb), Metric::Percentage)),
            sum_rate == sum_of(metric_seq(group_rows(rows@.take(j as int), gstart, gend, ginterval, gb), Metric::EnergyRate)),
            sum_volt == sum_of(metric_seq(group_rows(rows@.take(j as int), gstart, gend, ginterval, gb), Metric::Voltage)),
            sum_cpu == sum_of(metric_seq(group_rows(rows@.take(j as int), gstart, gend, ginterval, gb), Metric::CpuLoad)),
            sum_bright == sum_of(metric_seq(group_rows(rows@.take(j as int), gstart, gend, ginterval, gb), Metric::ScreenBrightness)),
            sum_soh == sum_of(metric_seq(group_rows(rows@.take(j as int), gstart, gend, ginterval, gb), Metric::StateOfHealth)),
            sum_pct <= count as int * (METRIC_MAX as int),
            sum_rate <= count as int * (METRIC_MAX as int),
            sum_volt <= count as int * (METRIC_MAX as int),
            sum_cpu <= count as int * (METRIC_MAX as int),
            sum_bright <= count as int * (METRIC_MAX as int),
            sum_soh <= count as int * (METRIC_MAX as int),
            count > 0 ==> {
                let best = best_of(group_rows(rows@.take(j as int), gstart, gend, ginterval, gb));
                best_ts == best.timestamp && best_id == best.id && best_state == best.state
            },
    {
        let ghost pre = rows@.take(j as int);
        let ghost g = group_rows(pre, gstart, gend, ginterval, gb);
        proof {
            assert(rows@.take(j as int + 1).drop_last() =~= pre);
            assert(rows@.take(j as int + 1).last() == rows@[j as int]);
        }
        let r = rows[j];
        proof {
            assert(r == rows@[j as int]);
            assert(rows@[j as int].wf());
        }
        let mut matched = false;
        if start <= r.timestamp && r.timestamp < end {
            let bk = bucket_key(r.timestamp, interval);
            matched = bk == b;
            proof {
                assert(matched == in_bucket(rows@[j as int], gstart, gend, ginterval, gb));
            }
        } else {
            proof {
                assert(!selected(rows@[j as int], gstart, gend));
                assert(matched == in_bucket(rows@[j as int], gstart, gend, ginterval, gb));
            }
        }
        if matched {
            proof {
                assert(in_bucket(rows@[j as int], gstart, gend, ginterval, gb));
                assert(group_rows(rows@.take(j as int + 1), gstart, gend, ginterval, gb) == g.push(rows@[j as int]));
                lemma_metric_seq_push(g, rows@[j as int], Metric::Percentage);
                lemma_metric_seq_push(g, rows@[j as int], Metric::EnergyRate);
                lemma_metric_seq_push(g, rows@[j as int], Metric::Voltage);
                lemma_metric_seq_push(g, rows@[j as int], Metric::CpuLoad);
                lemma_metric_seq_push(g, rows@[j as int], Metric::ScreenBrightness);
                lemma_metric_seq_push(g, rows@[j as int], Metric::StateOfHealth);
                lemma_sum_push(metric_seq(g, Metric::Percentage), raw_metric(rows@[j as int], Metric::Percentage));
                lemma_sum_push(metric_seq(g, Metric::EnergyRate), raw_metric(rows@[j as int], Metric::EnergyRate));
                lemma_sum_push(metric_seq(g, Metric::Voltage), raw_metric(rows@[j as int], Metric::Voltage));
                lemma_sum_push(metric_seq(g, Metric::CpuLoad), raw_metric(rows@[j as int], Metric::CpuLoad));
                lemma_sum_push(metric_seq(g, Metric::ScreenBrightness), raw_metric(rows@[j as int], Metric::ScreenBrightness));
                lemma_sum_push(metric_seq(g, Metric::StateOfHealth), raw_metric(rows@[j as int], Metric::StateOfHealth));
                if g.len() > 0 {
                    lemma_best_push(g, rows@[j as int]);
                } else {
                    assert(g.push(rows@[j as int])[0] == rows@[j as int]);
                }
                assert((count + 1) as int * (METRIC_MAX as int) == count as int * (METRIC_MAX as int) + METRIC_MAX as int)
                    by (nonlinear_arith);
            }
            if count == 0 || r.timestamp > best_ts || (r.timestamp == best_ts && r.id > best_id) {
                best_ts = r.timestamp;
                best_id = r.id;
                best_state = r.state;
            }
            count = count + 1;
            sum_pct = sum_pct + (r.percentage as u128);
            sum_rate = sum_rate + (r.energy_rate as u128);
            sum_volt = sum_volt + (r.voltage as u128);
            sum_cpu = sum_cpu + (r.cpu_load as u128);
            sum_bright = sum_bright + (r.screen_brightness as u128);
            sum_soh = sum_soh + (r.state_of_health as u128);
        } else {
            proof {
                assert(!in_bucket(rows@[j as int], gstart, gend, ginterval, gb));
                assert(group_rows(rows@.take(j as int + 1), gstart, gend, ginterval, gb) == g);
            }
        }
    }
    proof {
        assert(rows@.take(n as int) =~= rows@);
    }
    let ghost g = group_rows(rows@, gstart, gend, ginterval, gb);
    let t = TierSample {
        timestamp: b,
        state: best_state,
        percentage: mean_div(sum_pct, count),
        energy_rate: mean_div(sum_rate, count),
        voltage: mean_div(sum_volt, count),
        cpu_load: mean_div(sum_cpu, count),
        screen_brightness: mean_div(sum_bright, count),
        state_of_health: mean_div(sum_soh, count),
    };
    proof {
        assert forall|m: Metric| #[trigger] tier_metric(t, m) == mean_of(metric_seq(g, m))
            && metric_ok_int(tier_metric(t, m)) by {
            let s = metric_seq(g, m);
            assert(s.len() == g.len());
        }
    }
    t
}

/// Downsample `rows` restricted to the window `[params.start_time,
/// params.end_time)` into one aggregate row per non-empty bucket of width
/// `params.interval_secs`, ordered by bucket ascending.
pub fn down_sample(rows: &Vec<RawSample>, params: &DownSampleParams) -> (out: Vec<TierSample>)
    requires
        params.interval_secs >= 1,
        raw_rows_wf(rows@),
    ensures
        is_down_sample(
            out@,
            rows@,
            params.start_time as int,
            params.end_time as int,
            params.interval_secs as int,
        ),
        tier_rows_wf(out@),
{
    let start = params.start_time;
    let end = params.end_time;
    let interval = params.interval_secs;
    let bs = collect_buckets(rows, start, end, interval);
    let mut out: Vec<TierSample> = Vec::new();
    let m = bs.len();
    for k in 0..m
        invariant
            interval >= 1,
            raw_rows_wf(rows@),
            m == bs@.len(),
            out@.len() == k,
            forall|k1: int, k2: int| 0 <= k1 < k2 < bs@.len() ==> #[trigger] bs@[k1] < #[trigger] bs@[k2],
            forall|kk: int| 0 <= kk < bs@.len()
                ==> group_rows(rows@, start as int, end as int, interval as int, #[trigger] bs@[kk] as int).len() > 0,
            forall|j: int| 0 <= j < rows@.len() && selected(#[trigger] rows@[j], start as int, end as int)
                ==> has_key(bs@, bucket_of(rows@[j].timestamp as int, interval as int)),
            forall|kk: int| 0 <= kk < bs@.len() ==> #[trigger] bs@[kk] >= 0,
            forall|i: int| 0 <= i < k ==> #[trigger] out@[i].timestamp == bs@[i],
            forall|i: int| 0 <= i < k
                ==> is_bucket_output(#[trigger] out@[i], rows@, start as int, end as int, interval as int),
            forall|i: int| 0 <= i < k ==> (#[trigger] out@[i]).wf(),
    {
        let b = bs[k];
        let t = aggregate_bucket(rows, start, end, interval, b);
        proof {
            let g = group_rows(rows@, start as int, end as int, interval as int, b as int);
            lemma_group_members(rows@, start as int, end as int, interval as int, b as int, 0);
            let q = choose|q: int| 0 <= q < rows@.len() && rows@[q] == g[0];
            assert(rows@[q].wf());
            lemma_bucket_bounds(g[0].timestamp as int, interval as int);
            assert(ts_ok(t.timestamp));
        }
        out.push(t);
    }
    proof {
        assert forall|j: int|
            0 <= j < rows@.len() && selected(#[trigger] rows@[j], start as int, end as int) implies contains_bucket(
            out@,
            bucket_of(rows@[j].timestamp as int, interval as int),
        ) by {
            let bkt = bucket_of(rows@[j].timestamp as int, interval as int);
            let k = choose|k: int| 0 <= k < bs@.len() && bs@[k] as int == bkt;
            assert(out@[k].timestamp == bs@[k]);
        }
    }
    out
}

/// The set of distinct buckets that the window's rows fall into.
pub open spec fn window_bucket_set(rows: Seq<RawSample>, start: int, end: int, interval: int) -> Set<int> {
    rows.filter(|r: RawSample| selected(r, start, end))
        .map_values(|r: RawSample| bucket_of(r.timestamp as int, interval))
        .to_set()
}

/// The aggregator emits exactly one row per distinct non-empty bucket of the
/// window: the output length equals the number of such buckets.
pub proof fn lemma_down_sample_count(
    out: Seq<TierSample>,
    rows: Seq<RawSample>,
    start: int,
    end: int,
    interval: int,
)
    requires
        is_down_sample(out, rows, start, end, interval),
    ensures
        out.len() == window_bucket_set(rows, start, end, interval).len(),
{
    broadcast use vstd::seq_lib::group_seq_properties;
    broadcast use vstd::set::group_set_axioms;

    let pred = |r: RawSample| selected(r, start, end);
    let f = |r: RawSample| bucket_of(r.timestamp as int, interval);
    let filtered = rows.filter(pred);
    let mapped = filtered.map_values(f);
    let keys = out.map_values(|t: TierSample| t.timestamp as int);
    assert(keys.no_duplicates()) by {
        assert forall|i: int, j: int| 0 <= i < keys.len() && 0 <= j < keys.len() && i != j implies keys[i]
            != keys[j] by {
            if i < j {
                assert(out[i].timestamp < out[j].timestamp);
            } else {
                assert(out[j].timestamp < out[i].timestamp);
            }
        }
    }
    keys.unique_seq_to_set();
    assert(keys.to_set() =~= mapped.to_set()) by {
        assert forall|b: int| keys.to_set().contains(b) implies mapped.to_set().contains(b) by {
            let i = choose|i: int| 0 <= i < keys.len() && keys[i] == b;
            let g = group_rows(rows, start, end, interval, b);
            assert(is_bucket_output(out[i], rows, start, end, interval));
            assert(g.len() > 0);
            lemma_group_members(rows, start, end, interval, b, 0);
            let q = choose|q: int| 0 <= q < rows.len() && rows[q] == g[0];
            rows.lemma_filter_contains(pred, q);
            let p = choose|p: int| 0 <= p < filtered.len() && filtered[p] == rows[q];
            assert(mapped[p] == b);
            assert(mapped.contains(b));
        }
        assert forall|b: int| mapped.to_set().contains(b) implies keys.to_set().contains(b) by {
            let p = choose|p: int| 0 <= p < mapped.len() && mapped[p] == b;
            rows.lemma_filter_pred(pred, p);
            lemma_filter_member_index(rows, pred, p);
            let q = choose|q: int| 0 <= q < rows.len() && rows[q] == filtered[p];
            assert(selected(rows[q], start, end));
            assert(contains_bucket(out, bucket_of(rows[q].timestamp as int, interval)));
            let i = choose|i: int| 0 <= i < out.len() && out[i].timestamp == b;
            assert(keys[i] == b);
            assert(keys.contains(b));
        }
    }
}

/// Every element of a filtered sequence occurs in the original sequence.
proof fn lemma_filter_member_index(rows: Seq<RawSample>, pred: spec_fn(RawSample) -> bool, p: int)
    requires
        0 <= p < rows.filter(pred).len(),
    ensures
        exists|q: int| 0 <= q < rows.len() && rows[q] == rows.filter(pred)[p],
    decreases rows.len(),
{
    reveal(Seq::filter);
    if rows.len() > 0 {
        let out = rows.filter(pred);
        let rest = rows.drop_last().filter(pred);
        if pred(rows.last()) && p == out.len() - 1 {
            assert(out[p] == rows.last());
            assert(rows[rows.len() - 1] == rows.last());
        } else {
            lemma_filter_member_index(rows.drop_last(), pred, p);
            let q = choose|q: int| 0 <= q < rows.drop_last().len() && rows.drop_last()[q] == rest[p];
            assert(rows[q] == rest[p]);
        }
    }
}

/// The mean of a bucket sum: `sum / count`, rounded toward zero.
pub(crate) fn mean_div(sum: u128, count: u64) -> (q: i64)
    requires
        count > 0,
        sum as int <= count as int * (METRIC_MAX as int),
    ensures
        q as int == sum as int / count as int,
        0 <= q <= METRIC_MAX,
{
    proof {
        vstd::arithmetic::div_mod::lemma_div_is_ordered(
            sum as int,
            count as int * (METRIC_MAX as int),
            count as int,
        );
        vstd::arithmetic::div_mod::lemma_div_multiples_vanish(METRIC_MAX as int, count as int);
        vstd::arithmetic::div_mod::lemma_div_pos_is_pos(sum as int, count as int);
    }
    (sum / (count as u128)) as i64
}

/// Every member of a bucket group is a row of the input.
pub proof fn lemma_group_members(rows: Seq<RawSample>, start: int, end: int, interval: int, b: int, i: int)
    requires
        0 <= i < group_rows(rows, start, end, interval, b).len(),
    ensures
        rows.contains(group_rows(rows, start, end, interval, b)[i]),
        in_bucket(group_rows(rows, start, end, interval, b)[i], start, end, interval, b),
    decreases rows.len(),
{
    if rows.len() > 0 {
        let g = group_rows(rows, start, end, interval, b);
        let rest = group_rows(rows.drop_last(), start, end, interval, b);
        if in_bucket(rows.last(), start, end, interval, b) && i == g.len() - 1 {
            assert(g[i] == rows.last());
            assert(rows[rows.len() - 1] == rows.last());
        } else {
            lemma_group_members(rows.drop_last(), start, end, interval, b, i);
            let q = choose|q: int| 0 <= q < rows.drop_last().len() && rows.drop_last()[q] == rest[i];
            assert(rows[q] == rest[i]);
        }
    }
}

/// The last-observed row of a non-empty group is in the group and beats
/// every other group member on the (timestamp, id) ordering.
pub proof fn lemma_best_of_props(g: Seq<RawSample>)
    requires
        g.len() > 0,
    ensures
        g.contains(best_of(g)),
        forall|i: int| 0 <= i < g.len() ==> !observed_later(#[trigger] g[i], best_of(g)),
    decreases g.len(),
{
    if g.len() == 1 {
        assert(g[0] == best_of(g));
    } else {
        lemma_best_of_props(g.drop_last());
        let b = best_of(g.drop_last());
        assert(g.drop_last().contains(b));
        let k = choose|k: int| 0 <= k < g.drop_last().len() && g.drop_last()[k] == b;
        assert(g[k] == b);
        assert forall|i: int| 0 <= i < g.len() implies !observed_later(#[trigger] g[i], best_of(g)) by {
            if i < g.len() - 1 {
                assert(g.drop_last()[i] == g[i]);
            }
        }
    }
}

} // verus!
