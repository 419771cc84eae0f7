//! The history query service: keyset-paginated descending reads of the
//! state-interval history, with inline delta computation.
//!
//! A page admits records with `start <= timestamp <= end` and
//! `timestamp < cursor` (the cursor defaults to `end` for the first page),
//! orders them by timestamp descending, and annotates each row with deltas
//! against the chronologically previous record of the *full* filtered set,
//! so that deltas are stable across page boundaries. The oldest record of
//! the filtered set has null deltas.
use vstd::prelude::*;

use crate::history::history_wf;
use crate::sample::{BatteryState, StateHistoryRecord};

verus! {

/// One row of a history page: a record's fields plus deltas against the
/// chronologically previous record of the full filtered set.
#[derive(Clone, Copy, Debug, PartialEq, Eq)]
pub struct HistoryInfo {
    pub prev_timestamp: Option<i64>,
    pub timestamp_diff: Option<i64>,
    pub prev_state_of_health: Option<i64>,
    pub state_of_health_diff: Option<i64>,
    pub prev_percentage: Option<i64>,
    pub percentage_diff: Option<i64>,
    pub prev_capacity: Option<i64>,
    pub capacity_diff: Option<i64>,
    pub timestamp: i64,
    pub end_at: Option<i64>,
    pub state: BatteryState,
    pub prev: Option<BatteryState>,
    pub capacity: i64,
    pub full_capacity: i64,
    pub design_capacity: i64,
    pub percentage: i64,
    pub state_of_health: i64,
    pub energy_rate: i64,
    pub voltage: i64,
    pub cpu_load: i64,
    pub screen_brightness: i64,
}

/// The records a query admits, in ascending order: those with
/// `start <= timestamp <= end` and `timestamp < cur`.
pub open spec fn page_filter(h: Seq<StateHistoryRecord>, start: int, end: int, cur: int) -> Seq<StateHistoryRecord>
    decreases h.len(),
{
    if h.len() == 0 {
        Seq::empty()
    } else {
        let rest = page_filter(h.drop_last(), start, end, cur);
        if start <= h.last().timestamp as int <= end && (h.last().timestamp as int) < cur {
            rest.push(h.last())
        } else {
            rest
        }
    }
}

/// The page row built from position `j` (in ascending order) of the
/// filtered set: the record's fields, with deltas against the record one
/// step earlier in ascending time order, or nulls for the oldest record.
pub open spec fn info_row(f: Seq<StateHistoryRecord>, j: int) -> HistoryInfo
    recommends
        0 <= j < f.len(),
{
    let rec = f[j];
    let base = HistoryInfo {
        prev_timestamp: None,
        timestamp_diff: None,
        prev_state_of_health: None,
        state_of_health_diff: None,
        prev_percentage: None,
        percentage_diff: None,
        prev_capacity: None,
        capacity_diff: None,
        timestamp: rec.timestamp,
        end_at: rec.end_at,
        state: rec.state,
        prev: rec.prev,
        capacity: rec.capacity,
        full_capacity: rec.full_capacity,
        design_capacity: rec.design_capacity,
        percentage: rec.percentage,
        state_of_health: rec.state_of_health,
        energy_rate: rec.energy_rate,
        voltage: rec.voltage,
        cpu_load: rec.cpu_load,
        screen_brightness: rec.screen_brightness,
    };
    if j == 0 {
        base
    } else {
        let p = f[j - 1];
        HistoryInfo {
            prev_timestamp: Some(p.timestamp),
            timestamp_diff: Some((rec.timestamp - p.timestamp) as i64),
            prev_state_of_health: Some(p.state_of_health),
            state_of_health_diff: Some((rec.state_of_health - p.state_of_health) as i64),
            prev_percentage: Some(p.percentage),
            percentage_diff: Some((rec.percentage - p.percentage) as i64),
            prev_capacity: Some(p.capacity),
            capacity_diff: Some((rec.capacity - p.capacity) as i64),
            ..base
        }
    }
}

/// The page for a cursor and size: the filtered set read backwards
/// (newest first), truncated to `size` rows.
pub open spec fn page_spec(h: Seq<StateHistoryRecord>, start: int, end: int, cur: int, size: int) -> Seq<HistoryInfo> {
    let f = page_filter(h, start, end, cur);
    let count = if size < f.len() {
        size
    } else {
        f.len() as int
    };
    Seq::new(count as nat, |i: int| info_row(f, f.len() - 1 - i))
}

/// The effective cursor of a query: the given one, or `end` for the first
/// page.
pub open spec fn effective_cursor(cursor: Option<i64>, end: i64) -> int {
    match cursor {
        Some(c) => c as int,
        None => end as int,
    }
}

/// Every filtered record occurs in the history and satisfies the window
/// and cursor conditions; order, well-formedness and sortedness carry over.
pub proof fn lemma_page_filter_props(h: Seq<StateHistoryRecord>, start: int, end: int, cur: int)
    ensures
        forall|i: int| 0 <= i < page_filter(h, start, end, cur).len()
            ==> h.contains(#[trigger] page_filter(h, start, end, cur)[i]),
        forall|i: int|
            0 <= i < page_filter(h, start, end, cur).len() ==> {
                let t = (#[trigger] page_filter(h, start, end, cur)[i]).timestamp as int;
                start <= t <= end && t < cur
            },
        forall|i: int|
            0 <= i < h.len() && start <= (#[trigger] h[i]).timestamp as int <= end
                && (h[i].timestamp as int) < cur ==> page_filter(h, start, end, cur).contains(h[i]),
        (forall|i: int, j: int|
            0 <= i < j < h.len() ==> (#[trigger] h[i].timestamp) < (#[trigger] h[j].timestamp))
            ==> forall|i: int, j: int|
            0 <= i < j < page_filter(h, start, end, cur).len()
                ==> (#[trigger] page_filter(h, start, end, cur)[i].timestamp)
                < (#[trigger] page_filter(h, start, end, cur)[j].timestamp),
        (forall|i: int| 0 <= i < h.len() ==> (#[trigger] h[i]).wf()) ==> forall|i: int|
            0 <= i < page_filter(h, start, end, cur).len()
                ==> (#[trigger] page_filter(h, start, end, cur)[i]).wf(),
    decreases h.len(),
{
    if h.len() > 0 {
        lemma_page_filter_props(h.drop_last(), start, end, cur);
        let f = page_filter(h, start, end, cur);
        let rest = page_filter(h.drop_last(), start, end, cur);
        assert(forall|i: int| 0 <= i < h.drop_last().len() ==> #[trigger] h.drop_last()[i] == h[i]);
        assert forall|i: int| 0 <= i < f.len() implies h.contains(#[trigger] f[i]) by {
            if start <= h.last().timestamp as int <= end && (h.last().timestamp as int) < cur
                && i == f.len() - 1 {
                assert(h[h.len() - 1] == f[i]);
            } else {
                let q = choose|q: int| 0 <= q < h.drop_last().len() && h.drop_last()[q] == rest[i];
                assert(h[q] == f[i]);
            }
        }
        assert forall|i: int|
            0 <= i < h.len() && start <= (#[trigger] h[i]).timestamp as int <= end
                && (h[i].timestamp as int) < cur implies f.contains(h[i]) by {
            if i == h.len() - 1 {
                assert(f[f.len() - 1] == h[i]);
            } else {
                assert(h.drop_last()[i] == h[i]);
                assert(start <= h.drop_last()[i].timestamp as int <= end);
                assert((h.drop_last()[i].timestamp as int) < cur);
                assert(rest.contains(h.drop_last()[i]));
                let q = choose|q: int| 0 <= q < rest.len() && rest[q] == h[i];
                assert(f[q] == h[i]);
            }
        }
        if forall|i: int, j: int|
            0 <= i < j < h.len() ==> (#[trigger] h[i].timestamp) < (#[trigger] h[j].timestamp) {
            assert forall|i: int, j: int|
                0 <= i < j < f.len() implies (#[trigger] f[i].timestamp) < (#[trigger] f[j].timestamp) by {
                if start <= h.last().timestamp as int <= end && (h.last().timestamp as int) < cur
                    && j == f.len() - 1 {
                    assert(rest.contains(f[i]));
                    let q = choose|q: int| 0 <= q < h.drop_last().len() && h.drop_last()[q] == f[i];
                    assert(h[q] == f[i]);
                    assert(h[h.len() - 1] == f[j]);
                }
            }
        }
        if forall|i: int| 0 <= i < h.len() ==> (#[trigger] h[i]).wf() {
            assert forall|i: int| 0 <= i < f.len() implies (#[trigger] f[i]).wf() by {
                let q = choose|q: int| 0 <= q < h.len() && h[q] == f[i];
            }
        }
    }
}

/// A page lists records in strictly descending timestamp order.
pub proof fn lemma_page_descending(h: Seq<StateHistoryRecord>, start: int, end: int, cur: int, size: int)
    requires
        history_wf(h),
        0 <= size,
    ensures
        forall|i: int, j: int|
            0 <= i < j < page_spec(h, start, end, cur, size).len()
                ==> (#[trigger] page_spec(h, start, end, cur, size)[i].timestamp)
                > (#[trigger] page_spec(h, start, end, cur, size)[j].timestamp),
{
    lemma_page_filter_props(h, start, end, cur);
    assert(forall|i: int, j: int|
        0 <= i < j < h.len() ==> (#[trigger] h[i].timestamp) < (#[trigger] h[j].timestamp));
    let f = page_filter(h, start, end, cur);
    let page = page_spec(h, start, end, cur, size);
    assert forall|i: int, j: int|
        0 <= i < j < page.len() implies (#[trigger] page[i].timestamp)
        > (#[trigger] page[j].timestamp) by {
        assert(page.len() <= f.len());
        assert(0 <= f.len() - 1 - j < f.len() - 1 - i < f.len());
        assert(page[i] == info_row(f, f.len() - 1 - i));
        assert(page[j] == info_row(f, f.len() - 1 - j));
        assert(f[f.len() - 1 - j].timestamp < f[f.len() - 1 - i].timestamp);
    }
}

/// The last row of a full (unpaginated) result — the oldest admitted
/// record — carries null deltas.
pub proof fn lemma_full_page_null_deltas(
    h: Seq<StateHistoryRecord>,
    start: int,
    end: int,
    cur: int,
    size: int,
)
    requires
        size >= page_filter(h, start, end, cur).len(),
        page_filter(h, start, end, cur).len() > 0,
    ensures
        page_spec(h, start, end, cur, size).last() == info_row(page_filter(h, start, end, cur), 0),
        page_spec(h, start, end, cur, size).last().timestamp_diff is None,
        page_spec(h, start, end, cur, size).last().state_of_health_diff is None,
        page_spec(h, start, end, cur, size).last().percentage_diff is None,
        page_spec(h, start, end, cur, size).last().capacity_diff is None,
        page_spec(h, start, end, cur, size).last().prev_timestamp is None,
{
}

/// The records of `f` whose timestamp lies before the cursor.
pub open spec fn cursor_cut(f: Seq<StateHistoryRecord>, c: int) -> Seq<StateHistoryRecord>
    decreases f.len(),
{
    if f.len() == 0 {
        Seq::empty()
    } else {
        let rest = cursor_cut(f.drop_last(), c);
        if (f.last().timestamp as int) < c {
            rest.push(f.last())
        } else {
            rest
        }
    }
}

/// Tightening the cursor filters the already-filtered set again.
proof fn lemma_page_filter_tighten(h: Seq<StateHistoryRecord>, start: int, end: int, cur: int, cur2: int)
    requires
        cur2 <= cur,
    ensures
        page_filter(h, start, end, cur2) == cursor_cut(page_filter(h, start, end, cur), cur2),
    decreases h.len(),
{
    if h.len() > 0 {
        lemma_page_filter_tighten(h.drop_last(), start, end, cur, cur2);
        let rest = page_filter(h.drop_last(), start, end, cur);
        if start <= h.last().timestamp as int <= end && (h.last().timestamp as int) < cur {
            assert(rest.push(h.last()).drop_last() =~= rest);
        }
    }
}

/// On a strictly ascending sequence, cutting at a cursor takes a prefix.
proof fn lemma_cursor_cut_take(f: Seq<StateHistoryRecord>, c: int, p: int)
    requires
        0 <= p <= f.len(),
        forall|i: int| 0 <= i < p ==> (#[trigger] f[i].timestamp) < c,
        forall|i: int| p <= i < f.len() ==> (#[trigger] f[i].timestamp) >= c,
    ensures
        cursor_cut(f, c) == f.take(p),
    decreases f.len(),
{
    if f.len() == 0 {
        assert(cursor_cut(f, c) =~= f.take(p));
    } else if p == f.len() {
        assert(forall|i: int| 0 <= i < f.drop_last().len() ==> #[trigger] f.drop_last()[i] == f[i]);
        lemma_cursor_cut_take(f.drop_last(), c, p - 1);
        assert(f.drop_last().take(p - 1) =~= f.drop_last());
        assert(cursor_cut(f, c) =~= f.take(p));
    } else {
        assert(forall|i: int| 0 <= i < f.drop_last().len() ==> #[trigger] f.drop_last()[i] == f[i]);
        lemma_cursor_cut_take(f.drop_last(), c, p);
        assert(f.drop_last().take(p) =~= f.take(p));
        assert(f.last().timestamp >= c);
    }
}

/// Concatenating successive pages — each next cursor being the previous
/// page's last timestamp — reproduces the full descending sequence, with
/// the same deltas, without gaps or duplicates.
pub proof fn lemma_pages_concatenate(
    h: Seq<StateHistoryRecord>,
    start: int,
    end: int,
    cur: int,
    k1: int,
    k2: int,
)
    requires
        history_wf(h),
        0 < k1 <= page_filter(h, start, end, cur).len(),
        0 <= k2,
    ensures
        page_spec(h, start, end, cur, k1 + k2) == page_spec(h, start, end, cur, k1) + page_spec(
            h,
            start,
            end,
            page_spec(h, start, end, cur, k1).last().timestamp as int,
            k2,
        ),
{
    lemma_page_filter_props(h, start, end, cur);
    let f = page_filter(h, start, end, cur);
    let m = f.len() as int;
    let page1 = page_spec(h, start, end, cur, k1);
    assert(page1.len() == k1);
    assert(page1.last() == info_row(f, m - k1));
    let cur2 = f[m - k1].timestamp as int;
    assert(page1.last().timestamp as int == cur2);
    assert(cur2 <= cur) by {
        assert((f[m - k1].timestamp as int) < cur);
    }
    lemma_page_filter_tighten(h, start, end, cur, cur2);
    lemma_cursor_cut_take(f, cur2, m - k1);
    let f2 = page_filter(h, start, end, cur2);
    assert(f2 == f.take(m - k1));
    assert(f2.len() == m - k1);
    assert forall|j: int| 0 <= j < m - k1 implies info_row(f2, j) == info_row(f, j) by {
        assert(f2[j] == f[j]);
        if j > 0 {
            assert(f2[j - 1] == f[j - 1]);
        }
    }
    let combined = page_spec(h, start, end, cur, k1 + k2);
    let page2 = page_spec(h, start, end, cur2, k2);
    assert(combined =~= page1 + page2) by {
        assert forall|i: int| 0 <= i < combined.len() implies combined[i] == (page1 + page2)[i] by {
            if i < k1 {
                assert((page1 + page2)[i] == page1[i]);
            } else {
                assert((page1 + page2)[i] == page2[i - k1]);
                assert(page2[i - k1] == info_row(f2, f2.len() - 1 - (i - k1)));
                assert(info_row(f2, m - k1 - 1 - (i - k1)) == info_row(f, m - 1 - i));
            }
        }
    }
}

/// Read one page of the history: records admitted by the window and
/// cursor, newest first, each row carrying deltas against the previous
/// record of the full filtered set. A `size` of zero yields an empty page.
#[verifier::rlimit(100)]
pub fn select_history_page(
    history: &Vec<StateHistoryRecord>,
    cursor: Option<i64>,
    size: u8,
    start: i64,
    end: i64,
) -> (out: Vec<HistoryInfo>)
    requires
        history_wf(history@),
    ensures
        out@ == page_spec(
            history@,
            start as int,
            end as int,
            effective_cursor(cursor, end),
            size as int,
        ),
{
    let cur: i64 = match cursor {
        Some(c) => c,
        None => end,
    };
    let ghost gcur = effective_cursor(cursor, end);
    let mut f: Vec<StateHistoryRecord> = Vec::new();
    let n = history.len();
    for j in 0..n
        invariant
            n == history@.len(),
            gcur == cur as int,
            f@ == page_filter(history@.take(j as int), start as int, end as int, gcur),
    {
        proof {
            assert(history@.take(j as int + 1).drop_last() =~= history@.take(j as int));
            assert(history@.take(j as int + 1).last() == history@[j as int]);
        }
        let rec = history[j];
        if start <= rec.timestamp && rec.timestamp <= end && rec.timestamp < cur {
            f.push(rec);
        }
    }
    proof {
        assert(history@.take(n as int) =~= history@);
        lemma_page_filter_props(history@, start as int, end as int, gcur);
    }
    let m = f.len();
    let count: usize = if (size as usize) < m {
        size as usize
    } else {
        m
    };
    let mut out: Vec<HistoryInfo> = Vec::new();
    for i in 0..count
        invariant
            count <= m,
            m == f@.len(),
            history_wf(history@),
            f@ == page_filter(history@, start as int, end as int, gcur),
            out@.len() == i,
            forall|k: int| 0 <= k < i ==> #[trigger] out@[k] == info_row(f@, m - 1 - k),
    {
        let j = m - 1 - i;
        let rec = f[j];
        proof {
            lemma_page_filter_props(history@, start as int, end as int, gcur);
            assert(f@[j as int].wf());
            if j > 0 {
                assert(f@[j as int - 1].wf());
            }
        }
        let row: HistoryInfo;
        if j == 0 {
            row = HistoryInfo {
                prev_timestamp: None,
                timestamp_diff: None,
                prev_state_of_health: None,
                state_of_health_diff: None,
                prev_percentage: None,
                percentage_diff: None,
                prev_capacity: None,
                capacity_diff: None,
                timestamp: rec.timestamp,
                end_at: rec.end_at,
                state: rec.state,
                prev: rec.prev,
                capacity: rec.capacity,
                full_capacity: rec.full_capacity,
                design_capacity: rec.design_capacity,
                percentage: rec.percentage,
                state_of_health: rec.state_of_health,
                energy_rate: rec.energy_rate,
                voltage: rec.voltage,
                cpu_load: rec.cpu_load,
                screen_brightness: rec.screen_brightness,
            };
        } else {
            let p = f[j - 1];
            row = HistoryInfo {
                prev_timestamp: Some(p.timestamp),
                timestamp_diff: Some(rec.timestamp - p.timestamp),
                prev_state_of_health: Some(p.state_of_health),
                state_of_health_diff: Some(rec.state_of_health - p.state_of_health),
                prev_percentage: Some(p.percentage),
                percentage_diff: Some(rec.percentage - p.percentage),
                prev_capacity: Some(p.capacity),
                capacity_diff: Some(rec.capacity - p.capacity),
                timestamp: rec.timestamp,
                end_at: rec.end_at,
                state: rec.state,
                prev: rec.prev,
                capacity: rec.capacity,
                full_capacity: rec.full_capacity,
                design_capacity: rec.design_capacity,
                percentage: rec.percentage,
                state_of_health: rec.state_of_health,
                energy_rate: rec.energy_rate,
                voltage: rec.voltage,
                cpu_load: rec.cpu_load,
                screen_brightness: rec.screen_brightness,
            };
        }
        out.push(row);
    }
    proof {
        assert(out@ =~= page_spec(history@, start as int, end as int, gcur, size as int));
    }
    out
}

} // verus!
