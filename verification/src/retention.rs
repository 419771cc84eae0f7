//! The cleaner: unconditional deletion of expired rows, one fixed horizon
//! per tier. A row expires exactly when its timestamp is older than
//! `now - horizon`; every younger row is preserved unchanged and in order.
use vstd::prelude::*;

use crate::sample::{raw_ordered, raw_rows_wf, tier_ordered, tier_rows_wf, RawSample, TierSample};

verus! {

/// Horizon of the short (raw) tier, in seconds.
pub const RAW_HORIZON_SECS: i64 = 60;

/// Horizon of the realtime (medium) tier, in seconds.
pub const REALTIME_HORIZON_SECS: i64 = 86_400;

/// Horizon of the one-minute (long) tier, in seconds.
pub const ONE_MINUTE_HORIZON_SECS: i64 = 2_592_000;

/// The raw rows that survive a cleaning pass with the given cutoff:
/// exactly those with `timestamp >= cutoff`, in their original order.
pub open spec fn kept_raw(s: Seq<RawSample>, cutoff: int) -> Seq<RawSample>
    decreases s.len(),
{
    if s.len() == 0 {
        Seq::empty()
    } else {
        let rest = kept_raw(s.drop_last(), cutoff);
        if s.last().timestamp as int >= cutoff {
            rest.push(s.last())
        } else {
            rest
        }
    }
}

/// The tier rows that survive a cleaning pass with the given cutoff.
pub open spec fn kept_tier(s: Seq<TierSample>, cutoff: int) -> Seq<TierSample>
    decreases s.len(),
{
    if s.len() == 0 {
        Seq::empty()
    } else {
        let rest = kept_tier(s.drop_last(), cutoff);
        if s.last().timestamp as int >= cutoff {
            rest.push(s.last())
        } else {
            rest
        }
    }
}

/// Cleaning removes every raw row older than the cutoff and preserves every
/// other row; order, well-formedness and id ordering carry over.
pub proof fn lemma_kept_raw_props(s: Seq<RawSample>, cutoff: int)
    ensures
        forall|i: int| 0 <= i < kept_raw(s, cutoff).len()
            ==> (#[trigger] kept_raw(s, cutoff)[i]).timestamp >= cutoff,
        forall|i: int| 0 <= i < kept_raw(s, cutoff).len() ==> s.contains(#[trigger] kept_raw(s, cutoff)[i]),
        forall|i: int| 0 <= i < s.len() && (#[trigger] s[i]).timestamp >= cutoff
            ==> kept_raw(s, cutoff).contains(s[i]),
        raw_rows_wf(s) ==> raw_rows_wf(kept_raw(s, cutoff)),
        raw_ordered(s) ==> raw_ordered(kept_raw(s, cutoff)),
    decreases s.len(),
{
    if s.len() > 0 {
        lemma_kept_raw_props(s.drop_last(), cutoff);
        let kept = kept_raw(s, cutoff);
        let rest = kept_raw(s.drop_last(), cutoff);
        assert forall|i: int| 0 <= i < kept.len() implies s.contains(#[trigger] kept[i]) by {
            if s.last().timestamp as int >= cutoff && i == kept.len() - 1 {
                assert(s[s.len() - 1] == kept[i]);
            } else {
                let q = choose|q: int| 0 <= q < s.drop_last().len() && s.drop_last()[q] == rest[i];
                assert(s[q] == kept[i]);
            }
        }
        assert forall|i: int|
            0 <= i < s.len() && (#[trigger] s[i]).timestamp >= cutoff implies kept.contains(s[i]) by {
            if i == s.len() - 1 {
                assert(kept[kept.len() - 1] == s[i]);
            } else {
                assert(s.drop_last()[i] == s[i]);
                assert(rest.contains(s[i]));
                let q = choose|q: int| 0 <= q < rest.len() && rest[q] == s[i];
                assert(kept[q] == s[i]);
            }
        }
        if raw_rows_wf(s) {
            assert(raw_rows_wf(s.drop_last())) by {
                assert(forall|i: int| 0 <= i < s.drop_last().len() ==> #[trigger] s.drop_last()[i] == s[i]);
            }
            assert forall|i: int| 0 <= i < kept.len() implies (#[trigger] kept[i]).wf() by {
                let q = choose|q: int| 0 <= q < s.len() && s[q] == kept[i];
            }
        }
        if raw_ordered(s) {
            assert(raw_ordered(s.drop_last())) by {
                assert(forall|i: int| 0 <= i < s.drop_last().len() ==> #[trigger] s.drop_last()[i] == s[i]);
            }
            assert forall|i: int, j: int|
                0 <= i < j < kept.len() implies #[trigger] kept[i].id < #[trigger] kept[j].id
                && kept[i].timestamp <= kept[j].timestamp by {
                if s.last().timestamp as int >= cutoff && j == kept.len() - 1 {
                    assert(rest.contains(kept[i]));
                    let q = choose|q: int| 0 <= q < s.drop_last().len() && s.drop_last()[q] == kept[i];
                    assert(s[q] == kept[i]);
                    assert(s[s.len() - 1] == kept[j]);
                }
            }
        }
    }
}

/// Cleaning removes every tier row older than the cutoff and preserves
/// every other row; order and well-formedness carry over.
pub proof fn lemma_kept_tier_props(s: Seq<TierSample>, cutoff: int)
    ensures
        forall|i: int| 0 <= i < kept_tier(s, cutoff).len()
            ==> (#[trigger] kept_tier(s, cutoff)[i]).timestamp >= cutoff,
        forall|i: int| 0 <= i < kept_tier(s, cutoff).len() ==> s.contains(#[trigger] kept_tier(s, cutoff)[i]),
        forall|i: int| 0 <= i < s.len() && (#[trigger] s[i]).timestamp >= cutoff
            ==> kept_tier(s, cutoff).contains(s[i]),
        tier_rows_wf(s) ==> tier_rows_wf(kept_tier(s, cutoff)),
        tier_ordered(s) ==> tier_ordered(kept_tier(s, cutoff)),
    decreases s.len(),
{
    if s.len() > 0 {
        lemma_kept_tier_props(s.drop_last(), cutoff);
        let kept = kept_tier(s, cutoff);
        let rest = kept_tier(s.drop_last(), cutoff);
        assert forall|i: int| 0 <= i < kept.len() implies s.contains(#[trigger] kept[i]) by {
            if s.last().timestamp as int >= cutoff && i == kept.len() - 1 {
                assert(s[s.len() - 1] == kept[i]);
            } else {
                let q = choose|q: int| 0 <= q < s.drop_last().len() && s.drop_last()[q] == rest[i];
                assert(s[q] == kept[i]);
            }
        }
        assert forall|i: int|
            0 <= i < s.len() && (#[trigger] s[i]).timestamp >= cutoff implies kept.contains(s[i]) by {
            if i == s.len() - 1 {
                assert(kept[kept.len() - 1] == s[i]);
            } else {
                assert(s.drop_last()[i] == s[i]);
                assert(rest.contains(s[i]));
                let q = choose|q: int| 0 <= q < rest.len() && rest[q] == s[i];
                assert(kept[q] == s[i]);
            }
        }
        if tier_rows_wf(s) {
            assert(tier_rows_wf(s.drop_last())) by {
                assert(forall|i: int| 0 <= i < s.drop_last().len() ==> #[trigger] s.drop_last()[i] == s[i]);
            }
            assert forall|i: int| 0 <= i < kept.len() implies (#[trigger] kept[i]).wf() by {
                let q = choose|q: int| 0 <= q < s.len() && s[q] == kept[i];
            }
        }
        if tier_ordered(s) {
            assert(tier_ordered(s.drop_last())) by {
                assert(forall|i: int| 0 <= i < s.drop_last().len() ==> #[trigger] s.drop_last()[i] == s[i]);
            }
            assert forall|i: int, j: int|
                0 <= i < j < kept.len() implies #[trigger] kept[i].timestamp < #[trigger] kept[j].timestamp by {
                if s.last().timestamp as int >= cutoff && j == kept.len() - 1 {
                    assert(rest.contains(kept[i]));
                    let q = choose|q: int| 0 <= q < s.drop_last().len() && s.drop_last()[q] == kept[i];
                    assert(s[q] == kept[i]);
                    assert(s[s.len() - 1] == kept[j]);
                }
            }
        }
    }
}

/// Delete every raw row with `timestamp < cutoff`.
pub fn clean_raw(rows: &Vec<RawSample>, cutoff: i64) -> (out: Vec<RawSample>)
    ensures
        out@ == kept_raw(rows@, cutoff as int),
{
    let mut out: Vec<RawSample> = Vec::new();
    let n = rows.len();
    for j in 0..n
        invariant
            n == rows@.len(),
            out@ == kept_raw(rows@.take(j as int), cutoff as int),
    {
        proof {
            assert(rows@.take(j as int + 1).drop_last() =~= rows@.take(j as int));
            assert(rows@.take(j as int + 1).last() == rows@[j as int]);
        }
        let r = rows[j];
        if r.timestamp >= cutoff {
            out.push(r);
        }
    }
    proof {
        assert(rows@.take(n as int) =~= rows@);
    }
    out
}

/// Delete every tier row with `timestamp < cutoff`.
pub fn clean_tier(rows: &Vec<TierSample>, cutoff: i64) -> (out: Vec<TierSample>)
    ensures
        out@ == kept_tier(rows@, cutoff as int),
{
    let mut out: Vec<TierSample> = Vec::new();
    let n = rows.len();
    for j in 0..n
        invariant
            n == rows@.len(),
            out@ == kept_tier(rows@.take(j as int), cutoff as int),
    {
        proof {
            assert(rows@.take(j as int + 1).drop_last() =~= rows@.take(j as int));
            assert(rows@.take(j as int + 1).last() == rows@[j as int]);
        }
        let r = rows[j];
        if r.timestamp >= cutoff {
            out.push(r);
        }
    }
    proof {
        assert(rows@.take(n as int) =~= rows@);
    }
    out
}

} // verus!
