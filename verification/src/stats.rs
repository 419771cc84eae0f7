//! Sums, means, maxima and minima over sequences of integers, with the
//! push lemmas that loop proofs need.
use vstd::prelude::*;

verus! {

/// Sum of a sequence of integers.
pub open spec fn sum_of(s: Seq<int>) -> int
    decreases s.len(),
{
    if s.len() == 0 {
        0
    } else {
        sum_of(s.drop_last()) + s.last()
    }
}

/// Arithmetic mean of a sequence of integers (integer division, which for
/// non-negative sums rounds toward zero).
pub open spec fn mean_of(s: Seq<int>) -> int
    recommends
        s.len() > 0,
{
    sum_of(s) / (s.len() as int)
}

/// Largest element of a non-empty sequence of integers.
pub open spec fn max_of(s: Seq<int>) -> int
    recommends
        s.len() > 0,
    decreases s.len(),
{
    if s.len() <= 1 {
        s[0]
    } else {
        let m = max_of(s.drop_last());
        if s.last() > m {
            s.last()
        } else {
            m
        }
    }
}

/// Smallest element of a non-empty sequence of integers.
pub open spec fn min_of(s: Seq<int>) -> int
    recommends
        s.len() > 0,
    decreases s.len(),
{
    if s.len() <= 1 {
        s[0]
    } else {
        let m = min_of(s.drop_last());
        if s.last() < m {
            s.last()
        } else {
            m
        }
    }
}

pub proof fn lemma_sum_push(s: Seq<int>, x: int)
    ensures
        sum_of(s.push(x)) == sum_of(s) + x,
{
    assert(s.push(x).drop_last() =~= s);
}

pub proof fn lemma_max_push(s: Seq<int>, x: int)
    requires
        s.len() > 0,
    ensures
        max_of(s.push(x)) == if x > max_of(s) { x } else { max_of(s) },
{
    assert(s.push(x).drop_last() =~= s);
}

pub proof fn lemma_min_push(s: Seq<int>, x: int)
    requires
        s.len() > 0,
    ensures
        min_of(s.push(x)) == if x < min_of(s) { x } else { min_of(s) },
{
    assert(s.push(x).drop_last() =~= s);
}

} // verus!
