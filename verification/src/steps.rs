//! Timing arithmetic of the step sequencer: segment durations, their prefix
//! sums, and which segment a wrapped time falls into.
//!
//! A step sequence is a list of `(sub-signal, duration)` pairs. These helpers
//! only read the durations, so they are stated over any sequence of pairs
//! whose second component is the duration in ticks.

use vstd::prelude::*;
use crate::signals::SigView;

verus! {

/// The sum of all segment durations.
pub open spec fn sum_durs(ss: Seq<(SigView, int)>) -> int
    decreases ss.len(),
{
    if ss.len() == 0 {
        0
    } else {
        ss[0].1 + sum_durs(ss.drop_first())
    }
}

/// Every segment duration is nonnegative.
pub open spec fn durs_nonneg(ss: Seq<(SigView, int)>) -> bool {
    forall|i: int| 0 <= i < ss.len() ==> 0 <= #[trigger] ss[i].1
}

/// Time elapsed before segment `i` begins: the sum of the durations of the
/// segments in front of it.
pub open spec fn offset_of(ss: Seq<(SigView, int)>, i: int) -> int {
    sum_durs(ss.take(i))
}

/// The first segment whose cumulative-duration bound exceeds `t`, or `-1`
/// when `t` lies past the whole sequence.
pub open spec fn find_seg(ss: Seq<(SigView, int)>, t: int) -> int
    decreases ss.len(),
{
    if ss.len() == 0 {
        -1
    } else if t < ss[0].1 {
        0
    } else {
        let r = find_seg(ss.drop_first(), t - ss[0].1);
        if r < 0 {
            -1
        } else {
            r + 1
        }
    }
}

/// The search never returns an index at or past the end.
pub proof fn lemma_find_seg_range(ss: Seq<(SigView, int)>, t: int)
    ensures
        find_seg(ss, t) < ss.len(),
        -1 <= find_seg(ss, t),
    decreases ss.len(),
{
    if ss.len() > 0 && t >= ss[0].1 {
        lemma_find_seg_range(ss.drop_first(), t - ss[0].1);
    }
}

/// Extending a prefix by one segment adds that segment's duration to the
/// prefix sum.
pub proof fn lemma_offset_step(ss: Seq<(SigView, int)>, i: int)
    requires
        0 <= i < ss.len(),
    ensures
        offset_of(ss, i + 1) == offset_of(ss, i) + ss[i].1,
    decreases i,
{
    if i == 0 {
        assert(sum_durs(ss.take(0)) == 0);
        assert(sum_durs(ss.take(1).drop_first()) == 0);
        assert(ss.take(1)[0] == ss[0]);
        assert(sum_durs(ss.take(1)) == ss[0].1 + sum_durs(ss.take(1).drop_first()));
    } else {
        lemma_offset_step(ss.drop_first(), i - 1);
        assert(ss.take(i + 1).drop_first() == ss.drop_first().take(i));
        assert(ss.take(i).drop_first() == ss.drop_first().take(i - 1));
        assert(ss.take(i + 1)[0] == ss[0]);
        assert(ss.take(i)[0] == ss[0]);
        assert(ss.drop_first()[i - 1] == ss[i]);
        assert(sum_durs(ss.take(i + 1)) == ss[0].1 + sum_durs(ss.drop_first().take(i)));
        assert(sum_durs(ss.take(i)) == ss[0].1 + sum_durs(ss.drop_first().take(i - 1)));
    }
}

/// The prefix sum over the whole sequence is the total.
pub proof fn lemma_offset_total(ss: Seq<(SigView, int)>)
    ensures
        offset_of(ss, ss.len() as int) == sum_durs(ss),
{
    assert(ss.take(ss.len() as int) == ss);
}

/// Prefix sums grow with the prefix (durations being nonnegative).
pub proof fn lemma_offset_monotone(ss: Seq<(SigView, int)>, i: int, j: int)
    requires
        durs_nonneg(ss),
        0 <= i <= j <= ss.len(),
    ensures
        offset_of(ss, i) <= offset_of(ss, j),
    decreases j - i,
{
    if i < j {
        lemma_offset_step(ss, j - 1);
        lemma_offset_monotone(ss, i, j - 1);
    }
}

/// The total is the total up to the last segment, plus the last duration.
pub proof fn lemma_sum_durs_peel_last(ss: Seq<(SigView, int)>)
    requires
        ss.len() > 0,
    ensures
        sum_durs(ss) == sum_durs(ss.drop_last()) + ss[ss.len() - 1].1,
{
    lemma_offset_step(ss, ss.len() - 1);
    lemma_offset_total(ss);
    assert(ss.take(ss.len() - 1) == ss.drop_last());
}

/// A per-segment duration bound gives a total bound.
pub proof fn lemma_sum_durs_bound(ss: Seq<(SigView, int)>, b: int)
    requires
        0 <= b,
        forall|i: int| 0 <= i < ss.len() ==> 0 <= #[trigger] ss[i].1 <= b,
    ensures
        0 <= sum_durs(ss) <= ss.len() * b,
    decreases ss.len(),
{
    if ss.len() == 0 {
        assert(ss.len() * b == 0);
    } else {
        assert(forall|i: int|
            0 <= i < ss.drop_first().len() ==> 0 <= #[trigger] ss.drop_first()[i].1 <= b);
        lemma_sum_durs_bound(ss.drop_first(), b);
        assert(ss.len() as int * b == (ss.len() as int - 1) * b + b) by (nonlinear_arith);
    }
}

/// The total only reads the durations: two sequences with the same durations
/// have the same total.
pub proof fn lemma_sum_durs_same(ss: Seq<(SigView, int)>, tt: Seq<(SigView, int)>)
    requires
        ss.len() == tt.len(),
        forall|i: int| 0 <= i < ss.len() ==> #[trigger] ss[i].1 == tt[i].1,
    ensures
        sum_durs(ss) == sum_durs(tt),
    decreases ss.len(),
{
    if ss.len() > 0 {
        assert(forall|i: int|
            0 <= i < ss.drop_first().len() ==> #[trigger] ss.drop_first()[i].1
                == tt.drop_first()[i].1);
        lemma_sum_durs_same(ss.drop_first(), tt.drop_first());
    }
}

/// A time within a segment's window is found there: if `t` lies at or past
/// segment `i`'s start and before its end, the search returns `i`.
pub proof fn lemma_find_seg_at(ss: Seq<(SigView, int)>, t: int, i: int)
    requires
        durs_nonneg(ss),
        0 <= i < ss.len(),
        offset_of(ss, i) <= t < offset_of(ss, i) + ss[i].1,
    ensures
        find_seg(ss, t) == i,
    decreases i,
{
    if i == 0 {
        assert(ss.take(0).len() == 0);
    } else {
        assert(sum_durs(ss.take(1).drop_first()) == 0);
        assert(ss.take(1)[0] == ss[0]);
        assert(sum_durs(ss.take(1)) == ss[0].1 + sum_durs(ss.take(1).drop_first()));
        assert(offset_of(ss, 1) == ss[0].1);
        lemma_offset_monotone(ss, 1, i);
        assert(t >= ss[0].1);
        assert(durs_nonneg(ss.drop_first()));
        assert(ss.take(i).drop_first() == ss.drop_first().take(i - 1));
        assert(ss.take(i)[0] == ss[0]);
        assert(sum_durs(ss.take(i)) == ss[0].1 + sum_durs(ss.drop_first().take(i - 1)));
        assert(offset_of(ss, i) == ss[0].1 + offset_of(ss.drop_first(), i - 1));
        assert(ss.drop_first()[i - 1] == ss[i]);
        lemma_find_seg_at(ss.drop_first(), t - ss[0].1, i - 1);
    }
}

/// Any time before the total falls in some segment, within that segment's
/// window.
pub proof fn lemma_find_seg_in_range(ss: Seq<(SigView, int)>, t: int)
    requires
        durs_nonneg(ss),
        0 <= t < sum_durs(ss),
    ensures
        0 <= find_seg(ss, t) < ss.len(),
        offset_of(ss, find_seg(ss, t)) <= t < offset_of(ss, find_seg(ss, t)) + ss[find_seg(
            ss,
            t,
        )].1,
    decreases ss.len(),
{
    assert(ss.len() > 0);
    if t < ss[0].1 {
        assert(sum_durs(ss.take(0)) == 0);
    } else {
        let tail = ss.drop_first();
        assert(durs_nonneg(tail));
        lemma_find_seg_in_range(tail, t - ss[0].1);
        let r = find_seg(tail, t - ss[0].1);
        let i = r + 1;
        assert(find_seg(ss, t) == i);
        assert(ss.take(i).drop_first() == tail.take(r));
        assert(ss.take(i)[0] == ss[0]);
        assert(sum_durs(ss.take(i)) == ss[0].1 + sum_durs(tail.take(r)));
        assert(offset_of(ss, i) == ss[0].1 + offset_of(tail, r));
        assert(tail[r] == ss[i]);
    }
}

} // verus!
