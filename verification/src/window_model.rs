//! Interval semantics of the windowed accumulator.
//!
//! A `Window` never stores the accumulated intervals, only their boundary
//! effects.  This module gives the intervals back as a ghost model: it
//! defines what difference arrays a sequence of weighted intervals produces,
//! and proves that every moving-window value the iterator yields equals the
//! total weight of the intervals that intersect that window — the brute-force
//! reference the arrays were designed to avoid computing.

use crate::window::{
    prefix_at, prefix_range_sum, width_one_value, window_value,
};
use vstd::prelude::*;

verus! {

/// One weighted half-open interval `[lo, hi)`.
pub ghost struct Ival {
    pub lo: int,
    pub hi: int,
    pub wt: int,
}

/// Contribution of one interval to the first difference array at `j`.
pub open spec fn acc_contrib(iv: Ival, j: int) -> int {
    (if j == iv.lo {
        iv.wt
    } else {
        0
    }) + (if j == iv.hi {
        -iv.wt
    } else {
        0
    })
}

/// Contribution of one interval to the second difference array at `j`.
pub open spec fn ext_contrib(iv: Ival, j: int) -> int {
    if iv.hi - iv.lo > 1 {
        (if j == iv.lo + 1 {
            iv.wt
        } else {
            0
        }) + (if j == iv.hi {
            -iv.wt
        } else {
            0
        })
    } else {
        0
    }
}

/// Weight contributed by one interval to the depth at coordinate `j`.
pub open spec fn depth_contrib(iv: Ival, j: int) -> int {
    if iv.lo <= j < iv.hi {
        iv.wt
    } else {
        0
    }
}

/// Weight contributed by one interval strictly inside its span at `j`.
pub open spec fn inner_contrib(iv: Ival, j: int) -> int {
    if iv.lo < j < iv.hi {
        iv.wt
    } else {
        0
    }
}

/// Weight contributed by one interval to the moving window `[k, k + w)`:
/// its full weight if the interval intersects the window, else nothing.
pub open spec fn hit_contrib(iv: Ival, k: int, w: int) -> int {
    if iv.lo < k + w && iv.hi > k {
        iv.wt
    } else {
        0
    }
}

pub open spec fn acc_at(s: Seq<Ival>, j: int) -> int
    decreases s.len(),
{
    if s.len() == 0 {
        0
    } else {
        acc_at(s.drop_last(), j) + acc_contrib(s.last(), j)
    }
}

pub open spec fn ext_at(s: Seq<Ival>, j: int) -> int
    decreases s.len(),
{
    if s.len() == 0 {
        0
    } else {
        ext_at(s.drop_last(), j) + ext_contrib(s.last(), j)
    }
}

/// The depth at coordinate `j`: total weight of the intervals covering `j`.
pub open spec fn depth_at(s: Seq<Ival>, j: int) -> int
    decreases s.len(),
{
    if s.len() == 0 {
        0
    } else {
        depth_at(s.drop_last(), j) + depth_contrib(s.last(), j)
    }
}

pub open spec fn inner_at(s: Seq<Ival>, j: int) -> int
    decreases s.len(),
{
    if s.len() == 0 {
        0
    } else {
        inner_at(s.drop_last(), j) + inner_contrib(s.last(), j)
    }
}

/// Total weight of the intervals intersecting the window `[k, k + w)`.
pub open spec fn hit_at(s: Seq<Ival>, k: int, w: int) -> int
    decreases s.len(),
{
    if s.len() == 0 {
        0
    } else {
        hit_at(s.drop_last(), k, w) + hit_contrib(s.last(), k, w)
    }
}

/// One interval lies in `[0, n)` with a nonnegative weight.
pub open spec fn valid_ival(iv: Ival, n: int) -> bool {
    &&& 0 <= iv.lo
    &&& iv.lo < iv.hi
    &&& iv.hi <= n
    &&& 0 <= iv.wt
}

/// Every interval lies in `[0, n)` with a nonnegative weight.
pub open spec fn valid_ivals(s: Seq<Ival>, n: int) -> bool {
    forall|m: int| 0 <= m < s.len() ==> valid_ival(#[trigger] s[m], n)
}

/// The difference arrays `a` and `e` are exactly those produced by the
/// intervals of `s`.
pub open spec fn models(a: Seq<i64>, e: Seq<i64>, s: Seq<Ival>) -> bool {
    &&& a.len() == e.len()
    &&& forall|j: int| 0 <= j < a.len() ==> #[trigger] a[j] as int == acc_at(s, j)
    &&& forall|j: int| 0 <= j < e.len() ==> #[trigger] e[j] as int == ext_at(s, j)
}

/// Sum of `depth_at(s, j)` over `j` in `[lo, hi]`.
pub open spec fn depth_range_sum(s: Seq<Ival>, lo: int, hi: int) -> int
    decreases (if hi < lo { 0int } else { hi - lo + 1 }),
{
    if hi < lo {
        0
    } else {
        depth_range_sum(s, lo, hi - 1) + depth_at(s, hi)
    }
}

/// Sum of `inner_at(s, j)` over `j` in `[lo, hi]`.
pub open spec fn inner_range_sum(s: Seq<Ival>, lo: int, hi: int) -> int
    decreases (if hi < lo { 0int } else { hi - lo + 1 }),
{
    if hi < lo {
        0
    } else {
        inner_range_sum(s, lo, hi - 1) + inner_at(s, hi)
    }
}

/// Sum of `depth_contrib(iv, j)` over `j` in `[lo, hi]`.
pub open spec fn depth1_range_sum(iv: Ival, lo: int, hi: int) -> int
    decreases (if hi < lo { 0int } else { hi - lo + 1 }),
{
    if hi < lo {
        0
    } else {
        depth1_range_sum(iv, lo, hi - 1) + depth_contrib(iv, hi)
    }
}

/// Sum of `inner_contrib(iv, j)` over `j` in `[lo, hi]`.
pub open spec fn inner1_range_sum(iv: Ival, lo: int, hi: int) -> int
    decreases (if hi < lo { 0int } else { hi - lo + 1 }),
{
    if hi < lo {
        0
    } else {
        inner1_range_sum(iv, lo, hi - 1) + inner_contrib(iv, hi)
    }
}

/// Depth and inner-cover move in step with the difference arrays.
proof fn lemma_depth_step(s: Seq<Ival>, j: int)
    requires
        forall|m: int| 0 <= m < s.len() ==> (#[trigger] s[m]).lo <= s[m].hi,
    ensures
        depth_at(s, j) == depth_at(s, j - 1) + acc_at(s, j),
        inner_at(s, j) == inner_at(s, j - 1) + ext_at(s, j),
    decreases s.len(),
{
    if s.len() > 0 {
        assert(forall|m: int|
            0 <= m < s.len() - 1 ==> s.drop_last()[m] == s[m]);
        lemma_depth_step(s.drop_last(), j);
        assert(s[s.len() - 1].lo <= s[s.len() - 1].hi);
    }
}

/// Outside `[0, n]` the interval sums vanish.
proof fn lemma_depth_vanishes(s: Seq<Ival>, n: int, j: int)
    requires
        valid_ivals(s, n),
        j < 0 || j >= n,
    ensures
        depth_at(s, j) == 0,
        inner_at(s, j) == 0,
    decreases s.len(),
{
    if s.len() > 0 {
        assert(valid_ivals(s.drop_last(), n)) by {
            assert(forall|m: int|
                0 <= m < s.len() - 1 ==> s.drop_last()[m] == s[m]);
        }
        lemma_depth_vanishes(s.drop_last(), n, j);
    }
}

/// The prefix sums of difference arrays that model `s` are the depth and the
/// inner cover of `s`.
pub proof fn lemma_prefix_is_depth(a: Seq<i64>, e: Seq<i64>, s: Seq<Ival>, j: int)
    requires
        models(a, e, s),
        valid_ivals(s, a.len() - 1),
        2 <= a.len(),
    ensures
        prefix_at(a, j) == depth_at(s, j),
        prefix_at(e, j) == inner_at(s, j),
    decreases (if j < 0 { 0int } else { j + 1 }),
{
    if j < 0 {
        lemma_depth_vanishes(s, a.len() - 1, j);
    } else {
        lemma_prefix_is_depth(a, e, s, j - 1);
        assert(forall|m: int| 0 <= m < s.len() ==> (#[trigger] s[m]).lo <= s[m].hi) by {
            assert(forall|m: int|
                0 <= m < s.len() ==> valid_ival(#[trigger] s[m], a.len() - 1));
        }
        lemma_depth_step(s, j);
        if j >= a.len() {
            lemma_depth_vanishes(s, a.len() - 1, j);
            lemma_depth_vanishes(s, a.len() - 1, j - 1);
            assert(acc_at(s, j) == depth_at(s, j) - depth_at(s, j - 1));
            assert(ext_at(s, j) == inner_at(s, j) - inner_at(s, j - 1));
        }
    }
}

/// Range sums over the arrays equal range sums over the interval model.
proof fn lemma_range_sum_is_depth(a: Seq<i64>, e: Seq<i64>, s: Seq<Ival>, lo: int, hi: int)
    requires
        models(a, e, s),
        valid_ivals(s, a.len() - 1),
        2 <= a.len(),
    ensures
        prefix_range_sum(a, lo, hi) == depth_range_sum(s, lo, hi),
        prefix_range_sum(e, lo, hi) == inner_range_sum(s, lo, hi),
    decreases (if hi < lo { 0int } else { hi - lo + 1 }),
{
    if hi >= lo {
        lemma_range_sum_is_depth(a, e, s, lo, hi - 1);
        lemma_prefix_is_depth(a, e, s, hi);
    }
}

/// Range sums over the model split off the last interval.
proof fn lemma_range_sum_push(s: Seq<Ival>, iv: Ival, lo: int, hi: int)
    ensures
        depth_range_sum(s.push(iv), lo, hi) == depth_range_sum(s, lo, hi) + depth1_range_sum(
            iv,
            lo,
            hi,
        ),
        inner_range_sum(s.push(iv), lo, hi) == inner_range_sum(s, lo, hi) + inner1_range_sum(
            iv,
            lo,
            hi,
        ),
    decreases (if hi < lo { 0int } else { hi - lo + 1 }),
{
    assert(s.push(iv).drop_last() =~= s);
    if hi >= lo {
        lemma_range_sum_push(s, iv, lo, hi - 1);
    }
}

/// The windowed sum of one interval's depth, corrected by its interior
/// cover, is exactly its weight when it intersects the window and nothing
/// otherwise.
proof fn lemma_one_interval_window(iv: Ival, k: int, w: int)
    requires
        iv.lo < iv.hi,
        1 <= w,
    ensures
        depth1_range_sum(iv, k, k + w - 1) - inner1_range_sum(iv, k + 1, k + w - 1) == hit_contrib(
            iv,
            k,
            w,
        ),
    decreases w,
{
    if w == 1 {
        assert(inner1_range_sum(iv, k + 1, k) == 0);
        assert(depth1_range_sum(iv, k, k - 1) == 0);
        assert(depth1_range_sum(iv, k, k) == depth1_range_sum(iv, k, k - 1) + depth_contrib(
            iv,
            k,
        ));
    } else {
        lemma_one_interval_window(iv, k, w - 1);
        assert(depth1_range_sum(iv, k, k + w - 1) == depth1_range_sum(iv, k, k + w - 2)
            + depth_contrib(iv, k + w - 1));
        assert(inner1_range_sum(iv, k + 1, k + w - 1) == inner1_range_sum(iv, k + 1, k + w - 2)
            + inner_contrib(iv, k + w - 1));
    }
}

/// Total interval weight intersecting a window is nonnegative for
/// nonnegative weights.
pub proof fn lemma_hit_nonneg(s: Seq<Ival>, n: int, k: int, w: int)
    requires
        valid_ivals(s, n),
    ensures
        hit_at(s, k, w) >= 0,
    decreases s.len(),
{
    if s.len() > 0 {
        assert(valid_ivals(s.drop_last(), n)) by {
            assert(forall|m: int|
                0 <= m < s.len() - 1 ==> s.drop_last()[m] == s[m]);
        }
        lemma_hit_nonneg(s.drop_last(), n, k, w);
        assert(valid_ival(s[s.len() - 1], n));
    }
}

/// The moving-window identity over the whole interval model: windowed depth
/// minus interior correction counts intersecting intervals.
proof fn lemma_window_model(s: Seq<Ival>, n: int, k: int, w: int)
    requires
        valid_ivals(s, n),
        1 <= w,
    ensures
        depth_range_sum(s, k, k + w - 1) - inner_range_sum(s, k + 1, k + w - 1) == hit_at(s, k, w),
    decreases s.len(),
{
    if s.len() == 0 {
        lemma_empty_range_sums(s, k, k + w - 1);
        lemma_empty_range_sums(s, k + 1, k + w - 1);
    } else {
        let t = s.drop_last();
        let iv = s.last();
        assert(valid_ivals(t, n)) by {
            assert(forall|m: int| 0 <= m < t.len() ==> t[m] == s[m]);
        }
        lemma_window_model(t, n, k, w);
        assert(t.push(iv) =~= s);
        lemma_range_sum_push(t, iv, k, k + w - 1);
        lemma_range_sum_push(t, iv, k + 1, k + w - 1);
        lemma_one_interval_window(iv, k, w);
    }
}

proof fn lemma_empty_range_sums(s: Seq<Ival>, lo: int, hi: int)
    requires
        s.len() == 0,
    ensures
        depth_range_sum(s, lo, hi) == 0,
        inner_range_sum(s, lo, hi) == 0,
    decreases (if hi < lo { 0int } else { hi - lo + 1 }),
{
    if hi >= lo {
        lemma_empty_range_sums(s, lo, hi - 1);
    }
}

/// LAW — For any sequence of accumulated intervals and any width `w >= 2`,
/// the value the iterator yields at output index `k` equals the total weight
/// of the intervals intersecting the window `[k, k + w)`, the brute-force
/// reference; in particular it is never negative.
pub proof fn lemma_window_counts_intervals(
    a: Seq<i64>,
    e: Seq<i64>,
    s: Seq<Ival>,
    k: int,
    w: int,
)
    requires
        models(a, e, s),
        valid_ivals(s, a.len() - 1),
        2 <= a.len(),
        2 <= w,
        0 <= k,
    ensures
        window_value(a, e, k, w) == hit_at(s, k, w),
        window_value(a, e, k, w) >= 0,
{
    lemma_range_sum_is_depth(a, e, s, k, k + w - 1);
    lemma_range_sum_is_depth(a, e, s, k + 1, k + w - 1);
    lemma_window_model(s, a.len() - 1, k, w);
    lemma_hit_nonneg(s, a.len() - 1, k, w);
}

/// LAW — For width 1 the iterator yields, at output index `k`, the exact
/// depth at coordinate `k + 1`; in particular it is never negative.
pub proof fn lemma_width_one_is_depth(a: Seq<i64>, e: Seq<i64>, s: Seq<Ival>, k: int)
    requires
        models(a, e, s),
        valid_ivals(s, a.len() - 1),
        2 <= a.len(),
        0 <= k,
    ensures
        width_one_value(a, k) == depth_at(s, k + 1),
        width_one_value(a, k) >= 0,
{
    lemma_prefix_is_depth(a, e, s, k + 1);
    lemma_depth_nonneg(s, a.len() - 1, k + 1);
}

/// Depth is nonnegative for nonnegative weights.
pub proof fn lemma_depth_nonneg(s: Seq<Ival>, n: int, j: int)
    requires
        valid_ivals(s, n),
    ensures
        depth_at(s, j) >= 0,
    decreases s.len(),
{
    if s.len() > 0 {
        assert(valid_ivals(s.drop_last(), n)) by {
            assert(forall|m: int|
                0 <= m < s.len() - 1 ==> s.drop_last()[m] == s[m]);
        }
        lemma_depth_nonneg(s.drop_last(), n, j);
        assert(valid_ival(s[s.len() - 1], n));
    }
}

/// LAW — `accumulate(beg, end, weight)` extends the interval model by
/// exactly the clamped interval `[beg, min(end, n))`: arrays that modeled
/// `s` before the call model `s` with that interval appended afterwards.
/// A call whose clamped span is empty leaves the model unchanged.
pub proof fn lemma_accumulate_models(
    a0: Seq<i64>,
    e0: Seq<i64>,
    s: Seq<Ival>,
    beg: int,
    ec: int,
    weight: int,
)
    requires
        models(a0, e0, s),
        0 <= beg < ec,
        ec <= a0.len() - 1,
        i64::MIN <= a0[beg] + weight <= i64::MAX,
        i64::MIN <= a0.update(beg, (a0[beg] + weight) as i64)[ec] - weight <= i64::MAX,
        ec - beg > 1 ==> i64::MIN <= e0[beg + 1] + weight <= i64::MAX,
        ec - beg > 1 ==> i64::MIN <= e0[ec] - weight <= i64::MAX,
    ensures
        ({
            let a1 = a0.update(beg, (a0[beg] + weight) as i64);
            let iv = Ival { lo: beg, hi: ec, wt: weight };
            models(
                a1.update(ec, (a1[ec] - weight) as i64),
                if ec - beg > 1 {
                    e0.update(beg + 1, (e0[beg + 1] + weight) as i64).update(
                        ec,
                        (e0[ec] - weight) as i64,
                    )
                } else {
                    e0
                },
                s.push(iv),
            )
        }),
{
    let iv = Ival { lo: beg, hi: ec, wt: weight };
    assert(s.push(iv).drop_last() =~= s);
    assert(forall|j: int| #![trigger acc_at(s.push(iv), j)]
        acc_at(s.push(iv), j) == acc_at(s, j) + acc_contrib(iv, j));
    assert(forall|j: int| #![trigger ext_at(s.push(iv), j)]
        ext_at(s.push(iv), j) == ext_at(s, j) + ext_contrib(iv, j));
}

} // verus!
