//! Edge detection: refine a candidate pair's breakpoint coordinates from
//! the raw depth signal.
//!
//! Around each side's approximate coordinate, the detector scans a window
//! of raw depth for strict local maxima of the signed depth-change rate,
//! the sign chosen so that entering the event always reads positive, and
//! keeps the strongest few candidates in descending order of change
//! magnitude.

use crate::cluster::{
    best_in, cluster_spans, lemma_clusters_ranges, lemma_sort_by_left_elements,
    lemma_sort_by_left_sorted, pick_better, pick_representative, prefer, sort_by_left,
    sort_variants, spec_clusters, variant_bounded,
};
use crate::frontend::{make_linear_event, Event, Side};
use crate::histogram::{norm_of, Histogram, MICRO, NORM_SAT};
use crate::scanner::Scanner;
use crate::validate::{
    corrected_ratios, fr_windows, inside_part, lemma_parts_len, lemma_region_ivals_valid,
    outside_part, partition_corrections, pv_range, pv_score_of, pvalue_score, region_reads_ok,
    spec_pv_range, spec_region_ratios, FragInfo,
};
use crate::window::width_one_value;
use vstd::prelude::*;

verus! {

/// Orientation of the depth-change rate for a hypothesis: +1 when a rise in
/// raw depth means entering the event, -1 when a fall does, 0 for the
/// neutral copy number 2.
pub open spec fn rate_sign(copy_num: int, side: Side) -> int {
    if copy_num < 2 {
        if side == Side::Left {
            -1int
        } else {
            1int
        }
    } else if copy_num > 2 {
        if side == Side::Left {
            1int
        } else {
            -1int
        }
    } else {
        0int
    }
}

/// The oriented change rate of `data` at coordinate `j`.
pub open spec fn rate_at(data: Seq<i64>, sign: int, j: int) -> int {
    sign * (data[j] - data[j - 1])
}

/// Coordinate `j` carries a strict local maximum of the oriented change
/// rate.
pub open spec fn is_peak(data: Seq<i64>, sign: int, j: int) -> bool {
    rate_at(data, sign, j) > rate_at(data, sign, j - 1) && rate_at(data, sign, j) > rate_at(
        data,
        sign,
        j + 1,
    )
}

/// All peak candidates `(coordinate, rate)` with coordinate in
/// `[lo + 2, j]`, in coordinate order.
pub open spec fn peaks_up_to(data: Seq<i64>, sign: int, lo: int, j: int) -> Seq<(u32, i64)>
    decreases (if j < lo + 2 { 0int } else { j - lo - 1 }),
{
    if j < lo + 2 {
        Seq::empty()
    } else if is_peak(data, sign, j) {
        peaks_up_to(data, sign, lo, j - 1).push((j as u32, rate_at(data, sign, j) as i64))
    } else {
        peaks_up_to(data, sign, lo, j - 1)
    }
}

/// First position of `s` whose rate is strictly below `r`, or the length of
/// `s` when there is none.
pub open spec fn first_below(s: Seq<(u32, i64)>, r: i64) -> int
    decreases s.len(),
{
    if s.len() == 0 {
        0
    } else if s.first().1 < r {
        0
    } else {
        1 + first_below(s.drop_first(), r)
    }
}

/// Stable insertion into a descending-by-rate sequence: the new element
/// goes in front of the first strictly weaker one, so equal rates keep
/// their arrival order.
pub open spec fn insert_desc(s: Seq<(u32, i64)>, x: (u32, i64)) -> Seq<(u32, i64)> {
    let p = first_below(s, x.1);
    s.take(p).push(x) + s.skip(p)
}

/// Stable descending sort by rate, as repeated insertion.
pub open spec fn sort_desc(s: Seq<(u32, i64)>) -> Seq<(u32, i64)>
    decreases s.len(),
{
    if s.len() == 0 {
        Seq::empty()
    } else {
        insert_desc(sort_desc(s.drop_last()), s.last())
    }
}

/// The start of a scan window around `pos`, clamped to the first
/// coordinate.
pub open spec fn scan_lo(pos: int, reach: int) -> int {
    if pos > reach {
        pos - reach
    } else {
        0
    }
}

/// The scan result: the strongest `limit` peak candidates of the window, in
/// descending rate order, ties kept in coordinate order.
pub open spec fn spec_scan(
    data: Seq<i64>,
    sign: int,
    lo: int,
    hi: int,
    limit: int,
) -> Seq<(u32, i64)> {
    let sorted = sort_desc(peaks_up_to(data, sign, lo, hi - 2));
    if sorted.len() <= limit {
        sorted
    } else {
        sorted.take(limit)
    }
}

/// Multiplying by the unit orientation sign is plain negation or identity.
pub proof fn lemma_rate_shape(data: Seq<i64>, copy_num: int, side: Side, j: int)
    ensures
        rate_at(data, rate_sign(copy_num, side), j) == (if copy_num == 2 {
            0int
        } else if (side == Side::Left && copy_num < 2) || (side == Side::Right && copy_num > 2) {
            -(data[j] - data[j - 1])
        } else {
            data[j] - data[j - 1]
        }),
{
    let d = data[j] - data[j - 1];
    assert(0 * d == 0) by (nonlinear_arith);
    assert(1 * d == d) by (nonlinear_arith);
    assert((-1) * d == -d) by (nonlinear_arith);
}

pub proof fn lemma_first_below_range(s: Seq<(u32, i64)>, r: i64)
    ensures
        0 <= first_below(s, r) <= s.len(),
    decreases s.len(),
{
    if s.len() > 0 && !(s.first().1 < r) {
        lemma_first_below_range(s.drop_first(), r);
    }
}

/// `first_below` is exactly the split point of the prefix at or above `r`.
proof fn lemma_first_below_is_split(s: Seq<(u32, i64)>, r: i64, p: int)
    requires
        0 <= p <= s.len(),
        forall|m: int| 0 <= m < p ==> (#[trigger] s[m]).1 >= r,
        p == s.len() || s[p].1 < r,
    ensures
        first_below(s, r) == p,
    decreases s.len(),
{
    if s.len() > 0 {
        if p == 0 {
        } else {
            assert(s.first().1 >= r);
            assert(forall|m: int|
                0 <= m < p - 1 ==> (#[trigger] s.drop_first()[m]).1 == s[m + 1].1);
            lemma_first_below_is_split(s.drop_first(), r, p - 1);
        }
    }
}

/// Every coordinate in the scan window, bounded entries, and a usable
/// window around each examined coordinate.
pub open spec fn scan_data_ok(data: Seq<i64>) -> bool {
    &&& data.len() <= 0x8000_0000
    &&& forall|j: int| 0 <= j < data.len() ==> 0 <= #[trigger] data[j] <= 0x8000_0000
}

/// Scan the oriented change rate of `data` over the window
/// `[pos - before, min(pos + after, data.len()))` and return the strongest
/// `limit` strict local maxima, strongest first, ties in coordinate order.
pub fn scan_edge_in_range(
    data: &Vec<i64>,
    pos: u32,
    side: Side,
    copy_num: u32,
    before: u32,
    after: u32,
    limit: usize,
) -> (r: Vec<(u32, i64)>)
    requires
        scan_data_ok(data@),
        pos <= 0x8000_0000,
    ensures
        ({
            let lo = scan_lo(pos as int, before as int);
            let hi = (if pos + after <= data@.len() {
                pos + after
            } else {
                data@.len() as int
            });
            r@ == spec_scan(data@, rate_sign(copy_num as int, side), lo, hi, limit as int)
        }),
{
    let lo = if pos > before {
        (pos - before) as usize
    } else {
        0
    };
    let hi64 = (pos as u64) + (after as u64);
    let hi = if hi64 > data.len() as u64 {
        data.len()
    } else {
        hi64 as usize
    };
    let ghost sign = rate_sign(copy_num as int, side);

    let neg = match (copy_num, side) {
        (c, Side::Left) => c < 2,
        (c, Side::Right) => c > 2,
    };
    let neutral = copy_num == 2;

    let mut cands: Vec<(u32, i64)> = Vec::new();
    if hi > lo && hi - lo >= 4 {
        let mut j: usize = lo + 2;
        while j <= hi - 2
            invariant
                scan_data_ok(data@),
                lo + 2 <= j <= hi - 1,
                hi <= data@.len(),
                lo + 4 <= hi,
                neutral == (copy_num == 2),
                neg == (if side == Side::Left {
                    copy_num < 2
                } else {
                    copy_num > 2
                }),
                sign == rate_sign(copy_num as int, side),
                cands@ == peaks_up_to(data@, sign, lo as int, j - 1),
            decreases hi - j,
        {
            proof {
                lemma_rate_shape(data@, copy_num as int, side, j - 1);
                lemma_rate_shape(data@, copy_num as int, side, j as int);
                lemma_rate_shape(data@, copy_num as int, side, j + 1);
            }
            let r_prev = oriented_rate(data, j - 1, neg, neutral);
            let r_cur = oriented_rate(data, j, neg, neutral);
            let r_next = oriented_rate(data, j + 1, neg, neutral);
            if r_cur > r_prev && r_cur > r_next {
                cands.push((j as u32, r_cur));
            }
            j = j + 1;
        }
    }
    proof {
        if !(hi > lo && hi - lo >= 4) {
            assert(cands@ =~= peaks_up_to(data@, sign, lo as int, hi - 2));
        }
    }

    let mut sorted: Vec<(u32, i64)> = Vec::new();
    let mut i: usize = 0;
    while i < cands.len()
        invariant
            i <= cands@.len(),
            sorted@ == sort_desc(cands@.take(i as int)),
        decreases cands@.len() - i,
    {
        let x = cands[i];
        proof {
            assert(cands@.take(i + 1 as int).drop_last() =~= cands@.take(i as int));
            assert(cands@.take(i + 1 as int).last() == cands@[i as int]);
            lemma_first_below_range(sorted@, x.1);
        }
        let ghost s0 = sorted@;
        let mut p: usize = 0;
        while p < sorted.len() && sorted[p].1 >= x.1
            invariant
                sorted@ == s0,
                p <= s0.len(),
                forall|m: int| 0 <= m < p ==> (#[trigger] s0[m]).1 >= x.1,
            decreases s0.len() - p,
        {
            p = p + 1;
        }
        proof {
            lemma_first_below_is_split(s0, x.1, p as int);
        }
        sorted.insert(p, x);
        proof {
            assert(sorted@ =~= insert_desc(s0, x));
        }
        i = i + 1;
    }
    proof {
        assert(cands@.take(cands@.len() as int) =~= cands@);
    }
    if sorted.len() > limit {
        sorted.truncate(limit);
    }
    proof {
        let hi_spec = (if pos + after <= data@.len() {
            pos as int + after as int
        } else {
            data@.len() as int
        });
        assert(hi as int == hi_spec);
    }
    sorted
}

/// The oriented change rate at `j` as executable arithmetic.
fn oriented_rate(data: &Vec<i64>, j: usize, neg: bool, neutral: bool) -> (r: i64)
    requires
        scan_data_ok(data@),
        1 <= j < data@.len(),
    ensures
        r as int == (if neutral {
            0int
        } else if neg {
            -(data@[j as int] - data@[j - 1])
        } else {
            data@[j as int] - data@[j - 1]
        }),
{
    if neutral {
        0
    } else {
        let d = data[j] - data[j - 1];
        if neg {
            -d
        } else {
            d
        }
    }
}

/// Absolute value.
pub open spec fn iabs(x: int) -> int {
    if x < 0 {
        -x
    } else {
        x
    }
}

/// Half a copy number in millionths: the expected normalized depth ratio.
pub const HALF_MICRO: i64 = 500_000;

/// Tolerance on the distance of a mean from its expected ratio.
pub const MEAN_TOL: i64 = 200_000;

/// Tolerance of the direct-threshold boundary walk.
pub const WALK_TOL: i64 = 100_000;

/// Variance bound accepted for a direct-threshold boundary.
pub const SD_TOL: i64 = 200_000;

/// Minimum width of a direct-threshold boundary span.
pub const MIN_FALLBACK_SPAN: u32 = 200;

/// A refined candidate variant.
#[derive(Clone, Copy, Debug, PartialEq, Eq, Structural)]
pub struct Variant {
    pub left_pos: u32,
    pub right_pos: u32,
    pub copy_num: u32,
    /// Normalized mean depth over the span, in millionths.
    pub mean_micro: i64,
    /// Variance of the normalized depth over the span, in millionths.
    pub sd_micro: i64,
    /// Statistical validation score in millionths; `MICRO` = untested/pass.
    pub pv_micro: i64,
    /// True for edge-scan boundaries, false for direct-threshold ones.
    pub boundary: bool,
}

/// Sum of the entries of `data` over `[lo, hi)`.
pub open spec fn seq_sum(data: Seq<i64>, lo: int, hi: int) -> int
    decreases (if hi <= lo { 0int } else { hi - lo }),
{
    if hi <= lo {
        0
    } else {
        seq_sum(data, lo, hi - 1) + data[hi - 1]
    }
}

/// The span is too degenerate to trust: low-quality coverage above a fifth
/// of the total, and a very deep total.
pub open spec fn span_degenerate(raw_sum: int, lmq_sum: int) -> bool {
    lmq_sum * 5 > raw_sum && raw_sum > 100000
}

/// Sum of normalized depth ratios over `[lo, hi)`.
pub open spec fn norm_sum(f: Seq<u32>, data: Seq<i64>, lo: int, hi: int) -> int
    decreases (if hi <= lo { 0int } else { hi - lo }),
{
    if hi <= lo {
        0
    } else {
        norm_sum(f, data, lo, hi - 1) + norm_of(f, data[hi - 1] as int)
    }
}

/// Sum of squared normalized depth ratios over `[lo, hi)`.
pub open spec fn norm_sq_sum(f: Seq<u32>, data: Seq<i64>, lo: int, hi: int) -> int
    decreases (if hi <= lo { 0int } else { hi - lo }),
{
    if hi <= lo {
        0
    } else {
        norm_sq_sum(f, data, lo, hi - 1) + norm_of(f, data[hi - 1] as int)
            * norm_of(f, data[hi - 1] as int)
    }
}

/// Mean normalized ratio over `[lo, hi)`, in millionths.
pub open spec fn mean_micro_of(f: Seq<u32>, data: Seq<i64>, lo: int, hi: int) -> int {
    norm_sum(f, data, lo, hi) / (hi - lo)
}

/// Variance of the normalized ratio over `[lo, hi)`, in millionths.
pub open spec fn var_micro_of(f: Seq<u32>, data: Seq<i64>, lo: int, hi: int) -> int {
    let n = hi - lo;
    let s1 = norm_sum(f, data, lo, hi);
    let s2 = norm_sq_sum(f, data, lo, hi);
    if n * s2 >= s1 * s1 {
        (n * s2 - s1 * s1) / (n * n * (MICRO as int))
    } else {
        0
    }
}

/// A left/right candidate combination is skipped when the change rates
/// differ more than twofold (unless both are small) or the coordinates are
/// out of order.
pub open spec fn combo_skip(l: (u32, i64), r: (u32, i64)) -> bool {
    ((l.1 * 2 < r.1 || r.1 * 2 < l.1) && (l.1 > 10 || r.1 > 10)) || l.0 >= r.0
}

/// The first right candidate that the left candidate `l` accepts.
pub open spec fn first_in_row(l: (u32, i64), rs: Seq<(u32, i64)>) -> Option<(u32, i64)>
    decreases rs.len(),
{
    if rs.len() == 0 {
        None
    } else if !combo_skip(l, rs.first()) {
        Some(rs.first())
    } else {
        first_in_row(l, rs.drop_first())
    }
}

/// The first accepted combination, scanning left candidates in order.
pub open spec fn first_combo(ls: Seq<(u32, i64)>, rs: Seq<(u32, i64)>) -> Option<
    ((u32, i64), (u32, i64)),
>
    decreases ls.len(),
{
    if ls.len() == 0 {
        None
    } else {
        match first_in_row(ls.first(), rs) {
            Some(r) => Some((ls.first(), r)),
            None => first_combo(ls.drop_first(), rs),
        }
    }
}

/// Walk the left boundary inward while the normalized depth stays away
/// from the expected ratio.
pub open spec fn walk_up(f: Seq<u32>, data: Seq<i64>, l: int, r: int, target: int) -> int
    decreases (if r <= l { 0int } else { r - l }),
{
    if l >= r {
        l
    } else if iabs(norm_of(f, data[l] as int) - target) > WALK_TOL {
        walk_up(f, data, l + 1, r, target)
    } else {
        l
    }
}

/// Walk the right boundary inward while the normalized depth stays away
/// from the expected ratio.
pub open spec fn walk_down(f: Seq<u32>, data: Seq<i64>, l: int, r: int, target: int) -> int
    decreases (if r <= l { 0int } else { r - l }),
{
    if l >= r {
        r
    } else if iabs(norm_of(f, data[r] as int) - target) > WALK_TOL {
        walk_down(f, data, l, r - 1, target)
    } else {
        r
    }
}

/// The first target copy number whose expected ratio the mean satisfies.
pub open spec fn first_fit(ts: Seq<u32>, mean: int) -> Option<u32>
    decreases ts.len(),
{
    if ts.len() == 0 {
        None
    } else if iabs(ts.first() * (HALF_MICRO as int) - mean) < MEAN_TOL {
        Some(ts.first())
    } else {
        first_fit(ts.drop_first(), mean)
    }
}

/// First position of `s` strictly greater than `x`.
pub open spec fn first_above(s: Seq<u32>, x: u32) -> int
    decreases s.len(),
{
    if s.len() == 0 {
        0
    } else if s.first() > x {
        0
    } else {
        1 + first_above(s.drop_first(), x)
    }
}

/// Stable ascending insertion.
pub open spec fn insert_asc(s: Seq<u32>, x: u32) -> Seq<u32> {
    let p = first_above(s, x);
    s.take(p).push(x) + s.skip(p)
}

/// Stable ascending sort, as repeated insertion.
pub open spec fn sort_asc(s: Seq<u32>) -> Seq<u32>
    decreases s.len(),
{
    if s.len() == 0 {
        Seq::empty()
    } else {
        insert_asc(sort_asc(s.drop_last()), s.last())
    }
}

pub proof fn lemma_first_above_range(s: Seq<u32>, x: u32)
    ensures
        0 <= first_above(s, x) <= s.len(),
    decreases s.len(),
{
    if s.len() > 0 && !(s.first() > x) {
        lemma_first_above_range(s.drop_first(), x);
    }
}

proof fn lemma_first_above_is_split(s: Seq<u32>, x: u32, p: int)
    requires
        0 <= p <= s.len(),
        forall|m: int| 0 <= m < p ==> (#[trigger] s[m]) <= x,
        p == s.len() || s[p] > x,
    ensures
        first_above(s, x) == p,
    decreases s.len(),
{
    if s.len() > 0 && p != 0 {
        assert(forall|m: int| 0 <= m < p - 1 ==> (#[trigger] s.drop_first()[m]) == s[m + 1]);
        lemma_first_above_is_split(s.drop_first(), x, p - 1);
    }
}

/// Sort a copy-number target list ascending, stably.
pub fn sort_copy_nums(v: &Vec<u32>) -> (r: Vec<u32>)
    ensures
        r@ == sort_asc(v@),
{
    let mut sorted: Vec<u32> = Vec::new();
    let mut i: usize = 0;
    while i < v.len()
        invariant
            i <= v@.len(),
            sorted@ == sort_asc(v@.take(i as int)),
        decreases v@.len() - i,
    {
        let x = v[i];
        proof {
            assert(v@.take(i + 1 as int).drop_last() =~= v@.take(i as int));
            assert(v@.take(i + 1 as int).last() == v@[i as int]);
            lemma_first_above_range(sorted@, x);
        }
        let ghost s0 = sorted@;
        let mut p: usize = 0;
        while p < sorted.len() && sorted[p] <= x
            invariant
                sorted@ == s0,
                p <= s0.len(),
                forall|m: int| 0 <= m < p ==> (#[trigger] s0[m]) <= x,
            decreases s0.len() - p,
        {
            p = p + 1;
        }
        proof {
            lemma_first_above_is_split(s0, x, p as int);
        }
        sorted.insert(p, x);
        proof {
            assert(sorted@ =~= insert_asc(s0, x));
        }
        i = i + 1;
    }
    proof {
        assert(v@.take(v@.len() as int) =~= v@);
    }
    sorted
}

/// Bucket counts after recording the depths of `data` into a frequency
/// table that started as `f`.
pub open spec fn counts_after(f: Seq<u32>, data: Seq<i64>) -> Seq<u32>
    decreases data.len(),
{
    if data.len() == 0 {
        f
    } else {
        let g = counts_after(f, data.drop_last());
        let b = if data.last() as int <= g.len() - 1 {
            data.last() as int
        } else {
            g.len() - 1
        };
        g.update(b, (g[b] + 1) as u32)
    }
}

/// Normalized ratios lie between 0 and the saturation bound.
pub proof fn lemma_norm_of_bounds(f: Seq<u32>, v: int)
    requires
        0 <= v,
    ensures
        0 <= norm_of(f, v) <= NORM_SAT,
{
    crate::histogram::lemma_count_nonneg(f);
    if v >= f.len() - 1 || crate::histogram::weighted_sum(f) == 0 {
    } else {
        let cs = crate::histogram::count_sum(f);
        let ws = crate::histogram::weighted_sum(f);
        assert(v * cs * (MICRO as int) >= 0) by (nonlinear_arith)
            requires
                0 <= v,
                0 <= cs,
        ;
        assert(v * cs * (MICRO as int) / ws >= 0) by (nonlinear_arith)
            requires
                v * cs * (MICRO as int) >= 0,
                ws >= 1,
        ;
    }
}

/// The normalized sums over a span are bounded by span length times the
/// saturation bound.
pub proof fn lemma_norm_sums_bounds(f: Seq<u32>, data: Seq<i64>, lo: int, hi: int)
    requires
        0 <= lo,
        hi <= data.len(),
        forall|j: int| 0 <= j < data.len() ==> 0 <= #[trigger] data[j],
    ensures
        0 <= norm_sum(f, data, lo, hi) <= (if hi <= lo {
            0int
        } else {
            (hi - lo) * NORM_SAT
        }),
        0 <= norm_sq_sum(f, data, lo, hi) <= (if hi <= lo {
            0int
        } else {
            (hi - lo) * NORM_SAT * NORM_SAT
        }),
    decreases (if hi <= lo { 0int } else { hi - lo }),
{
    if hi > lo {
        lemma_norm_sums_bounds(f, data, lo, hi - 1);
        lemma_norm_of_bounds(f, data[hi - 1] as int);
        let x = norm_of(f, data[hi - 1] as int);
        assert(0 <= x * x <= (NORM_SAT as int) * NORM_SAT) by (nonlinear_arith)
            requires
                0 <= x <= NORM_SAT,
        ;
        assert((hi - lo) * (NORM_SAT as int) == (hi - 1 - lo) * NORM_SAT + NORM_SAT)
            by (nonlinear_arith);
        assert((hi - lo) * (NORM_SAT as int) * NORM_SAT == (hi - 1 - lo) * (NORM_SAT as int)
            * NORM_SAT + (NORM_SAT as int) * NORM_SAT) by (nonlinear_arith);
    }
}

/// The variance form fits comfortably in an `i64`.
proof fn lemma_var_fits(n: int, s1: int, s2: int)
    requires
        1 <= n,
        0 <= s1 <= n * NORM_SAT,
        0 <= s2 <= n * NORM_SAT * NORM_SAT,
    ensures
        0 <= (if n * s2 >= s1 * s1 {
            (n * s2 - s1 * s1) / (n * n * (MICRO as int))
        } else {
            0int
        }) <= 1_000_000_000_000,
        n * s2 <= n * n * (NORM_SAT as int) * NORM_SAT,
        0 <= s1 * s1,
        1 <= n * n * (MICRO as int),
{
    assert(n * s2 <= n * (n * (NORM_SAT as int) * NORM_SAT)) by (nonlinear_arith)
        requires
            1 <= n,
            s2 <= n * (NORM_SAT as int) * NORM_SAT,
    ;
    assert(n * (n * (NORM_SAT as int) * NORM_SAT) == n * n * (NORM_SAT as int) * NORM_SAT)
        by (nonlinear_arith);
    assert(0 <= s1 * s1) by (nonlinear_arith);
    assert(1 <= n * n * (MICRO as int)) by (nonlinear_arith)
        requires
            1 <= n,
    ;
    if n * s2 >= s1 * s1 {
        let d = n * n * (MICRO as int);
        let nd = n * s2 - s1 * s1;
        assert(n * n * (NORM_SAT as int) * NORM_SAT == d * 1_000_000_000_000) by (nonlinear_arith)
            requires
                d == n * n * (MICRO as int),
        ;
        vstd::arithmetic::div_mod::lemma_div_is_ordered(nd, d * 1_000_000_000_000, d);
        vstd::arithmetic::div_mod::lemma_div_by_multiple(1_000_000_000_000, d);
        assert(d * 1_000_000_000_000 == 1_000_000_000_000 * d) by (nonlinear_arith);
        vstd::arithmetic::div_mod::lemma_div_pos_is_pos(nd, d);
    }
}

/// Boundary refinement over one chromosome's raw depth signal.
pub struct EdgeDetector {
    scan_size: u32,
    read_size: u32,
    raw_dep: Vec<i64>,
    lmq_dep: Vec<i64>,
    histogram: Histogram,
    target_copy_num: Vec<u32>,
    pv_threshold: i64,
}

impl EdgeDetector {
    pub closed spec fn raw(self) -> Seq<i64> {
        self.raw_dep@
    }

    pub closed spec fn lmq(self) -> Seq<i64> {
        self.lmq_dep@
    }

    pub closed spec fn hist(self) -> Seq<u32> {
        self.histogram.counts()
    }

    pub closed spec fn targets(self) -> Seq<u32> {
        self.target_copy_num@
    }

    pub closed spec fn scan(self) -> int {
        self.scan_size as int
    }

    pub closed spec fn read_len(self) -> int {
        self.read_size as int
    }

    pub closed spec fn threshold(self) -> int {
        self.pv_threshold as int
    }

    pub open spec fn wf(self) -> bool {
        &&& scan_data_ok(self.raw())
        &&& scan_data_ok(self.lmq())
        &&& self.raw().len() == self.lmq().len()
        &&& self.hist_wf()
    }

    pub closed spec fn hist_wf(self) -> bool {
        self.histogram.wf()
    }

    /// Build a detector from the materialized raw and low-quality depth
    /// arrays.  The depth histogram is filled from the raw array, and the
    /// target copy numbers are kept sorted ascending.
    pub fn new(
        raw_dep: Vec<i64>,
        lmq_dep: Vec<i64>,
        scan_size: u32,
        read_size: u32,
        copy_nums: &Vec<u32>,
        pv_threshold: i64,
    ) -> (d: EdgeDetector)
        requires
            scan_data_ok(raw_dep@),
            scan_data_ok(lmq_dep@),
            raw_dep@.len() == lmq_dep@.len(),
        ensures
            d.wf(),
            d.raw() == raw_dep@,
            d.lmq() == lmq_dep@,
            d.targets() == sort_asc(copy_nums@),
            d.scan() == scan_size,
            d.read_len() == read_size,
            d.threshold() == pv_threshold,
            d.hist() == counts_after(
                Seq::new(1025nat, |b: int| 0u32),
                raw_dep@,
            ),
    {
        let mut histogram = Histogram::new(1024);
        proof {
            assert(histogram.counts() =~= Seq::new(1025nat, |b: int| 0u32));
            crate::histogram::lemma_count_nonneg(histogram.counts());
            lemma_zero_count(histogram.counts());
        }
        let ghost f0 = histogram.counts();
        let mut i: usize = 0;
        while i < raw_dep.len()
            invariant
                i <= raw_dep@.len(),
                raw_dep@.len() <= 0x8000_0000,
                forall|j: int|
                    0 <= j < raw_dep@.len() ==> 0 <= #[trigger] raw_dep@[j] <= 0x8000_0000,
                histogram.wf(),
                histogram.counts() == counts_after(f0, raw_dep@.take(i as int)),
                crate::histogram::count_sum(histogram.counts()) == i,
            decreases raw_dep@.len() - i,
        {
            proof {
                assert(raw_dep@.take(i + 1 as int).drop_last() =~= raw_dep@.take(i as int));
                assert(raw_dep@.take(i + 1 as int).last() == raw_dep@[i as int]);
            }
            let v = raw_dep[i];
            histogram.add(v as u32);
            i = i + 1;
        }
        proof {
            assert(raw_dep@.take(raw_dep@.len() as int) =~= raw_dep@);
        }
        let target_copy_num = sort_copy_nums(copy_nums);
        EdgeDetector {
            scan_size,
            read_size,
            raw_dep,
            lmq_dep,
            histogram,
            target_copy_num,
            pv_threshold,
        }
    }

    /// Raw and low-quality depth totals over `[left, right)`.
    pub fn span_sums(&self, left: u32, right: u32) -> (r: (i64, i64))
        requires
            self.wf(),
            left <= right,
            right <= self.raw().len(),
        ensures
            r.0 as int == seq_sum(self.raw(), left as int, right as int),
            r.1 as int == seq_sum(self.lmq(), left as int, right as int),
    {
        let mut raw_sum: i64 = 0;
        let mut lmq_sum: i64 = 0;
        let mut j: usize = left as usize;
        while j < right as usize
            invariant
                self.wf(),
                left <= j <= right,
                right <= self.raw().len(),
                raw_sum as int == seq_sum(self.raw(), left as int, j as int),
                lmq_sum as int == seq_sum(self.lmq(), left as int, j as int),
                0 <= raw_sum as int <= (j - left) * 0x8000_0000,
                0 <= lmq_sum as int <= (j - left) * 0x8000_0000,
            decreases right - j,
        {
            proof {
                assert((j + 1 - left) * 0x8000_0000int == (j - left) * 0x8000_0000 + 0x8000_0000)
                    by (nonlinear_arith);
                assert((j - left) * 0x8000_0000int <= 0x8000_0000 * 0x8000_0000int)
                    by (nonlinear_arith)
                    requires
                        0 <= j - left <= 0x8000_0000,
                ;
            }
            raw_sum = raw_sum + self.raw_dep[j];
            lmq_sum = lmq_sum + self.lmq_dep[j];
            j = j + 1;
        }
        (raw_sum, lmq_sum)
    }

    /// Mean, variance and low-quality mean of the normalized depth over
    /// `[left, right)`, all in millionths.
    pub fn compute_norms(&self, left: u32, right: u32) -> (r: (i64, i64, i64))
        requires
            self.wf(),
            left < right,
            right <= self.raw().len(),
        ensures
            r.0 as int == mean_micro_of(self.hist(), self.raw(), left as int, right as int),
            r.1 as int == var_micro_of(self.hist(), self.raw(), left as int, right as int),
            r.2 as int == mean_micro_of(self.hist(), self.lmq(), left as int, right as int),
            0 <= r.0 <= NORM_SAT,
            0 <= r.1 <= 1_000_000_000_000,
            0 <= r.2 <= NORM_SAT,
    {
        let mut s1: u128 = 0;
        let mut s2: u128 = 0;
        let mut sl: u128 = 0;
        let mut j: usize = left as usize;
        while j < right as usize
            invariant
                self.wf(),
                left <= j <= right,
                left < right,
                right <= self.raw().len(),
                s1 as int == norm_sum(self.hist(), self.raw(), left as int, j as int),
                s2 as int == norm_sq_sum(self.hist(), self.raw(), left as int, j as int),
                sl as int == norm_sum(self.hist(), self.lmq(), left as int, j as int),
            decreases right - j,
        {
            proof {
                lemma_norm_sums_bounds(self.hist(), self.raw(), left as int, j as int);
                lemma_norm_sums_bounds(self.hist(), self.lmq(), left as int, j as int);
                lemma_bound_steps(j - left);
            }
            let v = self.raw_dep[j];
            let nv = self.histogram.normalize(v as u32);
            let vl = self.lmq_dep[j];
            let nl = self.histogram.normalize(vl as u32);
            proof {
                assert((nv as int) * (nv as int) <= (NORM_SAT as int) * NORM_SAT)
                    by (nonlinear_arith)
                    requires
                        0 <= nv <= NORM_SAT,
                ;
                assert((nv as int) * (nv as int) >= 0) by (nonlinear_arith);
            }
            s1 = s1 + (nv as u128);
            s2 = s2 + (nv as u128) * (nv as u128);
            sl = sl + (nl as u128);
            j = j + 1;
        }
        let n = (right - left) as u128;
        proof {
            lemma_norm_sums_bounds(self.hist(), self.raw(), left as int, right as int);
            lemma_norm_sums_bounds(self.hist(), self.lmq(), left as int, right as int);
            lemma_var_fits(
                right - left as int,
                norm_sum(self.hist(), self.raw(), left as int, right as int),
                norm_sq_sum(self.hist(), self.raw(), left as int, right as int),
            );
            lemma_mean_fits(
                right - left as int,
                norm_sum(self.hist(), self.raw(), left as int, right as int),
            );
            lemma_mean_fits(
                right - left as int,
                norm_sum(self.hist(), self.lmq(), left as int, right as int),
            );
        }
        proof {
            let nn = right - left as int;
            let rs1 = norm_sum(self.hist(), self.raw(), left as int, right as int);
            let rs2 = norm_sq_sum(self.hist(), self.raw(), left as int, right as int);
            assert(nn * rs2 <= 0x8000_0000int * (0x8000_0000int * (NORM_SAT as int) * NORM_SAT))
                by (nonlinear_arith)
                requires
                    0 <= nn <= 0x8000_0000,
                    0 <= rs2 <= 0x8000_0000int * (NORM_SAT as int) * NORM_SAT,
            ;
            assert(rs1 * rs1 <= (0x8000_0000int * NORM_SAT) * (0x8000_0000int * NORM_SAT))
                by (nonlinear_arith)
                requires
                    0 <= rs1 <= 0x8000_0000int * NORM_SAT,
            ;
            assert(nn * nn * (MICRO as int) <= 0x8000_0000int * 0x8000_0000 * 1_000_000)
                by (nonlinear_arith)
                requires
                    0 <= nn <= 0x8000_0000,
            ;
            lemma_bound_steps(right - left as int);
        }
        let mean = (s1 / n) as i64;
        let lmq_mean = (sl / n) as i64;
        let num2 = n * s2;
        let sq = s1 * s1;
        let var = if num2 >= sq {
            ((num2 - sq) / (n * n * (MICRO as u128))) as i64
        } else {
            0i64
        };
        (mean, var, lmq_mean)
    }
}

proof fn lemma_zero_count(f: Seq<u32>)
    requires
        forall|b: int| 0 <= b < f.len() ==> f[b] == 0,
    ensures
        crate::histogram::count_sum(f) == 0,
    decreases f.len(),
{
    if f.len() > 0 {
        assert(forall|b: int| 0 <= b < f.len() - 1 ==> f.drop_last()[b] == f[b]);
        lemma_zero_count(f.drop_last());
    }
}

/// Numeric room for one more normalized value in the running sums.
proof fn lemma_bound_steps(k: int)
    requires
        0 <= k <= 0x8000_0000,
    ensures
        k * (NORM_SAT as int) <= 0x8000_0000 * (NORM_SAT as int),
        k * (NORM_SAT as int) * NORM_SAT <= 0x8000_0000 * (NORM_SAT as int) * NORM_SAT,
{
    assert(k * (NORM_SAT as int) <= 0x8000_0000 * (NORM_SAT as int)) by (nonlinear_arith)
        requires
            0 <= k <= 0x8000_0000,
    ;
    assert(k * (NORM_SAT as int) * NORM_SAT <= 0x8000_0000 * (NORM_SAT as int) * NORM_SAT)
        by (nonlinear_arith)
        requires
            0 <= k <= 0x8000_0000,
    ;
}

/// The mean of bounded normalized values fits in an `i64`.
proof fn lemma_mean_fits(n: int, s1: int)
    requires
        1 <= n,
        0 <= s1 <= n * NORM_SAT,
    ensures
        0 <= s1 / n <= NORM_SAT,
{
    vstd::arithmetic::div_mod::lemma_div_is_ordered(s1, n * (NORM_SAT as int), n);
    assert(n * (NORM_SAT as int) == (NORM_SAT as int) * n) by (nonlinear_arith);
    vstd::arithmetic::div_mod::lemma_div_by_multiple(NORM_SAT as int, n);
    vstd::arithmetic::div_mod::lemma_div_pos_is_pos(s1, n);
}

/// Every scan result element lies in the scanned window and carries a
/// bounded change rate.
pub proof fn lemma_scan_elements(data: Seq<i64>, sign: int, lo: int, hi: int, limit: int)
    requires
        scan_data_ok(data),
        -1 <= sign <= 1,
        0 <= lo,
        hi <= data.len(),
        0 <= limit,
    ensures
        forall|m: int|
            0 <= m < spec_scan(data, sign, lo, hi, limit).len() ==> {
                let x = #[trigger] spec_scan(data, sign, lo, hi, limit)[m];
                &&& lo + 2 <= x.0
                &&& x.0 <= hi - 2
                &&& -0x1_0000_0000 <= x.1 <= 0x1_0000_0000
            },
{
    let peaks = peaks_up_to(data, sign, lo, hi - 2);
    lemma_peaks_bounds(data, sign, lo, hi - 2);
    lemma_sort_desc_elements(peaks);
    let sorted = sort_desc(peaks);
    assert forall|m: int|
        0 <= m < spec_scan(data, sign, lo, hi, limit).len() implies {
        let x = #[trigger] spec_scan(data, sign, lo, hi, limit)[m];
        &&& lo + 2 <= x.0
        &&& x.0 <= hi - 2
        &&& -0x1_0000_0000 <= x.1 <= 0x1_0000_0000
    } by {
        let x = spec_scan(data, sign, lo, hi, limit)[m];
        if sorted.len() <= limit {
            assert(x == sorted[m]);
        } else {
            assert(spec_scan(data, sign, lo, hi, limit) == sorted.take(limit));
            assert(sorted.take(limit).len() == limit);
            assert(0 <= m < limit);
            assert(sorted.take(limit)[m] == sorted[m]);
            assert(x == sorted[m]);
        }
        assert(peaks.contains(sorted[m]));
        let k = choose|k: int| 0 <= k < peaks.len() && peaks[k] == sorted[m];
        assert(peaks[k] == sorted[m]);
    }
}

/// Peaks are recorded inside the window with their true rate value.
proof fn lemma_peaks_bounds(data: Seq<i64>, sign: int, lo: int, j: int)
    requires
        scan_data_ok(data),
        -1 <= sign <= 1,
        0 <= lo,
        j <= data.len() - 2,
    ensures
        forall|m: int|
            0 <= m < peaks_up_to(data, sign, lo, j).len() ==> {
                let x = #[trigger] peaks_up_to(data, sign, lo, j)[m];
                &&& lo + 2 <= x.0
                &&& x.0 <= j
                &&& -0x1_0000_0000 <= x.1 <= 0x1_0000_0000
            },
    decreases (if j < lo + 2 { 0int } else { j - lo - 1 }),
{
    if j >= lo + 2 {
        lemma_peaks_bounds(data, sign, lo, j - 1);
        let prev = peaks_up_to(data, sign, lo, j - 1);
        let cur = peaks_up_to(data, sign, lo, j);
        if is_peak(data, sign, j) {
            assert(0 <= data[j] <= 0x8000_0000);
            assert(0 <= data[j - 1] <= 0x8000_0000);
            assert(-0x1_0000_0000 <= rate_at(data, sign, j) <= 0x1_0000_0000) by (nonlinear_arith)
                requires
                    -1 <= sign <= 1,
                    -0x1_0000_0000 <= data[j] - data[j - 1] <= 0x1_0000_0000,
                    rate_at(data, sign, j) == sign * (data[j] - data[j - 1]),
            ;
        }
        assert forall|m: int| 0 <= m < cur.len() implies {
            let x = #[trigger] cur[m];
            &&& lo + 2 <= x.0
            &&& x.0 <= j
            &&& -0x1_0000_0000 <= x.1 <= 0x1_0000_0000
        } by {
            if m < prev.len() {
                assert(cur[m] == prev[m]);
            }
        }
    }
}

/// Sorting keeps exactly the scanned candidates.
proof fn lemma_sort_desc_elements(s: Seq<(u32, i64)>)
    ensures
        sort_desc(s).len() == s.len(),
        forall|m: int|
            0 <= m < sort_desc(s).len() ==> s.contains(#[trigger] sort_desc(s)[m]),
    decreases s.len(),
{
    if s.len() > 0 {
        let t = s.drop_last();
        let x = s.last();
        lemma_sort_desc_elements(t);
        lemma_first_below_range(sort_desc(t), x.1);
        let p = first_below(sort_desc(t), x.1);
        assert forall|m: int|
            0 <= m < sort_desc(s).len() implies s.contains(#[trigger] sort_desc(s)[m]) by {
            let e = sort_desc(s)[m];
            if m == p {
                assert(e == x);
                assert(s[s.len() - 1] == x);
            } else {
                let m0 = if m < p {
                    m
                } else {
                    m - 1
                };
                assert(sort_desc(t)[m0] == e);
                assert(t.contains(e));
                let k = choose|k: int| 0 <= k < t.len() && t[k] == e;
                assert(s[k] == e);
            }
        }
    }
}

proof fn lemma_first_in_row_split(l: (u32, i64), rs: Seq<(u32, i64)>, b: int)
    requires
        0 <= b <= rs.len(),
        forall|m: int| 0 <= m < b ==> combo_skip(l, #[trigger] rs[m]),
        b == rs.len() || !combo_skip(l, rs[b]),
    ensures
        first_in_row(l, rs) == (if b == rs.len() {
            None
        } else {
            Some(rs[b])
        }),
    decreases rs.len(),
{
    if rs.len() > 0 && b != 0 {
        assert(forall|m: int|
            0 <= m < b - 1 ==> #[trigger] rs.drop_first()[m] == rs[m + 1]);
        lemma_first_in_row_split(l, rs.drop_first(), b - 1);
    }
}

proof fn lemma_first_combo_split(ls: Seq<(u32, i64)>, rs: Seq<(u32, i64)>, a: int)
    requires
        0 <= a <= ls.len(),
        forall|m: int| 0 <= m < a ==> first_in_row(#[trigger] ls[m], rs) is None,
        a == ls.len() || first_in_row(ls[a], rs) is Some,
    ensures
        first_combo(ls, rs) == (if a == ls.len() {
            None
        } else {
            Some((ls[a], first_in_row(ls[a], rs).unwrap()))
        }),
    decreases ls.len(),
{
    if ls.len() > 0 && a != 0 {
        assert(forall|m: int|
            0 <= m < a - 1 ==> #[trigger] ls.drop_first()[m] == ls[m + 1]);
        lemma_first_combo_split(ls.drop_first(), rs, a - 1);
    }
}

proof fn lemma_first_fit_split(ts: Seq<u32>, mean: int, k: int)
    requires
        0 <= k <= ts.len(),
        forall|m: int| 0 <= m < k ==> iabs((#[trigger] ts[m]) * (HALF_MICRO as int) - mean)
            >= MEAN_TOL,
        k == ts.len() || iabs(ts[k] * (HALF_MICRO as int) - mean) < MEAN_TOL,
    ensures
        first_fit(ts, mean) == (if k == ts.len() {
            None
        } else {
            Some(ts[k])
        }),
    decreases ts.len(),
{
    if ts.len() > 0 && k != 0 {
        assert(forall|m: int|
            0 <= m < k - 1 ==> #[trigger] ts.drop_first()[m] == ts[m + 1]);
        lemma_first_fit_split(ts.drop_first(), mean, k - 1);
    }
}

impl EdgeDetector {
    /// The window bound of a scan around `pos`.
    pub open spec fn scan_hi(self, pos: int, reach: int) -> int {
        if pos + reach <= self.raw().len() {
            pos + reach
        } else {
            self.raw().len() as int
        }
    }

    /// The whole refinement decision for one candidate pair, from the two
    /// edge scans through boundary choice, direct-threshold fallback and
    /// copy-number reassignment.  Statistical validation and the retry
    /// across alternate copy numbers are the caller's loop.
    pub open spec fn spec_detect(self, e0: Event, e1: Event) -> Option<Variant> {
        let f = self.hist();
        let raw = self.raw();
        let cn = e0.copy_num as int;
        let le = spec_scan(
            raw,
            rate_sign(e0.copy_num as int, e0.side),
            scan_lo(e0.pos as int, self.scan()),
            self.scan_hi(e0.pos as int, self.scan()),
            5,
        );
        let re = spec_scan(
            raw,
            rate_sign(e1.copy_num as int, e1.side),
            scan_lo(e1.pos as int, self.scan()),
            self.scan_hi(e1.pos as int, self.scan()),
            5,
        );
        let rsum = seq_sum(raw, e0.pos as int, e1.pos as int);
        let lsum = seq_sum(self.lmq(), e0.pos as int, e1.pos as int);
        if span_degenerate(rsum, lsum) {
            None
        } else {
            match first_combo(le, re) {
                None => None,
                Some(c) => {
                    let lp = c.0.0 as int;
                    let rp = c.1.0 as int;
                    let avg = mean_micro_of(f, raw, lp, rp);
                    let sd = var_micro_of(f, raw, lp, rp);
                    let lmq_avg = mean_micro_of(f, self.lmq(), lp, rp);
                    let corrected = avg - lmq_avg;
                    let best = if iabs(avg - cn * HALF_MICRO) < iabs(
                        corrected - cn * HALF_MICRO,
                    ) {
                        avg
                    } else {
                        corrected
                    };
                    let v1 = Variant {
                        left_pos: c.0.0,
                        right_pos: c.1.0,
                        copy_num: e0.copy_num,
                        mean_micro: best as i64,
                        sd_micro: sd as i64,
                        pv_micro: MICRO,
                        boundary: true,
                    };
                    let v2 = self.spec_fallback(e0, e1, v1);
                    if iabs(cn * HALF_MICRO - v2.mean_micro as int) < MEAN_TOL {
                        Some(v2)
                    } else {
                        match first_fit(self.targets(), v2.mean_micro as int) {
                            Some(c2) => Some(
                                Variant {
                                    left_pos: v2.left_pos,
                                    right_pos: v2.right_pos,
                                    copy_num: c2,
                                    mean_micro: v2.mean_micro,
                                    sd_micro: v2.sd_micro,
                                    pv_micro: v2.pv_micro,
                                    boundary: v2.boundary,
                                },
                            ),
                            None => None,
                        }
                    }
                },
            }
        }
    }

    /// The direct-threshold fallback: when the chosen mean misses the
    /// expected ratio, walk both boundaries inward to where the normalized
    /// depth first meets it, and accept the walked span if it is wide
    /// enough, covers most of the candidate span, and is quiet.
    pub open spec fn spec_fallback(self, e0: Event, e1: Event, v1: Variant) -> Variant {
        let f = self.hist();
        let raw = self.raw();
        let cn = e0.copy_num as int;
        if iabs(cn * HALF_MICRO - v1.mean_micro as int) > MEAN_TOL {
            let l2 = walk_up(f, raw, e0.pos as int, e1.pos as int, cn * HALF_MICRO);
            let r2 = walk_down(f, raw, l2, e1.pos as int, cn * HALF_MICRO);
            if (r2 - l2) * 2 > e1.pos - e0.pos && r2 - l2 > MIN_FALLBACK_SPAN {
                let m2 = mean_micro_of(f, raw, l2, r2);
                let s2v = var_micro_of(f, raw, l2, r2);
                if s2v < SD_TOL {
                    Variant {
                        left_pos: l2 as u32,
                        right_pos: r2 as u32,
                        copy_num: e0.copy_num,
                        mean_micro: m2 as i64,
                        sd_micro: s2v as i64,
                        pv_micro: MICRO,
                        boundary: false,
                    }
                } else {
                    v1
                }
            } else {
                v1
            }
        } else {
            v1
        }
    }

    /// Refine one candidate pair into a variant, or discard it.  Validation
    /// and retry are driven by the caller: this is one deterministic pass.
    #[verifier::loop_isolation(false)]
    pub fn detect_edge(&self, pair: &(Event, Event)) -> (r: Option<Variant>)
        requires
            self.wf(),
            pair.0.pos <= 0x8000_0000,
            pair.1.pos <= 0x8000_0000,
            pair.0.pos <= pair.1.pos,
            pair.1.pos < self.raw().len(),
            pair.0.copy_num <= 0x10000,
        ensures
            r == self.spec_detect(pair.0, pair.1),
    {
        let e0 = pair.0;
        let e1 = pair.1;
        let le = scan_edge_in_range(
            &self.raw_dep,
            e0.pos,
            e0.side,
            e0.copy_num,
            self.scan_size,
            self.scan_size,
            5,
        );
        let re = scan_edge_in_range(
            &self.raw_dep,
            e1.pos,
            e1.side,
            e1.copy_num,
            self.scan_size,
            self.scan_size,
            5,
        );
        proof {
            lemma_scan_elements(
                self.raw(),
                rate_sign(e0.copy_num as int, e0.side),
                scan_lo(e0.pos as int, self.scan()),
                self.scan_hi(e0.pos as int, self.scan()),
                5,
            );
            lemma_scan_elements(
                self.raw(),
                rate_sign(e1.copy_num as int, e1.side),
                scan_lo(e1.pos as int, self.scan()),
                self.scan_hi(e1.pos as int, self.scan()),
                5,
            );
            assert forall|m: int| 0 <= m < le@.len() implies {
                let x = #[trigger] le@[m];
                &&& 2 <= x.0
                &&& x.0 as int <= self.raw().len() - 2
                &&& -0x1_0000_0000 <= x.1 <= 0x1_0000_0000
            } by {
                assert(le@[m] == spec_scan(
                    self.raw(),
                    rate_sign(e0.copy_num as int, e0.side),
                    scan_lo(e0.pos as int, self.scan()),
                    self.scan_hi(e0.pos as int, self.scan()),
                    5,
                )[m]);
            }
            assert forall|m: int| 0 <= m < re@.len() implies {
                let x = #[trigger] re@[m];
                &&& 2 <= x.0
                &&& x.0 as int <= self.raw().len() - 2
                &&& -0x1_0000_0000 <= x.1 <= 0x1_0000_0000
            } by {
                assert(re@[m] == spec_scan(
                    self.raw(),
                    rate_sign(e1.copy_num as int, e1.side),
                    scan_lo(e1.pos as int, self.scan()),
                    self.scan_hi(e1.pos as int, self.scan()),
                    5,
                )[m]);
            }
        }
        let sums = self.span_sums(e0.pos, e1.pos);
        let degenerate = (sums.1 as i128) * 5 > (sums.0 as i128) && sums.0 > 100000;
        if degenerate {
            return None;
        }

        let mut combo: Option<((u32, i64), (u32, i64))> = None;
        let mut a: usize = 0;
        while a < le.len() && combo.is_none()
            invariant
                a <= le@.len(),
                combo is None ==> forall|m: int|
                    0 <= m < a ==> first_in_row(#[trigger] le@[m], re@) is None,
                combo matches Some(c) ==> first_combo(le@, re@) == Some(c) && le@.contains(c.0)
                    && re@.contains(c.1) && !combo_skip(c.0, c.1),
            decreases le@.len() - a,
        {
            let l = le[a];
            let mut row: Option<(u32, i64)> = None;
            let mut b: usize = 0;
            while b < re.len() && row.is_none()
                invariant
                    b <= re@.len(),
                    row is None ==> forall|m: int| 0 <= m < b ==> combo_skip(l, #[trigger] re@[m]),
                    row matches Some(x) ==> first_in_row(l, re@) == Some(x) && re@.contains(x)
                        && !combo_skip(l, x),
                decreases re@.len() - b,
            {
                let x = re[b];
                let skip = ((l.1 * 2 < x.1 || x.1 * 2 < l.1) && (l.1 > 10 || x.1 > 10)) || l.0
                    >= x.0;
                if !skip {
                    proof {
                        lemma_first_in_row_split(l, re@, b as int);
                    }
                    row = Some(x);
                }
                b = b + 1;
            }
            proof {
                if row is None {
                    lemma_first_in_row_split(l, re@, re@.len() as int);
                }
            }
            match row {
                Some(x) => {
                    proof {
                        lemma_first_combo_split(le@, re@, a as int);
                    }
                    combo = Some((l, x));
                },
                None => {
                },
            }
            a = a + 1;
        }
        proof {
            if combo is None {
                lemma_first_combo_split(le@, re@, le@.len() as int);
            }
        }

        let picked = match combo {
            None => {
                return None;
            },
            Some(c) => c,
        };
        let cn = e0.copy_num;
        let target = (cn as i64) * HALF_MICRO;
        let norms = self.compute_norms(picked.0.0, picked.1.0);
        let avg = norms.0;
        let sd = norms.1;
        let lmq_avg = norms.2;
        let corrected = avg - lmq_avg;
        let best = if abs_i64(avg - target) < abs_i64(corrected - target) {
            avg
        } else {
            corrected
        };
        let v1 = Variant {
            left_pos: picked.0.0,
            right_pos: picked.1.0,
            copy_num: cn,
            mean_micro: best,
            sd_micro: sd,
            pv_micro: MICRO,
            boundary: true,
        };

        let v2 = if abs_i64(target - v1.mean_micro) > MEAN_TOL {
            let mut l2 = e0.pos;
            let mut r2 = e1.pos;
            while l2 < r2 && abs_i64(self.normalize_at(l2) - target) > WALK_TOL
                invariant
                    e0.pos <= l2 <= r2,
                    r2 == e1.pos,
                    e1.pos < self.raw().len(),
                    self.wf(),
                    target == (cn as i64) * HALF_MICRO,
                    walk_up(
                        self.hist(),
                        self.raw(),
                        e0.pos as int,
                        e1.pos as int,
                        target as int,
                    ) == walk_up(self.hist(), self.raw(), l2 as int, r2 as int, target as int),
                decreases r2 - l2,
            {
                l2 = l2 + 1;
            }
            proof {
                assert(walk_up(self.hist(), self.raw(), l2 as int, r2 as int, target as int)
                    == l2 as int);
            }
            let ghost l2g = l2 as int;
            while l2 < r2 && abs_i64(self.normalize_at(r2) - target) > WALK_TOL
                invariant
                    l2 as int == l2g,
                    l2 <= r2,
                    r2 <= e1.pos,
                    e1.pos < self.raw().len(),
                    self.wf(),
                    target == (cn as i64) * HALF_MICRO,
                    walk_down(
                        self.hist(),
                        self.raw(),
                        l2g,
                        e1.pos as int,
                        target as int,
                    ) == walk_down(self.hist(), self.raw(), l2g, r2 as int, target as int),
                decreases r2 - l2,
            {
                r2 = r2 - 1;
            }
            proof {
                assert(walk_down(self.hist(), self.raw(), l2g, r2 as int, target as int)
                    == r2 as int);
            }
            if (r2 - l2) * 2 > e1.pos - e0.pos && r2 - l2 > MIN_FALLBACK_SPAN {
                let norms2 = self.compute_norms(l2, r2);
                if norms2.1 < SD_TOL {
                    Variant {
                        left_pos: l2,
                        right_pos: r2,
                        copy_num: cn,
                        mean_micro: norms2.0,
                        sd_micro: norms2.1,
                        pv_micro: MICRO,
                        boundary: false,
                    }
                } else {
                    v1
                }
            } else {
                v1
            }
        } else {
            v1
        };

        if abs_i64(target - v2.mean_micro) < MEAN_TOL {
            return Some(v2);
        }
        let mut k: usize = 0;
        let mut fit: Option<u32> = None;
        while k < self.target_copy_num.len() && fit.is_none()
            invariant
                k <= self.targets().len(),
                fit is None ==> forall|m: int|
                    0 <= m < k ==> iabs(
                        (#[trigger] self.targets()[m]) * (HALF_MICRO as int)
                            - v2.mean_micro as int,
                    ) >= MEAN_TOL,
                fit matches Some(c2) ==> first_fit(self.targets(), v2.mean_micro as int) == Some(
                    c2,
                ),
            decreases self.targets().len() - k,
        {
            let t = self.target_copy_num[k];
            proof {
                assert(t <= 0xFFFF_FFFFu32);
            }
            let texp = (t as i64) * HALF_MICRO;
            if abs_i64(texp - v2.mean_micro) < MEAN_TOL {
                proof {
                    lemma_first_fit_split(self.targets(), v2.mean_micro as int, k as int);
                }
                fit = Some(t);
            }
            k = k + 1;
        }
        proof {
            if fit is None {
                lemma_first_fit_split(
                    self.targets(),
                    v2.mean_micro as int,
                    self.targets().len() as int,
                );
            }
        }
        match fit {
            Some(c2) => Some(
                Variant {
                    left_pos: v2.left_pos,
                    right_pos: v2.right_pos,
                    copy_num: c2,
                    mean_micro: v2.mean_micro,
                    sd_micro: v2.sd_micro,
                    pv_micro: v2.pv_micro,
                    boundary: v2.boundary,
                },
            ),
            None => None,
        }
    }

    /// Normalized depth ratio at one coordinate of the raw array.
    fn normalize_at(&self, pos: u32) -> (r: i64)
        requires
            self.wf(),
            pos < self.raw().len(),
        ensures
            r as int == norm_of(self.hist(), self.raw()[pos as int] as int),
            0 <= r <= NORM_SAT,
    {
        let v = self.raw_dep[pos as usize];
        self.histogram.normalize(v as u32)
    }

    /// The lighter-weight boundary search: the single strongest change
    /// point within `limit` of each side repositions the pair, and a full
    /// detection pass (with retry) runs on the result.  A side without a
    /// strict local maximum, or a repositioning that crosses the sides,
    /// yields nothing.
    pub open spec fn spec_extend(
        self,
        e0: Event,
        e1: Event,
        limit: int,
        reads: Option<Seq<FragInfo>>,
    ) -> Option<Variant> {
        let le = spec_scan(
            self.raw(),
            rate_sign(e0.copy_num as int, e0.side),
            scan_lo(e0.pos as int, limit),
            self.scan_hi(e0.pos as int, limit),
            1,
        );
        let re = spec_scan(
            self.raw(),
            rate_sign(e1.copy_num as int, e1.side),
            scan_lo(e1.pos as int, limit),
            self.scan_hi(e1.pos as int, limit),
            1,
        );
        if le.len() > 0 && re.len() > 0 {
            let f0 = Event { pos: le[0].0, ..e0 };
            let f1 = Event { pos: re[0].0, ..e1 };
            if f0.pos > f1.pos {
                None
            } else {
                self.spec_detect_validated(f0, f1, reads, true)
            }
        } else {
            None
        }
    }

    /// Reposition a pair on the strongest nearby change points and rerun
    /// the whole refinement on it.  A repositioning that would cross the
    /// sides is dropped rather than refined: the span would be empty, a
    /// no-match outcome.
    pub fn extend_region(
        &self,
        pair: &(Event, Event),
        limit: u32,
        region_reads: Option<&Vec<FragInfo>>,
    ) -> (r: Option<Variant>)
        requires
            self.wf(),
            self.raw().len() <= 0x4000_0000,
            self.read_len() <= 0x8000_0000,
            pair.0.pos <= 0x8000_0000,
            pair.1.pos <= 0x8000_0000,
            pair.0.copy_num <= 0x10000,
            (forall|m: int| 0 <= m < self.targets().len() ==> #[trigger] self.targets()[m]
                <= 0x10000),
            (region_reads matches Some(rs) ==> region_reads_ok(rs@)),
        ensures
            r == self.spec_extend(
                pair.0,
                pair.1,
                limit as int,
                match region_reads {
                    Some(rs) => Some(rs@),
                    None => None,
                },
            ),
            (r matches Some(v) ==> v.pv_micro as int >= self.threshold()
                && crate::cluster::variant_bounded(v) && v.left_pos < v.right_pos && (
            v.right_pos as int) < self.raw().len()),
    {
        let le = scan_edge_in_range(
            &self.raw_dep,
            pair.0.pos,
            pair.0.side,
            pair.0.copy_num,
            limit,
            limit,
            1,
        );
        let re = scan_edge_in_range(
            &self.raw_dep,
            pair.1.pos,
            pair.1.side,
            pair.1.copy_num,
            limit,
            limit,
            1,
        );
        proof {
            lemma_scan_elements(
                self.raw(),
                rate_sign(pair.0.copy_num as int, pair.0.side),
                scan_lo(pair.0.pos as int, limit as int),
                self.scan_hi(pair.0.pos as int, limit as int),
                1,
            );
            lemma_scan_elements(
                self.raw(),
                rate_sign(pair.1.copy_num as int, pair.1.side),
                scan_lo(pair.1.pos as int, limit as int),
                self.scan_hi(pair.1.pos as int, limit as int),
                1,
            );
        }
        if le.len() > 0 && re.len() > 0 {
            let mut left = pair.0;
            let mut right = pair.1;
            left.pos = le[0].0;
            right.pos = re[0].0;
            if left.pos > right.pos {
                return None;
            }
            let repositioned = (left, right);
            self.detect_validated(&repositioned, region_reads, true)
        } else {
            None
        }
    }

    /// Fold a validation score into a variant and apply the pass
    /// threshold: a variant scoring below the threshold is discarded.
    pub fn apply_validation(&self, v: &Variant, pv_micro: i64) -> (r: Option<Variant>)
        ensures
            pv_micro as int >= self.threshold() ==> r == Some(
                Variant {
                    left_pos: v.left_pos,
                    right_pos: v.right_pos,
                    copy_num: v.copy_num,
                    mean_micro: v.mean_micro,
                    sd_micro: v.sd_micro,
                    pv_micro,
                    boundary: v.boundary,
                },
            ),
            (pv_micro as int) < self.threshold() ==> (r is None),
    {
        if pv_micro < self.pv_threshold {
            None
        } else {
            let mut v2 = *v;
            v2.pv_micro = pv_micro;
            Some(v2)
        }
    }
}

/// Executable absolute value on bounded inputs.
fn abs_i64(x: i64) -> (r: i64)
    requires
        x != i64::MIN,
    ensures
        r as int == iabs(x as int),
{
    if x < 0 {
        -x
    } else {
        x
    }
}

/// The scan candidates are in descending rate order.
pub open spec fn sorted_desc_rates(s: Seq<(u32, i64)>) -> bool {
    forall|i: int, j: int| 0 <= i <= j < s.len() ==> (#[trigger] s[i]).1 >= (#[trigger] s[j]).1
}

proof fn lemma_first_below_props(s: Seq<(u32, i64)>, r: i64)
    ensures
        0 <= first_below(s, r) <= s.len(),
        forall|m: int| 0 <= m < first_below(s, r) ==> (#[trigger] s[m]).1 >= r,
        first_below(s, r) < s.len() ==> s[first_below(s, r)].1 < r,
    decreases s.len(),
{
    if s.len() > 0 && !(s.first().1 < r) {
        lemma_first_below_props(s.drop_first(), r);
        let p = first_below(s, r);
        assert forall|m: int| 0 <= m < p implies (#[trigger] s[m]).1 >= r by {
            if m >= 1 {
                assert(s.drop_first()[m - 1] == s[m]);
            }
        }
        if p < s.len() {
            assert(s.drop_first()[p - 1] == s[p]);
        }
    }
}

proof fn lemma_insert_desc_sorted(s: Seq<(u32, i64)>, x: (u32, i64))
    requires
        sorted_desc_rates(s),
    ensures
        sorted_desc_rates(insert_desc(s, x)),
        insert_desc(s, x).len() == s.len() + 1,
{
    lemma_first_below_props(s, x.1);
    let p = first_below(s, x.1);
    let t = insert_desc(s, x);
    assert forall|i: int, j: int| 0 <= i <= j < t.len() implies (#[trigger] t[i]).1
        >= (#[trigger] t[j]).1 by {
        assert(forall|m: int| 0 <= m < p ==> t[m] == s[m]);
        assert(t[p] == x);
        assert(forall|m: int| p < m < t.len() ==> t[m] == s[m - 1]);
        if i < p && j > p {
            assert(s[i].1 >= x.1);
            assert(s[j - 1].1 <= s[p].1);
        }
        if i == p && j > p {
            assert(s[j - 1].1 <= s[p].1);
        }
    }
}

/// LAW - The kept change-point candidates are in descending order of
/// change magnitude: the scan's "strongest first" claim.
pub proof fn lemma_sort_desc_sorted(s: Seq<(u32, i64)>)
    ensures
        sorted_desc_rates(sort_desc(s)),
        sort_desc(s).len() == s.len(),
    decreases s.len(),
{
    if s.len() > 0 {
        lemma_sort_desc_sorted(s.drop_last());
        lemma_insert_desc_sorted(sort_desc(s.drop_last()), s.last());
    }
}

/// LAW - Every element of a scan result is at least as strong as every
/// later one.
pub proof fn lemma_scan_strongest_first(data: Seq<i64>, sign: int, lo: int, hi: int, limit: int)
    requires
        0 <= limit,
    ensures
        sorted_desc_rates(spec_scan(data, sign, lo, hi, limit)),
{
    let peaks = peaks_up_to(data, sign, lo, hi - 2);
    lemma_sort_desc_sorted(peaks);
    let sorted = sort_desc(peaks);
    if sorted.len() > limit {
        assert forall|i: int, j: int|
            0 <= i <= j < spec_scan(data, sign, lo, hi, limit).len() implies (
        #[trigger] spec_scan(data, sign, lo, hi, limit)[i]).1 >= (#[trigger] spec_scan(
            data,
            sign,
            lo,
            hi,
            limit,
        )[j]).1 by {
            assert(sorted.take(limit)[i] == sorted[i]);
            assert(sorted.take(limit)[j] == sorted[j]);
        }
    }
}

/// The copy-number targets are in ascending order.
pub open spec fn sorted_asc_u32(s: Seq<u32>) -> bool {
    forall|i: int, j: int| 0 <= i <= j < s.len() ==> s[i] <= s[j]
}

proof fn lemma_first_above_props(s: Seq<u32>, x: u32)
    ensures
        0 <= first_above(s, x) <= s.len(),
        forall|m: int| 0 <= m < first_above(s, x) ==> s[m] <= x,
        first_above(s, x) < s.len() ==> s[first_above(s, x)] > x,
    decreases s.len(),
{
    if s.len() > 0 && !(s.first() > x) {
        lemma_first_above_props(s.drop_first(), x);
        let p = first_above(s, x);
        assert forall|m: int| 0 <= m < p implies s[m] <= x by {
            if m >= 1 {
                assert(s.drop_first()[m - 1] == s[m]);
            }
        }
        if p < s.len() {
            assert(s.drop_first()[p - 1] == s[p]);
        }
    }
}

proof fn lemma_insert_asc_sorted(s: Seq<u32>, x: u32)
    requires
        sorted_asc_u32(s),
    ensures
        sorted_asc_u32(insert_asc(s, x)),
        insert_asc(s, x).len() == s.len() + 1,
{
    lemma_first_above_props(s, x);
    let p = first_above(s, x);
    let t = insert_asc(s, x);
    assert forall|i: int, j: int| 0 <= i <= j < t.len() implies t[i] <= t[j] by {
        assert(forall|m: int| 0 <= m < p ==> t[m] == s[m]);
        assert(t[p] == x);
        assert(forall|m: int| p < m < t.len() ==> t[m] == s[m - 1]);
        if i < p && j > p {
            assert(s[i] <= x);
            assert(s[j - 1] >= s[p]);
        }
        if i == p && j > p {
            assert(s[j - 1] >= s[p]);
        }
    }
}

/// LAW - The stored target copy numbers are in ascending order, so
/// copy-number reassignment tries smaller targets first.
pub proof fn lemma_sort_asc_sorted(s: Seq<u32>)
    ensures
        sorted_asc_u32(sort_asc(s)),
        sort_asc(s).len() == s.len(),
    decreases s.len(),
{
    if s.len() > 0 {
        lemma_sort_asc_sorted(s.drop_last());
        lemma_insert_asc_sorted(sort_asc(s.drop_last()), s.last());
    }
}

/// Materialize one window's width-1 depth stream, checking that every
/// value is a depth in range: a negative or oversized value means the
/// window does not hold plain unit-weight coverage, and is reported as a
/// defect rather than clamped.
fn materialize_depth(win: &crate::window::Window) -> (r: Option<Vec<i64>>)
    requires
        win.wf(),
    ensures
        ({
            r matches Some(v) ==> {
                &&& v@.len() == win.spec_size()
                &&& (forall|k: int|
                    0 <= k < v@.len() ==> #[trigger] v@[k] as int == width_one_value(
                        win.acc_seq(),
                        k,
                    ))
                &&& scan_data_ok(v@)
            }
        }),
        ({
            (r is None) ==> win.spec_size() > 0x8000_0000 || (exists|k: int|
                0 <= k < win.spec_size() && !(0 <= #[trigger] width_one_value(win.acc_seq(), k)
                    <= 0x8000_0000))
        }),
{
    let n = win.size();
    if n > 0x8000_0000 {
        return None;
    }
    let mut out: Vec<i64> = Vec::new();
    let mut it = win.iter(1);
    let mut k: usize = 0;
    while k < n
        invariant
            k <= n,
            n == win.spec_size(),
            n <= 0x8000_0000,
            win.wf(),
            it.inv(),
            it.window() == *win,
            it.width() == 1,
            it.cursor() == k,
            out@.len() == k,
            forall|m: int|
                0 <= m < k ==> #[trigger] out@[m] as int == width_one_value(win.acc_seq(), m)
                    && 0 <= out@[m] <= 0x8000_0000,
        decreases n - k,
    {
        let d = it.get_next();
        let v = match d {
            Some(x) => x,
            None => 0,
        };
        if v < 0 || v > 0x8000_0000 {
            return None;
        }
        out.push(v);
        k = k + 1;
    }
    Some(out)
}

impl EdgeDetector {
    /// Build a detector directly from a scanner: materializes the raw and
    /// low-quality width-1 depth streams and checks them.  Returns `None`
    /// only when the chromosome is too long for the detector's arithmetic
    /// or a stream value falls outside the depth range.
    pub fn from_scanner(
        scanner: &Scanner,
        scan_size: u32,
        copy_nums: &Vec<u32>,
        pv_threshold: i64,
    ) -> (r: Option<EdgeDetector>)
        requires
            scanner.wf(),
        ensures
            ({
                r matches Some(d) ==> {
                    &&& d.wf()
                    &&& d.raw().len() == scanner.spec_size()
                    &&& d.lmq().len() == scanner.spec_size()
                    &&& (forall|k: int|
                        0 <= k < d.raw().len() ==> #[trigger] d.raw()[k] as int
                            == width_one_value(scanner.raw().acc_seq(), k))
                    &&& (forall|k: int|
                        0 <= k < d.lmq().len() ==> #[trigger] d.lmq()[k] as int
                            == width_one_value(scanner.low_mq().acc_seq(), k))
                    &&& d.targets() == sort_asc(copy_nums@)
                    &&& d.scan() == scan_size
                    &&& d.read_len() == scanner.read_len_vote().0
                    &&& d.threshold() == pv_threshold
                }
            }),
            ({
                (r is None) ==> scanner.spec_size() > 0x8000_0000 || (exists|k: int|
                    0 <= k < scanner.spec_size() && !(0 <= #[trigger] width_one_value(
                        scanner.raw().acc_seq(),
                        k,
                    ) <= 0x8000_0000)) || (exists|k: int|
                    0 <= k < scanner.spec_size() && !(0 <= #[trigger] width_one_value(
                        scanner.low_mq().acc_seq(),
                        k,
                    ) <= 0x8000_0000))
            }),
    {
        let raw_dep = match materialize_depth(scanner.get_raw_window()) {
            Some(v) => v,
            None => {
                return None;
            },
        };
        let lmq_dep = match materialize_depth(scanner.get_low_mq_window()) {
            Some(v) => v,
            None => {
                return None;
            },
        };
        let read_size = scanner.get_common_read_length();
        Some(Self::new(raw_dep, lmq_dep, scan_size, read_size, copy_nums, pv_threshold))
    }

    /// The statistical validation score of one candidate: 1 for a
    /// duplication (not yet validated) and when no alignment store is
    /// available; otherwise the trimmed-rank score of the corrected depth
    /// ratios of the padded region, computed from its reads.
    pub open spec fn spec_validation_score(
        self,
        v: Variant,
        reads: Option<Seq<FragInfo>>,
    ) -> int {
        if v.copy_num >= 2 {
            MICRO as int
        } else {
            match reads {
                None => MICRO as int,
                Some(rs) => {
                    let rng = spec_pv_range(v.left_pos as int, v.right_pos as int);
                    let ratios = spec_region_ratios(rs, rng.0, rng.1, self.read_len());
                    let normal = outside_part(ratios, rng.0, v.left_pos as int, v.right_pos as int);
                    let event = inside_part(ratios, rng.0, v.left_pos as int, v.right_pos as int);
                    if normal.len() == 0 {
                        MICRO as int
                    } else {
                        pv_score_of(event, normal)
                    }
                },
            }
        }
    }

    /// Validate one detected candidate and apply the pass threshold: the
    /// driver of detect, validate and threshold.  `region_reads` holds the
    /// reads of the padded region around the candidate, or `None` when no
    /// alignment store is available, in which case validation is skipped
    /// with a passing score.  A returned variant always carries a score at
    /// or above the threshold.
    pub fn validate_variant(&self, v: &Variant, region_reads: Option<&Vec<FragInfo>>) -> (r:
        Option<Variant>)
        requires
            self.wf(),
            v.left_pos < v.right_pos,
            v.right_pos <= 0x4000_0000,
            self.read_len() <= 0x8000_0000,
            (region_reads matches Some(rs) ==> region_reads_ok(rs@)),
        ensures
            ({
                let score = self.spec_validation_score(
                    *v,
                    match region_reads {
                        Some(rs) => Some(rs@),
                        None => None,
                    },
                );
                &&& (score >= self.threshold() ==> r == Some(
                    Variant {
                        left_pos: v.left_pos,
                        right_pos: v.right_pos,
                        copy_num: v.copy_num,
                        mean_micro: v.mean_micro,
                        sd_micro: v.sd_micro,
                        pv_micro: score as i64,
                        boundary: v.boundary,
                    },
                ))
                &&& (score < self.threshold() ==> (r is None))
                &&& (r matches Some(v2) ==> v2.pv_micro as int >= self.threshold())
            }),
    {
        let score: i64 = if v.copy_num >= 2 {
            MICRO
        } else {
            match region_reads {
                None => MICRO,
                Some(reads) => {
                    let rng = pv_range(v.left_pos, v.right_pos);
                    let wins = fr_windows(reads, rng.0, rng.1, self.read_size);
                    let ratios = corrected_ratios(&wins.0, &wins.1);
                    let ghost rs = reads@;
                    let ghost r0i = rng.0 as int;
                    let ghost r1i = rng.1 as int;
                    let ghost rl = self.read_len();
                    proof {
                        lemma_region_ivals_valid(rs, r0i, r1i, rl);
                        assert forall|k: int| 0 <= k < ratios@.len() implies #[trigger] ratios@[k]
                            == spec_region_ratios(rs, r0i, r1i, rl)[k] by {
                            crate::window_model::lemma_width_one_is_depth(
                                wins.0.acc_seq(),
                                wins.0.ext_seq(),
                                crate::validate::frag_ivals(rs, r0i, r1i, rl),
                                k,
                            );
                            crate::window_model::lemma_width_one_is_depth(
                                wins.1.acc_seq(),
                                wins.1.ext_seq(),
                                crate::validate::ref_ivals(rs, r0i, r1i, rl),
                                k,
                            );
                        }
                        assert(ratios@ =~= spec_region_ratios(rs, r0i, r1i, rl));
                        lemma_parts_len(ratios@, r0i, v.left_pos as int, v.right_pos as int);
                    }
                    let parts = partition_corrections(&ratios, rng.0, v.left_pos, v.right_pos);
                    if parts.0.len() == 0 {
                        MICRO
                    } else {
                        pvalue_score(&parts.1, &parts.0)
                    }
                },
            }
        };
        self.apply_validation(v, score)
    }
}

/// An accepted row candidate was never skipped, and comes from the row.
proof fn lemma_first_in_row_accepts(l: (u32, i64), rs: Seq<(u32, i64)>)
    ensures
        first_in_row(l, rs) matches Some(r) ==> !combo_skip(l, r) && rs.contains(r),
    decreases rs.len(),
{
    if rs.len() > 0 {
        if combo_skip(l, rs.first()) {
            lemma_first_in_row_accepts(l, rs.drop_first());
            match first_in_row(l, rs.drop_first()) {
                Some(r) => {
                    let k = choose|k: int|
                        0 <= k < rs.drop_first().len() && rs.drop_first()[k] == r;
                    assert(rs[k + 1] == r);
                },
                None => {
                },
            }
        } else {
            assert(rs[0] == rs.first());
        }
    }
}

/// An accepted combination was never skipped — in particular its left
/// coordinate is below its right one — and both halves come from their
/// candidate lists.
proof fn lemma_first_combo_accepts(ls: Seq<(u32, i64)>, rs: Seq<(u32, i64)>)
    ensures
        first_combo(ls, rs) matches Some(c) ==> !combo_skip(c.0, c.1) && ls.contains(c.0)
            && rs.contains(c.1),
    decreases ls.len(),
{
    if ls.len() > 0 {
        lemma_first_in_row_accepts(ls.first(), rs);
        match first_in_row(ls.first(), rs) {
            None => {
                lemma_first_combo_accepts(ls.drop_first(), rs);
                match first_combo(ls.drop_first(), rs) {
                    Some(c) => {
                        let k = choose|k: int|
                            0 <= k < ls.drop_first().len() && ls.drop_first()[k] == c.0;
                        assert(ls[k + 1] == c.0);
                    },
                    None => {
                    },
                }
            },
            Some(r) => {
                assert(ls[0] == ls.first());
            },
        }
    }
}

/// Normalized means and variances over any in-range span are bounded by
/// the saturation limits.
proof fn lemma_norms_bounds(f: Seq<u32>, data: Seq<i64>, lo: int, hi: int)
    requires
        0 <= lo < hi,
        hi <= data.len(),
        forall|j: int| 0 <= j < data.len() ==> 0 <= #[trigger] data[j],
    ensures
        0 <= mean_micro_of(f, data, lo, hi) <= NORM_SAT,
        0 <= var_micro_of(f, data, lo, hi) <= 1_000_000_000_000,
{
    lemma_norm_sums_bounds(f, data, lo, hi);
    lemma_mean_fits(hi - lo, norm_sum(f, data, lo, hi));
    lemma_var_fits(hi - lo, norm_sum(f, data, lo, hi), norm_sq_sum(f, data, lo, hi));
}

/// A reassigned copy number comes from the target list and satisfies the
/// ratio tolerance.
proof fn lemma_first_fit_hits(ts: Seq<u32>, mean: int)
    ensures
        first_fit(ts, mean) matches Some(c) ==> ts.contains(c) && iabs(
            c * (HALF_MICRO as int) - mean,
        ) < MEAN_TOL,
    decreases ts.len(),
{
    if ts.len() > 0 {
        if iabs(ts.first() * (HALF_MICRO as int) - mean) < MEAN_TOL {
            assert(ts[0] == ts.first());
        } else {
            lemma_first_fit_hits(ts.drop_first(), mean);
            match first_fit(ts.drop_first(), mean) {
                Some(c) => {
                    let k = choose|k: int|
                        0 <= k < ts.drop_first().len() && ts.drop_first()[k] == c;
                    assert(ts[k + 1] == c);
                },
                None => {
                },
            }
        }
    }
}

/// The inward walks stay inside the span they start from.
proof fn lemma_walk_range(f: Seq<u32>, data: Seq<i64>, l: int, r: int, target: int)
    requires
        l <= r,
    ensures
        l <= walk_up(f, data, l, r, target) <= r,
        l <= walk_down(f, data, l, r, target) <= r,
    decreases r - l,
{
    if l < r {
        if iabs(norm_of(f, data[l] as int) - target) > WALK_TOL {
            lemma_walk_range(f, data, l + 1, r, target);
        }
        if iabs(norm_of(f, data[r] as int) - target) > WALK_TOL {
            lemma_walk_range(f, data, l, r - 1, target);
        }
    }
}

impl EdgeDetector {
    /// LAW - Every variant the refinement returns has its boundaries in
    /// order and inside the depth array, a mean within the accepted
    /// tolerance of its own copy number's expected ratio, a copy number
    /// that is the pair's or a member of the target list, an untested
    /// validation score, and fields inside the comparison bounds.  These
    /// are the facts a caller needs to hand the variant on to validation
    /// and cluster comparison.
    pub proof fn lemma_detect_shape(self, e0: Event, e1: Event)
        requires
            self.wf(),
            e0.pos <= e1.pos,
            e1.pos < self.raw().len(),
            e0.copy_num <= 0x10000,
            forall|m: int| 0 <= m < self.targets().len() ==> #[trigger] self.targets()[m]
                <= 0x10000,
            self.spec_detect(e0, e1) is Some,
        ensures
            ({
                let v = self.spec_detect(e0, e1).unwrap();
                &&& v.left_pos < v.right_pos
                &&& (v.right_pos as int) < self.raw().len()
                &&& iabs(v.copy_num * (HALF_MICRO as int) - v.mean_micro as int) < MEAN_TOL
                &&& (v.copy_num == e0.copy_num || self.targets().contains(v.copy_num))
                &&& v.pv_micro == MICRO
                &&& crate::cluster::variant_bounded(v)
            }),
    {
        let f = self.hist();
        let raw = self.raw();
        let cn = e0.copy_num as int;
        let le = spec_scan(
            raw,
            rate_sign(e0.copy_num as int, e0.side),
            scan_lo(e0.pos as int, self.scan()),
            self.scan_hi(e0.pos as int, self.scan()),
            5,
        );
        let re = spec_scan(
            raw,
            rate_sign(e1.copy_num as int, e1.side),
            scan_lo(e1.pos as int, self.scan()),
            self.scan_hi(e1.pos as int, self.scan()),
            5,
        );
        lemma_first_combo_accepts(le, re);
        lemma_scan_elements(
            raw,
            rate_sign(e0.copy_num as int, e0.side),
            scan_lo(e0.pos as int, self.scan()),
            self.scan_hi(e0.pos as int, self.scan()),
            5,
        );
        lemma_scan_elements(
            raw,
            rate_sign(e1.copy_num as int, e1.side),
            scan_lo(e1.pos as int, self.scan()),
            self.scan_hi(e1.pos as int, self.scan()),
            5,
        );
        match first_combo(le, re) {
            None => {
            },
            Some(c) => {
                let kl = choose|k: int| 0 <= k < le.len() && le[k] == c.0;
                let kr = choose|k: int| 0 <= k < re.len() && re[k] == c.1;
                assert(2 <= c.0.0 && (c.1.0 as int) <= raw.len() - 2);
                lemma_norms_bounds(f, raw, c.0.0 as int, c.1.0 as int);
                lemma_norms_bounds(f, self.lmq(), c.0.0 as int, c.1.0 as int);
                let l2 = walk_up(f, raw, e0.pos as int, e1.pos as int, cn * HALF_MICRO);
                lemma_walk_range(f, raw, e0.pos as int, e1.pos as int, cn * HALF_MICRO);
                lemma_walk_range(f, raw, l2, e1.pos as int, cn * HALF_MICRO);
                let r2 = walk_down(f, raw, l2, e1.pos as int, cn * HALF_MICRO);
                if l2 < r2 {
                    lemma_norms_bounds(f, raw, l2, r2);
                }
                let v1 = Variant {
                    left_pos: c.0.0,
                    right_pos: c.1.0,
                    copy_num: e0.copy_num,
                    mean_micro: (if iabs(
                        mean_micro_of(f, raw, c.0.0 as int, c.1.0 as int) - cn * HALF_MICRO,
                    ) < iabs(
                        mean_micro_of(f, raw, c.0.0 as int, c.1.0 as int) - mean_micro_of(
                            f,
                            self.lmq(),
                            c.0.0 as int,
                            c.1.0 as int,
                        ) - cn * HALF_MICRO,
                    ) {
                        mean_micro_of(f, raw, c.0.0 as int, c.1.0 as int)
                    } else {
                        mean_micro_of(f, raw, c.0.0 as int, c.1.0 as int) - mean_micro_of(
                            f,
                            self.lmq(),
                            c.0.0 as int,
                            c.1.0 as int,
                        )
                    }) as i64,
                    sd_micro: var_micro_of(f, raw, c.0.0 as int, c.1.0 as int) as i64,
                    pv_micro: MICRO,
                    boundary: true,
                };
                let v2 = self.spec_fallback(e0, e1, v1);
                lemma_first_fit_hits(self.targets(), v2.mean_micro as int);
                match first_fit(self.targets(), v2.mean_micro as int) {
                    Some(c2) => {
                        let kt = choose|k: int|
                            0 <= k < self.targets().len() && self.targets()[k] == c2;
                    },
                    None => {
                    },
                }
            },
        }
    }

}

/// An event retagged with another copy-number hypothesis, for the retry
/// pass.
pub open spec fn retagged(e: Event, cn: u32) -> Event {
    Event {
        side: e.side,
        score: e.score,
        pos: e.pos,
        copy_num: cn,
        total_dep: e.total_dep,
        lowmq_dep: e.lowmq_dep,
    }
}

impl EdgeDetector {
    /// One scored detection pass: detect, fold in the validation score,
    /// and apply the pass threshold.
    pub open spec fn spec_detect_scored(
        self,
        e0: Event,
        e1: Event,
        reads: Option<Seq<FragInfo>>,
    ) -> Option<Variant> {
        match self.spec_detect(e0, e1) {
            None => None,
            Some(v) => {
                let score = self.spec_validation_score(v, reads);
                if score >= self.threshold() {
                    Some(
                        Variant {
                            left_pos: v.left_pos,
                            right_pos: v.right_pos,
                            copy_num: v.copy_num,
                            mean_micro: v.mean_micro,
                            sd_micro: v.sd_micro,
                            pv_micro: score as i64,
                            boundary: v.boundary,
                        },
                    )
                } else {
                    None
                }
            },
        }
    }

    /// The first alternate target whose fresh scored pass keeps a variant;
    /// the pair's own copy number and the rescued result's are skipped.
    pub open spec fn spec_first_alt(
        self,
        ts: Seq<u32>,
        e0: Event,
        e1: Event,
        reads: Option<Seq<FragInfo>>,
        skip_a: u32,
        skip_b: u32,
    ) -> Option<Variant>
        decreases ts.len(),
    {
        if ts.len() == 0 {
            None
        } else if ts.first() == skip_a || ts.first() == skip_b {
            self.spec_first_alt(ts.drop_first(), e0, e1, reads, skip_a, skip_b)
        } else {
            match self.spec_detect_scored(
                retagged(e0, ts.first()),
                retagged(e1, ts.first()),
                reads,
            ) {
                Some(v) => Some(v),
                None => self.spec_first_alt(ts.drop_first(), e0, e1, reads, skip_a, skip_b),
            }
        }
    }

    /// The whole refinement outcome: one scored pass, and — when allowed
    /// and the kept variant's validation score is negative — one retry
    /// across the other targets, bounded to depth one because the retry
    /// pass itself never retries.
    pub open spec fn spec_detect_validated(
        self,
        e0: Event,
        e1: Event,
        reads: Option<Seq<FragInfo>>,
        retry: bool,
    ) -> Option<Variant> {
        let first = self.spec_detect_scored(e0, e1, reads);
        match first {
            Some(v) => {
                if retry && v.pv_micro < 0 {
                    match self.spec_first_alt(
                        self.targets(),
                        e0,
                        e1,
                        reads,
                        e0.copy_num,
                        v.copy_num,
                    ) {
                        Some(a) => Some(a),
                        None => first,
                    }
                } else {
                    first
                }
            },
            None => None,
        }
    }

    /// The validation score is always within one ratio unit of zero or the
    /// passing default.
    pub proof fn lemma_validation_score_bounds(
        self,
        v: Variant,
        reads: Option<Seq<FragInfo>>,
    )
        ensures
            -(MICRO as int) <= self.spec_validation_score(v, reads) <= MICRO as int,
    {
        if v.copy_num < 2 {
            match reads {
                None => {
                },
                Some(rs) => {
                    let rng = spec_pv_range(v.left_pos as int, v.right_pos as int);
                    let ratios = spec_region_ratios(rs, rng.0, rng.1, self.read_len());
                    let normal = outside_part(
                        ratios,
                        rng.0,
                        v.left_pos as int,
                        v.right_pos as int,
                    );
                    let event = inside_part(ratios, rng.0, v.left_pos as int, v.right_pos as int);
                    if normal.len() != 0 {
                        crate::validate::lemma_pv_score_of_bounds(event, normal);
                    }
                },
            }
        }
    }

    /// One scored detection pass, executable.
    fn detect_scored(
        &self,
        e0: Event,
        e1: Event,
        region_reads: Option<&Vec<FragInfo>>,
    ) -> (r: Option<Variant>)
        requires
            self.detect_args_ok(e0, e1),
            (region_reads matches Some(rs) ==> region_reads_ok(rs@)),
        ensures
            r == self.spec_detect_scored(
                e0,
                e1,
                match region_reads {
                    Some(rs) => Some(rs@),
                    None => None,
                },
            ),
            (r matches Some(v) ==> v.pv_micro as int >= self.threshold()
                && crate::cluster::variant_bounded(v) && v.left_pos < v.right_pos && (
            v.right_pos as int) < self.raw().len()),
    {
        let pair = (e0, e1);
        match self.detect_edge(&pair) {
            None => None,
            Some(v) => {
                proof {
                    self.lemma_detect_shape(e0, e1);
                    self.lemma_validation_score_bounds(
                        v,
                        match region_reads {
                            Some(rs) => Some(rs@),
                            None => None::<Seq<FragInfo>>,
                        },
                    );
                }
                self.validate_variant(&v, region_reads)
            },
        }
    }

    /// The arguments a detection pass needs to stay inside machine
    /// bounds.
    pub open spec fn detect_args_ok(self, e0: Event, e1: Event) -> bool {
        &&& self.wf()
        &&& e0.pos <= e1.pos
        &&& (e1.pos as int) < self.raw().len()
        &&& self.raw().len() <= 0x4000_0000
        &&& e0.copy_num <= 0x10000
        &&& self.read_len() <= 0x8000_0000
        &&& (forall|m: int|
            0 <= m < self.targets().len() ==> #[trigger] self.targets()[m] <= 0x10000)
    }

    /// Detect, validate and threshold one candidate pair, retrying once
    /// across the other targets when the kept variant's validation score
    /// is negative (the retry passes never retry, so the recursion depth
    /// is one by construction).
    pub fn detect_validated(
        &self,
        pair: &(Event, Event),
        region_reads: Option<&Vec<FragInfo>>,
        retry: bool,
    ) -> (r: Option<Variant>)
        requires
            self.detect_args_ok(pair.0, pair.1),
            (region_reads matches Some(rs) ==> region_reads_ok(rs@)),
        ensures
            r == self.spec_detect_validated(
                pair.0,
                pair.1,
                match region_reads {
                    Some(rs) => Some(rs@),
                    None => None,
                },
                retry,
            ),
            (r matches Some(v) ==> v.pv_micro as int >= self.threshold()
                && crate::cluster::variant_bounded(v) && v.left_pos < v.right_pos && (
            v.right_pos as int) < self.raw().len()),
    {
        let first = self.detect_scored(pair.0, pair.1, region_reads);
        let ghost reads = match region_reads {
            Some(rs) => Some(rs@),
            None => None::<Seq<FragInfo>>,
        };
        if retry {
            if let Some(v) = &first {
                if v.pv_micro < 0 {
                    let ghost ts = self.targets();
                    proof {
                        assert(ts.skip(0) =~= ts);
                    }
                    let mut k: usize = 0;
                    let mut alt: Option<Variant> = None;
                    while k < self.target_copy_num.len() && alt.is_none()
                        invariant
                            k <= ts.len(),
                            ts == self.targets(),
                            self.detect_args_ok(pair.0, pair.1),
                            (region_reads matches Some(rs) ==> region_reads_ok(rs@)),
                            reads == (match region_reads {
                                Some(rs) => Some(rs@),
                                None => None::<Seq<FragInfo>>,
                            }),
                            first == self.spec_detect_scored(pair.0, pair.1, reads),
                            first == Some(*v),
                            alt is None ==> self.spec_first_alt(
                                ts,
                                pair.0,
                                pair.1,
                                reads,
                                pair.0.copy_num,
                                v.copy_num,
                            ) == self.spec_first_alt(
                                ts.skip(k as int),
                                pair.0,
                                pair.1,
                                reads,
                                pair.0.copy_num,
                                v.copy_num,
                            ),
                            alt matches Some(a) ==> self.spec_first_alt(
                                ts,
                                pair.0,
                                pair.1,
                                reads,
                                pair.0.copy_num,
                                v.copy_num,
                            ) == Some(a) && a.pv_micro as int >= self.threshold()
                                && crate::cluster::variant_bounded(a) && a.left_pos < a.right_pos
                                && (a.right_pos as int) < self.raw().len(),
                        decreases ts.len() - k,
                    {
                        let t = self.target_copy_num[k];
                        proof {
                            assert(ts.skip(k as int).first() == ts[k as int]);
                            assert(ts.skip(k as int).drop_first() =~= ts.skip(k + 1 as int));
                        }
                        if t != pair.0.copy_num && t != v.copy_num {
                            let mut f0 = pair.0;
                            let mut f1 = pair.1;
                            f0.copy_num = t;
                            f1.copy_num = t;
                            proof {
                                assert(f0 == retagged(pair.0, t));
                                assert(f1 == retagged(pair.1, t));
                            }
                            let cand = self.detect_scored(f0, f1, region_reads);
                            if cand.is_some() {
                                alt = cand;
                            }
                        }
                        k = k + 1;
                    }
                    proof {
                        if alt is None {
                            assert(ts.skip(ts.len() as int) =~= Seq::<u32>::empty());
                        }
                    }
                    if let Some(a) = alt {
                        return Some(a);
                    }
                }
            }
        }
        first
    }
}

/// The synthetic left/right events over a cluster span, as
/// `make_linear_event` builds them.
pub open spec fn span_events(pl: u32, pr: u32, cn: u32) -> (Event, Event) {
    (
        Event { side: Side::Left, score: 0, pos: pl, copy_num: cn, total_dep: 0, lowmq_dep: 0 },
        Event { side: Side::Right, score: 0, pos: pr, copy_num: cn, total_dep: 0, lowmq_dep: 0 },
    )
}

impl EdgeDetector {
    /// The representative one cluster reduces to: singletons pass through;
    /// otherwise the pairwise preference fold, then the merged-span
    /// re-detection, and beyond 5000 bp the repositioned re-detection,
    /// each able to displace the running best.
    pub open spec fn spec_merge_step(
        self,
        vs: Seq<Variant>,
        g: (int, int),
        reads: Option<Seq<FragInfo>>,
    ) -> Variant {
        if g.1 - g.0 <= 1 {
            vs[g.0]
        } else {
            let best0 = best_in(vs, g.0, g.1);
            let pl = vs[g.0].left_pos;
            let pr = vs[g.1 - 1].right_pos;
            let ev = span_events(pl, pr, best0.copy_num);
            let best1 = match self.spec_detect_validated(ev.0, ev.1, reads, true) {
                Some(o) => if prefer(best0, o, true) {
                    o
                } else {
                    best0
                },
                None => best0,
            };
            if pr - pl > 5000 {
                let ev2 = span_events(pl, pr, best1.copy_num);
                match self.spec_extend(ev2.0, ev2.1, 2000, reads) {
                    Some(w) => if prefer(best1, w, true) {
                        w
                    } else {
                        best1
                    },
                    None => best1,
                }
            } else {
                best1
            }
        }
    }

    /// The representatives of the first `i` clusters.
    pub open spec fn spec_merge_fold(
        self,
        vs: Seq<Variant>,
        groups: Seq<(int, int)>,
        i: int,
        reads: Option<Seq<FragInfo>>,
    ) -> Seq<Variant>
        decreases (if i <= 0 { 0int } else { i }),
    {
        if i <= 0 {
            Seq::empty()
        } else {
            self.spec_merge_fold(vs, groups, i - 1, reads).push(
                self.spec_merge_step(vs, groups[i - 1], reads),
            )
        }
    }

    /// The final call set of the sorted candidates: one representative per
    /// cluster.
    pub open spec fn spec_merge(
        self,
        vs: Seq<Variant>,
        reads: Option<Seq<FragInfo>>,
    ) -> Seq<Variant> {
        self.spec_merge_fold(vs, spec_clusters(vs), spec_clusters(vs).len() as int, reads)
    }

    /// Sort the candidates, group them into clusters, and reduce each
    /// cluster to one representative.
    #[verifier::loop_isolation(false)]
    pub fn merge_clusters(
        &self,
        variants: &Vec<Variant>,
        region_reads: Option<&Vec<FragInfo>>,
    ) -> (r: Vec<Variant>)
        requires
            self.wf(),
            self.raw().len() <= 0x4000_0000,
            self.read_len() <= 0x8000_0000,
            (forall|m: int| 0 <= m < self.targets().len() ==> #[trigger] self.targets()[m]
                <= 0x10000),
            (region_reads matches Some(rs) ==> region_reads_ok(rs@)),
            variants@.len() < 0x1_0000_0000,
            forall|m: int|
                0 <= m < variants@.len() ==> variant_bounded(#[trigger] variants@[m])
                    && variants@[m].left_pos <= variants@[m].right_pos && (
                variants@[m].right_pos as int) < self.raw().len(),
        ensures
            r@ == self.spec_merge(
                sort_by_left(variants@),
                match region_reads {
                    Some(rs) => Some(rs@),
                    None => None,
                },
            ),
    {
        let ghost reads = match region_reads {
            Some(rs) => Some(rs@),
            None => None::<Seq<FragInfo>>,
        };
        let vs = sort_variants(variants);
        proof {
            lemma_sort_by_left_elements(variants@);
            lemma_sort_by_left_sorted(variants@);
            lemma_clusters_ranges(vs@);
            assert forall|m: int|
                0 <= m < vs@.len() implies variant_bounded(#[trigger] vs@[m])
                && vs@[m].left_pos <= vs@[m].right_pos && (vs@[m].right_pos as int)
                < self.raw().len() by {
                assert(variants@.contains(vs@[m]));
                let k = choose|k: int| 0 <= k < variants@.len() && variants@[k] == vs@[m];
            }
        }
        let groups = cluster_spans(&vs);
        let ghost gspec = spec_clusters(vs@);
        let mut out: Vec<Variant> = Vec::new();
        let mut i: usize = 0;
        while i < groups.len()
            invariant
                i <= groups@.len(),
                out@ == self.spec_merge_fold(vs@, gspec, i as int, reads),
            decreases groups@.len() - i,
        {
            let g = groups[i];
            proof {
                assert(groups@.map_values(|p: (usize, usize)| (p.0 as int, p.1 as int))[i as int]
                    == gspec[i as int]);
            }
            let from = g.0;
            let to = g.1;
            let rep: Variant;
            if to - from <= 1 {
                rep = vs[from];
            } else {
                let best0 = pick_representative(&vs, from, to);
                let pl = vs[from].left_pos;
                let pr = vs[to - 1].right_pos;
                proof {
                    assert(vs@[from as int].left_pos <= vs@[to - 1].left_pos);
                }
                let pair = make_linear_event(pl, pr, best0.copy_num);
                let cand = self.detect_validated(&pair, region_reads, true);
                let best1 = match cand {
                    Some(o) => if pick_better(&best0, &o, true) {
                        o
                    } else {
                        best0
                    },
                    None => best0,
                };
                if pr - pl > 5000 {
                    let pair2 = make_linear_event(pl, pr, best1.copy_num);
                    rep = match self.extend_region(&pair2, 2000, region_reads) {
                        Some(w) => if pick_better(&best1, &w, true) {
                            w
                        } else {
                            best1
                        },
                        None => best1,
                    };
                } else {
                    rep = best1;
                }
            }
            proof {
                assert(rep == self.spec_merge_step(vs@, gspec[i as int], reads));
            }
            out.push(rep);
            proof {
                assert(out@ =~= self.spec_merge_fold(vs@, gspec, i + 1 as int, reads));
            }
            i = i + 1;
        }
        proof {
            assert(groups@.map_values(|p: (usize, usize)| (p.0 as int, p.1 as int)).len()
                == gspec.len());
        }
        out
    }
}

} // verus!
