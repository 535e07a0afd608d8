//! Statistical validation of a candidate deletion.
//!
//! A padded region around the candidate is re-scanned: per coordinate, the
//! reference-aligned read depth is divided by the properly-paired fragment
//! depth, which cancels most systematic bias.  The corrected values inside
//! the event are ranked against those outside it, and the two trimmed
//! boundary ranks yield a score in `[-1, 1]` (in millionths): the product
//! `4 (p1 - 1/2) (p2 - 1/2)` of the two percentile offsets.

use crate::histogram::MICRO;
use crate::window::{abs_total, width_one_value, Window, WEIGHT_CAP};
use crate::window_model::{depth_at, models, valid_ival, valid_ivals, Ival};
use vstd::prelude::*;

verus! {

/// Saturation bound of a corrected depth ratio, in millionths: one
/// million.  Corrected ratios are only sorted and ranked, never squared,
/// so a far wider cap than the normalizer's fits the fixed-width
/// arithmetic; the bound exists because the quotient of two depths of up
/// to 2^46 each has no a-priori `i64` bound of its own.
pub const RATIO_SAT: i64 = 1_000_000_000_000;

/// The plain values validation reads from one aligned read of the padded
/// region.
#[derive(Clone, Copy, Debug, PartialEq, Eq, Structural)]
pub struct FragInfo {
    /// First coordinate of the read itself.
    pub begin: u32,
    /// First reference-aligned coordinate.
    pub ref_begin: u32,
    /// One past the last reference-aligned coordinate.
    pub ref_end: u32,
    /// Mapping quality; 0 marks an ambiguous placement.
    pub mqual: u32,
    /// Alignment flag word.
    pub flags: u32,
    /// Template (insert) length.
    pub tlen: i64,
}

/// A read enters the fragment window when it is confidently placed,
/// properly paired by its flags, starts inside the region, has a positive
/// template length, spans a fragment that ends inside the region, and the
/// fragment is shorter than 100 kb.
pub open spec fn frag_accept(r: FragInfo, r0: int, r1: int, read_size: int) -> bool {
    &&& r.mqual != 0
    &&& (r.flags & 0x80d) == 1
    &&& r.begin >= r0
    &&& r.ref_begin >= r0
    &&& r.tlen > 0
    &&& r.begin + read_size + r.tlen - r0 <= r1 - r0
    &&& read_size + r.tlen < 100000
}

/// A read enters the reference window when it is confidently placed,
/// properly paired, starts inside the region, either has no positive
/// template length or its fragment leaves the region, and its own aligned
/// span lies inside the region.
pub open spec fn ref_accept(r: FragInfo, r0: int, r1: int, read_size: int) -> bool {
    &&& r.mqual != 0
    &&& (r.flags & 0x80d) == 1
    &&& r.begin >= r0
    &&& r.ref_begin >= r0
    &&& (r.tlen > 0 ==> r.begin + read_size + r.tlen - r0 <= r1 - r0)
    &&& r.ref_begin < r.ref_end
    &&& r.ref_end - r0 <= r1 - r0
}

pub open spec fn frag_ival(r: FragInfo, r0: int, read_size: int) -> Ival {
    Ival { lo: r.begin - r0, hi: r.begin + read_size + r.tlen - r0, wt: 1 }
}

pub open spec fn ref_ival(r: FragInfo, r0: int) -> Ival {
    Ival { lo: r.ref_begin - r0, hi: r.ref_end - r0, wt: 1 }
}

/// Fragment intervals of the accepted reads.
pub open spec fn frag_ivals(rs: Seq<FragInfo>, r0: int, r1: int, read_size: int) -> Seq<Ival>
    decreases rs.len(),
{
    if rs.len() == 0 {
        Seq::empty()
    } else if frag_accept(rs.last(), r0, r1, read_size) {
        frag_ivals(rs.drop_last(), r0, r1, read_size).push(frag_ival(rs.last(), r0, read_size))
    } else {
        frag_ivals(rs.drop_last(), r0, r1, read_size)
    }
}

/// Reference-span intervals of the accepted reads.
pub open spec fn ref_ivals(rs: Seq<FragInfo>, r0: int, r1: int, read_size: int) -> Seq<Ival>
    decreases rs.len(),
{
    if rs.len() == 0 {
        Seq::empty()
    } else if ref_accept(rs.last(), r0, r1, read_size) {
        ref_ivals(rs.drop_last(), r0, r1, read_size).push(ref_ival(rs.last(), r0))
    } else {
        ref_ivals(rs.drop_last(), r0, r1, read_size)
    }
}

/// Build the fragment and reference windows over `[r0, r1)` from the reads
/// of the padded region.
pub fn fr_windows(reads: &Vec<FragInfo>, r0: u32, r1: u32, read_size: u32) -> (r: (Window, Window))
    requires
        r0 < r1,
        r1 - r0 < usize::MAX,
        region_reads_ok(reads@),
        read_size <= 0x8000_0000,
    ensures
        r.0.wf(),
        r.1.wf(),
        r.0.spec_size() == r1 - r0,
        r.1.spec_size() == r1 - r0,
        models(
            r.0.acc_seq(),
            r.0.ext_seq(),
            frag_ivals(reads@, r0 as int, r1 as int, read_size as int),
        ),
        models(
            r.1.acc_seq(),
            r.1.ext_seq(),
            ref_ivals(reads@, r0 as int, r1 as int, read_size as int),
        ),
{
    let span = (r1 - r0) as usize;
    let mut wp = Window::new(span);
    let mut wr = Window::new(span);
    proof {
        crate::window::lemma_abs_prefix_zero(wp.acc_seq(), wp.acc_seq().len() - 1);
        crate::window::lemma_abs_prefix_zero(wp.ext_seq(), wp.ext_seq().len() - 1);
        crate::window::lemma_abs_prefix_zero(wr.acc_seq(), wr.acc_seq().len() - 1);
        crate::window::lemma_abs_prefix_zero(wr.ext_seq(), wr.ext_seq().len() - 1);
    }
    let ghost all = reads@;
    let mut i: usize = 0;
    while i < reads.len()
        invariant
            i <= all.len(),
            reads@ == all,
            region_reads_ok(all),
            r0 < r1,
            r1 - r0 < usize::MAX,
            span == r1 - r0,
            read_size <= 0x8000_0000,
            wp.wf(),
            wr.wf(),
            wp.spec_size() == span,
            wr.spec_size() == span,
            abs_total(wp.acc_seq()) <= 2 * i,
            abs_total(wp.ext_seq()) <= 2 * i,
            abs_total(wr.acc_seq()) <= 2 * i,
            abs_total(wr.ext_seq()) <= 2 * i,
            models(
                wp.acc_seq(),
                wp.ext_seq(),
                frag_ivals(all.take(i as int), r0 as int, r1 as int, read_size as int),
            ),
            models(
                wr.acc_seq(),
                wr.ext_seq(),
                ref_ivals(all.take(i as int), r0 as int, r1 as int, read_size as int),
            ),
        decreases all.len() - i,
    {
        let rd = reads[i];
        proof {
            assert(all.take(i + 1 as int).drop_last() =~= all.take(i as int));
            assert(all.take(i + 1 as int).last() == all[i as int]);
        }
        if rd.mqual != 0 && (rd.flags & 0x80d) == 1 && rd.begin >= r0 && rd.ref_begin >= r0 {
            let mut skip_rest = false;
            if rd.tlen > 0 {
                let beg64 = (rd.begin - r0) as u64;
                let end64 = (rd.begin as u64) + (read_size as u64) + (rd.tlen as u64) - (r0 as u64);
                if end64 > span as u64 {
                    skip_rest = true;
                } else if end64 - beg64 < 100000 {
                    crate::scanner::accumulate_read(
                        &mut wp,
                        beg64 as usize,
                        end64 as usize,
                        span,
                    );
                }
            }
            if !skip_rest {
                if rd.ref_begin < rd.ref_end && (rd.ref_end - r0) as u64 <= span as u64 {
                    crate::scanner::accumulate_read(
                        &mut wr,
                        (rd.ref_begin - r0) as usize,
                        (rd.ref_end - r0) as usize,
                        span,
                    );
                }
            }
        }
        i = i + 1;
    }
    proof {
        assert(all.take(all.len() as int) =~= all);
    }
    (wp, wr)
}

/// One corrected depth ratio, in millionths: reference depth over fragment
/// depth, 0 when the fragment depth is empty or either signal is negative,
/// saturated high ratios capped.
pub open spec fn spec_ratio(p: int, r: int) -> int {
    if p <= 0 || r < 0 {
        0
    } else {
        let q = r * MICRO / p;
        if q > RATIO_SAT {
            RATIO_SAT as int
        } else {
            q
        }
    }
}

/// Stream both windows at width 1 and emit the per-coordinate corrected
/// depth ratio.
pub fn corrected_ratios(wp: &Window, wr: &Window) -> (out: Vec<i64>)
    requires
        wp.wf(),
        wr.wf(),
        wp.spec_size() == wr.spec_size(),
    ensures
        out@.len() == wp.spec_size(),
        forall|k: int|
            0 <= k < out@.len() ==> #[trigger] out@[k] as int == spec_ratio(
                width_one_value(wp.acc_seq(), k),
                width_one_value(wr.acc_seq(), k),
            ),
{
    let n = wp.size();
    let mut out: Vec<i64> = Vec::new();
    let mut pi = wp.iter(1);
    let mut ri = wr.iter(1);
    let mut k: usize = 0;
    while k < n
        invariant
            k <= n,
            n == wp.spec_size(),
            n == wr.spec_size(),
            wp.wf(),
            wr.wf(),
            pi.inv(),
            ri.inv(),
            pi.window() == *wp,
            ri.window() == *wr,
            pi.width() == 1,
            ri.width() == 1,
            pi.cursor() == k,
            ri.cursor() == k,
            out@.len() == k,
            forall|m: int|
                0 <= m < k ==> #[trigger] out@[m] as int == spec_ratio(
                    width_one_value(wp.acc_seq(), m),
                    width_one_value(wr.acc_seq(), m),
                ),
        decreases n - k,
    {
        let p = pi.get_next();
        let r = ri.get_next();
        let pv = match p {
            Some(x) => x,
            None => 0,
        };
        let rv = match r {
            Some(x) => x,
            None => 0,
        };
        let ratio: i64 = if pv <= 0 || rv < 0 {
            0
        } else {
            let q = (rv as u128) * (MICRO as u128) / (pv as u128);
            if q > RATIO_SAT as u128 {
                RATIO_SAT
            } else {
                q as i64
            }
        };
        out.push(ratio);
        k = k + 1;
    }
    out
}

/// Corrected values from inside and outside the event span: values of the
/// first kilobase of padding are skipped, values at coordinates outside
/// `[left, right]` are the background, the rest belong to the event.
pub open spec fn outside_part(vals: Seq<i64>, base: int, left: int, right: int) -> Seq<i64>
    decreases vals.len(),
{
    if vals.len() == 0 {
        Seq::empty()
    } else {
        let pos = base + vals.len() - 1;
        let prev = outside_part(vals.drop_last(), base, left, right);
        if pos >= base + 1000 && (pos < left || pos > right) {
            prev.push(vals.last())
        } else {
            prev
        }
    }
}

pub open spec fn inside_part(vals: Seq<i64>, base: int, left: int, right: int) -> Seq<i64>
    decreases vals.len(),
{
    if vals.len() == 0 {
        Seq::empty()
    } else {
        let pos = base + vals.len() - 1;
        let prev = inside_part(vals.drop_last(), base, left, right);
        if pos >= base + 1000 && !(pos < left || pos > right) {
            prev.push(vals.last())
        } else {
            prev
        }
    }
}

/// Split the corrected values of the padded region into the background
/// set and the event set.
pub fn partition_corrections(vals: &Vec<i64>, base: u32, left: u32, right: u32) -> (r: (
    Vec<i64>,
    Vec<i64>,
))
    requires
        base + vals@.len() <= 0x1_0000_0000,
    ensures
        r.0@ == outside_part(vals@, base as int, left as int, right as int),
        r.1@ == inside_part(vals@, base as int, left as int, right as int),
{
    let mut normal: Vec<i64> = Vec::new();
    let mut event: Vec<i64> = Vec::new();
    let mut k: usize = 0;
    while k < vals.len()
        invariant
            k <= vals@.len(),
            base + vals@.len() <= 0x1_0000_0000,
            normal@ == outside_part(
                vals@.take(k as int),
                base as int,
                left as int,
                right as int,
            ),
            event@ == inside_part(vals@.take(k as int), base as int, left as int, right as int),
        decreases vals@.len() - k,
    {
        proof {
            assert(vals@.take(k + 1 as int).drop_last() =~= vals@.take(k as int));
            assert(vals@.take(k + 1 as int).last() == vals@[k as int]);
        }
        let pos = (base as u64) + (k as u64);
        let v = vals[k];
        if pos >= (base as u64) + 1000 {
            if pos < left as u64 || pos > right as u64 {
                normal.push(v);
            } else {
                event.push(v);
            }
        }
        k = k + 1;
    }
    proof {
        assert(vals@.take(vals@.len() as int) =~= vals@);
    }
    (normal, event)
}

/// First position of `s` at or above `x`.
pub open spec fn first_ge(s: Seq<i64>, x: i64) -> int
    decreases s.len(),
{
    if s.len() == 0 {
        0
    } else if s.first() >= x {
        0
    } else {
        1 + first_ge(s.drop_first(), x)
    }
}

/// First position of `s` strictly above `x`.
pub open spec fn first_gt(s: Seq<i64>, x: i64) -> int
    decreases s.len(),
{
    if s.len() == 0 {
        0
    } else if s.first() > x {
        0
    } else {
        1 + first_gt(s.drop_first(), x)
    }
}

/// Stable ascending insertion.
pub open spec fn insert_val(s: Seq<i64>, x: i64) -> Seq<i64> {
    let p = first_gt(s, x);
    s.take(p).push(x) + s.skip(p)
}

/// Stable ascending sort of sample values.
pub open spec fn sort_vals(s: Seq<i64>) -> Seq<i64>
    decreases s.len(),
{
    if s.len() == 0 {
        Seq::empty()
    } else {
        insert_val(sort_vals(s.drop_last()), s.last())
    }
}

/// Signed division rounding toward zero.
pub open spec fn div_toward_zero(a: int, b: int) -> int {
    if a >= 0 {
        a / b
    } else {
        -((-a) / b)
    }
}

/// The validation score over raw sample sets: sort both, trim the outer
/// fifth of the event set, rank the two trim boundaries against the
/// background set, and take `4 (p1 - 1/2) (p2 - 1/2)` of the two rank
/// percentiles, in millionths.  An event set too small to trim passes with
/// score 1.
pub open spec fn pv_score_of(ev: Seq<i64>, nv: Seq<i64>) -> int {
    let evs = sort_vals(ev);
    let nvs = sort_vals(nv);
    let ex = evs.len() as int / 5;
    if ex == 0 {
        MICRO as int
    } else {
        let i1 = first_ge(nvs, evs[ex]);
        let i2 = first_ge(nvs, evs[evs.len() - ex]);
        let n = nvs.len() as int;
        div_toward_zero((2 * i1 - n) * (2 * i2 - n) * MICRO, n * n)
    }
}

proof fn lemma_first_gt_range(s: Seq<i64>, x: i64)
    ensures
        0 <= first_gt(s, x) <= s.len(),
    decreases s.len(),
{
    if s.len() > 0 && !(s.first() > x) {
        lemma_first_gt_range(s.drop_first(), x);
    }
}

proof fn lemma_first_gt_is_split(s: Seq<i64>, x: i64, p: int)
    requires
        0 <= p <= s.len(),
        forall|m: int| 0 <= m < p ==> (#[trigger] s[m]) <= x,
        p == s.len() || s[p] > x,
    ensures
        first_gt(s, x) == p,
    decreases s.len(),
{
    if s.len() > 0 && p != 0 {
        assert(forall|m: int| 0 <= m < p - 1 ==> (#[trigger] s.drop_first()[m]) == s[m + 1]);
        lemma_first_gt_is_split(s.drop_first(), x, p - 1);
    }
}

proof fn lemma_first_ge_is_split(s: Seq<i64>, x: i64, p: int)
    requires
        0 <= p <= s.len(),
        forall|m: int| 0 <= m < p ==> (#[trigger] s[m]) < x,
        p == s.len() || s[p] >= x,
    ensures
        first_ge(s, x) == p,
    decreases s.len(),
{
    if s.len() > 0 && p != 0 {
        assert(forall|m: int| 0 <= m < p - 1 ==> (#[trigger] s.drop_first()[m]) == s[m + 1]);
        lemma_first_ge_is_split(s.drop_first(), x, p - 1);
    }
}

pub proof fn lemma_first_ge_range(s: Seq<i64>, x: i64)
    ensures
        0 <= first_ge(s, x) <= s.len(),
    decreases s.len(),
{
    if s.len() > 0 && !(s.first() >= x) {
        lemma_first_ge_range(s.drop_first(), x);
    }
}

/// Sort sample values ascending, stably.
pub fn sort_samples(v: &Vec<i64>) -> (r: Vec<i64>)
    ensures
        r@ == sort_vals(v@),
{
    let mut sorted: Vec<i64> = Vec::new();
    let mut i: usize = 0;
    while i < v.len()
        invariant
            i <= v@.len(),
            sorted@ == sort_vals(v@.take(i as int)),
        decreases v@.len() - i,
    {
        let x = v[i];
        proof {
            assert(v@.take(i + 1 as int).drop_last() =~= v@.take(i as int));
            assert(v@.take(i + 1 as int).last() == v@[i as int]);
            lemma_first_gt_range(sorted@, x);
        }
        let ghost s0 = sorted@;
        let mut p: usize = 0;
        while p < sorted.len() && sorted[p] <= x
            invariant
                sorted@ == s0,
                p <= s0.len(),
                forall|m: int| 0 <= m < p ==> (#[trigger] s0[m]) <= x,
            decreases s0.len() - p,
        {
            p = p + 1;
        }
        proof {
            lemma_first_gt_is_split(s0, x, p as int);
        }
        sorted.insert(p, x);
        proof {
            assert(sorted@ =~= insert_val(s0, x));
        }
        i = i + 1;
    }
    proof {
        assert(v@.take(v@.len() as int) =~= v@);
    }
    sorted
}

/// Rank a boundary value against the sorted background: the number of
/// background values strictly below it.
fn rank_of(sorted: &Vec<i64>, x: i64) -> (r: usize)
    ensures
        r as int == first_ge(sorted@, x),
        r <= sorted@.len(),
{
    let mut p: usize = 0;
    while p < sorted.len() && sorted[p] < x
        invariant
            p <= sorted@.len(),
            forall|m: int| 0 <= m < p ==> (#[trigger] sorted@[m]) < x,
        decreases sorted@.len() - p,
    {
        p = p + 1;
    }
    proof {
        lemma_first_ge_is_split(sorted@, x, p as int);
    }
    p
}

/// Score one candidate's corrected depth values against the background.
pub fn pvalue_score(event_vals: &Vec<i64>, normal_vals: &Vec<i64>) -> (r: i64)
    requires
        1 <= normal_vals@.len() < 0x8000_0000,
        event_vals@.len() < 0x8000_0000,
    ensures
        r as int == pv_score_of(event_vals@, normal_vals@),
        -4 * (MICRO as int) <= r as int <= 4 * (MICRO as int),
{
    let evs = sort_samples(event_vals);
    let nvs = sort_samples(normal_vals);
    proof {
        lemma_sort_vals_len(event_vals@);
        lemma_sort_vals_len(normal_vals@);
    }
    let ex = evs.len() / 5;
    if ex == 0 {
        return MICRO;
    }
    let x1 = evs[ex];
    let x2 = evs[evs.len() - ex];
    let i1 = rank_of(&nvs, x1);
    let i2 = rank_of(&nvs, x2);
    let n = nvs.len();
    let t1 = 2 * (i1 as i64) - (n as i64);
    let t2 = 2 * (i2 as i64) - (n as i64);
    let neg = (t1 < 0) != (t2 < 0);
    let m1 = if t1 < 0 {
        (-(t1 as i128)) as u128
    } else {
        t1 as u128
    };
    let m2 = if t2 < 0 {
        (-(t2 as i128)) as u128
    } else {
        t2 as u128
    };
    proof {
        lemma_score_bounds(i1 as int, i2 as int, n as int);
        assert((m1 as int) * (m2 as int) <= 0x8000_0000int * 0x8000_0000) by (nonlinear_arith)
            requires
                0 <= m1 as int <= 0x8000_0000,
                0 <= m2 as int <= 0x8000_0000,
        ;
        assert((m1 as int) * (m2 as int) * (MICRO as int) <= 0x8000_0000int * 0x8000_0000
            * 1_000_000) by (nonlinear_arith)
            requires
                0 <= (m1 as int) * (m2 as int) <= 0x8000_0000int * 0x8000_0000,
        ;
        assert(1 <= (n as int) * (n as int)) by (nonlinear_arith)
            requires
                1 <= n as int,
        ;
        assert((n as int) * (n as int) <= 0x8000_0000int * 0x8000_0000) by (nonlinear_arith)
            requires
                1 <= n as int <= 0x8000_0000,
        ;
    }
    let mag = m1 * m2 * (MICRO as u128) / ((n as u128) * (n as u128));
    let sm = mag as i64;
    if neg {
        -sm
    } else {
        sm
    }
}

proof fn lemma_sort_vals_len(s: Seq<i64>)
    ensures
        sort_vals(s).len() == s.len(),
    decreases s.len(),
{
    if s.len() > 0 {
        lemma_sort_vals_len(s.drop_last());
        lemma_first_gt_range(sort_vals(s.drop_last()), s.last());
    }
}

/// The rank product stays within four ratio units, and magnitude-and-sign
/// division agrees with division toward zero.
proof fn lemma_score_bounds(i1: int, i2: int, n: int)
    requires
        1 <= n,
        0 <= i1 <= n,
        0 <= i2 <= n,
    ensures
        ({
            let t1 = 2 * i1 - n;
            let t2 = 2 * i2 - n;
            let mag = iabs_v(t1) * iabs_v(t2) * MICRO / (n * n);
            &&& 0 <= mag <= MICRO
            &&& (if (t1 < 0) != (t2 < 0) {
                -mag
            } else {
                mag
            }) == div_toward_zero(t1 * t2 * MICRO, n * n)
            &&& iabs_v(t1) * iabs_v(t2) * MICRO == iabs_v(t1 * t2 * MICRO)
        }),
{
    let t1 = 2 * i1 - n;
    let t2 = 2 * i2 - n;
    assert(iabs_v(t1) <= n);
    assert(iabs_v(t2) <= n);
    assert(iabs_v(t1) * iabs_v(t2) <= n * n) by (nonlinear_arith)
        requires
            0 <= iabs_v(t1) <= n,
            0 <= iabs_v(t2) <= n,
    ;
    assert(iabs_v(t1) * iabs_v(t2) * (MICRO as int) <= n * n * (MICRO as int))
        by (nonlinear_arith)
        requires
            0 <= iabs_v(t1) * iabs_v(t2) <= n * n,
    ;
    assert(n * n * (MICRO as int) == (n * n) * (MICRO as int)) by (nonlinear_arith);
    assert(0 <= iabs_v(t1) * iabs_v(t2) * (MICRO as int)) by (nonlinear_arith)
        requires
            0 <= iabs_v(t1),
            0 <= iabs_v(t2),
    ;
    assert(1 <= n * n) by (nonlinear_arith)
        requires
            1 <= n,
    ;
    vstd::arithmetic::div_mod::lemma_div_is_ordered(
        iabs_v(t1) * iabs_v(t2) * (MICRO as int),
        (n * n) * (MICRO as int),
        n * n,
    );
    assert((n * n) * (MICRO as int) == (MICRO as int) * (n * n)) by (nonlinear_arith);
    vstd::arithmetic::div_mod::lemma_div_by_multiple(MICRO as int, n * n);
    vstd::arithmetic::div_mod::lemma_div_pos_is_pos(
        iabs_v(t1) * iabs_v(t2) * (MICRO as int),
        n * n,
    );
    assert(t1 * t2 * (MICRO as int) == (if (t1 < 0) != (t2 < 0) {
        -(iabs_v(t1) * iabs_v(t2) * (MICRO as int))
    } else {
        iabs_v(t1) * iabs_v(t2) * (MICRO as int)
    })) by (nonlinear_arith)
        requires
            iabs_v(t1) == (if t1 < 0 {
                -t1
            } else {
                t1
            }),
            iabs_v(t2) == (if t2 < 0 {
                -t2
            } else {
                t2
            }),
    ;
}

/// Absolute value (local to avoid a cross-module name).
pub open spec fn iabs_v(x: int) -> int {
    if x < 0 {
        -x
    } else {
        x
    }
}

/// The sample values are in ascending order.
pub open spec fn sorted_vals(s: Seq<i64>) -> bool {
    forall|i: int, j: int| 0 <= i <= j < s.len() ==> s[i] <= s[j]
}

proof fn lemma_first_gt_props(s: Seq<i64>, x: i64)
    ensures
        0 <= first_gt(s, x) <= s.len(),
        forall|m: int| 0 <= m < first_gt(s, x) ==> s[m] <= x,
        first_gt(s, x) < s.len() ==> s[first_gt(s, x)] > x,
    decreases s.len(),
{
    if s.len() > 0 && !(s.first() > x) {
        lemma_first_gt_props(s.drop_first(), x);
        let p = first_gt(s, x);
        assert forall|m: int| 0 <= m < p implies s[m] <= x by {
            if m >= 1 {
                assert(s.drop_first()[m - 1] == s[m]);
            }
        }
        if p < s.len() {
            assert(s.drop_first()[p - 1] == s[p]);
        }
    }
}

proof fn lemma_insert_val_sorted(s: Seq<i64>, x: i64)
    requires
        sorted_vals(s),
    ensures
        sorted_vals(insert_val(s, x)),
        insert_val(s, x).len() == s.len() + 1,
{
    lemma_first_gt_props(s, x);
    let p = first_gt(s, x);
    let t = insert_val(s, x);
    assert forall|i: int, j: int| 0 <= i <= j < t.len() implies t[i] <= t[j] by {
        assert(forall|m: int| 0 <= m < p ==> t[m] == s[m]);
        assert(t[p] == x);
        assert(forall|m: int| p < m < t.len() ==> t[m] == s[m - 1]);
        if i < p && j > p {
            assert(s[i] <= x);
            assert(s[j - 1] >= s[p]);
        }
        if i == p && j > p {
            assert(s[j - 1] >= s[p]);
        }
    }
}

/// LAW - The sample sort produces ascending order, so the ranks taken
/// against it are true percentile positions.
pub proof fn lemma_sort_vals_sorted(s: Seq<i64>)
    ensures
        sorted_vals(sort_vals(s)),
        sort_vals(s).len() == s.len(),
    decreases s.len(),
{
    if s.len() > 0 {
        lemma_sort_vals_sorted(s.drop_last());
        lemma_insert_val_sorted(sort_vals(s.drop_last()), s.last());
    }
}

proof fn lemma_insert_val_perm(s: Seq<i64>, x: i64)
    ensures
        insert_val(s, x).to_multiset() =~= s.to_multiset().insert(x),
{
    broadcast use vstd::seq_lib::group_to_multiset_ensures;

    lemma_first_gt_props(s, x);
    let p = first_gt(s, x);
    vstd::seq_lib::lemma_multiset_commutative(s.take(p).push(x), s.skip(p));
    vstd::seq_lib::lemma_multiset_commutative(s.take(p), s.skip(p));
    assert(s.take(p) + s.skip(p) =~= s);
    assert(s.take(p).push(x).to_multiset() =~= s.take(p).to_multiset().insert(x));
}

/// LAW - Sorting the samples keeps exactly the sample values: the ranked
/// sets are permutations of what was collected.
pub proof fn lemma_sort_vals_perm(s: Seq<i64>)
    ensures
        sort_vals(s).to_multiset() =~= s.to_multiset(),
    decreases s.len(),
{
    broadcast use vstd::seq_lib::group_to_multiset_ensures;

    if s.len() > 0 {
        lemma_sort_vals_perm(s.drop_last());
        lemma_insert_val_perm(sort_vals(s.drop_last()), s.last());
        assert(s.drop_last().push(s.last()) =~= s);
        assert(s.drop_last().push(s.last()).to_multiset() =~= s.drop_last().to_multiset().insert(
            s.last(),
        ));
    }
}

/// The padded re-scan range around a candidate: one hundred times the span,
/// clamped to `[10000, 100000]`, and never extending before coordinate 0.
pub open spec fn spec_pv_range(left: int, right: int) -> (int, int) {
    let len0 = (right - left) * 100;
    let len1 = if len0 < 10000 {
        10000int
    } else {
        len0
    };
    let len2 = if len1 > 100000 {
        100000int
    } else {
        len1
    };
    let len3 = if len2 > left {
        left
    } else {
        len2
    };
    (left - len3, right + len3)
}

/// Compute the padded re-scan range around a candidate.
pub fn pv_range(left: u32, right: u32) -> (r: (u32, u32))
    requires
        left < right,
        right <= 0x4000_0000,
    ensures
        (r.0 as int, r.1 as int) == spec_pv_range(left as int, right as int),
        r.0 < r.1,
        r.0 <= left,
        right <= r.1,
        r.1 <= 0x4002_0000,
{
    let span = (right - left) as u64;
    let len0 = span * 100;
    let len1 = if len0 < 10000 {
        10000u64
    } else {
        len0
    };
    let len2 = if len1 > 100000 {
        100000u64
    } else {
        len1
    };
    let len3 = if len2 > left as u64 {
        left as u64
    } else {
        len2
    };
    ((left as u64 - len3) as u32, (right as u64 + len3) as u32)
}

/// Field bounds under which a padded region's reads can be folded into
/// windows without overflow.
pub open spec fn region_reads_ok(rs: Seq<FragInfo>) -> bool {
    &&& rs.len() < 0x1000_0000
    &&& forall|m: int|
        0 <= m < rs.len() ==> {
            let rd = #[trigger] rs[m];
            &&& rd.begin <= 0x8000_0000
            &&& rd.ref_end <= 0x1_0000_0000
            &&& -0x8000_0000 <= rd.tlen <= 0x8000_0000
        }
}

/// The corrected depth ratio per coordinate of the padded region, written
/// over the interval model: reference depth over fragment depth.
pub open spec fn spec_region_ratios(rs: Seq<FragInfo>, r0: int, r1: int, read_size: int) -> Seq<
    i64,
> {
    Seq::new(
        (r1 - r0) as nat,
        |k: int|
            spec_ratio(
                depth_at(frag_ivals(rs, r0, r1, read_size), k + 1),
                depth_at(ref_ivals(rs, r0, r1, read_size), k + 1),
            ) as i64,
    )
}

/// The accepted fragment and reference intervals of a region are valid
/// interval sets over its span.
pub proof fn lemma_region_ivals_valid(rs: Seq<FragInfo>, r0: int, r1: int, read_size: int)
    requires
        0 <= r0 < r1,
        0 <= read_size,
    ensures
        valid_ivals(frag_ivals(rs, r0, r1, read_size), r1 - r0),
        valid_ivals(ref_ivals(rs, r0, r1, read_size), r1 - r0),
    decreases rs.len(),
{
    if rs.len() > 0 {
        assert(forall|m: int| 0 <= m < rs.len() - 1 ==> rs.drop_last()[m] == rs[m]);
        lemma_region_ivals_valid(rs.drop_last(), r0, r1, read_size);
        let fs = frag_ivals(rs, r0, r1, read_size);
        let es = ref_ivals(rs, r0, r1, read_size);
        assert forall|m: int| 0 <= m < fs.len() implies valid_ival(#[trigger] fs[m], r1 - r0) by {
            if m < frag_ivals(rs.drop_last(), r0, r1, read_size).len() {
                assert(fs[m] == frag_ivals(rs.drop_last(), r0, r1, read_size)[m]);
            }
        }
        assert forall|m: int| 0 <= m < es.len() implies valid_ival(#[trigger] es[m], r1 - r0) by {
            if m < ref_ivals(rs.drop_last(), r0, r1, read_size).len() {
                assert(es[m] == ref_ivals(rs.drop_last(), r0, r1, read_size)[m]);
            }
        }
    }
}

/// The background and event sets together hold no more values than the
/// region.
pub proof fn lemma_parts_len(vals: Seq<i64>, base: int, left: int, right: int)
    ensures
        outside_part(vals, base, left, right).len() <= vals.len(),
        inside_part(vals, base, left, right).len() <= vals.len(),
    decreases vals.len(),
{
    if vals.len() > 0 {
        lemma_parts_len(vals.drop_last(), base, left, right);
    }
}

/// The trimmed-rank score always lies within one ratio unit.
pub proof fn lemma_pv_score_of_bounds(ev: Seq<i64>, nv: Seq<i64>)
    requires
        1 <= nv.len(),
    ensures
        -(MICRO as int) <= pv_score_of(ev, nv) <= MICRO as int,
{
    lemma_sort_vals_len(ev);
    lemma_sort_vals_len(nv);
    let evs = sort_vals(ev);
    let nvs = sort_vals(nv);
    let ex = evs.len() as int / 5;
    if ex != 0 {
        let i1 = first_ge(nvs, evs[ex]);
        let i2 = first_ge(nvs, evs[evs.len() - ex]);
        lemma_first_ge_range(nvs, evs[ex]);
        lemma_first_ge_range(nvs, evs[evs.len() - ex]);
        lemma_score_bounds(i1, i2, nvs.len() as int);
    }
}

} // verus!
