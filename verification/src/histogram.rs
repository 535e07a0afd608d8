//! Depth histogram and normalizer.
//!
//! Counts how often each integer depth value occurs, up to a cap, and
//! normalizes raw depth values against the running average.  All ratios are
//! carried as integers in millionths, so `1_000_000` stands for a ratio of
//! exactly 1.

use vstd::prelude::*;

verus! {

/// Fixed-point scale: all normalized ratios are in millionths.
pub const MICRO: i64 = 1_000_000;

/// Saturation bound for normalized ratios: one thousand, in millionths.
/// The bound is forced by fixed-width arithmetic: variance computations
/// square these ratios, sum them over spans of up to 2^31 coordinates and
/// multiply by the span length again, so the 128-bit accumulators need
/// `2^31 * 2^31 * NORM_SAT^2 < 2^128`; `10^9` (below `2^30`) keeps that
/// product under `2^122`, while the next decimal step would overflow.
pub const NORM_SAT: i64 = 1_000_000_000;

/// Largest supported bucket cap.
pub const MAX_DEPTH_CAP: u32 = 0x10000;

/// Number of values recorded in the frequency table.
pub open spec fn count_sum(f: Seq<u32>) -> int
    decreases f.len(),
{
    if f.len() == 0 {
        0
    } else {
        count_sum(f.drop_last()) + f.last()
    }
}

/// Total of value times occurrence count over the frequency table.
pub open spec fn weighted_sum(f: Seq<u32>) -> int
    decreases f.len(),
{
    if f.len() == 0 {
        0
    } else {
        weighted_sum(f.drop_last()) + (f.len() - 1) * f.last()
    }
}

/// The average recorded depth in millionths, rounded down.
pub open spec fn avg_micro_of(f: Seq<u32>) -> int {
    weighted_sum(f) * MICRO / count_sum(f)
}

/// The normalized ratio `val / average` in millionths, rounded down and
/// saturated at `NORM_SAT`: equal to `val * count / weighted_total`, the
/// exact rational form of dividing by the average.
pub open spec fn normalize_micro_of(f: Seq<u32>, val: int) -> int {
    let exact = val * count_sum(f) * MICRO / weighted_sum(f);
    if exact > NORM_SAT {
        NORM_SAT as int
    } else {
        exact
    }
}

/// The full normalization rule: ratio 1 for values at or above the bucket
/// cap or for an empty weighted total, else the saturated exact ratio.
pub open spec fn norm_of(f: Seq<u32>, val: int) -> int {
    if val >= f.len() - 1 {
        MICRO as int
    } else if weighted_sum(f) == 0 {
        MICRO as int
    } else {
        normalize_micro_of(f, val)
    }
}

/// Incrementing one bucket adds 1 to the count and the bucket index to the
/// weighted total.
proof fn lemma_sums_update(f: Seq<u32>, b: int, v: u32)
    requires
        0 <= b < f.len(),
        f[b] < v,
        v == f[b] + 1,
    ensures
        count_sum(f.update(b, v)) == count_sum(f) + 1,
        weighted_sum(f.update(b, v)) == weighted_sum(f) + b,
    decreases f.len(),
{
    let g = f.update(b, v);
    if b == f.len() - 1 {
        assert(g.drop_last() =~= f.drop_last());
        assert((f.len() - 1) * (f.last() + 1) == (f.len() - 1) * f.last() + (f.len() - 1))
            by (nonlinear_arith);
    } else {
        lemma_sums_update(f.drop_last(), b, v);
        assert(g.drop_last() =~= f.drop_last().update(b, v));
        assert(g.last() == f.last());
    }
}

/// Every bucket is bounded by the total count.
proof fn lemma_bucket_le_count(f: Seq<u32>, b: int)
    requires
        0 <= b < f.len(),
    ensures
        f[b] <= count_sum(f),
        count_sum(f) >= 0,
    decreases f.len(),
{
    if f.len() > 0 {
        if b == f.len() - 1 {
            lemma_count_nonneg(f.drop_last());
        } else {
            lemma_bucket_le_count(f.drop_last(), b);
            assert(f.drop_last()[b] == f[b]);
        }
    }
}

pub proof fn lemma_count_nonneg(f: Seq<u32>)
    ensures
        count_sum(f) >= 0,
        weighted_sum(f) >= 0,
    decreases f.len(),
{
    if f.len() > 0 {
        lemma_count_nonneg(f.drop_last());
        assert((f.len() - 1) * f.last() >= 0) by (nonlinear_arith)
            requires
                f.len() >= 1,
                f.last() >= 0,
        ;
    }
}

pub struct Histogram {
    freq: Vec<u32>,
    count: u32,
    total: u64,
    average: Option<i64>,
}

impl Histogram {
    /// The frequency table; bucket `v` counts how often depth `v` was
    /// recorded, the last bucket standing for its value and everything
    /// above.
    pub closed spec fn counts(self) -> Seq<u32> {
        self.freq@
    }

    /// The bucket cap: values at or above it share the last bucket.
    pub open spec fn cap(self) -> int {
        self.counts().len() - 1
    }

    pub closed spec fn cached_average(self) -> Option<i64> {
        self.average
    }

    pub closed spec fn wf(self) -> bool {
        &&& 2 <= self.freq@.len() <= MAX_DEPTH_CAP + 1
        &&& self.count as int == count_sum(self.freq@)
        &&& self.total as int == weighted_sum(self.freq@)
        &&& self.total as int <= (self.freq@.len() - 1) * (self.count as int)
        &&& (self.average matches Some(a) ==> count_sum(self.freq@) >= 1 && a as int
            == avg_micro_of(self.freq@))
    }

    pub fn new(max: u32) -> (h: Histogram)
        requires
            1 <= max <= MAX_DEPTH_CAP,
        ensures
            h.wf(),
            h.cap() == max,
            forall|b: int| 0 <= b <= max ==> h.counts()[b] == 0,
            h.cached_average() is None,
    {
        let mut freq: Vec<u32> = Vec::new();
        let mut i: u32 = 0;
        while i < max + 1
            invariant
                max <= MAX_DEPTH_CAP,
                i <= max + 1,
                freq@.len() == i,
                forall|b: int| 0 <= b < i ==> freq@[b] == 0,
            decreases max + 1 - i,
        {
            freq.push(0);
            i = i + 1;
        }
        proof {
            lemma_zero_sums(freq@);
        }
        Histogram { freq, count: 0, total: 0, average: None }
    }

    /// Record one depth value: the bucket for `min(val, cap)` grows by one
    /// and the cached average is invalidated.
    pub fn add(&mut self, val: u32)
        requires
            old(self).wf(),
            count_sum(old(self).counts()) < u32::MAX,
        ensures
            final(self).wf(),
            ({
                let b = if val as int <= old(self).cap() {
                    val as int
                } else {
                    old(self).cap()
                };
                final(self).counts() == old(self).counts().update(
                    b,
                    (old(self).counts()[b] + 1) as u32,
                )
            }),
            final(self).cached_average() is None,
            count_sum(final(self).counts()) == count_sum(old(self).counts()) + 1,
            final(self).cap() == old(self).cap(),
    {
        self.average = None;
        let cap = self.freq.len() - 1;
        let b = if (val as usize) < cap {
            val as usize
        } else {
            cap
        };
        proof {
            lemma_bucket_le_count(self.freq@, b as int);
        }
        let c = self.freq[b] + 1;
        let ghost f0 = self.freq@;
        self.freq.set(b, c);
        self.count = self.count + 1;
        proof {
            assert((f0.len() - 1) * (count_sum(f0)) <= 0x10000 * 0xFFFF_FFFFint)
                by (nonlinear_arith)
                requires
                    2 <= f0.len() <= 0x10001,
                    0 <= count_sum(f0) < 0xFFFF_FFFFu32,
            ;
        }
        self.total = self.total + (b as u64);
        proof {
            lemma_sums_update(f0, b as int, c);
            assert((f0.len() - 1) * (count_sum(f0) + 1) == (f0.len() - 1) * count_sum(f0) + (
            f0.len() - 1)) by (nonlinear_arith);
        }
    }

    /// How often depth `val` was recorded.
    pub fn get_count(&self, val: u32) -> (r: u32)
        requires
            self.wf(),
            val as int <= self.cap(),
        ensures
            r == self.counts()[val as int],
    {
        self.freq[val as usize]
    }

    /// The average recorded depth in millionths, computed once and cached
    /// until the next `add`: repeated calls return the identical value.
    pub fn get_average(&mut self) -> (r: i64)
        requires
            old(self).wf(),
            count_sum(old(self).counts()) >= 1,
        ensures
            final(self).wf(),
            final(self).counts() == old(self).counts(),
            r as int == avg_micro_of(old(self).counts()),
            final(self).cached_average() == Some(r),
    {
        match self.average {
            Some(a) => a,
            None => {
                proof {
                    assert((self.total as int) * (MICRO as int) <= 0x1_0000_0000_0000_0000
                        * 0x100000int) by (nonlinear_arith)
                        requires
                            0 <= self.total as int <= 0x1_0000_0000_0000_0000,
                    ;
                    assert((self.freq@.len() - 1) * (self.count as int) <= 0x10000
                        * 0xFFFF_FFFFint) by (nonlinear_arith)
                        requires
                            2 <= self.freq@.len() <= 0x10001,
                            0 <= self.count <= 0xFFFF_FFFFu32,
                    ;
                }
                let num = (self.total as u128) * (MICRO as u128);
                let a128 = num / (self.count as u128);
                proof {
                    lemma_avg_bounds(
                        self.freq@,
                        self.total as int,
                        self.count as int,
                        self.freq@.len() - 1,
                    );
                }
                let a = a128 as i64;
                self.average = Some(a);
                a
            },
        }
    }

    /// Normalize a depth value against the average: `val / average` as an
    /// exact rational `val * count / weighted_total`, in millionths, rounded
    /// down and saturated at `NORM_SAT`.  Values at or above the bucket cap
    /// fall back to a ratio of exactly 1, as does every value when nothing
    /// has been recorded yet.
    pub fn normalize(&self, val: u32) -> (r: i64)
        requires
            self.wf(),
        ensures
            r as int == norm_of(self.counts(), val as int),
            MICRO as int <= NORM_SAT,
            0 <= r <= NORM_SAT,
    {
        let cap = self.freq.len() - 1;
        if val as usize >= cap {
            return MICRO;
        }
        if self.total == 0 {
            return MICRO;
        }
        proof {
            lemma_count_nonneg(self.freq@);
            assert((val as int) * (self.count as int) <= 0xFFFF_FFFF * 0xFFFF_FFFFint)
                by (nonlinear_arith)
                requires
                    0 <= val <= 0xFFFF_FFFFu32,
                    0 <= self.count <= 0xFFFF_FFFFu32,
            ;
            assert((val as int) * (self.count as int) * (MICRO as int) <= 0xFFFF_FFFF
                * 0xFFFF_FFFFint * 0x100000) by (nonlinear_arith)
                requires
                    0 <= (val as int) * (self.count as int) <= 0xFFFF_FFFF * 0xFFFF_FFFFint,
            ;
        }
        let num = (val as u128) * (self.count as u128) * (MICRO as u128);
        let q = num / (self.total as u128);
        proof {
            lemma_normalize_fits(
                val as int,
                self.count as int,
                self.total as int,
                q as int,
            );
        }
        if q > (NORM_SAT as u128) {
            NORM_SAT
        } else {
            q as i64
        }
    }
}

proof fn lemma_zero_sums(f: Seq<u32>)
    requires
        forall|b: int| 0 <= b < f.len() ==> f[b] == 0,
    ensures
        count_sum(f) == 0,
        weighted_sum(f) == 0,
    decreases f.len(),
{
    if f.len() > 0 {
        assert(forall|b: int| 0 <= b < f.len() - 1 ==> f.drop_last()[b] == f[b]);
        lemma_zero_sums(f.drop_last());
        assert((f.len() - 1) * f.last() == 0) by (nonlinear_arith)
            requires
                f.last() == 0,
        ;
    }
}

/// The truncated average in millionths never exceeds the cap in millionths.
proof fn lemma_avg_bounds(f: Seq<u32>, total: int, count: int, cap: int)
    requires
        total == weighted_sum(f),
        count == count_sum(f),
        cap == f.len() - 1,
        1 <= count,
        0 <= total <= cap * count,
        cap <= MAX_DEPTH_CAP,
    ensures
        0 <= total * MICRO / count <= cap * MICRO,
        avg_micro_of(f) == total * MICRO / count,
{
    assert(total * MICRO <= cap * count * MICRO) by (nonlinear_arith)
        requires
            0 <= total <= cap * count,
    ;
    assert(total * MICRO / count <= cap * count * MICRO / count) by (nonlinear_arith)
        requires
            1 <= count,
            total * MICRO <= cap * count * MICRO,
    ;
    assert(cap * count * MICRO / count == cap * MICRO) by (nonlinear_arith)
        requires
            1 <= count,
    ;
    assert(total * MICRO >= 0) by (nonlinear_arith)
        requires
            total >= 0,
    ;
    assert(total * MICRO / count >= 0) by (nonlinear_arith)
        requires
            total * MICRO >= 0,
            count >= 1,
    ;
}

/// The saturated normalized ratio agrees with its defining formula.
proof fn lemma_normalize_fits(val: int, count: int, total: int, q: int)
    requires
        0 <= val,
        0 <= count,
        1 <= total,
        q == val * count * MICRO / total,
    ensures
        q >= 0,
        (if q > NORM_SAT {
            NORM_SAT as int
        } else {
            q
        }) == (if val * count * MICRO / total > NORM_SAT {
            NORM_SAT as int
        } else {
            val * count * MICRO / total
        }),
{
    assert(val * count * MICRO >= 0) by (nonlinear_arith)
        requires
            0 <= val,
            0 <= count,
    ;
    assert(q >= 0) by (nonlinear_arith)
        requires
            val * count * MICRO >= 0,
            total >= 1,
            q == val * count * MICRO / total,
    ;
}

} // verus!
