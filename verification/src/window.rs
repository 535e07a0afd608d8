//! Windowed depth accumulator.
//!
//! A `Window` represents a multiset of weighted half-open intervals over the
//! coordinates `0 .. range` of one chromosome without storing the intervals
//! themselves: only boundary effects are recorded, in two difference arrays
//! `acc` and `ext`.  `WindowIter` then streams, with O(1) amortized work per
//! coordinate, one moving-window depth value per coordinate.

use vstd::arithmetic::div_mod::{
    lemma_fundamental_div_mod, lemma_mod_division_less_than_divisor, lemma_mod_sub_multiples_vanish,
};
use vstd::arithmetic::mul::lemma_mul_inequality;
use vstd::prelude::*;

verus! {

/// Upper bound on the total absolute weight a window may hold.  Keeping the
/// totals of both difference arrays under this cap keeps every partial sum
/// computed by the moving-window iterator comfortably inside `i64` range.
pub const WEIGHT_CAP: i64 = 0x2000_0000_0000;

/// Largest moving-window width the iterator accepts; `2 * MAX_WIN_SIZE *
/// WEIGHT_CAP` still fits in an `i64`.
pub const MAX_WIN_SIZE: usize = 0x10000;

/// Absolute value of one entry.
pub open spec fn abs1(x: i64) -> int {
    if x >= 0 {
        x as int
    } else {
        -(x as int)
    }
}

/// Sum of the absolute values of the entries of `s` up to and including
/// index `j`.
pub open spec fn abs_prefix(s: Seq<i64>, j: int) -> int
    decreases (if j < 0 { 0int } else { j + 1 }),
{
    if j < 0 {
        0
    } else {
        abs_prefix(s, j - 1) + (if j < s.len() {
            abs1(s[j])
        } else {
            0
        })
    }
}

/// Sum of the absolute values of all entries of `s`.
pub open spec fn abs_total(s: Seq<i64>) -> int {
    abs_prefix(s, s.len() - 1)
}

/// Prefix sum of `s` up to and including index `j`; 0 for `j < 0`, and
/// entries past the end of `s` contribute 0.
pub open spec fn prefix_at(s: Seq<i64>, j: int) -> int
    decreases (if j < 0 { 0int } else { j + 1 }),
{
    if j < 0 {
        0
    } else {
        prefix_at(s, j - 1) + (if j < s.len() {
            s[j] as int
        } else {
            0
        })
    }
}

/// Sum of `prefix_at(s, j)` over `j` in `[lo, hi]`.
pub open spec fn prefix_range_sum(s: Seq<i64>, lo: int, hi: int) -> int
    decreases (if hi < lo { 0int } else { hi - lo + 1 }),
{
    if hi < lo {
        0
    } else {
        prefix_range_sum(s, lo, hi - 1) + prefix_at(s, hi)
    }
}

/// The value the iterator yields at output index `k` for width `w >= 2`: the
/// moving sum of the prefix-summed `acc` over the window `[k, k + w)`,
/// corrected by the interior starts and stops recorded in `ext`.
pub open spec fn window_value(acc: Seq<i64>, ext: Seq<i64>, k: int, w: int) -> int {
    prefix_range_sum(acc, k, k + w - 1) - prefix_range_sum(ext, k + 1, k + w - 1)
}

/// The value the iterator yields at output index `k` for width 1: the running
/// prefix sum of `acc` through coordinate `k + 1`, which is the raw depth
/// there.
pub open spec fn width_one_value(acc: Seq<i64>, k: int) -> int {
    prefix_at(acc, k + 1)
}

pub proof fn lemma_abs_prefix_nonneg(s: Seq<i64>, j: int)
    ensures
        abs_prefix(s, j) >= 0,
    decreases (if j < 0 { 0int } else { j + 1 }),
{
    if j >= 0 {
        lemma_abs_prefix_nonneg(s, j - 1);
    }
}

pub proof fn lemma_abs_prefix_monotone(s: Seq<i64>, j1: int, j2: int)
    requires
        j1 <= j2,
    ensures
        abs_prefix(s, j1) <= abs_prefix(s, j2),
    decreases (if j2 < 0 { 0int } else { j2 + 1 }),
{
    if j1 < j2 && j2 >= 0 {
        lemma_abs_prefix_monotone(s, j1, j2 - 1);
    }
}

/// Every entry of `s` is bounded in magnitude by the absolute total.
pub proof fn lemma_abs_entry(s: Seq<i64>, j: int)
    requires
        0 <= j < s.len(),
    ensures
        abs1(s[j]) <= abs_total(s),
        abs_total(s) >= 0,
{
    lemma_abs_prefix_nonneg(s, j - 1);
    lemma_abs_prefix_monotone(s, j, s.len() - 1);
    lemma_abs_prefix_nonneg(s, s.len() - 1);
}

/// A point update at `j` shifts every absolute prefix at or past `j` by the
/// difference of the absolute values, and leaves earlier prefixes alone.
pub proof fn lemma_abs_prefix_update(s: Seq<i64>, j: int, v: i64, p: int)
    requires
        0 <= j < s.len(),
    ensures
        abs_prefix(s.update(j, v), p) == abs_prefix(s, p) + (if p >= j {
            abs1(v) - abs1(s[j])
        } else {
            0
        }),
    decreases (if p < 0 { 0int } else { p + 1 }),
{
    if p >= 0 {
        lemma_abs_prefix_update(s, j, v, p - 1);
    }
}

/// Effect of a point update on the absolute total.
pub proof fn lemma_abs_total_update(s: Seq<i64>, j: int, v: i64)
    requires
        0 <= j < s.len(),
    ensures
        abs_total(s.update(j, v)) == abs_total(s) - abs1(s[j]) + abs1(v),
{
    lemma_abs_prefix_update(s, j, v, s.len() - 1);
}

/// The absolute total of an all-zero sequence is 0.
pub proof fn lemma_abs_prefix_zero(s: Seq<i64>, j: int)
    requires
        forall|m: int| 0 <= m < s.len() ==> s[m] == 0i64,
    ensures
        abs_prefix(s, j) == 0,
    decreases (if j < 0 { 0int } else { j + 1 }),
{
    if j >= 0 {
        lemma_abs_prefix_zero(s, j - 1);
    }
}

/// Past the end of `s`, the absolute prefix no longer grows.
proof fn lemma_abs_prefix_stable(s: Seq<i64>, j: int)
    requires
        j >= s.len() - 1,
    ensures
        abs_prefix(s, j) == abs_total(s),
    decreases (if j < s.len() { 0int } else { j - s.len() + 1 }),
{
    if j >= s.len() {
        lemma_abs_prefix_stable(s, j - 1);
    }
}

/// Every prefix sum is bounded in magnitude by the absolute total.
pub proof fn lemma_prefix_at_bound(s: Seq<i64>, j: int)
    ensures
        -abs_total(s) <= prefix_at(s, j) <= abs_total(s),
{
    lemma_abs_prefix_nonneg(s, s.len() - 1);
    lemma_prefix_at_bound_to(s, j);
    if j < s.len() {
        lemma_abs_prefix_monotone(s, j, s.len() - 1);
    } else {
        lemma_abs_prefix_stable(s, j);
    }
}

proof fn lemma_prefix_at_bound_to(s: Seq<i64>, j: int)
    ensures
        -abs_prefix(s, j) <= prefix_at(s, j) <= abs_prefix(s, j),
    decreases (if j < 0 { 0int } else { j + 1 }),
{
    if j >= 0 {
        lemma_prefix_at_bound_to(s, j - 1);
    }
}

/// Build a zero-filled vector.
fn zero_vec(n: usize) -> (v: Vec<i64>)
    ensures
        v@.len() == n,
        forall|m: int| 0 <= m < n ==> v@[m] == 0i64,
{
    let mut v: Vec<i64> = Vec::new();
    while v.len() < n
        invariant
            v@.len() <= n,
            forall|m: int| 0 <= m < v@.len() ==> v@[m] == 0i64,
        decreases n - v@.len(),
    {
        v.push(0i64);
    }
    v
}

/// A range sum whose whole range lies below 0 is 0.
pub proof fn lemma_prs_nonpos(s: Seq<i64>, lo: int, hi: int)
    requires
        hi < 0,
    ensures
        prefix_range_sum(s, lo, hi) == 0,
    decreases (if hi < lo { 0int } else { hi - lo + 1 }),
{
    if hi >= lo {
        lemma_prs_nonpos(s, lo, hi - 1);
    }
}

/// Unfold a range sum at its lower end.
pub proof fn lemma_prs_pop_front(s: Seq<i64>, lo: int, hi: int)
    requires
        lo <= hi,
    ensures
        prefix_range_sum(s, lo, hi) == prefix_at(s, lo) + prefix_range_sum(s, lo + 1, hi),
    decreases hi - lo,
{
    if lo < hi {
        lemma_prs_pop_front(s, lo, hi - 1);
        assert(prefix_range_sum(s, lo + 1, hi) == prefix_range_sum(s, lo + 1, hi - 1) + prefix_at(
            s,
            hi,
        ));
    } else {
        assert(prefix_range_sum(s, lo, hi) == prefix_range_sum(s, lo, hi - 1) + prefix_at(s, hi));
        assert(prefix_range_sum(s, lo, hi - 1) == 0);
        assert(prefix_range_sum(s, lo + 1, hi) == 0);
    }
}

/// A range sum over `n` indices is bounded by `n` times the absolute total.
pub proof fn lemma_prs_bound(s: Seq<i64>, lo: int, hi: int)
    requires
        lo <= hi,
    ensures
        -((hi - lo + 1) * abs_total(s)) <= prefix_range_sum(s, lo, hi) <= (hi - lo + 1)
            * abs_total(s),
    decreases hi - lo,
{
    lemma_prefix_at_bound(s, hi);
    assert(prefix_range_sum(s, lo, hi) == prefix_range_sum(s, lo, hi - 1) + prefix_at(s, hi));
    if lo < hi {
        lemma_prs_bound(s, lo, hi - 1);
        assert((hi - lo + 1) * abs_total(s) == (hi - lo) * abs_total(s) + abs_total(s))
            by (nonlinear_arith);
    } else {
        assert(prefix_range_sum(s, lo, hi - 1) == 0);
        assert((hi - lo + 1) * abs_total(s) == abs_total(s)) by (nonlinear_arith)
            requires
                lo == hi,
        ;
    }
}

/// Two distinct indices less than `w` apart never share a slot in a circular
/// buffer of size `w`.
proof fn lemma_mod_distinct(j: int, i: int, w: int)
    requires
        0 <= j < i < j + w,
    ensures
        j % w != i % w,
{
    lemma_fundamental_div_mod(j, w);
    lemma_fundamental_div_mod(i, w);
    lemma_mod_division_less_than_divisor(j, w);
    lemma_mod_division_less_than_divisor(i, w);
    if j % w == i % w {
        let d = i / w - j / w;
        assert(i - j == w * d) by (nonlinear_arith)
            requires
                i == w * (i / w) + i % w,
                j == w * (j / w) + j % w,
                i % w == j % w,
                d == i / w - j / w,
        ;
        if d >= 1 {
            lemma_mul_inequality(1, d, w);
            assert(w * d == d * w) by (nonlinear_arith);
        } else {
            lemma_mul_inequality(d, 0, w);
            assert(w * d == d * w) by (nonlinear_arith);
        }
    }
}

pub struct Window {
    acc: Vec<i64>,
    ext: Vec<i64>,
}

impl Window {
    /// The first difference array: prefix-summing it yields the raw
    /// per-coordinate depth.
    pub closed spec fn acc_seq(self) -> Seq<i64> {
        self.acc@
    }

    /// The second difference array, recording interval starts and stops that
    /// fall strictly inside a window.
    pub closed spec fn ext_seq(self) -> Seq<i64> {
        self.ext@
    }

    pub open spec fn wf(self) -> bool {
        &&& self.acc_seq().len() == self.ext_seq().len()
        &&& 2 <= self.acc_seq().len()
        &&& self.acc_seq().len() <= usize::MAX
        &&& abs_total(self.acc_seq()) <= WEIGHT_CAP
        &&& abs_total(self.ext_seq()) <= WEIGHT_CAP
    }

    /// Number of coordinates covered; the arrays hold one extra slot.
    pub open spec fn spec_size(self) -> int {
        self.acc_seq().len() - 1
    }

    pub fn new(range: usize) -> (w: Window)
        requires
            1 <= range < usize::MAX,
        ensures
            w.wf(),
            w.spec_size() == range,
            w.acc_seq() =~= Seq::new((range + 1) as nat, |i: int| 0i64),
            w.ext_seq() =~= Seq::new((range + 1) as nat, |i: int| 0i64),
    {
        let acc: Vec<i64> = zero_vec(range + 1);
        let ext: Vec<i64> = zero_vec(range + 1);
        proof {
            lemma_abs_prefix_zero(acc@, acc@.len() - 1);
            lemma_abs_prefix_zero(ext@, ext@.len() - 1);
        }
        Window { acc, ext }
    }

    pub fn size(&self) -> (r: usize)
        requires
            self.wf(),
        ensures
            r == self.spec_size(),
    {
        self.acc.len() - 1
    }

    /// Add `weight` to every coordinate of the half-open interval
    /// `[beg, end)`, the end clamped to the covered range, by recording only
    /// the boundary effects in the two difference arrays.
    pub fn accumulate(&mut self, beg: usize, end: usize, weight: i64)
        requires
            old(self).wf(),
            beg < end,
            beg <= old(self).spec_size(),
            0 <= weight,
            abs_total(old(self).acc_seq()) + 2 * weight <= WEIGHT_CAP,
            abs_total(old(self).ext_seq()) + 2 * weight <= WEIGHT_CAP,
        ensures
            final(self).wf(),
            final(self).spec_size() == old(self).spec_size(),
            ({
                let n = old(self).spec_size();
                let ec = if end <= n {
                    end as int
                } else {
                    n
                };
                let a0 = old(self).acc_seq();
                let a1 = a0.update(beg as int, (a0[beg as int] + weight) as i64);
                let e0 = old(self).ext_seq();
                &&& final(self).acc_seq() == a1.update(ec, (a1[ec] - weight) as i64)
                &&& final(self).ext_seq() == (if ec - beg > 1 {
                    e0.update(beg + 1, (e0[beg + 1] + weight) as i64).update(
                        ec,
                        (e0[ec] - weight) as i64,
                    )
                } else {
                    e0
                })
            }),
    {
        let n = self.acc.len() - 1;
        let endc = if end > n {
            n
        } else {
            end
        };
        proof {
            lemma_abs_entry(self.acc@, beg as int);
        }
        let a_beg = self.acc[beg] + weight;
        let ghost acc1 = self.acc@.update(beg as int, a_beg);
        self.acc.set(beg, a_beg);
        proof {
            lemma_abs_total_update(old(self).acc_seq(), beg as int, a_beg);
            lemma_abs_entry(acc1, endc as int);
        }
        let a_end = self.acc[endc] - weight;
        self.acc.set(endc, a_end);
        proof {
            lemma_abs_total_update(acc1, endc as int, a_end);
        }
        if endc - beg > 1 {
            proof {
                lemma_abs_entry(self.ext@, beg + 1);
            }
            let e_beg = self.ext[beg + 1] + weight;
            let ghost ext1 = self.ext@.update(beg + 1, e_beg);
            self.ext.set(beg + 1, e_beg);
            proof {
                lemma_abs_total_update(old(self).ext_seq(), beg + 1, e_beg);
                lemma_abs_entry(ext1, endc as int);
            }
            let e_end = self.ext[endc] - weight;
            self.ext.set(endc, e_end);
            proof {
                lemma_abs_total_update(ext1, endc as int, e_end);
            }
        }
    }


    /// Serialize this window: an 8-byte little-endian element count, the
    /// `acc` entries, then the `ext` entries, 8 little-endian bytes each.
    pub fn try_dump(&self) -> (out: Vec<u8>)
        requires
            self.wf(),
        ensures
            out@ == spec_window_bytes(*self),
    {
        proof {
            vstd::bytes::lemma_auto_spec_u64_to_from_le_bytes();
        }
        let n = self.acc.len();
        let mut out: Vec<u8> = vstd::bytes::u64_to_le_bytes(n as u64);
        let ghost header = out@;
        let mut i: usize = 0;
        while i < n
            invariant
                i <= n,
                n == self.acc@.len(),
                header == vstd::bytes::spec_u64_to_le_bytes(n as u64),
                out@ == header + le_bytes_of(self.acc@.take(i as int)),
            decreases n - i,
        {
            #[verifier::truncate]
            let x = self.acc[i] as u64;
            let mut chunk = vstd::bytes::u64_to_le_bytes(x);
            out.append(&mut chunk);
            proof {
                let t = self.acc@.take(i + 1 as int);
                assert(t.drop_last() =~= self.acc@.take(i as int));
                assert(t.last() == self.acc@[i as int]);
                assert(out@ =~= header + le_bytes_of(t));
            }
            i = i + 1;
        }
        proof {
            assert(self.acc@.take(n as int) =~= self.acc@);
        }
        let ghost with_acc = out@;
        let mut i: usize = 0;
        while i < n
            invariant
                i <= n,
                n == self.ext@.len(),
                with_acc == header + le_bytes_of(self.acc@),
                out@ == with_acc + le_bytes_of(self.ext@.take(i as int)),
            decreases n - i,
        {
            #[verifier::truncate]
            let x = self.ext[i] as u64;
            let mut chunk = vstd::bytes::u64_to_le_bytes(x);
            out.append(&mut chunk);
            proof {
                let t = self.ext@.take(i + 1 as int);
                assert(t.drop_last() =~= self.ext@.take(i as int));
                assert(t.last() == self.ext@[i as int]);
                assert(out@ =~= with_acc + le_bytes_of(t));
            }
            i = i + 1;
        }
        proof {
            assert(self.ext@.take(n as int) =~= self.ext@);
            assert(out@ =~= spec_window_bytes(*self));
        }
        out
    }

    /// Reconstruct a window from its serialized form.
    pub fn try_load(bytes: &Vec<u8>) -> (res: Option<Window>)
        ensures
            (res is Some) ==> res.unwrap().wf() && spec_window_bytes(res.unwrap()) == bytes@,
            (forall|w0: Window|
                w0.wf() && bytes@ == #[trigger] spec_window_bytes(w0) ==> (res is Some)),
    {
        proof {
            vstd::bytes::lemma_auto_spec_u64_to_from_le_bytes();
        }
        if bytes.len() < 8 {
            proof {
                assert forall|w0: Window|
                    w0.wf() && bytes@ == spec_window_bytes(w0) implies false by {
                    lemma_window_bytes_layout(w0);
                }
            }
            return None;
        }
        let hdr = vstd::slice::slice_subrange(bytes.as_slice(), 0, 8);
        let n64 = vstd::bytes::u64_from_le_bytes(hdr);
        let max64: u64 = usize::MAX as u64;
        if n64 < 2 || n64 > (max64 - 8) / 16 {
            proof {
                assert forall|w0: Window|
                    w0.wf() && bytes@ == spec_window_bytes(w0) implies false by {
                    lemma_window_bytes_layout(w0);
                    let n0 = w0.acc_seq().len() as int;
                    assert(bytes@.subrange(0, 8) == vstd::bytes::spec_u64_to_le_bytes(n0 as u64));
                    assert(n64 == n0);
                    assert(bytes@.len() == 8 + 16 * n0);
                    assert(16 * n0 <= max64 - 8) by (nonlinear_arith)
                        requires
                            8 + 16 * n0 <= max64,
                    ;
                    assert(n0 <= (max64 - 8) as int / 16);
                }
            }
            return None;
        }
        let n = n64 as usize;
        proof {
            assert(16 * (n as int) <= max64 - 8) by (nonlinear_arith)
                requires
                    n as int <= (max64 - 8) as int / 16,
                    n >= 2,
            ;
        }
        if bytes.len() != 8 + 16 * n {
            proof {
                assert forall|w0: Window|
                    w0.wf() && bytes@ == spec_window_bytes(w0) implies false by {
                    lemma_window_bytes_layout(w0);
                    let n0 = w0.acc_seq().len() as int;
                    assert(bytes@.subrange(0, 8) == vstd::bytes::spec_u64_to_le_bytes(n0 as u64));
                    assert(n64 == n0);
                }
            }
            return None;
        }
        let va = parse_block(bytes, 8, n);
        let ve = parse_block(bytes, 8 + 8 * n, n);
        proof {
            assert forall|w0: Window|
                w0.wf() && bytes@ == spec_window_bytes(w0) implies va@ == w0.acc_seq() && ve@
                == w0.ext_seq() by {
                lemma_window_bytes_layout(w0);
                let n0 = w0.acc_seq().len() as int;
                assert(bytes@.subrange(0, 8) == vstd::bytes::spec_u64_to_le_bytes(n0 as u64));
                assert(n0 == n as int);
                assert forall|m: int| 0 <= m < n0 implies va@[m] == w0.acc_seq()[m] by {
                    lemma_le_bytes_chunk(w0.acc_seq(), m);
                    assert(bytes@.subrange(8 + 8 * m, 8 + 8 * m + 8) =~= bytes@.subrange(
                        8,
                        8 + 8 * n0,
                    ).subrange(8 * m, 8 * m + 8));
                    assert(forall|x: i64| #[trigger] (x as u64) as i64 == x) by (bit_vector);
                }
                assert forall|m: int| 0 <= m < n0 implies ve@[m] == w0.ext_seq()[m] by {
                    lemma_le_bytes_chunk(w0.ext_seq(), m);
                    assert(bytes@.subrange(8 + 8 * n0 + 8 * m, 8 + 8 * n0 + 8 * m + 8)
                        =~= bytes@.subrange(8 + 8 * n0, 8 + 16 * n0).subrange(8 * m, 8 * m + 8));
                    assert(forall|x: i64| #[trigger] (x as u64) as i64 == x) by (bit_vector);
                }
                assert(va@ =~= w0.acc_seq());
                assert(ve@ =~= w0.ext_seq());
            }
        }
        if !check_abs(&va) || !check_abs(&ve) {
            return None;
        }
        let w = Window { acc: va, ext: ve };
        proof {
            assert forall|m: int|
                0 <= m < n as int implies w.acc_seq()[m] as u64 == vstd::bytes::spec_u64_from_le_bytes(
                bytes@.subrange(8 + 8 * m, 8 + 8 * m + 8),
            ) by {
                assert(forall|x: u64| #[trigger] (x as i64) as u64 == x) by (bit_vector);
            }
            assert forall|m: int|
                0 <= m < n as int implies bytes@.subrange(8 + 8 * m, 8 + 8 * m + 8)
                == vstd::bytes::spec_u64_to_le_bytes((#[trigger] w.acc_seq()[m]) as u64) by {
                assert(bytes@.subrange(8 + 8 * m, 8 + 8 * m + 8).len() == 8);
            }
            assert(bytes@.subrange(8, 8 + 8 * (n as int)).len() == 8 * (n as int));
            assert forall|m: int|
                0 <= m < n as int implies bytes@.subrange(8, 8 + 8 * (n as int)).subrange(
                8 * m,
                8 * m + 8,
            ) == vstd::bytes::spec_u64_to_le_bytes((#[trigger] w.acc_seq()[m]) as u64) by {
                assert(bytes@.subrange(8, 8 + 8 * (n as int)).subrange(8 * m, 8 * m + 8)
                    =~= bytes@.subrange(8 + 8 * m, 8 + 8 * m + 8));
            }
            lemma_le_bytes_from_chunks(w.acc_seq(), bytes@.subrange(8, 8 + 8 * (n as int)));
            assert forall|m: int|
                0 <= m < n as int implies w.ext_seq()[m] as u64 == vstd::bytes::spec_u64_from_le_bytes(
                bytes@.subrange(8 + 8 * (n as int) + 8 * m, 8 + 8 * (n as int) + 8 * m + 8),
            ) by {
                assert(forall|x: u64| #[trigger] (x as i64) as u64 == x) by (bit_vector);
            }
            assert forall|m: int|
                0 <= m < n as int implies bytes@.subrange(
                8 + 8 * (n as int) + 8 * m,
                8 + 8 * (n as int) + 8 * m + 8,
            ) == vstd::bytes::spec_u64_to_le_bytes((#[trigger] w.ext_seq()[m]) as u64) by {
                assert(bytes@.subrange(
                    8 + 8 * (n as int) + 8 * m,
                    8 + 8 * (n as int) + 8 * m + 8,
                ).len() == 8);
            }
            assert(bytes@.subrange(8 + 8 * (n as int), 8 + 16 * (n as int)).len() == 8 * (
            n as int));
            assert forall|m: int|
                0 <= m < n as int implies bytes@.subrange(8 + 8 * (n as int), 8 + 16 * (
            n as int)).subrange(8 * m, 8 * m + 8) == vstd::bytes::spec_u64_to_le_bytes(
                (#[trigger] w.ext_seq()[m]) as u64,
            ) by {
                assert(bytes@.subrange(8 + 8 * (n as int), 8 + 16 * (n as int)).subrange(
                    8 * m,
                    8 * m + 8,
                ) =~= bytes@.subrange(8 + 8 * (n as int) + 8 * m, 8 + 8 * (n as int) + 8 * m + 8));
            }
            lemma_le_bytes_from_chunks(
                w.ext_seq(),
                bytes@.subrange(8 + 8 * (n as int), 8 + 16 * (n as int)),
            );
            assert(vstd::bytes::spec_u64_to_le_bytes((n as int) as u64) =~= bytes@.subrange(0, 8));
            assert(spec_window_bytes(w) =~= bytes@);
        }
        Some(w)
    }

    /// Start a moving-window pass of width `win_size` over this window.
    pub fn iter<'a>(&'a self, win_size: usize) -> (it: WindowIter<'a>)
        requires
            self.wf(),
            1 <= win_size <= MAX_WIN_SIZE,
        ensures
            it.inv(),
            it.window() == *self,
            it.width() == win_size,
            it.cursor() == 0,
    {
        WindowIter::new(self, win_size)
    }
}

pub struct WindowIter<'a> {
    win_size: usize,
    win_obj: &'a Window,
    i: usize,
    a_window: Vec<i64>,
    e_window: Vec<i64>,
    a_sum: i64,
    e_sum: i64,
    result: i64,
}

impl<'a> WindowIter<'a> {
    /// The window being iterated over.
    pub closed spec fn window(self) -> Window {
        *self.win_obj
    }

    /// The moving-window width.
    pub closed spec fn width(self) -> int {
        self.win_size as int
    }

    /// The next coordinate of the difference arrays to be folded in.
    pub closed spec fn cursor(self) -> int {
        self.i as int
    }

    /// Internal consistency of the iterator state: the circular buffers hold
    /// the most recent prefix sums of `acc` and `ext`, and the running sums
    /// and the current moving-window value match the cursor position.
    pub closed spec fn inv(self) -> bool {
        let w = self.win_size as int;
        let len = self.win_obj.acc_seq().len() as int;
        let acc = self.win_obj.acc_seq();
        let ext = self.win_obj.ext_seq();
        let i = self.i as int;
        &&& self.win_obj.wf()
        &&& 1 <= w <= MAX_WIN_SIZE
        &&& self.a_window@.len() == w
        &&& self.e_window@.len() == (if w > 1 {
            w - 1
        } else {
            0int
        })
        &&& i <= len
        &&& (if w == 1 {
            i <= len - 1
        } else {
            i == 0 || i == len || (w + 1 <= i <= len - 1)
        })
        &&& (if w == 1 {
            self.result as int == (if i == 0 {
                0int
            } else {
                width_one_value(acc, i - 1)
            })
        } else {
            self.result as int == window_value(acc, ext, i - w, w)
        })
        &&& (w >= 2 ==> self.a_sum as int == prefix_at(acc, i - 1))
        &&& (w >= 2 ==> self.e_sum as int == prefix_at(ext, i - 1))
        &&& (w >= 2 ==> forall|j: int|
            i - w <= j < i && j >= 0 ==> #[trigger] self.a_window@[j % w] as int == prefix_at(
                acc,
                j,
            ))
        &&& (w >= 2 ==> forall|j: int|
            i - (w - 1) <= j < i && j >= 0 ==> #[trigger] self.e_window@[j % (w - 1)] as int
                == prefix_at(ext, j))
    }

    pub fn new(win: &'a Window, size: usize) -> (it: WindowIter<'a>)
        requires
            win.wf(),
            1 <= size <= MAX_WIN_SIZE,
        ensures
            it.inv(),
            it.window() == *win,
            it.width() == size,
            it.cursor() == 0,
    {
        let it = WindowIter {
            win_size: size,
            win_obj: win,
            i: 0,
            a_window: zero_vec(size),
            e_window: zero_vec(if size > 0 { size - 1 } else { 0 }),
            a_sum: 0,
            e_sum: 0,
            result: 0,
        };
        proof {
            let w = size as int;
            if w >= 2 {
                lemma_prs_nonpos(win.acc_seq(), -w, -1);
                lemma_prs_nonpos(win.ext_seq(), -w + 1, -1);
            }
        }
        it
    }

    /// Produce the next moving-window value, or `None` once the pass is
    /// exhausted.
    #[verifier::loop_isolation(false)]
    #[verifier::rlimit(100)]
    pub fn get_next(&mut self) -> (r: Option<i64>)
        requires
            old(self).inv(),
        ensures
            final(self).inv(),
            final(self).window() == old(self).window(),
            final(self).width() == old(self).width(),
            ({
                let w = old(self).width();
                let len = old(self).window().acc_seq().len() as int;
                let acc = old(self).window().acc_seq();
                let ext = old(self).window().ext_seq();
                let i0 = old(self).cursor();
                if w == 1 {
                    if i0 < len - 1 {
                        &&& r matches Some(v) && v as int == width_one_value(acc, i0)
                        &&& final(self).cursor() == i0 + 1
                    } else {
                        r is None && final(self).cursor() == i0
                    }
                } else {
                    if i0 >= len - 1 {
                        r is None && final(self).cursor() == i0
                    } else if i0 == 0 {
                        if w <= len - 1 {
                            &&& r matches Some(v) && v as int == window_value(acc, ext, 0, w)
                            &&& final(self).cursor() == w + 1
                        } else {
                            r is None && final(self).cursor() == len
                        }
                    } else {
                        &&& r matches Some(v) && v as int == window_value(acc, ext, i0 - w, w)
                        &&& final(self).cursor() == i0 + 1
                    }
                }
            }),
    {
        let ghost acc = self.win_obj.acc_seq();
        let ghost ext = self.win_obj.ext_seq();
        let len = self.win_obj.acc.len();

        if self.i >= len - 1 {
            return None;
        }
        if self.win_size == 1 {
            let v = self.step_width_one();
            return Some(v);
        }

        let w = self.win_size;
        let ghost i_entry = self.i as int;
        while self.i <= len - 1
            invariant
                self.inv_mid(),
                self.win_obj == old(self).win_obj,
                self.win_size == old(self).win_size,
                self.win_size == w,
                2 <= w,
                len == self.win_obj.acc_seq().len(),
                i_entry == 0 ==> self.i <= w,
                i_entry >= 1 ==> self.i as int == i_entry,
                i_entry == 0 || w + 1 <= i_entry <= len - 2,
            decreases len - self.i,
        {
            let idx = self.i;
            proof {
                lemma_prefix_at_bound(acc, idx - 1);
                lemma_prefix_at_bound(ext, idx - 1);
                lemma_abs_entry(acc, idx as int);
                lemma_abs_entry(ext, idx as int);
            }
            self.a_sum = self.a_sum + self.win_obj.acc[idx];
            self.e_sum = self.e_sum + self.win_obj.ext[idx];

            let mut should_return = false;
            let mut ret: i64 = 0;

            proof {
                lemma_window_value_bound(acc, ext, idx - w, w as int);
                lemma_window_value_bound(acc, ext, idx + 1 - w, w as int);
                lemma_prefix_at_bound(acc, idx - w);
                lemma_prefix_at_bound(ext, idx + 1 - w);
                lemma_prefix_at_bound(acc, idx as int);
                lemma_prefix_at_bound(ext, idx as int);
            }

            if idx >= w {
                should_return = true;
                ret = self.result;
                proof {
                    lemma_mod_sub_multiples_vanish(idx as int, w as int);
                    lemma_mod_division_less_than_divisor(idx as int, w as int);
                    assert(self.a_window@[(idx - w) % (w as int)] as int == prefix_at(
                        acc,
                        idx - w,
                    ));
                }
                self.result = self.result - self.a_window[idx % w];
            }
            if idx >= w - 1 {
                proof {
                    lemma_mod_sub_multiples_vanish(idx as int, w - 1 as int);
                    lemma_mod_division_less_than_divisor(idx as int, w - 1 as int);
                    assert(self.e_window@[(idx - (w - 1)) % (w - 1 as int)] as int == prefix_at(
                        ext,
                        idx - (w - 1),
                    ));
                }
                self.result = self.result + self.e_window[idx % (w - 1)];
            }

            let ghost a_window_pre = self.a_window@;
            let ghost e_window_pre = self.e_window@;
            let a_sum_now = self.a_sum;
            let e_sum_now = self.e_sum;
            self.a_window.set(idx % w, a_sum_now);
            self.e_window.set(idx % (w - 1), e_sum_now);
            self.result = self.result + self.a_sum - self.e_sum;
            self.i = idx + 1;

            proof {
                lemma_mod_division_less_than_divisor(idx as int, w as int);
                lemma_mod_division_less_than_divisor(idx as int, w - 1 as int);
                assert forall|j: int| self.i - w <= j < self.i && j >= 0 implies #[trigger] self
                    .a_window@[j % (w as int)] as int == prefix_at(acc, j) by {
                    lemma_mod_division_less_than_divisor(j, w as int);
                    if j == idx as int {
                    } else {
                        lemma_mod_distinct(j, idx as int, w as int);
                        assert(a_window_pre[j % (w as int)] as int == prefix_at(acc, j));
                    }
                }
                assert forall|j: int| self.i - (w - 1) <= j < self.i && j >= 0 implies #[trigger] self
                    .e_window@[j % (w - 1 as int)] as int == prefix_at(ext, j) by {
                    lemma_mod_division_less_than_divisor(j, w - 1 as int);
                    if j == idx as int {
                    } else {
                        lemma_mod_distinct(j, idx as int, w - 1 as int);
                        assert(e_window_pre[j % (w - 1 as int)] as int == prefix_at(ext, j));
                    }
                }
                lemma_prs_pop_front(acc, idx - w, idx - 1);
                lemma_prs_pop_front(ext, idx + 1 - w, idx - 1);
                if idx as int - w < 0 {
                    lemma_prefix_neg(acc, idx - w);
                }
                if idx as int + 1 - w < 0 {
                    lemma_prefix_neg(ext, idx + 1 - w);
                }
            }

            if should_return {
                return Some(ret);
            }
        }
        return None;
    }

    /// Advance a width-1 pass by one coordinate and return the running
    /// depth there.
    fn step_width_one(&mut self) -> (r: i64)
        requires
            old(self).inv(),
            old(self).width() == 1,
            old(self).cursor() < old(self).window().acc_seq().len() - 1,
        ensures
            final(self).inv(),
            final(self).window() == old(self).window(),
            final(self).width() == 1,
            final(self).cursor() == old(self).cursor() + 1,
            r as int == width_one_value(old(self).window().acc_seq(), old(self).cursor()),
    {
        let ghost acc = self.win_obj.acc_seq();
        if self.i == 0 {
            self.result = self.win_obj.acc[0];
            proof {
                assert(prefix_at(acc, -1) == 0);
                assert(self.result as int == prefix_at(acc, 0));
            }
        }
        self.i = self.i + 1;
        proof {
            assert(self.result as int == prefix_at(acc, self.i - 1));
            lemma_prefix_at_bound(acc, self.i - 1);
            lemma_abs_entry(acc, self.i as int);
        }
        self.result = self.result + self.win_obj.acc[self.i];
        proof {
            assert(self.result as int == prefix_at(acc, self.i as int));
        }
        self.result
    }

    /// The part of `inv` that holds at every point of the inner loop: the
    /// cursor range is relaxed.
    closed spec fn inv_mid(self) -> bool {
        let w = self.win_size as int;
        let len = self.win_obj.acc_seq().len() as int;
        let acc = self.win_obj.acc_seq();
        let ext = self.win_obj.ext_seq();
        let i = self.i as int;
        &&& self.win_obj.wf()
        &&& 2 <= w <= MAX_WIN_SIZE
        &&& self.a_window@.len() == w
        &&& self.e_window@.len() == w - 1
        &&& i <= len
        &&& self.a_sum as int == prefix_at(acc, i - 1)
        &&& self.e_sum as int == prefix_at(ext, i - 1)
        &&& self.result as int == window_value(acc, ext, i - w, w)
        &&& (forall|j: int|
            i - w <= j < i && j >= 0 ==> #[trigger] self.a_window@[j % w] as int == prefix_at(
                acc,
                j,
            ))
        &&& (forall|j: int|
            i - (w - 1) <= j < i && j >= 0 ==> #[trigger] self.e_window@[j % (w - 1)] as int
                == prefix_at(ext, j))
    }
}

/// A prefix sum at a negative index is 0.
proof fn lemma_prefix_neg(s: Seq<i64>, j: int)
    requires
        j < 0,
    ensures
        prefix_at(s, j) == 0,
{
}

/// A moving-window value is bounded by `2 w` times the weight cap.
proof fn lemma_window_value_bound(acc: Seq<i64>, ext: Seq<i64>, k: int, w: int)
    requires
        2 <= w,
        abs_total(acc) <= WEIGHT_CAP,
        abs_total(ext) <= WEIGHT_CAP,
    ensures
        -(2 * w * WEIGHT_CAP) <= window_value(acc, ext, k, w) <= 2 * w * WEIGHT_CAP,
{
    lemma_prs_bound(acc, k, k + w - 1);
    lemma_prs_bound(ext, k + 1, k + w - 1);
    lemma_abs_prefix_nonneg(acc, acc.len() - 1);
    lemma_abs_prefix_nonneg(ext, ext.len() - 1);
    assert(w * abs_total(acc) <= w * (WEIGHT_CAP as int)) by (nonlinear_arith)
        requires
            w >= 2,
            0 <= abs_total(acc) <= WEIGHT_CAP,
    ;
    assert((w - 1) * abs_total(ext) <= w * (WEIGHT_CAP as int)) by (nonlinear_arith)
        requires
            w >= 2,
            0 <= abs_total(ext) <= WEIGHT_CAP,
    ;
    assert(2 * w * WEIGHT_CAP == w * (WEIGHT_CAP as int) + w * (WEIGHT_CAP as int))
        by (nonlinear_arith);
}

/// Little-endian serialization of a sequence of signed 64-bit values.
pub open spec fn le_bytes_of(s: Seq<i64>) -> Seq<u8>
    decreases s.len(),
{
    if s.len() == 0 {
        Seq::empty()
    } else {
        le_bytes_of(s.drop_last()) + vstd::bytes::spec_u64_to_le_bytes(s.last() as u64)
    }
}

/// The serialized form of a window: an 8-byte little-endian element count,
/// then the `acc` entries, then the `ext` entries, 8 little-endian bytes
/// each.
pub open spec fn spec_window_bytes(w: Window) -> Seq<u8> {
    vstd::bytes::spec_u64_to_le_bytes(w.acc_seq().len() as u64) + le_bytes_of(w.acc_seq())
        + le_bytes_of(w.ext_seq())
}

pub proof fn lemma_le_bytes_len(s: Seq<i64>)
    ensures
        le_bytes_of(s).len() == 8 * s.len(),
    decreases s.len(),
{
    vstd::bytes::lemma_auto_spec_u64_to_from_le_bytes();
    if s.len() > 0 {
        lemma_le_bytes_len(s.drop_last());
    }
}

/// The `i`-th 8-byte chunk of a serialized sequence encodes its `i`-th
/// element.
pub proof fn lemma_le_bytes_chunk(s: Seq<i64>, i: int)
    requires
        0 <= i < s.len(),
    ensures
        le_bytes_of(s).subrange(8 * i, 8 * i + 8) == vstd::bytes::spec_u64_to_le_bytes(
            s[i] as u64,
        ),
    decreases s.len(),
{
    vstd::bytes::lemma_auto_spec_u64_to_from_le_bytes();
    lemma_le_bytes_len(s.drop_last());
    if i == s.len() - 1 {
        assert(le_bytes_of(s).subrange(8 * i, 8 * i + 8) =~= vstd::bytes::spec_u64_to_le_bytes(
            s[i] as u64,
        ));
    } else {
        lemma_le_bytes_chunk(s.drop_last(), i);
        assert(le_bytes_of(s).subrange(8 * i, 8 * i + 8) =~= le_bytes_of(s.drop_last()).subrange(
            8 * i,
            8 * i + 8,
        ));
        assert(s.drop_last()[i] == s[i]);
    }
}

/// Serialization is injective: equal byte streams come from equal arrays.
pub proof fn lemma_le_bytes_injective(s1: Seq<i64>, s2: Seq<i64>)
    requires
        s1.len() == s2.len(),
        le_bytes_of(s1) == le_bytes_of(s2),
    ensures
        s1 == s2,
{
    vstd::bytes::lemma_auto_spec_u64_to_from_le_bytes();
    assert forall|i: int| 0 <= i < s1.len() implies s1[i] == s2[i] by {
        lemma_le_bytes_chunk(s1, i);
        lemma_le_bytes_chunk(s2, i);
        let b1 = vstd::bytes::spec_u64_to_le_bytes(s1[i] as u64);
        let b2 = vstd::bytes::spec_u64_to_le_bytes(s2[i] as u64);
        assert(b1 == b2);
        assert(vstd::bytes::spec_u64_from_le_bytes(b1) == s1[i] as u64);
        assert(vstd::bytes::spec_u64_from_le_bytes(b2) == s2[i] as u64);
        assert(s1[i] as u64 == s2[i] as u64);
        assert(s1[i] as u64 as i64 == s2[i] as u64 as i64);
        assert(forall|x: i64| #[trigger] (x as u64) as i64 == x) by (bit_vector);
    }
    assert(s1 =~= s2);
}

/// LAW \u{2014} The binary dump determines the window: two well-formed windows
/// with the same serialized bytes have the same difference arrays, so a
/// dumped and reloaded accumulator yields the same moving-window output for
/// every width.
pub proof fn lemma_dump_round_trip(w1: Window, w2: Window)
    requires
        w1.wf(),
        w2.wf(),
        spec_window_bytes(w1) == spec_window_bytes(w2),
    ensures
        w1.acc_seq() == w2.acc_seq(),
        w1.ext_seq() == w2.ext_seq(),
        forall|k: int, wd: int|
            window_value(w1.acc_seq(), w1.ext_seq(), k, wd) == window_value(
                w2.acc_seq(),
                w2.ext_seq(),
                k,
                wd,
            ),
        forall|k: int|
            width_one_value(w1.acc_seq(), k) == width_one_value(w2.acc_seq(), k),
{
    vstd::bytes::lemma_auto_spec_u64_to_from_le_bytes();
    lemma_le_bytes_len(w1.acc_seq());
    lemma_le_bytes_len(w1.ext_seq());
    lemma_le_bytes_len(w2.acc_seq());
    lemma_le_bytes_len(w2.ext_seq());
    let b1 = spec_window_bytes(w1);
    let b2 = spec_window_bytes(w2);
    let n1 = w1.acc_seq().len() as int;
    let n2 = w2.acc_seq().len() as int;
    assert(b1.subrange(0, 8) =~= vstd::bytes::spec_u64_to_le_bytes(n1 as u64));
    assert(b2.subrange(0, 8) =~= vstd::bytes::spec_u64_to_le_bytes(n2 as u64));
    assert(n1 as u64 == n2 as u64) by {
        assert(vstd::bytes::spec_u64_from_le_bytes(b1.subrange(0, 8)) == n1 as u64);
        assert(vstd::bytes::spec_u64_from_le_bytes(b2.subrange(0, 8)) == n2 as u64);
    }
    assert(n1 == n2) by {
        assert(n1 <= usize::MAX as int <= u64::MAX as int);
        assert(n2 <= usize::MAX as int <= u64::MAX as int);
    }
    assert(le_bytes_of(w1.acc_seq()) =~= b1.subrange(8, 8 + 8 * n1));
    assert(le_bytes_of(w2.acc_seq()) =~= b2.subrange(8, 8 + 8 * n2));
    lemma_le_bytes_injective(w1.acc_seq(), w2.acc_seq());
    assert(le_bytes_of(w1.ext_seq()) =~= b1.subrange(8 + 8 * n1, 8 + 16 * n1));
    assert(le_bytes_of(w2.ext_seq()) =~= b2.subrange(8 + 8 * n2, 8 + 16 * n2));
    lemma_le_bytes_injective(w1.ext_seq(), w2.ext_seq());
}

/// A byte sequence whose 8-byte chunks each encode the elements of `s` is
/// exactly the serialization of `s`.
proof fn lemma_le_bytes_from_chunks(s: Seq<i64>, b: Seq<u8>)
    requires
        b.len() == 8 * s.len(),
        forall|m: int|
            0 <= m < s.len() ==> b.subrange(8 * m, 8 * m + 8) == vstd::bytes::spec_u64_to_le_bytes(
                (#[trigger] s[m]) as u64,
            ),
    ensures
        le_bytes_of(s) == b,
    decreases s.len(),
{
    vstd::bytes::lemma_auto_spec_u64_to_from_le_bytes();
    if s.len() == 0 {
        assert(le_bytes_of(s) =~= b);
    } else {
        let t = s.drop_last();
        let bp = b.subrange(0, 8 * t.len() as int);
        assert forall|m: int| 0 <= m < t.len() implies bp.subrange(8 * m, 8 * m + 8)
            == vstd::bytes::spec_u64_to_le_bytes((#[trigger] t[m]) as u64) by {
            assert(bp.subrange(8 * m, 8 * m + 8) =~= b.subrange(8 * m, 8 * m + 8));
            assert(t[m] == s[m]);
        }
        lemma_le_bytes_from_chunks(t, bp);
        lemma_le_bytes_len(t);
        assert(b.subrange(8 * t.len() as int, 8 * s.len() as int) == vstd::bytes::spec_u64_to_le_bytes(
            s[s.len() - 1] as u64,
        ));
        assert(le_bytes_of(s) =~= b);
    }
}

/// Layout of a serialized window: header, `acc` block, `ext` block.
proof fn lemma_window_bytes_layout(w0: Window)
    requires
        w0.wf(),
    ensures
        ({
            let n = w0.acc_seq().len() as int;
            let b = spec_window_bytes(w0);
            &&& b.len() == 8 + 16 * n
            &&& b.subrange(0, 8) == vstd::bytes::spec_u64_to_le_bytes(n as u64)
            &&& b.subrange(8, 8 + 8 * n) == le_bytes_of(w0.acc_seq())
            &&& b.subrange(8 + 8 * n, 8 + 16 * n) == le_bytes_of(w0.ext_seq())
        }),
{
    vstd::bytes::lemma_auto_spec_u64_to_from_le_bytes();
    lemma_le_bytes_len(w0.acc_seq());
    lemma_le_bytes_len(w0.ext_seq());
    let n = w0.acc_seq().len() as int;
    let b = spec_window_bytes(w0);
    assert(b.subrange(0, 8) =~= vstd::bytes::spec_u64_to_le_bytes(n as u64));
    assert(b.subrange(8, 8 + 8 * n) =~= le_bytes_of(w0.acc_seq()));
    assert(b.subrange(8 + 8 * n, 8 + 16 * n) =~= le_bytes_of(w0.ext_seq()));
}

/// Decode `n` 8-byte little-endian signed values starting at `off`.
fn parse_block(bytes: &Vec<u8>, off: usize, n: usize) -> (v: Vec<i64>)
    requires
        off + 8 * n <= bytes@.len(),
        bytes@.len() <= usize::MAX,
    ensures
        v@.len() == n,
        forall|m: int|
            0 <= m < n ==> #[trigger] v@[m] == vstd::bytes::spec_u64_from_le_bytes(
                bytes@.subrange(off + 8 * m, off + 8 * m + 8),
            ) as i64,
{
    let mut v: Vec<i64> = Vec::new();
    let mut i: usize = 0;
    while i < n
        invariant
            i <= n,
            off + 8 * n <= bytes@.len(),
            bytes@.len() <= usize::MAX,
            v@.len() == i,
            forall|m: int|
                0 <= m < i ==> #[trigger] v@[m] == vstd::bytes::spec_u64_from_le_bytes(
                    bytes@.subrange(off + 8 * m, off + 8 * m + 8),
                ) as i64,
        decreases n - i,
    {
        let chunk = vstd::slice::slice_subrange(bytes.as_slice(), off + 8 * i, off + 8 * i + 8);
        let x = vstd::bytes::u64_from_le_bytes(chunk);
        let y = #[verifier::truncate] (x as i64);
        v.push(y);
        i = i + 1;
    }
    v
}

/// Check that the total absolute weight of `v` stays under the cap.
fn check_abs(v: &Vec<i64>) -> (ok: bool)
    ensures
        ok <==> abs_total(v@) <= WEIGHT_CAP,
{
    let mut total: i64 = 0;
    let mut i: usize = 0;
    while i < v.len()
        invariant
            i <= v@.len(),
            total == abs_prefix(v@, i - 1),
            0 <= total <= WEIGHT_CAP,
        decreases v@.len() - i,
    {
        let x = v[i];
        if x > WEIGHT_CAP || x < -WEIGHT_CAP {
            proof {
                lemma_abs_entry(v@, i as int);
            }
            return false;
        }
        let a = if x >= 0 {
            x
        } else {
            -x
        };
        if total > WEIGHT_CAP - a {
            proof {
                lemma_abs_prefix_monotone(v@, i as int, v@.len() - 1);
            }
            return false;
        }
        total = total + a;
        i = i + 1;
    }
    proof {
        lemma_abs_prefix_stable(v@, v@.len() - 1);
    }
    true
}

} // verus!
