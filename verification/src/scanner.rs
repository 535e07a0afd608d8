//! Depth scan over one chromosome's aligned reads.
//!
//! The scanner folds a stream of aligned-read records into three windowed
//! accumulators — every read, reads placed with low mapping quality, and the
//! corrected coverage that excludes split reads — and tracks the most common
//! read length by a majority-style vote.

use crate::window::{abs_total, Window, WEIGHT_CAP};
use crate::window_model::{models, valid_ival, valid_ivals, Ival};
use vstd::prelude::*;

verus! {

/// The plain values the scanner reads from one aligned read.
#[derive(Clone, Copy, Debug, PartialEq, Eq, Structural)]
pub struct ReadInfo {
    /// First covered coordinate.
    pub begin: u32,
    /// One past the last covered coordinate.
    pub end: u32,
    /// Read length as reported by the aligner.
    pub length: u32,
    /// Mapping quality; 0 marks an ambiguous placement.
    pub mqual: u32,
    /// Whether the aligner flagged the read as a split read.
    pub split: bool,
}

/// A read's coverage interval, with unit weight.
pub open spec fn ival_of(r: ReadInfo) -> Ival {
    Ival { lo: r.begin as int, hi: r.end as int, wt: 1 }
}

/// Intervals of every read.
pub open spec fn raw_ivals(rs: Seq<ReadInfo>) -> Seq<Ival>
    decreases rs.len(),
{
    if rs.len() == 0 {
        Seq::empty()
    } else {
        raw_ivals(rs.drop_last()).push(ival_of(rs.last()))
    }
}

/// Intervals of the reads that are not split reads.
pub open spec fn corrected_ivals(rs: Seq<ReadInfo>) -> Seq<Ival>
    decreases rs.len(),
{
    if rs.len() == 0 {
        Seq::empty()
    } else if rs.last().split {
        corrected_ivals(rs.drop_last())
    } else {
        corrected_ivals(rs.drop_last()).push(ival_of(rs.last()))
    }
}

/// Intervals of the non-split reads with zero mapping quality.
pub open spec fn lowmq_ivals(rs: Seq<ReadInfo>) -> Seq<Ival>
    decreases rs.len(),
{
    if rs.len() == 0 {
        Seq::empty()
    } else if rs.last().split || rs.last().mqual != 0 {
        lowmq_ivals(rs.drop_last())
    } else {
        lowmq_ivals(rs.drop_last()).push(ival_of(rs.last()))
    }
}

/// The common-read-length vote after the non-split reads of `rs`: a counter
/// that each agreeing read strengthens and each disagreeing read weakens,
/// the candidate replaced when the counter returns to zero.
pub open spec fn vote_after(rs: Seq<ReadInfo>) -> (int, int)
    decreases rs.len(),
{
    if rs.len() == 0 {
        (0, 0)
    } else {
        let prev = vote_after(rs.drop_last());
        let r = rs.last();
        if r.split {
            prev
        } else if prev.0 == r.length as int {
            (prev.0, prev.1 + 1)
        } else if prev.1 > 1 {
            (prev.0, prev.1 - 1)
        } else if prev.1 == 1 {
            (r.length as int, 0)
        } else {
            (prev.0, 1)
        }
    }
}

/// A read fits the scan range: a nonempty coverage interval inside
/// `[0, n)`.
pub open spec fn valid_read(r: ReadInfo, n: int) -> bool {
    r.begin < r.end && r.end <= n
}

/// The vote counter never goes negative.
proof fn lemma_vote_nonneg(rs: Seq<ReadInfo>)
    ensures
        vote_after(rs).1 >= 0,
    decreases rs.len(),
{
    if rs.len() > 0 {
        lemma_vote_nonneg(rs.drop_last());
    }
}

/// The vote counter never exceeds the number of reads.
proof fn lemma_vote_bounded(rs: Seq<ReadInfo>)
    ensures
        vote_after(rs).1 <= rs.len(),
        0 <= vote_after(rs).0 < 0x1_0000_0000,
    decreases rs.len(),
{
    if rs.len() > 0 {
        lemma_vote_bounded(rs.drop_last());
    }
}

pub struct Scanner {
    corrected_window: Window,
    low_mq_window: Window,
    raw_window: Window,
    common_read_len: u32,
    common_read_len_cnt: u32,
    chrom: String,
}

impl Scanner {
    pub closed spec fn corrected(self) -> Window {
        self.corrected_window
    }

    pub closed spec fn low_mq(self) -> Window {
        self.low_mq_window
    }

    pub closed spec fn raw(self) -> Window {
        self.raw_window
    }

    pub closed spec fn read_len_vote(self) -> (int, int) {
        (self.common_read_len as int, self.common_read_len_cnt as int)
    }

    pub closed spec fn chrom_name(self) -> Seq<char> {
        self.chrom@
    }

    pub open spec fn wf(self) -> bool {
        &&& self.corrected().wf()
        &&& self.low_mq().wf()
        &&& self.raw().wf()
        &&& self.corrected().spec_size() == self.raw().spec_size()
        &&& self.low_mq().spec_size() == self.raw().spec_size()
    }

    pub open spec fn spec_size(self) -> int {
        self.raw().spec_size()
    }

    /// Fold the reads of one chromosome into the three accumulators and the
    /// common-read-length vote.  Every read counts toward the raw window;
    /// split reads count toward nothing else; zero-quality reads count
    /// toward the low-quality window; every non-split read counts toward
    /// the corrected window.
    pub fn new(reads: &Vec<ReadInfo>, size: usize, chrom: &str) -> (r: Scanner)
        requires
            1 <= size < usize::MAX,
            reads@.len() < 0x1_0000_0000,
            forall|m: int| 0 <= m < reads@.len() ==> valid_read(#[trigger] reads@[m], size as int),
        ensures
            r.wf(),
            r.spec_size() == size,
            models(r.raw().acc_seq(), r.raw().ext_seq(), raw_ivals(reads@)),
            models(
                r.corrected().acc_seq(),
                r.corrected().ext_seq(),
                corrected_ivals(reads@),
            ),
            models(r.low_mq().acc_seq(), r.low_mq().ext_seq(), lowmq_ivals(reads@)),
            r.read_len_vote() == vote_after(reads@),
            r.chrom_name() == chrom@,
    {
        let mut corrected_window = Window::new(size);
        let mut low_mq_window = Window::new(size);
        let mut raw_window = Window::new(size);
        let mut common_read_len: u32 = 0;
        let mut common_read_len_cnt: u32 = 0;

        proof {
            crate::window::lemma_abs_prefix_zero(
                raw_window.acc_seq(),
                raw_window.acc_seq().len() - 1,
            );
            crate::window::lemma_abs_prefix_zero(
                raw_window.ext_seq(),
                raw_window.ext_seq().len() - 1,
            );
            crate::window::lemma_abs_prefix_zero(
                corrected_window.acc_seq(),
                corrected_window.acc_seq().len() - 1,
            );
            crate::window::lemma_abs_prefix_zero(
                corrected_window.ext_seq(),
                corrected_window.ext_seq().len() - 1,
            );
            crate::window::lemma_abs_prefix_zero(
                low_mq_window.acc_seq(),
                low_mq_window.acc_seq().len() - 1,
            );
            crate::window::lemma_abs_prefix_zero(
                low_mq_window.ext_seq(),
                low_mq_window.ext_seq().len() - 1,
            );
        }
        let ghost all = reads@;
        let mut i: usize = 0;
        while i < reads.len()
            invariant
                i <= all.len(),
                reads@ == all,
                all.len() < 0x1_0000_0000,
                1 <= size < usize::MAX,
                forall|m: int| 0 <= m < all.len() ==> valid_read(#[trigger] all[m], size as int),
                corrected_window.wf(),
                low_mq_window.wf(),
                raw_window.wf(),
                corrected_window.spec_size() == size,
                low_mq_window.spec_size() == size,
                raw_window.spec_size() == size,
                abs_total(raw_window.acc_seq()) <= 2 * i,
                abs_total(raw_window.ext_seq()) <= 2 * i,
                abs_total(corrected_window.acc_seq()) <= 2 * i,
                abs_total(corrected_window.ext_seq()) <= 2 * i,
                abs_total(low_mq_window.acc_seq()) <= 2 * i,
                abs_total(low_mq_window.ext_seq()) <= 2 * i,
                models(raw_window.acc_seq(), raw_window.ext_seq(), raw_ivals(all.take(i as int))),
                models(
                    corrected_window.acc_seq(),
                    corrected_window.ext_seq(),
                    corrected_ivals(all.take(i as int)),
                ),
                models(
                    low_mq_window.acc_seq(),
                    low_mq_window.ext_seq(),
                    lowmq_ivals(all.take(i as int)),
                ),
                (common_read_len as int, common_read_len_cnt as int) == vote_after(
                    all.take(i as int),
                ),
            decreases all.len() - i,
        {
            let rd = reads[i];
            proof {
                assert(all.take(i + 1 as int).drop_last() =~= all.take(i as int));
                assert(all.take(i + 1 as int).last() == all[i as int]);
                lemma_vote_nonneg(all.take(i as int));
                lemma_vote_bounded(all.take(i as int));
            }
            let beg = rd.begin as usize;
            let end = rd.end as usize;

            accumulate_read(&mut raw_window, beg, end, size);

            if !rd.split {
                if rd.mqual == 0 {
                    accumulate_read(&mut low_mq_window, beg, end, size);
                }
                accumulate_read(&mut corrected_window, beg, end, size);

                if common_read_len != rd.length {
                    if common_read_len_cnt > 0 {
                        common_read_len_cnt = common_read_len_cnt - 1;
                    } else {
                        common_read_len_cnt = common_read_len_cnt + 1;
                    }
                    if common_read_len_cnt == 0 {
                        common_read_len = rd.length;
                    }
                } else {
                    common_read_len_cnt = common_read_len_cnt + 1;
                }
            }
            i = i + 1;
        }
        proof {
            assert(all.take(all.len() as int) =~= all);
        }
        Scanner {
            corrected_window,
            low_mq_window,
            raw_window,
            common_read_len,
            common_read_len_cnt,
            chrom: chrom.to_string(),
        }
    }

    pub fn get_common_read_length(&self) -> (r: u32)
        ensures
            r as int == self.read_len_vote().0,
    {
        self.common_read_len
    }

    pub fn get_common_read_length_count(&self) -> (r: u32)
        ensures
            r as int == self.read_len_vote().1,
    {
        self.common_read_len_cnt
    }

    /// Reassemble a scanner from persisted parts: the three reloaded
    /// windows, the read-length vote and the chromosome name.  Returns
    /// `None` when the windows do not cover one common range.
    pub fn from_parts(
        corrected: Window,
        low_mq: Window,
        raw: Window,
        common_read_len: u32,
        common_read_len_cnt: u32,
        chrom: &str,
    ) -> (r: Option<Scanner>)
        requires
            corrected.wf(),
            low_mq.wf(),
            raw.wf(),
        ensures
            corrected.spec_size() == raw.spec_size() && low_mq.spec_size() == raw.spec_size()
                ==> ({
                r matches Some(sc) ==> {
                    &&& sc.wf()
                    &&& sc.corrected() == corrected
                    &&& sc.low_mq() == low_mq
                    &&& sc.raw() == raw
                    &&& sc.read_len_vote() == (common_read_len as int, common_read_len_cnt as int)
                    &&& sc.chrom_name() == chrom@
                }
            }),
            (r is None) <==> !(corrected.spec_size() == raw.spec_size() && low_mq.spec_size()
                == raw.spec_size()),
    {
        if corrected.size() != raw.size() || low_mq.size() != raw.size() {
            return None;
        }
        Some(
            Scanner {
                corrected_window: corrected,
                low_mq_window: low_mq,
                raw_window: raw,
                common_read_len,
                common_read_len_cnt,
                chrom: chrom.to_string(),
            },
        )
    }

    pub fn get_corrected(&self) -> (r: &Window)
        ensures
            *r == self.corrected(),
    {
        &self.corrected_window
    }

    pub fn get_low_mq_window(&self) -> (r: &Window)
        ensures
            *r == self.low_mq(),
    {
        &self.low_mq_window
    }

    pub fn get_raw_window(&self) -> (r: &Window)
        ensures
            *r == self.raw(),
    {
        &self.raw_window
    }

    pub fn get_chrom(&self) -> (r: &str)
        ensures
            r@ == self.chrom_name(),
    {
        self.chrom.as_str()
    }
}

/// Accumulate one unit-weight interval into a window, carrying the
/// interval model along.
pub(crate) fn accumulate_read(w: &mut Window, beg: usize, end: usize, size: usize)
    requires
        old(w).wf(),
        old(w).spec_size() == size,
        beg < end,
        end <= size,
        abs_total(old(w).acc_seq()) + 2 <= WEIGHT_CAP,
        abs_total(old(w).ext_seq()) + 2 <= WEIGHT_CAP,
    ensures
        final(w).wf(),
        final(w).spec_size() == size,
        abs_total(final(w).acc_seq()) <= abs_total(old(w).acc_seq()) + 2,
        abs_total(final(w).ext_seq()) <= abs_total(old(w).ext_seq()) + 2,
        forall|s: Seq<Ival>|
            #![trigger models(old(w).acc_seq(), old(w).ext_seq(), s)]
            models(old(w).acc_seq(), old(w).ext_seq(), s) ==> models(
                final(w).acc_seq(),
                final(w).ext_seq(),
                s.push(Ival { lo: beg as int, hi: end as int, wt: 1 }),
            ),
{
    w.accumulate(beg, end, 1);
    proof {
        let a0 = old(w).acc_seq();
        let e0 = old(w).ext_seq();
        let ec = end as int;
        crate::window::lemma_abs_entry(a0, beg as int);
        let a1 = a0.update(beg as int, (a0[beg as int] + 1) as i64);
        crate::window::lemma_abs_total_update(a0, beg as int, (a0[beg as int] + 1) as i64);
        crate::window::lemma_abs_entry(a1, ec);
        crate::window::lemma_abs_total_update(a1, ec, (a1[ec] - 1) as i64);
        if ec - beg > 1 {
            crate::window::lemma_abs_entry(e0, beg + 1);
            let e1 = e0.update(beg + 1, (e0[beg + 1] + 1) as i64);
            crate::window::lemma_abs_total_update(e0, beg + 1, (e0[beg + 1] + 1) as i64);
            crate::window::lemma_abs_entry(e1, ec);
            crate::window::lemma_abs_total_update(e1, ec, (e1[ec] - 1) as i64);
        }
        assert forall|s: Seq<Ival>|
            models(a0, e0, s) implies models(
            w.acc_seq(),
            w.ext_seq(),
            s.push(Ival { lo: beg as int, hi: end as int, wt: 1 }),
        ) by {
            crate::window_model::lemma_accumulate_models(a0, e0, s, beg as int, ec, 1);
        }
    }
}

/// The interval models of a valid read set are valid interval sets.
proof fn lemma_ivals_valid(rs: Seq<ReadInfo>, n: int)
    requires
        forall|m: int| 0 <= m < rs.len() ==> valid_read(#[trigger] rs[m], n),
    ensures
        valid_ivals(raw_ivals(rs), n),
        valid_ivals(corrected_ivals(rs), n),
        valid_ivals(lowmq_ivals(rs), n),
    decreases rs.len(),
{
    if rs.len() > 0 {
        assert(forall|m: int| 0 <= m < rs.len() - 1 ==> rs.drop_last()[m] == rs[m]);
        lemma_ivals_valid(rs.drop_last(), n);
        assert(valid_read(rs[rs.len() - 1], n));
        assert forall|m: int|
            0 <= m < raw_ivals(rs).len() implies valid_ival(#[trigger] raw_ivals(rs)[m], n) by {
            if m < raw_ivals(rs.drop_last()).len() {
                assert(raw_ivals(rs)[m] == raw_ivals(rs.drop_last())[m]);
            }
        }
        assert forall|m: int|
            0 <= m < corrected_ivals(rs).len() implies valid_ival(
            #[trigger] corrected_ivals(rs)[m],
            n,
        ) by {
            if m < corrected_ivals(rs.drop_last()).len() {
                assert(corrected_ivals(rs)[m] == corrected_ivals(rs.drop_last())[m]);
            }
        }
        assert forall|m: int|
            0 <= m < lowmq_ivals(rs).len() implies valid_ival(
            #[trigger] lowmq_ivals(rs)[m],
            n,
        ) by {
            if m < lowmq_ivals(rs.drop_last()).len() {
                assert(lowmq_ivals(rs)[m] == lowmq_ivals(rs.drop_last())[m]);
            }
        }
    }
}

/// LAW - Every moving-window value of a scanner's three depth streams is
/// the exact number of its reads whose coverage interval intersects that
/// window: all reads for the raw stream, non-split reads for the corrected
/// stream, and non-split zero-quality reads for the low-quality stream.
/// In particular no value is ever negative.
pub proof fn lemma_depth_streams_count_reads(
    sc: Scanner,
    reads: Seq<ReadInfo>,
    size: int,
    k: int,
    w: int,
)
    requires
        sc.wf(),
        sc.spec_size() == size,
        models(sc.raw().acc_seq(), sc.raw().ext_seq(), raw_ivals(reads)),
        models(sc.corrected().acc_seq(), sc.corrected().ext_seq(), corrected_ivals(reads)),
        models(sc.low_mq().acc_seq(), sc.low_mq().ext_seq(), lowmq_ivals(reads)),
        forall|m: int| 0 <= m < reads.len() ==> valid_read(#[trigger] reads[m], size),
        2 <= w,
        0 <= k,
    ensures
        crate::window::window_value(sc.raw().acc_seq(), sc.raw().ext_seq(), k, w)
            == crate::window_model::hit_at(raw_ivals(reads), k, w),
        crate::window::window_value(sc.corrected().acc_seq(), sc.corrected().ext_seq(), k, w)
            == crate::window_model::hit_at(corrected_ivals(reads), k, w),
        crate::window::window_value(sc.low_mq().acc_seq(), sc.low_mq().ext_seq(), k, w)
            == crate::window_model::hit_at(lowmq_ivals(reads), k, w),
        crate::window::window_value(sc.raw().acc_seq(), sc.raw().ext_seq(), k, w) >= 0,
        crate::window::window_value(sc.corrected().acc_seq(), sc.corrected().ext_seq(), k, w)
            >= 0,
        crate::window::window_value(sc.low_mq().acc_seq(), sc.low_mq().ext_seq(), k, w) >= 0,
{
    lemma_ivals_valid(reads, size);
    crate::window_model::lemma_window_counts_intervals(
        sc.raw().acc_seq(),
        sc.raw().ext_seq(),
        raw_ivals(reads),
        k,
        w,
    );
    crate::window_model::lemma_window_counts_intervals(
        sc.corrected().acc_seq(),
        sc.corrected().ext_seq(),
        corrected_ivals(reads),
        k,
        w,
    );
    crate::window_model::lemma_window_counts_intervals(
        sc.low_mq().acc_seq(),
        sc.low_mq().ext_seq(),
        lowmq_ivals(reads),
        k,
        w,
    );
}

} // verus!
