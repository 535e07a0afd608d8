//! Cluster merge: group nearby candidate variants and reduce each cluster
//! to one representative.
//!
//! Variants are sorted by left coordinate; a cluster grows while the next
//! variant's span, padded by the cluster slack, overlaps the running
//! cluster span.  Within a cluster, a representative is picked by comparing
//! pairs on validation score, boundary kind, ratio deviation and variance,
//! in that priority order.

use crate::edge::{iabs, Variant, HALF_MICRO};
use vstd::prelude::*;

verus! {

/// Padding distance within which two candidate variants are considered the
/// same event, in base pairs.
pub const CLUSTER_SLACK: i64 = 1000;

/// Field bounds under which every comparison below stays in `i64` range.
pub open spec fn variant_bounded(v: Variant) -> bool {
    &&& -0x4_0000_0000_0000 <= v.mean_micro <= 0x4_0000_0000_0000
    &&& -0x4_0000_0000_0000 <= v.sd_micro <= 0x4_0000_0000_0000
    &&& -0x4_0000_0000_0000 <= v.pv_micro <= 0x4_0000_0000_0000
    &&& v.copy_num <= 0x10000
}

/// The padded span of a variant.
pub open spec fn padded_lo(v: Variant) -> int {
    v.left_pos - CLUSTER_SLACK
}

pub open spec fn padded_hi(v: Variant) -> int {
    v.right_pos + CLUSTER_SLACK
}

/// A variant joins a running cluster span when its padded span overlaps it.
pub open spec fn joins(lo: int, hi: int, v: Variant) -> bool {
    (if padded_lo(v) > lo {
        padded_lo(v)
    } else {
        lo
    }) < (if padded_hi(v) < hi {
        padded_hi(v)
    } else {
        hi
    })
}

/// State of the greedy grouping pass: closed groups as index ranges, and
/// the open group's start index and running span, if one is open.
pub open spec fn cluster_fold(vs: Seq<Variant>, i: int) -> (Seq<(int, int)>, Option<
    (int, int, int),
>)
    decreases (if i <= 0 { 0int } else { i }),
{
    if i <= 0 {
        (Seq::empty(), None)
    } else {
        let prev = cluster_fold(vs, i - 1);
        let v = vs[i - 1];
        match prev.1 {
            None => (prev.0, Some((i - 1, padded_lo(v), padded_hi(v)))),
            Some((s, lo, hi)) => {
                if joins(lo, hi, v) {
                    (
                        prev.0,
                        Some(
                            (
                                s,
                                if padded_lo(v) < lo {
                                    padded_lo(v)
                                } else {
                                    lo
                                },
                                if padded_hi(v) > hi {
                                    padded_hi(v)
                                } else {
                                    hi
                                },
                            ),
                        ),
                    )
                } else {
                    (prev.0.push((s, i - 1)), Some((i - 1, padded_lo(v), padded_hi(v))))
                }
            },
        }
    }
}

/// The index ranges of the clusters of `vs`: consecutive variants grouped
/// while their padded spans overlap the running cluster span.
pub open spec fn spec_clusters(vs: Seq<Variant>) -> Seq<(int, int)> {
    let f = cluster_fold(vs, vs.len() as int);
    match f.1 {
        None => f.0,
        Some((s, lo, hi)) => f.0.push((s, vs.len() as int)),
    }
}

/// The second variant displaces the current representative.  The priority
/// order: a validation-score difference beyond the coarse tolerance, then
/// the boundary kind (edge-scan boundaries preferred), then a score
/// difference beyond the fine tolerance, then a smaller deviation from the
/// expected copy-number ratio, then a smaller variance.
pub open spec fn prefer(best: Variant, sv: Variant, merged: bool) -> bool {
    let tol_a: int = if merged {
        150_000
    } else {
        5_000
    };
    let tol_b: int = if merged {
        5_000
    } else {
        -1_000_000
    };
    let best_dev = iabs(best.mean_micro - best.copy_num * (HALF_MICRO as int));
    let sv_dev = iabs(sv.mean_micro - sv.copy_num * (HALF_MICRO as int));
    if iabs(best.pv_micro - sv.pv_micro) > tol_a {
        best.pv_micro < sv.pv_micro
    } else if best.boundary != sv.boundary {
        !best.boundary
    } else if iabs(best.pv_micro - sv.pv_micro) > tol_b {
        best.pv_micro < sv.pv_micro
    } else if iabs(best_dev - sv_dev) > 5_000 {
        best_dev > sv_dev
    } else if iabs(best.sd_micro - sv.sd_micro) > 5_000 {
        best.sd_micro > sv.sd_micro
    } else {
        false
    }
}

/// The representative of `vs[from..to]` after folding `prefer` pairwise.
pub open spec fn best_in(vs: Seq<Variant>, from: int, to: int) -> Variant
    decreases (if to <= from { 0int } else { to - from }),
{
    if to <= from + 1 {
        vs[from]
    } else {
        let b = best_in(vs, from, to - 1);
        if prefer(b, vs[to - 1], false) {
            vs[to - 1]
        } else {
            b
        }
    }
}

/// First position of `s` whose left coordinate exceeds that of `x`.
pub open spec fn first_left_above(s: Seq<Variant>, x: Variant) -> int
    decreases s.len(),
{
    if s.len() == 0 {
        0
    } else if s.first().left_pos > x.left_pos {
        0
    } else {
        1 + first_left_above(s.drop_first(), x)
    }
}

/// Stable insertion by left coordinate.
pub open spec fn insert_by_left(s: Seq<Variant>, x: Variant) -> Seq<Variant> {
    let p = first_left_above(s, x);
    s.take(p).push(x) + s.skip(p)
}

/// Stable ascending sort by left coordinate.
pub open spec fn sort_by_left(s: Seq<Variant>) -> Seq<Variant>
    decreases s.len(),
{
    if s.len() == 0 {
        Seq::empty()
    } else {
        insert_by_left(sort_by_left(s.drop_last()), s.last())
    }
}

proof fn lemma_first_left_above_range(s: Seq<Variant>, x: Variant)
    ensures
        0 <= first_left_above(s, x) <= s.len(),
    decreases s.len(),
{
    if s.len() > 0 && !(s.first().left_pos > x.left_pos) {
        lemma_first_left_above_range(s.drop_first(), x);
    }
}

proof fn lemma_first_left_above_is_split(s: Seq<Variant>, x: Variant, p: int)
    requires
        0 <= p <= s.len(),
        forall|m: int| 0 <= m < p ==> (#[trigger] s[m]).left_pos <= x.left_pos,
        p == s.len() || s[p].left_pos > x.left_pos,
    ensures
        first_left_above(s, x) == p,
    decreases s.len(),
{
    if s.len() > 0 && p != 0 {
        assert(forall|m: int|
            0 <= m < p - 1 ==> #[trigger] s.drop_first()[m] == s[m + 1]);
        lemma_first_left_above_is_split(s.drop_first(), x, p - 1);
    }
}

/// Sort candidate variants by left coordinate, stably.
pub fn sort_variants(v: &Vec<Variant>) -> (r: Vec<Variant>)
    ensures
        r@ == sort_by_left(v@),
{
    let mut sorted: Vec<Variant> = Vec::new();
    let mut i: usize = 0;
    while i < v.len()
        invariant
            i <= v@.len(),
            sorted@ == sort_by_left(v@.take(i as int)),
        decreases v@.len() - i,
    {
        let x = v[i];
        proof {
            assert(v@.take(i + 1 as int).drop_last() =~= v@.take(i as int));
            assert(v@.take(i + 1 as int).last() == v@[i as int]);
            lemma_first_left_above_range(sorted@, x);
        }
        let ghost s0 = sorted@;
        let mut p: usize = 0;
        while p < sorted.len() && sorted[p].left_pos <= x.left_pos
            invariant
                sorted@ == s0,
                p <= s0.len(),
                forall|m: int| 0 <= m < p ==> (#[trigger] s0[m]).left_pos <= x.left_pos,
            decreases s0.len() - p,
        {
            p = p + 1;
        }
        proof {
            lemma_first_left_above_is_split(s0, x, p as int);
        }
        sorted.insert(p, x);
        proof {
            assert(sorted@ =~= insert_by_left(s0, x));
        }
        i = i + 1;
    }
    proof {
        assert(v@.take(v@.len() as int) =~= v@);
    }
    sorted
}

/// Group consecutive variants into clusters: each returned pair is the
/// half-open index range of one cluster of `vs`.
pub fn cluster_spans(vs: &Vec<Variant>) -> (r: Vec<(usize, usize)>)
    requires
        vs@.len() < 0x1_0000_0000,
    ensures
        r@.map_values(|g: (usize, usize)| (g.0 as int, g.1 as int)) == spec_clusters(vs@),
{
    let mut groups: Vec<(usize, usize)> = Vec::new();
    let mut open: Option<(usize, i64, i64)> = None;
    let mut i: usize = 0;
    while i < vs.len()
        invariant
            i <= vs@.len(),
            vs@.len() < 0x1_0000_0000,
            ({
                let f = cluster_fold(vs@, i as int);
                &&& groups@.map_values(|g: (usize, usize)| (g.0 as int, g.1 as int)) == f.0
                &&& (match (open, f.1) {
                    (None, None) => true,
                    (Some(o), Some(sp)) => o.0 as int == sp.0 && o.1 as int == sp.1 && o.2 as int
                        == sp.2 && o.0 < i,
                    _ => false,
                })
            }),
        decreases vs@.len() - i,
    {
        let v = vs[i];
        let plo = (v.left_pos as i64) - CLUSTER_SLACK;
        let phi = (v.right_pos as i64) + CLUSTER_SLACK;
        match open {
            None => {
                open = Some((i, plo, phi));
            },
            Some((s, lo, hi)) => {
                let jl = if plo > lo {
                    plo
                } else {
                    lo
                };
                let jh = if phi < hi {
                    phi
                } else {
                    hi
                };
                if jl < jh {
                    let nlo = if plo < lo {
                        plo
                    } else {
                        lo
                    };
                    let nhi = if phi > hi {
                        phi
                    } else {
                        hi
                    };
                    open = Some((s, nlo, nhi));
                } else {
                    groups.push((s, i));
                    open = Some((i, plo, phi));
                }
            },
        }
        proof {
            let f = cluster_fold(vs@, i + 1 as int);
            assert(groups@.map_values(|g: (usize, usize)| (g.0 as int, g.1 as int)) =~= f.0);
        }
        i = i + 1;
    }
    match open {
        None => {
        },
        Some((s, lo, hi)) => {
            groups.push((s, vs.len()));
        },
    }
    proof {
        assert(groups@.map_values(|g: (usize, usize)| (g.0 as int, g.1 as int)) =~= spec_clusters(
            vs@,
        ));
    }
    groups
}

/// Does `sv` displace `best` as the cluster representative?
pub fn pick_better(best: &Variant, sv: &Variant, merged: bool) -> (r: bool)
    requires
        variant_bounded(*best),
        variant_bounded(*sv),
    ensures
        r == prefer(*best, *sv, merged),
{
    let tol_a: i64 = if merged {
        150_000
    } else {
        5_000
    };
    let tol_b: i64 = if merged {
        5_000
    } else {
        -1_000_000
    };
    let best_dev = abs_diff(best.mean_micro, (best.copy_num as i64) * HALF_MICRO);
    let sv_dev = abs_diff(sv.mean_micro, (sv.copy_num as i64) * HALF_MICRO);
    if abs_diff(best.pv_micro, sv.pv_micro) > tol_a {
        best.pv_micro < sv.pv_micro
    } else if best.boundary != sv.boundary {
        !best.boundary
    } else if abs_diff(best.pv_micro, sv.pv_micro) > tol_b {
        best.pv_micro < sv.pv_micro
    } else if abs_diff(best_dev, sv_dev) > 5_000 {
        best_dev > sv_dev
    } else if abs_diff(best.sd_micro, sv.sd_micro) > 5_000 {
        best.sd_micro > sv.sd_micro
    } else {
        false
    }
}

/// The representative of the cluster `vs[from..to]`.
pub fn pick_representative(vs: &Vec<Variant>, from: usize, to: usize) -> (r: Variant)
    requires
        from < to,
        to <= vs@.len(),
        forall|m: int| 0 <= m < vs@.len() ==> variant_bounded(#[trigger] vs@[m]),
    ensures
        r == best_in(vs@, from as int, to as int),
        variant_bounded(r),
{
    let mut best = vs[from];
    let mut m: usize = from + 1;
    while m < to
        invariant
            from < m <= to,
            to <= vs@.len(),
            forall|k: int| 0 <= k < vs@.len() ==> variant_bounded(#[trigger] vs@[k]),
            best == best_in(vs@, from as int, m as int),
            variant_bounded(best),
        decreases to - m,
    {
        let sv = vs[m];
        if pick_better(&best, &sv, false) {
            best = sv;
        }
        m = m + 1;
    }
    best
}

/// Executable absolute difference.
fn abs_diff(a: i64, b: i64) -> (r: i64)
    requires
        -0x4000_0000_0000_0000 < a - b < 0x4000_0000_0000_0000,
    ensures
        r as int == iabs(a - b),
{
    if a >= b {
        a - b
    } else {
        b - a
    }
}

/// LAW - Two variants whose padded spans overlap collapse into a single
/// cluster; two variants farther apart than twice the slack stay distinct.
pub proof fn lemma_cluster_pair(v1: Variant, v2: Variant, vs: Seq<Variant>)
    requires
        vs.len() == 2,
        vs[0] == v1,
        vs[1] == v2,
        v1.left_pos <= v2.left_pos,
    ensures
        joins(padded_lo(v1), padded_hi(v1), v2) ==> spec_clusters(vs) =~= seq![(0int, 2int)],
        v2.left_pos - v1.right_pos > 2 * CLUSTER_SLACK ==> spec_clusters(vs) =~= seq![
            (0int, 1int),
            (1int, 2int),
        ],
{
    assert(cluster_fold(vs, 0) == (Seq::<(int, int)>::empty(), None::<(int, int, int)>));
    let st1 = cluster_fold(vs, 1);
    assert(st1.0 =~= Seq::<(int, int)>::empty());
    assert(st1.1 == Some((0int, padded_lo(v1), padded_hi(v1))));
    let st2 = cluster_fold(vs, 2);
    if joins(padded_lo(v1), padded_hi(v1), v2) {
        assert(st2.0 =~= Seq::<(int, int)>::empty());
        assert(st2.1 is Some);
        assert(spec_clusters(vs) =~= st2.0.push((0int, 2int)));
    }
    if v2.left_pos - v1.right_pos > 2 * CLUSTER_SLACK {
        assert(padded_lo(v2) >= padded_hi(v1));
        assert(!joins(padded_lo(v1), padded_hi(v1), v2));
        assert(st2.0 =~= seq![(0int, 1int)]);
        assert(st2.1 == Some((1int, padded_lo(v2), padded_hi(v2))));
        assert(spec_clusters(vs) =~= st2.0.push((1int, 2int)));
    }
}

/// The candidate list is in ascending order of left coordinate.
pub open spec fn sorted_by_left(s: Seq<Variant>) -> bool {
    forall|i: int, j: int|
        0 <= i <= j < s.len() ==> (#[trigger] s[i]).left_pos <= (#[trigger] s[j]).left_pos
}

proof fn lemma_first_left_above_props(s: Seq<Variant>, x: Variant)
    ensures
        0 <= first_left_above(s, x) <= s.len(),
        forall|m: int|
            0 <= m < first_left_above(s, x) ==> (#[trigger] s[m]).left_pos <= x.left_pos,
        first_left_above(s, x) < s.len() ==> s[first_left_above(s, x)].left_pos > x.left_pos,
    decreases s.len(),
{
    if s.len() > 0 && !(s.first().left_pos > x.left_pos) {
        lemma_first_left_above_props(s.drop_first(), x);
        let p = first_left_above(s, x);
        assert forall|m: int| 0 <= m < p implies (#[trigger] s[m]).left_pos <= x.left_pos by {
            if m >= 1 {
                assert(s.drop_first()[m - 1] == s[m]);
            }
        }
        if p < s.len() {
            assert(s.drop_first()[p - 1] == s[p]);
        }
    }
}

proof fn lemma_insert_by_left_sorted(s: Seq<Variant>, x: Variant)
    requires
        sorted_by_left(s),
    ensures
        sorted_by_left(insert_by_left(s, x)),
        insert_by_left(s, x).len() == s.len() + 1,
{
    lemma_first_left_above_props(s, x);
    let p = first_left_above(s, x);
    let t = insert_by_left(s, x);
    assert forall|i: int, j: int| 0 <= i <= j < t.len() implies (#[trigger] t[i]).left_pos
        <= (#[trigger] t[j]).left_pos by {
        assert(forall|m: int| 0 <= m < p ==> t[m] == s[m]);
        assert(t[p] == x);
        assert(forall|m: int| p < m < t.len() ==> t[m] == s[m - 1]);
        if i < p && j > p {
            assert(s[i].left_pos <= x.left_pos);
            assert(s[j - 1].left_pos >= s[p].left_pos);
        }
        if i == p && j > p {
            assert(s[j - 1].left_pos >= s[p].left_pos);
        }
    }
}

/// LAW - The cluster pass sees its candidates in ascending order of left
/// coordinate.
pub proof fn lemma_sort_by_left_sorted(s: Seq<Variant>)
    ensures
        sorted_by_left(sort_by_left(s)),
        sort_by_left(s).len() == s.len(),
    decreases s.len(),
{
    if s.len() > 0 {
        lemma_sort_by_left_sorted(s.drop_last());
        lemma_insert_by_left_sorted(sort_by_left(s.drop_last()), s.last());
    }
}

/// Largest padded right edge over the first `i` variants.
pub open spec fn max_padded_hi(vs: Seq<Variant>, i: int) -> int
    decreases (if i <= 1 { 0int } else { i }),
{
    if i <= 1 {
        padded_hi(vs[0])
    } else {
        let m = max_padded_hi(vs, i - 1);
        if padded_hi(vs[i - 1]) > m {
            padded_hi(vs[i - 1])
        } else {
            m
        }
    }
}

/// After at least one variant, a group is always open, it started at an
/// earlier index, its span contains the padded span of the newest member,
/// and its right edge never exceeds the largest padded right edge seen.
proof fn lemma_fold_open(vs: Seq<Variant>, i: int)
    requires
        1 <= i <= vs.len(),
    ensures
        ({
            let st = cluster_fold(vs, i).1;
            &&& st is Some
            &&& 0 <= st.unwrap().0 < i
            &&& st.unwrap().1 <= padded_lo(vs[i - 1])
            &&& padded_hi(vs[i - 1]) <= st.unwrap().2
            &&& st.unwrap().2 <= max_padded_hi(vs, i)
        }),
    decreases i,
{
    if i == 1 {
        assert(cluster_fold(vs, 0) == (Seq::<(int, int)>::empty(), None::<(int, int, int)>));
        assert(max_padded_hi(vs, 1) == padded_hi(vs[0]));
    } else {
        lemma_fold_open(vs, i - 1);
        assert(max_padded_hi(vs, i) >= max_padded_hi(vs, i - 1));
        assert(max_padded_hi(vs, i) >= padded_hi(vs[i - 1]));
    }
}

/// Closed groups are only ever appended as the pass moves on.
proof fn lemma_groups_persist(vs: Seq<Variant>, t1: int, t2: int)
    requires
        0 <= t1 <= t2,
    ensures
        cluster_fold(vs, t1).0.len() <= cluster_fold(vs, t2).0.len(),
        forall|m: int|
            0 <= m < cluster_fold(vs, t1).0.len() ==> #[trigger] cluster_fold(vs, t2).0[m]
                == cluster_fold(vs, t1).0[m],
    decreases t2 - t1,
{
    if t1 < t2 {
        lemma_groups_persist(vs, t1, t2 - 1);
    }
}

/// Every closed group of the pass ends at the index of the variant that
/// refused to join it.
proof fn lemma_no_split_groups(vs: Seq<Variant>, i: int, t: int)
    requires
        0 <= i,
        i + 1 < vs.len(),
        joins(padded_lo(vs[i]), padded_hi(vs[i]), vs[i + 1]),
        0 <= t <= vs.len(),
    ensures
        forall|m: int|
            0 <= m < cluster_fold(vs, t).0.len() ==> (#[trigger] cluster_fold(vs, t).0[m]).1 != i
                + 1,
    decreases t,
{
    if t == 0 {
        assert(cluster_fold(vs, 0) == (Seq::<(int, int)>::empty(), None::<(int, int, int)>));
    } else {
        lemma_no_split_groups(vs, i, t - 1);
        if t == i + 2 {
            lemma_fold_open(vs, i + 1);
            let st = cluster_fold(vs, i + 1).1.unwrap();
            assert(joins(st.1, st.2, vs[i + 1]));
        }
        let prev = cluster_fold(vs, t - 1).0;
        assert forall|m: int|
            0 <= m < cluster_fold(vs, t).0.len() implies (#[trigger] cluster_fold(
            vs,
            t,
        ).0[m]).1 != i + 1 by {
            if m < prev.len() {
                assert(cluster_fold(vs, t).0[m] == prev[m]);
            } else {
                assert(cluster_fold(vs, t).0[m].1 == t - 1);
            }
        }
    }
}

/// LAW - Two neighbouring variants whose padded spans overlap always land
/// in the same cluster, whatever else surrounds them: no cluster boundary
/// falls between them.
pub proof fn lemma_overlap_joins_cluster(vs: Seq<Variant>, i: int)
    requires
        0 <= i,
        i + 1 < vs.len(),
        joins(padded_lo(vs[i]), padded_hi(vs[i]), vs[i + 1]),
    ensures
        forall|m: int|
            0 <= m < spec_clusters(vs).len() ==> (#[trigger] spec_clusters(vs)[m]).1 != i + 1,
{
    lemma_no_split_groups(vs, i, vs.len() as int);
    let f = cluster_fold(vs, vs.len() as int);
    match f.1 {
        None => {
        },
        Some((s, lo, hi)) => {
            assert forall|m: int|
                0 <= m < spec_clusters(vs).len() implies (#[trigger] spec_clusters(vs)[m]).1 != i
                + 1 by {
                if m < f.0.len() {
                    assert(spec_clusters(vs)[m] == f.0[m]);
                } else {
                    assert(spec_clusters(vs)[m] == (s, vs.len() as int));
                }
            }
        },
    }
}

/// LAW - A variant whose padded span starts at or past every earlier
/// padded right edge opens a new cluster, whatever else surrounds it: a
/// cluster boundary falls exactly before it.
pub proof fn lemma_gap_splits_cluster(vs: Seq<Variant>, i: int)
    requires
        0 <= i,
        i + 1 < vs.len(),
        forall|j: int| 0 <= j <= i ==> padded_lo(vs[i + 1]) >= padded_hi(#[trigger] vs[j]),
    ensures
        exists|m: int|
            0 <= m < spec_clusters(vs).len() && (#[trigger] spec_clusters(vs)[m]).1 == i + 1,
{
    lemma_fold_open(vs, i + 1);
    let st = cluster_fold(vs, i + 1).1.unwrap();
    lemma_max_phi_bound(vs, i + 1);
    assert(st.2 <= padded_lo(vs[i + 1]));
    assert(!joins(st.1, st.2, vs[i + 1]));
    let before = cluster_fold(vs, i + 1).0;
    assert(cluster_fold(vs, i + 2).0 == before.push((st.0, i + 1)));
    lemma_groups_persist(vs, i + 2, vs.len() as int);
    let f = cluster_fold(vs, vs.len() as int);
    assert(f.0[before.len() as int] == (st.0, i + 1));
    match f.1 {
        None => {
            assert(spec_clusters(vs)[before.len() as int] == (st.0, i + 1));
        },
        Some((s2, lo2, hi2)) => {
            assert(spec_clusters(vs)[before.len() as int] == (st.0, i + 1));
        },
    }
}

/// The largest padded right edge over a prefix is below any bound that
/// every member satisfies.
proof fn lemma_max_phi_bound(vs: Seq<Variant>, i: int)
    requires
        1 <= i,
        i + 1 <= vs.len(),
        forall|j: int| 0 <= j < i ==> padded_lo(vs[i]) >= padded_hi(#[trigger] vs[j]),
    ensures
        max_padded_hi(vs, i) <= padded_lo(vs[i]),
{
    lemma_max_phi_le(vs, i, padded_lo(vs[i]));
}

/// A bound on every member's padded right edge bounds the prefix maximum.
proof fn lemma_max_phi_le(vs: Seq<Variant>, i: int, b: int)
    requires
        1 <= i <= vs.len(),
        forall|j: int| 0 <= j < i ==> b >= padded_hi(#[trigger] vs[j]),
    ensures
        max_padded_hi(vs, i) <= b,
    decreases i,
{
    if i > 1 {
        lemma_max_phi_le(vs, i - 1, b);
    }
}

/// Sorting by left coordinate keeps exactly the given variants.
pub proof fn lemma_sort_by_left_elements(s: Seq<Variant>)
    ensures
        sort_by_left(s).len() == s.len(),
        forall|m: int|
            0 <= m < sort_by_left(s).len() ==> s.contains(#[trigger] sort_by_left(s)[m]),
    decreases s.len(),
{
    if s.len() > 0 {
        let t = s.drop_last();
        let x = s.last();
        lemma_sort_by_left_elements(t);
        lemma_first_left_above_range(sort_by_left(t), x);
        let p = first_left_above(sort_by_left(t), x);
        assert forall|m: int|
            0 <= m < sort_by_left(s).len() implies s.contains(#[trigger] sort_by_left(s)[m]) by {
            let e = sort_by_left(s)[m];
            if m == p {
                assert(e == x);
                assert(s[s.len() - 1] == x);
            } else {
                let m0 = if m < p {
                    m
                } else {
                    m - 1
                };
                assert(sort_by_left(t)[m0] == e);
                assert(t.contains(e));
                let k = choose|k: int| 0 <= k < t.len() && t[k] == e;
                assert(s[k] == e);
            }
        }
    }
}

/// Every cluster is a nonempty index range inside the candidate list.
pub proof fn lemma_clusters_ranges(vs: Seq<Variant>)
    ensures
        forall|m: int|
            0 <= m < spec_clusters(vs).len() ==> 0 <= (#[trigger] spec_clusters(vs)[m]).0
                && spec_clusters(vs)[m].0 < spec_clusters(vs)[m].1 && spec_clusters(vs)[m].1
                <= vs.len(),
{
    lemma_fold_ranges(vs, vs.len() as int);
    let f = cluster_fold(vs, vs.len() as int);
    match f.1 {
        None => {
        },
        Some((st, lo, hi)) => {
            assert forall|m: int|
                0 <= m < spec_clusters(vs).len() implies 0 <= (#[trigger] spec_clusters(
                vs,
            )[m]).0 && spec_clusters(vs)[m].0 < spec_clusters(vs)[m].1 && spec_clusters(vs)[m].1
                <= vs.len() by {
                if m < f.0.len() {
                    assert(spec_clusters(vs)[m] == f.0[m]);
                } else {
                    assert(spec_clusters(vs)[m] == (st, vs.len() as int));
                }
            }
        },
    }
}

/// Closed groups are nonempty in-range index spans; an open group starts
/// in range.
proof fn lemma_fold_ranges(vs: Seq<Variant>, t: int)
    requires
        0 <= t <= vs.len(),
    ensures
        forall|m: int|
            0 <= m < cluster_fold(vs, t).0.len() ==> 0 <= (#[trigger] cluster_fold(
                vs,
                t,
            ).0[m]).0 && cluster_fold(vs, t).0[m].0 < cluster_fold(vs, t).0[m].1 && cluster_fold(
                vs,
                t,
            ).0[m].1 < t,
        (cluster_fold(vs, t).1 matches Some(o) ==> 0 <= o.0 < t),
    decreases t,
{
    if t == 0 {
        assert(cluster_fold(vs, 0) == (Seq::<(int, int)>::empty(), None::<(int, int, int)>));
    } else {
        lemma_fold_ranges(vs, t - 1);
        let prev = cluster_fold(vs, t - 1).0;
        assert forall|m: int|
            0 <= m < cluster_fold(vs, t).0.len() implies 0 <= (#[trigger] cluster_fold(
            vs,
            t,
        ).0[m]).0 && cluster_fold(vs, t).0[m].0 < cluster_fold(vs, t).0[m].1 && cluster_fold(
            vs,
            t,
        ).0[m].1 < t by {
            if m < prev.len() {
                assert(cluster_fold(vs, t).0[m] == prev[m]);
            }
        }
    }
}

} // verus!
