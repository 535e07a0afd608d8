//! Frontend of the event stream: breakpoint evidence records and the
//! selection of the best-fitting copy-number hypothesis per coordinate.
//!
//! Model fit scores are carried as plain ordered keys (`i64`, lower is a
//! better fit); whatever numeric model produces them, the selection logic
//! here only compares them.

use vstd::prelude::*;

verus! {

/// Which side of a copy-number event a hypothesis describes.
#[derive(Clone, Copy, Debug, PartialEq, Eq, Structural)]
pub enum Side {
    Left,
    Right,
}

/// One breakpoint-evidence record, emitted per coordinate.  A `copy_num` of
/// `u32::MAX` is the sentinel for "no hypothesis fired" and is filtered by
/// consumers.
#[derive(Clone, Copy, Debug, PartialEq, Eq, Structural)]
pub struct Event {
    pub side: Side,
    /// Fit score of the winning hypothesis; an ordered key, lower is better.
    pub score: i64,
    pub pos: u32,
    pub copy_num: u32,
    pub total_dep: u32,
    pub lowmq_dep: u32,
}

/// The score one hypothesis model reports at the current coordinate.
#[derive(Clone, Copy, Debug, PartialEq, Eq, Structural)]
pub struct ModelScore {
    pub copy_num: u32,
    pub side: Side,
    pub score: i64,
}

/// Configuration of one chromosome's pipeline run.
#[derive(Clone, Debug)]
pub struct FrontendParam {
    pub alignment: String,
    pub scanner_dump: String,
    pub no_scanner_dump: bool,
    pub chrom: u32,
    pub copy_nums: Vec<u32>,
    pub window_size: u32,
    pub dump_fe: Option<String>,
    pub dump_ep: Option<String>,
}

/// The winning score of a scan over `s`: each candidate replaces the
/// current best only when strictly lower, so ties keep the earliest.
pub open spec fn best_of(s: Seq<ModelScore>) -> ModelScore
    recommends
        s.len() >= 1,
    decreases s.len(),
{
    if s.len() <= 1 {
        s[0]
    } else {
        let b = best_of(s.drop_last());
        if b.score > s.last().score {
            s.last()
        } else {
            b
        }
    }
}

/// The sentinel event emitted when no hypothesis model exists.
pub open spec fn sentinel_event(pos: u32, total_dep: u32, lowmq_dep: u32) -> Event {
    Event {
        side: Side::Left,
        score: 0,
        pos,
        copy_num: u32::MAX,
        total_dep,
        lowmq_dep,
    }
}

/// Scan all model scores for a coordinate and emit the evidence record of
/// the best-fitting hypothesis, or the sentinel record when there is none.
pub fn select_event(scores: &Vec<ModelScore>, pos: u32, total_dep: u32, lowmq_dep: u32) -> (r:
    Event)
    ensures
        scores@.len() == 0 ==> r == sentinel_event(pos, total_dep, lowmq_dep),
        scores@.len() >= 1 ==> ({
            let b = best_of(scores@);
            r == (Event {
                side: b.side,
                score: b.score,
                pos,
                copy_num: b.copy_num,
                total_dep,
                lowmq_dep,
            })
        }),
{
    if scores.len() == 0 {
        return Event {
            side: Side::Left,
            score: 0,
            pos,
            copy_num: u32::MAX,
            total_dep,
            lowmq_dep,
        };
    }
    let mut best = scores[0];
    let mut i: usize = 1;
    while i < scores.len()
        invariant
            1 <= i <= scores@.len(),
            best == best_of(scores@.take(i as int)),
        decreases scores@.len() - i,
    {
        let cur = scores[i];
        proof {
            assert(scores@.take(i + 1 as int).drop_last() =~= scores@.take(i as int));
            assert(scores@.take(i + 1 as int).last() == scores@[i as int]);
        }
        if best.score > cur.score {
            best = cur;
        }
        i = i + 1;
    }
    proof {
        assert(scores@.take(scores@.len() as int) =~= scores@);
    }
    Event {
        side: best.side,
        score: best.score,
        pos,
        copy_num: best.copy_num,
        total_dep,
        lowmq_dep,
    }
}

/// Build a synthetic left/right event pair over a span, used to re-test a
/// merged cluster span as if it were one candidate.
pub fn make_linear_event(left: u32, right: u32, copy_num: u32) -> (r: (Event, Event))
    ensures
        r.0 == (Event {
            side: Side::Left,
            score: 0,
            pos: left,
            copy_num,
            total_dep: 0,
            lowmq_dep: 0,
        }),
        r.1 == (Event {
            side: Side::Right,
            score: 0,
            pos: right,
            copy_num,
            total_dep: 0,
            lowmq_dep: 0,
        }),
{
    let l = Event {
        side: Side::Left,
        score: 0,
        pos: left,
        copy_num,
        total_dep: 0,
        lowmq_dep: 0,
    };
    let r = Event {
        side: Side::Right,
        score: 0,
        pos: right,
        copy_num,
        total_dep: 0,
        lowmq_dep: 0,
    };
    (l, r)
}

/// Number of warm-up samples fed to every model before the first event is
/// emitted: one full window plus the common read length.
pub fn warmup_len(window_size: u32, common_read_length: u32) -> (r: u32)
    requires
        window_size + common_read_length <= u32::MAX,
    ensures
        r == window_size + common_read_length,
{
    window_size + common_read_length
}

} // verus!
