//! Event pairing: a three-tap local-minimum detector over the event stream
//! and the matching of left to right breakpoint evidence per copy number.
//!
//! Every emitted pair joins a pending left event and the current right
//! event of the same copy number; a confirmed pair evicts competing pending
//! candidates with worse scores, on the assumption that events of distinct
//! copy numbers do not overlap.

use crate::frontend::{Event, Side};
use vstd::prelude::*;

verus! {

/// The rolling three-event buffer after `ev` arrives.
pub open spec fn shifted(r: Seq<Event>, ev: Event) -> Seq<Event> {
    if r.len() == 3 {
        r.subrange(1, 3).push(ev)
    } else {
        r.push(ev)
    }
}

/// The middle of three buffered events is a strict local score minimum.
pub open spec fn local_min(r: Seq<Event>) -> bool {
    r[1].score < r[0].score && r[1].score < r[2].score
}

/// Pending left candidates after a confirmed pair with left score `cutoff`:
/// every candidate with a strictly worse score is evicted.
pub open spec fn pruned(p: Seq<Option<Event>>, cutoff: i64) -> Seq<Option<Event>> {
    Seq::new(
        p.len(),
        |c: int|
            match p[c] {
                Some(e) => if e.score > cutoff {
                    None
                } else {
                    Some(e)
                },
                None => None,
            },
    )
}

/// Largest copy number in the target set.
pub open spec fn max_copy_of(s: Seq<u32>) -> int
    decreases s.len(),
{
    if s.len() == 0 {
        0
    } else {
        let m = max_copy_of(s.drop_last());
        if s.last() as int > m {
            s.last() as int
        } else {
            m
        }
    }
}

pub struct EventPairProc {
    left_side: Vec<Option<Event>>,
    last_pos: u32,
    recent: Vec<Event>,
    max_copy_num: u32,
    score_limit: i64,
}

impl EventPairProc {
    /// Pending left candidate per copy number.
    pub closed spec fn pending(self) -> Seq<Option<Event>> {
        self.left_side@
    }

    /// The rolling buffer of the most recent qualifying events.
    pub closed spec fn recent_events(self) -> Seq<Event> {
        self.recent@
    }

    /// Coordinate of the newest event of the last full buffer.
    pub closed spec fn last_seen_pos(self) -> int {
        self.last_pos as int
    }

    pub closed spec fn max_copy(self) -> int {
        self.max_copy_num as int
    }

    /// A score passes the pairing threshold when it does not exceed this
    /// limit.
    pub closed spec fn limit(self) -> int {
        self.score_limit as int
    }

    pub open spec fn wf(self) -> bool {
        &&& self.pending().len() == self.max_copy() + 1
        &&& self.recent_events().len() <= 3
        &&& self.last_seen_pos() < u32::MAX
        &&& (forall|c: int|
            0 <= c < self.pending().len() ==> match #[trigger] self.pending()[c] {
                Some(e) => e.side == Side::Left && e.copy_num as int == c
                    && self.recent_events().len() >= 1 && e.pos
                    < self.recent_events().last().pos,
                None => true,
            })
        &&& (forall|m: int|
            0 <= m < self.recent_events().len() ==> (#[trigger] self.recent_events()[m]).copy_num
                as int <= self.max_copy())
        &&& (forall|i: int, j: int|
            0 <= i < j < self.recent_events().len() ==> (#[trigger] self.recent_events()[i]).pos
                < (#[trigger] self.recent_events()[j]).pos)
    }

    /// Start pairing for the given target copy numbers.  An event score
    /// passes the threshold when it is at most `score_limit`.
    pub fn new(copy_nums: &Vec<u32>, score_limit: i64) -> (p: EventPairProc)
        requires
            max_copy_of(copy_nums@) < 0x10000,
        ensures
            p.wf(),
            p.pending() =~= Seq::new((max_copy_of(copy_nums@) + 1) as nat, |c: int| None::<Event>),
            p.recent_events() =~= Seq::<Event>::empty(),
            p.last_seen_pos() == 0,
            p.max_copy() == max_copy_of(copy_nums@),
            p.limit() == score_limit,
    {
        let mut max_copy_num: u32 = 0;
        let mut i: usize = 0;
        while i < copy_nums.len()
            invariant
                i <= copy_nums@.len(),
                max_copy_num as int == max_copy_of(copy_nums@.take(i as int)),
                max_copy_of(copy_nums@.take(i as int)) <= max_copy_of(copy_nums@),
            decreases copy_nums@.len() - i,
        {
            proof {
                assert(copy_nums@.take(i + 1 as int).drop_last() =~= copy_nums@.take(i as int));
                assert(copy_nums@.take(i + 1 as int).last() == copy_nums@[i as int]);
                lemma_max_copy_prefix(copy_nums@, i + 1 as int);
            }
            let c = copy_nums[i];
            if c > max_copy_num {
                max_copy_num = c;
            }
            i = i + 1;
        }
        proof {
            assert(copy_nums@.take(copy_nums@.len() as int) =~= copy_nums@);
        }
        let mut left_side: Vec<Option<Event>> = Vec::new();
        let mut c: usize = 0;
        let slots = (max_copy_num as usize) + 1;
        while c < slots
            invariant
                c <= slots,
                left_side@.len() == c,
                forall|m: int| 0 <= m < c ==> #[trigger] left_side@[m] is None,
            decreases slots - c,
        {
            left_side.push(None);
            c = c + 1;
        }
        EventPairProc { left_side, last_pos: 0, recent: Vec::new(), max_copy_num, score_limit }
    }

    /// Feed the next event of the stream; emits a candidate pair when the
    /// previous event is a strict local score minimum of side `Right` whose
    /// copy number has a pending left candidate and both scores pass the
    /// threshold.  The stream arrives one event per coordinate, so each
    /// event's position must exceed every buffered one.  An emitted pair
    /// always joins a left and a right event of the same copy number, the
    /// left one at the smaller coordinate.
    #[verifier::loop_isolation(false)]
    pub fn push(&mut self, ev: Event) -> (r: Option<(Event, Event)>)
        requires
            old(self).wf(),
            ev.pos < u32::MAX,
            old(self).recent_events().len() == 0 || (ev.pos as int) > old(
                self,
            ).recent_events().last().pos,
        ensures
            final(self).wf(),
            final(self).max_copy() == old(self).max_copy(),
            final(self).limit() == old(self).limit(),
            ({
                let rec2 = shifted(old(self).recent_events(), ev);
                let full = rec2.len() == 3 && local_min(rec2);
                let apart = old(self).last_seen_pos() + 1 != rec2[2].pos as int;
                let mid = rec2[1];
                let cn = mid.copy_num as int;
                if ev.copy_num as int > old(self).max_copy() {
                    &&& r is None
                    &&& final(self).recent_events() == old(self).recent_events()
                    &&& final(self).pending() == old(self).pending()
                    &&& final(self).last_seen_pos() == old(self).last_seen_pos()
                } else {
                    &&& final(self).recent_events() == rec2
                    &&& final(self).last_seen_pos() == (if full {
                        rec2[2].pos as int
                    } else {
                        old(self).last_seen_pos()
                    })
                    &&& (if full && apart && mid.side == Side::Left {
                        &&& r is None
                        &&& final(self).pending() == (match old(self).pending()[cn] {
                            None => old(self).pending().update(cn, Some(mid)),
                            Some(prev) => if prev.score > mid.score {
                                old(self).pending().update(cn, Some(mid))
                            } else {
                                old(self).pending()
                            },
                        })
                    } else if full && apart && mid.side == Side::Right {
                        match old(self).pending()[cn] {
                            Some(ls) => if ls.score <= old(self).limit() && mid.score <= old(
                                self,
                            ).limit() {
                                &&& r == Some((ls, mid))
                                &&& final(self).pending() == pruned(
                                    old(self).pending().update(cn, None),
                                    ls.score,
                                )
                            } else {
                                r is None && final(self).pending() == old(self).pending()
                            },
                            None => r is None && final(self).pending() == old(self).pending(),
                        }
                    } else {
                        r is None && final(self).pending() == old(self).pending()
                    })
                }
            }),
            (r matches Some(pr) ==> pr.0.side == Side::Left && pr.1.side == Side::Right
                && pr.0.copy_num == pr.1.copy_num && pr.0.pos < pr.1.pos && pr.0.score <= old(
                self,
            ).limit() && pr.1.score <= old(self).limit()),
    {
        if ev.copy_num > self.max_copy_num {
            return None;
        }
        let ghost rec0 = self.recent@;
        if self.recent.len() == 3 {
            self.recent.remove(0);
        }
        self.recent.push(ev);
        proof {
            assert(self.recent@ =~= shifted(rec0, ev));
        }
        let mut ret: Option<(Event, Event)> = None;
        if self.recent.len() == 3 && self.recent[1].score < self.recent[0].score
            && self.recent[1].score < self.recent[2].score {
            let current = self.recent[1];
            let cn = current.copy_num as usize;
            if self.last_pos + 1 != self.recent[2].pos {
                match current.side {
                    Side::Left => {
                        let replace = match &self.left_side[cn] {
                            None => true,
                            Some(prev) => prev.score > current.score,
                        };
                        if replace {
                            self.left_side.set(cn, Some(current));
                        }
                    },
                    Side::Right => {
                        let emit = match &self.left_side[cn] {
                            Some(ls) => ls.score <= self.score_limit && current.score
                                <= self.score_limit,
                            None => false,
                        };
                        if emit {
                            let ls = self.left_side[cn].unwrap();
                            ret = Some((ls, current));
                            self.left_side.set(cn, None);
                            prune_pending(&mut self.left_side, ls.score);
                        }
                    },
                }
            }
            self.last_pos = self.recent[2].pos;
        }
        ret
    }
}

/// Evict every pending candidate whose score is strictly worse than the
/// cutoff.
fn prune_pending(v: &mut Vec<Option<Event>>, cutoff: i64)
    ensures
        final(v)@ == pruned(old(v)@, cutoff),
{
    let ghost before = v@;
    let mut j: usize = 0;
    while j < v.len()
        invariant
            j <= v@.len(),
            v@.len() == before.len(),
            forall|m: int| j <= m < before.len() ==> #[trigger] v@[m] == before[m],
            forall|m: int| 0 <= m < j ==> #[trigger] v@[m] == pruned(before, cutoff)[m],
        decreases v@.len() - j,
    {
        let clear = match &v[j] {
            Some(e) => e.score > cutoff,
            None => false,
        };
        if clear {
            v.set(j, None);
        }
        j = j + 1;
    }
    proof {
        assert(v@ =~= pruned(before, cutoff));
    }
}

proof fn lemma_max_copy_prefix(s: Seq<u32>, i: int)
    requires
        0 <= i <= s.len(),
    ensures
        max_copy_of(s.take(i)) <= max_copy_of(s),
    decreases s.len() - i,
{
    if i < s.len() {
        lemma_max_copy_prefix(s, i + 1);
        assert(s.take(i + 1).drop_last() =~= s.take(i));
    } else {
        assert(s.take(i) =~= s);
    }
}

} // verus!
