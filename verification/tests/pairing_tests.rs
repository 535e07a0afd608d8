use cnvcall::event_pair::EventPairProc;
use cnvcall::frontend::{make_linear_event, select_event, Event, ModelScore, Side};

fn ev(side: Side, score: i64, pos: u32, copy_num: u32) -> Event {
    Event { side, score, pos, copy_num, total_dep: 30, lowmq_dep: 0 }
}

/// A synthetic score stream with one exact local minimum per side emits
/// one left/right pair, exactly once.
#[test]
fn pairing_emits_single_pair() {
    let mut pairs: Vec<(Event, Event)> = Vec::new();
    let mut proc = EventPairProc::new(&vec![1u32], 1000);

    let left_min = ev(Side::Left, 5, 20, 1);
    let right_min = ev(Side::Right, 7, 40, 1);
    let stream = vec![
        ev(Side::Left, 50, 10, 1),
        left_min,
        ev(Side::Left, 60, 30, 1),
        right_min,
        ev(Side::Right, 80, 50, 1),
        ev(Side::Right, 90, 60, 1),
        ev(Side::Right, 85, 70, 1),
    ];
    for e in stream.into_iter() {
        if let Some(p) = proc.push(e) {
            pairs.push(p);
        }
    }
    assert_eq!(pairs.len(), 1);
    assert_eq!(pairs[0].0, left_min);
    assert_eq!(pairs[0].1, right_min);
    // A candidate pair always has its left event at the smaller
    // coordinate.
    assert!(pairs[0].0.pos < pairs[0].1.pos);
}

/// Events of a copy number outside the target set are ignored, and the
/// sides of an emitted pair always share one copy number.
#[test]
fn pairing_filters_copy_numbers() {
    let mut proc = EventPairProc::new(&vec![1u32, 3], 1000);
    let mut emitted: Vec<(Event, Event)> = Vec::new();
    let stream = vec![
        ev(Side::Left, 50, 10, 1),
        ev(Side::Left, 5, 20, 1),
        ev(Side::Left, 60, 30, 1),
        // A stray event of an untracked copy number: ignored entirely.
        ev(Side::Right, 1, 35, 9),
        // The right-side local minimum carries copy number 3, whose slot
        // has no pending left candidate: nothing may be emitted.
        ev(Side::Right, 7, 40, 3),
        ev(Side::Right, 80, 50, 3),
    ];
    for e in stream.into_iter() {
        if let Some(p) = proc.push(e) {
            emitted.push(p);
        }
    }
    assert_eq!(emitted.len(), 0);
}

/// Scores above the threshold never pair.
#[test]
fn pairing_respects_threshold() {
    let mut proc = EventPairProc::new(&vec![1u32], 6);
    let mut emitted = 0usize;
    let stream = vec![
        ev(Side::Left, 50, 10, 1),
        ev(Side::Left, 5, 20, 1),
        ev(Side::Left, 60, 30, 1),
        ev(Side::Right, 7, 40, 1), // right score 7 > limit 6
        ev(Side::Right, 80, 50, 1),
    ];
    for e in stream.into_iter() {
        if proc.push(e).is_some() {
            emitted += 1;
        }
    }
    assert_eq!(emitted, 0);
}

#[test]
fn select_event_picks_first_minimum() {
    let scores = vec![
        ModelScore { copy_num: 1, side: Side::Left, score: 30 },
        ModelScore { copy_num: 2, side: Side::Right, score: 10 },
        ModelScore { copy_num: 3, side: Side::Left, score: 10 },
        ModelScore { copy_num: 4, side: Side::Right, score: 40 },
    ];
    let e = select_event(&scores, 123, 55, 7);
    assert_eq!(e.copy_num, 2);
    assert_eq!(e.side, Side::Right);
    assert_eq!(e.score, 10);
    assert_eq!(e.pos, 123);
    assert_eq!(e.total_dep, 55);
    assert_eq!(e.lowmq_dep, 7);
}

#[test]
fn select_event_sentinel_on_empty() {
    let e = select_event(&Vec::new(), 9, 1, 2);
    assert_eq!(e.copy_num, u32::MAX);
    assert_eq!(e.side, Side::Left);
    assert_eq!(e.score, 0);
}

#[test]
fn make_linear_event_shapes_pair() {
    let (l, r) = make_linear_event(100, 900, 3);
    assert_eq!(l.side, Side::Left);
    assert_eq!(r.side, Side::Right);
    assert_eq!(l.pos, 100);
    assert_eq!(r.pos, 900);
    assert_eq!(l.copy_num, 3);
    assert_eq!(r.copy_num, 3);
}
