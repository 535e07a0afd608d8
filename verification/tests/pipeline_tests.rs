use cnvcall::event_pair::EventPairProc;
use cnvcall::frontend::{select_event, Event, ModelScore, Side};
use cnvcall::scanner::{ReadInfo, Scanner};
use cnvcall::window::Window;

fn collect_window(win: &Window, width: usize) -> Vec<i64> {
    let mut it = win.iter(width);
    let mut out: Vec<i64> = Vec::new();
    loop {
        match it.get_next() {
            Some(v) => out.push(v),
            None => break,
        }
    }
    out
}

fn synthetic_reads() -> Vec<ReadInfo> {
    let mut reads: Vec<ReadInfo> = Vec::new();
    for k in 0..40u32 {
        let b = k * 7 % 180;
        let e = b + 20 + (k % 3);
        reads.push(ReadInfo {
            begin: b,
            end: e,
            length: e - b,
            mqual: if k % 11 == 0 { 0 } else { 60 },
            split: k % 13 == 0,
        });
    }
    reads
}

fn run_library_stages() -> (Vec<i64>, Vec<Event>, Vec<(Event, Event)>) {
    let reads = synthetic_reads();
    let scanner = Scanner::new(&reads, 220, "chrT");
    let depth = collect_window(scanner.get_corrected(), 4);

    let mut events: Vec<Event> = Vec::new();
    for (k, d) in depth.iter().enumerate() {
        let scores = vec![
            ModelScore { copy_num: 1, side: Side::Left, score: (*d - 3).abs() },
            ModelScore { copy_num: 1, side: Side::Right, score: (*d - 7).abs() },
        ];
        events.push(select_event(&scores, k as u32, *d as u32, 0));
    }

    let mut proc = EventPairProc::new(&vec![1u32], 100);
    let mut pairs: Vec<(Event, Event)> = Vec::new();
    for e in events.iter() {
        if let Some(p) = proc.push(*e) {
            pairs.push(p);
        }
    }
    (depth, events, pairs)
}

/// Running the library stages twice on identical synthetic read data
/// yields identical outputs.
#[test]
fn stages_are_deterministic() {
    let (d1, e1, p1) = run_library_stages();
    let (d2, e2, p2) = run_library_stages();
    assert_eq!(d1, d2);
    assert_eq!(e1, e2);
    assert_eq!(p1, p2);
}
