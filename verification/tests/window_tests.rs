use cnvcall::window::Window;

fn collect_window(win: &Window, width: usize) -> Vec<i64> {
    let mut it = win.iter(width);
    let mut out: Vec<i64> = Vec::new();
    loop {
        match it.get_next() {
            Some(v) => out.push(v),
            None => break,
        }
    }
    out
}

fn sample_window() -> Window {
    let mut win = Window::new(15);
    win.accumulate(1, 5, 1);
    win.accumulate(2, 6, 1);
    win.accumulate(3, 9, 1);
    win.accumulate(2, 9, 1);
    win.accumulate(4, 6, 1);
    win
}

#[test]
fn window_iter() {
    let win = sample_window();

    let result = collect_window(&win, 3);
    let exp = [3, 4, 5, 5, 5, 4, 2, 2, 2, 0, 0, 0];
    for (actual, expected) in result.into_iter().zip(exp.into_iter()) {
        assert_eq!(actual, expected);
    }

    let result1 = collect_window(&win, 1);
    let exp1 = [1, 3, 4, 5, 4, 2, 2, 2, 0, 0, 0];
    for (actual, expected) in result1.into_iter().zip(exp1.into_iter()) {
        assert_eq!(actual, expected);
    }
}

#[test]
fn window_window_iter() {
    let win = sample_window();

    let result = collect_window(&win, 3);
    let exp = [3, 4, 5, 5, 5, 4, 2, 2, 2, 0, 0, 0];
    for (actual, expected) in result.into_iter().zip(exp.into_iter()) {
        assert_eq!(actual, expected);
    }

    let result1 = collect_window(&win, 1);
    let exp1 = [1, 3, 4, 5, 4, 2, 2, 2, 0, 0, 0];
    for (actual, expected) in result1.into_iter().zip(exp1.into_iter()) {
        assert_eq!(actual, expected);
    }
}

/// Every moving-window value equals the brute-force count of intervals
/// intersecting the window.
#[test]
fn window_matches_brute_force() {
    let intervals: [(usize, usize, i64); 6] =
        [(1, 5, 1), (2, 6, 2), (3, 9, 1), (2, 9, 3), (4, 6, 1), (0, 12, 2)];
    let range = 20usize;
    let mut win = Window::new(range);
    for (b, e, w) in intervals.iter() {
        win.accumulate(*b, *e, *w);
    }
    for width in [2usize, 3, 5, 7, 11] {
        let got = collect_window(&win, width);
        assert_eq!(got.len(), range + 1 - 1 - width);
        for (k, v) in got.iter().enumerate() {
            let mut brute: i64 = 0;
            for (b, e, w) in intervals.iter() {
                if *b < k + width && *e > k {
                    brute += *w;
                }
            }
            assert_eq!(*v, brute, "width {} at {}", width, k);
        }
    }

    // Width 1 yields the exact per-coordinate depth, one value per
    // coordinate starting at 1, even for intervals starting at 0, and
    // never a negative value.
    let got1 = collect_window(&win, 1);
    assert_eq!(got1.len(), range);
    for (k, v) in got1.iter().enumerate() {
        let mut brute: i64 = 0;
        for (b, e, w) in intervals.iter() {
            if *b <= k + 1 && k + 1 < *e {
                brute += *w;
            }
        }
        assert_eq!(*v, brute, "width 1 at {}", k);
        assert!(*v >= 0);
    }
}

/// Dumping and reloading an accumulator reproduces identical
/// moving-window output for any width.
#[test]
fn dump_load_round_trip() {
    let win = sample_window();
    let bytes = win.try_dump();
    let loaded = Window::try_load(&bytes).expect("round trip must parse");
    for width in [1usize, 2, 3, 4, 8] {
        assert_eq!(collect_window(&win, width), collect_window(&loaded, width));
    }
    assert_eq!(win.try_dump(), loaded.try_dump());
}

#[test]
fn load_rejects_malformed() {
    assert!(Window::try_load(&vec![0u8; 4]).is_none());
    assert!(Window::try_load(&vec![0u8; 8]).is_none());
    let win = sample_window();
    let mut bytes = win.try_dump();
    bytes.pop();
    assert!(Window::try_load(&bytes).is_none());
}
