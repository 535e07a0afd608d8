use cnvcall::histogram::{Histogram, MICRO};
use cnvcall::scanner::{ReadInfo, Scanner};
use cnvcall::window::Window;

fn mk(begin: u32, end: u32, split: bool, qual: u32) -> ReadInfo {
    ReadInfo { begin, end, length: end - begin, mqual: qual, split }
}

fn collect_window(win: &Window, width: usize) -> Vec<i64> {
    let mut it = win.iter(width);
    let mut out: Vec<i64> = Vec::new();
    loop {
        match it.get_next() {
            Some(v) => out.push(v),
            None => break,
        }
    }
    out
}

#[test]
fn test_scanner() {
    let reads = vec![
        mk(1, 6, false, 100),
        mk(1, 5, false, 100),
        mk(2, 4, false, 100),
        mk(2, 7, false, 100),
        mk(3, 8, false, 100),
        mk(0, 10, true, 100),
        mk(0, 5, false, 0),
    ];

    let scanner = Scanner::new(&reads, 10, "Chr1");

    assert_eq!(scanner.get_common_read_length(), 5);

    assert_eq!(collect_window(scanner.get_corrected(), 2), vec![3, 5, 6, 6, 5, 3, 2, 1]);
    assert_eq!(collect_window(scanner.get_raw_window(), 2), vec![4, 6, 7, 7, 6, 4, 3, 2]);
    assert_eq!(
        collect_window(scanner.get_low_mq_window(), 2),
        vec![1, 1, 1, 1, 1, 0, 0, 0]
    );
    assert_eq!(scanner.get_chrom(), "Chr1");
}

/// `normalize(v)` for `v` below the cap is the exact rational
/// `v * count / weighted_total` in millionths.
#[test]
fn histogram_normalize_exact() {
    let mut h = Histogram::new(16);
    for v in [2u32, 2, 4, 8] {
        h.add(v);
    }
    // count = 4, weighted total = 16, average = 4.
    assert_eq!(h.get_average(), 4 * MICRO);
    // 2 / 4 = 0.5; 8 / 4 = 2.0; exact rational v * count * MICRO / total.
    assert_eq!(h.normalize(2), 500_000);
    assert_eq!(h.normalize(8), 2 * MICRO);
    assert_eq!(h.normalize(3), 3 * 4 * MICRO / 16);
    // At or above the cap the ratio falls back to exactly 1.
    assert_eq!(h.normalize(16), MICRO);
    assert_eq!(h.normalize(1000), MICRO);
}

/// Average recomputation is idempotent: repeated calls without `add`
/// return the identical value.
#[test]
fn histogram_average_idempotent() {
    let mut h = Histogram::new(32);
    for v in [1u32, 3, 3, 7, 31, 900] {
        h.add(v);
    }
    let a1 = h.get_average();
    let a2 = h.get_average();
    let a3 = h.get_average();
    assert_eq!(a1, a2);
    assert_eq!(a2, a3);
    h.add(5);
    let b1 = h.get_average();
    let b2 = h.get_average();
    assert_eq!(b1, b2);
}

/// Values above the cap land in the cap bucket.
#[test]
fn histogram_caps_values() {
    let mut h = Histogram::new(8);
    h.add(7);
    h.add(8);
    h.add(9000);
    assert_eq!(h.get_count(7), 1);
    assert_eq!(h.get_count(8), 2);
}
