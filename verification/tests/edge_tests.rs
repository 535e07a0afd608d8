use cnvcall::cluster::{cluster_spans, pick_better, pick_representative, sort_variants};
use cnvcall::edge::{scan_edge_in_range, EdgeDetector, Variant, MEAN_TOL};
use cnvcall::frontend::{make_linear_event, Side};
use cnvcall::histogram::MICRO;
use cnvcall::scanner::{ReadInfo, Scanner};
use cnvcall::validate::pv_range;

/// A depth profile with one deletion: baseline 100, depth 50 over
/// `[3000, 5000)`, chromosome length 10000.
fn deletion_profile() -> (Vec<i64>, Vec<i64>) {
    let mut raw: Vec<i64> = vec![100; 10000];
    for j in 3000..5000 {
        raw[j] = 50;
    }
    let lmq: Vec<i64> = vec![0; 10000];
    (raw, lmq)
}

#[test]
fn scan_finds_change_points() {
    let (raw, _) = deletion_profile();
    // Left side of a deletion: a depth drop reads positive.
    let cands = scan_edge_in_range(&raw, 2990, Side::Left, 1, 20, 20, 5);
    assert_eq!(cands.len(), 1);
    assert_eq!(cands[0], (3000, 50));
    // Right side of a deletion: a depth rise reads positive.
    let cands_r = scan_edge_in_range(&raw, 5010, Side::Right, 1, 20, 20, 5);
    assert_eq!(cands_r.len(), 1);
    assert_eq!(cands_r[0], (5000, 50));
    // Neutral copy number 2 has no oriented signal.
    let flat = scan_edge_in_range(&raw, 2990, Side::Left, 2, 20, 20, 5);
    assert_eq!(flat.len(), 0);
}

#[test]
fn detect_edge_refines_deletion() {
    let (raw, lmq) = deletion_profile();
    let det = EdgeDetector::new(raw, lmq, 20, 100, &vec![1u32, 3], 200_000);
    let pair = make_linear_event(2990, 5010, 1);
    let v = det.detect_edge(&pair).expect("deletion must be detected");
    assert_eq!(v.left_pos, 3000);
    assert_eq!(v.right_pos, 5000);
    assert_eq!(v.copy_num, 1);
    assert!(v.boundary);
    assert_eq!(v.sd_micro, 0);
    // Normalized mean: 50 * 10000 * MICRO / 900000 = 555555, within 0.2 of
    // the expected ratio 0.5 for copy number 1.
    assert_eq!(v.mean_micro, 555_555);
    assert!((v.mean_micro - 500_000).abs() < MEAN_TOL);
    assert_eq!(v.pv_micro, MICRO);
}

#[test]
fn detect_edge_rejects_flat_signal() {
    let raw: Vec<i64> = vec![100; 10000];
    let lmq: Vec<i64> = vec![0; 10000];
    let det = EdgeDetector::new(raw, lmq, 20, 100, &vec![1u32], 200_000);
    let pair = make_linear_event(2990, 5010, 1);
    // No change points anywhere: no variant.
    assert!(det.detect_edge(&pair).is_none());
}

#[test]
fn validation_threshold_drops_variant() {
    let (raw, lmq) = deletion_profile();
    let det = EdgeDetector::new(raw, lmq, 20, 100, &vec![1u32], 200_000);
    let v = Variant {
        left_pos: 3000,
        right_pos: 5000,
        copy_num: 1,
        mean_micro: 500_000,
        sd_micro: 0,
        pv_micro: MICRO,
        boundary: true,
    };
    assert!(det.apply_validation(&v, 100_000).is_none());
    let kept = det.apply_validation(&v, 900_000).unwrap();
    assert_eq!(kept.pv_micro, 900_000);
}

fn var(left: u32, right: u32, pv: i64, boundary: bool, sd: i64) -> Variant {
    Variant {
        left_pos: left,
        right_pos: right,
        copy_num: 1,
        mean_micro: 500_000,
        sd_micro: sd,
        pv_micro: pv,
        boundary,
    }
}

/// Two variants with overlapping padded spans collapse to one cluster;
/// two variants farther apart than twice the slack stay distinct.
#[test]
fn cluster_merges_overlapping_spans() {
    let close = vec![var(10_000, 12_000, MICRO, true, 0), var(12_500, 13_000, MICRO, true, 0)];
    let spans = cluster_spans(&close);
    assert_eq!(spans, vec![(0usize, 2usize)]);

    let far = vec![var(10_000, 12_000, MICRO, true, 0), var(14_500, 15_000, MICRO, true, 0)];
    let spans_far = cluster_spans(&far);
    assert_eq!(spans_far, vec![(0usize, 1usize), (1usize, 2usize)]);
}

#[test]
fn cluster_sorts_and_picks_representative() {
    let a = var(20_000, 21_000, 400_000, true, 5_000);
    let b = var(10_000, 11_000, 900_000, true, 5_000);
    let sorted = sort_variants(&vec![a, b]);
    assert_eq!(sorted[0], b);
    assert_eq!(sorted[1], a);

    // Higher validation score wins when the difference exceeds the
    // fine tolerance.
    let c = var(10_000, 11_000, 100_000, true, 5_000);
    let d = var(10_100, 11_100, 900_000, true, 5_000);
    let best = pick_representative(&vec![c, d], 0, 2);
    assert_eq!(best, d);

    // Edge-scan boundaries beat direct-threshold ones when scores tie.
    let e = var(10_000, 11_000, 500_000, false, 5_000);
    let f = var(10_100, 11_100, 500_000, true, 5_000);
    let best2 = pick_representative(&vec![e, f], 0, 2);
    assert_eq!(best2, f);

    // In a merged comparison, the lower variance wins once every other
    // criterion ties.
    let g = var(10_000, 11_000, 500_000, true, 50_000);
    let h = var(10_100, 11_100, 500_000, true, 1_000);
    assert!(pick_better(&g, &h, true));
    assert!(!pick_better(&h, &g, true));
}


/// A scan whose window would start before the chromosome is clamped to
/// coordinate 0 and still finds early change points.
#[test]
fn scan_clamps_at_chromosome_start() {
    let mut raw: Vec<i64> = vec![100; 200];
    for j in 0..3 {
        raw[j] = 100;
    }
    for j in 3..60 {
        raw[j] = 50;
    }
    // pos 5 with a reach of 20 would start at -15; the scan starts at 0.
    let cands = scan_edge_in_range(&raw, 5, Side::Left, 1, 20, 20, 5);
    assert_eq!(cands.len(), 1);
    assert_eq!(cands[0], (3, 50));
}

/// The verified materializer hands the detector exactly the scanner's
/// width-1 depth streams.
#[test]
fn detector_from_scanner_streams() {
    let reads = vec![
        ReadInfo { begin: 0, end: 60, length: 60, mqual: 60, split: false },
        ReadInfo { begin: 30, end: 90, length: 60, mqual: 0, split: false },
        ReadInfo { begin: 10, end: 70, length: 60, mqual: 60, split: true },
    ];
    let scanner = Scanner::new(&reads, 100, "chrM");
    let det = EdgeDetector::from_scanner(&scanner, 10, &vec![1u32], 200_000)
        .expect("plain unit-weight coverage materializes");
    // Raw depth at coordinate 31 is 3 (all reads cover it); at 75 it is 1.
    let raw = collect_window(scanner.get_raw_window(), 1);
    assert_eq!(raw[30], 3);
    assert_eq!(raw[74], 1);
    assert!(raw.iter().all(|v| *v >= 0));
    // The read starting at coordinate 0 counts toward every depth value it
    // covers: at coordinate 1 (the first width-1 output) it is the only
    // cover.
    assert_eq!(raw[0], 1);
    let _ = det;
}

fn collect_window(win: &cnvcall::window::Window, width: usize) -> Vec<i64> {
    let mut it = win.iter(width);
    let mut out: Vec<i64> = Vec::new();
    loop {
        match it.get_next() {
            Some(v) => out.push(v),
            None => break,
        }
    }
    out
}

/// The padded validation range: a hundred times the span, clamped into
/// `[10000, 100000]`, never before coordinate 0.
#[test]
fn validation_range_formula() {
    // Small span: the floor of 10000 applies, clamped by the left edge.
    assert_eq!(pv_range(4000, 4010), (0, 8010));
    // Small span away from the start: the floor applies fully.
    assert_eq!(pv_range(50_000, 50_010), (40_000, 60_010));
    // Large span: the ceiling of 100000 applies.
    assert_eq!(pv_range(500_000, 550_000), (400_000, 650_000));
    // Mid span: exactly one hundred times the span.
    assert_eq!(pv_range(100_000, 100_500), (50_000, 150_500));
}

/// The validation driver: without an alignment store the score stays at
/// the passing default and the threshold still applies; with an empty
/// read set every corrected ratio is zero and the trimmed-rank score is
/// exactly 1.
#[test]
fn validate_variant_drives_threshold() {
    let (raw, lmq) = deletion_profile();
    let v = Variant {
        left_pos: 20_000,
        right_pos: 20_010,
        copy_num: 1,
        mean_micro: 500_000,
        sd_micro: 0,
        pv_micro: MICRO,
        boundary: true,
    };
    let det = EdgeDetector::new(raw.clone(), lmq.clone(), 20, 100, &vec![1u32], 200_000);
    // No store: validation skipped with a passing score.
    let kept = det.validate_variant(&v, None).expect("passing score is kept");
    assert_eq!(kept.pv_micro, MICRO);
    // A threshold above the passing score drops the variant.
    let strict = EdgeDetector::new(raw.clone(), lmq.clone(), 20, 100, &vec![1u32], 2 * MICRO);
    assert!(strict.validate_variant(&v, None).is_none());
    // An empty region read set: all ratios are 0, both trim boundaries
    // rank at 0 of the background, and the score is exactly 1.
    let kept2 = det
        .validate_variant(&v, Some(&Vec::new()))
        .expect("uniform region scores exactly one");
    assert_eq!(kept2.pv_micro, MICRO);
    // Duplications are not validated: the score stays at the default.
    let dup = Variant { copy_num: 3, ..v };
    let kept3 = det.validate_variant(&dup, Some(&Vec::new())).unwrap();
    assert_eq!(kept3.pv_micro, MICRO);
}

/// A reloaded scanner reproduces the original's streams.
#[test]
fn scanner_from_parts_round_trip() {
    let reads = vec![
        ReadInfo { begin: 1, end: 6, length: 5, mqual: 100, split: false },
        ReadInfo { begin: 2, end: 7, length: 5, mqual: 0, split: false },
    ];
    let sc = Scanner::new(&reads, 10, "chrR");
    let corrected = cnvcall::window::Window::try_load(&sc.get_corrected().try_dump()).unwrap();
    let low_mq = cnvcall::window::Window::try_load(&sc.get_low_mq_window().try_dump()).unwrap();
    let raw = cnvcall::window::Window::try_load(&sc.get_raw_window().try_dump()).unwrap();
    let sc2 = Scanner::from_parts(
        corrected,
        low_mq,
        raw,
        sc.get_common_read_length(),
        sc.get_common_read_length_count(),
        sc.get_chrom(),
    )
    .expect("windows cover one range");
    assert_eq!(sc2.get_chrom(), "chrR");
    assert_eq!(sc2.get_common_read_length(), sc.get_common_read_length());
    assert_eq!(
        collect_window(sc2.get_corrected(), 2),
        collect_window(sc.get_corrected(), 2)
    );
    assert_eq!(collect_window(sc2.get_raw_window(), 1), collect_window(sc.get_raw_window(), 1));
}

/// The verified driver chains detection, validation and the threshold;
/// without a store the detected deletion keeps the passing score.
#[test]
fn detect_validated_matches_detection() {
    let (raw, lmq) = deletion_profile();
    let det = EdgeDetector::new(raw, lmq, 20, 100, &vec![1u32, 3], 200_000);
    let pair = make_linear_event(2990, 5010, 1);
    let direct = det.detect_edge(&pair).unwrap();
    let driven = det.detect_validated(&pair, None, true).unwrap();
    assert_eq!(driven.left_pos, direct.left_pos);
    assert_eq!(driven.right_pos, direct.right_pos);
    assert_eq!(driven.copy_num, direct.copy_num);
    assert_eq!(driven.pv_micro, MICRO);
    assert!(driven.pv_micro >= 200_000);
}

/// The repositioning search ends in a full detection pass on the moved
/// pair.
#[test]
fn extend_region_redetects() {
    let (raw, lmq) = deletion_profile();
    let det = EdgeDetector::new(raw, lmq, 20, 100, &vec![1u32], 200_000);
    let pair = make_linear_event(2995, 5005, 1);
    let v = det.extend_region(&pair, 20, None).expect("repositioned pair detects");
    assert_eq!(v.left_pos, 3000);
    assert_eq!(v.right_pos, 5000);
    assert_eq!(v.copy_num, 1);
}

/// The verified merge driver: overlapping candidates collapse to exactly
/// one representative; distant candidates pass through unchanged.
#[test]
fn merge_clusters_reduces_each_cluster() {
    // A flat profile: no merged-span re-detection can displace the fold's
    // representative.
    let raw: Vec<i64> = vec![100; 30000];
    let lmq: Vec<i64> = vec![0; 30000];
    let det = EdgeDetector::new(raw, lmq, 20, 100, &vec![1u32], 200_000);

    let u = var(10_000, 11_000, 400_000, true, 5_000);
    let v = var(11_500, 12_000, 900_000, true, 5_000);
    let merged = det.merge_clusters(&vec![u, v], None);
    assert_eq!(merged.len(), 1);
    // The higher validation score wins the pairwise fold.
    assert_eq!(merged[0], v);

    let w = var(20_000, 21_000, 500_000, true, 5_000);
    let far = det.merge_clusters(&vec![w, u], None);
    assert_eq!(far.len(), 2);
    // Singleton clusters pass through field for field, in sorted order.
    assert_eq!(far[0], u);
    assert_eq!(far[1], w);
}
