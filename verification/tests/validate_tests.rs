use cnvcall::validate::{
    corrected_ratios, fr_windows, partition_corrections, pvalue_score, FragInfo,
};
use cnvcall::histogram::MICRO;

#[test]
fn pvalue_score_exact_ranks() {
    let event: Vec<i64> = vec![10, 1, 2, 9, 3, 8, 4, 7, 5, 6];
    let normal: Vec<i64> = (1..=20).collect();
    // Sorted event values 1..=10, trim size 10/5 = 2, boundaries at the
    // 3rd value (3) and the 9th value (9); their ranks against 1..=20 are
    // 2 and 8 of 20, so the score is (2*2-20)(2*8-20)/400 = 64/400 = 0.16.
    assert_eq!(pvalue_score(&event, &normal), 160_000);
}

#[test]
fn pvalue_score_small_event_passes() {
    let event: Vec<i64> = vec![1, 2, 3, 4];
    let normal: Vec<i64> = vec![5, 6, 7];
    assert_eq!(pvalue_score(&event, &normal), MICRO);
}

#[test]
fn pvalue_score_can_be_negative() {
    // Both trimmed boundaries on opposite ends of the background.
    let event: Vec<i64> = vec![0, 0, 1, 50, 100, 100, 100, 0, 0, 1];
    let normal: Vec<i64> = (1..=100).collect();
    let s = pvalue_score(&event, &normal);
    assert!(s < 0, "score {}", s);
}

fn frag(begin: u32, ref_begin: u32, ref_end: u32, mqual: u32, flags: u32, tlen: i64) -> FragInfo {
    FragInfo { begin, ref_begin, ref_end, mqual, flags, tlen }
}

#[test]
fn fragment_correction_ratios() {
    // Region [100, 300); read size 10.  One proper pair spanning the whole
    // region front, its read aligned over [110, 160).
    let reads = vec![
        frag(110, 110, 160, 60, 1, 40),  // fragment [10, 60), ref [10, 60)
        frag(120, 120, 170, 60, 1, 30),  // fragment [20, 60), ref [20, 70)
        frag(130, 130, 150, 0, 1, 20),   // low quality: ignored
        frag(140, 140, 160, 60, 2, 20),  // wrong flags: ignored
    ];
    let (wp, wr) = fr_windows(&reads, 100, 300, 10);
    let ratios = corrected_ratios(&wp, &wr);
    assert_eq!(ratios.len(), 200);
    // Coordinate 30 (width-one output index 29): fragment depth 2,
    // reference depth 2, ratio exactly 1.
    assert_eq!(ratios[29], MICRO);
    // Coordinate 65: fragments have ended, reference read of the second
    // pair still covers it: fragment depth 0 gives ratio 0.
    assert_eq!(ratios[64], 0);
}

#[test]
fn partition_skips_padding() {
    let vals: Vec<i64> = (0..2000).map(|x| x as i64).collect();
    // Base 0, event span [1200, 1500].
    let (normal, event) = partition_corrections(&vals, 0, 1200, 1500);
    // Positions 0..999 are padding, 1000..1199 and 1501..1999 background,
    // 1200..=1500 the event.
    assert_eq!(normal.len(), 200 + 499);
    assert_eq!(event.len(), 301);
    assert_eq!(normal[0], 1000);
    assert_eq!(event[0], 1200);
    assert_eq!(*event.last().unwrap(), 1500);
}
