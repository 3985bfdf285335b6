use measurements::stats::Stats;

fn stats(min: i16, max: i16, sum: i128, count: u64) -> Stats {
    Stats { min, max, sum, count }
}

#[test]
fn new_starts_at_the_far_ends() {
    assert_eq!(Stats::new(), stats(i16::MAX, i16::MIN, 0, 0));
}

#[test]
fn observe_folds_one_value() {
    let s = Stats::new().observe(120);
    assert_eq!(s, stats(120, 120, 120, 1));
    let s = s.observe(144);
    assert_eq!(s, stats(120, 144, 264, 2));
    let s = s.observe(-32);
    assert_eq!(s, stats(-32, 144, 232, 3));
}

#[test]
fn merge_combines_field_by_field() {
    let a = stats(-5, 10, 12, 4);
    let b = stats(-7, 8, -3, 2);
    assert_eq!(a.merge(b), stats(-7, 10, 9, 6));
    assert_eq!(b.merge(a), stats(-7, 10, 9, 6));
}

#[test]
fn merge_with_new_changes_nothing() {
    let a = stats(-5, 10, 12, 4);
    assert_eq!(a.merge(Stats::new()), a);
    assert_eq!(Stats::new().merge(a), a);
}

#[test]
fn merge_is_associative_on_values() {
    let a = stats(1, 5, 9, 3);
    let b = stats(-9, 2, -8, 4);
    let c = stats(7, 7, 7, 1);
    assert_eq!(a.merge(b).merge(c), a.merge(b.merge(c)));
    assert_eq!(a.merge(b).merge(c), c.merge(a).merge(b));
}

#[test]
fn fits_tells_when_counts_overflow() {
    let a = stats(1, 1, 1, u64::MAX);
    let b = stats(1, 1, 1, 1);
    assert!(!a.fits(b));
    assert!(b.fits(b));
    assert!(stats(1, 1, 1, u64::MAX - 1).fits(b));
    let big = stats(1, 1, i128::MAX, 1);
    assert!(!big.fits(b));
    assert!(big.fits(stats(-1, -1, -1, 1)));
}

#[test]
fn mean_is_sum_over_count_in_hundredths() {
    assert_eq!(stats(120, 144, 264, 2).mean_hundredths(), 1320);
    assert_eq!(stats(-32, -32, -32, 1).mean_hundredths(), -320);
    assert_eq!(stats(999, 999, 999 * 7, 7).mean_hundredths(), 9990);
    assert_eq!(stats(-999, -999, -999 * 7, 7).mean_hundredths(), -9990);
    assert_eq!(stats(0, 0, 0, 5).mean_hundredths(), 0);
}

#[test]
fn mean_is_rounded_not_cut() {
    // 1/3 of a tenth is 3.33 hundredths; 5/3 is 16.67.
    assert_eq!(stats(0, 1, 1, 3).mean_hundredths(), 3);
    assert_eq!(stats(1, 2, 5, 3).mean_hundredths(), 17);
    assert_eq!(stats(-2, -1, -5, 3).mean_hundredths(), -17);
    assert_eq!(stats(-1, 0, -1, 3).mean_hundredths(), -3);
}

#[test]
fn mean_tie_goes_away_from_zero() {
    // 1/20 of a tenth is half a hundredth.
    assert_eq!(stats(0, 1, 1, 20).mean_hundredths(), 1);
    assert_eq!(stats(-1, 0, -1, 20).mean_hundredths(), -1);
    assert_eq!(stats(0, 1, 3, 20).mean_hundredths(), 2);
}

#[test]
fn mean_is_not_a_mean_of_means() {
    // One worker saw 10.0 once, another saw 20.0 three times.
    let a = Stats::new().observe(100);
    let b = Stats::new().observe(200).observe(200).observe(200);
    assert_eq!(a.merge(b).mean_hundredths(), 1750);
}

#[test]
fn well_formed_means_some_values_in_range() {
    assert!(stats(120, 144, 264, 2).is_well_formed());
    assert!(stats(-999, 999, 0, 2).is_well_formed());
    assert!(stats(999, 999, 999, 1).is_well_formed());
    assert!(!Stats::new().is_well_formed());
    assert!(!stats(0, 0, 0, 0).is_well_formed());
    assert!(!stats(5, 4, 9, 2).is_well_formed());
    assert!(!stats(-1000, 0, -1000, 2).is_well_formed());
    assert!(!stats(0, 1000, 1000, 2).is_well_formed());
    assert!(!stats(0, 999, 1999, 2).is_well_formed());
    assert!(!stats(-999, 0, -1999, 2).is_well_formed());
    assert!(Stats::new().observe(-999).observe(999).is_well_formed());
}
