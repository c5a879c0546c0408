use delay_time_calculator::tap::{TapEstimator, SESSION_TIMEOUT_MS, WINDOW};
use delay_time_calculator::tempo::Tempo;

fn is(tempo: Option<Tempo>, numerator: u64, denominator: u64) -> bool {
    match tempo {
        Some(tempo) => {
            tempo.numerator() as u128 * denominator as u128
                == numerator as u128 * tempo.denominator() as u128
        }
        None => false,
    }
}

#[test]
fn constants() {
    assert_eq!(SESSION_TIMEOUT_MS, 2000);
    assert_eq!(WINDOW, 8);
}

#[test]
fn new_estimator_has_no_taps() {
    let estimator = TapEstimator::new();
    assert_eq!(estimator.tap_count(), 0);
}

#[test]
fn reset_then_single_tap() {
    let mut estimator = TapEstimator::new();
    estimator.tap(10);
    estimator.tap(510);
    estimator.tap(1010);
    estimator.reset();
    assert_eq!(estimator.tap_count(), 0);
    assert_eq!(estimator.tap(1510), None);
    assert_eq!(estimator.tap_count(), 1);
}

#[test]
fn reset_is_idempotent() {
    let mut estimator = TapEstimator::new();
    estimator.reset();
    estimator.reset();
    assert_eq!(estimator.tap_count(), 0);
    estimator.tap(5);
    estimator.reset();
    estimator.reset();
    assert_eq!(estimator.tap_count(), 0);
    assert_eq!(estimator.tap(6), None);
}

#[test]
fn first_tap_gives_no_tempo() {
    let mut estimator = TapEstimator::new();
    assert_eq!(estimator.tap(0), None);
    assert_eq!(estimator.tap_count(), 1);
}

#[test]
fn two_taps_500_ms_apart_give_120_bpm() {
    let mut estimator = TapEstimator::new();
    assert_eq!(estimator.tap(1_000), None);
    let tempo = estimator.tap(1_500);
    assert!(is(tempo, 120, 1));
    let tempo = tempo.unwrap();
    assert_eq!(tempo.numerator() as f64 / tempo.denominator() as f64, 120.0);
    assert_eq!(estimator.tap_count(), 2);
}

#[test]
fn taps_further_apart_than_the_timeout_start_anew() {
    let mut estimator = TapEstimator::new();
    estimator.tap(1_000);
    assert_eq!(estimator.tap(3_001), None);
    assert_eq!(estimator.tap_count(), 1);
    assert!(is(estimator.tap(3_501), 120, 1));
    assert_eq!(estimator.tap_count(), 2);
}

#[test]
fn a_pause_of_exactly_the_timeout_carries_on() {
    let mut estimator = TapEstimator::new();
    estimator.tap(1_000);
    assert!(is(estimator.tap(3_000), 30, 1));
    assert_eq!(estimator.tap_count(), 2);
}

#[test]
fn a_new_session_forgets_the_old_intervals() {
    let mut estimator = TapEstimator::new();
    estimator.tap(0);
    estimator.tap(1_000);
    estimator.tap(2_000);
    assert_eq!(estimator.tap(10_000), None);
    assert!(is(estimator.tap(10_250), 240, 1));
}

#[test]
fn the_estimate_is_the_mean_of_the_intervals() {
    let mut estimator = TapEstimator::new();
    estimator.tap(0);
    assert!(is(estimator.tap(400), 150, 1));
    assert!(is(estimator.tap(1_000), 120, 1));
    assert!(is(estimator.tap(1_300), 60_000 * 3, 1_300));
    assert_eq!(estimator.tap_count(), 4);
}

#[test]
fn the_window_holds_the_last_eight_intervals() {
    let mut estimator = TapEstimator::new();
    let mut now = 0;
    estimator.tap(now);
    for _ in 0..8 {
        now += 1_000;
        assert!(is(estimator.tap(now), 60, 1));
    }
    now += 500;
    assert!(is(estimator.tap(now), 60_000 * 8, 7_500));
    for _ in 0..6 {
        now += 500;
        estimator.tap(now);
    }
    assert!(is(estimator.tap({ now += 500; now }), 120, 1));
    assert_eq!(estimator.tap_count(), 17);
}

#[test]
fn a_tap_at_the_same_instant_is_counted_and_changes_nothing() {
    let mut estimator = TapEstimator::new();
    estimator.tap(100);
    assert_eq!(estimator.tap(100), None);
    assert_eq!(estimator.tap_count(), 2);
    assert!(is(estimator.tap(600), 120, 1));
    assert!(is(estimator.tap(600), 120, 1));
    assert_eq!(estimator.tap_count(), 4);
    assert!(is(estimator.tap(1_600), 60_000 * 2, 1_500));
}

#[test]
fn a_tap_before_the_last_one_starts_anew() {
    let mut estimator = TapEstimator::new();
    estimator.tap(1_000);
    estimator.tap(1_500);
    assert_eq!(estimator.tap(1_499), None);
    assert_eq!(estimator.tap_count(), 1);
    assert!(is(estimator.tap(1_999), 120, 1));
}

#[test]
fn taps_at_the_end_of_time() {
    let mut estimator = TapEstimator::new();
    assert_eq!(estimator.tap(u64::MAX - 1), None);
    assert!(is(estimator.tap(u64::MAX), 60_000, 1));
    assert!(is(estimator.tap(u64::MAX), 60_000, 1));
    assert_eq!(estimator.tap(0), None);
    assert_eq!(estimator.tap(u64::MAX), None);
}

#[test]
fn one_millisecond_is_the_fastest_beat() {
    let mut estimator = TapEstimator::new();
    estimator.tap(0);
    assert!(is(estimator.tap(1), 60_000, 1));
}

#[test]
fn first_taps_agree_with_the_tap_tempo_crate() {
    let mut theirs = tap_tempo::TapTempo::new();
    let mut ours = TapEstimator::new();
    assert_eq!(theirs.tap_count() as u64, ours.tap_count());
    assert_eq!(theirs.tap().is_some(), ours.tap(1_000).is_some());
    assert_eq!(theirs.tap_count() as u64, ours.tap_count());
    assert_eq!(theirs.tap().is_some(), ours.tap(1_500).is_some());
    assert_eq!(theirs.tap_count() as u64, ours.tap_count());
    theirs.reset();
    ours.reset();
    assert_eq!(theirs.tap_count() as u64, ours.tap_count());
    assert_eq!(theirs.tap().is_some(), ours.tap(2_000).is_some());
    assert_eq!(theirs.tap_count() as u64, ours.tap_count());
}
