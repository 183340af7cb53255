use curve_decimation::calibrate::{Calibrator, MAX_BINARY_SEARCH_ITERATIONS};
use curve_decimation::curve::Curve;
use curve_decimation::error::DecimateError;
use curve_decimation::select::Selector;
use curve_decimation::tolerance::Simplifier;

fn curve_of_len(n: usize) -> Curve {
    let column: Vec<u64> = (0..n as u64).collect();
    Curve::from_vectors(column.clone(), column.clone(), column)
}

#[test]
fn simplifier_refuses_misaligned_columns() {
    assert_eq!(Simplifier::start(3, 2, 3, 0).unwrap_err(), DecimateError::LengthMismatch);
    assert_eq!(Simplifier::start(3, 3, 4, 0).unwrap_err(), DecimateError::LengthMismatch);
    assert!(Simplifier::start(3, 3, 3, 0).is_ok());
}

#[test]
fn simplifier_seeds_first_and_last() {
    let s = Simplifier::start(5, 5, 5, 10).unwrap();
    assert_eq!(s.retained(), &vec![0, 4]);
    assert_eq!(s.pending(), Some((0, 4)));
    assert_eq!(s.count(), 2);
    assert!(!s.is_done());
}

#[test]
fn simplifier_on_tiny_series_has_nothing_to_measure() {
    let s = Simplifier::start(0, 0, 0, 10).unwrap();
    assert!(s.is_done());
    assert_eq!(s.pending(), None);
    assert_eq!(s.retained(), &Vec::<usize>::new());
    let s = Simplifier::start(1, 1, 1, 10).unwrap();
    assert!(s.is_done());
    assert_eq!(s.retained(), &vec![0]);
    let mut s = Simplifier::start(2, 2, 2, 10).unwrap();
    assert_eq!(s.pending(), Some((0, 1)));
    assert!(s.resolve(&vec![]));
    assert!(s.is_done());
    assert_eq!(s.retained(), &vec![0, 1]);
}

#[test]
fn simplifier_prunes_chord_at_or_below_tolerance() {
    let mut s = Simplifier::start(5, 5, 5, 10).unwrap();
    assert!(s.resolve(&vec![3, 10, 7]));
    assert!(s.is_done());
    assert_eq!(s.retained(), &vec![0, 4]);
}

#[test]
fn simplifier_splits_at_first_largest_score() {
    let mut s = Simplifier::start(6, 6, 6, 10).unwrap();
    assert!(s.resolve(&vec![3, 11, 7, 11]));
    assert_eq!(s.retained(), &vec![0, 2, 5]);
    // the right half waits first
    assert_eq!(s.pending(), Some((2, 5)));
    assert!(s.resolve(&vec![0, 12]));
    assert_eq!(s.retained(), &vec![0, 2, 4, 5]);
    assert_eq!(s.pending(), Some((4, 5)));
    assert!(s.resolve(&vec![]));
    assert_eq!(s.pending(), Some((2, 4)));
    assert!(s.resolve(&vec![10]));
    assert_eq!(s.pending(), Some((0, 2)));
    assert!(s.resolve(&vec![11]));
    assert_eq!(s.retained(), &vec![0, 1, 2, 4, 5]);
    assert_eq!(s.pending(), Some((1, 2)));
    assert!(s.resolve(&vec![]));
    assert_eq!(s.pending(), Some((0, 1)));
    assert!(s.resolve(&vec![]));
    assert!(s.is_done());
    assert_eq!(s.pending(), None);
    assert_eq!(s.count(), 5);
}

#[test]
fn simplifier_turns_down_scores_of_wrong_number() {
    let mut s = Simplifier::start(5, 5, 5, 0).unwrap();
    assert!(!s.resolve(&vec![1, 2]));
    assert!(!s.resolve(&vec![1, 2, 3, 4]));
    assert!(!s.resolve(&vec![]));
    assert_eq!(s.retained(), &vec![0, 4]);
    assert_eq!(s.pending(), Some((0, 4)));
    assert!(s.resolve(&vec![0, 0, 0]));
    // nothing waits any more
    assert!(!s.resolve(&vec![]));
    assert_eq!(s.retained(), &vec![0, 4]);
}

#[test]
fn calibrator_refuses_target_above_length_first() {
    assert_eq!(
        Calibrator::start(3, 2, 3, 4, 100, 5).unwrap_err(),
        DecimateError::InsufficientPoints
    );
    assert_eq!(
        Calibrator::start(3, 2, 3, 3, 100, 5).unwrap_err(),
        DecimateError::LengthMismatch
    );
    assert_eq!(
        Calibrator::start(3, 3, 2, 0, 100, 5).unwrap_err(),
        DecimateError::LengthMismatch
    );
    assert!(Calibrator::start(3, 3, 3, 3, 100, 5).is_ok());
}

#[test]
fn calibrator_default_rounds() {
    assert_eq!(MAX_BINARY_SEARCH_ITERATIONS, 500);
}

#[test]
fn calibrator_starts_between_zero_and_upper() {
    let c = Calibrator::start(9, 9, 9, 4, 100, 7).unwrap();
    assert_eq!(c.bounds(), (0, 100));
    assert_eq!(c.rounds_left(), 7);
}

#[test]
fn calibrator_moves_the_bound_on_the_side_of_the_miss() {
    let mut c = Calibrator::start(9, 9, 9, 4, 100, 7).unwrap();
    // too many samples retained: the tolerance was too low
    assert!(c.observe(50, curve_of_len(6)).is_none());
    assert_eq!(c.bounds(), (50, 100));
    assert_eq!(c.rounds_left(), 6);
    // too few: the tolerance was too high
    assert!(c.observe(75, curve_of_len(2)).is_none());
    assert_eq!(c.bounds(), (50, 75));
    assert_eq!(c.rounds_left(), 5);
    let found = c.observe(62, curve_of_len(4)).unwrap();
    assert_eq!(found.len(), 4);
    assert_eq!(c.bounds(), (50, 75));
    assert_eq!(c.rounds_left(), 4);
}

#[test]
fn calibrator_reports_last_count_when_exhausted() {
    let mut c = Calibrator::start(9, 9, 9, 4, 100, 2).unwrap();
    assert!(c.observe(50, curve_of_len(6)).is_none());
    assert!(c.observe(75, curve_of_len(3)).is_none());
    assert_eq!(c.rounds_left(), 0);
    assert_eq!(c.bounds(), (50, 75));
    // without a round left even a fitting series is turned down
    assert!(c.observe(60, curve_of_len(4)).is_none());
    assert_eq!(c.bounds(), (50, 75));
    assert_eq!(
        c.exhausted(62),
        DecimateError::BinarySearchExhausted { last_count: 3, last_tolerance: 62 }
    );
}

#[test]
fn calibrator_without_rounds_reports_count_zero() {
    let c = Calibrator::start(9, 9, 9, 4, 100, 0).unwrap();
    assert_eq!(
        c.exhausted(50),
        DecimateError::BinarySearchExhausted { last_count: 0, last_tolerance: 50 }
    );
}

#[test]
fn selector_refuses_target_above_length_first() {
    assert_eq!(Selector::start(3, 2, 3, 4).unwrap_err(), DecimateError::InsufficientPoints);
    assert_eq!(Selector::start(3, 2, 3, 3).unwrap_err(), DecimateError::LengthMismatch);
    assert_eq!(Selector::start(3, 3, 1, 3).unwrap_err(), DecimateError::LengthMismatch);
    assert!(Selector::start(3, 3, 3, 3).is_ok());
}

#[test]
fn selector_grows_one_index_per_chord() {
    let mut s = Selector::start(5, 5, 5, 3).unwrap();
    assert_eq!(s.retained(), &vec![0, 4]);
    assert_eq!(s.pending(), Some((0, 4)));
    assert!(s.resolve(&vec![1, 5, 5]));
    assert_eq!(s.retained(), &vec![0, 2, 4]);
    assert_eq!(s.pending(), None);
    assert_eq!(s.count(), 3);
}

#[test]
fn selector_finishes_a_pass_before_splitting_new_chords() {
    let mut s = Selector::start(9, 9, 9, 5).unwrap();
    assert_eq!(s.pending(), Some((0, 8)));
    assert!(s.resolve(&vec![0, 0, 0, 7, 0, 0, 0]));
    assert_eq!(s.retained(), &vec![0, 4, 8]);
    assert_eq!(s.pending(), Some((0, 4)));
    assert!(s.resolve(&vec![1, 1, 1]));
    assert_eq!(s.retained(), &vec![0, 1, 4, 8]);
    // the pass goes on to the right; the chord from 1 to 4 waits for the next
    assert_eq!(s.pending(), Some((4, 8)));
    assert!(s.resolve(&vec![0, 9, 9]));
    assert_eq!(s.retained(), &vec![0, 1, 4, 6, 8]);
    assert_eq!(s.pending(), None);
}

#[test]
fn selector_stops_within_a_pass_at_the_target() {
    let mut s = Selector::start(9, 9, 9, 4).unwrap();
    assert!(s.resolve(&vec![0, 0, 0, 7, 0, 0, 0]));
    assert!(s.resolve(&vec![1, 1, 1]));
    assert_eq!(s.retained(), &vec![0, 1, 4, 8]);
    assert_eq!(s.pending(), None);
    assert!(!s.resolve(&vec![0, 9, 9]));
    assert_eq!(s.retained(), &vec![0, 1, 4, 8]);
}

#[test]
fn selector_skips_chords_without_interior() {
    let mut s = Selector::start(4, 4, 4, 4).unwrap();
    assert!(s.resolve(&vec![9, 1]));
    assert_eq!(s.retained(), &vec![0, 1, 3]);
    assert_eq!(s.pending(), Some((1, 3)));
    assert!(s.resolve(&vec![0]));
    assert_eq!(s.retained(), &vec![0, 1, 2, 3]);
    assert_eq!(s.pending(), None);
}

#[test]
fn selector_turns_down_scores_of_wrong_number() {
    let mut s = Selector::start(5, 5, 5, 4).unwrap();
    assert!(!s.resolve(&vec![1, 2]));
    assert!(!s.resolve(&vec![]));
    assert_eq!(s.retained(), &vec![0, 4]);
    assert_eq!(s.pending(), Some((0, 4)));
}

#[test]
fn selector_reaches_every_target_exactly() {
    let n: usize = 12;
    let column: Vec<u64> = (0..n as u64).collect();
    for target in 2..=n {
        let mut s = Selector::start(n, n, n, target).unwrap();
        while let Some((a, b)) = s.pending() {
            let scores: Vec<u64> = (a + 1..b).map(|i| ((i * 7) % 5) as u64).collect();
            assert!(s.resolve(&scores));
        }
        let c = s.finish(&column, &column, &column).unwrap();
        assert_eq!(c.len(), target);
        assert_eq!(c.get(0).timestamp, 0);
        assert_eq!(c.get(target - 1).timestamp, (n - 1) as u64);
    }
}

#[test]
fn selector_reports_over_count() {
    let column: Vec<u64> = vec![0, 1, 2, 3, 4];
    let s = Selector::start(5, 5, 5, 1).unwrap();
    assert_eq!(s.pending(), None);
    assert_eq!(s.count(), 2);
    assert_eq!(s.finish(&column, &column, &column).unwrap_err(), DecimateError::OverCount);
    let s = Selector::start(1, 1, 1, 0).unwrap();
    let one: Vec<u64> = vec![0];
    assert_eq!(s.finish(&one, &one, &one).unwrap_err(), DecimateError::OverCount);
}

#[test]
fn selector_on_tiny_series() {
    let none: Vec<u64> = vec![];
    let s = Selector::start(0, 0, 0, 0).unwrap();
    assert_eq!(s.pending(), None);
    assert!(s.finish(&none, &none, &none).unwrap().is_empty());
    let one: Vec<u64> = vec![42];
    let s = Selector::start(1, 1, 1, 1).unwrap();
    assert_eq!(s.pending(), None);
    assert_eq!(s.finish(&one, &one, &one).unwrap().get_timestamps(), &vec![42]);
}

#[test]
fn selector_finish_checks_the_columns() {
    let mut s = Selector::start(5, 5, 5, 3).unwrap();
    assert!(s.resolve(&vec![1, 5, 5]));
    let short: Vec<u64> = vec![0, 1, 2];
    let full: Vec<u64> = vec![0, 1, 2, 3, 4];
    assert_eq!(s.finish(&short, &short, &short).unwrap_err(), DecimateError::IndexOutOfRange);
    assert_eq!(s.finish(&full, &short, &full).unwrap_err(), DecimateError::LengthMismatch);
    let c = s.finish(&full, &full, &full).unwrap();
    assert_eq!(c.get_timestamps(), &vec![0, 2, 4]);
}
