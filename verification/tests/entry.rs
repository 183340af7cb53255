use curve_decimation::curve::Curve;
use curve_decimation::error::DecimateError;
use curve_decimation::{decimate, decimate_by_tolerance, decimate_to_count};

/// Scores that do not depend on the chord: each sample has a fixed height.
fn heights_between(heights: &[u64], start: usize, end: usize) -> Vec<u64> {
    heights[start + 1..end].to_vec()
}

fn middle(lower: u64, upper: u64) -> u64 {
    (lower + upper) / 2
}

fn column(n: usize) -> Vec<u64> {
    (0..n as u64).map(|i| 100 + i).collect()
}

fn timestamps_of(c: &Curve) -> Vec<u64> {
    c.get_timestamps().clone()
}

#[test]
fn by_tolerance_keeps_what_exceeds_the_tolerance() {
    let heights = [0, 5, 9, 3, 0];
    let c = column(5);
    let at = |tolerance: u64| {
        let r = decimate_by_tolerance(&c, &c, &c, tolerance, |a, b| heights_between(&heights, a, b));
        timestamps_of(&r.unwrap())
    };
    assert_eq!(at(9), vec![100, 104]);
    assert_eq!(at(8), vec![100, 102, 104]);
    assert_eq!(at(5), vec![100, 102, 104]);
    assert_eq!(at(4), vec![100, 101, 102, 104]);
    assert_eq!(at(3), vec![100, 101, 102, 104]);
    assert_eq!(at(2), vec![100, 101, 102, 103, 104]);
    assert_eq!(at(0), vec![100, 101, 102, 103, 104]);
}

#[test]
fn by_tolerance_keeps_rows_together() {
    let heights = [0, 5, 9, 3, 0];
    let ts = vec![1, 2, 3, 4, 5];
    let x = vec![10, 20, 30, 40, 50];
    let y = vec![11, 21, 31, 41, 51];
    let r = decimate_by_tolerance(&ts, &x, &y, 6, |a, b| heights_between(&heights, a, b)).unwrap();
    assert_eq!(r.get_timestamps(), &vec![1, 3, 5]);
    assert_eq!(r.get_x(), &vec![10, 30, 50]);
    assert_eq!(r.get_y(), &vec![11, 31, 51]);
}

#[test]
fn by_tolerance_zero_score_never_exceeds() {
    let heights = [0, 0, 0, 0];
    let c = column(4);
    let r = decimate_by_tolerance(&c, &c, &c, 0, |a, b| heights_between(&heights, a, b)).unwrap();
    assert_eq!(timestamps_of(&r), vec![100, 103]);
}

#[test]
fn by_tolerance_on_tiny_series() {
    let none: Vec<u64> = vec![];
    let r = decimate_by_tolerance(&none, &none, &none, 0, |_, _| vec![]).unwrap();
    assert!(r.is_empty());
    let one = vec![7];
    let r = decimate_by_tolerance(&one, &one, &one, 0, |_, _| vec![]).unwrap();
    assert_eq!(timestamps_of(&r), vec![7]);
    let two = vec![7, 8];
    let r = decimate_by_tolerance(&two, &two, &two, 0, |_, _| vec![]).unwrap();
    assert_eq!(timestamps_of(&r), vec![7, 8]);
}

#[test]
fn by_tolerance_refuses_misaligned_columns() {
    let r = decimate_by_tolerance(&vec![1, 2], &vec![1], &vec![1, 2], 0, |_, _| vec![]);
    assert_eq!(r.unwrap_err(), DecimateError::LengthMismatch);
    let r = decimate_by_tolerance(&vec![1, 2], &vec![1, 2], &vec![], 0, |_, _| vec![]);
    assert_eq!(r.unwrap_err(), DecimateError::LengthMismatch);
}

#[test]
fn to_count_bisects_toward_the_target() {
    let heights = [0, 5, 9, 3, 0];
    let c = column(5);
    let to = |count: usize| {
        let r = decimate_to_count(
            &c,
            &c,
            &c,
            count,
            |a, b| heights_between(&heights, a, b),
            |_| 16,
            middle,
        );
        timestamps_of(&r.unwrap())
    };
    assert_eq!(to(2), vec![100, 104]);
    assert_eq!(to(3), vec![100, 102, 104]);
    assert_eq!(to(4), vec![100, 101, 102, 104]);
    assert_eq!(to(5), vec![100, 101, 102, 103, 104]);
}

#[test]
fn to_count_starts_below_the_longest_step() {
    let heights = [0, 5, 9, 3, 0];
    let steps = [3, 20, 7, 1];
    let c = column(5);
    let r = decimate_to_count(
        &c,
        &c,
        &c,
        2,
        |a, b| heights_between(&heights, a, b),
        |i| steps[i],
        middle,
    );
    assert_eq!(timestamps_of(&r.unwrap()), vec![100, 104]);
}

#[test]
fn to_count_reports_the_last_probe_when_it_gives_up() {
    // both inner samples leave at the same tolerance: 3 is never retained
    let heights = [0, 5, 5, 0];
    let c = column(4);
    let r = decimate_to_count(
        &c,
        &c,
        &c,
        3,
        |a, b| heights_between(&heights, a, b),
        |_| 16,
        middle,
    );
    assert_eq!(
        r.unwrap_err(),
        DecimateError::BinarySearchExhausted { last_count: 4, last_tolerance: 4 }
    );
}

#[test]
fn to_count_refuses_target_above_length_before_misalignment() {
    let r = decimate_to_count(&vec![1, 2], &vec![1], &vec![1, 2], 3, |_, _| vec![], |_| 0, middle);
    assert_eq!(r.unwrap_err(), DecimateError::InsufficientPoints);
    let r = decimate_to_count(&vec![1, 2], &vec![1], &vec![1, 2], 2, |_, _| vec![], |_| 0, middle);
    assert_eq!(r.unwrap_err(), DecimateError::LengthMismatch);
    let r = decimate_to_count(&vec![1, 2], &vec![1, 2], &vec![1, 2], 2, |_, _| vec![], |_| 0, middle);
    assert_eq!(timestamps_of(&r.unwrap()), vec![1, 2]);
}

#[test]
fn growth_takes_the_highest_of_each_chord_pass_by_pass() {
    let heights = [0, 1, 2, 8, 3, 9, 1, 4, 0];
    let c = column(9);
    let to = |count: usize| {
        let r = decimate(&c, &c, &c, count, |a, b| heights_between(&heights, a, b));
        timestamps_of(&r.unwrap())
    };
    assert_eq!(to(2), vec![100, 108]);
    assert_eq!(to(3), vec![100, 105, 108]);
    // second pass: left chord first, then the right one
    assert_eq!(to(4), vec![100, 103, 105, 108]);
    assert_eq!(to(5), vec![100, 103, 105, 107, 108]);
    // third pass begins at the left again
    assert_eq!(to(6), vec![100, 102, 103, 105, 107, 108]);
    assert_eq!(to(7), vec![100, 102, 103, 104, 105, 107, 108]);
    assert_eq!(to(8), vec![100, 102, 103, 104, 105, 106, 107, 108]);
    assert_eq!(to(9), vec![100, 101, 102, 103, 104, 105, 106, 107, 108]);
}

#[test]
fn growth_refuses_bad_requests() {
    let c = column(3);
    let r = decimate(&c, &c, &c, 4, |_, _| vec![0]);
    assert_eq!(r.unwrap_err(), DecimateError::InsufficientPoints);
    let r = decimate(&c, &column(2), &c, 4, |_, _| vec![0]);
    assert_eq!(r.unwrap_err(), DecimateError::InsufficientPoints);
    let r = decimate(&c, &column(2), &c, 3, |_, _| vec![0]);
    assert_eq!(r.unwrap_err(), DecimateError::LengthMismatch);
    let r = decimate(&c, &c, &c, 1, |_, _| vec![0]);
    assert_eq!(r.unwrap_err(), DecimateError::OverCount);
    let r = decimate(&c, &c, &c, 0, |_, _| vec![0]);
    assert_eq!(r.unwrap_err(), DecimateError::OverCount);
}
