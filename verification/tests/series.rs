use curve_decimation::curve::{Curve, Sample};
use curve_decimation::error::DecimateError;
use curve_decimation::scan::farthest;

fn sample(timestamp: u64, x: u64, y: u64) -> Sample {
    Sample { timestamp, x, y }
}

#[test]
fn new_curve_is_empty() {
    let c = Curve::new();
    assert!(c.is_empty());
    assert_eq!(c.len(), 0);
    assert_eq!(c.get_iters(), vec![]);
}

#[test]
fn from_vectors_keeps_columns_aligned() {
    let c = Curve::from_vectors(vec![1, 2, 3], vec![10, 20, 30], vec![100, 200, 300]);
    assert!(!c.is_empty());
    assert_eq!(c.len(), 3);
    assert_eq!(c.get_timestamps(), &vec![1, 2, 3]);
    assert_eq!(c.get_x(), &vec![10, 20, 30]);
    assert_eq!(c.get_y(), &vec![100, 200, 300]);
    assert_eq!(c.get(1), sample(2, 20, 200));
    assert_eq!(
        c.get_iters(),
        vec![sample(1, 10, 100), sample(2, 20, 200), sample(3, 30, 300)]
    );
}

#[test]
fn insert_shifts_later_samples_right() {
    let mut c = Curve::from_vectors(vec![1, 3], vec![10, 30], vec![100, 300]);
    c.insert(1, 2, 20, 200);
    assert_eq!(
        c.get_iters(),
        vec![sample(1, 10, 100), sample(2, 20, 200), sample(3, 30, 300)]
    );
    c.insert(0, 0, 5, 50);
    assert_eq!(c.get(0), sample(0, 5, 50));
    assert_eq!(c.get(1), sample(1, 10, 100));
    c.insert(4, 9, 90, 900);
    assert_eq!(c.len(), 5);
    assert_eq!(c.get(4), sample(9, 90, 900));
    assert_eq!(c.get_timestamps(), &vec![0, 1, 2, 3, 9]);
    assert_eq!(c.get_x(), &vec![5, 10, 20, 30, 90]);
    assert_eq!(c.get_y(), &vec![50, 100, 200, 300, 900]);
}

#[test]
fn insert_into_empty_curve() {
    let mut c = Curve::new();
    c.insert(0, 7, 8, 9);
    assert_eq!(c.get_iters(), vec![sample(7, 8, 9)]);
}

#[test]
fn clone_is_independent() {
    let mut c = Curve::from_vectors(vec![1], vec![2], vec![3]);
    let d = c.clone();
    c.insert(0, 0, 0, 0);
    assert_eq!(d.get_iters(), vec![sample(1, 2, 3)]);
    assert_eq!(c.len(), 2);
}

#[test]
fn select_picks_in_the_order_of_the_indices() {
    let ts = vec![0, 1, 2, 3];
    let x = vec![10, 11, 12, 13];
    let y = vec![20, 21, 22, 23];
    let c = Curve::select(&ts, &x, &y, &vec![0, 2, 3]).unwrap();
    assert_eq!(
        c.get_iters(),
        vec![sample(0, 10, 20), sample(2, 12, 22), sample(3, 13, 23)]
    );
    let none = Curve::select(&ts, &x, &y, &vec![]).unwrap();
    assert!(none.is_empty());
}

#[test]
fn select_refuses_misaligned_columns() {
    let r = Curve::select(&vec![0, 1], &vec![0], &vec![0, 1], &vec![0]);
    assert_eq!(r.unwrap_err(), DecimateError::LengthMismatch);
    let r = Curve::select(&vec![0, 1], &vec![0, 1], &vec![0, 1, 2], &vec![0]);
    assert_eq!(r.unwrap_err(), DecimateError::LengthMismatch);
    // misalignment is reported before a bad index
    let r = Curve::select(&vec![0, 1], &vec![0], &vec![0, 1], &vec![9]);
    assert_eq!(r.unwrap_err(), DecimateError::LengthMismatch);
}

#[test]
fn select_refuses_index_outside_the_series() {
    let r = Curve::select(&vec![0, 1], &vec![0, 1], &vec![0, 1], &vec![0, 2]);
    assert_eq!(r.unwrap_err(), DecimateError::IndexOutOfRange);
    let r = Curve::select(&vec![], &vec![], &vec![], &vec![0]);
    assert_eq!(r.unwrap_err(), DecimateError::IndexOutOfRange);
}

#[test]
fn farthest_takes_the_first_of_equal_maxima() {
    assert_eq!(farthest(&vec![1, 5, 3, 5, 2]), 1);
    assert_eq!(farthest(&vec![4, 4, 4]), 0);
    assert_eq!(farthest(&vec![0, 1, 2, 3]), 3);
    assert_eq!(farthest(&vec![9]), 0);
    assert_eq!(farthest(&vec![]), 0);
    assert_eq!(farthest(&vec![u64::MAX, 0, u64::MAX]), 0);
}
