use gpxanalyzer::search::{find_best, BestEffortResult, Constraint, SearchError};
use gpxanalyzer::track::TrackPoint;

fn pt(time_s: u64, ele_mm: i64, step_mm: u64) -> TrackPoint {
    TrackPoint { time_s, ele_mm, step_mm }
}

/// A track of points one second and one meter (1000 mm) apart.
fn uniform_track(n: u64) -> Vec<TrackPoint> {
    let mut v = Vec::new();
    for k in 0..n {
        v.push(pt(k, 0, if k == 0 { 0 } else { 1000 }));
    }
    v
}

#[test]
fn uniform_track_best_duration() {
    let points = uniform_track(31);
    let r = find_best(&points, Constraint::FixedDuration(10));
    assert_eq!(
        r,
        Ok(BestEffortResult { value: 10_000, start_s: 0, end_s: 10 })
    );
}

#[test]
fn uniform_track_best_distance() {
    let points = uniform_track(31);
    let r = find_best(&points, Constraint::FixedDistance(10_000));
    assert_eq!(
        r,
        Ok(BestEffortResult { value: 10_000, start_s: 0, end_s: 10 })
    );
}

#[test]
fn exact_boundary_duration_clamps_to_full_step() {
    let points = vec![pt(0, 0, 0), pt(10, 0, 5000)];
    let r = find_best(&points, Constraint::FixedDuration(10));
    assert_eq!(r, Ok(BestEffortResult { value: 5000, start_s: 0, end_s: 10 }));
}

#[test]
fn exact_boundary_distance_clamps_to_full_step() {
    let points = vec![pt(0, 0, 0), pt(10, 0, 5000)];
    let r = find_best(&points, Constraint::FixedDistance(5000));
    assert_eq!(r, Ok(BestEffortResult { value: 10_000, start_s: 0, end_s: 10 }));
}

#[test]
fn empty_track_has_no_result() {
    let points: Vec<TrackPoint> = Vec::new();
    let r = find_best(&points, Constraint::FixedDuration(10));
    assert_eq!(r, Err(SearchError::NoResult));
}

#[test]
fn single_point_track_has_no_result() {
    let points = vec![pt(5, 0, 0)];
    assert_eq!(
        find_best(&points, Constraint::FixedDuration(10)),
        Err(SearchError::NoResult)
    );
    assert_eq!(
        find_best(&points, Constraint::FixedDistance(10)),
        Err(SearchError::NoResult)
    );
}

#[test]
fn unreachable_duration_threshold_has_no_result() {
    let points = uniform_track(5);
    let r = find_best(&points, Constraint::FixedDuration(100));
    assert_eq!(r, Err(SearchError::NoResult));
}

#[test]
fn unreachable_distance_threshold_has_no_result() {
    let points = uniform_track(5);
    let r = find_best(&points, Constraint::FixedDistance(1_000_000));
    assert_eq!(r, Err(SearchError::NoResult));
}

#[test]
fn zero_threshold_is_invalid() {
    let points = uniform_track(5);
    assert_eq!(
        find_best(&points, Constraint::FixedDuration(0)),
        Err(SearchError::InvalidConstraint)
    );
    assert_eq!(
        find_best(&points, Constraint::FixedDistance(0)),
        Err(SearchError::InvalidConstraint)
    );
}

#[test]
fn zero_threshold_reported_before_bad_timestamps() {
    let points = vec![pt(10, 0, 0), pt(0, 0, 1000)];
    let r = find_best(&points, Constraint::FixedDuration(0));
    assert_eq!(r, Err(SearchError::InvalidConstraint));
}

#[test]
fn non_monotonic_timestamps_are_reported() {
    let points = vec![pt(0, 0, 0), pt(10, 0, 1000), pt(5, 0, 1000), pt(30, 0, 1000)];
    let r = find_best(&points, Constraint::FixedDuration(10));
    assert_eq!(r, Err(SearchError::NonMonotonicTimestamps));
}

#[test]
fn straight_line_best_duration() {
    let points = vec![
        pt(0, 100_000, 0),
        pt(10, 110_000, 50_000),
        pt(20, 105_000, 50_000),
        pt(30, 115_000, 50_000),
    ];
    let r = find_best(&points, Constraint::FixedDuration(20));
    assert_eq!(
        r,
        Ok(BestEffortResult { value: 100_000, start_s: 0, end_s: 20 })
    );
}

#[test]
fn tie_keeps_earliest_start() {
    // Every start of the uniform track achieves the same distance; the
    // earliest one must be reported.
    let points = uniform_track(20);
    let r = find_best(&points, Constraint::FixedDuration(5)).unwrap();
    assert_eq!(r.start_s, 0);
    assert_eq!(r.end_s, 5);
}

#[test]
fn strict_improvement_replaces_best() {
    // The walk from the second point covers the distance in one second; the
    // walk from the first needs ten.
    let points = vec![pt(0, 0, 0), pt(10, 0, 1000), pt(11, 0, 1000)];
    let r = find_best(&points, Constraint::FixedDistance(1000));
    assert_eq!(r, Ok(BestEffortResult { value: 1000, start_s: 10, end_s: 11 }));
}

#[test]
fn duration_interpolation_takes_fraction_of_final_step() {
    // 4 m step over 10 s; threshold 5 s cuts the step in half.
    let points = vec![pt(0, 0, 0), pt(10, 0, 4000)];
    let r = find_best(&points, Constraint::FixedDuration(5));
    assert_eq!(r, Ok(BestEffortResult { value: 2000, start_s: 0, end_s: 10 }));
}

#[test]
fn distance_interpolation_takes_fraction_of_final_step() {
    // 4 m step over 10 s; threshold 1 m takes a quarter of the step's time.
    let points = vec![pt(0, 0, 0), pt(10, 0, 4000)];
    let r = find_best(&points, Constraint::FixedDistance(1000));
    assert_eq!(r, Ok(BestEffortResult { value: 2500, start_s: 0, end_s: 10 }));
}
