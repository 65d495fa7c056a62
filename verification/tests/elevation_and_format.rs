use gpxanalyzer::elevation::{accumulate, ElevationDelta};
use gpxanalyzer::timefmt::format_duration;
use gpxanalyzer::track::TrackPoint;

fn pt(time_s: u64, ele_mm: i64) -> TrackPoint {
    TrackPoint { time_s, ele_mm, step_mm: 0 }
}

fn scenario_track() -> Vec<TrackPoint> {
    vec![
        pt(0, 100_000),
        pt(10, 110_000),
        pt(20, 105_000),
        pt(30, 115_000),
    ]
}

#[test]
fn gain_and_loss_over_winning_interval() {
    let points = scenario_track();
    let r = accumulate(&points, 0, 20);
    assert_eq!(r, ElevationDelta { gain_mm: 10_000, loss_mm: 5_000 });
}

#[test]
fn gain_and_loss_over_whole_track() {
    let points = scenario_track();
    let r = accumulate(&points, 0, 30);
    assert_eq!(r, ElevationDelta { gain_mm: 20_000, loss_mm: 5_000 });
}

#[test]
fn out_of_order_interval_is_empty() {
    let points = scenario_track();
    let r = accumulate(&points, 25, 5);
    assert_eq!(r, ElevationDelta { gain_mm: 0, loss_mm: 0 });
}

#[test]
fn empty_track_accumulates_nothing() {
    let points: Vec<TrackPoint> = Vec::new();
    let r = accumulate(&points, 0, 100);
    assert_eq!(r, ElevationDelta { gain_mm: 0, loss_mm: 0 });
}

#[test]
fn single_in_range_point_sets_baseline_only() {
    let points = scenario_track();
    let r = accumulate(&points, 0, 5);
    assert_eq!(r, ElevationDelta { gain_mm: 0, loss_mm: 0 });
}

#[test]
fn interval_in_the_middle_skips_leading_points() {
    // The point at t=10 is the baseline; only 110 -> 105 is in range.
    let points = scenario_track();
    let r = accumulate(&points, 5, 25);
    assert_eq!(r, ElevationDelta { gain_mm: 0, loss_mm: 5_000 });
}

#[test]
fn interval_beyond_track_accumulates_nothing() {
    let points = scenario_track();
    let r = accumulate(&points, 100, 200);
    assert_eq!(r, ElevationDelta { gain_mm: 0, loss_mm: 0 });
}

#[test]
fn negative_elevations_accumulate() {
    let points = vec![pt(0, -5_000), pt(1, -2_000), pt(2, -7_000)];
    let r = accumulate(&points, 0, 2);
    assert_eq!(r, ElevationDelta { gain_mm: 3_000, loss_mm: 5_000 });
}

#[test]
fn format_zero_seconds() {
    assert_eq!(format_duration(0), "0s");
}

#[test]
fn format_seconds_only() {
    assert_eq!(format_duration(59), "59s");
}

#[test]
fn format_minutes_and_seconds() {
    assert_eq!(format_duration(61), "1m1s");
}

#[test]
fn format_whole_hour_omits_minutes() {
    assert_eq!(format_duration(3600), "1h0s");
}

#[test]
fn format_hours_minutes_seconds() {
    assert_eq!(format_duration(3661), "1h1m1s");
}

#[test]
fn format_large_duration() {
    assert_eq!(format_duration(7325), "2h2m5s");
}

#[test]
fn format_day_long_duration() {
    assert_eq!(format_duration(86_400), "24h0s");
}
