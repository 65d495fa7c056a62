use gpxanalyzer::geomath::{distance, GeoPoint};
use gpxanalyzer::search::{find_best, BestEffortResult, Constraint};
use gpxanalyzer::track::{build_track, TrackSample, MAX_STEP_MM};

fn gp(lat_udeg: i64, lon_udeg: i64) -> GeoPoint {
    GeoPoint { lat_udeg, lon_udeg }
}

#[test]
fn distance_to_self_is_zero() {
    for p in [gp(0, 0), gp(45_000_000, 10_000_000), gp(-89_999_999, 179_999_999), gp(12_345, -54_321)] {
        assert_eq!(distance(p, p), 0);
    }
}

#[test]
fn distance_is_symmetric() {
    let pairs = [
        (gp(0, 0), gp(0, 1_000_000)),
        (gp(48_850_000, 2_350_000), gp(40_710_000, -74_000_000)),
        (gp(-30_000_000, 20_000_000), gp(50_000_000, -120_000_000)),
        (gp(89_999_999, 0), gp(-89_999_999, 179_999_999)),
    ];
    for (a, b) in pairs {
        assert_eq!(distance(a, b), distance(b, a));
    }
}

#[test]
fn one_degree_on_the_equator() {
    // 1 degree of longitude on the equator is about 111.195 km.
    let d = distance(gp(0, 0), gp(0, 1_000_000));
    assert_eq!(d, 111_194_926);
}

#[test]
fn paris_to_new_york() {
    // About 5837.1 km.
    let d = distance(gp(48_850_000, 2_350_000), gp(40_710_000, -74_000_000));
    assert_eq!(d, 5_837_140_560);
}

#[test]
fn antipodal_points_are_half_the_circumference() {
    let d = distance(gp(0, 0), gp(0, 180_000_000));
    assert_eq!(d, 20_015_086_796);
}

#[test]
fn one_meter_step_at_mid_latitude() {
    // 9 microdegrees of latitude is almost exactly one meter.
    let d = distance(gp(45_000_000, 0), gp(45_000_009, 0));
    assert_eq!(d, 1000);
}

#[test]
fn every_distance_fits_a_track_step() {
    let points = [
        gp(0, 0),
        gp(0, 180_000_000),
        gp(90_000_000, 0),
        gp(-90_000_000, 0),
        gp(-45_000_000, -90_000_000),
        gp(45_000_000, 90_000_000),
    ];
    for a in points {
        for b in points {
            assert!(distance(a, b) <= MAX_STEP_MM);
        }
    }
}

#[test]
fn build_track_computes_consecutive_steps() {
    let samples = vec![
        TrackSample { position: gp(45_000_000, 0), time_s: 0, ele_mm: 100_000 },
        TrackSample { position: gp(45_000_009, 0), time_s: 1, ele_mm: 101_000 },
        TrackSample { position: gp(45_000_018, 0), time_s: 2, ele_mm: 102_000 },
    ];
    let track = build_track(&samples);
    assert_eq!(track.len(), 3);
    assert_eq!(track[0].step_mm, 0);
    assert_eq!(track[1].step_mm, distance(gp(45_000_000, 0), gp(45_000_009, 0)));
    assert_eq!(track[2].step_mm, distance(gp(45_000_009, 0), gp(45_000_018, 0)));
    assert_eq!(track[1].step_mm, 1000);
    for k in 0..3 {
        assert_eq!(track[k].time_s, samples[k].time_s);
        assert_eq!(track[k].ele_mm, samples[k].ele_mm);
    }
}

#[test]
fn best_leg_over_real_positions() {
    // Points one meter and one second apart along a meridian at 45 N: the
    // best ten-second leg covers ten meters, from the earliest start.
    let mut samples = Vec::new();
    for k in 0..31i64 {
        samples.push(TrackSample {
            position: gp(45_000_000 + 9 * k, 0),
            time_s: k as u64,
            ele_mm: 0,
        });
    }
    let track = build_track(&samples);
    let r = find_best(&track, Constraint::FixedDuration(10));
    assert_eq!(
        r,
        Ok(BestEffortResult { value: 10_000, start_s: 0, end_s: 10 })
    );
}

#[test]
fn build_track_of_nothing_is_empty() {
    let samples: Vec<TrackSample> = Vec::new();
    assert_eq!(build_track(&samples).len(), 0);
}

#[test]
fn triangle_inequality_on_collinear_equator_points() {
    let a = gp(0, 0);
    let b = gp(0, 10_000_000);
    let c = gp(0, 20_000_000);
    assert!(distance(a, c) <= distance(a, b) + distance(b, c));
}

#[test]
fn triangle_inequality_on_collinear_meridian_points() {
    let a = gp(0, 0);
    let b = gp(30_000_000, 0);
    let c = gp(60_000_000, 0);
    assert!(distance(a, c) <= distance(a, b) + distance(b, c));
}
