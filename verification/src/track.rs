//! Track samples and the distance/time measures the search is stated over.

use vstd::prelude::*;
use crate::geomath::{distance, distance_spec, valid_position, GeoPoint};

verus! {

/// Largest number of samples a track may hold.  Together with
/// [`MAX_STEP_MM`] this keeps every cumulative distance below `u64::MAX`.
pub const MAX_TRACK_LEN: usize = 400_000_000;

/// Largest admissible step distance, in millimeters: generously above the
/// Earth's circumference, so any great-circle distance fits.
pub const MAX_STEP_MM: u64 = 41_000_000_000;

/// Largest admissible timestamp, in seconds since the epoch.
pub const MAX_TIME_S: u64 = 4_000_000_000_000;

/// Largest admissible elevation magnitude, in millimeters.
pub const MAX_ELE_MM: i64 = 10_000_000_000;

/// One recorded sample of a track.
///
/// `time_s` is the timestamp in whole seconds, `ele_mm` the elevation in
/// millimeters, and `step_mm` the great-circle distance in millimeters from
/// the previous sample of the track (unused on the first sample).
#[derive(Clone, Copy, PartialEq, Eq, Structural, Debug)]
pub struct TrackPoint {
    pub time_s: u64,
    pub ele_mm: i64,
    pub step_mm: u64,
}

/// A sample whose fields are within the machine-limit bounds.
pub open spec fn valid_point(p: TrackPoint) -> bool {
    &&& p.time_s <= MAX_TIME_S
    &&& p.step_mm <= MAX_STEP_MM
    &&& -MAX_ELE_MM <= p.ele_mm <= MAX_ELE_MM
}

/// A track short enough, and with samples bounded enough, that no sum the
/// library forms can overflow a 64-bit integer.
pub open spec fn valid_track(s: Seq<TrackPoint>) -> bool {
    &&& s.len() <= MAX_TRACK_LEN
    &&& forall|k: int| 0 <= k < s.len() ==> valid_point(s[k])
}

/// Timestamps never step backwards anywhere in the track.
pub open spec fn times_nondecreasing(s: Seq<TrackPoint>) -> bool {
    forall|k: int| 1 <= k < s.len() ==> s[k - 1].time_s <= (#[trigger] s[k]).time_s
}

/// Distance walked from sample `i` to sample `j`, in millimeters: the sum of
/// the step distances of samples `i + 1 ..= j`.
pub open spec fn cum_dist(s: Seq<TrackPoint>, i: int, j: int) -> int
    decreases j - i,
{
    if j <= i {
        0
    } else {
        cum_dist(s, i, j - 1) + s[j].step_mm
    }
}

pub proof fn lemma_cum_dist_nonneg(s: Seq<TrackPoint>, i: int, j: int)
    ensures
        cum_dist(s, i, j) >= 0,
    decreases j - i,
{
    if j > i {
        lemma_cum_dist_nonneg(s, i, j - 1);
    }
}

pub proof fn lemma_cum_dist_bound(s: Seq<TrackPoint>, i: int, j: int)
    requires
        valid_track(s),
        0 <= i <= j,
        j < s.len(),
    ensures
        cum_dist(s, i, j) <= (j - i) * MAX_STEP_MM,
    decreases j - i,
{
    if j <= i {
    } else {
        lemma_cum_dist_bound(s, i, j - 1);
        assert(valid_point(s[j]));
        assert((j - 1 - i) * MAX_STEP_MM + MAX_STEP_MM == (j - i) * MAX_STEP_MM) by (nonlinear_arith);
    }
}

/// One positioned, timestamped sample, before its distance from the
/// previous sample has been computed.
#[derive(Clone, Copy, PartialEq, Eq, Structural, Debug)]
pub struct TrackSample {
    pub position: GeoPoint,
    pub time_s: u64,
    pub ele_mm: i64,
}

/// A sample with GPS-range coordinates and bounded time and elevation.
pub open spec fn valid_sample(s: TrackSample) -> bool {
    &&& valid_position(s.position)
    &&& s.time_s <= MAX_TIME_S
    &&& -MAX_ELE_MM <= s.ele_mm <= MAX_ELE_MM
}

/// Turn positioned samples into a track: each point keeps its sample's
/// timestamp and elevation, and carries the great-circle distance from the
/// previous sample as its step.
pub fn build_track(samples: &Vec<TrackSample>) -> (r: Vec<TrackPoint>)
    requires
        samples@.len() <= MAX_TRACK_LEN,
        forall|k: int| 0 <= k < samples@.len() ==> valid_sample(#[trigger] samples@[k]),
    ensures
        valid_track(r@),
        r@.len() == samples@.len(),
        forall|k: int| 0 <= k < r@.len() ==> {
            &&& (#[trigger] r@[k]).time_s == samples@[k].time_s
            &&& r@[k].ele_mm == samples@[k].ele_mm
        },
        forall|k: int| 1 <= k < r@.len() ==> (#[trigger] r@[k]).step_mm
            == distance_spec(samples@[k - 1].position, samples@[k].position),
        r@.len() > 0 ==> r@[0].step_mm == 0,
{
    let n: usize = samples.len();
    let mut r: Vec<TrackPoint> = Vec::new();
    let mut k: usize = 0;
    while k < n
        invariant
            n == samples@.len(),
            n <= MAX_TRACK_LEN,
            forall|m: int| 0 <= m < n ==> valid_sample(#[trigger] samples@[m]),
            k == r@.len(),
            k <= n,
            forall|m: int| 0 <= m < k ==> valid_point(#[trigger] r@[m]),
            forall|m: int| 0 <= m < k ==> {
                &&& (#[trigger] r@[m]).time_s == samples@[m].time_s
                &&& r@[m].ele_mm == samples@[m].ele_mm
            },
            forall|m: int| 1 <= m < k ==> (#[trigger] r@[m]).step_mm
                == distance_spec(samples@[m - 1].position, samples@[m].position),
            k > 0 ==> r@[0].step_mm == 0,
        decreases n - k,
    {
        let s = samples[k];
        let step: u64 = if k == 0 {
            0
        } else {
            distance(samples[k - 1].position, s.position)
        };
        r.push(TrackPoint { time_s: s.time_s, ele_mm: s.ele_mm, step_mm: step });
        k = k + 1;
    }
    r
}

/// In a chronologically ordered track, an earlier sample has no later
/// timestamp than a later one.
pub proof fn lemma_time_mono(s: Seq<TrackPoint>, a: int, b: int)
    requires
        times_nondecreasing(s),
        0 <= a <= b < s.len(),
    ensures
        s[a].time_s <= s[b].time_s,
    decreases b - a,
{
    if a < b {
        lemma_time_mono(s, a, b - 1);
    }
}

} // verus!
