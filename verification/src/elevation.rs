//! Elevation gain and loss summed over a time interval of a track.

use vstd::prelude::*;
use crate::track::{TrackPoint, valid_track, valid_point, MAX_ELE_MM, MAX_TRACK_LEN};

verus! {

/// Total climb and total descent over an interval, both non-negative, in
/// millimeters.
#[derive(Clone, Copy, PartialEq, Eq, Structural, Debug)]
pub struct ElevationDelta {
    pub gain_mm: u64,
    pub loss_mm: u64,
}

/// Scan from sample `k` on, looking for the first in-range sample, whose
/// elevation becomes the baseline; it contributes no delta of its own.
/// Samples before `start` are skipped; the scan stops at the first sample
/// after `end`.  Returns `(gain, loss)` in millimeters.
pub open spec fn elev_seek(s: Seq<TrackPoint>, k: int, start: int, end: int) -> (int, int)
    decreases s.len() - k, 1int,
{
    if k < 0 || k >= s.len() {
        (0, 0)
    } else if s[k].time_s > end {
        (0, 0)
    } else if s[k].time_s < start {
        elev_seek(s, k + 1, start, end)
    } else {
        elev_acc(s, k + 1, s[k].ele_mm as int, start, end)
    }
}

/// Scan from sample `k` on with baseline elevation `prev`: each in-range
/// sample contributes its delta against the previous in-range sample.
pub open spec fn elev_acc(s: Seq<TrackPoint>, k: int, prev: int, start: int, end: int) -> (int, int)
    decreases s.len() - k, 0int,
{
    if k < 0 || k >= s.len() {
        (0, 0)
    } else if s[k].time_s > end {
        (0, 0)
    } else if s[k].time_s < start {
        elev_acc(s, k + 1, prev, start, end)
    } else {
        let rest = elev_acc(s, k + 1, s[k].ele_mm as int, start, end);
        if s[k].ele_mm >= prev {
            (rest.0 + s[k].ele_mm - prev, rest.1)
        } else {
            (rest.0, rest.1 + prev - s[k].ele_mm)
        }
    }
}

/// Sum the elevation gained and lost over the samples whose timestamps fall
/// in `[start_s, end_s]`, scanning in track order: samples before `start_s`
/// are skipped, and the scan stops at the first sample after `end_s`.  The
/// first in-range sample only establishes the baseline.
pub fn accumulate(points: &Vec<TrackPoint>, start_s: u64, end_s: u64) -> (r: ElevationDelta)
    requires
        valid_track(points@),
    ensures
        r.gain_mm == elev_seek(points@, 0, start_s as int, end_s as int).0,
        r.loss_mm == elev_seek(points@, 0, start_s as int, end_s as int).1,
{
    let ghost s = points@;
    let ghost st: int = start_s as int;
    let ghost en: int = end_s as int;
    let n: usize = points.len();
    let mut gain: u64 = 0;
    let mut loss: u64 = 0;
    let mut prev: Option<i64> = None;
    let mut k: usize = 0;
    while k < n
        invariant
            valid_track(s),
            s == points@,
            st == start_s as int,
            en == end_s as int,
            n == s.len(),
            k <= n,
            gain <= k * (2 * MAX_ELE_MM),
            loss <= k * (2 * MAX_ELE_MM),
            (match prev {
                None => {
                    &&& elev_seek(s, 0, st, en).0 == gain + elev_seek(s, k as int, st, en).0
                    &&& elev_seek(s, 0, st, en).1 == loss + elev_seek(s, k as int, st, en).1
                }
                Some(p) => {
                    &&& -MAX_ELE_MM <= p <= MAX_ELE_MM
                    &&& elev_seek(s, 0, st, en).0 == gain + elev_acc(s, k as int, p as int, st, en).0
                    &&& elev_seek(s, 0, st, en).1 == loss + elev_acc(s, k as int, p as int, st, en).1
                }
            }),
        decreases n - k,
    {
        assert(valid_point(s[k as int]));
        let t: u64 = points[k].time_s;
        if t > end_s {
            return ElevationDelta { gain_mm: gain, loss_mm: loss };
        }
        proof {
            lemma_delta_sum_bound(k as int, gain as int);
            lemma_delta_sum_bound(k as int, loss as int);
        }
        if t >= start_s {
            let e: i64 = points[k].ele_mm;
            match prev {
                None => {},
                Some(p) => {
                    if e >= p {
                        gain = gain + ((e - p) as u64);
                    } else {
                        loss = loss + ((p - e) as u64);
                    }
                },
            }
            prev = Some(e);
        }
        k = k + 1;
    }
    ElevationDelta { gain_mm: gain, loss_mm: loss }
}

/// One more delta never pushes a running gain or loss sum past what the
/// whole track could contribute, which is far below `u64::MAX`.
proof fn lemma_delta_sum_bound(k: int, g: int)
    requires
        0 <= k < MAX_TRACK_LEN,
        g <= k * (2 * MAX_ELE_MM),
    ensures
        g + 2 * MAX_ELE_MM <= (k + 1) * (2 * MAX_ELE_MM),
        (k + 1) * (2 * MAX_ELE_MM) <= (MAX_TRACK_LEN as int) * (2 * MAX_ELE_MM),
{
    assert(k * (2 * MAX_ELE_MM) + 2 * MAX_ELE_MM == (k + 1) * (2 * MAX_ELE_MM)) by (nonlinear_arith);
    assert((k + 1) * (2 * MAX_ELE_MM) <= (MAX_TRACK_LEN as int) * (2 * MAX_ELE_MM))
        by (nonlinear_arith)
        requires k + 1 <= MAX_TRACK_LEN;
}

/// Over an out-of-order interval (`end` before `start`) no sample is in
/// range, so nothing is gained or lost.
pub proof fn lemma_empty_interval_no_delta(s: Seq<TrackPoint>, k: int, start: int, end: int)
    requires
        end < start,
    ensures
        elev_seek(s, k, start, end) == (0int, 0int),
    decreases s.len() - k,
{
    if 0 <= k < s.len() && s[k].time_s <= end {
        lemma_empty_interval_no_delta(s, k + 1, start, end);
    }
}

} // verus!
