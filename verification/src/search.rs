//! The best-effort leg search: a dual-mode sliding-window sweep over every
//! start sample, with linear interpolation at the threshold-crossing step.

use vstd::prelude::*;
use crate::track::{
    TrackPoint, valid_track, valid_point, times_nondecreasing, cum_dist, lemma_cum_dist_nonneg,
    lemma_cum_dist_bound, lemma_time_mono, MAX_STEP_MM, MAX_TIME_S, MAX_TRACK_LEN,
};

verus! {

/// The search constraint: either find the maximum distance covered within a
/// fixed elapsed time (seconds), or the minimum elapsed time to cover a
/// fixed distance (millimeters).  Thresholds must be positive.
#[derive(Clone, Copy, PartialEq, Eq, Structural, Debug)]
pub enum Constraint {
    FixedDuration(u64),
    FixedDistance(u64),
}

/// The winning leg: its extremal value, and the timestamps of the samples
/// bracketing the step in which the threshold was crossed.  `value` is in
/// millimeters under `FixedDuration` and in milliseconds under
/// `FixedDistance`.
#[derive(Clone, Copy, PartialEq, Eq, Structural, Debug)]
pub struct BestEffortResult {
    pub value: u64,
    pub start_s: u64,
    pub end_s: u64,
}

/// Why a search returned no leg.  A zero threshold is rejected before the
/// search begins; a timestamp stepping backwards is a fatal input-data
/// error; a track that never reaches the threshold has no result.  An
/// interpolation step that lands exactly on the threshold is not an error:
/// the whole step is counted (the fraction clamps to one).
#[derive(Clone, Copy, PartialEq, Eq, Structural, Debug)]
pub enum SearchError {
    InvalidConstraint,
    NonMonotonicTimestamps,
    NoResult,
}

pub open spec fn threshold(c: Constraint) -> int {
    match c {
        Constraint::FixedDuration(t) => t as int,
        Constraint::FixedDistance(d) => d as int,
    }
}

/// Whether the walk that started at sample `i` has reached the threshold by
/// sample `j`.
pub open spec fn crosses(s: Seq<TrackPoint>, c: Constraint, i: int, j: int) -> bool {
    match c {
        Constraint::FixedDuration(t) => s[j].time_s - s[i].time_s >= t,
        Constraint::FixedDistance(d) => cum_dist(s, i, j) >= d,
    }
}

/// The least `j` in `[from, s.len())` at which the walk from `i` crosses the
/// threshold, or `s.len()` if it never does.
pub open spec fn first_cross_from(s: Seq<TrackPoint>, c: Constraint, i: int, from: int) -> int
    decreases s.len() - from,
{
    if from >= s.len() {
        s.len() as int
    } else if crosses(s, c, i, from) {
        from
    } else {
        first_cross_from(s, c, i, from + 1)
    }
}

/// The sample at which the walk from `i` first crosses the threshold, or
/// `s.len()` if the leg starting at `i` never reaches it.
pub open spec fn first_cross(s: Seq<TrackPoint>, c: Constraint, i: int) -> int {
    first_cross_from(s, c, i, i + 1)
}

/// Whether the start sample `i` contributes a candidate leg at all.
pub open spec fn has_cand(s: Seq<TrackPoint>, c: Constraint, i: int) -> bool {
    first_cross(s, c, i) < s.len()
}

/// The value achieved by the leg from `i` whose threshold-crossing step ends
/// at `j`, with the crossing step taken only in the linear-interpolation
/// fraction that the threshold asks for (whole quotients, rounded down).
/// Under `FixedDuration` this is a distance in millimeters; under
/// `FixedDistance` an elapsed time in milliseconds.
pub open spec fn step_value(s: Seq<TrackPoint>, c: Constraint, i: int, j: int) -> int {
    match c {
        Constraint::FixedDuration(t) => {
            let ct = s[j - 1].time_s - s[i].time_s;
            let tt = s[j].time_s - s[j - 1].time_s;
            cum_dist(s, i, j - 1) + (s[j].step_mm * (t - ct)) / tt
        },
        Constraint::FixedDistance(d) => {
            let ct = s[j - 1].time_s - s[i].time_s;
            let tt = s[j].time_s - s[j - 1].time_s;
            let cd = cum_dist(s, i, j - 1);
            ct * 1000 + (tt * 1000 * (d - cd)) / (s[j].step_mm as int)
        },
    }
}

/// The value achieved by the candidate leg starting at sample `i`.
pub open spec fn cand_value(s: Seq<TrackPoint>, c: Constraint, i: int) -> int {
    step_value(s, c, i, first_cross(s, c, i))
}

/// Whether a candidate value strictly improves on the best so far: larger
/// distance under `FixedDuration`, smaller time under `FixedDistance`.
/// Equal values never improve, so the earliest start wins ties.
pub open spec fn improves(c: Constraint, new: int, cur: int) -> bool {
    match c {
        Constraint::FixedDuration(_) => new > cur,
        Constraint::FixedDistance(_) => new < cur,
    }
}

/// `r` is the candidate of start sample `i`, and no earlier start achieves
/// the same value.
pub open spec fn is_winner_at(s: Seq<TrackPoint>, c: Constraint, i: int, r: BestEffortResult) -> bool {
    &&& 0 <= i < s.len()
    &&& has_cand(s, c, i)
    &&& r.value == cand_value(s, c, i)
    &&& r.start_s == s[i].time_s
    &&& r.end_s == s[first_cross(s, c, i)].time_s
    &&& forall|k: int| 0 <= k < i && has_cand(s, c, k) ==> cand_value(s, c, k) != r.value
}

/// `r` is the best candidate over all start samples, and comes from the
/// earliest start that achieves its value.
pub open spec fn is_best(s: Seq<TrackPoint>, c: Constraint, r: BestEffortResult) -> bool {
    &&& exists|i: int| is_winner_at(s, c, i, r)
    &&& forall|k: int|
        0 <= k < s.len() && has_cand(s, c, k) ==> !improves(c, cand_value(s, c, k), r.value as int)
}

/// If the walk from `i` crosses nowhere in `[a, b)`, the first crossing at
/// or after `a` is the first crossing at or after `b`.
proof fn lemma_first_cross_skip(s: Seq<TrackPoint>, c: Constraint, i: int, a: int, b: int)
    requires
        a <= b,
        forall|m: int| a <= m < b ==> !crosses(s, c, i, m),
    ensures
        first_cross_from(s, c, i, a) == first_cross_from(s, c, i, b),
    decreases b - a,
{
    if a < b {
        if a < s.len() {
            assert(!crosses(s, c, i, a));
        }
        lemma_first_cross_skip(s, c, i, a + 1, b);
    }
}

/// Where the walk from `i` first crosses at or after `from`: no earlier
/// sample in `[from, s.len())` crosses, and the crossing sample (when there
/// is one) does.
proof fn lemma_first_cross_from_props(s: Seq<TrackPoint>, c: Constraint, i: int, from: int)
    requires
        from <= s.len(),
    ensures
        from <= first_cross_from(s, c, i, from) <= s.len(),
        first_cross_from(s, c, i, from) < s.len() ==> crosses(s, c, i, first_cross_from(s, c, i, from)),
        forall|m: int| from <= m < first_cross_from(s, c, i, from) ==> !crosses(s, c, i, m),
    decreases s.len() - from,
{
    if from < s.len() && !crosses(s, c, i, from) {
        lemma_first_cross_from_props(s, c, i, from + 1);
    }
}

/// A candidate leg's crossing sample is the first to reach the threshold:
/// it lies strictly after the start, it crosses, and no earlier sample of
/// the walk does.
pub proof fn lemma_candidate_brackets_threshold(s: Seq<TrackPoint>, c: Constraint, i: int)
    requires
        0 <= i < s.len(),
        has_cand(s, c, i),
    ensures
        i < first_cross(s, c, i) < s.len(),
        crosses(s, c, i, first_cross(s, c, i)),
        forall|m: int| i < m < first_cross(s, c, i) ==> !crosses(s, c, i, m),
{
    lemma_first_cross_from_props(s, c, i, i + 1);
}

/// A track of fewer than two samples has no step to walk, so no start
/// contributes a candidate leg.
pub proof fn lemma_short_track_no_candidate(s: Seq<TrackPoint>, c: Constraint, i: int)
    requires
        s.len() < 2,
        0 <= i < s.len(),
    ensures
        !has_cand(s, c, i),
{
}

/// When the elapsed time at the crossing sample equals the duration
/// threshold exactly, the interpolation fraction clamps to one: the whole
/// crossing step is counted, and the search does not fail.
pub proof fn lemma_duration_boundary_counts_full_step(s: Seq<TrackPoint>, t: u64, i: int)
    requires
        valid_track(s),
        times_nondecreasing(s),
        t > 0,
        0 <= i,
        has_cand(s, Constraint::FixedDuration(t), i),
        s[first_cross(s, Constraint::FixedDuration(t), i)].time_s - s[i].time_s == t,
    ensures
        cand_value(s, Constraint::FixedDuration(t), i)
            == cum_dist(s, i, first_cross(s, Constraint::FixedDuration(t), i)),
{
    let c = Constraint::FixedDuration(t);
    let j = first_cross(s, c, i);
    lemma_first_cross_from_props(s, c, i, i + 1);
    let ct = s[j - 1].time_s - s[i].time_s;
    let tt = s[j].time_s - s[j - 1].time_s;
    if j - 1 > i {
        assert(!crosses(s, c, i, j - 1));
    }
    assert(ct < t);
    assert(tt == t - ct);
    assert((s[j].step_mm * tt) / tt == s[j].step_mm) by (nonlinear_arith)
        requires tt > 0;
}

/// When the distance walked through the crossing sample equals the distance
/// threshold exactly, the interpolation fraction clamps to one: the whole
/// crossing step's time is counted, and the search does not fail.
pub proof fn lemma_distance_boundary_counts_full_step(s: Seq<TrackPoint>, d: u64, i: int)
    requires
        valid_track(s),
        times_nondecreasing(s),
        d > 0,
        0 <= i,
        has_cand(s, Constraint::FixedDistance(d), i),
        cum_dist(s, i, first_cross(s, Constraint::FixedDistance(d), i)) == d,
    ensures
        cand_value(s, Constraint::FixedDistance(d), i)
            == (s[first_cross(s, Constraint::FixedDistance(d), i)].time_s - s[i].time_s) * 1000,
{
    let c = Constraint::FixedDistance(d);
    let j = first_cross(s, c, i);
    lemma_first_cross_from_props(s, c, i, i + 1);
    let cd = cum_dist(s, i, j - 1);
    let tt = s[j].time_s - s[j - 1].time_s;
    if j - 1 > i {
        assert(!crosses(s, c, i, j - 1));
    } else {
        assert(cum_dist(s, i, j - 1) == 0);
    }
    assert(cd < d);
    assert(s[j].step_mm == d - cd);
    assert((tt * 1000 * (s[j].step_mm as int)) / (s[j].step_mm as int) == tt * 1000)
        by (nonlinear_arith)
        requires s[j].step_mm > 0;
}

/// The interpolated candidate value lies within its crossing step: the
/// fraction of the final step attributed to the leg is between zero and
/// one.  Under `FixedDuration`, the value is at least the distance walked
/// before the crossing step and at most the distance through it.
pub proof fn lemma_duration_value_within_step(s: Seq<TrackPoint>, t: u64, i: int)
    requires
        valid_track(s),
        times_nondecreasing(s),
        t > 0,
        0 <= i,
        has_cand(s, Constraint::FixedDuration(t), i),
    ensures
        cum_dist(s, i, first_cross(s, Constraint::FixedDuration(t), i) - 1)
            <= cand_value(s, Constraint::FixedDuration(t), i)
            <= cum_dist(s, i, first_cross(s, Constraint::FixedDuration(t), i)),
{
    let c = Constraint::FixedDuration(t);
    let j = first_cross(s, c, i);
    lemma_first_cross_from_props(s, c, i, i + 1);
    lemma_time_mono(s, i, j - 1);
    lemma_time_mono(s, j - 1, j);
    let ct = s[j - 1].time_s - s[i].time_s;
    let tt = s[j].time_s - s[j - 1].time_s;
    let rem = t - ct;
    if j - 1 > i {
        assert(!crosses(s, c, i, j - 1));
    }
    assert(ct < t);
    assert(crosses(s, c, i, j));
    assert(rem <= tt);
    assert(0 <= (s[j].step_mm * rem) / tt <= s[j].step_mm) by (nonlinear_arith)
        requires
            0 <= rem <= tt,
            0 < tt,
            0 <= s[j].step_mm;
}

/// Under `FixedDistance`, the candidate value is at least the time elapsed
/// before the crossing step and at most the time through it.
pub proof fn lemma_distance_value_within_step(s: Seq<TrackPoint>, d: u64, i: int)
    requires
        valid_track(s),
        times_nondecreasing(s),
        d > 0,
        0 <= i,
        has_cand(s, Constraint::FixedDistance(d), i),
    ensures
        (s[first_cross(s, Constraint::FixedDistance(d), i) - 1].time_s - s[i].time_s) * 1000
            <= cand_value(s, Constraint::FixedDistance(d), i)
            <= (s[first_cross(s, Constraint::FixedDistance(d), i)].time_s - s[i].time_s) * 1000,
{
    let c = Constraint::FixedDistance(d);
    let j = first_cross(s, c, i);
    lemma_first_cross_from_props(s, c, i, i + 1);
    lemma_time_mono(s, i, j - 1);
    lemma_time_mono(s, j - 1, j);
    let ct = s[j - 1].time_s - s[i].time_s;
    let tt = s[j].time_s - s[j - 1].time_s;
    let cd = cum_dist(s, i, j - 1);
    let rem = d - cd;
    if j - 1 > i {
        assert(!crosses(s, c, i, j - 1));
    } else {
        assert(cum_dist(s, i, j - 1) == 0);
    }
    assert(cd < d);
    assert(crosses(s, c, i, j));
    assert(rem <= s[j].step_mm);
    assert(0 <= (tt * 1000 * rem) / (s[j].step_mm as int) <= tt * 1000) by (nonlinear_arith)
        requires
            0 <= rem <= s[j].step_mm,
            0 < s[j].step_mm,
            0 <= tt;
    assert(ct * 1000 + tt * 1000 == (s[j].time_s - s[i].time_s) * 1000);
}

/// Walk forward from start sample `i`, accumulating distance and time, and
/// report the interpolated value and end timestamp of the candidate leg, or
/// `None` if the walk exhausts the track without crossing the threshold.
fn walk_from(points: &Vec<TrackPoint>, c: Constraint, i: usize) -> (res: Option<(u64, u64)>)
    requires
        valid_track(points@),
        times_nondecreasing(points@),
        threshold(c) > 0,
        i < points@.len(),
    ensures
        match res {
            Some(p) => {
                &&& has_cand(points@, c, i as int)
                &&& p.0 == cand_value(points@, c, i as int)
                &&& p.1 == points@[first_cross(points@, c, i as int)].time_s
            },
            None => !has_cand(points@, c, i as int),
        },
{
    let ghost s = points@;
    let n: usize = points.len();
    let t0: u64 = points[i].time_s;
    let mut cd: u64 = 0;
    let mut j: usize = i + 1;
    while j < n
        invariant
            valid_track(s),
            times_nondecreasing(s),
            threshold(c) > 0,
            s == points@,
            n == s.len(),
            i < j <= n,
            t0 == s[i as int].time_s,
            cd == cum_dist(s, i as int, j - 1),
            forall|m: int| i < m < j ==> !crosses(s, c, i as int, m),
        decreases n - j,
    {
        proof {
            assert(valid_point(s[i as int]));
            assert(valid_point(s[j as int]));
            assert(valid_point(s[j - 1]));
            lemma_time_mono(s, i as int, j - 1);
            lemma_time_mono(s, j - 1, j as int);
            lemma_cum_dist_nonneg(s, i as int, j - 1);
            lemma_cum_dist_bound(s, i as int, j - 1);
            lemma_cum_dist_bound(s, i as int, j as int);
            assert((j - 1 - i as int) * MAX_STEP_MM <= (MAX_TRACK_LEN - 1) * MAX_STEP_MM)
                by (nonlinear_arith)
                requires j - 1 - i as int <= MAX_TRACK_LEN - 1;
            assert((j - i as int) * MAX_STEP_MM <= (MAX_TRACK_LEN as int) * MAX_STEP_MM)
                by (nonlinear_arith)
                requires j - i as int <= MAX_TRACK_LEN as int;
        }
        let tprev: u64 = points[j - 1].time_s;
        let tj: u64 = points[j].time_s;
        let sd: u64 = points[j].step_mm;
        let ct: u64 = tprev - t0;
        let tt: u64 = tj - tprev;
        match c {
            Constraint::FixedDuration(t) => {
                if ct + tt >= t {
                    proof {
                        if j - 1 > i {
                            assert(!crosses(s, c, i as int, j - 1));
                        }
                        assert(ct < t);
                        assert(tt > 0);
                        lemma_first_cross_skip(s, c, i as int, i as int + 1, j as int);
                        assert(crosses(s, c, i as int, j as int));
                        assert(first_cross(s, c, i as int) == j as int);
                    }
                    let rem: u64 = t - ct;
                    proof {
                        let sdi: int = sd as int;
                        let remi: int = rem as int;
                        let tti: int = tt as int;
                        assert(sdi * remi <= sdi * tti && sdi * remi / tti <= sdi
                            && sdi * remi <= MAX_STEP_MM * MAX_TIME_S) by (nonlinear_arith)
                            requires
                                0 <= remi <= tti,
                                0 < tti <= MAX_TIME_S,
                                0 <= sdi <= MAX_STEP_MM;
                    }
                    let part: u128 = (sd as u128) * (rem as u128) / (tt as u128);
                    let v: u64 = cd + (part as u64);
                    return Some((v, tj));
                }
            },
            Constraint::FixedDistance(d) => {
                if cd + sd >= d {
                    proof {
                        if j - 1 > i {
                            assert(!crosses(s, c, i as int, j - 1));
                        }
                        assert(cd < d);
                        assert(cd + sd >= d);
                        assert(sd > 0);
                        lemma_first_cross_skip(s, c, i as int, i as int + 1, j as int);
                        assert(crosses(s, c, i as int, j as int));
                        assert(first_cross(s, c, i as int) == j as int);
                    }
                    let rem: u64 = d - cd;
                    proof {
                        let sdi: int = sd as int;
                        let remi: int = rem as int;
                        let tti: int = tt as int;
                        assert(tti * 1000 * remi / sdi <= tti * 1000
                            && tti * 1000 * remi <= MAX_TIME_S * 1000 * MAX_STEP_MM) by (nonlinear_arith)
                            requires
                                0 <= remi <= sdi,
                                0 < sdi <= MAX_STEP_MM,
                                0 <= tti <= MAX_TIME_S;
                    }
                    let num: u128 = (tt as u128) * 1000 * (rem as u128);
                    let part: u128 = num / (sd as u128);
                    let v: u64 = ct * 1000 + (part as u64);
                    return Some((v, tj));
                }
            },
        }
        proof {
            assert(!crosses(s, c, i as int, j as int));
        }
        cd = cd + sd;
        j = j + 1;
    }
    proof {
        lemma_first_cross_skip(s, c, i as int, i as int + 1, n as int);
    }
    None
}

/// Find the best leg of the track under the constraint.
///
/// A zero threshold is `InvalidConstraint`; a timestamp stepping backwards
/// anywhere in the track is `NonMonotonicTimestamps`; a track no walk of
/// which ever reaches the threshold (in particular one of fewer than two
/// samples) is `NoResult`.  Otherwise the result is the extremal candidate
/// over all start samples, a later start replacing an earlier one only on
/// strict improvement, so the earliest start wins ties.
pub fn find_best(points: &Vec<TrackPoint>, c: Constraint) -> (r: Result<BestEffortResult, SearchError>)
    requires
        valid_track(points@),
    ensures
        match r {
            Ok(res) => {
                &&& threshold(c) > 0
                &&& times_nondecreasing(points@)
                &&& is_best(points@, c, res)
            },
            Err(SearchError::InvalidConstraint) => threshold(c) == 0,
            Err(SearchError::NonMonotonicTimestamps) => {
                &&& threshold(c) > 0
                &&& !times_nondecreasing(points@)
            },
            Err(SearchError::NoResult) => {
                &&& threshold(c) > 0
                &&& times_nondecreasing(points@)
                &&& forall|i: int| 0 <= i < points@.len() ==> !has_cand(points@, c, i)
            },
        },
{
    let ghost s = points@;
    let zero: bool = match c {
        Constraint::FixedDuration(t) => t == 0,
        Constraint::FixedDistance(d) => d == 0,
    };
    if zero {
        return Err(SearchError::InvalidConstraint);
    }
    let n: usize = points.len();
    let mut k: usize = 1;
    while k < n
        invariant
            s == points@,
            n == s.len(),
            threshold(c) > 0,
            1 <= k,
            forall|m: int| 1 <= m < k ==> s[m - 1].time_s <= (#[trigger] s[m]).time_s,
        decreases n - k,
    {
        if points[k].time_s < points[k - 1].time_s {
            proof {
                assert(!times_nondecreasing(s)) by {
                    assert(s[k as int - 1].time_s > s[k as int].time_s);
                }
            }
            return Err(SearchError::NonMonotonicTimestamps);
        }
        k = k + 1;
    }
    assert(times_nondecreasing(s));
    let mut best: Option<BestEffortResult> = None;
    let ghost mut widx: int = 0;
    let mut i: usize = 0;
    while i < n
        invariant
            valid_track(s),
            times_nondecreasing(s),
            threshold(c) > 0,
            s == points@,
            n == s.len(),
            i <= n,
            (match best {
                None => forall|m: int| 0 <= m < i ==> !has_cand(s, c, m),
                Some(b) => {
                    &&& 0 <= widx < i
                    &&& is_winner_at(s, c, widx, b)
                    &&& forall|m: int|
                        0 <= m < i && has_cand(s, c, m) ==> !improves(c, cand_value(s, c, m), b.value as int)
                },
            }),
        decreases n - i,
    {
        let cand = walk_from(points, c, i);
        match cand {
            None => {},
            Some(p) => {
                let candidate = BestEffortResult { value: p.0, start_s: points[i].time_s, end_s: p.1 };
                match best {
                    None => {
                        best = Some(candidate);
                        proof {
                            widx = i as int;
                        }
                    },
                    Some(b) => {
                        let takes: bool = match c {
                            Constraint::FixedDuration(_) => candidate.value > b.value,
                            Constraint::FixedDistance(_) => candidate.value < b.value,
                        };
                        if takes {
                            proof {
                                assert forall|m: int| 0 <= m < i as int && has_cand(s, c, m)
                                    implies cand_value(s, c, m) != candidate.value as int by {
                                    assert(!improves(c, cand_value(s, c, m), b.value as int));
                                }
                            }
                            best = Some(candidate);
                            proof {
                                widx = i as int;
                            }
                        }
                    },
                }
            },
        }
        i = i + 1;
    }
    match best {
        None => Err(SearchError::NoResult),
        Some(b) => {
            proof {
                assert(is_winner_at(s, c, widx, b));
            }
            Ok(b)
        },
    }
}

} // verus!
