//! Best-effort leg analysis for GPS tracks.
//!
//! Given an ordered sequence of timestamped, positioned samples, the library
//! finds the best contiguous leg under a fixed constraint: the maximum
//! distance covered within a fixed elapsed time, or the minimum elapsed time
//! to cover a fixed distance.  It also sums elevation gain and loss over a
//! chosen time interval, and formats durations for reporting.
//!
//! All quantities are fixed-point integers: positions in microdegrees,
//! timestamps in whole seconds, distances and elevations in millimeters.
//! The haversine distance between consecutive samples is computed by an
//! integer fixed-point kernel, so no floating point enters the library.

pub mod elevation;
pub mod geomath;
pub mod search;
pub mod timefmt;
pub mod track;
