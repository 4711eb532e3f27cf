//! A single GPS fix.
//!
//! Coordinates are stored in microdegrees (1e-6 degree), elevation in
//! millimetres, and the timestamp in milliseconds since the Unix epoch.
use vstd::prelude::*;

verus! {

/// Timestamp given to a freshly constructed point, and to a point whose
/// timestamp could not be read from a file: one second past the epoch.
pub const SENTINEL_TIME_MS: i64 = 1000;

/// Latest supported timestamp: one millisecond before the day with index
/// 156_000 (early in year 2397), the top of the calendar range this library
/// can print.
pub const MAX_TIME_MS: i64 = 13_478_399_999_999;

/// One GPS fix: position, elevation and time, all fixed-point integers.
#[derive(Debug, Clone, Copy, PartialEq, Eq, Structural)]
pub struct Point {
    /// Latitude in microdegrees, in [-90_000_000, 90_000_000].
    pub lat: i64,
    /// Longitude in microdegrees, in [-180_000_000, 180_000_000].
    pub long: i64,
    /// Elevation in millimetres, within ten thousand kilometres of the
    /// sphere.
    pub ele: i64,
    /// Milliseconds since 1970-01-01T00:00:00Z.
    pub time: i64,
}

impl Point {
    /// Bounds under which every computation in this library is overflow-free.
    pub open spec fn valid(self) -> bool {
        &&& -90_000_000 <= self.lat <= 90_000_000
        &&& -180_000_000 <= self.long <= 180_000_000
        &&& -9_999_999_999 <= self.ele <= 9_999_999_999
        &&& 0 <= self.time <= MAX_TIME_MS
    }

    /// A point at the origin with the sentinel timestamp.
    pub fn new() -> (r: Point)
        ensures
            r.lat == 0,
            r.long == 0,
            r.ele == 0,
            r.time == SENTINEL_TIME_MS,
            r.valid(),
    {
        Point { lat: 0, long: 0, ele: 0, time: SENTINEL_TIME_MS }
    }
}

/// All points of a sequence are within bounds.
pub open spec fn all_valid(s: Seq<Point>) -> bool {
    forall|i: int| 0 <= i < s.len() ==> (#[trigger] s[i]).valid()
}

} // verus!
