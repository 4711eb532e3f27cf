//! A named, ordered sequence of GPS fixes, and its metrics.
use vstd::prelude::*;

use crate::geo::dist;
use crate::geo::dist_spec;
use crate::geo::lemma_dist_bounds;
use crate::geo::lemma_dist_zero;
use crate::geo::MAX_DIST_MM;
use crate::point::all_valid;
use crate::point::Point;

verus! {

/// Why a metric could not be computed.
#[derive(Debug, Clone, Copy, PartialEq, Eq, Structural)]
pub enum TrackError {
    /// A metric was asked of a track with no points.
    EmptyTrack,
    /// Average speed was asked of a track whose elapsed time is not positive.
    ZeroDuration,
}

/// Sum of the consecutive-pair distances over the index interval [a, b] of s:
/// dist(s[a], s[a+1]) + ... + dist(s[b-1], s[b]).  Zero when b <= a.
pub open spec fn seg_len(s: Seq<Point>, a: int, b: int) -> int
    decreases b - a,
{
    if b <= a {
        0
    } else {
        seg_len(s, a, b - 1) + dist_spec(s[b - 1], s[b])
    }
}

/// First index at or after k whose trailing interval [idx, b] is no longer
/// than cap, stopping at b (a single point) in any case: where the window
/// trimmer halts when it evicts points from the front of [k, b].
pub open spec fn trunc_start(s: Seq<Point>, k: int, b: int, cap: int) -> int
    decreases b - k,
{
    if k >= b {
        k
    } else if seg_len(s, k, b) <= cap {
        k
    } else {
        trunc_start(s, k + 1, b, cap)
    }
}

/// The trimmer's stopping index lies between k and b.
pub proof fn lemma_trunc_start_range(s: Seq<Point>, k: int, b: int, cap: int)
    requires
        k <= b,
    ensures
        k <= trunc_start(s, k, b, cap) <= b,
    decreases b - k,
{
    if k < b && seg_len(s, k, b) > cap {
        lemma_trunc_start_range(s, k + 1, b, cap);
    }
}

/// Elapsed time of the whole sequence in milliseconds: last minus first
/// timestamp.  The running accumulation of consecutive timestamp differences
/// telescopes to exactly this value, whether or not timestamps are monotonic.
pub open spec fn elapsed_ms(s: Seq<Point>) -> int {
    s[s.len() - 1].time - s[0].time
}

/// Average speed in millimetres per hour, rounded down: total length divided
/// by the elapsed time.  Meaningful only when the elapsed time is positive.
pub open spec fn speed_spec(s: Seq<Point>) -> int {
    seg_len(s, 0, s.len() - 1) * 3_600_000 / elapsed_ms(s)
}

/// seg_len splits additively at any interior index.
pub proof fn lemma_seg_len_split(s: Seq<Point>, a: int, m: int, b: int)
    requires
        a <= m <= b,
    ensures
        seg_len(s, a, b) == seg_len(s, a, m) + seg_len(s, m, b),
    decreases b - m,
{
    if b == m {
        assert(seg_len(s, m, b) == 0);
    } else {
        lemma_seg_len_split(s, a, m, b - 1);
    }
}

/// seg_len is a sum of non-negative terms.
pub proof fn lemma_seg_len_bounds(s: Seq<Point>, a: int, b: int)
    requires
        a <= b,
    ensures
        0 <= seg_len(s, a, b) <= (b - a) * (MAX_DIST_MM as int),
    decreases b - a,
{
    if a < b {
        lemma_seg_len_bounds(s, a, b - 1);
        lemma_dist_bounds(s[b - 1], s[b]);
        assert((b - 1 - a) * (MAX_DIST_MM as int) + (MAX_DIST_MM as int) == (b - a) * (
        MAX_DIST_MM as int)) by (nonlinear_arith);
    }
}

/// A track whose points all have equal coordinates has length zero.
pub proof fn lemma_colocated_len_zero(s: Seq<Point>, a: int, b: int)
    requires
        0 <= a <= b < s.len(),
        forall|i: int|
            0 <= i < s.len() ==> (#[trigger] s[i]).lat == s[0].lat && s[i].long == s[0].long,
    ensures
        seg_len(s, a, b) == 0,
    decreases b - a,
{
    if a < b {
        lemma_colocated_len_zero(s, a, b - 1);
        lemma_dist_zero(s[b - 1], s[b]);
    }
}

/// A track of colocated points has zero length, and zero average speed
/// whenever its elapsed time is positive.
pub proof fn lemma_colocated_track(s: Seq<Point>)
    requires
        s.len() >= 1,
        forall|i: int|
            0 <= i < s.len() ==> (#[trigger] s[i]).lat == s[0].lat && s[i].long == s[0].long,
    ensures
        seg_len(s, 0, s.len() - 1) == 0,
        elapsed_ms(s) > 0 ==> speed_spec(s) == 0,
{
    lemma_colocated_len_zero(s, 0, s.len() - 1);
}

/// A named, ordered sequence of GPS fixes.
#[derive(Debug)]
pub struct Track {
    pub name: String,
    pub points: Vec<Point>,
}

impl Default for Track {
    /// An empty, unnamed track.
    fn default() -> (r: Track)
        ensures
            r.name@ == Seq::<char>::empty(),
            r.points@ == Seq::<Point>::empty(),
    {
        Track { name: String::new(), points: Vec::new() }
    }
}

impl Track {
    /// All points are within the bounds every computation assumes.
    pub open spec fn wf(self) -> bool {
        all_valid(self.points@)
    }

    /// Total path length in millimetres: the sum of the great-circle
    /// distances over consecutive point pairs (the first point contributes
    /// the zero distance to itself).  A track without points has no length.
    pub fn len(&self) -> (r: Result<u128, TrackError>)
        requires
            self.wf(),
        ensures
            match r {
                Ok(v) => self.points@.len() >= 1 && v as int == seg_len(
                    self.points@,
                    0,
                    self.points@.len() - 1,
                ),
                Err(e) => e == TrackError::EmptyTrack && self.points@.len() == 0,
            },
    {
        let n = self.points.len();
        if n == 0 {
            return Err(TrackError::EmptyTrack);
        }
        let mut sum: u128 = 0;
        let mut i: usize = 1;
        while i < n
            invariant
                1 <= i <= n,
                n == self.points@.len(),
                self.wf(),
                sum as int == seg_len(self.points@, 0, i - 1),
                sum as int <= (i - 1) * (MAX_DIST_MM as int),
            decreases n - i,
        {
            let d = dist(&self.points[i - 1], &self.points[i]);
            proof {
                lemma_seg_len_bounds(self.points@, 0, i as int);
                assert((i - 1) * (MAX_DIST_MM as int) + (MAX_DIST_MM as int) == (i as int) * (
                MAX_DIST_MM as int)) by (nonlinear_arith);
                assert((i as int) * (MAX_DIST_MM as int) <= u128::MAX) by (nonlinear_arith)
                    requires
                        0 <= i as int <= usize::MAX,
                ;
            }
            sum = sum + d as u128;
            i = i + 1;
        }
        Ok(sum)
    }

    /// Elapsed time in milliseconds, accumulated over consecutive pairs as a
    /// running sum of timestamp differences; the sum telescopes to the last
    /// timestamp minus the first.  A track without points has no elapsed
    /// time.
    pub fn time(&self) -> (r: Result<i64, TrackError>)
        requires
            self.wf(),
        ensures
            match r {
                Ok(v) => self.points@.len() >= 1 && v == elapsed_ms(self.points@),
                Err(e) => e == TrackError::EmptyTrack && self.points@.len() == 0,
            },
    {
        let n = self.points.len();
        if n == 0 {
            return Err(TrackError::EmptyTrack);
        }
        let mut sum: i64 = 0;
        let mut prev: i64 = self.points[0].time;
        let mut i: usize = 1;
        while i < n
            invariant
                1 <= i <= n,
                n == self.points@.len(),
                self.wf(),
                prev == self.points@[i - 1].time,
                sum == self.points@[i - 1].time - self.points@[0].time,
            decreases n - i,
        {
            let cur = self.points[i].time;
            assert(self.points@[i as int].valid() && self.points@[0].valid());
            sum = sum + (cur - prev);
            prev = cur;
            i = i + 1;
        }
        Ok(sum)
    }

    /// Average speed in millimetres per hour, rounded down.  Fails on an
    /// empty track, and on a track whose elapsed time is zero or negative
    /// (out-of-order timestamps), where the quotient is undefined.
    pub fn speed(&self) -> (r: Result<u128, TrackError>)
        requires
            self.wf(),
        ensures
            match r {
                Ok(v) => self.points@.len() >= 1 && elapsed_ms(self.points@) > 0 && v as int
                    == speed_spec(self.points@),
                Err(TrackError::EmptyTrack) => self.points@.len() == 0,
                Err(TrackError::ZeroDuration) => self.points@.len() >= 1 && elapsed_ms(
                    self.points@,
                ) <= 0,
            },
    {
        let l = match self.len() {
            Ok(l) => l,
            Err(e) => {
                return Err(e);
            },
        };
        let t = match self.time() {
            Ok(t) => t,
            Err(e) => {
                return Err(e);
            },
        };
        if t <= 0 {
            return Err(TrackError::ZeroDuration);
        }
        let n = self.points.len();
        proof {
            lemma_seg_len_bounds(self.points@, 0, n - 1);
            assert((n - 1) * (MAX_DIST_MM as int) <= 400_000_000_000_000_000_000_000_000_000int)
                by (nonlinear_arith)
                requires
                    0 <= (n - 1) as int <= 18_446_744_073_709_551_615int,
            ;
            vstd::arithmetic::mul::lemma_mul_upper_bound(
                l as int,
                400_000_000_000_000_000_000_000_000_000int,
                3_600_000,
                3_600_000,
            );
        }
        Ok(l * 3_600_000 / (t as u128))
    }

    /// Evict points from the front while the remaining path is longer than
    /// length_mm, never going below a single point: afterwards the track is
    /// the minimal-length trailing suffix under the distance cap.
    pub fn truncate_by_length(&mut self, length_mm: u64)
        requires
            old(self).wf(),
            old(self).points@.len() >= 1,
        ensures
            final(self).name@ == old(self).name@,
            final(self).wf(),
            final(self).points@ == old(self).points@.skip(
                trunc_start(
                    old(self).points@,
                    0,
                    old(self).points@.len() - 1,
                    length_mm as int,
                ),
            ),
    {
        let ghost s = self.points@;
        let n = self.points.len();
        let ghost b = n - 1int;
        let ghost cap = length_mm as int;
        let mut sum: u128 = match self.len() {
            Ok(v) => v,
            Err(_) => {
                proof {
                    assert(false);
                }
                0
            },
        };
        let mut k: usize = 0;
        while k < n - 1 && sum > length_mm as u128
            invariant
                0 <= k <= n - 1,
                n == s.len(),
                self.points@ == s,
                self.wf(),
                n >= 1,
                sum as int == seg_len(s, k as int, b),
                b == n - 1,
                cap == length_mm as int,
                trunc_start(s, 0, b, cap) == trunc_start(s, k as int, b, cap),
            decreases n - 1 - k,
        {
            let d = dist(&self.points[k], &self.points[k + 1]);
            proof {
                lemma_seg_len_split(s, k as int, k + 1, b);
                lemma_seg_len_bounds(s, k + 1, b);
                assert(seg_len(s, k as int, k as int) == 0);
                assert(seg_len(s, k as int, k + 1) == dist_spec(s[k as int], s[k + 1]));
            }
            sum = sum - d as u128;
            k = k + 1;
        }
        proof {
            assert(trunc_start(s, k as int, b, cap) == k as int);
        }
        let mut out: Vec<Point> = Vec::new();
        let mut i: usize = k;
        while i < n
            invariant
                k <= i <= n,
                n == s.len(),
                self.points@ == s,
                self.wf(),
                out@ == s.subrange(k as int, i as int),
            decreases n - i,
        {
            let p = self.points[i];
            out.push(p);
            proof {
                assert(out@ =~= s.subrange(k as int, i + 1));
            }
            i = i + 1;
        }
        self.points = out;
        proof {
            assert(self.points@ =~= s.skip(trunc_start(s, 0, b, cap)));
        }
    }
}

} // verus!
