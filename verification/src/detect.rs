//! Anomalous low-speed detection.
//!
//! A single sweep keeps a trailing window bounded by cumulative distance,
//! computes the window's local speed, and flags points whose local speed
//! falls below a fraction of the whole track's average speed.
use vstd::arithmetic::div_mod::lemma_div_is_ordered;
use vstd::arithmetic::div_mod::lemma_div_nonincreasing;
use vstd::arithmetic::mul::lemma_mul_upper_bound;
use vstd::prelude::*;

use crate::geo::dist;
use crate::geo::dist_spec;
use crate::geo::MAX_DIST_MM;
use crate::point::Point;
use crate::track::elapsed_ms;
use crate::track::lemma_seg_len_bounds;
use crate::track::lemma_seg_len_split;
use crate::track::lemma_trunc_start_range;
use crate::track::seg_len;
use crate::track::speed_spec;
use crate::track::trunc_start;
use crate::track::Track;
use crate::track::TrackError;

verus! {

/// The trailing window is trimmed to at most this cumulative distance
/// (0.1 km).
pub const SAMPLE_DISTANCE_MM: u64 = 100_000;

/// A point is bad when its local speed is below 3/5 (0.6) of the track's
/// average speed.
pub const MIN_SPEED_FACTOR_NUM: u128 = 3;

/// Denominator of the minimum-speed fraction.
pub const MIN_SPEED_FACTOR_DEN: u128 = 5;

/// Start index of the trailing window after point i has been appended and
/// the window trimmed: the trimmer resumes from the previous start, so the
/// window over s[..=i] begins where trimming [previous start, i] stops.
pub open spec fn win_start(s: Seq<Point>, i: int) -> int
    decreases i,
{
    if i <= 0 {
        0
    } else {
        trunc_start(s, win_start(s, i - 1), i, SAMPLE_DISTANCE_MM as int)
    }
}

/// The window start never runs ahead of the point it trails.
pub proof fn lemma_win_start_range(s: Seq<Point>, i: int)
    requires
        i >= 0,
    ensures
        0 <= win_start(s, i) <= i,
    decreases i,
{
    if i > 0 {
        lemma_win_start_range(s, i - 1);
        lemma_trunc_start_range(s, win_start(s, i - 1), i, SAMPLE_DISTANCE_MM as int);
    }
}

/// The speed floor below which a point counts as bad: the track's average
/// speed scaled by the minimum-speed fraction.
pub open spec fn bad_threshold(s: Seq<Point>) -> int {
    speed_spec(s) * (MIN_SPEED_FACTOR_NUM as int) / (MIN_SPEED_FACTOR_DEN as int)
}

/// Point i is bad when its trailing window holds at least two points, spans
/// positive time, and its local speed is below the threshold.  Windows of a
/// single point or of zero elapsed time are never flagged.
pub open spec fn is_bad(s: Seq<Point>, i: int) -> bool {
    let k = win_start(s, i);
    let wt = s[i].time - s[k].time;
    k < i && wt > 0 && seg_len(s, k, i) * 3_600_000 / wt < bad_threshold(s)
}

/// The bad points among s[..i], in track order.
pub open spec fn bad_points(s: Seq<Point>, i: int) -> Seq<Point>
    decreases i,
{
    if i <= 0 {
        Seq::empty()
    } else {
        bad_points(s, i - 1) + if is_bad(s, i - 1) {
            seq![s[i - 1]]
        } else {
            Seq::empty()
        }
    }
}

/// Over a uniform stretch the path length is proportional to the step count.
proof fn lemma_uniform_seg_len(s: Seq<Point>, d: int, a: int, b: int)
    requires
        0 <= a <= b < s.len(),
        forall|i: int| 1 <= i < s.len() ==> #[trigger] dist_spec(s[i - 1], s[i]) == d,
    ensures
        seg_len(s, a, b) == (b - a) * d,
    decreases b - a,
{
    if a == b {
        assert((b - a) * d == 0) by (nonlinear_arith)
            requires
                a == b,
        ;
    } else {
        lemma_uniform_seg_len(s, d, a, b - 1);
        assert(dist_spec(s[b - 1], s[b]) == d);
        assert((b - 1 - a) * d + d == (b - a) * d) by (nonlinear_arith);
    }
}

/// Over uniform time steps the elapsed time is proportional to the step
/// count.
proof fn lemma_uniform_time(s: Seq<Point>, dt: int, a: int, b: int)
    requires
        0 <= a <= b < s.len(),
        forall|i: int| 1 <= i < s.len() ==> s[i].time - #[trigger] s[i - 1].time == dt,
    ensures
        s[b].time - s[a].time == (b - a) * dt,
    decreases b - a,
{
    if a == b {
        assert((b - a) * dt == 0) by (nonlinear_arith)
            requires
                a == b,
        ;
    } else {
        lemma_uniform_time(s, dt, a, b - 1);
        assert(s[b].time - s[b - 1].time == dt);
        assert((b - 1 - a) * dt + dt == (b - a) * dt) by (nonlinear_arith);
    }
}

/// Scaling numerator and denominator together does not move the quotient.
proof fn lemma_div_scale(m: int, a: int, b: int)
    requires
        m >= 1,
        b >= 1,
        a >= 0,
    ensures
        (m * a) / (m * b) == a / b,
{
    vstd::arithmetic::div_mod::lemma_fundamental_div_mod(a, b);
    vstd::arithmetic::div_mod::lemma_mod_bound(a, b);
    let q = a / b;
    let r = a % b;
    assert(m * a == q * (m * b) + m * r && 0 <= m * r < m * b) by (nonlinear_arith)
        requires
            m >= 1,
            b >= 1,
            a == b * q + r,
            0 <= r < b,
    ;
    vstd::arithmetic::div_mod::lemma_fundamental_div_mod_converse(m * a, m * b, q, m * r);
}

/// On a track of constant speed (equal consecutive distances and equal,
/// positive consecutive time steps) the sweep flags no point: every window's
/// speed equals the whole track's average speed, which is above the
/// threshold fraction of itself.
pub proof fn lemma_uniform_track_all_good(s: Seq<Point>, d: int, dt: int)
    requires
        s.len() >= 1,
        dt > 0,
        forall|i: int| 1 <= i < s.len() ==> #[trigger] dist_spec(s[i - 1], s[i]) == d,
        forall|i: int| 1 <= i < s.len() ==> s[i].time - #[trigger] s[i - 1].time == dt,
    ensures
        forall|i: int| 0 <= i < s.len() ==> !is_bad(s, i),
{
    let n = s.len() as int;
    assert forall|i: int| 0 <= i < n implies !is_bad(s, i) by {
        lemma_win_start_range(s, i);
        let k = win_start(s, i);
        if k < i {
            assert(dist_spec(s[1 - 1], s[1]) == d);
            crate::geo::lemma_dist_bounds(s[0], s[1]);
            lemma_uniform_seg_len(s, d, k, i);
            lemma_uniform_time(s, dt, k, i);
            lemma_uniform_seg_len(s, d, 0, n - 1);
            lemma_uniform_time(s, dt, 0, n - 1);
            let m = i - k;
            let wt = s[i].time - s[k].time;
            assert(wt == m * dt && wt > 0) by (nonlinear_arith)
                requires
                    wt == m * dt,
                    m >= 1,
                    dt >= 1,
            ;
            let q = (d * 3_600_000) / dt;
            assert(seg_len(s, k, i) * 3_600_000 == m * (d * 3_600_000)) by (nonlinear_arith)
                requires
                    seg_len(s, k, i) == m * d,
            ;
            lemma_div_scale(m, d * 3_600_000, dt);
            assert(seg_len(s, k, i) * 3_600_000 / wt == q);
            let m2 = n - 1;
            assert(seg_len(s, 0, n - 1) * 3_600_000 == m2 * (d * 3_600_000)) by (nonlinear_arith)
                requires
                    seg_len(s, 0, n - 1) == m2 * d,
            ;
            lemma_div_scale(m2, d * 3_600_000, dt);
            assert(elapsed_ms(s) == m2 * dt);
            assert(speed_spec(s) == q);
            vstd::arithmetic::div_mod::lemma_div_pos_is_pos(d * 3_600_000, dt);
            assert(q * 3 <= q * 5) by (nonlinear_arith)
                requires
                    q >= 0,
            ;
            lemma_div_is_ordered(q * 3, q * 5, 5);
            assert((q * 5) / 5 == q) by {
                vstd::arithmetic::div_mod::lemma_div_multiples_vanish(q, 5);
                assert(q * 5 == 5 * q) by (nonlinear_arith);
            }
            assert(bad_threshold(s) <= q);
        }
    }
}

impl Track {
    /// Sweep the track once and collect the bad points into a new track
    /// named "bad".  Fails like `speed` does: on an empty track, and on a
    /// track without positive elapsed time, since the average-speed baseline
    /// is undefined there.
    pub fn parse(&self) -> (r: Result<Track, TrackError>)
        requires
            self.wf(),
        ensures
            match r {
                Ok(bad) => {
                    &&& self.points@.len() >= 1
                    &&& elapsed_ms(self.points@) > 0
                    &&& bad.name@ == "bad"@
                    &&& bad.points@ == bad_points(self.points@, self.points@.len() as int)
                    &&& bad.wf()
                },
                Err(TrackError::EmptyTrack) => self.points@.len() == 0,
                Err(TrackError::ZeroDuration) => self.points@.len() >= 1 && elapsed_ms(
                    self.points@,
                ) <= 0,
            },
    {
        let ghost s = self.points@;
        let g: u128 = match self.speed() {
            Ok(v) => v,
            Err(e) => {
                return Err(e);
            },
        };
        let n = self.points.len();
        proof {
            lemma_seg_len_bounds(s, 0, s.len() - 1);
            assert((s.len() - 1) * (MAX_DIST_MM as int)
                <= 400_000_000_000_000_000_000_000_000_000int) by (nonlinear_arith)
                requires
                    0 <= s.len() - 1 <= 18_446_744_073_709_551_615int,
            ;
            lemma_mul_upper_bound(
                seg_len(s, 0, s.len() - 1),
                400_000_000_000_000_000_000_000_000_000int,
                3_600_000,
                3_600_000,
            );
            lemma_div_nonincreasing(seg_len(s, 0, s.len() - 1) * 3_600_000, elapsed_ms(s));
            lemma_mul_upper_bound(
                g as int,
                1_440_000_000_000_000_000_000_000_000_000_000_000int,
                1,
                1,
            );
        }
        let gthr: u128 = g * 3 / 5;
        // Prefix sums of the consecutive-pair distances: pref[j] is the path
        // length of s[..=j], so any window length is a difference of two.
        let mut pref: Vec<u128> = Vec::new();
        pref.push(0);
        let mut j: usize = 1;
        while j < n
            invariant
                1 <= j <= n,
                n == s.len(),
                self.points@ == s,
                self.wf(),
                pref@.len() == j,
                forall|m: int| 0 <= m < j ==> pref@[m] as int == seg_len(s, 0, m),
                forall|m: int|
                    0 <= m < j ==> pref@[m] as int <= m * (MAX_DIST_MM as int),
            decreases n - j,
        {
            let d = dist(&self.points[j - 1], &self.points[j]);
            let prev = pref[j - 1];
            proof {
                assert((j - 1) * (MAX_DIST_MM as int) + (MAX_DIST_MM as int) == (j as int) * (
                MAX_DIST_MM as int)) by (nonlinear_arith);
                assert((j as int) * (MAX_DIST_MM as int) <= u128::MAX) by (nonlinear_arith)
                    requires
                        0 <= j as int <= usize::MAX,
                ;
            }
            pref.push(prev + d as u128);
            j = j + 1;
        }
        let mut bad = Track { name: String::from_str("bad"), points: Vec::new() };
        let mut k: usize = 0;
        let mut i: usize = 0;
        while i < n
            invariant
                0 <= i <= n,
                n == s.len(),
                self.points@ == s,
                self.wf(),
                pref@.len() == n,
                forall|m: int| 0 <= m < n ==> pref@[m] as int == seg_len(s, 0, m),
                forall|m: int|
                    0 <= m < n ==> pref@[m] as int <= m * (MAX_DIST_MM as int),
                i == 0 ==> k == 0,
                i >= 1 ==> k as int == win_start(s, i - 1),
                k <= i,
                bad.name@ == "bad"@,
                bad.points@ == bad_points(s, i as int),
                bad.wf(),
                gthr as int == bad_threshold(s),
            decreases n - i,
        {
            let ghost k0 = k as int;
            proof {
                lemma_seg_len_split(s, 0, k as int, i as int);
                lemma_seg_len_bounds(s, k as int, i as int);
            }
            while k < i && pref[i] - pref[k] > SAMPLE_DISTANCE_MM as u128
                invariant
                    0 <= k <= i < n,
                    n == s.len(),
                    pref@.len() == n,
                    forall|m: int| 0 <= m < n ==> pref@[m] as int == seg_len(s, 0, m),
                    pref@[k as int] <= pref@[i as int],
                    trunc_start(s, k0, i as int, SAMPLE_DISTANCE_MM as int) == trunc_start(
                        s,
                        k as int,
                        i as int,
                        SAMPLE_DISTANCE_MM as int,
                    ),
                decreases i - k,
            {
                proof {
                    lemma_seg_len_split(s, 0, k as int, i as int);
                    lemma_seg_len_bounds(s, k as int, i as int);
                    lemma_seg_len_split(s, 0, k + 1, i as int);
                    lemma_seg_len_bounds(s, k + 1, i as int);
                }
                k = k + 1;
            }
            proof {
                if k < i {
                    lemma_seg_len_split(s, 0, k as int, i as int);
                    lemma_seg_len_bounds(s, 0, k as int);
                    lemma_seg_len_bounds(s, k as int, i as int);
                }
                assert(trunc_start(s, k as int, i as int, SAMPLE_DISTANCE_MM as int)
                    == k as int);
                assert(k as int == win_start(s, i as int));
            }
            let p = self.points[i];
            let wt = p.time - self.points[k].time;
            if k < i && wt > 0 {
                proof {
                    lemma_seg_len_split(s, 0, k as int, i as int);
                    lemma_seg_len_bounds(s, 0, k as int);
                    lemma_seg_len_bounds(s, k as int, i as int);
                    assert((i as int) * (MAX_DIST_MM as int)
                        <= 400_000_000_000_000_000_000_000_000_000int) by (nonlinear_arith)
                        requires
                            0 <= i as int <= usize::MAX,
                    ;
                    lemma_mul_upper_bound(
                        seg_len(s, k as int, i as int),
                        400_000_000_000_000_000_000_000_000_000int,
                        3_600_000,
                        3_600_000,
                    );
                }
                let wl: u128 = pref[i] - pref[k];
                let lsp: u128 = wl * 3_600_000 / (wt as u128);
                if lsp < gthr {
                    bad.points.push(p);
                }
            }
            proof {
                assert(bad.points@ =~= bad_points(s, i + 1));
            }
            i = i + 1;
        }
        Ok(bad)
    }
}

} // verus!
