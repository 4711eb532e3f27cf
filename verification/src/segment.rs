//! Splitting a track: gap segmentation and fixed-size partitioning.
use vstd::prelude::*;

use crate::geo::dist;
use crate::geo::dist_spec;
use crate::num::dec_chars;
use crate::num::push_dec;
use crate::point::Point;
use crate::track::Track;

verus! {

/// Default gap threshold (0.5 km): a longer jump between consecutive points
/// opens a new segment.
pub const GAP_THRESHOLD_MM: u64 = 500_000;

/// Point i opens a segment: the first point always does, later points do
/// when they are further than gap from their predecessor.
pub open spec fn gap_boundary(s: Seq<Point>, i: int, gap: int) -> bool {
    i == 0 || dist_spec(s[i - 1], s[i]) > gap
}

/// The segment-start indices among the first i points, in increasing order.
pub open spec fn gap_starts(s: Seq<Point>, gap: int, i: int) -> Seq<int>
    decreases i,
{
    if i <= 0 {
        Seq::empty()
    } else {
        gap_starts(s, gap, i - 1) + if gap_boundary(s, i - 1, gap) {
            seq![i - 1]
        } else {
            Seq::empty()
        }
    }
}

/// The gap segmentation: the point sequence cut at every segment start.
pub open spec fn gap_segments(s: Seq<Point>, gap: int) -> Seq<Seq<Point>> {
    let st = gap_starts(s, gap, s.len() as int);
    Seq::new(
        st.len(),
        |j: int|
            s.subrange(
                st[j],
                if j + 1 < st.len() {
                    st[j + 1]
                } else {
                    s.len() as int
                },
            ),
    )
}

/// Shape of the start list: it begins at zero, stays in range, and is
/// strictly increasing.
pub proof fn lemma_gap_starts_shape(s: Seq<Point>, gap: int, i: int)
    requires
        0 <= i,
    ensures
        i == 0 ==> gap_starts(s, gap, i).len() == 0,
        i >= 1 ==> gap_starts(s, gap, i).len() >= 1 && gap_starts(s, gap, i)[0] == 0,
        forall|j: int|
            0 <= j < gap_starts(s, gap, i).len() ==> 0 <= #[trigger] gap_starts(s, gap, i)[j]
                < i,
        forall|j1: int, j2: int|
            0 <= j1 < j2 < gap_starts(s, gap, i).len() ==> #[trigger] gap_starts(s, gap, i)[j1]
                < #[trigger] gap_starts(s, gap, i)[j2],
    decreases i,
{
    if i > 0 {
        lemma_gap_starts_shape(s, gap, i - 1);
    }
}

/// An index is in the start list exactly when it opens a segment: a point
/// further than gap from its predecessor always starts a segment there, and
/// no other point past the first does.
pub proof fn lemma_gap_starts_membership(s: Seq<Point>, gap: int, i: int, x: int)
    requires
        0 <= i,
    ensures
        gap_starts(s, gap, i).contains(x) <==> (0 <= x < i && gap_boundary(s, x, gap)),
    decreases i,
{
    if i > 0 {
        lemma_gap_starts_membership(s, gap, i - 1, x);
        let st = gap_starts(s, gap, i);
        let pre = gap_starts(s, gap, i - 1);
        if 0 <= x < i && gap_boundary(s, x, gap) {
            if x < i - 1 {
                let w = choose|w: int| 0 <= w < pre.len() && pre[w] == x;
                assert(st[w] == x);
            } else {
                assert(st[st.len() - 1] == x);
            }
        }
        if st.contains(x) {
            let w = choose|w: int| 0 <= w < st.len() && st[w] == x;
            if w < pre.len() {
                assert(pre[w] == x);
            }
        }
    }
}

/// A track with no over-gap jump splits into exactly one segment: the whole
/// track.
pub proof fn lemma_single_segment(s: Seq<Point>, gap: int)
    requires
        s.len() >= 1,
        forall|i: int| 1 <= i < s.len() ==> #[trigger] dist_spec(s[i - 1], s[i]) <= gap,
    ensures
        gap_segments(s, gap) =~= seq![s],
{
    let n = s.len() as int;
    lemma_gap_starts_shape(s, gap, n);
    let st = gap_starts(s, gap, n);
    assert forall|j: int| 0 <= j < st.len() implies #[trigger] st[j] == 0 by {
        lemma_gap_starts_membership(s, gap, n, st[j]);
        assert(st.contains(st[j]));
    }
    if st.len() >= 2 {
        assert(st[0] < st[1]);
        assert(false);
    }
    assert(gap_segments(s, gap)[0] =~= s.subrange(0, n));
    assert(s.subrange(0, n) =~= s);
}

/// Ceiling division.
pub open spec fn ceil_div(n: int, m: int) -> int {
    n / m + if n % m > 0 {
        1int
    } else {
        0int
    }
}

/// End of part j when parts hold max points each: one past its last index.
pub open spec fn part_end(n: int, max: int, j: int) -> int {
    if (j + 1) * max <= n {
        (j + 1) * max
    } else {
        n
    }
}

proof fn lemma_ceil_div_unique(n: int, m: int, j: int)
    requires
        m >= 1,
        j >= 1,
        (j - 1) * m < n <= j * m,
    ensures
        ceil_div(n, m) == j,
{
    vstd::arithmetic::div_mod::lemma_fundamental_div_mod(n, m);
    let q = n / m;
    let r = n % m;
    vstd::arithmetic::div_mod::lemma_mod_bound(n, m);
    assert(m * q == q * m) by (nonlinear_arith);
    assert(q + (if r > 0 { 1int } else { 0int }) == j) by (nonlinear_arith)
        requires
            m >= 1,
            j >= 1,
            n == q * m + r,
            0 <= r < m,
            (j - 1) * m < n <= j * m,
    ;
}

/// A part covering everything: splitting with a cap at least as large as the
/// point count yields exactly one part holding the whole track.
pub proof fn lemma_partition_whole(n: int, max: int)
    requires
        1 <= n <= max,
    ensures
        ceil_div(n, max) == 1,
        part_end(n, max, 0) == n,
{
    lemma_ceil_div_unique(n, max, 1);
    assert(0 * max == 0) by (nonlinear_arith);
    assert(1 * max == max) by (nonlinear_arith);
}

impl Track {
    /// Cut the track at every gap: walking the points in order, a new
    /// segment opens at every point further than gap_mm from its
    /// predecessor; the first point opens the first segment.
    pub fn split_on_gaps(&self, gap_mm: u64) -> (r: Vec<Vec<Point>>)
        requires
            self.wf(),
        ensures
            r@.map_values(|v: Vec<Point>| v@) == gap_segments(self.points@, gap_mm as int),
            forall|k: int|
                0 <= k < r@.len() ==> forall|j: int|
                    0 <= j < (#[trigger] r@[k])@.len() ==> (#[trigger] r@[k]@[j]).valid(),
    {
        let ghost s = self.points@;
        let ghost gap = gap_mm as int;
        let n = self.points.len();
        let mut out: Vec<Vec<Point>> = Vec::new();
        let mut cur: Vec<Point> = Vec::new();
        let mut i: usize = 0;
        while i < n
            invariant
                0 <= i <= n,
                n == s.len(),
                self.points@ == s,
                self.wf(),
                gap == gap_mm as int,
                i == 0 ==> out@.len() == 0 && cur@.len() == 0,
                i >= 1 ==> {
                    let st = gap_starts(s, gap, i as int);
                    &&& out@.len() == st.len() - 1
                    &&& forall|j: int|
                        0 <= j < st.len() - 1 ==> (#[trigger] out@[j])@ == s.subrange(
                            st[j],
                            st[j + 1],
                        )
                    &&& cur@ == s.subrange(st[st.len() - 1], i as int)
                },
            decreases n - i,
        {
            proof {
                lemma_gap_starts_shape(s, gap, i as int);
                lemma_gap_starts_shape(s, gap, i + 1);
            }
            let ghost st = gap_starts(s, gap, i + 1);
            let ghost pre = gap_starts(s, gap, i as int);
            let mut is_boundary: bool = true;
            if i > 0 {
                let d = dist(&self.points[i - 1], &self.points[i]);
                is_boundary = d > gap_mm;
            }
            proof {
                assert(is_boundary == gap_boundary(s, i as int, gap));
            }
            let p = self.points[i];
            if is_boundary {
                if i > 0 {
                    out.push(cur);
                    cur = Vec::new();
                    cur.push(p);
                    proof {
                        assert(gap_boundary(s, i as int, gap));
                        assert(st == gap_starts(s, gap, i as int + 1));
                        assert(gap_starts(s, gap, i as int + 1) == gap_starts(s, gap, i as int)
                            + seq![i as int]);
                        assert(st =~= pre + seq![i as int]);
                        assert(cur@ =~= s.subrange(i as int, i + 1));
                        assert forall|j: int| 0 <= j < st.len() - 1 implies (#[trigger] out@[j])@
                            == s.subrange(st[j], st[j + 1]) by {
                            if j < pre.len() - 1 {
                                assert(st[j] == pre[j] && st[j + 1] == pre[j + 1]);
                            } else {
                                assert(j == pre.len() - 1);
                                assert(st[j] == pre[j] && st[j + 1] == i as int);
                            }
                        }
                    }
                } else {
                    cur.push(p);
                    proof {
                        assert(st =~= seq![0int]);
                        assert(cur@ =~= s.subrange(0, 1));
                    }
                }
            } else {
                cur.push(p);
                proof {
                    assert(st =~= pre);
                    assert(cur@ =~= s.subrange(st[st.len() - 1], i + 1));
                }
            }
            i = i + 1;
        }
        if n > 0 {
            out.push(cur);
        }
        proof {
            let st = gap_starts(s, gap, n as int);
            lemma_gap_starts_shape(s, gap, n as int);
            assert(out@.map_values(|v: Vec<Point>| v@) =~= gap_segments(s, gap));
            assert forall|k: int| 0 <= k < out@.len() implies forall|j: int|
                0 <= j < (#[trigger] out@[k])@.len() ==> (#[trigger] out@[k]@[j]).valid() by {
                assert(out@[k]@ == gap_segments(s, gap)[k]);
                assert forall|j: int| 0 <= j < out@[k]@.len() implies (
                #[trigger] out@[k]@[j]).valid() by {
                    assert(out@[k]@[j] == s[st[k] + j]);
                }
            }
        }
        out
    }

    /// Split the track into parts of at most max_points points each: part j
    /// covers the half-open index range [j*max_points, (j+1)*max_points),
    /// clamped to the point count, and is named after the track with "_j"
    /// appended.  The number of parts is the point count divided by
    /// max_points, rounded up, so every point lands in exactly one part.
    pub fn partition(&self, max_points: usize) -> (r: Vec<Track>)
        requires
            self.wf(),
            max_points >= 1,
        ensures
            r@.len() == ceil_div(self.points@.len() as int, max_points as int),
            forall|j: int|
                0 <= j < r@.len() ==> {
                    &&& (#[trigger] r@[j]).points@ == self.points@.subrange(
                        j * (max_points as int),
                        part_end(self.points@.len() as int, max_points as int, j),
                    )
                    &&& r@[j].name@ == self.name@ + seq!['_'] + dec_chars(j)
                    &&& r@[j].wf()
                },
    {
        let ghost s = self.points@;
        let ghost maxg = max_points as int;
        let n = self.points.len();
        let mut parts: Vec<Track> = Vec::new();
        let mut start: usize = 0;
        let mut j: usize = 0;
        while start < n
            invariant
                0 <= start <= n,
                n == s.len(),
                self.points@ == s,
                self.wf(),
                maxg == max_points as int,
                max_points >= 1,
                start as int == part_end(n as int, maxg, j - 1),
                j <= start,
                j >= 1 ==> (j - 1) * maxg < n as int,
                parts@.len() == j,
                forall|jj: int|
                    0 <= jj < j ==> {
                        &&& (#[trigger] parts@[jj]).points@ == s.subrange(
                            jj * maxg,
                            part_end(n as int, maxg, jj),
                        )
                        &&& parts@[jj].name@ == self.name@ + seq!['_'] + dec_chars(jj)
                        &&& parts@[jj].wf()
                    },
            decreases n - start,
        {
            let end: usize = if n - start > max_points {
                start + max_points
            } else {
                n
            };
            proof {
                assert((j + 1) * maxg == j * maxg + maxg) by (nonlinear_arith);
                assert(start as int == j as int * maxg);
                assert(end as int == part_end(n as int, maxg, j as int));
            }
            let mut nm = self.name.clone();
            nm.append("_");
            push_dec(&mut nm, j as u64);
            proof {
                reveal_strlit("_");
                assert(nm@ =~= self.name@ + seq!['_'] + dec_chars(j as int));
            }
            let mut seg: Vec<Point> = Vec::new();
            let mut idx: usize = start;
            while idx < end
                invariant
                    start <= idx <= end <= n,
                    n == s.len(),
                    self.points@ == s,
                    self.wf(),
                    seg@ == s.subrange(start as int, idx as int),
                decreases end - idx,
            {
                let p = self.points[idx];
                seg.push(p);
                proof {
                    assert(seg@ =~= s.subrange(start as int, idx + 1));
                }
                idx = idx + 1;
            }
            parts.push(Track { name: nm, points: seg });
            start = end;
            j = j + 1;
        }
        proof {
            if n == 0 {
                vstd::arithmetic::div_mod::lemma_fundamental_div_mod(0, maxg);
                vstd::arithmetic::div_mod::lemma_mod_bound(0, maxg);
                assert(0int / maxg == 0 && 0int % maxg == 0) by (nonlinear_arith)
                    requires
                        maxg >= 1,
                        0int == (0int / maxg) * maxg + 0int % maxg,
                        0 <= 0int % maxg < maxg,
                ;
            } else {
                assert(j >= 1) by (nonlinear_arith)
                    requires
                        j as int * maxg >= 1,
                        maxg >= 1,
                        j as int >= 0,
                ;
                lemma_ceil_div_unique(n as int, maxg, j as int);
            }
        }
        parts
    }
}

} // verus!
