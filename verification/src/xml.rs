//! The track-file codec: a subset of the GPS-exchange XML format.
//!
//! Only ASCII documents are handled, entities are not decoded, and text is
//! taken literally.  Encoding writes a track as one or more trkseg blocks of
//! trkpt elements carrying lat/lon/ele attributes and a time child; decoding
//! is a character-level state machine that tolerates and ignores anything it
//! does not recognise.
use vstd::prelude::*;

use crate::cal::civil_ms;
use crate::cal::date_of_day;
use crate::cal::days_from_civil;
use crate::cal::days_to_civil;
use crate::cal::valid_date;
use crate::cal::MAX_EPOCH_DAY;
use crate::num::dec_chars;
use crate::num::dec_val;
use crate::num::digit_val;
use crate::num::is_digit;
use crate::num::lemma_dec_roundtrip;
use crate::num::pad_chars;
use crate::num::push_dec;
use crate::num::push_pad;
use crate::point::Point;
use crate::point::MAX_TIME_MS;
use crate::segment::gap_segments;
use crate::segment::GAP_THRESHOLD_MM;
use crate::track::Track;

verus! {

/// Powers of ten.
pub open spec fn pow10(w: int) -> int
    decreases w,
{
    if w <= 0 {
        1
    } else {
        10 * pow10(w - 1)
    }
}

proof fn lemma_pow10_small()
    ensures
        pow10(0) == 1,
        pow10(1) == 10,
        pow10(2) == 100,
        pow10(3) == 1000,
        pow10(4) == 10000,
        pow10(5) == 100000,
        pow10(6) == 1000000,
        pow10(7) == 10000000,
{
    assert(pow10(0) == 1);
    assert(pow10(1) == 10);
    assert(pow10(2) == 100);
    assert(pow10(3) == 1000);
    assert(pow10(4) == 10000);
    assert(pow10(5) == 100000);
    assert(pow10(6) == 1000000);
    assert(pow10(7) == 10000000);
}

/// A fixed-point value printed as a decimal: sign, integer part, a dot, and
/// exactly w fractional digits.
pub open spec fn fixed_chars(v: int, w: int) -> Seq<char> {
    let a = if v < 0 {
        -v
    } else {
        v
    };
    (if v < 0 {
        seq!['-']
    } else {
        Seq::<char>::empty()
    }) + dec_chars(a / pow10(w)) + seq!['.'] + pad_chars(a % pow10(w), w)
}

/// A timestamp printed as YYYY-MM-DDTHH:MM:SS.sssZ.
pub open spec fn ts_chars(ms: int) -> Seq<char> {
    let z = ms / 86_400_000;
    let rem = ms % 86_400_000;
    let ymd = date_of_day(z);
    pad_chars(ymd.0, 4) + seq!['-'] + pad_chars(ymd.1, 2) + seq!['-'] + pad_chars(ymd.2, 2)
        + seq!['T'] + pad_chars(rem / 3_600_000, 2) + seq![':'] + pad_chars(
        rem % 3_600_000 / 60_000,
        2,
    ) + seq![':'] + pad_chars(rem % 60_000 / 1000, 2) + seq!['.'] + pad_chars(rem % 1000, 3)
        + seq!['Z']
}

/// One point element.
pub open spec fn pt_chars(p: Point) -> Seq<char> {
    "<trkpt lat=\""@ + fixed_chars(p.lat as int, 6) + "\" lon=\""@ + fixed_chars(p.long as int, 6)
        + "\" ele=\""@ + fixed_chars(p.ele as int, 3) + "\"><time>"@ + ts_chars(p.time as int)
        + "</time></trkpt>"@
}

/// The points of one segment, in order.
pub open spec fn pts_chars(pts: Seq<Point>) -> Seq<char>
    decreases pts.len(),
{
    if pts.len() == 0 {
        Seq::<char>::empty()
    } else {
        pts_chars(pts.drop_last()) + pt_chars(pts.last())
    }
}

/// One segment element.
pub open spec fn seg_chars(pts: Seq<Point>) -> Seq<char> {
    "<trkseg>"@ + pts_chars(pts) + "</trkseg>"@
}

/// All segment elements, in order.
pub open spec fn segs_chars(segs: Seq<Seq<Point>>) -> Seq<char>
    decreases segs.len(),
{
    if segs.len() == 0 {
        Seq::<char>::empty()
    } else {
        segs_chars(segs.drop_last()) + seg_chars(segs.last())
    }
}

/// The whole document: declaration header, a gpx element with a creator
/// attribute, the track name, and the segments.
pub open spec fn xml_of(name: Seq<char>, segs: Seq<Seq<Point>>) -> Seq<char> {
    "<?xml version=\"1.0\" encoding=\"UTF-8\"?>\n"@ + "<gpx creator=\"Pothole\"><trk><name>"@
        + name + "</name>"@ + segs_chars(segs) + "</trk></gpx>"@
}

/// The segments a track is encoded with: cut at gaps when autoseg is set,
/// the whole point sequence as a single segment otherwise (and none at all
/// when there are no points).
pub open spec fn segments_for(t: Track, autoseg: bool) -> Seq<Seq<Point>> {
    if autoseg {
        gap_segments(t.points@, GAP_THRESHOLD_MM as int)
    } else if t.points@.len() == 0 {
        Seq::<Seq<Point>>::empty()
    } else {
        seq![t.points@]
    }
}

/// A name the format can carry back unchanged: printable ASCII without the
/// markup characters.
pub open spec fn name_ok(name: Seq<char>) -> bool {
    forall|i: int|
        0 <= i < name.len() ==> ' ' <= #[trigger] name[i] <= '~' && name[i] != '<' && name[i]
            != '&'
}

/// Append the fixed-point decimal form of v.
fn push_fixed(out: &mut String, v: i64, w: u64)
    requires
        w == 3 || w == 6,
        -100_000_000_000_000 <= v <= 100_000_000_000_000,
    ensures
        final(out)@ == old(out)@ + fixed_chars(v as int, w as int),
{
    proof {
        lemma_pow10_small();
    }
    let p: u64 = if w == 3 {
        1000
    } else {
        1_000_000
    };
    let a: u64 = if v < 0 {
        out.append("-");
        proof {
            reveal_strlit("-");
        }
        (-v) as u64
    } else {
        v as u64
    };
    push_dec(out, a / p);
    out.append(".");
    proof {
        reveal_strlit(".");
    }
    push_pad(out, a % p, w);
    proof {
        assert(out@ =~= old(out)@ + fixed_chars(v as int, w as int));
    }
}

/// Append a timestamp.
fn push_ts(out: &mut String, ms: i64)
    requires
        0 <= ms <= MAX_TIME_MS,
    ensures
        final(out)@ == old(out)@ + ts_chars(ms as int),
{
    let z: u64 = (ms / 86_400_000) as u64;
    let rem: u64 = (ms % 86_400_000) as u64;
    proof {
        vstd::arithmetic::div_mod::lemma_div_is_ordered(
            ms as int,
            MAX_TIME_MS as int,
            86_400_000,
        );
        assert(MAX_TIME_MS / 86_400_000 == MAX_EPOCH_DAY);
    }
    let (y, m, d) = days_to_civil(z);
    proof {
        crate::cal::lemma_civil_unique_choice(y as int, m as int, d as int, z as int);
    }
    push_pad(out, y, 4);
    out.append("-");
    push_pad(out, m, 2);
    out.append("-");
    push_pad(out, d, 2);
    out.append("T");
    push_pad(out, rem / 3_600_000, 2);
    out.append(":");
    push_pad(out, rem % 3_600_000 / 60_000, 2);
    out.append(":");
    push_pad(out, rem % 60_000 / 1000, 2);
    out.append(".");
    push_pad(out, rem % 1000, 3);
    out.append("Z");
    proof {
        reveal_strlit("-");
        reveal_strlit("T");
        reveal_strlit(":");
        reveal_strlit(".");
        reveal_strlit("Z");
        assert(out@ =~= old(out)@ + ts_chars(ms as int));
    }
}

/// Append one point element.
fn push_pt(out: &mut String, p: &Point)
    requires
        p.valid(),
    ensures
        final(out)@ == old(out)@ + pt_chars(*p),
{
    out.append("<trkpt lat=\"");
    push_fixed(out, p.lat, 6);
    out.append("\" lon=\"");
    push_fixed(out, p.long, 6);
    out.append("\" ele=\"");
    push_fixed(out, p.ele, 3);
    out.append("\"><time>");
    push_ts(out, p.time);
    out.append("</time></trkpt>");
    proof {
        assert(out@ =~= old(out)@ + pt_chars(*p));
    }
}

impl Track {
    /// Encode the track as a document: with autoseg set the points are cut
    /// into physically separate segments at every over-gap jump; without it
    /// the whole track is one segment.
    pub fn to_xml(&self, autoseg: bool) -> (r: String)
        requires
            self.wf(),
            name_ok(self.name@),
        ensures
            r@ == xml_of(self.name@, segments_for(*self, autoseg)),
    {
        let segs: Vec<Vec<Point>> = if autoseg {
            self.split_on_gaps(GAP_THRESHOLD_MM)
        } else if self.points.len() == 0 {
            Vec::new()
        } else {
            let mut whole: Vec<Point> = Vec::new();
            let mut i: usize = 0;
            while i < self.points.len()
                invariant
                    0 <= i <= self.points@.len(),
                    whole@ == self.points@.take(i as int),
                decreases self.points@.len() - i,
            {
                let p = self.points[i];
                whole.push(p);
                proof {
                    assert(whole@ =~= self.points@.take(i + 1));
                }
                i = i + 1;
            }
            let mut one: Vec<Vec<Point>> = Vec::new();
            proof {
                assert(whole@ =~= self.points@);
            }
            one.push(whole);
            one
        };
        let ghost gsegs = segments_for(*self, autoseg);
        proof {
            assert(segs@.map_values(|v: Vec<Point>| v@) =~= gsegs);
        }
        let mut out = String::new();
        out.append("<?xml version=\"1.0\" encoding=\"UTF-8\"?>\n");
        out.append("<gpx creator=\"Pothole\"><trk><name>");
        out.append(self.name.as_str());
        out.append("</name>");
        let mut si: usize = 0;
        let ghost head = "<?xml version=\"1.0\" encoding=\"UTF-8\"?>\n"@
            + "<gpx creator=\"Pothole\"><trk><name>"@ + self.name@ + "</name>"@;
        while si < segs.len()
            invariant
                0 <= si <= segs@.len(),
                self.wf(),
                segs@.map_values(|v: Vec<Point>| v@) == gsegs,
                forall|k: int|
                    0 <= k < segs@.len() ==> forall|j: int|
                        0 <= j < (#[trigger] segs@[k])@.len() ==> (#[trigger] segs@[k]@[j]).valid(),
                out@ == head + segs_chars(gsegs.take(si as int)),
            decreases segs@.len() - si,
        {
            out.append("<trkseg>");
            let seg = &segs[si];
            let mut pi: usize = 0;
            let ghost seghead = head + segs_chars(gsegs.take(si as int)) + "<trkseg>"@;
            while pi < seg.len()
                invariant
                    0 <= pi <= seg@.len(),
                    forall|j: int| 0 <= j < seg@.len() ==> (#[trigger] seg@[j]).valid(),
                    out@ == seghead + pts_chars(seg@.take(pi as int)),
                decreases seg@.len() - pi,
            {
                push_pt(&mut out, &seg[pi]);
                proof {
                    assert(seg@.take(pi + 1).drop_last() =~= seg@.take(pi as int));
                    assert(seg@.take(pi + 1).last() == seg@[pi as int]);
                    assert(out@ =~= seghead + pts_chars(seg@.take(pi + 1)));
                }
                pi = pi + 1;
            }
            out.append("</trkseg>");
            proof {
                assert(seg@.take(seg@.len() as int) =~= seg@);
                assert(gsegs.take(si + 1).drop_last() =~= gsegs.take(si as int));
                assert(gsegs.take(si + 1).last() == gsegs[si as int]);
                assert(gsegs[si as int] == seg@);
                assert(out@ =~= head + segs_chars(gsegs.take(si + 1)));
            }
            si = si + 1;
        }
        out.append("</trk></gpx>");
        proof {
            assert(gsegs.take(gsegs.len() as int) =~= gsegs);
            assert(out@ =~= xml_of(self.name@, gsegs));
        }
        out
    }
}

/// Whether a name can be carried by the format.
pub fn name_is_ok(s: &str) -> (r: bool)
    ensures
        r == name_ok(s@),
{
    if !s.is_ascii() {
        proof {
            assert(!name_ok(s@)) by {
                let bad = choose|i: int| 0 <= i < s@.len() && !('\0' <= #[trigger] s@[i] <= '\u{7f}');
                if name_ok(s@) {
                    assert(' ' <= s@[bad] <= '~');
                }
            }
        }
        return false;
    }
    let n = s.unicode_len();
    let mut i: usize = 0;
    while i < n
        invariant
            0 <= i <= n,
            n == s@.len(),
            s.is_ascii(),
            forall|j: int|
                0 <= j < i ==> ' ' <= #[trigger] s@[j] <= '~' && s@[j] != '<' && s@[j] != '&',
        decreases n - i,
    {
        let b = s.get_ascii(i);
        if b < 32 || b > 126 || b == 60 || b == 38 {
            proof {
                lemma_ascii_byte(s@[i as int], b);
            }
            return false;
        }
        proof {
            lemma_ascii_byte(s@[i as int], b);
        }
        i = i + 1;
    }
    true
}

/// For ASCII characters the byte cast is faithful: character comparisons and
/// the u8 view agree.
proof fn lemma_ascii_byte(c: char, b: u8)
    requires
        c as u8 == b,
        '\0' <= c <= '\u{7f}',
    ensures
        (b == 60) == (c == '<'),
        (b == 38) == (c == '&'),
        (32 <= b <= 126) == (' ' <= c <= '~'),
{
    broadcast use vstd::utf8::char_u32_cast;

    assert(c as u32 <= 127);
    assert(c as u8 == (c as u32) as u8);
}

/// Read the character at an index of an ASCII string in constant time.
fn chr(s: &str, i: usize) -> (c: char)
    requires
        s.is_ascii(),
        i < s@.len(),
    ensures
        c == s@[i as int],
        c <= '\u{7f}',
{
    let b = s.get_ascii(i);
    proof {
        broadcast use vstd::utf8::char_u32_cast;

        let d = s@[i as int];
        assert('\0' <= d <= '\u{7f}');
        assert(d as u32 <= 127);
        assert(d as u8 == (d as u32) as u8);
        assert(b as u32 == d as u32);
        assert((b as char) as u32 == b as u32);
    }
    b as char
}

/// Whether the characters at [a, b) equal the expected ASCII text.
fn str_range_eq(s: &str, a: usize, b: usize, t: &str) -> (r: bool)
    requires
        s.is_ascii(),
        a <= b <= s@.len(),
    ensures
        r == (s@.subrange(a as int, b as int) == t@),
{
    if !t.is_ascii() {
        proof {
            let sub = s@.subrange(a as int, b as int);
            if sub == t@ {
                assert forall|j: int| 0 <= j < t@.len() implies '\0' <= #[trigger] t@[j]
                    <= '\u{7f}' by {
                    assert(t@[j] == sub[j]);
                    assert(sub[j] == s@[a + j]);
                }
                assert(vstd::utf8::is_ascii_chars(t@));
            }
        }
        return false;
    }
    let tn = t.unicode_len();
    if b - a != tn {
        proof {
            assert(s@.subrange(a as int, b as int).len() != t@.len());
        }
        return false;
    }
    let mut i: usize = 0;
    while i < tn
        invariant
            0 <= i <= tn,
            tn == t@.len(),
            a + tn == b <= s@.len(),
            s.is_ascii(),
            t.is_ascii(),
            forall|j: int| 0 <= j < i ==> s@[a + j] == t@[j],
        decreases tn - i,
    {
        let c1 = chr(s, a + i);
        let c2 = chr(t, i);
        if c1 != c2 {
            proof {
                assert(s@.subrange(a as int, b as int)[i as int] != t@[i as int]);
            }
            return false;
        }
        i = i + 1;
    }
    proof {
        assert(s@.subrange(a as int, b as int) =~= t@);
    }
    true
}

/// Whitespace accepted between markup tokens.
pub open spec fn is_ws(c: char) -> bool {
    c == ' ' || c == '\n' || c == '\t' || c == '\r'
}

/// First index in [a, b) holding c, or b when none does.
pub open spec fn find_in(s: Seq<char>, a: int, b: int, c: char) -> int
    decreases b - a,
{
    if a >= b {
        b
    } else if s[a] == c {
        a
    } else {
        find_in(s, a + 1, b, c)
    }
}

proof fn lemma_find_in_range(s: Seq<char>, a: int, b: int, c: char)
    requires
        a <= b,
    ensures
        a <= find_in(s, a, b, c) <= b,
    decreases b - a,
{
    if a < b && s[a] != c {
        lemma_find_in_range(s, a + 1, b, c);
    }
}

/// All characters in [a, b) are decimal digits.
pub open spec fn all_digits(s: Seq<char>, a: int, b: int) -> bool {
    forall|i: int| a <= i < b ==> is_digit(#[trigger] s[i])
}

/// Fractional digits scaled to w places: the first w digits, padded with
/// zeros when fewer are given, extras ignored.
pub open spec fn frac_val(s: Seq<char>, a: int, b: int, w: int) -> int {
    let k = if b - a < w {
        b - a
    } else {
        w
    };
    dec_val(s.subrange(a, a + k)) * pow10(w - k)
}

/// The value of a plain decimal in [a, b), scaled by 10^w: an optional
/// minus sign, one to seven integer digits, and an optional fraction after a
/// dot.  None when the text has any other shape.
pub open spec fn fixed_val(s: Seq<char>, a: int, b: int, w: int) -> Option<int> {
    if a >= b {
        None
    } else {
        let neg = s[a] == '-';
        let i0 = if neg {
            a + 1
        } else {
            a
        };
        let dot = find_in(s, i0, b, '.');
        if dot == i0 || dot - i0 > 7 {
            None
        } else if !all_digits(s, i0, dot) {
            None
        } else if dot < b && !all_digits(s, dot + 1, b) {
            None
        } else {
            let fa = if dot < b {
                dot + 1
            } else {
                b
            };
            let mag = dec_val(s.subrange(i0, dot)) * pow10(w) + frac_val(s, fa, b, w);
            Some(
                if neg {
                    -mag
                } else {
                    mag
                },
            )
        }
    }
}

/// The value of exactly w digits at a.
pub open spec fn pad_val(s: Seq<char>, a: int, w: int) -> int {
    dec_val(s.subrange(a, a + w))
}

/// The timestamp value of [a, b): YYYY-MM-DDTHH:MM:SS followed by Z or by
/// .sssZ, provided the fields name a supported date and time of day.  None
/// otherwise.
pub open spec fn ts_val(s: Seq<char>, a: int, b: int) -> Option<int> {
    if b - a != 20 && b - a != 24 {
        None
    } else if !(all_digits(s, a, a + 4) && s[a + 4] == '-' && all_digits(s, a + 5, a + 7) && s[a
        + 7] == '-' && all_digits(s, a + 8, a + 10) && s[a + 10] == 'T' && all_digits(
        s,
        a + 11,
        a + 13,
    ) && s[a + 13] == ':' && all_digits(s, a + 14, a + 16) && s[a + 16] == ':' && all_digits(
        s,
        a + 17,
        a + 19,
    )) {
        None
    } else if b - a == 20 && s[a + 19] != 'Z' {
        None
    } else if b - a == 24 && !(s[a + 19] == '.' && all_digits(s, a + 20, a + 23) && s[a + 23]
        == 'Z') {
        None
    } else {
        let y = pad_val(s, a, 4);
        let mo = pad_val(s, a + 5, 2);
        let d = pad_val(s, a + 8, 2);
        let h = pad_val(s, a + 11, 2);
        let mi = pad_val(s, a + 14, 2);
        let sec = pad_val(s, a + 17, 2);
        let f = if b - a == 24 {
            pad_val(s, a + 20, 3)
        } else {
            0
        };
        if !valid_date(y, mo, d) || h > 23 || mi > 59 || sec > 59 {
            None
        } else if civil_ms(y, mo, d, h, mi, sec, f) > MAX_TIME_MS || civil_ms(
            y,
            mo,
            d,
            h,
            mi,
            sec,
            f,
        ) < 0 {
            None
        } else {
            Some(civil_ms(y, mo, d, h, mi, sec, f))
        }
    }
}

/// A number below the k-th power of ten prints in at most k digits.
proof fn lemma_dec_len(n: int, k: int)
    requires
        k >= 1,
        0 <= n < pow10(k),
    ensures
        1 <= dec_chars(n).len() <= k,
    decreases n,
{
    if n < 10 {
    } else {
        assert(k >= 2) by {
            lemma_pow10_small();
            if k == 1 {
                assert(pow10(1) == 10);
            }
        }
        assert(pow10(k) == 10 * pow10(k - 1));
        vstd::arithmetic::div_mod::lemma_fundamental_div_mod(n, 10);
        vstd::arithmetic::div_mod::lemma_mod_bound(n, 10);
        assert(n / 10 < pow10(k - 1)) by (nonlinear_arith)
            requires
                n == 10 * (n / 10) + n % 10,
                0 <= n % 10 < 10,
                n < 10 * pow10(k - 1),
        ;
        lemma_dec_len(n / 10, k - 1);
    }
}

/// The first occurrence of a character is found where it first stands.
proof fn lemma_find_first(s: Seq<char>, a: int, b: int, m: int, c: char)
    requires
        a <= m < b <= s.len(),
        forall|j: int| a <= j < m ==> #[trigger] s[j] != c,
        s[m] == c,
    ensures
        find_in(s, a, b, c) == m,
    decreases m - a,
{
    if a < m {
        lemma_find_first(s, a + 1, b, m, c);
    }
}

/// Printing a fixed-point value and reading it back gives the value: the
/// decimal codec for coordinates and elevations is lossless.
#[verifier::rlimit(100)]
pub proof fn lemma_fixed_roundtrip(v: int, w: int)
    requires
        w == 3 || w == 6,
        -pow10(w + 7) < v < pow10(w + 7),
    ensures
        fixed_val(fixed_chars(v, w), 0, fixed_chars(v, w).len() as int, w) == Some(v),
{
    lemma_pow10_small();
    lemma_pow10_product(w, 7);
    crate::num::lemma_vstd_pow10();
    let p = pow10(w);
    let a = if v < 0 {
        -v
    } else {
        v
    };
    vstd::arithmetic::div_mod::lemma_fundamental_div_mod(a, p);
    vstd::arithmetic::div_mod::lemma_mod_bound(a, p);
    let ip = a / p;
    let fp = a % p;
    assert(ip < pow10(7)) by (nonlinear_arith)
        requires
            a == p * ip + fp,
            0 <= fp < p,
            a < pow10(w) * pow10(7),
            p == pow10(w),
            p >= 1,
    ;
    lemma_dec_roundtrip(ip);
    lemma_dec_len(ip, 7);
    crate::num::lemma_pad_roundtrip(
        fp,
        w,
        if w == 3 {
            1000int
        } else {
            1000000int
        },
    );
    let digits = dec_chars(ip);
    let frac = pad_chars(fp, w);
    let s = fixed_chars(v, w);
    let sgn: int = if v < 0 {
        1int
    } else {
        0int
    };
    assert(s.len() == sgn + digits.len() + 1 + w);
    let b = s.len() as int;
    let i0 = sgn;
    let m = sgn + digits.len() as int;
    assert forall|j: int| i0 <= j < m implies #[trigger] s[j] != '.' by {
        assert(s[j] == digits[j - i0]);
        assert(is_digit(digits[j - i0]));
    }
    assert(s[m] == '.');
    lemma_find_first(s, i0, b, m, '.');
    if v < 0 {
        assert(s[0] == '-');
    } else {
        assert(s[0] == digits[0]);
        assert(is_digit(digits[0]));
        assert(s[0] != '-');
    }
    assert(s.subrange(i0, m) =~= digits);
    assert forall|j: int| i0 <= j < m implies is_digit(#[trigger] s[j]) by {
        assert(s[j] == digits[j - i0]);
    }
    assert(all_digits(s, i0, m));
    assert forall|j: int| m + 1 <= j < b implies is_digit(#[trigger] s[j]) by {
        assert(s[j] == frac[j - (m + 1)]);
    }
    assert(all_digits(s, m + 1, b));
    assert(s.subrange(m + 1, m + 1 + w) =~= frac);
    assert(frac_val(s, m + 1, b, w) == dec_val(frac) * pow10(0));
    assert(dec_val(frac) * 1 == dec_val(frac));
    assert(dec_val(s.subrange(i0, m)) * pow10(w) + frac_val(s, m + 1, b, w) == ip * p + fp);
    assert(ip * p + fp == a) by (nonlinear_arith)
        requires
            a == p * ip + fp,
    ;
}

/// Printing a timestamp and reading it back gives the timestamp: the
/// time codec is lossless over the supported range.
#[verifier::rlimit(100)]
pub proof fn lemma_ts_roundtrip(ms: int)
    requires
        0 <= ms <= MAX_TIME_MS,
    ensures
        ts_val(ts_chars(ms), 0, 24) == Some(ms),
{
    vstd::arithmetic::div_mod::lemma_fundamental_div_mod(ms, 86_400_000);
    vstd::arithmetic::div_mod::lemma_mod_bound(ms, 86_400_000);
    vstd::arithmetic::div_mod::lemma_div_is_ordered(ms, MAX_TIME_MS as int, 86_400_000);
    vstd::arithmetic::div_mod::lemma_div_pos_is_pos(ms, 86_400_000);
    let z = ms / 86_400_000;
    let rem = ms % 86_400_000;
    crate::cal::lemma_date_exists(z);
    let t = date_of_day(z);
    assert(valid_date(t.0, t.1, t.2) && days_from_civil(t.0, t.1, t.2) == z);
    let y = t.0;
    let mo = t.1;
    let d = t.2;
    vstd::arithmetic::div_mod::lemma_fundamental_div_mod(rem, 3_600_000);
    vstd::arithmetic::div_mod::lemma_mod_bound(rem, 3_600_000);
    vstd::arithmetic::div_mod::lemma_div_is_ordered(rem, 86_399_999, 3_600_000);
    vstd::arithmetic::div_mod::lemma_div_pos_is_pos(rem, 3_600_000);
    let h = rem / 3_600_000;
    let r2 = rem % 3_600_000;
    vstd::arithmetic::div_mod::lemma_fundamental_div_mod(r2, 60_000);
    vstd::arithmetic::div_mod::lemma_mod_bound(r2, 60_000);
    vstd::arithmetic::div_mod::lemma_div_is_ordered(r2, 3_599_999, 60_000);
    vstd::arithmetic::div_mod::lemma_div_pos_is_pos(r2, 60_000);
    let mi = r2 / 60_000;
    let r3 = r2 % 60_000;
    vstd::arithmetic::div_mod::lemma_fundamental_div_mod_converse(
        rem,
        60_000,
        h * 60 + mi,
        r3,
    );
    assert(rem % 60_000 == r3);
    vstd::arithmetic::div_mod::lemma_fundamental_div_mod(r3, 1000);
    vstd::arithmetic::div_mod::lemma_mod_bound(r3, 1000);
    vstd::arithmetic::div_mod::lemma_div_is_ordered(r3, 59_999, 1000);
    vstd::arithmetic::div_mod::lemma_div_pos_is_pos(r3, 1000);
    let sec = r3 / 1000;
    let f = r3 % 1000;
    vstd::arithmetic::div_mod::lemma_fundamental_div_mod_converse(
        rem,
        1000,
        (h * 60 + mi) * 60 + sec,
        f,
    );
    assert(rem % 1000 == f);
    crate::num::lemma_vstd_pow10();
    crate::num::lemma_pad_roundtrip(y, 4, 10000);
    crate::num::lemma_pad_roundtrip(mo, 2, 100);
    crate::num::lemma_pad_roundtrip(d, 2, 100);
    crate::num::lemma_pad_roundtrip(h, 2, 100);
    crate::num::lemma_pad_roundtrip(mi, 2, 100);
    crate::num::lemma_pad_roundtrip(sec, 2, 100);
    crate::num::lemma_pad_roundtrip(f, 3, 1000);
    let py = pad_chars(y, 4);
    let pmo = pad_chars(mo, 2);
    let pd = pad_chars(d, 2);
    let ph = pad_chars(h, 2);
    let pmi = pad_chars(mi, 2);
    let psec = pad_chars(sec, 2);
    let pf = pad_chars(f, 3);
    let s = ts_chars(ms);
    assert(s.len() == 24);
    assert(s.subrange(0, 4) =~= py);
    assert(s[4] == '-');
    assert(s.subrange(5, 7) =~= pmo);
    assert(s[7] == '-');
    assert(s.subrange(8, 10) =~= pd);
    assert(s[10] == 'T');
    assert(s.subrange(11, 13) =~= ph);
    assert(s[13] == ':');
    assert(s.subrange(14, 16) =~= pmi);
    assert(s[16] == ':');
    assert(s.subrange(17, 19) =~= psec);
    assert(s[19] == '.');
    assert(s.subrange(20, 23) =~= pf);
    assert(s[23] == 'Z');
    assert forall|j: int| 0 <= j < 4 implies is_digit(#[trigger] s[j]) by {
        assert(s[j] == py[j]);
    }
    assert forall|j: int| 5 <= j < 7 implies is_digit(#[trigger] s[j]) by {
        assert(s[j] == pmo[j - 5]);
    }
    assert forall|j: int| 8 <= j < 10 implies is_digit(#[trigger] s[j]) by {
        assert(s[j] == pd[j - 8]);
    }
    assert forall|j: int| 11 <= j < 13 implies is_digit(#[trigger] s[j]) by {
        assert(s[j] == ph[j - 11]);
    }
    assert forall|j: int| 14 <= j < 16 implies is_digit(#[trigger] s[j]) by {
        assert(s[j] == pmi[j - 14]);
    }
    assert forall|j: int| 17 <= j < 19 implies is_digit(#[trigger] s[j]) by {
        assert(s[j] == psec[j - 17]);
    }
    assert forall|j: int| 20 <= j < 23 implies is_digit(#[trigger] s[j]) by {
        assert(s[j] == pf[j - 20]);
    }
    assert(pad_val(s, 0, 4) == y);
    assert(pad_val(s, 5, 2) == mo);
    assert(pad_val(s, 8, 2) == d);
    assert(pad_val(s, 11, 2) == h);
    assert(pad_val(s, 14, 2) == mi);
    assert(pad_val(s, 17, 2) == sec);
    assert(pad_val(s, 20, 3) == f);
    assert(civil_ms(y, mo, d, h, mi, sec, f) == ms);
}

/// Parser modes: where in the markup the scan stands.
#[derive(Debug, Clone, Copy, PartialEq, Eq, Structural)]
pub enum Mode {
    /// Between tags, gathering text.
    Text,
    /// Just after '<'.
    TagOpen,
    /// Reading an opening tag's name.
    OpenName,
    /// Between attributes of an opening tag.
    AttrSpace,
    /// Reading an attribute name.
    AttrName,
    /// After '=' of an attribute, expecting the opening quote.
    AttrEq,
    /// Inside a quoted attribute value.
    AttrVal,
    /// After '/' of a self-closing tag, expecting '>'.
    EmptyEnd,
    /// Reading a closing tag's name.
    CloseName,
    /// Inside a processing instruction.
    Pi,
    /// Inside a processing instruction, after '?'.
    PiQ,
    /// Inside a declaration or comment.
    Bang,
}

/// A recoverable per-point problem found while decoding.
#[derive(Debug, Clone, Copy, PartialEq, Eq, Structural)]
pub struct DecodeWarning {
    /// Index, among the decoded points, of the point whose timestamp could
    /// not be read and was left at the sentinel.
    pub point_index: usize,
}

/// Why a document could not be decoded at all.
#[derive(Debug, Clone, Copy, PartialEq, Eq, Structural)]
pub enum DecodeError {
    /// The document holds bytes outside ASCII.
    NotAscii,
    /// The markup does not fit the decoder's grammar.
    Malformed,
}

/// The decoder's state: mode, the index ranges of the pieces being read, the
/// point under construction, and what has been decoded so far.
#[verifier::ext_equal]
pub ghost struct DecM {
    pub mode: Mode,
    pub text_start: int,
    pub text_a: int,
    pub text_b: int,
    pub tag_start: int,
    pub is_trkpt: bool,
    pub attr_start: int,
    pub attr_end: int,
    pub val_start: int,
    pub name_a: int,
    pub name_b: int,
    pub has_name: bool,
    pub cur: Point,
    pub pts: Seq<Point>,
    pub warns: Seq<DecodeWarning>,
    pub failed: bool,
}

/// The decoder's starting state.
pub open spec fn dec_init() -> DecM {
    DecM {
        mode: Mode::Text,
        text_start: 0,
        text_a: 0,
        text_b: 0,
        tag_start: 0,
        is_trkpt: false,
        attr_start: 0,
        attr_end: 0,
        val_start: 0,
        name_a: 0,
        name_b: 0,
        has_name: false,
        cur: Point { lat: 0, long: 0, ele: 0, time: crate::point::SENTINEL_TIME_MS },
        pts: Seq::empty(),
        warns: Seq::empty(),
        failed: false,
    }
}

/// A finished attribute of a trkpt element: store a recognised coordinate,
/// reject one whose value cannot be read or is out of range, ignore the
/// rest.
pub open spec fn attr_done(s: Seq<char>, i: int, st: DecM) -> DecM {
    let st2 = DecM { mode: Mode::AttrSpace, ..st };
    if !st.is_trkpt {
        st2
    } else {
        let an = s.subrange(st.attr_start, st.attr_end);
        if an == "lat"@ {
            match fixed_val(s, st.val_start, i, 6) {
                Some(v) => if -90_000_000 <= v <= 90_000_000 {
                    DecM { cur: Point { lat: v as i64, ..st.cur }, ..st2 }
                } else {
                    DecM { failed: true, ..st }
                },
                None => DecM { failed: true, ..st },
            }
        } else if an == "lon"@ {
            match fixed_val(s, st.val_start, i, 6) {
                Some(v) => if -180_000_000 <= v <= 180_000_000 {
                    DecM { cur: Point { long: v as i64, ..st.cur }, ..st2 }
                } else {
                    DecM { failed: true, ..st }
                },
                None => DecM { failed: true, ..st },
            }
        } else if an == "ele"@ {
            match fixed_val(s, st.val_start, i, 3) {
                Some(v) => if -9_999_999_999 <= v <= 9_999_999_999 {
                    DecM { cur: Point { ele: v as i64, ..st.cur }, ..st2 }
                } else {
                    DecM { failed: true, ..st }
                },
                None => DecM { failed: true, ..st },
            }
        } else {
            st2
        }
    }
}

/// A finished closing tag: an ele sets the elevation, a name records the
/// track name's text, a time sets the timestamp or records a warning and the
/// sentinel, a trkpt commits the point under construction; anything else is
/// ignored.
pub open spec fn close_done(s: Seq<char>, i: int, st: DecM) -> DecM {
    let st2 = DecM { mode: Mode::Text, text_start: i + 1, ..st };
    let tag = s.subrange(st.tag_start, i);
    if tag == "ele"@ {
        match fixed_val(s, st.text_a, st.text_b, 3) {
            Some(v) => if -9_999_999_999 <= v <= 9_999_999_999 {
                DecM { cur: Point { ele: v as i64, ..st.cur }, ..st2 }
            } else {
                DecM { failed: true, ..st }
            },
            None => DecM { failed: true, ..st },
        }
    } else if tag == "name"@ {
        DecM { has_name: true, name_a: st.text_a, name_b: st.text_b, ..st2 }
    } else if tag == "time"@ {
        match ts_val(s, st.text_a, st.text_b) {
            Some(ms) => DecM { cur: Point { time: ms as i64, ..st.cur }, ..st2 },
            None => DecM {
                cur: Point { time: crate::point::SENTINEL_TIME_MS, ..st.cur },
                warns: st.warns.push(DecodeWarning { point_index: st.pts.len() as usize }),
                ..st2
            },
        }
    } else if tag == "trkpt"@ {
        DecM { pts: st.pts.push(st.cur), ..st2 }
    } else {
        st2
    }
}

/// One character of input: the decoder's transition function.
pub open spec fn dec_step(s: Seq<char>, i: int, st: DecM) -> DecM {
    if st.failed {
        st
    } else {
        let c = s[i];
        match st.mode {
            Mode::Text => if c == '<' {
                DecM { mode: Mode::TagOpen, text_a: st.text_start, text_b: i, ..st }
            } else {
                st
            },
            Mode::TagOpen => if c == '/' {
                DecM { mode: Mode::CloseName, tag_start: i + 1, ..st }
            } else if c == '?' {
                DecM { mode: Mode::Pi, ..st }
            } else if c == '!' {
                DecM { mode: Mode::Bang, ..st }
            } else {
                DecM { mode: Mode::OpenName, tag_start: i, ..st }
            },
            Mode::OpenName => if c == '>' {
                DecM { mode: Mode::Text, text_start: i + 1, ..st }
            } else if c == '/' {
                DecM { mode: Mode::EmptyEnd, ..st }
            } else if is_ws(c) {
                DecM {
                    mode: Mode::AttrSpace,
                    is_trkpt: s.subrange(st.tag_start, i) == "trkpt"@,
                    ..st
                }
            } else {
                st
            },
            Mode::AttrSpace => if c == '>' {
                DecM { mode: Mode::Text, text_start: i + 1, ..st }
            } else if c == '/' {
                DecM { mode: Mode::EmptyEnd, ..st }
            } else if is_ws(c) {
                st
            } else {
                DecM { mode: Mode::AttrName, attr_start: i, attr_end: i, ..st }
            },
            Mode::AttrName => if c == '=' {
                DecM { mode: Mode::AttrEq, attr_end: i, ..st }
            } else if c == '>' {
                DecM { mode: Mode::Text, text_start: i + 1, ..st }
            } else if is_ws(c) {
                DecM { mode: Mode::AttrSpace, ..st }
            } else {
                st
            },
            Mode::AttrEq => if c == '"' {
                DecM { mode: Mode::AttrVal, val_start: i + 1, ..st }
            } else {
                DecM { failed: true, ..st }
            },
            Mode::AttrVal => if c == '"' {
                attr_done(s, i, st)
            } else {
                st
            },
            Mode::EmptyEnd => if c == '>' {
                DecM { mode: Mode::Text, text_start: i + 1, ..st }
            } else {
                DecM { failed: true, ..st }
            },
            Mode::CloseName => if c == '>' {
                close_done(s, i, st)
            } else {
                st
            },
            Mode::Pi => if c == '?' {
                DecM { mode: Mode::PiQ, ..st }
            } else {
                st
            },
            Mode::PiQ => if c == '>' {
                DecM { mode: Mode::Text, text_start: i + 1, ..st }
            } else if c == '?' {
                st
            } else {
                DecM { mode: Mode::Pi, ..st }
            },
            Mode::Bang => if c == '>' {
                DecM { mode: Mode::Text, text_start: i + 1, ..st }
            } else {
                st
            },
        }
    }
}

/// The decoder's state after the first i characters.
pub open spec fn dec_run(s: Seq<char>, i: int) -> DecM
    decreases i,
{
    if i <= 0 {
        dec_init()
    } else {
        dec_step(s, i - 1, dec_run(s, i - 1))
    }
}

/// Index sanity and value sanity of a reachable decoder state.
pub open spec fn dec_wf(st: DecM, i: int) -> bool {
    &&& 0 <= st.text_start <= i
    &&& 0 <= st.text_a <= st.text_b <= i
    &&& 0 <= st.tag_start <= i
    &&& 0 <= st.attr_start <= st.attr_end <= i
    &&& 0 <= st.val_start <= i
    &&& 0 <= st.name_a <= st.name_b <= i
    &&& st.cur.valid()
    &&& crate::point::all_valid(st.pts)
}

/// A power of ten that fits comfortably in a u64.
fn pow10_x(e: u64) -> (r: u64)
    requires
        e <= 6,
    ensures
        r as int == pow10(e as int),
{
    proof {
        lemma_pow10_small();
    }
    if e == 0 {
        1
    } else if e == 1 {
        10
    } else if e == 2 {
        100
    } else if e == 3 {
        1000
    } else if e == 4 {
        10_000
    } else if e == 5 {
        100_000
    } else {
        1_000_000
    }
}

/// Digit values stay under their width's power of ten.
proof fn lemma_dec_val_bound(s: Seq<char>, a: int, b: int)
    requires
        0 <= a <= b <= s.len(),
    ensures
        dec_val(s.subrange(a, b)) < pow10(b - a) || !all_digits(s, a, b),
        all_digits(s, a, b) ==> 0 <= dec_val(s.subrange(a, b)),
    decreases b - a,
{
    if a < b && all_digits(s, a, b) {
        lemma_dec_val_bound(s, a, b - 1);
        assert(all_digits(s, a, b - 1));
        let sub = s.subrange(a, b);
        assert(sub.drop_last() =~= s.subrange(a, b - 1));
        assert(sub.last() == s[b - 1]);
        assert(0 <= digit_val(s[b - 1]) <= 9);
    } else if a == b {
        assert(s.subrange(a, b) =~= Seq::<char>::empty());
    }
}

/// Read a run of digits of known width.
#[verifier::loop_isolation(false)]
fn read_pad(s: &str, a: usize, w: usize) -> (r: Option<u64>)
    requires
        s.is_ascii(),
        a + w <= s@.len(),
        s@.len() <= usize::MAX,
        w <= 4,
    ensures
        match r {
            Some(v) => all_digits(s@, a as int, a + w) && v as int == pad_val(s@, a as int, w as int)
                && (v as int) < pow10(w as int),
            None => !all_digits(s@, a as int, a + w),
        },
{
    proof {
        lemma_pow10_small();
    }
    let mut v: u64 = 0;
    let mut i: usize = a;
    while i < a + w
        invariant
            a <= i <= a + w,
            all_digits(s@, a as int, i as int),
            v as int == dec_val(s@.subrange(a as int, i as int)),
            (v as int) < pow10(i - a as int),
        decreases a + w - i,
    {
        let c = chr(s, i);
        let u = c as u32;
        if u < 48 || u > 57 {
            proof {
                assert(!is_digit(s@[i as int]));
            }
            return None;
        }
        proof {
            assert(is_digit(s@[i as int]));
            assert(s@.subrange(a as int, i + 1).drop_last() =~= s@.subrange(a as int, i as int));
            assert(s@.subrange(a as int, i + 1).last() == s@[i as int]);
            assert(pow10(i + 1 - a) == 10 * pow10(i - a as int));
            lemma_pow10_mono(i - a as int, 4);
        }
        v = v * 10 + ((u - 48) as u64);
        i = i + 1;
    }
    Some(v)
}

/// Read a plain decimal in [a, b), scaled to w fractional places.
#[verifier::rlimit(60)]
#[verifier::loop_isolation(false)]
fn parse_fixed(s: &str, a: usize, b: usize, w: u64) -> (r: Option<i64>)
    requires
        s.is_ascii(),
        a <= b <= s@.len(),
        s@.len() <= usize::MAX,
        w == 3 || w == 6,
    ensures
        match r {
            Some(v) => fixed_val(s@, a as int, b as int, w as int) == Some(v as int),
            None => fixed_val(s@, a as int, b as int, w as int) is None,
        },
{
    proof {
        lemma_pow10_small();
    }
    if a >= b {
        return None;
    }
    let neg = chr(s, a) == '-';
    let i0: usize = if neg {
        a + 1
    } else {
        a
    };
    let mut dot: usize = i0;
    while dot < b && chr(s, dot) != '.'
        invariant
            i0 <= dot <= b <= s@.len(),
            s.is_ascii(),
            find_in(s@, i0 as int, b as int, '.') == find_in(s@, dot as int, b as int, '.'),
        decreases b - dot,
    {
        dot = dot + 1;
    }
    proof {
        assert(find_in(s@, i0 as int, b as int, '.') == dot as int);
    }
    if dot == i0 || dot - i0 > 7 {
        return None;
    }
    let mut val: u64 = 0;
    let mut i: usize = i0;
    while i < dot
        invariant
            i0 <= i <= dot <= b <= s@.len(),
            dot - i0 <= 7,
            s.is_ascii(),
            all_digits(s@, i0 as int, i as int),
            val as int == dec_val(s@.subrange(i0 as int, i as int)),
            (val as int) < pow10(i - i0 as int),
        decreases dot - i,
    {
        let c = chr(s, i);
        let u = c as u32;
        if u < 48 || u > 57 {
            proof {
                assert(!is_digit(s@[i as int]));
            }
            return None;
        }
        proof {
            assert(is_digit(s@[i as int]));
            assert(s@.subrange(i0 as int, i + 1).drop_last() =~= s@.subrange(i0 as int, i as int));
            assert(s@.subrange(i0 as int, i + 1).last() == s@[i as int]);
            assert(pow10(i + 1 - i0) == 10 * pow10(i - i0));
            assert(pow10(i - i0) <= pow10(7)) by {
                lemma_pow10_mono(i - i0 as int, 7);
            }
        }
        val = val * 10 + ((u - 48) as u64);
        i = i + 1;
    }
    let fa: usize = if dot < b {
        dot + 1
    } else {
        b
    };
    let kk: usize = if b - fa < w as usize {
        b - fa
    } else {
        w as usize
    };
    let mut fv: u64 = 0;
    let mut j: usize = fa;
    while j < fa + kk
        invariant
            fa <= j <= fa + kk <= b <= s@.len(),
            kk <= 6,
            s.is_ascii(),
            all_digits(s@, fa as int, j as int),
            fv as int == dec_val(s@.subrange(fa as int, j as int)),
            (fv as int) < pow10(j - fa as int),
        decreases fa + kk - j,
    {
        let c = chr(s, j);
        let u = c as u32;
        if u < 48 || u > 57 {
            proof {
                assert(!is_digit(s@[j as int]));
                assert(dot < b && !all_digits(s@, dot + 1, b as int));
            }
            return None;
        }
        proof {
            assert(is_digit(s@[j as int]));
            assert(s@.subrange(fa as int, j + 1).drop_last() =~= s@.subrange(fa as int, j as int));
            assert(s@.subrange(fa as int, j + 1).last() == s@[j as int]);
            assert(pow10(j + 1 - fa) == 10 * pow10(j - fa));
            assert(pow10(j - fa) <= pow10(6)) by {
                lemma_pow10_mono(j - fa as int, 6);
            }
        }
        fv = fv * 10 + ((u - 48) as u64);
        j = j + 1;
    }
    let mut jj: usize = fa + kk;
    while jj < b
        invariant
            fa + kk <= jj <= b <= s@.len(),
            s.is_ascii(),
            all_digits(s@, fa as int, jj as int),
        decreases b - jj,
    {
        let c = chr(s, jj);
        let u = c as u32;
        if u < 48 || u > 57 {
            proof {
                assert(!is_digit(s@[jj as int]));
                assert(dot < b && !all_digits(s@, dot + 1, b as int));
            }
            return None;
        }
        proof {
            assert(is_digit(s@[jj as int]));
        }
        jj = jj + 1;
    }
    let mult = pow10_x(w - kk as u64);
    proof {
        lemma_pow10_product(kk as int, (w as int) - kk);
        lemma_pow10_pos((w as int) - kk);
        assert((fv as int * mult as int) < pow10(w as int)) by (nonlinear_arith)
            requires
                0 <= (fv as int) < pow10(kk as int),
                mult as int == pow10((w - kk) as int),
                pow10(kk as int) * pow10((w - kk) as int) == pow10(w as int),
                mult as int >= 1,
        ;
        lemma_pow10_product(kk as int, (w as int) - kk);
        assert(val as int * pow10(w as int) <= 9_999_999 * 1_000_000) by (nonlinear_arith)
            requires
                0 <= val as int <= 9_999_999,
                0int < pow10(w as int) <= 1_000_000,
        ;
        if dot < b as usize {
            assert(all_digits(s@, dot + 1, b as int));
        }
        assert(frac_val(s@, fa as int, b as int, w as int) == fv as int * mult as int);
    }
    let p = pow10_x(w);
    let mag: u64 = val * p + fv * mult;
    if neg {
        return Some(-(mag as i64));
    }
    Some(mag as i64)
}

/// Powers of ten are positive.
proof fn lemma_pow10_pos(a: int)
    ensures
        pow10(a) >= 1,
    decreases a,
{
    if a > 0 {
        lemma_pow10_pos(a - 1);
    }
}

/// Powers of ten grow with the exponent.
proof fn lemma_pow10_mono(a: int, b: int)
    requires
        0 <= a <= b,
    ensures
        pow10(a) <= pow10(b),
        pow10(a) >= 1,
    decreases b - a,
{
    lemma_pow10_pos(a);
    if a < b {
        lemma_pow10_mono(a, b - 1);
        assert(pow10(b) == 10 * pow10(b - 1));
        assert(pow10(b - 1) <= 10 * pow10(b - 1)) by (nonlinear_arith)
            requires
                pow10(b - 1) >= 1,
        ;
    }
}

/// Powers of ten multiply by adding exponents.
proof fn lemma_pow10_product(a: int, b: int)
    requires
        a >= 0,
        b >= 0,
    ensures
        pow10(a) * pow10(b) == pow10(a + b),
    decreases a,
{
    if a == 0 {
    } else {
        lemma_pow10_product(a - 1, b);
        assert(pow10(a) * pow10(b) == 10 * (pow10(a - 1) * pow10(b))) by (nonlinear_arith)
            requires
                pow10(a) == 10 * pow10(a - 1),
        ;
    }
}

/// Read a timestamp in [a, b).
#[verifier::loop_isolation(false)]
fn parse_ts(s: &str, a: usize, b: usize) -> (r: Option<i64>)
    requires
        s.is_ascii(),
        a <= b <= s@.len(),
        s@.len() <= usize::MAX,
    ensures
        match r {
            Some(v) => ts_val(s@, a as int, b as int) == Some(v as int),
            None => ts_val(s@, a as int, b as int) is None,
        },
{
    if b - a != 20 && b - a != 24 {
        return None;
    }
    let y = match read_pad(s, a, 4) {
        Some(v) => v,
        None => {
            return None;
        },
    };
    let mo = match read_pad(s, a + 5, 2) {
        Some(v) => v,
        None => {
            return None;
        },
    };
    let d = match read_pad(s, a + 8, 2) {
        Some(v) => v,
        None => {
            return None;
        },
    };
    let h = match read_pad(s, a + 11, 2) {
        Some(v) => v,
        None => {
            return None;
        },
    };
    let mi = match read_pad(s, a + 14, 2) {
        Some(v) => v,
        None => {
            return None;
        },
    };
    let sec = match read_pad(s, a + 17, 2) {
        Some(v) => v,
        None => {
            return None;
        },
    };
    if chr(s, a + 4) != '-' || chr(s, a + 7) != '-' || chr(s, a + 10) != 'T' || chr(s, a + 13)
        != ':' || chr(s, a + 16) != ':' {
        return None;
    }
    let f: u64 = if b - a == 24 {
        if chr(s, a + 19) != '.' || chr(s, a + 23) != 'Z' {
            return None;
        }
        match read_pad(s, a + 20, 3) {
            Some(v) => v,
            None => {
                return None;
            },
        }
    } else {
        if chr(s, a + 19) != 'Z' {
            return None;
        }
        0
    };
    if y < 1970 || y > 2397 || mo < 1 || mo > 12 || d < 1 || h > 23 || mi > 59 || sec > 59 {
        return None;
    }
    if d > month_days_pub(y, mo) {
        return None;
    }
    proof {
        lemma_pow10_small();
    }
    let days = crate::cal::civil_to_days(y, mo, d);
    let ms: i64 = ((((days as i64 * 24 + h as i64) * 60 + mi as i64) * 60) * 1000) + (sec as i64)
        * 1000 + f as i64;
    if ms > MAX_TIME_MS {
        return None;
    }
    Some(ms)
}

/// Days in a month, re-exported for the timestamp reader.
fn month_days_pub(y: u64, m: u64) -> (r: u64)
    requires
        1 <= m <= 12,
    ensures
        r as int == crate::cal::days_in_month(y as int, m as int),
{
    crate::cal::month_days(y, m)
}

/// Every reachable decoder state is sane.
#[verifier::rlimit(40)]
pub proof fn lemma_dec_run_wf(s: Seq<char>, i: int)
    requires
        0 <= i <= s.len(),
    ensures
        dec_wf(dec_run(s, i), i),
    decreases i,
{
    if i > 0 {
        lemma_dec_run_wf(s, i - 1);
        let st = dec_run(s, i - 1);
        let st2 = dec_step(s, i - 1, st);
        assert(st2.cur.valid());
        assert forall|k: int| 0 <= k < st2.pts.len() implies (#[trigger] st2.pts[k]).valid() by {
            if k < st.pts.len() {
                assert(st.pts[k].valid());
            } else {
                assert(st2.pts[k] == st.cur);
            }
        }
        assert(0 <= st2.text_start <= i);
        assert(st2.text_a <= st2.text_b <= i);
        assert(st2.tag_start <= i);
        assert(st2.attr_start <= st2.attr_end <= i);
        assert(st2.val_start <= i);
        assert(st2.name_a <= st2.name_b <= i);
        assert(dec_wf(st2, i));
    }
}

/// The decoder's working state: the executable twin of DecM.
struct Dec {
    mode: Mode,
    text_start: usize,
    text_a: usize,
    text_b: usize,
    tag_start: usize,
    is_trkpt: bool,
    attr_start: usize,
    attr_end: usize,
    val_start: usize,
    name_a: usize,
    name_b: usize,
    has_name: bool,
    cur: Point,
    pts: Vec<Point>,
    warns: Vec<DecodeWarning>,
    failed: bool,
}

impl Dec {
    /// The state this decoder stands for.
    spec fn m(&self) -> DecM {
        DecM {
            mode: self.mode,
            text_start: self.text_start as int,
            text_a: self.text_a as int,
            text_b: self.text_b as int,
            tag_start: self.tag_start as int,
            is_trkpt: self.is_trkpt,
            attr_start: self.attr_start as int,
            attr_end: self.attr_end as int,
            val_start: self.val_start as int,
            name_a: self.name_a as int,
            name_b: self.name_b as int,
            has_name: self.has_name,
            cur: self.cur,
            pts: self.pts@,
            warns: self.warns@,
            failed: self.failed,
        }
    }

    fn new() -> (r: Dec)
        ensures
            r.m() == dec_init(),
    {
        let r = Dec {
            mode: Mode::Text,
            text_start: 0,
            text_a: 0,
            text_b: 0,
            tag_start: 0,
            is_trkpt: false,
            attr_start: 0,
            attr_end: 0,
            val_start: 0,
            name_a: 0,
            name_b: 0,
            has_name: false,
            cur: Point::new(),
            pts: Vec::new(),
            warns: Vec::new(),
            failed: false,
        };
        proof {
            assert(r.m() =~= dec_init());
        }
        r
    }

    /// Feed one character: the executable transition.
    #[verifier::rlimit(100)]
    #[verifier::loop_isolation(false)]
    fn step_at(&mut self, s: &str, i: usize)
        requires
            s.is_ascii(),
            i < s@.len(),
            s@.len() <= usize::MAX,
            dec_wf(old(self).m(), i as int),
        ensures
            final(self).m() == dec_step(s@, i as int, old(self).m()),
    {
        if self.failed {
            return ;
        }
        let c = chr(s, i);
        match self.mode {
            Mode::Text => {
                if c == '<' {
                    self.mode = Mode::TagOpen;
                    self.text_a = self.text_start;
                    self.text_b = i;
                }
            },
            Mode::TagOpen => {
                if c == '/' {
                    self.mode = Mode::CloseName;
                    self.tag_start = i + 1;
                } else if c == '?' {
                    self.mode = Mode::Pi;
                } else if c == '!' {
                    self.mode = Mode::Bang;
                } else {
                    self.mode = Mode::OpenName;
                    self.tag_start = i;
                }
            },
            Mode::OpenName => {
                if c == '>' {
                    self.mode = Mode::Text;
                    self.text_start = i + 1;
                } else if c == '/' {
                    self.mode = Mode::EmptyEnd;
                } else if c == ' ' || c == '\n' || c == '\t' || c == '\r' {
                    self.mode = Mode::AttrSpace;
                    self.is_trkpt = str_range_eq(s, self.tag_start, i, "trkpt");
                }
            },
            Mode::AttrSpace => {
                if c == '>' {
                    self.mode = Mode::Text;
                    self.text_start = i + 1;
                } else if c == '/' {
                    self.mode = Mode::EmptyEnd;
                } else if c == ' ' || c == '\n' || c == '\t' || c == '\r' {
                } else {
                    self.mode = Mode::AttrName;
                    self.attr_start = i;
                    self.attr_end = i;
                }
            },
            Mode::AttrName => {
                if c == '=' {
                    self.mode = Mode::AttrEq;
                    self.attr_end = i;
                } else if c == '>' {
                    self.mode = Mode::Text;
                    self.text_start = i + 1;
                } else if c == ' ' || c == '\n' || c == '\t' || c == '\r' {
                    self.mode = Mode::AttrSpace;
                }
            },
            Mode::AttrEq => {
                if c == '"' {
                    self.mode = Mode::AttrVal;
                    self.val_start = i + 1;
                } else {
                    self.failed = true;
                }
            },
            Mode::AttrVal => {
                if c == '"' {
                    if self.is_trkpt {
                        if str_range_eq(s, self.attr_start, self.attr_end, "lat") {
                            match parse_fixed(s, self.val_start, i, 6) {
                                Some(v) => {
                                    if -90_000_000 <= v && v <= 90_000_000 {
                                        self.cur.lat = v;
                                        self.mode = Mode::AttrSpace;
                                    } else {
                                        self.failed = true;
                                    }
                                },
                                None => {
                                    self.failed = true;
                                },
                            }
                        } else if str_range_eq(s, self.attr_start, self.attr_end, "lon") {
                            match parse_fixed(s, self.val_start, i, 6) {
                                Some(v) => {
                                    if -180_000_000 <= v && v <= 180_000_000 {
                                        self.cur.long = v;
                                        self.mode = Mode::AttrSpace;
                                    } else {
                                        self.failed = true;
                                    }
                                },
                                None => {
                                    self.failed = true;
                                },
                            }
                        } else if str_range_eq(s, self.attr_start, self.attr_end, "ele") {
                            match parse_fixed(s, self.val_start, i, 3) {
                                Some(v) => {
                                    if -9_999_999_999 <= v && v <= 9_999_999_999 {
                                        self.cur.ele = v;
                                        self.mode = Mode::AttrSpace;
                                    } else {
                                        self.failed = true;
                                    }
                                },
                                None => {
                                    self.failed = true;
                                },
                            }
                        } else {
                            self.mode = Mode::AttrSpace;
                        }
                    } else {
                        self.mode = Mode::AttrSpace;
                    }
                }
            },
            Mode::EmptyEnd => {
                if c == '>' {
                    self.mode = Mode::Text;
                    self.text_start = i + 1;
                } else {
                    self.failed = true;
                }
            },
            Mode::CloseName => {
                if c == '>' {
                    if str_range_eq(s, self.tag_start, i, "ele") {
                        match parse_fixed(s, self.text_a, self.text_b, 3) {
                            Some(v) => {
                                if -9_999_999_999 <= v && v <= 9_999_999_999 {
                                    self.cur.ele = v;
                                    self.mode = Mode::Text;
                                    self.text_start = i + 1;
                                } else {
                                    self.failed = true;
                                }
                            },
                            None => {
                                self.failed = true;
                            },
                        }
                    } else if str_range_eq(s, self.tag_start, i, "name") {
                        self.has_name = true;
                        self.name_a = self.text_a;
                        self.name_b = self.text_b;
                        self.mode = Mode::Text;
                        self.text_start = i + 1;
                    } else if str_range_eq(s, self.tag_start, i, "time") {
                        match parse_ts(s, self.text_a, self.text_b) {
                            Some(ms) => {
                                self.cur.time = ms;
                            },
                            None => {
                                self.warns.push(
                                    DecodeWarning { point_index: self.pts.len() },
                                );
                                self.cur.time = crate::point::SENTINEL_TIME_MS;
                            },
                        }
                        self.mode = Mode::Text;
                        self.text_start = i + 1;
                    } else if str_range_eq(s, self.tag_start, i, "trkpt") {
                        let p = self.cur;
                        self.pts.push(p);
                        self.mode = Mode::Text;
                        self.text_start = i + 1;
                    } else {
                        self.mode = Mode::Text;
                        self.text_start = i + 1;
                    }
                }
            },
            Mode::Pi => {
                if c == '?' {
                    self.mode = Mode::PiQ;
                }
            },
            Mode::PiQ => {
                if c == '>' {
                    self.mode = Mode::Text;
                    self.text_start = i + 1;
                } else if c == '?' {
                } else {
                    self.mode = Mode::Pi;
                }
            },
            Mode::Bang => {
                if c == '>' {
                    self.mode = Mode::Text;
                    self.text_start = i + 1;
                }
            },
        }
        proof {
            assert(final(self).m() =~= dec_step(s@, i as int, old(self).m()));
        }
    }
}

impl Track {
    /// Decode a document: scan it once, fill this track's points from its
    /// trkpt elements and its name from a name element, and report a warning
    /// for every point whose timestamp could not be read.  Fails without
    /// touching the track when the document is not ASCII or does not fit the
    /// decoder's grammar.
    pub fn from_xml(&mut self, xml: &str) -> (r: Result<Vec<DecodeWarning>, DecodeError>)
        requires
            old(self).wf(),
        ensures
            ({
                let fin = dec_run(xml@, xml@.len() as int);
                match r {
                    Ok(warns) => {
                        &&& vstd::utf8::is_ascii_chars(xml@)
                        &&& !fin.failed
                        &&& fin.mode == Mode::Text
                        &&& final(self).points@ == old(self).points@ + fin.pts
                        &&& final(self).name@ == if fin.has_name {
                            xml@.subrange(fin.name_a, fin.name_b)
                        } else {
                            old(self).name@
                        }
                        &&& warns@ == fin.warns
                        &&& final(self).wf()
                    },
                    Err(DecodeError::NotAscii) => {
                        &&& !vstd::utf8::is_ascii_chars(xml@)
                        &&& *final(self) == *old(self)
                    },
                    Err(DecodeError::Malformed) => {
                        &&& vstd::utf8::is_ascii_chars(xml@)
                        &&& (fin.failed || fin.mode != Mode::Text)
                        &&& *final(self) == *old(self)
                    },
                }
            }),
    {
        if !xml.is_ascii() {
            return Err(DecodeError::NotAscii);
        }
        let n = xml.unicode_len();
        let mut dec = Dec::new();
        let mut i: usize = 0;
        while i < n
            invariant
                0 <= i <= n,
                n == xml@.len(),
                xml.is_ascii(),
                dec.m() == dec_run(xml@, i as int),
            decreases n - i,
        {
            proof {
                lemma_dec_run_wf(xml@, i as int);
            }
            dec.step_at(xml, i);
            i = i + 1;
        }
        if dec.failed {
            return Err(DecodeError::Malformed);
        }
        let keep_scanning: bool = match dec.mode {
            Mode::Text => true,
            _ => false,
        };
        if !keep_scanning {
            return Err(DecodeError::Malformed);
        }
        proof {
            lemma_dec_run_wf(xml@, n as int);
        }
        if dec.has_name {
            let nm = xml.substring_ascii(dec.name_a, dec.name_b).to_owned();
            self.name = nm;
        }
        let ghost oldpts = self.points@;
        let ghost nameafter = self.name@;
        let mut k: usize = 0;
        while k < dec.pts.len()
            invariant
                0 <= k <= dec.pts@.len(),
                self.name@ == nameafter,
                self.points@ == oldpts + dec.pts@.take(k as int),
                crate::point::all_valid(dec.pts@),
                crate::point::all_valid(oldpts),
            decreases dec.pts@.len() - k,
        {
            let p = dec.pts[k];
            self.points.push(p);
            proof {
                assert(self.points@ =~= oldpts + dec.pts@.take(k + 1));
            }
            k = k + 1;
        }
        proof {
            assert(dec.pts@.take(dec.pts@.len() as int) =~= dec.pts@);
            assert forall|j: int| 0 <= j < self.points@.len() implies (
            #[trigger] self.points@[j]).valid() by {
                if j < oldpts.len() {
                    assert(oldpts[j].valid());
                } else {
                    assert(self.points@[j] == dec.pts@[j - oldpts.len()]);
                }
            }
        }
        Ok(dec.warns)
    }
}

} // verus!
