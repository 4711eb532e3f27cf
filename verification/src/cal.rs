//! Proleptic Gregorian calendar arithmetic on days since 1970-01-01.
//!
//! Supports day indices 0 to MAX_EPOCH_DAY (1970 through early 2397), the
//! range over which timestamps are printed and parsed.
use vstd::prelude::*;

verus! {

/// Last supported day index (exclusive bound is 156_000).
pub const MAX_EPOCH_DAY: u64 = 155_999;

/// Gregorian leap-year rule.
pub open spec fn is_leap(y: int) -> bool {
    (y % 4 == 0 && y % 100 != 0) || y % 400 == 0
}

/// Days in year y.
pub open spec fn days_in_year(y: int) -> int {
    if is_leap(y) {
        366int
    } else {
        365int
    }
}

/// Days in month m of year y, m in [1, 12].
pub open spec fn days_in_month(y: int, m: int) -> int {
    if m == 2 {
        if is_leap(y) {
            29int
        } else {
            28int
        }
    } else if m == 4 || m == 6 || m == 9 || m == 11 {
        30int
    } else {
        31int
    }
}

/// Days from 1970-01-01 to the start of year y.
pub open spec fn days_before_year(y: int) -> int
    decreases y,
{
    if y <= 1970 {
        0
    } else {
        days_before_year(y - 1) + days_in_year(y - 1)
    }
}

/// Days from the start of year y to the start of month m.
pub open spec fn days_before_month(y: int, m: int) -> int
    decreases m,
{
    if m <= 1 {
        0
    } else {
        days_before_month(y, m - 1) + days_in_month(y, m - 1)
    }
}

/// Day index of the date (y, m, d): days since 1970-01-01.
pub open spec fn days_from_civil(y: int, m: int, d: int) -> int {
    days_before_year(y) + days_before_month(y, m) + d - 1
}

/// A calendar date in the supported range.
pub open spec fn valid_date(y: int, m: int, d: int) -> bool {
    &&& 1970 <= y <= 2397
    &&& 1 <= m <= 12
    &&& 1 <= d <= days_in_month(y, m)
}

/// Milliseconds since the epoch of a date and a time of day.
pub open spec fn civil_ms(y: int, m: int, d: int, h: int, mi: int, sec: int, ms: int) -> int {
    ((days_from_civil(y, m, d) * 24 + h) * 60 + mi) * 60 * 1000 + sec * 1000 + ms
}

/// At least 365 days pass per year.
proof fn lemma_dby_lower(y: int)
    requires
        y >= 1970,
    ensures
        days_before_year(y) >= (y - 1970) * 365,
    decreases y,
{
    if y > 1970 {
        lemma_dby_lower(y - 1);
        assert((y - 1970) * 365 == (y - 1 - 1970) * 365 + 365) by (nonlinear_arith);
    }
}

/// At most 366 days pass per year.
proof fn lemma_dby_upper(y: int)
    requires
        y >= 1970,
    ensures
        days_before_year(y) <= (y - 1970) * 366,
    decreases y,
{
    if y > 1970 {
        lemma_dby_upper(y - 1);
        assert((y - 1970) * 366 == (y - 1 - 1970) * 366 + 366) by (nonlinear_arith);
    }
}

/// The months of a year sum to its day count.
proof fn lemma_months_sum(y: int)
    ensures
        days_before_month(y, 13) == days_in_year(y),
{
    assert(days_before_month(y, 1) == 0);
    assert(days_before_month(y, 2) == 31);
    assert(days_before_month(y, 3) == days_before_month(y, 2) + days_in_month(y, 2));
    assert(days_before_month(y, 4) == days_before_month(y, 3) + 31);
    assert(days_before_month(y, 5) == days_before_month(y, 4) + 30);
    assert(days_before_month(y, 6) == days_before_month(y, 5) + 31);
    assert(days_before_month(y, 7) == days_before_month(y, 6) + 30);
    assert(days_before_month(y, 8) == days_before_month(y, 7) + 31);
    assert(days_before_month(y, 9) == days_before_month(y, 8) + 31);
    assert(days_before_month(y, 10) == days_before_month(y, 9) + 30);
    assert(days_before_month(y, 11) == days_before_month(y, 10) + 31);
    assert(days_before_month(y, 12) == days_before_month(y, 11) + 30);
    assert(days_before_month(y, 13) == days_before_month(y, 12) + 31);
}

/// Year prefixes grow with the year.
proof fn lemma_dby_mono(y1: int, y2: int)
    requires
        y1 <= y2,
    ensures
        days_before_year(y1) <= days_before_year(y2),
    decreases y2 - y1,
{
    if y1 < y2 {
        lemma_dby_mono(y1, y2 - 1);
    }
}

/// A valid date's day index lies within its year's day range.
proof fn lemma_dfc_in_year(y: int, m: int, d: int)
    requires
        valid_date(y, m, d),
    ensures
        days_before_year(y) <= days_from_civil(y, m, d) < days_before_year(y + 1),
{
    lemma_dbm_bound(y, m);
    lemma_dbm_mono(y, m + 1, 13);
    lemma_months_sum(y);
    assert(days_before_month(y, m) + days_in_month(y, m) == days_before_month(y, m + 1));
}

/// Two valid dates with the same day index are the same date.
proof fn lemma_civil_unique(y1: int, m1: int, d1: int, y2: int, m2: int, d2: int)
    requires
        valid_date(y1, m1, d1),
        valid_date(y2, m2, d2),
        days_from_civil(y1, m1, d1) == days_from_civil(y2, m2, d2),
    ensures
        y1 == y2 && m1 == m2 && d1 == d2,
{
    lemma_dfc_in_year(y1, m1, d1);
    lemma_dfc_in_year(y2, m2, d2);
    if y1 < y2 {
        lemma_dby_mono(y1 + 1, y2);
        assert(false);
    }
    if y2 < y1 {
        lemma_dby_mono(y2 + 1, y1);
        assert(false);
    }
    let r1 = days_from_civil(y1, m1, d1) - days_before_year(y1);
    assert(r1 == days_before_month(y1, m1) + d1 - 1);
    assert(r1 == days_before_month(y1, m2) + d2 - 1);
    if m1 < m2 {
        assert(days_before_month(y1, m1) + days_in_month(y1, m1) == days_before_month(
            y1,
            m1 + 1,
        ));
        lemma_dbm_mono(y1, m1 + 1, m2);
        assert(false);
    }
    if m2 < m1 {
        assert(days_before_month(y1, m2) + days_in_month(y1, m2) == days_before_month(
            y1,
            m2 + 1,
        ));
        lemma_dbm_mono(y1, m2 + 1, m1);
        assert(false);
    }
}

/// The unique supported date of a day index: meaningful when one exists.
pub open spec fn date_of_day(z: int) -> (int, int, int) {
    choose|t: (int, int, int)|
        valid_date(t.0, t.1, t.2) && days_from_civil(t.0, t.1, t.2) == z
}

/// A valid date is the date of its own day index.
pub proof fn lemma_civil_unique_choice(y: int, m: int, d: int, z: int)
    requires
        valid_date(y, m, d),
        days_from_civil(y, m, d) == z,
    ensures
        date_of_day(z) == (y, m, d),
{
    let w = (y, m, d);
    assert(valid_date(w.0, w.1, w.2) && days_from_civil(w.0, w.1, w.2) == z);
    let t = date_of_day(z);
    assert(valid_date(t.0, t.1, t.2) && days_from_civil(t.0, t.1, t.2) == z) by {
        assert(exists|t: (int, int, int)|
            valid_date(t.0, t.1, t.2) && days_from_civil(t.0, t.1, t.2) == z);
    }
    lemma_civil_unique(t.0, t.1, t.2, y, m, d);
}

/// Every supported day index names a date.
pub proof fn lemma_date_exists(z: int)
    requires
        0 <= z <= MAX_EPOCH_DAY,
    ensures
        exists|t: (int, int, int)|
            valid_date(t.0, t.1, t.2) && #[trigger] days_from_civil(t.0, t.1, t.2) == z,
    decreases z,
{
    if z == 0 {
        let t = (1970int, 1int, 1int);
        assert(valid_date(t.0, t.1, t.2) && days_from_civil(t.0, t.1, t.2) == 0);
    } else {
        lemma_date_exists(z - 1);
        let t = choose|t: (int, int, int)|
            valid_date(t.0, t.1, t.2) && #[trigger] days_from_civil(t.0, t.1, t.2) == z - 1;
        let y = t.0;
        let m = t.1;
        let d = t.2;
        if d < days_in_month(y, m) {
            let u = (y, m, d + 1);
            assert(valid_date(u.0, u.1, u.2) && days_from_civil(u.0, u.1, u.2) == z);
        } else if m < 12 {
            let u = (y, m + 1, 1int);
            assert(days_before_month(y, m + 1) == days_before_month(y, m) + days_in_month(y, m));
            assert(valid_date(u.0, u.1, u.2) && days_from_civil(u.0, u.1, u.2) == z);
        } else {
            let u = (y + 1, 1int, 1int);
            lemma_months_sum(y);
            assert(days_before_month(y, 13) == days_before_month(y, 12) + days_in_month(y, 12));
            assert(days_before_year(y + 1) == days_before_year(y) + days_in_year(y));
            assert(days_from_civil(u.0, u.1, u.2) == z);
            lemma_dby_lower(y + 1);
            assert(y + 1 <= 2397) by (nonlinear_arith)
                requires
                    (y + 1 - 1970) * 365 <= 155_999,
                    y + 1 >= 1970,
            ;
            assert(valid_date(u.0, u.1, u.2) && days_from_civil(u.0, u.1, u.2) == z);
        }
    }
}

/// Whether y is a leap year.
pub fn leap_year(y: u64) -> (r: bool)
    ensures
        r == is_leap(y as int),
{
    (y % 4 == 0 && y % 100 != 0) || y % 400 == 0
}

/// Days in year y.
pub fn year_days(y: u64) -> (r: u64)
    ensures
        r as int == days_in_year(y as int),
{
    if leap_year(y) {
        366
    } else {
        365
    }
}

/// Days in month m of year y.
pub fn month_days(y: u64, m: u64) -> (r: u64)
    requires
        1 <= m <= 12,
    ensures
        r as int == days_in_month(y as int, m as int),
{
    if m == 2 {
        if leap_year(y) {
            29
        } else {
            28
        }
    } else if m == 4 || m == 6 || m == 9 || m == 11 {
        30
    } else {
        31
    }
}

/// The date of a supported day index.
pub fn days_to_civil(z: u64) -> (r: (u64, u64, u64))
    requires
        z <= MAX_EPOCH_DAY,
    ensures
        valid_date(r.0 as int, r.1 as int, r.2 as int),
        days_from_civil(r.0 as int, r.1 as int, r.2 as int) == z as int,
{
    let mut y: u64 = 1970;
    let mut acc: u64 = 0;
    loop
        invariant
            y >= 1970,
            acc as int == days_before_year(y as int),
            acc <= z <= MAX_EPOCH_DAY,
        ensures
            y >= 1970,
            acc as int == days_before_year(y as int),
            acc <= z,
            z as int - acc < days_in_year(y as int),
            y <= 2397,
        decreases MAX_EPOCH_DAY as int - acc,
    {
        proof {
            lemma_dby_lower(y as int);
            assert(y as int - 1970 <= 427) by (nonlinear_arith)
                requires
                    (y as int - 1970) * 365 <= 155_999,
            ;
        }
        let yd = year_days(y);
        if acc + yd <= z {
            acc = acc + yd;
            y = y + 1;
        } else {
            proof {
                lemma_dby_lower(y as int);
                assert(y as int - 1970 <= 427) by (nonlinear_arith)
                    requires
                        (y as int - 1970) * 365 <= 155_999,
                ;
            }
            break ;
        }
    }
    let rem: u64 = z - acc;
    let mut m: u64 = 1;
    let mut macc: u64 = 0;
    proof {
        lemma_months_sum(y as int);
    }
    loop
        invariant
            1 <= m <= 12,
            macc as int == days_before_month(y as int, m as int),
            macc <= rem,
            (rem as int) < days_in_year(y as int),
            days_before_month(y as int, 13) == days_in_year(y as int),
            y >= 1970,
        ensures
            1 <= m <= 12,
            macc as int == days_before_month(y as int, m as int),
            macc <= rem,
            rem as int - macc < days_in_month(y as int, m as int),
        decreases 12 - m as int,
    {
        let md = month_days(y, m);
        if macc + md <= rem {
            proof {
                if m == 12 {
                    assert(days_before_month(y as int, 13) <= rem);
                    assert(false);
                }
            }
            macc = macc + md;
            m = m + 1;
        } else {
            break ;
        }
    }
    let d: u64 = rem - macc + 1;
    (y, m, d)
}

/// The day index of a date.
pub fn civil_to_days(y: u64, m: u64, d: u64) -> (r: u64)
    requires
        valid_date(y as int, m as int, d as int),
    ensures
        r as int == days_from_civil(y as int, m as int, d as int),
        r < 160_000,
{
    let mut yy: u64 = 1970;
    let mut acc: u64 = 0;
    while yy < y
        invariant
            1970 <= yy <= y <= 2397,
            acc as int == days_before_year(yy as int),
            acc as int <= (yy as int - 1970) * 366,
        decreases y - yy,
    {
        let yd = year_days(yy);
        proof {
            assert((yy as int + 1 - 1970) * 366 == (yy as int - 1970) * 366 + 366)
                by (nonlinear_arith);
            assert((yy as int - 1970) * 366 <= 156_282) by (nonlinear_arith)
                requires
                    0 <= yy as int - 1970 <= 427,
            ;
        }
        acc = acc + yd;
        yy = yy + 1;
    }
    proof {
        assert((y as int - 1970) * 366 <= 427 * 366) by (nonlinear_arith)
            requires
                0 <= y as int - 1970 <= 427,
        ;
    }
    let mut mm: u64 = 1;
    let mut macc: u64 = 0;
    while mm < m
        invariant
            1 <= mm <= m <= 12,
            macc as int == days_before_month(y as int, mm as int),
            macc <= 366,
            1970 <= y <= 2397,
        decreases m - mm,
    {
        proof {
            lemma_months_sum(y as int);
            lemma_dbm_bound(y as int, mm as int + 1);
        }
        let md = month_days(y, mm);
        macc = macc + md;
        mm = mm + 1;
    }
    acc + macc + d - 1
}

/// Month prefixes stay within a year.
proof fn lemma_dbm_bound(y: int, m: int)
    requires
        1 <= m <= 13,
    ensures
        0 <= days_before_month(y, m) <= 366,
    decreases m,
{
    if m > 1 {
        lemma_dbm_bound(y, m - 1);
        lemma_months_sum(y);
        assert(days_before_month(y, m) <= days_before_month(y, 13)) by {
            lemma_dbm_mono(y, m, 13);
        }
    }
}

/// Month prefixes grow with the month.
proof fn lemma_dbm_mono(y: int, m1: int, m2: int)
    requires
        1 <= m1 <= m2 <= 13,
    ensures
        days_before_month(y, m1) <= days_before_month(y, m2),
    decreases m2 - m1,
{
    if m1 < m2 {
        lemma_dbm_mono(y, m1, m2 - 1);
    }
}

} // verus!
