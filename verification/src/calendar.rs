//! Civil (proleptic Gregorian) calendar dates of day counts since 1970-01-01.

use vstd::prelude::*;
use vstd::arithmetic::div_mod::{lemma_fundamental_div_mod, lemma_fundamental_div_mod_converse};

verus! {

/// Whether `y` is a leap year of the Gregorian calendar.
pub open spec fn is_leap_year(y: int) -> bool {
    (y % 4 == 0 && y % 100 != 0) || y % 400 == 0
}

/// The number of days of month `m` (1 to 12) of year `y`.
pub open spec fn month_length(y: int, m: int) -> int {
    if m == 2 {
        if is_leap_year(y) {
            29
        } else {
            28
        }
    } else if m == 4 || m == 6 || m == 9 || m == 11 {
        30
    } else {
        31
    }
}

/// The number of days of year `y` before the first day of month `m`.
pub open spec fn days_before_month(y: int, m: int) -> int {
    let base: int = if m == 1 {
        0
    } else if m == 2 {
        31
    } else if m == 3 {
        59
    } else if m == 4 {
        90
    } else if m == 5 {
        120
    } else if m == 6 {
        151
    } else if m == 7 {
        181
    } else if m == 8 {
        212
    } else if m == 9 {
        243
    } else if m == 10 {
        273
    } else if m == 11 {
        304
    } else {
        334
    };
    base + if m > 2 && is_leap_year(y) {
        1int
    } else {
        0
    }
}

/// A count of leap years: their number up to `y`, from a fixed origin.
pub open spec fn leap_count(y: int) -> int {
    y / 4 - y / 100 + y / 400
}

/// The number of days from 1970-01-01 to the given date (negative before it).
pub open spec fn days_from_civil(y: int, m: int, d: int) -> int {
    365 * (y - 1970) + (leap_count(y - 1) - leap_count(1969)) + days_before_month(y, m) + d - 1
}

/// Whether `(y, m, d)` names a day of the calendar.
pub open spec fn is_civil_date(y: int, m: int, d: int) -> bool {
    1 <= m <= 12 && 1 <= d <= month_length(y, m)
}

proof fn lemma_leap_count_step(t: int)
    ensures
        leap_count(t - 1) + (if is_leap_year(t) { 1int } else { 0 }) == leap_count(t),
{
}

/// Within a 400-year era that starts on March 1st of year 0, the year of the day
/// `doe` and the day of that (March-based) year.
proof fn lemma_year_of_era(doe: int)
    requires
        0 <= doe <= 146096,
    ensures
        ({
            let yoe = (doe - doe / 1460 + doe / 36524 - doe / 146096) / 365;
            let doy = doe - (365 * yoe + yoe / 4 - yoe / 100);
            &&& 0 <= yoe <= 399
            &&& 0 <= doy <= 364 + (if is_leap_year(yoe + 1) { 1int } else { 0 })
        }),
{
}

/// Within a March-based year, the month and day of the day `doy`.
proof fn lemma_month_of_year(doy: int, leap: bool)
    requires
        0 <= doy <= 364 + (if leap { 1int } else { 0 }),
    ensures
        ({
            let mp = (5 * doy + 2) / 153;
            let d = doy - (153 * mp + 2) / 5 + 1;
            &&& 0 <= mp <= 11
            &&& 1 <= d
            &&& mp <= 9 ==> d <= (if mp == 1 || mp == 3 || mp == 6 || mp == 8 { 30int } else { 31 })
            &&& mp == 10 ==> d <= 31
            &&& mp == 11 ==> d <= 28 + (if leap { 1int } else { 0 })
        }),
{
}


/// Moving the year by whole 400-year eras moves the leap count by 97 per era.
proof fn lemma_leap_count_era(era: int, t: int)
    ensures
        leap_count(400 * era + t) == 97 * era + leap_count(t),
{
    let x = 400 * era + t;
    lemma_fundamental_div_mod(t, 4);
    lemma_fundamental_div_mod(t, 100);
    lemma_fundamental_div_mod(t, 400);
    lemma_fundamental_div_mod_converse(x, 4, 100 * era + t / 4, t % 4);
    lemma_fundamental_div_mod_converse(x, 100, 4 * era + t / 100, t % 100);
    lemma_fundamental_div_mod_converse(x, 400, era + t / 400, t % 400);
}

/// The date `days` days after 1970-01-01, in steps: days since 0000-03-01, the
/// 400-year era, the day of the era, the year of the era, the day of the March-based
/// year, the March-based month, and finally year, month and day.
pub open spec fn civil_steps(days: int) -> (int, int, int, int, int, int) {
    let z = days + 719468;
    let era = z / 146097;
    let doe = z - era * 146097;
    let yoe = (doe - doe / 1460 + doe / 36524 - doe / 146096) / 365;
    let doy = doe - (365 * yoe + yoe / 4 - yoe / 100);
    let mp = (5 * doy + 2) / 153;
    (era, doe, yoe, doy, mp, doy - (153 * mp + 2) / 5 + 1)
}

/// The month (1 to 12) of a March-based month number.
pub open spec fn civil_month(mp: int) -> int {
    if mp < 10 {
        mp + 3
    } else {
        mp - 9
    }
}

proof fn lemma_civil_steps(days: int)
    ensures
        ({
            let (era, doe, yoe, doy, mp, d) = civil_steps(days);
            let m = civil_month(mp);
            let year = era * 400 + yoe + (if m <= 2 { 1int } else { 0 });
            &&& 0 <= doe <= 146096
            &&& 0 <= yoe <= 399
            &&& 0 <= doy <= 365
            &&& 0 <= mp <= 11
            &&& is_civil_date(year, m, d)
            &&& days_from_civil(year, m, d) == days
        }),
{
    let (era, doe, yoe, doy, mp, d) = civil_steps(days);
    let m = civil_month(mp);
    lemma_year_of_era(doe);
    lemma_month_of_year(doy, is_leap_year(yoe + 1));
    lemma_leap_count_era(era, yoe - 1);
    lemma_leap_count_era(era, yoe);
    lemma_leap_count_step(yoe);
    lemma_leap_year_era(era, yoe);
    lemma_leap_year_era(era, yoe + 1);
    assert(leap_count(1969) == 477);
    assert(leap_count(yoe) == yoe / 4 - yoe / 100);
    if mp <= 9 {
        assert(days_before_month(era * 400 + yoe, m) == (153 * mp + 2) / 5 + 59 + (if is_leap_year(
            yoe,
        ) {
            1int
        } else {
            0
        }));
    } else {
        assert(days_before_month(era * 400 + yoe + 1, m) == (153 * mp + 2) / 5 - 306);
    }
}

proof fn lemma_leap_year_era(era: int, t: int)
    ensures
        is_leap_year(400 * era + t) == is_leap_year(t),
{
    use_mod_shift(era, t, 4);
    use_mod_shift(era, t, 100);
    use_mod_shift(era, t, 400);
}

proof fn use_mod_shift(era: int, t: int, d: int)
    requires
        d == 4 || d == 100 || d == 400,
    ensures
        (400 * era + t) % d == t % d,
{
    lemma_fundamental_div_mod(t, d);
    if d == 4 {
        lemma_fundamental_div_mod_converse(400 * era + t, 4, 100 * era + t / 4, t % 4);
    } else if d == 100 {
        lemma_fundamental_div_mod_converse(400 * era + t, 100, 4 * era + t / 100, t % 100);
    } else {
        lemma_fundamental_div_mod_converse(400 * era + t, 400, era + t / 400, t % 400);
    }
}

/// Convert days since Unix epoch to (year, month, day).
///
/// The date is the day of the (proleptic Gregorian) calendar that lies `days` days
/// after 1970-01-01.
pub fn days_to_ymd(days: i64) -> (r: (i64, u32, u32))
    requires
        days <= i64::MAX - 719468,
    ensures
        is_civil_date(r.0 as int, r.1 as int, r.2 as int),
        days_from_civil(r.0 as int, r.1 as int, r.2 as int) == days,
        (r.0 as int, r.1 as int, r.2 as int) == civil_from_days(days as int),
{
    proof {
        lemma_civil_steps(days as int);
    }
    let ghost st = civil_steps(days as int);
    // Days since 0000-03-01, in eras of 400 years.
    let z = days + 719468;
    let era = if z >= 0 {
        z / 146097
    } else {
        -((146096 - z) / 146097)
    };
    assert(era == st.0);
    let doe = (z - era * 146097) as u64;
    let yoe = (doe - doe / 1460 + doe / 36524 - doe / 146096) / 365;
    let y = yoe as i64 + era * 400;
    let doy = doe - (365 * yoe + yoe / 4 - yoe / 100);
    let mp = (5 * doy + 2) / 153;
    let d = (doy - (153 * mp + 2) / 5 + 1) as u32;
    let m = if mp < 10 {
        mp + 3
    } else {
        mp - 9
    } as u32;
    let year = if m <= 2 {
        y + 1
    } else {
        y
    };
    proof {
        lemma_civil_from_days(days as int, year as int, m as int, d as int);
    }
    (year, m, d)
}


/// The days from 1970-01-01 to the first day of year `y`.
pub open spec fn year_start(y: int) -> int {
    days_from_civil(y, 1, 1)
}

/// The number of days of year `y`.
pub open spec fn year_length(y: int) -> int {
    if is_leap_year(y) {
        366
    } else {
        365
    }
}

pub proof fn lemma_year_start_step(y: int)
    ensures
        year_start(y + 1) == year_start(y) + year_length(y),
{
    lemma_leap_count_step(y);
}

proof fn lemma_year_start_mono(a: int, b: int)
    requires
        a < b,
    ensures
        year_start(a) + year_length(a) <= year_start(b),
    decreases b - a,
{
    lemma_year_start_step(a);
    if a + 1 < b {
        lemma_year_start_mono(a + 1, b);
        lemma_year_start_step(a + 1);
    }
}

/// A date lies within its year.
proof fn lemma_date_in_year(y: int, m: int, d: int)
    requires
        is_civil_date(y, m, d),
    ensures
        year_start(y) <= days_from_civil(y, m, d) < year_start(y) + year_length(y),
{
}

/// Distinct dates are distinct days: `days_from_civil` is one-to-one on dates.
pub proof fn lemma_civil_unique(y1: int, m1: int, d1: int, y2: int, m2: int, d2: int)
    requires
        is_civil_date(y1, m1, d1),
        is_civil_date(y2, m2, d2),
        days_from_civil(y1, m1, d1) == days_from_civil(y2, m2, d2),
    ensures
        y1 == y2 && m1 == m2 && d1 == d2,
{
    lemma_date_in_year(y1, m1, d1);
    lemma_date_in_year(y2, m2, d2);
    if y1 < y2 {
        lemma_year_start_mono(y1, y2);
    } else if y2 < y1 {
        lemma_year_start_mono(y2, y1);
    }
}

/// The calendar date of the day `days` days after 1970-01-01.
pub open spec fn civil_from_days(days: int) -> (int, int, int) {
    choose|ymd: (int, int, int)|
        is_civil_date(ymd.0, ymd.1, ymd.2) && days_from_civil(ymd.0, ymd.1, ymd.2) == days
}

/// A date of the day `days` is the date `civil_from_days(days)`.
pub proof fn lemma_civil_from_days(days: int, y: int, m: int, d: int)
    requires
        is_civil_date(y, m, d),
        days_from_civil(y, m, d) == days,
    ensures
        civil_from_days(days) == (y, m, d),
{
    let w = (y, m, d);
    assert(is_civil_date(w.0, w.1, w.2) && days_from_civil(w.0, w.1, w.2) == days);
    let c = civil_from_days(days);
    lemma_civil_unique(c.0, c.1, c.2, y, m, d);
}

} // verus!
