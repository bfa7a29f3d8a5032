//! The proleptic Gregorian calendar counted in days since 1970-01-01.

use vstd::arithmetic::div_mod::{lemma_fundamental_div_mod, lemma_fundamental_div_mod_converse};
use vstd::prelude::*;

verus! {

pub open spec fn is_leap_year(y: int) -> bool {
    y % 4 == 0 && (y % 100 != 0 || y % 400 == 0)
}

pub open spec fn leap_day(y: int) -> int {
    if is_leap_year(y) {
        1
    } else {
        0
    }
}

/// Number of days of month `m` (1 = January) in year `y`.
pub open spec fn days_in_month(y: int, m: int) -> int {
    if m == 2 {
        28 + leap_day(y)
    } else if m == 4 || m == 6 || m == 9 || m == 11 {
        30
    } else {
        31
    }
}

/// Days of year `y` that come before the first day of month `m`.
pub open spec fn days_before_month(y: int, m: int) -> int {
    let common: int = if m <= 1 {
        0
    } else if m == 2 {
        31
    } else if m == 3 {
        59
    } else if m == 4 {
        90
    } else if m == 5 {
        120
    } else if m == 6 {
        151
    } else if m == 7 {
        181
    } else if m == 8 {
        212
    } else if m == 9 {
        243
    } else if m == 10 {
        273
    } else if m == 11 {
        304
    } else {
        334
    };
    if m > 2 {
        common + leap_day(y)
    } else {
        common
    }
}

/// Leap years among the years 1 ..= y - 1.
pub open spec fn leap_years_before(y: int) -> int {
    (y - 1) / 4 - (y - 1) / 100 + (y - 1) / 400
}

/// Day number (since 1970-01-01) of January 1st of year `y`.
pub open spec fn days_before_year(y: int) -> int {
    365 * (y - 1970) + leap_years_before(y) - leap_years_before(1970)
}

/// Day number (since 1970-01-01) of the date `y`-`m`-`d`.
pub open spec fn days_from_civil(y: int, m: int, d: int) -> int {
    days_before_year(y) + days_before_month(y, m) + d - 1
}

pub open spec fn is_valid_date(y: int, m: int, d: int) -> bool {
    1 <= m <= 12 && 1 <= d <= days_in_month(y, m)
}

/// The calendar date (year, month, day) of day number `days`.
pub open spec fn civil_from_days(days: int) -> (int, int, int) {
    choose|y: int, m: int, d: int| is_valid_date(y, m, d) && days_from_civil(y, m, d) == days
}

/// Day of the week of day number `days`: 0 is Monday, 6 is Sunday.
pub open spec fn weekday_of(days: int) -> int {
    (days + 3) % 7
}

proof fn lemma_floor_step(y: int, d: int)
    requires
        d > 0,
    ensures
        y / d - (y - 1) / d == (if y % d == 0 {
            1int
        } else {
            0int
        }),
{
    lemma_fundamental_div_mod(y, d);
    let q = y / d;
    let r = y % d;
    if r == 0 {
        assert(y - 1 == (q - 1) * d + (d - 1)) by (nonlinear_arith)
            requires
                y == d * q + r,
                r == 0,
        ;
        lemma_fundamental_div_mod_converse(y - 1, d, q - 1, d - 1);
    } else {
        assert(y - 1 == q * d + (r - 1)) by (nonlinear_arith)
            requires
                y == d * q + r,
        ;
        lemma_fundamental_div_mod_converse(y - 1, d, q, r - 1);
    }
}

proof fn lemma_divisibility_chain(y: int)
    ensures
        y % 400 == 0 ==> y % 100 == 0,
        y % 100 == 0 ==> y % 4 == 0,
{
    lemma_fundamental_div_mod(y, 400);
    lemma_fundamental_div_mod(y, 100);
    if y % 400 == 0 {
        lemma_fundamental_div_mod_converse(y, 100, 4 * (y / 400), 0);
    }
    if y % 100 == 0 {
        lemma_fundamental_div_mod_converse(y, 4, 25 * (y / 100), 0);
    }
}

/// The leap-year count grows by one exactly past a leap year.
pub proof fn lemma_leap_years_step(y: int)
    ensures
        leap_years_before(y + 1) == leap_years_before(y) + leap_day(y),
{
    lemma_floor_step(y, 4);
    lemma_floor_step(y, 100);
    lemma_floor_step(y, 400);
    lemma_divisibility_chain(y);
}

/// A year has 365 days plus its leap day.
pub proof fn lemma_year_length(y: int)
    ensures
        days_before_year(y + 1) == days_before_year(y) + 365 + leap_day(y),
{
    lemma_leap_years_step(y);
}

/// Years start in increasing order of day number.
pub proof fn lemma_years_ordered(y1: int, y2: int)
    requires
        y1 < y2,
    ensures
        days_before_year(y1) + 365 + leap_day(y1) <= days_before_year(y2),
    decreases y2 - y1,
{
    lemma_year_length(y1);
    if y1 + 1 < y2 {
        lemma_years_ordered(y1 + 1, y2);
        lemma_year_length(y1 + 1);
    }
}

proof fn lemma_months_ordered(y: int, m1: int, m2: int)
    requires
        1 <= m1 <= 12,
        1 <= m2 <= 12,
        m1 < m2,
    ensures
        days_before_month(y, m1) + days_in_month(y, m1) <= days_before_month(y, m2),
{
}

proof fn lemma_month_in_year(y: int, m: int)
    requires
        1 <= m <= 12,
    ensures
        0 <= days_before_month(y, m),
        days_before_month(y, m) + days_in_month(y, m) <= 365 + leap_day(y),
{
}

/// Two valid dates with the same day number are the same date.
pub proof fn lemma_civil_unique(y1: int, m1: int, d1: int, y2: int, m2: int, d2: int)
    requires
        is_valid_date(y1, m1, d1),
        is_valid_date(y2, m2, d2),
        days_from_civil(y1, m1, d1) == days_from_civil(y2, m2, d2),
    ensures
        y1 == y2 && m1 == m2 && d1 == d2,
{
    lemma_month_in_year(y1, m1);
    lemma_month_in_year(y2, m2);
    if y1 < y2 {
        lemma_years_ordered(y1, y2);
    } else if y2 < y1 {
        lemma_years_ordered(y2, y1);
    } else if m1 < m2 {
        lemma_months_ordered(y1, m1, m2);
    } else if m2 < m1 {
        lemma_months_ordered(y1, m2, m1);
    }
}

/// `civil_from_days` names the one valid date with the given day number.
pub proof fn lemma_civil_from_days(days: int, y: int, m: int, d: int)
    requires
        is_valid_date(y, m, d),
        days_from_civil(y, m, d) == days,
    ensures
        civil_from_days(days) == (y, m, d),
{
    let (y2, m2, d2) = civil_from_days(days);
    assert(is_valid_date(y2, m2, d2) && days_from_civil(y2, m2, d2) == days);
    lemma_civil_unique(y, m, d, y2, m2, d2);
}


/// Day offset of the first day of the `i`-th month (0 = March) from March 1st.
pub open spec fn march_offset(i: int) -> int {
    if i <= 0 {
        0
    } else if i == 1 {
        31
    } else if i == 2 {
        61
    } else if i == 3 {
        92
    } else if i == 4 {
        122
    } else if i == 5 {
        153
    } else if i == 6 {
        184
    } else if i == 7 {
        214
    } else if i == 8 {
        245
    } else if i == 9 {
        275
    } else if i == 10 {
        306
    } else if i == 11 {
        337
    } else {
        366
    }
}

/// March 1st of year `1600 + 400 * a + 100 * b + 4 * c + e` in terms of the
/// 400-, 100-, 4- and 1-year periods that precede it.
pub proof fn lemma_march_first(a: int, b: int, c: int, e: int)
    requires
        0 <= a,
        0 <= b <= 3,
        0 <= c <= 24,
        0 <= e <= 3,
    ensures
        ({
            let y = 1600 + 400 * a + 100 * b + 4 * c + e;
            &&& days_from_civil(y, 3, 1) == 146097 * a + 36524 * b + 1461 * c + 365 * e - 135080
            &&& days_before_year(y + 1) == days_from_civil(y, 3, 1) + 306
        }),
{
    let y = 1600 + 400 * a + 100 * b + 4 * c + e;
    lemma_year_length(y);
    lemma_fundamental_div_mod_converse(y, 4, 400 + 100 * a + 25 * b + c, e);
    lemma_fundamental_div_mod_converse(y, 100, 16 + 4 * a + b, 4 * c + e);
    lemma_fundamental_div_mod_converse(y, 400, 4 + a, 100 * b + 4 * c + e);
}

/// The year after a 4-year period whose last year is long is a leap year.
pub proof fn lemma_leap_after_period(a: int, b: int, c: int)
    requires
        0 <= a,
        0 <= b <= 3,
        0 <= c <= 24,
        c < 24 || b == 3,
    ensures
        is_leap_year(1600 + 400 * a + 100 * b + 4 * c + 4),
{
    let y = 1600 + 400 * a + 100 * b + 4 * c + 4;
    if c < 24 {
        lemma_fundamental_div_mod_converse(y, 4, 401 + 100 * a + 25 * b + c, 0);
        lemma_fundamental_div_mod_converse(y, 100, 16 + 4 * a + b, 4 * c + 4);
    } else {
        lemma_fundamental_div_mod_converse(y, 4, 500 + 100 * a, 0);
        lemma_fundamental_div_mod_converse(y, 100, 20 + 4 * a, 0);
        lemma_fundamental_div_mod_converse(y, 400, 5 + a, 0);
    }
}

/// The year of day number `days`, searched from year `y` on.
proof fn lemma_year_of(days: int, y: int) -> (r: int)
    requires
        1970 <= y <= 9999,
        days_before_year(y) <= days < days_before_year(10000),
    ensures
        y <= r <= 9999,
        days_before_year(r) <= days < days_before_year(r + 1),
    decreases 10000 - y,
{
    lemma_year_length(y);
    if days < days_before_year(y + 1) {
        y
    } else {
        if y + 1 > 9999 {
            assert(y + 1 == 10000);
        }
        lemma_year_of(days, y + 1)
    }
}

/// Every day from 1970-01-01 up to the end of year 9999 has a calendar date,
/// in the years 1970 to 9999.
pub proof fn lemma_civil_exists(days: int)
    requires
        0 <= days < days_before_year(10000),
    ensures
        ({
            let (y, m, d) = civil_from_days(days);
            &&& is_valid_date(y, m, d)
            &&& days_from_civil(y, m, d) == days
            &&& 1970 <= y <= 9999
        }),
{
    assert(days_before_year(1970) == 0);
    let y = lemma_year_of(days, 1970);
    lemma_year_length(y);
    let doy = days - days_before_year(y);
    let l = leap_day(y);
    let m: int = if doy < 31 {
        1
    } else if doy < 59 + l {
        2
    } else if doy < 90 + l {
        3
    } else if doy < 120 + l {
        4
    } else if doy < 151 + l {
        5
    } else if doy < 181 + l {
        6
    } else if doy < 212 + l {
        7
    } else if doy < 243 + l {
        8
    } else if doy < 273 + l {
        9
    } else if doy < 304 + l {
        10
    } else if doy < 334 + l {
        11
    } else {
        12
    };
    let d = doy - days_before_month(y, m) + 1;
    assert(is_valid_date(y, m, d));
    assert(days_from_civil(y, m, d) == days);
    lemma_civil_from_days(days, y, m, d);
}

} // verus!
