//! The civil (proleptic Gregorian) calendar over days since 1970-01-01.

use vstd::prelude::*;

verus! {

/// Leap years of the Gregorian calendar.
pub open spec fn is_leap(y: int) -> bool {
    y % 4 == 0 && (y % 100 != 0 || y % 400 == 0)
}

/// Days of a month.
pub open spec fn days_in_month(y: int, m: int) -> int {
    if m == 2 {
        if is_leap(y) {
            29
        } else {
            28
        }
    } else if m == 4 || m == 6 || m == 9 || m == 11 {
        30
    } else {
        31
    }
}

/// Dates that exist.
pub open spec fn valid_date(y: int, m: int, d: int) -> bool {
    1 <= m <= 12 && 1 <= d <= days_in_month(y, m)
}

/// Days of year `y` before the first of month `m`.
pub open spec fn days_before_month(y: int, m: int) -> int
    decreases m,
{
    if m <= 1 {
        0
    } else {
        days_before_month(y, m - 1) + days_in_month(y, m - 1)
    }
}

/// Leap years among the years 1 to `y` (counted downwards for `y < 0`).
pub open spec fn leaps_through(y: int) -> int {
    y / 4 - y / 100 + y / 400
}

/// Days from 1970-01-01 to the given date.
pub open spec fn day_number(y: int, m: int, d: int) -> int {
    365 * (y - 1970) + leaps_through(y - 1) - leaps_through(1969) + days_before_month(y, m) + d
        - 1
}

proof fn lemma_month_table(y: int)
    ensures
        days_before_month(y, 1) == 0,
        days_before_month(y, 2) == 31,
        days_before_month(y, 3) == 59 + (if is_leap(y) { 1int } else { 0 }),
        days_before_month(y, 4) == 90 + (if is_leap(y) { 1int } else { 0 }),
        days_before_month(y, 5) == 120 + (if is_leap(y) { 1int } else { 0 }),
        days_before_month(y, 6) == 151 + (if is_leap(y) { 1int } else { 0 }),
        days_before_month(y, 7) == 181 + (if is_leap(y) { 1int } else { 0 }),
        days_before_month(y, 8) == 212 + (if is_leap(y) { 1int } else { 0 }),
        days_before_month(y, 9) == 243 + (if is_leap(y) { 1int } else { 0 }),
        days_before_month(y, 10) == 273 + (if is_leap(y) { 1int } else { 0 }),
        days_before_month(y, 11) == 304 + (if is_leap(y) { 1int } else { 0 }),
        days_before_month(y, 12) == 334 + (if is_leap(y) { 1int } else { 0 }),
{
    reveal_with_fuel(days_before_month, 13);
}

proof fn lemma_leap_step(y: int)
    ensures
        leaps_through(y) == leaps_through(y - 1) + (if is_leap(y) { 1int } else { 0 }),
{
}

/// The day number of a date whose year is counted from March: `y` is the year
/// the March-year began in, `doy` the days since its first of March.
proof fn lemma_march_year(y: int, mp: int, doy: int, m: int, d: int)
    requires
        0 <= mp <= 11,
        m == (if mp < 10 { mp + 3 } else { mp - 9 }),
        d == doy - (153 * mp + 2) / 5 + 1,
    ensures
        day_number(if m <= 2 { y + 1 } else { y }, m, d) == 365 * (y - 1970) + leaps_through(y)
            - leaps_through(1969) + 59 + doy,
{
    let cy = if m <= 2 { y + 1 } else { y };
    lemma_month_table(cy);
    lemma_leap_step(y);
    assert(mp == 0 || mp == 1 || mp == 2 || mp == 3 || mp == 4 || mp == 5 || mp == 6 || mp == 7
        || mp == 8 || mp == 9 || mp == 10 || mp == 11);
}

proof fn lemma_day_in_year(y: int, m: int, d: int)
    requires
        valid_date(y, m, d),
    ensures
        0 <= days_before_month(y, m) + d - 1 < 365 + (if is_leap(y) { 1int } else { 0 }),
{
    lemma_month_table(y);
    assert(m == 1 || m == 2 || m == 3 || m == 4 || m == 5 || m == 6 || m == 7 || m == 8 || m == 9
        || m == 10 || m == 11 || m == 12);
}

/// Day number of the first of January.
pub open spec fn new_year(y: int) -> int {
    365 * (y - 1970) + leaps_through(y - 1) - leaps_through(1969)
}

proof fn lemma_new_year_grows(a: int, b: int)
    requires
        a <= b,
    ensures
        new_year(a) <= new_year(b),
        a < b ==> new_year(a) + 365 + (if is_leap(a) { 1int } else { 0 }) <= new_year(b),
    decreases b - a,
{
    if a < b {
        lemma_leap_step(a);
        lemma_new_year_grows(a + 1, b);
    }
}

/// No two dates have the same day number: a day has one date.
pub proof fn date_is_unique(y1: int, m1: int, d1: int, y2: int, m2: int, d2: int)
    requires
        valid_date(y1, m1, d1),
        valid_date(y2, m2, d2),
        day_number(y1, m1, d1) == day_number(y2, m2, d2),
    ensures
        y1 == y2 && m1 == m2 && d1 == d2,
{
    lemma_day_in_year(y1, m1, d1);
    lemma_day_in_year(y2, m2, d2);
    if y1 < y2 {
        lemma_new_year_grows(y1, y2);
    } else if y2 < y1 {
        lemma_new_year_grows(y2, y1);
    }
    lemma_month_table(y1);
    assert(m1 == 1 || m1 == 2 || m1 == 3 || m1 == 4 || m1 == 5 || m1 == 6 || m1 == 7 || m1 == 8
        || m1 == 9 || m1 == 10 || m1 == 11 || m1 == 12);
    assert(m2 == 1 || m2 == 2 || m2 == 3 || m2 == 4 || m2 == 5 || m2 == 6 || m2 == 7 || m2 == 8
        || m2 == 9 || m2 == 10 || m2 == 11 || m2 == 12);
}

/// The division of an era of 146097 days into March-years.
proof fn lemma_year_of_era(doe: int, yoe: int, doy: int)
    requires
        0 <= doe < 146097,
        yoe == (doe - doe / 1460 + doe / 36524 - doe / 146096) / 365,
        doy == doe - (365 * yoe + yoe / 4 - yoe / 100),
    ensures
        0 <= yoe < 400,
        0 <= doy <= 365,
        doy == 365 ==> is_leap(yoe + 1),
{
}

/// `a / b` rounded down.
pub fn floor_div(a: i64, b: i64) -> (r: i64)
    requires
        b > 0,
    ensures
        r == a as int / b as int,
{
    if a >= 0 {
        a / b
    } else {
        let q: i64 = (-(a + 1)) / b;
        proof {
            let x = -(a + 1) as int;
            let m = b as int;
            assert(a as int / m == -1 - x / m) by (nonlinear_arith)
                requires
                    m > 0,
                    x >= 0,
                    a as int == -x - 1,
            ;
        }
        -1 - q
    }
}

/// Whether day `z` has the date `(y, m, d)`.
pub open spec fn is_date_of(z: int, y: int, m: int, d: int) -> bool {
    valid_date(y, m, d) && day_number(y, m, d) == z
}

/// Month and day of a day counted from the first of March.
proof fn lemma_month_of_march_year(y: int, doy: int, mp: int, m: int, d: int)
    requires
        0 <= doy <= 365,
        doy == 365 ==> is_leap(y + 1),
        mp == (5 * doy + 2) / 153,
        d == doy - (153 * mp + 2) / 5 + 1,
        m == (if mp < 10 { mp + 3 } else { mp - 9 }),
    ensures
        0 <= mp <= 11,
        valid_date(if m <= 2 { y + 1 } else { y }, m, d),
{
    assert(0 <= mp <= 11);
    assert(mp == 0 || mp == 1 || mp == 2 || mp == 3 || mp == 4 || mp == 5 || mp == 6 || mp == 7
        || mp == 8 || mp == 9 || mp == 10 || mp == 11);
}

/// Counting leap years across eras of 400 years.
proof fn lemma_era_leaps(era: int, yoe: int)
    requires
        0 <= yoe < 400,
    ensures
        leaps_through(yoe + era * 400) == yoe / 4 - yoe / 100 + era * 97,
        is_leap(yoe + era * 400 + 1) == is_leap(yoe + 1),
{
    let y = yoe + era * 400;
    assert(y / 4 == yoe / 4 + era * 100);
    assert(y / 100 == yoe / 100 + era * 4);
    assert(y / 400 == era);
    assert((y + 1) % 4 == (yoe + 1) % 4);
    assert((y + 1) % 100 == (yoe + 1) % 100);
    assert((y + 1) % 400 == (yoe + 1) % 400);
}

/// Year, month and day of the day `z` days after 1970-01-01.
pub fn civil_from_days(z: i64) -> (r: (i64, u32, u32))
    requires
        z <= i64::MAX - 719_468,
    ensures
        is_date_of(z as int, r.0 as int, r.1 as int, r.2 as int),
{
    let w: i64 = z + 719_468;
    let era: i64 = floor_div(w, 146_097);
    let doe: i64 = w - era * 146_097;
    let yoe: i64 = (doe - doe / 1460 + doe / 36_524 - doe / 146_096) / 365;
    proof {
        lemma_year_of_era(
            doe as int,
            yoe as int,
            doe - (365 * yoe as int + yoe as int / 4 - yoe as int / 100),
        );
        lemma_era_leaps(era as int, yoe as int);
    }
    let doy: i64 = doe - (365 * yoe + yoe / 4 - yoe / 100);
    let mp: i64 = (5 * doy + 2) / 153;
    let d: i64 = doy - (153 * mp + 2) / 5 + 1;
    let m: i64 = if mp < 10 {
        mp + 3
    } else {
        mp - 9
    };
    let y: i64 = yoe + era * 400;
    proof {
        lemma_month_of_march_year(y as int, doy as int, mp as int, m as int, d as int);
        lemma_march_year(y as int, mp as int, doy as int, m as int, d as int);
    }
    let cy: i64 = if m <= 2 {
        y + 1
    } else {
        y
    };
    (cy, m as u32, d as u32)
}

/// The day number by way of the year that begins in March.
pub proof fn lemma_day_of_march_year(y: int, m: int, d: int)
    requires
        1 <= m <= 12,
    ensures
        ({
            let my = if m <= 2 {
                y - 1
            } else {
                y
            };
            day_number(y, m, d) == 365 * my + leaps_through(my) + (153 * ((m + 9) % 12) + 2) / 5 + d
                - 1 - 719_468
        }),
{
    let my = if m <= 2 {
        y - 1
    } else {
        y
    };
    let mp = (m + 9) % 12;
    lemma_march_year(my, mp, (153 * mp + 2) / 5 + d - 1, m, d);
}

/// The year of a day is no further from 1970 than the day is.
pub proof fn lemma_year_near_day(z: int, y: int, m: int, d: int)
    requires
        is_date_of(z, y, m, d),
    ensures
        y <= 1970 || y - 1970 <= z,
        y >= 1970 || z <= y - 1970,
{
    lemma_day_in_year(y, m, d);
    if y > 1970 {
        lemma_new_year_grows(1970, y);
        lemma_new_year_far(1970, y);
    } else if y < 1970 {
        lemma_new_year_grows(y, y + 1);
        lemma_new_year_far(y + 1, 1970);
        lemma_leap_step(y);
    }
}

proof fn lemma_new_year_far(a: int, b: int)
    requires
        a <= b,
    ensures
        new_year(b) - new_year(a) >= 365 * (b - a),
    decreases b - a,
{
    if a < b {
        lemma_leap_step(b - 1);
        lemma_new_year_far(a, b - 1);
    }
}

} // verus!
