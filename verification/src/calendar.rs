//! The calendar: which day of which month of which year a count of days
//! since 1 January 1970 falls on, in the proleptic Gregorian calendar.

use vstd::prelude::*;

verus! {

pub open spec fn is_leap(year: int) -> bool {
    year % 4 == 0 && (year % 100 != 0 || year % 400 == 0)
}

pub open spec fn days_in_month(year: int, month: int) -> int {
    if month == 2 {
        if is_leap(year) { 29 } else { 28 }
    } else if month == 4 || month == 6 || month == 9 || month == 11 {
        30
    } else {
        31
    }
}

/// Days from 1 January of year 0 to 1 January of `year`.
pub open spec fn days_before_year(year: int) -> int {
    365 * year + (year + 3) / 4 - (year + 99) / 100 + (year + 399) / 400
}

/// Days from 1 January to the first of `month` in `year`.
pub open spec fn days_before_month(year: int, month: int) -> int {
    let leap_day = if month > 2 && is_leap(year) { 1int } else { 0 };
    leap_day + if month == 1 { 0int }
    else if month == 2 { 31 }
    else if month == 3 { 59 }
    else if month == 4 { 90 }
    else if month == 5 { 120 }
    else if month == 6 { 151 }
    else if month == 7 { 181 }
    else if month == 8 { 212 }
    else if month == 9 { 243 }
    else if month == 10 { 273 }
    else if month == 11 { 304 }
    else { 334 }
}

/// Days from 1 January 1970 to the given date.
pub open spec fn days_since_1970(year: int, month: int, day: int) -> int {
    days_before_year(year) - days_before_year(1970) + days_before_month(year, month) + day - 1
}

pub open spec fn is_date(year: int, month: int, day: int) -> bool {
    1 <= month <= 12 && 1 <= day <= days_in_month(year, month)
}

/// Days in the years of an era before `y`, years counted from March.
pub open spec fn before_year_of_era(y: int) -> int {
    365 * y + y / 4 - y / 100 + y / 400
}

pub open spec fn year_of_era(doe: int) -> int {
    (doe - doe / 1460 + doe / 36524 - doe / 146096) / 365
}

#[verifier::rlimit(100)]
pub proof fn lemma_year_of_era(doe: int)
    requires 0 <= doe <= 146096,
    ensures
        0 <= year_of_era(doe) <= 399,
        before_year_of_era(year_of_era(doe)) <= doe < before_year_of_era(year_of_era(doe) + 1),
{
}

pub proof fn lemma_year_length(yoe: int, era: int)
    requires 0 <= yoe <= 399,
    ensures
        before_year_of_era(yoe + 1) - before_year_of_era(yoe)
            == 365 + if is_leap(400 * era + yoe + 1) { 1int } else { 0 },
{
    assert((400 * era + yoe + 1) % 4 == (yoe + 1) % 4) by (nonlinear_arith);
    assert((400 * era + yoe + 1) % 100 == (yoe + 1) % 100) by (nonlinear_arith);
    assert((400 * era + yoe + 1) % 400 == (yoe + 1) % 400) by (nonlinear_arith);
}

/// Days from 1 March of year 0 to 1 March of `year`.
pub open spec fn march_first(year: int) -> int {
    365 * year + year / 4 - year / 100 + year / 400
}

pub proof fn lemma_march_first_of_era(yoe: int, era: int)
    requires 0 <= yoe <= 399,
    ensures march_first(400 * era + yoe) == 146097 * era + before_year_of_era(yoe),
{
    assert((400 * era + yoe) / 4 == 100 * era + yoe / 4) by (nonlinear_arith)
        requires 0 <= yoe <= 399;
    assert((400 * era + yoe) / 100 == 4 * era + yoe / 100) by (nonlinear_arith)
        requires 0 <= yoe <= 399;
    assert((400 * era + yoe) / 400 == era + yoe / 400) by (nonlinear_arith)
        requires 0 <= yoe <= 399;
}

pub proof fn lemma_march_first_from_january(year: int)
    ensures march_first(year) == days_before_year(year) + 59 + (if is_leap(year) { 1int } else { 0 }) - 60,
{
}

} // verus!
verus! {

pub proof fn lemma_next_year(year: int)
    ensures days_before_year(year + 1) - days_before_year(year) == 365 + if is_leap(year) { 1int } else { 0 },
{
    assert((year + 4) / 4 == (year + 3) / 4 + if year % 4 == 0 { 1int } else { 0 });
    assert((year + 100) / 100 == (year + 99) / 100 + if year % 100 == 0 { 1int } else { 0 });
    assert((year + 400) / 400 == (year + 399) / 400 + if year % 400 == 0 { 1int } else { 0 });
    assert(year % 400 == 0 ==> year % 100 == 0 && year % 4 == 0);
    assert(year % 100 == 0 ==> year % 4 == 0);
}

pub proof fn lemma_civil(days: int, era: int, doe: int, yoe: int, doy: int, mp: int, d: int, m: int, y: int)
    requires
        days + 719468 == 146097 * era + doe,
        0 <= doe <= 146096,
        yoe == year_of_era(doe),
        doy == doe - (365 * yoe + yoe / 4 - yoe / 100),
        mp == (5 * doy + 2) / 153,
        d == doy - (153 * mp + 2) / 5 + 1,
        m == if mp < 10 { mp + 3 } else { mp - 9 },
        y == yoe + era * 400 + if m <= 2 { 1int } else { 0 },
    ensures
        is_date(y, m, d),
        days_since_1970(y, m, d) == days,
{
    lemma_year_of_era(doe);
    lemma_year_length(yoe, era);
    let big_y = 400 * era + yoe;
    lemma_march_first_of_era(yoe, era);
    lemma_march_first_from_january(big_y);
    lemma_next_year(big_y);
    assert(0 <= doy <= 364 + if is_leap(big_y + 1) { 1int } else { 0 });
    assert(days == march_first(big_y) + doy - 719468);
    assert(days_before_year(1970) == 719528);
}

} // verus!
verus! {

proof fn lemma_years_in_order(a: int, b: int)
    requires
        a < b,
    ensures
        days_before_year(a + 1) <= days_before_year(b),
{
    assert((b + 3) / 4 >= (a + 4) / 4);
    assert((b + 399) / 400 >= (a + 400) / 400);
    assert((b + 99) / 100 - (a + 100) / 100 <= (b - a - 1) / 100 + 1);
    lemma_next_year(a);
}

proof fn lemma_day_in_its_year(year: int, month: int, day: int)
    requires
        is_date(year, month, day),
    ensures
        days_before_year(year) <= days_before_year(year) + days_before_month(year, month) + day - 1
            < days_before_year(year + 1),
{
    lemma_next_year(year);
}

/// One count of days since 1970 is one date: no two dates share a day.
pub proof fn lemma_one_date_per_day(y1: int, m1: int, d1: int, y2: int, m2: int, d2: int)
    requires
        is_date(y1, m1, d1),
        is_date(y2, m2, d2),
        days_since_1970(y1, m1, d1) == days_since_1970(y2, m2, d2),
    ensures
        y1 == y2 && m1 == m2 && d1 == d2,
{
    lemma_day_in_its_year(y1, m1, d1);
    lemma_day_in_its_year(y2, m2, d2);
    if y1 < y2 {
        lemma_years_in_order(y1, y2);
    } else if y2 < y1 {
        lemma_years_in_order(y2, y1);
    }
    assert(y1 == y2);
}

} // verus!
verus! {

/// The date a count of days since 1 January 1970 falls on.
pub open spec fn date_of(days: int) -> (int, int, int) {
    choose|date: (int, int, int)|
        is_date(date.0, date.1, date.2) && days_since_1970(date.0, date.1, date.2) == days
}

/// Every count of days, before 1970 or after, falls on a date, and `date_of`
/// names it.
pub proof fn lemma_date_of(days: int)
    ensures
        is_date(date_of(days).0, date_of(days).1, date_of(days).2),
        days_since_1970(date_of(days).0, date_of(days).1, date_of(days).2) == days,
{
    let from_march = days + 719468;
    let era = from_march / 146097;
    let doe = from_march % 146097;
    let yoe = year_of_era(doe);
    let doy = doe - (365 * yoe + yoe / 4 - yoe / 100);
    let mp = (5 * doy + 2) / 153;
    let d = doy - (153 * mp + 2) / 5 + 1;
    let m = if mp < 10 { mp + 3 } else { mp - 9 };
    let y = yoe + era * 400 + if m <= 2 { 1int } else { 0 };
    lemma_civil(days, era, doe, yoe, doy, mp, d, m, y);
    let witness = (y, m, d);
    assert(is_date(witness.0, witness.1, witness.2) && days_since_1970(witness.0, witness.1, witness.2) == days);
}

/// Whatever date a day is shown to fall on is the one `date_of` names.
pub proof fn lemma_date_of_is_the_date(days: int, year: int, month: int, day: int)
    requires
        is_date(year, month, day),
        days_since_1970(year, month, day) == days,
    ensures
        date_of(days) == (year, month, day),
{
    lemma_date_of(days);
    let found = date_of(days);
    lemma_one_date_per_day(found.0, found.1, found.2, year, month, day);
}

} // verus!
