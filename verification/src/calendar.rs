//! Proleptic Gregorian calendar arithmetic on civil day indices.
//!
//! A civil day index counts days from 1970-01-01 (index 0). The arithmetic
//! counts years from 1 March, so that the leap day, when there is one, is the
//! last day of a counting year.
use vstd::prelude::*;

verus! {

/// Whether `year` has a 29 February.
pub open spec fn is_leap_year(year: int) -> bool {
    year % 4 == 0 && (year % 100 != 0 || year % 400 == 0)
}

/// Number of days in `month` (1 = January) of `year`.
pub open spec fn days_in_month(year: int, month: int) -> int {
    if month == 2 {
        if is_leap_year(year) { 29 } else { 28 }
    } else if month == 4 || month == 6 || month == 9 || month == 11 {
        30
    } else {
        31
    }
}

/// A real calendar date.
pub open spec fn is_valid_date(year: int, month: int, day: int) -> bool {
    1 <= month <= 12 && 1 <= day <= days_in_month(year, month)
}

/// The year counted from 1 March: January and February belong to the year before.
pub open spec fn march_year(year: int, month: int) -> int {
    if month <= 2 { year - 1 } else { year }
}

/// Months counted from March: March is 0, February is 11.
pub open spec fn march_month(month: int) -> int {
    if month > 2 { month - 3 } else { month + 9 }
}

/// Days from 1 March to the first day of the `mp`-th month counted from March.
pub open spec fn days_before_march_month(mp: int) -> int {
    (153 * mp + 2) / 5
}

/// Days from 1 March of year 0 to 1 March of the counting year `y`: 365 a year,
/// plus one for every fourth year, less the centuries, plus every fourth century.
pub open spec fn days_before_march_year(y: int) -> int {
    365 * y + y / 4 - y / 100 + y / 400
}

/// 1970-01-01 is day 719468 counted from 0000-03-01.
pub open spec fn unix_epoch_offset() -> int {
    719468
}

/// The civil day index of a date.
pub open spec fn days_from_civil_spec(year: int, month: int, day: int) -> int {
    days_before_march_year(march_year(year, month)) + days_before_march_month(march_month(month))
        + day - 1 - unix_epoch_offset()
}

/// The computation in `days_from_civil` keeps every intermediate value inside
/// its machine type (`i32` for years and the result, `u32` for the day count
/// within a 400-year era).
pub open spec fn civil_arithmetic_fits(year: int, month: int, day: int) -> bool {
    let yy = march_year(year, month);
    let era = yy / 400;
    let yoe = yy - era * 400;
    let mp = march_month(month);
    let doy = days_before_march_month(mp) + day - 1;
    let doe = yoe * 365 + yoe / 4 - yoe / 100 + doy;
    &&& i32::MIN + 399 <= yy
    &&& 153 * mp + 2 <= u32::MAX
    &&& 0 <= doy
    &&& days_before_march_month(mp) + day <= u32::MAX
    &&& doe <= i32::MAX
    &&& i32::MIN <= era * 146097 <= i32::MAX
    &&& i32::MIN <= era * 146097 + doe <= i32::MAX
    &&& i32::MIN <= days_from_civil_spec(year, month, day) <= i32::MAX
}

/// The length of the `mp`-th month counted from March, as the March-based
/// cumulative table gives it (February reads 30: the table ends a year later).
proof fn lemma_month_table(mp: int)
    requires
        0 <= mp <= 11,
    ensures
        days_before_march_month(mp + 1) - days_before_march_month(mp) == (if mp == 11 {
            30
        } else {
            days_in_month(0, if mp < 10 { mp + 3 } else { mp - 9 })
        }),
        days_before_march_month(0) == 0,
        days_before_march_month(11) == 337,
        days_before_march_month(10) == 306,
{
}

/// Inside one counting year, the day of the year picks the month and the day
/// of the month back out.
proof fn lemma_day_of_year_split(doy: int)
    requires
        0 <= doy <= 365,
    ensures
        ({
            let mp = (5 * doy + 2) / 153;
            &&& 0 <= mp <= 11
            &&& days_before_march_month(mp) <= doy < days_before_march_month(mp + 1)
        }),
{
    let mp = (5 * doy + 2) / 153;
    assert(153 * mp <= 5 * doy + 2 < 153 * mp + 153);
    assert(days_before_march_month(mp) <= doy);
    assert(doy < days_before_march_month(mp + 1));
}

/// Splitting a day of a 400-year era into centuries, four-year groups, years
/// and the day within the year. Both halves of the calendar arithmetic rest on it.
proof fn lemma_era_parts(c: int, q: int, s: int, j: int)
    requires
        0 <= c <= 3,
        0 <= q <= 24,
        0 <= s <= 3,
        0 <= j,
        j <= 364 || (j == 365 && s == 3 && (q != 24 || c == 3)),
    ensures
        ({
            let n = 36524 * c + 1461 * q + 365 * s + j;
            let y = 100 * c + 4 * q + s;
            &&& (n - n / 1460 + n / 36524 - n / 146096) / 365 == y
            &&& y / 4 == 25 * c + q
            &&& y / 100 == c
            &&& y / 400 == 0
            &&& 365 * y + y / 4 - y / 100 + j == n
            &&& 0 <= n <= 146096
        }),
{
    let n = 36524 * c + 1461 * q + 365 * s + j;
    let y = 100 * c + 4 * q + s;
    let a: int = if s == 3 && j >= 365 - 24 * c - q { 1 } else { 0 };
    let b: int = if q == 24 && s == 3 && j == 365 { 1 } else { 0 };
    let e: int = if n == 146096 { 1 } else { 0 };
    assert(n == 1460 * (25 * c + q) + (24 * c + q + 365 * s + j));
    assert(n / 1460 == 25 * c + q + a);
    assert(n == 36524 * c + (1461 * q + 365 * s + j));
    assert(n / 36524 == c + b);
    assert(n / 146096 == e);
    assert(n - n / 1460 + n / 36524 - n / 146096 == 365 * y + (j - a + b - e));
    assert(0 <= j - a + b - e <= 364);
    assert(y / 4 == 25 * c + q);
    assert(y / 100 == c);
}

/// Every day of an era has a decomposition that `lemma_era_parts` accepts.
proof fn lemma_era_split(doe: int) -> (r: (int, int, int, int))
    requires
        0 <= doe <= 146096,
    ensures
        0 <= r.0 <= 3,
        0 <= r.1 <= 24,
        0 <= r.2 <= 3,
        0 <= r.3,
        r.3 <= 364 || (r.3 == 365 && r.2 == 3 && (r.1 != 24 || r.0 == 3)),
        doe == 36524 * r.0 + 1461 * r.1 + 365 * r.2 + r.3,
{
    let c = if doe / 36524 < 3 { doe / 36524 } else { 3 };
    let rest = doe - 36524 * c;
    let q = if rest / 1461 < 24 { rest / 1461 } else { 24 };
    let rest2 = rest - 1461 * q;
    let s = if rest2 / 365 < 3 { rest2 / 365 } else { 3 };
    let j = rest2 - 365 * s;
    assert(0 <= rest <= 36524);
    assert(rest == 36524 ==> c == 3);
    assert(0 <= rest2 <= 1460);
    assert(q == 24 && c < 3 ==> rest2 <= 1459);
    (c, q, s, j)
}

/// Whether the February that ends counting year `400 * era + y` is a leap one.
proof fn lemma_leap_of_parts(era: int, c: int, q: int, s: int)
    requires
        0 <= c <= 3,
        0 <= q <= 24,
        0 <= s <= 3,
    ensures
        is_leap_year(400 * era + 100 * c + 4 * q + s + 1) <==> (s == 3 && (q != 24 || c == 3)),
{
    let x = 400 * era + 100 * c + 4 * q + s + 1;
    vstd::arithmetic::div_mod::lemma_mod_multiples_vanish(100 * era + 25 * c + q, s + 1, 4);
    vstd::arithmetic::div_mod::lemma_mod_multiples_vanish(4 * era + c, 4 * q + s + 1, 100);
    vstd::arithmetic::div_mod::lemma_mod_multiples_vanish(era, 100 * c + 4 * q + s + 1, 400);
    assert(x % 4 == (s + 1) % 4);
    assert(x % 100 == (4 * q + s + 1) % 100);
    assert(x % 400 == (100 * c + 4 * q + s + 1) % 400);
}

/// The shape of a valid date's day index: era, position in the era, day in
/// the counting year.
proof fn lemma_valid_date_parts(year: int, month: int, day: int)
    requires
        is_valid_date(year, month, day),
    ensures
        ({
            let yy = march_year(year, month);
            let era = yy / 400;
            let yoe = yy - era * 400;
            let doy = days_before_march_month(march_month(month)) + day - 1;
            &&& 0 <= yoe <= 399
            &&& 0 <= doy <= 365
            &&& (doy == 365 ==> is_leap_year(yy + 1))
            &&& doy <= 364 || (month == 2 && day == 29)
            &&& days_from_civil_spec(year, month, day) + unix_epoch_offset() == 146097 * era + 365
                * yoe + yoe / 4 - yoe / 100 + doy
            &&& (5 * doy + 2) / 153 == march_month(month)
            &&& doy - days_before_march_month(march_month(month)) + 1 == day
        }),
{
    let yy = march_year(year, month);
    let era = yy / 400;
    let yoe = yy - era * 400;
    let mp = march_month(month);
    let doy = days_before_march_month(mp) + day - 1;
    lemma_month_table(mp);
    assert(0 <= doy <= 365);
    lemma_day_of_year_split(doy);
    assert((5 * doy + 2) / 153 == mp);
    assert(yy / 4 == 100 * era + yoe / 4);
    assert(yy / 100 == 4 * era + yoe / 100);
    assert(yy / 400 == era + yoe / 400);
    assert(yoe / 400 == 0);
}

/// The day index of a valid date, split into its era and the day within the era.
proof fn lemma_valid_date_era(year: int, month: int, day: int) -> (r: (int, int))
    requires
        is_valid_date(year, month, day),
    ensures
        0 <= r.1 <= 146096,
        days_from_civil_spec(year, month, day) + unix_epoch_offset() == 146097 * r.0 + r.1,
        ({
            let yoe = (r.1 - r.1 / 1460 + r.1 / 36524 - r.1 / 146096) / 365;
            let doy = r.1 - (365 * yoe + yoe / 4 - yoe / 100);
            &&& march_year(year, month) == 400 * r.0 + yoe
            &&& doy == days_before_march_month(march_month(month)) + day - 1
        }),
{
    lemma_valid_date_parts(year, month, day);
    let yy = march_year(year, month);
    let era = yy / 400;
    let yoe = yy - era * 400;
    let doy = days_before_march_month(march_month(month)) + day - 1;
    let c = yoe / 100;
    let q = (yoe % 100) / 4;
    let s = yoe % 4;
    assert(yoe == 100 * c + 4 * q + s);
    if doy == 365 {
        lemma_leap_of_parts(era, c, q, s);
        assert(yy + 1 == 400 * era + 100 * c + 4 * q + s + 1);
    }
    lemma_era_parts(c, q, s, doy);
    (era, 36524 * c + 1461 * q + 365 * s + doy)
}

/// Distinct dates have distinct day indices: the day index of a date names it.
pub proof fn lemma_days_from_civil_injective(
    year1: int,
    month1: int,
    day1: int,
    year2: int,
    month2: int,
    day2: int,
)
    requires
        is_valid_date(year1, month1, day1),
        is_valid_date(year2, month2, day2),
        days_from_civil_spec(year1, month1, day1) == days_from_civil_spec(year2, month2, day2),
    ensures
        year1 == year2,
        month1 == month2,
        day1 == day2,
{
    let r1 = lemma_valid_date_era(year1, month1, day1);
    let r2 = lemma_valid_date_era(year2, month2, day2);
    assert(r1.0 == r2.0 && r1.1 == r2.1) by {
        if r1.0 < r2.0 {
            assert(146097 * r1.0 + 146097 <= 146097 * r2.0);
        } else if r1.0 > r2.0 {
            assert(146097 * r2.0 + 146097 <= 146097 * r1.0);
        }
    }
    lemma_valid_date_parts(year1, month1, day1);
    lemma_valid_date_parts(year2, month2, day2);
    assert(march_month(month1) == march_month(month2));
}

/// The day after a date has the next day index.
pub proof fn lemma_next_day(year: int, month: int, day: int)
    requires
        is_valid_date(year, month, day),
    ensures
        day < days_in_month(year, month) ==> days_from_civil_spec(year, month, day + 1)
            == days_from_civil_spec(year, month, day) + 1,
        day == days_in_month(year, month) && month < 12 ==> days_from_civil_spec(year, month + 1, 1)
            == days_from_civil_spec(year, month, day) + 1,
        day == days_in_month(year, month) && month == 12 ==> days_from_civil_spec(year + 1, 1, 1)
            == days_from_civil_spec(year, month, day) + 1,
{
    if day == days_in_month(year, month) {
        if month == 2 {
            lemma_year_step(year);
        } else if month < 12 {
            lemma_month_table(march_month(month));
            assert(march_year(year, month) == march_year(year, month + 1));
            assert(march_month(month + 1) == march_month(month) + 1);
        } else {
            assert(march_year(year + 1, 1) == march_year(year, 12));
        }
    }
}

/// From the last day of February to 1 March: a counting year is 365 days,
/// plus the leap day.
#[verifier::spinoff_prover]
proof fn lemma_year_step(y: int)
    ensures
        days_before_march_year(y) == days_before_march_year(y - 1) + 365 + (if is_leap_year(y) {
            1int
        } else {
            0int
        }),
        days_before_march_month(11) == 337,
{
    assert((y - 1) / 4 + (if y % 4 == 0 { 1int } else { 0int }) == y / 4);
    assert((y - 1) / 100 + (if y % 100 == 0 { 1int } else { 0int }) == y / 100);
    assert((y - 1) / 400 + (if y % 400 == 0 { 1int } else { 0int }) == y / 400);
    assert(y % 100 == 0 ==> y % 4 == 0);
    assert(y % 400 == 0 ==> y % 100 == 0);
}

/// Days from 1970-01-01 to a date, counting backwards for earlier dates.
pub fn days_from_civil(year: i32, month: u32, day: u32) -> (days: i32)
    requires
        civil_arithmetic_fits(year as int, month as int, day as int),
    ensures
        days == days_from_civil_spec(year as int, month as int, day as int),
{
    let y: i64 = year as i64;
    let m: i64 = month as i64;
    let d: i64 = day as i64;
    let yy: i64 = if month <= 2 { y - 1 } else { y };
    let era: i64 = if yy >= 0 { yy / 400 } else { (yy - 399) / 400 };
    let yoe: i64 = yy - era * 400;
    let mp: i64 = if month > 2 { m - 3 } else { m + 9 };
    let doy: i64 = (153 * mp + 2) / 5 + d - 1;
    let doe: i64 = yoe * 365 + yoe / 4 - yoe / 100 + doy;
    proof {
        assert(era == yy / 400);
        assert(0 <= yoe < 400);
        assert(yy / 4 == 100 * era + yoe / 4);
        assert(yy / 100 == 4 * era + yoe / 100);
        assert(yy / 400 == era);
        assert(i32::MIN <= era * 146097 <= i32::MAX);
    }
    let days: i64 = era * 146097 + doe - 719468;
    days as i32
}

/// The date of a civil day index, as `(year, month, day)`.
pub fn civil_from_days(days: i32) -> (date: (i32, u32, u32))
    requires
        days <= i32::MAX - unix_epoch_offset(),
    ensures
        is_valid_date(date.0 as int, date.1 as int, date.2 as int),
        days_from_civil_spec(date.0 as int, date.1 as int, date.2 as int) == days,
        (date.0 as int, date.1 as int, date.2 as int) == civil_of(days as int),
{
    let z: i64 = days as i64 + 719468;
    let era: i64 = if z >= 0 { z / 146097 } else { (z - 146096) / 146097 };
    let doe: i64 = z - era * 146097;
    let ghost parts = lemma_era_split(doe as int);
    proof {
        lemma_era_parts(parts.0, parts.1, parts.2, parts.3);
    }
    let yoe: i64 = (doe - doe / 1460 + doe / 36524 - doe / 146096) / 365;
    let y: i64 = yoe + era * 400;
    let doy: i64 = doe - (365 * yoe + yoe / 4 - yoe / 100);
    proof {
        assert(doy == parts.3);
        lemma_day_of_year_split(doy as int);
        lemma_month_table((5 * doy + 2) / 153);
        lemma_leap_of_parts(era as int, parts.0, parts.1, parts.2);
    }
    let mp: i64 = (5 * doy + 2) / 153;
    let d: i64 = doy - (153 * mp + 2) / 5 + 1;
    let m: i64 = if mp < 10 { mp + 3 } else { mp - 9 };
    let year: i64 = if m <= 2 { y + 1 } else { y };
    proof {
        assert(march_year(year as int, m as int) == y);
        assert(march_month(m as int) == mp);
        assert(y / 400 == era);
        assert(y / 4 == 100 * era + yoe / 4);
        assert(y / 100 == 4 * era + yoe / 100);
        assert(days_before_march_year(y as int) == 146097 * era + 365 * yoe + yoe / 4 - yoe / 100);
        assert(mp == 11 ==> (doy == 365 ==> is_leap_year(year as int)));
    }
    proof {
        lemma_civil_of(days as int, year as int, m as int, d as int);
    }
    (year as i32, m as u32, d as u32)
}

/// The date whose day index is `day`.
pub open spec fn civil_of(day: int) -> (int, int, int) {
    choose|date: (int, int, int)|
        is_valid_date(date.0, date.1, date.2) && days_from_civil_spec(date.0, date.1, date.2) == day
}

/// A valid date is the date of its own day index.
pub proof fn lemma_civil_of(day: int, year: int, month: int, dom: int)
    requires
        is_valid_date(year, month, dom),
        days_from_civil_spec(year, month, dom) == day,
    ensures
        civil_of(day) == (year, month, dom),
{
    let w = (year, month, dom);
    assert(is_valid_date(w.0, w.1, w.2) && days_from_civil_spec(w.0, w.1, w.2) == day);
    let c = civil_of(day);
    lemma_days_from_civil_injective(c.0, c.1, c.2, year, month, dom);
}

/// Day of the week of a civil day index, Monday = 0 (1970-01-01 was a Thursday).
pub fn weekday(day: i32) -> (w: i32)
    ensures
        w == (day + 3) % 7,
        0 <= w < 7,
{
    let shifted: i64 = day as i64 + 3;
    let r: i64 = shifted % 7;
    let w: i64 = if r < 0 { r + 7 } else { r };
    w as i32
}

} // verus!
