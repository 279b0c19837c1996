//! The time stamp of a log line.

use crate::text::{padded_decimal_text, padded_int_text, push_padded_decimal, push_padded_int};
use vstd::prelude::*;

verus! {

/// Whether a year of the calendar has a 29th of February.
pub open spec fn is_leap_year(year: int) -> bool {
    year % 4 == 0 && (year % 100 != 0 || year % 400 == 0)
}

/// How many days a month has.
pub open spec fn days_in_month(year: int, month: int) -> int {
    if month == 2 {
        if is_leap_year(year) {
            29
        } else {
            28
        }
    } else if month == 4 || month == 6 || month == 9 || month == 11 {
        30
    } else {
        31
    }
}

/// How many days of the year lie before the first of a month.
pub open spec fn days_before_month(year: int, month: int) -> int
    decreases month,
{
    if month <= 1 {
        0
    } else {
        days_before_month(year, month - 1) + days_in_month(year, month - 1)
    }
}

/// How many leap years lie between year 1 and the year, the year not counted.
pub open spec fn leap_years_before(year: int) -> int {
    (year - 1) / 4 - (year - 1) / 100 + (year - 1) / 400
}

/// How many days lie between the first of January 1970 and the first of
/// January of the year; negative for a year before 1970.
pub open spec fn days_before_year(year: int) -> int {
    365 * (year - 1970) + leap_years_before(year) - leap_years_before(1970)
}

/// Whether there is such a day in the calendar.
pub open spec fn is_date(year: int, month: int, day: int) -> bool {
    1 <= month <= 12 && 1 <= day <= days_in_month(year, month)
}

/// How many days lie between the first of January 1970 and the date.
pub open spec fn days_from_civil(year: int, month: int, day: int) -> int {
    days_before_year(year) + days_before_month(year, month) + day - 1
}

/// A later year starts at least 365 days later for each year in between.
pub proof fn lemma_years_apart(earlier: int, later: int)
    requires
        earlier <= later,
    ensures
        days_before_year(later) - days_before_year(earlier) >= 365 * (later - earlier),
    decreases later - earlier,
{
    if earlier < later {
        lemma_years_apart(earlier, later - 1);
    }
}

/// The days of a year lie between its first day and the first day of the
/// next year.
pub proof fn lemma_days_within_year(year: int, month: int, day: int)
    requires
        is_date(year, month, day),
    ensures
        days_before_year(year) <= days_from_civil(year, month, day) < days_before_year(year + 1),
{
    reveal_with_fuel(days_before_month, 13);
}

/// No day has two dates: dates with the same number of days since 1970 are
/// the same date. So the number of a day tells its date.
pub proof fn law_date_is_unique(first: (int, int, int), second: (int, int, int))
    requires
        is_date(first.0, first.1, first.2),
        is_date(second.0, second.1, second.2),
        days_from_civil(first.0, first.1, first.2) == days_from_civil(
            second.0,
            second.1,
            second.2,
        ),
    ensures
        first == second,
{
    lemma_days_within_year(first.0, first.1, first.2);
    lemma_days_within_year(second.0, second.1, second.2);
    if first.0 < second.0 {
        lemma_years_apart(first.0 + 1, second.0);
    } else if second.0 < first.0 {
        lemma_years_apart(second.0 + 1, first.0);
    } else {
        reveal_with_fuel(days_before_month, 13);
    }
}

/// The date of the day that lies `days` days after the first of January 1970.
pub open spec fn date_of(days: int) -> (int, int, int) {
    choose|date: (int, int, int)|
        is_date(date.0, date.1, date.2) && days_from_civil(date.0, date.1, date.2) == days
}

/// The number of the year within its span of 400 years, and of the day
/// within that year, where the years start with March. `day` is the number of
/// the day within the span.
proof fn lemma_year_of_era(day: int)
    requires
        0 <= day <= 146096,
    ensures
        ({
            let year = (day - day / 1460 + day / 36524 - day / 146096) / 365;
            let rest = day - (365 * year + year / 4 - year / 100);
            &&& 0 <= year <= 399
            &&& 0 <= rest <= 365
            &&& rest == 365 ==> (year + 1) % 4 == 0 && ((year + 1) % 100 != 0 || year == 399)
        }),
{
}

/// The number of the month, counted from March, and of the day within it.
/// `rest` is the number of the day within a year that starts with March.
proof fn lemma_month_of_year(rest: int)
    requires
        0 <= rest <= 365,
    ensures
        ({
            let month = (5 * rest + 2) / 153;
            let day = rest - (153 * month + 2) / 5 + 1;
            &&& 0 <= month <= 11
            &&& 1 <= day <= 31
            &&& (month == 1 || month == 3 || month == 6 || month == 8) ==> day <= 30
            &&& month == 11 ==> day <= 29 && (day == 29 ==> rest == 365)
        }),
{
}

/// The days up to a date, from the number of its year, month and day where
/// the years start with March.
proof fn lemma_days_from_march(shifted: int, month: int, day: int)
    requires
        0 <= month <= 11,
    ensures
        ({
            let m = if month < 10 {
                month + 3
            } else {
                month - 9
            };
            let y = if m <= 2 {
                shifted + 1
            } else {
                shifted
            };
            days_from_civil(y, m, day) == 365 * shifted + shifted / 4 - shifted / 100 + shifted
                / 400 + (153 * month + 2) / 5 + day - 1 - 719468
        }),
{
    reveal_with_fuel(days_before_month, 13);
}

/// A span of 400 years has 146097 days, and a year is a leap year by its
/// number within the span.
proof fn lemma_era(era: int, year: int)
    requires
        0 <= year <= 399,
    ensures
        ({
            let shifted = year + era * 400;
            &&& 365 * shifted + shifted / 4 - shifted / 100 + shifted / 400 == 146097 * era + 365
                * year + year / 4 - year / 100
            &&& is_leap_year(shifted + 1) <==> (year + 1) % 4 == 0 && ((year + 1) % 100 != 0
                || year == 399)
        }),
{
}

/// The date that lies `days` days after the first of January 1970, as year,
/// month and day of the Gregorian calendar, which is carried on to the years
/// before it was in use.
pub fn days_to_ymd(days: i64) -> (date: (i64, i64, i64))
    requires
        days <= i64::MAX - 719468,
    ensures
        is_date(date.0 as int, date.1 as int, date.2 as int),
        days_from_civil(date.0 as int, date.1 as int, date.2 as int) == days,
        (date.0 as int, date.1 as int, date.2 as int) == date_of(days as int),
{
    let z: i64 = days + 719468;
    let era: i64 = if z >= 0 {
        z / 146097
    } else {
        (z - 146096) / 146097
    };
    let doe: i64 = z - era * 146097;
    proof {
        lemma_year_of_era(doe as int);
    }
    let yoe: i64 = (doe - doe / 1460 + doe / 36524 - doe / 146096) / 365;
    let shifted: i64 = yoe + era * 400;
    let doy: i64 = doe - (365 * yoe + yoe / 4 - yoe / 100);
    proof {
        lemma_month_of_year(doy as int);
    }
    let mp: i64 = (5 * doy + 2) / 153;
    let d: i64 = doy - (153 * mp + 2) / 5 + 1;
    let m: i64 = if mp < 10 {
        mp + 3
    } else {
        mp - 9
    };
    let y: i64 = if m <= 2 {
        shifted + 1
    } else {
        shifted
    };
    proof {
        lemma_days_from_march(shifted as int, mp as int, d as int);
        lemma_era(era as int, yoe as int);
        let found = (y as int, m as int, d as int);
        assert(is_date(found.0, found.1, found.2) && days_from_civil(found.0, found.1, found.2)
            == days);
        law_date_is_unique(found, date_of(days as int));
    }
    (y, m, d)
}

/// The quotient that rounds towards zero.
pub open spec fn truncated_quotient(a: int, b: int) -> int {
    if a >= 0 {
        a / b
    } else {
        -((-a) / b)
    }
}

/// A time stamp: the date and the time of day between square brackets.
pub open spec fn stamp_text(date: (int, int, int), second_of_day: int) -> Seq<char> {
    seq!['['] + padded_int_text(date.0, 4) + seq!['-'] + padded_decimal_text(date.1 as nat, 2)
        + seq!['-'] + padded_decimal_text(date.2 as nat, 2) + seq![' '] + padded_decimal_text(
        (second_of_day / 3600) as nat,
        2,
    ) + seq![':'] + padded_decimal_text((second_of_day % 3600 / 60) as nat, 2) + seq![':']
        + padded_decimal_text((second_of_day % 60) as nat, 2) + seq![']']
}

/// The time stamp `[YYYY-MM-DD HH:MM:SS]` of a moment in local time.
/// `total_secs` are the seconds since the start of 1970 in universal time, and
/// `offset_secs` is what local time is ahead of it. The day is the quotient of
/// the local seconds by the seconds of a day, rounded towards zero; the time
/// of day is the remainder, which is never negative.
pub fn timestamp(total_secs: u64, offset_secs: i64) -> (line: String)
    ensures
        line@ == stamp_text(
            date_of(truncated_quotient(total_secs + offset_secs, 86400)),
            (total_secs + offset_secs) % 86400,
        ),
{
    let local: i128 = total_secs as i128 + offset_secs as i128;
    let days: i64 = (local / 86400) as i64;
    let second_of_day: i64 = (((local % 86400) + 86400) % 86400) as i64;
    assert(second_of_day == (total_secs + offset_secs) % 86400);
    let (year, month, day) = days_to_ymd(days);
    let hours: i64 = second_of_day / 3600;
    let minutes: i64 = (second_of_day % 3600) / 60;
    let seconds: i64 = second_of_day % 60;
    let mut line = String::new();
    line.push('[');
    push_padded_int(&mut line, year, 4);
    line.push('-');
    push_padded_decimal(&mut line, month as u64, 2);
    line.push('-');
    push_padded_decimal(&mut line, day as u64, 2);
    line.push(' ');
    push_padded_decimal(&mut line, hours as u64, 2);
    line.push(':');
    push_padded_decimal(&mut line, minutes as u64, 2);
    line.push(':');
    push_padded_decimal(&mut line, seconds as u64, 2);
    line.push(']');
    line
}

} // verus!
