//! The calendar reading of a Unix timestamp, as the data inspector shows it.
use vstd::prelude::*;
use crate::numtext::{dec_digits, digit, digit_char, push_decimal};

verus! {

/// Gregorian leap years.
pub open spec fn is_leap_year(y: int) -> bool {
    (y % 4 == 0 && y % 100 != 0) || y % 400 == 0
}

/// Days in year `y`.
pub open spec fn days_in_year(y: int) -> int {
    if is_leap_year(y) {
        366
    } else {
        365
    }
}

/// Days from 1970-01-01 to the first day of year `y` (`y >= 1970`).
pub open spec fn days_before_year(y: int) -> int
    decreases y - 1970,
{
    if y <= 1970 {
        0
    } else {
        days_before_year(y - 1) + days_in_year(y - 1)
    }
}

/// Days in month `m` (1 to 12) of year `y`.
pub open spec fn days_in_month(y: int, m: int) -> int {
    if m == 2 {
        if is_leap_year(y) {
            29
        } else {
            28
        }
    } else if m == 4 || m == 6 || m == 9 || m == 11 {
        30
    } else {
        31
    }
}

/// Days of year `y` before the first day of month `m`.
pub open spec fn days_before_month(y: int, m: int) -> int
    decreases m,
{
    if m <= 1 {
        0
    } else {
        days_before_month(y, m - 1) + days_in_month(y, m - 1)
    }
}

/// Two decimal digits of `n` (below 100), zero padded.
pub open spec fn two_digits(n: int) -> Seq<char> {
    seq![digit_char((n / 10) as nat), digit_char((n % 10) as nat)]
}

/// `YYYY-MM-DD hh:mm:ss UTC`.
pub open spec fn timestamp_text(
    year: int,
    month: int,
    day: int,
    hour: int,
    minute: int,
    second: int,
) -> Seq<char> {
    dec_digits(year as nat) + seq!['-'] + two_digits(month) + seq!['-'] + two_digits(day) + seq![' ']
        + two_digits(hour) + seq![':'] + two_digits(minute) + seq![':'] + two_digits(second) + seq![
        ' ',
        'U',
        'T',
        'C',
    ]
}

/// The text shown for timestamp `ts`: its UTC calendar date and time for
/// timestamps from 1970 to the end of year 9999, else `Out of range`.
pub open spec fn is_unix_time_text(ts: int, s: Seq<char>) -> bool {
    if !(0 <= ts <= 253402300799) {
        s == "Out of range"@
    } else {
        let d = ts / 86400;
        let c = ts % 86400;
        exists|y: int, mo: int|
            {
                &&& 1970 <= y
                &&& days_before_year(y) <= d < days_before_year(y + 1)
                &&& 1 <= mo <= 12
                &&& days_before_month(y, mo) <= d - days_before_year(y) < days_before_month(
                    y,
                    mo + 1,
                )
                &&& s == timestamp_text(
                    y,
                    mo,
                    d - days_before_year(y) - days_before_month(y, mo) + 1,
                    c / 3600,
                    (c % 3600) / 60,
                    c % 60,
                )
            }
    }
}

/// The months of a year add up to the year.
proof fn lemma_months_make_year(y: int)
    ensures
        days_before_month(y, 13) == days_in_year(y),
{
    reveal_with_fuel(days_before_month, 13);
}

fn year_length(y: i64) -> (n: i64)
    ensures
        n == days_in_year(y as int),
{
    if (y % 4 == 0 && y % 100 != 0) || y % 400 == 0 {
        366
    } else {
        365
    }
}

fn month_length(y: i64, m: i64) -> (n: i64)
    ensures
        n == days_in_month(y as int, m as int),
{
    if m == 2 {
        if (y % 4 == 0 && y % 100 != 0) || y % 400 == 0 {
            29
        } else {
            28
        }
    } else if m == 4 || m == 6 || m == 9 || m == 11 {
        30
    } else {
        31
    }
}

fn push_two_digits(out: &mut Vec<char>, n: i64)
    requires
        0 <= n < 100,
    ensures
        final(out)@ == old(out)@ + two_digits(n as int),
{
    out.push(digit((n / 10) as u8));
    out.push(digit((n % 10) as u8));
    assert(out@ =~= old(out)@ + two_digits(n as int));
}

/// The calendar reading of a Unix timestamp, `YYYY-MM-DD hh:mm:ss UTC`, for
/// timestamps up to the end of year 9999; `Out of range` otherwise.
pub fn format_unix_time(timestamp: i64) -> (s: String)
    ensures
        is_unix_time_text(timestamp as int, s@),
{
    if timestamp < 0 || timestamp > 253402300799 {
        return "Out of range".to_owned();
    }
    let ghost d = timestamp / 86400;
    let day_clock = timestamp % 86400;
    let mut days = timestamp / 86400;
    let hour = day_clock / 3600;
    let minute = (day_clock % 3600) / 60;
    let second = day_clock % 60;
    let mut year: i64 = 1970;
    while days >= year_length(year)
        invariant
            1970 <= year <= 1970 + (d - days),
            0 <= days <= d <= 2932897,
            days_before_year(year as int) + days == d,
        decreases days,
    {
        days = days - year_length(year);
        year = year + 1;
    }
    let ghost r = days;
    proof {
        lemma_months_make_year(year as int);
    }
    let mut month: i64 = 1;
    while days >= month_length(year, month)
        invariant
            1 <= month <= 12,
            0 <= days <= r,
            r < days_in_year(year as int),
            days_before_month(year as int, month as int) + days == r,
            days_before_month(year as int, 13) == days_in_year(year as int),
        decreases days,
    {
        days = days - month_length(year, month);
        month = month + 1;
        proof {
            if month == 13 {
                assert(false);
            }
        }
    }
    let day = days + 1;
    let mut out: Vec<char> = Vec::new();
    push_decimal(&mut out, year as u128);
    out.push('-');
    push_two_digits(&mut out, month);
    out.push('-');
    assert(day < 100);
    push_two_digits(&mut out, day);
    out.push(' ');
    push_two_digits(&mut out, hour);
    out.push(':');
    push_two_digits(&mut out, minute);
    out.push(':');
    push_two_digits(&mut out, second);
    out.push(' ');
    out.push('U');
    out.push('T');
    out.push('C');
    let s = crate::text::string_of(&out);
    proof {
        let y = year as int;
        let mo = month as int;
        assert(days_before_year(y + 1) == days_before_year(y) + days_in_year(y));
        assert(days_before_month(y, mo + 1) == days_before_month(y, mo) + days_in_month(y, mo));
        assert(s@ =~= timestamp_text(
            y,
            mo,
            d - days_before_year(y) - days_before_month(y, mo) + 1,
            (day_clock as int) / 3600,
            ((day_clock as int) % 3600) / 60,
            (day_clock as int) % 60,
        ));
    }
    s
}

/// The months are those of the Gregorian calendar: January, March, May,
/// July, August, October and December have 31 days; April, June, September
/// and November 30; February 29 in a leap year and 28 otherwise. A year is
/// a leap year when its number is divisible by 4, except that of centuries
/// only those divisible by 400 are; and the months end on the days 31, 59
/// (or 60), ..., 365 (or 366) of the year.
pub proof fn lemma_gregorian_calendar(y: int)
    ensures
        days_in_month(y, 1) == 31,
        days_in_month(y, 2) == if is_leap_year(y) {
            29int
        } else {
            28int
        },
        days_in_month(y, 3) == 31,
        days_in_month(y, 4) == 30,
        days_in_month(y, 5) == 31,
        days_in_month(y, 6) == 30,
        days_in_month(y, 7) == 31,
        days_in_month(y, 8) == 31,
        days_in_month(y, 9) == 30,
        days_in_month(y, 10) == 31,
        days_in_month(y, 11) == 30,
        days_in_month(y, 12) == 31,
        y % 4 != 0 ==> !is_leap_year(y),
        y % 4 == 0 && y % 100 != 0 ==> is_leap_year(y),
        y % 100 == 0 && y % 400 != 0 ==> !is_leap_year(y),
        y % 400 == 0 ==> is_leap_year(y),
        days_in_year(y) == if is_leap_year(y) {
            366int
        } else {
            365int
        },
        days_before_month(y, 2) == 31,
        days_before_month(y, 3) == 59 + (if is_leap_year(y) {
            1int
        } else {
            0
        }),
        days_before_month(y, 12) == 334 + (if is_leap_year(y) {
            1int
        } else {
            0
        }),
        days_before_month(y, 13) == days_in_year(y),
{
    reveal_with_fuel(days_before_month, 13);
}

/// Every reading of a timestamp names a real day: the day of the month is
/// between 1 and the length of its month, the month between 1 and 12, and
/// the time of day a real one.
pub proof fn lemma_reading_is_a_real_date(ts: int, s: Seq<char>)
    requires
        0 <= ts <= 253402300799,
        is_unix_time_text(ts, s),
    ensures
        exists|y: int, mo: int, day: int, h: int, mi: int, sec: int|
            {
                &&& 1970 <= y
                &&& 1 <= mo <= 12
                &&& 1 <= day <= days_in_month(y, mo)
                &&& 0 <= h < 24 && 0 <= mi < 60 && 0 <= sec < 60
                &&& s == #[trigger] timestamp_text(y, mo, day, h, mi, sec)
            },
{
    let d = ts / 86400;
    let c = ts % 86400;
    let (y, mo) = choose|y: int, mo: int|
        {
            &&& 1970 <= y
            &&& days_before_year(y) <= d < days_before_year(y + 1)
            &&& 1 <= mo <= 12
            &&& days_before_month(y, mo) <= d - days_before_year(y) < days_before_month(y, mo + 1)
            &&& s == timestamp_text(
                y,
                mo,
                d - days_before_year(y) - days_before_month(y, mo) + 1,
                c / 3600,
                (c % 3600) / 60,
                c % 60,
            )
        };
    let day = d - days_before_year(y) - days_before_month(y, mo) + 1;
    assert(days_before_month(y, mo + 1) == days_before_month(y, mo) + days_in_month(y, mo));
    assert(s == timestamp_text(y, mo, day, c / 3600, (c % 3600) / 60, c % 60));
}

} // verus!
