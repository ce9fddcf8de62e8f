//! Dates of the Gregorian calendar and the text of a time.
use vstd::prelude::*;

verus! {

/// The first second that has a calendar date.
pub const EARLIEST_SECOND: i64 = -8_334_601_228_800;

/// The last second that has a calendar date.
pub const LATEST_SECOND: i64 = 8_210_266_876_799;

/// The seconds of a day.
pub const DAY: i32 = 86_400;

pub open spec fn leap_year(y: int) -> bool {
    y % 4 == 0 && (y % 100 != 0 || y % 400 == 0)
}

pub open spec fn days_in_month(y: int, m: int) -> int {
    if m == 2 {
        if leap_year(y) {
            29
        } else {
            28
        }
    } else if m == 4 || m == 6 || m == 9 || m == 11 {
        30
    } else {
        31
    }
}

/// The days of a year that come before a month.
pub open spec fn days_before_month(y: int, m: int) -> int
    decreases m,
{
    if m <= 1 {
        0
    } else {
        days_before_month(y, m - 1) + days_in_month(y, m - 1)
    }
}

/// The days from the start of year 1 to the start of a year.
pub open spec fn days_before_year(y: int) -> int {
    365 * (y - 1) + (y - 1) / 4 - (y - 1) / 100 + (y - 1) / 400
}

pub open spec fn is_date(y: int, m: int, d: int) -> bool {
    1 <= m <= 12 && 1 <= d <= days_in_month(y, m)
}

/// The days from the start of 1970 to a date.
pub open spec fn day_number(y: int, m: int, d: int) -> int {
    days_before_year(y) - days_before_year(1970) + days_before_month(y, m) + d - 1
}

/// A number below a hundred with both of its digits.
pub open spec fn two_digits(n: int) -> Seq<char> {
    seq![crate::text::digit((n / 10) as nat), crate::text::digit((n % 10) as nat)]
}

/// A number with at least four digits.
pub open spec fn four_digits(n: int) -> Seq<char> {
    if n < 10000 {
        two_digits(n / 100) + two_digits(n % 100)
    } else {
        crate::text::decimal(n as nat)
    }
}

/// A year; one that does not have four digits comes with its sign.
pub open spec fn year_text(y: int) -> Seq<char> {
    if y < 0 {
        seq!['-'] + four_digits(-y)
    } else if y < 10000 {
        four_digits(y)
    } else {
        seq!['+'] + four_digits(y)
    }
}

/// A date and the time that is `s` seconds after its start.
pub open spec fn time_text(y: int, m: int, d: int, s: int) -> Seq<char> {
    year_text(y) + seq!['-'] + two_digits(m) + seq!['-'] + two_digits(d) + seq![' '] + two_digits(
        s / 3600,
    ) + seq![':'] + two_digits(s / 60 % 60) + seq![':'] + two_digits(s % 60)
}

/// Whether a text shows a second since 1970 as clocks do that are `offset`
/// seconds ahead of UTC.
pub open spec fn shows_at(t: Seq<char>, sec: int, offset: int) -> bool {
    exists|y: int, m: int, d: int| #[trigger]
        is_date(y, m, d) && day_number(y, m, d) == (sec + offset) / (DAY as int) && t == time_text(
            y,
            m,
            d,
            (sec + offset) % (DAY as int),
        )
}

/// Whether a text shows a second since 1970 at an offset that a time zone can
/// have.
pub open spec fn shows(t: Seq<char>, sec: int) -> bool {
    exists|offset: int| -DAY < offset < DAY && #[trigger] shows_at(t, sec, offset)
}

/// `Local.timestamp_opt(sec, 0)` of chrono and `local_minus_utc` of its offset:
/// by how many seconds the clocks of the machine's time zone are ahead of UTC at
/// that second. chrono has a date for every second from the start of the year
/// -262143 to the end of the year 262142, which is what the precondition asks
/// for, and its offsets are shorter than a day. Which one it is depends on the
/// time zone that the machine is set to. chrono panics where that zone is a day
/// or more ahead or behind, which no argument decides.
#[verifier::external_body]
pub(crate) fn local_offset(sec: i64) -> (r: i32)
    requires
        EARLIEST_SECOND <= sec <= LATEST_SECOND,
    ensures
        -DAY < r < DAY,
{
    let time = chrono::TimeZone::timestamp_opt(&chrono::Local, sec, 0).unwrap();
    time.offset().local_minus_utc()
}

/// `FixedOffset::timestamp_opt` of chrono, formatted as `%Y-%m-%d %H:%M:%S`: the
/// date of the proleptic Gregorian calendar and the time of day, `offset`
/// seconds ahead of UTC. Numbers are filled with zeros; a year that does not
/// have four digits comes with its sign.
#[verifier::external_body]
pub(crate) fn format_at(sec: i64, offset: i32) -> (r: String)
    requires
        EARLIEST_SECOND <= sec <= LATEST_SECOND,
        -DAY < offset < DAY,
    ensures
        shows_at(r@, sec as int, offset as int),
{
    let zone = chrono::FixedOffset::east_opt(offset).unwrap();
    let time = chrono::TimeZone::timestamp_opt(&zone, sec, 0).unwrap();
    format!("{}", time.format("%Y-%m-%d %H:%M:%S"))
}

proof fn months_follow(y: int, a: int, b: int)
    requires
        1 <= a < b,
    ensures
        days_before_month(y, a) + days_in_month(y, a) <= days_before_month(y, b),
    decreases b,
{
    if a + 1 < b {
        months_follow(y, a, b - 1);
    }
}

/// A year ends with its December.
proof fn december_ends(y: int)
    ensures
        days_before_year(y + 1) == days_before_year(y) + days_before_month(y, 12) + 31,
{
    reveal_with_fuel(days_before_month, 13);
}

/// The day after a date has a date.
proof fn next_date(y: int, m: int, d: int)
    requires
        is_date(y, m, d),
    ensures
        exists|y2: int, m2: int, d2: int| #[trigger]
            is_date(y2, m2, d2) && day_number(y2, m2, d2) == day_number(y, m, d) + 1,
{
    if d < days_in_month(y, m) {
        assert(is_date(y, m, d + 1));
    } else if m < 12 {
        assert(is_date(y, m + 1, 1));
    } else {
        december_ends(y);
        assert(is_date(y + 1, 1, 1));
        assert(day_number(y + 1, 1, 1) == day_number(y, m, d) + 1);
    }
}

/// The day before a date has a date.
proof fn previous_date(y: int, m: int, d: int)
    requires
        is_date(y, m, d),
    ensures
        exists|y2: int, m2: int, d2: int| #[trigger]
            is_date(y2, m2, d2) && day_number(y2, m2, d2) == day_number(y, m, d) - 1,
{
    if d > 1 {
        assert(is_date(y, m, d - 1));
    } else if m > 1 {
        assert(is_date(y, m - 1, days_in_month(y, m - 1)));
    } else {
        december_ends(y - 1);
        assert(is_date(y - 1, 12, 31));
        assert(day_number(y - 1, 12, 31) == day_number(y, m, d) - 1);
    }
}

/// A date lies within its year.
proof fn within_year(y: int, m: int, d: int)
    requires
        is_date(y, m, d),
    ensures
        days_before_year(y) <= days_before_year(y) + days_before_month(y, m) + d - 1
            < days_before_year(y + 1),
{
    december_ends(y);
    if m < 12 {
        months_follow(y, m, 12);
    }
    if m > 1 {
        months_follow(y, 1, m);
    }
}

proof fn years_follow(a: int, b: int)
    requires
        a < b,
    ensures
        days_before_year(a + 1) <= days_before_year(b),
{
}

/// Different dates are different days.
pub proof fn dates_differ(y: int, m: int, d: int, y2: int, m2: int, d2: int)
    requires
        is_date(y, m, d),
        is_date(y2, m2, d2),
        day_number(y, m, d) == day_number(y2, m2, d2),
    ensures
        y == y2,
        m == m2,
        d == d2,
{
    within_year(y, m, d);
    within_year(y2, m2, d2);
    if y < y2 {
        years_follow(y, y2);
    } else if y2 < y {
        years_follow(y2, y);
    } else if m < m2 {
        months_follow(y, m, m2);
    } else if m2 < m {
        months_follow(y, m2, m);
    }
}

/// Every day has a date.
pub proof fn every_day_has_a_date(n: int)
    ensures
        exists|y: int, m: int, d: int| #[trigger] is_date(y, m, d) && day_number(y, m, d) == n,
    decreases (if n < 0 { -n } else { n }),
{
    if n == 0 {
        assert(is_date(1970, 1, 1));
    } else if n > 0 {
        every_day_has_a_date(n - 1);
        let (y, m, d) = choose|y: int, m: int, d: int| #[trigger]
            is_date(y, m, d) && day_number(y, m, d) == n - 1;
        next_date(y, m, d);
    } else {
        every_day_has_a_date(n + 1);
        let (y, m, d) = choose|y: int, m: int, d: int| #[trigger]
            is_date(y, m, d) && day_number(y, m, d) == n + 1;
        previous_date(y, m, d);
    }
}

/// A second has one text at each offset.
pub proof fn one_text(a: Seq<char>, b: Seq<char>, sec: int, offset: int)
    requires
        shows_at(a, sec, offset),
        shows_at(b, sec, offset),
    ensures
        a == b,
{
    let day = (sec + offset) / (DAY as int);
    let rest = (sec + offset) % (DAY as int);
    let (y, m, d) = choose|y: int, m: int, d: int| #[trigger]
        is_date(y, m, d) && day_number(y, m, d) == day && a == time_text(y, m, d, rest);
    let (y2, m2, d2) = choose|y: int, m: int, d: int| #[trigger]
        is_date(y, m, d) && day_number(y, m, d) == day && b == time_text(y, m, d, rest);
    dates_differ(y, m, d, y2, m2, d2);
}

} // verus!
