//! Days, times of day and their text.
//!
//! A day is counted from the start of the common era: day 1 is 1 January of
//! year 1, a Monday. A wall-clock time is one number of seconds, its day times
//! 86,400 plus the second of the day.

use chrono::Datelike;
use vstd::prelude::*;
use crate::text::{decimal, decimal_text, decimal_value, digit, digit_char, zero_pad, zero_padded};

verus! {

/// The first and last year that the calendar covers.
pub const MIN_YEAR: i64 = -262_143;

pub const MAX_YEAR: i64 = 262_142;

/// The first and last day that the calendar covers.
pub const MIN_DAY: i64 = -95_746_129;

pub const MAX_DAY: i64 = 95_745_399;

/// The day of a wall-clock time.
pub fn stamp_day(t: i64) -> (r: i64)
    ensures
        r == day_of(t as int),
        -106_751_991_167_301 <= r <= 106_751_991_167_300,
{
    ((t as i128 + 86_400 * 0x1_0000_0000_0000i128) / 86_400 - 0x1_0000_0000_0000i128) as i64
}

/// The second of the day of a wall-clock time.
pub fn stamp_second(t: i64) -> (r: i64)
    ensures
        r == second_of_day(t as int),
        0 <= r < 86_400,
{
    ((t as i128 + 86_400 * 0x1_0000_0000_0000i128) % 86_400) as i64
}

/// The weekday of a day, counted from Monday.
pub fn day_weekday(n: i64) -> (r: u32)
    ensures
        r == weekday_of(n as int),
        r < 7,
{
    ((n as i128 - 1 + 7 * 0x4000_0000_0000_0000i128) % 7) as u32
}

// ---------------------------------------------------------------------------
// The calendar
// ---------------------------------------------------------------------------

pub open spec fn is_leap(y: int) -> bool {
    y % 4 == 0 && (y % 100 != 0 || y % 400 == 0)
}

pub open spec fn month_len(y: int, m: int) -> int {
    if m == 2 {
        if is_leap(y) {
            29
        } else {
            28
        }
    } else if m == 4 || m == 6 || m == 9 || m == 11 {
        30
    } else {
        31
    }
}

pub open spec fn is_date(y: int, m: int, d: int) -> bool {
    1 <= m <= 12 && 1 <= d <= month_len(y, m)
}

/// The days of a year before the first of a month.
pub open spec fn days_before_month(y: int, m: int) -> int {
    let leap: int = if is_leap(y) {
        1
    } else {
        0
    };
    if m <= 1 {
        0
    } else if m == 2 {
        31
    } else if m == 3 {
        59 + leap
    } else if m == 4 {
        90 + leap
    } else if m == 5 {
        120 + leap
    } else if m == 6 {
        151 + leap
    } else if m == 7 {
        181 + leap
    } else if m == 8 {
        212 + leap
    } else if m == 9 {
        243 + leap
    } else if m == 10 {
        273 + leap
    } else if m == 11 {
        304 + leap
    } else {
        334 + leap
    }
}

/// The days before the first of January of a year.
pub open spec fn days_before_year(y: int) -> int {
    365 * (y - 1) + (y - 1) / 4 - (y - 1) / 100 + (y - 1) / 400
}

pub open spec fn year_len(y: int) -> int {
    if is_leap(y) {
        366
    } else {
        365
    }
}

pub open spec fn day_number(y: int, m: int, d: int) -> int {
    days_before_year(y) + days_before_month(y, m) + d
}

/// The year, month and day of the month of a day.
pub open spec fn date_of(n: int) -> (int, int, int) {
    choose|t: (int, int, int)|
        is_date(t.0, t.1, t.2) && #[trigger] day_number(t.0, t.1, t.2) == n
}

pub open spec fn in_calendar(n: int) -> bool {
    MIN_DAY <= n <= MAX_DAY
}

pub open spec fn day_of(t: int) -> int {
    t / 86_400
}

pub open spec fn second_of_day(t: int) -> int {
    t % 86_400
}

/// Days since Monday.
pub open spec fn weekday_of(n: int) -> int {
    (n - 1) % 7
}

pub proof fn lemma_year_step(y: int)
    ensures
        days_before_year(y + 1) == days_before_year(y) + year_len(y),
{
    let x = y - 1;
    assert((x + 1) / 4 == x / 4 + (if (x + 1) % 4 == 0 {
        1int
    } else {
        0int
    }));
    assert((x + 1) / 100 == x / 100 + (if (x + 1) % 100 == 0 {
        1int
    } else {
        0int
    }));
    assert((x + 1) / 400 == x / 400 + (if (x + 1) % 400 == 0 {
        1int
    } else {
        0int
    }));
    assert(y % 400 == 0 ==> y % 100 == 0);
    assert(y % 100 == 0 ==> y % 4 == 0);
}

pub proof fn lemma_years_ascend(a: int, b: int)
    requires
        a <= b,
    ensures
        days_before_year(a) + 365 * (b - a) <= days_before_year(b) <= days_before_year(a) + 366 * (b - a),
    decreases b - a,
{
    if a < b {
        lemma_years_ascend(a, b - 1);
        lemma_year_step(b - 1);
    }
}

/// A month lasts until the first of the next one.
pub proof fn lemma_month_span(y: int, m: int)
    requires
        1 <= m <= 12,
    ensures
        m < 12 ==> day_number(y, m + 1, 1) == day_number(y, m, 1) + month_len(y, m),
        m == 12 ==> day_number(y + 1, 1, 1) == day_number(y, m, 1) + month_len(y, m),
{
    lemma_year_step(y);
}

/// A day lies inside its own year.
pub proof fn lemma_day_in_year(y: int, m: int, d: int)
    requires
        is_date(y, m, d),
    ensures
        days_before_year(y) < day_number(y, m, d) <= days_before_year(y + 1),
{
    lemma_year_step(y);
}

/// Two dates with the same day number are the same date.
pub proof fn law_one_date_per_day(a: (int, int, int), b: (int, int, int))
    requires
        is_date(a.0, a.1, a.2),
        is_date(b.0, b.1, b.2),
        day_number(a.0, a.1, a.2) == day_number(b.0, b.1, b.2),
    ensures
        a == b,
{
    lemma_day_in_year(a.0, a.1, a.2);
    lemma_day_in_year(b.0, b.1, b.2);
    if a.0 < b.0 {
        lemma_years_ascend(a.0 + 1, b.0);
    } else if b.0 < a.0 {
        lemma_years_ascend(b.0 + 1, a.0);
    }
}

/// The date of a day is the one that counts to it.
pub proof fn lemma_date_of(y: int, m: int, d: int)
    requires
        is_date(y, m, d),
    ensures
        date_of(day_number(y, m, d)) == (y, m, d),
{
    let n = day_number(y, m, d);
    let t = (y, m, d);
    assert(is_date(t.0, t.1, t.2) && day_number(t.0, t.1, t.2) == n);
    let c = date_of(n);
    assert(is_date(c.0, c.1, c.2) && day_number(c.0, c.1, c.2) == n);
    law_one_date_per_day(c, t);
}

/// Days of the covered years are the covered days.
pub proof fn lemma_calendar_range(y: int, m: int, d: int)
    requires
        is_date(y, m, d),
    ensures
        (MIN_YEAR <= y <= MAX_YEAR) == in_calendar(day_number(y, m, d)),
{
    lemma_day_in_year(y, m, d);
    lemma_year_range(y, day_number(y, m, d));
}

proof fn lemma_year_range(y: int, n: int)
    requires
        days_before_year(y) < n <= days_before_year(y + 1),
    ensures
        (MIN_YEAR <= y <= MAX_YEAR) == in_calendar(n),
{
    assert(days_before_year(-262_143) == -95_746_130);
    assert(days_before_year(262_143) == 95_745_399);
    if y < MIN_YEAR {
        lemma_years_ascend(y + 1, -262_143);
    } else if y > MAX_YEAR {
        lemma_years_ascend(262_143, y);
    } else {
        lemma_years_ascend(-262_143, y);
        lemma_years_ascend(y + 1, 262_143);
    }
}

/// `chrono::NaiveDate::from_ymd_opt`, counted by `num_days_from_ce`: a date of
/// the covered years gives its day number, anything else gives nothing.
#[verifier::external_body]
fn chrono_from_ymd(y: i32, m: u32, d: u32) -> (r: Option<i32>)
    ensures
        r == (if MIN_YEAR <= y <= MAX_YEAR && is_date(y as int, m as int, d as int) {
            Some(day_number(y as int, m as int, d as int) as i32)
        } else {
            None
        }),
{
    chrono::NaiveDate::from_ymd_opt(y, m, d).map(|x| x.num_days_from_ce())
}

/// `chrono::NaiveDate::from_num_days_from_ce_opt`: the year, month and day of a
/// covered day number, nothing for any other number.
#[verifier::external_body]
fn chrono_from_days(n: i32) -> (r: Option<(i32, u32, u32)>)
    ensures
        match r {
            Some((y, m, d)) => is_date(y as int, m as int, d as int) && day_number(y as int, m as int, d as int) == n,
            None => true,
        },
        r is Some == in_calendar(n as int),
{
    chrono::NaiveDate::from_num_days_from_ce_opt(n).map(|x| (x.year(), x.month(), x.day()))
}

/// The day number of a date, if it is one of the calendar.
pub fn day_from_ymd(y: i64, m: u32, d: u32) -> (r: Option<i64>)
    ensures
        r == (if MIN_YEAR <= y <= MAX_YEAR && is_date(y as int, m as int, d as int) {
            Some(day_number(y as int, m as int, d as int) as i64)
        } else {
            None
        }),
        r matches Some(n) ==> n == day_number(y as int, m as int, d as int) && in_calendar(n as int) && date_of(
            n as int,
        ) == (y as int, m as int, d as int),
{
    if y < MIN_YEAR || y > MAX_YEAR {
        return None;
    }
    let r = chrono_from_ymd(y as i32, m, d);
    proof {
        if is_date(y as int, m as int, d as int) {
            lemma_calendar_range(y as int, m as int, d as int);
            lemma_date_of(y as int, m as int, d as int);
        }
    }
    match r {
        Some(n) => Some(n as i64),
        None => None,
    }
}

/// The year, month and day of a day of the calendar.
pub fn ymd_from_day(n: i64) -> (r: Option<(i64, u32, u32)>)
    ensures
        r is Some == in_calendar(n as int),
        r matches Some(t) ==> (t.0 as int, t.1 as int, t.2 as int) == date_of(n as int) && is_date(
            t.0 as int,
            t.1 as int,
            t.2 as int,
        ) && MIN_YEAR <= t.0 <= MAX_YEAR && n == day_number(t.0 as int, t.1 as int, t.2 as int),
{
    if n < MIN_DAY || n > MAX_DAY {
        return None;
    }
    match chrono_from_days(n as i32) {
        Some((y, m, d)) => {
            proof {
                lemma_date_of(y as int, m as int, d as int);
                lemma_calendar_range(y as int, m as int, d as int);
            }
            Some((y as i64, m, d))
        },
        None => None,
    }
}

// ---------------------------------------------------------------------------
// Moments
// ---------------------------------------------------------------------------
//
// A moment of a clock is counted in half seconds. An even number is a whole second; the
// odd one behind it is the leap second that may follow before the minute ends.

/// The second of a moment: of a leap second the one before it.
pub open spec fn second_at(t: int) -> int {
    t / 2
}

/// The day of a moment.
pub open spec fn moment_day(t: int) -> int {
    day_of(second_at(t))
}

/// How far into its day a moment is.
pub open spec fn moment_of_day(t: int) -> int {
    t % 172_800
}

/// The moment so many seconds later, or earlier. Whoever leaves a leap second goes on
/// from the second before it, and back from the one behind it.
pub open spec fn later(t: int, n: int) -> int {
    if t % 2 == 0 || n == 0 {
        t + 2 * n
    } else if n > 0 {
        t - 1 + 2 * n
    } else {
        t + 1 + 2 * n
    }
}

/// The seconds from one moment to another. A leap second counts where it lies between
/// the times of day.
pub open spec fn seconds_from(a: int, b: int) -> int {
    let x = second_of_day(second_at(a));
    let y = second_of_day(second_at(b));
    second_at(b) - second_at(a) + b % 2 - a % 2 + if y > x && a % 2 == 1 {
        1int
    } else if y < x && b % 2 == 1 {
        -1
    } else {
        0
    }
}

/// The second of a moment.
pub fn moment_second(t: i64) -> (r: i64)
    ensures
        r == second_at(t as int),
        t == 2 * r + t as int % 2,
{
    if t >= 0 {
        t / 2
    } else {
        -((-(t + 1)) / 2) - 1
    }
}

/// How far into its day a moment is.
pub fn moment_rest(t: i64) -> (r: i64)
    ensures
        r == moment_of_day(t as int),
        0 <= r < 172_800,
{
    let s: i64 = moment_second(t);
    2 * stamp_second(s) + (t - 2 * s)
}

/// The moment so many seconds later, or earlier.
pub fn moment_later(t: i64, n: i64) -> (r: i64)
    requires
        -1_000_000_000_000_000_000 <= t <= 1_000_000_000_000_000_000,
        -1_000_000_000_000_000_000 <= n <= 1_000_000_000_000_000_000,
    ensures
        r == later(t as int, n as int),
{
    let leap: i64 = t - 2 * moment_second(t);
    if leap == 0 || n == 0 {
        t + 2 * n
    } else if n > 0 {
        t - 1 + 2 * n
    } else {
        t + 1 + 2 * n
    }
}

/// The seconds from one moment to another.
pub fn moments_apart(a: i64, b: i64) -> (r: i64)
    requires
        -1_000_000_000_000_000_000 <= a <= 1_000_000_000_000_000_000,
        -1_000_000_000_000_000_000 <= b <= 1_000_000_000_000_000_000,
    ensures
        r == seconds_from(a as int, b as int),
        b - a - 4 <= 2 * r <= b - a + 4,
{
    let s: i64 = moment_second(a);
    let e: i64 = moment_second(b);
    let x: i64 = stamp_second(s);
    let y: i64 = stamp_second(e);
    let la: i64 = a - 2 * s;
    let lb: i64 = b - 2 * e;
    let more: i64 = if y > x && la == 1 {
        1
    } else if y < x && lb == 1 {
        -1
    } else {
        0
    };
    e - s + lb - la + more
}

/// Between moments without a leap second the seconds are counted as they pass, and going
/// on for so many leads from one to the other.
pub proof fn law_later_undoes_seconds_from(a: int, b: int)
    requires
        a % 2 == 0,
        b % 2 == 0,
    ensures
        later(a, seconds_from(a, b)) == b,
{
}

// ---------------------------------------------------------------------------
// Dates and times as text
// ---------------------------------------------------------------------------

/// Two digits.
pub open spec fn two_digits(n: int) -> Seq<char> {
    seq![digit_char(n / 10), digit_char(n % 10)]
}

/// A year: four digits, or a sign and at least four digits outside the years 0 to 9999.
pub open spec fn year_text(y: int) -> Seq<char> {
    if 0 <= y <= 9999 {
        zero_pad(decimal(y), 4)
    } else if y < 0 {
        seq!['-'] + zero_pad(decimal(-y), 4)
    } else {
        seq!['+'] + zero_pad(decimal(y), 4)
    }
}

/// Year, month and day of the month joined by hyphens.
pub open spec fn date_text(n: int) -> Seq<char> {
    let (y, m, d) = date_of(n);
    year_text(y) + seq!['-'] + two_digits(m) + seq!['-'] + two_digits(d)
}

/// A date, the letter T, and hour, minute and second of a moment joined by colons. A
/// leap second is the sixtieth of its minute.
pub open spec fn time_text(t: int) -> Seq<char> {
    let s = second_of_day(second_at(t));
    date_text(moment_day(t)) + seq!['T'] + two_digits(s / 3600) + seq![':'] + two_digits(s / 60 % 60) + seq![':']
        + two_digits(s % 60 + t % 2)
}

fn push_two(v: &mut Vec<char>, n: u64)
    requires
        n < 100,
    ensures
        final(v)@ == old(v)@ + two_digits(n as int),
{
    v.push(digit(n / 10));
    v.push(digit(n % 10));
    proof {
        assert(v@ =~= old(v)@ + two_digits(n as int));
    }
}

/// The text of a day of the calendar.
pub fn format_date(n: i64) -> (r: Option<Vec<char>>)
    ensures
        r is Some == in_calendar(n as int),
        r matches Some(v) ==> v@ == date_text(n as int),
{
    match ymd_from_day(n) {
        None => None,
        Some((y, m, d)) => {
            let mut v: Vec<char> = Vec::new();
            let mut digits: Vec<char>;
            if y < 0 {
                v.push('-');
                digits = zero_padded(decimal_text((-y) as u64), 4);
            } else {
                if y > 9999 {
                    v.push('+');
                }
                digits = zero_padded(decimal_text(y as u64), 4);
            }
            v.append(&mut digits);
            proof {
                assert(v@ =~= year_text(y as int));
            }
            v.push('-');
            push_two(&mut v, m as u64);
            v.push('-');
            push_two(&mut v, d as u64);
            proof {
                assert(v@ =~= year_text(y as int) + seq!['-'] + two_digits(m as int) + seq!['-'] + two_digits(d as int));
            }
            Some(v)
        },
    }
}

/// The text of a moment whose day is one of the calendar.
pub fn format_time(t: i64) -> (r: Option<Vec<char>>)
    ensures
        r is Some == in_calendar(moment_day(t as int)),
        r matches Some(v) ==> v@ == time_text(t as int),
{
    let at: i64 = moment_second(t);
    let s: u64 = stamp_second(at) as u64;
    let leap: u64 = (t - 2 * at) as u64;
    match format_date(stamp_day(at)) {
        None => None,
        Some(date) => {
            let mut v = date;
            v.push('T');
            push_two(&mut v, s / 3600);
            v.push(':');
            push_two(&mut v, s / 60 % 60);
            v.push(':');
            push_two(&mut v, s % 60 + leap);
            proof {
                assert(v@ =~= time_text(t as int));
            }
            Some(v)
        },
    }
}

/// Every day of a year has a date in that year.
pub proof fn lemma_dated(y: int, n: int)
    requires
        days_before_year(y) < n <= days_before_year(y + 1),
    ensures
        is_date(date_of(n).0, date_of(n).1, date_of(n).2),
        date_of(n).0 == y,
        day_number(y, date_of(n).1, date_of(n).2) == n,
{
    lemma_year_step(y);
    let r = n - days_before_year(y);
    let m: int = if r <= days_before_month(y, 2) {
        1
    } else if r <= days_before_month(y, 3) {
        2
    } else if r <= days_before_month(y, 4) {
        3
    } else if r <= days_before_month(y, 5) {
        4
    } else if r <= days_before_month(y, 6) {
        5
    } else if r <= days_before_month(y, 7) {
        6
    } else if r <= days_before_month(y, 8) {
        7
    } else if r <= days_before_month(y, 9) {
        8
    } else if r <= days_before_month(y, 10) {
        9
    } else if r <= days_before_month(y, 11) {
        10
    } else if r <= days_before_month(y, 12) {
        11
    } else {
        12
    };
    lemma_date_of(y, m, r - days_before_month(y, m));
}

/// The day after the last of a month is the first of the next, and weekdays go round: 15 June
/// 2026 is a Monday, and whole weeks before and behind it are Mondays too.
pub proof fn law_weekdays_go_round(n: int)
    ensures
        weekday_of(day_number(2026, 6, 15)) == 0,
        weekday_of(n + 7) == weekday_of(n),
        weekday_of(n + 1) == (if weekday_of(n) == 6 {
            0
        } else {
            weekday_of(n) + 1
        }),
        0 <= weekday_of(n) <= 6,
{
    assert(day_number(2026, 6, 15) == 739_782);
}

/// The day behind a date is the next one of its month, or the first of the next month, or of
/// the next year.
pub proof fn law_days_follow_each_other(y: int, m: int, d: int)
    requires
        is_date(y, m, d),
    ensures
        date_of(day_number(y, m, d)) == (y, m, d),
        is_date(y, m, d + 1) ==> day_number(y, m, d + 1) == day_number(y, m, d) + 1,
        !is_date(y, m, d + 1) && m < 12 ==> day_number(y, m + 1, 1) == day_number(y, m, d) + 1,
        !is_date(y, m, d + 1) && m == 12 ==> day_number(y + 1, 1, 1) == day_number(y, m, d) + 1,
        is_date(y, 2, 29) == (y % 4 == 0 && (y % 100 != 0 || y % 400 == 0)),
        28 <= month_len(y, m) <= 31,
{
    lemma_date_of(y, m, d);
    lemma_month_span(y, m);
}

/// A date of the years that have four digits is written as ten characters: the year, the month
/// and the day, each read back from its digits, with hyphens between them.
pub proof fn law_dates_are_written_in_full(y: int, m: int, d: int)
    requires
        0 <= y <= 9_999,
        is_date(y, m, d),
    ensures
        ({
            let s = date_text(day_number(y, m, d));
            &&& s.len() == 10
            &&& s[4] == '-' && s[7] == '-'
            &&& decimal_value(s.subrange(0, 4)) == y
            &&& decimal_value(s.subrange(5, 7)) == m
            &&& decimal_value(s.subrange(8, 10)) == d
        }),
{
    lemma_date_of(y, m, d);
    let s = date_text(day_number(y, m, d));
    let year = zero_pad(decimal(y), 4);
    lemma_four_digits(y);
    lemma_two_digits(m);
    lemma_two_digits(d);
    assert(s =~= year + seq!['-'] + two_digits(m) + seq!['-'] + two_digits(d));
    assert(s.subrange(0, 4) =~= year);
    assert(s.subrange(5, 7) =~= two_digits(m));
    assert(s.subrange(8, 10) =~= two_digits(d));
}

/// A time is written as its date and, behind a T, its hour, minute and second of two digits
/// each with colons between them.
pub proof fn law_times_are_written_in_full(y: int, m: int, d: int, s: int)
    requires
        0 <= y <= 9_999,
        is_date(y, m, d),
        0 <= s < 86_400,
    ensures
        ({
            let t = time_text(2 * (86_400 * day_number(y, m, d) + s));
            &&& t.len() == 19
            &&& t.subrange(0, 10) == date_text(day_number(y, m, d))
            &&& t[10] == 'T' && t[13] == ':' && t[16] == ':'
            &&& 3_600 * decimal_value(t.subrange(11, 13)) + 60 * decimal_value(t.subrange(14, 16)) + decimal_value(
                t.subrange(17, 19),
            ) == s
        }),
{
    law_dates_are_written_in_full(y, m, d);
    let n = day_number(y, m, d);
    let at = 2 * (86_400 * n + s);
    let t = time_text(at);
    assert(second_at(at) == 86_400 * n + s);
    assert(moment_day(at) == n && second_of_day(second_at(at)) == s && at % 2 == 0);
    let date = date_text(n);
    let h = two_digits(s / 3600);
    let mi = two_digits(s / 60 % 60);
    let se = two_digits(s % 60);
    assert(t =~= date + seq!['T'] + h + seq![':'] + mi + seq![':'] + se);
    lemma_two_digits(s / 3600);
    lemma_two_digits(s / 60 % 60);
    lemma_two_digits(s % 60);
    assert(t.subrange(0, 10) =~= date);
    assert(t.subrange(11, 13) =~= h);
    assert(t.subrange(14, 16) =~= mi);
    assert(t.subrange(17, 19) =~= se);
}

proof fn lemma_two_digits(n: int)
    requires
        0 <= n <= 99,
    ensures
        two_digits(n).len() == 2,
        decimal_value(two_digits(n)) == n,
{
    let s = two_digits(n);
    assert(s.drop_last() =~= seq![digit_char(n / 10)]);
    assert(s.drop_last().drop_last() =~= Seq::<char>::empty());
    reveal_with_fuel(decimal_value, 4);
}

proof fn lemma_four_digits(y: int)
    requires
        0 <= y <= 9_999,
    ensures
        zero_pad(decimal(y), 4).len() == 4,
        decimal_value(zero_pad(decimal(y), 4)) == y,
{
    crate::text::law_decimal_round_trip(y);
    reveal_with_fuel(decimal, 5);
    lemma_zeros_before(decimal(y), 4);
}

proof fn lemma_zeros_before(s: Seq<char>, n: int)
    requires
        s.len() <= n,
    ensures
        zero_pad(s, n).len() == n,
        decimal_value(zero_pad(s, n)) == decimal_value(s),
    decreases n - s.len(),
{
    if s.len() < n {
        let t = seq!['0'] + s;
        lemma_zeros_before(t, n);
        lemma_leading_zero(s);
    }
}

proof fn lemma_leading_zero(s: Seq<char>)
    ensures
        decimal_value(seq!['0'] + s) == decimal_value(s),
    decreases s.len(),
{
    let t = seq!['0'] + s;
    if s.len() == 0 {
        assert(t.drop_last() =~= Seq::<char>::empty());
        assert(s =~= Seq::<char>::empty());
        reveal_with_fuel(decimal_value, 3);
    } else {
        lemma_leading_zero(s.drop_last());
        assert(t.drop_last() =~= seq!['0'] + s.drop_last());
        assert(t.last() == s.last());
    }
}

} // verus!
