//! Date, time, duration and period values of iCalendar properties.

use chrono::{Datelike, Timelike};
use vstd::prelude::*;
use crate::dates::{day_number, in_calendar, is_date, moment_day};
use crate::ics::{param_from, Prop, PropModel};
use crate::text::{
    all_digits, byte_prefix, chars_of, copy_range, decimal, decimal_value, find_char, is_digit, is_space, is_str,
    lemma_position, parse_nat, parse_unsigned, position, prefix_of_bytes, split, split_char, string_of, to_upper,
    to_upper_char, trim, trimmed, upper, upper_char, views, within,
};
use crate::zones::{copy_zone, resolve_tzid, zone_of_tzid, Zone, ZoneModel};

verus! {

/// A date, or a moment of the wall clock in a zone.
#[derive(Debug)]
pub enum IcsTime {
    Date(i64),
    Time(i64, Zone),
}

pub enum IcsTimeModel {
    Date(int),
    Time(int, ZoneModel),
}

impl View for IcsTime {
    type V = IcsTimeModel;

    open spec fn view(&self) -> IcsTimeModel {
        match self {
            IcsTime::Date(d) => IcsTimeModel::Date(*d as int),
            IcsTime::Time(t, z) => IcsTimeModel::Time(*t as int, z@),
        }
    }
}

/// Whether a value lies in the calendar.
pub open spec fn time_in_calendar(t: IcsTimeModel) -> bool {
    match t {
        IcsTimeModel::Date(d) => in_calendar(d),
        IcsTimeModel::Time(t, _) => in_calendar(moment_day(t)),
    }
}

pub open spec fn time_model(t: Option<IcsTime>) -> Option<IcsTimeModel> {
    match t {
        Some(x) => Some(x@),
        None => None,
    }
}

pub fn copy_time(t: &IcsTime) -> (r: IcsTime)
    ensures
        r@ == t@,
{
    match t {
        IcsTime::Date(d) => IcsTime::Date(*d),
        IcsTime::Time(t, z) => IcsTime::Time(*t, copy_zone(z)),
    }
}

// ---------------------------------------------------------------------------
// Dates and times
// ---------------------------------------------------------------------------

/// What a text says as a date in the form year, month, day without separators.
pub uninterp spec fn parsed_date(s: Seq<char>) -> Option<int>;

/// What a text says as a date and time in a given format: the day, the second of that
/// day and the nanoseconds, of which a leap second has a thousand million.
pub uninterp spec fn parsed_datetime(s: Seq<char>, format: Seq<char>) -> Option<(int, int, int)>;

/// The number that some digits of a text stand for.
pub open spec fn field(s: Seq<char>, from: int, to: int) -> int {
    decimal_value(s.subrange(from, to))
}

/// Eight digits, the letter T and `n` more digits.
pub open spec fn digit_time(s: Seq<char>, n: int) -> bool {
    s.len() == 9 + n && s[8] == 'T' && all_digits(s.subrange(0, 8)) && all_digits(s.subrange(9, 9 + n))
}

/// The date that eight digits spell.
pub open spec fn digits_date(s: Seq<char>) -> Option<int> {
    if is_date(field(s, 0, 4), field(s, 4, 6), field(s, 6, 8)) {
        Some(day_number(field(s, 0, 4), field(s, 4, 6), field(s, 6, 8)))
    } else {
        None
    }
}

/// The time that hour, minute and second make on a date. A sixtieth second is the one
/// before it with a thousand million nanoseconds.
pub open spec fn clock_time(day: Option<int>, h: int, m: int, s: int) -> Option<(int, int, int)> {
    match day {
        Some(d) => if h < 24 && m < 60 && s <= 60 {
            if s == 60 {
                Some((d, 3600 * h + 60 * m + 59, 1_000_000_000))
            } else {
                Some((d, 3600 * h + 60 * m + s, 0))
            }
        } else {
            None
        },
        None => None,
    }
}

/// `chrono::NaiveDate::parse_from_str` with the format `%Y%m%d`, counted by
/// `num_days_from_ce`. Eight digits give the date they spell, if there is one; a
/// date that comes out lies in the calendar.
#[verifier::external_body]
fn chrono_parse_date(s: &str) -> (r: Option<i32>)
    ensures
        match r {
            Some(n) => parsed_date(s@) == Some(n as int) && in_calendar(n as int),
            None => parsed_date(s@) is None,
        },
        s@.len() == 8 && all_digits(s@) ==> match r {
            Some(n) => digits_date(s@) == Some(n as int),
            None => digits_date(s@) is None,
        },
{
    chrono::NaiveDate::parse_from_str(s, "%Y%m%d").ok().map(|d| d.num_days_from_ce())
}

/// `chrono::NaiveDateTime::parse_from_str`, as a day counted by `num_days_from_ce`, a
/// second of the day and nanoseconds. In the two formats used here eight digits, T and
/// six or four digits give the time they spell, if there is one; each format refuses
/// the other's digits. A time that comes out lies in the calendar. A leap second is the
/// second before it with nanoseconds from a thousand million on.
#[verifier::external_body]
fn chrono_parse_datetime(s: &str, format: &str) -> (r: Option<(i32, u32, u32)>)
    ensures
        match r {
            Some(t) => parsed_datetime(s@, format@) == Some((t.0 as int, t.1 as int, t.2 as int)) && in_calendar(
                t.0 as int,
            ) && t.1 < 86_400,
            None => parsed_datetime(s@, format@) is None,
        },
        format@ == "%Y%m%dT%H%M%S"@ && digit_time(s@, 6) ==> ({
            let c = clock_time(digits_date(s@), field(s@, 9, 11), field(s@, 11, 13), field(s@, 13, 15));
            match r {
                Some(t) => c == Some((t.0 as int, t.1 as int, t.2 as int)),
                None => c is None,
            }
        }),
        format@ == "%Y%m%dT%H%M"@ && digit_time(s@, 4) ==> ({
            let c = clock_time(digits_date(s@), field(s@, 9, 11), field(s@, 11, 13), 0);
            match r {
                Some(t) => c == Some((t.0 as int, t.1 as int, t.2 as int)),
                None => c is None,
            }
        }),
        format@ == "%Y%m%dT%H%M%S"@ && digit_time(s@, 4) ==> r is None,
        format@ == "%Y%m%dT%H%M"@ && digit_time(s@, 6) ==> r is None,
{
    chrono::NaiveDateTime::parse_from_str(s, format).ok().map(
        |t| (t.date().num_days_from_ce(), t.time().num_seconds_from_midnight(), t.time().nanosecond()),
    )
}

pub open spec fn is_zulu(c: char) -> bool {
    c == 'Z' || c == 'z'
}

/// A date-time text without the Z that marks UTC.
pub open spec fn without_zulu(v: Seq<char>) -> Seq<char> {
    if v.len() > 0 && is_zulu(v[v.len() - 1]) {
        v.subrange(0, v.len() - 1)
    } else {
        v
    }
}

/// The moment of a day, a second of it and nanoseconds, of which only those of a leap
/// second count.
pub open spec fn moment_of(t: (int, int, int)) -> int {
    2 * (86_400 * t.0 + t.1) + if t.2 >= 1_000_000_000 {
        1int
    } else {
        0
    }
}

/// The moment of the wall clock that a text spells, with or without seconds.
pub open spec fn wall_of(body: Seq<char>) -> Option<int> {
    match parsed_datetime(body, "%Y%m%dT%H%M%S"@) {
        Some(t) => Some(moment_of(t)),
        None => match parsed_datetime(body, "%Y%m%dT%H%M"@) {
            Some(t) => Some(moment_of(t)),
            None => None,
        },
    }
}

/// Whether a text has the T that stands between date and time.
pub open spec fn has_t(v: Seq<char>) -> bool {
    position(v, 'T', 0) < v.len() || position(v, 't', 0) < v.len()
}

/// The value of a date or date-time text, given the zone id that belongs to it.
/// Where the value is a date, or has no T in it, its first eight bytes are the
/// date. A final Z means UTC; without it the zone id counts, and without one the
/// time is the machine's.
pub open spec fn time_value(text: Seq<char>, tzid: Option<Seq<char>>, is_date: bool) -> Option<IcsTimeModel> {
    let v = trim(text);
    if is_date || !has_t(v) {
        match byte_prefix(v, 0, 8) {
            Some(k) => match parsed_date(v.subrange(0, k)) {
                Some(n) => Some(IcsTimeModel::Date(n)),
                None => None,
            },
            None => None,
        }
    } else {
        match wall_of(without_zulu(v)) {
            Some(t) => Some(
                IcsTimeModel::Time(
                    t,
                    if is_zulu(v[v.len() - 1]) {
                        ZoneModel::Utc
                    } else if tzid is Some && trim(tzid->0).len() > 0 {
                        zone_of_tzid(tzid->0)
                    } else {
                        ZoneModel::Floating
                    },
                ),
            ),
            None => None,
        }
    }
}

fn make_moment(t: (i32, u32, u32)) -> (r: i64)
    requires
        in_calendar(t.0 as int),
        t.1 < 86_400,
    ensures
        r == moment_of((t.0 as int, t.1 as int, t.2 as int)),
        moment_day(r as int) == t.0,
{
    2 * (86_400 * t.0 as i64 + t.1 as i64) + if t.2 >= 1_000_000_000 {
        1
    } else {
        0
    }
}

fn parse_wall(body: &str) -> (r: Option<i64>)
    ensures
        match r {
            Some(t) => wall_of(body@) == Some(t as int) && in_calendar(moment_day(t as int)),
            None => wall_of(body@) is None,
        },
{
    match chrono_parse_datetime(body, "%Y%m%dT%H%M%S") {
        Some(t) => Some(make_moment(t)),
        None => match chrono_parse_datetime(body, "%Y%m%dT%H%M") {
            Some(t) => Some(make_moment(t)),
            None => None,
        },
    }
}

/// The text of an optional string.
pub open spec fn opt_text(s: Option<&str>) -> Option<Seq<char>> {
    match s {
        Some(x) => Some(x@),
        None => None,
    }
}

pub fn parse_time_value(text: &[char], tzid: Option<&str>, is_date: bool) -> (r: Option<IcsTime>)
    ensures
        time_model(r) == time_value(text@, opt_text(tzid), is_date),
        r matches Some(t) ==> time_in_calendar(t@),
{
    let v = trimmed(text);
    let s = v.as_slice();
    proof {
        lemma_position(s@, 'T', 0);
        lemma_position(s@, 't', 0);
    }
    if is_date || (find_char(s, 'T', 0) >= s.len() && find_char(s, 't', 0) >= s.len()) {
        return match prefix_of_bytes(s, 8) {
            Some(k) => {
                let d = copy_range(s, 0, k);
                let d_text = string_of(d.as_slice());
                match chrono_parse_date(d_text.as_str()) {
                    Some(n) => Some(IcsTime::Date(n as i64)),
                    None => None,
                }
            },
            None => None,
        };
    }
    let last = s[s.len() - 1];
    let utc: bool = last == 'Z' || last == 'z';
    let n: usize = if utc {
        s.len() - 1
    } else {
        s.len()
    };
    let body = copy_range(s, 0, n);
    proof {
        assert(body@ =~= without_zulu(s@));
    }
    let body_text = string_of(body.as_slice());
    match parse_wall(body_text.as_str()) {
        None => None,
        Some(t) => {
            if utc {
                return Some(IcsTime::Time(t, Zone::Utc));
            }
            match tzid {
                Some(id) => {
                    let c = chars_of(id);
                    let bare = trimmed(c.as_slice());
                    if bare.len() > 0 {
                        Some(IcsTime::Time(t, resolve_tzid(id)))
                    } else {
                        Some(IcsTime::Time(t, Zone::Floating))
                    }
                },
                None => Some(IcsTime::Time(t, Zone::Floating)),
            }
        },
    }
}

// ---------------------------------------------------------------------------
// Durations
// ---------------------------------------------------------------------------

/// The longest duration, in seconds.
pub const MAX_DURATION: i64 = 9_223_372_036_854_775;

/// The seconds that a letter of a duration stands for.
pub open spec fn unit_seconds(c: char) -> Option<int> {
    if c == 'W' {
        Some(604_800)
    } else if c == 'D' {
        Some(86_400)
    } else if c == 'H' {
        Some(3600)
    } else if c == 'M' {
        Some(60)
    } else if c == 'S' {
        Some(1)
    } else {
        None
    }
}

/// A duration's length from position `i` on, given the digits read since the last
/// unit, the length so far and whether a unit was read at all.
pub open spec fn duration_from(s: Seq<char>, i: int, num: Seq<char>, total: int, any: bool) -> Option<int>
    decreases s.len() - i,
{
    if i >= s.len() {
        if any {
            Some(total)
        } else {
            None
        }
    } else {
        let c = upper_char(s[i]);
        if c == 'T' {
            duration_from(s, i + 1, num, total, any)
        } else if is_digit(c) {
            duration_from(s, i + 1, num.push(c), total, any)
        } else {
            match (within(parse_nat(num), 0, i64::MAX as int), unit_seconds(c)) {
                (Some(n), Some(u)) => if total + n * u <= MAX_DURATION {
                    duration_from(s, i + 1, Seq::empty(), total + n * u, true)
                } else {
                    None
                },
                _ => None,
            }
        }
    }
}

/// A duration such as `PT1H30M`, `-P1D` or `P2W`, in seconds. One that is longer
/// than the longest duration is none.
pub open spec fn duration_of(text: Seq<char>) -> Option<int> {
    let s = trim(text);
    let signed = s.len() > 0 && (s[0] == '-' || s[0] == '+');
    let p = if signed {
        1int
    } else {
        0int
    };
    if p < s.len() && upper_char(s[p]) == 'P' {
        match duration_from(s, p + 1, Seq::empty(), 0, false) {
            Some(n) => Some(
                if s[0] == '-' {
                    -n
                } else {
                    n
                },
            ),
            None => None,
        }
    } else {
        None
    }
}

pub open spec fn opt_int(v: Option<i64>) -> Option<int> {
    match v {
        Some(n) => Some(n as int),
        None => None,
    }
}

fn unit_length(c: char) -> (r: Option<i64>)
    ensures
        opt_int(r) == unit_seconds(c),
        r matches Some(u) ==> 1 <= u <= 604_800,
{
    if c == 'W' {
        Some(604_800)
    } else if c == 'D' {
        Some(86_400)
    } else if c == 'H' {
        Some(3600)
    } else if c == 'M' {
        Some(60)
    } else if c == 'S' {
        Some(1)
    } else {
        None
    }
}

pub fn parse_duration(text: &[char]) -> (r: Option<i64>)
    ensures
        opt_int(r) == duration_of(text@),
        r matches Some(n) ==> -MAX_DURATION <= n <= MAX_DURATION,
{
    let v = trimmed(text);
    let s = v.as_slice();
    let p: usize = if s.len() > 0 && (s[0] == '-' || s[0] == '+') {
        1
    } else {
        0
    };
    if p >= s.len() || to_upper_char(s[p]) != 'P' {
        return None;
    }
    let mut i: usize = p + 1;
    let mut num: Vec<char> = Vec::new();
    let mut total: i64 = 0;
    let mut any: bool = false;
    while i < s.len()
        invariant
            p < i <= s.len(),
            0 <= total <= MAX_DURATION,
            duration_from(s@, p + 1, Seq::empty(), 0, false) == duration_from(s@, i as int, num@, total as int, any),
            s@ == trim(text@),
            p == (if s@.len() > 0 && (s@[0] == '-' || s@[0] == '+') {
                1int
            } else {
                0int
            }),
            upper_char(s@[p as int]) == 'P',
        decreases s.len() - i,
    {
        let c = to_upper_char(s[i]);
        if c == 'T' {
        } else if '0' <= c && c <= '9' {
            num.push(c);
        } else {
            let n: i64 = match parse_unsigned(num.as_slice(), i64::MAX as u64) {
                Some(n) => n as i64,
                None => {
                    return None;
                },
            };
            match unit_length(c) {
                None => {
                    return None;
                },
                Some(u) => {
                    proof {
                        assert(0 <= n * u <= 9_223_372_036_854_775_807 * 604_800) by (nonlinear_arith)
                            requires
                                0 <= n <= 9_223_372_036_854_775_807,
                                1 <= u <= 604_800,
                        ;
                    }
                    let t: i128 = total as i128 + n as i128 * u as i128;
                    if t > MAX_DURATION as i128 {
                        return None;
                    }
                    total = t as i64;
                    any = true;
                    num.clear();
                },
            }
        }
        i = i + 1;
    }
    if !any {
        return None;
    }
    if s[0] == '-' {
        Some(-total)
    } else {
        Some(total)
    }
}

// ---------------------------------------------------------------------------
// Values of a property
// ---------------------------------------------------------------------------

/// One value of a date or period property: its start, and the end or length of a
/// period.
#[derive(Debug)]
pub struct PropTime {
    pub start: IcsTime,
    pub end: Option<IcsTime>,
    pub dur: Option<i64>,
}

pub struct PropTimeModel {
    pub start: IcsTimeModel,
    pub end: Option<IcsTimeModel>,
    pub dur: Option<int>,
}

impl View for PropTime {
    type V = PropTimeModel;

    open spec fn view(&self) -> PropTimeModel {
        PropTimeModel { start: self.start@, end: time_model(self.end), dur: opt_int(self.dur) }
    }
}

pub open spec fn prop_time_models(v: Seq<PropTime>) -> Seq<PropTimeModel> {
    v.map_values(|t: PropTime| t@)
}

/// Whether everything in a value lies in the calendar.
pub open spec fn prop_time_in_calendar(t: PropTimeModel) -> bool {
    &&& time_in_calendar(t.start)
    &&& t.end matches Some(e) ==> time_in_calendar(e)
    &&& t.dur matches Some(d) ==> -MAX_DURATION <= d <= MAX_DURATION
}

/// Where a text goes on after its leading signs.
pub open spec fn after_signs(s: Seq<char>, i: int) -> int
    decreases s.len() - i,
{
    if i < s.len() && (s[i] == '+' || s[i] == '-') {
        after_signs(s, i + 1)
    } else {
        i
    }
}

/// Whether the second half of a period is a length and no end.
pub open spec fn is_length(s: Seq<char>) -> bool {
    let i = after_signs(s, 0);
    i < s.len() && upper_char(s[i]) == 'P'
}

/// One comma-separated part of a property's value.
pub open spec fn part_time(part: Seq<char>, tzid: Option<Seq<char>>, is_date: bool) -> Option<PropTimeModel> {
    let s = trim(part);
    let k = position(s, '/', 0);
    if s.len() == 0 {
        None
    } else {
        match time_value(s.subrange(0, k), tzid, is_date) {
            None => None,
            Some(start) => if k >= s.len() {
                Some(PropTimeModel { start, end: None, dur: None })
            } else {
                let e = s.subrange(k + 1, s.len() as int);
                if is_length(e) {
                    Some(PropTimeModel { start, end: None, dur: duration_of(e) })
                } else {
                    Some(PropTimeModel { start, end: time_value(e, tzid, is_date), dur: None })
                }
            },
        }
    }
}

pub open spec fn first_times(parts: Seq<Seq<char>>, n: int, tzid: Option<Seq<char>>, is_date: bool) -> Seq<
    PropTimeModel,
>
    decreases n,
{
    if n <= 0 {
        Seq::empty()
    } else {
        let before = first_times(parts, n - 1, tzid, is_date);
        match part_time(parts[n - 1], tzid, is_date) {
            Some(t) => before.push(t),
            None => before,
        }
    }
}

/// Whether a property says that its values are dates.
pub open spec fn says_date(p: PropModel) -> bool {
    match param_from(p.params, "VALUE"@, 0) {
        Some(v) => upper(v) == "DATE"@,
        None => false,
    }
}

/// The values of a date, date-time or period property. Parts without a readable
/// start are left out.
pub open spec fn times_of(p: PropModel) -> Seq<PropTimeModel> {
    let parts = split(p.value, ',');
    first_times(parts, parts.len() as int, param_from(p.params, "TZID"@, 0), says_date(p))
}

fn starts_with_length(s: &[char]) -> (r: bool)
    ensures
        r == is_length(s@),
{
    let mut i: usize = 0;
    while i < s.len() && (s[i] == '+' || s[i] == '-')
        invariant
            i <= s.len(),
            after_signs(s@, 0) == after_signs(s@, i as int),
        decreases s.len() - i,
    {
        i = i + 1;
    }
    i < s.len() && to_upper_char(s[i]) == 'P'
}

fn parse_part(part: &[char], tzid: Option<&str>, is_date: bool) -> (r: Option<PropTime>)
    ensures
        match r {
            Some(t) => part_time(part@, opt_text(tzid), is_date) == Some(t@) && prop_time_in_calendar(t@),
            None => part_time(part@, opt_text(tzid), is_date) is None,
        },
{
    let v = trimmed(part);
    let s = v.as_slice();
    if s.len() == 0 {
        return None;
    }
    let k: usize = find_char(s, '/', 0);
    let head = copy_range(s, 0, k);
    match parse_time_value(head.as_slice(), tzid, is_date) {
        None => None,
        Some(start) => {
            if k >= s.len() {
                return Some(PropTime { start, end: None, dur: None });
            }
            let tail = copy_range(s, k + 1, s.len());
            if starts_with_length(tail.as_slice()) {
                let dur = parse_duration(tail.as_slice());
                Some(PropTime { start, end: None, dur })
            } else {
                let end = parse_time_value(tail.as_slice(), tzid, is_date);
                Some(PropTime { start, end, dur: None })
            }
        },
    }
}

/// All values of a property.
pub fn prop_times(p: &Prop) -> (r: Vec<PropTime>)
    ensures
        prop_time_models(r@) == times_of(p@),
        forall|i: int| 0 <= i < r@.len() ==> prop_time_in_calendar(#[trigger] r@[i]@),
{
    let is_date: bool = match p.param("VALUE") {
        Some(v) => {
            let c = chars_of(v);
            let u = to_upper(c.as_slice());
            is_str(u.as_slice(), "DATE")
        },
        None => false,
    };
    let tzid = p.param("TZID");
    let value = chars_of(p.value.as_str());
    let parts = split_char(value.as_slice(), ',');
    let ghost pv = views(parts@);
    let mut out: Vec<PropTime> = Vec::new();
    let mut i: usize = 0;
    proof {
        assert(prop_time_models(out@) =~= Seq::<PropTimeModel>::empty());
    }
    while i < parts.len()
        invariant
            i <= parts.len(),
            pv == views(parts@),
            prop_time_models(out@) == first_times(pv, i as int, opt_text(tzid), is_date),
            forall|j: int| 0 <= j < out@.len() ==> prop_time_in_calendar(#[trigger] out@[j]@),
        decreases parts.len() - i,
    {
        let ghost before = prop_time_models(out@);
        proof {
            assert(pv[i as int] == parts@[i as int]@);
        }
        match parse_part(parts[i].as_slice(), tzid, is_date) {
            Some(t) => {
                let ghost tm = t@;
                out.push(t);
                proof {
                    assert(prop_time_models(out@) =~= before.push(tm));
                }
            },
            None => {},
        }
        i = i + 1;
    }
    out
}

/// The start of the first value.
pub open spec fn first_time_of(p: PropModel) -> Option<IcsTimeModel> {
    if times_of(p).len() > 0 {
        Some(times_of(p)[0].start)
    } else {
        None
    }
}

pub fn first_time(p: &Prop) -> (r: Option<IcsTime>)
    ensures
        time_model(r) == first_time_of(p@),
        r matches Some(t) ==> time_in_calendar(t@),
{
    let times = prop_times(p);
    if times.len() > 0 {
        proof {
            assert(times_of(p@)[0] == times@[0]@);
        }
        Some(copy_time(&times[0].start))
    } else {
        None
    }
}

/// A time with a T is one on the clock: of UTC where it ends in Z, whatever zone is named
/// beside it; else of the zone that is named, or of none. Anything else is a date.
pub proof fn law_zones_of_times(text: Seq<char>, tzid: Option<Seq<char>>, is_date: bool)
    requires
        time_value(text, tzid, is_date) is Some,
        trim(text).len() > 0,
    ensures
        ({
            let v = trim(text);
            let t = time_value(text, tzid, is_date)->0;
            let timed = !is_date && exists|i: int| 0 <= i < v.len() && (#[trigger] v[i] == 'T' || v[i] == 't');
            let zulu = v.last() == 'Z' || v.last() == 'z';
            &&& t is Date == !timed
            &&& timed && zulu ==> t->Time_1 == ZoneModel::Utc
            &&& timed && !zulu && (tzid matches Some(z) && trim(z).len() > 0) ==> t->Time_1 == zone_of_tzid(tzid->0)
            &&& timed && !zulu && !(tzid matches Some(z) && trim(z).len() > 0) ==> t->Time_1 == ZoneModel::Floating
        }),
{
    let v = trim(text);
    crate::text::lemma_position(v, 'T', 0);
    crate::text::lemma_position(v, 't', 0);
    if has_t(v) {
        let i = if position(v, 'T', 0) < v.len() {
            position(v, 'T', 0)
        } else {
            position(v, 't', 0)
        };
        assert(v[i] == 'T' || v[i] == 't');
    } else {
        assert forall|i: int| 0 <= i < v.len() implies !(#[trigger] v[i] == 'T' || v[i] == 't') by {}
    }
}

/// A date and the seconds of its day make a moment; a leap second is the one behind its
/// second.
pub proof fn law_moments_of_the_day(d: int, s: int)
    requires
        0 <= s < 86_400,
    ensures
        moment_of((d, s, 0)) == 2 * (86_400 * d + s),
        moment_day(moment_of((d, s, 0))) == d,
        moment_of((d, s, 1_000_000_000)) == moment_of((d, s, 0)) + 1,
{
}

proof fn lemma_digits_of_duration(s: Seq<char>, i: int, digits: Seq<char>, k: int, total: int, any: bool)
    requires
        0 <= i,
        0 <= k <= digits.len(),
        i + digits.len() <= s.len(),
        all_digits(digits),
        forall|j: int| 0 <= j < digits.len() ==> s[i + j] == #[trigger] digits[j],
    ensures
        duration_from(s, i + k, digits.take(k), total, any) == duration_from(
            s,
            i + digits.len(),
            digits,
            total,
            any,
        ),
    decreases digits.len() - k,
{
    if k < digits.len() {
        assert(s[i + k] == digits[k]);
        assert(is_digit(digits[k]));
        assert(upper_char(s[i + k]) == s[i + k]);
        assert(digits.take(k).push(digits[k]) =~= digits.take(k + 1));
        lemma_digits_of_duration(s, i, digits, k + 1, total, any);
    } else {
        assert(digits.take(k) =~= digits);
    }
}

/// How long each letter makes a duration: a W weeks, a D days, an H hours, an M minutes and
/// an S seconds, whatever number stands before it, and how a sign turns it round.
pub proof fn law_letters_of_durations(n: int, c: char)
    requires
        0 <= n <= 1_000_000,
        c == 'W' || c == 'D' || c == 'H' || c == 'M' || c == 'S',
    ensures
        ({
            let unit = if c == 'W' {
                604_800int
            } else if c == 'D' {
                86_400
            } else if c == 'H' {
                3_600
            } else if c == 'M' {
                60
            } else {
                1int
            };
            &&& duration_of(seq!['P'] + decimal(n) + seq![c]) == Some(n * unit)
            &&& duration_of(seq!['P', 'T'] + decimal(n) + seq![c]) == Some(n * unit)
            &&& duration_of(seq!['-', 'P'] + decimal(n) + seq![c]) == Some(-(n * unit))
            &&& duration_of(seq!['+', 'P'] + decimal(n) + seq![c]) == Some(n * unit)
        }),
{
    let d = decimal(n);
    crate::text::law_decimal_round_trip(n);
    lemma_one_length(seq!['P'], 1, d, c, n);
    lemma_one_length(seq!['P', 'T'], 1, d, c, n);
    lemma_one_length(seq!['-', 'P'], 2, d, c, n);
    lemma_one_length(seq!['+', 'P'], 2, d, c, n);
}

proof fn lemma_one_length(head: Seq<char>, p: int, d: Seq<char>, c: char, n: int)
    requires
        head == seq!['P'] || head == seq!['P', 'T'] || head == seq!['-', 'P'] || head == seq!['+', 'P'],
        p == (if head[0] == 'P' {
            1int
        } else {
            2
        }),
        0 <= n <= 1_000_000,
        d == decimal(n),
        all_digits(d),
        parse_nat(d) == Some(n),
        unit_seconds(c) is Some,
    ensures
        duration_of(head + d + seq![c]) == Some(
            if head[0] == '-' {
                -(n * unit_seconds(c)->0)
            } else {
                n * unit_seconds(c)->0
            },
        ),
{
    let s = head + d + seq![c];
    assert(s[0] == head[0]);
    assert(s.last() == c);
    assert(!is_space(s[0]) && !is_space(s[s.len() - 1]));
    assert(trim(s) == s);
    let u = unit_seconds(c)->0;
    assert(0 <= n * u <= 1_000_000 * 604_800) by (nonlinear_arith)
        requires
            0 <= n <= 1_000_000,
            1 <= u <= 604_800,
    ;
    let i = head.len() as int;
    assert forall|j: int| 0 <= j < d.len() implies s[i + j] == #[trigger] d[j] by {}
    assert(d.take(0) =~= Seq::<char>::empty());
    lemma_digits_of_duration(s, i, d, 0, 0, false);
    let end = i + d.len();
    assert(s[end] == c);
    assert(upper_char(c) == c);
    assert(!is_digit(c) && c != 'T');
    assert(duration_from(s, end + 1, Seq::empty(), n * u, true) == Some(n * u));
    assert(duration_from(s, end, d, 0, false) == Some(n * u));
    if head == seq!['P', 'T'] {
        assert(s[1] == 'T');
        assert(duration_from(s, 1, Seq::empty(), 0, false) == duration_from(s, 2, Seq::empty(), 0, false));
    }
    if head[0] != 'P' {
        assert(s[1] == 'P');
    }
}

/// A period begins at what stands before its stroke, and lasts as long as what stands behind it
/// says or ends then.
pub proof fn law_periods(a: Seq<char>, b: Seq<char>, tzid: Option<Seq<char>>, is_date: bool, start: IcsTimeModel)
    requires
        !a.contains('/'),
        a.len() > 0,
        trim(a + seq!['/'] + b) == a + seq!['/'] + b,
        time_value(a, tzid, is_date) == Some(start),
    ensures
        part_time(a + seq!['/'] + b, tzid, is_date) == Some(
            PropTimeModel {
                start,
                end: if is_length(b) {
                    None
                } else {
                    time_value(b, tzid, is_date)
                },
                dur: if is_length(b) {
                    duration_of(b)
                } else {
                    None
                },
            },
        ),
{
    let s = a + seq!['/'] + b;
    let k = position(s, '/', 0);
    crate::text::lemma_position(s, '/', 0);
    assert(s[a.len() as int] == '/');
    if k < a.len() {
        assert(s[k] == a[k]);
        assert(a.contains(a[k]));
    }
    assert(k == a.len());
    assert(s.subrange(0, k) =~= a);
    assert(s.subrange(k + 1, s.len() as int) =~= b);
}

} // verus!
