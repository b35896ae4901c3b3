//! Recurrence rules and the days they select.

use vstd::prelude::*;
use crate::dates::{
    date_of, day_from_ymd, day_number, day_weekday, in_calendar, is_date, is_leap, lemma_date_of, lemma_month_span,
    month_len, weekday_of, ymd_from_day, MAX_DAY, MAX_YEAR, MIN_DAY, MIN_YEAR,
};
use crate::ics_time::{parse_time_value, time_in_calendar, time_model, time_value, IcsTime, IcsTimeModel};
use crate::text::{
    copy_range, find_char, is_str, parse_int, parse_nat, parse_signed, parse_unsigned, position, skip_char, split,
    split_char, strip_start, to_upper, trim, trimmed, upper, views, within,
};

verus! {

/// How often a rule repeats.
#[derive(Clone, Copy, Debug, PartialEq, Eq, Structural)]
pub enum Freq {
    Secondly,
    Minutely,
    Hourly,
    Daily,
    Weekly,
    Monthly,
    Yearly,
}

#[derive(Clone, Copy, Debug, PartialEq, Eq, Structural)]
pub enum Weekday {
    Mon,
    Tue,
    Wed,
    Thu,
    Fri,
    Sat,
    Sun,
}

/// Days since Monday.
pub open spec fn weekday_number(w: Weekday) -> int {
    match w {
        Weekday::Mon => 0,
        Weekday::Tue => 1,
        Weekday::Wed => 2,
        Weekday::Thu => 3,
        Weekday::Fri => 4,
        Weekday::Sat => 5,
        Weekday::Sun => 6,
    }
}

impl Weekday {
    pub fn number(self) -> (r: u32)
        ensures
            r == weekday_number(self),
            r < 7,
    {
        match self {
            Weekday::Mon => 0,
            Weekday::Tue => 1,
            Weekday::Wed => 2,
            Weekday::Thu => 3,
            Weekday::Fri => 4,
            Weekday::Sat => 5,
            Weekday::Sun => 6,
        }
    }
}

/// The weekday of a day.
pub open spec fn weekday_at(n: int) -> Weekday {
    if n == 0 {
        Weekday::Mon
    } else if n == 1 {
        Weekday::Tue
    } else if n == 2 {
        Weekday::Wed
    } else if n == 3 {
        Weekday::Thu
    } else if n == 4 {
        Weekday::Fri
    } else if n == 5 {
        Weekday::Sat
    } else {
        Weekday::Sun
    }
}

pub fn weekday_from(n: u32) -> (r: Weekday)
    ensures
        r == weekday_at(n as int),
        n < 7 ==> weekday_number(r) == n,
{
    if n == 0 {
        Weekday::Mon
    } else if n == 1 {
        Weekday::Tue
    } else if n == 2 {
        Weekday::Wed
    } else if n == 3 {
        Weekday::Thu
    } else if n == 4 {
        Weekday::Fri
    } else if n == 5 {
        Weekday::Sat
    } else {
        Weekday::Sun
    }
}

/// A recurrence rule.
#[derive(Debug)]
pub struct RRule {
    pub freq: Freq,
    pub interval: i64,
    pub count: Option<u32>,
    pub until: Option<IcsTime>,
    pub by_second: Vec<u32>,
    pub by_minute: Vec<u32>,
    pub by_hour: Vec<u32>,
    /// Weekdays, each with which one of the month or year is meant (0: every one).
    pub by_day: Vec<(i32, Weekday)>,
    pub by_month_day: Vec<i32>,
    pub by_year_day: Vec<i32>,
    pub by_week_no: Vec<i32>,
    pub by_month: Vec<u32>,
    pub by_set_pos: Vec<i32>,
    /// The first day of a week.
    pub wkst: Weekday,
}

#[verifier::ext_equal]
pub struct RuleModel {
    pub freq: Freq,
    pub interval: int,
    pub count: Option<u32>,
    pub until: Option<IcsTimeModel>,
    pub by_second: Seq<u32>,
    pub by_minute: Seq<u32>,
    pub by_hour: Seq<u32>,
    pub by_day: Seq<(i32, Weekday)>,
    pub by_month_day: Seq<i32>,
    pub by_year_day: Seq<i32>,
    pub by_week_no: Seq<i32>,
    pub by_month: Seq<u32>,
    pub by_set_pos: Seq<i32>,
    pub wkst: Weekday,
}

impl View for RRule {
    type V = RuleModel;

    open spec fn view(&self) -> RuleModel {
        RuleModel {
            freq: self.freq,
            interval: self.interval as int,
            count: self.count,
            until: time_model(self.until),
            by_second: self.by_second@,
            by_minute: self.by_minute@,
            by_hour: self.by_hour@,
            by_day: self.by_day@,
            by_month_day: self.by_month_day@,
            by_year_day: self.by_year_day@,
            by_week_no: self.by_week_no@,
            by_month: self.by_month@,
            by_set_pos: self.by_set_pos@,
            wkst: self.wkst,
        }
    }
}

// ---------------------------------------------------------------------------
// Reading a rule
// ---------------------------------------------------------------------------

pub open spec fn weekday_named(s: Seq<char>) -> Option<Weekday> {
    let u = upper(s);
    if u == "MO"@ {
        Some(Weekday::Mon)
    } else if u == "TU"@ {
        Some(Weekday::Tue)
    } else if u == "WE"@ {
        Some(Weekday::Wed)
    } else if u == "TH"@ {
        Some(Weekday::Thu)
    } else if u == "FR"@ {
        Some(Weekday::Fri)
    } else if u == "SA"@ {
        Some(Weekday::Sat)
    } else if u == "SU"@ {
        Some(Weekday::Sun)
    } else {
        None
    }
}

/// A weekday by its two-letter name.
pub fn parse_weekday(s: &[char]) -> (r: Option<Weekday>)
    ensures
        r == weekday_named(s@),
{
    let v = to_upper(s);
    let u = v.as_slice();
    if is_str(u, "MO") {
        Some(Weekday::Mon)
    } else if is_str(u, "TU") {
        Some(Weekday::Tue)
    } else if is_str(u, "WE") {
        Some(Weekday::Wed)
    } else if is_str(u, "TH") {
        Some(Weekday::Thu)
    } else if is_str(u, "FR") {
        Some(Weekday::Fri)
    } else if is_str(u, "SA") {
        Some(Weekday::Sat)
    } else if is_str(u, "SU") {
        Some(Weekday::Sun)
    } else {
        None
    }
}

pub open spec fn freq_named(s: Seq<char>) -> Option<Freq> {
    let u = upper(s);
    if u == "SECONDLY"@ {
        Some(Freq::Secondly)
    } else if u == "MINUTELY"@ {
        Some(Freq::Minutely)
    } else if u == "HOURLY"@ {
        Some(Freq::Hourly)
    } else if u == "DAILY"@ {
        Some(Freq::Daily)
    } else if u == "WEEKLY"@ {
        Some(Freq::Weekly)
    } else if u == "MONTHLY"@ {
        Some(Freq::Monthly)
    } else if u == "YEARLY"@ {
        Some(Freq::Yearly)
    } else {
        None
    }
}

fn parse_freq(s: &[char]) -> (r: Option<Freq>)
    ensures
        r == freq_named(s@),
{
    let v = to_upper(s);
    let u = v.as_slice();
    if is_str(u, "SECONDLY") {
        Some(Freq::Secondly)
    } else if is_str(u, "MINUTELY") {
        Some(Freq::Minutely)
    } else if is_str(u, "HOURLY") {
        Some(Freq::Hourly)
    } else if is_str(u, "DAILY") {
        Some(Freq::Daily)
    } else if is_str(u, "WEEKLY") {
        Some(Freq::Weekly)
    } else if is_str(u, "MONTHLY") {
        Some(Freq::Monthly)
    } else if is_str(u, "YEARLY") {
        Some(Freq::Yearly)
    } else {
        None
    }
}

/// The unsigned numbers of a list, those that can be read.
pub open spec fn unsigned_list(parts: Seq<Seq<char>>, n: int) -> Seq<u32>
    decreases n,
{
    if n <= 0 {
        Seq::empty()
    } else {
        let before = unsigned_list(parts, n - 1);
        match within(parse_nat(strip_start(trim(parts[n - 1]), '+')), 0, u32::MAX as int) {
            Some(v) => before.push(v as u32),
            None => before,
        }
    }
}

/// The signed numbers of a list, those that can be read.
pub open spec fn signed_list(parts: Seq<Seq<char>>, n: int) -> Seq<i32>
    decreases n,
{
    if n <= 0 {
        Seq::empty()
    } else {
        let before = signed_list(parts, n - 1);
        match within(parse_int(strip_start(trim(parts[n - 1]), '+')), i32::MIN as int, i32::MAX as int) {
            Some(v) => before.push(v as i32),
            None => before,
        }
    }
}

pub open spec fn unsigned_items(s: Seq<char>) -> Seq<u32> {
    unsigned_list(split(s, ','), split(s, ',').len() as int)
}

pub open spec fn signed_items(s: Seq<char>) -> Seq<i32> {
    signed_list(split(s, ','), split(s, ',').len() as int)
}

fn parse_unsigned_items(s: &[char]) -> (r: Vec<u32>)
    ensures
        r@ == unsigned_items(s@),
{
    let parts = split_char(s, ',');
    let ghost pv = views(parts@);
    let mut out: Vec<u32> = Vec::new();
    let mut i: usize = 0;
    while i < parts.len()
        invariant
            i <= parts.len(),
            pv == views(parts@),
            out@ == unsigned_list(pv, i as int),
        decreases parts.len() - i,
    {
        proof {
            assert(pv[i as int] == parts@[i as int]@);
        }
        let t = trimmed(parts[i].as_slice());
        let k: usize = skip_char(t.as_slice(), '+');
        let u = copy_range(t.as_slice(), k, t.len());
        match parse_unsigned(u.as_slice(), u32::MAX as u64) {
            Some(v) => out.push(v as u32),
            None => {},
        }
        i = i + 1;
    }
    out
}

fn parse_signed_items(s: &[char]) -> (r: Vec<i32>)
    ensures
        r@ == signed_items(s@),
{
    let parts = split_char(s, ',');
    let ghost pv = views(parts@);
    let mut out: Vec<i32> = Vec::new();
    let mut i: usize = 0;
    while i < parts.len()
        invariant
            i <= parts.len(),
            pv == views(parts@),
            out@ == signed_list(pv, i as int),
        decreases parts.len() - i,
    {
        proof {
            assert(pv[i as int] == parts@[i as int]@);
        }
        let t = trimmed(parts[i].as_slice());
        let k: usize = skip_char(t.as_slice(), '+');
        let u = copy_range(t.as_slice(), k, t.len());
        match parse_signed(u.as_slice(), i32::MAX as i64) {
            Some(v) => out.push(v as i32),
            None => {},
        }
        i = i + 1;
    }
    out
}

/// One weekday of a list: an optional number, then the two letters of the weekday.
pub open spec fn day_item(part: Seq<char>) -> Option<(i32, Weekday)> {
    let s = trim(part);
    if s.len() < 2 {
        None
    } else {
        match weekday_named(s.subrange(s.len() - 2, s.len() as int)) {
            None => None,
            Some(w) => {
                let num = strip_start(s.subrange(0, s.len() - 2), '+');
                match within(parse_int(num), i32::MIN as int, i32::MAX as int) {
                    Some(n) => Some((n as i32, w)),
                    None => Some((0i32, w)),
                }
            },
        }
    }
}

pub open spec fn day_list(parts: Seq<Seq<char>>, n: int) -> Seq<(i32, Weekday)>
    decreases n,
{
    if n <= 0 {
        Seq::empty()
    } else {
        let before = day_list(parts, n - 1);
        match day_item(parts[n - 1]) {
            Some(d) => before.push(d),
            None => before,
        }
    }
}

pub open spec fn day_items(s: Seq<char>) -> Seq<(i32, Weekday)> {
    day_list(split(s, ','), split(s, ',').len() as int)
}

fn parse_day_item(part: &[char]) -> (r: Option<(i32, Weekday)>)
    ensures
        r == day_item(part@),
{
    let v = trimmed(part);
    let s = v.as_slice();
    if s.len() < 2 {
        return None;
    }
    let name = copy_range(s, s.len() - 2, s.len());
    match parse_weekday(name.as_slice()) {
        None => None,
        Some(w) => {
            let head = copy_range(s, 0, s.len() - 2);
            let k: usize = skip_char(head.as_slice(), '+');
            let num = copy_range(head.as_slice(), k, head.len());
            match parse_signed(num.as_slice(), i32::MAX as i64) {
                Some(n) => Some((n as i32, w)),
                None => Some((0, w)),
            }
        },
    }
}

fn parse_day_items(s: &[char]) -> (r: Vec<(i32, Weekday)>)
    ensures
        r@ == day_items(s@),
{
    let parts = split_char(s, ',');
    let ghost pv = views(parts@);
    let mut out: Vec<(i32, Weekday)> = Vec::new();
    let mut i: usize = 0;
    while i < parts.len()
        invariant
            i <= parts.len(),
            pv == views(parts@),
            out@ == day_list(pv, i as int),
        decreases parts.len() - i,
    {
        proof {
            assert(pv[i as int] == parts@[i as int]@);
        }
        match parse_day_item(parts[i].as_slice()) {
            Some(d) => out.push(d),
            None => {},
        }
        i = i + 1;
    }
    out
}

/// A rule while it is read: nothing yet said but that it repeats daily.
pub open spec fn blank_rule() -> RuleModel {
    RuleModel {
        freq: Freq::Daily,
        interval: 1,
        count: None,
        until: None,
        by_second: Seq::empty(),
        by_minute: Seq::empty(),
        by_hour: Seq::empty(),
        by_day: Seq::empty(),
        by_month_day: Seq::empty(),
        by_year_day: Seq::empty(),
        by_week_no: Seq::empty(),
        by_month: Seq::empty(),
        by_set_pos: Seq::empty(),
        wkst: Weekday::Mon,
    }
}

pub open spec fn interval_of(val: Seq<char>) -> int {
    match within(parse_int(val), i64::MIN as int, i64::MAX as int) {
        Some(n) => if n < 1 {
            1
        } else {
            n
        },
        None => 1,
    }
}

/// The rule after one more part, and whether its frequency was given. Only an
/// unknown frequency makes the whole rule unreadable.
pub open spec fn rule_part(m: RuleModel, have: bool, part: Seq<char>) -> Option<(RuleModel, bool)> {
    let e = position(part, '=', 0);
    if e >= part.len() {
        Some((m, have))
    } else {
        let key = upper(trim(part.subrange(0, e)));
        let val = trim(part.subrange(e + 1, part.len() as int));
        if key == "FREQ"@ {
            match freq_named(val) {
                Some(freq) => Some((RuleModel { freq, ..m }, true)),
                None => None,
            }
        } else if key == "INTERVAL"@ {
            Some((RuleModel { interval: interval_of(val), ..m }, have))
        } else if key == "COUNT"@ {
            Some(
                (
                    RuleModel {
                        count: match within(parse_nat(val), 0, u32::MAX as int) {
                            Some(n) => Some(n as u32),
                            None => None,
                        },
                        ..m
                    },
                    have,
                ),
            )
        } else if key == "UNTIL"@ {
            Some((RuleModel { until: time_value(val, None, false), ..m }, have))
        } else if key == "BYSECOND"@ {
            Some((RuleModel { by_second: unsigned_items(val), ..m }, have))
        } else if key == "BYMINUTE"@ {
            Some((RuleModel { by_minute: unsigned_items(val), ..m }, have))
        } else if key == "BYHOUR"@ {
            Some((RuleModel { by_hour: unsigned_items(val), ..m }, have))
        } else if key == "BYMONTHDAY"@ {
            Some((RuleModel { by_month_day: signed_items(val), ..m }, have))
        } else if key == "BYYEARDAY"@ {
            Some((RuleModel { by_year_day: signed_items(val), ..m }, have))
        } else if key == "BYWEEKNO"@ {
            Some((RuleModel { by_week_no: signed_items(val), ..m }, have))
        } else if key == "BYMONTH"@ {
            Some((RuleModel { by_month: unsigned_items(val), ..m }, have))
        } else if key == "BYSETPOS"@ {
            Some((RuleModel { by_set_pos: signed_items(val), ..m }, have))
        } else if key == "WKST"@ {
            Some(
                (
                    RuleModel {
                        wkst: match weekday_named(val) {
                            Some(w) => w,
                            None => Weekday::Mon,
                        },
                        ..m
                    },
                    have,
                ),
            )
        } else if key == "BYDAY"@ {
            Some((RuleModel { by_day: m.by_day + day_items(val), ..m }, have))
        } else {
            Some((m, have))
        }
    }
}

pub open spec fn rule_first(parts: Seq<Seq<char>>, n: int) -> Option<(RuleModel, bool)>
    decreases n,
{
    if n <= 0 {
        Some((blank_rule(), false))
    } else {
        match rule_first(parts, n - 1) {
            Some((m, have)) => rule_part(m, have, parts[n - 1]),
            None => None,
        }
    }
}

/// The rule that a text spells; one without a frequency is none.
pub open spec fn rule_of(v: Seq<char>) -> Option<RuleModel> {
    let parts = split(trim(v), ';');
    match rule_first(parts, parts.len() as int) {
        Some((m, have)) => if have {
            Some(m)
        } else {
            None
        },
        None => None,
    }
}

proof fn lemma_rule_first_none(parts: Seq<Seq<char>>, n: int, k: int)
    requires
        n <= k,
        rule_first(parts, n) is None,
    ensures
        rule_first(parts, k) is None,
    decreases k - n,
{
    if n < k {
        lemma_rule_first_none(parts, n, k - 1);
    }
}

/// Applies one part to a rule; `None` where its frequency is unknown, else whether
/// the frequency is given by now.
fn apply_part(r: &mut RRule, have: bool, part: &[char]) -> (ok: Option<bool>)
    requires
        old(r)@.until matches Some(t) ==> time_in_calendar(t),
    ensures
        match ok {
            Some(h) => rule_part(old(r)@, have, part@) == Some((final(r)@, h)),
            None => rule_part(old(r)@, have, part@) is None,
        },
        final(r)@.until matches Some(t) ==> time_in_calendar(t),
{
    let e: usize = find_char(part, '=', 0);
    if e >= part.len() {
        return Some(have);
    }
    let raw_key = copy_range(part, 0, e);
    let trimmed_key = trimmed(raw_key.as_slice());
    let key_text = to_upper(trimmed_key.as_slice());
    let key = key_text.as_slice();
    let raw_val = copy_range(part, e + 1, part.len());
    let val_text = trimmed(raw_val.as_slice());
    let val = val_text.as_slice();
    if is_str(key, "FREQ") {
        match parse_freq(val) {
            Some(f) => {
                r.freq = f;
                return Some(true);
            },
            None => {
                return None;
            },
        }
    }
    if is_str(key, "INTERVAL") {
        r.interval = match parse_signed(val, i64::MAX) {
            Some(n) => if n < 1 {
                1
            } else {
                n
            },
            None => 1,
        };
    } else if is_str(key, "COUNT") {
        r.count = match parse_unsigned(val, u32::MAX as u64) {
            Some(n) => Some(n as u32),
            None => None,
        };
    } else if is_str(key, "UNTIL") {
        r.until = parse_time_value(val, None, false);
    } else if is_str(key, "BYSECOND") {
        r.by_second = parse_unsigned_items(val);
    } else if is_str(key, "BYMINUTE") {
        r.by_minute = parse_unsigned_items(val);
    } else if is_str(key, "BYHOUR") {
        r.by_hour = parse_unsigned_items(val);
    } else if is_str(key, "BYMONTHDAY") {
        r.by_month_day = parse_signed_items(val);
    } else if is_str(key, "BYYEARDAY") {
        r.by_year_day = parse_signed_items(val);
    } else if is_str(key, "BYWEEKNO") {
        r.by_week_no = parse_signed_items(val);
    } else if is_str(key, "BYMONTH") {
        r.by_month = parse_unsigned_items(val);
    } else if is_str(key, "BYSETPOS") {
        r.by_set_pos = parse_signed_items(val);
    } else if is_str(key, "WKST") {
        r.wkst = match parse_weekday(val) {
            Some(w) => w,
            None => Weekday::Mon,
        };
    } else if is_str(key, "BYDAY") {
        let mut days = parse_day_items(val);
        r.by_day.append(&mut days);
    }
    Some(have)
}

pub open spec fn rule_model(r: Option<RRule>) -> Option<RuleModel> {
    match r {
        Some(x) => Some(x@),
        None => None,
    }
}

/// Reads a recurrence rule.
pub fn parse_rrule(v: &[char]) -> (r: Option<RRule>)
    ensures
        rule_model(r) == rule_of(v@),
        r matches Some(x) ==> (x@.until matches Some(t) ==> time_in_calendar(t)),
{
    let t = trimmed(v);
    let parts = split_char(t.as_slice(), ';');
    let ghost pv = views(parts@);
    let mut rule = RRule {
        freq: Freq::Daily,
        interval: 1,
        count: None,
        until: None,
        by_second: Vec::new(),
        by_minute: Vec::new(),
        by_hour: Vec::new(),
        by_day: Vec::new(),
        by_month_day: Vec::new(),
        by_year_day: Vec::new(),
        by_week_no: Vec::new(),
        by_month: Vec::new(),
        by_set_pos: Vec::new(),
        wkst: Weekday::Mon,
    };
    let mut have: bool = false;
    let mut i: usize = 0;
    while i < parts.len()
        invariant
            i <= parts.len(),
            pv == views(parts@),
            pv == split(trim(v@), ';'),
            rule_first(pv, i as int) == Some((rule@, have)),
            rule@.until matches Some(t) ==> time_in_calendar(t),
        decreases parts.len() - i,
    {
        proof {
            assert(pv[i as int] == parts@[i as int]@);
        }
        match apply_part(&mut rule, have, parts[i].as_slice()) {
            Some(h) => {
                have = h;
            },
            None => {
                proof {
                    lemma_rule_first_none(pv, i + 1, pv.len() as int);
                }
                return None;
            },
        }
        i = i + 1;
    }
    if have {
        Some(rule)
    } else {
        None
    }
}

// ---------------------------------------------------------------------------
// Which days a rule selects
// ---------------------------------------------------------------------------

/// How many days a month has. The last month of the calendar counts 30.
pub open spec fn days_in_month_of(y: int, m: int) -> int {
    if MIN_YEAR <= y <= MAX_YEAR && !(y == MAX_YEAR && m == 12) {
        month_len(y, m)
    } else {
        30
    }
}

pub open spec fn days_in_year_of(y: int) -> int {
    if MIN_YEAR <= y <= MAX_YEAR && is_leap(y) {
        366
    } else {
        365
    }
}

pub fn days_in_month(y: i64, m: u32) -> (r: u32)
    requires
        1 <= m <= 12,
    ensures
        r == days_in_month_of(y as int, m as int),
        28 <= r <= 31,
{
    if y < MIN_YEAR || y > MAX_YEAR {
        return 30;
    }
    proof {
        lemma_month_span(y as int, m as int);
    }
    if m == 12 {
        match (day_from_ymd(y + 1, 1, 1), day_from_ymd(y, 12, 1)) {
            (Some(a), Some(b)) => (a - b) as u32,
            _ => 30,
        }
    } else {
        match (day_from_ymd(y, m + 1, 1), day_from_ymd(y, m, 1)) {
            (Some(a), Some(b)) => (a - b) as u32,
            _ => 30,
        }
    }
}

pub fn days_in_year(y: i64) -> (r: u32)
    ensures
        r == days_in_year_of(y as int),
{
    match day_from_ymd(y, 2, 29) {
        Some(_) => 366,
        None => 365,
    }
}

/// The first day of week 1 of a year: the first week with at least four days in
/// that year.
pub open spec fn week1(y: int, wkst: Weekday) -> int {
    let jan1 = if MIN_YEAR <= y <= MAX_YEAR {
        day_number(y, 1, 1)
    } else {
        MIN_DAY as int
    };
    let offset = (weekday_of(jan1) + 7 - weekday_number(wkst)) % 7;
    if offset <= 3 {
        jan1 - offset
    } else {
        jan1 + 7 - offset
    }
}

pub fn week1_start(y: i64, wkst: Weekday) -> (r: i64)
    ensures
        r == week1(y as int, wkst),
        MIN_DAY - 7 <= r <= MAX_DAY + 7,
{
    let jan1: i64 = match day_from_ymd(y, 1, 1) {
        Some(n) => n,
        None => MIN_DAY,
    };
    let offset: u32 = (day_weekday(jan1) + 7 - wkst.number()) % 7;
    if offset <= 3 {
        jan1 - offset as i64
    } else {
        jan1 + 7 - offset as i64
    }
}

/// The conditions that a rule puts on a day.
#[derive(Debug)]
pub struct DayFilter {
    pub freq: Freq,
    pub by_month: Vec<u32>,
    pub by_week_no: Vec<i32>,
    pub by_year_day: Vec<i32>,
    pub by_month_day: Vec<i32>,
    pub by_day: Vec<(i32, Weekday)>,
    pub wkst: Weekday,
}

#[verifier::ext_equal]
pub struct FilterModel {
    pub freq: Freq,
    pub by_month: Seq<u32>,
    pub by_week_no: Seq<i32>,
    pub by_year_day: Seq<i32>,
    pub by_month_day: Seq<i32>,
    pub by_day: Seq<(i32, Weekday)>,
    pub wkst: Weekday,
}

impl View for DayFilter {
    type V = FilterModel;

    open spec fn view(&self) -> FilterModel {
        FilterModel {
            freq: self.freq,
            by_month: self.by_month@,
            by_week_no: self.by_week_no@,
            by_year_day: self.by_year_day@,
            by_month_day: self.by_month_day@,
            by_day: self.by_day@,
            wkst: self.wkst,
        }
    }
}

/// Whether a list names a position, counted from the front or, below zero, from
/// the end of `len` positions.
pub open spec fn names_position(list: Seq<i32>, pos: int, len: int) -> bool {
    exists|i: int| 0 <= i < list.len() && (#[trigger] list[i] == pos || (list[i] < 0 && len + list[i] + 1 == pos))
}

/// The year that a day's week belongs to.
pub open spec fn week_year(n: int, wkst: Weekday) -> int {
    let y = date_of(n).0;
    if n >= week1(y + 1, wkst) {
        y + 1
    } else if n < week1(y, wkst) {
        y - 1
    } else {
        y
    }
}

pub open spec fn week_ok(list: Seq<i32>, n: int, wkst: Weekday) -> bool {
    let y = week_year(n, wkst);
    let start = week1(y, wkst);
    names_position(list, (n - start) / 7 + 1, (week1(y + 1, wkst) - start) / 7)
}

/// Whether a weekday's number fits a day: the n-th one of the month, or of the
/// year for a yearly rule without months, from either end.
pub open spec fn ordinal_ok(f: FilterModel, k: i32, n: int) -> bool {
    let (y, m, d) = date_of(n);
    let in_month = f.freq == Freq::Monthly || f.by_month.len() > 0;
    let pos = if in_month {
        d
    } else {
        n - day_number(y, 1, 1) + 1
    };
    let len = if in_month {
        days_in_month_of(y, m)
    } else {
        days_in_year_of(y)
    };
    let left = if len >= pos {
        (len - pos) / 7
    } else {
        0
    };
    ||| k == 0
    ||| !(f.freq == Freq::Monthly || f.freq == Freq::Yearly)
    ||| k == (pos - 1) / 7 + 1
    ||| k == -(left + 1)
}

pub open spec fn weekday_ok(f: FilterModel, n: int) -> bool {
    exists|i: int|
        0 <= i < f.by_day.len() && (#[trigger] f.by_day[i]).1 == weekday_at(weekday_of(n)) && ordinal_ok(
            f,
            f.by_day[i].0,
            n,
        )
}

/// Whether a day meets every condition of a filter.
pub open spec fn day_matches(f: FilterModel, n: int) -> bool {
    let (y, m, d) = date_of(n);
    &&& in_calendar(n)
    &&& f.by_month.len() == 0 || f.by_month.contains(m as u32)
    &&& f.by_week_no.len() == 0 || week_ok(f.by_week_no, n, f.wkst)
    &&& f.by_year_day.len() == 0 || names_position(f.by_year_day, n - day_number(y, 1, 1) + 1, days_in_year_of(y))
    &&& f.by_month_day.len() == 0 || names_position(f.by_month_day, d, days_in_month_of(y, m))
    &&& f.by_day.len() == 0 || weekday_ok(f, n)
}

pub fn has_u32(list: &Vec<u32>, x: u32) -> (r: bool)
    ensures
        r == list@.contains(x),
{
    let mut i: usize = 0;
    while i < list.len()
        invariant
            i <= list.len(),
            forall|j: int| 0 <= j < i ==> list@[j] != x,
        decreases list.len() - i,
    {
        if list[i] == x {
            return true;
        }
        i = i + 1;
    }
    false
}

fn lists_position(list: &Vec<i32>, pos: i64, len: i64) -> (r: bool)
    requires
        -1_000_000_000_000 <= len <= 1_000_000_000_000,
    ensures
        r == names_position(list@, pos as int, len as int),
{
    let mut i: usize = 0;
    while i < list.len()
        invariant
            i <= list.len(),
            -1_000_000_000_000 <= len <= 1_000_000_000_000,
            forall|j: int| 0 <= j < i ==> !(#[trigger] list@[j] == pos || (list@[j] < 0 && len + list@[j] + 1 == pos)),
        decreases list.len() - i,
    {
        let x: i64 = list[i] as i64;
        if x == pos || (x < 0 && len + x + 1 == pos) {
            return true;
        }
        i = i + 1;
    }
    false
}

impl DayFilter {
    fn week_matches(&self, n: i64, y: i64) -> (r: bool)
        requires
            in_calendar(n as int),
            date_of(n as int).0 == y,
            MIN_YEAR <= y <= MAX_YEAR,
        ensures
            r == week_ok(self@.by_week_no, n as int, self@.wkst),
    {
        let mut wy: i64 = y;
        if n >= week1_start(y + 1, self.wkst) {
            wy = y + 1;
        } else if n < week1_start(y, self.wkst) {
            wy = y - 1;
        }
        let start: i64 = week1_start(wy, self.wkst);
        let next: i64 = week1_start(wy + 1, self.wkst);
        let shift: i64 = 700_000_000;
        let week: i64 = (n - start + shift) / 7 - shift / 7 + 1;
        let weeks: i64 = (next - start + shift) / 7 - shift / 7;
        lists_position(&self.by_week_no, week, weeks)
    }

    fn weekday_matches(&self, n: i64, y: i64, m: u32, d: u32) -> (r: bool)
        requires
            in_calendar(n as int),
            date_of(n as int) == (y as int, m as int, d as int),
            is_date(y as int, m as int, d as int),
            n == day_number(y as int, m as int, d as int),
            MIN_YEAR <= y <= MAX_YEAR,
        ensures
            r == weekday_ok(self@, n as int),
    {
        let in_month: bool = self.freq == Freq::Monthly || self.by_month.len() > 0;
        let counted: bool = self.freq == Freq::Monthly || self.freq == Freq::Yearly;
        let jan1: i64 = match day_from_ymd(y, 1, 1) {
            Some(j) => j,
            None => n,
        };
        let pos: i64 = if in_month {
            d as i64
        } else {
            n - jan1 + 1
        };
        let len: i64 = if in_month {
            days_in_month(y, m) as i64
        } else {
            days_in_year(y) as i64
        };
        let fwd: i64 = (pos - 1) / 7 + 1;
        let left: i64 = if len >= pos {
            (len - pos) / 7
        } else {
            0
        };
        let w = weekday_from(day_weekday(n));
        let mut i: usize = 0;
        while i < self.by_day.len()
            invariant
                i <= self.by_day.len(),
                counted == (self.freq == Freq::Monthly || self.freq == Freq::Yearly),
                w == weekday_at(weekday_of(n as int)),
                0 <= left <= 1000,
                forall|k: i32|
                    #[trigger] ordinal_ok(self@, k, n as int) == (k == 0 || !counted || k == fwd || k == -(left + 1)),
                forall|j: int|
                    0 <= j < i ==> !((#[trigger] self@.by_day[j]).1 == weekday_at(weekday_of(n as int))
                        && ordinal_ok(self@, self@.by_day[j].0, n as int)),
            decreases self.by_day.len() - i,
        {
            let (k, wd) = self.by_day[i];
            proof {
                assert(self@.by_day[i as int] == (k, wd));
                assert(ordinal_ok(self@, k, n as int) == (k == 0 || !counted || k == fwd || k == -(left + 1)));
            }
            if wd == w && (k == 0 || !counted || k as i64 == fwd || k as i64 == -(left + 1)) {
                return true;
            }
            i = i + 1;
        }
        false
    }

    /// Whether a day meets every condition.
    pub fn matches(&self, n: i64) -> (r: bool)
        ensures
            r == day_matches(self@, n as int),
    {
        let (y, m, d) = match ymd_from_day(n) {
            Some(t) => t,
            None => {
                return false;
            },
        };
        if self.by_month.len() > 0 && !has_u32(&self.by_month, m) {
            return false;
        }
        if self.by_week_no.len() > 0 && !self.week_matches(n, y) {
            return false;
        }
        if self.by_year_day.len() > 0 {
            let jan1: i64 = match day_from_ymd(y, 1, 1) {
                Some(j) => j,
                None => n,
            };
            if !lists_position(&self.by_year_day, n - jan1 + 1, days_in_year(y) as i64) {
                return false;
            }
        }
        if self.by_month_day.len() > 0 && !lists_position(
            &self.by_month_day,
            d as i64,
            days_in_month(y, m) as i64,
        ) {
            return false;
        }
        if self.by_day.len() > 0 && !self.weekday_matches(n, y, m, d) {
            return false;
        }
        true
    }
}

// ---------------------------------------------------------------------------
// What the parts of a rule mean
// ---------------------------------------------------------------------------

/// Each weekday by its two letters, in either case, and each frequency by its word.
pub proof fn law_names_in_rules(s: Seq<char>)
    ensures
        (weekday_named(s) == Some(Weekday::Mon)) == (upper(s) == "MO"@),
        (weekday_named(s) == Some(Weekday::Tue)) == (upper(s) == "TU"@),
        (weekday_named(s) == Some(Weekday::Wed)) == (upper(s) == "WE"@),
        (weekday_named(s) == Some(Weekday::Thu)) == (upper(s) == "TH"@),
        (weekday_named(s) == Some(Weekday::Fri)) == (upper(s) == "FR"@),
        (weekday_named(s) == Some(Weekday::Sat)) == (upper(s) == "SA"@),
        (weekday_named(s) == Some(Weekday::Sun)) == (upper(s) == "SU"@),
        (freq_named(s) == Some(Freq::Secondly)) == (upper(s) == "SECONDLY"@),
        (freq_named(s) == Some(Freq::Minutely)) == (upper(s) == "MINUTELY"@),
        (freq_named(s) == Some(Freq::Hourly)) == (upper(s) == "HOURLY"@),
        (freq_named(s) == Some(Freq::Daily)) == (upper(s) == "DAILY"@),
        (freq_named(s) == Some(Freq::Weekly)) == (upper(s) == "WEEKLY"@),
        (freq_named(s) == Some(Freq::Monthly)) == (upper(s) == "MONTHLY"@),
        (freq_named(s) == Some(Freq::Yearly)) == (upper(s) == "YEARLY"@),
{
    reveal_strlit("MO");
    assert("MO"@.len() == 2 && "MO"@[0] == 'M' && "MO"@[1] == 'O');
    reveal_strlit("TU");
    assert("TU"@.len() == 2 && "TU"@[0] == 'T' && "TU"@[1] == 'U');
    reveal_strlit("WE");
    assert("WE"@.len() == 2 && "WE"@[0] == 'W' && "WE"@[1] == 'E');
    reveal_strlit("TH");
    assert("TH"@.len() == 2 && "TH"@[0] == 'T' && "TH"@[1] == 'H');
    reveal_strlit("FR");
    assert("FR"@.len() == 2 && "FR"@[0] == 'F' && "FR"@[1] == 'R');
    reveal_strlit("SA");
    assert("SA"@.len() == 2 && "SA"@[0] == 'S' && "SA"@[1] == 'A');
    reveal_strlit("SU");
    assert("SU"@.len() == 2 && "SU"@[0] == 'S' && "SU"@[1] == 'U');
    reveal_strlit("SECONDLY");
    assert("SECONDLY"@.len() == 8 && "SECONDLY"@[0] == 'S' && "SECONDLY"@[1] == 'E' && "SECONDLY"@[2] == 'C' && "SECONDLY"@[3] == 'O' && "SECONDLY"@[4] == 'N' && "SECONDLY"@[5] == 'D' && "SECONDLY"@[6] == 'L' && "SECONDLY"@[7] == 'Y');
    reveal_strlit("MINUTELY");
    assert("MINUTELY"@.len() == 8 && "MINUTELY"@[0] == 'M' && "MINUTELY"@[1] == 'I' && "MINUTELY"@[2] == 'N' && "MINUTELY"@[3] == 'U' && "MINUTELY"@[4] == 'T' && "MINUTELY"@[5] == 'E' && "MINUTELY"@[6] == 'L' && "MINUTELY"@[7] == 'Y');
    reveal_strlit("HOURLY");
    assert("HOURLY"@.len() == 6 && "HOURLY"@[0] == 'H' && "HOURLY"@[1] == 'O' && "HOURLY"@[2] == 'U' && "HOURLY"@[3] == 'R' && "HOURLY"@[4] == 'L' && "HOURLY"@[5] == 'Y');
    reveal_strlit("DAILY");
    assert("DAILY"@.len() == 5 && "DAILY"@[0] == 'D' && "DAILY"@[1] == 'A' && "DAILY"@[2] == 'I' && "DAILY"@[3] == 'L' && "DAILY"@[4] == 'Y');
    reveal_strlit("WEEKLY");
    assert("WEEKLY"@.len() == 6 && "WEEKLY"@[0] == 'W' && "WEEKLY"@[1] == 'E' && "WEEKLY"@[2] == 'E' && "WEEKLY"@[3] == 'K' && "WEEKLY"@[4] == 'L' && "WEEKLY"@[5] == 'Y');
    reveal_strlit("MONTHLY");
    assert("MONTHLY"@.len() == 7 && "MONTHLY"@[0] == 'M' && "MONTHLY"@[1] == 'O' && "MONTHLY"@[2] == 'N' && "MONTHLY"@[3] == 'T' && "MONTHLY"@[4] == 'H' && "MONTHLY"@[5] == 'L' && "MONTHLY"@[6] == 'Y');
    reveal_strlit("YEARLY");
    assert("YEARLY"@.len() == 6 && "YEARLY"@[0] == 'Y' && "YEARLY"@[1] == 'E' && "YEARLY"@[2] == 'A' && "YEARLY"@[3] == 'R' && "YEARLY"@[4] == 'L' && "YEARLY"@[5] == 'Y');
}

/// The weekdays of the calendar: 15 June 2026 is a Monday, and so is every day whole weeks from
/// it; the days behind each are the other six in their order.
pub proof fn law_weekdays_of_the_calendar(k: int)
    ensures
        ({
            let monday = day_number(2026, 6, 15) + 7 * k;
            &&& weekday_at(weekday_of(monday + 0)) == Weekday::Mon
            &&& weekday_at(weekday_of(monday + 1)) == Weekday::Tue
            &&& weekday_at(weekday_of(monday + 2)) == Weekday::Wed
            &&& weekday_at(weekday_of(monday + 3)) == Weekday::Thu
            &&& weekday_at(weekday_of(monday + 4)) == Weekday::Fri
            &&& weekday_at(weekday_of(monday + 5)) == Weekday::Sat
            &&& weekday_at(weekday_of(monday + 6)) == Weekday::Sun
        }),
{
    assert(day_number(2026, 6, 15) == 739_782);
}

/// Each part of a rule sets what it names, and nothing else; white space round it does not
/// matter, nor does the case of its name. A part with a name that is not known, or without
/// any, changes nothing.
pub proof fn law_parts_of_rules(m: RuleModel, have: bool, name: Seq<char>, val: Seq<char>)
    requires
        !name.contains('='),
    ensures
        ({
            let key = upper(trim(name));
            let v = trim(val);
            let r = rule_part(m, have, name + seq!['='] + val);
            &&& key == "INTERVAL"@ ==> r == Some((RuleModel { interval: interval_of(v), ..m }, have))
            &&& key == "BYSECOND"@ ==> r == Some((RuleModel { by_second: unsigned_items(v), ..m }, have))
            &&& key == "BYMINUTE"@ ==> r == Some((RuleModel { by_minute: unsigned_items(v), ..m }, have))
            &&& key == "BYHOUR"@ ==> r == Some((RuleModel { by_hour: unsigned_items(v), ..m }, have))
            &&& key == "BYMONTHDAY"@ ==> r == Some((RuleModel { by_month_day: signed_items(v), ..m }, have))
            &&& key == "BYYEARDAY"@ ==> r == Some((RuleModel { by_year_day: signed_items(v), ..m }, have))
            &&& key == "BYWEEKNO"@ ==> r == Some((RuleModel { by_week_no: signed_items(v), ..m }, have))
            &&& key == "BYMONTH"@ ==> r == Some((RuleModel { by_month: unsigned_items(v), ..m }, have))
            &&& key == "BYSETPOS"@ ==> r == Some((RuleModel { by_set_pos: signed_items(v), ..m }, have))
            &&& key == "BYDAY"@ ==> r == Some((RuleModel { by_day: m.by_day + day_items(v), ..m }, have))
            &&& key == "UNTIL"@ ==> r == Some((RuleModel { until: time_value(v, None, false), ..m }, have))
            &&& key == "FREQ"@ ==> r == (match freq_named(v) {
                Some(freq) => Some((RuleModel { freq, ..m }, true)),
                None => None,
            })
            &&& key == "COUNT"@ ==> (r matches Some((x, h)) && h == have && x == (RuleModel { count: x.count, ..m }) && (
            forall|n: int| 0 <= n <= u32::MAX && v == #[trigger] crate::text::decimal(n) ==> x.count == Some(n as u32)))
            &&& key == "WKST"@ ==> (r matches Some((x, h)) && h == have && x == (RuleModel { wkst: x.wkst, ..m }) && (
            weekday_named(v) matches Some(w) ==> x.wkst == w) && (weekday_named(v) is None ==> x.wkst == Weekday::Mon))
        }),
        rule_part(m, have, name) == Some((m, have)),
{
    let part = name + seq!['='] + val;
    let e = position(part, '=', 0);
    crate::text::lemma_position(part, '=', 0);
    crate::text::lemma_position(name, '=', 0);
    if position(name, '=', 0) < name.len() {
        assert(name.contains(name[position(name, '=', 0)]));
    }
    if e < name.len() {
        assert(part[e] == name[e]);
        assert(name.contains(name[e]));
    }
    assert(part[name.len() as int] == '=');
    assert(e == name.len());
    assert(part.subrange(0, e) =~= name);
    assert(part.subrange(e + 1, part.len() as int) =~= val);
    assert forall|n: int| 0 <= n <= u32::MAX implies parse_nat(#[trigger] crate::text::decimal(n)) == Some(n) by {
        crate::text::law_decimal_round_trip(n);
    }
    reveal_strlit("FREQ");
    assert("FREQ"@.len() == 4 && "FREQ"@[0] == 'F' && "FREQ"@[1] == 'R' && "FREQ"@[2] == 'E' && "FREQ"@[3] == 'Q');
    reveal_strlit("INTERVAL");
    assert("INTERVAL"@.len() == 8 && "INTERVAL"@[0] == 'I' && "INTERVAL"@[1] == 'N' && "INTERVAL"@[2] == 'T' && "INTERVAL"@[3] == 'E' && "INTERVAL"@[4] == 'R' && "INTERVAL"@[5] == 'V' && "INTERVAL"@[6] == 'A' && "INTERVAL"@[7] == 'L');
    reveal_strlit("COUNT");
    assert("COUNT"@.len() == 5 && "COUNT"@[0] == 'C' && "COUNT"@[1] == 'O' && "COUNT"@[2] == 'U' && "COUNT"@[3] == 'N' && "COUNT"@[4] == 'T');
    reveal_strlit("UNTIL");
    assert("UNTIL"@.len() == 5 && "UNTIL"@[0] == 'U' && "UNTIL"@[1] == 'N' && "UNTIL"@[2] == 'T' && "UNTIL"@[3] == 'I' && "UNTIL"@[4] == 'L');
    reveal_strlit("BYSECOND");
    assert("BYSECOND"@.len() == 8 && "BYSECOND"@[0] == 'B' && "BYSECOND"@[1] == 'Y' && "BYSECOND"@[2] == 'S' && "BYSECOND"@[3] == 'E' && "BYSECOND"@[4] == 'C' && "BYSECOND"@[5] == 'O' && "BYSECOND"@[6] == 'N' && "BYSECOND"@[7] == 'D');
    reveal_strlit("BYMINUTE");
    assert("BYMINUTE"@.len() == 8 && "BYMINUTE"@[0] == 'B' && "BYMINUTE"@[1] == 'Y' && "BYMINUTE"@[2] == 'M' && "BYMINUTE"@[3] == 'I' && "BYMINUTE"@[4] == 'N' && "BYMINUTE"@[5] == 'U' && "BYMINUTE"@[6] == 'T' && "BYMINUTE"@[7] == 'E');
    reveal_strlit("BYHOUR");
    assert("BYHOUR"@.len() == 6 && "BYHOUR"@[0] == 'B' && "BYHOUR"@[1] == 'Y' && "BYHOUR"@[2] == 'H' && "BYHOUR"@[3] == 'O' && "BYHOUR"@[4] == 'U' && "BYHOUR"@[5] == 'R');
    reveal_strlit("BYMONTHDAY");
    assert("BYMONTHDAY"@.len() == 10 && "BYMONTHDAY"@[0] == 'B' && "BYMONTHDAY"@[1] == 'Y' && "BYMONTHDAY"@[2] == 'M' && "BYMONTHDAY"@[3] == 'O' && "BYMONTHDAY"@[4] == 'N' && "BYMONTHDAY"@[5] == 'T' && "BYMONTHDAY"@[6] == 'H' && "BYMONTHDAY"@[7] == 'D' && "BYMONTHDAY"@[8] == 'A' && "BYMONTHDAY"@[9] == 'Y');
    reveal_strlit("BYYEARDAY");
    assert("BYYEARDAY"@.len() == 9 && "BYYEARDAY"@[0] == 'B' && "BYYEARDAY"@[1] == 'Y' && "BYYEARDAY"@[2] == 'Y' && "BYYEARDAY"@[3] == 'E' && "BYYEARDAY"@[4] == 'A' && "BYYEARDAY"@[5] == 'R' && "BYYEARDAY"@[6] == 'D' && "BYYEARDAY"@[7] == 'A' && "BYYEARDAY"@[8] == 'Y');
    reveal_strlit("BYWEEKNO");
    assert("BYWEEKNO"@.len() == 8 && "BYWEEKNO"@[0] == 'B' && "BYWEEKNO"@[1] == 'Y' && "BYWEEKNO"@[2] == 'W' && "BYWEEKNO"@[3] == 'E' && "BYWEEKNO"@[4] == 'E' && "BYWEEKNO"@[5] == 'K' && "BYWEEKNO"@[6] == 'N' && "BYWEEKNO"@[7] == 'O');
    reveal_strlit("BYMONTH");
    assert("BYMONTH"@.len() == 7 && "BYMONTH"@[0] == 'B' && "BYMONTH"@[1] == 'Y' && "BYMONTH"@[2] == 'M' && "BYMONTH"@[3] == 'O' && "BYMONTH"@[4] == 'N' && "BYMONTH"@[5] == 'T' && "BYMONTH"@[6] == 'H');
    reveal_strlit("BYSETPOS");
    assert("BYSETPOS"@.len() == 8 && "BYSETPOS"@[0] == 'B' && "BYSETPOS"@[1] == 'Y' && "BYSETPOS"@[2] == 'S' && "BYSETPOS"@[3] == 'E' && "BYSETPOS"@[4] == 'T' && "BYSETPOS"@[5] == 'P' && "BYSETPOS"@[6] == 'O' && "BYSETPOS"@[7] == 'S');
    reveal_strlit("WKST");
    assert("WKST"@.len() == 4 && "WKST"@[0] == 'W' && "WKST"@[1] == 'K' && "WKST"@[2] == 'S' && "WKST"@[3] == 'T');
    reveal_strlit("BYDAY");
    assert("BYDAY"@.len() == 5 && "BYDAY"@[0] == 'B' && "BYDAY"@[1] == 'Y' && "BYDAY"@[2] == 'D' && "BYDAY"@[3] == 'A' && "BYDAY"@[4] == 'Y');
}

/// Whether the ordinal of a weekday fits the d-th of so many days: the first seven have the
/// first of each weekday, the next seven the second, and from the end in the same way; none
/// means any.
pub open spec fn ordinal_fits(k: int, d: int, len: int) -> bool {
    ||| k == 0
    ||| k > 0 && 7 * (k - 1) < d <= 7 * k
    ||| k < 0 && 7 * (-k - 1) <= len - d < 7 * -k
}

/// On which days of a month a monthly rule with weekdays recurs: those whose weekday is named
/// and, where it has an ordinal, that the ordinal fits.
pub proof fn law_weekdays_of_a_month(f: FilterModel, y: int, m: int, d: int)
    requires
        f.freq == Freq::Monthly,
        f.by_month.len() == 0,
        f.by_week_no.len() == 0,
        f.by_year_day.len() == 0,
        f.by_month_day.len() == 0,
        f.by_day.len() > 0,
        is_date(y, m, d),
        MIN_YEAR <= y < MAX_YEAR,
    ensures
        day_matches(f, day_number(y, m, d)) <==> exists|i: int|
            0 <= i < f.by_day.len() && (#[trigger] f.by_day[i]).1 == weekday_at(weekday_of(day_number(y, m, d)))
                && ordinal_fits(f.by_day[i].0 as int, d, month_len(y, m)),
{
    let n = day_number(y, m, d);
    lemma_date_of(y, m, d);
    crate::dates::lemma_calendar_range(y, m, d);
    let len = month_len(y, m);
    assert forall|i: int| 0 <= i < f.by_day.len() implies ordinal_ok(f, (#[trigger] f.by_day[i]).0, n) == ordinal_fits(
        f.by_day[i].0 as int,
        d,
        len,
    ) by {
        let k = f.by_day[i].0 as int;
        assert((k == (d - 1) / 7 + 1) == (7 * (k - 1) < d <= 7 * k));
        assert((k == -((len - d) / 7 + 1)) == (7 * (-k - 1) <= len - d < 7 * -k));
    }
    if day_matches(f, n) {
        let i = choose|i: int|
            0 <= i < f.by_day.len() && (#[trigger] f.by_day[i]).1 == weekday_at(weekday_of(n)) && ordinal_ok(
                f,
                f.by_day[i].0,
                n,
            );
        assert(f.by_day[i].1 == weekday_at(weekday_of(n)));
    }
}

/// In a weekly or daily rule a weekday means each one, whatever its ordinal.
pub proof fn law_weekdays_of_a_week(f: FilterModel, y: int, m: int, d: int)
    requires
        f.freq == Freq::Weekly || f.freq == Freq::Daily,
        f.by_month.len() == 0,
        f.by_week_no.len() == 0,
        f.by_year_day.len() == 0,
        f.by_month_day.len() == 0,
        f.by_day.len() > 0,
        is_date(y, m, d),
        MIN_YEAR <= y <= MAX_YEAR,
    ensures
        day_matches(f, day_number(y, m, d)) <==> exists|i: int|
            0 <= i < f.by_day.len() && (#[trigger] f.by_day[i]).1 == weekday_at(weekday_of(day_number(y, m, d))),
{
    let n = day_number(y, m, d);
    lemma_date_of(y, m, d);
    crate::dates::lemma_calendar_range(y, m, d);
    if exists|i: int| 0 <= i < f.by_day.len() && (#[trigger] f.by_day[i]).1 == weekday_at(weekday_of(n)) {
        let i = choose|i: int| 0 <= i < f.by_day.len() && (#[trigger] f.by_day[i]).1 == weekday_at(weekday_of(n));
        assert(ordinal_ok(f, f.by_day[i].0, n));
        assert(weekday_ok(f, n));
    }
}

/// On which days a rule with months and days of the month recurs: in the months that are
/// named, on the days that are, counted from the first or, below zero, from the last.
pub proof fn law_days_of_months(f: FilterModel, y: int, m: int, d: int)
    requires
        f.by_week_no.len() == 0,
        f.by_year_day.len() == 0,
        f.by_day.len() == 0,
        is_date(y, m, d),
        MIN_YEAR <= y < MAX_YEAR,
    ensures
        day_matches(f, day_number(y, m, d)) <==> (f.by_month.len() == 0 || f.by_month.contains(m as u32)) && (
        f.by_month_day.len() == 0 || f.by_month_day.contains(d as i32) || f.by_month_day.contains(
            (d - month_len(y, m) - 1) as i32,
        )),
{
    let n = day_number(y, m, d);
    lemma_date_of(y, m, d);
    crate::dates::lemma_calendar_range(y, m, d);
    let len = month_len(y, m);
    let list = f.by_month_day;
    if names_position(list, d, len) {
        let i = choose|i: int| 0 <= i < list.len() && (#[trigger] list[i] == d || (list[i] < 0 && len + list[i] + 1 == d));
        assert(list.contains(list[i]));
    }
    if list.contains(d as i32) {
        let i = list.index_of(d as i32);
        assert(list[i] == d);
    }
    if list.contains((d - len - 1) as i32) {
        let i = list.index_of((d - len - 1) as i32);
        assert(list[i] < 0 && len + list[i] + 1 == d);
    }
}

/// Days of the year are counted from the first of January, or below zero from the last of
/// December.
pub proof fn law_days_of_the_year(f: FilterModel, y: int, m: int, d: int, k: i32)
    requires
        f.by_month.len() == 0,
        f.by_week_no.len() == 0,
        f.by_month_day.len() == 0,
        f.by_day.len() == 0,
        f.by_year_day == seq![k],
        is_date(y, m, d),
        MIN_YEAR <= y <= MAX_YEAR,
    ensures
        k > 0 ==> (day_matches(f, day_number(y, m, d)) <==> day_number(y, m, d) == day_number(y, 1, 1) + k - 1),
        k < 0 ==> (day_matches(f, day_number(y, m, d)) <==> day_number(y, m, d) == day_number(y, 12, 31) + k + 1),
{
    lemma_date_of(y, m, d);
    crate::dates::lemma_calendar_range(y, m, d);
    crate::dates::lemma_day_in_year(y, m, d);
    assert(f.by_year_day[0] == k);
    let n = day_number(y, m, d);
    let pos = n - day_number(y, 1, 1) + 1;
    if k == pos || (k < 0 && days_in_year_of(y) + k + 1 == pos) {
        assert(names_position(f.by_year_day, pos, days_in_year_of(y)));
    }
}

/// The first week of a year begins on the first day of weeks and is the one with 4 January.
pub proof fn law_the_first_week(y: int, wkst: Weekday)
    requires
        MIN_YEAR <= y <= MAX_YEAR,
    ensures
        weekday_of(week1(y, wkst)) == weekday_number(wkst),
        week1(y, wkst) <= day_number(y, 1, 4) < week1(y, wkst) + 7,
{
}

/// Numbers in a rule are read as they are written, with a sign before them or without.
pub proof fn law_numbers_of_rules(n: int)
    requires
        0 <= n <= i32::MAX,
    ensures
        unsigned_items(crate::text::decimal(n)) == seq![n as u32],
        signed_items(crate::text::decimal(n)) == seq![n as i32],
        n > 0 ==> signed_items(seq!['-'] + crate::text::decimal(n)) == seq![(-n) as i32],
        n > 0 ==> interval_of(crate::text::decimal(n)) == n,
{
    let s = crate::text::decimal(n);
    let t = seq!['-'] + s;
    crate::text::law_decimal_round_trip(n);
    assert(crate::text::is_digit(s[0]) && crate::text::is_digit(s[s.len() - 1]));
    assert(!s.contains(',')) by {
        if s.contains(',') {
            assert(crate::text::is_digit(s[s.index_of(',')]));
        }
    }
    assert(!t.contains(',')) by {
        if t.contains(',') {
            let i = t.index_of(',');
            assert(i > 0);
            assert(crate::text::is_digit(s[i - 1]));
        }
    }
    crate::text::lemma_split_first(s, ',', s);
    crate::text::lemma_split_first(t, ',', t);
    assert(trim(s) == s);
    assert(t.last() == s.last());
    assert(trim(t) == t);
    assert(split(s, ',') == seq![s] && split(t, ',') == seq![t]);
    assert(strip_start(s, '+') == s);
    assert(strip_start(t, '+') == t);
    assert(t.subrange(1, t.len() as int) =~= s);
    assert(unsigned_list(seq![s], 0) =~= Seq::<u32>::empty());
    assert(signed_list(seq![s], 0) =~= Seq::<i32>::empty());
    assert(signed_list(seq![t], 0) =~= Seq::<i32>::empty());
    assert(unsigned_list(seq![s], 1) =~= seq![n as u32]);
    assert(parse_int(s) == Some(n));
    assert(parse_int(t) == Some(-n));
    assert(signed_list(seq![s], 1) =~= seq![n as i32]);
    assert(signed_list(seq![t], 1) =~= seq![(-n) as i32]);
}

} // verus!
