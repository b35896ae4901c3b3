//! Expanding a recurrence rule into the times at which it recurs.
//!
//! A rule walks through periods: every `interval`-th year, month, week, day, hour,
//! minute or second from its start. Within a period its candidates are the times
//! whose day, hour, minute and second the rule allows, in ascending order.

use vstd::arithmetic::div_mod::{lemma_fundamental_div_mod, lemma_mod_multiples_vanish, lemma_small_mod};
use vstd::prelude::*;
use crate::dates::{
    date_of, day_from_ymd, day_number, day_of, day_weekday, in_calendar, is_date, lemma_calendar_range,
    lemma_date_of, lemma_dated, lemma_year_step, lemma_years_ascend, moment_day, moment_second, month_len,
    second_at, second_of_day, stamp_day, stamp_second, weekday_of, year_len, ymd_from_day, MIN_YEAR,
};
use crate::rrule::{
    day_matches, days_in_month, days_in_month_of, days_in_year, has_u32, names_position, ordinal_fits, ordinal_ok,
    weekday_at, weekday_from, weekday_number, weekday_ok, DayFilter, FilterModel, Freq, RRule, RuleModel, Weekday,
};
use crate::zones::in_span;

verus! {

/// At most this many periods are looked at.
pub const MAX_PERIODS: i64 = 500_000;

// ---------------------------------------------------------------------------
// Candidates of a period
// ---------------------------------------------------------------------------

/// Whether a rule leaves the choice of days to its start.
pub open spec fn is_bare(r: RuleModel) -> bool {
    r.by_day.len() == 0 && r.by_month_day.len() == 0 && r.by_year_day.len() == 0 && r.by_week_no.len() == 0
}

/// The conditions of a rule on days. Where it has none, its start's month, day of
/// the month or weekday counts.
pub open spec fn filter_of(r: RuleModel, dtstart: int) -> FilterModel {
    let (y, m, d) = date_of(day_of(dtstart));
    FilterModel {
        freq: r.freq,
        by_month: if is_bare(r) && r.freq == Freq::Yearly && r.by_month.len() == 0 {
            seq![m as u32]
        } else {
            r.by_month
        },
        by_week_no: r.by_week_no,
        by_year_day: r.by_year_day,
        by_month_day: if is_bare(r) && (r.freq == Freq::Yearly || r.freq == Freq::Monthly) {
            seq![d as i32]
        } else {
            r.by_month_day
        },
        by_day: if is_bare(r) && r.freq == Freq::Weekly {
            seq![(0i32, weekday_at(weekday_of(day_of(dtstart))))]
        } else {
            r.by_day
        },
        wkst: r.wkst,
    }
}

/// The seconds of the smallest unit that a rule steps through as a whole.
pub open spec fn unit_of(freq: Freq) -> int {
    match freq {
        Freq::Secondly => 1,
        Freq::Minutely => 60,
        Freq::Hourly => 3600,
        _ => 86_400,
    }
}

/// Whether a list names a number; an empty one names the default.
pub open spec fn listed(list: Seq<u32>, default: int, x: int) -> bool {
    if list.len() == 0 {
        x == default
    } else {
        list.contains(x as u32)
    }
}

/// Whether a list allows a number; an empty one allows all.
pub open spec fn allowed(list: Seq<u32>, x: int) -> bool {
    list.len() == 0 || list.contains(x as u32)
}

/// Whether a rule allows a second of a unit: of the hour, minute and second that
/// lie inside the unit, each is listed or, without a list, that of the start.
#[verifier::opaque]
pub open spec fn second_ok(r: RuleModel, dtstart: int, o: int) -> bool {
    let s = second_of_day(dtstart);
    &&& unit_of(r.freq) >= 86_400 ==> listed(r.by_hour, s / 3600, o / 3600)
    &&& unit_of(r.freq) >= 3600 ==> listed(r.by_minute, s / 60 % 60, o / 60 % 60)
    &&& unit_of(r.freq) >= 60 ==> listed(r.by_second, s % 60, o % 60)
}

/// Whether a rule allows the unit that starts at a time: its day matches, and its
/// hour, minute and second, as far as they are fixed by the unit, are allowed.
#[verifier::opaque]
pub open spec fn unit_ok(r: RuleModel, f: FilterModel, u: int) -> bool {
    let s = second_of_day(u);
    &&& day_matches(f, day_of(u))
    &&& unit_of(r.freq) < 86_400 ==> allowed(r.by_hour, s / 3600)
    &&& unit_of(r.freq) < 3600 ==> allowed(r.by_minute, s / 60 % 60)
    &&& unit_of(r.freq) < 60 ==> allowed(r.by_second, s % 60)
}

/// Whether a rule can recur at a time.
pub open spec fn is_candidate(r: RuleModel, f: FilterModel, dtstart: int, t: int) -> bool {
    let u = unit_of(r.freq);
    unit_ok(r, f, t - t % u) && second_ok(r, dtstart, t % u)
}

/// The candidates from `lo` to before `hi`, ascending.
pub open spec fn candidates(r: RuleModel, f: FilterModel, dtstart: int, lo: int, hi: int) -> Seq<int>
    decreases hi - lo,
{
    if hi <= lo {
        Seq::empty()
    } else {
        let before = candidates(r, f, dtstart, lo, hi - 1);
        if is_candidate(r, f, dtstart, hi - 1) {
            before.push(hi - 1)
        } else {
            before
        }
    }
}

/// The allowed seconds of a unit below `hi`, ascending.
pub open spec fn seconds_below(r: RuleModel, dtstart: int, hi: int) -> Seq<int>
    decreases hi,
{
    if hi <= 0 {
        Seq::empty()
    } else {
        let before = seconds_below(r, dtstart, hi - 1);
        if second_ok(r, dtstart, hi - 1) {
            before.push(hi - 1)
        } else {
            before
        }
    }
}

pub open spec fn shifted(s: Seq<int>, by: int) -> Seq<int> {
    s.map_values(|x: int| x + by)
}

pub open spec fn ints(v: Seq<i64>) -> Seq<int> {
    v.map_values(|x: i64| x as int)
}

proof fn lemma_within_unit(freq: Freq, u: int, o: int)
    requires
        u % unit_of(freq) == 0,
        0 <= o < unit_of(freq),
    ensures
        (u + o) % unit_of(freq) == o,
{
    let d = unit_of(freq);
    lemma_fundamental_div_mod(u, d);
    lemma_mod_multiples_vanish(u / d, o, d);
    lemma_small_mod(o as nat, d as nat);
}

proof fn lemma_unit_chunk(r: RuleModel, f: FilterModel, dtstart: int, lo: int, u: int, j: int)
    requires
        lo <= u,
        u % unit_of(r.freq) == 0,
        0 <= j <= unit_of(r.freq),
    ensures
        unit_ok(r, f, u) ==> candidates(r, f, dtstart, lo, u + j) == candidates(r, f, dtstart, lo, u) + shifted(
            seconds_below(r, dtstart, j),
            u,
        ),
        !unit_ok(r, f, u) ==> candidates(r, f, dtstart, lo, u + j) == candidates(r, f, dtstart, lo, u),
    decreases j,
{
    if j > 0 {
        lemma_unit_chunk(r, f, dtstart, lo, u, j - 1);
        let t = u + j - 1;
        lemma_within_unit(r.freq, u, j - 1);
        let base = candidates(r, f, dtstart, lo, u);
        let secs = seconds_below(r, dtstart, j - 1);
        assert(candidates(r, f, dtstart, lo, u + j - 1) == candidates(r, f, dtstart, lo, u + (j - 1)));
        if unit_ok(r, f, u) && second_ok(r, dtstart, j - 1) {
            assert((base + shifted(secs, u)).push(t) =~= base + shifted(secs.push(j - 1), u));
        }
    } else {
        assert(candidates(r, f, dtstart, lo, u) + shifted(seconds_below(r, dtstart, 0), u) =~= candidates(
            r,
            f,
            dtstart,
            lo,
            u,
        ));
    }
}

fn is_listed(list: &Vec<u32>, default: u32, x: u32) -> (r: bool)
    ensures
        r == listed(list@, default as int, x as int),
{
    if list.len() == 0 {
        x == default
    } else {
        has_u32(list, x)
    }
}

fn is_allowed(list: &Vec<u32>, x: u32) -> (r: bool)
    ensures
        r == allowed(list@, x as int),
{
    list.len() == 0 || has_u32(list, x)
}

fn unit_seconds_of(freq: Freq) -> (r: i64)
    ensures
        r == unit_of(freq),
        1 <= r <= 86_400,
{
    match freq {
        Freq::Secondly => 1,
        Freq::Minutely => 60,
        Freq::Hourly => 3600,
        _ => 86_400,
    }
}

fn allowed_seconds(r: &RRule, dtstart: i64) -> (v: Vec<i64>)
    ensures
        ints(v@) == seconds_below(r@, dtstart as int, unit_of(r.freq)),
        forall|i: int| 0 <= i < v@.len() ==> 0 <= #[trigger] v@[i] < unit_of(r.freq),
{
    let unit: i64 = unit_seconds_of(r.freq);
    let s: i64 = stamp_second(dtstart);
    let mut out: Vec<i64> = Vec::new();
    let mut o: i64 = 0;
    proof {
        assert(ints(out@) =~= Seq::<int>::empty());
    }
    while o < unit
        invariant
            0 <= o <= unit <= 86_400,
            unit == unit_of(r.freq),
            s == second_of_day(dtstart as int),
            0 <= s < 86_400,
            ints(out@) == seconds_below(r@, dtstart as int, o as int),
            forall|i: int| 0 <= i < out@.len() ==> 0 <= #[trigger] out@[i] < o,
        decreases unit - o,
    {
        reveal(second_ok);
        let ok: bool = (unit < 86_400 || is_listed(&r.by_hour, (s / 3600) as u32, (o / 3600) as u32)) && (unit < 3600
            || is_listed(&r.by_minute, (s / 60 % 60) as u32, (o / 60 % 60) as u32)) && (unit < 60 || is_listed(
            &r.by_second,
            (s % 60) as u32,
            (o % 60) as u32,
        ));
        let ghost before = ints(out@);
        if ok {
            out.push(o);
            proof {
                assert(ints(out@) =~= before.push(o as int));
            }
        }
        o = o + 1;
    }
    out
}

fn period_candidates(r: &RRule, filter: &DayFilter, seconds: &Vec<i64>, Ghost(dtstart): Ghost<int>, lo: i64, hi: i64) -> (v:
    Vec<i64>)
    requires
        lo <= hi,
        in_span(lo as int),
        in_span(hi as int),
        lo as int % unit_of(r.freq) == 0,
        hi as int % unit_of(r.freq) == 0,
        ints(seconds@) == seconds_below(r@, dtstart, unit_of(r.freq)),
        forall|i: int| 0 <= i < seconds@.len() ==> 0 <= #[trigger] seconds@[i] < unit_of(r.freq),
    ensures
        ints(v@) == candidates(r@, filter@, dtstart, lo as int, hi as int),
{
    let unit: i64 = unit_seconds_of(r.freq);
    let mut out: Vec<i64> = Vec::new();
    let mut u: i64 = lo;
    proof {
        assert(ints(out@) =~= candidates(r@, filter@, dtstart, lo as int, lo as int));
    }
    while u < hi
        invariant
            lo <= u <= hi,
            in_span(lo as int),
            in_span(hi as int),
            unit == unit_of(r.freq),
            1 <= unit <= 86_400,
            u as int % unit_of(r.freq) == 0,
            hi as int % unit_of(r.freq) == 0,
            ints(seconds@) == seconds_below(r@, dtstart, unit_of(r.freq)),
            forall|i: int| 0 <= i < seconds@.len() ==> 0 <= #[trigger] seconds@[i] < unit_of(r.freq),
            ints(out@) == candidates(r@, filter@, dtstart, lo as int, u as int),
        decreases hi - u,
    {
        reveal(unit_ok);
        let s: i64 = stamp_second(u);
        let ok: bool = filter.matches(stamp_day(u)) && (unit >= 86_400 || is_allowed(&r.by_hour, (s / 3600) as u32))
            && (unit >= 3600 || is_allowed(&r.by_minute, (s / 60 % 60) as u32)) && (unit >= 60 || is_allowed(
            &r.by_second,
            (s % 60) as u32,
        ));
        let ghost base = ints(out@);
        if ok {
            let mut i: usize = 0;
            while i < seconds.len()
                invariant
                    i <= seconds.len(),
                    unit == unit_of(r.freq),
                    1 <= unit <= 86_400,
                    in_span(u as int),
                    forall|j: int| 0 <= j < seconds@.len() ==> 0 <= #[trigger] seconds@[j] < unit_of(r.freq),
                    ints(out@) == base + shifted(ints(seconds@).take(i as int), u as int),
                decreases seconds.len() - i,
            {
                let ghost before = out@;
                out.push(u + seconds[i]);
                proof {
                    assert(ints(out@) =~= ints(before).push(u + seconds@[i as int]));
                    assert(ints(seconds@).take(i + 1) =~= ints(seconds@).take(i as int).push(
                        seconds@[i as int] as int,
                    ));
                    assert(shifted(ints(seconds@).take(i + 1), u as int) =~= shifted(
                        ints(seconds@).take(i as int),
                        u as int,
                    ).push(u + seconds@[i as int]));
                }
                i = i + 1;
            }
            proof {
                assert(ints(seconds@).take(seconds@.len() as int) =~= ints(seconds@));
            }
        }
        proof {
            lemma_unit_chunk(r@, filter@, dtstart, lo as int, u as int, unit as int);
            lemma_next_unit(r.freq, u as int, hi as int);
        }
        u = u + unit;
    }
    out
}

proof fn lemma_next_unit(freq: Freq, u: int, hi: int)
    requires
        u < hi,
        u % unit_of(freq) == 0,
        hi % unit_of(freq) == 0,
    ensures
        u + unit_of(freq) <= hi,
        (u + unit_of(freq)) % unit_of(freq) == 0,
{
    match freq {
        Freq::Secondly => {},
        Freq::Minutely => {},
        Freq::Hourly => {},
        _ => {},
    }
}

// ---------------------------------------------------------------------------
// Positions within a period
// ---------------------------------------------------------------------------

/// The index that a position selects among `n` candidates: counted from 1, or
/// from the end below zero.
pub open spec fn position_index(p: int, n: int) -> int {
    if p > 0 {
        p - 1
    } else {
        n + p
    }
}

pub open spec fn is_selected(pos: Seq<i32>, n: int, i: int) -> bool {
    exists|j: int| 0 <= j < pos.len() && position_index(#[trigger] pos[j] as int, n) == i
}

/// Those of the first `k` candidates that some position selects.
pub open spec fn selected_first(c: Seq<int>, pos: Seq<i32>, k: int) -> Seq<int>
    decreases k,
{
    if k <= 0 {
        Seq::empty()
    } else {
        let before = selected_first(c, pos, k - 1);
        if is_selected(pos, c.len() as int, k - 1) {
            before.push(c[k - 1])
        } else {
            before
        }
    }
}

/// The candidates that a rule's positions select; without positions all of them.
pub open spec fn selected(c: Seq<int>, pos: Seq<i32>) -> Seq<int> {
    if pos.len() == 0 {
        c
    } else {
        selected_first(c, pos, c.len() as int)
    }
}

fn select_positions(c: Vec<i64>, pos: &Vec<i32>) -> (v: Vec<i64>)
    ensures
        ints(v@) == selected(ints(c@), pos@),
{
    if pos.len() == 0 {
        return c;
    }
    let ghost cv = ints(c@);
    let n: i128 = c.len() as i128;
    let mut out: Vec<i64> = Vec::new();
    let mut k: usize = 0;
    proof {
        assert(ints(out@) =~= Seq::<int>::empty());
    }
    while k < c.len()
        invariant
            k <= c.len(),
            n == c.len(),
            cv == ints(c@),
            ints(out@) == selected_first(cv, pos@, k as int),
        decreases c.len() - k,
    {
        let mut hit: bool = false;
        let mut j: usize = 0;
        while j < pos.len()
            invariant
                j <= pos.len(),
                n == c.len(),
                hit == (exists|i: int| 0 <= i < j && position_index(#[trigger] pos@[i] as int, n as int) == k),
            decreases pos.len() - j,
        {
            let p: i128 = pos[j] as i128;
            let idx: i128 = if p > 0 {
                p - 1
            } else {
                n + p
            };
            proof {
                assert(position_index(pos@[j as int] as int, n as int) == idx);
            }
            if idx == k as i128 {
                hit = true;
            }
            j = j + 1;
        }
        let ghost before = ints(out@);
        proof {
            assert(hit == is_selected(pos@, cv.len() as int, k as int));
        }
        if hit {
            out.push(c[k]);
            proof {
                assert(ints(out@) =~= before.push(cv[k as int]));
            }
        }
        k = k + 1;
    }
    out
}

// ---------------------------------------------------------------------------
// Periods
// ---------------------------------------------------------------------------

pub open spec fn step_of(r: RuleModel) -> int {
    if r.interval < 1 {
        1
    } else {
        r.interval
    }
}

/// The month of the k-th period of a monthly rule, counted from January of year 0.
pub open spec fn month_index(r: RuleModel, dtstart: int, k: int) -> int {
    let (y, m, d) = date_of(day_of(dtstart));
    12 * y + m - 1 + k * step_of(r)
}

/// The year of the k-th period of a yearly or monthly rule.
pub open spec fn period_year(r: RuleModel, dtstart: int, k: int) -> int {
    if r.freq == Freq::Monthly {
        month_index(r, dtstart, k) / 12
    } else {
        date_of(day_of(dtstart)).0 + k * step_of(r)
    }
}

/// The first day of the week that the start lies in.
pub open spec fn week_of(r: RuleModel, dtstart: int) -> int {
    let d = day_of(dtstart);
    d - (weekday_of(d) + 7 - weekday_number(r.wkst)) % 7
}

/// Where the k-th period begins.
pub open spec fn period_lo(r: RuleModel, dtstart: int, k: int) -> int {
    match r.freq {
        Freq::Yearly => 86_400 * day_number(period_year(r, dtstart, k), 1, 1),
        Freq::Monthly => 86_400 * day_number(
            period_year(r, dtstart, k),
            month_index(r, dtstart, k) % 12 + 1,
            1,
        ),
        Freq::Weekly => 86_400 * (week_of(r, dtstart) + 7 * (k * step_of(r))),
        Freq::Daily => 86_400 * (day_of(dtstart) + k * step_of(r)),
        Freq::Hourly => dtstart - dtstart % 3600 + 3600 * (k * step_of(r)),
        Freq::Minutely => dtstart - dtstart % 60 + 60 * (k * step_of(r)),
        Freq::Secondly => dtstart + k * step_of(r),
    }
}

/// Where the k-th period ends.
pub open spec fn period_hi(r: RuleModel, dtstart: int, k: int) -> int {
    period_lo(r, dtstart, k) + match r.freq {
        Freq::Yearly => 86_400 * year_len(period_year(r, dtstart, k)),
        Freq::Monthly => 86_400 * month_len(period_year(r, dtstart, k), month_index(r, dtstart, k) % 12 + 1),
        Freq::Weekly => 604_800,
        _ => unit_of(r.freq),
    }
}

/// Whether a period lies in a year after 9999.
pub open spec fn after_years(r: RuleModel, dtstart: int, k: int) -> bool {
    (r.freq == Freq::Yearly || r.freq == Freq::Monthly) && period_year(r, dtstart, k) > 9999
}

/// Whether a rule stops before its k-th period: in a year after 9999, or more than
/// a day after the limit or the end of the rule.
pub open spec fn stops_before(r: RuleModel, dtstart: int, until: Option<int>, limit: int, k: int) -> bool {
    let start = 86_400 * day_of(period_lo(r, dtstart, k));
    ||| after_years(r, dtstart, k)
    ||| start > limit + 86_400
    ||| until is Some && start > until->0 + 86_400
}

/// The candidates of the k-th period that the rule's positions select.
pub open spec fn period_times(r: RuleModel, dtstart: int, k: int) -> Seq<int> {
    selected(
        candidates(r, filter_of(r, dtstart), dtstart, period_lo(r, dtstart, k), period_hi(r, dtstart, k)),
        r.by_set_pos,
    )
}

/// Adds the times from position `i` on to the occurrences found so far, and says
/// whether the rule is finished: by a time after its end or the limit, or by its
/// count.
pub open spec fn collect(
    count: Option<u32>,
    dtstart: int,
    until: Option<int>,
    limit: int,
    c: Seq<int>,
    i: int,
    out: Seq<int>,
) -> (Seq<int>, bool)
    decreases c.len() - i,
{
    if i >= c.len() {
        (out, false)
    } else if c[i] < dtstart {
        collect(count, dtstart, until, limit, c, i + 1, out)
    } else if (until is Some && c[i] > until->0) || c[i] > limit {
        (out, true)
    } else if count is Some && out.len() + 1 >= count->0 {
        (out.push(c[i]), true)
    } else {
        collect(count, dtstart, until, limit, c, i + 1, out.push(c[i]))
    }
}

/// The occurrences of the periods from the k-th on, after those found so far.
pub open spec fn occurrences_from(
    r: RuleModel,
    dtstart: int,
    first: int,
    until: Option<int>,
    limit: int,
    k: int,
    out: Seq<int>,
) -> Seq<int>
    decreases MAX_PERIODS - k,
{
    if k >= MAX_PERIODS || stops_before(r, dtstart, until, limit, k) {
        out
    } else {
        let (o, done) = collect(r.count, first, until, limit, period_times(r, dtstart, k), 0, out);
        if done {
            o
        } else {
            occurrences_from(r, dtstart, first, until, limit, k + 1, o)
        }
    }
}

/// The first second that is not before a moment.
pub open spec fn first_second(t: int) -> int {
    second_at(t) + t % 2
}

/// The seconds at which a rule recurs, from the moment of its start up to a limit.
pub open spec fn occurrences(r: RuleModel, start: int, until: Option<int>, limit: int) -> Seq<int> {
    if first_second(start) > limit {
        Seq::empty()
    } else {
        occurrences_from(r, second_at(start), first_second(start), until, limit, 0, Seq::empty())
    }
}

pub open spec fn opt_time(t: Option<i64>) -> Option<int> {
    match t {
        Some(x) => Some(x as int),
        None => None,
    }
}

fn collect_times(count: Option<u32>, dtstart: i64, until: Option<i64>, limit: i64, c: &Vec<i64>, out: &mut Vec<i64>) -> (done:
    bool)
    ensures
        (ints(final(out)@), done) == collect(
            count,
            dtstart as int,
            opt_time(until),
            limit as int,
            ints(c@),
            0,
            ints(old(out)@),
        ),
{
    let ghost cv = ints(c@);
    let ghost whole = collect(count, dtstart as int, opt_time(until), limit as int, cv, 0, ints(out@));
    let mut i: usize = 0;
    while i < c.len()
        invariant
            i <= c.len(),
            cv == ints(c@),
            whole == collect(count, dtstart as int, opt_time(until), limit as int, cv, 0, ints(old(out)@)),
            whole == collect(count, dtstart as int, opt_time(until), limit as int, cv, i as int, ints(out@)),
        decreases c.len() - i,
    {
        let t: i64 = c[i];
        proof {
            assert(cv[i as int] == t);
        }
        if t >= dtstart {
            let past: bool = match until {
                Some(u) => t > u,
                None => false,
            };
            if past || t > limit {
                return true;
            }
            let ghost before = ints(out@);
            out.push(t);
            proof {
                assert(ints(out@) =~= before.push(t as int));
            }
            match count {
                Some(n) => {
                    if out.len() as u64 >= n as u64 {
                        return true;
                    }
                },
                None => {},
            }
        }
        i = i + 1;
    }
    false
}

proof fn lemma_step_bound(k: int, i: int)
    by (nonlinear_arith)
    requires
        0 <= k < 500_000,
        1 <= i <= 9_223_372_036_854_775_807,
    ensures
        0 <= k * i <= 5_000_000_000_000_000_000_000_000,
{
}

/// A copy of a list.
pub fn copy_vec<T: Copy>(v: &Vec<T>) -> (r: Vec<T>)
    ensures
        r@ == v@,
{
    let mut out: Vec<T> = Vec::new();
    let mut i: usize = 0;
    while i < v.len()
        invariant
            i <= v.len(),
            out@ == v@.take(i as int),
        decreases v.len() - i,
    {
        out.push(v[i]);
        proof {
            assert(v@.take(i + 1) =~= v@.take(i as int).push(v@[i as int]));
        }
        i = i + 1;
    }
    proof {
        assert(v@.take(v@.len() as int) =~= v@);
    }
    out
}

/// Where a year begins and how many seconds it lasts.
fn year_range(y: i64) -> (v: (i64, i64))
    requires
        MIN_YEAR <= y <= 9999,
    ensures
        v.0 == 86_400 * day_number(y as int, 1, 1),
        v.1 == 86_400 * year_len(y as int),
        -8_300_000_000_000 <= v.0 <= 8_300_000_000_000,
        1 <= v.1 <= 32_000_000,
        v.0 as int % 86_400 == 0,
        v.1 as int % 86_400 == 0,
{
    let first: i64 = match day_from_ymd(y, 1, 1) {
        Some(n) => n,
        None => 0,
    };
    (86_400 * first, 86_400 * days_in_year(y) as i64)
}

/// Where a month begins and how many seconds it lasts.
fn month_range(y: i64, m: u32) -> (v: (i64, i64))
    requires
        MIN_YEAR <= y <= 9999,
        1 <= m <= 12,
    ensures
        v.0 == 86_400 * day_number(y as int, m as int, 1),
        v.1 == 86_400 * month_len(y as int, m as int),
        -8_300_000_000_000 <= v.0 <= 8_300_000_000_000,
        1 <= v.1 <= 32_000_000,
        v.0 as int % 86_400 == 0,
        v.1 as int % 86_400 == 0,
{
    let first: i64 = match day_from_ymd(y, m, 1) {
        Some(n) => n,
        None => 0,
    };
    (86_400 * first, 86_400 * days_in_month(y, m) as i64)
}

/// Whether `lo` and `len` are the start and the length of the k-th period.
pub open spec fn range_of_period(r: RuleModel, dtstart: int, k: int, lo: int, len: int) -> bool {
    &&& lo == period_lo(r, dtstart, k)
    &&& lo + len == period_hi(r, dtstart, k)
    &&& -9_000_000_000_000 <= lo <= 4_000_000_000_000_000_000_000_000_000_000
    &&& 1 <= len <= 32_000_000
    &&& lo % unit_of(r.freq) == 0
    &&& len % unit_of(r.freq) == 0
}

fn yearly_range(r: &RRule, dtstart: i64, step: i128, Ghost(k): Ghost<int>) -> (v: Option<(i128, i64)>)
    requires
        in_calendar(day_of(dtstart as int)),
        step == k * step_of(r@),
        0 <= step <= 5_000_000_000_000_000_000_000_000,
        r.freq == Freq::Yearly,
    ensures
        v is None == after_years(r@, dtstart as int, k),
        v matches Some((lo, len)) ==> range_of_period(r@, dtstart as int, k, lo as int, len as int),
{
    let (y0, m0, dd0) = match ymd_from_day(stamp_day(dtstart)) {
        Some(t) => t,
        None => (0, 1, 1),
    };
    let y: i128 = y0 as i128 + step;
    proof {
        assert(y == period_year(r@, dtstart as int, k));
    }
    if y > 9999 {
        return None;
    }
    let (lo, len) = year_range(y as i64);
    proof {
        assert(unit_of(r.freq) == 86_400);
        assert(lo == period_lo(r@, dtstart as int, k));
        assert(lo + len == period_hi(r@, dtstart as int, k));
    }
    Some((lo as i128, len))
}

/// The year and month of a month counted from January of year 0.
fn year_and_month(idx: i128) -> (v: (i128, u32))
    requires
        -12_000_000 <= idx <= 6_000_000_000_000_000_000_000_000,
    ensures
        v.0 == idx as int / 12,
        v.1 == idx as int % 12 + 1,
        1 <= v.1 <= 12,
{
    ((idx + 12_000_000) / 12 - 1_000_000, ((idx + 12_000_000) % 12 + 1) as u32)
}

fn monthly_range(r: &RRule, dtstart: i64, step: i128, Ghost(k): Ghost<int>) -> (v: Option<(i128, i64)>)
    requires
        in_calendar(day_of(dtstart as int)),
        step == k * step_of(r@),
        0 <= step <= 5_000_000_000_000_000_000_000_000,
        r.freq == Freq::Monthly,
    ensures
        v is None == after_years(r@, dtstart as int, k),
        v matches Some((lo, len)) ==> range_of_period(r@, dtstart as int, k, lo as int, len as int),
{
    let (y0, m0, dd0) = match ymd_from_day(stamp_day(dtstart)) {
        Some(t) => t,
        None => (0, 1, 1),
    };
    let idx: i128 = 12 * y0 as i128 + m0 as i128 - 1 + step;
    let (y, m) = year_and_month(idx);
    proof {
        assert(idx == month_index(r@, dtstart as int, k));
        assert(y == period_year(r@, dtstart as int, k));
        assert(y >= y0);
    }
    if y > 9999 {
        return None;
    }
    let (lo, len) = month_range(y as i64, m);
    proof {
        assert(unit_of(r.freq) == 86_400);
        assert(lo == period_lo(r@, dtstart as int, k));
        assert(lo + len == period_hi(r@, dtstart as int, k));
    }
    Some((lo as i128, len))
}

fn even_range(r: &RRule, dtstart: i64, step: i128, Ghost(k): Ghost<int>) -> (v: (i128, i64))
    requires
        in_calendar(day_of(dtstart as int)),
        step == k * step_of(r@),
        0 <= step <= 5_000_000_000_000_000_000_000_000,
        r.freq != Freq::Yearly,
        r.freq != Freq::Monthly,
    ensures
        range_of_period(r@, dtstart as int, k, v.0 as int, v.1 as int),
{
    let d0: i64 = stamp_day(dtstart);
    let s: i64 = stamp_second(dtstart);
    match r.freq {
        Freq::Weekly => {
            let back: u32 = (day_weekday(d0) + 7 - r.wkst.number()) % 7;
            (86_400 * (d0 as i128 - back as i128 + 7 * step), 604_800)
        },
        Freq::Hourly => {
            proof {
                assert(dtstart as int % 3600 == s as int % 3600);
            }
            (dtstart as i128 - (s % 3600) as i128 + 3600 * step, 3600)
        },
        Freq::Minutely => {
            proof {
                assert(dtstart as int % 60 == s as int % 60);
            }
            (dtstart as i128 - (s % 60) as i128 + 60 * step, 60)
        },
        Freq::Secondly => (dtstart as i128 + step, 1),
        _ => (86_400 * (d0 as i128 + step), 86_400),
    }
}

/// Where the k-th period begins and how long it is.
fn period_range(r: &RRule, dtstart: i64, step: i128, Ghost(k): Ghost<int>) -> (v: Option<(i128, i64)>)
    requires
        in_calendar(day_of(dtstart as int)),
        step == k * step_of(r@),
        0 <= step <= 5_000_000_000_000_000_000_000_000,
    ensures
        v is None == after_years(r@, dtstart as int, k),
        v matches Some((lo, len)) ==> range_of_period(r@, dtstart as int, k, lo as int, len as int),
{
    match r.freq {
        Freq::Yearly => yearly_range(r, dtstart, step, Ghost(k)),
        Freq::Monthly => monthly_range(r, dtstart, step, Ghost(k)),
        _ => Some(even_range(r, dtstart, step, Ghost(k))),
    }
}

/// The bounds of the k-th period, unless the rule stops before it.
fn period_bounds(r: &RRule, dtstart: i64, until: Option<i64>, limit: i64, k: i64) -> (v: Option<(i64, i64)>)
    requires
        in_calendar(day_of(dtstart as int)),
        in_span(limit as int),
        0 <= k < MAX_PERIODS,
    ensures
        match v {
            Some((lo, hi)) => !stops_before(r@, dtstart as int, opt_time(until), limit as int, k as int) && lo
                == period_lo(r@, dtstart as int, k as int) && hi == period_hi(r@, dtstart as int, k as int) && lo <= hi
                && -10_000_000_000_000 <= lo && hi <= limit + 40_000_000 && lo as int % unit_of(r.freq) == 0
                && hi as int % unit_of(r.freq) == 0,
            None => stops_before(r@, dtstart as int, opt_time(until), limit as int, k as int),
        },
{
    let interval: i64 = if r.interval < 1 {
        1
    } else {
        r.interval
    };
    proof {
        lemma_step_bound(k as int, interval as int);
    }
    let step: i128 = k as i128 * interval as i128;
    match period_range(r, dtstart, step, Ghost(k as int)) {
        None => None,
        Some((lo, len)) => {
            let start: i128 = 86_400 * ((lo + 86_400 * 1_000_000_000_000) / 86_400 - 1_000_000_000_000);
            proof {
                assert(start == 86_400 * day_of(lo as int));
            }
            if start > limit as i128 + 86_400 {
                return None;
            }
            match until {
                Some(u) => {
                    if start > u as i128 + 86_400 {
                        return None;
                    }
                },
                None => {},
            }
            proof {
                lemma_sum_of_units(r.freq, lo as int, len as int);
            }
            Some((lo as i64, lo as i64 + len))
        },
    }
}

proof fn lemma_sum_of_units(freq: Freq, a: int, b: int)
    requires
        a % unit_of(freq) == 0,
        b % unit_of(freq) == 0,
    ensures
        (a + b) % unit_of(freq) == 0,
{
    match freq {
        Freq::Secondly => {},
        Freq::Minutely => {},
        Freq::Hourly => {},
        _ => {},
    }
}

/// The conditions of a rule on days, with those that its start gives it.
fn build_filter(r: &RRule, dtstart: i64) -> (f: DayFilter)
    requires
        in_calendar(day_of(dtstart as int)),
    ensures
        f@ == filter_of(r@, dtstart as int),
        f.freq == r.freq,
{
    let d0: i64 = stamp_day(dtstart);
    let (y, m, d) = match ymd_from_day(d0) {
        Some(t) => t,
        None => (0, 1, 1),
    };
    let mut by_month = copy_vec(&r.by_month);
    let mut by_month_day = copy_vec(&r.by_month_day);
    let mut by_day = copy_vec(&r.by_day);
    if r.by_day.len() == 0 && r.by_month_day.len() == 0 && r.by_year_day.len() == 0 && r.by_week_no.len() == 0 {
        match r.freq {
            Freq::Yearly => {
                if by_month.len() == 0 {
                    by_month.push(m);
                }
                by_month_day.push(d as i32);
            },
            Freq::Monthly => {
                by_month_day.push(d as i32);
            },
            Freq::Weekly => {
                by_day.push((0, weekday_from(day_weekday(d0))));
            },
            _ => {},
        }
    }
    let f = DayFilter {
        freq: r.freq,
        by_month,
        by_week_no: copy_vec(&r.by_week_no),
        by_year_day: copy_vec(&r.by_year_day),
        by_month_day,
        by_day,
        wkst: r.wkst,
    };
    proof {
        assert(f@ =~= filter_of(r@, dtstart as int));
    }
    f
}

/// Expands a rule in wall-clock time: the seconds at which it recurs from the moment of
/// its start to `limit`, in ascending order. The end and the limit are seconds too.
pub fn expand_rrule(r: &RRule, start: i64, until: Option<i64>, limit: i64) -> (v: Vec<i64>)
    requires
        in_calendar(moment_day(start as int)),
        in_span(limit + 40_000_000),
    ensures
        ints(v@) == occurrences(r@, start as int, opt_time(until), limit as int),
{
    let mut out: Vec<i64> = Vec::new();
    proof {
        assert(ints(out@) =~= Seq::<int>::empty());
    }
    let dtstart: i64 = moment_second(start);
    let first: i64 = dtstart + (start - 2 * dtstart);
    if first > limit {
        return out;
    }
    let filter = build_filter(r, dtstart);
    let seconds = allowed_seconds(r, dtstart);
    let mut k: i64 = 0;
    while k < MAX_PERIODS
        invariant
            0 <= k <= MAX_PERIODS,
            in_calendar(day_of(dtstart as int)),
            in_span(limit + 40_000_000),
            dtstart <= limit,
            dtstart == second_at(start as int),
            first == first_second(start as int),
            filter@ == filter_of(r@, dtstart as int),
            ints(seconds@) == seconds_below(r@, dtstart as int, unit_of(r.freq)),
            forall|i: int| 0 <= i < seconds@.len() ==> 0 <= #[trigger] seconds@[i] < unit_of(r.freq),
            occurrences(r@, start as int, opt_time(until), limit as int) == occurrences_from(
                r@,
                dtstart as int,
                first as int,
                opt_time(until),
                limit as int,
                k as int,
                ints(out@),
            ),
        decreases MAX_PERIODS - k,
    {
        match period_bounds(r, dtstart, until, limit, k) {
            None => {
                return out;
            },
            Some((lo, hi)) => {
                let all = period_candidates(r, &filter, &seconds, Ghost(dtstart as int), lo, hi);
                let chosen = select_positions(all, &r.by_set_pos);
                let done: bool = collect_times(r.count, first, until, limit, &chosen, &mut out);
                if done {
                    return out;
                }
            },
        }
        k = k + 1;
    }
    out
}

// ---------------------------------------------------------------------------
// What holds of every expansion
// ---------------------------------------------------------------------------

pub open spec fn strictly_ascending(s: Seq<int>) -> bool {
    forall|i: int, j: int| 0 <= i < j < s.len() ==> s[i] < s[j]
}

proof fn lemma_candidates(r: RuleModel, f: FilterModel, dtstart: int, lo: int, hi: int)
    ensures
        ({
            let c = candidates(r, f, dtstart, lo, hi);
            &&& strictly_ascending(c)
            &&& forall|i: int|
                0 <= i < c.len() ==> lo <= #[trigger] c[i] < hi && is_candidate(r, f, dtstart, c[i])
        }),
    decreases hi - lo,
{
    if hi > lo {
        lemma_candidates(r, f, dtstart, lo, hi - 1);
    }
}

proof fn lemma_selected(c: Seq<int>, pos: Seq<i32>, k: int)
    requires
        strictly_ascending(c),
        0 <= k <= c.len(),
    ensures
        ({
            let s = selected_first(c, pos, k);
            &&& strictly_ascending(s)
            &&& forall|i: int| 0 <= i < s.len() ==> c.take(k).contains(#[trigger] s[i])
        }),
    decreases k,
{
    if k > 0 {
        lemma_selected(c, pos, k - 1);
        let s = selected_first(c, pos, k - 1);
        assert forall|i: int| 0 <= i < s.len() implies c.take(k).contains(#[trigger] s[i]) && s[i] < c[k - 1] by {
            assert(c.take(k - 1).contains(s[i]));
            let t = c.take(k - 1);
            let j = t.index_of(s[i]);
            assert(t[j] == s[i]);
            assert(c.take(k)[j] == s[i]);
            assert(c[j] < c[k - 1]);
        }
        assert(c.take(k)[k - 1] == c[k - 1]);
        assert(c.take(k).contains(c[k - 1]));
    }
}

proof fn lemma_period_times(r: RuleModel, dtstart: int, k: int)
    ensures
        ({
            let s = period_times(r, dtstart, k);
            &&& strictly_ascending(s)
            &&& forall|i: int|
                0 <= i < s.len() ==> period_lo(r, dtstart, k) <= #[trigger] s[i] < period_hi(r, dtstart, k)
                    && is_candidate(r, filter_of(r, dtstart), dtstart, s[i])
        }),
{
    let c = candidates(r, filter_of(r, dtstart), dtstart, period_lo(r, dtstart, k), period_hi(r, dtstart, k));
    lemma_candidates(r, filter_of(r, dtstart), dtstart, period_lo(r, dtstart, k), period_hi(r, dtstart, k));
    lemma_selected(c, r.by_set_pos, c.len() as int);
    let s = period_times(r, dtstart, k);
    if r.by_set_pos.len() > 0 {
        assert(c.take(c.len() as int) =~= c);
        assert forall|i: int| 0 <= i < s.len() implies c.contains(#[trigger] s[i]) by {
            assert(c.take(c.len() as int).contains(s[i]));
        }
    }
}

/// Where the month after `i` months begins.
spec fn month_start(i: int) -> int {
    day_number(i / 12, i % 12 + 1, 1)
}

proof fn lemma_month_step(i: int)
    ensures
        month_start(i + 1) == month_start(i) + month_len(i / 12, i % 12 + 1),
{
    let y = i / 12;
    let m = i % 12 + 1;
    if m == 12 {
        assert((i + 1) / 12 == y + 1 && (i + 1) % 12 == 0);
        lemma_year_step(y);
    } else {
        assert((i + 1) / 12 == y && (i + 1) % 12 == m);
    }
}

proof fn lemma_months_ascend(i: int, j: int)
    requires
        i <= j,
    ensures
        month_start(i) <= month_start(j),
    decreases j - i,
{
    if i < j {
        lemma_months_ascend(i, j - 1);
        lemma_month_step(j - 1);
    }
}

proof fn lemma_next_step(k: int, i: int)
    by (nonlinear_arith)
    ensures
        (k + 1) * i == k * i + i,
{
}

/// A period ends before the next one begins.
pub proof fn law_periods_are_apart(r: RuleModel, dtstart: int, k: int)
    ensures
        period_hi(r, dtstart, k) <= period_lo(r, dtstart, k + 1),
{
    let step = step_of(r);
    lemma_next_step(k, step);
    match r.freq {
        Freq::Yearly => {
            let y = period_year(r, dtstart, k);
            lemma_year_step(y);
            lemma_years_ascend(y + 1, period_year(r, dtstart, k + 1));
        },
        Freq::Monthly => {
            let i = month_index(r, dtstart, k);
            lemma_month_step(i);
            lemma_months_ascend(i + 1, month_index(r, dtstart, k + 1));
        },
        _ => {},
    }
}

/// What holds of the occurrences found before a period.
spec fn found(r: RuleModel, dtstart: int, first: int, until: Option<int>, limit: int, out: Seq<int>) -> bool {
    &&& strictly_ascending(out)
    &&& forall|i: int|
        0 <= i < out.len() ==> first <= #[trigger] out[i] <= limit && (until is Some ==> out[i] <= until->0)
            && is_candidate(r, filter_of(r, dtstart), dtstart, out[i])
}

proof fn lemma_collect(
    r: RuleModel,
    dtstart: int,
    first: int,
    until: Option<int>,
    limit: int,
    c: Seq<int>,
    i: int,
    out: Seq<int>,
    hi: int,
)
    requires
        0 <= i <= c.len(),
        strictly_ascending(c),
        forall|j: int|
            0 <= j < c.len() ==> #[trigger] c[j] < hi && is_candidate(r, filter_of(r, dtstart), dtstart, c[j]),
        found(r, dtstart, first, until, limit, out),
        forall|j: int| 0 <= j < out.len() ==> #[trigger] out[j] < hi,
        forall|j: int, l: int| 0 <= j < out.len() && i <= l < c.len() ==> out[j] < c[l],
        r.count is Some ==> out.len() < r.count->0 || out.len() == 0,
    ensures
        ({
            let (o, done) = collect(r.count, first, until, limit, c, i, out);
            &&& found(r, dtstart, first, until, limit, o)
            &&& forall|j: int| 0 <= j < o.len() ==> #[trigger] o[j] < hi
            &&& r.count is Some ==> o.len() <= r.count->0 || o.len() <= 1
            &&& r.count is Some && !done ==> o.len() < r.count->0 || o.len() == 0
        }),
    decreases c.len() - i,
{
    if i < c.len() {
        if c[i] < first {
            lemma_collect(r, dtstart, first, until, limit, c, i + 1, out, hi);
        } else if (until is Some && c[i] > until->0) || c[i] > limit {
        } else {
            let o = out.push(c[i]);
            assert(strictly_ascending(o)) by {
                assert forall|a: int, b: int| 0 <= a < b < o.len() implies o[a] < o[b] by {
                    if b == out.len() {
                        assert(out[a] < c[i]);
                    }
                }
            }
            if !(r.count is Some && out.len() + 1 >= r.count->0) {
                assert forall|j: int, l: int| 0 <= j < o.len() && i + 1 <= l < c.len() implies o[j] < c[l] by {
                    assert(c[i] < c[l]);
                    if j < out.len() {
                        assert(out[j] < c[l]);
                    }
                }
                lemma_collect(r, dtstart, first, until, limit, c, i + 1, o, hi);
            }
        }
    }
}

proof fn lemma_occurrences_from(
    r: RuleModel,
    dtstart: int,
    first: int,
    until: Option<int>,
    limit: int,
    k: int,
    out: Seq<int>,
)
    requires
        found(r, dtstart, first, until, limit, out),
        forall|j: int| 0 <= j < out.len() ==> #[trigger] out[j] < period_lo(r, dtstart, k),
        r.count is Some ==> out.len() < r.count->0 || out.len() == 0,
    ensures
        ({
            let o = occurrences_from(r, dtstart, first, until, limit, k, out);
            &&& found(r, dtstart, first, until, limit, o)
            &&& r.count is Some ==> o.len() <= r.count->0 || o.len() <= 1
        }),
    decreases MAX_PERIODS - k,
{
    if k >= MAX_PERIODS || stops_before(r, dtstart, until, limit, k) {
    } else {
        let c = period_times(r, dtstart, k);
        lemma_period_times(r, dtstart, k);
        law_periods_are_apart(r, dtstart, k);
        lemma_collect(r, dtstart, first, until, limit, c, 0, out, period_hi(r, dtstart, k));
        let (o, done) = collect(r.count, first, until, limit, c, 0, out);
        if !done {
            lemma_occurrences_from(r, dtstart, first, until, limit, k + 1, o);
        }
    }
}

/// Every occurrence lies between the start of the rule and the limit, not after
/// the rule's end, at a time that the rule allows; occurrences ascend and there
/// are no more than the rule's count (but one, where the count is zero).
pub proof fn law_occurrences(r: RuleModel, start: int, until: Option<int>, limit: int)
    ensures
        ({
            let o = occurrences(r, start, until, limit);
            let dtstart = second_at(start);
            &&& strictly_ascending(o)
            &&& forall|i: int|
                0 <= i < o.len() ==> start <= 2 * #[trigger] o[i] && o[i] <= limit && (until is Some ==> o[i]
                    <= until->0) && is_candidate(r, filter_of(r, dtstart), dtstart, o[i])
            &&& r.count is Some ==> o.len() <= r.count->0 || o.len() <= 1
        }),
{
    if first_second(start) <= limit {
        lemma_occurrences_from(r, second_at(start), first_second(start), until, limit, 0, Seq::empty());
    }
}

// ---------------------------------------------------------------------------
// What the count and the end of a rule do
// ---------------------------------------------------------------------------

/// A rule that recurs without end.
pub open spec fn uncounted(r: RuleModel) -> RuleModel {
    RuleModel { count: None, ..r }
}

/// The first elements of a list, or all of it where there are fewer.
pub open spec fn first_of(s: Seq<int>, n: int) -> Seq<int> {
    if s.len() <= n {
        s
    } else {
        s.take(n)
    }
}

/// Whether a list goes on after another, with elements from a bound on.
spec fn goes_on(o: Seq<int>, out: Seq<int>, from: int) -> bool {
    &&& out.len() <= o.len()
    &&& o.take(out.len() as int) == out
    &&& forall|j: int| out.len() <= j < o.len() ==> from <= #[trigger] o[j]
}

proof fn lemma_goes_on(a: Seq<int>, b: Seq<int>, c: Seq<int>, from: int)
    requires
        goes_on(b, a, from),
        goes_on(c, b, from),
    ensures
        goes_on(c, a, from),
{
    assert forall|j: int| 0 <= j < a.len() implies #[trigger] c[j] == a[j] by {
        assert(b.take(a.len() as int)[j] == b[j]);
        assert(c.take(b.len() as int)[j] == c[j]);
    }
    assert(c.take(a.len() as int) =~= a);
    assert forall|j: int| a.len() <= j < c.len() implies from <= #[trigger] c[j] by {
        if j < b.len() {
            assert(c.take(b.len() as int)[j] == c[j]);
            assert(from <= b[j]);
        }
    }
}

proof fn lemma_collect_goes_on(
    count: Option<u32>,
    dtstart: int,
    until: Option<int>,
    limit: int,
    c: Seq<int>,
    i: int,
    out: Seq<int>,
    from: int,
)
    requires
        0 <= i <= c.len(),
        forall|j: int| i <= j < c.len() ==> from <= #[trigger] c[j],
    ensures
        goes_on(collect(count, dtstart, until, limit, c, i, out).0, out, from),
    decreases c.len() - i,
{
    assert(out.take(out.len() as int) =~= out);
    if i < c.len() {
        let o = out.push(c[i]);
        assert(o.take(out.len() as int) =~= out);
        assert(goes_on(o, out, from));
        if c[i] < dtstart {
            lemma_collect_goes_on(count, dtstart, until, limit, c, i + 1, out, from);
        } else if (until is Some && c[i] > until->0) || c[i] > limit || (count is Some && out.len() + 1 >= count->0) {
        } else {
            lemma_collect_goes_on(count, dtstart, until, limit, c, i + 1, o, from);
            lemma_goes_on(out, o, collect(count, dtstart, until, limit, c, i + 1, o).0, from);
        }
    }
}

proof fn lemma_occurrences_go_on(
    r: RuleModel,
    dtstart: int,
    first: int,
    until: Option<int>,
    limit: int,
    k: int,
    out: Seq<int>,
    from: int,
)
    requires
        from <= period_lo(r, dtstart, k),
    ensures
        goes_on(occurrences_from(r, dtstart, first, until, limit, k, out), out, from),
    decreases MAX_PERIODS - k,
{
    assert(out.take(out.len() as int) =~= out);
    if k >= MAX_PERIODS || stops_before(r, dtstart, until, limit, k) {
    } else {
        let c = period_times(r, dtstart, k);
        lemma_period_times(r, dtstart, k);
        law_periods_are_apart(r, dtstart, k);
        lemma_collect_goes_on(r.count, first, until, limit, c, 0, out, from);
        let (o, done) = collect(r.count, first, until, limit, c, 0, out);
        if !done {
            lemma_period_length(r, dtstart, k);
            lemma_occurrences_go_on(r, dtstart, first, until, limit, k + 1, o, from);
            lemma_goes_on(out, o, occurrences_from(r, dtstart, first, until, limit, k + 1, o), from);
        }
    }
}

proof fn lemma_period_length(r: RuleModel, dtstart: int, k: int)
    ensures
        period_lo(r, dtstart, k) <= period_hi(r, dtstart, k),
{
}

proof fn lemma_same_candidates(r: RuleModel, f: FilterModel, dtstart: int, lo: int, hi: int)
    ensures
        candidates(r, f, dtstart, lo, hi) == candidates(uncounted(r), f, dtstart, lo, hi),
    decreases hi - lo,
{
    if hi > lo {
        lemma_same_candidates(r, f, dtstart, lo, hi - 1);
        reveal(second_ok);
        reveal(unit_ok);
        assert(is_candidate(r, f, dtstart, hi - 1) == is_candidate(uncounted(r), f, dtstart, hi - 1));
    }
}

proof fn lemma_same_times(r: RuleModel, dtstart: int, k: int)
    ensures
        period_lo(r, dtstart, k) == period_lo(uncounted(r), dtstart, k),
        period_hi(r, dtstart, k) == period_hi(uncounted(r), dtstart, k),
        period_times(r, dtstart, k) == period_times(uncounted(r), dtstart, k),
{
    lemma_same_candidates(
        r,
        filter_of(r, dtstart),
        dtstart,
        period_lo(r, dtstart, k),
        period_hi(r, dtstart, k),
    );
    assert(filter_of(r, dtstart) == filter_of(uncounted(r), dtstart));
}

proof fn lemma_collect_counted(
    n: u32,
    dtstart: int,
    until: Option<int>,
    limit: int,
    c: Seq<int>,
    i: int,
    out: Seq<int>,
)
    requires
        0 <= i <= c.len(),
        out.len() < n,
    ensures
        ({
            let (o, done) = collect(None, dtstart, until, limit, c, i, out);
            let (o1, done1) = collect(Some(n), dtstart, until, limit, c, i, out);
            &&& o1 == first_of(o, n as int)
            &&& done1 == (done || o.len() >= n)
        }),
    decreases c.len() - i,
{
    if i < c.len() {
        if c[i] < dtstart {
            lemma_collect_counted(n, dtstart, until, limit, c, i + 1, out);
        } else if (until is Some && c[i] > until->0) || c[i] > limit {
        } else {
            let o = out.push(c[i]);
            if o.len() >= n {
                let from = lowest_of(c, i);
                lemma_lowest_of(c, i);
                lemma_collect_goes_on(None, dtstart, until, limit, c, i + 1, o, from);
                assert(o.take(n as int) =~= o);
            } else {
                lemma_collect_counted(n, dtstart, until, limit, c, i + 1, o);
            }
        }
    }
}

/// A bound below the elements from a position on.
spec fn lowest_of(c: Seq<int>, i: int) -> int
    decreases c.len() - i,
{
    if i >= c.len() {
        0
    } else if c[i] < lowest_of(c, i + 1) {
        c[i]
    } else {
        lowest_of(c, i + 1)
    }
}

proof fn lemma_lowest_of(c: Seq<int>, i: int)
    requires
        0 <= i,
    ensures
        forall|j: int| i <= j < c.len() ==> lowest_of(c, i) <= #[trigger] c[j],
    decreases c.len() - i,
{
    if i < c.len() {
        lemma_lowest_of(c, i + 1);
    }
}

proof fn lemma_counted(
    r: RuleModel,
    n: u32,
    dtstart: int,
    first: int,
    until: Option<int>,
    limit: int,
    k: int,
    out: Seq<int>,
)
    requires
        r.count == Some(n),
        out.len() < n,
    ensures
        occurrences_from(r, dtstart, first, until, limit, k, out) == first_of(
            occurrences_from(uncounted(r), dtstart, first, until, limit, k, out),
            n as int,
        ),
    decreases MAX_PERIODS - k,
{
    lemma_same_times(r, dtstart, k);
    if k >= MAX_PERIODS || stops_before(r, dtstart, until, limit, k) {
    } else {
        let c = period_times(r, dtstart, k);
        lemma_collect_counted(n, first, until, limit, c, 0, out);
        let (o, done) = collect(None, first, until, limit, c, 0, out);
        if !done {
            if o.len() >= n {
                let from = period_lo(uncounted(r), dtstart, k + 1);
                let all = occurrences_from(uncounted(r), dtstart, first, until, limit, k + 1, o);
                lemma_occurrences_go_on(uncounted(r), dtstart, first, until, limit, k + 1, o, from);
                assert(first_of(all, n as int) =~= first_of(o, n as int)) by {
                    assert forall|j: int| 0 <= j < n implies all[j] == o[j] by {
                        assert(all.take(o.len() as int)[j] == all[j]);
                    }
                }
            } else {
                lemma_counted(r, n, dtstart, first, until, limit, k + 1, o);
            }
        }
    }
}

/// A rule with a count gives the first so many of the occurrences that it has without
/// one, or all of them where there are fewer.
pub proof fn law_count_keeps_the_first(r: RuleModel, n: u32, start: int, until: Option<int>, limit: int)
    requires
        r.count == Some(n),
        n >= 1,
    ensures
        occurrences(r, start, until, limit) == first_of(
            occurrences(RuleModel { count: None, ..r }, start, until, limit),
            n as int,
        ),
{
    if first_second(start) <= limit {
        lemma_counted(r, n, second_at(start), first_second(start), until, limit, 0, Seq::empty());
    }
}

proof fn lemma_filtered(s: Seq<int>, n: int, u: int)
    requires
        0 <= n <= s.len(),
        forall|j: int| 0 <= j < n ==> #[trigger] s[j] <= u,
        forall|j: int| n <= j < s.len() ==> #[trigger] s[j] > u,
    ensures
        s.filter(|c: int| c <= u) == s.take(n),
    decreases s.len(),
{
    reveal(Seq::filter);
    if s.len() > 0 {
        let rest = s.drop_last();
        if n == s.len() {
            lemma_filtered(rest, n - 1, u);
            assert(rest.take(n - 1).push(s.last()) =~= s.take(n));
        } else {
            lemma_filtered(rest, n, u);
            assert(rest.take(n) =~= s.take(n));
        }
    } else {
        assert(s.take(n) =~= s);
    }
}

/// Whether a list is cut off where it passes an end.
spec fn is_cut(all: Seq<int>, cut: Seq<int>, u: int) -> bool {
    &&& goes_on(all, cut, u + 1)
    &&& forall|j: int| 0 <= j < cut.len() ==> #[trigger] cut[j] <= u
}

proof fn lemma_collect_until(
    count: Option<u32>,
    dtstart: int,
    u: int,
    limit: int,
    c: Seq<int>,
    i: int,
    out: Seq<int>,
    hi: int,
)
    requires
        0 <= i <= c.len(),
        strictly_ascending(c),
        forall|j: int| 0 <= j < c.len() ==> #[trigger] c[j] < hi,
        forall|j: int| 0 <= j < out.len() ==> #[trigger] out[j] <= u,
    ensures
        ({
            let (o, done) = collect(count, dtstart, None, limit, c, i, out);
            let (o1, done1) = collect(count, dtstart, Some(u), limit, c, i, out);
            &&& is_cut(o, o1, u)
            &&& (o == o1 && done == done1) || (done1 && u < hi)
        }),
    decreases c.len() - i,
{
    assert(out.take(out.len() as int) =~= out);
    if i < c.len() {
        if c[i] < dtstart {
            lemma_collect_until(count, dtstart, u, limit, c, i + 1, out, hi);
        } else if c[i] > u {
            assert forall|j: int| i <= j < c.len() implies u + 1 <= #[trigger] c[j] by {
                if i < j {
                    assert(c[i] < c[j]);
                }
            }
            lemma_collect_goes_on(count, dtstart, None, limit, c, i, out, u + 1);
        } else if c[i] > limit {
        } else {
            let o = out.push(c[i]);
            assert(o.take(o.len() as int) =~= o);
            if !(count is Some && out.len() + 1 >= count->0) {
                lemma_collect_until(count, dtstart, u, limit, c, i + 1, o, hi);
            }
        }
    }
}

proof fn lemma_until(r: RuleModel, dtstart: int, first: int, u: int, limit: int, k: int, out: Seq<int>)
    requires
        forall|j: int| 0 <= j < out.len() ==> #[trigger] out[j] <= u,
    ensures
        is_cut(
            occurrences_from(r, dtstart, first, None, limit, k, out),
            occurrences_from(r, dtstart, first, Some(u), limit, k, out),
            u,
        ),
    decreases MAX_PERIODS - k,
{
    assert(out.take(out.len() as int) =~= out);
    if k >= MAX_PERIODS || stops_before(r, dtstart, None, limit, k) {
    } else if stops_before(r, dtstart, Some(u), limit, k) {
        lemma_occurrences_go_on(r, dtstart, first, None, limit, k, out, u + 1);
    } else {
        let c = period_times(r, dtstart, k);
        lemma_period_times(r, dtstart, k);
        law_periods_are_apart(r, dtstart, k);
        lemma_collect_until(r.count, first, u, limit, c, 0, out, period_hi(r, dtstart, k));
        let (o, done) = collect(r.count, first, None, limit, c, 0, out);
        let (o1, done1) = collect(r.count, first, Some(u), limit, c, 0, out);
        if o == o1 && done == done1 {
            if !done {
                lemma_until(r, dtstart, first, u, limit, k + 1, o);
            }
        } else if !done {
            lemma_occurrences_go_on(r, dtstart, first, None, limit, k + 1, o, u + 1);
            lemma_goes_on(o1, o, occurrences_from(r, dtstart, first, None, limit, k + 1, o), u + 1);
        }
    }
}

/// The end of a rule only cuts off the tail of its occurrences, and the end itself still
/// counts.
pub proof fn law_until_cuts_the_tail(r: RuleModel, start: int, u: int, limit: int)
    ensures
        occurrences(r, start, Some(u), limit) == occurrences(r, start, None, limit).filter(|c: int| c <= u),
{
    let all = occurrences(r, start, None, limit);
    let cut = occurrences(r, start, Some(u), limit);
    assert(all.take(0) =~= Seq::<int>::empty());
    if first_second(start) <= limit {
        lemma_until(r, second_at(start), first_second(start), u, limit, 0, Seq::empty());
    }
    assert forall|j: int| 0 <= j < cut.len() implies #[trigger] all[j] <= u by {
        assert(all.take(cut.len() as int)[j] == cut[j]);
    }
    lemma_filtered(all, cut.len() as int, u);
}

// ---------------------------------------------------------------------------
// At which times rules recur
// ---------------------------------------------------------------------------

proof fn lemma_each_candidate(r: RuleModel, f: FilterModel, dtstart: int, lo: int, hi: int, t: int)
    requires
        lo <= t < hi,
        is_candidate(r, f, dtstart, t),
    ensures
        candidates(r, f, dtstart, lo, hi).contains(t),
    decreases hi - lo,
{
    let before = candidates(r, f, dtstart, lo, hi - 1);
    if t < hi - 1 {
        lemma_each_candidate(r, f, dtstart, lo, hi - 1, t);
        if is_candidate(r, f, dtstart, hi - 1) {
            crate::text::lemma_push_contains(before, hi - 1, t);
        }
    } else {
        crate::text::lemma_push_contains(before, t, t);
    }
}

/// Whether a time is one of the k-th period.
spec fn in_period(r: RuleModel, dtstart: int, k: int, t: int) -> bool {
    period_times(r, dtstart, k).contains(t)
}

/// Whether a time is one of some period that is looked at.
spec fn in_some_period(r: RuleModel, dtstart: int, t: int) -> bool {
    exists|k: int| 0 <= k < MAX_PERIODS && #[trigger] in_period(r, dtstart, k, t) && !after_years(r, dtstart, k)
}

proof fn lemma_collected(
    count: Option<u32>,
    first: int,
    until: Option<int>,
    limit: int,
    c: Seq<int>,
    i: int,
    out: Seq<int>,
    t: int,
)
    requires
        0 <= i <= c.len(),
        collect(count, first, until, limit, c, i, out).0.contains(t),
    ensures
        out.contains(t) || c.contains(t),
    decreases c.len() - i,
{
    if i < c.len() {
        let more = out.push(c[i]);
        if c[i] < first {
            lemma_collected(count, first, until, limit, c, i + 1, out, t);
        } else if (until is Some && c[i] > until->0) || c[i] > limit {
        } else {
            if !(count is Some && out.len() + 1 >= count->0) {
                lemma_collected(count, first, until, limit, c, i + 1, more, t);
            }
            if more.contains(t) {
                let at = more.index_of(t);
                if at < out.len() {
                    assert(out[at] == t);
                } else {
                    assert(c[i] == t);
                }
            }
        }
    }
}

proof fn lemma_from_periods(
    r: RuleModel,
    dtstart: int,
    first: int,
    until: Option<int>,
    limit: int,
    k: int,
    out: Seq<int>,
    t: int,
)
    requires
        0 <= k,
        out.contains(t) ==> in_some_period(r, dtstart, t),
        occurrences_from(r, dtstart, first, until, limit, k, out).contains(t),
    ensures
        in_some_period(r, dtstart, t),
    decreases MAX_PERIODS - k,
{
    if k >= MAX_PERIODS || stops_before(r, dtstart, until, limit, k) {
    } else {
        let c = period_times(r, dtstart, k);
        let (o, done) = collect(r.count, first, until, limit, c, 0, out);
        if o.contains(t) {
            lemma_collected(r.count, first, until, limit, c, 0, out, t);
            if c.contains(t) {
                assert(in_period(r, dtstart, k, t));
            }
        }
        if !done {
            lemma_from_periods(r, dtstart, first, until, limit, k + 1, o, t);
        }
    }
}

proof fn lemma_passed_over(
    first: int,
    until: Option<int>,
    limit: int,
    c: Seq<int>,
    i: int,
    out: Seq<int>,
    t: int,
)
    requires
        0 <= i <= c.len(),
        strictly_ascending(c),
        first <= t <= limit,
        until is Some ==> t <= until->0,
        forall|j: int| 0 <= j < c.len() ==> #[trigger] c[j] <= t || c.contains(t),
    ensures
        ({
            let (o, done) = collect(None, first, until, limit, c, i, out);
            &&& (exists|j: int| i <= j < c.len() && c[j] == t) || out.contains(t) ==> o.contains(t)
            &&& !c.contains(t) ==> !done
        }),
    decreases c.len() - i,
{
    if i < c.len() {
        let more = out.push(c[i]);
        if out.contains(t) {
            crate::text::lemma_push_contains(out, c[i], t);
        }
        if c[i] < first {
            lemma_passed_over(first, until, limit, c, i + 1, out, t);
        } else if (until is Some && c[i] > until->0) || c[i] > limit {
            assert(c[i] > t);
            assert forall|j: int| i <= j < c.len() implies c[j] != t by {
                if i < j {
                    assert(c[i] < c[j]);
                }
            }
        } else {
            if c[i] == t {
                crate::text::lemma_push_contains(out, c[i], t);
            }
            lemma_passed_over(first, until, limit, c, i + 1, more, t);
        }
        if exists|j: int| i <= j < c.len() && c[j] == t {
            let j = choose|j: int| i <= j < c.len() && c[j] == t;
            if j > i {
                assert(i + 1 <= j < c.len() && c[j] == t);
            }
        }
    }
}

proof fn lemma_periods_ascend(r: RuleModel, dtstart: int, j: int, k: int)
    requires
        j <= k,
    ensures
        period_lo(r, dtstart, j) <= period_lo(r, dtstart, k),
        j < k ==> period_hi(r, dtstart, j) <= period_lo(r, dtstart, k),
    decreases k - j,
{
    if j < k {
        lemma_periods_ascend(r, dtstart, j + 1, k);
        law_periods_are_apart(r, dtstart, j);
        lemma_period_length(r, dtstart, j);
    }
}

proof fn lemma_found(
    r: RuleModel,
    dtstart: int,
    first: int,
    until: Option<int>,
    limit: int,
    k: int,
    j: int,
    out: Seq<int>,
    t: int,
)
    requires
        r.count is None,
        0 <= j <= k < MAX_PERIODS,
        in_period(r, dtstart, k, t),
        first <= t <= limit,
        until is Some ==> t <= until->0,
        !after_years(r, dtstart, k),
    ensures
        occurrences_from(r, dtstart, first, until, limit, j, out).contains(t),
    decreases k - j,
{
    lemma_period_times(r, dtstart, k);
    let ck = period_times(r, dtstart, k);
    let at = ck.index_of(t);
    assert(ck[at] == t);
    assert(period_lo(r, dtstart, k) <= t < period_hi(r, dtstart, k));
    lemma_periods_ascend(r, dtstart, j, k);
    assert(!stops_before(r, dtstart, until, limit, j)) by {
        assert(86_400 * day_of(period_lo(r, dtstart, j)) <= period_lo(r, dtstart, j));
        if r.freq == Freq::Yearly || r.freq == Freq::Monthly {
            lemma_years_of_periods(r, dtstart, j, k);
        }
    }
    let c = period_times(r, dtstart, j);
    lemma_period_times(r, dtstart, j);
    if j < k {
        assert forall|i: int| 0 <= i < c.len() implies #[trigger] c[i] <= t || c.contains(t) by {
            assert(c[i] < period_hi(r, dtstart, j));
        }
        assert(!c.contains(t)) by {
            if c.contains(t) {
                let i = c.index_of(t);
                assert(c[i] == t && c[i] < period_hi(r, dtstart, j));
            }
        }
        lemma_passed_over(first, until, limit, c, 0, out, t);
        let (o, done) = collect(None, first, until, limit, c, 0, out);
        lemma_found(r, dtstart, first, until, limit, k, j + 1, o, t);
    } else {
        lemma_passed_over(first, until, limit, c, 0, out, t);
        assert(0 <= at < c.len() && c[at] == t);
        let (o, done) = collect(None, first, until, limit, c, 0, out);
        assert(o.contains(t));
        if !done {
            let from = period_lo(r, dtstart, k + 1);
            let all = occurrences_from(r, dtstart, first, until, limit, k + 1, o);
            lemma_occurrences_go_on(r, dtstart, first, until, limit, k + 1, o, from);
            let i = o.index_of(t);
            assert(all.take(o.len() as int)[i] == all[i]);
            assert(all[i] == t);
        }
    }
}

proof fn lemma_years_of_periods(r: RuleModel, dtstart: int, j: int, k: int)
    requires
        j <= k,
    ensures
        period_year(r, dtstart, j) <= period_year(r, dtstart, k),
{
    let step = step_of(r);
    assert(j * step <= k * step) by (nonlinear_arith)
        requires
            j <= k,
            step >= 1,
    ;
    assert(month_index(r, dtstart, j) <= month_index(r, dtstart, k));
}

/// Whether a rule says nothing of the days, times and positions at which it recurs.
pub open spec fn only_repeats(r: RuleModel) -> bool {
    &&& r.by_second.len() == 0 && r.by_minute.len() == 0 && r.by_hour.len() == 0
    &&& r.by_day.len() == 0 && r.by_month_day.len() == 0 && r.by_year_day.len() == 0
    &&& r.by_week_no.len() == 0 && r.by_month.len() == 0 && r.by_set_pos.len() == 0
}

/// The seconds of a week, a day, an hour, a minute or a second.
pub open spec fn span_of(freq: Freq) -> int {
    match freq {
        Freq::Weekly => 604_800,
        Freq::Daily => 86_400,
        Freq::Hourly => 3_600,
        Freq::Minutely => 60,
        _ => 1,
    }
}

/// A time so many steps behind another.
pub open spec fn steps_on(first: int, step: int, k: int) -> int {
    first + k * step
}

#[verifier::spinoff_prover]
#[verifier::rlimit(50)]
proof fn lemma_same_second(r: RuleModel, dtstart: int, o: int)
    requires
        r.by_second.len() == 0,
        r.by_minute.len() == 0,
        r.by_hour.len() == 0,
        unit_of(r.freq) == 86_400,
        0 <= o < 86_400,
    ensures
        second_ok(r, dtstart, o) == (o == second_of_day(dtstart)),
{
    reveal(second_ok);
    let s = second_of_day(dtstart);
    if o / 3600 == s / 3600 && o / 60 % 60 == s / 60 % 60 && o % 60 == s % 60 {
        assert(o == 3600 * (o / 3600) + 60 * (o / 60 % 60) + o % 60);
        assert(s == 3600 * (s / 3600) + 60 * (s / 60 % 60) + s % 60);
    }
}

proof fn lemma_weekday_number(n: int)
    requires
        0 <= n < 7,
    ensures
        weekday_number(weekday_at(n)) == n,
{
}

proof fn lemma_weekly_day(r: RuleModel, dtstart: int, d: int)
    requires
        is_bare(r),
        r.freq == Freq::Weekly,
    ensures
        day_matches(filter_of(r, dtstart), d) ==> (d - day_of(dtstart)) % 7 == 0,
        r.by_month.len() == 0 && in_calendar(d) && (d - day_of(dtstart)) % 7 == 0 ==> day_matches(
            filter_of(r, dtstart),
            d,
        ),
{
    let f = filter_of(r, dtstart);
    let w = weekday_at(weekday_of(day_of(dtstart)));
    lemma_weekday_number(weekday_of(d));
    lemma_weekday_number(weekday_of(day_of(dtstart)));
    assert(f.by_day =~= seq![(0i32, w)]);
    assert(f.by_day[0] == (0i32, w));
    if day_matches(f, d) {
        assert(weekday_ok(f, d));
        assert(weekday_of(d) == weekday_of(day_of(dtstart)));
    }
    if (d - day_of(dtstart)) % 7 == 0 {
        assert(weekday_of(d) == weekday_of(day_of(dtstart)));
        assert(ordinal_ok(f, f.by_day[0].0, d));
        assert(weekday_ok(f, d));
    }
}

/// Whatever else it says, a weekly rule that names no days of its own recurs only on the
/// weekday of its start: every occurrence is whole weeks from the day of the start.
pub proof fn law_a_weekly_rule_keeps_its_weekday(r: RuleModel, start: int, until: Option<int>, limit: int, i: int)
    requires
        r.freq == Freq::Weekly,
        r.by_day.len() == 0,
        r.by_month_day.len() == 0,
        r.by_year_day.len() == 0,
        r.by_week_no.len() == 0,
        0 <= i < occurrences(r, start, until, limit).len(),
    ensures
        ({
            let o = occurrences(r, start, until, limit);
            &&& (day_of(o[i]) - moment_day(start)) % 7 == 0
            &&& weekday_of(day_of(o[i])) == weekday_of(moment_day(start))
            &&& r.by_hour.len() == 0 && r.by_minute.len() == 0 && r.by_second.len() == 0 ==> second_of_day(o[i])
                == second_of_day(second_at(start))
        }),
{
    law_occurrences(r, start, until, limit);
    let t = occurrences(r, start, until, limit)[i];
    let dtstart = second_at(start);
    reveal(unit_ok);
    lemma_weekly_day(r, dtstart, day_of(t));
    assert(day_of(t - t % 86_400) == day_of(t));
    if r.by_hour.len() == 0 && r.by_minute.len() == 0 && r.by_second.len() == 0 {
        lemma_same_second(r, dtstart, t % 86_400);
    }
}

#[verifier::spinoff_prover]
#[verifier::rlimit(50)]
proof fn lemma_even_candidate(r: RuleModel, dtstart: int, k: int, t: int)
    requires
        only_repeats(r),
        r.freq != Freq::Yearly,
        r.freq != Freq::Monthly,
        in_calendar(day_of(t)),
    ensures
        period_lo(r, dtstart, k) <= t < period_hi(r, dtstart, k) && is_candidate(r, filter_of(r, dtstart), dtstart, t)
            <==> t == dtstart + span_of(r.freq) * (k * step_of(r)),
{
    let f = filter_of(r, dtstart);
    let step = k * step_of(r);
    let u = unit_of(r.freq);
    match r.freq {
        Freq::Weekly => {
            reveal(unit_ok);
            lemma_weekly_day(r, dtstart, day_of(t));
            lemma_same_second(r, dtstart, t % 86_400);
            assert(day_of(t - t % 86_400) == day_of(t));
            lemma_week_arithmetic(r, dtstart, step, t);
        },
        Freq::Daily => {
            reveal(unit_ok);
            lemma_same_second(r, dtstart, t % 86_400);
            assert(day_of(t - t % 86_400) == day_of(t));
            assert(day_matches(f, day_of(t)));
            lemma_day_arithmetic(dtstart, step, t);
        },
        Freq::Hourly => {
            reveal(unit_ok);
            reveal(second_ok);
            assert(day_of(t - t % 3_600) == day_of(t));
            assert(day_matches(f, day_of(t)));
            lemma_hour_arithmetic(dtstart, step, t);
        },
        Freq::Minutely => {
            reveal(unit_ok);
            reveal(second_ok);
            assert(day_of(t - t % 60) == day_of(t));
            assert(day_matches(f, day_of(t)));
            assert(t % 60 % 60 == t % 60);
            assert(second_of_day(dtstart) % 60 == dtstart % 60);
        },
        _ => {
            reveal(unit_ok);
            reveal(second_ok);
            assert(day_matches(f, day_of(t)));
        },
    }
}

#[verifier::spinoff_prover]
#[verifier::rlimit(50)]
proof fn lemma_week_arithmetic(r: RuleModel, dtstart: int, step: int, t: int)
    ensures
        ({
            let lo = 86_400 * (week_of(r, dtstart) + 7 * step);
            lo <= t < lo + 604_800 && (day_of(t) - day_of(dtstart)) % 7 == 0 && t % 86_400 == dtstart % 86_400
        }) <==> t == dtstart + 604_800 * step,
{
    let w = week_of(r, dtstart);
    let d0 = day_of(dtstart);
    assert(w <= d0 < w + 7);
    let d = day_of(t);
    assert(t == 86_400 * d + t % 86_400);
    assert(dtstart == 86_400 * d0 + dtstart % 86_400);
    if w + 7 * step <= d < w + 7 * step + 7 && (d - d0) % 7 == 0 {
        assert(d == d0 + 7 * step);
    }
    if t == dtstart + 604_800 * step {
        assert(d == d0 + 7 * step);
    }
}

#[verifier::spinoff_prover]
#[verifier::rlimit(50)]
proof fn lemma_day_arithmetic(dtstart: int, step: int, t: int)
    ensures
        ({
            let lo = 86_400 * (day_of(dtstart) + step);
            lo <= t < lo + 86_400 && t % 86_400 == dtstart % 86_400
        }) <==> t == dtstart + 86_400 * step,
{
}

#[verifier::spinoff_prover]
#[verifier::rlimit(50)]
proof fn lemma_hour_arithmetic(dtstart: int, step: int, t: int)
    ensures
        ({
            let lo = dtstart - dtstart % 3600 + 3600 * step;
            let s = second_of_day(dtstart);
            let o = t % 3600;
            lo <= t < lo + 3600 && o / 60 % 60 == s / 60 % 60 && o % 60 == s % 60
        }) <==> t == dtstart + 3600 * step,
{
    lemma_same_minute(second_of_day(dtstart), t % 3600);
    lemma_hour_of_day(dtstart);
    lemma_hours(dtstart, step, t);
}

proof fn lemma_hour_of_day(t: int)
    ensures
        second_of_day(t) % 3600 == t % 3600,
{
    vstd::arithmetic::div_mod::lemma_mod_mod(t, 3600, 24);
}

proof fn lemma_same_minute(s: int, o: int)
    requires
        0 <= s,
        0 <= o < 3600,
    ensures
        o / 60 % 60 == s / 60 % 60 && o % 60 == s % 60 <==> o == s % 3600,
{
    lemma_within_the_hour(s);
    lemma_within_the_hour(o);
    lemma_small_mod(o as nat, 3600);
    lemma_sixties(s % 3600, o);
}

#[verifier::spinoff_prover]
#[verifier::rlimit(50)]
proof fn lemma_within_the_hour(s: int)
    ensures
        s / 60 % 60 == s % 3600 / 60,
        s % 60 == s % 3600 % 60,
{
    let q = s / 3600;
    let x = s % 3600;
    assert(s == 3600 * q + x);
    assert(s / 60 == 60 * q + x / 60);
}

proof fn lemma_sixties(a: int, b: int)
    requires
        0 <= a,
        0 <= b,
    ensures
        a / 60 == b / 60 && a % 60 == b % 60 <==> a == b,
{
}

#[verifier::spinoff_prover]
#[verifier::rlimit(50)]
proof fn lemma_hours(dtstart: int, step: int, t: int)
    ensures
        ({
            let lo = dtstart - dtstart % 3600 + 3600 * step;
            lo <= t < lo + 3600 && t % 3600 == dtstart % 3600
        }) <==> t == dtstart + 3600 * step,
{
    let q = dtstart / 3600;
    assert(dtstart == 3600 * q + dtstart % 3600);
    if t == dtstart + 3600 * step {
        assert(t == 3600 * (q + step) + dtstart % 3600);
    }
}

#[verifier::spinoff_prover]
#[verifier::rlimit(50)]
proof fn lemma_even_period(r: RuleModel, dtstart: int, k: int, t: int)
    requires
        only_repeats(r),
        r.freq != Freq::Yearly,
        r.freq != Freq::Monthly,
        r.interval >= 1,
        in_calendar(day_of(t)),
    ensures
        in_period(r, dtstart, k, t) == (t == steps_on(dtstart, span_of(r.freq) * r.interval, k)),
{
    let f = filter_of(r, dtstart);
    let lo = period_lo(r, dtstart, k);
    let hi = period_hi(r, dtstart, k);
    let step = k * step_of(r);
    lemma_period_times(r, dtstart, k);
    let c = period_times(r, dtstart, k);
    assert(c == candidates(r, f, dtstart, lo, hi));
    assert(span_of(r.freq) * step == k * (span_of(r.freq) * r.interval)) by (nonlinear_arith)
        requires
            step == k * r.interval,
    ;
    lemma_even_candidate(r, dtstart, k, t);
    if c.contains(t) {
        let i = c.index_of(t);
        assert(c[i] == t);
    }
    if t == steps_on(dtstart, span_of(r.freq) * r.interval, k) {
        lemma_each_candidate(r, f, dtstart, lo, hi, t);
    }
}

/// A rule that only repeats every so many weeks, days, hours, minutes or seconds recurs
/// exactly at those distances from its start, the start itself being the first: every time
/// that many spans on is there up to the limit and the end, and no other is. (Half a million
/// periods are looked at.)
pub proof fn law_a_rule_recurs_evenly(r: RuleModel, start: int, until: Option<int>, limit: int, t: int)
    requires
        only_repeats(r),
        r.freq != Freq::Yearly,
        r.freq != Freq::Monthly,
        r.interval >= 1,
        r.count is None,
        start % 2 == 0,
        in_calendar(day_of(start / 2)),
        in_calendar(day_of(limit)),
    ensures
        occurrences(r, start, until, limit).contains(t) <==> t <= limit && (until is Some ==> t <= until->0) && exists|
            k: int,
        |
            0 <= k < 500_000 && t == #[trigger] steps_on(start / 2, span_of(r.freq) * r.interval, k),
{
    let dtstart = second_at(start);
    let step = span_of(r.freq) * r.interval;
    assert(step >= 1) by (nonlinear_arith)
        requires
            step == span_of(r.freq) * r.interval,
            span_of(r.freq) >= 1,
            r.interval >= 1,
    ;
    law_occurrences(r, start, until, limit);
    let o = occurrences(r, start, until, limit);
    if o.contains(t) {
        let i = o.index_of(t);
        assert(start <= 2 * o[i]);
        assert(in_calendar(day_of(t)));
        lemma_from_periods(r, dtstart, first_second(start), until, limit, 0, Seq::empty(), t);
        let k = choose|k: int| 0 <= k < MAX_PERIODS && #[trigger] in_period(r, dtstart, k, t);
        lemma_even_period(r, dtstart, k, t);
        assert(t == steps_on(start / 2, step, k));
    }
    if t <= limit && (until is Some ==> t <= until->0) && exists|k: int|
        0 <= k < 500_000 && t == #[trigger] steps_on(start / 2, step, k) {
        let k = choose|k: int| 0 <= k < 500_000 && t == #[trigger] steps_on(start / 2, step, k);
        assert(k * step >= 0) by (nonlinear_arith)
            requires
                k >= 0,
                step >= 1,
        ;
        lemma_even_period(r, dtstart, k, t);
        lemma_found(r, dtstart, first_second(start), until, limit, k, 0, Seq::empty(), t);
    }
}

/// The i-th occurrence of such a rule is that many steps from its start, also where the rule
/// has a count or an end.
pub proof fn law_occurrences_are_evenly_apart(r: RuleModel, start: int, until: Option<int>, limit: int, i: int)
    requires
        only_repeats(r),
        r.freq != Freq::Yearly,
        r.freq != Freq::Monthly,
        r.interval >= 1,
        r.count is None || r.count->0 >= 1,
        start % 2 == 0,
        in_calendar(day_of(start / 2)),
        in_calendar(day_of(limit)),
        0 <= i < occurrences(r, start, until, limit).len(),
    ensures
        occurrences(r, start, until, limit)[i] == start / 2 + i * (span_of(r.freq) * r.interval),
    decreases i,
{
    let whole = uncounted(r);
    let o = occurrences(r, start, until, limit);
    let all = occurrences(whole, start, until, limit);
    if r.count is Some {
        law_count_keeps_the_first(r, r.count->0, start, until, limit);
    }
    assert(uncounted(r) == RuleModel { count: None, ..r });
    if r.count is None {
        assert(whole == r);
    }
    assert(i < all.len() && all[i] == o[i]);
    lemma_evenly(whole, start, until, limit, i);
}

#[verifier::spinoff_prover]
#[verifier::rlimit(50)]
proof fn lemma_evenly(r: RuleModel, start: int, until: Option<int>, limit: int, i: int)
    requires
        only_repeats(r),
        r.freq != Freq::Yearly,
        r.freq != Freq::Monthly,
        r.interval >= 1,
        r.count is None,
        start % 2 == 0,
        in_calendar(day_of(start / 2)),
        in_calendar(day_of(limit)),
        0 <= i < occurrences(r, start, until, limit).len(),
    ensures
        occurrences(r, start, until, limit)[i] == steps_on(start / 2, span_of(r.freq) * r.interval, i),
    decreases i,
{
    let o = occurrences(r, start, until, limit);
    let step = span_of(r.freq) * r.interval;
    assert(step >= 1) by (nonlinear_arith)
        requires
            step == span_of(r.freq) * r.interval,
            span_of(r.freq) >= 1,
            r.interval >= 1,
    ;
    law_occurrences(r, start, until, limit);
    let t = o[i];
    assert(o.contains(t));
    law_a_rule_recurs_evenly(r, start, until, limit, t);
    let k = choose|k: int| 0 <= k < 500_000 && t == #[trigger] steps_on(start / 2, step, k);
    if i == 0 {
        if k > 0 {
            let s = steps_on(start / 2, step, 0);
            assert(0 * step == 0) by (nonlinear_arith);
            assert(s == start / 2);
            assert(k * step > 0) by (nonlinear_arith)
                requires
                    k > 0,
                    step >= 1,
            ;
            law_a_rule_recurs_evenly(r, start, until, limit, s);
            let j = o.index_of(s);
            assert(o[j] == s);
            if j > 0 {
                assert(o[0] < o[j]);
            }
        }
    } else {
        lemma_evenly(r, start, until, limit, i - 1);
        assert(o[i - 1] < o[i]);
        assert(k > i - 1) by (nonlinear_arith)
            requires
                k * step > (i - 1) * step,
                step >= 1,
        ;
        if k > i {
            let s = steps_on(start / 2, step, i);
            assert(k * step > i * step && i * step > (i - 1) * step) by (nonlinear_arith)
                requires
                    k > i,
                    step >= 1,
            ;
            law_a_rule_recurs_evenly(r, start, until, limit, s);
            let j = o.index_of(s);
            assert(o[j] == s);
            if j < i - 1 {
                assert(o[j] < o[i - 1]);
            } else if j > i {
                assert(o[i] < o[j]);
            }
        }
    }
}

/// The month so many months behind January of year 0, and a day of it, at a second of the
/// day.
pub open spec fn day_of_month(index: int, d: int, second: int) -> int {
    86_400 * day_number(index / 12, index % 12 + 1, d) + second
}

proof fn lemma_bare_month_day(r: RuleModel, dtstart: int, y: int, m: int, d: int)
    requires
        only_repeats(r),
        r.freq == Freq::Monthly || r.freq == Freq::Yearly,
        is_date(y, m, d),
        in_calendar(day_number(y, m, d)),
        is_date(date_of(day_of(dtstart)).0, date_of(day_of(dtstart)).1, date_of(day_of(dtstart)).2),
    ensures
        day_matches(filter_of(r, dtstart), day_number(y, m, d)) == (d == date_of(day_of(dtstart)).2 && (r.freq
            == Freq::Yearly ==> m == date_of(day_of(dtstart)).1)),
{
    let f = filter_of(r, dtstart);
    let (y0, m0, d0) = date_of(day_of(dtstart));
    lemma_date_of(y, m, d);
    assert(f.by_month_day =~= seq![d0 as i32]);
    assert(f.by_month_day[0] == d0);
    if r.freq == Freq::Yearly {
        assert(f.by_month =~= seq![m0 as u32]);
        assert(f.by_month[0] == m0);
        if f.by_month.contains(m as u32) {
            assert(m == m0);
        }
    }
    if d == d0 {
        assert(names_position(f.by_month_day, d, days_in_month_of(y, m)));
    }
}

/// A rule that only repeats every so many months recurs on the day of the month of its start
/// and at its time of day, in each of those months that has such a day, and at no other
/// time.
pub proof fn law_a_monthly_rule_keeps_its_day(
    r: RuleModel,
    start: int,
    until: Option<int>,
    limit: int,
    t: int,
    y0: int,
    m0: int,
    d0: int,
)
    requires
        only_repeats(r),
        r.freq == Freq::Monthly,
        r.interval >= 1,
        r.count is None,
        start % 2 == 0,
        is_date(y0, m0, d0),
        day_of(start / 2) == day_number(y0, m0, d0),
        MIN_YEAR <= y0,
    ensures
        occurrences(r, start, until, limit).contains(t) <==> t <= limit && (until is Some ==> t <= until->0) && exists|
            k: int,
        |
            0 <= k < 500_000 && t == #[trigger] day_of_month(
                12 * y0 + (m0 - 1) + k * r.interval,
                d0,
                second_of_day(start / 2),
            ) && (12 * y0 + (m0 - 1) + k * r.interval) / 12 <= 9_999 && is_date(
                (12 * y0 + (m0 - 1) + k * r.interval) / 12,
                (12 * y0 + (m0 - 1) + k * r.interval) % 12 + 1,
                d0,
            ),
{
    let dtstart = second_at(start);
    let sec = second_of_day(dtstart);
    lemma_date_of(y0, m0, d0);
    law_occurrences(r, start, until, limit);
    let o = occurrences(r, start, until, limit);
    if o.contains(t) {
        let i = o.index_of(t);
        assert(start <= 2 * o[i]);
        lemma_from_periods(r, dtstart, first_second(start), until, limit, 0, Seq::empty(), t);
        let k = choose|k: int|
            0 <= k < MAX_PERIODS && #[trigger] in_period(r, dtstart, k, t) && !after_years(r, dtstart, k);
        lemma_month_period(r, dtstart, k, t, y0, m0, d0);
    }
    if t <= limit && (until is Some ==> t <= until->0) && exists|k: int|
        0 <= k < 500_000 && t == #[trigger] day_of_month(12 * y0 + (m0 - 1) + k * r.interval, d0, sec) && (12 * y0 + (m0
            - 1) + k * r.interval) / 12 <= 9_999 && is_date(
            (12 * y0 + (m0 - 1) + k * r.interval) / 12,
            (12 * y0 + (m0 - 1) + k * r.interval) % 12 + 1,
            d0,
        ) {
        let k = choose|k: int|
            0 <= k < 500_000 && t == #[trigger] day_of_month(12 * y0 + (m0 - 1) + k * r.interval, d0, sec) && (12 * y0
                + (m0 - 1) + k * r.interval) / 12 <= 9_999 && is_date(
                (12 * y0 + (m0 - 1) + k * r.interval) / 12,
                (12 * y0 + (m0 - 1) + k * r.interval) % 12 + 1,
                d0,
            );
        lemma_month_period(r, dtstart, k, t, y0, m0, d0);
        assert(dtstart <= t) by {
            assert(k * r.interval >= 0) by (nonlinear_arith)
                requires
                    k >= 0,
                    r.interval >= 1,
            ;
            lemma_months_ascend(12 * y0 + (m0 - 1), 12 * y0 + (m0 - 1) + k * r.interval);
            assert((12 * y0 + (m0 - 1)) / 12 == y0 && (12 * y0 + (m0 - 1)) % 12 + 1 == m0);
        }
        lemma_found(r, dtstart, first_second(start), until, limit, k, 0, Seq::empty(), t);
    }
}

#[verifier::spinoff_prover]
#[verifier::rlimit(50)]
proof fn lemma_month_period(r: RuleModel, dtstart: int, k: int, t: int, y0: int, m0: int, d0: int)
    requires
        only_repeats(r),
        r.freq == Freq::Monthly,
        r.interval >= 1,
        0 <= k,
        is_date(y0, m0, d0),
        day_of(dtstart) == day_number(y0, m0, d0),
        MIN_YEAR <= y0,
        (12 * y0 + (m0 - 1) + k * r.interval) / 12 <= 9_999,
    ensures
        in_period(r, dtstart, k, t) == (t == day_of_month(
            12 * y0 + (m0 - 1) + k * r.interval,
            d0,
            second_of_day(dtstart),
        ) && is_date(
            (12 * y0 + (m0 - 1) + k * r.interval) / 12,
            (12 * y0 + (m0 - 1) + k * r.interval) % 12 + 1,
            d0,
        )),
{
    lemma_date_of(y0, m0, d0);
    let f = filter_of(r, dtstart);
    let lo = period_lo(r, dtstart, k);
    let hi = period_hi(r, dtstart, k);
    let index = 12 * y0 + (m0 - 1) + k * r.interval;
    assert(month_index(r, dtstart, k) == index);
    assert(k * r.interval >= 0) by (nonlinear_arith)
        requires
            k >= 0,
            r.interval >= 1,
    ;
    let y = index / 12;
    let m = index % 12 + 1;
    assert(y >= y0);
    lemma_period_times(r, dtstart, k);
    let c = period_times(r, dtstart, k);
    assert(c == candidates(r, f, dtstart, lo, hi));
    let d = day_of(t) - day_number(y, m, 1) + 1;
    assert(day_number(y, m, d) == day_of(t));
    reveal(unit_ok);
    lemma_same_second(r, dtstart, t % 86_400);
    assert(day_of(t - t % 86_400) == day_of(t));
    if lo <= t < hi {
        assert(is_date(y, m, d));
        lemma_calendar_range(y, m, d);
        lemma_bare_month_day(r, dtstart, y, m, d);
    }
    if c.contains(t) {
        let i = c.index_of(t);
        assert(c[i] == t);
    }
    if t == day_of_month(index, d0, second_of_day(dtstart)) && is_date(y, m, d0) {
        assert(day_of(t) == day_number(y, m, d0));
        assert(t % 86_400 == second_of_day(dtstart));
        assert(d == d0);
        assert(lo <= t < hi);
        assert(is_candidate(r, f, dtstart, t));
        lemma_each_candidate(r, f, dtstart, lo, hi, t);
    }
}

/// A date of a year at a second of the day.
pub open spec fn date_at(y: int, m: int, d: int, second: int) -> int {
    86_400 * day_number(y, m, d) + second
}

/// A rule that only repeats every so many years recurs on the month and day of its start and
/// at its time of day, in each of those years that has such a day, and at no other time.
pub proof fn law_a_yearly_rule_keeps_its_date(
    r: RuleModel,
    start: int,
    until: Option<int>,
    limit: int,
    t: int,
    y0: int,
    m0: int,
    d0: int,
)
    requires
        only_repeats(r),
        r.freq == Freq::Yearly,
        r.interval >= 1,
        r.count is None,
        start % 2 == 0,
        is_date(y0, m0, d0),
        day_of(start / 2) == day_number(y0, m0, d0),
        MIN_YEAR <= y0,
    ensures
        occurrences(r, start, until, limit).contains(t) <==> t <= limit && (until is Some ==> t <= until->0) && exists|
            k: int,
        |
            0 <= k < 500_000 && t == #[trigger] date_at(y0 + k * r.interval, m0, d0, second_of_day(start / 2)) && y0 + k
                * r.interval <= 9_999 && is_date(y0 + k * r.interval, m0, d0),
{
    let dtstart = second_at(start);
    let sec = second_of_day(dtstart);
    lemma_date_of(y0, m0, d0);
    law_occurrences(r, start, until, limit);
    let o = occurrences(r, start, until, limit);
    if o.contains(t) {
        let i = o.index_of(t);
        assert(start <= 2 * o[i]);
        lemma_from_periods(r, dtstart, first_second(start), until, limit, 0, Seq::empty(), t);
        let k = choose|k: int|
            0 <= k < MAX_PERIODS && #[trigger] in_period(r, dtstart, k, t) && !after_years(r, dtstart, k);
        lemma_year_period(r, dtstart, k, t, y0, m0, d0);
    }
    if t <= limit && (until is Some ==> t <= until->0) && exists|k: int|
        0 <= k < 500_000 && t == #[trigger] date_at(y0 + k * r.interval, m0, d0, sec) && y0 + k * r.interval <= 9_999
            && is_date(y0 + k * r.interval, m0, d0) {
        let k = choose|k: int|
            0 <= k < 500_000 && t == #[trigger] date_at(y0 + k * r.interval, m0, d0, sec) && y0 + k * r.interval <= 9_999
                && is_date(y0 + k * r.interval, m0, d0);
        lemma_year_period(r, dtstart, k, t, y0, m0, d0);
        assert(dtstart <= t) by {
            assert(k * r.interval >= 0) by (nonlinear_arith)
                requires
                    k >= 0,
                    r.interval >= 1,
            ;
            if k * r.interval > 0 {
                crate::dates::lemma_day_in_year(y0, m0, d0);
                crate::dates::lemma_day_in_year(y0 + k * r.interval, m0, d0);
                lemma_years_ascend(y0 + 1, y0 + k * r.interval);
            }
        }
        lemma_found(r, dtstart, first_second(start), until, limit, k, 0, Seq::empty(), t);
    }
}

#[verifier::spinoff_prover]
#[verifier::rlimit(50)]
proof fn lemma_year_period(r: RuleModel, dtstart: int, k: int, t: int, y0: int, m0: int, d0: int)
    requires
        only_repeats(r),
        r.freq == Freq::Yearly,
        r.interval >= 1,
        0 <= k,
        is_date(y0, m0, d0),
        day_of(dtstart) == day_number(y0, m0, d0),
        MIN_YEAR <= y0,
        y0 + k * r.interval <= 9_999,
    ensures
        in_period(r, dtstart, k, t) == (t == date_at(y0 + k * r.interval, m0, d0, second_of_day(dtstart)) && is_date(
            y0 + k * r.interval,
            m0,
            d0,
        )),
{
    lemma_date_of(y0, m0, d0);
    let f = filter_of(r, dtstart);
    let lo = period_lo(r, dtstart, k);
    let hi = period_hi(r, dtstart, k);
    assert(k * r.interval >= 0) by (nonlinear_arith)
        requires
            k >= 0,
            r.interval >= 1,
    ;
    let y = y0 + k * r.interval;
    assert(period_year(r, dtstart, k) == y);
    lemma_year_step(y);
    lemma_period_times(r, dtstart, k);
    let c = period_times(r, dtstart, k);
    assert(c == candidates(r, f, dtstart, lo, hi));
    reveal(unit_ok);
    lemma_same_second(r, dtstart, t % 86_400);
    assert(day_of(t - t % 86_400) == day_of(t));
    if lo <= t < hi {
        lemma_dated(y, day_of(t));
        let (y1, m1, d1) = date_of(day_of(t));
        lemma_calendar_range(y, m1, d1);
        lemma_bare_month_day(r, dtstart, y, m1, d1);
    }
    if c.contains(t) {
        let i = c.index_of(t);
        assert(c[i] == t);
    }
    if t == date_at(y, m0, d0, second_of_day(dtstart)) && is_date(y, m0, d0) {
        assert(day_of(t) == day_number(y, m0, d0));
        assert(t % 86_400 == second_of_day(dtstart));
        crate::dates::lemma_day_in_year(y, m0, d0);
        lemma_date_of(y, m0, d0);
        assert(lo <= t < hi);
        assert(is_candidate(r, f, dtstart, t));
        lemma_each_candidate(r, f, dtstart, lo, hi, t);
    }
}

/// Every occurrence obeys the rule: its month, hour, minute and second are among those that
/// are named, and so is its weekday. Of the hour, minute and second, what a rule that repeats
/// by days or longer does not name is that of its start.
#[verifier::spinoff_prover]
#[verifier::rlimit(50)]
pub proof fn law_occurrences_obey_the_rule(r: RuleModel, start: int, until: Option<int>, limit: int, i: int)
    requires
        0 <= i < occurrences(r, start, until, limit).len(),
    ensures
        ({
            let t = occurrences(r, start, until, limit)[i];
            let by_days = r.freq == Freq::Daily || r.freq == Freq::Weekly || r.freq == Freq::Monthly || r.freq
                == Freq::Yearly;
            &&& r.by_month.len() > 0 ==> r.by_month.contains(date_of(day_of(t)).1 as u32)
            &&& r.by_hour.len() > 0 ==> r.by_hour.contains((second_of_day(t) / 3600) as u32)
            &&& r.by_minute.len() > 0 ==> r.by_minute.contains((second_of_day(t) / 60 % 60) as u32)
            &&& r.by_second.len() > 0 ==> r.by_second.contains((second_of_day(t) % 60) as u32)
            &&& r.by_day.len() > 0 ==> exists|j: int|
                0 <= j < r.by_day.len() && (#[trigger] r.by_day[j]).1 == weekday_at(weekday_of(day_of(t)))
            &&& by_days && r.by_hour.len() == 0 ==> second_of_day(t) / 3600 == second_of_day(second_at(start)) / 3600
            &&& by_days && r.by_minute.len() == 0 ==> second_of_day(t) / 60 % 60 == second_of_day(second_at(start)) / 60
                % 60
            &&& by_days && r.by_second.len() == 0 ==> second_of_day(t) % 60 == second_of_day(second_at(start)) % 60
        }),
{
    law_occurrences(r, start, until, limit);
    let t = occurrences(r, start, until, limit)[i];
    let dtstart = second_at(start);
    let u = unit_of(r.freq);
    reveal(unit_ok);
    reveal(second_ok);
    lemma_unit_of_day(r.freq, t);
    let f = filter_of(r, dtstart);
    if r.by_day.len() > 0 {
        assert(f.by_day == r.by_day);
        assert(weekday_ok(f, day_of(t)));
    }
}

#[verifier::spinoff_prover]
#[verifier::rlimit(50)]
proof fn lemma_unit_of_day(freq: Freq, t: int)
    ensures
        ({
            let u = unit_of(freq);
            let a = second_of_day(t - t % u);
            let o = t % u;
            &&& day_of(t - t % u) == day_of(t)
            &&& u == 86_400 ==> o == second_of_day(t)
            &&& u < 86_400 ==> a / 3600 == second_of_day(t) / 3600
            &&& u == 3600 ==> o / 60 % 60 == second_of_day(t) / 60 % 60
            &&& u < 3600 ==> a / 60 % 60 == second_of_day(t) / 60 % 60
            &&& 60 <= u ==> o % 60 == second_of_day(t) % 60
            &&& u < 60 ==> a % 60 == second_of_day(t) % 60
        }),
{
    let s = second_of_day(t);
    match freq {
        Freq::Secondly => {},
        Freq::Minutely => {
            lemma_minute_of_day(t);
            lemma_whole_minutes(s);
        },
        Freq::Hourly => {
            lemma_hour_of_day(t);
            lemma_start_of_hour(t);
            lemma_within_the_hour(s);
            lemma_within_the_hour(t % 3600);
            lemma_small_mod((t % 3600) as nat, 3600);
        },
        _ => {
            assert(day_of(t - t % 86_400) == day_of(t));
        },
    }
}

#[verifier::spinoff_prover]
#[verifier::rlimit(50)]
proof fn lemma_minute_of_day(t: int)
    ensures
        t % 60 == second_of_day(t) % 60,
        day_of(t - t % 60) == day_of(t),
        second_of_day(t - t % 60) == second_of_day(t) - second_of_day(t) % 60,
{
    let s = second_of_day(t);
    let d = day_of(t);
    assert(t == 86_400 * d + s);
    assert(t % 60 == s % 60);
    let x = s - s % 60;
    assert(0 <= x < 86_400);
    assert(t - t % 60 == 86_400 * d + x);
}

#[verifier::spinoff_prover]
#[verifier::rlimit(50)]
proof fn lemma_start_of_hour(t: int)
    ensures
        day_of(t - t % 3600) == day_of(t),
        second_of_day(t - t % 3600) / 3600 == second_of_day(t) / 3600,
{
    let s = second_of_day(t);
    let d = day_of(t);
    lemma_hour_of_day(t);
    assert(t == 86_400 * d + s);
    let x = s - s % 3600;
    assert(0 <= x < 86_400);
    assert(t - t % 3600 == 86_400 * d + x);
}

#[verifier::spinoff_prover]
#[verifier::rlimit(50)]
proof fn lemma_whole_minutes(s: int)
    ensures
        (s - s % 60) / 60 == s / 60,
        (s - s % 60) / 3600 == s / 3600,
        s % 60 % 60 == s % 60,
{
}

/// Whether a list of weekdays has that of a day.
pub open spec fn on_named_weekday(list: Seq<(i32, Weekday)>, day: int) -> bool {
    exists|j: int| 0 <= j < list.len() && (#[trigger] list[j]).1 == weekday_at(weekday_of(day))
}

/// Whether a day lies in the week so many weeks behind the one that begins on another.
pub open spec fn in_week(day: int, first: int, weeks: int) -> bool {
    first + 7 * weeks <= day < first + 7 * weeks + 7
}

/// A weekly rule that names weekdays recurs, at the time of day of its start, on exactly those
/// weekdays of the weeks that are a multiple of its interval from the one its start lies in.
/// Weeks begin on the day that the rule says.
pub proof fn law_a_weekly_rule_on_named_days(
    r: RuleModel,
    start: int,
    until: Option<int>,
    limit: int,
    t: int,
    first: int,
)
    requires
        r.freq == Freq::Weekly,
        r.by_day.len() > 0,
        only_repeats(RuleModel { by_day: Seq::empty(), ..r }),
        r.interval >= 1,
        r.count is None,
        start % 2 == 0,
        in_calendar(day_of(start / 2)),
        in_calendar(day_of(limit)),
        first <= day_of(start / 2) < first + 7,
        weekday_of(first) == weekday_number(r.wkst),
    ensures
        occurrences(r, start, until, limit).contains(t) <==> start / 2 <= t <= limit && (until is Some ==> t <= until->0)
            && second_of_day(t) == second_of_day(start / 2) && on_named_weekday(r.by_day, day_of(t)) && exists|k: int|
            0 <= k < 500_000 && #[trigger] in_week(day_of(t), first, k * r.interval),
{
    let dtstart = second_at(start);
    let f = filter_of(r, dtstart);
    law_occurrences(r, start, until, limit);
    let o = occurrences(r, start, until, limit);
    assert(week_of(r, dtstart) == first);
    if o.contains(t) {
        let i = o.index_of(t);
        assert(start <= 2 * o[i]);
        assert(in_calendar(day_of(t)));
        lemma_from_periods(r, dtstart, first_second(start), until, limit, 0, Seq::empty(), t);
        let k = choose|k: int|
            0 <= k < MAX_PERIODS && #[trigger] in_period(r, dtstart, k, t) && !after_years(r, dtstart, k);
        lemma_named_days(r, dtstart, k, t);
        assert(in_week(day_of(t), first, k * r.interval));
    }
    if start / 2 <= t <= limit && (until is Some ==> t <= until->0) && second_of_day(t) == second_of_day(start / 2)
        && on_named_weekday(r.by_day, day_of(t)) && exists|k: int|
        0 <= k < 500_000 && #[trigger] in_week(day_of(t), first, k * r.interval) {
        let k = choose|k: int| 0 <= k < 500_000 && #[trigger] in_week(day_of(t), first, k * r.interval);
        lemma_named_days(r, dtstart, k, t);
        lemma_found(r, dtstart, first_second(start), until, limit, k, 0, Seq::empty(), t);
    }
}

#[verifier::spinoff_prover]
#[verifier::rlimit(50)]
proof fn lemma_named_days(r: RuleModel, dtstart: int, k: int, t: int)
    requires
        r.freq == Freq::Weekly,
        r.by_day.len() > 0,
        only_repeats(RuleModel { by_day: Seq::empty(), ..r }),
        r.interval >= 1,
        in_calendar(day_of(t)),
    ensures
        in_period(r, dtstart, k, t) == (second_of_day(t) == second_of_day(dtstart) && on_named_weekday(
            r.by_day,
            day_of(t),
        ) && in_week(day_of(t), week_of(r, dtstart), k * r.interval)),
{
    let f = filter_of(r, dtstart);
    let lo = period_lo(r, dtstart, k);
    let hi = period_hi(r, dtstart, k);
    lemma_period_times(r, dtstart, k);
    let c = period_times(r, dtstart, k);
    assert(c == candidates(r, f, dtstart, lo, hi));
    reveal(unit_ok);
    lemma_same_second(r, dtstart, t % 86_400);
    assert(day_of(t - t % 86_400) == day_of(t));
    assert(f.by_day == r.by_day);
    let d = day_of(t);
    assert((lo <= t && t < hi) == in_week(d, week_of(r, dtstart), k * r.interval));
    if on_named_weekday(r.by_day, d) {
        let j = choose|j: int| 0 <= j < r.by_day.len() && (#[trigger] r.by_day[j]).1 == weekday_at(weekday_of(d));
        assert(f.by_day[j] == r.by_day[j]);
        assert(ordinal_ok(f, f.by_day[j].0, d));
        assert(weekday_ok(f, d));
    }
    if weekday_ok(f, d) {
        let j = choose|j: int|
            0 <= j < f.by_day.len() && (#[trigger] f.by_day[j]).1 == weekday_at(weekday_of(d)) && ordinal_ok(
                f,
                f.by_day[j].0,
                d,
            );
        assert(r.by_day[j].1 == weekday_at(weekday_of(d)));
    }
    assert(day_matches(f, d) == on_named_weekday(r.by_day, d));
    if c.contains(t) {
        let i = c.index_of(t);
        assert(c[i] == t);
    }
    if lo <= t < hi && is_candidate(r, f, dtstart, t) {
        lemma_each_candidate(r, f, dtstart, lo, hi, t);
    }
}

/// Whether a day of a month has one of some weekdays, and the ordinal that goes with it where
/// one is said.
pub open spec fn on_nth_weekday(list: Seq<(i32, Weekday)>, y: int, m: int, d: int) -> bool {
    exists|j: int|
        0 <= j < list.len() && (#[trigger] list[j]).1 == weekday_at(weekday_of(day_number(y, m, d))) && ordinal_fits(
            list[j].0 as int,
            d,
            month_len(y, m),
        )
}

/// A monthly rule that names weekdays, such as the second Tuesday or the last Friday, recurs,
/// at the time of day of its start, on exactly those days of the months that are a multiple of
/// its interval from that of its start.
pub proof fn law_a_monthly_rule_on_weekdays(
    r: RuleModel,
    start: int,
    until: Option<int>,
    limit: int,
    t: int,
    y0: int,
    m0: int,
    d0: int,
    y: int,
    m: int,
    d: int,
)
    requires
        r.freq == Freq::Monthly,
        r.by_day.len() > 0,
        only_repeats(RuleModel { by_day: Seq::empty(), ..r }),
        r.interval >= 1,
        r.count is None,
        start % 2 == 0,
        is_date(y0, m0, d0),
        day_of(start / 2) == day_number(y0, m0, d0),
        MIN_YEAR <= y0,
        is_date(y, m, d),
        day_of(t) == day_number(y, m, d),
        MIN_YEAR <= y <= 9_999,
    ensures
        occurrences(r, start, until, limit).contains(t) <==> start / 2 <= t <= limit && (until is Some ==> t <= until->0)
            && second_of_day(t) == second_of_day(start / 2) && on_nth_weekday(r.by_day, y, m, d) && exists|k: int|
            0 <= k < 500_000 && 12 * y + m == #[trigger] steps_on(12 * y0 + m0, r.interval, k),
{
    let dtstart = second_at(start);
    lemma_date_of(y0, m0, d0);
    lemma_date_of(y, m, d);
    law_occurrences(r, start, until, limit);
    let o = occurrences(r, start, until, limit);
    if o.contains(t) {
        let i = o.index_of(t);
        assert(start <= 2 * o[i]);
        lemma_from_periods(r, dtstart, first_second(start), until, limit, 0, Seq::empty(), t);
        let k = choose|k: int|
            0 <= k < MAX_PERIODS && #[trigger] in_period(r, dtstart, k, t) && !after_years(r, dtstart, k);
        lemma_nth_days(r, dtstart, k, t, y0, m0, d0, y, m, d);
        assert(12 * y + m == steps_on(12 * y0 + m0, r.interval, k));
    }
    if start / 2 <= t <= limit && (until is Some ==> t <= until->0) && second_of_day(t) == second_of_day(start / 2)
        && on_nth_weekday(r.by_day, y, m, d) && exists|k: int|
        0 <= k < 500_000 && 12 * y + m == #[trigger] steps_on(12 * y0 + m0, r.interval, k) {
        let k = choose|k: int| 0 <= k < 500_000 && 12 * y + m == #[trigger] steps_on(12 * y0 + m0, r.interval, k);
        lemma_nth_days(r, dtstart, k, t, y0, m0, d0, y, m, d);
        lemma_found(r, dtstart, first_second(start), until, limit, k, 0, Seq::empty(), t);
    }
}

#[verifier::spinoff_prover]
#[verifier::rlimit(50)]
proof fn lemma_nth_days(
    r: RuleModel,
    dtstart: int,
    k: int,
    t: int,
    y0: int,
    m0: int,
    d0: int,
    y: int,
    m: int,
    d: int,
)
    requires
        r.freq == Freq::Monthly,
        r.by_day.len() > 0,
        only_repeats(RuleModel { by_day: Seq::empty(), ..r }),
        r.interval >= 1,
        is_date(y0, m0, d0),
        day_of(dtstart) == day_number(y0, m0, d0),
        is_date(y, m, d),
        day_of(t) == day_number(y, m, d),
        MIN_YEAR <= y <= 9_999,
    ensures
        in_period(r, dtstart, k, t) == (second_of_day(t) == second_of_day(dtstart) && on_nth_weekday(r.by_day, y, m, d)
            && 12 * y + m == 12 * y0 + m0 + k * r.interval),
        12 * y + m == 12 * y0 + m0 + k * r.interval ==> !after_years(r, dtstart, k),
{
    let f = filter_of(r, dtstart);
    let lo = period_lo(r, dtstart, k);
    let hi = period_hi(r, dtstart, k);
    lemma_date_of(y0, m0, d0);
    lemma_date_of(y, m, d);
    let index = month_index(r, dtstart, k);
    assert(index == 12 * y0 + m0 - 1 + k * r.interval);
    let py = index / 12;
    let pm = index % 12 + 1;
    lemma_period_times(r, dtstart, k);
    let c = period_times(r, dtstart, k);
    assert(c == candidates(r, f, dtstart, lo, hi));
    reveal(unit_ok);
    lemma_same_second(r, dtstart, t % 86_400);
    assert(day_of(t - t % 86_400) == day_of(t));
    assert(f.by_day == r.by_day);
    crate::rrule::law_weekdays_of_a_month(f, y, m, d);
    if on_nth_weekday(r.by_day, y, m, d) {
        let j = choose|j: int|
            0 <= j < r.by_day.len() && (#[trigger] r.by_day[j]).1 == weekday_at(weekday_of(day_number(y, m, d)))
                && ordinal_fits(r.by_day[j].0 as int, d, month_len(y, m));
        assert(f.by_day[j] == r.by_day[j]);
    }
    if day_matches(f, day_of(t)) {
        let j = choose|j: int|
            0 <= j < f.by_day.len() && (#[trigger] f.by_day[j]).1 == weekday_at(weekday_of(day_number(y, m, d)))
                && ordinal_fits(f.by_day[j].0 as int, d, month_len(y, m));
        assert(r.by_day[j].1 == weekday_at(weekday_of(day_number(y, m, d))));
    }
    assert(day_matches(f, day_of(t)) == on_nth_weekday(r.by_day, y, m, d));
    if lo <= t < hi {
        let e = day_of(t) - day_number(py, pm, 1) + 1;
        assert(is_date(py, pm, e));
        assert(day_number(py, pm, e) == day_of(t));
        lemma_date_of(py, pm, e);
        assert(py == y && pm == m);
    }
    if 12 * y + m == 12 * y0 + m0 + k * r.interval {
        assert(index == 12 * y + m - 1);
        assert(py == y && pm == m);
        assert(day_number(y, m, 1) <= day_of(t) < day_number(y, m, 1) + month_len(y, m));
        assert(lo <= t < hi);
    }
    if c.contains(t) {
        let i = c.index_of(t);
        assert(c[i] == t);
    }
    if lo <= t < hi && is_candidate(r, f, dtstart, t) {
        lemma_each_candidate(r, f, dtstart, lo, hi, t);
    }
}

/// Positions choose among the times of one period, counted from the first or, below zero, from
/// the last.
pub proof fn law_positions_choose(c: Seq<int>, pos: Seq<i32>, i: int)
    requires
        pos.len() > 0,
        strictly_ascending(c),
        0 <= i < c.len(),
        c.len() <= i32::MAX,
        forall|j: int| 0 <= j < pos.len() ==> #[trigger] pos[j] != 0,
    ensures
        selected(c, pos).contains(c[i]) <==> pos.contains((i + 1) as i32) || pos.contains((i - c.len()) as i32),
        selected(c, Seq::empty()) == c,
{
    let n = c.len() as int;
    lemma_selected_first(c, pos, n, i);
    if is_selected(pos, n, i) {
        let j = choose|j: int| 0 <= j < pos.len() && position_index(#[trigger] pos[j] as int, n) == i;
        assert(pos.contains(pos[j]));
    }
    if pos.contains((i + 1) as i32) {
        let j = pos.index_of((i + 1) as i32);
        assert(position_index(pos[j] as int, n) == i);
    }
    if pos.contains((i - n) as i32) {
        let j = pos.index_of((i - n) as i32);
        assert(position_index(pos[j] as int, n) == i);
    }
}

proof fn lemma_selected_first(c: Seq<int>, pos: Seq<i32>, k: int, i: int)
    requires
        strictly_ascending(c),
        0 <= k <= c.len(),
        0 <= i < c.len(),
    ensures
        selected_first(c, pos, k).contains(c[i]) == (i < k && is_selected(pos, c.len() as int, i)),
    decreases k,
{
    if k > 0 {
        lemma_selected_first(c, pos, k - 1, i);
        let before = selected_first(c, pos, k - 1);
        let all = selected_first(c, pos, k);
        if is_selected(pos, c.len() as int, k - 1) {
            if before.contains(c[i]) || i == k - 1 {
                crate::text::lemma_push_contains(before, c[k - 1], c[i]);
            }
            if all.contains(c[i]) && i != k - 1 {
                let at = all.index_of(c[i]);
                if i < k - 1 {
                    assert(c[i] < c[k - 1]);
                } else {
                    assert(c[k - 1] < c[i]);
                }
                assert(before[at] == c[i]);
            }
        }
    }
}

} // verus!
