//! Recurring events: their occurrences, exceptions and moved instances.

use vstd::prelude::*;
use crate::dates::{
    in_calendar, moment_day, moment_of_day, moment_rest, moment_second, moments_apart, second_at, seconds_from,
    stamp_day, time_text,
};
use crate::events::{
    cancelled_in, dur_fits, emit, event_models, event_timing, is_cancelled, near_calendar, shown_event, timing_of,
    title_in, title_of, whole_days, Dur, EventModel, EventOut, Length, Window,
};
use crate::ics::{prop_from, Comp, PropModel};
use crate::ics_time::{
    prop_time_in_calendar, prop_time_models, prop_times, time_in_calendar, times_of, IcsTime, IcsTimeModel,
    PropTime, PropTimeModel,
};
use crate::recurrence::{expand_rrule, ints, law_occurrences, occurrences, opt_time};
use crate::rrule::{parse_rrule, rule_of, RRule, RuleModel};
use crate::text::{chars_of, str_same};
use crate::zones::{
    convert_wall, copy_zone, lemma_extends_chain, lemma_forget, local_wall, rezoned, LocalClock, LocalModel, Zone,
    ZoneModel,
};

verus! {

// ---------------------------------------------------------------------------
// Starts of occurrences
// ---------------------------------------------------------------------------

/// The starts of a series with how long each lasts.
pub open spec fn start_models(v: Seq<(i64, Dur)>) -> Seq<(int, Length)> {
    v.map_values(|p: (i64, Dur)| (p.0 as int, p.1@))
}

/// A list of starts with one more, kept in order. Of two at the same time the
/// first stays.
pub open spec fn with_start(list: Seq<(int, Length)>, x: (int, Length)) -> Seq<(int, Length)>
    decreases list.len(),
{
    if list.len() == 0 {
        seq![x]
    } else if list.last().0 < x.0 {
        list.push(x)
    } else if list.last().0 == x.0 {
        list
    } else {
        with_start(list.drop_last(), x).push(list.last())
    }
}

fn add_start(list: &mut Vec<(i64, Dur)>, t: i64, dur: Dur)
    requires
        forall|i: int| 0 <= i < old(list)@.len() ==> near_calendar((#[trigger] old(list)@[i]).0 as int) && dur_fits(
            old(list)@[i].1,
        ),
        near_calendar(t as int),
        dur_fits(dur),
    ensures
        start_models(final(list)@) == with_start(start_models(old(list)@), (t as int, dur@)),
        forall|i: int| 0 <= i < final(list)@.len() ==> near_calendar((#[trigger] final(list)@[i]).0 as int)
            && dur_fits(final(list)@[i].1),
{
    let ghost m = start_models(list@);
    let ghost x = (t as int, dur@);
    let mut pos: usize = list.len();
    proof {
        assert(m.take(m.len() as int) =~= m);
        assert(with_start(m, x) =~= with_start(m.take(pos as int), x) + m.skip(pos as int));
    }
    while pos > 0 && list[pos - 1].0 > t
        invariant
            pos <= list.len(),
            m == start_models(list@),
            x == (t as int, dur@),
            with_start(m, x) == with_start(m.take(pos as int), x) + m.skip(pos as int),
            *list == *old(list),
        decreases pos,
    {
        proof {
            let a = m.take(pos as int);
            assert(a.last() == m[pos - 1]);
            assert(a.drop_last() =~= m.take(pos - 1));
            assert(with_start(a, x) == with_start(a.drop_last(), x).push(a.last()));
            assert(with_start(m.take(pos - 1), x).push(m[pos - 1]) + m.skip(pos as int) =~= with_start(
                m.take(pos - 1),
                x,
            ) + m.skip(pos - 1));
        }
        pos = pos - 1;
    }
    let ghost a = m.take(pos as int);
    if pos > 0 && list[pos - 1].0 == t {
        proof {
            assert(a.last() == m[pos - 1]);
            assert(a + m.skip(pos as int) =~= m);
        }
    } else {
        list.insert(pos, (t, dur));
        proof {
            assert(pos > 0 ==> a.last() == m[pos - 1]);
            assert(with_start(a, x) =~= a.push(x));
            assert(start_models(list@) =~= a.push(x) + m.skip(pos as int));
            assert forall|i: int| 0 <= i < list@.len() implies near_calendar((#[trigger] list@[i]).0 as int)
                && dur_fits(list@[i].1) by {
                if i < pos {
                    assert(list@[i] == old(list)@[i]);
                } else if i > pos {
                    assert(list@[i] == old(list)@[i - 1]);
                }
            }
        }
    }
}

/// The list with the first `n` times, which are seconds, each lasting equally long.
pub open spec fn with_times(list: Seq<(int, Length)>, times: Seq<int>, n: int, dur: Length) -> Seq<(int, Length)>
    decreases n,
{
    if n <= 0 {
        list
    } else {
        with_start(with_times(list, times, n - 1, dur), (2 * times[n - 1], dur))
    }
}

/// The end of a rule on the clock of its series. A date counts to its last second.
pub open spec fn until_of(r: RuleModel, zone: ZoneModel, l: LocalModel) -> Option<int> {
    match r.until {
        Some(IcsTimeModel::Date(d)) => Some(86_400 * d + 86_399),
        Some(IcsTimeModel::Time(t, z)) => Some(second_at(rezoned(t, z, zone, l))),
        None => None,
    }
}

/// The series as its start says it: where it begins on its zone's clock, and
/// whether it is all-day. An all-day series runs on the machine's clock.
pub open spec fn series_start(start: IcsTimeModel) -> (int, ZoneModel, bool) {
    match start {
        IcsTimeModel::Date(d) => (172_800 * d, ZoneModel::Floating, true),
        IcsTimeModel::Time(t, z) => (t, z, false),
    }
}

/// The starts that the recurrence rules among the first `n` properties add.
pub open spec fn with_rules(
    list: Seq<(int, Length)>,
    props: Seq<PropModel>,
    n: int,
    wall0: int,
    zone: ZoneModel,
    dur: Length,
    limit: int,
    l: LocalModel,
) -> Seq<(int, Length)>
    decreases n,
{
    if n <= 0 {
        list
    } else {
        let before = with_rules(list, props, n - 1, wall0, zone, dur, limit, l);
        match rule_of(props[n - 1].value) {
            Some(r) => if props[n - 1].name == "RRULE"@ {
                let o = occurrences(r, wall0, until_of(r, zone, l), limit);
                with_times(before, o, o.len() as int, dur)
            } else {
                before
            },
            None => before,
        }
    }
}

/// A time on the clock of a series. A date means the series' own time on that
/// day, and in an all-day series only the day counts.
pub open spec fn series_wall(t: IcsTimeModel, zone: ZoneModel, time: int, all_day: bool, l: LocalModel) -> int {
    match t {
        IcsTimeModel::Date(d) => 172_800 * d + if all_day {
            0
        } else {
            time
        },
        IcsTimeModel::Time(w, z) => {
            let x = rezoned(w, z, zone, l);
            if all_day {
                172_800 * moment_day(x)
            } else {
                x
            }
        },
    }
}

/// An extra date of a series, with how long it lasts there: a period says so
/// itself, any other lasts as long as the series' start.
pub open spec fn extra_start(
    t: PropTimeModel,
    zone: ZoneModel,
    time: int,
    all_day: bool,
    dur: Length,
    l: LocalModel,
) -> (int, Length) {
    let w = series_wall(t.start, zone, time, all_day, l);
    (
        w,
        match t.end {
            Some(e) => {
                let ew = series_wall(e, zone, time, all_day, l);
                if all_day {
                    Length::Days(moment_day(ew) - moment_day(w))
                } else {
                    Length::Wall(seconds_from(w, ew))
                }
            },
            None => match t.dur {
                Some(d) => if all_day {
                    Length::Days(whole_days(d))
                } else {
                    Length::Wall(d)
                },
                None => dur,
            },
        },
    )
}

pub open spec fn with_extras(
    list: Seq<(int, Length)>,
    times: Seq<PropTimeModel>,
    n: int,
    zone: ZoneModel,
    time: int,
    all_day: bool,
    dur: Length,
    l: LocalModel,
) -> Seq<(int, Length)>
    decreases n,
{
    if n <= 0 {
        list
    } else {
        with_start(
            with_extras(list, times, n - 1, zone, time, all_day, dur, l),
            extra_start(times[n - 1], zone, time, all_day, dur, l),
        )
    }
}

/// The starts that the extra dates among the first `n` properties add.
pub open spec fn with_dates(
    list: Seq<(int, Length)>,
    props: Seq<PropModel>,
    n: int,
    zone: ZoneModel,
    time: int,
    all_day: bool,
    dur: Length,
    l: LocalModel,
) -> Seq<(int, Length)>
    decreases n,
{
    if n <= 0 {
        list
    } else {
        let before = with_dates(list, props, n - 1, zone, time, all_day, dur, l);
        if props[n - 1].name == "RDATE"@ {
            let ts = times_of(props[n - 1]);
            with_extras(before, ts, ts.len() as int, zone, time, all_day, dur, l)
        } else {
            before
        }
    }
}

/// All starts of a series up to a limit, in order: its own, those of its rules,
/// and its extra dates.
pub open spec fn series_starts(
    props: Seq<PropModel>,
    wall0: int,
    zone: ZoneModel,
    all_day: bool,
    dur: Length,
    limit: int,
    l: LocalModel,
) -> Seq<(int, Length)> {
    with_dates(
        with_rules(seq![(wall0, dur)], props, props.len() as int, wall0, zone, dur, limit, l),
        props,
        props.len() as int,
        zone,
        moment_of_day(wall0),
        all_day,
        dur,
        l,
    )
}

/// Every start of a list lies near the calendar and its length fits.
pub open spec fn starts_fit(v: Seq<(i64, Dur)>) -> bool {
    forall|i: int| 0 <= i < v.len() ==> near_calendar((#[trigger] v[i]).0 as int) && dur_fits(v[i].1)
}

fn add_times(list: &mut Vec<(i64, Dur)>, times: &Vec<i64>, dur: Dur)
    requires
        starts_fit(old(list)@),
        dur_fits(dur),
        forall|i: int| 0 <= i < times@.len() ==> near_calendar(2 * #[trigger] times@[i]),
    ensures
        start_models(final(list)@) == with_times(
            start_models(old(list)@),
            ints(times@),
            times@.len() as int,
            dur@,
        ),
        starts_fit(final(list)@),
{
    let ghost m = start_models(list@);
    let mut i: usize = 0;
    while i < times.len()
        invariant
            i <= times.len(),
            m == start_models(old(list)@),
            dur_fits(dur),
            starts_fit(list@),
            forall|j: int| 0 <= j < times@.len() ==> near_calendar(2 * #[trigger] times@[j]),
            start_models(list@) == with_times(m, ints(times@), i as int, dur@),
        decreases times.len() - i,
    {
        proof {
            assert(ints(times@)[i as int] == times@[i as int]);
        }
        add_start(list, 2 * times[i], dur);
        i = i + 1;
    }
}

fn rule_end(r: &RRule, zone: &Zone, clock: &mut LocalClock) -> (v: Option<i64>)
    requires
        old(clock).wf(),
        r@.until matches Some(t) ==> time_in_calendar(t),
    ensures
        final(clock).wf(),
        final(clock).extends(old(clock)),
        forall|l: LocalModel| #[trigger] final(clock).agrees(l) ==> opt_time(v) == until_of(r@, zone@, l),
{
    match &r.until {
        Some(IcsTime::Date(d)) => Some(86_400 * *d + 86_399),
        Some(IcsTime::Time(t, z)) => {
            let w: i64 = convert_wall(*t, z, zone, clock);
            Some(moment_second(w))
        },
        None => None,
    }
}

fn add_rules(
    list: &mut Vec<(i64, Dur)>,
    c: &Comp,
    wall0: i64,
    zone: &Zone,
    dur: Dur,
    limit: i64,
    clock: &mut LocalClock,
)
    requires
        old(clock).wf(),
        starts_fit(old(list)@),
        dur_fits(dur),
        in_calendar(moment_day(wall0 as int)),
        near_calendar(2 * limit),
    ensures
        final(clock).wf(),
        final(clock).extends(old(clock)),
        starts_fit(final(list)@),
        forall|l: LocalModel| #[trigger]
            final(clock).agrees(l) ==> start_models(final(list)@) == with_rules(
                start_models(old(list)@),
                c@.props,
                c@.props.len() as int,
                wall0 as int,
                zone@,
                dur@,
                limit as int,
                l,
            ),
{
    let ghost m = start_models(list@);
    let ghost props = c@.props;
    let mut i: usize = 0;
    while i < c.props.len()
        invariant
            i <= c.props.len(),
            props == c@.props,
            m == start_models(old(list)@),
            clock.wf(),
            clock.extends(old(clock)),
            starts_fit(list@),
            dur_fits(dur),
            in_calendar(moment_day(wall0 as int)),
            near_calendar(2 * limit),
            forall|l: LocalModel| #[trigger]
                clock.agrees(l) ==> start_models(list@) == with_rules(
                    m,
                    props,
                    i as int,
                    wall0 as int,
                    zone@,
                    dur@,
                    limit as int,
                    l,
                ),
        decreases c.props.len() - i,
    {
        let p = &c.props[i];
        proof {
            assert(props[i as int] == p@);
        }
        let ghost before_list = start_models(list@);
        if str_same(p.name.as_str(), "RRULE") {
            let v = chars_of(p.value.as_str());
            match parse_rrule(v.as_slice()) {
                Some(r) => {
                    let ghost mid = *clock;
                    let until = rule_end(&r, zone, clock);
                    let times = expand_rrule(&r, wall0, until, limit);
                    proof {
                        lemma_extends_chain(old(clock), &mid, clock);
                        lemma_forget(&mid, clock);
                        law_occurrences(r@, wall0 as int, opt_time(until), limit as int);
                        assert forall|j: int| 0 <= j < times@.len() implies near_calendar(
                            2 * #[trigger] times@[j],
                        ) by {
                            assert(ints(times@)[j] == times@[j]);
                        }
                    }
                    add_times(list, &times, dur);
                    proof {
                        assert(ints(times@).len() == times@.len());
                        assert forall|l: LocalModel| #[trigger] clock.agrees(l) implies start_models(list@)
                            == with_rules(m, props, i + 1, wall0 as int, zone@, dur@, limit as int, l) by {
                            assert(mid.agrees(l));
                            assert(opt_time(until) == until_of(r@, zone@, l));
                        }
                    }
                },
                None => {},
            }
        }
        i = i + 1;
    }
}

fn on_series_clock(t: &IcsTime, zone: &Zone, time: i64, all_day: bool, clock: &mut LocalClock) -> (r: i64)
    requires
        old(clock).wf(),
        time_in_calendar(t@),
        0 <= time < 172_800,
    ensures
        final(clock).wf(),
        final(clock).extends(old(clock)),
        near_calendar(r as int),
        forall|l: LocalModel| #[trigger]
            final(clock).agrees(l) ==> r == series_wall(t@, zone@, time as int, all_day, l),
{
    match t {
        IcsTime::Date(d) => if all_day {
            172_800 * *d
        } else {
            172_800 * *d + time
        },
        IcsTime::Time(w, z) => {
            let x: i64 = convert_wall(*w, z, zone, clock);
            if all_day {
                172_800 * stamp_day(moment_second(x))
            } else {
                x
            }
        },
    }
}

fn extra_date(t: &PropTime, zone: &Zone, time: i64, all_day: bool, dur: Dur, clock: &mut LocalClock) -> (r: (
    i64,
    Dur,
))
    requires
        old(clock).wf(),
        prop_time_in_calendar(t@),
        0 <= time < 172_800,
        dur_fits(dur),
    ensures
        final(clock).wf(),
        final(clock).extends(old(clock)),
        near_calendar(r.0 as int),
        dur_fits(r.1),
        forall|l: LocalModel| #[trigger]
            final(clock).agrees(l) ==> (r.0 as int, r.1@) == extra_start(t@, zone@, time as int, all_day, dur@, l),
{
    let w: i64 = on_series_clock(&t.start, zone, time, all_day, clock);
    let ghost mid = *clock;
    match &t.end {
        Some(e) => {
            let ew: i64 = on_series_clock(e, zone, time, all_day, clock);
            proof {
                lemma_extends_chain(old(clock), &mid, clock);
                lemma_forget(&mid, clock);
            }
            if all_day {
                (w, Dur::Days(stamp_day(moment_second(ew)) - stamp_day(moment_second(w))))
            } else {
                (w, Dur::Wall(moments_apart(w, ew)))
            }
        },
        None => match t.dur {
            Some(d) => if all_day {
                let n: i64 = if d >= 0 {
                    d / 86_400
                } else {
                    -((-d) / 86_400)
                };
                (w, Dur::Days(n))
            } else {
                (w, Dur::Wall(d))
            },
            None => (w, dur),
        },
    }
}

fn add_extras(
    list: &mut Vec<(i64, Dur)>,
    times: &Vec<PropTime>,
    zone: &Zone,
    time: i64,
    all_day: bool,
    dur: Dur,
    clock: &mut LocalClock,
)
    requires
        old(clock).wf(),
        starts_fit(old(list)@),
        dur_fits(dur),
        0 <= time < 172_800,
        forall|i: int| 0 <= i < times@.len() ==> prop_time_in_calendar(#[trigger] times@[i]@),
    ensures
        final(clock).wf(),
        final(clock).extends(old(clock)),
        starts_fit(final(list)@),
        forall|l: LocalModel| #[trigger]
            final(clock).agrees(l) ==> start_models(final(list)@) == with_extras(
                start_models(old(list)@),
                prop_time_models(times@),
                times@.len() as int,
                zone@,
                time as int,
                all_day,
                dur@,
                l,
            ),
{
    let ghost m = start_models(list@);
    let ghost tm = prop_time_models(times@);
    let mut i: usize = 0;
    while i < times.len()
        invariant
            i <= times.len(),
            m == start_models(old(list)@),
            tm == prop_time_models(times@),
            clock.wf(),
            clock.extends(old(clock)),
            starts_fit(list@),
            dur_fits(dur),
            0 <= time < 172_800,
            forall|j: int| 0 <= j < times@.len() ==> prop_time_in_calendar(#[trigger] times@[j]@),
            forall|l: LocalModel| #[trigger]
                clock.agrees(l) ==> start_models(list@) == with_extras(
                    m,
                    tm,
                    i as int,
                    zone@,
                    time as int,
                    all_day,
                    dur@,
                    l,
                ),
        decreases times.len() - i,
    {
        let ghost mid = *clock;
        proof {
            assert(tm[i as int] == times@[i as int]@);
        }
        let (w, d) = extra_date(&times[i], zone, time, all_day, dur, clock);
        proof {
            lemma_extends_chain(old(clock), &mid, clock);
            lemma_forget(&mid, clock);
        }
        add_start(list, w, d);
        i = i + 1;
    }
}

fn add_dates(
    list: &mut Vec<(i64, Dur)>,
    c: &Comp,
    zone: &Zone,
    time: i64,
    all_day: bool,
    dur: Dur,
    clock: &mut LocalClock,
)
    requires
        old(clock).wf(),
        starts_fit(old(list)@),
        dur_fits(dur),
        0 <= time < 172_800,
    ensures
        final(clock).wf(),
        final(clock).extends(old(clock)),
        starts_fit(final(list)@),
        forall|l: LocalModel| #[trigger]
            final(clock).agrees(l) ==> start_models(final(list)@) == with_dates(
                start_models(old(list)@),
                c@.props,
                c@.props.len() as int,
                zone@,
                time as int,
                all_day,
                dur@,
                l,
            ),
{
    let ghost m = start_models(list@);
    let ghost props = c@.props;
    let mut i: usize = 0;
    while i < c.props.len()
        invariant
            i <= c.props.len(),
            props == c@.props,
            m == start_models(old(list)@),
            clock.wf(),
            clock.extends(old(clock)),
            starts_fit(list@),
            dur_fits(dur),
            0 <= time < 172_800,
            forall|l: LocalModel| #[trigger]
                clock.agrees(l) ==> start_models(list@) == with_dates(
                    m,
                    props,
                    i as int,
                    zone@,
                    time as int,
                    all_day,
                    dur@,
                    l,
                ),
        decreases c.props.len() - i,
    {
        let p = &c.props[i];
        proof {
            assert(props[i as int] == p@);
        }
        if str_same(p.name.as_str(), "RDATE") {
            let times = prop_times(p);
            let ghost mid = *clock;
            let ghost before = start_models(list@);
            add_extras(list, &times, zone, time, all_day, dur, clock);
            proof {
                lemma_extends_chain(old(clock), &mid, clock);
                lemma_forget(&mid, clock);
                assert(prop_time_models(times@).len() == times@.len());
                assert forall|l: LocalModel| #[trigger] clock.agrees(l) implies start_models(list@) == with_dates(
                    m,
                    props,
                    i + 1,
                    zone@,
                    time as int,
                    all_day,
                    dur@,
                    l,
                ) by {
                    assert(mid.agrees(l));
                    assert(before == with_dates(m, props, i as int, zone@, time as int, all_day, dur@, l));
                }
            }
        }
        i = i + 1;
    }
}

// ---------------------------------------------------------------------------
// Exceptions
// ---------------------------------------------------------------------------

/// What is left out of a series: exact times, and whole days.
#[verifier::ext_equal]
pub struct SkipModel {
    pub exact: Seq<int>,
    pub days: Seq<int>,
}

/// One more excluded time: a date excludes the day, and so does any time in an
/// all-day series; else a time excludes itself.
pub open spec fn with_exclusion(
    m: SkipModel,
    t: IcsTimeModel,
    zone: ZoneModel,
    time: int,
    all_day: bool,
    l: LocalModel,
) -> SkipModel {
    match t {
        IcsTimeModel::Date(d) => SkipModel { days: m.days.push(d), ..m },
        IcsTimeModel::Time(_, _) => {
            let w = series_wall(t, zone, time, all_day, l);
            if all_day {
                SkipModel { days: m.days.push(moment_day(w)), ..m }
            } else {
                SkipModel { exact: m.exact.push(w), ..m }
            }
        },
    }
}

pub open spec fn with_exclusions(
    m: SkipModel,
    times: Seq<PropTimeModel>,
    n: int,
    zone: ZoneModel,
    time: int,
    all_day: bool,
    l: LocalModel,
) -> SkipModel
    decreases n,
{
    if n <= 0 {
        m
    } else {
        with_exclusion(
            with_exclusions(m, times, n - 1, zone, time, all_day, l),
            times[n - 1].start,
            zone,
            time,
            all_day,
            l,
        )
    }
}

/// What the exception dates among the first `n` properties exclude.
pub open spec fn exceptions(
    props: Seq<PropModel>,
    n: int,
    zone: ZoneModel,
    time: int,
    all_day: bool,
    l: LocalModel,
) -> SkipModel
    decreases n,
{
    if n <= 0 {
        SkipModel { exact: Seq::empty(), days: Seq::empty() }
    } else {
        let before = exceptions(props, n - 1, zone, time, all_day, l);
        if props[n - 1].name == "EXDATE"@ {
            let ts = times_of(props[n - 1]);
            with_exclusions(before, ts, ts.len() as int, zone, time, all_day, l)
        } else {
            before
        }
    }
}

pub open spec fn starts_at(starts: Seq<(int, Length)>, t: int) -> bool {
    exists|i: int| 0 <= i < starts.len() && (#[trigger] starts[i]).0 == t
}

/// One more moved instance: it replaces the occurrence at its time or, if there
/// is none, those of its day.
pub open spec fn with_moved(
    m: SkipModel,
    rid: IcsTimeModel,
    starts: Seq<(int, Length)>,
    zone: ZoneModel,
    time: int,
    all_day: bool,
    l: LocalModel,
) -> SkipModel {
    match rid {
        IcsTimeModel::Date(d) => SkipModel { days: m.days.push(d), ..m },
        IcsTimeModel::Time(_, _) => {
            let w = series_wall(rid, zone, time, all_day, l);
            if !all_day && starts_at(starts, w) {
                SkipModel { exact: m.exact.push(w), ..m }
            } else {
                SkipModel { days: m.days.push(moment_day(w)), ..m }
            }
        },
    }
}

pub open spec fn with_all_moved(
    m: SkipModel,
    rids: Seq<IcsTimeModel>,
    n: int,
    starts: Seq<(int, Length)>,
    zone: ZoneModel,
    time: int,
    all_day: bool,
    l: LocalModel,
) -> SkipModel
    decreases n,
{
    if n <= 0 {
        m
    } else {
        with_moved(
            with_all_moved(m, rids, n - 1, starts, zone, time, all_day, l),
            rids[n - 1],
            starts,
            zone,
            time,
            all_day,
            l,
        )
    }
}

pub open spec fn is_skipped(m: SkipModel, t: int) -> bool {
    m.exact.contains(t) || m.days.contains(moment_day(t))
}

struct Skips {
    exact: Vec<i64>,
    days: Vec<i64>,
}

impl View for Skips {
    type V = SkipModel;

    closed spec fn view(&self) -> SkipModel {
        SkipModel { exact: ints(self.exact@), days: ints(self.days@) }
    }
}

fn has_i64(list: &Vec<i64>, x: i64) -> (r: bool)
    ensures
        r == ints(list@).contains(x as int),
{
    let mut i: usize = 0;
    while i < list.len()
        invariant
            i <= list.len(),
            forall|j: int| 0 <= j < i ==> list@[j] != x,
        decreases list.len() - i,
    {
        if list[i] == x {
            proof {
                assert(ints(list@)[i as int] == x as int);
            }
            return true;
        }
        i = i + 1;
    }
    proof {
        assert forall|j: int| 0 <= j < ints(list@).len() implies ints(list@)[j] != x as int by {
            assert(list@[j] != x);
        }
    }
    false
}

fn push_int(list: &mut Vec<i64>, x: i64)
    ensures
        ints(final(list)@) == ints(old(list)@).push(x as int),
{
    list.push(x);
    proof {
        assert(ints(list@) =~= ints(old(list)@).push(x as int));
    }
}

fn add_exclusion(s: &mut Skips, t: &IcsTime, zone: &Zone, time: i64, all_day: bool, clock: &mut LocalClock)
    requires
        old(clock).wf(),
        time_in_calendar(t@),
        0 <= time < 172_800,
    ensures
        final(clock).wf(),
        final(clock).extends(old(clock)),
        forall|l: LocalModel| #[trigger]
            final(clock).agrees(l) ==> final(s)@ == with_exclusion(old(s)@, t@, zone@, time as int, all_day, l),
{
    match t {
        IcsTime::Date(d) => {
            push_int(&mut s.days, *d);
        },
        IcsTime::Time(_, _) => {
            let w: i64 = on_series_clock(t, zone, time, all_day, clock);
            if all_day {
                push_int(&mut s.days, stamp_day(moment_second(w)));
            } else {
                push_int(&mut s.exact, w);
            }
        },
    }
}

fn add_exclusions(
    s: &mut Skips,
    times: &Vec<PropTime>,
    zone: &Zone,
    time: i64,
    all_day: bool,
    clock: &mut LocalClock,
)
    requires
        old(clock).wf(),
        0 <= time < 172_800,
        forall|i: int| 0 <= i < times@.len() ==> prop_time_in_calendar(#[trigger] times@[i]@),
    ensures
        final(clock).wf(),
        final(clock).extends(old(clock)),
        forall|l: LocalModel| #[trigger]
            final(clock).agrees(l) ==> final(s)@ == with_exclusions(
                old(s)@,
                prop_time_models(times@),
                times@.len() as int,
                zone@,
                time as int,
                all_day,
                l,
            ),
{
    let ghost tm = prop_time_models(times@);
    let mut i: usize = 0;
    while i < times.len()
        invariant
            i <= times.len(),
            tm == prop_time_models(times@),
            clock.wf(),
            clock.extends(old(clock)),
            0 <= time < 172_800,
            forall|j: int| 0 <= j < times@.len() ==> prop_time_in_calendar(#[trigger] times@[j]@),
            forall|l: LocalModel| #[trigger]
                clock.agrees(l) ==> s@ == with_exclusions(old(s)@, tm, i as int, zone@, time as int, all_day, l),
        decreases times.len() - i,
    {
        let ghost mid = *clock;
        proof {
            assert(tm[i as int] == times@[i as int]@);
        }
        add_exclusion(s, &times[i].start, zone, time, all_day, clock);
        proof {
            lemma_extends_chain(old(clock), &mid, clock);
            lemma_forget(&mid, clock);
        }
        i = i + 1;
    }
}

fn find_exceptions(c: &Comp, zone: &Zone, time: i64, all_day: bool, clock: &mut LocalClock) -> (s: Skips)
    requires
        old(clock).wf(),
        0 <= time < 172_800,
    ensures
        final(clock).wf(),
        final(clock).extends(old(clock)),
        forall|l: LocalModel| #[trigger]
            final(clock).agrees(l) ==> s@ == exceptions(
                c@.props,
                c@.props.len() as int,
                zone@,
                time as int,
                all_day,
                l,
            ),
{
    let ghost props = c@.props;
    let mut s = Skips { exact: Vec::new(), days: Vec::new() };
    proof {
        assert(s@.exact =~= Seq::<int>::empty());
        assert(s@.days =~= Seq::<int>::empty());
    }
    let mut i: usize = 0;
    while i < c.props.len()
        invariant
            i <= c.props.len(),
            props == c@.props,
            clock.wf(),
            clock.extends(old(clock)),
            0 <= time < 172_800,
            forall|l: LocalModel| #[trigger]
                clock.agrees(l) ==> s@ == exceptions(props, i as int, zone@, time as int, all_day, l),
        decreases c.props.len() - i,
    {
        let p = &c.props[i];
        proof {
            assert(props[i as int] == p@);
        }
        if str_same(p.name.as_str(), "EXDATE") {
            let times = prop_times(p);
            let ghost mid = *clock;
            let ghost before = s@;
            add_exclusions(&mut s, &times, zone, time, all_day, clock);
            proof {
                lemma_extends_chain(old(clock), &mid, clock);
                lemma_forget(&mid, clock);
                assert(prop_time_models(times@).len() == times@.len());
                assert forall|l: LocalModel| #[trigger] clock.agrees(l) implies s@ == exceptions(
                    props,
                    i + 1,
                    zone@,
                    time as int,
                    all_day,
                    l,
                ) by {
                    assert(mid.agrees(l));
                    assert(before == exceptions(props, i as int, zone@, time as int, all_day, l));
                }
            }
        }
        i = i + 1;
    }
    s
}

fn has_start(starts: &Vec<(i64, Dur)>, t: i64) -> (r: bool)
    ensures
        r == starts_at(start_models(starts@), t as int),
{
    let ghost m = start_models(starts@);
    let mut i: usize = 0;
    while i < starts.len()
        invariant
            i <= starts.len(),
            m == start_models(starts@),
            forall|j: int| 0 <= j < i ==> (#[trigger] m[j]).0 != t,
        decreases starts.len() - i,
    {
        proof {
            assert(m[i as int].0 == starts@[i as int].0);
        }
        if starts[i].0 == t {
            return true;
        }
        i = i + 1;
    }
    false
}

fn add_moved(
    s: &mut Skips,
    rid: &IcsTime,
    starts: &Vec<(i64, Dur)>,
    zone: &Zone,
    time: i64,
    all_day: bool,
    clock: &mut LocalClock,
)
    requires
        old(clock).wf(),
        time_in_calendar(rid@),
        0 <= time < 172_800,
    ensures
        final(clock).wf(),
        final(clock).extends(old(clock)),
        forall|l: LocalModel| #[trigger]
            final(clock).agrees(l) ==> final(s)@ == with_moved(
                old(s)@,
                rid@,
                start_models(starts@),
                zone@,
                time as int,
                all_day,
                l,
            ),
{
    match rid {
        IcsTime::Date(d) => {
            push_int(&mut s.days, *d);
        },
        IcsTime::Time(_, _) => {
            let w: i64 = on_series_clock(rid, zone, time, all_day, clock);
            if !all_day && has_start(starts, w) {
                push_int(&mut s.exact, w);
            } else {
                push_int(&mut s.days, stamp_day(moment_second(w)));
            }
        },
    }
}

// ---------------------------------------------------------------------------
// Occurrences of a series
// ---------------------------------------------------------------------------

/// The shown ones of the first `n` starts that are not left out.
pub open spec fn shown_starts(
    starts: Seq<(int, Length)>,
    n: int,
    skips: SkipModel,
    feed: int,
    title: Seq<char>,
    zone: ZoneModel,
    all_day: bool,
    win: Window,
    l: LocalModel,
) -> Seq<EventModel>
    decreases n,
{
    if n <= 0 {
        Seq::empty()
    } else {
        let before = shown_starts(starts, n - 1, skips, feed, title, zone, all_day, win, l);
        let (t, dur) = starts[n - 1];
        if is_skipped(skips, t) {
            before
        } else {
            match shown_event(feed, title, t, zone, all_day, dur, win, l) {
                Some(e) => before.push(e),
                None => before,
            }
        }
    }
}

/// What is left out of a series: its exceptions and the instances that were moved.
pub open spec fn all_skips(
    props: Seq<PropModel>,
    rids: Seq<IcsTimeModel>,
    starts: Seq<(int, Length)>,
    zone: ZoneModel,
    time: int,
    all_day: bool,
    l: LocalModel,
) -> SkipModel {
    with_all_moved(
        exceptions(props, props.len() as int, zone, time, all_day, l),
        rids,
        rids.len() as int,
        starts,
        zone,
        time,
        all_day,
        l,
    )
}

/// The shown occurrences of a series: its starts without its exceptions and
/// without the instances that were moved. A cancelled series has none.
pub open spec fn series_events(
    props: Seq<PropModel>,
    rids: Seq<IcsTimeModel>,
    feed: int,
    win: Window,
    l: LocalModel,
) -> Seq<EventModel> {
    match timing_of(props, l) {
        Some((start, dur)) => if cancelled_in(props) {
            Seq::empty()
        } else {
            let (wall0, zone, all_day) = series_start(start);
            let starts = series_starts(props, wall0, zone, all_day, dur, win.end + 172_800, l);
            let skips = all_skips(props, rids, starts, zone, moment_of_day(wall0), all_day, l);
            shown_starts(starts, starts.len() as int, skips, feed, title_in(props), zone, all_day, win, l)
        },
        None => Seq::empty(),
    }
}

pub open spec fn rid_models(v: Seq<IcsTime>) -> Seq<IcsTimeModel> {
    v.map_values(|t: IcsTime| t@)
}

fn push_event(out: &mut Vec<EventOut>, e: EventOut)
    ensures
        event_models(final(out)@) == event_models(old(out)@).push(e@),
{
    let ghost em = e@;
    out.push(e);
    proof {
        assert(event_models(out@) =~= event_models(old(out)@).push(em));
    }
}

fn emit_starts(
    starts: &Vec<(i64, Dur)>,
    skips: &Skips,
    feed: usize,
    title: &str,
    zone: &Zone,
    all_day: bool,
    win: &Window,
    clock: &mut LocalClock,
) -> (out: Vec<EventOut>)
    requires
        old(clock).wf(),
        starts_fit(starts@),
    ensures
        final(clock).wf(),
        final(clock).extends(old(clock)),
        forall|l: LocalModel| #[trigger]
            final(clock).agrees(l) ==> event_models(out@) == shown_starts(
                start_models(starts@),
                starts@.len() as int,
                skips@,
                feed as int,
                title@,
                zone@,
                all_day,
                *win,
                l,
            ),
{
    let ghost m = start_models(starts@);
    let mut out: Vec<EventOut> = Vec::new();
    let mut i: usize = 0;
    proof {
        assert(event_models(out@) =~= Seq::<EventModel>::empty());
    }
    while i < starts.len()
        invariant
            i <= starts.len(),
            m == start_models(starts@),
            clock.wf(),
            clock.extends(old(clock)),
            starts_fit(starts@),
            forall|l: LocalModel| #[trigger]
                clock.agrees(l) ==> event_models(out@) == shown_starts(
                    m,
                    i as int,
                    skips@,
                    feed as int,
                    title@,
                    zone@,
                    all_day,
                    *win,
                    l,
                ),
        decreases starts.len() - i,
    {
        let (t, dur) = starts[i];
        proof {
            assert(m[i as int] == (t as int, dur@));
        }
        if !has_i64(&skips.exact, t) && !has_i64(&skips.days, stamp_day(moment_second(t))) {
            let ghost mid = *clock;
            let e = emit(feed, title, t, zone, all_day, dur, win, clock);
            proof {
                lemma_extends_chain(old(clock), &mid, clock);
                lemma_forget(&mid, clock);
            }
            match e {
                Some(ev) => push_event(&mut out, ev),
                None => {},
            }
        }
        i = i + 1;
    }
    out
}

/// The shown occurrences of a series, without the instances that `rids` names.
pub fn expand_series(c: &Comp, rids: &Vec<IcsTime>, feed: usize, win: &Window, clock: &mut LocalClock) -> (out: Vec<
    EventOut,
>)
    requires
        old(clock).wf(),
        forall|i: int| 0 <= i < rids@.len() ==> time_in_calendar(#[trigger] rids@[i]@),
        near_calendar(2 * (win.end + 172_800)),
    ensures
        final(clock).wf(),
        final(clock).extends(old(clock)),
        forall|l: LocalModel| #[trigger]
            final(clock).agrees(l) ==> event_models(out@) == series_events(
                c@.props,
                rid_models(rids@),
                feed as int,
                *win,
                l,
            ),
{
    let (start, dur) = match event_timing(c, clock) {
        Some(t) => t,
        None => {
            let none: Vec<EventOut> = Vec::new();
            proof {
                assert(event_models(none@) =~= Seq::<EventModel>::empty());
            }
            return none;
        },
    };
    let ghost c1 = *clock;
    if is_cancelled(c) {
        let none: Vec<EventOut> = Vec::new();
        proof {
            assert(event_models(none@) =~= Seq::<EventModel>::empty());
        }
        return none;
    }
    let title = title_of(c);
    let wall0: i64;
    let zone: Zone;
    let all_day: bool;
    match &start {
        IcsTime::Date(d) => {
            wall0 = 172_800 * *d;
            zone = Zone::Floating;
            all_day = true;
        },
        IcsTime::Time(t, z) => {
            wall0 = *t;
            zone = copy_zone(z);
            all_day = false;
        },
    }
    proof {
        assert((wall0 as int, zone@, all_day) == series_start(start@));
        assert(in_calendar(moment_day(wall0 as int)));
    }
    let time: i64 = moment_rest(wall0);
    let limit: i64 = win.end + 172_800;
    let mut starts: Vec<(i64, Dur)> = Vec::new();
    starts.push((wall0, dur));
    proof {
        assert(start_models(starts@) =~= seq![(wall0 as int, dur@)]);
        assert(starts_fit(starts@));
    }
    add_rules(&mut starts, c, wall0, &zone, dur, limit, clock);
    let ghost c2 = *clock;
    let ghost s2 = start_models(starts@);
    add_dates(&mut starts, c, &zone, time, all_day, dur, clock);
    let ghost c3 = *clock;
    let ghost sm = start_models(starts@);
    let mut skips = find_exceptions(c, &zone, time, all_day, clock);
    let ghost c4 = *clock;
    let ghost k4 = skips@;
    let ghost rm = rid_models(rids@);
    proof {
        lemma_extends_chain(old(clock), &c1, &c2);
        lemma_extends_chain(old(clock), &c2, &c3);
        lemma_extends_chain(old(clock), &c3, &c4);
    }
    let mut i: usize = 0;
    while i < rids.len()
        invariant
            i <= rids.len(),
            rm == rid_models(rids@),
            sm == start_models(starts@),
            clock.wf(),
            clock.extends(&c4),
            0 <= time < 172_800,
            forall|j: int| 0 <= j < rids@.len() ==> time_in_calendar(#[trigger] rids@[j]@),
            forall|l: LocalModel| #[trigger]
                clock.agrees(l) ==> skips@ == with_all_moved(k4, rm, i as int, sm, zone@, time as int, all_day, l),
        decreases rids.len() - i,
    {
        let ghost mid = *clock;
        proof {
            assert(rm[i as int] == rids@[i as int]@);
        }
        add_moved(&mut skips, &rids[i], &starts, &zone, time, all_day, clock);
        proof {
            lemma_extends_chain(&c4, &mid, clock);
            lemma_forget(&mid, clock);
        }
        i = i + 1;
    }
    let ghost c5 = *clock;
    let ghost k5 = skips@;
    let out = emit_starts(&starts, &skips, feed, title.as_str(), &zone, all_day, win, clock);
    proof {
        lemma_extends_chain(&c4, &c5, clock);
        lemma_extends_chain(old(clock), &c4, clock);
        lemma_forget(&c5, clock);
        lemma_forget(&c4, &c5);
        lemma_forget(&c3, &c4);
        lemma_forget(&c2, &c3);
        lemma_forget(&c1, &c2);
        assert forall|l: LocalModel| #[trigger] clock.agrees(l) implies event_models(out@) == series_events(
            c@.props,
            rm,
            feed as int,
            *win,
            l,
        ) by {
            assert(c5.agrees(l) && c4.agrees(l) && c3.agrees(l) && c2.agrees(l) && c1.agrees(l));
            assert(timing_of(c@.props, l) == Some((start@, dur@)));
            assert(sm == series_starts(c@.props, wall0 as int, zone@, all_day, dur@, limit as int, l));
            assert(k5 == with_all_moved(k4, rm, rm.len() as int, sm, zone@, time as int, all_day, l));
        }
    }
    out
}

// ---------------------------------------------------------------------------
// What one more exception does
// ---------------------------------------------------------------------------

/// The occurrence that is shown at a time, among the first `n` starts.
pub open spec fn shown_at(
    starts: Seq<(int, Length)>,
    n: int,
    skips: SkipModel,
    feed: int,
    title: Seq<char>,
    zone: ZoneModel,
    all_day: bool,
    win: Window,
    l: LocalModel,
    t: int,
) -> Option<EventModel>
    decreases n,
{
    if n <= 0 {
        None
    } else if starts[n - 1].0 == t && !is_skipped(skips, t) {
        shown_event(feed, title, t, zone, all_day, starts[n - 1].1, win, l)
    } else {
        shown_at(starts, n - 1, skips, feed, title, zone, all_day, win, l, t)
    }
}

/// The occurrence of a series that is shown at a time on the clock of the series.
pub open spec fn series_event_at(
    props: Seq<PropModel>,
    rids: Seq<IcsTimeModel>,
    feed: int,
    win: Window,
    l: LocalModel,
    t: int,
) -> Option<EventModel> {
    match timing_of(props, l) {
        Some((start, dur)) => if cancelled_in(props) {
            None
        } else {
            let (wall0, zone, all_day) = series_start(start);
            let starts = series_starts(props, wall0, zone, all_day, dur, win.end + 172_800, l);
            let skips = all_skips(props, rids, starts, zone, moment_of_day(wall0), all_day, l);
            shown_at(starts, starts.len() as int, skips, feed, title_in(props), zone, all_day, win, l, t)
        },
        None => None,
    }
}

spec fn starts_ascend(s: Seq<(int, Length)>) -> bool {
    forall|i: int, j: int| 0 <= i < j < s.len() ==> (#[trigger] s[i]).0 < (#[trigger] s[j]).0
}

proof fn lemma_with_start(list: Seq<(int, Length)>, x: (int, Length))
    requires
        starts_ascend(list),
    ensures
        starts_ascend(with_start(list, x)),
        forall|i: int|
            0 <= i < with_start(list, x).len() ==> (#[trigger] with_start(list, x)[i]).0 <= x.0 || (list.len() > 0
                && with_start(list, x)[i].0 <= list.last().0),
    decreases list.len(),
{
    if list.len() > 0 && list.last().0 > x.0 {
        let before = list.drop_last();
        assert(starts_ascend(before)) by {
            assert forall|i: int, j: int| 0 <= i < j < before.len() implies (#[trigger] before[i]).0 < (
            #[trigger] before[j]).0 by {
                assert(list[i].0 < list[j].0);
            }
        }
        lemma_with_start(before, x);
        let o = with_start(before, x);
        if before.len() > 0 {
            assert(list[before.len() - 1].0 < list[list.len() - 1].0);
        }
        let all = o.push(list.last());
        assert forall|i: int, j: int| 0 <= i < j < all.len() implies (#[trigger] all[i]).0 < (#[trigger] all[j]).0 by {
            if j == o.len() {
                assert(o[i].0 <= x.0 || o[i].0 <= before.last().0);
            } else {
                assert(o[i].0 < o[j].0);
            }
        }
    } else if list.len() > 0 && list.last().0 < x.0 {
        let all = list.push(x);
        assert forall|i: int, j: int| 0 <= i < j < all.len() implies (#[trigger] all[i]).0 < (#[trigger] all[j]).0 by {
            if j == list.len() {
                if i < list.len() - 1 {
                    assert(list[i].0 < list[list.len() - 1].0);
                }
            } else {
                assert(list[i].0 < list[j].0);
            }
        }
        assert forall|i: int| 0 <= i < all.len() implies (#[trigger] all[i]).0 <= x.0 by {
            if i < list.len() - 1 {
                assert(list[i].0 < list[list.len() - 1].0);
            }
        }
    } else if list.len() > 0 {
        assert forall|i: int| 0 <= i < list.len() implies (#[trigger] list[i]).0 <= x.0 by {
            if i < list.len() - 1 {
                assert(list[i].0 < list[list.len() - 1].0);
            }
        }
    }
}

proof fn lemma_with_times(list: Seq<(int, Length)>, times: Seq<int>, n: int, dur: Length)
    requires
        starts_ascend(list),
    ensures
        starts_ascend(with_times(list, times, n, dur)),
    decreases n,
{
    if n > 0 {
        lemma_with_times(list, times, n - 1, dur);
        lemma_with_start(with_times(list, times, n - 1, dur), (2 * times[n - 1], dur));
    }
}

proof fn lemma_with_extras(
    list: Seq<(int, Length)>,
    times: Seq<PropTimeModel>,
    n: int,
    zone: ZoneModel,
    time: int,
    all_day: bool,
    dur: Length,
    l: LocalModel,
)
    requires
        starts_ascend(list),
    ensures
        starts_ascend(with_extras(list, times, n, zone, time, all_day, dur, l)),
    decreases n,
{
    if n > 0 {
        lemma_with_extras(list, times, n - 1, zone, time, all_day, dur, l);
        lemma_with_start(
            with_extras(list, times, n - 1, zone, time, all_day, dur, l),
            extra_start(times[n - 1], zone, time, all_day, dur, l),
        );
    }
}

/// The rules of a series are the same with one more property that is none, and their
/// starts ascend.
proof fn lemma_rules_pushed(
    list: Seq<(int, Length)>,
    props: Seq<PropModel>,
    p: PropModel,
    n: int,
    wall0: int,
    zone: ZoneModel,
    dur: Length,
    limit: int,
    l: LocalModel,
)
    requires
        0 <= n <= props.len(),
        starts_ascend(list),
    ensures
        with_rules(list, props.push(p), n, wall0, zone, dur, limit, l) == with_rules(
            list,
            props,
            n,
            wall0,
            zone,
            dur,
            limit,
            l,
        ),
        starts_ascend(with_rules(list, props, n, wall0, zone, dur, limit, l)),
    decreases n,
{
    if n > 0 {
        lemma_rules_pushed(list, props, p, n - 1, wall0, zone, dur, limit, l);
        assert(props.push(p)[n - 1] == props[n - 1]);
        let before = with_rules(list, props, n - 1, wall0, zone, dur, limit, l);
        match rule_of(props[n - 1].value) {
            Some(r) => {
                let o = occurrences(r, wall0, until_of(r, zone, l), limit);
                lemma_with_times(before, o, o.len() as int, dur);
            },
            None => {},
        }
    }
}

proof fn lemma_dates_pushed(
    list: Seq<(int, Length)>,
    props: Seq<PropModel>,
    p: PropModel,
    n: int,
    zone: ZoneModel,
    time: int,
    all_day: bool,
    dur: Length,
    l: LocalModel,
)
    requires
        0 <= n <= props.len(),
        starts_ascend(list),
    ensures
        with_dates(list, props.push(p), n, zone, time, all_day, dur, l) == with_dates(
            list,
            props,
            n,
            zone,
            time,
            all_day,
            dur,
            l,
        ),
        starts_ascend(with_dates(list, props, n, zone, time, all_day, dur, l)),
    decreases n,
{
    if n > 0 {
        lemma_dates_pushed(list, props, p, n - 1, zone, time, all_day, dur, l);
        assert(props.push(p)[n - 1] == props[n - 1]);
        let before = with_dates(list, props, n - 1, zone, time, all_day, dur, l);
        let ts = times_of(props[n - 1]);
        lemma_with_extras(before, ts, ts.len() as int, zone, time, all_day, dur, l);
    }
}

proof fn lemma_exceptions_pushed(
    props: Seq<PropModel>,
    p: PropModel,
    n: int,
    zone: ZoneModel,
    time: int,
    all_day: bool,
    l: LocalModel,
)
    requires
        0 <= n <= props.len(),
    ensures
        exceptions(props.push(p), n, zone, time, all_day, l) == exceptions(props, n, zone, time, all_day, l),
    decreases n,
{
    if n > 0 {
        lemma_exceptions_pushed(props, p, n - 1, zone, time, all_day, l);
        assert(props.push(p)[n - 1] == props[n - 1]);
    }
}

proof fn lemma_prop_pushed(props: Seq<PropModel>, p: PropModel, name: Seq<char>, i: int)
    requires
        0 <= i <= props.len(),
        p.name != name,
    ensures
        prop_from(props.push(p), name, i) == prop_from(props, name, i),
    decreases props.len() - i,
{
    if i < props.len() {
        assert(props.push(p)[i] == props[i]);
        lemma_prop_pushed(props, p, name, i + 1);
    } else {
        assert(prop_from(props.push(p), name, i + 1) is None);
    }
}

/// Whether one list of what is left out has one time more than another.
spec fn has_one_more(a: SkipModel, b: SkipModel, w: int) -> bool {
    &&& a.days == b.days
    &&& forall|t: int| #[trigger] b.exact.contains(t) == (a.exact.contains(t) || t == w)
}

proof fn lemma_moved_too(
    a: SkipModel,
    b: SkipModel,
    w: int,
    rids: Seq<IcsTimeModel>,
    n: int,
    starts: Seq<(int, Length)>,
    zone: ZoneModel,
    time: int,
    all_day: bool,
    l: LocalModel,
)
    requires
        has_one_more(a, b, w),
    ensures
        has_one_more(
            with_all_moved(a, rids, n, starts, zone, time, all_day, l),
            with_all_moved(b, rids, n, starts, zone, time, all_day, l),
            w,
        ),
    decreases n,
{
    if n > 0 {
        lemma_moved_too(a, b, w, rids, n - 1, starts, zone, time, all_day, l);
        let a1 = with_all_moved(a, rids, n - 1, starts, zone, time, all_day, l);
        let b1 = with_all_moved(b, rids, n - 1, starts, zone, time, all_day, l);
        let x = series_wall(rids[n - 1], zone, time, all_day, l);
        assert forall|t: int| #[trigger] b1.exact.push(x).contains(t) == (a1.exact.push(x).contains(t) || t == w) by {
            crate::text::lemma_push_contains(a1.exact, x, t);
            crate::text::lemma_push_contains(b1.exact, x, t);
        }
    }
}

/// Whether two lists of events are the same but for one event.
pub open spec fn without_one(all: Seq<EventModel>, e: Option<EventModel>, rest: Seq<EventModel>) -> bool {
    match e {
        None => rest == all,
        Some(x) => exists|i: int| 0 <= i < all.len() && #[trigger] all[i] == x && rest == all.remove(i),
    }
}

proof fn lemma_one_less(
    starts: Seq<(int, Length)>,
    n: int,
    a: SkipModel,
    b: SkipModel,
    w: int,
    feed: int,
    title: Seq<char>,
    zone: ZoneModel,
    all_day: bool,
    win: Window,
    l: LocalModel,
)
    requires
        0 <= n <= starts.len(),
        starts_ascend(starts),
        has_one_more(a, b, w),
    ensures
        without_one(
            shown_starts(starts, n, a, feed, title, zone, all_day, win, l),
            shown_at(starts, n, a, feed, title, zone, all_day, win, l, w),
            shown_starts(starts, n, b, feed, title, zone, all_day, win, l),
        ),
        shown_at(starts, n, b, feed, title, zone, all_day, win, l, w) is None,
        (forall|j: int| 0 <= j < n ==> (#[trigger] starts[j]).0 != w) ==> shown_at(
            starts,
            n,
            a,
            feed,
            title,
            zone,
            all_day,
            win,
            l,
            w,
        ) is None,
        shown_at(starts, n, a, feed, title, zone, all_day, win, l, w) matches Some(e) ==> !all_day ==> e.start
            == time_text(local_wall(w, zone, l)),
    decreases n,
{
    if n > 0 {
        lemma_one_less(starts, n - 1, a, b, w, feed, title, zone, all_day, win, l);
        let sa = shown_starts(starts, n - 1, a, feed, title, zone, all_day, win, l);
        let sb = shown_starts(starts, n - 1, b, feed, title, zone, all_day, win, l);
        let (t, dur) = starts[n - 1];
        assert(b.exact.contains(t) == (a.exact.contains(t) || t == w));
        assert(b.exact.contains(w));
        let e = shown_event(feed, title, t, zone, all_day, dur, win, l);
        if t == w {
            assert forall|j: int| 0 <= j < n - 1 implies (#[trigger] starts[j]).0 != w by {
                assert(starts[j].0 < starts[n - 1].0);
            }
            if !is_skipped(a, t) && e is Some {
                let all = sa.push(e->0);
                assert(all[sa.len() as int] == e->0);
                assert(all.remove(sa.len() as int) =~= sb);
            }
        } else if !is_skipped(a, t) && e is Some {
            match shown_at(starts, n - 1, a, feed, title, zone, all_day, win, l, w) {
                Some(x) => {
                    let i = choose|i: int| 0 <= i < sa.len() && #[trigger] sa[i] == x && sb == sa.remove(i);
                    let all = sa.push(e->0);
                    assert(all[i] == x);
                    assert(all.remove(i) =~= sb.push(e->0));
                },
                None => {},
            }
        }
    }
}

/// One more exception at a time takes away the occurrence there, if one is shown, and
/// no other: the rest stay as they are, in their order. On a clock that shows the times
/// as they are written, the occurrence is the one that starts at that time.
pub proof fn law_exception_takes_one_away(
    props: Seq<PropModel>,
    p: PropModel,
    rids: Seq<IcsTimeModel>,
    feed: int,
    win: Window,
    l: LocalModel,
)
    requires
        p.name == "EXDATE"@,
        times_of(p).len() == 1,
        times_of(p)[0].start is Time,
        timing_of(props, l) is Some,
        (timing_of(props, l)->0).0 is Time,
    ensures
        ({
            let (t0, zone, all_day) = series_start((timing_of(props, l)->0).0);
            let w = series_wall(times_of(p)[0].start, zone, moment_of_day(t0), false, l);
            let e = series_event_at(props, rids, feed, win, l, w);
            &&& without_one(
                series_events(props, rids, feed, win, l),
                e,
                series_events(props.push(p), rids, feed, win, l),
            )
            &&& series_event_at(props.push(p), rids, feed, win, l, w) is None
            &&& e matches Some(x) ==> x.start == time_text(local_wall(w, zone, l))
            &&& times_of(p)[0].start matches IcsTimeModel::Time(t, z) ==> z == zone ==> w == t
        }),
{
    reveal_strlit("EXDATE");
    reveal_strlit("DTSTART");
    reveal_strlit("DTEND");
    reveal_strlit("DURATION");
    reveal_strlit("STATUS");
    reveal_strlit("SUMMARY");
    reveal_strlit("RRULE");
    reveal_strlit("RDATE");
    assert("EXDATE"@[0] == 'E' && "STATUS"@[0] == 'S');
    let props2 = props.push(p);
    lemma_prop_pushed(props, p, "DTSTART"@, 0);
    lemma_prop_pushed(props, p, "DTEND"@, 0);
    lemma_prop_pushed(props, p, "DURATION"@, 0);
    lemma_prop_pushed(props, p, "STATUS"@, 0);
    lemma_prop_pushed(props, p, "SUMMARY"@, 0);
    let (start, dur) = timing_of(props, l)->0;
    assert(timing_of(props2, l) == Some((start, dur)));
    let (t0, zone, all_day) = series_start(start);
    let time = moment_of_day(t0);
    let limit = win.end + 172_800;
    let n = props.len() as int;
    let own = seq![(t0, dur)];
    lemma_rules_pushed(own, props, p, n, t0, zone, dur, limit, l);
    let ruled = with_rules(own, props, n, t0, zone, dur, limit, l);
    assert(props2[n] == p);
    assert(with_rules(own, props2, n + 1, t0, zone, dur, limit, l) == ruled);
    lemma_dates_pushed(ruled, props, p, n, zone, time, all_day, dur, l);
    let starts = series_starts(props, t0, zone, all_day, dur, limit, l);
    assert(series_starts(props2, t0, zone, all_day, dur, limit, l) == starts);
    lemma_exceptions_pushed(props, p, n, zone, time, all_day, l);
    let a = exceptions(props, n, zone, time, all_day, l);
    let b = exceptions(props2, n + 1, zone, time, all_day, l);
    let ts = times_of(p);
    let w = series_wall(ts[0].start, zone, time, false, l);
    assert(with_exclusions(a, ts, 0, zone, time, all_day, l) == a);
    assert(b == with_exclusions(a, ts, 1, zone, time, all_day, l));
    assert(b == (SkipModel { exact: a.exact.push(w), ..a }));
    assert forall|t: int| #[trigger] b.exact.contains(t) == (a.exact.contains(t) || t == w) by {
        crate::text::lemma_push_contains(a.exact, w, t);
    }
    lemma_moved_too(a, b, w, rids, rids.len() as int, starts, zone, time, all_day, l);
    let a1 = all_skips(props, rids, starts, zone, time, all_day, l);
    let b1 = all_skips(props2, rids, starts, zone, time, all_day, l);
    lemma_one_less(starts, starts.len() as int, a1, b1, w, feed, title_in(props), zone, all_day, win, l);
}

// ---------------------------------------------------------------------------
// When a series takes place
// ---------------------------------------------------------------------------

proof fn lemma_start_added(list: Seq<(int, Length)>, x: (int, Length), t: int)
    ensures
        starts_at(with_start(list, x), t) == (starts_at(list, t) || t == x.0),
    decreases list.len(),
{
    let more = with_start(list, x);
    if list.len() == 0 {
        assert(more[0].0 == x.0);
    } else if list.last().0 < x.0 {
        lemma_last_start(list, x, t);
    } else if list.last().0 == x.0 {
        assert(list[list.len() - 1].0 == x.0);
    } else {
        let rest = list.drop_last();
        lemma_start_added(rest, x, t);
        lemma_last_start(with_start(rest, x), list.last(), t);
        lemma_last_start(rest, list.last(), t);
        assert(rest.push(list.last()) =~= list);
    }
}

proof fn lemma_last_start(list: Seq<(int, Length)>, x: (int, Length), t: int)
    ensures
        starts_at(list.push(x), t) == (starts_at(list, t) || t == x.0),
{
    let more = list.push(x);
    if starts_at(list, t) {
        let i = choose|i: int| 0 <= i < list.len() && (#[trigger] list[i]).0 == t;
        assert(more[i].0 == t);
    }
    if t == x.0 {
        assert(more[list.len() as int].0 == t);
    }
    if starts_at(more, t) {
        let i = choose|i: int| 0 <= i < more.len() && (#[trigger] more[i]).0 == t;
        if i < list.len() {
            assert(list[i].0 == t);
        }
    }
}

proof fn lemma_times_added(list: Seq<(int, Length)>, times: Seq<int>, n: int, dur: Length, t: int)
    requires
        0 <= n <= times.len(),
    ensures
        starts_at(with_times(list, times, n, dur), t) == (starts_at(list, t) || exists|i: int|
            0 <= i < n && 2 * #[trigger] times[i] == t),
    decreases n,
{
    if n > 0 {
        lemma_times_added(list, times, n - 1, dur, t);
        lemma_start_added(with_times(list, times, n - 1, dur), (2 * times[n - 1], dur), t);
        if exists|i: int| 0 <= i < n - 1 && 2 * #[trigger] times[i] == t {
            let i = choose|i: int| 0 <= i < n - 1 && 2 * #[trigger] times[i] == t;
            assert(2 * times[i] == t);
        }
    }
}

/// Whether one of the first `n` lines is a rule that recurs at a moment.
pub open spec fn by_rule(
    props: Seq<PropModel>,
    n: int,
    wall0: int,
    zone: ZoneModel,
    limit: int,
    l: LocalModel,
    t: int,
) -> bool {
    exists|i: int| 0 <= i < n && #[trigger] rule_recurs(props[i], wall0, zone, limit, l, t)
}

/// Whether a line is a rule that recurs at a moment.
pub open spec fn rule_recurs(p: PropModel, wall0: int, zone: ZoneModel, limit: int, l: LocalModel, t: int) -> bool {
    &&& p.name == "RRULE"@
    &&& rule_of(p.value) matches Some(r)
    &&& t % 2 == 0
    &&& occurrences(r, wall0, until_of(r, zone, l), limit).contains(t / 2)
}

proof fn lemma_rules_added(
    list: Seq<(int, Length)>,
    props: Seq<PropModel>,
    n: int,
    wall0: int,
    zone: ZoneModel,
    dur: Length,
    limit: int,
    l: LocalModel,
    t: int,
)
    requires
        0 <= n <= props.len(),
    ensures
        starts_at(with_rules(list, props, n, wall0, zone, dur, limit, l), t) == (starts_at(list, t) || by_rule(
            props,
            n,
            wall0,
            zone,
            limit,
            l,
            t,
        )),
    decreases n,
{
    if n > 0 {
        lemma_rules_added(list, props, n - 1, wall0, zone, dur, limit, l, t);
        let before = with_rules(list, props, n - 1, wall0, zone, dur, limit, l);
        let p = props[n - 1];
        match rule_of(p.value) {
            Some(r) => {
                if p.name == "RRULE"@ {
                    let o = occurrences(r, wall0, until_of(r, zone, l), limit);
                    lemma_times_added(before, o, o.len() as int, dur, t);
                    if exists|i: int| 0 <= i < o.len() && 2 * #[trigger] o[i] == t {
                        let i = choose|i: int| 0 <= i < o.len() && 2 * #[trigger] o[i] == t;
                        assert(o.contains(o[i]));
                        assert(rule_recurs(p, wall0, zone, limit, l, t));
                    }
                    if rule_recurs(p, wall0, zone, limit, l, t) {
                        let i = o.index_of(t / 2);
                        assert(2 * o[i] == t);
                    }
                }
            },
            None => {},
        }
        if by_rule(props, n - 1, wall0, zone, limit, l, t) {
            let i = choose|i: int| 0 <= i < n - 1 && #[trigger] rule_recurs(props[i], wall0, zone, limit, l, t);
            assert(rule_recurs(props[i], wall0, zone, limit, l, t));
        }
        if by_rule(props, n, wall0, zone, limit, l, t) {
            let i = choose|i: int| 0 <= i < n && #[trigger] rule_recurs(props[i], wall0, zone, limit, l, t);
            if i < n - 1 {
                assert(rule_recurs(props[i], wall0, zone, limit, l, t));
            }
        }
    }
}

/// Whether one of the first `n` lines adds a moment to a series.
pub open spec fn by_date(
    props: Seq<PropModel>,
    n: int,
    zone: ZoneModel,
    time: int,
    all_day: bool,
    l: LocalModel,
    t: int,
) -> bool {
    exists|i: int| 0 <= i < n && (#[trigger] props[i]).name == "RDATE"@ && names_moment(props[i], zone, time, all_day, l, t)
}

/// Whether a line names a moment of a series.
pub open spec fn names_moment(p: PropModel, zone: ZoneModel, time: int, all_day: bool, l: LocalModel, t: int) -> bool {
    exists|j: int| 0 <= j < times_of(p).len() && series_wall((#[trigger] times_of(p)[j]).start, zone, time, all_day, l) == t
}

proof fn lemma_extras_added(
    list: Seq<(int, Length)>,
    times: Seq<PropTimeModel>,
    n: int,
    zone: ZoneModel,
    time: int,
    all_day: bool,
    dur: Length,
    l: LocalModel,
    t: int,
)
    requires
        0 <= n <= times.len(),
    ensures
        starts_at(with_extras(list, times, n, zone, time, all_day, dur, l), t) == (starts_at(list, t) || exists|j: int|
            0 <= j < n && series_wall((#[trigger] times[j]).start, zone, time, all_day, l) == t),
    decreases n,
{
    if n > 0 {
        lemma_extras_added(list, times, n - 1, zone, time, all_day, dur, l, t);
        lemma_start_added(
            with_extras(list, times, n - 1, zone, time, all_day, dur, l),
            extra_start(times[n - 1], zone, time, all_day, dur, l),
            t,
        );
        if exists|j: int| 0 <= j < n - 1 && series_wall((#[trigger] times[j]).start, zone, time, all_day, l) == t {
            let j = choose|j: int| 0 <= j < n - 1 && series_wall((#[trigger] times[j]).start, zone, time, all_day, l) == t;
            assert(series_wall(times[j].start, zone, time, all_day, l) == t);
        }
    }
}

proof fn lemma_dates_added(
    list: Seq<(int, Length)>,
    props: Seq<PropModel>,
    n: int,
    zone: ZoneModel,
    time: int,
    all_day: bool,
    dur: Length,
    l: LocalModel,
    t: int,
)
    requires
        0 <= n <= props.len(),
    ensures
        starts_at(with_dates(list, props, n, zone, time, all_day, dur, l), t) == (starts_at(list, t) || by_date(
            props,
            n,
            zone,
            time,
            all_day,
            l,
            t,
        )),
    decreases n,
{
    if n > 0 {
        lemma_dates_added(list, props, n - 1, zone, time, all_day, dur, l, t);
        let before = with_dates(list, props, n - 1, zone, time, all_day, dur, l);
        let p = props[n - 1];
        if p.name == "RDATE"@ {
            lemma_extras_added(before, times_of(p), times_of(p).len() as int, zone, time, all_day, dur, l, t);
        }
        if by_date(props, n - 1, zone, time, all_day, l, t) {
            let i = choose|i: int|
                0 <= i < n - 1 && (#[trigger] props[i]).name == "RDATE"@ && names_moment(
                    props[i],
                    zone,
                    time,
                    all_day,
                    l,
                    t,
                );
            assert(props[i].name == "RDATE"@);
        }
    }
}

/// A series takes place at its start, whenever one of its rules recurs, and at each date that
/// is added to it, and at no other time.
pub proof fn law_when_a_series_takes_place(
    props: Seq<PropModel>,
    wall0: int,
    zone: ZoneModel,
    all_day: bool,
    dur: Length,
    limit: int,
    l: LocalModel,
    t: int,
)
    ensures
        starts_at(series_starts(props, wall0, zone, all_day, dur, limit, l), t) <==> t == wall0 || by_rule(
            props,
            props.len() as int,
            wall0,
            zone,
            limit,
            l,
            t,
        ) || by_date(props, props.len() as int, zone, moment_of_day(wall0), all_day, l, t),
{
    let n = props.len() as int;
    let first = seq![(wall0, dur)];
    assert(starts_at(first, t) == (t == wall0)) by {
        assert(first[0].0 == wall0);
    }
    lemma_rules_added(first, props, n, wall0, zone, dur, limit, l, t);
    lemma_dates_added(
        with_rules(first, props, n, wall0, zone, dur, limit, l),
        props,
        n,
        zone,
        moment_of_day(wall0),
        all_day,
        dur,
        l,
        t,
    );
}

/// A rule that ends on a date still recurs at any time of that day, and one that ends at a
/// time at that time.
pub proof fn law_the_end_of_a_rule(r: RuleModel, zone: ZoneModel, l: LocalModel, d: int, t: int)
    ensures
        r.until is None ==> until_of(r, zone, l) is None,
        r.until == Some(IcsTimeModel::Date(d)) ==> (until_of(r, zone, l) matches Some(u) && (t <= u <==> t / 86_400 <= d)),
        r.until == Some(IcsTimeModel::Time(2 * t, zone)) ==> until_of(r, zone, l) == Some(t),
{
}

proof fn lemma_shown_starts(
    starts: Seq<(int, Length)>,
    n: int,
    skips: SkipModel,
    feed: int,
    title: Seq<char>,
    zone: ZoneModel,
    all_day: bool,
    win: Window,
    l: LocalModel,
    e: EventModel,
)
    requires
        0 <= n <= starts.len(),
    ensures
        shown_starts(starts, n, skips, feed, title, zone, all_day, win, l).contains(e) == exists|i: int|
            0 <= i < n && !is_skipped(skips, (#[trigger] starts[i]).0) && shown_event(
                feed,
                title,
                starts[i].0,
                zone,
                all_day,
                starts[i].1,
                win,
                l,
            ) == Some(e),
    decreases n,
{
    if n > 0 {
        lemma_shown_starts(starts, n - 1, skips, feed, title, zone, all_day, win, l, e);
        let before = shown_starts(starts, n - 1, skips, feed, title, zone, all_day, win, l);
        let all = shown_starts(starts, n, skips, feed, title, zone, all_day, win, l);
        let (t, dur) = starts[n - 1];
        match shown_event(feed, title, t, zone, all_day, dur, win, l) {
            Some(x) => {
                if !is_skipped(skips, t) {
                    if before.contains(e) || x == e {
                        crate::text::lemma_push_contains(before, x, e);
                    }
                    if all.contains(e) {
                        let at = all.index_of(e);
                        if at < before.len() {
                            assert(before[at] == e);
                        } else {
                            assert(starts[n - 1] == (t, dur));
                        }
                    }
                }
            },
            None => {},
        }
        if before.contains(e) {
            let i = choose|i: int|
                0 <= i < n - 1 && !is_skipped(skips, (#[trigger] starts[i]).0) && shown_event(
                    feed,
                    title,
                    starts[i].0,
                    zone,
                    all_day,
                    starts[i].1,
                    win,
                    l,
                ) == Some(e);
            assert(!is_skipped(skips, starts[i].0));
        }
    }
}

/// A series that is not cancelled shows exactly those of its occurrences that are not left out
/// and that the days shown have a part in.
pub proof fn law_what_a_series_shows(
    props: Seq<PropModel>,
    rids: Seq<IcsTimeModel>,
    feed: int,
    win: Window,
    l: LocalModel,
    e: EventModel,
)
    requires
        timing_of(props, l) is Some,
        !cancelled_in(props),
    ensures
        ({
            let (start, dur) = timing_of(props, l)->0;
            let (wall0, zone, all_day) = series_start(start);
            let starts = series_starts(props, wall0, zone, all_day, dur, win.end + 172_800, l);
            let skips = all_skips(props, rids, starts, zone, moment_of_day(wall0), all_day, l);
            series_events(props, rids, feed, win, l).contains(e) <==> exists|i: int|
                0 <= i < starts.len() && !is_skipped(skips, (#[trigger] starts[i]).0) && shown_event(
                    feed,
                    title_in(props),
                    starts[i].0,
                    zone,
                    all_day,
                    starts[i].1,
                    win,
                    l,
                ) == Some(e)
        }),
{
    let (start, dur) = timing_of(props, l)->0;
    let (wall0, zone, all_day) = series_start(start);
    let starts = series_starts(props, wall0, zone, all_day, dur, win.end + 172_800, l);
    let skips = all_skips(props, rids, starts, zone, moment_of_day(wall0), all_day, l);
    lemma_shown_starts(starts, starts.len() as int, skips, feed, title_in(props), zone, all_day, win, l, e);
}

/// A series that is cancelled, or that has no start, shows nothing.
pub proof fn law_a_cancelled_series_shows_nothing(
    props: Seq<PropModel>,
    rids: Seq<IcsTimeModel>,
    feed: int,
    win: Window,
    l: LocalModel,
)
    ensures
        cancelled_in(props) || timing_of(props, l) is None ==> series_events(props, rids, feed, win, l).len() == 0,
{
}

/// Whether an exception takes away what begins at a moment: a date everything of that day, a
/// time what begins then, or everything of its day in a series of whole days.
pub open spec fn leaves_out(
    x: IcsTimeModel,
    zone: ZoneModel,
    time: int,
    all_day: bool,
    l: LocalModel,
    t: int,
) -> bool {
    match x {
        IcsTimeModel::Date(d) => moment_day(t) == d,
        IcsTimeModel::Time(w, z) => if all_day {
            moment_day(t) == moment_day(series_wall(x, zone, time, all_day, l))
        } else {
            t == series_wall(x, zone, time, all_day, l)
        },
    }
}

/// Whether a line is an exception that takes away what begins at a moment.
pub open spec fn line_leaves_out(
    p: PropModel,
    zone: ZoneModel,
    time: int,
    all_day: bool,
    l: LocalModel,
    t: int,
) -> bool {
    p.name == "EXDATE"@ && exists|j: int|
        0 <= j < times_of(p).len() && leaves_out((#[trigger] times_of(p)[j]).start, zone, time, all_day, l, t)
}

proof fn lemma_one_exclusion(
    m: SkipModel,
    x: IcsTimeModel,
    zone: ZoneModel,
    time: int,
    all_day: bool,
    l: LocalModel,
    t: int,
)
    ensures
        is_skipped(with_exclusion(m, x, zone, time, all_day, l), t) == (is_skipped(m, t) || leaves_out(
            x,
            zone,
            time,
            all_day,
            l,
            t,
        )),
{
    let w = series_wall(x, zone, time, all_day, l);
    let day = match x {
        IcsTimeModel::Date(d) => d,
        IcsTimeModel::Time(_, _) => moment_day(w),
    };
    lemma_pushed(m.days, day, moment_day(t));
    lemma_pushed(m.exact, w, t);
}

proof fn lemma_pushed(list: Seq<int>, x: int, v: int)
    ensures
        list.push(x).contains(v) == (list.contains(v) || v == x),
{
    if list.contains(v) || v == x {
        crate::text::lemma_push_contains(list, x, v);
    }
    if list.push(x).contains(v) {
        let at = list.push(x).index_of(v);
        if at < list.len() {
            assert(list[at] == v);
        }
    }
}

proof fn lemma_exclusions(
    m: SkipModel,
    times: Seq<PropTimeModel>,
    n: int,
    zone: ZoneModel,
    time: int,
    all_day: bool,
    l: LocalModel,
    t: int,
)
    requires
        0 <= n <= times.len(),
    ensures
        is_skipped(with_exclusions(m, times, n, zone, time, all_day, l), t) == (is_skipped(m, t) || exists|j: int|
            0 <= j < n && leaves_out((#[trigger] times[j]).start, zone, time, all_day, l, t)),
    decreases n,
{
    if n > 0 {
        lemma_exclusions(m, times, n - 1, zone, time, all_day, l, t);
        lemma_one_exclusion(
            with_exclusions(m, times, n - 1, zone, time, all_day, l),
            times[n - 1].start,
            zone,
            time,
            all_day,
            l,
            t,
        );
        if exists|j: int| 0 <= j < n - 1 && leaves_out((#[trigger] times[j]).start, zone, time, all_day, l, t) {
            let j = choose|j: int| 0 <= j < n - 1 && leaves_out((#[trigger] times[j]).start, zone, time, all_day, l, t);
            assert(leaves_out(times[j].start, zone, time, all_day, l, t));
        }
    }
}

proof fn lemma_all_exceptions(
    props: Seq<PropModel>,
    n: int,
    zone: ZoneModel,
    time: int,
    all_day: bool,
    l: LocalModel,
    t: int,
)
    requires
        0 <= n <= props.len(),
    ensures
        is_skipped(exceptions(props, n, zone, time, all_day, l), t) == exists|i: int|
            0 <= i < n && #[trigger] line_leaves_out(props[i], zone, time, all_day, l, t),
    decreases n,
{
    if n > 0 {
        lemma_all_exceptions(props, n - 1, zone, time, all_day, l, t);
        let before = exceptions(props, n - 1, zone, time, all_day, l);
        let p = props[n - 1];
        if p.name == "EXDATE"@ {
            lemma_exclusions(before, times_of(p), times_of(p).len() as int, zone, time, all_day, l, t);
            if is_skipped(exceptions(props, n, zone, time, all_day, l), t) && !is_skipped(before, t) {
                assert(line_leaves_out(p, zone, time, all_day, l, t));
            }
        }
        if is_skipped(before, t) {
            let i = choose|i: int| 0 <= i < n - 1 && #[trigger] line_leaves_out(props[i], zone, time, all_day, l, t);
            assert(line_leaves_out(props[i], zone, time, all_day, l, t));
        }
    }
}

/// Of a series from which nothing was moved, exactly that is left out which its exceptions take
/// away.
pub proof fn law_exceptions_are_left_out(
    props: Seq<PropModel>,
    starts: Seq<(int, Length)>,
    zone: ZoneModel,
    time: int,
    all_day: bool,
    l: LocalModel,
    t: int,
)
    ensures
        is_skipped(all_skips(props, Seq::empty(), starts, zone, time, all_day, l), t) <==> exists|i: int|
            0 <= i < props.len() && #[trigger] line_leaves_out(props[i], zone, time, all_day, l, t),
{
    lemma_all_exceptions(props, props.len() as int, zone, time, all_day, l, t);
}

proof fn lemma_skips_stay(
    m: SkipModel,
    rids: Seq<IcsTimeModel>,
    n: int,
    starts: Seq<(int, Length)>,
    zone: ZoneModel,
    time: int,
    all_day: bool,
    l: LocalModel,
    t: int,
    k: int,
)
    requires
        0 <= n <= rids.len(),
        0 <= k < rids.len(),
    ensures
        is_skipped(m, t) ==> is_skipped(with_all_moved(m, rids, n, starts, zone, time, all_day, l), t),
        k < n && (rids[k] matches IcsTimeModel::Date(d) ==> moment_day(t) == d) && (rids[k] is Time ==> t == series_wall(
            rids[k],
            zone,
            time,
            all_day,
            l,
        )) ==> is_skipped(with_all_moved(m, rids, n, starts, zone, time, all_day, l), t),
    decreases n,
{
    if n > 0 {
        lemma_skips_stay(m, rids, n - 1, starts, zone, time, all_day, l, t, k);
        let before = with_all_moved(m, rids, n - 1, starts, zone, time, all_day, l);
        let x = rids[n - 1];
        let w = series_wall(x, zone, time, all_day, l);
        let day = match x {
            IcsTimeModel::Date(d) => d,
            IcsTimeModel::Time(_, _) => moment_day(w),
        };
        lemma_pushed(before.days, day, moment_day(t));
        lemma_pushed(before.exact, w, t);
    }
}

/// What was moved is not shown in its old place: an occurrence whose own date or time is named
/// by a change of it is left out of the series.
pub proof fn law_what_was_moved_is_left_out(
    props: Seq<PropModel>,
    rids: Seq<IcsTimeModel>,
    starts: Seq<(int, Length)>,
    zone: ZoneModel,
    time: int,
    all_day: bool,
    l: LocalModel,
    t: int,
    k: int,
)
    requires
        0 <= k < rids.len(),
        rids[k] matches IcsTimeModel::Date(d) ==> moment_day(t) == d,
        rids[k] is Time ==> t == series_wall(rids[k], zone, time, all_day, l),
    ensures
        is_skipped(all_skips(props, rids, starts, zone, time, all_day, l), t),
{
    lemma_skips_stay(
        exceptions(props, props.len() as int, zone, time, all_day, l),
        rids,
        rids.len() as int,
        starts,
        zone,
        time,
        all_day,
        l,
        t,
        k,
    );
}

/// Where a time of a series stands: one of its own zone where it is, in a series of whole days
/// at the beginning of its day, and a date at the time of day of the series.
pub proof fn law_times_of_a_series(w: int, d: int, zone: ZoneModel, time: int, l: LocalModel)
    requires
        0 <= time < 172_800,
    ensures
        series_wall(IcsTimeModel::Time(w, zone), zone, time, false, l) == w,
        series_wall(IcsTimeModel::Time(w, zone), zone, time, true, l) == 172_800 * moment_day(w),
        series_wall(IcsTimeModel::Date(d), zone, time, true, l) == 172_800 * d,
        moment_day(series_wall(IcsTimeModel::Date(d), zone, time, false, l)) == d,
        moment_of_day(series_wall(IcsTimeModel::Date(d), zone, time, false, l)) == time,
{
}

} // verus!
