//! Events of a calendar file and their occurrences in a window of time.

use vstd::prelude::*;
use crate::dates::{
    date_text, format_date, format_time, in_calendar, later, moment_day, moment_later, moment_second, moments_apart,
    seconds_from, stamp_day, time_text,
};
use crate::ics::{prop_from, unescape_text, unescaped, Comp, PropModel};
use crate::ics_time::{
    duration_of, first_time, first_time_of, opt_int, parse_duration, time_in_calendar, time_model, MAX_DURATION,
    IcsTime, IcsTimeModel,
};
use crate::text::{chars_of, same_ignoring_case, same_text_ignoring_case, string_of, trim, trimmed};
use crate::zones::{
    from_utc, instant, lemma_extends_chain, lemma_forget, local_wall, same_zone, shown, to_local, to_utc,
    LocalClock, LocalModel, Zone, ZoneModel,
};

verus! {

/// One occurrence of an event, as it is shown.
#[derive(Debug)]
pub struct EventOut {
    pub feed: usize,
    pub title: String,
    pub all_day: bool,
    pub start: String,
    pub end: String,
}

#[verifier::ext_equal]
pub struct EventModel {
    pub feed: int,
    pub title: Seq<char>,
    pub all_day: bool,
    pub start: Seq<char>,
    pub end: Seq<char>,
}

impl View for EventOut {
    type V = EventModel;

    open spec fn view(&self) -> EventModel {
        EventModel {
            feed: self.feed as int,
            title: self.title@,
            all_day: self.all_day,
            start: self.start@,
            end: self.end@,
        }
    }
}

pub open spec fn event_models(v: Seq<EventOut>) -> Seq<EventModel> {
    v.map_values(|e: EventOut| e@)
}

/// How long an event lasts.
#[derive(Clone, Copy, Debug, PartialEq, Eq, Structural)]
pub enum Dur {
    /// Whole days; the last one does not count.
    Days(i64),
    /// Seconds on the wall clock, so that an hour stays an hour when clocks change.
    Wall(i64),
    /// Seconds that pass, where start and end are in different zones.
    Abs(i64),
}

/// A duration, of any length.
pub enum Length {
    Days(int),
    Wall(int),
    Abs(int),
}

/// The whole days of a duration.
pub open spec fn length_days(d: Length) -> int {
    match d {
        Length::Days(n) => n,
        Length::Wall(n) => whole_days(n),
        Length::Abs(n) => whole_days(n),
    }
}

/// A duration whose length fits the calendar.
pub open spec fn dur_fits(d: Dur) -> bool {
    match d {
        Dur::Days(n) => -200_000_000_000 <= n <= 200_000_000_000,
        Dur::Wall(n) => -MAX_DURATION - 100_000_000_000_000 <= n <= MAX_DURATION + 100_000_000_000_000,
        Dur::Abs(n) => -MAX_DURATION <= n <= MAX_DURATION,
    }
}

/// Whole days of a length in seconds, without the rest.
pub open spec fn whole_days(n: int) -> int {
    if n >= 0 {
        n / 86_400
    } else {
        -((-n) / 86_400)
    }
}

fn days_of(n: i64) -> (r: i64)
    requires
        n > i64::MIN,
    ensures
        r == whole_days(n as int),
{
    if n >= 0 {
        n / 86_400
    } else {
        -((-n) / 86_400)
    }
}

// ---------------------------------------------------------------------------
// One event
// ---------------------------------------------------------------------------

/// The first time in the first property with a name.
pub open spec fn time_of(props: Seq<PropModel>, name: Seq<char>) -> Option<IcsTimeModel> {
    match prop_from(props, name, 0) {
        Some(p) => first_time_of(p),
        None => None,
    }
}

/// The duration that the first DURATION property spells.
pub open spec fn duration_in(props: Seq<PropModel>) -> Option<int> {
    match prop_from(props, "DURATION"@, 0) {
        Some(p) => duration_of(p.value),
        None => None,
    }
}

/// How long an event with this start lasts. An end counts before a duration. A
/// date without either lasts a day, a time without either no time at all.
pub open spec fn length_of(
    start: IcsTimeModel,
    end: Option<IcsTimeModel>,
    dur: Option<int>,
    l: LocalModel,
) -> Length {
    match start {
        IcsTimeModel::Date(sd) => Length::Days(
            match end {
                Some(IcsTimeModel::Date(ed)) => ed - sd,
                Some(IcsTimeModel::Time(et, _)) => moment_day(et) - sd,
                None => match dur {
                    Some(d) => whole_days(d),
                    None => 1,
                },
            },
        ),
        IcsTimeModel::Time(st, sz) => match end {
            Some(IcsTimeModel::Time(et, ez)) => if ez == sz {
                Length::Wall(seconds_from(st, et))
            } else {
                Length::Abs(seconds_from(instant(st, sz, l), instant(et, ez, l)))
            },
            Some(IcsTimeModel::Date(ed)) => Length::Wall(seconds_from(st, 172_800 * ed)),
            None => match dur {
                Some(d) => Length::Wall(d),
                None => Length::Wall(0),
            },
        },
    }
}

impl View for Dur {
    type V = Length;

    open spec fn view(&self) -> Length {
        match self {
            Dur::Days(n) => Length::Days(*n as int),
            Dur::Wall(n) => Length::Wall(*n as int),
            Dur::Abs(n) => Length::Abs(*n as int),
        }
    }
}

/// The start of an event and how long it lasts.
pub open spec fn timing_of(props: Seq<PropModel>, l: LocalModel) -> Option<(IcsTimeModel, Length)> {
    match time_of(props, "DTSTART"@) {
        Some(start) => Some(
            (start, length_of(start, time_of(props, "DTEND"@), duration_in(props), l)),
        ),
        None => None,
    }
}

fn find_time(c: &Comp, name: &str) -> (r: Option<IcsTime>)
    ensures
        time_model(r) == time_of(c@.props, name@),
        r matches Some(t) ==> time_in_calendar(t@),
{
    match c.prop(name) {
        Some(p) => first_time(p),
        None => None,
    }
}

fn find_duration(c: &Comp) -> (r: Option<i64>)
    ensures
        opt_int(r) == duration_in(c@.props),
        r matches Some(n) ==> -MAX_DURATION <= n <= MAX_DURATION,
{
    match c.prop("DURATION") {
        Some(p) => {
            let v = chars_of(p.value.as_str());
            parse_duration(v.as_slice())
        },
        None => None,
    }
}

fn measure(start: &IcsTime, end: Option<IcsTime>, dur: Option<i64>, clock: &mut LocalClock) -> (r: Dur)
    requires
        old(clock).wf(),
        time_in_calendar(start@),
        end matches Some(e) ==> time_in_calendar(e@),
        dur matches Some(n) ==> -MAX_DURATION <= n <= MAX_DURATION,
    ensures
        final(clock).wf(),
        final(clock).extends(old(clock)),
        forall|l: LocalModel|
            #[trigger] final(clock).agrees(l) ==> r@ == length_of(start@, time_model(end), opt_int(dur), l),
        dur_fits(r),
{
    match start {
        IcsTime::Date(sd) => match end {
            Some(IcsTime::Date(ed)) => Dur::Days(ed - *sd),
            Some(IcsTime::Time(et, _)) => Dur::Days(stamp_day(moment_second(et)) - *sd),
            None => match dur {
                Some(d) => Dur::Days(days_of(d)),
                None => Dur::Days(1),
            },
        },
        IcsTime::Time(st, sz) => match end {
            Some(IcsTime::Time(et, ez)) => {
                if same_zone(&ez, sz) {
                    Dur::Wall(moments_apart(*st, et))
                } else {
                    let a: i64 = to_utc(et, &ez, clock);
                    let ghost mid = *clock;
                    let b: i64 = to_utc(*st, sz, clock);
                    proof {
                        lemma_extends_chain(old(clock), &mid, clock);
                        lemma_forget(&mid, clock);
                    }
                    Dur::Abs(moments_apart(b, a))
                }
            },
            Some(IcsTime::Date(ed)) => Dur::Wall(moments_apart(*st, 172_800 * ed)),
            None => match dur {
                Some(d) => Dur::Wall(d),
                None => Dur::Wall(0),
            },
        },
    }
}

/// The start of an event and how long it lasts; nothing without a readable start.
pub fn event_timing(c: &Comp, clock: &mut LocalClock) -> (r: Option<(IcsTime, Dur)>)
    requires
        old(clock).wf(),
    ensures
        final(clock).wf(),
        final(clock).extends(old(clock)),
        forall|l: LocalModel| #[trigger]
            final(clock).agrees(l) ==> match r {
                Some((start, dur)) => timing_of(c@.props, l) == Some((start@, dur@)),
                None => timing_of(c@.props, l) is None,
            },
        r is Some == (time_of(c@.props, "DTSTART"@) is Some),
        r matches Some((start, dur)) ==> time_in_calendar(start@) && dur_fits(dur) && time_of(
            c@.props,
            "DTSTART"@,
        ) == Some(start@),
{
    match find_time(c, "DTSTART") {
        None => None,
        Some(start) => {
            let end = find_time(c, "DTEND");
            let dur = find_duration(c);
            let d = measure(&start, end, dur, clock);
            Some((start, d))
        },
    }
}

/// The title of an event: its summary, or a stand-in where that is blank.
pub open spec fn title_in(props: Seq<PropModel>) -> Seq<char> {
    let t = match prop_from(props, "SUMMARY"@, 0) {
        Some(p) => trim(unescaped(p.value, 0)),
        None => trim(Seq::empty()),
    };
    if t.len() == 0 {
        "(untitled)"@
    } else {
        t
    }
}

pub fn title_of(c: &Comp) -> (r: String)
    ensures
        r@ == title_in(c@.props),
{
    let raw: Vec<char> = match c.prop("SUMMARY") {
        Some(p) => {
            let v = chars_of(p.value.as_str());
            unescape_text(v.as_slice())
        },
        None => Vec::new(),
    };
    let t = trimmed(raw.as_slice());
    if t.len() == 0 {
        "(untitled)".to_string()
    } else {
        string_of(t.as_slice())
    }
}

pub open spec fn cancelled_in(props: Seq<PropModel>) -> bool {
    match prop_from(props, "STATUS"@, 0) {
        Some(p) => same_ignoring_case(trim(p.value), "CANCELLED"@),
        None => false,
    }
}

pub fn is_cancelled(c: &Comp) -> (r: bool)
    ensures
        r == cancelled_in(c@.props),
{
    match c.prop("STATUS") {
        Some(p) => {
            let v = chars_of(p.value.as_str());
            let t = trimmed(v.as_slice());
            let k = chars_of("CANCELLED");
            same_text_ignoring_case(t.as_slice(), k.as_slice())
        },
        None => false,
    }
}

/// A window of time, from its start to before its end.
#[derive(Clone, Copy, Debug, PartialEq, Eq, Structural)]
pub struct Window {
    pub start: i64,
    pub end: i64,
}

/// Whether an occurrence shows in a window: it ends after the window's start and
/// starts before its end, or is a single moment at the window's start. The window is
/// given in seconds, and the occurrence in moments.
pub open spec fn in_window(w: Window, s: int, e: int) -> bool {
    (e > 2 * w.start && s < 2 * w.end) || (s == e && s == 2 * w.start)
}

impl Window {
    pub fn overlaps(&self, s: i64, e: i64) -> (r: bool)
        ensures
            r == in_window(*self, s as int, e as int),
    {
        let from: i128 = 2 * self.start as i128;
        let to: i128 = 2 * self.end as i128;
        (e as i128 > from && (s as i128) < to) || (s == e && s as i128 == from)
    }
}

/// The days from the first to the last day of an all-day occurrence.
pub open spec fn all_day_days(wall: int, dur: Length) -> (int, int) {
    let s = moment_day(wall);
    let n = length_days(dur);
    (
        s,
        if n > 0 {
            s + n - 1
        } else {
            s
        },
    )
}

/// Start and end of an occurrence on the machine's clock.
pub open spec fn local_span(wall: int, zone: ZoneModel, dur: Length, l: LocalModel) -> (int, int) {
    (
        local_wall(wall, zone, l),
        match dur {
            Length::Wall(n) => local_wall(later(wall, n), zone, l),
            Length::Days(n) => local_wall(later(wall, 86_400 * n), zone, l),
            Length::Abs(n) => shown(later(instant(wall, zone, l), n), ZoneModel::Floating, l),
        },
    )
}

/// One occurrence, if it shows in the window. An all-day occurrence shows its
/// first and last day, any other its start and end on the machine's clock.
pub open spec fn shown_event(
    feed: int,
    title: Seq<char>,
    wall: int,
    zone: ZoneModel,
    all_day: bool,
    dur: Length,
    win: Window,
    l: LocalModel,
) -> Option<EventModel> {
    if all_day {
        let (s, e) = all_day_days(wall, dur);
        let n = length_days(dur);
        let end = if n > 0 {
            s + n
        } else {
            s
        };
        if in_window(win, 172_800 * s, 172_800 * end) && in_calendar(s) && in_calendar(e) {
            Some(EventModel { feed, title, all_day, start: date_text(s), end: date_text(e) })
        } else {
            None
        }
    } else {
        let (s, e) = local_span(wall, zone, dur, l);
        if in_window(win, s, e) && in_calendar(moment_day(s)) && in_calendar(moment_day(e)) {
            Some(EventModel { feed, title, all_day, start: time_text(s), end: time_text(e) })
        } else {
            None
        }
    }
}

/// A moment near the calendar.
pub open spec fn near_calendar(t: int) -> bool {
    -40_000_000_000_000 <= t <= 40_000_000_000_000
}

pub open spec fn option_event(e: Option<EventOut>) -> Option<EventModel> {
    match e {
        Some(x) => Some(x@),
        None => None,
    }
}

fn emit_all_day(feed: usize, title: &str, wall: i64, dur: Dur, win: &Window) -> (r: Option<EventOut>)
    requires
        near_calendar(wall as int),
        dur_fits(dur),
    ensures
        forall|zone: ZoneModel, l: LocalModel|
            option_event(r) == #[trigger] shown_event(
                feed as int,
                title@,
                wall as int,
                zone,
                true,
                dur@,
                *win,
                l,
            ),
{
    let s: i64 = stamp_day(moment_second(wall));
    let n: i64 = match dur {
        Dur::Days(n) => n,
        Dur::Wall(d) => days_of(d),
        Dur::Abs(d) => days_of(d),
    };
    let end: i64 = if n > 0 {
        s + n
    } else {
        s
    };
    if !win.overlaps(172_800 * s, 172_800 * end) {
        return None;
    }
    let e: i64 = if n > 0 {
        s + n - 1
    } else {
        s
    };
    match (format_date(s), format_date(e)) {
        (Some(a), Some(b)) => {
            let ev = EventOut {
                feed,
                title: title.to_string(),
                all_day: true,
                start: string_of(a.as_slice()),
                end: string_of(b.as_slice()),
            };
            Some(ev)
        },
        _ => None,
    }
}

fn emit_timed(feed: usize, title: &str, wall: i64, zone: &Zone, dur: Dur, win: &Window, clock: &mut LocalClock) -> (r:
    Option<EventOut>)
    requires
        old(clock).wf(),
        near_calendar(wall as int),
        dur_fits(dur),
    ensures
        final(clock).wf(),
        final(clock).extends(old(clock)),
        forall|l: LocalModel| #[trigger]
            final(clock).agrees(l) ==> option_event(r) == shown_event(
                feed as int,
                title@,
                wall as int,
                zone@,
                false,
                dur@,
                *win,
                l,
            ),
{
    let start: i64 = to_local(wall, zone, clock);
    let ghost mid = *clock;
    let end: i64 = match dur {
        Dur::Wall(d) => to_local(moment_later(wall, d), zone, clock),
        Dur::Days(n) => to_local(moment_later(wall, 86_400 * n), zone, clock),
        Dur::Abs(d) => {
            let u: i64 = to_utc(wall, zone, clock);
            let ghost mid2 = *clock;
            let e: i64 = from_utc(moment_later(u, d), &Zone::Floating, clock);
            proof {
                lemma_extends_chain(&mid, &mid2, clock);
                lemma_forget(&mid2, clock);
            }
            e
        },
    };
    proof {
        lemma_extends_chain(old(clock), &mid, clock);
        lemma_forget(&mid, clock);
    }
    if !win.overlaps(start, end) {
        return None;
    }
    match (format_time(start), format_time(end)) {
        (Some(a), Some(b)) => {
            let ev = EventOut {
                feed,
                title: title.to_string(),
                all_day: false,
                start: string_of(a.as_slice()),
                end: string_of(b.as_slice()),
            };
            Some(ev)
        },
        _ => None,
    }
}

/// One occurrence, if it shows in the window.
pub fn emit(
    feed: usize,
    title: &str,
    wall: i64,
    zone: &Zone,
    all_day: bool,
    dur: Dur,
    win: &Window,
    clock: &mut LocalClock,
) -> (r: Option<EventOut>)
    requires
        old(clock).wf(),
        near_calendar(wall as int),
        dur_fits(dur),
    ensures
        final(clock).wf(),
        final(clock).extends(old(clock)),
        forall|l: LocalModel| #[trigger]
            final(clock).agrees(l) ==> option_event(r) == shown_event(
                feed as int,
                title@,
                wall as int,
                zone@,
                all_day,
                dur@,
                *win,
                l,
            ),
{
    if all_day {
        emit_all_day(feed, title, wall, dur, win)
    } else {
        emit_timed(feed, title, wall, zone, dur, win, clock)
    }
}

/// How long an event lasts: to its end, where it has one, else as long as it says, else one
/// day if it begins on a date and no time if it begins at one.
pub proof fn law_how_long_an_event_lasts(a: int, b: int, d: int, z: ZoneModel, l: LocalModel)
    requires
        a % 2 == 0,
        b % 2 == 0,
    ensures
        length_of(IcsTimeModel::Date(a), Some(IcsTimeModel::Date(b)), Some(d), l) == Length::Days(b - a),
        length_of(IcsTimeModel::Date(a), None, None, l) == Length::Days(1),
        d >= 0 ==> length_of(IcsTimeModel::Date(a), None, Some(86_400 * d), l) == Length::Days(d),
        length_of(IcsTimeModel::Time(a, z), Some(IcsTimeModel::Time(b, z)), Some(d), l) matches Length::Wall(n) && 2 * n
            == b - a,
        length_of(IcsTimeModel::Time(a, z), None, Some(d), l) == Length::Wall(d),
        length_of(IcsTimeModel::Time(a, z), None, None, l) == Length::Wall(0),
{
}

/// An event is shown exactly if it shares a moment with the days that are shown. One without
/// any length has the one moment at which it begins.
pub proof fn law_events_of_the_days_shown(w: Window, s: int, e: int)
    requires
        w.start < w.end,
        s <= e,
    ensures
        in_window(w, s, e) <==> exists|m: int| #[trigger]
            lasts_at(s, e, m) && 2 * w.start <= m && m < 2 * w.end,
{
    if in_window(w, s, e) {
        let m = if s < 2 * w.start {
            2 * w.start
        } else {
            s
        };
        assert(lasts_at(s, e, m) && 2 * w.start <= m && m < 2 * w.end);
    }
}

/// Whether a moment is one of an event: from its beginning on and before its end, or the
/// beginning itself.
pub open spec fn lasts_at(s: int, e: int, m: int) -> bool {
    s <= m && (m < e || m == s)
}

/// An event of whole days is shown from its first day to its last, both counted in: as many
/// days as it lasts, and at least one.
pub proof fn law_whole_days(day: int, n: int)
    ensures
        n >= 1 ==> all_day_days(172_800 * day, Length::Days(n)) == (day, day + n - 1),
        n <= 0 ==> all_day_days(172_800 * day, Length::Days(n)) == (day, day),
{
}

/// An event of the clock is shown by the machine's clock from its beginning to its end, each
/// as the date and time that it shows then, under its feed and title.
pub proof fn law_what_is_shown_of_an_event(
    feed: int,
    title: Seq<char>,
    wall: int,
    n: int,
    win: Window,
    l: LocalModel,
)
    requires
        wall % 2 == 0,
    ensures
        shown_event(feed, title, wall, ZoneModel::Floating, false, Length::Wall(n), win, l) matches Some(e) ==> e.feed
            == feed && e.title == title && !e.all_day && e.start == time_text(wall) && e.end == time_text(wall + 2 * n),
        shown_event(feed, title, wall, ZoneModel::Floating, true, Length::Days(n), win, l) matches Some(e) ==> e.feed
            == feed && e.title == title && e.all_day && e.start == date_text(moment_day(wall)) && e.end == date_text(
            if n >= 1 {
                moment_day(wall) + n - 1
            } else {
                moment_day(wall)
            },
        ),
        in_window(win, wall, wall + 2 * n) && in_calendar(moment_day(wall)) && in_calendar(moment_day(wall + 2 * n))
            ==> shown_event(feed, title, wall, ZoneModel::Floating, false, Length::Wall(n), win, l) is Some,
{
}

/// An event goes by its summary, without the white space round it, and one without any says
/// so. It is cancelled exactly if its status says that, in letters of either case.
pub proof fn law_titles_of_events(props: Seq<PropModel>)
    ensures
        (forall|i: int| 0 <= i < props.len() ==> (#[trigger] props[i]).name != "SUMMARY"@) ==> title_in(props)
            == "(untitled)"@,
        (forall|i: int| 0 <= i < props.len() ==> (#[trigger] props[i]).name != "STATUS"@) ==> !cancelled_in(props),
        prop_from(props, "SUMMARY"@, 0) matches Some(p) && trim(unescaped(p.value, 0)).len() > 0 ==> title_in(props)
            == trim(unescaped(prop_from(props, "SUMMARY"@, 0)->0.value, 0)),
{
    lemma_not_there(props, "SUMMARY"@, 0);
    lemma_not_there(props, "STATUS"@, 0);
    assert(trim(Seq::<char>::empty()).len() == 0);
}

proof fn lemma_not_there(props: Seq<PropModel>, name: Seq<char>, i: int)
    requires
        0 <= i <= props.len(),
    ensures
        (forall|k: int| 0 <= k < props.len() ==> (#[trigger] props[k]).name != name) ==> prop_from(props, name, i) is None,
    decreases props.len() - i,
{
    if i < props.len() {
        lemma_not_there(props, name, i + 1);
    }
}

/// An event of UTC is shown from its beginning to its end by how far ahead the machine's clock is
/// at each of the two, whether it lasts for so long on the clock or in all.
pub proof fn law_events_of_other_zones(wall: int, n: int, l: LocalModel, p: int, q: int)
    requires
        wall % 2 == 0,
        (l.utc)(wall / 2) == p,
        (l.utc)(wall / 2 + n) == q,
    ensures
        local_span(wall, ZoneModel::Utc, Length::Wall(n), l) == (wall + 2 * p, wall + 2 * n + 2 * q),
        local_span(wall, ZoneModel::Utc, Length::Abs(n), l) == (wall + 2 * p, wall + 2 * n + 2 * q),
{
    assert(later(wall, n) == wall + 2 * n);
    assert(crate::dates::second_at(wall + 2 * n) == wall / 2 + n);
    crate::zones::law_times_are_shown_on_the_clock(wall, ZoneModel::Utc, l, 0, p);
    crate::zones::law_times_are_shown_on_the_clock(wall + 2 * n, ZoneModel::Utc, l, 0, q);
    crate::zones::law_clocks_ahead_of_utc(wall, ZoneModel::Utc, l, 0, 0);
}

} // verus!
