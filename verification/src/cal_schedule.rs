//! When the calendar is on screens: screens that moved on to something else stop
//! getting it, and schedules put it up, watch it and take it down.

use vstd::prelude::*;
use vstd::string::*;
use crate::calendar::{
    counts_small, opts_for_schedule, schedule_opts, stop_showing, ELSEWHERE_LIMIT, OptsModel, Runtime, ShowOpts,
    Showing, Win,
};
use crate::config::{as_map, find_key, put_value, remove_key, CalSchedule, CalendarConfig, DisplayDefaults};
use crate::dates::{date_text, day_number, day_weekday, format_date, in_calendar, weekday_of};
use crate::home::{device_at, find_device, lemma_stands_at, stands_at, Entry};
use crate::text::{
    chars_of, contains, contains_text, opt, parse_nat, parse_unsigned, split, split_char, str_same, string_of,
    texts, trim, trimmed, views, within,
};
use crate::types::{Activity, Backend, PlayState};
use crate::zones::{LocalClock, LocalModel, Offsets};

verus! {

// ---------------------------------------------------------------------------
// What screens do
// ---------------------------------------------------------------------------

/// How long a screen takes to switch to the calendar, in milliseconds.
pub const SHOW_SETTLE_MS: i64 = 30_000;

/// Whether a Roku TV shows our channel.
pub open spec fn on_our_player(e: Entry) -> bool {
    e.info.tv matches Some(t) && t.showing matches Some(s) && contains(s@, "Volume Sync"@)
}

fn our_player(e: &Entry) -> (r: bool)
    ensures
        r == on_our_player(*e),
{
    match &e.info.tv {
        Some(t) => match &t.showing {
            Some(s) => {
                let c = chars_of(s.as_str());
                let n = chars_of("Volume Sync");
                contains_text(c.as_slice(), n.as_slice())
            },
            None => false,
        },
        None => false,
    }
}

/// Whether a device plays something that is called the calendar.
pub open spec fn plays_calendar(e: Entry) -> bool {
    e.info.media matches Some(m) && m.title matches Some(t) && t@ == "Calendar"@
}

fn playing_calendar(e: &Entry) -> (r: bool)
    ensures
        r == plays_calendar(*e),
{
    match &e.info.media {
        Some(m) => match &m.title {
            Some(t) => str_same(t.as_str(), "Calendar"),
            None => false,
        },
        None => false,
    }
}

/// Whether something is watched that must not be covered. A screensaver or a home
/// screen may be.
pub open spec fn is_busy(e: Entry) -> bool {
    match e.info.backend {
        Backend::Roku => !on_our_player(e) && e.info.tv is Some && match (e.info.tv->0).activity {
            Some(a) => a == Activity::Playing || a == Activity::Paused || a == Activity::LiveTv || a
                == Activity::Loading || a == Activity::Input || a == Activity::App,
            None => false,
        },
        Backend::Cast => !plays_calendar(e) && e.info.media is Some && ((e.info.media->0).state is Playing || (
        e.info.media->0).state is Paused || (e.info.media->0).state is Buffering),
        _ => true,
    }
}

/// Whether something is watched that must not be covered.
pub fn busy(e: &Entry) -> (r: bool)
    ensures
        r == is_busy(*e),
{
    match e.info.backend {
        Backend::Roku => {
            if our_player(e) {
                return false;
            }
            match &e.info.tv {
                Some(t) => match t.activity {
                    Some(a) => a == Activity::Playing || a == Activity::Paused || a == Activity::LiveTv || a
                        == Activity::Loading || a == Activity::Input || a == Activity::App,
                    None => false,
                },
                None => false,
            }
        },
        Backend::Cast => {
            if playing_calendar(e) {
                return false;
            }
            match &e.info.media {
                Some(m) => match m.state {
                    PlayState::Playing => true,
                    PlayState::Paused => true,
                    PlayState::Buffering => true,
                    _ => false,
                },
                None => false,
            }
        },
        _ => true,
    }
}

/// Whether the screen is on, of a TV that says so.
pub open spec fn power_of(e: Entry) -> Option<bool> {
    match e.info.tv {
        Some(t) => t.power,
        None => None,
    }
}

fn power(e: &Entry) -> (r: Option<bool>)
    ensures
        r == power_of(*e),
{
    match &e.info.tv {
        Some(t) => t.power,
        None => None,
    }
}

/// Whether a screen shows something else than the calendar. One that does not say
/// what it shows is believed to show it.
pub open spec fn is_elsewhere(devices: Seq<Entry>, id: Seq<char>) -> bool {
    match device_at(devices, id) {
        None => true,
        Some(i) => {
            let e = devices[i];
            match e.info.backend {
                Backend::Cast => e.info.media is Some && (e.info.media->0).title is Some && !plays_calendar(e),
                Backend::Roku => power_of(e) == Some(false) || (e.info.tv is Some && (e.info.tv->0).showing is Some
                    && !on_our_player(e)),
                _ => true,
            }
        },
    }
}

fn elsewhere(devices: &Vec<Entry>, id: &str) -> (r: bool)
    ensures
        r == is_elsewhere(devices@, id@),
{
    match find_device(devices, id) {
        None => true,
        Some(i) => {
            let e = &devices[i];
            match e.info.backend {
                Backend::Cast => {
                    let titled: bool = match &e.info.media {
                        Some(m) => m.title.is_some(),
                        None => false,
                    };
                    titled && !playing_calendar(e)
                },
                Backend::Roku => {
                    let off: bool = match power(e) {
                        Some(p) => !p,
                        None => false,
                    };
                    let named: bool = match &e.info.tv {
                        Some(t) => t.showing.is_some(),
                        None => false,
                    };
                    off || (named && !our_player(e))
                },
                _ => true,
            }
        },
    }
}

/// How often in a row a screen was seen to show something else, after a look.
pub open spec fn count_after(count: Option<u8>, away: bool) -> int {
    if away {
        match count {
            Some(n) => n + 1,
            None => 1,
        }
    } else {
        0
    }
}

/// What is remembered of a screen after a look: it is dropped when it was seen too
/// often to show something else.
pub open spec fn after_look(
    showing: Map<Seq<char>, Showing>,
    counts: Map<Seq<char>, u8>,
    id: Seq<char>,
    away: bool,
) -> (Map<Seq<char>, Showing>, Map<Seq<char>, u8>) {
    let n = count_after(
        if counts.dom().contains(id) {
            Some(counts[id])
        } else {
            None
        },
        away,
    );
    if n >= ELSEWHERE_LIMIT {
        (showing.remove(id), counts.remove(id))
    } else {
        (showing, counts.insert(id, n as u8))
    }
}

/// What is remembered after the first `n` of some screens were looked at. A screen
/// that has just begun is left alone.
pub open spec fn after_looks(
    showing: Map<Seq<char>, Showing>,
    counts: Map<Seq<char>, u8>,
    screens: Seq<(Seq<char>, i64)>,
    n: int,
    devices: Seq<Entry>,
    now: int,
) -> (Map<Seq<char>, Showing>, Map<Seq<char>, u8>)
    decreases n,
{
    if n <= 0 {
        (showing, counts)
    } else {
        let (s, c) = after_looks(showing, counts, screens, n - 1, devices, now);
        let (id, since) = screens[n - 1];
        if now - since < SHOW_SETTLE_MS {
            (s, c)
        } else {
            after_look(s, c, id, is_elsewhere(devices, id))
        }
    }
}

pub open spec fn screens_of(v: Seq<(String, Showing)>) -> Seq<(Seq<char>, i64)> {
    v.map_values(|e: (String, Showing)| (e.0@, e.1.since))
}

fn list_screens(v: &Vec<(String, Showing)>) -> (r: Vec<(String, i64)>)
    ensures
        r@.len() == v@.len(),
        forall|i: int| 0 <= i < v@.len() ==> (#[trigger] r@[i]).0@ == v@[i].0@ && r@[i].1 == v@[i].1.since,
{
    let mut out: Vec<(String, i64)> = Vec::new();
    let mut i: usize = 0;
    while i < v.len()
        invariant
            i <= v@.len(),
            out@.len() == i,
            forall|k: int| 0 <= k < i ==> (#[trigger] out@[k]).0@ == v@[k].0@ && out@[k].1 == v@[k].1.since,
        decreases v@.len() - i,
    {
        out.push((v[i].0.clone(), v[i].1.since));
        i = i + 1;
    }
    out
}

/// Looks at the screens that show the calendar, and drops those that moved on to
/// something else. Whether any was dropped.
pub fn drop_moved_on(r: &mut Runtime, devices: &Vec<Entry>, now: i64) -> (changed: bool)
    requires
        old(r).wf(),
    ensures
        final(r).wf(),
        (as_map(final(r).showing@), as_map(final(r).elsewhere@)) == after_looks(
            as_map(old(r).showing@),
            as_map(old(r).elsewhere@),
            screens_of(old(r).showing@),
            old(r).showing@.len() as int,
            devices@,
            now as int,
        ),
        changed == (as_map(final(r).showing@) != as_map(old(r).showing@)),
        final(r).outdated == old(r).outdated,
        final(r).windows == old(r).windows,
        final(r).last_schedules == old(r).last_schedules,
{
    let screens = list_screens(&r.showing);
    let ghost m = screens_of(r.showing@);
    let ghost s0 = as_map(r.showing@);
    let ghost c0 = as_map(r.elsewhere@);
    let ghost n0 = r.showing@;
    let mut changed: bool = false;
    let mut i: usize = 0;
    while i < screens.len()
        invariant
            i <= screens@.len(),
            screens@.len() == m.len(),
            m == screens_of(n0),
            n0 == old(r).showing@,
            s0 == as_map(n0),
            forall|k: int| 0 <= k < m.len() ==> (#[trigger] screens@[k]).0@ == m[k].0 && screens@[k].1 == m[k].1,
            counts_small(as_map(r.elsewhere@)),
            (as_map(r.showing@), as_map(r.elsewhere@)) == after_looks(s0, c0, m, i as int, devices@, now as int),
            as_map(r.showing@).dom().subset_of(s0.dom()),
            changed ==> as_map(r.showing@) != s0,
            !changed ==> as_map(r.showing@) == s0,
            r.outdated == old(r).outdated,
            r.windows == old(r).windows,
            r.last_schedules == old(r).last_schedules,
            old(r).wf(),
        decreases screens@.len() - i,
    {
        let id = screens[i].0.as_str();
        let since: i64 = screens[i].1;
        proof {
            assert(m[i as int].0 == id@ && m[i as int].1 == since);
        }
        if now as i128 - since as i128 >= SHOW_SETTLE_MS as i128 {
            let away: bool = elsewhere(devices, id);
            let ghost shown = as_map(r.showing@);
            let ghost counts = as_map(r.elsewhere@);
            let count: u8 = match find_key(&r.elsewhere, id) {
                Some(k) => r.elsewhere[k].1,
                None => 0,
            };
            proof {
                if counts.dom().contains(id@) {
                    assert(counts[id@] < ELSEWHERE_LIMIT);
                }
            }
            let n: u8 = if away {
                count + 1
            } else {
                0
            };
            if n >= ELSEWHERE_LIMIT {
                proof {
                    assert(counts.dom().contains(id@));
                    lemma_shown_names(n0, i as int);
                }
                let was: bool = find_key(&r.showing, id).is_some();
                remove_key(&mut r.showing, id);
                remove_key(&mut r.elsewhere, id);
                if was {
                    changed = true;
                }
                proof {
                    if was {
                        assert(shown.dom().contains(id@));
                        assert(s0.dom().contains(id@));
                        assert(!as_map(r.showing@).dom().contains(id@));
                    } else {
                        assert(as_map(r.showing@) =~= shown);
                    }
                }
            } else {
                put_value(&mut r.elsewhere, id, n);
            }
        }
        i = i + 1;
    }
    changed
}

proof fn lemma_shown_names(v: Seq<(String, Showing)>, i: int)
    requires
        0 <= i < v.len(),
    ensures
        as_map(v).dom().contains(v[i].0@),
{
    crate::config::lemma_key_from(v, v[i].0@, 0);
}

// ---------------------------------------------------------------------------
// Times of schedules
// ---------------------------------------------------------------------------

/// A number of the clock, zero if it is none.
pub open spec fn clock_number(s: Seq<char>) -> int {
    match within(parse_nat(trim(s)), 0, u32::MAX as int) {
        Some(n) => n,
        None => 0,
    }
}

pub open spec fn at_most(n: int, most: int) -> int {
    if n > most {
        most
    } else {
        n
    }
}

/// The hour and the minute of a time such as `7:30`.
pub open spec fn clock_time(s: Seq<char>) -> (int, int) {
    let p = split(s, ':');
    (
        at_most(clock_number(p[0]), 23),
        if p.len() > 1 {
            at_most(clock_number(p[1]), 59)
        } else {
            0
        },
    )
}

fn read_clock(s: &[char], most: u64) -> (r: u64)
    ensures
        r == at_most(clock_number(s@), most as int),
        r <= most,
{
    let t = trimmed(s);
    let n: u64 = match parse_unsigned(t.as_slice(), u32::MAX as u64) {
        Some(n) => n,
        None => 0,
    };
    if n > most {
        most
    } else {
        n
    }
}

/// The hour and the minute of a time.
pub fn parse_hm(s: &str) -> (r: (u64, u64))
    ensures
        (r.0 as int, r.1 as int) == clock_time(s@),
        r.0 <= 23,
        r.1 <= 59,
{
    let c = chars_of(s);
    let p = split_char(c.as_slice(), ':');
    let ghost m = views(p@);
    proof {
        assert(m.len() == p@.len());
        assert(m[0] == p@[0]@);
    }
    let h: u64 = read_clock(p[0].as_slice(), 23);
    let mut min: u64 = 0;
    if p.len() > 1 {
        proof {
            assert(m[1] == p@[1]@);
        }
        min = read_clock(p[1].as_slice(), 59);
    }
    (h, min)
}

/// The time on the clock at which a schedule starts on a day.
pub open spec fn start_wall(s: CalSchedule, day: int) -> int {
    let (h, m) = clock_time(s.start@);
    86_400 * day + 3_600 * h + 60 * m
}

/// When a schedule starts on a day: not at all if the clock skips that time, and the
/// first time if it shows it twice.
pub open spec fn start_of(s: CalSchedule, day: int, l: LocalModel) -> Option<int> {
    let w = start_wall(s, day);
    match (l.wall)(w) {
        Offsets::Gap => None,
        Offsets::Single(o) => Some(w - o),
        Offsets::Ambiguous(o, _) => Some(w - o),
    }
}

/// When a schedule ends that started at a time.
pub open spec fn end_of(s: CalSchedule, start: int) -> int {
    start + 60 * s.duration_min
}

/// Whether a schedule does anything.
pub open spec fn is_active(s: CalSchedule) -> bool {
    s.enabled && s.devices@.len() > 0 && s.duration_min > 0
}

/// When the time of a schedule ends that began on a day and runs now.
pub open spec fn running_until(s: CalSchedule, day: int, now: int, l: LocalModel) -> Option<int> {
    if is_active(s) && s.days@[weekday_of(day)] {
        match start_of(s, day, l) {
            Some(start) => if start <= now < end_of(s, start) {
                Some(end_of(s, start))
            } else {
                None
            },
            None => None,
        }
    } else {
        None
    }
}

/// When the time of a schedule ends that began on a day and runs now.
pub fn find_running(s: &CalSchedule, day: i64, now: i64, clock: &mut LocalClock) -> (r: Option<i64>)
    requires
        old(clock).wf(),
        in_calendar(day as int),
    ensures
        final(clock).wf(),
        final(clock).extends(old(clock)),
        forall|l: LocalModel| #[trigger]
            final(clock).agrees(l) ==> (match r {
                Some(e) => running_until(*s, day as int, now as int, l) == Some(e as int),
                None => running_until(*s, day as int, now as int, l) is None,
            }),
{
    if !s.enabled || s.devices.len() == 0 || s.duration_min == 0 {
        return None;
    }
    let wd: u32 = day_weekday(day);
    if !s.days[wd as usize] {
        return None;
    }
    let (h, m) = parse_hm(s.start.as_str());
    let wall: i64 = 86_400 * day + (3_600 * h + 60 * m) as i64;
    let offset: i32 = match clock.wall_offsets(wall) {
        Offsets::Gap => {
            return None;
        },
        Offsets::Single(o) => o,
        Offsets::Ambiguous(o, _) => o,
    };
    let start: i64 = wall - offset as i64;
    let end: i64 = start + 60 * s.duration_min as i64;
    if now < start || now >= end {
        None
    } else {
        Some(end)
    }
}

// ---------------------------------------------------------------------------
// One time on one screen
// ---------------------------------------------------------------------------

/// What a time of a schedule asks of a screen now.
#[derive(Clone, Copy, Debug, PartialEq, Eq, Structural)]
pub enum WinAct {
    Nothing,
    /// Take the calendar down and turn the TV off.
    TurnOff,
    TurnOn,
    Show,
}

/// A time that has just begun.
pub open spec fn fresh(end: i64) -> Win {
    Win { end, shown: false, turned_on: false, power_asked: None, done: false }
}

/// What a time of a schedule asks of a screen, and what is remembered of it.
/// `here` says since when no key was pressed, if the screen shows the calendar for
/// this time.
///
/// A screen that was switched away from the calendar is left alone. One that nobody
/// uses is turned off early. A TV that is off is turned on first, at most once a
/// minute. A screen that somebody watches is left alone for now, if so chosen.
pub open spec fn judged(w: Win, s: CalSchedule, e: Entry, here: Option<i64>, now: int) -> (Win, WinAct) {
    if w.done {
        (w, WinAct::Nothing)
    } else if w.shown {
        match here {
            None => (Win { done: true, ..w }, WinAct::Nothing),
            Some(touched) => if s.idle_off_min > 0 && now - touched >= 60_000 * s.idle_off_min {
                (Win { done: true, ..w }, WinAct::TurnOff)
            } else {
                (w, WinAct::Nothing)
            },
        }
    } else if !e.info.online && e.info.backend != Backend::Roku {
        (w, WinAct::Nothing)
    } else if e.info.backend == Backend::Roku && power_of(e) != Some(true) {
        let may_ask = match w.power_asked {
            Some(t) => now - t > 60_000,
            None => true,
        };
        if s.power_on && may_ask {
            (Win { power_asked: Some(now as i64), turned_on: true, ..w }, WinAct::TurnOn)
        } else {
            (w, WinAct::Nothing)
        }
    } else if s.dont_interrupt && is_busy(e) {
        (w, WinAct::Nothing)
    } else {
        (Win { shown: true, ..w }, WinAct::Show)
    }
}

/// What a time of a schedule asks of a screen.
pub fn judge(w: &mut Win, s: &CalSchedule, e: &Entry, here: Option<i64>, now: i64) -> (act: WinAct)
    ensures
        (*final(w), act) == judged(*old(w), *s, *e, here, now as int),
{
    if w.done {
        return WinAct::Nothing;
    }
    if w.shown {
        match here {
            None => {
                w.done = true;
                return WinAct::Nothing;
            },
            Some(t) => {
                if s.idle_off_min > 0 && now as i128 - t as i128 >= 60_000 * s.idle_off_min as i128 {
                    w.done = true;
                    return WinAct::TurnOff;
                }
                return WinAct::Nothing;
            },
        }
    }
    if !e.info.online && e.info.backend != Backend::Roku {
        return WinAct::Nothing;
    }
    let on: bool = match power(e) {
        Some(p) => p,
        None => false,
    };
    if e.info.backend == Backend::Roku && !on {
        let may_ask: bool = match w.power_asked {
            Some(t) => now as i128 - t as i128 > 60_000,
            None => true,
        };
        if s.power_on && may_ask {
            w.power_asked = Some(now);
            w.turned_on = true;
            return WinAct::TurnOn;
        }
        return WinAct::Nothing;
    }
    if s.dont_interrupt && busy(e) {
        return WinAct::Nothing;
    }
    w.shown = true;
    WinAct::Show
}

/// Under what a time of a schedule is remembered: the schedule, the day and the
/// screen.
pub open spec fn key_of(s: CalSchedule, day: int, id: Seq<char>) -> Seq<char> {
    s.id@ + "|"@ + date_text(day) + "|"@ + id
}

fn window_key(s: &CalSchedule, day: i64, id: &str) -> (r: String)
    requires
        in_calendar(day as int),
    ensures
        r@ == key_of(*s, day as int, id@),
{
    match format_date(day) {
        Some(d) => {
            let t = string_of(d.as_slice());
            s.id.clone().concat("|").concat(t.as_str()).concat("|").concat(id)
        },
        None => String::new(),
    }
}

/// What is remembered of screens and of times.
pub struct Memory {
    pub showing: Map<Seq<char>, Showing>,
    pub counts: Map<Seq<char>, u8>,
    pub windows: Map<Seq<char>, Win>,
    /// The screensavers that no longer fit, and when schedules were last looked at.
    pub outdated: Vec<String>,
    pub last_schedules: Option<i64>,
}

pub open spec fn memory(r: Runtime) -> Memory {
    Memory {
        showing: as_map(r.showing@),
        counts: as_map(r.elsewhere@),
        windows: as_map(r.windows@),
        outdated: r.outdated,
        last_schedules: r.last_schedules,
    }
}

/// Since when no key was pressed on a screen that shows the calendar for a time.
pub open spec fn shown_here(m: Memory, id: Seq<char>, key: Seq<char>) -> Option<i64> {
    if m.showing.dom().contains(id) && opt(m.showing[id].window) == Some(key) {
        Some(m.showing[id].touched)
    } else {
        None
    }
}

/// What is remembered after a screen was judged for a time, and what is done. A
/// screen that is not known is passed over.
pub open spec fn after_slot(
    m: Memory,
    s: CalSchedule,
    day: int,
    end: i64,
    id: Seq<char>,
    devices: Seq<Entry>,
    now: int,
) -> (Memory, WinAct) {
    match device_at(devices, id) {
        None => (m, WinAct::Nothing),
        Some(i) => {
            let key = key_of(s, day, id);
            let w = if m.windows.dom().contains(key) {
                m.windows[key]
            } else {
                fresh(end)
            };
            let (w1, act) = judged(w, s, devices[i], shown_here(m, id, key), now);
            let m1 = Memory { windows: m.windows.insert(key, w1), ..m };
            if act == WinAct::TurnOff {
                (Memory { showing: m1.showing.remove(id), counts: m1.counts.remove(id), ..m1 }, act)
            } else {
                (m1, act)
            }
        },
    }
}

/// Judges a screen for a time of a schedule that runs until `end`.
pub fn step_slot(
    r: &mut Runtime,
    s: &CalSchedule,
    day: i64,
    end: i64,
    id: &str,
    devices: &Vec<Entry>,
    now: i64,
) -> (act: WinAct)
    requires
        old(r).wf(),
        in_calendar(day as int),
    ensures
        final(r).wf(),
        (memory(*final(r)), act) == after_slot(memory(*old(r)), *s, day as int, end, id@, devices@, now as int),
        final(r).outdated == old(r).outdated,
        final(r).last_schedules == old(r).last_schedules,
{
    match find_device(devices, id) {
        None => WinAct::Nothing,
        Some(i) => {
            let key = window_key(s, day, id);
            let here: Option<i64> = match find_key(&r.showing, id) {
                Some(k) => match &r.showing[k].1.window {
                    Some(w) => if str_same(w.as_str(), key.as_str()) {
                        Some(r.showing[k].1.touched)
                    } else {
                        None
                    },
                    None => None,
                },
                None => None,
            };
            let mut w: Win = match find_key(&r.windows, key.as_str()) {
                Some(k) => r.windows[k].1,
                None => Win { end, shown: false, turned_on: false, power_asked: None, done: false },
            };
            let act = judge(&mut w, s, &devices[i], here, now);
            put_value(&mut r.windows, key.as_str(), w);
            if act == WinAct::TurnOff {
                let _was = stop_showing(r, id);
            }
            act
        },
    }
}

// ---------------------------------------------------------------------------
// All times
// ---------------------------------------------------------------------------

/// What is done about screens.
#[derive(Debug)]
pub enum CalAct {
    Power(String, bool),
    StopCasting(String),
    /// Show the calendar on a screen for a time.
    Show { key: String, id: String, opts: ShowOpts },
}

pub enum CalActModel {
    Power(Seq<char>, bool),
    StopCasting(Seq<char>),
    Show(Seq<char>, Seq<char>, OptsModel),
}

impl CalAct {
    pub open spec fn model(self) -> CalActModel {
        match self {
            CalAct::Power(id, on) => CalActModel::Power(id@, on),
            CalAct::StopCasting(id) => CalActModel::StopCasting(id@),
            CalAct::Show { key, id, opts } => CalActModel::Show(key@, id@, opts.model()),
        }
    }
}

pub open spec fn act_models(v: Seq<CalAct>) -> Seq<CalActModel> {
    v.map_values(|a: CalAct| a.model())
}

fn push_act(out: &mut Vec<CalAct>, a: CalAct)
    ensures
        act_models(final(out)@) == act_models(old(out)@).push(a.model()),
{
    let ghost m = a.model();
    out.push(a);
    proof {
        assert(act_models(out@) =~= act_models(old(out)@).push(m));
    }
}

/// How the calendar is taken off a screen: a Roku TV is turned off, if so wanted, and
/// every other screen stops showing it.
pub open spec fn taken_down(id: Seq<char>, backend: Backend, off: bool) -> CalActModel {
    if off && backend == Backend::Roku {
        CalActModel::Power(id, false)
    } else {
        CalActModel::StopCasting(id)
    }
}

fn take_down(id: &str, backend: Backend, off: bool) -> (r: CalAct)
    ensures
        r.model() == taken_down(id@, backend, off),
{
    if off && backend == Backend::Roku {
        CalAct::Power(id.to_string(), false)
    } else {
        CalAct::StopCasting(id.to_string())
    }
}

/// What is asked for, and the parts of it that do not change meanwhile.
pub struct Scene {
    pub cfg: CalendarConfig,
    pub devices: Seq<Entry>,
    pub defaults: DisplayDefaults,
    /// In milliseconds.
    pub now: int,
}

pub open spec fn is_small(devices: Seq<Entry>, id: Seq<char>) -> bool {
    match device_at(devices, id) {
        Some(i) => devices[i].info.backend == Backend::Cast && contains(
            crate::text::lower(devices[i].info.model@),
            "hub"@,
        ),
        None => false,
    }
}

/// What is done for a screen that was judged for a time.
pub open spec fn acts_for(x: Scene, s: CalSchedule, day: int, id: Seq<char>, act: WinAct) -> Seq<CalActModel> {
    match act {
        WinAct::Nothing => Seq::empty(),
        WinAct::TurnOn => seq![CalActModel::Power(id, true)],
        WinAct::TurnOff => seq![taken_down(id, x.devices[device_at(x.devices, id)->0].info.backend, true)],
        WinAct::Show => seq![
            CalActModel::Show(
                key_of(s, day, id),
                id,
                opts_for_schedule(x.cfg, s, id, is_small(x.devices, id), x.defaults),
            ),
        ],
    }
}

/// What is remembered and done after the first `n` screens of a schedule were judged
/// for a time.
pub open spec fn after_screens(m: Memory, x: Scene, s: CalSchedule, day: int, end: i64, n: int) -> (
    Memory,
    Seq<CalActModel>,
)
    decreases n,
{
    if n <= 0 {
        (m, Seq::empty())
    } else {
        let (m1, a1) = after_screens(m, x, s, day, end, n - 1);
        let id = s.devices@[n - 1]@;
        let (m2, act) = after_slot(m1, s, day, end, id, x.devices, x.now);
        (m2, a1 + acts_for(x, s, day, id, act))
    }
}

/// What is remembered and done for a schedule whose time may have begun on a day.
pub open spec fn after_day(m: Memory, x: Scene, s: CalSchedule, day: int, secs: int, l: LocalModel) -> (
    Memory,
    Seq<CalActModel>,
) {
    match running_until(s, day, secs, l) {
        Some(end) => after_screens(m, x, s, day, end as i64, s.devices@.len() as int),
        None => (m, Seq::empty()),
    }
}

/// What is remembered and done for the first `n` schedules. A time that began
/// yesterday may still run.
pub open spec fn after_schedules(m: Memory, x: Scene, n: int, today: int, secs: int, l: LocalModel) -> (
    Memory,
    Seq<CalActModel>,
)
    decreases n,
{
    if n <= 0 {
        (m, Seq::empty())
    } else {
        let (m1, a1) = after_schedules(m, x, n - 1, today, secs, l);
        let s = x.cfg.schedules@[n - 1];
        let (m2, a2) = after_day(m1, x, s, today, secs, l);
        let (m3, a3) = after_day(m2, x, s, today - 1, secs, l);
        (m3, a1 + a2 + a3)
    }
}

fn run_screens(
    r: &mut Runtime,
    cfg: &CalendarConfig,
    at: usize,
    day: i64,
    end: i64,
    devices: &Vec<Entry>,
    defaults: &DisplayDefaults,
    now: i64,
    out: &mut Vec<CalAct>,
)
    requires
        old(r).wf(),
        in_calendar(day as int),
        at < cfg.schedules@.len(),
    ensures
        final(r).wf(),
        ({
            let x = Scene { cfg: *cfg, devices: devices@, defaults: *defaults, now: now as int };
            let s = cfg.schedules@[at as int];
            let (m, a) = after_screens(memory(*old(r)), x, s, day as int, end, s.devices@.len() as int);
            &&& memory(*final(r)) == m
            &&& act_models(final(out)@) == act_models(old(out)@) + a
        }),
        final(r).outdated == old(r).outdated,
        final(r).last_schedules == old(r).last_schedules,
{
    let ghost x = Scene { cfg: *cfg, devices: devices@, defaults: *defaults, now: now as int };
    let s = &cfg.schedules[at];
    let mut i: usize = 0;
    proof {
        assert(act_models(out@) =~= act_models(old(out)@) + Seq::<CalActModel>::empty());
    }
    while i < s.devices.len()
        invariant
            i <= s.devices@.len(),
            r.wf(),
            in_calendar(day as int),
            x == (Scene { cfg: *cfg, devices: devices@, defaults: *defaults, now: now as int }),
            memory(*r) == after_screens(memory(*old(r)), x, *s, day as int, end, i as int).0,
            act_models(out@) == act_models(old(out)@) + after_screens(
                memory(*old(r)),
                x,
                *s,
                day as int,
                end,
                i as int,
            ).1,
            r.outdated == old(r).outdated,
            r.last_schedules == old(r).last_schedules,
        decreases s.devices@.len() - i,
    {
        let id = s.devices[i].as_str();
        let ghost before = act_models(out@);
        let ghost a1 = after_screens(memory(*old(r)), x, *s, day as int, end, i as int).1;
        let act = step_slot(r, s, day, end, id, devices, now);
        match act {
            WinAct::Nothing => {
                proof {
                    assert(a1 + Seq::<CalActModel>::empty() =~= a1);
                }
            },
            WinAct::TurnOn => {
                push_act(out, CalAct::Power(id.to_string(), true));
            },
            WinAct::TurnOff => {
                let backend = match find_device(devices, id) {
                    Some(d) => devices[d].info.backend,
                    None => Backend::Cast,
                };
                push_act(out, take_down(id, backend, true));
            },
            WinAct::Show => {
                let key = window_key(s, day, id);
                let small: bool = crate::calendar::is_small_display(devices, id);
                let opts = schedule_opts(cfg, s, id, small, defaults);
                push_act(out, CalAct::Show { key, id: id.to_string(), opts });
            },
        }
        proof {
            let a2 = acts_for(x, *s, day as int, id@, act);
            if act != WinAct::Nothing {
                assert(act_models(out@) =~= before + a2);
            }
            assert(act_models(old(out)@) + (a1 + a2) =~= (act_models(old(out)@) + a1) + a2);
        }
        i = i + 1;
    }
}

/// The acts of some that show the calendar, or those that do not, in their order.
pub open spec fn acts_that(acts: Seq<CalActModel>, show: bool) -> Seq<CalActModel>
    decreases acts.len(),
{
    if acts.len() == 0 {
        acts
    } else {
        let before = acts_that(acts.drop_last(), show);
        if acts.last() is Show == show {
            before.push(acts.last())
        } else {
            before
        }
    }
}

/// The order in which acts are performed: all that turn screens on or off or take the
/// calendar down come before those that show it.
pub open spec fn shows_last(acts: Seq<CalActModel>) -> Seq<CalActModel> {
    acts_that(acts, false) + acts_that(acts, true)
}

proof fn lemma_acts_that(acts: Seq<CalActModel>, show: bool)
    ensures
        forall|i: int|
            0 <= i < acts_that(acts, show).len() ==> (#[trigger] acts_that(acts, show)[i]) is Show == show,
    decreases acts.len(),
{
    if acts.len() > 0 {
        lemma_acts_that(acts.drop_last(), show);
    }
}

/// Once the calendar is shown on one screen, no later act of the same round turns a screen
/// on or off or takes the calendar down.
pub proof fn law_shows_come_last(acts: Seq<CalActModel>, i: int, j: int)
    requires
        0 <= i <= j < shows_last(acts).len(),
        shows_last(acts)[i] is Show,
    ensures
        shows_last(acts)[j] is Show,
{
    lemma_acts_that(acts, false);
    lemma_acts_that(acts, true);
    let k: int = acts_that(acts, false).len() as int;
    assert(i < k ==> shows_last(acts)[i] == acts_that(acts, false)[i]);
    assert(j >= k ==> shows_last(acts)[j] == acts_that(acts, true)[j - k]);
}

fn put_shows_last(acts: Vec<CalAct>) -> (out: Vec<CalAct>)
    ensures
        act_models(out@) == shows_last(act_models(acts@)),
{
    let ghost all = act_models(acts@);
    let ghost mut n: int = 0;
    let mut rest = acts;
    let mut out: Vec<CalAct> = Vec::new();
    let mut shows: Vec<CalAct> = Vec::new();
    proof {
        assert(all.take(0) =~= Seq::<CalActModel>::empty());
        assert(act_models(out@) =~= Seq::<CalActModel>::empty());
        assert(act_models(shows@) =~= Seq::<CalActModel>::empty());
        assert(acts@.skip(0) =~= acts@);
    }
    while rest.len() > 0
        invariant
            0 <= n <= acts@.len(),
            all == act_models(acts@),
            rest@ == acts@.skip(n),
            act_models(out@) == acts_that(all.take(n), false),
            act_models(shows@) == acts_that(all.take(n), true),
        decreases rest@.len(),
    {
        let a = rest.remove(0);
        proof {
            assert(a == acts@[n]);
            let next = all.take(n + 1);
            assert(next.drop_last() =~= all.take(n));
            assert(next.last() == a.model());
            assert(rest@ =~= acts@.skip(n + 1));
            n = n + 1;
        }
        let show: bool = match &a {
            CalAct::Show { .. } => true,
            _ => false,
        };
        if show {
            push_act(&mut shows, a);
        } else {
            push_act(&mut out, a);
        }
    }
    let ghost first = act_models(out@);
    let ghost then = act_models(shows@);
    out.append(&mut shows);
    proof {
        assert(all.take(n) =~= all);
        assert(act_models(out@) =~= first + then);
    }
    out
}

/// Starts and watches the times of schedules. `today` is the day of the clock on the
/// wall, `secs` the time in seconds and `now` that in milliseconds by which screens
/// are watched.
pub fn run_schedules(
    r: &mut Runtime,
    cfg: &CalendarConfig,
    devices: &Vec<Entry>,
    defaults: &DisplayDefaults,
    today: i64,
    secs: i64,
    now: i64,
    clock: &mut LocalClock,
) -> (out: Vec<CalAct>)
    requires
        old(r).wf(),
        old(clock).wf(),
        in_calendar(today as int),
        in_calendar(today - 1),
    ensures
        final(r).wf(),
        final(clock).wf(),
        final(clock).extends(old(clock)),
        forall|l: LocalModel| #[trigger]
            final(clock).agrees(l) ==> ({
                let (m, acts) = after_schedules(
                    memory(*old(r)),
                    (Scene { cfg: *cfg, devices: devices@, defaults: *defaults, now: now as int }),
                    cfg.schedules@.len() as int,
                    today as int,
                    secs as int,
                    l,
                );
                memory(*final(r)) == m && act_models(out@) == shows_last(acts)
            }),
        final(r).outdated == old(r).outdated,
        final(r).last_schedules == old(r).last_schedules,
{
    let ghost x = Scene { cfg: *cfg, devices: devices@, defaults: *defaults, now: now as int };
    let mut out: Vec<CalAct> = Vec::new();
    proof {
        assert(act_models(out@) =~= Seq::<CalActModel>::empty());
        crate::zones::lemma_extends_chain(clock, clock, clock);
    }
    let mut i: usize = 0;
    while i < cfg.schedules.len()
        invariant
            i <= cfg.schedules@.len(),
            clock.wf(),
            r.wf(),
            clock.extends(old(clock)),
            in_calendar(today as int),
            in_calendar(today - 1),
            x == (Scene { cfg: *cfg, devices: devices@, defaults: *defaults, now: now as int }),
            forall|l: LocalModel| #[trigger]
                clock.agrees(l) ==> (memory(*r), act_models(out@)) == after_schedules(
                    memory(*old(r)),
                    x,
                    i as int,
                    today as int,
                    secs as int,
                    l,
                ),
            r.outdated == old(r).outdated,
            r.last_schedules == old(r).last_schedules,
        decreases cfg.schedules@.len() - i,
    {
        let ghost c0 = *clock;
        let ghost m0 = memory(*r);
        let ghost o0 = act_models(out@);
        let s = &cfg.schedules[i];
        let first = find_running(s, today, secs, clock);
        let ghost c1 = *clock;
        match first {
            Some(end) => {
                run_screens(r, cfg, i, today, end, devices, defaults, now, &mut out);
            },
            None => {},
        }
        let ghost m1 = memory(*r);
        let ghost o1 = act_models(out@);
        let second = find_running(s, today - 1, secs, clock);
        let ghost c2 = *clock;
        match second {
            Some(end) => {
                run_screens(r, cfg, i, today - 1, end, devices, defaults, now, &mut out);
            },
            None => {},
        }
        proof {
            crate::zones::lemma_extends_chain(&c0, &c1, &c2);
            crate::zones::lemma_extends_chain(old(clock), &c0, &c2);
            assert forall|l: LocalModel| #[trigger] clock.agrees(l) implies (memory(*r), act_models(out@))
                == after_schedules(memory(*old(r)), x, i + 1, today as int, secs as int, l) by {
                crate::zones::lemma_agrees_with_less(&c1, &c2, l);
                crate::zones::lemma_agrees_with_less(&c0, &c1, l);
                let (d1, a1) = after_day(m0, x, *s, today as int, secs as int, l);
                let (d2, a2) = after_day(m1, x, *s, today - 1, secs as int, l);
                assert(m1 == d1);
                assert(o1 =~= o0 + a1);
                assert(memory(*r) == d2);
                assert(act_models(out@) =~= o1 + a2);
            }
        }
        i = i + 1;
    }
    put_shows_last(out)
}

/// Notes that the calendar could not be shown for a time, so that it is tried again.
pub fn show_failed(r: &mut Runtime, key: &str)
    requires
        old(r).wf(),
    ensures
        final(r).wf(),
        as_map(final(r).windows@) == (if as_map(old(r).windows@).dom().contains(key@) {
            as_map(old(r).windows@).insert(key@, Win { shown: false, ..as_map(old(r).windows@)[key@] })
        } else {
            as_map(old(r).windows@)
        }),
        *final(r) == (Runtime { windows: final(r).windows, ..*old(r) }),
{
    match find_key(&r.windows, key) {
        Some(k) => {
            let w = r.windows[k].1;
            put_value(
                &mut r.windows,
                key,
                Win { end: w.end, shown: false, turned_on: w.turned_on, power_asked: w.power_asked, done: w.done },
            );
        },
        None => {},
    }
}

// ---------------------------------------------------------------------------
// Times that are over
// ---------------------------------------------------------------------------

/// The screen in the name of a time: what stands behind its last bar.
pub open spec fn screen_in(key: Seq<char>) -> Seq<char> {
    key.skip(crate::roku_player::last_of(key, '|', '|', key.len() as int) + 1)
}

/// The schedule in the name of a time: what stands before its first bar.
pub open spec fn schedule_in(key: Seq<char>) -> Seq<char> {
    key.take(crate::text::position(key, '|', 0))
}

fn read_screen(key: &str) -> (r: String)
    ensures
        r@ == screen_in(key@),
{
    let c = chars_of(key);
    let from: usize = match crate::roku_player::find_last(c.as_slice(), '|', '|') {
        Some(i) => i + 1,
        None => 0,
    };
    let t = crate::text::copy_range(c.as_slice(), from, c.len());
    proof {
        assert(t@ =~= screen_in(key@));
    }
    string_of(t.as_slice())
}

fn read_schedule(key: &str) -> (r: String)
    ensures
        r@ == schedule_in(key@),
{
    let c = chars_of(key);
    let n: usize = crate::text::find_char(c.as_slice(), '|', 0);
    let t = crate::text::copy_range(c.as_slice(), 0, n);
    proof {
        assert(t@ =~= schedule_in(key@));
    }
    string_of(t.as_slice())
}

/// Whether TVs are turned off after the first schedule from the i-th on with an id.
pub open spec fn off_after_from(list: Seq<CalSchedule>, id: Seq<char>, i: int) -> bool
    decreases list.len() - i,
{
    if i >= list.len() {
        false
    } else if list[i].id@ == id {
        list[i].off_after
    } else {
        off_after_from(list, id, i + 1)
    }
}

fn off_after(list: &Vec<CalSchedule>, id: &str) -> (r: bool)
    ensures
        r == off_after_from(list@, id@, 0),
{
    let mut i: usize = 0;
    while i < list.len()
        invariant
            i <= list@.len(),
            off_after_from(list@, id@, 0) == off_after_from(list@, id@, i as int),
        decreases list@.len() - i,
    {
        if str_same(list[i].id.as_str(), id) {
            return list[i].off_after;
        }
        i = i + 1;
    }
    false
}

/// The kind of a device. One that is not known counts as a Cast device.
pub open spec fn backend_of(devices: Seq<Entry>, id: Seq<char>) -> Backend {
    match device_at(devices, id) {
        Some(i) => devices[i].info.backend,
        None => Backend::Cast,
    }
}

/// What is remembered and done when a time is over: the calendar is taken down where
/// it still is.
pub open spec fn after_end(m: Memory, key: Seq<char>, cfg: CalendarConfig, devices: Seq<Entry>) -> (
    Memory,
    Seq<CalActModel>,
) {
    let id = screen_in(key);
    let w = m.windows[key];
    let m1 = Memory { windows: m.windows.insert(key, Win { done: true, ..w }), ..m };
    if w.shown && shown_here(m, id, key) is Some {
        (
            Memory { showing: m1.showing.remove(id), counts: m1.counts.remove(id), ..m1 },
            seq![
                taken_down(id, backend_of(devices, id), off_after_from(cfg.schedules@, schedule_in(key), 0)),
            ],
        )
    } else {
        (m1, Seq::empty())
    }
}

/// The names of the first `n` times that are over and were not seen to yet.
pub open spec fn over_first(windows: Seq<(String, Win)>, n: int, secs: int) -> Seq<Seq<char>>
    decreases n,
{
    if n <= 0 {
        Seq::empty()
    } else {
        let before = over_first(windows, n - 1, secs);
        let w = windows[n - 1].1;
        if !w.done && secs >= w.end {
            before.push(windows[n - 1].0@)
        } else {
            before
        }
    }
}

/// What is remembered and done after the first `n` of some times were over.
pub open spec fn after_ends(m: Memory, keys: Seq<Seq<char>>, n: int, cfg: CalendarConfig, devices: Seq<Entry>) -> (
    Memory,
    Seq<CalActModel>,
)
    decreases n,
{
    if n <= 0 {
        (m, Seq::empty())
    } else {
        let (m1, a1) = after_ends(m, keys, n - 1, cfg, devices);
        let (m2, a2) = after_end(m1, keys[n - 1], cfg, devices);
        (m2, a1 + a2)
    }
}

fn list_over(windows: &Vec<(String, Win)>, secs: i64) -> (r: Vec<String>)
    ensures
        texts(r@) == over_first(windows@, windows@.len() as int, secs as int),
        forall|i: int| 0 <= i < r@.len() ==> as_map(windows@).dom().contains((#[trigger] r@[i])@),
{
    let mut out: Vec<String> = Vec::new();
    let mut i: usize = 0;
    proof {
        assert(texts(out@) =~= Seq::<Seq<char>>::empty());
    }
    while i < windows.len()
        invariant
            i <= windows@.len(),
            texts(out@) == over_first(windows@, i as int, secs as int),
            forall|k: int| 0 <= k < out@.len() ==> as_map(windows@).dom().contains((#[trigger] out@[k])@),
        decreases windows@.len() - i,
    {
        let w = windows[i].1;
        if !w.done && secs >= w.end {
            let ghost before = texts(out@);
            let ghost o = out@;
            out.push(windows[i].0.clone());
            proof {
                crate::config::lemma_key_from(windows@, windows@[i as int].0@, 0);
                assert(texts(out@) =~= before.push(windows@[i as int].0@));
                assert forall|k: int| 0 <= k < out@.len() implies as_map(windows@).dom().contains(
                    (#[trigger] out@[k])@,
                ) by {
                    if k < o.len() {
                        assert(out@[k] == o[k]);
                    }
                }
            }
        }
        i = i + 1;
    }
    out
}

/// Takes the calendar down where a time is over. `secs` is the time in seconds.
pub fn end_windows(r: &mut Runtime, cfg: &CalendarConfig, devices: &Vec<Entry>, secs: i64) -> (out: Vec<CalAct>)
    requires
        old(r).wf(),
    ensures
        final(r).wf(),
        ({
            let keys = over_first(old(r).windows@, old(r).windows@.len() as int, secs as int);
            (memory(*final(r)), act_models(out@)) == after_ends(
                memory(*old(r)),
                keys,
                keys.len() as int,
                *cfg,
                devices@,
            )
        }),
        final(r).outdated == old(r).outdated,
        final(r).last_schedules == old(r).last_schedules,
{
    let keys = list_over(&r.windows, secs);
    let ghost ks = texts(keys@);
    let ghost m0 = memory(*r);
    let mut out: Vec<CalAct> = Vec::new();
    let mut i: usize = 0;
    proof {
        assert(act_models(out@) =~= Seq::<CalActModel>::empty());
        assert(ks.len() == keys@.len());
    }
    while i < keys.len()
        invariant
            i <= keys@.len(),
            ks == texts(keys@),
            ks.len() == keys@.len(),
            r.wf(),
            (memory(*r), act_models(out@)) == after_ends(m0, ks, i as int, *cfg, devices@),
            forall|k: int|
                0 <= k < keys@.len() ==> as_map(r.windows@).dom().contains((#[trigger] keys@[k])@),
            r.outdated == old(r).outdated,
            r.last_schedules == old(r).last_schedules,
        decreases keys@.len() - i,
    {
        let key = keys[i].as_str();
        proof {
            assert(ks[i as int] == key@);
            assert(as_map(r.windows@).dom().contains(keys@[i as int]@));
        }
        let ghost before = act_models(out@);
        let id = read_screen(key);
        let still: bool = match find_key(&r.showing, id.as_str()) {
            Some(k) => match &r.showing[k].1.window {
                Some(w) => str_same(w.as_str(), key),
                None => false,
            },
            None => false,
        };
        match find_key(&r.windows, key) {
            Some(k) => {
                let w = r.windows[k].1;
                put_value(
                    &mut r.windows,
                    key,
                    Win { end: w.end, shown: w.shown, turned_on: w.turned_on, power_asked: w.power_asked, done: true },
                );
                if w.shown && still {
                    let sched = read_schedule(key);
                    let off: bool = off_after(&cfg.schedules, sched.as_str());
                    let backend = match find_device(devices, id.as_str()) {
                        Some(d) => devices[d].info.backend,
                        None => Backend::Cast,
                    };
                    let _was = stop_showing(r, id.as_str());
                    push_act(&mut out, take_down(id.as_str(), backend, off));
                    proof {
                        let a = taken_down(
                            id@,
                            backend_of(devices@, id@),
                            off_after_from(cfg.schedules@, schedule_in(key@), 0),
                        );
                        assert(act_models(out@) =~= before + seq![a]);
                    }
                } else {
                    proof {
                        assert(before + Seq::<CalActModel>::empty() =~= before);
                    }
                }
            },
            None => {},
        }
        i = i + 1;
    }
    out
}

/// The times that ended less than two days ago.
pub open spec fn recent(windows: Map<Seq<char>, Win>, secs: int) -> Map<Seq<char>, Win> {
    Map::new(
        |k: Seq<char>| windows.dom().contains(k) && secs - windows[k].end < 172_800,
        |k: Seq<char>| windows[k],
    )
}

/// Forgets times that ended before yesterday.
pub fn forget_windows(r: &mut Runtime, secs: i64)
    requires
        old(r).wf(),
    ensures
        final(r).wf(),
        as_map(final(r).windows@) == recent(as_map(old(r).windows@), secs as int),
        *final(r) == (Runtime { windows: final(r).windows, ..*old(r) }),
{
    let ghost all = as_map(r.windows@);
    let mut i: usize = 0;
    while i < r.windows.len()
        invariant
            i <= r.windows@.len(),
            r.wf(),
            forall|j: int| 0 <= j < i ==> secs - (#[trigger] r.windows@[j]).1.end < 172_800,
            recent(as_map(r.windows@), secs as int) == recent(all, secs as int),
            *r == (Runtime { windows: r.windows, ..*old(r) }),
        decreases r.windows@.len() - i,
    {
        if secs as i128 - (r.windows[i].1.end as i128) < 172_800 {
            i = i + 1;
        } else {
            let ghost before = r.windows@;
            let _gone = r.windows.remove(i);
            proof {
                crate::config::lemma_each_found(before);
                crate::config::lemma_without(before, i as int);
                assert(recent(as_map(r.windows@), secs as int) =~= recent(as_map(before), secs as int));
            }
        }
    }
    proof {
        assert forall|t: Seq<char>| #[trigger] as_map(r.windows@).dom().contains(t) implies secs - as_map(
            r.windows@,
        )[t].end < 172_800 by {
            crate::config::lemma_key_from(r.windows@, t, 0);
        }
        assert(as_map(r.windows@) =~= recent(as_map(r.windows@), secs as int));
    }
}

/// Whether schedules are looked at again: every fifteen seconds. If so it is noted.
pub fn schedules_due(r: &mut Runtime, now: i64) -> (due: bool)
    requires
        old(r).wf(),
    ensures
        final(r).wf(),
        due == (match old(r).last_schedules {
            Some(t) => now - t >= 15_000,
            None => true,
        }),
        *final(r) == (Runtime {
            last_schedules: if due {
                Some(now)
            } else {
                old(r).last_schedules
            },
            ..*old(r)
        }),
{
    let due: bool = match r.last_schedules {
        Some(t) => now as i128 - t as i128 >= 15_000,
        None => true,
    };
    if due {
        r.last_schedules = Some(now);
    }
    due
}

/// A time of a schedule that is over for a screen asks nothing of it any more.
pub proof fn law_done_is_done(w: Win, s: CalSchedule, e: Entry, here: Option<i64>, now: int)
    requires
        w.done,
    ensures
        judged(w, s, e, here, now) == (w, WinAct::Nothing),
{
}

/// The calendar is put up once for a time: after that it is not shown again, and when
/// somebody switches away from it the screen is left alone until the time is over.
pub proof fn law_switching_away_is_respected(w: Win, s: CalSchedule, e: Entry, later: Entry, now: int, then: int)
    requires
        judged(w, s, e, None, now).1 == WinAct::Show,
    ensures
        ({
            let shown = judged(w, s, e, None, now).0;
            let left = judged(shown, s, later, None, then);
            &&& left.1 == WinAct::Nothing
            &&& left.0.done
        }),
{
}

/// Nothing that is watched is covered where that was so chosen, and a Roku TV that
/// is off is never shown anything before it is on.
pub proof fn law_shown_only_where_wanted(w: Win, s: CalSchedule, e: Entry, here: Option<i64>, now: int)
    ensures
        judged(w, s, e, here, now).1 == WinAct::Show ==> !(s.dont_interrupt && is_busy(e)) && (e.info.backend
            == Backend::Roku ==> power_of(e) == Some(true)),
        judged(w, s, e, here, now).1 == WinAct::TurnOn ==> s.power_on,
{
}

// ---------------------------------------------------------------------------
// What schedules and screens can rely on
// ---------------------------------------------------------------------------

/// A schedule that is enabled, names a screen and lasts for a while runs on a day exactly
/// if the box of its own weekday is ticked, whatever the other boxes are. Monday, such as
/// 15 June 2026, has the first box and Sunday the last. It runs from the time on the clock
/// that it names, that minute included, for as many minutes as it says, and not a second
/// longer.
pub proof fn law_a_schedule_runs_on_its_days(s: CalSchedule, day: int, b: int, now: int, l: LocalModel, o: i32)
    requires
        0 <= b < 7,
        (day - day_number(2026, 6, 15)) % 7 == b,
        ({
            let w = (l.wall)(86_400 * day + 3_600 * clock_time(s.start@).0 + 60 * clock_time(s.start@).1);
            w == Offsets::Single(o) || (w matches Offsets::Ambiguous(first, _) && first == o)
        }),
        s.enabled,
        s.devices@.len() > 0,
        s.duration_min > 0,
    ensures
        ({
            let start = 86_400 * day + 3_600 * clock_time(s.start@).0 + 60 * clock_time(s.start@).1 - o;
            &&& running_until(s, day, now, l) is Some == (s.days@[b] && start <= now && now < start + 60
                * s.duration_min)
            &&& running_until(s, day, now, l) is Some ==> running_until(s, day, now, l) == Some(
                start + 60 * s.duration_min,
            )
        }),
{
    assert(day_number(2026, 6, 15) == 739_782);
}

/// A schedule does not run where it is switched off, names no screen or lasts no time, nor
/// on a day on which the clock skips its start.
pub proof fn law_no_run_without_a_start(s: CalSchedule, day: int, now: int, l: LocalModel)
    requires
        !s.enabled || s.devices@.len() == 0 || s.duration_min == 0 || (l.wall)(
            86_400 * day + 3_600 * clock_time(s.start@).0 + 60 * clock_time(s.start@).1,
        ) == Offsets::Gap,
    ensures
        running_until(s, day, now, l) is None,
{
}

/// When each thing is asked of a screen whose time has not been seen to.
///
/// The calendar is put up exactly where the screen can be reached and is on, and nobody
/// watches anything or that does not matter. A Roku TV that is not known to be on is turned
/// on exactly where that is wanted and was not asked for in the last minute. A screen that
/// shows the calendar is turned off exactly when no key was pressed for the minutes that
/// are set, if any are.
pub proof fn law_what_is_asked_of_a_screen(w: Win, s: CalSchedule, e: Entry, here: Option<i64>, now: i64)
    requires
        !w.done,
    ensures
        ({
            let (w1, act) = judged(w, s, e, here, now as int);
            let roku = e.info.backend == Backend::Roku;
            let on = e.info.tv matches Some(t) && t.power == Some(true);
            &&& act == WinAct::Show <==> !w.shown && (if roku {
                on
            } else {
                e.info.online
            }) && (s.dont_interrupt ==> !is_busy(e))
            &&& act == WinAct::TurnOn <==> !w.shown && roku && !on && s.power_on && (w.power_asked matches Some(t) ==> now
                > t + 60_000)
            &&& act == WinAct::TurnOff <==> w.shown && s.idle_off_min > 0 && (here matches Some(t) && now >= t + 60_000
                * s.idle_off_min)
            &&& w1.shown == (w.shown || act == WinAct::Show)
            &&& w1.done == (act == WinAct::TurnOff || (w.shown && here is None))
            &&& act == WinAct::TurnOn ==> w1.power_asked == Some(now) && w1.turned_on
            &&& act != WinAct::TurnOn ==> w1.power_asked == w.power_asked && w1.turned_on == w.turned_on
            &&& w1.end == w.end
        }),
{
}

/// What must not be covered: on a Roku TV anything but our own channel, the home screen, a
/// screensaver and a screen that is off; on a Cast device whatever is played, paused or
/// loaded but for the calendar itself; and everything on any other device.
pub proof fn law_what_is_watched(e: Entry)
    ensures
        e.info.backend == Backend::Cast ==> is_busy(e) == (e.info.media matches Some(m) && !(m.title matches Some(t)
            && t@ == "Calendar"@) && !(m.state is Idle) && !(m.state is Other)),
        e.info.backend == Backend::Roku ==> (e.info.tv matches Some(t) && (t.showing is None ==> is_busy(e) == (
        t.activity is Some && t.activity != Some(Activity::Off) && t.activity != Some(Activity::Home) && t.activity
            != Some(Activity::Screensaver)))) || e.info.tv is None,
        e.info.backend == Backend::Roku ==> (e.info.tv matches Some(t) && t.showing matches Some(n) && contains(
            n@,
            "Volume Sync"@,
        )) ==> !is_busy(e),
        e.info.backend == Backend::Roku && e.info.tv is None ==> !is_busy(e),
        e.info.backend != Backend::Cast && e.info.backend != Backend::Roku ==> is_busy(e),
{
}

/// When a screen counts as having moved on from the calendar: a Cast device that plays
/// something with another title, and a Roku TV that is off or names something other than our
/// channel. One that says nothing is believed; one that is not known is not.
pub proof fn law_what_has_moved_on(devices: Seq<Entry>, id: Seq<char>, d: int)
    requires
        stands_at(devices, id, d),
    ensures
        devices[d].info.backend == Backend::Cast ==> is_elsewhere(devices, id) == (devices[d].info.media matches Some(m)
            && m.title matches Some(t) && t@ != "Calendar"@),
        devices[d].info.backend == Backend::Roku && devices[d].info.tv is None ==> !is_elsewhere(devices, id),
        devices[d].info.backend == Backend::Roku ==> (devices[d].info.tv matches Some(t) ==> is_elsewhere(devices, id)
            == (t.power == Some(false) || (t.showing matches Some(n) && !contains(n@, "Volume Sync"@)))),
{
    lemma_stands_at(devices, id, d, 0);
}

/// A screen is dropped at the fourth look in a row at which it shows something else, and not
/// before. One look at which it shows the calendar starts the count anew.
pub proof fn law_dropped_at_the_fourth_look(
    showing: Map<Seq<char>, Showing>,
    counts: Map<Seq<char>, u8>,
    id: Seq<char>,
    away: bool,
)
    requires
        showing.dom().contains(id),
        counts.dom().contains(id) ==> counts[id] < 4,
    ensures
        ({
            let seen = if counts.dom().contains(id) {
                counts[id] as int
            } else {
                0
            };
            let (s1, c1) = after_look(showing, counts, id, away);
            &&& s1.dom().contains(id) == !(away && seen == 3)
            &&& s1.dom().contains(id) ==> s1 == showing && c1.dom().contains(id) && c1[id] == (if away {
                seen + 1
            } else {
                0
            })
            &&& forall|k: Seq<char>| k != id && showing.dom().contains(k) ==> s1.dom().contains(k) && #[trigger] s1[k]
                == showing[k]
        }),
{
}

/// A screen on which the calendar was put up less than half a minute ago is not looked at.
pub proof fn law_a_new_screen_is_left_alone(
    showing: Map<Seq<char>, Showing>,
    counts: Map<Seq<char>, u8>,
    screens: Seq<(Seq<char>, i64)>,
    devices: Seq<Entry>,
    now: int,
)
    requires
        forall|i: int| 0 <= i < screens.len() ==> now - (#[trigger] screens[i]).1 < 30_000,
    ensures
        after_looks(showing, counts, screens, screens.len() as int, devices, now) == (showing, counts),
{
    lemma_new_screens(showing, counts, screens, screens.len() as int, devices, now);
}

proof fn lemma_new_screens(
    showing: Map<Seq<char>, Showing>,
    counts: Map<Seq<char>, u8>,
    screens: Seq<(Seq<char>, i64)>,
    n: int,
    devices: Seq<Entry>,
    now: int,
)
    requires
        0 <= n <= screens.len(),
        forall|i: int| 0 <= i < screens.len() ==> now - (#[trigger] screens[i]).1 < 30_000,
    ensures
        after_looks(showing, counts, screens, n, devices, now) == (showing, counts),
    decreases n,
{
    if n > 0 {
        lemma_new_screens(showing, counts, screens, n - 1, devices, now);
        assert(now - screens[n - 1].1 < 30_000);
    }
}

/// One screen that shows the calendar and is looked at: it stays or goes by the look.
pub proof fn law_one_screen_is_looked_at(
    showing: Map<Seq<char>, Showing>,
    counts: Map<Seq<char>, u8>,
    id: Seq<char>,
    since: i64,
    devices: Seq<Entry>,
    now: int,
)
    requires
        now - since >= 30_000,
    ensures
        after_looks(showing, counts, seq![(id, since)], 1, devices, now) == after_look(
            showing,
            counts,
            id,
            is_elsewhere(devices, id),
        ),
{
    assert(after_looks(showing, counts, seq![(id, since)], 0, devices, now) == (showing, counts));
}

proof fn lemma_last_bar(a: Seq<char>, b: Seq<char>, n: int)
    requires
        0 <= n <= b.len(),
        !b.contains('|'),
        a.len() > 0,
        a.last() == '|',
    ensures
        crate::roku_player::last_of(a + b, '|', '|', a.len() + n) == a.len() - 1,
    decreases n,
{
    let s = a + b;
    if n > 0 {
        assert(s[a.len() + n - 1] == b[n - 1]);
        assert(b.contains(b[n - 1]));
        lemma_last_bar(a, b, n - 1);
    } else {
        assert(s[a.len() - 1] == a.last());
    }
}

proof fn lemma_first_bar(a: Seq<char>, b: Seq<char>, i: int)
    requires
        0 <= i <= a.len(),
        !a.contains('|'),
        b.len() > 0,
        b[0] == '|',
    ensures
        crate::text::position(a + b, '|', i) == a.len(),
    decreases a.len() - i,
{
    let s = a + b;
    if i < a.len() {
        assert(s[i] == a[i]);
        assert(a.contains(a[i]));
        lemma_first_bar(a, b, i + 1);
    } else {
        assert(s[i] == b[0]);
    }
}

/// From the name under which a time is remembered its screen and its schedule are read
/// back, whatever the day.
pub proof fn law_a_time_names_its_screen(s: CalSchedule, day: int, id: Seq<char>)
    requires
        !id.contains('|'),
        !s.id@.contains('|'),
    ensures
        screen_in(key_of(s, day, id)) == id,
        schedule_in(key_of(s, day, id)) == s.id@,
{
    reveal_strlit("|");
    let head = s.id@ + "|"@ + date_text(day) + "|"@;
    let key = key_of(s, day, id);
    assert(key =~= head + id);
    lemma_last_bar(head, id, id.len() as int);
    assert(key.skip(head.len() as int) =~= id);
    let rest = "|"@ + date_text(day) + "|"@ + id;
    assert(key =~= s.id@ + rest);
    lemma_first_bar(s.id@, rest, 0);
    assert(key.take(s.id@.len() as int) =~= s.id@);
}

/// A time that is over is over for good, and the calendar is taken down exactly where it was
/// put up for that time and still is: a Roku TV is turned off where the schedule says so,
/// and any other screen stops showing it.
pub proof fn law_the_end_of_a_time(
    m: Memory,
    s: CalSchedule,
    day: int,
    id: Seq<char>,
    cfg: CalendarConfig,
    devices: Seq<Entry>,
    d: int,
    k: int,
)
    requires
        !id.contains('|'),
        !s.id@.contains('|'),
        m.windows.dom().contains(key_of(s, day, id)),
        stands_at(devices, id, d),
        0 <= k < cfg.schedules@.len(),
        cfg.schedules@[k] == s,
        forall|j: int| 0 <= j < k ==> (#[trigger] cfg.schedules@[j]).id@ != s.id@,
    ensures
        ({
            let key = key_of(s, day, id);
            let w = m.windows[key];
            let (m1, acts) = after_end(m, key, cfg, devices);
            let still = w.shown && m.showing.dom().contains(id) && (m.showing[id].window matches Some(x) && x@ == key);
            &&& m1.windows[key].done
            &&& acts == (if still {
                seq![
                    if s.off_after && devices[d].info.backend == Backend::Roku {
                        CalActModel::Power(id, false)
                    } else {
                        CalActModel::StopCasting(id)
                    },
                ]
            } else {
                Seq::empty()
            })
            &&& m1.showing.dom().contains(id) == (m.showing.dom().contains(id) && !still)
        }),
{
    law_a_time_names_its_screen(s, day, id);
    lemma_stands_at(devices, id, d, 0);
    lemma_off_after(cfg.schedules@, k, 0);
}

proof fn lemma_off_after(list: Seq<CalSchedule>, k: int, i: int)
    requires
        0 <= i <= k < list.len(),
        forall|j: int| 0 <= j < k ==> (#[trigger] list[j]).id@ != list[k].id@,
    ensures
        off_after_from(list, list[k].id@, i) == list[k].off_after,
    decreases k - i,
{
    if i < k {
        assert(list[i].id@ != list[k].id@);
        lemma_off_after(list, k, i + 1);
    }
}

proof fn lemma_over(windows: Seq<(String, Win)>, n: int, secs: int, i: int)
    requires
        0 <= i < n <= windows.len(),
        !windows[i].1.done,
        windows[i].1.end <= secs,
    ensures
        over_first(windows, n, secs).contains(windows[i].0@),
    decreases n,
{
    let before = over_first(windows, n - 1, secs);
    if i < n - 1 {
        lemma_over(windows, n - 1, secs, i);
        if !windows[n - 1].1.done && secs >= windows[n - 1].1.end {
            crate::text::lemma_push_contains(before, windows[n - 1].0@, windows[i].0@);
        }
    } else {
        crate::text::lemma_push_contains(before, windows[i].0@, windows[i].0@);
    }
}

proof fn lemma_only_over(windows: Seq<(String, Win)>, n: int, secs: int, k: int)
    requires
        0 <= n <= windows.len(),
        0 <= k < over_first(windows, n, secs).len(),
    ensures
        exists|i: int|
            0 <= i < n && (#[trigger] windows[i]).0@ == over_first(windows, n, secs)[k] && !windows[i].1.done
                && windows[i].1.end <= secs,
    decreases n,
{
    if n > 0 {
        let before = over_first(windows, n - 1, secs);
        if k < before.len() {
            lemma_only_over(windows, n - 1, secs, k);
        } else {
            assert(windows[n - 1].0@ == over_first(windows, n, secs)[k]);
        }
    }
}

/// The times that are seen to at an end are exactly those that have reached it and were not
/// seen to before.
pub proof fn law_times_that_are_over(windows: Seq<(String, Win)>, secs: int, i: int, k: int)
    requires
        0 <= i < windows.len(),
        0 <= k < over_first(windows, windows.len() as int, secs).len(),
    ensures
        !windows[i].1.done && windows[i].1.end <= secs ==> over_first(windows, windows.len() as int, secs).contains(
            windows[i].0@,
        ),
        exists|j: int|
            0 <= j < windows.len() && (#[trigger] windows[j]).0@ == over_first(windows, windows.len() as int, secs)[k]
                && !windows[j].1.done && windows[j].1.end <= secs,
{
    if !windows[i].1.done && windows[i].1.end <= secs {
        lemma_over(windows, windows.len() as int, secs, i);
    }
    lemma_only_over(windows, windows.len() as int, secs, k);
}

/// A schedule whose time runs, having begun today or the day before, puts the calendar on a
/// screen that is on and that nobody uses.
pub proof fn law_the_calendar_is_put_up(
    m: Memory,
    x: Scene,
    today: int,
    began: int,
    secs: int,
    l: LocalModel,
    end: int,
    d: int,
)
    requires
        x.cfg.schedules@.len() == 1,
        x.cfg.schedules@[0].devices@.len() == 1,
        began == today || began == today - 1,
        running_until(x.cfg.schedules@[0], began, secs, l) == Some(end),
        running_until(x.cfg.schedules@[0], 2 * today - 1 - began, secs, l) is None,
        stands_at(x.devices, x.cfg.schedules@[0].devices@[0]@, d),
        !m.windows.dom().contains(key_of(x.cfg.schedules@[0], began, x.cfg.schedules@[0].devices@[0]@)),
        x.devices[d].info.online,
        x.devices[d].info.backend == Backend::Roku ==> (x.devices[d].info.tv matches Some(t) && t.power == Some(true)),
        !is_busy(x.devices[d]),
    ensures
        ({
            let id = x.cfg.schedules@[0].devices@[0]@;
            let (m1, acts) = after_schedules(m, x, 1, today, secs, l);
            &&& shows_last(acts).len() == 1
            &&& shows_last(acts)[0] is Show
            &&& shows_last(acts)[0]->Show_0 == key_of(x.cfg.schedules@[0], began, id)
            &&& shows_last(acts)[0]->Show_1 == id
            &&& m1.showing == m.showing
        }),
{
    let s = x.cfg.schedules@[0];
    let id = s.devices@[0]@;
    lemma_stands_at(x.devices, id, d, 0);
    let acts = after_schedules(m, x, 1, today, secs, l).1;
    assert(after_schedules(m, x, 0, today, secs, l) == (m, Seq::<CalActModel>::empty()));
    assert(after_screens(m, x, s, began, end as i64, 0) == (m, Seq::<CalActModel>::empty()));
    let (m2, act) = after_slot(m, s, began, end as i64, id, x.devices, x.now);
    assert(act == WinAct::Show);
    let one = acts_for(x, s, began, id, act);
    assert(after_screens(m, x, s, began, end as i64, 1).1 =~= one);
    assert(acts =~= one);
    assert(acts.drop_last() =~= Seq::<CalActModel>::empty());
    assert(acts_that(acts.drop_last(), false) =~= Seq::<CalActModel>::empty());
    assert(acts_that(acts.drop_last(), true) =~= Seq::<CalActModel>::empty());
    assert(acts.last() is Show);
    assert(acts_that(acts, false) =~= Seq::<CalActModel>::empty());
    assert(acts_that(acts, true) =~= one);
    assert(shows_last(acts) =~= one);
}

/// The start of a schedule is the hour and the minute that stand before and behind its colon,
/// no later than the last of a day and of an hour.
pub proof fn law_times_of_the_clock(h: int, m: int)
    requires
        0 <= h <= u32::MAX,
        0 <= m <= u32::MAX,
    ensures
        clock_time(crate::text::decimal(h) + seq![':'] + crate::text::decimal(m)) == (
            if h <= 23 {
                h
            } else {
                23
            },
            if m <= 59 {
                m
            } else {
                59
            },
        ),
{
    let a = crate::text::decimal(h);
    let b = crate::text::decimal(m);
    crate::text::law_decimal_round_trip(h);
    crate::text::law_decimal_round_trip(m);
    lemma_no_colon(a);
    lemma_no_colon(b);
    crate::text::lemma_split_first(a, ':', b);
    crate::text::lemma_split_first(b, ':', b);
    assert(split(a + seq![':'] + b, ':') =~= seq![a, b]);
    lemma_digits_trim(a);
    lemma_digits_trim(b);
}

proof fn lemma_no_colon(s: Seq<char>)
    requires
        crate::text::all_digits(s),
    ensures
        !s.contains(':'),
{
    if s.contains(':') {
        let i = s.index_of(':');
        assert(crate::text::is_digit(s[i]));
    }
}

proof fn lemma_digits_trim(s: Seq<char>)
    requires
        crate::text::all_digits(s),
        s.len() > 0,
    ensures
        trim(s) == s,
{
    assert(crate::text::is_digit(s[0]));
    assert(crate::text::is_digit(s[s.len() - 1]));
}

/// A time is remembered until two days after its end, as it is.
pub proof fn law_times_are_forgotten_after_two_days(windows: Map<Seq<char>, Win>, secs: int, key: Seq<char>)
    requires
        windows.dom().contains(key),
    ensures
        recent(windows, secs).dom().contains(key) <==> secs < windows[key].end + 2 * 86_400,
        recent(windows, secs).dom().contains(key) ==> recent(windows, secs)[key] == windows[key],
{
}

} // verus!
