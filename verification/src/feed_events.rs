//! All events of a calendar file that show in a window of time.

use vstd::prelude::*;
use crate::dates::in_calendar;
use crate::events::{
    cancelled_in, emit, event_models, event_timing, is_cancelled, near_calendar, option_event, shown_event, time_of,
    timing_of, title_in, title_of, EventModel, EventOut, Window,
};
use crate::ics::{comp_models, components_of, is_calendar, parse_components, prop_from, Comp, CompModel, PropModel};
use crate::ics_time::{copy_time, first_time, time_in_calendar, time_model, IcsTime, IcsTimeModel};
use crate::series::{expand_series, rid_models, series_events, series_start};
use crate::text::{chars_of, str_same, string_of, trim, trimmed};
use crate::zones::{law_clock_has_a_model, lemma_extends_chain, lemma_forget, LocalClock, LocalModel, Zone};

verus! {

/// An event of a file that stands for itself: no occurrence of a series other
/// than the one it says. A cancelled one does not show.
pub open spec fn single_event(props: Seq<PropModel>, feed: int, win: Window, l: LocalModel) -> Option<EventModel> {
    match timing_of(props, l) {
        Some((start, dur)) => if cancelled_in(props) {
            None
        } else {
            let (wall, zone, all_day) = series_start(start);
            shown_event(feed, title_in(props), wall, zone, all_day, dur, win, l)
        },
        None => None,
    }
}

pub fn emit_single(c: &Comp, feed: usize, win: &Window, clock: &mut LocalClock) -> (r: Option<EventOut>)
    requires
        old(clock).wf(),
    ensures
        final(clock).wf(),
        final(clock).extends(old(clock)),
        forall|l: LocalModel| #[trigger]
            final(clock).agrees(l) ==> option_event(r) == single_event(c@.props, feed as int, *win, l),
{
    match event_timing(c, clock) {
        None => None,
        Some((start, dur)) => {
            if is_cancelled(c) {
                return None;
            }
            let ghost mid = *clock;
            let title = title_of(c);
            let r = match &start {
                IcsTime::Date(d) => emit(feed, title.as_str(), 172_800 * *d, &Zone::Floating, true, dur, win, clock),
                IcsTime::Time(t, z) => emit(feed, title.as_str(), *t, z, false, dur, win, clock),
            };
            proof {
                lemma_extends_chain(old(clock), &mid, clock);
                lemma_forget(&mid, clock);
            }
            r
        },
    }
}

/// An event of a file: its position among the components, its id, and the
/// instance of a series that it replaces, if it does.
struct EventRef {
    at: usize,
    uid: String,
    rid: Option<IcsTime>,
}

#[verifier::ext_equal]
pub struct RefModel {
    pub at: int,
    pub uid: Seq<char>,
    pub rid: Option<IcsTimeModel>,
}

impl View for EventRef {
    type V = RefModel;

    closed spec fn view(&self) -> RefModel {
        RefModel { at: self.at as int, uid: self.uid@, rid: time_model(self.rid) }
    }
}

spec fn ref_models(v: Seq<EventRef>) -> Seq<RefModel> {
    v.map_values(|e: EventRef| e@)
}

/// Whether a component is an event of the calendar itself.
pub open spec fn is_event(c: CompModel) -> bool {
    !c.hidden && c.name == "VEVENT"@
}

pub open spec fn uid_in(props: Seq<PropModel>) -> Seq<char> {
    match prop_from(props, "UID"@, 0) {
        Some(p) => trim(p.value),
        None => Seq::empty(),
    }
}

/// The events among the first `n` components.
pub open spec fn events_in(comps: Seq<CompModel>, n: int) -> Seq<RefModel>
    decreases n,
{
    if n <= 0 {
        Seq::empty()
    } else {
        let before = events_in(comps, n - 1);
        let c = comps[n - 1];
        if is_event(c) {
            before.push(RefModel { at: n - 1, uid: uid_in(c.props), rid: time_of(c.props, "RECURRENCE-ID"@) })
        } else {
            before
        }
    }
}

/// The instances that the first `n` events replace in the series with an id.
pub open spec fn moved_in(evs: Seq<RefModel>, uid: Seq<char>, n: int) -> Seq<IcsTimeModel>
    decreases n,
{
    if n <= 0 {
        Seq::empty()
    } else {
        let before = moved_in(evs, uid, n - 1);
        match evs[n - 1].rid {
            Some(rid) => if evs[n - 1].uid == uid {
                before.push(rid)
            } else {
                before
            },
            None => before,
        }
    }
}

/// The shown occurrences of the series among the first `n` events.
pub open spec fn all_series(
    comps: Seq<CompModel>,
    evs: Seq<RefModel>,
    n: int,
    feed: int,
    win: Window,
    l: LocalModel,
) -> Seq<EventModel>
    decreases n,
{
    if n <= 0 {
        Seq::empty()
    } else {
        let before = all_series(comps, evs, n - 1, feed, win, l);
        let e = evs[n - 1];
        match e.rid {
            Some(_) => before,
            None => before + series_events(
                comps[e.at].props,
                moved_in(evs, e.uid, evs.len() as int),
                feed,
                win,
                l,
            ),
        }
    }
}

/// The shown ones of the first `n` events that replace instances of the series
/// with an id.
pub open spec fn moved_events(
    comps: Seq<CompModel>,
    evs: Seq<RefModel>,
    uid: Seq<char>,
    n: int,
    feed: int,
    win: Window,
    l: LocalModel,
) -> Seq<EventModel>
    decreases n,
{
    if n <= 0 {
        Seq::empty()
    } else {
        let before = moved_events(comps, evs, uid, n - 1, feed, win, l);
        let e = evs[n - 1];
        if e.rid is Some && e.uid == uid {
            match single_event(comps[e.at].props, feed, win, l) {
                Some(x) => before.push(x),
                None => before,
            }
        } else {
            before
        }
    }
}

/// Whether the i-th event is the first to replace an instance of its series.
pub open spec fn is_first_moved(evs: Seq<RefModel>, i: int) -> bool {
    evs[i].rid is Some && forall|j: int|
        0 <= j < i ==> !((#[trigger] evs[j]).rid is Some && evs[j].uid == evs[i].uid)
}

/// The shown replacements, series by series, for those series whose first
/// replacement is among the first `n` events.
pub open spec fn all_moved(
    comps: Seq<CompModel>,
    evs: Seq<RefModel>,
    n: int,
    feed: int,
    win: Window,
    l: LocalModel,
) -> Seq<EventModel>
    decreases n,
{
    if n <= 0 {
        Seq::empty()
    } else {
        let before = all_moved(comps, evs, n - 1, feed, win, l);
        if is_first_moved(evs, n - 1) {
            before + moved_events(comps, evs, evs[n - 1].uid, evs.len() as int, feed, win, l)
        } else {
            before
        }
    }
}

/// Everything that a file shows in a window: the occurrences of its series, then
/// the instances that replace others.
pub open spec fn file_events(comps: Seq<CompModel>, feed: int, win: Window, l: LocalModel) -> Seq<EventModel> {
    let evs = events_in(comps, comps.len() as int);
    all_series(comps, evs, evs.len() as int, feed, win, l) + all_moved(comps, evs, evs.len() as int, feed, win, l)
}

/// The window from the start of one day to the start of another.
pub open spec fn day_window(first: int, end: int) -> Window {
    Window { start: (86_400 * first) as i64, end: (86_400 * end) as i64 }
}

spec fn refs_fit(evs: Seq<EventRef>, n: int) -> bool {
    forall|i: int| 0 <= i < evs.len() ==> (#[trigger] evs[i]).at < n && (evs[i].rid matches Some(t)
        ==> time_in_calendar(t@))
}

fn list_events(comps: &Vec<Comp>) -> (r: Vec<EventRef>)
    ensures
        ref_models(r@) == events_in(comp_models(comps@), comps@.len() as int),
        refs_fit(r@, comps@.len() as int),
{
    let ghost cm = comp_models(comps@);
    let mut out: Vec<EventRef> = Vec::new();
    let mut i: usize = 0;
    proof {
        assert(ref_models(out@) =~= Seq::<RefModel>::empty());
    }
    while i < comps.len()
        invariant
            i <= comps.len(),
            cm == comp_models(comps@),
            ref_models(out@) == events_in(cm, i as int),
            refs_fit(out@, comps@.len() as int),
        decreases comps.len() - i,
    {
        let c = &comps[i];
        proof {
            assert(cm[i as int] == c@);
        }
        if !c.hidden && str_same(c.name.as_str(), "VEVENT") {
            let uid = match c.prop("UID") {
                Some(p) => {
                    let v = chars_of(p.value.as_str());
                    let t = trimmed(v.as_slice());
                    string_of(t.as_slice())
                },
                None => String::new(),
            };
            let rid = match c.prop("RECURRENCE-ID") {
                Some(p) => first_time(p),
                None => None,
            };
            let ghost before = ref_models(out@);
            let e = EventRef { at: i, uid, rid };
            let ghost em = e@;
            out.push(e);
            proof {
                assert(em.uid =~= uid_in(c@.props));
                assert(ref_models(out@) =~= before.push(em));
            }
        }
        i = i + 1;
    }
    out
}

fn moved_instances(evs: &Vec<EventRef>, uid: &str, Ghost(n): Ghost<int>) -> (r: Vec<IcsTime>)
    requires
        refs_fit(evs@, n),
    ensures
        rid_models(r@) == moved_in(ref_models(evs@), uid@, evs@.len() as int),
        forall|i: int| 0 <= i < r@.len() ==> time_in_calendar(#[trigger] r@[i]@),
{
    let ghost em = ref_models(evs@);
    let mut out: Vec<IcsTime> = Vec::new();
    let mut i: usize = 0;
    proof {
        assert(rid_models(out@) =~= Seq::<IcsTimeModel>::empty());
    }
    while i < evs.len()
        invariant
            i <= evs.len(),
            em == ref_models(evs@),
            refs_fit(evs@, n),
            rid_models(out@) == moved_in(em, uid@, i as int),
            forall|j: int| 0 <= j < out@.len() ==> time_in_calendar(#[trigger] out@[j]@),
        decreases evs.len() - i,
    {
        proof {
            assert(em[i as int] == evs@[i as int]@);
        }
        match &evs[i].rid {
            Some(rid) => {
                if str_same(evs[i].uid.as_str(), uid) {
                    let ghost before = rid_models(out@);
                    let t = copy_time(rid);
                    let ghost tm = t@;
                    out.push(t);
                    proof {
                        assert(rid_models(out@) =~= before.push(tm));
                    }
                }
            },
            None => {},
        }
        i = i + 1;
    }
    out
}

fn append_events(out: &mut Vec<EventOut>, more: Vec<EventOut>)
    ensures
        event_models(final(out)@) == event_models(old(out)@) + event_models(more@),
{
    let mut m = more;
    out.append(&mut m);
    proof {
        assert(event_models(out@) =~= event_models(old(out)@) + event_models(more@));
    }
}

fn emit_series(comps: &Vec<Comp>, evs: &Vec<EventRef>, feed: usize, win: &Window, clock: &mut LocalClock) -> (out: Vec<
    EventOut,
>)
    requires
        old(clock).wf(),
        refs_fit(evs@, comps@.len() as int),
        near_calendar(2 * (win.end + 172_800)),
    ensures
        final(clock).wf(),
        final(clock).extends(old(clock)),
        forall|l: LocalModel| #[trigger]
            final(clock).agrees(l) ==> event_models(out@) == all_series(
                comp_models(comps@),
                ref_models(evs@),
                evs@.len() as int,
                feed as int,
                *win,
                l,
            ),
{
    let ghost cm = comp_models(comps@);
    let ghost em = ref_models(evs@);
    let mut out: Vec<EventOut> = Vec::new();
    let mut i: usize = 0;
    proof {
        assert(event_models(out@) =~= Seq::<EventModel>::empty());
    }
    while i < evs.len()
        invariant
            i <= evs.len(),
            cm == comp_models(comps@),
            em == ref_models(evs@),
            clock.wf(),
            clock.extends(old(clock)),
            refs_fit(evs@, comps@.len() as int),
            near_calendar(2 * (win.end + 172_800)),
            forall|l: LocalModel| #[trigger]
                clock.agrees(l) ==> event_models(out@) == all_series(cm, em, i as int, feed as int, *win, l),
        decreases evs.len() - i,
    {
        let e = &evs[i];
        proof {
            assert(em[i as int] == e@);
            assert(cm[e.at as int] == comps@[e.at as int]@);
        }
        if e.rid.is_none() {
            let rids = moved_instances(evs, e.uid.as_str(), Ghost(comps@.len() as int));
            let ghost mid = *clock;
            let ghost before = event_models(out@);
            let more = expand_series(&comps[e.at], &rids, feed, win, clock);
            proof {
                lemma_extends_chain(old(clock), &mid, clock);
                lemma_forget(&mid, clock);
                assert(em.len() == evs@.len());
            }
            append_events(&mut out, more);
            proof {
                assert forall|l: LocalModel| #[trigger] clock.agrees(l) implies event_models(out@) == all_series(
                    cm,
                    em,
                    i + 1,
                    feed as int,
                    *win,
                    l,
                ) by {
                    assert(mid.agrees(l));
                    assert(before == all_series(cm, em, i as int, feed as int, *win, l));
                }
            }
        }
        i = i + 1;
    }
    out
}

fn emit_moved_of(
    comps: &Vec<Comp>,
    evs: &Vec<EventRef>,
    uid: &str,
    feed: usize,
    win: &Window,
    clock: &mut LocalClock,
) -> (out: Vec<EventOut>)
    requires
        old(clock).wf(),
        refs_fit(evs@, comps@.len() as int),
    ensures
        final(clock).wf(),
        final(clock).extends(old(clock)),
        forall|l: LocalModel| #[trigger]
            final(clock).agrees(l) ==> event_models(out@) == moved_events(
                comp_models(comps@),
                ref_models(evs@),
                uid@,
                evs@.len() as int,
                feed as int,
                *win,
                l,
            ),
{
    let ghost cm = comp_models(comps@);
    let ghost em = ref_models(evs@);
    let mut out: Vec<EventOut> = Vec::new();
    let mut i: usize = 0;
    proof {
        assert(event_models(out@) =~= Seq::<EventModel>::empty());
    }
    while i < evs.len()
        invariant
            i <= evs.len(),
            cm == comp_models(comps@),
            em == ref_models(evs@),
            clock.wf(),
            clock.extends(old(clock)),
            refs_fit(evs@, comps@.len() as int),
            forall|l: LocalModel| #[trigger]
                clock.agrees(l) ==> event_models(out@) == moved_events(
                    cm,
                    em,
                    uid@,
                    i as int,
                    feed as int,
                    *win,
                    l,
                ),
        decreases evs.len() - i,
    {
        let e = &evs[i];
        proof {
            assert(em[i as int] == e@);
            assert(cm[e.at as int] == comps@[e.at as int]@);
        }
        if e.rid.is_some() && str_same(e.uid.as_str(), uid) {
            let ghost mid = *clock;
            let ghost before = event_models(out@);
            let x = emit_single(&comps[e.at], feed, win, clock);
            proof {
                lemma_extends_chain(old(clock), &mid, clock);
                lemma_forget(&mid, clock);
            }
            match x {
                Some(ev) => {
                    let ghost xm = ev@;
                    out.push(ev);
                    proof {
                        assert(event_models(out@) =~= before.push(xm));
                    }
                },
                None => {},
            }
        }
        i = i + 1;
    }
    out
}

fn first_of_series(evs: &Vec<EventRef>, i: usize) -> (r: bool)
    requires
        i < evs@.len(),
    ensures
        r == is_first_moved(ref_models(evs@), i as int),
{
    let ghost em = ref_models(evs@);
    proof {
        assert(em[i as int] == evs@[i as int]@);
    }
    if evs[i].rid.is_none() {
        return false;
    }
    let mut j: usize = 0;
    while j < i
        invariant
            j <= i < evs@.len(),
            em == ref_models(evs@),
            em[i as int] == evs@[i as int]@,
            forall|k: int| 0 <= k < j ==> !((#[trigger] em[k]).rid is Some && em[k].uid == em[i as int].uid),
        decreases i - j,
    {
        proof {
            assert(em[j as int] == evs@[j as int]@);
        }
        if evs[j].rid.is_some() && str_same(evs[j].uid.as_str(), evs[i].uid.as_str()) {
            return false;
        }
        j = j + 1;
    }
    true
}

fn emit_moved(comps: &Vec<Comp>, evs: &Vec<EventRef>, feed: usize, win: &Window, clock: &mut LocalClock) -> (out: Vec<
    EventOut,
>)
    requires
        old(clock).wf(),
        refs_fit(evs@, comps@.len() as int),
    ensures
        final(clock).wf(),
        final(clock).extends(old(clock)),
        forall|l: LocalModel| #[trigger]
            final(clock).agrees(l) ==> event_models(out@) == all_moved(
                comp_models(comps@),
                ref_models(evs@),
                evs@.len() as int,
                feed as int,
                *win,
                l,
            ),
{
    let ghost cm = comp_models(comps@);
    let ghost em = ref_models(evs@);
    let mut out: Vec<EventOut> = Vec::new();
    let mut i: usize = 0;
    proof {
        assert(event_models(out@) =~= Seq::<EventModel>::empty());
    }
    while i < evs.len()
        invariant
            i <= evs.len(),
            cm == comp_models(comps@),
            em == ref_models(evs@),
            clock.wf(),
            clock.extends(old(clock)),
            refs_fit(evs@, comps@.len() as int),
            forall|l: LocalModel| #[trigger]
                clock.agrees(l) ==> event_models(out@) == all_moved(cm, em, i as int, feed as int, *win, l),
        decreases evs.len() - i,
    {
        if first_of_series(evs, i) {
            let ghost mid = *clock;
            let ghost before = event_models(out@);
            proof {
                assert(em[i as int] == evs@[i as int]@);
            }
            let more = emit_moved_of(comps, evs, evs[i].uid.as_str(), feed, win, clock);
            proof {
                lemma_extends_chain(old(clock), &mid, clock);
                lemma_forget(&mid, clock);
                assert(em.len() == evs@.len());
            }
            append_events(&mut out, more);
            proof {
                assert forall|l: LocalModel| #[trigger] clock.agrees(l) implies event_models(out@) == all_moved(
                    cm,
                    em,
                    i + 1,
                    feed as int,
                    *win,
                    l,
                ) by {
                    assert(mid.agrees(l));
                    assert(before == all_moved(cm, em, i as int, feed as int, *win, l));
                }
            }
        }
        i = i + 1;
    }
    out
}

/// Reads a calendar file and returns what it shows from the start of one day to
/// the start of another, asking the machine's zone through a clock. A text that is
/// no calendar is refused.
pub fn events_with_clock(
    text: &str,
    feed: usize,
    window_start: i64,
    window_end: i64,
    clock: &mut LocalClock,
) -> (r: Result<Vec<EventOut>, String>)
    requires
        old(clock).wf(),
        in_calendar(window_start as int),
        in_calendar(window_end as int),
    ensures
        final(clock).wf(),
        final(clock).extends(old(clock)),
        match r {
            Ok(events) => is_calendar(components_of(text@)) && forall|l: LocalModel| #[trigger]
                final(clock).agrees(l) ==> event_models(events@) == file_events(
                    components_of(text@),
                    feed as int,
                    day_window(window_start as int, window_end as int),
                    l,
                ),
            Err(e) => !is_calendar(components_of(text@)) && e@ == "not an ICS file"@,
        },
{
    let chars = chars_of(text);
    let comps = match parse_components(chars.as_slice()) {
        Ok(c) => c,
        Err(e) => {
            return Err(e);
        },
    };
    let win = Window { start: 86_400 * window_start, end: 86_400 * window_end };
    let evs = list_events(&comps);
    let mut out = emit_series(&comps, &evs, feed, &win, clock);
    let ghost mid = *clock;
    let ghost first = event_models(out@);
    let more = emit_moved(&comps, &evs, feed, &win, clock);
    proof {
        lemma_extends_chain(old(clock), &mid, clock);
        lemma_forget(&mid, clock);
        assert(ref_models(evs@).len() == evs@.len());
        assert(comp_models(comps@).len() == comps@.len());
    }
    append_events(&mut out, more);
    Ok(out)
}

/// Reads a calendar file and returns what it shows from the start of one day to
/// the start of another, in the machine's zone as it is found.
pub fn events_from_ics(text: &str, feed: usize, window_start: i64, window_end: i64) -> (r: Result<
    Vec<EventOut>,
    String,
>)
    requires
        in_calendar(window_start as int),
        in_calendar(window_end as int),
    ensures
        match r {
            Ok(events) => is_calendar(components_of(text@)) && exists|l: LocalModel|
                event_models(events@) == #[trigger] file_events(
                    components_of(text@),
                    feed as int,
                    day_window(window_start as int, window_end as int),
                    l,
                ),
            Err(e) => !is_calendar(components_of(text@)) && e@ == "not an ICS file"@,
        },
{
    let mut clock = LocalClock::new();
    let r = events_with_clock(text, feed, window_start, window_end, &mut clock);
    proof {
        law_clock_has_a_model(&clock);
        let l = choose|l: LocalModel| clock.agrees(l);
        assert(clock.agrees(l));
    }
    r
}

// ---------------------------------------------------------------------------
// What a file shows
// ---------------------------------------------------------------------------

proof fn lemma_events_in(comps: Seq<CompModel>, n: int, i: int)
    requires
        0 <= n <= comps.len(),
        0 <= i < n,
        is_event(comps[i]),
    ensures
        exists|k: int|
            0 <= k < events_in(comps, n).len() && #[trigger] events_in(comps, n)[k] == (RefModel {
                at: i,
                uid: uid_in(comps[i].props),
                rid: time_of(comps[i].props, "RECURRENCE-ID"@),
            }),
    decreases n,
{
    let before = events_in(comps, n - 1);
    let all = events_in(comps, n);
    let want = RefModel { at: i, uid: uid_in(comps[i].props), rid: time_of(comps[i].props, "RECURRENCE-ID"@) };
    if i < n - 1 {
        lemma_events_in(comps, n - 1, i);
        let k = choose|k: int| 0 <= k < before.len() && #[trigger] before[k] == want;
        assert(all[k] == want);
    } else {
        assert(all[before.len() as int] == want);
    }
}

proof fn lemma_all_series(
    comps: Seq<CompModel>,
    evs: Seq<RefModel>,
    n: int,
    feed: int,
    win: Window,
    l: LocalModel,
    k: int,
    e: EventModel,
)
    requires
        0 <= k < n <= evs.len(),
        evs[k].rid is None,
        series_events(comps[evs[k].at].props, moved_in(evs, evs[k].uid, evs.len() as int), feed, win, l).contains(e),
    ensures
        all_series(comps, evs, n, feed, win, l).contains(e),
    decreases n,
{
    let before = all_series(comps, evs, n - 1, feed, win, l);
    let all = all_series(comps, evs, n, feed, win, l);
    if k < n - 1 {
        lemma_all_series(comps, evs, n - 1, feed, win, l, k, e);
        let i = before.index_of(e);
        assert(all[i] == e);
    } else {
        let own = series_events(comps[evs[k].at].props, moved_in(evs, evs[k].uid, evs.len() as int), feed, win, l);
        let i = own.index_of(e);
        assert(all[before.len() + i] == e);
    }
}

/// Each event of a file that is not a change of another shows its whole series, without what
/// the file moves of it.
pub proof fn law_every_series_is_shown(comps: Seq<CompModel>, feed: int, win: Window, l: LocalModel, i: int, e: EventModel)
    requires
        0 <= i < comps.len(),
        !comps[i].hidden,
        comps[i].name == "VEVENT"@,
        time_of(comps[i].props, "RECURRENCE-ID"@) is None,
        series_events(
            comps[i].props,
            moved_in(
                events_in(comps, comps.len() as int),
                uid_in(comps[i].props),
                events_in(comps, comps.len() as int).len() as int,
            ),
            feed,
            win,
            l,
        ).contains(e),
    ensures
        file_events(comps, feed, win, l).contains(e),
{
    let evs = events_in(comps, comps.len() as int);
    lemma_events_in(comps, comps.len() as int, i);
    let k = choose|k: int|
        0 <= k < evs.len() && #[trigger] evs[k] == (RefModel {
            at: i,
            uid: uid_in(comps[i].props),
            rid: time_of(comps[i].props, "RECURRENCE-ID"@),
        });
    lemma_all_series(comps, evs, evs.len() as int, feed, win, l, k, e);
    let own = all_series(comps, evs, evs.len() as int, feed, win, l);
    let at = own.index_of(e);
    assert(file_events(comps, feed, win, l)[at] == e);
}

proof fn lemma_moved_events(
    comps: Seq<CompModel>,
    evs: Seq<RefModel>,
    uid: Seq<char>,
    n: int,
    feed: int,
    win: Window,
    l: LocalModel,
    k: int,
    e: EventModel,
)
    requires
        0 <= k < n <= evs.len(),
        evs[k].rid is Some,
        evs[k].uid == uid,
        single_event(comps[evs[k].at].props, feed, win, l) == Some(e),
    ensures
        moved_events(comps, evs, uid, n, feed, win, l).contains(e),
    decreases n,
{
    let before = moved_events(comps, evs, uid, n - 1, feed, win, l);
    if k < n - 1 {
        lemma_moved_events(comps, evs, uid, n - 1, feed, win, l, k, e);
        match single_event(comps[evs[n - 1].at].props, feed, win, l) {
            Some(x) => {
                crate::text::lemma_push_contains(before, x, e);
            },
            None => {},
        }
    } else {
        crate::text::lemma_push_contains(before, e, e);
    }
}

proof fn lemma_first_moved(evs: Seq<RefModel>, k: int) -> (f: int)
    requires
        0 <= k < evs.len(),
        evs[k].rid is Some,
    ensures
        0 <= f <= k,
        is_first_moved(evs, f),
        evs[f].uid == evs[k].uid,
    decreases k,
{
    if is_first_moved(evs, k) {
        k
    } else {
        let j = choose|j: int| 0 <= j < k && (#[trigger] evs[j]).rid is Some && evs[j].uid == evs[k].uid;
        lemma_first_moved(evs, j)
    }
}

proof fn lemma_all_moved(
    comps: Seq<CompModel>,
    evs: Seq<RefModel>,
    n: int,
    feed: int,
    win: Window,
    l: LocalModel,
    f: int,
    e: EventModel,
)
    requires
        0 <= f < n <= evs.len(),
        is_first_moved(evs, f),
        moved_events(comps, evs, evs[f].uid, evs.len() as int, feed, win, l).contains(e),
    ensures
        all_moved(comps, evs, n, feed, win, l).contains(e),
    decreases n,
{
    let before = all_moved(comps, evs, n - 1, feed, win, l);
    let all = all_moved(comps, evs, n, feed, win, l);
    if f < n - 1 {
        lemma_all_moved(comps, evs, n - 1, feed, win, l, f, e);
        let i = before.index_of(e);
        assert(all[i] == e);
    } else {
        let own = moved_events(comps, evs, evs[f].uid, evs.len() as int, feed, win, l);
        let i = own.index_of(e);
        assert(all[before.len() + i] == e);
    }
}

/// Each change of a single occurrence is shown where it was moved to.
pub proof fn law_every_change_is_shown(comps: Seq<CompModel>, feed: int, win: Window, l: LocalModel, i: int, e: EventModel)
    requires
        0 <= i < comps.len(),
        !comps[i].hidden,
        comps[i].name == "VEVENT"@,
        time_of(comps[i].props, "RECURRENCE-ID"@) is Some,
        single_event(comps[i].props, feed, win, l) == Some(e),
    ensures
        file_events(comps, feed, win, l).contains(e),
{
    let evs = events_in(comps, comps.len() as int);
    let n = evs.len() as int;
    lemma_events_in(comps, comps.len() as int, i);
    let k = choose|k: int|
        0 <= k < evs.len() && #[trigger] evs[k] == (RefModel {
            at: i,
            uid: uid_in(comps[i].props),
            rid: time_of(comps[i].props, "RECURRENCE-ID"@),
        });
    let f = lemma_first_moved(evs, k);
    lemma_moved_events(comps, evs, evs[f].uid, n, feed, win, l, k, e);
    lemma_all_moved(comps, evs, n, feed, win, l, f, e);
    let first = all_series(comps, evs, n, feed, win, l);
    let own = all_moved(comps, evs, n, feed, win, l);
    let at = own.index_of(e);
    assert(file_events(comps, feed, win, l)[first.len() + at] == e);
}

proof fn lemma_moved_in(evs: Seq<RefModel>, uid: Seq<char>, n: int, k: int)
    requires
        0 <= k < n <= evs.len(),
        evs[k].uid == uid,
        evs[k].rid is Some,
    ensures
        moved_in(evs, uid, n).contains(evs[k].rid->0),
    decreases n,
{
    let before = moved_in(evs, uid, n - 1);
    if k < n - 1 {
        lemma_moved_in(evs, uid, n - 1, k);
        if evs[n - 1].rid is Some && evs[n - 1].uid == uid {
            crate::text::lemma_push_contains(before, evs[n - 1].rid->0, evs[k].rid->0);
        }
    } else {
        crate::text::lemma_push_contains(before, evs[k].rid->0, evs[k].rid->0);
    }
}

/// Whatever a change names is among what is left out of the series of the same id.
pub proof fn law_changes_belong_to_their_series(comps: Seq<CompModel>, i: int)
    requires
        0 <= i < comps.len(),
        is_event(comps[i]),
        time_of(comps[i].props, "RECURRENCE-ID"@) is Some,
    ensures
        ({
            let evs = events_in(comps, comps.len() as int);
            moved_in(evs, uid_in(comps[i].props), evs.len() as int).contains(
                time_of(comps[i].props, "RECURRENCE-ID"@)->0,
            )
        }),
{
    let evs = events_in(comps, comps.len() as int);
    lemma_events_in(comps, comps.len() as int, i);
    let k = choose|k: int|
        0 <= k < evs.len() && #[trigger] evs[k] == (RefModel {
            at: i,
            uid: uid_in(comps[i].props),
            rid: time_of(comps[i].props, "RECURRENCE-ID"@),
        });
    lemma_moved_in(evs, uid_in(comps[i].props), evs.len() as int, k);
}

/// The days that are shown begin with the first and end before the last.
pub proof fn law_the_days_shown(first: int, end: int, t: int)
    requires
        in_calendar(first),
        in_calendar(end),
    ensures
        day_window(first, end).start <= t < day_window(first, end).end <==> first <= t / 86_400 < end,
{
}

proof fn lemma_refs(comps: Seq<CompModel>, n: int, k: int)
    requires
        0 <= n <= comps.len(),
        0 <= k < events_in(comps, n).len(),
    ensures
        ({
            let e = events_in(comps, n)[k];
            &&& 0 <= e.at < n
            &&& is_event(comps[e.at])
            &&& e.uid == uid_in(comps[e.at].props)
            &&& e.rid == time_of(comps[e.at].props, "RECURRENCE-ID"@)
        }),
    decreases n,
{
    if n > 0 {
        let before = events_in(comps, n - 1);
        if k < before.len() {
            lemma_refs(comps, n - 1, k);
        }
    }
}

proof fn lemma_moved_only(evs: Seq<RefModel>, uid: Seq<char>, n: int, x: IcsTimeModel)
    requires
        0 <= n <= evs.len(),
        moved_in(evs, uid, n).contains(x),
    ensures
        exists|k: int| 0 <= k < n && (#[trigger] evs[k]).uid == uid && evs[k].rid == Some(x),
    decreases n,
{
    if n > 0 {
        let before = moved_in(evs, uid, n - 1);
        let all = moved_in(evs, uid, n);
        let at = all.index_of(x);
        if at < before.len() {
            assert(before[at] == x);
            lemma_moved_only(evs, uid, n - 1, x);
            let k = choose|k: int| 0 <= k < n - 1 && (#[trigger] evs[k]).uid == uid && evs[k].rid == Some(x);
            assert(evs[k].uid == uid);
        } else {
            assert(evs[n - 1].uid == uid);
        }
    }
}

/// Nothing is left out of a series but what a change of the same id names.
pub proof fn law_only_its_own_changes_count(comps: Seq<CompModel>, uid: Seq<char>, x: IcsTimeModel)
    requires
        moved_in(
            events_in(comps, comps.len() as int),
            uid,
            events_in(comps, comps.len() as int).len() as int,
        ).contains(x),
    ensures
        exists|i: int|
            0 <= i < comps.len() && is_event(#[trigger] comps[i]) && uid_in(comps[i].props) == uid && time_of(
                comps[i].props,
                "RECURRENCE-ID"@,
            ) == Some(x),
{
    let evs = events_in(comps, comps.len() as int);
    lemma_moved_only(evs, uid, evs.len() as int, x);
    let k = choose|k: int| 0 <= k < evs.len() && (#[trigger] evs[k]).uid == uid && evs[k].rid == Some(x);
    lemma_refs(comps, comps.len() as int, k);
    assert(is_event(comps[evs[k].at]));
}

} // verus!
