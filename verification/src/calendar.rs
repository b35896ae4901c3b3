//! The calendar on TVs: how each screen shows it, which screens show it, and which
//! pictures they need.

use vstd::prelude::*;
use vstd::string::*;
use crate::cal_render::{
    has_look, is_served, is_view, law_pictures_are_served, looks, name_of_picture, variant_name, RenderState,
    RenderStatus, Variant, VariantModel,
};
use crate::config::{
    as_map, find_key, key_from, keys_differ, put_value, remove_key, value_of, CalSchedule, CalendarConfig,
    DisplayDefaults, DisplaySettings,
};
use crate::home::{device_at, find_device, Entry};
use crate::roku_player::{is_simple_uuid, q, quoted, random_id};
use crate::text::{
    chars_of, contains, contains_text, copy_texts, decimal, decimal_text, has_text, lemma_push_contains, lower, opt,
    same_texts, str_same, string_of, texts, to_lower,
};
use crate::types::{item_model, Backend, CastItem, ItemModel};

verus! {

// ---------------------------------------------------------------------------
// How a screen shows the calendar
// ---------------------------------------------------------------------------

/// How a screen shows the calendar.
#[derive(Debug)]
pub struct ShowOpts {
    pub variant: Variant,
    pub views: Vec<String>,
    /// Seconds between views (0: stay on the first).
    pub rotate: u32,
}

pub struct OptsModel {
    pub variant: VariantModel,
    pub views: Seq<Seq<char>>,
    pub rotate: u32,
}

impl ShowOpts {
    pub open spec fn model(self) -> OptsModel {
        OptsModel { variant: self.variant.model(), views: texts(self.views@), rotate: self.rotate }
    }

    pub fn copy(&self) -> (r: ShowOpts)
        ensures
            r.model() == self.model(),
    {
        ShowOpts { variant: self.variant.copy(), views: copy_texts(&self.views), rotate: self.rotate }
    }
}

pub struct DisplayModel {
    pub theme: Seq<char>,
    pub text_pct: u32,
    pub photos: bool,
    pub views: Seq<Seq<char>>,
    pub rotate_secs: u32,
}

pub open spec fn display_model(d: DisplaySettings) -> DisplayModel {
    DisplayModel {
        theme: d.theme@,
        text_pct: d.text_pct,
        photos: d.photos,
        views: texts(d.views@),
        rotate_secs: d.rotate_secs,
    }
}

fn copy_display(d: &DisplaySettings) -> (r: DisplaySettings)
    ensures
        display_model(r) == display_model(*d),
{
    DisplaySettings {
        theme: d.theme.clone(),
        text_pct: d.text_pct,
        photos: d.photos,
        views: copy_texts(&d.views),
        rotate_secs: d.rotate_secs,
    }
}

/// How a screen shows the calendar: as was chosen for it, else as screens of its
/// size do.
pub open spec fn display_of(c: CalendarConfig, id: Seq<char>, small: bool, defaults: DisplayDefaults) -> DisplayModel {
    match value_of(c.displays@, id) {
        Some(d) => display_model(d),
        None => if small {
            display_model(defaults.small)
        } else {
            display_model(defaults.large)
        },
    }
}

pub fn display_settings(cfg: &CalendarConfig, id: &str, small: bool, defaults: &DisplayDefaults) -> (r: DisplaySettings)
    ensures
        display_model(r) == display_of(*cfg, id@, small, *defaults),
{
    match find_key(&cfg.displays, id) {
        Some(i) => copy_display(&cfg.displays[i].1),
        None => {
            if small {
                copy_display(&defaults.small)
            } else {
                copy_display(&defaults.large)
            }
        },
    }
}

/// The theme that is wanted, or that of all screens.
pub open spec fn theme_of(c: CalendarConfig, wanted: Seq<char>) -> Seq<char> {
    if wanted == "light"@ || wanted == "dark"@ {
        wanted
    } else {
        c.theme@
    }
}

fn pick_theme(cfg: &CalendarConfig, wanted: &str) -> (r: String)
    ensures
        r@ == theme_of(*cfg, wanted@),
{
    if str_same(wanted, "light") || str_same(wanted, "dark") {
        wanted.to_string()
    } else {
        cfg.theme.clone()
    }
}

/// The size of the text within what can be read.
pub open spec fn text_size(pct: u32) -> u32 {
    if pct < 50 {
        50
    } else if pct > 400 {
        400
    } else {
        pct
    }
}

fn clamp_size(pct: u32) -> (r: u32)
    ensures
        r == text_size(pct),
{
    if pct < 50 {
        50
    } else if pct > 400 {
        400
    } else {
        pct
    }
}

pub open spec fn with_view(list: Seq<Seq<char>>, v: Seq<Seq<char>>, view: Seq<char>) -> Seq<Seq<char>> {
    if v.contains(view) {
        list.push(view)
    } else {
        list
    }
}

/// The known views among some, in their usual order, and the month if there is none.
pub open spec fn clean(v: Seq<Seq<char>>) -> Seq<Seq<char>> {
    let out = with_view(with_view(with_view(Seq::empty(), v, "month"@), v, "week"@), v, "day"@);
    if out.len() == 0 {
        seq!["month"@]
    } else {
        out
    }
}

fn add_view(out: &mut Vec<String>, v: &Vec<String>, view: &str)
    ensures
        texts(final(out)@) == with_view(texts(old(out)@), texts(v@), view@),
{
    if has_text(v, view) {
        out.push(view.to_string());
        proof {
            assert(texts(out@) =~= texts(old(out)@).push(view@));
        }
    }
}

/// The known views among some, in their usual order.
pub fn clean_views(v: &Vec<String>) -> (r: Vec<String>)
    ensures
        texts(r@) == clean(texts(v@)),
{
    let mut out: Vec<String> = Vec::new();
    proof {
        assert(texts(out@) =~= Seq::<Seq<char>>::empty());
    }
    add_view(&mut out, v, "month");
    add_view(&mut out, v, "week");
    add_view(&mut out, v, "day");
    proof {
        assert(texts(out@).len() == out@.len());
    }
    if out.len() == 0 {
        out.push("month".to_string());
        proof {
            assert(texts(out@) =~= seq!["month"@]);
        }
    }
    out
}

/// How a screen shows the calendar when it is shown by hand.
pub open spec fn opts_by_hand(c: CalendarConfig, id: Seq<char>, small: bool, defaults: DisplayDefaults) -> OptsModel {
    let d = display_of(c, id, small, defaults);
    OptsModel {
        variant: VariantModel { theme: theme_of(c, d.theme), text_pct: text_size(d.text_pct), photos: d.photos },
        views: clean(d.views),
        rotate: d.rotate_secs,
    }
}

/// How a screen shows the calendar when it is shown by hand, or as a screensaver.
pub fn manual_opts(cfg: &CalendarConfig, id: &str, small: bool, defaults: &DisplayDefaults) -> (r: ShowOpts)
    ensures
        r.model() == opts_by_hand(*cfg, id@, small, *defaults),
{
    let d = display_settings(cfg, id, small, defaults);
    ShowOpts {
        variant: Variant {
            theme: pick_theme(cfg, d.theme.as_str()),
            text_pct: clamp_size(d.text_pct),
            photos: d.photos,
        },
        views: clean_views(&d.views),
        rotate: d.rotate_secs,
    }
}

/// How a screen shows the calendar at a time of a schedule: with the schedule's
/// theme and views, and the screen's own size of text and photos.
pub open spec fn opts_for_schedule(
    c: CalendarConfig,
    s: CalSchedule,
    id: Seq<char>,
    small: bool,
    defaults: DisplayDefaults,
) -> OptsModel {
    let d = display_of(c, id, small, defaults);
    OptsModel {
        variant: VariantModel {
            theme: if s.theme@ == "light"@ || s.theme@ == "dark"@ {
                s.theme@
            } else {
                theme_of(c, d.theme)
            },
            text_pct: text_size(d.text_pct),
            photos: d.photos,
        },
        views: clean(texts(s.views@)),
        rotate: s.rotate_secs,
    }
}

pub fn schedule_opts(cfg: &CalendarConfig, s: &CalSchedule, id: &str, small: bool, defaults: &DisplayDefaults) -> (r:
    ShowOpts)
    ensures
        r.model() == opts_for_schedule(*cfg, *s, id@, small, *defaults),
{
    let d = display_settings(cfg, id, small, defaults);
    let theme = if str_same(s.theme.as_str(), "light") || str_same(s.theme.as_str(), "dark") {
        s.theme.clone()
    } else {
        pick_theme(cfg, d.theme.as_str())
    };
    ShowOpts {
        variant: Variant { theme, text_pct: clamp_size(d.text_pct), photos: d.photos },
        views: clean_views(&s.views),
        rotate: s.rotate_secs,
    }
}

/// The place of a view in the usual order.
pub open spec fn view_rank(v: Seq<char>) -> int {
    if v == "month"@ {
        0
    } else if v == "week"@ {
        1
    } else {
        2
    }
}

/// Whether a way to show the calendar can be shown: it has a view, its views stand in
/// their usual order, each once, and each has pictures and videos that may be fetched.
pub open spec fn can_be_shown(o: OptsModel) -> bool {
    &&& 1 <= o.views.len() <= 3
    &&& 50 <= o.variant.text_pct <= 400
    &&& forall|i: int| 0 <= i < o.views.len() ==> is_view(#[trigger] o.views[i])
    &&& forall|i: int, j: int|
        0 <= i < j < o.views.len() ==> view_rank(#[trigger] o.views[i]) < view_rank(#[trigger] o.views[j])
    &&& forall|i: int|
        0 <= i < o.views.len() ==> is_served(name_of_picture(variant_name(o.variant), #[trigger] o.views[i], "jpg"@))
            && is_served(name_of_picture(variant_name(o.variant), o.views[i], "mp4"@))
}

proof fn lemma_can_be_shown(o: OptsModel, v: Seq<Seq<char>>, pct: u32)
    requires
        o.views == clean(v),
        o.variant.text_pct == text_size(pct),
        o.variant.theme == "dark"@ || o.variant.theme == "light"@,
    ensures
        can_be_shown(o),
{
    reveal_strlit("month");
    reveal_strlit("week");
    reveal_strlit("day");
    assert forall|i: int| 0 <= i < o.views.len() implies is_served(
        name_of_picture(variant_name(o.variant), #[trigger] o.views[i], "jpg"@),
    ) && is_served(name_of_picture(variant_name(o.variant), o.views[i], "mp4"@)) by {
        law_pictures_are_served(o.variant, o.views[i], "jpg"@);
        law_pictures_are_served(o.variant, o.views[i], "mp4"@);
    }
}

/// Every way to show the calendar can be shown, by hand and at a time of a schedule,
/// where the theme of all screens is one that there is.
pub proof fn law_opts_can_be_shown(
    c: CalendarConfig,
    s: CalSchedule,
    id: Seq<char>,
    small: bool,
    defaults: DisplayDefaults,
)
    requires
        c.theme@ == "dark"@ || c.theme@ == "light"@,
    ensures
        can_be_shown(opts_by_hand(c, id, small, defaults)),
        can_be_shown(opts_for_schedule(c, s, id, small, defaults)),
{
    let d = display_of(c, id, small, defaults);
    lemma_can_be_shown(opts_by_hand(c, id, small, defaults), d.views, d.text_pct);
    lemma_can_be_shown(opts_for_schedule(c, s, id, small, defaults), texts(s.views@), d.text_pct);
}

/// Whether a device is a small display of Google's, which needs large text.
pub fn is_small_display(devices: &Vec<Entry>, id: &str) -> (r: bool)
    ensures
        r == (match device_at(devices@, id@) {
            Some(i) => devices@[i].info.backend == Backend::Cast && contains(lower(devices@[i].info.model@), "hub"@),
            None => false,
        }),
{
    match find_device(devices, id) {
        Some(i) => {
            let m = chars_of(devices[i].info.model.as_str());
            let l = to_lower(m.as_slice());
            let h = chars_of("hub");
            devices[i].info.backend == Backend::Cast && contains_text(l.as_slice(), h.as_slice())
        },
        None => false,
    }
}

// ---------------------------------------------------------------------------
// Which screens show it
// ---------------------------------------------------------------------------

/// A screen that shows the calendar. Times are in milliseconds.
#[derive(Debug)]
pub struct Showing {
    pub ip: String,
    pub since: i64,
    /// When a key of its remote was last pressed.
    pub touched: i64,
    pub opts: ShowOpts,
    /// The time of a schedule that put it there.
    pub window: Option<String>,
    /// The picture that was last sent: its file and the time it was made.
    pub pushed: Option<(String, i64)>,
}

pub open spec fn pushed_model(p: Option<(String, i64)>) -> Option<(Seq<char>, i64)> {
    match p {
        Some((n, t)) => Some((n@, t)),
        None => None,
    }
}

pub struct ShowingModel {
    pub ip: Seq<char>,
    pub since: i64,
    pub touched: i64,
    pub opts: OptsModel,
    pub window: Option<Seq<char>>,
    pub pushed: Option<(Seq<char>, i64)>,
}

impl Showing {
    pub open spec fn model(self) -> ShowingModel {
        ShowingModel {
            ip: self.ip@,
            since: self.since,
            touched: self.touched,
            opts: self.opts.model(),
            window: opt(self.window),
            pushed: pushed_model(self.pushed),
        }
    }
}

/// A time of a schedule on a screen. `end` is in seconds, `power_asked` in
/// milliseconds.
#[derive(Clone, Copy, Debug, PartialEq, Eq, Structural)]
pub struct Win {
    pub end: i64,
    pub shown: bool,
    pub turned_on: bool,
    pub power_asked: Option<i64>,
    pub done: bool,
}

/// What is known of the calendar on screens.
#[derive(Debug)]
pub struct Runtime {
    pub showing: Vec<(String, Showing)>,
    /// How often in a row a screen was seen to show something else.
    pub elsewhere: Vec<(String, u8)>,
    /// The screensavers that no longer fit.
    pub outdated: Vec<String>,
    pub windows: Vec<(String, Win)>,
    pub last_schedules: Option<i64>,
}

/// How often in a row a screen is seen to show something else before it stops getting
/// the calendar.
pub const ELSEWHERE_LIMIT: u8 = 4;

/// No screen is counted further than the limit, at which it is dropped.
pub open spec fn counts_small(counts: Map<Seq<char>, u8>) -> bool {
    forall|k: Seq<char>| #[trigger] counts.dom().contains(k) ==> counts[k] < ELSEWHERE_LIMIT
}

impl Runtime {
    /// Each time of a schedule is remembered once, and counts are small.
    pub open spec fn wf(self) -> bool {
        keys_differ(self.windows@) && counts_small(as_map(self.elsewhere@))
    }

    pub fn new() -> (r: Runtime)
        ensures
            r.wf(),
            r.showing@.len() == 0,
            r.elsewhere@.len() == 0,
            r.outdated@.len() == 0,
            r.windows@.len() == 0,
            r.last_schedules is None,
    {
        Runtime {
            showing: Vec::new(),
            elsewhere: Vec::new(),
            outdated: Vec::new(),
            windows: Vec::new(),
            last_schedules: None,
        }
    }
}

/// Notes that a screen shows the calendar from now on.
pub fn start_showing(r: &mut Runtime, id: &str, ip: &str, opts: ShowOpts, window: Option<String>, now: i64)
    requires
        old(r).wf(),
    ensures
        final(r).wf(),
        value_of(final(r).showing@, id@) is Some,
        (value_of(final(r).showing@, id@)->0).model() == (ShowingModel {
            ip: ip@,
            since: now,
            touched: now,
            opts: opts.model(),
            window: opt(window),
            pushed: None,
        }),
        forall|k: Seq<char>| k != id@ ==> #[trigger] value_of(final(r).showing@, k) == value_of(old(r).showing@, k),
        as_map(final(r).elsewhere@) == as_map(old(r).elsewhere@).remove(id@),
        final(r).outdated == old(r).outdated,
        final(r).windows == old(r).windows,
        final(r).last_schedules == old(r).last_schedules,
{
    remove_key(&mut r.elsewhere, id);
    put_value(
        &mut r.showing,
        id,
        Showing { ip: ip.to_string(), since: now, touched: now, opts, window, pushed: None },
    );
}

/// Notes that a screen no longer shows the calendar, and whether it did.
pub fn stop_showing(r: &mut Runtime, id: &str) -> (was: bool)
    requires
        old(r).wf(),
    ensures
        final(r).wf(),
        was == as_map(old(r).showing@).dom().contains(id@),
        as_map(final(r).showing@) == as_map(old(r).showing@).remove(id@),
        as_map(final(r).elsewhere@) == as_map(old(r).elsewhere@).remove(id@),
        final(r).outdated == old(r).outdated,
        final(r).windows == old(r).windows,
        final(r).last_schedules == old(r).last_schedules,
{
    let was: bool = find_key(&r.showing, id).is_some();
    remove_key(&mut r.elsewhere, id);
    remove_key(&mut r.showing, id);
    was
}

/// The screens after a key was pressed at an address.
pub open spec fn after_touch(showing: Seq<(String, Showing)>, ip: Seq<char>, now: i64) -> Seq<(String, Showing)> {
    showing.map_values(
        |e: (String, Showing)|
            if e.1.ip@ == ip {
                (e.0, Showing { touched: now, ..e.1 })
            } else {
                e
            },
    )
}

/// Notes that a key was pressed on the remote of the TV at an address.
pub fn touched(r: &mut Runtime, ip: &str, now: i64)
    requires
        old(r).wf(),
    ensures
        final(r).wf(),
        final(r).showing@ == after_touch(old(r).showing@, ip@, now),
        final(r).elsewhere == old(r).elsewhere,
        final(r).outdated == old(r).outdated,
        final(r).windows == old(r).windows,
        final(r).last_schedules == old(r).last_schedules,
{
    let mut i: usize = 0;
    while i < r.showing.len()
        invariant
            i <= r.showing@.len(),
            r.showing@.len() == old(r).showing@.len(),
            forall|k: int| 0 <= k < i ==> #[trigger] r.showing@[k] == after_touch(old(r).showing@, ip@, now)[k],
            forall|k: int| i <= k < r.showing@.len() ==> #[trigger] r.showing@[k] == old(r).showing@[k],
            r.elsewhere == old(r).elsewhere,
            r.outdated == old(r).outdated,
            r.windows == old(r).windows,
            r.last_schedules == old(r).last_schedules,
            old(r).wf(),
        decreases r.showing@.len() - i,
    {
        if str_same(r.showing[i].1.ip.as_str(), ip) {
            r.showing[i].1.touched = now;
        }
        i = i + 1;
    }
    proof {
        assert(r.showing@ =~= after_touch(old(r).showing@, ip@, now));
    }
}

// ---------------------------------------------------------------------------
// Pictures
// ---------------------------------------------------------------------------

/// The view that a screen shows after so many milliseconds: its views follow each
/// other and then start again.
pub open spec fn view_after(o: OptsModel, elapsed: int) -> Seq<char> {
    if o.views.len() == 0 {
        "month"@
    } else if o.rotate > 0 && o.views.len() > 1 {
        o.views[(elapsed / 1000 / (o.rotate as int)) % (o.views.len() as int)]
    } else {
        o.views[0]
    }
}

/// The view that a screen shows now.
pub fn current_view(s: &Showing, now: i64) -> (r: String)
    requires
        s.since <= now,
    ensures
        r@ == view_after(s.opts.model(), now - s.since),
{
    let n: usize = s.opts.views.len();
    let ghost m = texts(s.opts.views@);
    proof {
        assert(m.len() == n);
    }
    if n == 0 {
        return "month".to_string();
    }
    let mut i: usize = 0;
    if s.opts.rotate > 0 && n > 1 {
        let e: i128 = now as i128 - s.since as i128;
        let turns: u128 = e as u128 / 1000 / (s.opts.rotate as u128);
        let k: u128 = turns % (n as u128);
        proof {
            assert(k < n);
        }
        i = k as usize;
    }
    proof {
        assert(m[i as int] == s.opts.views@[i as int]@);
    }
    s.opts.views[i].clone()
}

/// A picture that a screen may be sent.
#[derive(Debug)]
pub struct PushTarget {
    pub id: String,
    pub ip: String,
    pub name: String,
}

pub open spec fn target_models(v: Seq<PushTarget>) -> Seq<(Seq<char>, Seq<char>, Seq<char>)> {
    v.map_values(|t: PushTarget| (t.id@, t.ip@, t.name@))
}

/// The pictures of those of the first `n` screens that are sent theirs.
pub open spec fn targets_first(
    showing: Seq<(String, Showing)>,
    devices: Seq<Entry>,
    n: int,
    now: int,
) -> Seq<(Seq<char>, Seq<char>, Seq<char>)>
    decreases n,
{
    if n <= 0 {
        Seq::empty()
    } else {
        let before = targets_first(showing, devices, n - 1, now);
        let (id, s) = showing[n - 1];
        match device_at(devices, id@) {
            Some(i) => if devices[i].info.backend == Backend::Cast {
                before.push(
                    (
                        id@,
                        s.ip@,
                        name_of_picture(
                            variant_name(s.opts.variant.model()),
                            view_after(s.opts.model(), now - s.since),
                            "jpg"@,
                        ),
                    ),
                )
            } else {
                before
            },
            None => before,
        }
    }
}

/// The picture that each Cast screen shows now. Other TVs fetch theirs themselves.
pub fn push_targets(r: &Runtime, devices: &Vec<Entry>, now: i64) -> (out: Vec<PushTarget>)
    requires
        forall|i: int| 0 <= i < r.showing@.len() ==> (#[trigger] r.showing@[i]).1.since <= now,
    ensures
        target_models(out@) == targets_first(r.showing@, devices@, r.showing@.len() as int, now as int),
{
    let mut out: Vec<PushTarget> = Vec::new();
    let mut i: usize = 0;
    proof {
        assert(target_models(out@) =~= Seq::<(Seq<char>, Seq<char>, Seq<char>)>::empty());
    }
    while i < r.showing.len()
        invariant
            i <= r.showing@.len(),
            forall|k: int| 0 <= k < r.showing@.len() ==> (#[trigger] r.showing@[k]).1.since <= now,
            target_models(out@) == targets_first(r.showing@, devices@, i as int, now as int),
        decreases r.showing@.len() - i,
    {
        let id = r.showing[i].0.as_str();
        match find_device(devices, id) {
            Some(d) => {
                if devices[d].info.backend == Backend::Cast {
                    let s = &r.showing[i].1;
                    let variant = s.opts.variant.name();
                    let view = current_view(s, now);
                    let name = crate::cal_render::file_name(variant.as_str(), view.as_str(), "jpg");
                    let ghost before = target_models(out@);
                    let t = PushTarget { id: id.to_string(), ip: s.ip.clone(), name };
                    let ghost tm = (t.id@, t.ip@, t.name@);
                    out.push(t);
                    proof {
                        assert(target_models(out@) =~= before.push(tm));
                    }
                }
            },
            None => {},
        }
        i = i + 1;
    }
    out
}

/// Whether a screen is sent a picture: one made in the last three minutes that it
/// was not sent yet. `age` is in milliseconds.
pub fn should_push(r: &Runtime, id: &str, name: &str, made: i64, age: i64) -> (yes: bool)
    ensures
        yes == (age <= 180_000 && !(value_of(r.showing@, id@) is Some && (value_of(
            r.showing@,
            id@,
        )->0).model().pushed == Some((name@, made)))),
{
    if age > 180_000 {
        return false;
    }
    match find_key(&r.showing, id) {
        Some(i) => match &r.showing[i].1.pushed {
            Some((n, t)) => !(str_same(n.as_str(), name) && *t == made),
            None => true,
        },
        None => true,
    }
}

/// What a screen is sent: a picture at an address, with the time it was made, so
/// that it is not taken for the one before.
pub fn picture_item(url: &str, made_secs: u64) -> (r: CastItem)
    ensures
        item_model(r) == (ItemModel {
            url: url@ + "?v="@ + decimal(made_secs as int),
            title: "Calendar"@,
            content_type: "image/jpeg"@,
            subtitles: None,
            autoplay: true,
        }),
{
    let n = string_of(decimal_text(made_secs).as_slice());
    CastItem {
        url: url.to_string().concat("?v=").concat(n.as_str()),
        title: "Calendar".to_string(),
        content_type: "image/jpeg".to_string(),
        subtitles: None,
        autoplay: true,
    }
}

/// Notes the picture that a screen was sent.
pub fn mark_pushed(r: &mut Runtime, id: &str, name: &str, made: i64)
    requires
        old(r).wf(),
    ensures
        final(r).wf(),
        match value_of(old(r).showing@, id@) {
            Some(s) => value_of(final(r).showing@, id@) is Some && (value_of(final(r).showing@, id@)->0).model() == (
            ShowingModel { pushed: Some((name@, made)), ..s.model() }),
            None => value_of(final(r).showing@, id@) is None,
        },
        forall|k: Seq<char>| k != id@ ==> #[trigger] value_of(final(r).showing@, k) == value_of(old(r).showing@, k),
        final(r).elsewhere == old(r).elsewhere,
        final(r).outdated == old(r).outdated,
        final(r).windows == old(r).windows,
        final(r).last_schedules == old(r).last_schedules,
{
    match find_key(&r.showing, id) {
        Some(i) => {
            let ghost before = r.showing@;
            let t = (name.to_string(), made);
            r.showing[i].1.pushed = Some(t);
            proof {
                assert(r.showing@[i as int].0 == before[i as int].0);
                lemma_same_names(before, r.showing@, id@, 0);
                assert forall|k: Seq<char>| k != id@ implies #[trigger] value_of(r.showing@, k) == value_of(
                    before,
                    k,
                ) by {
                    lemma_same_names(before, r.showing@, k, 0);
                    crate::config::lemma_key_from(before, k, 0);
                    crate::config::lemma_key_from(before, id@, 0);
                }
            }
        },
        None => {},
    }
}

proof fn lemma_same_names(a: Seq<(String, Showing)>, b: Seq<(String, Showing)>, k: Seq<char>, i: int)
    requires
        0 <= i,
        a.len() == b.len(),
        forall|j: int| 0 <= j < a.len() ==> (#[trigger] a[j]).0 == b[j].0,
    ensures
        key_from(a, k, i) == key_from(b, k, i),
    decreases a.len() - i,
{
    if i < a.len() {
        assert(a[i].0 == b[i].0);
        lemma_same_names(a, b, k, i + 1);
    }
}

// ---------------------------------------------------------------------------
// What is drawn
// ---------------------------------------------------------------------------

/// The looks of the screensavers of some TVs.
pub open spec fn saver_looks(c: CalendarConfig, defaults: DisplayDefaults) -> Set<VariantModel> {
    Set::new(
        |m: VariantModel|
            exists|i: int|
                0 <= i < c.screensaver_tvs@.len() && opts_by_hand(
                    c,
                    (#[trigger] c.screensaver_tvs@[i])@,
                    false,
                    defaults,
                ).variant == m,
    )
}

/// The looks that screens show.
pub open spec fn shown_looks(showing: Seq<(String, Showing)>) -> Set<VariantModel> {
    Set::new(
        |m: VariantModel|
            exists|i: int| 0 <= i < showing.len() && (#[trigger] showing[i]).1.opts.variant.model() == m,
    )
}

/// Whether a Roku TV shows the calendar.
pub open spec fn roku_shows(showing: Seq<(String, Showing)>, devices: Seq<Entry>) -> bool {
    exists|i: int|
        0 <= i < showing.len() && device_at(devices, (#[trigger] showing[i]).0@) is Some && devices[device_at(
            devices,
            showing[i].0@,
        )->0].info.backend == Backend::Roku
}

fn add_look(out: &mut Vec<Variant>, v: Variant)
    ensures
        looks(final(out)@) == looks(old(out)@).insert(v.model()),
{
    let known: bool = has_look(out, &v);
    let ghost m = v.model();
    let ghost before = out@;
    if !known {
        out.push(v);
        proof {
            assert(looks(out@) =~= looks(before).insert(m)) by {
                assert forall|x: VariantModel| looks(out@).contains(x) == looks(before).insert(m).contains(x) by {
                    if looks(out@).contains(x) {
                        let i = choose|i: int| 0 <= i < out@.len() && (#[trigger] out@[i]).model() == x;
                        if i < before.len() {
                            assert(before[i].model() == x);
                        }
                    }
                    if looks(before).contains(x) {
                        let i = choose|i: int| 0 <= i < before.len() && (#[trigger] before[i]).model() == x;
                        assert(out@[i].model() == x);
                    }
                    assert(out@[before.len() as int].model() == m);
                }
            }
        }
    } else {
        proof {
            assert(looks(before).insert(m) =~= looks(before));
        }
    }
}

/// What is drawn: the looks that screens show and those of the screensavers, and
/// videos in 4K if they are wanted and a Roku uses them.
pub fn wanted(r: &Runtime, cfg: &CalendarConfig, devices: &Vec<Entry>, defaults: &DisplayDefaults) -> (out: (
    Vec<Variant>,
    bool,
))
    ensures
        looks(out.0@) == shown_looks(r.showing@).union(saver_looks(*cfg, *defaults)),
        out.1 == (cfg.four_k && (cfg.screensaver_tvs@.len() > 0 || roku_shows(r.showing@, devices@))),
{
    let mut list: Vec<Variant> = Vec::new();
    let mut roku: bool = cfg.screensaver_tvs.len() > 0;
    let mut i: usize = 0;
    proof {
        assert(looks(list@) =~= shown_looks(r.showing@.take(0)));
    }
    while i < r.showing.len()
        invariant
            i <= r.showing@.len(),
            looks(list@) == shown_looks(r.showing@.take(i as int)),
            roku == (cfg.screensaver_tvs@.len() > 0 || roku_shows(r.showing@.take(i as int), devices@)),
        decreases r.showing@.len() - i,
    {
        let ghost t = r.showing@.take(i as int);
        let ghost u = r.showing@.take(i + 1);
        add_look(&mut list, r.showing[i].1.opts.variant.copy());
        let mut here: bool = false;
        match find_device(devices, r.showing[i].0.as_str()) {
            Some(d) => {
                here = devices[d].info.backend == Backend::Roku;
            },
            None => {},
        }
        roku = roku || here;
        proof {
            let m = r.showing@[i as int].1.opts.variant.model();
            assert(u[i as int] == r.showing@[i as int]);
            assert forall|x: VariantModel| shown_looks(u).contains(x) == shown_looks(t).insert(m).contains(x) by {
                if shown_looks(u).contains(x) {
                    let k = choose|k: int| 0 <= k < u.len() && (#[trigger] u[k]).1.opts.variant.model() == x;
                    if k < i {
                        assert(t[k] == u[k]);
                    }
                }
                if shown_looks(t).contains(x) {
                    let k = choose|k: int| 0 <= k < t.len() && (#[trigger] t[k]).1.opts.variant.model() == x;
                    assert(u[k] == t[k]);
                }
            }
            assert(shown_looks(u) =~= shown_looks(t).insert(m));
            assert(roku_shows(u, devices@) == (roku_shows(t, devices@) || here)) by {
                if roku_shows(u, devices@) {
                    let k = choose|k: int|
                        0 <= k < u.len() && device_at(devices@, (#[trigger] u[k]).0@) is Some && devices@[device_at(
                            devices@,
                            u[k].0@,
                        )->0].info.backend == Backend::Roku;
                    if k < i {
                        assert(t[k] == u[k]);
                    }
                }
                if roku_shows(t, devices@) {
                    let k = choose|k: int|
                        0 <= k < t.len() && device_at(devices@, (#[trigger] t[k]).0@) is Some && devices@[device_at(
                            devices@,
                            t[k].0@,
                        )->0].info.backend == Backend::Roku;
                    assert(u[k] == t[k]);
                }
            }
        }
        i = i + 1;
    }
    proof {
        assert(r.showing@.take(r.showing@.len() as int) =~= r.showing@);
    }
    let ghost base = shown_looks(r.showing@);
    let mut k: usize = 0;
    proof {
        assert(looks(list@) =~= base.union(saver_first(*cfg, *defaults, 0)));
    }
    while k < cfg.screensaver_tvs.len()
        invariant
            k <= cfg.screensaver_tvs@.len(),
            looks(list@) == base.union(saver_first(*cfg, *defaults, k as int)),
        decreases cfg.screensaver_tvs@.len() - k,
    {
        let o = manual_opts(cfg, cfg.screensaver_tvs[k].as_str(), false, defaults);
        add_look(&mut list, o.variant);
        proof {
            let m = opts_by_hand(*cfg, cfg.screensaver_tvs@[k as int]@, false, *defaults).variant;
            assert(base.union(saver_first(*cfg, *defaults, k as int)).insert(m) =~= base.union(
                saver_first(*cfg, *defaults, k + 1),
            ));
        }
        k = k + 1;
    }
    proof {
        assert(saver_first(*cfg, *defaults, k as int) =~= saver_looks(*cfg, *defaults));
    }
    (list, cfg.four_k && roku)
}

spec fn saver_first(c: CalendarConfig, defaults: DisplayDefaults, n: int) -> Set<VariantModel> {
    Set::new(
        |m: VariantModel|
            exists|i: int|
                0 <= i < n && opts_by_hand(c, (#[trigger] c.screensaver_tvs@[i])@, false, defaults).variant == m,
    )
}

// ---------------------------------------------------------------------------
// Addresses
// ---------------------------------------------------------------------------

/// Texts with a separator between them.
pub open spec fn joined(v: Seq<Seq<char>>, sep: Seq<char>, n: int) -> Seq<char>
    decreases n,
{
    if n <= 0 {
        Seq::empty()
    } else if n == 1 {
        v[0]
    } else {
        joined(v, sep, n - 1) + sep + v[n - 1]
    }
}

pub fn join_texts(v: &Vec<String>, sep: &str) -> (r: String)
    ensures
        r@ == joined(texts(v@), sep@, v@.len() as int),
{
    let ghost m = texts(v@);
    let mut out = String::new();
    let mut i: usize = 0;
    while i < v.len()
        invariant
            i <= v@.len(),
            m == texts(v@),
            out@ == joined(m, sep@, i as int),
        decreases v@.len() - i,
    {
        proof {
            assert(m[i as int] == v@[i as int]@);
        }
        if i > 0 {
            out.append(sep);
            out.append(v[i].as_str());
        } else {
            out.append(v[i].as_str());
            proof {
                assert(out@ =~= m[0]);
            }
        }
        i = i + 1;
    }
    out
}

/// What the channel of a Roku is told to show the calendar.
pub open spec fn params_of(base: Seq<char>, o: OptsModel, four_k: bool) -> Seq<char> {
    "cal="@ + quoted(base) + "&theme="@ + variant_name(o.variant) + "&views="@ + joined(
        o.views,
        ","@,
        o.views.len() as int,
    ) + "&rotate="@ + decimal(o.rotate as int) + "&q="@ + (if four_k {
        "4k"@
    } else {
        "hd"@
    }) + "&every=60"@
}

/// What the channel of a Roku is told to show the calendar.
pub fn roku_params(base: &str, o: &ShowOpts, four_k: bool) -> (r: String)
    ensures
        r@ == params_of(base@, o.model(), four_k),
{
    let b = q(base);
    let name = o.variant.name();
    let views = join_texts(&o.views, ",");
    let n = string_of(decimal_text(o.rotate as u64).as_slice());
    proof {
        assert(texts(o.views@).len() == o.views@.len());
    }
    "cal=".to_string().concat(b.as_str()).concat("&theme=").concat(name.as_str()).concat("&views=").concat(
        views.as_str(),
    ).concat("&rotate=").concat(n.as_str()).concat("&q=").concat(
        if four_k {
            "4k"
        } else {
            "hd"
        },
    ).concat("&every=60")
}

/// Whether the screensaver of a TV no longer fits: the address, the look or the
/// quality is another than it was told.
pub fn is_outdated(cfg: &CalendarConfig, id: &str, base: &str, defaults: &DisplayDefaults) -> (r: bool)
    ensures
        r == (match value_of(cfg.pushed@, id@) {
            Some(p) => p@ != params_of(base@, opts_by_hand(*cfg, id@, false, *defaults), cfg.four_k),
            None => true,
        }),
{
    let o = manual_opts(cfg, id, false, defaults);
    let p = roku_params(base, &o, cfg.four_k);
    match find_key(&cfg.pushed, id) {
        Some(i) => !str_same(cfg.pushed[i].1.as_str(), p.as_str()),
        None => true,
    }
}

/// Takes in which screensavers no longer fit, and whether that is new.
pub fn set_outdated(r: &mut Runtime, list: Vec<String>) -> (changed: bool)
    requires
        old(r).wf(),
    ensures
        final(r).wf(),
        texts(final(r).outdated@) == texts(list@),
        changed == (texts(old(r).outdated@) != texts(list@)),
        *final(r) == (Runtime { outdated: final(r).outdated, ..*old(r) }),
{
    if same_texts(&r.outdated, &list) {
        false
    } else {
        r.outdated = list;
        true
    }
}

/// Gives the pictures' address a secret part, if it has none.
pub fn ensure_token(cfg: &mut CalendarConfig) -> (made: bool)
    ensures
        made == (old(cfg).token@.len() == 0),
        !made ==> final(cfg).token == old(cfg).token,
        made ==> is_simple_uuid(final(cfg).token@),
        *final(cfg) == (CalendarConfig { token: final(cfg).token, ..*old(cfg) }),
{
    if crate::json::is_empty(cfg.token.as_str()) {
        cfg.token = random_id();
        true
    } else {
        false
    }
}

/// What a device that is to show the calendar is, or why it cannot.
pub fn show_target(devices: &Vec<Entry>, id: &str) -> (r: Result<Backend, String>)
    ensures
        match device_at(devices@, id@) {
            None => r is Err && r->Err_0@ == "Unknown device."@,
            Some(i) => if devices@[i].info.backend == Backend::Cast || devices@[i].info.backend == Backend::Roku {
                r == Ok::<Backend, String>(devices@[i].info.backend)
            } else {
                r is Err && r->Err_0@ == "This device can't show pictures."@
            },
        },
{
    match find_device(devices, id) {
        None => Err("Unknown device.".to_string()),
        Some(i) => {
            let b = devices[i].info.backend;
            if b == Backend::Cast || b == Backend::Roku {
                Ok(b)
            } else {
                Err("This device can't show pictures.".to_string())
            }
        },
    }
}

/// Whether an address may fetch the calendar: that of a TV that shows it or has it as
/// its screensaver.
pub open spec fn may_fetch(r: Runtime, c: CalendarConfig, devices: Seq<Entry>, ip: Seq<char>) -> bool {
    ||| exists|i: int| 0 <= i < r.showing@.len() && (#[trigger] r.showing@[i]).1.ip@ == ip
    ||| exists|i: int|
        0 <= i < c.screensaver_tvs@.len() && device_at(devices, (#[trigger] c.screensaver_tvs@[i])@) is Some
            && devices[device_at(devices, c.screensaver_tvs@[i]@)->0].info.ip@ == ip
}

/// The addresses that may fetch the calendar.
pub fn allowed_ips(r: &Runtime, cfg: &CalendarConfig, devices: &Vec<Entry>) -> (out: Vec<String>)
    ensures
        forall|ip: Seq<char>| #[trigger] texts(out@).contains(ip) == may_fetch(*r, *cfg, devices@, ip),
{
    let mut out: Vec<String> = Vec::new();
    let mut i: usize = 0;
    while i < r.showing.len()
        invariant
            i <= r.showing@.len(),
            forall|ip: Seq<char>|
                #[trigger] texts(out@).contains(ip) == exists|k: int|
                    0 <= k < i && (#[trigger] r.showing@[k]).1.ip@ == ip,
        decreases r.showing@.len() - i,
    {
        let ghost before = texts(out@);
        out.push(r.showing[i].1.ip.clone());
        proof {
            let x = r.showing@[i as int].1.ip@;
            assert(texts(out@) =~= before.push(x));
            assert forall|ip: Seq<char>| #[trigger] texts(out@).contains(ip) == exists|k: int|
                0 <= k < i + 1 && (#[trigger] r.showing@[k]).1.ip@ == ip by {
                lemma_push_contains(before, x, ip);
                if before.contains(ip) {
                    let k = choose|k: int| 0 <= k < i && (#[trigger] r.showing@[k]).1.ip@ == ip;
                    assert(r.showing@[k].1.ip@ == ip);
                }
            }
        }
        i = i + 1;
    }
    let ghost shown = texts(out@);
    let mut k: usize = 0;
    while k < cfg.screensaver_tvs.len()
        invariant
            k <= cfg.screensaver_tvs@.len(),
            forall|ip: Seq<char>|
                #[trigger] texts(out@).contains(ip) == (shown.contains(ip) || exists|j: int|
                    0 <= j < k && device_at(devices@, (#[trigger] cfg.screensaver_tvs@[j])@) is Some
                        && devices@[device_at(devices@, cfg.screensaver_tvs@[j]@)->0].info.ip@ == ip),
        decreases cfg.screensaver_tvs@.len() - k,
    {
        let ghost before = texts(out@);
        match find_device(devices, cfg.screensaver_tvs[k].as_str()) {
            Some(d) => {
                out.push(devices[d].info.ip.clone());
                proof {
                    let x = devices@[d as int].info.ip@;
                    assert(texts(out@) =~= before.push(x));
                    assert forall|ip: Seq<char>| #[trigger] texts(out@).contains(ip) == (before.contains(ip) || x
                        == ip) by {
                        lemma_push_contains(before, x, ip);
                    }
                }
            },
            None => {},
        }
        proof {
            let id = cfg.screensaver_tvs@[k as int]@;
            assert forall|ip: Seq<char>| #[trigger] texts(out@).contains(ip) == (shown.contains(ip) || exists|j: int|
                0 <= j < k + 1 && device_at(devices@, (#[trigger] cfg.screensaver_tvs@[j])@) is Some
                    && devices@[device_at(devices@, cfg.screensaver_tvs@[j]@)->0].info.ip@ == ip) by {
                assert(before.contains(ip) == (shown.contains(ip) || exists|j: int|
                    0 <= j < k && device_at(devices@, (#[trigger] cfg.screensaver_tvs@[j])@) is Some
                        && devices@[device_at(devices@, cfg.screensaver_tvs@[j]@)->0].info.ip@ == ip));
                assert(cfg.screensaver_tvs@[k as int]@ == id);
            }
        }
        k = k + 1;
    }
    out
}

// ---------------------------------------------------------------------------
// For the window of the program
// ---------------------------------------------------------------------------

/// What the window of the program shows of the calendar.
#[derive(Debug)]
pub struct CalendarView {
    pub render: RenderStatus,
    pub showing: Vec<String>,
    pub screensaver_tvs: Vec<String>,
    pub outdated: Vec<String>,
    pub settings: CalendarConfig,
    /// Settings of the Calendar Saver are on this machine.
    pub saver_found: bool,
}

pub open spec fn names(v: Seq<(String, Showing)>) -> Seq<Seq<char>> {
    v.map_values(|e: (String, Showing)| e.0@)
}

/// What the window of the program shows of the calendar. The secret part of the
/// address and what TVs were told are left out.
pub fn view(r: &Runtime, render: &RenderState, cfg: CalendarConfig, saver_found: bool) -> (v: CalendarView)
    ensures
        v.render.model() == render.status.model(),
        texts(v.showing@) == names(r.showing@),
        texts(v.screensaver_tvs@) == texts(cfg.screensaver_tvs@),
        texts(v.outdated@) == texts(r.outdated@),
        v.settings.token@.len() == 0,
        v.settings.pushed@.len() == 0,
        v.settings == (CalendarConfig { token: v.settings.token, pushed: v.settings.pushed, ..cfg }),
        v.saver_found == saver_found,
{
    let mut showing: Vec<String> = Vec::new();
    let mut i: usize = 0;
    while i < r.showing.len()
        invariant
            i <= r.showing@.len(),
            texts(showing@) =~= names(r.showing@).take(i as int),
        decreases r.showing@.len() - i,
    {
        let ghost before = texts(showing@);
        showing.push(r.showing[i].0.clone());
        proof {
            assert(texts(showing@) =~= before.push(r.showing@[i as int].0@));
        }
        i = i + 1;
    }
    proof {
        assert(names(r.showing@).take(r.showing@.len() as int) =~= names(r.showing@));
    }
    let screensaver_tvs = copy_texts(&cfg.screensaver_tvs);
    let mut settings = cfg;
    settings.token = String::new();
    settings.pushed = Vec::new();
    CalendarView {
        render: crate::cal_render::status(render),
        showing,
        screensaver_tvs,
        outdated: copy_texts(&r.outdated),
        settings,
        saver_found,
    }
}

// ---------------------------------------------------------------------------
// What is shown, and for how long
// ---------------------------------------------------------------------------

/// A screen with several views shows each for as many seconds as it turns them, in their order,
/// and after the last the first again. One that does not turn them shows the first.
pub proof fn law_views_go_round(o: OptsModel, k: int, ms: int)
    requires
        o.views.len() > 0,
        0 <= k,
        0 <= ms,
    ensures
        o.rotate > 0 && o.views.len() > 1 && ms < 1_000 * o.rotate ==> view_after(o, 1_000 * o.rotate * k + ms)
            == o.views[k % o.views.len() as int],
        o.rotate == 0 || o.views.len() == 1 ==> view_after(o, ms) == o.views[0],
{
    if o.rotate > 0 && o.views.len() > 1 && ms < 1_000 * o.rotate {
        let r = o.rotate as int;
        let e = 1_000 * r * k + ms;
        let q = ms / 1000;
        assert(1_000 * r * k == 1_000 * (r * k)) by (nonlinear_arith);
        assert(e / 1000 == r * k + q);
        assert(0 <= q < r);
        assert((r * k + q) / r == k) by (nonlinear_arith)
            requires
                0 <= q < r,
        ;
    }
}

/// A display goes by its own settings where it has any; else a small one by those for small
/// displays and any other by those for large ones.
pub proof fn law_whose_settings_count(c: CalendarConfig, id: Seq<char>, small: bool, defaults: DisplayDefaults)
    ensures
        value_of(c.displays@, id) matches Some(d) ==> display_of(c, id, small, defaults) == display_model(d),
        value_of(c.displays@, id) is None && small ==> display_of(c, id, small, defaults) == display_model(defaults.small),
        value_of(c.displays@, id) is None && !small ==> display_of(c, id, small, defaults) == display_model(
            defaults.large,
        ),
{
}

/// The look of a screen is light or dark as its schedule says, else as the display's settings
/// do, else as the calendar's. The views and the seconds of a schedule count for it, and those
/// of the display where it is put up by hand; the size of the text and the pictures are
/// always those of the display.
pub proof fn law_whose_look_counts(
    c: CalendarConfig,
    s: CalSchedule,
    id: Seq<char>,
    small: bool,
    defaults: DisplayDefaults,
)
    ensures
        ({
            let d = display_of(c, id, small, defaults);
            let hand = opts_by_hand(c, id, small, defaults);
            let sched = opts_for_schedule(c, s, id, small, defaults);
            &&& s.theme@ == "light"@ || s.theme@ == "dark"@ ==> sched.variant.theme == s.theme@
            &&& s.theme@ != "light"@ && s.theme@ != "dark"@ ==> sched.variant.theme == hand.variant.theme
            &&& d.theme == "light"@ || d.theme == "dark"@ ==> hand.variant.theme == d.theme
            &&& d.theme != "light"@ && d.theme != "dark"@ ==> hand.variant.theme == c.theme@
            &&& sched.rotate == s.rotate_secs && hand.rotate == d.rotate_secs
            &&& sched.views == clean(texts(s.views@)) && hand.views == clean(d.views)
            &&& sched.variant.photos == d.photos && hand.variant.photos == d.photos
            &&& 50 <= d.text_pct <= 400 ==> hand.variant.text_pct == d.text_pct && sched.variant.text_pct == d.text_pct
        }),
{
}

/// The views of a screen are those of month, week and day that were chosen, in this order, and
/// the month where none was.
pub proof fn law_the_views_chosen(v: Seq<Seq<char>>)
    ensures
        v.contains("month"@) && v.contains("week"@) && v.contains("day"@) ==> clean(v) == seq![
            "month"@,
            "week"@,
            "day"@,
        ],
        v.contains("month"@) && v.contains("week"@) && !v.contains("day"@) ==> clean(v) == seq!["month"@, "week"@],
        v.contains("month"@) && !v.contains("week"@) && v.contains("day"@) ==> clean(v) == seq!["month"@, "day"@],
        !v.contains("month"@) && v.contains("week"@) && v.contains("day"@) ==> clean(v) == seq!["week"@, "day"@],
        v.contains("month"@) && !v.contains("week"@) && !v.contains("day"@) ==> clean(v) == seq!["month"@],
        !v.contains("month"@) && v.contains("week"@) && !v.contains("day"@) ==> clean(v) == seq!["week"@],
        !v.contains("month"@) && !v.contains("week"@) && v.contains("day"@) ==> clean(v) == seq!["day"@],
        !v.contains("month"@) && !v.contains("week"@) && !v.contains("day"@) ==> clean(v) == seq!["month"@],
{
    let a = with_view(Seq::empty(), v, "month"@);
    let b = with_view(a, v, "week"@);
    let c = with_view(b, v, "day"@);
    if v.contains("month"@) && v.contains("week"@) && v.contains("day"@) {
        assert(c =~= seq!["month"@, "week"@, "day"@]);
    }
    if v.contains("month"@) && v.contains("week"@) && !v.contains("day"@) {
        assert(c =~= seq!["month"@, "week"@]);
    }
    if v.contains("month"@) && !v.contains("week"@) && v.contains("day"@) {
        assert(c =~= seq!["month"@, "day"@]);
    }
    if !v.contains("month"@) && v.contains("week"@) && v.contains("day"@) {
        assert(c =~= seq!["week"@, "day"@]);
    }
    if v.contains("month"@) && !v.contains("week"@) && !v.contains("day"@) {
        assert(c =~= seq!["month"@]);
    }
    if !v.contains("month"@) && v.contains("week"@) && !v.contains("day"@) {
        assert(c =~= seq!["week"@]);
    }
    if !v.contains("month"@) && !v.contains("week"@) && v.contains("day"@) {
        assert(c =~= seq!["day"@]);
    }
}

/// A key that is pressed on a screen counts for the screens at that address and no others, and
/// changes nothing but when one was last pressed.
pub proof fn law_a_key_counts_for_its_screen(showing: Seq<(String, Showing)>, ip: Seq<char>, now: i64, i: int)
    requires
        0 <= i < showing.len(),
    ensures
        after_touch(showing, ip, now).len() == showing.len(),
        after_touch(showing, ip, now)[i].0 == showing[i].0,
        showing[i].1.ip@ == ip ==> after_touch(showing, ip, now)[i].1 == (Showing { touched: now, ..showing[i].1 }),
        showing[i].1.ip@ != ip ==> after_touch(showing, ip, now)[i] == showing[i],
{
}

proof fn lemma_targets_first(showing: Seq<(String, Showing)>, devices: Seq<Entry>, n: int, now: int, i: int, d: int)
    requires
        0 <= n <= showing.len(),
        0 <= i < n,
        device_at(devices, showing[i].0@) == Some(d),
        devices[d].info.backend == Backend::Cast,
    ensures
        targets_first(showing, devices, n, now).contains(
            (
                showing[i].0@,
                showing[i].1.ip@,
                name_of_picture(
                    variant_name(showing[i].1.opts.variant.model()),
                    view_after(showing[i].1.opts.model(), now - showing[i].1.since),
                    "jpg"@,
                ),
            ),
        ),
    decreases n,
{
    let want = (
        showing[i].0@,
        showing[i].1.ip@,
        name_of_picture(
            variant_name(showing[i].1.opts.variant.model()),
            view_after(showing[i].1.opts.model(), now - showing[i].1.since),
            "jpg"@,
        ),
    );
    let before = targets_first(showing, devices, n - 1, now);
    let all = targets_first(showing, devices, n, now);
    if i < n - 1 {
        lemma_targets_first(showing, devices, n - 1, now, i, d);
        let at = before.index_of(want);
        assert(all[at] == want);
    } else {
        assert(all == before.push(want));
        crate::text::lemma_push_contains(before, want, want);
    }
}

/// Each Cast device that shows the calendar is sent the picture of the view that is due on it,
/// in its own look.
pub proof fn law_each_cast_screen_gets_its_picture(
    showing: Seq<(String, Showing)>,
    devices: Seq<Entry>,
    now: int,
    i: int,
    d: int,
)
    requires
        0 <= i < showing.len(),
        crate::home::stands_at(devices, showing[i].0@, d),
        devices[d].info.backend == Backend::Cast,
    ensures
        targets_first(showing, devices, showing.len() as int, now).contains(
            (
                showing[i].0@,
                showing[i].1.ip@,
                name_of_picture(
                    variant_name(showing[i].1.opts.variant.model()),
                    view_after(showing[i].1.opts.model(), now - showing[i].1.since),
                    "jpg"@,
                ),
            ),
        ),
{
    crate::home::lemma_stands_at(devices, showing[i].0@, d, 0);
    lemma_targets_first(showing, devices, showing.len() as int, now, i, d);
}

} // verus!
