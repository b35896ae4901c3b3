//! Roku TVs: what they show, and the keys they are sent.
//!
//! A Roku has no absolute volume. Its level is reached with key presses from the
//! last known one or, if that is not known, from zero, which enough presses reach
//! from anywhere. A position is reached by scanning and watching where it has come.

use vstd::prelude::*;
use vstd::string::*;
use crate::home::{small_letters, to_small_letters};
use crate::json::is_empty;
use crate::text::{
    chars_of, contains, contains_text, copy_opt, copy_range, copy_texts, has_text, is_space, opt, parse_nat,
    parse_unsigned, position, same_opt, same_texts, space, starts, str_same, string_of, texts, trim, trimmed, views,
    within,
};
use crate::registry::{is_session, law_what_plays_is_a_session};
use crate::types::{
    event_models, input_model, input_models, is_playing, media_model, no_status, opt_media, push_event, tv_model,
    Activity, CoreEvent, DeviceInfo, EventModel, InputModel, InputOption, MediaInfo, MediaModel, PlayState,
    StateModel, TvModel, TvStatus,
};
use crate::xml::{
    attribute, before_text, cut, cut_text, opt_chars, part_at, parted, tag, text_before_mark, unescaped, xml_attr,
    xml_tag, xml_unescape,
};

verus! {

// ---------------------------------------------------------------------------
// What a TV answers
// ---------------------------------------------------------------------------

/// Text, or an empty one.
pub open spec fn or_empty(s: Option<Seq<char>>) -> Seq<char> {
    match s {
        Some(t) => t,
        None => Seq::empty(),
    }
}

fn chars_or_empty(v: Option<Vec<char>>) -> (r: Vec<char>)
    ensures
        r@ == or_empty(opt_chars(v)),
{
    match v {
        Some(x) => x,
        None => Vec::new(),
    }
}

/// A text that is not empty.
pub open spec fn filled(s: Option<Seq<char>>) -> Option<Seq<char>> {
    match s {
        Some(t) => if t.len() == 0 {
            None
        } else {
            Some(t)
        },
        None => None,
    }
}

fn keep_filled(v: Option<Vec<char>>) -> (r: Option<Vec<char>>)
    ensures
        opt_chars(r) == filled(opt_chars(v)),
{
    match v {
        Some(x) => if x.len() == 0 {
            None
        } else {
            Some(x)
        },
        None => None,
    }
}

fn tag_is(xml: &[char], name: &str, value: &str) -> (r: bool)
    ensures
        r == (tag(xml@, name@) == Some(value@)),
{
    match xml_tag(xml, name) {
        Some(t) => crate::text::is_str(t.as_slice(), value),
        None => false,
    }
}

fn tag_string(xml: &[char], name: &str) -> (r: Option<String>)
    ensures
        opt(r) == tag(xml@, name@),
{
    match xml_tag(xml, name) {
        Some(t) => Some(string_of(t.as_slice())),
        None => None,
    }
}

/// The attributes of the first element whose mark is `open`, and what follows.
pub open spec fn element(xml: Seq<char>, open: Seq<char>) -> Option<(Seq<char>, Seq<char>)> {
    let pieces = cut(xml, open);
    if pieces.len() > 1 {
        parted(pieces[1], '>')
    } else {
        None
    }
}

fn first_element(xml: &[char], open: &str) -> (r: Option<(Vec<char>, Vec<char>)>)
    requires
        open@.len() > 0,
    ensures
        match r {
            Some((a, b)) => element(xml@, open@) == Some((a@, b@)),
            None => element(xml@, open@) is None,
        },
{
    let pieces = cut_text(xml, open);
    proof {
        assert(views(pieces@).len() == pieces@.len());
    }
    if pieces.len() > 1 {
        proof {
            assert(views(pieces@)[1] == pieces@[1]@);
        }
        part_at(pieces[1].as_slice(), '>')
    } else {
        None
    }
}

/// An app or an input in a list of them.
pub struct AppEntry {
    pub id: Seq<char>,
    pub kind: Seq<char>,
    pub name: Seq<char>,
}

/// What a piece of a list says of an app.
pub open spec fn app_in(chunk: Seq<char>) -> Option<AppEntry> {
    match parted(chunk, '>') {
        Some((attrs, rest)) => match attribute(attrs, "id"@) {
            Some(id) => Some(
                AppEntry {
                    id,
                    kind: or_empty(attribute(attrs, "type"@)),
                    name: unescaped(trim(before_text(rest, "</app>"@))),
                },
            ),
            None => None,
        },
        None => None,
    }
}

/// The apps in the pieces from the first to before the `n`-th.
pub open spec fn apps_in(chunks: Seq<Seq<char>>, n: int) -> Seq<AppEntry>
    decreases n,
{
    if n <= 1 {
        Seq::empty()
    } else {
        match app_in(chunks[n - 1]) {
            Some(a) => apps_in(chunks, n - 1).push(a),
            None => apps_in(chunks, n - 1),
        }
    }
}

/// The apps in a list.
pub open spec fn listed_apps(xml: Seq<char>) -> Seq<AppEntry> {
    let chunks = cut(xml, "<app "@);
    apps_in(chunks, chunks.len() as int)
}

/// An app or an input of a TV.
#[derive(Debug)]
pub struct App {
    pub id: String,
    pub kind: String,
    pub name: String,
}

pub open spec fn app_models(v: Seq<App>) -> Seq<AppEntry> {
    v.map_values(|a: App| AppEntry { id: a.id@, kind: a.kind@, name: a.name@ })
}

fn read_app(chunk: &[char]) -> (r: Option<App>)
    ensures
        match r {
            Some(a) => app_in(chunk@) == Some(AppEntry { id: a.id@, kind: a.kind@, name: a.name@ }),
            None => app_in(chunk@) is None,
        },
{
    match part_at(chunk, '>') {
        Some((attrs, rest)) => match xml_attr(attrs.as_slice(), "id") {
            Some(id) => {
                let kind = chars_or_empty(xml_attr(attrs.as_slice(), "type"));
                let b = text_before_mark(rest.as_slice(), "</app>");
                let t = trimmed(b.as_slice());
                let name = xml_unescape(t.as_slice());
                Some(
                    App {
                        id: string_of(id.as_slice()),
                        kind: string_of(kind.as_slice()),
                        name: string_of(name.as_slice()),
                    },
                )
            },
            None => None,
        },
        None => None,
    }
}

/// The apps in a list, each with its id, its kind and its name.
pub fn parse_apps(xml: &str) -> (r: Vec<App>)
    ensures
        app_models(r@) == listed_apps(xml@),
{
    let c = chars_of(xml);
    proof {
        reveal_strlit("<app ");
    }
    let chunks = cut_text(c.as_slice(), "<app ");
    let ghost m = views(chunks@);
    let mut out: Vec<App> = Vec::new();
    let mut i: usize = 1;
    proof {
        assert(app_models(out@) =~= Seq::<AppEntry>::empty());
    }
    while i < chunks.len()
        invariant
            1 <= i <= chunks@.len(),
            m == views(chunks@),
            app_models(out@) == apps_in(m, i as int),
        decreases chunks@.len() - i,
    {
        proof {
            assert(m[i as int] == chunks@[i as int]@);
        }
        match read_app(chunks[i].as_slice()) {
            Some(a) => {
                let ghost before = app_models(out@);
                out.push(a);
                proof {
                    assert(app_models(out@) =~= before.push(AppEntry { id: a.id@, kind: a.kind@, name: a.name@ }));
                }
            },
            None => {},
        }
        i = i + 1;
    }
    out
}

/// The address of the icon of an app.
pub open spec fn icon_of(ip: Seq<char>, id: Seq<char>) -> Seq<char> {
    "http://"@ + ip + ":8060/query/icon/"@ + id
}

fn icon_url(ip: &str, id: &str) -> (r: String)
    ensures
        r@ == icon_of(ip@, id@),
{
    "http://".to_string().concat(ip).concat(":8060/query/icon/").concat(id)
}

/// An app as something that a TV can show.
pub open spec fn shown_app(a: AppEntry, kind: Seq<char>, ip: Seq<char>) -> InputModel {
    InputModel { id: "app:"@ + a.id, label: a.name, kind, icon: Some(icon_of(ip, a.id)) }
}

/// The inputs among the first `n` apps.
pub open spec fn tv_inputs(apps: Seq<AppEntry>, n: int, ip: Seq<char>) -> Seq<InputModel>
    decreases n,
{
    if n <= 0 {
        Seq::empty()
    } else if apps[n - 1].kind == "tvin"@ {
        tv_inputs(apps, n - 1, ip).push(shown_app(apps[n - 1], "input"@, ip))
    } else {
        tv_inputs(apps, n - 1, ip)
    }
}

/// The others among them. The channel of our own is marked as the player.
pub open spec fn other_apps(apps: Seq<AppEntry>, n: int, ip: Seq<char>) -> Seq<InputModel>
    decreases n,
{
    if n <= 0 {
        Seq::empty()
    } else if apps[n - 1].kind == "tvin"@ {
        other_apps(apps, n - 1, ip)
    } else {
        other_apps(apps, n - 1, ip).push(
            shown_app(
                apps[n - 1],
                if apps[n - 1].id == "dev"@ {
                    "player"@
                } else {
                    "app"@
                },
                ip,
            ),
        )
    }
}

pub open spec fn plain_input(id: Seq<char>, label: Seq<char>) -> InputModel {
    InputModel { id, label, kind: "input"@, icon: None }
}

/// The inputs of a TV that does not list them.
pub open spec fn usual_inputs() -> Seq<InputModel> {
    seq![
        plain_input("key:InputTuner"@, "Live TV"@),
        plain_input("key:InputHDMI1"@, "HDMI 1"@),
        plain_input("key:InputHDMI2"@, "HDMI 2"@),
        plain_input("key:InputHDMI3"@, "HDMI 3"@),
        plain_input("key:InputHDMI4"@, "HDMI 4"@),
        plain_input("key:InputAV1"@, "AV"@),
    ]
}

/// What a TV can show: its inputs and then its apps, or the usual inputs if it
/// lists nothing.
pub open spec fn inputs_of(xml: Seq<char>, ip: Seq<char>) -> Seq<InputModel> {
    let apps = listed_apps(xml);
    if apps.len() == 0 {
        usual_inputs()
    } else {
        tv_inputs(apps, apps.len() as int, ip) + other_apps(apps, apps.len() as int, ip)
    }
}

fn push_input(out: &mut Vec<InputOption>, id: &str, label: &str, kind: &str, icon: Option<String>)
    ensures
        input_models(final(out)@) == input_models(old(out)@).push(
            InputModel { id: id@, label: label@, kind: kind@, icon: opt(icon) },
        ),
{
    let x = InputOption { id: id.to_string(), label: label.to_string(), kind: kind.to_string(), icon };
    let ghost m = input_model(x);
    out.push(x);
    proof {
        assert(input_models(out@) =~= input_models(old(out)@).push(m));
    }
}

fn push_app(out: &mut Vec<InputOption>, a: &App, kind: &str, ip: &str)
    ensures
        input_models(final(out)@) == input_models(old(out)@).push(
            shown_app(AppEntry { id: a.id@, kind: a.kind@, name: a.name@ }, kind@, ip@),
        ),
{
    let id = "app:".to_string().concat(a.id.as_str());
    push_input(out, id.as_str(), a.name.as_str(), kind, Some(icon_url(ip, a.id.as_str())));
}

fn fallback_inputs() -> (r: Vec<InputOption>)
    ensures
        input_models(r@) == usual_inputs(),
{
    let mut out: Vec<InputOption> = Vec::new();
    push_input(&mut out, "key:InputTuner", "Live TV", "input", None);
    push_input(&mut out, "key:InputHDMI1", "HDMI 1", "input", None);
    push_input(&mut out, "key:InputHDMI2", "HDMI 2", "input", None);
    push_input(&mut out, "key:InputHDMI3", "HDMI 3", "input", None);
    push_input(&mut out, "key:InputHDMI4", "HDMI 4", "input", None);
    push_input(&mut out, "key:InputAV1", "AV", "input", None);
    proof {
        assert(input_models(out@) =~= usual_inputs());
    }
    out
}

/// What a TV can show, from its list of apps.
pub fn list_inputs(xml: &str, ip: &str) -> (r: Vec<InputOption>)
    ensures
        input_models(r@) == inputs_of(xml@, ip@),
{
    let apps = parse_apps(xml);
    let ghost m = app_models(apps@);
    proof {
        assert(m.len() == apps@.len());
    }
    if apps.len() == 0 {
        return fallback_inputs();
    }
    let mut out: Vec<InputOption> = Vec::new();
    let mut i: usize = 0;
    proof {
        assert(input_models(out@) =~= Seq::<InputModel>::empty());
    }
    while i < apps.len()
        invariant
            i <= apps@.len(),
            m == app_models(apps@),
            input_models(out@) == tv_inputs(m, i as int, ip@),
        decreases apps@.len() - i,
    {
        proof {
            assert(m[i as int] == (AppEntry {
                id: apps@[i as int].id@,
                kind: apps@[i as int].kind@,
                name: apps@[i as int].name@,
            }));
        }
        if str_same(apps[i].kind.as_str(), "tvin") {
            push_app(&mut out, &apps[i], "input", ip);
        }
        i = i + 1;
    }
    let ghost first = input_models(out@);
    i = 0;
    proof {
        assert(first + other_apps(m, 0, ip@) =~= first);
    }
    while i < apps.len()
        invariant
            i <= apps@.len(),
            m == app_models(apps@),
            input_models(out@) == first + other_apps(m, i as int, ip@),
        decreases apps@.len() - i,
    {
        proof {
            assert(m[i as int] == (AppEntry {
                id: apps@[i as int].id@,
                kind: apps@[i as int].kind@,
                name: apps@[i as int].name@,
            }));
        }
        if !str_same(apps[i].kind.as_str(), "tvin") {
            let kind: &str = if str_same(apps[i].id.as_str(), "dev") {
                "player"
            } else {
                "app"
            };
            let ghost before = other_apps(m, i as int, ip@);
            push_app(&mut out, &apps[i], kind, ip);
            proof {
                let x = shown_app(m[i as int], kind@, ip@);
                assert((first + before).push(x) =~= first + before.push(x));
            }
        }
        i = i + 1;
    }
    out
}

/// The label of the first option with an id from the i-th on.
pub open spec fn label_from(inputs: Seq<InputModel>, id: Seq<char>, i: int) -> Option<Seq<char>>
    decreases inputs.len() - i,
{
    if i >= inputs.len() {
        None
    } else if inputs[i].id == id {
        Some(inputs[i].label)
    } else {
        label_from(inputs, id, i + 1)
    }
}

/// What an id says by itself.
pub open spec fn generic_label(id: Seq<char>) -> Option<Seq<char>> {
    if id == "tvinput.dtv"@ {
        Some("Live TV"@)
    } else if id == "tvinput.cvbs"@ {
        Some("AV"@)
    } else if starts(id, "tvinput.hdmi"@) {
        Some("HDMI "@ + id.skip("tvinput.hdmi"@.len() as int))
    } else {
        None
    }
}

/// What is on the screen: an option by its label, else what the id says, else the
/// name that the TV gives.
pub open spec fn active_name(xml: Seq<char>, inputs: Seq<InputModel>) -> Option<Seq<char>> {
    match element(xml, "<app"@) {
        Some((attrs, rest)) => {
            let name = unescaped(trim(before_text(rest, "</app>"@)));
            let id = or_empty(attribute(attrs, "id"@));
            if attribute(attrs, "type"@) == Some("home"@) || id.len() == 0 {
                Some("Home"@)
            } else if label_from(inputs, "app:"@ + id, 0) is Some {
                label_from(inputs, "app:"@ + id, 0)
            } else if generic_label(id) is Some {
                generic_label(id)
            } else {
                filled(Some(name))
            }
        },
        None => None,
    }
}

fn find_label(inputs: &Vec<InputOption>, id: &str) -> (r: Option<String>)
    ensures
        opt(r) == label_from(input_models(inputs@), id@, 0),
{
    let ghost m = input_models(inputs@);
    let mut i: usize = 0;
    while i < inputs.len()
        invariant
            i <= inputs@.len(),
            m == input_models(inputs@),
            label_from(m, id@, 0) == label_from(m, id@, i as int),
        decreases inputs@.len() - i,
    {
        proof {
            assert(m[i as int] == input_model(inputs@[i as int]));
        }
        if str_same(inputs[i].id.as_str(), id) {
            return Some(inputs[i].label.clone());
        }
        i = i + 1;
    }
    proof {
        assert(m.len() == inputs@.len());
    }
    None
}

fn label_of_id(id: &[char]) -> (r: Option<String>)
    ensures
        opt(r) == generic_label(id@),
{
    if crate::text::is_str(id, "tvinput.dtv") {
        Some("Live TV".to_string())
    } else if crate::text::is_str(id, "tvinput.cvbs") {
        Some("AV".to_string())
    } else {
        let p = chars_of("tvinput.hdmi");
        if crate::text::has_at(id, p.as_slice(), 0) {
            let rest = copy_range(id, p.len(), id.len());
            proof {
                assert(rest@ =~= id@.skip(p@.len() as int));
            }
            let t = string_of(rest.as_slice());
            Some("HDMI ".to_string().concat(t.as_str()))
        } else {
            None
        }
    }
}

/// What is on the screen.
pub fn active_label(xml: &[char], inputs: &Vec<InputOption>) -> (r: Option<String>)
    ensures
        opt(r) == active_name(xml@, input_models(inputs@)),
{
    proof {
        reveal_strlit("<app");
    }
    match first_element(xml, "<app") {
        None => None,
        Some((attrs, rest)) => {
            let id = chars_or_empty(xml_attr(attrs.as_slice(), "id"));
            let home: bool = match xml_attr(attrs.as_slice(), "type") {
                Some(k) => crate::text::is_str(k.as_slice(), "home"),
                None => false,
            };
            if home || id.len() == 0 {
                return Some("Home".to_string());
            }
            let t = string_of(id.as_slice());
            let key = "app:".to_string().concat(t.as_str());
            match find_label(inputs, key.as_str()) {
                Some(l) => {
                    return Some(l);
                },
                None => {},
            }
            match label_of_id(id.as_slice()) {
                Some(l) => {
                    return Some(l);
                },
                None => {},
            }
            let b = text_before_mark(rest.as_slice(), "</app>");
            let u = trimmed(b.as_slice());
            let name = xml_unescape(u.as_slice());
            if name.len() == 0 {
                None
            } else {
                Some(string_of(name.as_slice()))
            }
        },
    }
}

/// Whether an app runs only when nobody watches.
pub open spec fn is_screensaver(id: Seq<char>, name: Seq<char>) -> bool {
    let n = small_letters(name);
    id == "773622"@ || id == "123095"@ || contains(n, "screensaver"@) || contains(n, "screen saver"@) || n
        == "roku city"@
}

pub fn is_screensaver_app(id: &str, name: &str) -> (r: bool)
    ensures
        r == is_screensaver(id@, name@),
{
    let low = to_small_letters(name);
    let n = chars_of(low.as_str());
    let a = chars_of("screensaver");
    let b = chars_of("screen saver");
    str_same(id, "773622") || str_same(id, "123095") || contains_text(n.as_slice(), a.as_slice()) || contains_text(
        n.as_slice(),
        b.as_slice(),
    ) || str_same(low.as_str(), "roku city")
}

/// Where the first word of a text starts.
pub open spec fn word_start(s: Seq<char>, i: int) -> int
    decreases s.len() - i,
{
    if 0 <= i < s.len() && is_space(s[i]) {
        word_start(s, i + 1)
    } else {
        i
    }
}

/// Where the word ends that a position lies in.
pub open spec fn word_end(s: Seq<char>, i: int) -> int
    decreases s.len() - i,
{
    if 0 <= i < s.len() && !is_space(s[i]) {
        word_end(s, i + 1)
    } else {
        i
    }
}

/// The number with which a text starts, as in `12345 ms`.
pub open spec fn first_number(s: Seq<char>) -> Option<u64> {
    let a = word_start(s, 0);
    match within(parse_nat(s.subrange(a, word_end(s, a))), 0, u64::MAX as int) {
        Some(n) => Some(n as u64),
        None => None,
    }
}

/// The number with which a text starts.
pub fn parse_ms(s: &[char]) -> (r: Option<u64>)
    ensures
        r == first_number(s@),
{
    let mut a: usize = 0;
    while a < s.len() && space(s[a])
        invariant
            a <= s@.len(),
            word_start(s@, 0) == word_start(s@, a as int),
        decreases s@.len() - a,
    {
        a = a + 1;
    }
    let mut b: usize = a;
    while b < s.len() && !space(s[b])
        invariant
            a <= b <= s@.len(),
            word_end(s@, a as int) == word_end(s@, b as int),
        decreases s@.len() - b,
    {
        b = b + 1;
    }
    let w = copy_range(s, a, b);
    parse_unsigned(w.as_slice(), u64::MAX)
}

/// What a TV says of the channel it is tuned to: number, name and programme.
pub open spec fn channel_text(xml: Seq<char>) -> Option<Seq<char>> {
    let number = filled(tag(xml, "number"@));
    let name = filled(tag(xml, "name"@));
    let program = filled(tag(xml, "program-title"@));
    let channel = match (number, name) {
        (Some(a), Some(b)) => Some(a + " "@ + b),
        (Some(a), None) => Some(a),
        (None, b) => b,
    };
    match (channel, program) {
        (Some(c), Some(p)) => Some(c + " \u{b7} "@ + p),
        (Some(c), None) => Some(c),
        (None, p) => p,
    }
}

fn join_filled(a: Option<Vec<char>>, mid: &str, b: Option<Vec<char>>) -> (r: Option<Vec<char>>)
    ensures
        opt_chars(r) == (match (opt_chars(a), opt_chars(b)) {
            (Some(x), Some(y)) => Some(x + mid@ + y),
            (Some(x), None) => Some(x),
            (None, y) => y,
        }),
{
    match a {
        Some(x) => match b {
            Some(y) => {
                let mut v = x;
                let mut m = chars_of(mid);
                let mut y2 = y;
                v.append(&mut m);
                v.append(&mut y2);
                Some(v)
            },
            None => Some(x),
        },
        None => b,
    }
}

fn channel_detail(xml: &[char]) -> (r: Option<String>)
    ensures
        opt(r) == channel_text(xml@),
{
    let number = keep_filled(xml_tag(xml, "number"));
    let name = keep_filled(xml_tag(xml, "name"));
    let program = keep_filled(xml_tag(xml, "program-title"));
    let channel = join_filled(number, " ", name);
    match join_filled(channel, " \u{b7} ", program) {
        Some(v) => Some(string_of(v.as_slice())),
        None => None,
    }
}

// ---------------------------------------------------------------------------
// The state of a TV
// ---------------------------------------------------------------------------

/// What a TV answered. `player` is none if it refuses the question.
pub struct Answers {
    pub info: Seq<char>,
    pub player: Option<Seq<char>>,
    pub active: Seq<char>,
    pub channel: Option<Seq<char>>,
}

pub open spec fn is_tv(info: Seq<char>) -> bool {
    tag(info, "is-tv"@) == Some("true"@)
}

/// The id and the kind of what is on the screen.
pub open spec fn active_app(active: Seq<char>) -> (Seq<char>, Seq<char>) {
    match element(active, "<app"@) {
        Some((attrs, _)) => (or_empty(attribute(attrs, "id"@)), or_empty(attribute(attrs, "type"@))),
        None => (Seq::empty(), Seq::empty()),
    }
}

/// What the player of an app says it does.
pub open spec fn player_state(player: Option<Seq<char>>) -> Seq<char> {
    match player {
        Some(x) => match element(x, "<player"@) {
            Some((attrs, _)) => or_empty(attribute(attrs, "state"@)),
            None => Seq::empty(),
        },
        None => Seq::empty(),
    }
}

/// Whether an app plays or is paused.
pub open spec fn app_plays(a: Answers) -> bool {
    active_app(a.active).1 == "appl"@ && (player_state(a.player) == "play"@ || player_state(a.player) == "pause"@)
}

/// Whether the screen is on, of a TV that says so. Every other mode is off.
pub open spec fn power_of(info: Seq<char>) -> Option<bool> {
    if is_tv(info) {
        match tag(info, "power-mode"@) {
            Some(p) => Some(p == "PowerOn"@),
            None => None,
        }
    } else {
        None
    }
}

/// What a TV does. An app that reports no playback is not taken to be idle: some
/// play without saying so.
pub open spec fn activity_of(a: Answers, showing: Option<Seq<char>>) -> Option<Activity> {
    let (id, kind) = active_app(a.active);
    let state = player_state(a.player);
    if power_of(a.info) == Some(false) {
        Some(Activity::Off)
    } else if contains(a.active, "<screensaver"@) || kind == "ssvr"@ || (state != "play"@ && is_screensaver(
        id,
        or_empty(showing),
    )) {
        Some(Activity::Screensaver)
    } else if kind == "home"@ {
        Some(Activity::Home)
    } else if id == "tvinput.dtv"@ {
        Some(Activity::LiveTv)
    } else if kind == "tvin"@ {
        Some(Activity::Input)
    } else if state == "play"@ {
        Some(Activity::Playing)
    } else if state == "pause"@ {
        Some(Activity::Paused)
    } else if state == "buffer"@ || state == "startup"@ {
        Some(Activity::Loading)
    } else if kind == "appl"@ {
        Some(Activity::App)
    } else {
        None
    }
}

/// The maker and the model of a TV.
pub open spec fn model_of(info: Seq<char>) -> Option<Seq<char>> {
    match (tag(info, "vendor-name"@), tag(info, "model-name"@)) {
        (Some(v), Some(m)) => if v.len() > 0 {
            Some(v + " "@ + m)
        } else {
            Some(m)
        },
        (_, m) => m,
    }
}

pub open spec fn detail_of(a: Answers) -> Option<Seq<char>> {
    if active_app(a.active).0 == "tvinput.dtv"@ {
        match a.channel {
            Some(x) => channel_text(x),
            None => None,
        }
    } else if app_plays(a) {
        Some(
            if player_state(a.player) == "play"@ {
                "Playing"@
            } else {
                "Paused"@
            },
        )
    } else {
        None
    }
}

/// The time in an element of what the player says.
pub open spec fn player_time(a: Answers, name: Seq<char>) -> Option<u64> {
    if app_plays(a) && a.player is Some {
        match tag(a.player->0, name) {
            Some(v) => first_number(v),
            None => None,
        }
    } else {
        None
    }
}

pub open spec fn icon_shown(active: Seq<char>, ip: Seq<char>) -> Option<Seq<char>> {
    let (id, kind) = active_app(active);
    if id.len() > 0 && kind != "home"@ {
        Some(icon_of(ip, id))
    } else {
        None
    }
}

/// Whether the channel of our own is among the options or on the screen.
pub open spec fn has_player(inputs: Seq<InputModel>, active: Seq<char>) -> bool {
    (exists|i: int| 0 <= i < inputs.len() && (#[trigger] inputs[i]).id == "app:dev"@) || active_app(active).0
        == "dev"@
}

/// The state of a TV from its answers. `known` are the options that it last
/// listed; a device that is no TV offers none. `wall` is the time of the answers.
pub open spec fn status_of(a: Answers, known: Seq<InputModel>, ip: Seq<char>, wall: i64) -> TvModel {
    let inputs = if is_tv(a.info) {
        known
    } else {
        Seq::empty()
    };
    let showing = active_name(a.active, inputs);
    let position = player_time(a, "position"@);
    TvModel {
        restricted: a.player is None,
        has_power: is_tv(a.info),
        dev_mode: tag(a.info, "developer-enabled"@) == Some("true"@),
        player_ready: has_player(known, a.active),
        power: power_of(a.info),
        showing,
        showing_icon: icon_shown(a.active, ip),
        showing_detail: detail_of(a),
        activity: activity_of(a, showing),
        position_ms: position,
        duration_ms: player_time(a, "duration"@),
        position_at: if position is Some {
            Some(wall)
        } else {
            None
        },
        is_live: app_plays(a) && a.player is Some && tag(a.player->0, "is_live"@) == Some("true"@),
        inputs,
        headphones: tag(a.info, "headphones-connected"@) == Some("true"@),
        model: model_of(a.info),
        firmware: match tag(a.info, "software-version"@) {
            Some(v) => Some("Roku OS "@ + v),
            None => None,
        },
    }
}

/// The answers of a TV, as they came.
#[derive(Debug)]
pub struct Replies {
    pub info: String,
    pub player: Option<String>,
    pub active: String,
    pub channel: Option<String>,
}

impl Replies {
    pub open spec fn model(self) -> Answers {
        Answers { info: self.info@, player: opt(self.player), active: self.active@, channel: opt(self.channel) }
    }
}

/// What the player said, of the status of the answer and its text: nothing if the
/// TV refuses such questions.
pub fn player_reply(code: u16, text: String) -> (r: Option<String>)
    ensures
        r == (if code == 403 || contains(text@, "Limited mode"@) {
            None
        } else {
            Some(text)
        }),
{
    let c = chars_of(text.as_str());
    let l = chars_of("Limited mode");
    if code == 403 || contains_text(c.as_slice(), l.as_slice()) {
        None
    } else {
        Some(text)
    }
}

fn find_active(active: &[char]) -> (r: (Vec<char>, Vec<char>))
    ensures
        (r.0@, r.1@) == active_app(active@),
{
    proof {
        reveal_strlit("<app");
    }
    match first_element(active, "<app") {
        Some((attrs, _)) => {
            (
                chars_or_empty(xml_attr(attrs.as_slice(), "id")),
                chars_or_empty(xml_attr(attrs.as_slice(), "type")),
            )
        },
        None => (Vec::new(), Vec::new()),
    }
}

/// Whether a TV shows a broadcast, so that it is asked for the channel.
pub fn wants_channel(active: &str) -> (r: bool)
    ensures
        r == (active_app(active@).0 == "tvinput.dtv"@),
{
    let c = chars_of(active);
    let (id, _) = find_active(c.as_slice());
    crate::text::is_str(id.as_slice(), "tvinput.dtv")
}

fn find_player_state(player: &Option<String>) -> (r: Vec<char>)
    ensures
        r@ == player_state(opt(*player)),
{
    proof {
        reveal_strlit("<player");
    }
    match player {
        Some(x) => {
            let c = chars_of(x.as_str());
            match first_element(c.as_slice(), "<player") {
                Some((attrs, _)) => chars_or_empty(xml_attr(attrs.as_slice(), "state")),
                None => Vec::new(),
            }
        },
        None => Vec::new(),
    }
}

fn find_power(info: &[char], tv: bool) -> (r: Option<bool>)
    requires
        tv == is_tv(info@),
    ensures
        r == power_of(info@),
{
    if tv {
        match xml_tag(info, "power-mode") {
            Some(p) => Some(crate::text::is_str(p.as_slice(), "PowerOn")),
            None => None,
        }
    } else {
        None
    }
}

fn find_activity(
    power: Option<bool>,
    active: &[char],
    id: &Vec<char>,
    kind: &Vec<char>,
    state: &Vec<char>,
    showing: &Option<String>,
    Ghost(a): Ghost<Answers>,
) -> (r: Option<Activity>)
    requires
        power == power_of(a.info),
        active@ == a.active,
        (id@, kind@) == active_app(a.active),
        state@ == player_state(a.player),
    ensures
        r == activity_of(a, opt(*showing)),
{
    let off: bool = match power {
        Some(p) => !p,
        None => false,
    };
    if off {
        return Some(Activity::Off);
    }
    let mark = chars_of("<screensaver");
    let plays: bool = crate::text::is_str(state.as_slice(), "play");
    let shown = match showing {
        Some(s) => s.clone(),
        None => String::new(),
    };
    proof {
        assert(shown@ =~= or_empty(opt(*showing)));
    }
    let id_text = string_of(id.as_slice());
    if contains_text(active, mark.as_slice()) || crate::text::is_str(kind.as_slice(), "ssvr") || (!plays
        && is_screensaver_app(id_text.as_str(), shown.as_str())) {
        return Some(Activity::Screensaver);
    }
    if crate::text::is_str(kind.as_slice(), "home") {
        Some(Activity::Home)
    } else if crate::text::is_str(id.as_slice(), "tvinput.dtv") {
        Some(Activity::LiveTv)
    } else if crate::text::is_str(kind.as_slice(), "tvin") {
        Some(Activity::Input)
    } else if plays {
        Some(Activity::Playing)
    } else if crate::text::is_str(state.as_slice(), "pause") {
        Some(Activity::Paused)
    } else if crate::text::is_str(state.as_slice(), "buffer") || crate::text::is_str(state.as_slice(), "startup") {
        Some(Activity::Loading)
    } else if crate::text::is_str(kind.as_slice(), "appl") {
        Some(Activity::App)
    } else {
        None
    }
}

fn find_model(info: &[char]) -> (r: Option<String>)
    ensures
        opt(r) == model_of(info@),
{
    let vendor = tag_string(info, "vendor-name");
    let model = tag_string(info, "model-name");
    match (vendor, model) {
        (Some(v), Some(m)) => {
            if !is_empty(v.as_str()) {
                Some(v.concat(" ").concat(m.as_str()))
            } else {
                Some(m)
            }
        },
        (_, m) => m,
    }
}

fn find_time(player: &Option<String>, name: &str) -> (r: Option<u64>)
    ensures
        r == (match opt(*player) {
            Some(x) => match tag(x, name@) {
                Some(v) => first_number(v),
                None => None,
            },
            None => None,
        }),
{
    match player {
        Some(x) => {
            let c = chars_of(x.as_str());
            match xml_tag(c.as_slice(), name) {
                Some(v) => parse_ms(v.as_slice()),
                None => None,
            }
        },
        None => None,
    }
}

fn lists_player(inputs: &Vec<InputOption>) -> (r: bool)
    ensures
        r == exists|i: int| 0 <= i < inputs@.len() && (#[trigger] input_models(inputs@)[i]).id == "app:dev"@,
{
    let ghost m = input_models(inputs@);
    let mut i: usize = 0;
    while i < inputs.len()
        invariant
            i <= inputs@.len(),
            m == input_models(inputs@),
            forall|k: int| 0 <= k < i ==> (#[trigger] m[k]).id != "app:dev"@,
        decreases inputs@.len() - i,
    {
        proof {
            assert(m[i as int] == input_model(inputs@[i as int]));
        }
        if str_same(inputs[i].id.as_str(), "app:dev") {
            return true;
        }
        i = i + 1;
    }
    false
}

pub fn copy_inputs(v: &Vec<InputOption>) -> (r: Vec<InputOption>)
    ensures
        input_models(r@) == input_models(v@),
{
    let mut out: Vec<InputOption> = Vec::new();
    let mut i: usize = 0;
    while i < v.len()
        invariant
            i <= v@.len(),
            input_models(out@) =~= input_models(v@).take(i as int),
        decreases v@.len() - i,
    {
        let ghost before = input_models(out@);
        let x = InputOption {
            id: v[i].id.clone(),
            label: v[i].label.clone(),
            kind: v[i].kind.clone(),
            icon: copy_opt(&v[i].icon),
        };
        out.push(x);
        proof {
            assert(input_models(out@) =~= before.push(input_model(v@[i as int])));
        }
        i = i + 1;
    }
    proof {
        assert(input_models(v@).take(v@.len() as int) =~= input_models(v@));
    }
    out
}

/// The state of a TV from its answers.
pub fn tv_status(replies: &Replies, known: &Vec<InputOption>, ip: &str, wall: i64) -> (r: TvStatus)
    ensures
        tv_model(r) == status_of(replies.model(), input_models(known@), ip@, wall),
{
    let ghost a = replies.model();
    let info_c = chars_of(replies.info.as_str());
    let info = info_c.as_slice();
    let active_c = chars_of(replies.active.as_str());
    let active = active_c.as_slice();
    let tv: bool = tag_is(info, "is-tv", "true");
    let inputs: Vec<InputOption> = if tv {
        copy_inputs(known)
    } else {
        Vec::new()
    };
    proof {
        if !tv {
            assert(input_models(inputs@) =~= Seq::<InputModel>::empty());
        }
        assert(input_models(known@).len() == known@.len());
    }
    let (id, kind) = find_active(active);
    let showing = active_label(active, &inputs);
    let id_text = string_of(id.as_slice());
    let showing_icon = if id.len() > 0 && !crate::text::is_str(kind.as_slice(), "home") {
        Some(icon_url(ip, id_text.as_str()))
    } else {
        None
    };
    let state = find_player_state(&replies.player);
    let plays: bool = crate::text::is_str(state.as_slice(), "play");
    let app_playing: bool = crate::text::is_str(kind.as_slice(), "appl") && (plays || crate::text::is_str(
        state.as_slice(),
        "pause",
    ));
    let showing_detail = if crate::text::is_str(id.as_slice(), "tvinput.dtv") {
        match &replies.channel {
            Some(x) => {
                let c = chars_of(x.as_str());
                channel_detail(c.as_slice())
            },
            None => None,
        }
    } else if app_playing {
        Some(
            if plays {
                "Playing".to_string()
            } else {
                "Paused".to_string()
            },
        )
    } else {
        None
    };
    let power = find_power(info, tv);
    let activity = find_activity(power, active, &id, &kind, &state, &showing, Ghost(a));
    let position_ms = if app_playing {
        find_time(&replies.player, "position")
    } else {
        None
    };
    let duration_ms = if app_playing {
        find_time(&replies.player, "duration")
    } else {
        None
    };
    let is_live: bool = if app_playing {
        match &replies.player {
            Some(x) => {
                let c = chars_of(x.as_str());
                tag_is(c.as_slice(), "is_live", "true")
            },
            None => false,
        }
    } else {
        false
    };
    let firmware = match tag_string(info, "software-version") {
        Some(v) => Some("Roku OS ".to_string().concat(v.as_str())),
        None => None,
    };
    TvStatus {
        restricted: replies.player.is_none(),
        has_power: tv,
        dev_mode: tag_is(info, "developer-enabled", "true"),
        player_ready: lists_player(known) || crate::text::is_str(id.as_slice(), "dev"),
        power,
        showing,
        showing_icon,
        showing_detail,
        activity,
        position_ms,
        duration_ms,
        position_at: match position_ms {
            Some(_) => Some(wall),
            None => None,
        },
        is_live,
        inputs,
        headphones: tag_is(info, "headphones-connected", "true"),
        model: find_model(info),
        firmware,
    }
}

// ---------------------------------------------------------------------------
// Watching a TV
// ---------------------------------------------------------------------------

/// What was last reported of a TV, so that only changes are.
#[derive(Debug)]
pub struct Seen {
    pub online: bool,
    pub tv: TvStatus,
    /// The addresses by which it is woken, as last reported.
    pub macs: Vec<String>,
    pub media: Option<MediaInfo>,
    /// What it can show. The list changes rarely and is read once a minute.
    pub inputs: Vec<InputOption>,
    pub inputs_at: Option<i64>,
    /// The addresses that are known.
    pub known_macs: Vec<String>,
}

pub struct SeenModel {
    pub online: bool,
    pub tv: TvModel,
    pub macs: Seq<Seq<char>>,
    pub media: Option<MediaModel>,
    pub inputs: Seq<InputModel>,
    pub inputs_at: Option<i64>,
    pub known_macs: Seq<Seq<char>>,
}

impl Seen {
    pub open spec fn model(self) -> SeenModel {
        SeenModel {
            online: self.online,
            tv: tv_model(self.tv),
            macs: texts(self.macs@),
            media: opt_media(self.media),
            inputs: input_models(self.inputs@),
            inputs_at: self.inputs_at,
            known_macs: texts(self.known_macs@),
        }
    }

    /// Of a TV that was not heard of yet. `macs` are the addresses known from before.
    pub fn new(macs: Vec<String>) -> (r: Seen)
        ensures
            r.model() == (SeenModel {
                online: false,
                tv: no_status(),
                macs: Seq::empty(),
                media: None,
                inputs: Seq::empty(),
                inputs_at: None,
                known_macs: texts(macs@),
            }),
    {
        let none: Vec<String> = Vec::new();
        let inputs: Vec<InputOption> = Vec::new();
        proof {
            assert(texts(none@) =~= Seq::<Seq<char>>::empty());
            assert(input_models(inputs@) =~= Seq::<InputModel>::empty());
        }
        Seen {
            online: false,
            tv: TvStatus::unknown(),
            macs: none,
            media: None,
            inputs,
            inputs_at: None,
            known_macs: macs,
        }
    }
}

/// A list of addresses with another, unless it is empty or there already.
pub open spec fn with_mac(macs: Seq<Seq<char>>, mac: Option<Seq<char>>) -> Seq<Seq<char>> {
    match mac {
        Some(m) => if m.len() > 0 && !macs.contains(m) {
            macs.push(m)
        } else {
            macs
        },
        None => macs,
    }
}

/// The known addresses and those that a TV names.
pub open spec fn macs_after(macs: Seq<Seq<char>>, info: Seq<char>) -> Seq<Seq<char>> {
    with_mac(with_mac(macs, tag(info, "wifi-mac"@)), tag(info, "ethernet-mac"@))
}

/// Whether the list of what a TV can show is due: once a minute.
pub open spec fn inputs_due(inputs_at: Option<i64>, now: int) -> bool {
    match inputs_at {
        Some(t) => now - t > 60_000,
        None => true,
    }
}

/// Whether a TV is asked for its list.
pub fn wants_inputs(seen: &Seen, info: &str, now: i64) -> (r: bool)
    ensures
        r == (is_tv(info@) && inputs_due(seen.inputs_at, now as int)),
{
    let c = chars_of(info);
    tag_is(c.as_slice(), "is-tv", "true") && match seen.inputs_at {
        Some(t) => now as i128 - t as i128 > 60_000,
        None => true,
    }
}

/// What plays: an app of a TV that says it plays or is paused.
pub open spec fn media_of(a: Answers, showing: Option<Seq<char>>, ip: Seq<char>) -> Option<MediaModel> {
    if app_plays(a) {
        Some(
            MediaModel {
                state: if player_state(a.player) == "play"@ {
                    StateModel::Playing
                } else {
                    StateModel::Paused
                },
                title: None,
                artist: None,
                app: showing,
                supports_transport: true,
                album: None,
                image: icon_shown(a.active, ip),
                position_ms: None,
                duration_ms: None,
                position_at: None,
                content_id: None,
                content_type: None,
            },
        )
    } else {
        None
    }
}

/// Whether what plays is reported again: its state or its app is another.
pub open spec fn media_changed(a: Option<MediaModel>, b: Option<MediaModel>) -> bool {
    match (a, b) {
        (Some(x), Some(y)) => x.state != y.state || x.app != y.app,
        (None, None) => false,
        _ => true,
    }
}

/// What the answers of a TV change, and what is reported of it.
pub open spec fn polled(
    s: SeenModel,
    me: Seq<char>,
    ip: Seq<char>,
    info: Option<Answers>,
    apps: Seq<char>,
    now: i64,
    wall: i64,
) -> (SeenModel, Seq<EventModel>) {
    let first = if (info is Some) != s.online {
        seq![EventModel::Online(me, info is Some)]
    } else {
        Seq::empty()
    };
    let s1 = SeenModel { online: info is Some, ..s };
    match info {
        Some(a) => {
            let macs = macs_after(s.known_macs, a.info);
            let s2 = SeenModel { known_macs: macs, ..s1 };
            let s3 = if is_tv(a.info) && inputs_due(s.inputs_at, now as int) {
                SeenModel { inputs: inputs_of(apps, ip), inputs_at: Some(now), ..s2 }
            } else {
                s2
            };
            let tv = status_of(a, s3.inputs, ip, wall);
            let changed = tv != s3.tv || macs != s3.macs;
            let s4 = if changed {
                SeenModel { tv, macs, ..s3 }
            } else {
                s3
            };
            let out = if changed {
                first.push(EventModel::Status(me, tv, macs))
            } else {
                first
            };
            let media = media_of(a, s4.tv.showing, ip);
            if media_changed(media, s4.media) {
                (SeenModel { media, ..s4 }, out.push(EventModel::Media(me, media)))
            } else {
                (s4, out)
            }
        },
        None => (s1, first),
    }
}

fn add_mac(list: &mut Vec<String>, mac: Option<Vec<char>>)
    ensures
        texts(final(list)@) == with_mac(texts(old(list)@), opt_chars(mac)),
{
    match mac {
        Some(m) => {
            let t = string_of(m.as_slice());
            if m.len() > 0 && !has_text(list, t.as_str()) {
                list.push(t);
                proof {
                    assert(texts(list@) =~= texts(old(list)@).push(m@));
                }
            }
        },
        None => {},
    }
}

fn same_inputs(a: &Vec<InputOption>, b: &Vec<InputOption>) -> (r: bool)
    ensures
        r == (input_models(a@) == input_models(b@)),
{
    let ghost x = input_models(a@);
    let ghost y = input_models(b@);
    proof {
        assert(x.len() == a@.len());
        assert(y.len() == b@.len());
    }
    if a.len() != b.len() {
        return false;
    }
    let mut i: usize = 0;
    while i < a.len()
        invariant
            i <= a@.len(),
            a@.len() == b@.len(),
            x == input_models(a@),
            y == input_models(b@),
            forall|k: int| 0 <= k < i ==> #[trigger] x[k] == y[k],
        decreases a@.len() - i,
    {
        proof {
            assert(x[i as int] == input_model(a@[i as int]));
            assert(y[i as int] == input_model(b@[i as int]));
        }
        let p = &a[i];
        let q = &b[i];
        if !(str_same(p.id.as_str(), q.id.as_str()) && str_same(p.label.as_str(), q.label.as_str()) && str_same(
            p.kind.as_str(),
            q.kind.as_str(),
        ) && same_opt(&p.icon, &q.icon)) {
            return false;
        }
        i = i + 1;
    }
    proof {
        assert(x =~= y);
    }
    true
}

/// Whether two states are the same.
pub fn same_status(a: &TvStatus, b: &TvStatus) -> (r: bool)
    ensures
        r == (tv_model(*a) == tv_model(*b)),
{
    a.restricted == b.restricted && a.has_power == b.has_power && a.dev_mode == b.dev_mode && a.player_ready
        == b.player_ready && a.power == b.power && same_opt(&a.showing, &b.showing) && same_opt(
        &a.showing_icon,
        &b.showing_icon,
    ) && same_opt(&a.showing_detail, &b.showing_detail) && a.activity == b.activity && a.position_ms == b.position_ms
        && a.duration_ms == b.duration_ms && a.position_at == b.position_at && a.is_live == b.is_live && same_inputs(
        &a.inputs,
        &b.inputs,
    ) && a.headphones == b.headphones && same_opt(&a.model, &b.model) && same_opt(&a.firmware, &b.firmware)
}

/// A copy of the state of a TV.
pub fn copy_status(t: &TvStatus) -> (r: TvStatus)
    ensures
        tv_model(r) == tv_model(*t),
{
    TvStatus {
        restricted: t.restricted,
        has_power: t.has_power,
        dev_mode: t.dev_mode,
        player_ready: t.player_ready,
        power: t.power,
        showing: copy_opt(&t.showing),
        showing_icon: copy_opt(&t.showing_icon),
        showing_detail: copy_opt(&t.showing_detail),
        activity: t.activity,
        position_ms: t.position_ms,
        duration_ms: t.duration_ms,
        position_at: t.position_at,
        is_live: t.is_live,
        inputs: copy_inputs(&t.inputs),
        headphones: t.headphones,
        model: copy_opt(&t.model),
        firmware: copy_opt(&t.firmware),
    }
}

fn find_media(replies: &Replies, showing: &Option<String>, ip: &str) -> (r: Option<MediaInfo>)
    ensures
        opt_media(r) == media_of(replies.model(), opt(*showing), ip@),
{
    let active_c = chars_of(replies.active.as_str());
    let (id, kind) = find_active(active_c.as_slice());
    let state = find_player_state(&replies.player);
    let plays: bool = crate::text::is_str(state.as_slice(), "play");
    if !(crate::text::is_str(kind.as_slice(), "appl") && (plays || crate::text::is_str(state.as_slice(), "pause"))) {
        return None;
    }
    let id_text = string_of(id.as_slice());
    let image = if id.len() > 0 && !crate::text::is_str(kind.as_slice(), "home") {
        Some(icon_url(ip, id_text.as_str()))
    } else {
        None
    };
    Some(
        MediaInfo {
            state: if plays {
                PlayState::Playing
            } else {
                PlayState::Paused
            },
            title: None,
            artist: None,
            app: copy_opt(showing),
            supports_transport: true,
            album: None,
            image,
            position_ms: None,
            duration_ms: None,
            position_at: None,
            content_id: None,
            content_type: None,
        },
    )
}

fn copy_media(m: &MediaInfo) -> (r: MediaInfo)
    ensures
        media_model(r) == media_model(*m),
{
    MediaInfo {
        state: m.state.copy(),
        title: copy_opt(&m.title),
        artist: copy_opt(&m.artist),
        app: copy_opt(&m.app),
        supports_transport: m.supports_transport,
        album: copy_opt(&m.album),
        image: copy_opt(&m.image),
        position_ms: m.position_ms,
        duration_ms: m.duration_ms,
        position_at: m.position_at,
        content_id: copy_opt(&m.content_id),
        content_type: copy_opt(&m.content_type),
    }
}

fn media_differs(a: &Option<MediaInfo>, b: &Option<MediaInfo>) -> (r: bool)
    ensures
        r == media_changed(opt_media(*a), opt_media(*b)),
{
    match (a, b) {
        (Some(x), Some(y)) => {
            !x.state.same(&y.state) || !same_opt(&x.app, &y.app)
        },
        (None, None) => false,
        _ => true,
    }
}

/// Takes in the answers of the TV `id`, none if it did not answer. `apps` is its
/// list, which is read if it was due.
pub fn poll(
    seen: &mut Seen,
    id: &str,
    ip: &str,
    replies: Option<Replies>,
    apps: &str,
    now: i64,
    wall: i64,
) -> (out: Vec<CoreEvent>)
    ensures
        ({
            let info = match replies {
                Some(x) => Some(x.model()),
                None => None,
            };
            &&& final(seen).model() == polled(old(seen).model(), id@, ip@, info, apps@, now, wall).0
            &&& event_models(out@) == polled(old(seen).model(), id@, ip@, info, apps@, now, wall).1
        }),
{
    let mut out: Vec<CoreEvent> = Vec::new();
    proof {
        assert(event_models(out@) =~= Seq::<EventModel>::empty());
    }
    let ok: bool = replies.is_some();
    if ok != seen.online {
        seen.online = ok;
        push_event(&mut out, CoreEvent::Online { id: id.to_string(), online: ok });
        proof {
            assert(event_models(out@) =~= seq![EventModel::Online(id@, ok)]);
        }
    }
    match replies {
        None => {},
        Some(x) => {
            let due: bool = wants_inputs(seen, x.info.as_str(), now);
            let info = chars_of(x.info.as_str());
            let wifi = xml_tag(info.as_slice(), "wifi-mac");
            let wired = xml_tag(info.as_slice(), "ethernet-mac");
            add_mac(&mut seen.known_macs, wifi);
            add_mac(&mut seen.known_macs, wired);
            if due {
                seen.inputs = list_inputs(apps, ip);
                seen.inputs_at = Some(now);
            }
            let tv = tv_status(&x, &seen.inputs, ip, wall);
            if !same_status(&tv, &seen.tv) || !same_texts(&seen.known_macs, &seen.macs) {
                seen.tv = copy_status(&tv);
                seen.macs = copy_texts(&seen.known_macs);
                push_event(
                    &mut out,
                    CoreEvent::DeviceStatus { id: id.to_string(), tv, macs: copy_texts(&seen.known_macs) },
                );
            }
            let media = find_media(&x, &seen.tv.showing, ip);
            if media_differs(&media, &seen.media) {
                let again = match &media {
                    Some(m) => Some(copy_media(m)),
                    None => None,
                };
                seen.media = media;
                push_event(&mut out, CoreEvent::MediaChanged { id: id.to_string(), media: again });
            }
        },
    }
    out
}

/// When a TV gives the same answers again, nothing is reported.
pub proof fn law_same_answers_are_reported_once(
    s: SeenModel,
    me: Seq<char>,
    ip: Seq<char>,
    a: Answers,
    apps: Seq<char>,
    now: i64,
    later: i64,
    wall: i64,
)
    requires
        !inputs_due(polled(s, me, ip, Some(a), apps, now, wall).0.inputs_at, later as int),
    ensures
        polled(polled(s, me, ip, Some(a), apps, now, wall).0, me, ip, Some(a), apps, later, wall).1 == Seq::<
            EventModel,
        >::empty(),
{
    let s1 = polled(s, me, ip, Some(a), apps, now, wall).0;
    let wifi = tag(a.info, "wifi-mac"@);
    let wired = tag(a.info, "ethernet-mac"@);
    let m0 = with_mac(s.known_macs, wifi);
    let m1 = with_mac(m0, wired);
    assert(s1.known_macs == m1);
    if wifi is Some && (wifi->0).len() > 0 {
        assert(m0.contains(wifi->0)) by {
            if !s.known_macs.contains(wifi->0) {
                assert(m0[m0.len() - 1] == wifi->0);
            }
        }
        let i = choose|i: int| 0 <= i < m0.len() && m0[i] == wifi->0;
        assert(m1[i] == wifi->0);
    }
    if wired is Some && (wired->0).len() > 0 {
        assert(m1.contains(wired->0)) by {
            if !m0.contains(wired->0) {
                assert(m1[m1.len() - 1] == wired->0);
            }
        }
    }
    assert(macs_after(m1, a.info) == m1);
}


/// An app of a TV that plays or is paused counts as a session, so that it shows among
/// what plays now.
pub proof fn law_playing_app_is_a_session(d: DeviceInfo, a: Answers, showing: Option<Seq<char>>, ip: Seq<char>)
    requires
        app_plays(a),
        d.online,
        opt_media(d.media) == media_of(a, showing, ip),
    ensures
        is_session(d),
        is_playing(d.media->0.state) == (player_state(a.player) == "play"@),
{
    law_what_plays_is_a_session(d, media_of(a, showing, ip)->0);
}

/// What a TV is said to do. One that is off is off, whatever else it says. One that is on shows
/// its home screen, its tuner or another input as it says; while an app is up it plays, is
/// paused or loads as its player says, and else the app is just there.
pub proof fn law_what_a_tv_does(a: Answers, showing: Option<Seq<char>>)
    ensures
        power_of(a.info) == Some(false) <==> activity_of(a, showing) == Some(Activity::Off),
        ({
            let (id, kind) = active_app(a.active);
            let state = player_state(a.player);
            let calm = power_of(a.info) != Some(false) && !contains(a.active, "<screensaver"@) && !is_screensaver(
                id,
                or_empty(showing),
            );
            &&& power_of(a.info) != Some(false) && contains(a.active, "<screensaver"@) ==> activity_of(a, showing) == Some(
                Activity::Screensaver,
            )
            &&& calm && kind == "home"@ ==> activity_of(a, showing) == Some(Activity::Home)
            &&& calm && kind == "appl"@ && id == "tvinput.dtv"@ ==> activity_of(a, showing) == Some(Activity::LiveTv)
            &&& calm && kind == "tvin"@ && id != "tvinput.dtv"@ ==> activity_of(a, showing) == Some(Activity::Input)
            &&& calm && kind == "appl"@ && id != "tvinput.dtv"@ ==> ({
                &&& state == "play"@ ==> activity_of(a, showing) == Some(Activity::Playing)
                &&& state == "pause"@ ==> activity_of(a, showing) == Some(Activity::Paused)
                &&& state == "buffer"@ || state == "startup"@ ==> activity_of(a, showing) == Some(Activity::Loading)
                &&& state != "play"@ && state != "pause"@ && state != "buffer"@ && state != "startup"@ ==> activity_of(
                    a,
                    showing,
                ) == Some(Activity::App)
            })
        }),
{
    reveal_strlit("ssvr");
    reveal_strlit("home");
    reveal_strlit("appl");
    reveal_strlit("tvin");
    reveal_strlit("play");
    reveal_strlit("pause");
    reveal_strlit("buffer");
    reveal_strlit("startup");
    assert("ssvr"@[0] == 's' && "home"@[0] == 'h' && "appl"@[0] == 'a' && "tvin"@[0] == 't');
    assert("play"@.len() == 4 && "pause"@.len() == 5 && "buffer"@.len() == 6 && "startup"@.len() == 7);
}

/// A TV is on exactly if it says PowerOn, and off if it says anything else; of one that does not
/// say, and of what is no TV, that is not known.
pub proof fn law_whether_a_tv_is_on(info: Seq<char>)
    ensures
        power_of(info) == Some(true) <==> tag(info, "is-tv"@) == Some("true"@) && tag(info, "power-mode"@) == Some(
            "PowerOn"@,
        ),
        power_of(info) is None <==> tag(info, "is-tv"@) != Some("true"@) || tag(info, "power-mode"@) is None,
{
}

/// A TV that answers again is online and one that no longer does is not, each said once and
/// before anything else; while it does not answer nothing more is said.
pub proof fn law_a_tv_comes_and_goes(
    s: SeenModel,
    me: Seq<char>,
    ip: Seq<char>,
    info: Option<Answers>,
    apps: Seq<char>,
    now: i64,
    wall: i64,
)
    ensures
        ({
            let (s1, out) = polled(s, me, ip, info, apps, now, wall);
            &&& s1.online == (info is Some)
            &&& s.online != (info is Some) ==> out.len() > 0 && out[0] == EventModel::Online(me, info is Some)
            &&& s.online == (info is Some) ==> !out.contains(EventModel::Online(me, true)) && !out.contains(
                EventModel::Online(me, false),
            )
            &&& info is None ==> out.len() <= 1 && s1 == (SeenModel { online: false, ..s })
            &&& info matches Some(a) ==> s1.tv == status_of(a, s1.inputs, ip, wall)
        }),
{
}

/// A channel is named by its number and its name, and what is on by its title behind them.
pub proof fn law_channels_and_programs(xml: Seq<char>, number: Seq<char>, name: Seq<char>, program: Seq<char>)
    requires
        tag(xml, "number"@) == Some(number),
        tag(xml, "name"@) == Some(name),
        tag(xml, "program-title"@) == Some(program),
    ensures
        number.len() > 0 && name.len() > 0 && program.len() > 0 ==> channel_text(xml) == Some(
            number + " "@ + name + " \u{b7} "@ + program,
        ),
        number.len() > 0 && name.len() > 0 && program.len() == 0 ==> channel_text(xml) == Some(number + " "@ + name),
        number.len() == 0 && name.len() == 0 && program.len() > 0 ==> channel_text(xml) == Some(program),
        number.len() == 0 && name.len() == 0 && program.len() == 0 ==> channel_text(xml) is None,
{
}

proof fn lemma_tv_inputs(apps: Seq<AppEntry>, n: int, ip: Seq<char>, i: int)
    requires
        0 <= i < n <= apps.len(),
    ensures
        apps[i].kind == "tvin"@ ==> tv_inputs(apps, n, ip).contains(shown_app(apps[i], "input"@, ip)),
        apps[i].kind != "tvin"@ && apps[i].id != "dev"@ ==> other_apps(apps, n, ip).contains(
            shown_app(apps[i], "app"@, ip),
        ),
        apps[i].kind != "tvin"@ && apps[i].id == "dev"@ ==> other_apps(apps, n, ip).contains(
            shown_app(apps[i], "player"@, ip),
        ),
    decreases n,
{
    let t = tv_inputs(apps, n - 1, ip);
    let o = other_apps(apps, n - 1, ip);
    let kind = if apps[i].id == "dev"@ {
        "player"@
    } else {
        "app"@
    };
    if i < n - 1 {
        lemma_tv_inputs(apps, n - 1, ip, i);
        if apps[i].kind == "tvin"@ {
            let at = t.index_of(shown_app(apps[i], "input"@, ip));
            assert(tv_inputs(apps, n, ip)[at] == t[at]);
        } else {
            let at = o.index_of(shown_app(apps[i], kind, ip));
            assert(other_apps(apps, n, ip)[at] == o[at]);
        }
    } else {
        if apps[i].kind == "tvin"@ {
            crate::text::lemma_push_contains(t, shown_app(apps[i], "input"@, ip), shown_app(apps[i], "input"@, ip));
        } else {
            crate::text::lemma_push_contains(o, shown_app(apps[i], kind, ip), shown_app(apps[i], kind, ip));
        }
    }
}

/// Everything that a TV lists can be chosen: by its id, under its name and with its icon, as an
/// input, as our own player or as an app.
pub proof fn law_what_can_be_chosen(xml: Seq<char>, ip: Seq<char>, i: int)
    requires
        0 <= i < listed_apps(xml).len(),
    ensures
        ({
            let a = listed_apps(xml)[i];
            let kind = if a.kind == "tvin"@ {
                "input"@
            } else if a.id == "dev"@ {
                "player"@
            } else {
                "app"@
            };
            inputs_of(xml, ip).contains(
                InputModel {
                    id: "app:"@ + a.id,
                    label: a.name,
                    kind,
                    icon: Some("http://"@ + ip + ":8060/query/icon/"@ + a.id),
                },
            )
        }),
{
    let apps = listed_apps(xml);
    let n = apps.len() as int;
    lemma_tv_inputs(apps, n, ip, i);
    let t = tv_inputs(apps, n, ip);
    let o = other_apps(apps, n, ip);
    if apps[i].kind == "tvin"@ {
        let at = t.index_of(shown_app(apps[i], "input"@, ip));
        assert((t + o)[at] == t[at]);
    } else {
        let kind = if apps[i].id == "dev"@ {
            "player"@
        } else {
            "app"@
        };
        let at = o.index_of(shown_app(apps[i], kind, ip));
        assert((t + o)[t.len() + at] == o[at]);
    }
}

/// What a TV is said to show: its home screen by that word; an input or an app that is listed by
/// its label; one of the usual inputs by what it is; and anything else by its own name.
pub proof fn law_what_a_tv_shows(xml: Seq<char>, inputs: Seq<InputModel>, attrs: Seq<char>, rest: Seq<char>, id: Seq<char>)
    requires
        element(xml, "<app"@) == Some((attrs, rest)),
        attribute(attrs, "id"@) == Some(id),
        id.len() > 0,
    ensures
        attribute(attrs, "type"@) == Some("home"@) ==> active_name(xml, inputs) == Some("Home"@),
        attribute(attrs, "type"@) != Some("home"@) ==> ({
            &&& label_from(inputs, "app:"@ + id, 0) is Some ==> active_name(xml, inputs) == label_from(
                inputs,
                "app:"@ + id,
                0,
            )
            &&& label_from(inputs, "app:"@ + id, 0) is None && id == "tvinput.dtv"@ ==> active_name(xml, inputs) == Some(
                "Live TV"@,
            )
            &&& label_from(inputs, "app:"@ + id, 0) is None && generic_label(id) is None && unescaped(
                trim(before_text(rest, "</app>"@)),
            ).len() > 0 ==> active_name(xml, inputs) == Some(unescaped(trim(before_text(rest, "</app>"@))))
        }),
{
}

proof fn lemma_label(inputs: Seq<InputModel>, k: int, i: int)
    requires
        0 <= i <= k < inputs.len(),
        forall|j: int| 0 <= j < k ==> (#[trigger] inputs[j]).id != inputs[k].id,
    ensures
        label_from(inputs, inputs[k].id, i) == Some(inputs[k].label),
    decreases k - i,
{
    if i < k {
        assert(inputs[i].id != inputs[k].id);
        lemma_label(inputs, k, i + 1);
    }
}

/// A label is that of the first entry with the id.
pub proof fn law_labels_of_inputs(inputs: Seq<InputModel>, k: int)
    requires
        0 <= k < inputs.len(),
        forall|j: int| 0 <= j < k ==> (#[trigger] inputs[j]).id != inputs[k].id,
    ensures
        label_from(inputs, inputs[k].id, 0) == Some(inputs[k].label),
{
    lemma_label(inputs, k, 0);
}

/// A change of what plays is reported last: when something begins or ends, when it is paused or
/// goes on, and when another app plays. Without such a change nothing is.
pub proof fn law_changes_of_what_plays_are_reported(
    s: SeenModel,
    me: Seq<char>,
    ip: Seq<char>,
    a: Answers,
    apps: Seq<char>,
    now: i64,
    wall: i64,
)
    ensures
        ({
            let (s1, out) = polled(s, me, ip, Some(a), apps, now, wall);
            let m = media_of(a, s1.tv.showing, ip);
            let differs = m is Some != s.media is Some || (m is Some && (m->0.state != s.media->0.state || m->0.app
                != s.media->0.app));
            &&& differs ==> out.len() > 0 && out.last() == EventModel::Media(me, m) && s1.media == m
            &&& !differs ==> s1.media == s.media && forall|i: int|
                0 <= i < out.len() ==> !((#[trigger] out[i]) is Media)
        }),
{
}

/// The addresses by which a TV is woken are kept and added to, each once.
pub proof fn law_addresses_are_learned(macs: Seq<Seq<char>>, info: Seq<char>, m: Seq<char>)
    ensures
        macs.contains(m) ==> macs_after(macs, info).contains(m),
        m.len() > 0 && (tag(info, "wifi-mac"@) == Some(m) || tag(info, "ethernet-mac"@) == Some(m)) ==> macs_after(
            macs,
            info,
        ).contains(m),
{
    let a = with_mac(macs, tag(info, "wifi-mac"@));
    lemma_mac_kept(macs, tag(info, "wifi-mac"@), m);
    lemma_mac_kept(a, tag(info, "ethernet-mac"@), m);
}

proof fn lemma_mac_kept(macs: Seq<Seq<char>>, mac: Option<Seq<char>>, m: Seq<char>)
    ensures
        macs.contains(m) || (mac == Some(m) && m.len() > 0) ==> with_mac(macs, mac).contains(m),
{
    match mac {
        Some(x) => {
            if x.len() > 0 && !macs.contains(x) && (macs.contains(m) || m == x) {
                crate::text::lemma_push_contains(macs, x, m);
            }
        },
        None => {},
    }
}

/// What a TV can show is asked for again after a minute.
pub proof fn law_inputs_are_read_each_minute(at: i64, now: int)
    ensures
        inputs_due(None, now),
        inputs_due(Some(at), now) <==> now > at + 60_000,
{
}

} // verus!
