//! Yamaha receivers: their volume, what they play, and the addresses that are asked
//! for each command.
//!
//! A receiver counts its volume in steps up to a largest one, which it names. Steps
//! are counted in millionths here.

use vstd::prelude::*;
use vstd::string::*;
use crate::cast::text_or;
use crate::json::{
    bool_str, bool_text, entry, entry_of, filled_text, filled_text_at, is_json, json_bool, json_bool_at, json_list,
    json_list_at, json_number, json_number_at, json_ok, json_text, json_text_at, part, part_of, read_signed_units,
    signed_units_in,
};
use crate::registry::{is_session, law_what_plays_is_a_session};
use crate::text::{chars_of, opt, signed_decimal, signed_decimal_text, starts, starts_with, str_same, string_of};
use crate::types::{
    event_models, is_playing, opt_media, push_event, CoreEvent, DeviceCmd, DeviceInfo, EventModel, MediaInfo,
    MediaModel, PlayState, StateModel,
};

verus! {

/// The largest step of a receiver that has not named it: 161.
pub const USUAL_MAX: i64 = 161_000_000;

// ---------------------------------------------------------------------------
// Answers
// ---------------------------------------------------------------------------

/// The first entry from the i-th on of a list that has an id.
pub open spec fn entry_with_id(doc: Seq<char>, list: Seq<char>, id: Seq<char>, i: int, n: int) -> Option<int>
    decreases n - i,
{
    if i >= n {
        None
    } else if json_text_at(doc, part(entry(list, i), "/id"@)) == Some(id) {
        Some(i)
    } else {
        entry_with_id(doc, list, id, i + 1, n)
    }
}

/// The place of the entry of a list that has an id.
pub open spec fn place_with_id(doc: Seq<char>, list: Seq<char>, id: Seq<char>) -> Option<Seq<char>> {
    match json_list_at(doc, list) {
        Some(n) => match entry_with_id(doc, list, id, 0, n as int) {
            Some(i) => Some(entry(list, i)),
            None => None,
        },
        None => None,
    }
}

fn find_with_id(doc: &str, list: &str, id: &str) -> (r: Option<String>)
    ensures
        opt(r) == place_with_id(doc@, list@, id@),
{
    match json_list(doc, list) {
        None => None,
        Some(n) => {
            let mut i: usize = 0;
            while i < n
                invariant
                    i <= n,
                    json_list_at(doc@, list@) == Some(n as nat),
                    entry_with_id(doc@, list@, id@, 0, n as int) == entry_with_id(doc@, list@, id@, i as int, n as int),
                decreases n - i,
            {
                let e = entry_of(list, i);
                match json_text(doc, part_of(e.as_str(), "/id").as_str()) {
                    Some(t) => {
                        if str_same(t.as_str(), id) {
                            return Some(e);
                        }
                    },
                    None => {},
                }
                i = i + 1;
            }
            None
        },
    }
}

/// Millionths of the number at a place.
pub open spec fn millionths_at(doc: Seq<char>, place: Seq<char>) -> Option<i64> {
    match json_number_at(doc, place) {
        Some(n) => match signed_units_in(n, 6) {
            Some(v) => Some(v as i64),
            None => None,
        },
        None => None,
    }
}

fn read_millionths(doc: &str, place: &str) -> (r: Option<i64>)
    ensures
        r == millionths_at(doc@, place@),
{
    match json_number(doc, place) {
        Some(n) => {
            let c = chars_of(n.as_str());
            read_signed_units(c.as_slice(), 6)
        },
        None => None,
    }
}

/// The largest step in what a receiver says it can do: that of the volume in its
/// main zone.
pub open spec fn max_in(doc: Seq<char>) -> Option<i64> {
    match place_with_id(doc, "/zone"@, "main"@) {
        Some(zone) => match place_with_id(doc, part(zone, "/range_step"@), "volume"@) {
            Some(range) => millionths_at(doc, part(range, "/max"@)),
            None => None,
        },
        None => None,
    }
}

/// The largest step in what a receiver says it can do.
pub fn read_max(doc: &str) -> (r: Option<i64>)
    ensures
        r == max_in(doc@),
{
    match find_with_id(doc, "/zone", "main") {
        Some(zone) => match find_with_id(doc, part_of(zone.as_str(), "/range_step").as_str(), "volume") {
            Some(range) => read_millionths(doc, part_of(range.as_str(), "/max").as_str()),
            None => None,
        },
        None => None,
    }
}

/// The level of so many steps of a largest step, to the nearest millionth, between
/// silence and full volume. What is none of none is silence.
pub open spec fn level_of(steps: int, max: int) -> int {
    let (a, b) = if max < 0 {
        (-steps, -max)
    } else {
        (steps, max)
    };
    if a <= 0 {
        0
    } else if a >= b {
        1_000_000
    } else {
        (2_000_000 * a + b) / (2 * b)
    }
}

/// The level of so many steps.
pub fn level(steps: i64, max: i64) -> (r: i64)
    ensures
        r == level_of(steps as int, max as int),
        0 <= r <= 1_000_000,
{
    let a: i128 = if max < 0 {
        -(steps as i128)
    } else {
        steps as i128
    };
    let b: i128 = if max < 0 {
        -(max as i128)
    } else {
        max as i128
    };
    if a <= 0 {
        0
    } else if a >= b {
        1_000_000
    } else {
        let q: i128 = (2_000_000 * a + b) / (2 * b);
        proof {
            assert(0 <= q <= 1_000_000) by (nonlinear_arith)
                requires
                    0 < a < b,
                    q == (2_000_000 * a + b) / (2 * b),
            ;
        }
        q as i64
    }
}

/// A number of 10^-12 to the nearest whole one, halves away from zero, as far as 32
/// bits reach.
pub open spec fn nearest_whole(p: int) -> int {
    let n = if p < 0 {
        -((-p + 500_000_000_000) / 1_000_000_000_000)
    } else {
        (p + 500_000_000_000) / 1_000_000_000_000
    };
    if n > i32::MAX {
        i32::MAX as int
    } else if n < i32::MIN {
        i32::MIN as int
    } else {
        n
    }
}

/// The steps of a level, whole ones.
pub open spec fn steps_of(level: int, max: int) -> int {
    nearest_whole(level * max)
}

/// The steps of a level.
pub fn steps(level: i64, max: i64) -> (r: i32)
    ensures
        r == steps_of(level as int, max as int),
{
    proof {
        crate::levels::lemma_product(level as int, max as int);
    }
    let p: i128 = level as i128 * max as i128;
    let n: i128 = if p < 0 {
        -((-p + 500_000_000_000) / 1_000_000_000_000)
    } else {
        (p + 500_000_000_000) / 1_000_000_000_000
    };
    if n > i32::MAX as i128 {
        i32::MAX
    } else if n < i32::MIN as i128 {
        i32::MIN
    } else {
        n as i32
    }
}

/// The picture of what plays: an address, or a path on the receiver.
pub open spec fn picture_in(doc: Seq<char>, ip: Seq<char>) -> Option<Seq<char>> {
    match filled_text_at(doc, "/albumart_url"@) {
        Some(p) => Some(
            if starts(p, "http"@) {
                p
            } else {
                "http://"@ + ip + p
            },
        ),
        None => None,
    }
}

/// What a receiver says it plays.
pub open spec fn media_in(doc: Seq<char>, ip: Seq<char>) -> Option<MediaModel> {
    let state = text_or(json_text_at(doc, "/playback"@), "stop"@);
    if state == "play"@ || state == "pause"@ {
        Some(
            MediaModel {
                state: if state == "play"@ {
                    StateModel::Playing
                } else {
                    StateModel::Paused
                },
                title: filled_text_at(doc, "/track"@),
                artist: filled_text_at(doc, "/artist"@),
                app: json_text_at(doc, "/input"@),
                supports_transport: true,
                album: filled_text_at(doc, "/album"@),
                image: picture_in(doc, ip),
                position_ms: None,
                duration_ms: None,
                position_at: None,
                content_id: None,
                content_type: None,
            },
        )
    } else {
        None
    }
}

/// What a receiver says it plays.
pub fn read_media(doc: &str, ip: &str) -> (r: Option<MediaInfo>)
    ensures
        opt_media(r) == media_in(doc@, ip@),
{
    proof {
        reveal_strlit("stop");
        reveal_strlit("play");
        reveal_strlit("pause");
        assert("stop"@[0] != "play"@[0]);
        assert("stop"@.len() != "pause"@.len());
    }
    let state = match json_text(doc, "/playback") {
        Some(s) => s,
        None => "stop".to_string(),
    };
    let plays: bool = str_same(state.as_str(), "play");
    if !plays && !str_same(state.as_str(), "pause") {
        return None;
    }
    let image = match filled_text(doc, "/albumart_url") {
        Some(p) => if starts_with(p.as_str(), "http") {
            Some(p)
        } else {
            Some("http://".to_string().concat(ip).concat(p.as_str()))
        },
        None => None,
    };
    Some(
        MediaInfo {
            state: if plays {
                PlayState::Playing
            } else {
                PlayState::Paused
            },
            title: filled_text(doc, "/track"),
            artist: filled_text(doc, "/artist"),
            app: json_text(doc, "/input"),
            supports_transport: true,
            album: filled_text(doc, "/album"),
            image,
            position_ms: None,
            duration_ms: None,
            position_at: None,
            content_id: None,
            content_type: None,
        },
    )
}

// ---------------------------------------------------------------------------
// Watching a receiver
// ---------------------------------------------------------------------------

/// What is known of a receiver.
#[derive(Clone, Copy, Debug, PartialEq, Eq, Structural)]
pub struct YamahaState {
    pub online: bool,
    pub max: i64,
}

impl YamahaState {
    pub fn new() -> (r: YamahaState)
        ensures
            r == (YamahaState { online: false, max: USUAL_MAX }),
    {
        YamahaState { online: false, max: USUAL_MAX }
    }
}

/// An answer that is JSON.
pub open spec fn answer(doc: Option<Seq<char>>) -> Option<Seq<char>> {
    match doc {
        Some(d) => if is_json(d) {
            Some(d)
        } else {
            None
        },
        None => None,
    }
}

fn valid(doc: &Option<String>) -> (r: bool)
    ensures
        r == (answer(opt(*doc)) is Some),
{
    match doc {
        Some(d) => json_ok(d.as_str()),
        None => false,
    }
}

/// The volume in the state of a receiver, in millionths of a step.
pub open spec fn volume_in(doc: Seq<char>) -> int {
    match millionths_at(doc, "/volume"@) {
        Some(v) => v as int,
        None => 0,
    }
}

/// What is known after a look.
pub open spec fn after_look(s: YamahaState, status: Option<Seq<char>>, features: Option<Seq<char>>) -> YamahaState {
    match answer(status) {
        Some(_) => YamahaState {
            online: true,
            max: if !s.online && answer(features) is Some && max_in(features->0) is Some {
                max_in(features->0)->0
            } else {
                s.max
            },
        },
        None => YamahaState { online: false, ..s },
    }
}

/// What is reported after a look: that the receiver came or went, its volume, and
/// what it plays.
pub open spec fn reported(
    s: YamahaState,
    me: Seq<char>,
    ip: Seq<char>,
    status: Option<Seq<char>>,
    features: Option<Seq<char>>,
    playing: Option<Seq<char>>,
) -> Seq<EventModel> {
    match answer(status) {
        Some(d) => {
            let first = if s.online {
                Seq::empty()
            } else {
                seq![EventModel::Online(me, true)]
            };
            let then = first.push(
                EventModel::Volume(
                    me,
                    level_of(volume_in(d), after_look(s, status, features).max as int),
                    json_bool_at(d, "/mute"@) == Some(true),
                ),
            );
            match answer(playing) {
                Some(p) => then.push(EventModel::Media(me, media_in(p, ip))),
                None => then,
            }
        },
        None => if s.online {
            seq![EventModel::Online(me, false)]
        } else {
            Seq::empty()
        },
    }
}

/// Takes in the answers of the receiver `id`. What it can do is asked when it comes
/// online.
pub fn look(
    s: &mut YamahaState,
    id: &str,
    ip: &str,
    status: &Option<String>,
    features: &Option<String>,
    playing: &Option<String>,
) -> (out: Vec<CoreEvent>)
    ensures
        *final(s) == after_look(*old(s), opt(*status), opt(*features)),
        event_models(out@) == reported(*old(s), id@, ip@, opt(*status), opt(*features), opt(*playing)),
{
    let mut out: Vec<CoreEvent> = Vec::new();
    proof {
        assert(event_models(out@) =~= Seq::<EventModel>::empty());
    }
    match status {
        Some(d) => {
            if json_ok(d.as_str()) {
                if !s.online {
                    s.online = true;
                    push_event(&mut out, CoreEvent::Online { id: id.to_string(), online: true });
                    proof {
                        assert(event_models(out@) =~= seq![EventModel::Online(id@, true)]);
                    }
                    if valid(features) {
                        match features {
                            Some(f) => match read_max(f.as_str()) {
                                Some(m) => {
                                    s.max = m;
                                },
                                None => {},
                            },
                            None => {},
                        }
                    }
                }
                let volume: i64 = match read_millionths(d.as_str(), "/volume") {
                    Some(v) => v,
                    None => 0,
                };
                let muted: bool = match json_bool(d.as_str(), "/mute") {
                    Some(b) => b,
                    None => false,
                };
                push_event(
                    &mut out,
                    CoreEvent::VolumeChanged { id: id.to_string(), volume: level(volume, s.max), muted },
                );
                if valid(playing) {
                    match playing {
                        Some(p) => {
                            let media = read_media(p.as_str(), ip);
                            push_event(&mut out, CoreEvent::MediaChanged { id: id.to_string(), media });
                        },
                        None => {},
                    }
                }
                return out;
            }
        },
        None => {},
    }
    if s.online {
        s.online = false;
        push_event(&mut out, CoreEvent::Online { id: id.to_string(), online: false });
        proof {
            assert(event_models(out@) =~= seq![EventModel::Online(id@, false)]);
        }
    }
    out
}

// ---------------------------------------------------------------------------
// Commands
// ---------------------------------------------------------------------------

/// The address of a receiver's services.
pub open spec fn base_of(ip: Seq<char>) -> Seq<char> {
    "http://"@ + ip + "/YamahaExtendedControl/v1"@
}

/// What is asked for a command: nothing for those that a receiver does not know.
pub open spec fn path_for(cmd: DeviceCmd, max: int) -> Option<Seq<char>> {
    match cmd {
        DeviceCmd::SetVolume(level) => Some("/main/setVolume?volume="@ + signed_decimal(steps_of(level as int, max))),
        DeviceCmd::SetMuted(m) => Some("/main/setMute?enable="@ + bool_text(m)),
        DeviceCmd::Play => Some("/netusb/setPlayback?playback=play"@),
        DeviceCmd::Pause => Some("/netusb/setPlayback?playback=pause"@),
        DeviceCmd::Next => Some("/netusb/setPlayback?playback=next"@),
        DeviceCmd::Prev => Some("/netusb/setPlayback?playback=previous"@),
        DeviceCmd::Refresh => Some("/main/getStatus"@),
        _ => None,
    }
}

/// The address of a service.
pub fn service(ip: &str, path: &str) -> (r: String)
    ensures
        r@ == base_of(ip@) + path@,
{
    "http://".to_string().concat(ip).concat("/YamahaExtendedControl/v1").concat(path)
}

/// The address that is asked for a command.
pub fn command(s: &YamahaState, ip: &str, cmd: &DeviceCmd) -> (r: Option<String>)
    ensures
        opt(r) == (match path_for(*cmd, s.max as int) {
            Some(p) => Some(base_of(ip@) + p),
            None => None,
        }),
{
    match cmd {
        DeviceCmd::SetVolume(level) => {
            let n = string_of(signed_decimal_text(steps(*level, s.max) as i64).as_slice());
            let p = "/main/setVolume?volume=".to_string().concat(n.as_str());
            Some(service(ip, p.as_str()))
        },
        DeviceCmd::SetMuted(m) => {
            let p = "/main/setMute?enable=".to_string().concat(bool_str(*m));
            Some(service(ip, p.as_str()))
        },
        DeviceCmd::Play => Some(service(ip, "/netusb/setPlayback?playback=play")),
        DeviceCmd::Pause => Some(service(ip, "/netusb/setPlayback?playback=pause")),
        DeviceCmd::Next => Some(service(ip, "/netusb/setPlayback?playback=next")),
        DeviceCmd::Prev => Some(service(ip, "/netusb/setPlayback?playback=previous")),
        DeviceCmd::Refresh => Some(service(ip, "/main/getStatus")),
        _ => None,
    }
}

/// A receiver that is brought to the level of whole steps and asked for it names
/// the same steps again.
pub proof fn law_steps_round_trip(n: int, max: int)
    requires
        0 <= n <= max,
        0 < max <= 1_000,
    ensures
        steps_of(level_of(1_000_000 * n, 1_000_000 * max), 1_000_000 * max) == n,
{
    let a = 1_000_000 * n;
    let m = 1_000_000 * max;
    if n == max {
        assert((1_000_000 * m + 500_000_000_000) / 1_000_000_000_000 == max) by {
            assert(1_000_000 * m == 1_000_000_000_000 * max);
        }
    } else if n == 0 {
        let l = level_of(0, m);
        assert((2_000_000 * 0 + m) / (2 * m) == 0) by (nonlinear_arith)
            requires
                0 < m,
        ;
    } else {
        let l = (2_000_000 * a + m) / (2 * m);
        vstd::arithmetic::div_mod::lemma_fundamental_div_mod(2_000_000 * a + m, 2 * m);
        let rem = (2_000_000 * a + m) % (2 * m);
        assert(0 <= rem < 2 * m);
        assert(2 * m * l + rem == 2_000_000 * a + m);
        // l * m is within m of a million times a.
        assert(2 * m * l == 2 * (l * m)) by (nonlinear_arith);
        assert(l * m * 2 == 2_000_000 * a + m - rem);
        assert(1_000_000 * a == 1_000_000_000_000 * n);
        assert(l * m <= 1_000_000 * a + m / 2);
        assert(l * m >= 1_000_000 * a - m / 2);
        assert(m <= 1_000_000_000);
        assert(l > 0) by (nonlinear_arith)
            requires
                l * m > 0,
                m > 0,
        ;
        assert((l * m + 500_000_000_000) / 1_000_000_000_000 == n);
    }
}

/// What a receiver plays or has paused counts as a session, so that it shows among what
/// plays now.
pub proof fn law_played_input_is_a_session(d: DeviceInfo, doc: Seq<char>, ip: Seq<char>)
    requires
        media_in(doc, ip) is Some,
        d.online,
        opt_media(d.media) == media_in(doc, ip),
    ensures
        is_session(d),
        is_playing(d.media->0.state) == (text_or(json_text_at(doc, "/playback"@), "stop"@) == "play"@),
{
    law_what_plays_is_a_session(d, media_in(doc, ip)->0);
}

/// What a Yamaha receiver is asked for each command.
pub proof fn law_commands_of_a_receiver(level: i64, muted: bool, max: int)
    ensures
        path_for(DeviceCmd::SetVolume(level), max) == Some(
            "/main/setVolume?volume="@ + signed_decimal(steps_of(level as int, max)),
        ),
        path_for(DeviceCmd::SetMuted(muted), max) == Some(
            "/main/setMute?enable="@ + (if muted {
                "true"@
            } else {
                "false"@
            }),
        ),
        path_for(DeviceCmd::Play, max) == Some("/netusb/setPlayback?playback=play"@),
        path_for(DeviceCmd::Pause, max) == Some("/netusb/setPlayback?playback=pause"@),
        path_for(DeviceCmd::Next, max) == Some("/netusb/setPlayback?playback=next"@),
        path_for(DeviceCmd::Prev, max) == Some("/netusb/setPlayback?playback=previous"@),
        path_for(DeviceCmd::Refresh, max) == Some("/main/getStatus"@),
        path_for(DeviceCmd::StopCasting, max) is None,
{
}

/// The steps of a receiver are the level's share of its largest step, to the nearest whole
/// one, and the level that it reports is its step's share of the largest, to the nearest
/// millionth.
pub proof fn law_steps_are_shares(level: int, steps: int, max: int)
    requires
        0 <= level <= 1_000_000,
        0 <= steps <= max,
        0 < max <= 1_000_000_000,
    ensures
        -500_000_000_000 <= level * max - 1_000_000_000_000 * steps_of(level, max) <= 500_000_000_000,
        -max <= 2 * (1_000_000 * steps - level_of(steps, max) * max) <= max,
        level_of(0, max) == 0,
        level_of(max, max) == 1_000_000,
{
    assert(0 <= level * max <= 1_000_000 * 1_000_000_000) by (nonlinear_arith)
        requires
            0 <= level <= 1_000_000,
            0 < max <= 1_000_000_000,
    ;
    if 0 < steps < max {
        let a = 2_000_000 * steps + max;
        let q = a / (2 * max);
        vstd::arithmetic::div_mod::lemma_fundamental_div_mod(a, 2 * max);
        vstd::arithmetic::div_mod::lemma_mod_bound(a, 2 * max);
        assert((2 * max) * q == 2 * (q * max)) by (nonlinear_arith);
    } else if steps == max {
        assert(level_of(steps, max) == 1_000_000);
    }
}

/// A receiver that answers again is online, and one that no longer does is not; either is
/// said once. While it answers, each look says its volume, and what it plays if it says so.
pub proof fn law_a_receiver_comes_and_goes(
    s: YamahaState,
    me: Seq<char>,
    ip: Seq<char>,
    status: Option<Seq<char>>,
    features: Option<Seq<char>>,
    playing: Option<Seq<char>>,
)
    ensures
        ({
            let there = status is Some && is_json(status->0);
            let out = reported(s, me, ip, status, features, playing);
            &&& after_look(s, status, features).online == there
            &&& out.contains(EventModel::Online(me, true)) == (there && !s.online)
            &&& out.contains(EventModel::Online(me, false)) == (!there && s.online)
            &&& !there && !s.online ==> out.len() == 0
            &&& there ==> out.len() >= 1
        }),
{
    let there = status is Some && is_json(status->0);
    let out = reported(s, me, ip, status, features, playing);
    if there && !s.online {
        assert(out[0] == EventModel::Online(me, true));
    }
    if !there && s.online {
        assert(out[0] == EventModel::Online(me, false));
    }
}

/// Each look at a receiver says the level of its step and whether it is muted, and what it plays
/// by what it says: play, pause or nothing.
pub proof fn law_what_a_receiver_says(
    s: YamahaState,
    me: Seq<char>,
    ip: Seq<char>,
    status: Seq<char>,
    features: Option<Seq<char>>,
    playing: Seq<char>,
)
    requires
        s.online,
        is_json(status),
        is_json(playing),
    ensures
        reported(s, me, ip, Some(status), features, Some(playing)) == seq![
            EventModel::Volume(
                me,
                level_of(volume_in(status), s.max as int),
                json_bool_at(status, "/mute"@) == Some(true),
            ),
            EventModel::Media(me, media_in(playing, ip)),
        ],
        json_text_at(playing, "/playback"@) == Some("play"@) ==> (media_in(playing, ip) matches Some(m) && m.state
            is Playing && m.app == json_text_at(playing, "/input"@)),
        json_text_at(playing, "/playback"@) == Some("pause"@) ==> (media_in(playing, ip) matches Some(m) && m.state
            is Paused),
        json_text_at(playing, "/playback"@) == Some("stop"@) || json_text_at(playing, "/playback"@) is None ==> media_in(
            playing,
            ip,
        ) is None,
{
    reveal_strlit("play");
    reveal_strlit("pause");
    reveal_strlit("stop");
    assert("play"@.len() == 4 && "pause"@.len() == 5 && "stop"@.len() == 4 && "play"@[0] == 'p' && "stop"@[0] == 's');
    let out = reported(s, me, ip, Some(status), features, Some(playing));
    assert(out =~= seq![
        EventModel::Volume(
            me,
            level_of(volume_in(status), s.max as int),
            json_bool_at(status, "/mute"@) == Some(true),
        ),
        EventModel::Media(me, media_in(playing, ip)),
    ]);
}

} // verus!
