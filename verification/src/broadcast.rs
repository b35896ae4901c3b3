//! A spoken message on Cast speakers: what is paused, which volumes are set, and how
//! everything is put back.
//!
//! What this program cast itself is loaded again at the same spot. Other apps are
//! closed by the message, so that whoever sent it is told to start them by hand.

use vstd::prelude::*;
use vstd::string::*;
use crate::cast::text_or;
use crate::home::{device_at, find_device, lemma_stands_at, stands_at, CoreInner, Entry};
use crate::levels::{clamp_level, clamp_volume};
use crate::registry::{known_members, members_of};
use crate::text::{
    copy_opt, has_text, lemma_push_contains, opt, push_text, starts, starts_with, str_same, texts, trim, trim_str,
};
use crate::types::{is_playing, item_model, Backend, CastItem, DeviceInfo, ItemModel, MediaInfo};

verus! {

// ---------------------------------------------------------------------------
// Where the message plays
// ---------------------------------------------------------------------------

/// The text of a message, or why there is none to be played.
pub fn check_message(text: &str, playing: bool) -> (r: Result<String, String>)
    ensures
        match r {
            Ok(t) => t@ == trim(text@) && t@.len() > 0 && !playing,
            Err(e) => if trim(text@).len() == 0 {
                e@ == "Type a message first."@
            } else {
                playing && e@ == "A message is already playing."@
            },
        },
{
    let t = trim_str(text);
    if crate::json::is_empty(t.as_str()) {
        return Err("Type a message first.".to_string());
    }
    if playing {
        return Err("A message is already playing.".to_string());
    }
    Ok(t)
}

/// Whether a message can be played on a device: a Cast device that is online.
pub open spec fn can_play(devices: Seq<Entry>, id: Seq<char>) -> bool {
    match device_at(devices, id) {
        Some(i) => devices[i].info.backend == Backend::Cast && devices[i].info.online,
        None => false,
    }
}

pub open spec fn is_group(devices: Seq<Entry>, id: Seq<char>) -> bool {
    match device_at(devices, id) {
        Some(i) => devices[i].info.is_cast_group,
        None => false,
    }
}

/// The devices on which the message can be played among the first `n` that were
/// chosen.
pub open spec fn targets(devices: Seq<Entry>, chosen: Seq<Seq<char>>, n: int) -> Seq<Seq<char>>
    decreases n,
{
    if n <= 0 {
        Seq::empty()
    } else if can_play(devices, chosen[n - 1]) {
        targets(devices, chosen, n - 1).push(chosen[n - 1])
    } else {
        targets(devices, chosen, n - 1)
    }
}

/// The known speakers of a group.
pub open spec fn speakers_of(devices: Seq<Entry>, id: Seq<char>) -> Seq<Seq<char>> {
    match device_at(devices, id) {
        Some(i) => known_members(devices, devices[i].group_members@, devices[i].group_members@.len() as int),
        None => Seq::empty(),
    }
}

/// A list with another text, unless it is there already.
pub open spec fn with_text(list: Seq<Seq<char>>, s: Seq<char>) -> Seq<Seq<char>> {
    if list.contains(s) {
        list
    } else {
        list.push(s)
    }
}

/// A list with the first `n` of others.
pub open spec fn with_texts(list: Seq<Seq<char>>, more: Seq<Seq<char>>, n: int) -> Seq<Seq<char>>
    decreases n,
{
    if n <= 0 {
        list
    } else {
        with_text(with_texts(list, more, n - 1), more[n - 1])
    }
}

/// The speakers on which the message is heard: those of the groups and the others.
pub open spec fn heard_on(devices: Seq<Entry>, t: Seq<Seq<char>>, n: int) -> Seq<Seq<char>>
    decreases n,
{
    if n <= 0 {
        Seq::empty()
    } else {
        let before = heard_on(devices, t, n - 1);
        let id = t[n - 1];
        if is_group(devices, id) {
            let m = speakers_of(devices, id);
            with_texts(before, m, m.len() as int)
        } else {
            with_text(before, id)
        }
    }
}

/// Whether a speaker belongs to a group among the targets, and so hears the message
/// through it.
pub open spec fn through_group(devices: Seq<Entry>, t: Seq<Seq<char>>, id: Seq<char>) -> bool {
    exists|i: int|
        0 <= i < t.len() && is_group(devices, #[trigger] t[i]) && speakers_of(devices, t[i]).contains(id)
}

/// The first `n` targets to which the message is sent.
pub open spec fn sent_to(devices: Seq<Entry>, t: Seq<Seq<char>>, n: int) -> Seq<Seq<char>>
    decreases n,
{
    if n <= 0 {
        Seq::empty()
    } else {
        let before = sent_to(devices, t, n - 1);
        if is_group(devices, t[n - 1]) || !through_group(devices, t, t[n - 1]) {
            before.push(t[n - 1])
        } else {
            before
        }
    }
}

/// Whether the message is heard where a device plays: on the device, or on a speaker
/// of the group that it is.
pub open spec fn covers(devices: Seq<Entry>, i: int, speakers: Seq<Seq<char>>, sent: Seq<Seq<char>>) -> bool {
    let e = devices[i];
    let m = known_members(devices, e.group_members@, e.group_members@.len() as int);
    speakers.contains(e.info.id@) || sent.contains(e.info.id@) || (e.info.is_cast_group && exists|k: int|
        0 <= k < m.len() && speakers.contains(#[trigger] m[k]))
}

/// Whether a device is paused for the message.
pub open spec fn is_paused(devices: Seq<Entry>, i: int, speakers: Seq<Seq<char>>, sent: Seq<Seq<char>>) -> bool {
    let e = devices[i];
    covers(devices, i, speakers, sent) && e.info.media is Some && is_playing((e.info.media->0).state)
        && e.info.backend == Backend::Cast
}

/// Something that played before the message.
#[derive(Debug)]
pub struct Paused {
    pub owner: String,
    pub owner_name: String,
    pub app: Option<String>,
    pub content_id: Option<String>,
    pub content_type: Option<String>,
    pub title: Option<String>,
    pub position_ms: u64,
}

pub struct PausedModel {
    pub owner: Seq<char>,
    pub owner_name: Seq<char>,
    pub app: Option<Seq<char>>,
    pub content_id: Option<Seq<char>>,
    pub content_type: Option<Seq<char>>,
    pub title: Option<Seq<char>>,
    pub position_ms: u64,
}

impl Paused {
    pub open spec fn model(self) -> PausedModel {
        PausedModel {
            owner: self.owner@,
            owner_name: self.owner_name@,
            app: opt(self.app),
            content_id: opt(self.content_id),
            content_type: opt(self.content_type),
            title: opt(self.title),
            position_ms: self.position_ms,
        }
    }
}

pub open spec fn paused_models(v: Seq<Paused>) -> Seq<PausedModel> {
    v.map_values(|p: Paused| p.model())
}

/// Where something has come by now.
pub open spec fn position_now(m: MediaInfo, wall: int) -> u64 {
    match m.position_ms {
        Some(p) => {
            let since = match m.position_at {
                Some(t) => wall - t,
                None => 0,
            };
            let x = p + if since > 0 {
                since
            } else {
                0
            };
            if x > u64::MAX {
                u64::MAX
            } else {
                x as u64
            }
        },
        None => 0,
    }
}

fn find_position(m: &MediaInfo, wall: i64) -> (r: u64)
    ensures
        r == position_now(*m, wall as int),
{
    match m.position_ms {
        Some(p) => {
            let since: i128 = match m.position_at {
                Some(t) => wall as i128 - t as i128,
                None => 0,
            };
            let x: i128 = p as i128 + if since > 0 {
                since
            } else {
                0
            };
            if x > u64::MAX as i128 {
                u64::MAX
            } else {
                x as u64
            }
        },
        None => 0,
    }
}

/// The name of a device: the one that its owner gave it, if it is not empty.
pub open spec fn name_of(d: DeviceInfo) -> Seq<char> {
    if d.custom_name is Some && (d.custom_name->0)@.len() > 0 {
        (d.custom_name->0)@
    } else {
        d.friendly_name@
    }
}

fn find_name(d: &DeviceInfo) -> (r: String)
    ensures
        r@ == name_of(*d),
{
    match &d.custom_name {
        Some(n) => if crate::json::is_empty(n.as_str()) {
            d.friendly_name.clone()
        } else {
            n.clone()
        },
        None => d.friendly_name.clone(),
    }
}

/// What is remembered of a device that is paused.
pub open spec fn remembered(e: Entry, wall: int) -> PausedModel {
    let m = e.info.media->0;
    PausedModel {
        owner: e.info.id@,
        owner_name: name_of(e.info),
        app: opt(m.app),
        content_id: opt(m.content_id),
        content_type: opt(m.content_type),
        title: opt(m.title),
        position_ms: position_now(m, wall),
    }
}

/// What is remembered of the first `n` devices, of those that are paused.
pub open spec fn paused_first(
    devices: Seq<Entry>,
    n: int,
    speakers: Seq<Seq<char>>,
    sent: Seq<Seq<char>>,
    wall: int,
) -> Seq<PausedModel>
    decreases n,
{
    if n <= 0 {
        Seq::empty()
    } else {
        let before = paused_first(devices, n - 1, speakers, sent, wall);
        if is_paused(devices, n - 1, speakers, sent) {
            before.push(remembered(devices[n - 1], wall))
        } else {
            before
        }
    }
}

/// The volume that a speaker had.
#[derive(Debug)]
pub struct Saved {
    pub id: String,
    pub volume: i64,
    pub muted: bool,
}

pub open spec fn saved_models(v: Seq<Saved>) -> Seq<(Seq<char>, i64, bool)> {
    v.map_values(|s: Saved| (s.id@, s.volume, s.muted))
}

/// The volumes of the first `n` speakers.
pub open spec fn saved_first(devices: Seq<Entry>, speakers: Seq<Seq<char>>, n: int) -> Seq<(Seq<char>, i64, bool)>
    decreases n,
{
    if n <= 0 {
        Seq::empty()
    } else {
        let before = saved_first(devices, speakers, n - 1);
        match device_at(devices, speakers[n - 1]) {
            Some(i) => before.push((speakers[n - 1], devices[i].info.volume, devices[i].info.muted)),
            None => before,
        }
    }
}

// ---------------------------------------------------------------------------
// The plan
// ---------------------------------------------------------------------------

/// How a message is played.
#[derive(Debug)]
pub struct BroadcastPlan {
    /// The devices to which it is sent.
    pub cast_targets: Vec<String>,
    /// The speakers on which it is heard.
    pub speakers: Vec<String>,
    /// What is paused for it.
    pub paused: Vec<Paused>,
    /// The volumes to be put back.
    pub saved: Vec<Saved>,
}

fn group(devices: &Vec<Entry>, id: &str) -> (r: bool)
    ensures
        r == is_group(devices@, id@),
{
    match find_device(devices, id) {
        Some(i) => devices[i].info.is_cast_group,
        None => false,
    }
}

fn find_targets(devices: &Vec<Entry>, chosen: &Vec<String>) -> (out: Vec<String>)
    ensures
        texts(out@) == targets(devices@, texts(chosen@), chosen@.len() as int),
{
    let ghost m = texts(chosen@);
    let mut out: Vec<String> = Vec::new();
    let mut i: usize = 0;
    proof {
        assert(texts(out@) =~= Seq::<Seq<char>>::empty());
    }
    while i < chosen.len()
        invariant
            i <= chosen@.len(),
            m == texts(chosen@),
            texts(out@) == targets(devices@, m, i as int),
        decreases chosen@.len() - i,
    {
        proof {
            assert(m[i as int] == chosen@[i as int]@);
        }
        let id = chosen[i].as_str();
        let ok: bool = match find_device(devices, id) {
            Some(k) => devices[k].info.backend == Backend::Cast && devices[k].info.online,
            None => false,
        };
        if ok {
            push_text(&mut out, id);
        }
        i = i + 1;
    }
    out
}

fn find_speakers(devices: &Vec<Entry>, id: &str) -> (r: Vec<String>)
    ensures
        texts(r@) == speakers_of(devices@, id@),
{
    match find_device(devices, id) {
        Some(i) => members_of(devices, i),
        None => {
            let out: Vec<String> = Vec::new();
            proof {
                assert(texts(out@) =~= Seq::<Seq<char>>::empty());
            }
            out
        },
    }
}

fn find_heard(devices: &Vec<Entry>, t: &Vec<String>) -> (out: Vec<String>)
    ensures
        texts(out@) == heard_on(devices@, texts(t@), t@.len() as int),
{
    let ghost m = texts(t@);
    let mut out: Vec<String> = Vec::new();
    let mut i: usize = 0;
    proof {
        assert(texts(out@) =~= Seq::<Seq<char>>::empty());
    }
    while i < t.len()
        invariant
            i <= t@.len(),
            m == texts(t@),
            texts(out@) == heard_on(devices@, m, i as int),
        decreases t@.len() - i,
    {
        proof {
            assert(m[i as int] == t@[i as int]@);
        }
        let id = t[i].as_str();
        if group(devices, id) {
            let members = find_speakers(devices, id);
            let ghost before = texts(out@);
            let ghost mm = texts(members@);
            let mut k: usize = 0;
            while k < members.len()
                invariant
                    k <= members@.len(),
                    mm == texts(members@),
                    texts(out@) == with_texts(before, mm, k as int),
                decreases members@.len() - k,
            {
                proof {
                    assert(mm[k as int] == members@[k as int]@);
                }
                if !has_text(&out, members[k].as_str()) {
                    push_text(&mut out, members[k].as_str());
                }
                k = k + 1;
            }
            proof {
                assert(mm.len() == members@.len());
            }
        } else if !has_text(&out, id) {
            push_text(&mut out, id);
        }
        i = i + 1;
    }
    out
}

fn hears_through(devices: &Vec<Entry>, t: &Vec<String>, id: &str) -> (r: bool)
    ensures
        r == through_group(devices@, texts(t@), id@),
{
    let ghost m = texts(t@);
    let mut i: usize = 0;
    while i < t.len()
        invariant
            i <= t@.len(),
            m == texts(t@),
            forall|k: int|
                0 <= k < i ==> !(is_group(devices@, #[trigger] m[k]) && speakers_of(devices@, m[k]).contains(id@)),
        decreases t@.len() - i,
    {
        proof {
            assert(m[i as int] == t@[i as int]@);
        }
        if group(devices, t[i].as_str()) {
            let s = find_speakers(devices, t[i].as_str());
            if has_text(&s, id) {
                return true;
            }
        }
        i = i + 1;
    }
    proof {
        assert(m.len() == t@.len());
    }
    false
}

fn find_sent(devices: &Vec<Entry>, t: &Vec<String>) -> (out: Vec<String>)
    ensures
        texts(out@) == sent_to(devices@, texts(t@), t@.len() as int),
{
    let ghost m = texts(t@);
    let mut out: Vec<String> = Vec::new();
    let mut i: usize = 0;
    proof {
        assert(texts(out@) =~= Seq::<Seq<char>>::empty());
    }
    while i < t.len()
        invariant
            i <= t@.len(),
            m == texts(t@),
            texts(out@) == sent_to(devices@, m, i as int),
        decreases t@.len() - i,
    {
        proof {
            assert(m[i as int] == t@[i as int]@);
        }
        let id = t[i].as_str();
        if group(devices, id) || !hears_through(devices, t, id) {
            push_text(&mut out, id);
        }
        i = i + 1;
    }
    out
}

fn covered(devices: &Vec<Entry>, i: usize, speakers: &Vec<String>, sent: &Vec<String>) -> (r: bool)
    requires
        i < devices@.len(),
    ensures
        r == covers(devices@, i as int, texts(speakers@), texts(sent@)),
{
    let id = devices[i].info.id.as_str();
    if has_text(speakers, id) || has_text(sent, id) {
        return true;
    }
    if !devices[i].info.is_cast_group {
        return false;
    }
    let members = members_of(devices, i);
    let ghost m = texts(members@);
    let mut k: usize = 0;
    while k < members.len()
        invariant
            k <= members@.len(),
            i < devices@.len(),
            m == texts(members@),
            m == known_members(
                devices@,
                devices@[i as int].group_members@,
                devices@[i as int].group_members@.len() as int,
            ),
            devices@[i as int].info.is_cast_group,
            !texts(speakers@).contains(devices@[i as int].info.id@),
            !texts(sent@).contains(devices@[i as int].info.id@),
            forall|j: int| 0 <= j < k ==> !texts(speakers@).contains(#[trigger] m[j]),
        decreases members@.len() - k,
    {
        proof {
            assert(m[k as int] == members@[k as int]@);
        }
        if has_text(speakers, members[k].as_str()) {
            proof {
                assert(texts(speakers@).contains(m[k as int]));
            }
            return true;
        }
        k = k + 1;
    }
    proof {
        assert(m.len() == members@.len());
    }
    false
}

fn find_paused(devices: &Vec<Entry>, speakers: &Vec<String>, sent: &Vec<String>, wall: i64) -> (out: Vec<Paused>)
    ensures
        paused_models(out@) == paused_first(
            devices@,
            devices@.len() as int,
            texts(speakers@),
            texts(sent@),
            wall as int,
        ),
{
    let mut out: Vec<Paused> = Vec::new();
    let mut i: usize = 0;
    proof {
        assert(paused_models(out@) =~= Seq::<PausedModel>::empty());
    }
    while i < devices.len()
        invariant
            i <= devices@.len(),
            paused_models(out@) == paused_first(devices@, i as int, texts(speakers@), texts(sent@), wall as int),
        decreases devices@.len() - i,
    {
        let e = &devices[i];
        match &e.info.media {
            Some(m) => {
                if m.state.playing() && e.info.backend == Backend::Cast && covered(devices, i, speakers, sent) {
                    let p = Paused {
                        owner: e.info.id.clone(),
                        owner_name: find_name(&e.info),
                        app: copy_opt(&m.app),
                        content_id: copy_opt(&m.content_id),
                        content_type: copy_opt(&m.content_type),
                        title: copy_opt(&m.title),
                        position_ms: find_position(m, wall),
                    };
                    let ghost before = paused_models(out@);
                    let ghost pm = p.model();
                    out.push(p);
                    proof {
                        assert(paused_models(out@) =~= before.push(pm));
                    }
                }
            },
            None => {},
        }
        i = i + 1;
    }
    out
}

fn find_saved(devices: &Vec<Entry>, speakers: &Vec<String>) -> (out: Vec<Saved>)
    ensures
        saved_models(out@) == saved_first(devices@, texts(speakers@), speakers@.len() as int),
{
    let ghost m = texts(speakers@);
    let mut out: Vec<Saved> = Vec::new();
    let mut i: usize = 0;
    proof {
        assert(saved_models(out@) =~= Seq::<(Seq<char>, i64, bool)>::empty());
    }
    while i < speakers.len()
        invariant
            i <= speakers@.len(),
            m == texts(speakers@),
            saved_models(out@) == saved_first(devices@, m, i as int),
        decreases speakers@.len() - i,
    {
        proof {
            assert(m[i as int] == speakers@[i as int]@);
        }
        match find_device(devices, speakers[i].as_str()) {
            Some(k) => {
                let s = Saved {
                    id: speakers[i].clone(),
                    volume: devices[k].info.volume,
                    muted: devices[k].info.muted,
                };
                let ghost before = saved_models(out@);
                let ghost sm = (s.id@, s.volume, s.muted);
                out.push(s);
                proof {
                    assert(saved_models(out@) =~= before.push(sm));
                }
            },
            None => {},
        }
        i = i + 1;
    }
    out
}

/// How a message is played on the devices that were chosen, at the time `wall`.
pub fn plan(devices: &Vec<Entry>, chosen: &Vec<String>, wall: i64) -> (r: Result<BroadcastPlan, String>)
    ensures
        ({
            let t = targets(devices@, texts(chosen@), chosen@.len() as int);
            let speakers = heard_on(devices@, t, t.len() as int);
            let sent = sent_to(devices@, t, t.len() as int);
            match r {
                Ok(p) => {
                    &&& sent.len() > 0
                    &&& texts(p.cast_targets@) == sent
                    &&& texts(p.speakers@) == speakers
                    &&& paused_models(p.paused@) == paused_first(
                        devices@,
                        devices@.len() as int,
                        speakers,
                        sent,
                        wall as int,
                    )
                    &&& saved_models(p.saved@) == saved_first(devices@, speakers, speakers.len() as int)
                },
                Err(e) => sent.len() == 0 && e@ == "None of the chosen speakers are online."@,
            }
        }),
{
    let t = find_targets(devices, chosen);
    proof {
        assert(texts(t@).len() == t@.len());
    }
    let speakers = find_heard(devices, &t);
    let cast_targets = find_sent(devices, &t);
    proof {
        assert(texts(cast_targets@).len() == cast_targets@.len());
        assert(texts(speakers@).len() == speakers@.len());
    }
    if cast_targets.len() == 0 {
        return Err("None of the chosen speakers are online.".to_string());
    }
    let paused = find_paused(devices, &speakers, &cast_targets, wall);
    let saved = find_saved(devices, &speakers);
    Ok(BroadcastPlan { cast_targets, speakers, paused, saved })
}

// ---------------------------------------------------------------------------
// Volumes
// ---------------------------------------------------------------------------

/// A volume that a speaker is brought to, and whether it is then muted or unmuted.
#[derive(Debug)]
pub struct SpeakerSet {
    pub id: String,
    pub level: i64,
    pub mute: Option<bool>,
}

pub open spec fn set_models(v: Seq<SpeakerSet>) -> Seq<(Seq<char>, i64, Option<bool>)> {
    v.map_values(|s: SpeakerSet| (s.id@, s.level, s.mute))
}

/// The volumes for the message. A speaker that was muted is not while it plays.
pub open spec fn raised(saved: Seq<(Seq<char>, i64, bool)>, volume: int) -> Seq<(Seq<char>, i64, Option<bool>)> {
    saved.map_values(
        |s: (Seq<char>, i64, bool)|
            (
                s.0,
                clamp_level(volume) as i64,
                if s.2 {
                    Some(false)
                } else {
                    None
                },
            ),
    )
}

/// The volumes after the message: those that the speakers had.
pub open spec fn put_back(saved: Seq<(Seq<char>, i64, bool)>) -> Seq<(Seq<char>, i64, Option<bool>)> {
    saved.map_values(
        |s: (Seq<char>, i64, bool)|
            (
                s.0,
                s.1,
                if s.2 {
                    Some(true)
                } else {
                    None
                },
            ),
    )
}

fn push_set(out: &mut Vec<SpeakerSet>, id: &str, level: i64, mute: Option<bool>)
    ensures
        set_models(final(out)@) == set_models(old(out)@).push((id@, level, mute)),
{
    out.push(SpeakerSet { id: id.to_string(), level, mute });
    proof {
        assert(set_models(out@) =~= set_models(old(out)@).push((id@, level, mute)));
    }
}

/// The volumes for the message.
pub fn message_volumes(saved: &Vec<Saved>, volume: i64) -> (out: Vec<SpeakerSet>)
    ensures
        set_models(out@) == raised(saved_models(saved@), volume as int),
{
    let level: i64 = clamp_volume(volume);
    let mut out: Vec<SpeakerSet> = Vec::new();
    let mut i: usize = 0;
    while i < saved.len()
        invariant
            i <= saved@.len(),
            level == clamp_level(volume as int),
            set_models(out@) =~= raised(saved_models(saved@), volume as int).take(i as int),
        decreases saved@.len() - i,
    {
        let mute: Option<bool> = if saved[i].muted {
            Some(false)
        } else {
            None
        };
        push_set(&mut out, saved[i].id.as_str(), level, mute);
        i = i + 1;
    }
    proof {
        assert(set_models(out@) =~= raised(saved_models(saved@), volume as int));
    }
    out
}

/// The volumes after the message.
pub fn volumes_back(saved: &Vec<Saved>) -> (out: Vec<SpeakerSet>)
    ensures
        set_models(out@) == put_back(saved_models(saved@)),
{
    let mut out: Vec<SpeakerSet> = Vec::new();
    let mut i: usize = 0;
    while i < saved.len()
        invariant
            i <= saved@.len(),
            set_models(out@) =~= put_back(saved_models(saved@)).take(i as int),
        decreases saved@.len() - i,
    {
        let mute: Option<bool> = if saved[i].muted {
            Some(true)
        } else {
            None
        };
        push_set(&mut out, saved[i].id.as_str(), saved[i].volume, mute);
        i = i + 1;
    }
    proof {
        assert(set_models(out@) =~= put_back(saved_models(saved@)));
    }
    out
}

/// Every speaker whose volume is changed for the message gets the volume back that it
/// had, and is muted again if it was.
pub proof fn law_volumes_are_put_back(devices: Seq<Entry>, speakers: Seq<Seq<char>>, volume: int, k: int)
    requires
        0 <= k < raised(saved_first(devices, speakers, speakers.len() as int), volume).len(),
    ensures
        ({
            let saved = saved_first(devices, speakers, speakers.len() as int);
            let id = raised(saved, volume)[k].0;
            let back = put_back(saved)[k];
            &&& put_back(saved).len() == raised(saved, volume).len()
            &&& back.0 == id
            &&& device_at(devices, id) is Some
            &&& back.1 == devices[device_at(devices, id)->0].info.volume
            &&& back.2 == (if devices[device_at(devices, id)->0].info.muted {
                Some(true)
            } else {
                None
            })
        }),
{
    lemma_saved(devices, speakers, speakers.len() as int, k);
}

proof fn lemma_saved(devices: Seq<Entry>, speakers: Seq<Seq<char>>, n: int, k: int)
    requires
        0 <= n <= speakers.len(),
        0 <= k < saved_first(devices, speakers, n).len(),
    ensures
        ({
            let (id, volume, muted) = saved_first(devices, speakers, n)[k];
            &&& device_at(devices, id) is Some
            &&& volume == devices[device_at(devices, id)->0].info.volume
            &&& muted == devices[device_at(devices, id)->0].info.muted
        }),
    decreases n,
{
    let before = saved_first(devices, speakers, n - 1);
    if k < before.len() {
        lemma_saved(devices, speakers, n - 1, k);
    }
}

/// The message, as the devices are told.
pub fn message_item(url: &str) -> (r: CastItem)
    ensures
        item_model(r) == (ItemModel {
            url: url@,
            title: "Message"@,
            content_type: "audio/wav"@,
            subtitles: None,
            autoplay: true,
        }),
{
    CastItem {
        url: url.to_string(),
        title: "Message".to_string(),
        content_type: "audio/wav".to_string(),
        subtitles: None,
        autoplay: true,
    }
}

/// Whether a device still plays the message.
pub open spec fn plays_message(devices: Seq<Entry>, id: Seq<char>) -> bool {
    match device_at(devices, id) {
        Some(i) => devices[i].info.media matches Some(m) && opt(m.title) == Some("Message"@) && is_playing(m.state),
        None => false,
    }
}

/// Whether the message still plays somewhere.
pub fn still_playing(devices: &Vec<Entry>, sent: &Vec<String>) -> (r: bool)
    ensures
        r == exists|i: int| 0 <= i < sent@.len() && plays_message(devices@, (#[trigger] sent@[i])@),
{
    let mut i: usize = 0;
    while i < sent.len()
        invariant
            i <= sent@.len(),
            forall|k: int| 0 <= k < i ==> !plays_message(devices@, (#[trigger] sent@[k])@),
        decreases sent@.len() - i,
    {
        match find_device(devices, sent[i].as_str()) {
            Some(d) => match &devices[d].info.media {
                Some(m) => {
                    let named: bool = match &m.title {
                        Some(t) => str_same(t.as_str(), "Message"),
                        None => false,
                    };
                    if named && m.state.playing() {
                        proof {
                            assert(plays_message(devices@, sent@[i as int]@));
                        }
                        return true;
                    }
                },
                None => {},
            },
            None => {},
        }
        i = i + 1;
    }
    false
}

/// How long a message is given to play before anybody is asked whether it still does:
/// its length and three and a half seconds for the speakers to begin.
pub open spec fn message_time(length: int) -> int {
    length + 3_500
}

/// How long a message is waited for at the most: its length and twenty seconds.
pub open spec fn longest_wait(length: int) -> int {
    length + 20_000
}

/// How long a message of some milliseconds is given to play.
pub fn message_wait(length: u64) -> (r: u128)
    ensures
        r == message_time(length as int),
{
    length as u128 + 3_500
}

/// Whether the wait for a message of some milliseconds is over when it began so many
/// ago: it has had its time, and it plays nowhere any more or is waited for no longer.
pub fn message_over(elapsed: u128, length: u64, playing: bool) -> (r: bool)
    ensures
        r == (elapsed >= message_time(length as int) && (!playing || elapsed > longest_wait(length as int))),
{
    elapsed >= length as u128 + 3_500 && (!playing || elapsed > length as u128 + 20_000)
}

// ---------------------------------------------------------------------------
// Afterwards
// ---------------------------------------------------------------------------

/// How something that was paused goes on.
#[derive(Debug)]
pub enum Resume {
    /// Its app is still there.
    Play(String),
    /// Load it again, and then move to a position, if it had come far enough.
    Reload(String, CastItem, Option<u64>),
    /// Somebody has to start it: what is to be said.
    ByHand(String),
}

pub enum ResumeModel {
    Play(Seq<char>),
    Reload(Seq<char>, ItemModel, Option<u64>),
    ByHand(Seq<char>),
}

impl Resume {
    pub open spec fn model(self) -> ResumeModel {
        match self {
            Resume::Play(id) => ResumeModel::Play(id@),
            Resume::Reload(id, item, at) => ResumeModel::Reload(id@, item_model(item), at),
            Resume::ByHand(t) => ResumeModel::ByHand(t@),
        }
    }
}

/// How something that was paused goes on: it carries on where the message did not
/// close it; what this program cast is loaded again at the same spot; and anything
/// else has to be started by hand.
pub open spec fn resumed(p: PausedModel, speakers: Seq<Seq<char>>, sent: Seq<Seq<char>>) -> ResumeModel {
    if !sent.contains(p.owner) && !speakers.contains(p.owner) {
        ResumeModel::Play(p.owner)
    } else if p.app == Some("Default Media Receiver"@) && p.content_id is Some && starts(
        p.content_id->0,
        "http"@,
    ) {
        ResumeModel::Reload(
            p.owner,
            ItemModel {
                url: p.content_id->0,
                title: text_or(p.title, "Media"@),
                content_type: text_or(p.content_type, "video/mp4"@),
                subtitles: None,
                autoplay: true,
            },
            if p.position_ms > 3000 {
                Some(p.position_ms)
            } else {
                None
            },
        )
    } else {
        ResumeModel::ByHand(
            match p.app {
                Some(a) => p.owner_name + " ("@ + a + ")"@,
                None => p.owner_name,
            },
        )
    }
}

/// How something that was paused goes on.
pub fn resume(p: &Paused, speakers: &Vec<String>, sent: &Vec<String>) -> (r: Resume)
    ensures
        r.model() == resumed(p.model(), texts(speakers@), texts(sent@)),
{
    if !has_text(sent, p.owner.as_str()) && !has_text(speakers, p.owner.as_str()) {
        return Resume::Play(p.owner.clone());
    }
    let player: bool = match &p.app {
        Some(a) => str_same(a.as_str(), "Default Media Receiver"),
        None => false,
    };
    if player {
        match &p.content_id {
            Some(c) => {
                if starts_with(c.as_str(), "http") {
                    let item = CastItem {
                        url: c.clone(),
                        title: match &p.title {
                            Some(t) => t.clone(),
                            None => "Media".to_string(),
                        },
                        content_type: match &p.content_type {
                            Some(t) => t.clone(),
                            None => "video/mp4".to_string(),
                        },
                        subtitles: None,
                        autoplay: true,
                    };
                    let at: Option<u64> = if p.position_ms > 3000 {
                        Some(p.position_ms)
                    } else {
                        None
                    };
                    return Resume::Reload(p.owner.clone(), item, at);
                }
            },
            None => {},
        }
    }
    match &p.app {
        Some(a) => Resume::ByHand(p.owner_name.clone().concat(" (").concat(a.as_str()).concat(")")),
        None => Resume::ByHand(p.owner_name.clone()),
    }
}

/// How a message went.
#[derive(Debug)]
pub struct Outcome {
    /// Where music has to be started again by hand.
    pub resume_by_hand: Vec<String>,
}

/// What has to be started by hand among the first `n` that were paused.
pub open spec fn by_hand(paused: Seq<PausedModel>, n: int, speakers: Seq<Seq<char>>, sent: Seq<Seq<char>>) -> Seq<Seq<char>>
    decreases n,
{
    if n <= 0 {
        Seq::empty()
    } else {
        let before = by_hand(paused, n - 1, speakers, sent);
        match resumed(paused[n - 1], speakers, sent) {
            ResumeModel::ByHand(t) => before.push(t),
            _ => before,
        }
    }
}

pub open spec fn resume_models(v: Seq<Resume>) -> Seq<ResumeModel> {
    v.map_values(|r: Resume| r.model())
}

/// How everything that was paused goes on, and what has to be started by hand.
pub fn resume_all(p: &BroadcastPlan) -> (r: (Vec<Resume>, Outcome))
    ensures
        ({
            let m = paused_models(p.paused@);
            let speakers = texts(p.speakers@);
            let sent = texts(p.cast_targets@);
            &&& resume_models(r.0@) == m.map_values(|x: PausedModel| resumed(x, speakers, sent))
            &&& texts(r.1.resume_by_hand@) == by_hand(m, m.len() as int, speakers, sent)
        }),
{
    let ghost m = paused_models(p.paused@);
    let ghost speakers = texts(p.speakers@);
    let ghost sent = texts(p.cast_targets@);
    let ghost all = m.map_values(|x: PausedModel| resumed(x, speakers, sent));
    let mut out: Vec<Resume> = Vec::new();
    let mut hand: Vec<String> = Vec::new();
    let mut i: usize = 0;
    proof {
        assert(texts(hand@) =~= Seq::<Seq<char>>::empty());
        assert(m.len() == p.paused@.len());
    }
    while i < p.paused.len()
        invariant
            i <= p.paused@.len(),
            m == paused_models(p.paused@),
            m.len() == p.paused@.len(),
            speakers == texts(p.speakers@),
            sent == texts(p.cast_targets@),
            all == m.map_values(|x: PausedModel| resumed(x, speakers, sent)),
            resume_models(out@) =~= all.take(i as int),
            texts(hand@) == by_hand(m, i as int, speakers, sent),
        decreases p.paused@.len() - i,
    {
        proof {
            assert(m[i as int] == p.paused@[i as int].model());
        }
        let x = resume(&p.paused[i], &p.speakers, &p.cast_targets);
        match &x {
            Resume::ByHand(t) => {
                push_text(&mut hand, t.as_str());
            },
            _ => {},
        }
        let ghost before = resume_models(out@);
        let ghost xm = x.model();
        out.push(x);
        proof {
            assert(resume_models(out@) =~= before.push(xm));
        }
        i = i + 1;
    }
    proof {
        assert(resume_models(out@) =~= all);
    }
    (out, Outcome { resume_by_hand: hand })
}

/// Nothing that was paused is forgotten: it carries on, is loaded again, or is named
/// among what has to be started by hand.
pub proof fn law_nothing_is_forgotten(paused: Seq<PausedModel>, speakers: Seq<Seq<char>>, sent: Seq<Seq<char>>, i: int)
    requires
        0 <= i < paused.len(),
    ensures
        match resumed(paused[i], speakers, sent) {
            ResumeModel::Play(id) => id == paused[i].owner,
            ResumeModel::Reload(id, item, _) => id == paused[i].owner && Some(item.url) == paused[i].content_id,
            ResumeModel::ByHand(t) => by_hand(paused, paused.len() as int, speakers, sent).contains(t),
        },
{
    if resumed(paused[i], speakers, sent) is ByHand {
        lemma_by_hand(paused, paused.len() as int, speakers, sent, i);
    }
}

proof fn lemma_by_hand(paused: Seq<PausedModel>, n: int, speakers: Seq<Seq<char>>, sent: Seq<Seq<char>>, i: int)
    requires
        0 <= i < n <= paused.len(),
        resumed(paused[i], speakers, sent) is ByHand,
    ensures
        by_hand(paused, n, speakers, sent).contains(resumed(paused[i], speakers, sent)->ByHand_0),
    decreases n,
{
    let before = by_hand(paused, n - 1, speakers, sent);
    let all = by_hand(paused, n, speakers, sent);
    let t = resumed(paused[i], speakers, sent)->ByHand_0;
    if i < n - 1 {
        lemma_by_hand(paused, n - 1, speakers, sent, i);
        let k = choose|k: int| 0 <= k < before.len() && before[k] == t;
        assert(all[k] == t);
    } else {
        assert(all[before.len() as int] == t);
    }
}

// ---------------------------------------------------------------------------
// Groups hold still
// ---------------------------------------------------------------------------

/// Has the groups pass over changes of some speakers.
pub fn hold(s: &mut CoreInner, speakers: &Vec<String>)
    ensures
        texts(final(s).hold_sync@) == texts(old(s).hold_sync@) + texts(speakers@),
        *final(s) == (CoreInner { hold_sync: final(s).hold_sync, ..*old(s) }),
{
    let ghost before = texts(s.hold_sync@);
    let mut i: usize = 0;
    proof {
        assert(texts(s.hold_sync@) =~= before + texts(speakers@).take(0));
    }
    while i < speakers.len()
        invariant
            i <= speakers@.len(),
            before == texts(old(s).hold_sync@),
            texts(s.hold_sync@) =~= before + texts(speakers@).take(i as int),
            *s == (CoreInner { hold_sync: s.hold_sync, ..*old(s) }),
        decreases speakers@.len() - i,
    {
        let ghost now = texts(s.hold_sync@);
        push_text(&mut s.hold_sync, speakers[i].as_str());
        i = i + 1;
    }
    proof {
        assert(texts(speakers@).take(speakers@.len() as int) =~= texts(speakers@));
    }
}

/// Has the groups listen to some speakers again.
pub fn release(s: &mut CoreInner, speakers: &Vec<String>)
    ensures
        forall|id: Seq<char>|
            #[trigger] texts(final(s).hold_sync@).contains(id) == (texts(old(s).hold_sync@).contains(id) && !texts(
                speakers@,
            ).contains(id)),
        *final(s) == (CoreInner { hold_sync: final(s).hold_sync, ..*old(s) }),
{
    let mut i: usize = 0;
    let mut kept: Vec<String> = Vec::new();
    while i < s.hold_sync.len()
        invariant
            i <= s.hold_sync@.len(),
            *s == *old(s),
            forall|id: Seq<char>|
                #[trigger] texts(kept@).contains(id) == (!texts(speakers@).contains(id) && exists|k: int|
                    0 <= k < i && (#[trigger] s.hold_sync@[k])@ == id),
        decreases s.hold_sync@.len() - i,
    {
        let ghost before = texts(kept@);
        let ghost x = s.hold_sync@[i as int]@;
        let gone: bool = has_text(speakers, s.hold_sync[i].as_str());
        if !gone {
            push_text(&mut kept, s.hold_sync[i].as_str());
        }
        proof {
            assert forall|id: Seq<char>| #[trigger] texts(kept@).contains(id) == (!texts(speakers@).contains(id)
                && exists|k: int| 0 <= k < i + 1 && (#[trigger] s.hold_sync@[k])@ == id) by {
                lemma_push_contains(before, x, id);
                let had = before.contains(id);
                if exists|k: int| 0 <= k < i && (#[trigger] s.hold_sync@[k])@ == id {
                    let k = choose|k: int| 0 <= k < i && (#[trigger] s.hold_sync@[k])@ == id;
                    assert(s.hold_sync@[k]@ == id);
                }
                assert(s.hold_sync@[i as int]@ == x);
            }
        }
        i = i + 1;
    }
    proof {
        assert forall|id: Seq<char>| #[trigger] texts(kept@).contains(id) == (texts(s.hold_sync@).contains(id)
            && !texts(speakers@).contains(id)) by {
            if texts(s.hold_sync@).contains(id) {
                let k = choose|k: int| 0 <= k < texts(s.hold_sync@).len() && texts(s.hold_sync@)[k] == id;
                assert(s.hold_sync@[k]@ == id);
            }
            if exists|k: int| 0 <= k < s.hold_sync@.len() && (#[trigger] s.hold_sync@[k])@ == id {
                let k = choose|k: int| 0 <= k < s.hold_sync@.len() && (#[trigger] s.hold_sync@[k])@ == id;
                assert(texts(s.hold_sync@)[k] == id);
            }
        }
    }
    s.hold_sync = kept;
}

// ---------------------------------------------------------------------------
// Who hears a message and what happens to what they play
// ---------------------------------------------------------------------------

proof fn lemma_targets(devices: Seq<Entry>, chosen: Seq<Seq<char>>, n: int, id: Seq<char>)
    requires
        0 <= n <= chosen.len(),
    ensures
        targets(devices, chosen, n).contains(id) == (can_play(devices, id) && exists|i: int|
            0 <= i < n && #[trigger] chosen[i] == id),
    decreases n,
{
    if n > 0 {
        lemma_targets(devices, chosen, n - 1, id);
        let before = targets(devices, chosen, n - 1);
        let all = targets(devices, chosen, n);
        if can_play(devices, chosen[n - 1]) {
            if before.contains(id) || chosen[n - 1] == id {
                crate::text::lemma_push_contains(before, chosen[n - 1], id);
            }
            if all.contains(id) {
                let at = all.index_of(id);
                if at < before.len() {
                    assert(before[at] == id);
                    let i = choose|i: int| 0 <= i < n - 1 && #[trigger] chosen[i] == id;
                    assert(chosen[i] == id);
                } else {
                    assert(chosen[n - 1] == id);
                }
            }
        } else if before.contains(id) {
            let i = choose|i: int| 0 <= i < n - 1 && #[trigger] chosen[i] == id;
            assert(chosen[i] == id);
        }
        if can_play(devices, id) && exists|i: int| 0 <= i < n && #[trigger] chosen[i] == id {
            let i = choose|i: int| 0 <= i < n && #[trigger] chosen[i] == id;
            if i < n - 1 {
                assert(chosen[i] == id);
            }
        }
    }
}

/// A message goes only to chosen Cast devices that are online, and to all of those.
pub proof fn law_who_can_hear_a_message(devices: Seq<Entry>, chosen: Seq<Seq<char>>, id: Seq<char>, d: int)
    requires
        stands_at(devices, id, d),
    ensures
        targets(devices, chosen, chosen.len() as int).contains(id) <==> devices[d].info.backend == Backend::Cast
            && devices[d].info.online && chosen.contains(id),
{
    lemma_stands_at(devices, id, d, 0);
    lemma_targets(devices, chosen, chosen.len() as int, id);
    if chosen.contains(id) {
        let i = chosen.index_of(id);
        assert(chosen[i] == id);
    }
}

proof fn lemma_sent_to(devices: Seq<Entry>, t: Seq<Seq<char>>, n: int, id: Seq<char>)
    requires
        0 <= n <= t.len(),
    ensures
        sent_to(devices, t, n).contains(id) == ((is_group(devices, id) || !through_group(devices, t, id)) && exists|
            i: int,
        |
            0 <= i < n && #[trigger] t[i] == id),
    decreases n,
{
    if n > 0 {
        lemma_sent_to(devices, t, n - 1, id);
        let before = sent_to(devices, t, n - 1);
        let all = sent_to(devices, t, n);
        if is_group(devices, t[n - 1]) || !through_group(devices, t, t[n - 1]) {
            if before.contains(id) || t[n - 1] == id {
                crate::text::lemma_push_contains(before, t[n - 1], id);
            }
            if all.contains(id) {
                let at = all.index_of(id);
                if at < before.len() {
                    assert(before[at] == id);
                    let i = choose|i: int| 0 <= i < n - 1 && #[trigger] t[i] == id;
                    assert(t[i] == id);
                } else {
                    assert(t[n - 1] == id);
                }
            }
        } else if before.contains(id) {
            let i = choose|i: int| 0 <= i < n - 1 && #[trigger] t[i] == id;
            assert(t[i] == id);
        }
        if exists|i: int| 0 <= i < n && #[trigger] t[i] == id {
            let i = choose|i: int| 0 <= i < n && #[trigger] t[i] == id;
            if i < n - 1 {
                assert(t[i] == id);
            }
        }
    }
}

/// Nobody hears a message twice: it is sent to a single speaker exactly if no group that gets
/// it has that speaker, and to every group that was chosen.
pub proof fn law_nobody_hears_a_message_twice(devices: Seq<Entry>, t: Seq<Seq<char>>, id: Seq<char>, d: int)
    requires
        stands_at(devices, id, d),
        t.contains(id),
    ensures
        sent_to(devices, t, t.len() as int).contains(id) <==> devices[d].info.is_cast_group || forall|i: int|
            0 <= i < t.len() && is_group(devices, #[trigger] t[i]) ==> !speakers_of(devices, t[i]).contains(id),
{
    lemma_stands_at(devices, id, d, 0);
    lemma_sent_to(devices, t, t.len() as int, id);
    let at = t.index_of(id);
    assert(t[at] == id);
}

/// What plays where a message is heard is paused: whatever a Cast device plays or loads that
/// is itself among the speakers or the devices that the message is sent to, or a group of
/// speakers one of which is.
pub proof fn law_what_plays_is_paused_for_a_message(devices: Seq<Entry>, i: int, speakers: Seq<Seq<char>>, sent: Seq<Seq<char>>)
    requires
        0 <= i < devices.len(),
        devices[i].info.media is Some,
        speakers.contains(devices[i].info.id@) || sent.contains(devices[i].info.id@),
    ensures
        is_paused(devices, i, speakers, sent) <==> devices[i].info.backend == Backend::Cast && (
        devices[i].info.media->0.state is Playing || devices[i].info.media->0.state is Buffering),
{
}

/// During a message every speaker plays at the volume of the message, none of them muted.
pub proof fn law_speakers_are_raised(saved: Seq<(Seq<char>, i64, bool)>, volume: int, k: int)
    requires
        0 <= k < saved.len(),
        0 <= volume <= 1_000_000,
    ensures
        raised(saved, volume).len() == saved.len(),
        raised(saved, volume)[k].0 == saved[k].0,
        raised(saved, volume)[k].1 == volume,
        saved[k].2 ==> raised(saved, volume)[k].2 == Some(false),
        !saved[k].2 ==> raised(saved, volume)[k].2 is None,
        put_back(saved)[k] == (
            saved[k].0,
            saved[k].1,
            if saved[k].2 {
                Some(true)
            } else {
                None
            },
        ),
{
}

/// What was paused goes on in the way that is open to it: with a command where the message
/// played on another device; by loading the file again, from where it was if that is more
/// than three seconds in, where the message took its place and its address is known; and else
/// by hand.
pub proof fn law_how_playing_goes_on(p: PausedModel, speakers: Seq<Seq<char>>, sent: Seq<Seq<char>>)
    ensures
        !sent.contains(p.owner) && !speakers.contains(p.owner) ==> resumed(p, speakers, sent) == ResumeModel::Play(
            p.owner,
        ),
        (sent.contains(p.owner) || speakers.contains(p.owner)) && p.app == Some("Default Media Receiver"@) && (
        p.content_id matches Some(u) && starts(u, "http"@)) ==> (resumed(p, speakers, sent) matches ResumeModel::Reload(
            id,
            item,
            at,
        ) && id == p.owner && Some(item.url) == p.content_id && item.autoplay && (p.title matches Some(t) ==> item.title
            == t) && (p.content_type matches Some(t) ==> item.content_type == t) && at == (if p.position_ms > 3_000 {
            Some(p.position_ms)
        } else {
            None
        })),
        (sent.contains(p.owner) || speakers.contains(p.owner)) && !(p.app == Some("Default Media Receiver"@) && (
        p.content_id matches Some(u) && starts(u, "http"@))) ==> resumed(p, speakers, sent) is ByHand,
{
}

/// What is remembered of what was paused is where it was at that moment: the position that was
/// reported and the time since then.
pub proof fn law_the_position_goes_on(m: MediaInfo, wall: int)
    requires
        m.position_ms is Some,
        m.position_at is Some,
        wall >= m.position_at->0,
        m.position_ms->0 + (wall - m.position_at->0) <= u64::MAX,
    ensures
        position_now(m, wall) == m.position_ms->0 + (wall - m.position_at->0),
{
}

/// A message is waited for three and a half seconds longer than it lasts, and no more than
/// twenty.
pub proof fn law_how_long_a_message_is_waited_for(length: int)
    ensures
        message_time(length) - length == 3_500,
        longest_wait(length) - length == 20_000,
{
}

proof fn lemma_with_text(list: Seq<Seq<char>>, s: Seq<char>, x: Seq<char>)
    ensures
        with_text(list, s).contains(x) == (list.contains(x) || x == s),
{
    if !list.contains(s) {
        if list.contains(x) || x == s {
            crate::text::lemma_push_contains(list, s, x);
        }
        if list.push(s).contains(x) {
            let at = list.push(s).index_of(x);
            if at < list.len() {
                assert(list[at] == x);
            }
        }
    }
}

proof fn lemma_with_texts(list: Seq<Seq<char>>, more: Seq<Seq<char>>, n: int, x: Seq<char>)
    requires
        0 <= n <= more.len(),
    ensures
        with_texts(list, more, n).contains(x) == (list.contains(x) || exists|i: int| 0 <= i < n && #[trigger] more[i] == x),
    decreases n,
{
    if n > 0 {
        lemma_with_texts(list, more, n - 1, x);
        lemma_with_text(with_texts(list, more, n - 1), more[n - 1], x);
        if exists|i: int| 0 <= i < n - 1 && #[trigger] more[i] == x {
            let i = choose|i: int| 0 <= i < n - 1 && #[trigger] more[i] == x;
            assert(more[i] == x);
        }
    }
}

/// Whether somebody hears what one of the chosen is sent.
pub open spec fn hears(devices: Seq<Entry>, sent: Seq<char>, id: Seq<char>) -> bool {
    if is_group(devices, sent) {
        speakers_of(devices, sent).contains(id)
    } else {
        sent == id
    }
}

proof fn lemma_heard_on(devices: Seq<Entry>, t: Seq<Seq<char>>, n: int, id: Seq<char>)
    requires
        0 <= n <= t.len(),
    ensures
        heard_on(devices, t, n).contains(id) == exists|i: int| 0 <= i < n && hears(devices, #[trigger] t[i], id),
    decreases n,
{
    if n > 0 {
        lemma_heard_on(devices, t, n - 1, id);
        let before = heard_on(devices, t, n - 1);
        if is_group(devices, t[n - 1]) {
            let m = speakers_of(devices, t[n - 1]);
            lemma_with_texts(before, m, m.len() as int, id);
            if m.contains(id) {
                let k = m.index_of(id);
                assert(m[k] == id);
                assert(hears(devices, t[n - 1], id));
            }
            if exists|i: int| 0 <= i < m.len() && #[trigger] m[i] == id {
                let i = choose|i: int| 0 <= i < m.len() && #[trigger] m[i] == id;
                assert(m.contains(m[i]));
            }
        } else {
            lemma_with_text(before, t[n - 1], id);
        }
        if exists|i: int| 0 <= i < n - 1 && hears(devices, #[trigger] t[i], id) {
            let i = choose|i: int| 0 <= i < n - 1 && hears(devices, #[trigger] t[i], id);
            assert(hears(devices, t[i], id));
        }
    }
}

/// A message is heard on every single device that was chosen and on all speakers of every group
/// that was, and nowhere else.
pub proof fn law_who_hears_a_message(devices: Seq<Entry>, t: Seq<Seq<char>>, id: Seq<char>)
    ensures
        heard_on(devices, t, t.len() as int).contains(id) <==> exists|i: int|
            0 <= i < t.len() && hears(devices, #[trigger] t[i], id),
{
    lemma_heard_on(devices, t, t.len() as int, id);
}

proof fn lemma_paused_first(
    devices: Seq<Entry>,
    n: int,
    speakers: Seq<Seq<char>>,
    sent: Seq<Seq<char>>,
    wall: int,
    i: int,
)
    requires
        0 <= i < n <= devices.len(),
        is_paused(devices, i, speakers, sent),
    ensures
        paused_first(devices, n, speakers, sent, wall).contains(remembered(devices[i], wall)),
    decreases n,
{
    let before = paused_first(devices, n - 1, speakers, sent, wall);
    let all = paused_first(devices, n, speakers, sent, wall);
    let want = remembered(devices[i], wall);
    if i < n - 1 {
        lemma_paused_first(devices, n - 1, speakers, sent, wall, i);
        let at = before.index_of(want);
        assert(all[at] == want);
    } else {
        crate::text::lemma_push_contains(before, want, want);
    }
}

/// Whatever is paused is remembered: what it was, where it was, and whose it is.
pub proof fn law_what_is_paused_is_remembered(
    devices: Seq<Entry>,
    speakers: Seq<Seq<char>>,
    sent: Seq<Seq<char>>,
    wall: int,
    i: int,
)
    requires
        0 <= i < devices.len(),
        is_paused(devices, i, speakers, sent),
    ensures
        ({
            let m = devices[i].info.media->0;
            paused_first(devices, devices.len() as int, speakers, sent, wall).contains(
                PausedModel {
                    owner: devices[i].info.id@,
                    owner_name: name_of(devices[i].info),
                    app: opt(m.app),
                    content_id: opt(m.content_id),
                    content_type: opt(m.content_type),
                    title: opt(m.title),
                    position_ms: position_now(m, wall),
                },
            )
        }),
{
    lemma_paused_first(devices, devices.len() as int, speakers, sent, wall, i);
}

/// A group that plays is paused too where one of its speakers hears the message.
pub proof fn law_groups_are_paused_too(devices: Seq<Entry>, i: int, speakers: Seq<Seq<char>>, sent: Seq<Seq<char>>, k: int)
    requires
        0 <= i < devices.len(),
        devices[i].info.is_cast_group,
        devices[i].info.backend == Backend::Cast,
        devices[i].info.media is Some,
        devices[i].info.media->0.state is Playing || devices[i].info.media->0.state is Buffering,
        0 <= k < known_members(devices, devices[i].group_members@, devices[i].group_members@.len() as int).len(),
        speakers.contains(known_members(devices, devices[i].group_members@, devices[i].group_members@.len() as int)[k]),
    ensures
        is_paused(devices, i, speakers, sent),
{
}

} // verus!
