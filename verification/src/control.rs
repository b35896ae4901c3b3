//! What the user asks of devices and groups.

use vstd::prelude::*;
use crate::config::{put_value, value_of, AppConfig};
use crate::home::{
    device_at, find_device, find_group, gain_in, gain_of, group_from, has_id, holds_id, is_nearest_product,
    lemma_stands_at, push_set, set_models, stands_at, with_level, CoreInner, Entry, Pending, VolumeSet,
};
use crate::levels::{clamp_gain, scale, scaled, unscale, unscaled, MAX_GAIN};
use crate::text::{chars_of, str_same, trim, trimmed};
use crate::types::{is_playing, AppGroup, DeviceCmd, DeviceInfo, ScheduleEvent, ScheduleTarget};

verus! {

// ---------------------------------------------------------------------------
// Volumes that were asked for
// ---------------------------------------------------------------------------

/// The last of the first `n` volumes that is for a device.
pub open spec fn last_set(sets: Seq<(Seq<char>, int)>, id: Seq<char>, n: int) -> Option<int>
    decreases n,
{
    if n <= 0 {
        None
    } else if sets[n - 1].0 == id {
        Some(sets[n - 1].1)
    } else {
        last_set(sets, id, n - 1)
    }
}

/// Remembers volumes that are being asked for, so that their echoes are known.
pub fn expect_volumes(pending: &mut Vec<(String, Pending)>, sets: &Vec<VolumeSet>, now: i64)
    ensures
        forall|k: Seq<char>|
            #[trigger] value_of(final(pending)@, k) == (match last_set(
                set_models(sets@),
                k,
                sets@.len() as int,
            ) {
                Some(level) => Some(Pending { level: level as i64, at: now }),
                None => value_of(old(pending)@, k),
            }),
{
    let ghost m = set_models(sets@);
    let mut i: usize = 0;
    while i < sets.len()
        invariant
            i <= sets.len(),
            m == set_models(sets@),
            forall|k: Seq<char>|
                #[trigger] value_of(pending@, k) == (match last_set(m, k, i as int) {
                    Some(level) => Some(Pending { level: level as i64, at: now }),
                    None => value_of(old(pending)@, k),
                }),
        decreases sets.len() - i,
    {
        proof {
            assert(m[i as int] == (sets@[i as int].id@, sets@[i as int].level as int));
        }
        put_value(pending, sets[i].id.as_str(), Pending { level: sets[i].level, at: now });
        i = i + 1;
    }
}

/// A level for each of the first `n` members of a group, by their gains.
pub open spec fn level_sets(members: Seq<String>, n: int, level: int, devices: Seq<Entry>) -> Seq<(Seq<char>, int)>
    decreases n,
{
    if n <= 0 {
        Seq::empty()
    } else {
        level_sets(members, n - 1, level, devices).push(
            (members[n - 1]@, scaled(level, gain_in(devices, members[n - 1]@))),
        )
    }
}

/// Sets a group to a level: each member is to go to the level that its gain gives
/// it. Nothing happens where there is no such group.
pub fn set_group_volume(s: &mut CoreInner, group_id: &str, level: i64) -> (out: Vec<VolumeSet>)
    ensures
        final(s).cfg.groups@ == with_level(old(s).cfg.groups@, group_id@, level as int),
        ({
            let k = group_from(old(s).cfg.groups@, group_id@, 0);
            &&& k is None ==> out@.len() == 0 && final(s).cfg_dirty == old(s).cfg_dirty
            &&& k matches Some(i) ==> final(s).cfg_dirty && set_models(out@) == level_sets(
                old(s).cfg.groups@[i].member_ids@,
                old(s).cfg.groups@[i].member_ids@.len() as int,
                level as int,
                old(s).devices@,
            )
        }),
        *final(s) == (CoreInner {
            cfg: AppConfig { groups: final(s).cfg.groups, ..old(s).cfg },
            cfg_dirty: final(s).cfg_dirty,
            ..*old(s)
        }),
{
    let mut out: Vec<VolumeSet> = Vec::new();
    proof {
        assert(set_models(out@) =~= Seq::<(Seq<char>, int)>::empty());
    }
    match find_group(&s.cfg.groups, group_id) {
        None => out,
        Some(k) => {
            s.cfg.groups[k].group_volume = level;
            s.cfg_dirty = true;
            proof {
                assert(s.cfg.groups@ =~= with_level(old(s).cfg.groups@, group_id@, level as int));
            }
            let ghost members = s.cfg.groups@[k as int].member_ids@;
            let mut i: usize = 0;
            while i < s.cfg.groups[k].member_ids.len()
                invariant
                    k < s.cfg.groups@.len(),
                    members == s.cfg.groups@[k as int].member_ids@,
                    i <= members.len(),
                    set_models(out@) == level_sets(members, i as int, level as int, s.devices@),
                decreases members.len() - i,
            {
                let m = s.cfg.groups[k].member_ids[i].as_str();
                let target: i64 = scale(level, gain_of(&s.devices, m));
                push_set(&mut out, m, target);
                i = i + 1;
            }
            out
        },
    }
}

/// Whether a list of volumes has one for a device.
pub open spec fn has_set(sets: Seq<(Seq<char>, int)>, id: Seq<char>) -> bool {
    exists|i: int| 0 <= i < sets.len() && (#[trigger] sets[i]).0 == id
}

fn holds_set(sets: &Vec<VolumeSet>, from: usize, id: &str) -> (r: bool)
    requires
        from <= sets@.len(),
    ensures
        r == has_set(set_models(sets@).skip(from as int), id@),
{
    let ghost m = set_models(sets@).skip(from as int);
    let mut i: usize = from;
    while i < sets.len()
        invariant
            from <= i <= sets.len(),
            m == set_models(sets@).skip(from as int),
            forall|j: int| 0 <= j < i - from ==> (#[trigger] m[j]).0 != id@,
        decreases sets.len() - i,
    {
        proof {
            assert(m[i - from].0 == sets@[i as int].id@);
        }
        if str_same(sets[i].id.as_str(), id) {
            return true;
        }
        i = i + 1;
    }
    false
}

/// The peers among the first `k` members of a group, after those found before: each
/// device once, but not the one that was changed.
pub open spec fn with_peers(
    before: Seq<(Seq<char>, int)>,
    members: Seq<String>,
    k: int,
    id: Seq<char>,
    level: int,
    devices: Seq<Entry>,
) -> Seq<(Seq<char>, int)>
    decreases k,
{
    if k <= 0 {
        before
    } else {
        let found = with_peers(before, members, k - 1, id, level, devices);
        let m = members[k - 1]@;
        if m != id && !has_set(found, m) {
            found.push((m, scaled(level, gain_in(devices, m))))
        } else {
            found
        }
    }
}

/// The peers of a device in the first `n` groups.
pub open spec fn peers_in(groups: Seq<AppGroup>, n: int, id: Seq<char>, level: int, devices: Seq<Entry>) -> Seq<
    (Seq<char>, int),
>
    decreases n,
{
    if n <= 0 {
        Seq::empty()
    } else {
        let before = peers_in(groups, n - 1, id, level, devices);
        let g = groups[n - 1];
        if has_id(g.member_ids@, id) {
            with_peers(before, g.member_ids@, g.member_ids@.len() as int, id, level, devices)
        } else {
            before
        }
    }
}

fn add_peers(members: &Vec<String>, id: &str, level: i64, devices: &Vec<Entry>, out: &mut Vec<VolumeSet>)
    requires
        old(out)@.len() >= 1,
    ensures
        final(out)@.len() >= 1,
        set_models(final(out)@)[0] == set_models(old(out)@)[0],
        set_models(final(out)@).skip(1) == with_peers(
            set_models(old(out)@).skip(1),
            members@,
            members@.len() as int,
            id@,
            level as int,
            devices@,
        ),
{
    let ghost base = set_models(out@).skip(1);
    let mut k: usize = 0;
    while k < members.len()
        invariant
            k <= members.len(),
            out@.len() >= 1,
            set_models(out@)[0] == set_models(old(out)@)[0],
            set_models(out@).skip(1) == with_peers(base, members@, k as int, id@, level as int, devices@),
        decreases members.len() - k,
    {
        let m = members[k].as_str();
        if !str_same(m, id) && !holds_set(out, 1, m) {
            let target: i64 = scale(level, gain_of(devices, m));
            let ghost before = set_models(out@);
            push_set(out, m, target);
            proof {
                assert(set_models(out@).skip(1) =~= before.skip(1).push((m@, target as int)));
            }
        }
        k = k + 1;
    }
}

/// Sets a device to a level from the window: the device itself first, then every
/// other member of its groups at the level that its gain gives it, each once. The
/// groups take over the level that the device's stands for.
pub fn set_device_volume_from_ui(s: &mut CoreInner, id: &str, level: i64) -> (out: Vec<VolumeSet>)
    ensures
        ({
            let groups = old(s).cfg.groups@;
            let shared = unscaled(level as int, gain_in(old(s).devices@, id@));
            let peers = peers_in(groups, groups.len() as int, id@, shared, old(s).devices@);
            &&& set_models(out@) == seq![(id@, level as int)] + peers
            &&& final(s).cfg.groups@ == crate::home::followed(groups, groups.len() as int, id@, shared)
            &&& final(s).cfg_dirty == (old(s).cfg_dirty || peers.len() > 0)
        }),
        *final(s) == (CoreInner {
            cfg: AppConfig { groups: final(s).cfg.groups, ..old(s).cfg },
            cfg_dirty: final(s).cfg_dirty,
            ..*old(s)
        }),
{
    let shared: i64 = unscale(level, gain_of(&s.devices, id));
    let ghost g0 = s.cfg.groups@;
    let mut out: Vec<VolumeSet> = Vec::new();
    push_set(&mut out, id, level);
    let mut i: usize = 0;
    proof {
        assert(set_models(out@).skip(1) =~= Seq::<(Seq<char>, int)>::empty());
    }
    while i < s.cfg.groups.len()
        invariant
            i <= s.cfg.groups@.len(),
            g0 == old(s).cfg.groups@,
            crate::home::same_but_levels(s.cfg.groups@, g0),
            *s == (CoreInner { cfg: AppConfig { groups: s.cfg.groups, ..old(s).cfg }, ..*old(s) }),
            s.cfg.groups@ == crate::home::followed(g0, i as int, id@, shared as int),
            out@.len() >= 1,
            set_models(out@)[0] == (id@, level as int),
            set_models(out@).skip(1) == peers_in(g0, i as int, id@, shared as int, s.devices@),
        decreases s.cfg.groups@.len() - i,
    {
        let ghost gi = s.cfg.groups@;
        proof {
            assert(gi[i as int].id == g0[i as int].id && gi[i as int].member_ids == g0[i as int].member_ids);
        }
        if holds_id(&s.cfg.groups[i].member_ids, id) {
            let gid = s.cfg.groups[i].id.clone();
            match find_group(&s.cfg.groups, gid.as_str()) {
                Some(k) => {
                    s.cfg.groups[k].group_volume = shared;
                    proof {
                        assert(s.cfg.groups@ =~= gi.update(
                            k as int,
                            AppGroup { group_volume: shared, ..gi[k as int] },
                        ));
                        assert forall|j: int| 0 <= j < s.cfg.groups@.len() implies (#[trigger] s.cfg.groups@[j]).id
                            == g0[j].id && s.cfg.groups@[j].member_ids == g0[j].member_ids by {
                            assert(gi[j].id == g0[j].id && gi[j].member_ids == g0[j].member_ids);
                        }
                    }
                },
                None => {},
            }
            proof {
                assert(s.cfg.groups@[i as int].member_ids == g0[i as int].member_ids);
            }
            add_peers(&s.cfg.groups[i].member_ids, id, shared, &s.devices, &mut out);
        }
        i = i + 1;
    }
    if out.len() > 1 {
        s.cfg_dirty = true;
    }
    proof {
        let m = set_models(out@);
        assert(m =~= seq![(id@, level as int)] + m.skip(1));
    }
    out
}

/// Sets the gain of a device, between none and the largest.
pub fn set_sync_gain(s: &mut CoreInner, id: &str, gain: i64)
    ensures
        final(s).devices@ == (match device_at(old(s).devices@, id@) {
            Some(i) => old(s).devices@.update(
                i,
                Entry {
                    info: DeviceInfo {
                        sync_gain: (if gain < 0 {
                            0
                        } else if gain > MAX_GAIN {
                            MAX_GAIN
                        } else {
                            gain
                        }),
                        ..old(s).devices@[i].info
                    },
                    group_members: old(s).devices@[i].group_members,
                },
            ),
            None => old(s).devices@,
        }),
        *final(s) == (CoreInner { devices: final(s).devices, cfg_dirty: true, ..*old(s) }),
{
    let g: i64 = clamp_gain(gain);
    match find_device(&s.devices, id) {
        Some(i) => {
            s.devices[i].info.sync_gain = g;
            proof {
                let e = old(s).devices@[i as int];
                assert(s.devices@ =~= old(s).devices@.update(
                    i as int,
                    Entry { info: DeviceInfo { sync_gain: g, ..e.info }, group_members: e.group_members },
                ));
            }
        },
        None => {},
    }
    s.cfg_dirty = true;
}

/// Gives a device a name of the user's, or takes it away; a blank one is none.
pub fn rename_device(s: &mut CoreInner, id: &str, name: Option<String>)
    ensures
        final(s).devices@ == (match device_at(old(s).devices@, id@) {
            Some(i) => old(s).devices@.update(
                i,
                Entry {
                    info: DeviceInfo {
                        custom_name: (match name {
                            Some(n) => if trim(n@).len() > 0 {
                                name
                            } else {
                                None
                            },
                            None => None,
                        }),
                        ..old(s).devices@[i].info
                    },
                    group_members: old(s).devices@[i].group_members,
                },
            ),
            None => old(s).devices@,
        }),
        *final(s) == (CoreInner { devices: final(s).devices, ..*old(s) }),
{
    match find_device(&s.devices, id) {
        Some(i) => {
            let kept: Option<String> = match name {
                Some(n) => {
                    let c = chars_of(n.as_str());
                    let t = trimmed(c.as_slice());
                    if t.len() > 0 {
                        Some(n)
                    } else {
                        None
                    }
                },
                None => None,
            };
            s.devices[i].info.custom_name = kept;
            proof {
                let e = old(s).devices@[i as int];
                assert(s.devices@ =~= old(s).devices@.update(
                    i as int,
                    Entry { info: DeviceInfo { custom_name: kept, ..e.info }, group_members: e.group_members },
                ));
            }
        },
        None => {},
    }
}

// ---------------------------------------------------------------------------
// Playing
// ---------------------------------------------------------------------------

/// Whether a device plays something.
pub open spec fn has_media(devices: Seq<Entry>, id: Seq<char>) -> bool {
    match device_at(devices, id) {
        Some(i) => devices[i].info.media is Some,
        None => false,
    }
}

/// Those of the first `n` members that play something.
pub open spec fn playing_members(members: Seq<String>, n: int, devices: Seq<Entry>) -> Seq<Seq<char>>
    decreases n,
{
    if n <= 0 {
        Seq::empty()
    } else {
        let before = playing_members(members, n - 1, devices);
        if has_media(devices, members[n - 1]@) {
            before.push(members[n - 1]@)
        } else {
            before
        }
    }
}

/// Those of the first `n` devices that are groups of speakers on the network and
/// play something.
pub open spec fn playing_groups(devices: Seq<Entry>, n: int) -> Seq<Seq<char>>
    decreases n,
{
    if n <= 0 {
        Seq::empty()
    } else {
        let before = playing_groups(devices, n - 1);
        let d = devices[n - 1].info;
        if d.is_cast_group && d.online && d.media is Some {
            before.push(d.id@)
        } else {
            before
        }
    }
}

/// Who is told to play, pause or skip when a group is: its members that play
/// something or, if none does, the groups of speakers that do.
pub open spec fn transport_targets(s: CoreInner, group_id: Seq<char>) -> Seq<Seq<char>> {
    match group_from(s.cfg.groups@, group_id, 0) {
        None => Seq::empty(),
        Some(k) => {
            let members = s.cfg.groups@[k].member_ids@;
            let own = playing_members(members, members.len() as int, s.devices@);
            if own.len() > 0 {
                own
            } else {
                playing_groups(s.devices@, s.devices@.len() as int)
            }
        },
    }
}

pub fn group_transport(s: &CoreInner, group_id: &str) -> (r: Vec<String>)
    ensures
        crate::text::texts(r@) == transport_targets(*s, group_id@),
{
    let mut out: Vec<String> = Vec::new();
    proof {
        assert(crate::text::texts(out@) =~= Seq::<Seq<char>>::empty());
    }
    let k: usize = match find_group(&s.cfg.groups, group_id) {
        Some(k) => k,
        None => {
            return out;
        },
    };
    let members = &s.cfg.groups[k].member_ids;
    let mut i: usize = 0;
    while i < members.len()
        invariant
            i <= members@.len(),
            crate::text::texts(out@) == playing_members(members@, i as int, s.devices@),
        decreases members@.len() - i,
    {
        let m = members[i].as_str();
        let plays: bool = match find_device(&s.devices, m) {
            Some(d) => s.devices[d].info.media.is_some(),
            None => false,
        };
        if plays {
            crate::text::push_text(&mut out, m);
        }
        i = i + 1;
    }
    proof {
        assert(crate::text::texts(out@).len() == out@.len());
    }
    if out.len() > 0 {
        return out;
    }
    let mut all: Vec<String> = Vec::new();
    proof {
        assert(crate::text::texts(all@) =~= Seq::<Seq<char>>::empty());
    }
    let mut j: usize = 0;
    while j < s.devices.len()
        invariant
            j <= s.devices@.len(),
            crate::text::texts(all@) == playing_groups(s.devices@, j as int),
        decreases s.devices@.len() - j,
    {
        let d = &s.devices[j].info;
        if d.is_cast_group && d.online && d.media.is_some() {
            crate::text::push_text(&mut all, d.id.as_str());
        }
        j = j + 1;
    }
    all
}

/// What one button for playing and pausing tells a device.
pub open spec fn toggled(devices: Seq<Entry>, id: Seq<char>) -> Option<DeviceCmd> {
    match device_at(devices, id) {
        Some(i) => match devices[i].info.media {
            Some(m) => Some(
                if is_playing(m.state) {
                    DeviceCmd::Pause
                } else {
                    DeviceCmd::Play
                },
            ),
            None => None,
        },
        None => None,
    }
}

/// What a device that plays something is told when play and pause are one button:
/// to pause while it plays, else to play. A device that plays nothing is told
/// nothing.
pub fn media_toggle(s: &CoreInner, id: &str) -> (r: Option<DeviceCmd>)
    ensures
        match device_at(s.devices@, id@) {
            Some(i) => match s.devices@[i].info.media {
                Some(m) => r == Some(
                    if is_playing(m.state) {
                        DeviceCmd::Pause
                    } else {
                        DeviceCmd::Play
                    },
                ),
                None => r is None,
            },
            None => r is None,
        },
        r == toggled(s.devices@, id@),
{
    match find_device(&s.devices, id) {
        Some(i) => match &s.devices[i].info.media {
            Some(m) => if m.state.playing() {
                Some(DeviceCmd::Pause)
            } else {
                Some(DeviceCmd::Play)
            },
            None => None,
        },
        None => None,
    }
}

/// The command that a word of the window or the tray menu stands for.
pub open spec fn transport_of(action: Seq<char>) -> Option<DeviceCmd> {
    if action == "play"@ {
        Some(DeviceCmd::Play)
    } else if action == "pause"@ {
        Some(DeviceCmd::Pause)
    } else if action == "next"@ {
        Some(DeviceCmd::Next)
    } else if action == "prev"@ {
        Some(DeviceCmd::Prev)
    } else {
        None
    }
}

pub fn transport_cmd(action: &str) -> (r: Option<DeviceCmd>)
    ensures
        r == transport_of(action@),
{
    if str_same(action, "play") {
        Some(DeviceCmd::Play)
    } else if str_same(action, "pause") {
        Some(DeviceCmd::Pause)
    } else if str_same(action, "next") {
        Some(DeviceCmd::Next)
    } else if str_same(action, "prev") {
        Some(DeviceCmd::Prev)
    } else {
        None
    }
}

// ---------------------------------------------------------------------------
// Schedules
// ---------------------------------------------------------------------------

/// Whether a schedule fires: it is on, for this weekday and this minute, and has
/// not fired in this minute.
pub open spec fn is_due(
    e: ScheduleEvent,
    fired: Seq<(String, String)>,
    hhmm: Seq<char>,
    day: int,
    stamp: Seq<char>,
) -> bool {
    &&& e.enabled
    &&& e.days@[day]
    &&& e.time@ == hhmm
    &&& !(value_of(fired, e.id@) matches Some(t) && t@ == stamp)
}

/// The positions of those of the first `n` schedules that fire.
pub open spec fn due_first(
    list: Seq<ScheduleEvent>,
    n: int,
    fired: Seq<(String, String)>,
    hhmm: Seq<char>,
    day: int,
    stamp: Seq<char>,
) -> Seq<int>
    decreases n,
{
    if n <= 0 {
        Seq::empty()
    } else {
        let before = due_first(list, n - 1, fired, hhmm, day, stamp);
        if is_due(list[n - 1], fired, hhmm, day, stamp) {
            before.push(n - 1)
        } else {
            before
        }
    }
}

pub open spec fn positions(v: Seq<usize>) -> Seq<int> {
    v.map_values(|i: usize| i as int)
}

/// Finds the schedules that fire in a minute of a weekday. `stamp` is the date and
/// the minute.
pub fn due_schedules(list: &Vec<ScheduleEvent>, fired: &Vec<(String, String)>, hhmm: &str, day: usize, stamp: &str) -> (r:
    Vec<usize>)
    requires
        day < 7,
    ensures
        positions(r@) == due_first(list@, list@.len() as int, fired@, hhmm@, day as int, stamp@),
        forall|i: int| 0 <= i < r@.len() ==> #[trigger] r@[i] < list@.len(),
{
    let mut out: Vec<usize> = Vec::new();
    let mut i: usize = 0;
    proof {
        assert(positions(out@) =~= Seq::<int>::empty());
    }
    while i < list.len()
        invariant
            i <= list@.len(),
            day < 7,
            positions(out@) == due_first(list@, i as int, fired@, hhmm@, day as int, stamp@),
            forall|j: int| 0 <= j < out@.len() ==> #[trigger] out@[j] < list@.len(),
        decreases list@.len() - i,
    {
        let e = &list[i];
        let again: bool = match crate::config::find_key(fired, e.id.as_str()) {
            Some(k) => str_same(fired[k].1.as_str(), stamp),
            None => false,
        };
        if e.enabled && e.days[day] && str_same(e.time.as_str(), hhmm) && !again {
            let ghost before = positions(out@);
            out.push(i);
            proof {
                assert(positions(out@) =~= before.push(i as int));
            }
        }
        i = i + 1;
    }
    out
}

/// Remembers that a schedule fired in a minute.
pub fn mark_fired(fired: &mut Vec<(String, String)>, id: &str, stamp: &str)
    ensures
        value_of(final(fired)@, id@) matches Some(t) && t@ == stamp@,
        forall|k: Seq<char>| k != id@ ==> #[trigger] value_of(final(fired)@, k) == value_of(old(fired)@, k),
{
    put_value(fired, id, stamp.to_string());
}

/// The volumes that one target of a schedule asks for: those of a group's members, or
/// that of one device.
pub open spec fn target_sets(t: ScheduleTarget, groups: Seq<AppGroup>, devices: Seq<Entry>) -> Seq<(Seq<char>, int)> {
    let level = 10_000 * t.volume_pct;
    if t.is_group {
        match group_from(groups, t.target_id@, 0) {
            Some(i) => level_sets(groups[i].member_ids@, groups[i].member_ids@.len() as int, level, devices),
            None => Seq::empty(),
        }
    } else {
        seq![(t.target_id@, level)]
    }
}

/// The groups after a target of a schedule has been set.
pub open spec fn target_groups(t: ScheduleTarget, groups: Seq<AppGroup>) -> Seq<AppGroup> {
    if t.is_group {
        with_level(groups, t.target_id@, 10_000 * t.volume_pct)
    } else {
        groups
    }
}

/// Whether a target of a schedule is a group that there is.
pub open spec fn sets_group(t: ScheduleTarget, groups: Seq<AppGroup>) -> bool {
    t.is_group && group_from(groups, t.target_id@, 0) is Some
}

/// Sets one target of a schedule: the volumes that it asks for.
pub fn fire_target(s: &mut CoreInner, t: &ScheduleTarget) -> (out: Vec<VolumeSet>)
    ensures
        set_models(out@) == target_sets(*t, old(s).cfg.groups@, old(s).devices@),
        final(s).cfg.groups@ == target_groups(*t, old(s).cfg.groups@),
        final(s).cfg_dirty == (old(s).cfg_dirty || sets_group(*t, old(s).cfg.groups@)),
        !t.is_group ==> *final(s) == *old(s),
        *final(s) == (CoreInner {
            cfg: AppConfig { groups: final(s).cfg.groups, ..old(s).cfg },
            cfg_dirty: final(s).cfg_dirty,
            ..*old(s)
        }),
{
    let level: i64 = crate::levels::from_percent(t.volume_pct);
    if t.is_group {
        let out = set_group_volume(s, t.target_id.as_str(), level);
        proof {
            if group_from(old(s).cfg.groups@, t.target_id@, 0) is None {
                assert(set_models(out@) =~= Seq::<(Seq<char>, int)>::empty());
            }
        }
        out
    } else {
        let mut out: Vec<VolumeSet> = Vec::new();
        push_set(&mut out, t.target_id.as_str(), level);
        proof {
            assert(set_models(out@) =~= seq![(t.target_id@, level as int)]);
        }
        out
    }
}

/// The targets of schedules, one schedule after another.
pub open spec fn all_targets(list: Seq<ScheduleEvent>, due: Seq<int>) -> Seq<ScheduleTarget>
    decreases due.len(),
{
    if due.len() == 0 {
        Seq::empty()
    } else {
        all_targets(list, due.drop_last()) + list[due.last()].targets@
    }
}

/// The groups after targets have been set, one after another.
pub open spec fn groups_fired(ts: Seq<ScheduleTarget>, groups: Seq<AppGroup>) -> Seq<AppGroup>
    decreases ts.len(),
{
    if ts.len() == 0 {
        groups
    } else {
        target_groups(ts.last(), groups_fired(ts.drop_last(), groups))
    }
}

/// The volumes that targets ask for, one after another.
pub open spec fn sets_fired(ts: Seq<ScheduleTarget>, groups: Seq<AppGroup>, devices: Seq<Entry>) -> Seq<(Seq<char>, int)>
    decreases ts.len(),
{
    if ts.len() == 0 {
        Seq::empty()
    } else {
        sets_fired(ts.drop_last(), groups, devices) + target_sets(
            ts.last(),
            groups_fired(ts.drop_last(), groups),
            devices,
        )
    }
}

/// Whether any of the targets is a group that there is.
pub open spec fn group_fired(ts: Seq<ScheduleTarget>, groups: Seq<AppGroup>) -> bool
    decreases ts.len(),
{
    ts.len() > 0 && (group_fired(ts.drop_last(), groups) || sets_group(
        ts.last(),
        groups_fired(ts.drop_last(), groups),
    ))
}

/// Whether one of the schedules has an id.
pub open spec fn is_among(list: Seq<ScheduleEvent>, due: Seq<int>, id: Seq<char>) -> bool {
    exists|j: int| 0 <= j < due.len() && list[#[trigger] due[j]].id@ == id
}

/// Whether what is remembered of schedules that fired is what it was, but for those
/// that fire now.
pub open spec fn marked(
    before: Seq<(String, String)>,
    after: Seq<(String, String)>,
    list: Seq<ScheduleEvent>,
    due: Seq<int>,
    stamp: Seq<char>,
) -> bool {
    forall|id: Seq<char>|
        if is_among(list, due, id) {
            (#[trigger] value_of(after, id)) is Some && value_of(after, id)->0@ == stamp
        } else {
            value_of(after, id) == value_of(before, id)
        }
}

proof fn lemma_marked_one_more(
    before: Seq<(String, String)>,
    mid: Seq<(String, String)>,
    after: Seq<(String, String)>,
    list: Seq<ScheduleEvent>,
    due: Seq<int>,
    i: int,
    stamp: Seq<char>,
)
    requires
        0 <= i < due.len(),
        marked(before, mid, list, due.take(i), stamp),
        value_of(after, list[due[i]].id@) matches Some(t) && t@ == stamp,
        forall|k: Seq<char>| k != list[due[i]].id@ ==> #[trigger] value_of(after, k) == value_of(mid, k),
    ensures
        marked(before, after, list, due.take(i + 1), stamp),
{
    let a = due.take(i);
    let b = due.take(i + 1);
    assert forall|id: Seq<char>|
        if is_among(list, b, id) {
            (#[trigger] value_of(after, id)) is Some && value_of(after, id)->0@ == stamp
        } else {
            value_of(after, id) == value_of(before, id)
        } by {
        assert(b[i] == due[i]);
        if is_among(list, a, id) {
            let j = choose|j: int| 0 <= j < a.len() && list[#[trigger] a[j]].id@ == id;
            assert(b[j] == a[j]);
        }
        if is_among(list, b, id) && id != list[due[i]].id@ {
            let j = choose|j: int| 0 <= j < b.len() && list[#[trigger] b[j]].id@ == id;
            assert(a[j] == b[j]);
        }
        assert(value_of(mid, id) == value_of(mid, id));
    }
}

fn fire_targets(
    s: &mut CoreInner,
    at: usize,
    Ghost(ts): Ghost<Seq<ScheduleTarget>>,
    Ghost(s0): Ghost<CoreInner>,
    out: &mut Vec<VolumeSet>,
)
    requires
        at < old(s).cfg.schedules@.len(),
        *old(s) == (CoreInner {
            cfg: AppConfig { groups: old(s).cfg.groups, ..s0.cfg },
            cfg_dirty: old(s).cfg_dirty,
            ..s0
        }),
        old(s).cfg.groups@ == groups_fired(ts, s0.cfg.groups@),
        old(s).cfg_dirty == (s0.cfg_dirty || group_fired(ts, s0.cfg.groups@)),
        set_models(old(out)@) == sets_fired(ts, s0.cfg.groups@, s0.devices@),
    ensures
        ({
            let all = ts + s0.cfg.schedules@[at as int].targets@;
            &&& *final(s) == (CoreInner {
                cfg: AppConfig { groups: final(s).cfg.groups, ..s0.cfg },
                cfg_dirty: final(s).cfg_dirty,
                ..s0
            })
            &&& final(s).cfg.groups@ == groups_fired(all, s0.cfg.groups@)
            &&& final(s).cfg_dirty == (s0.cfg_dirty || group_fired(all, s0.cfg.groups@))
            &&& set_models(final(out)@) == sets_fired(all, s0.cfg.groups@, s0.devices@)
        }),
{
    let ghost list = s0.cfg.schedules@[at as int].targets@;
    let mut j: usize = 0;
    proof {
        assert(ts + list.take(0) =~= ts);
    }
    while j < s.cfg.schedules[at].targets.len()
        invariant
            at < s.cfg.schedules@.len(),
            list == s0.cfg.schedules@[at as int].targets@,
            j <= list.len(),
            *s == (CoreInner { cfg: AppConfig { groups: s.cfg.groups, ..s0.cfg }, cfg_dirty: s.cfg_dirty, ..s0 }),
            s.cfg.groups@ == groups_fired(ts + list.take(j as int), s0.cfg.groups@),
            s.cfg_dirty == (s0.cfg_dirty || group_fired(ts + list.take(j as int), s0.cfg.groups@)),
            set_models(out@) == sets_fired(ts + list.take(j as int), s0.cfg.groups@, s0.devices@),
        decreases list.len() - j,
    {
        let t = &s.cfg.schedules[at].targets[j];
        let one = ScheduleTarget { target_id: t.target_id.clone(), is_group: t.is_group, volume_pct: t.volume_pct };
        let mut sets = fire_target(s, &one);
        let ghost before = set_models(out@);
        let ghost more = set_models(sets@);
        out.append(&mut sets);
        proof {
            assert(set_models(out@) =~= before + more);
            let next = ts + list.take(j + 1);
            assert(next.drop_last() =~= ts + list.take(j as int));
            assert(next.last() == list[j as int]);
        }
        j = j + 1;
    }
    proof {
        assert(list.take(list.len() as int) =~= list);
    }
}

/// Fires the schedules that are due in a minute of a weekday, each once: the volumes
/// that they ask for, in their order. `stamp` is the date and the minute.
pub fn run_due_schedules(s: &mut CoreInner, fired: &mut Vec<(String, String)>, hhmm: &str, day: usize, stamp: &str) -> (out:
    Vec<VolumeSet>)
    requires
        day < 7,
    ensures
        ({
            let list = old(s).cfg.schedules@;
            let due = due_first(list, list.len() as int, old(fired)@, hhmm@, day as int, stamp@);
            let ts = all_targets(list, due);
            &&& set_models(out@) == sets_fired(ts, old(s).cfg.groups@, old(s).devices@)
            &&& final(s).cfg.groups@ == groups_fired(ts, old(s).cfg.groups@)
            &&& final(s).cfg_dirty == (old(s).cfg_dirty || group_fired(ts, old(s).cfg.groups@))
            &&& marked(old(fired)@, final(fired)@, list, due, stamp@)
        }),
        *final(s) == (CoreInner {
            cfg: AppConfig { groups: final(s).cfg.groups, ..old(s).cfg },
            cfg_dirty: final(s).cfg_dirty,
            ..*old(s)
        }),
{
    let found = due_schedules(&s.cfg.schedules, fired, hhmm, day, stamp);
    let ghost list = s.cfg.schedules@;
    let ghost due = positions(found@);
    let mut out: Vec<VolumeSet> = Vec::new();
    let mut i: usize = 0;
    proof {
        assert(set_models(out@) =~= Seq::<(Seq<char>, int)>::empty());
        assert(due.take(0) =~= Seq::<int>::empty());
    }
    while i < found.len()
        invariant
            i <= found@.len(),
            list == old(s).cfg.schedules@,
            due == positions(found@),
            forall|j: int| 0 <= j < found@.len() ==> #[trigger] found@[j] < list.len(),
            *s == (CoreInner {
                cfg: AppConfig { groups: s.cfg.groups, ..old(s).cfg },
                cfg_dirty: s.cfg_dirty,
                ..*old(s)
            }),
            s.cfg.groups@ == groups_fired(all_targets(list, due.take(i as int)), old(s).cfg.groups@),
            s.cfg_dirty == (old(s).cfg_dirty || group_fired(
                all_targets(list, due.take(i as int)),
                old(s).cfg.groups@,
            )),
            set_models(out@) == sets_fired(
                all_targets(list, due.take(i as int)),
                old(s).cfg.groups@,
                old(s).devices@,
            ),
            marked(old(fired)@, fired@, list, due.take(i as int), stamp@),
        decreases found@.len() - i,
    {
        let at: usize = found[i];
        let ghost mid = fired@;
        mark_fired(fired, s.cfg.schedules[at].id.as_str(), stamp);
        fire_targets(s, at, Ghost(all_targets(list, due.take(i as int))), Ghost(*old(s)), &mut out);
        proof {
            assert(due[i as int] == at as int);
            lemma_marked_one_more(old(fired)@, mid, fired@, list, due, i as int, stamp@);
            let next = due.take(i + 1);
            assert(next.drop_last() =~= due.take(i as int));
            assert(next.last() == at as int);
        }
        i = i + 1;
    }
    proof {
        assert(due.take(due.len() as int) =~= due);
    }
    out
}

proof fn lemma_due_are_due(
    list: Seq<ScheduleEvent>,
    n: int,
    fired: Seq<(String, String)>,
    hhmm: Seq<char>,
    day: int,
    stamp: Seq<char>,
    i: int,
)
    requires
        0 <= i < n <= list.len(),
        is_due(list[i], fired, hhmm, day, stamp),
    ensures
        is_among(list, due_first(list, n, fired, hhmm, day, stamp), list[i].id@),
    decreases n,
{
    let all = due_first(list, n, fired, hhmm, day, stamp);
    if i < n - 1 {
        lemma_due_are_due(list, n - 1, fired, hhmm, day, stamp, i);
        let before = due_first(list, n - 1, fired, hhmm, day, stamp);
        let j = choose|j: int| 0 <= j < before.len() && list[#[trigger] before[j]].id@ == list[i].id@;
        assert(all[j] == before[j]);
    } else {
        assert(all[all.len() - 1] == i);
    }
}

proof fn lemma_none_due(
    list: Seq<ScheduleEvent>,
    n: int,
    fired: Seq<(String, String)>,
    hhmm: Seq<char>,
    day: int,
    stamp: Seq<char>,
)
    requires
        0 <= n <= list.len(),
        forall|i: int| 0 <= i < n ==> !is_due(#[trigger] list[i], fired, hhmm, day, stamp),
    ensures
        due_first(list, n, fired, hhmm, day, stamp) == Seq::<int>::empty(),
    decreases n,
{
    if n > 0 {
        lemma_none_due(list, n - 1, fired, hhmm, day, stamp);
    }
}

/// Schedules fire once: when those that are due in a minute have been fired, none is due
/// in it any more.
pub proof fn law_schedules_fire_once(
    list: Seq<ScheduleEvent>,
    before: Seq<(String, String)>,
    after: Seq<(String, String)>,
    hhmm: Seq<char>,
    day: int,
    stamp: Seq<char>,
)
    requires
        marked(before, after, list, due_first(list, list.len() as int, before, hhmm, day, stamp), stamp),
    ensures
        due_first(list, list.len() as int, after, hhmm, day, stamp) == Seq::<int>::empty(),
{
    let due = due_first(list, list.len() as int, before, hhmm, day, stamp);
    assert forall|i: int| 0 <= i < list.len() implies !is_due(#[trigger] list[i], after, hhmm, day, stamp) by {
        let id = list[i].id@;
        if !is_among(list, due, id) {
            assert(value_of(after, id) == value_of(before, id));
            if is_due(list[i], before, hhmm, day, stamp) {
                lemma_due_are_due(list, list.len() as int, before, hhmm, day, stamp, i);
            }
        }
    }
    lemma_none_due(list, list.len() as int, after, hhmm, day, stamp);
}

// ---------------------------------------------------------------------------
// What volumes, buttons and schedules do
// ---------------------------------------------------------------------------

/// A group that is set to a level tells each of its members, in their order and once for
/// each place, the level times the member's gain. A member that is not known has the gain
/// that changes nothing.
pub proof fn law_every_member_of_a_group_is_told(members: Seq<String>, level: int, devices: Seq<Entry>, k: int, d: int)
    requires
        0 <= level,
        0 <= k < members.len(),
        stands_at(devices, members[k]@, d) && 0 <= devices[d].info.sync_gain || forall|j: int|
            0 <= j < devices.len() ==> (#[trigger] devices[j]).info.id@ != members[k]@,
    ensures
        ({
            let told = level_sets(members, members.len() as int, level, devices);
            &&& told.len() == members.len()
            &&& told[k].0 == members[k]@
            &&& stands_at(devices, members[k]@, d) ==> is_nearest_product(
                told[k].1,
                level,
                devices[d].info.sync_gain as int,
            )
            &&& (forall|j: int| 0 <= j < devices.len() ==> (#[trigger] devices[j]).info.id@ != members[k]@)
                ==> is_nearest_product(told[k].1, level, 1_000_000)
        }),
{
    lemma_level_sets(members, members.len() as int, level, devices, k);
    crate::home::lemma_device_from(devices, members[k]@, 0);
    if stands_at(devices, members[k]@, d) {
        lemma_stands_at(devices, members[k]@, d, 0);
        crate::levels::law_scaled_is_the_product(level, devices[d].info.sync_gain as int);
        assert(is_nearest_product(
            scaled(level, devices[d].info.sync_gain as int),
            level,
            devices[d].info.sync_gain as int,
        ));
    } else {
        crate::levels::law_scaled_is_the_product(level, 1_000_000);
        assert(is_nearest_product(scaled(level, 1_000_000), level, 1_000_000));
    }
}

proof fn lemma_level_sets(members: Seq<String>, n: int, level: int, devices: Seq<Entry>, k: int)
    requires
        0 <= n <= members.len(),
    ensures
        level_sets(members, n, level, devices).len() == n,
        0 <= k < n ==> level_sets(members, n, level, devices)[k] == (
            members[k]@,
            scaled(level, gain_in(devices, members[k]@)),
        ),
    decreases n,
{
    if n > 0 {
        lemma_level_sets(members, n - 1, level, devices, k);
    }
}

/// Setting the level of a group changes that of the first group with its id and of no other,
/// and nothing else of any.
pub proof fn law_only_that_group_is_set(groups: Seq<AppGroup>, g: int, level: i64, j: int)
    requires
        0 <= g < groups.len(),
        forall|i: int| 0 <= i < g ==> (#[trigger] groups[i]).id@ != groups[g].id@,
        0 <= j < groups.len(),
    ensures
        ({
            let after = with_level(groups, groups[g].id@, level as int);
            &&& after.len() == groups.len()
            &&& after[g].group_volume == level
            &&& j != g ==> after[j] == groups[j]
            &&& after[g].member_ids == groups[g].member_ids && after[g].id == groups[g].id && after[g].name
                == groups[g].name
        }),
{
    crate::home::lemma_first_group(groups, g, 0);
}

/// Whether an entry tells somebody the level times their gain.
spec fn by_gain(x: (Seq<char>, int), level: int, devices: Seq<Entry>) -> bool {
    x.1 == scaled(level, gain_in(devices, x.0))
}

spec fn each_once(sets: Seq<(Seq<char>, int)>, id: Seq<char>, level: int, devices: Seq<Entry>) -> bool {
    &&& forall|i: int| 0 <= i < sets.len() ==> (#[trigger] sets[i]).0 != id && by_gain(sets[i], level, devices)
    &&& forall|i: int, j: int| 0 <= i < j < sets.len() ==> (#[trigger] sets[i]).0 != (#[trigger] sets[j]).0
}

proof fn lemma_with_peers(
    before: Seq<(Seq<char>, int)>,
    members: Seq<String>,
    k: int,
    id: Seq<char>,
    level: int,
    devices: Seq<Entry>,
    m: Seq<char>,
)
    requires
        0 <= k <= members.len(),
        each_once(before, id, level, devices),
    ensures
        ({
            let found = with_peers(before, members, k, id, level, devices);
            &&& each_once(found, id, level, devices)
            &&& has_set(before, m) ==> has_set(found, m)
            &&& forall|b: int| 0 <= b < k && (#[trigger] members[b])@ != id ==> has_set(found, members[b]@)
        }),
    decreases k,
{
    if k > 0 {
        lemma_with_peers(before, members, k - 1, id, level, devices, m);
        let f = with_peers(before, members, k - 1, id, level, devices);
        let g = with_peers(before, members, k, id, level, devices);
        assert forall|x: Seq<char>| has_set(f, x) implies #[trigger] has_set(g, x) by {
            let i = choose|i: int| 0 <= i < f.len() && (#[trigger] f[i]).0 == x;
            assert(g[i] == f[i]);
        }
        let new = members[k - 1]@;
        if new != id && !has_set(f, new) {
            assert(g[f.len() as int].0 == new);
            assert forall|i: int, j: int| 0 <= i < j < g.len() implies (#[trigger] g[i]).0 != (#[trigger] g[j]).0 by {
                if j == f.len() {
                    assert(f[i].0 == g[i].0);
                } else {
                    assert(f[i].0 != f[j].0);
                }
            }
            assert forall|i: int| 0 <= i < g.len() implies (#[trigger] g[i]).0 != id && by_gain(g[i], level, devices) by {
                if i < f.len() {
                    assert(g[i] == f[i]);
                }
            }
        }
        assert forall|b: int| 0 <= b < k && (#[trigger] members[b])@ != id implies has_set(g, members[b]@) by {
            if b < k - 1 {
                assert(has_set(f, members[b]@));
            } else if has_set(f, new) {
                assert(has_set(g, new));
            } else {
                assert(g[f.len() as int].0 == new);
            }
        }
    }
}

proof fn lemma_peers_in(
    groups: Seq<AppGroup>,
    n: int,
    id: Seq<char>,
    level: int,
    devices: Seq<Entry>,
    g: int,
    b: int,
)
    requires
        0 <= n <= groups.len(),
        0 <= g < groups.len(),
        0 <= b < groups[g].member_ids@.len(),
        has_id(groups[g].member_ids@, id),
        groups[g].member_ids@[b]@ != id,
    ensures
        each_once(peers_in(groups, n, id, level, devices), id, level, devices),
        g < n ==> has_set(peers_in(groups, n, id, level, devices), groups[g].member_ids@[b]@),
    decreases n,
{
    if n > 0 {
        lemma_peers_in(groups, n - 1, id, level, devices, g, b);
        let before = peers_in(groups, n - 1, id, level, devices);
        let ms = groups[n - 1].member_ids@;
        if has_id(ms, id) {
            lemma_with_peers(before, ms, ms.len() as int, id, level, devices, groups[g].member_ids@[b]@);
            if g == n - 1 {
                assert(has_set(
                    with_peers(before, ms, ms.len() as int, id, level, devices),
                    groups[g].member_ids@[b]@,
                ));
            }
        }
    }
}

/// When a device's volume is set by hand, everybody who shares a group with it is told once
/// to go to the level that its volume stands for times their own gain, and it is not among
/// them.
pub proof fn law_peers_of_a_device_are_told_once(
    groups: Seq<AppGroup>,
    id: Seq<char>,
    level: int,
    devices: Seq<Entry>,
    g: int,
    a: int,
    b: int,
    d: int,
)
    requires
        0 <= level,
        0 <= g < groups.len(),
        0 <= a < groups[g].member_ids@.len(),
        groups[g].member_ids@[a]@ == id,
        0 <= b < groups[g].member_ids@.len(),
        groups[g].member_ids@[b]@ != id,
        stands_at(devices, groups[g].member_ids@[b]@, d),
        0 <= devices[d].info.sync_gain,
    ensures
        ({
            let told = peers_in(groups, groups.len() as int, id, level, devices);
            &&& forall|i: int| 0 <= i < told.len() ==> (#[trigger] told[i]).0 != id
            &&& forall|i: int, j: int| 0 <= i < j < told.len() ==> (#[trigger] told[i]).0 != (#[trigger] told[j]).0
            &&& exists|i: int|
                0 <= i < told.len() && (#[trigger] told[i]).0 == groups[g].member_ids@[b]@ && is_nearest_product(
                    told[i].1,
                    level,
                    devices[d].info.sync_gain as int,
                )
        }),
{
    assert(has_id(groups[g].member_ids@, id));
    lemma_peers_in(groups, groups.len() as int, id, level, devices, g, b);
    let told = peers_in(groups, groups.len() as int, id, level, devices);
    let m = groups[g].member_ids@[b]@;
    let i = choose|i: int| 0 <= i < told.len() && (#[trigger] told[i]).0 == m;
    lemma_stands_at(devices, m, d, 0);
    crate::levels::law_scaled_is_the_product(level, devices[d].info.sync_gain as int);
    assert(by_gain(told[i], level, devices));
    assert(is_nearest_product(told[i].1, level, devices[d].info.sync_gain as int));
}

/// The last volume that was asked of a device is the one that is expected of it.
pub proof fn law_the_last_volume_counts(sets: Seq<(Seq<char>, int)>, k: int)
    requires
        0 <= k < sets.len(),
        forall|j: int| k < j < sets.len() ==> (#[trigger] sets[j]).0 != sets[k].0,
    ensures
        last_set(sets, sets[k].0, sets.len() as int) == Some(sets[k].1),
{
    lemma_last_set(sets, k, sets.len() as int);
}

proof fn lemma_last_set(sets: Seq<(Seq<char>, int)>, k: int, n: int)
    requires
        0 <= k < n <= sets.len(),
        forall|j: int| k < j < sets.len() ==> (#[trigger] sets[j]).0 != sets[k].0,
    ensures
        last_set(sets, sets[k].0, n) == Some(sets[k].1),
    decreases n,
{
    if k < n - 1 {
        assert(sets[n - 1].0 != sets[k].0);
        lemma_last_set(sets, k, n - 1);
    }
}

/// One button for playing and pausing pauses what plays or is about to, and lets anything
/// else play; a device that plays nothing is told nothing.
pub proof fn law_the_button_turns_playing_round(devices: Seq<Entry>, id: Seq<char>, d: int)
    requires
        stands_at(devices, id, d),
    ensures
        devices[d].info.media is None ==> toggled(devices, id) is None,
        devices[d].info.media matches Some(m) ==> (if m.state is Playing || m.state is Buffering {
            toggled(devices, id) == Some(DeviceCmd::Pause)
        } else {
            toggled(devices, id) == Some(DeviceCmd::Play)
        }),
{
    lemma_stands_at(devices, id, d, 0);
}

/// The words of the window and the tray menu, each for its own command.
pub proof fn law_words_of_commands(action: Seq<char>)
    ensures
        (transport_of(action) == Some(DeviceCmd::Play)) == (action == "play"@),
        (transport_of(action) == Some(DeviceCmd::Pause)) == (action == "pause"@),
        (transport_of(action) == Some(DeviceCmd::Next)) == (action == "next"@),
        (transport_of(action) == Some(DeviceCmd::Prev)) == (action == "prev"@),
        transport_of(action) is Some ==> action == "play"@ || action == "pause"@ || action == "next"@ || action
            == "prev"@,
{
    reveal_strlit("play");
    reveal_strlit("pause");
    reveal_strlit("next");
    reveal_strlit("prev");
    assert("play"@[1] == 'l' && "pause"@[1] == 'a' && "next"@[1] == 'e' && "prev"@[1] == 'r');
}

/// A scheduled volume change is due exactly if it is enabled, the box of the day is ticked,
/// its time is the one on the clock and it has not been made at that time before; each that
/// is due is made, in the order of the list.
pub proof fn law_what_is_due(
    list: Seq<ScheduleEvent>,
    fired: Seq<(String, String)>,
    hhmm: Seq<char>,
    day: int,
    stamp: Seq<char>,
    i: int,
)
    requires
        0 <= i < list.len(),
    ensures
        due_first(list, list.len() as int, fired, hhmm, day, stamp).contains(i) == (list[i].enabled && list[i].days@[day]
            && list[i].time@ == hhmm && (value_of(fired, list[i].id@) matches Some(t) ==> t@ != stamp)),
{
    lemma_due(list, list.len() as int, fired, hhmm, day, stamp, i);
}

proof fn lemma_due(
    list: Seq<ScheduleEvent>,
    n: int,
    fired: Seq<(String, String)>,
    hhmm: Seq<char>,
    day: int,
    stamp: Seq<char>,
    i: int,
)
    requires
        0 <= n <= list.len(),
        0 <= i < list.len(),
    ensures
        due_first(list, n, fired, hhmm, day, stamp).contains(i) == (i < n && is_due(list[i], fired, hhmm, day, stamp)),
    decreases n,
{
    if n > 0 {
        lemma_due(list, n - 1, fired, hhmm, day, stamp, i);
        let before = due_first(list, n - 1, fired, hhmm, day, stamp);
        let all = due_first(list, n, fired, hhmm, day, stamp);
        if is_due(list[n - 1], fired, hhmm, day, stamp) {
            if i == n - 1 || before.contains(i) {
                crate::text::lemma_push_contains(before, n - 1, i);
            }
            if all.contains(i) && i != n - 1 {
                let at = all.index_of(i);
                assert(before[at] == i);
            }
        }
    }
}

/// A scheduled change sets one device to its per cent of full volume, or a group to them as
/// setting the group's level by hand does.
pub proof fn law_what_a_schedule_sets(t: ScheduleTarget, groups: Seq<AppGroup>, devices: Seq<Entry>, g: int)
    requires
        t.is_group ==> 0 <= g < groups.len() && groups[g].id@ == t.target_id@ && forall|i: int|
            0 <= i < g ==> (#[trigger] groups[i]).id@ != groups[g].id@,
    ensures
        !t.is_group ==> target_sets(t, groups, devices) == seq![(t.target_id@, 10_000 * t.volume_pct)] && target_groups(
            t,
            groups,
        ) == groups,
        t.is_group ==> target_sets(t, groups, devices) == level_sets(
            groups[g].member_ids@,
            groups[g].member_ids@.len() as int,
            10_000 * t.volume_pct,
            devices,
        ) && target_groups(t, groups)[g].group_volume == (10_000 * t.volume_pct) as i64,
{
    if t.is_group {
        crate::home::lemma_first_group(groups, g, 0);
    }
}

/// The buttons of a group reach its members that play something; where none does, the groups
/// of speakers that are online and do.
pub proof fn law_whom_a_groups_buttons_reach(s: CoreInner, g: int, k: int, d: int)
    requires
        0 <= g < s.cfg.groups@.len(),
        forall|i: int| 0 <= i < g ==> (#[trigger] s.cfg.groups@[i]).id@ != s.cfg.groups@[g].id@,
        0 <= k < s.cfg.groups@[g].member_ids@.len(),
        stands_at(s.devices@, s.cfg.groups@[g].member_ids@[k]@, d),
    ensures
        ({
            let m = s.cfg.groups@[g].member_ids@[k]@;
            let reached = transport_targets(s, s.cfg.groups@[g].id@);
            &&& s.devices@[d].info.media is Some ==> reached.contains(m)
            &&& s.devices@[d].info.media is None && !s.devices@[d].info.is_cast_group && reached.contains(m) ==> exists|
                i: int,
            |
                0 <= i < s.devices@.len() && (#[trigger] s.devices@[i]).info.id@ == m && s.devices@[i].info.is_cast_group
        }),
{
    let ms = s.cfg.groups@[g].member_ids@;
    let m = ms[k]@;
    crate::home::lemma_first_group(s.cfg.groups@, g, 0);
    lemma_stands_at(s.devices@, m, d, 0);
    lemma_playing_members(ms, ms.len() as int, s.devices@, k);
    lemma_playing_groups(s.devices@, s.devices@.len() as int, m);
    let own = playing_members(ms, ms.len() as int, s.devices@);
    if own.contains(m) {
        assert(own.len() > 0);
    }
}

proof fn lemma_playing_members(members: Seq<String>, n: int, devices: Seq<Entry>, k: int)
    requires
        0 <= n <= members.len(),
        0 <= k < members.len(),
    ensures
        k < n && has_media(devices, members[k]@) ==> playing_members(members, n, devices).contains(members[k]@),
        !has_media(devices, members[k]@) ==> !playing_members(members, n, devices).contains(members[k]@),
    decreases n,
{
    if n > 0 {
        lemma_playing_members(members, n - 1, devices, k);
        let before = playing_members(members, n - 1, devices);
        if has_media(devices, members[n - 1]@) {
            let all = before.push(members[n - 1]@);
            if before.contains(members[k]@) || members[n - 1]@ == members[k]@ {
                crate::text::lemma_push_contains(before, members[n - 1]@, members[k]@);
            }
            if all.contains(members[k]@) && members[n - 1]@ != members[k]@ {
                let at = all.index_of(members[k]@);
                assert(before[at] == members[k]@);
            }
        }
    }
}

proof fn lemma_playing_groups(devices: Seq<Entry>, n: int, m: Seq<char>)
    requires
        0 <= n <= devices.len(),
    ensures
        playing_groups(devices, n).contains(m) ==> exists|i: int|
            0 <= i < n && (#[trigger] devices[i]).info.id@ == m && devices[i].info.is_cast_group && devices[i].info.online
                && devices[i].info.media is Some,
    decreases n,
{
    if n > 0 {
        lemma_playing_groups(devices, n - 1, m);
        let before = playing_groups(devices, n - 1);
        let all = playing_groups(devices, n);
        if all.contains(m) {
            let at = all.index_of(m);
            if at < before.len() {
                assert(before[at] == m);
            } else {
                assert(devices[n - 1].info.id@ == m);
            }
        }
    }
}

/// A schedule that is due sets all its targets in their order, each as if it were alone, by the
/// groups as the ones before it left them.
pub proof fn law_each_target_is_set(ts: Seq<ScheduleTarget>, t: ScheduleTarget, groups: Seq<AppGroup>, devices: Seq<Entry>)
    ensures
        sets_fired(ts.push(t), groups, devices) == sets_fired(ts, groups, devices) + target_sets(
            t,
            groups_fired(ts, groups),
            devices,
        ),
        groups_fired(ts.push(t), groups) == target_groups(t, groups_fired(ts, groups)),
        sets_fired(seq![t], groups, devices) == target_sets(t, groups, devices),
        groups_fired(seq![t], groups) == target_groups(t, groups),
{
    assert(ts.push(t).drop_last() =~= ts);
    let one = seq![t];
    assert(one.drop_last() =~= Seq::<ScheduleTarget>::empty());
    assert(sets_fired(one.drop_last(), groups, devices) =~= Seq::<(Seq<char>, int)>::empty());
    assert(groups_fired(one.drop_last(), groups) == groups);
    assert(sets_fired(one, groups, devices) =~= target_sets(t, groups, devices));
}

/// All targets of all schedules that are due are set.
pub proof fn law_all_targets_are_set(list: Seq<ScheduleEvent>, due: Seq<int>, i: int)
    ensures
        all_targets(list, due.push(i)) == all_targets(list, due) + list[i].targets@,
        all_targets(list, Seq::empty()).len() == 0,
{
    assert(due.push(i).drop_last() =~= due);
}

} // verus!
