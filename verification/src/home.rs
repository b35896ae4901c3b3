//! The devices that are known, and the engine that keeps the volumes of a group
//! together.
//!
//! A change that one device reports goes to the other members of its groups, each
//! at the group's level times its own gain. A change that was asked for just
//! before is an echo and goes nowhere.

use vstd::prelude::*;
use crate::config::{find_key, put_value, remove_key, value_of, AppConfig, ManualDevice};
use crate::levels::{distance, distance_of, percent, percent_of, scale, scaled, unscale, unscaled, FULL};
use crate::text::{chars_of, contains, same_texts, str_same, string_of, texts};
use crate::types::{AppGroup, Backend, CoreEvent, DeviceInfo, MediaInfo, TvStatus};

verus! {

/// A device with the speakers that are in it, if it is a group of speakers.
#[derive(Debug)]
pub struct Entry {
    pub info: DeviceInfo,
    pub group_members: Vec<String>,
}

/// A volume that was asked for, and when, in milliseconds.
#[derive(Clone, Copy, Debug, PartialEq, Eq, Structural)]
pub struct Pending {
    pub level: i64,
    pub at: i64,
}

/// The state of the program.
#[derive(Debug)]
pub struct CoreInner {
    pub cfg: AppConfig,
    pub devices: Vec<Entry>,
    /// The volumes that were asked for, by device.
    pub pending: Vec<(String, Pending)>,
    /// Devices whose changes go nowhere for now.
    pub hold_sync: Vec<String>,
    pub cfg_dirty: bool,
    /// What the now-playing part of the tray menu was last built from.
    pub tray_sig: Vec<TrayKey>,
}

/// A volume to be set on a device.
#[derive(Debug)]
pub struct VolumeSet {
    pub id: String,
    pub level: i64,
}

/// Volumes to be set, as text and number.
pub open spec fn set_models(v: Seq<VolumeSet>) -> Seq<(Seq<char>, int)> {
    v.map_values(|s: VolumeSet| (s.id@, s.level as int))
}

/// How close a reported volume must be to an asked one to be its echo.
pub const ECHO_LEVEL: i64 = 30_000;

/// How long after asking an echo is expected, in milliseconds.
pub const ECHO_MS: i64 = 5_000;

/// A difference up to this is no change.
pub const CHANGE_LEVEL: i64 = 5_000;

/// A member this close to its level is left alone.
pub const NEAR_LEVEL: i64 = 10_000;

// ---------------------------------------------------------------------------
// Looking up
// ---------------------------------------------------------------------------

/// The position of a device, from the i-th on.
pub open spec fn device_from(devices: Seq<Entry>, id: Seq<char>, i: int) -> Option<int>
    decreases devices.len() - i,
{
    if i >= devices.len() {
        None
    } else if devices[i].info.id@ == id {
        Some(i)
    } else {
        device_from(devices, id, i + 1)
    }
}

pub open spec fn device_at(devices: Seq<Entry>, id: Seq<char>) -> Option<int> {
    device_from(devices, id, 0)
}

pub proof fn lemma_device_from(devices: Seq<Entry>, id: Seq<char>, i: int)
    requires
        0 <= i,
    ensures
        device_from(devices, id, i) matches Some(k) ==> i <= k < devices.len() && devices[k].info.id@ == id,
        device_from(devices, id, i) is None ==> forall|k: int|
            i <= k < devices.len() ==> (#[trigger] devices[k]).info.id@ != id,
    decreases devices.len() - i,
{
    if i < devices.len() && devices[i].info.id@ != id {
        lemma_device_from(devices, id, i + 1);
    }
}

pub fn find_device(devices: &Vec<Entry>, id: &str) -> (r: Option<usize>)
    ensures
        match r {
            Some(i) => device_at(devices@, id@) == Some(i as int) && i < devices@.len() && devices@[i as int].info.id@
                == id@,
            None => device_at(devices@, id@) is None,
        },
{
    let mut i: usize = 0;
    while i < devices.len()
        invariant
            i <= devices.len(),
            device_at(devices@, id@) == device_from(devices@, id@, i as int),
        decreases devices.len() - i,
    {
        if str_same(devices[i].info.id.as_str(), id) {
            return Some(i);
        }
        i = i + 1;
    }
    None
}

/// The gain of a device; one that is not known has the gain that changes nothing.
pub open spec fn gain_in(devices: Seq<Entry>, id: Seq<char>) -> int {
    match device_at(devices, id) {
        Some(i) => devices[i].info.sync_gain as int,
        None => FULL as int,
    }
}

/// The volume of a device; one that is not known is below every level.
pub open spec fn volume_in(devices: Seq<Entry>, id: Seq<char>) -> int {
    match device_at(devices, id) {
        Some(i) => devices[i].info.volume as int,
        None => -FULL as int,
    }
}

pub fn gain_of(devices: &Vec<Entry>, id: &str) -> (r: i64)
    ensures
        r == gain_in(devices@, id@),
{
    match find_device(devices, id) {
        Some(i) => devices[i].info.sync_gain,
        None => FULL,
    }
}

pub fn volume_of(devices: &Vec<Entry>, id: &str) -> (r: i64)
    ensures
        r == volume_in(devices@, id@),
{
    match find_device(devices, id) {
        Some(i) => devices[i].info.volume,
        None => -FULL,
    }
}

/// Whether a list of ids holds one.
pub open spec fn has_id(ids: Seq<String>, id: Seq<char>) -> bool {
    exists|i: int| 0 <= i < ids.len() && (#[trigger] ids[i])@ == id
}

pub fn holds_id(ids: &Vec<String>, id: &str) -> (r: bool)
    ensures
        r == has_id(ids@, id@),
{
    let mut i: usize = 0;
    while i < ids.len()
        invariant
            i <= ids.len(),
            forall|j: int| 0 <= j < i ==> (#[trigger] ids@[j])@ != id@,
        decreases ids.len() - i,
    {
        if str_same(ids[i].as_str(), id) {
            return true;
        }
        i = i + 1;
    }
    false
}

/// The position of a group, from the i-th on.
pub open spec fn group_from(groups: Seq<AppGroup>, id: Seq<char>, i: int) -> Option<int>
    decreases groups.len() - i,
{
    if i >= groups.len() {
        None
    } else if groups[i].id@ == id {
        Some(i)
    } else {
        group_from(groups, id, i + 1)
    }
}

pub fn find_group(groups: &Vec<AppGroup>, id: &str) -> (r: Option<usize>)
    ensures
        match r {
            Some(i) => group_from(groups@, id@, 0) == Some(i as int) && i < groups@.len(),
            None => group_from(groups@, id@, 0) is None,
        },
{
    let mut i: usize = 0;
    while i < groups.len()
        invariant
            i <= groups.len(),
            group_from(groups@, id@, 0) == group_from(groups@, id@, i as int),
        decreases groups.len() - i,
    {
        if str_same(groups[i].id.as_str(), id) {
            return Some(i);
        }
        i = i + 1;
    }
    None
}

/// The groups with the level of one of them changed.
pub open spec fn with_level(groups: Seq<AppGroup>, id: Seq<char>, level: int) -> Seq<AppGroup> {
    match group_from(groups, id, 0) {
        Some(k) => groups.update(k, AppGroup { group_volume: level as i64, ..groups[k] }),
        None => groups,
    }
}

/// Whether two lists of groups differ at most in their levels.
pub open spec fn same_but_levels(a: Seq<AppGroup>, b: Seq<AppGroup>) -> bool {
    &&& a.len() == b.len()
    &&& forall|i: int| 0 <= i < a.len() ==> (#[trigger] a[i]).id == b[i].id && a[i].member_ids == b[i].member_ids
}

proof fn lemma_same_group(a: Seq<AppGroup>, b: Seq<AppGroup>, id: Seq<char>, i: int)
    requires
        same_but_levels(a, b),
        0 <= i,
    ensures
        group_from(a, id, i) == group_from(b, id, i),
    decreases a.len() - i,
{
    if i < a.len() {
        assert(a[i].id == b[i].id);
        lemma_same_group(a, b, id, i + 1);
    }
}

proof fn lemma_group_from(groups: Seq<AppGroup>, id: Seq<char>, i: int)
    requires
        0 <= i,
    ensures
        group_from(groups, id, i) matches Some(k) ==> i <= k < groups.len() && groups[k].id@ == id,
    decreases groups.len() - i,
{
    if i < groups.len() && groups[i].id@ != id {
        lemma_group_from(groups, id, i + 1);
    }
}

/// Sets the level of a group.
fn set_level(groups: &mut Vec<AppGroup>, k: usize, level: i64)
    requires
        k < old(groups)@.len(),
    ensures
        final(groups)@ == old(groups)@.update(
            k as int,
            AppGroup { group_volume: level, ..old(groups)@[k as int] },
        ),
        same_but_levels(final(groups)@, old(groups)@),
{
    groups[k].group_volume = level;
    proof {
        assert(groups@ =~= old(groups)@.update(k as int, AppGroup { group_volume: level, ..old(groups)@[k as int] }));
    }
}

// ---------------------------------------------------------------------------
// Keeping groups together
// ---------------------------------------------------------------------------

/// The first `n` groups' levels after one of their members is at a level.
pub open spec fn followed(groups: Seq<AppGroup>, n: int, id: Seq<char>, level: int) -> Seq<AppGroup>
    decreases n,
{
    if n <= 0 {
        groups
    } else {
        let before = followed(groups, n - 1, id, level);
        if has_id(groups[n - 1].member_ids@, id) {
            with_level(before, groups[n - 1].id@, level)
        } else {
            before
        }
    }
}

/// What the first `k` members of a group are told: those that are not near their
/// level yet.
pub open spec fn member_sets(
    members: Seq<String>,
    k: int,
    id: Seq<char>,
    level: int,
    devices: Seq<Entry>,
) -> Seq<(Seq<char>, int)>
    decreases k,
{
    if k <= 0 {
        Seq::empty()
    } else {
        let before = member_sets(members, k - 1, id, level, devices);
        let m = members[k - 1]@;
        let target = scaled(level, gain_in(devices, m));
        if m != id && distance(volume_in(devices, m), target) > NEAR_LEVEL {
            before.push((m, target))
        } else {
            before
        }
    }
}

/// What the members of the first `n` groups are told.
pub open spec fn follow_sets(
    groups: Seq<AppGroup>,
    n: int,
    id: Seq<char>,
    level: int,
    devices: Seq<Entry>,
) -> Seq<(Seq<char>, int)>
    decreases n,
{
    if n <= 0 {
        Seq::empty()
    } else {
        let before = follow_sets(groups, n - 1, id, level, devices);
        let g = groups[n - 1];
        if has_id(g.member_ids@, id) {
            before + member_sets(g.member_ids@, g.member_ids@.len() as int, id, level, devices)
        } else {
            before
        }
    }
}

pub(crate) fn push_set(out: &mut Vec<VolumeSet>, id: &str, level: i64)
    ensures
        set_models(final(out)@) == set_models(old(out)@).push((id@, level as int)),
{
    out.push(VolumeSet { id: id.to_string(), level });
    proof {
        assert(set_models(out@) =~= set_models(old(out)@).push((id@, level as int)));
    }
}

fn tell_members(members: &Vec<String>, id: &str, level: i64, devices: &Vec<Entry>, out: &mut Vec<VolumeSet>)
    ensures
        set_models(final(out)@) == set_models(old(out)@) + member_sets(
            members@,
            members@.len() as int,
            id@,
            level as int,
            devices@,
        ),
{
    let ghost base = set_models(out@);
    let mut k: usize = 0;
    proof {
        assert(base + member_sets(members@, 0, id@, level as int, devices@) =~= base);
    }
    while k < members.len()
        invariant
            k <= members.len(),
            base == set_models(old(out)@),
            set_models(out@) == base + member_sets(members@, k as int, id@, level as int, devices@),
        decreases members.len() - k,
    {
        let m = members[k].as_str();
        let ghost before = member_sets(members@, k as int, id@, level as int, devices@);
        if !str_same(m, id) {
            let target: i64 = scale(level, gain_of(devices, m));
            let cur: i64 = volume_of(devices, m);
            if distance_of(cur, target) > NEAR_LEVEL as u64 {
                push_set(out, m, target);
                proof {
                    assert((base + before).push((m@, target as int)) =~= base + before.push((m@, target as int)));
                }
            }
        }
        k = k + 1;
    }
}

/// Carries the level of a device over to its groups and tells their other members.
fn follow(groups: &mut Vec<AppGroup>, id: &str, level: i64, devices: &Vec<Entry>) -> (out: Vec<VolumeSet>)
    ensures
        final(groups)@ == followed(old(groups)@, old(groups)@.len() as int, id@, level as int),
        set_models(out@) == follow_sets(
            old(groups)@,
            old(groups)@.len() as int,
            id@,
            level as int,
            devices@,
        ),
{
    let ghost g0 = groups@;
    let mut out: Vec<VolumeSet> = Vec::new();
    let mut i: usize = 0;
    proof {
        assert(set_models(out@) =~= Seq::<(Seq<char>, int)>::empty());
    }
    while i < groups.len()
        invariant
            i <= groups.len(),
            g0 == old(groups)@,
            same_but_levels(groups@, g0),
            groups@ == followed(g0, i as int, id@, level as int),
            set_models(out@) == follow_sets(g0, i as int, id@, level as int, devices@),
        decreases groups.len() - i,
    {
        let ghost gi = groups@;
        proof {
            assert(gi[i as int].id == g0[i as int].id && gi[i as int].member_ids == g0[i as int].member_ids);
        }
        if holds_id(&groups[i].member_ids, id) {
            let gid = groups[i].id.clone();
            match find_group(groups, gid.as_str()) {
                Some(k) => {
                    set_level(groups, k, level);
                    proof {
                        assert forall|j: int| 0 <= j < groups@.len() implies (#[trigger] groups@[j]).id == g0[j].id
                            && groups@[j].member_ids == g0[j].member_ids by {
                            assert(gi[j].id == g0[j].id && gi[j].member_ids == g0[j].member_ids);
                        }
                    }
                },
                None => {},
            }
            proof {
                assert(groups@[i as int].member_ids == g0[i as int].member_ids);
            }
            tell_members(&groups[i].member_ids, id, level, devices, &mut out);
        }
        i = i + 1;
    }
    out
}

// ---------------------------------------------------------------------------
// Events
// ---------------------------------------------------------------------------

/// Whether a reported volume is the echo of one that was asked for.
pub open spec fn is_echo(pending: Seq<(String, Pending)>, id: Seq<char>, volume: int, now: int) -> bool {
    match value_of(pending, id) {
        Some(p) => distance(p.level as int, volume) <= ECHO_LEVEL && now - p.at < ECHO_MS,
        None => false,
    }
}

/// Whether a report says something new of a device.
pub open spec fn is_change(devices: Seq<Entry>, id: Seq<char>, volume: int, muted: bool) -> bool {
    match device_at(devices, id) {
        Some(i) => distance(devices[i].info.volume as int, volume) > CHANGE_LEVEL || devices[i].info.muted != muted,
        None => true,
    }
}

/// Whether a report is a change made elsewhere that its groups must follow.
pub open spec fn is_followed(s: CoreInner, id: Seq<char>, volume: int, muted: bool, now: int) -> bool {
    &&& is_change(s.devices@, id, volume, muted)
    &&& device_at(s.devices@, id) is Some
    &&& !is_echo(s.pending@, id, volume, now)
    &&& !has_id(s.hold_sync@, id)
}

/// The devices after a report of a device's volume.
pub open spec fn with_volume(devices: Seq<Entry>, id: Seq<char>, volume: i64, muted: bool, seen: i64) -> Seq<Entry> {
    match device_at(devices, id) {
        Some(i) => devices.update(
            i,
            Entry {
                info: DeviceInfo { volume, muted, last_seen: seen, ..devices[i].info },
                group_members: devices[i].group_members,
            },
        ),
        None => devices,
    }
}

fn store_volume(devices: &mut Vec<Entry>, id: &str, volume: i64, muted: bool, seen: i64) -> (roku: bool)
    ensures
        final(devices)@ == with_volume(old(devices)@, id@, volume, muted, seen),
        roku == (device_at(old(devices)@, id@) is Some && old(devices)@[device_at(
            old(devices)@,
            id@,
        )->0].info.backend == Backend::Roku),
{
    match find_device(devices, id) {
        Some(i) => {
            devices[i].info.volume = volume;
            devices[i].info.muted = muted;
            devices[i].info.last_seen = seen;
            proof {
                assert(devices@ =~= with_volume(old(devices)@, id@, volume, muted, seen));
            }
            devices[i].info.backend == Backend::Roku
        },
        None => false,
    }
}

fn changed(devices: &Vec<Entry>, id: &str, volume: i64, muted: bool) -> (r: bool)
    ensures
        r == is_change(devices@, id@, volume as int, muted),
{
    match find_device(devices, id) {
        Some(i) => distance_of(devices[i].info.volume, volume) > CHANGE_LEVEL as u64 || devices[i].info.muted != muted,
        None => true,
    }
}

fn echoed(pending: &Vec<(String, Pending)>, id: &str, volume: i64, now: i64) -> (r: bool)
    ensures
        r == is_echo(pending@, id@, volume as int, now as int),
{
    match find_key(pending, id) {
        Some(i) => {
            let p = pending[i].1;
            proof {
                assert(value_of(pending@, id@) == Some(p));
            }
            distance_of(p.level, volume) <= ECHO_LEVEL as u64 && now as i128 - (p.at as i128) < ECHO_MS as i128
        },
        None => false,
    }
}

/// What a report of a device's volume does to the state, and which volumes are to
/// be set on other devices to keep its groups together.
pub open spec fn took_volume(
    s0: CoreInner,
    s1: CoreInner,
    id: Seq<char>,
    volume: i64,
    muted: bool,
    seen: i64,
    now: i64,
    out: Seq<VolumeSet>,
) -> bool {
    let d = device_at(s0.devices@, id);
    let roku = d is Some && s0.devices@[d->0].info.backend == Backend::Roku;
    let is_new = is_change(s0.devices@, id, volume as int, muted);
    let heard = is_new && is_echo(s0.pending@, id, volume as int, now as int);
    let level = unscaled(volume as int, gain_in(s0.devices@, id));
    let groups = s0.cfg.groups@;
    &&& s1.devices@ == with_volume(s0.devices@, id, volume, muted, seen)
    &&& roku ==> value_of(s1.cfg.roku_levels@, id) == Some(percent_of(volume as int) as u8)
    &&& forall|k: Seq<char>|
        (k != id || !roku) ==> #[trigger] value_of(s1.cfg.roku_levels@, k) == value_of(s0.cfg.roku_levels@, k)
    &&& heard ==> value_of(s1.pending@, id) is None
    &&& forall|k: Seq<char>|
        (k != id || !heard) ==> #[trigger] value_of(s1.pending@, k) == value_of(s0.pending@, k)
    &&& if is_followed(s0, id, volume as int, muted, now as int) {
        &&& s1.cfg.groups@ == followed(groups, groups.len() as int, id, level)
        &&& set_models(out) == follow_sets(groups, groups.len() as int, id, level, s1.devices@)
    } else {
        &&& s1.cfg.groups@ == groups
        &&& out.len() == 0
    }
    &&& s1.cfg_dirty == (s0.cfg_dirty || is_new)
    &&& s1 == (CoreInner {
        devices: s1.devices,
        pending: s1.pending,
        cfg_dirty: s1.cfg_dirty,
        cfg: AppConfig { groups: s1.cfg.groups, roku_levels: s1.cfg.roku_levels, ..s0.cfg },
        ..s0
    })
}

/// Takes in a report of a device's volume. The volumes that come back are to be set
/// on other devices, to keep its groups together.
pub fn volume_changed(s: &mut CoreInner, id: &str, volume: i64, muted: bool, seen: i64, now: i64) -> (out: Vec<VolumeSet>)
    ensures
        took_volume(*old(s), *final(s), id@, volume, muted, seen, now, out@),
{
    let known: bool = find_device(&s.devices, id).is_some();
    let is_new: bool = changed(&s.devices, id, volume, muted);
    let gain: i64 = gain_of(&s.devices, id);
    let ghost d0 = s.devices@;
    let roku: bool = store_volume(&mut s.devices, id, volume, muted, seen);
    proof {
        lemma_device_from(d0, id@, 0);
    }
    if roku {
        put_value(&mut s.cfg.roku_levels, id, percent(volume));
    }
    let mut out: Vec<VolumeSet> = Vec::new();
    if is_new {
        if echoed(&s.pending, id, volume, now) {
            remove_key(&mut s.pending, id);
        } else if known && !holds_id(&s.hold_sync, id) {
            let level: i64 = unscale(volume, gain);
            out = follow(&mut s.cfg.groups, id, level, &s.devices);
        }
        s.cfg_dirty = true;
    }
    out
}

/// What going on or off the network does to the state.
pub open spec fn took_online(s0: CoreInner, s1: CoreInner, id: Seq<char>, online: bool, seen: i64) -> bool {
    &&& s1.devices@ == (match device_at(s0.devices@, id) {
        Some(i) => s0.devices@.update(
            i,
            Entry {
                info: DeviceInfo {
                    online,
                    last_seen: if online {
                        seen
                    } else {
                        s0.devices@[i].info.last_seen
                    },
                    media: if online {
                        s0.devices@[i].info.media
                    } else {
                        None
                    },
                    ..s0.devices@[i].info
                },
                group_members: s0.devices@[i].group_members,
            },
        ),
        None => s0.devices@,
    })
    &&& s1.cfg_dirty == (s0.cfg_dirty || device_at(s0.devices@, id) is Some)
    &&& s1 == (CoreInner { devices: s1.devices, cfg_dirty: s1.cfg_dirty, ..s0 })
}

/// Takes in that a device went on or off the network. One that is off plays
/// nothing.
pub fn online_changed(s: &mut CoreInner, id: &str, online: bool, seen: i64)
    ensures
        took_online(*old(s), *final(s), id@, online, seen),
{
    match find_device(&s.devices, id) {
        Some(i) => {
            s.devices[i].info.online = online;
            if online {
                s.devices[i].info.last_seen = seen;
            } else {
                s.devices[i].info.media = None;
            }
            s.cfg_dirty = true;
            proof {
                let e = old(s).devices@[i as int];
                assert(s.devices@ =~= old(s).devices@.update(
                    i as int,
                    Entry {
                        info: DeviceInfo {
                            online,
                            last_seen: if online {
                                seen
                            } else {
                                e.info.last_seen
                            },
                            media: if online {
                                e.info.media
                            } else {
                                None
                            },
                            ..e.info
                        },
                        group_members: e.group_members,
                    },
                ));
            }
        },
        None => {},
    }
}

/// What a report of what a device plays does to the state.
pub open spec fn took_media(s0: CoreInner, s1: CoreInner, id: Seq<char>, media: Option<MediaInfo>) -> bool {
    &&& s1.devices@ == (match device_at(s0.devices@, id) {
        Some(i) => s0.devices@.update(
            i,
            Entry {
                info: DeviceInfo { media, ..s0.devices@[i].info },
                group_members: s0.devices@[i].group_members,
            },
        ),
        None => s0.devices@,
    })
    &&& s1 == (CoreInner { devices: s1.devices, ..s0 })
}

/// Takes in what a device plays.
pub fn media_changed(s: &mut CoreInner, id: &str, media: Option<MediaInfo>)
    ensures
        took_media(*old(s), *final(s), id@, media),
{
    match find_device(&s.devices, id) {
        Some(i) => {
            s.devices[i].info.media = media;
            proof {
                let e = old(s).devices@[i as int];
                assert(s.devices@ =~= old(s).devices@.update(
                    i as int,
                    Entry { info: DeviceInfo { media, ..e.info }, group_members: e.group_members },
                ));
            }
        },
        None => {},
    }
}

/// What a report of a group's speakers does to the state.
pub open spec fn took_members(s0: CoreInner, s1: CoreInner, id: Seq<char>, members: Vec<String>) -> bool {
    &&& s1.devices@ == (match device_at(s0.devices@, id) {
        Some(i) => s0.devices@.update(
            i,
            Entry { info: s0.devices@[i].info, group_members: members },
        ),
        None => s0.devices@,
    })
    &&& s1 == (CoreInner { devices: s1.devices, ..s0 })
}

/// Takes in the speakers of a group of speakers.
pub fn members_changed(s: &mut CoreInner, id: &str, members: Vec<String>)
    ensures
        took_members(*old(s), *final(s), id@, members),
{
    match find_device(&s.devices, id) {
        Some(i) => {
            s.devices[i].group_members = members;
            proof {
                let e = old(s).devices@[i as int];
                assert(s.devices@ =~= old(s).devices@.update(
                    i as int,
                    Entry { info: e.info, group_members: members },
                ));
            }
        },
        None => {},
    }
}

/// The name of a kind of device.
pub open spec fn backend_text(b: Backend) -> Seq<char> {
    match b {
        Backend::Cast => "Cast"@,
        Backend::Roku => "Roku"@,
        Backend::Yamaha => "Yamaha"@,
        Backend::Lg => "Lg"@,
        Backend::Optoma => "Optoma"@,
    }
}

pub fn backend_name(b: Backend) -> (r: String)
    ensures
        r@ == backend_text(b),
{
    match b {
        Backend::Cast => "Cast".to_string(),
        Backend::Roku => "Roku".to_string(),
        Backend::Yamaha => "Yamaha".to_string(),
        Backend::Lg => "Lg".to_string(),
        Backend::Optoma => "Optoma".to_string(),
    }
}

/// A text in small letters, by the rules of Unicode.
pub uninterp spec fn small_letters(s: Seq<char>) -> Seq<char>;

/// `str::to_lowercase`. A text of ASCII characters alone comes back with its
/// letters in small ones.
#[verifier::external_body]
pub(crate) fn to_small_letters(s: &str) -> (r: String)
    ensures
        r@ == small_letters(s@),
        (forall|i: int| 0 <= i < s@.len() ==> (#[trigger] s@[i] as u32) < 128) ==> r@ == crate::text::lower(s@),
{
    s.to_lowercase()
}

/// The id of a device that was added by its address.
pub open spec fn manual_id_of(b: Backend, ip: Seq<char>) -> Seq<char> {
    small_letters(backend_text(b) + ":"@ + ip)
}

pub fn manual_id(b: Backend, ip: &str) -> (r: String)
    ensures
        r@ == manual_id_of(b, ip@),
{
    let name = backend_name(b);
    let mut v = chars_of(name.as_str());
    let mut c = chars_of(":");
    let mut i = chars_of(ip);
    v.append(&mut c);
    v.append(&mut i);
    let t = string_of(v.as_slice());
    to_small_letters(t.as_str())
}

/// The position of the device with an id among those added by address, from the
/// i-th on.
pub open spec fn manual_from(list: Seq<ManualDevice>, id: Seq<char>, i: int) -> Option<int>
    decreases list.len() - i,
{
    if i >= list.len() {
        None
    } else if manual_id_of(list[i].backend, list[i].ip@) == id {
        Some(i)
    } else {
        manual_from(list, id, i + 1)
    }
}

fn find_manual(list: &Vec<ManualDevice>, id: &str) -> (r: Option<usize>)
    ensures
        match r {
            Some(i) => manual_from(list@, id@, 0) == Some(i as int) && i < list@.len(),
            None => manual_from(list@, id@, 0) is None,
        },
{
    let mut i: usize = 0;
    while i < list.len()
        invariant
            i <= list.len(),
            manual_from(list@, id@, 0) == manual_from(list@, id@, i as int),
        decreases list.len() - i,
    {
        let m = manual_id(list[i].backend, list[i].ip.as_str());
        if str_same(m.as_str(), id) {
            return Some(i);
        }
        i = i + 1;
    }
    None
}

/// What a report of a TV's state does to the state.
pub open spec fn took_status(s0: CoreInner, s1: CoreInner, id: Seq<char>, tv: TvStatus, macs: Vec<String>) -> bool {
    &&& s1.devices@ == (match device_at(s0.devices@, id) {
        Some(i) => s0.devices@.update(
            i,
            Entry {
                info: DeviceInfo { tv: Some(tv), ..s0.devices@[i].info },
                group_members: s0.devices@[i].group_members,
            },
        ),
        None => s0.devices@,
    })
    &&& ({
        let list = s0.cfg.manual_devices@;
        let k = manual_from(list, id, 0);
        let learned = k is Some && macs@.len() > 0 && texts(list[k->0].macs@) != texts(macs@);
        &&& s1.cfg.manual_devices@ == (if learned {
            list.update(k->0, ManualDevice { macs, ..list[k->0] })
        } else {
            list
        })
        &&& s1.cfg_dirty == (s0.cfg_dirty || learned)
    })
    &&& s1 == (CoreInner {
        devices: s1.devices,
        cfg_dirty: s1.cfg_dirty,
        cfg: AppConfig { manual_devices: s1.cfg.manual_devices, ..s0.cfg },
        ..s0
    })
}

/// Takes in the state of a TV, and keeps the addresses by which it is woken.
pub fn status_changed(s: &mut CoreInner, id: &str, tv: TvStatus, macs: Vec<String>)
    ensures
        took_status(*old(s), *final(s), id@, tv, macs),
{
    match find_device(&s.devices, id) {
        Some(i) => {
            s.devices[i].info.tv = Some(tv);
            proof {
                let e = old(s).devices@[i as int];
                assert(s.devices@ =~= old(s).devices@.update(
                    i as int,
                    Entry { info: DeviceInfo { tv: Some(tv), ..e.info }, group_members: e.group_members },
                ));
            }
        },
        None => {},
    }
    match find_manual(&s.cfg.manual_devices, id) {
        Some(k) => {
            if macs.len() > 0 && !same_texts(&s.cfg.manual_devices[k].macs, &macs) {
                s.cfg.manual_devices[k].macs = macs;
                s.cfg_dirty = true;
                proof {
                    let list = old(s).cfg.manual_devices@;
                    assert(s.cfg.manual_devices@ =~= list.update(
                        k as int,
                        ManualDevice { macs, ..list[k as int] },
                    ));
                }
            }
        },
        None => {},
    }
}

/// What an event asks for beyond the state: volumes to be set, and whether the
/// now-playing part of the tray menu may have changed.
#[derive(Debug)]
pub struct Reaction {
    pub sets: Vec<VolumeSet>,
    pub playback: bool,
}

/// Takes in an event of a device, seen at a time in seconds and heard at one in
/// milliseconds.
pub fn handle_event(s: &mut CoreInner, ev: CoreEvent, seen: i64, now: i64) -> (r: Reaction)
    ensures
        match ev {
            CoreEvent::VolumeChanged { id, volume, muted } => took_volume(
                *old(s),
                *final(s),
                id@,
                volume,
                muted,
                seen,
                now,
                r.sets@,
            ) && !r.playback,
            CoreEvent::MediaChanged { id, media } => took_media(*old(s), *final(s), id@, media) && r.sets@.len() == 0
                && r.playback,
            CoreEvent::Online { id, online } => took_online(*old(s), *final(s), id@, online, seen) && r.sets@.len()
                == 0 && r.playback,
            CoreEvent::GroupMembers { id, members } => took_members(*old(s), *final(s), id@, members) && r.sets@.len()
                == 0 && !r.playback,
            CoreEvent::DeviceStatus { id, tv, macs } => took_status(*old(s), *final(s), id@, tv, macs)
                && r.sets@.len() == 0 && !r.playback,
        },
{
    let none: Vec<VolumeSet> = Vec::new();
    match ev {
        CoreEvent::VolumeChanged { id, volume, muted } => {
            let sets = volume_changed(s, id.as_str(), volume, muted, seen, now);
            Reaction { sets, playback: false }
        },
        CoreEvent::MediaChanged { id, media } => {
            media_changed(s, id.as_str(), media);
            Reaction { sets: none, playback: true }
        },
        CoreEvent::Online { id, online } => {
            online_changed(s, id.as_str(), online, seen);
            Reaction { sets: none, playback: true }
        },
        CoreEvent::GroupMembers { id, members } => {
            members_changed(s, id.as_str(), members);
            Reaction { sets: none, playback: false }
        },
        CoreEvent::DeviceStatus { id, tv, macs } => {
            status_changed(s, id.as_str(), tv, macs);
            Reaction { sets: none, playback: false }
        },
    }
}

/// A report that matches a volume asked for less than five seconds before is
/// followed by nobody.
pub proof fn law_echo_is_not_followed(s: CoreInner, id: Seq<char>, volume: int, muted: bool, now: int, asked: Pending)
    requires
        value_of(s.pending@, id) == Some(asked),
        distance(asked.level as int, volume) <= ECHO_LEVEL,
        now - asked.at < ECHO_MS,
    ensures
        !is_followed(s, id, volume, muted, now),
{
}

/// A report within half a per cent of what is known is followed by nobody.
pub proof fn law_small_change_is_not_followed(s: CoreInner, id: Seq<char>, volume: int, now: int, i: int)
    requires
        device_at(s.devices@, id) == Some(i),
        distance(s.devices@[i].info.volume as int, volume) <= CHANGE_LEVEL,
    ensures
        !is_followed(s, id, volume, s.devices@[i].info.muted, now),
{
}

proof fn lemma_member_told(members: Seq<String>, n: int, id: Seq<char>, level: int, devices: Seq<Entry>, k: int)
    requires
        0 <= k < n <= members.len(),
        members[k]@ != id,
        distance(volume_in(devices, members[k]@), scaled(level, gain_in(devices, members[k]@))) > NEAR_LEVEL,
    ensures
        member_sets(members, n, id, level, devices).contains(
            (members[k]@, scaled(level, gain_in(devices, members[k]@))),
        ),
    decreases n,
{
    let want = (members[k]@, scaled(level, gain_in(devices, members[k]@)));
    let before = member_sets(members, n - 1, id, level, devices);
    let all = member_sets(members, n, id, level, devices);
    if k == n - 1 {
        assert(all == before.push(want));
        assert(all[before.len() as int] == want);
    } else {
        lemma_member_told(members, n - 1, id, level, devices, k);
        let j = before.index_of(want);
        assert(before[j] == want);
        assert(all[j] == want);
    }
}

/// When a change is followed, every other member of every group of the device is
/// either near the level that its gain gives it, or told to go there.
pub proof fn law_members_follow(
    groups: Seq<AppGroup>,
    n: int,
    g: int,
    k: int,
    id: Seq<char>,
    level: int,
    devices: Seq<Entry>,
)
    requires
        0 <= g < n <= groups.len(),
        has_id(groups[g].member_ids@, id),
        0 <= k < groups[g].member_ids@.len(),
        groups[g].member_ids@[k]@ != id,
    ensures
        ({
            let m = groups[g].member_ids@[k]@;
            let target = scaled(level, gain_in(devices, m));
            distance(volume_in(devices, m), target) <= NEAR_LEVEL || follow_sets(groups, n, id, level, devices).contains(
                (m, target),
            )
        }),
    decreases n,
{
    let m = groups[g].member_ids@[k]@;
    let want = (m, scaled(level, gain_in(devices, m)));
    let before = follow_sets(groups, n - 1, id, level, devices);
    let all = follow_sets(groups, n, id, level, devices);
    if distance(volume_in(devices, m), want.1) > NEAR_LEVEL {
        if g == n - 1 {
            let ms = groups[g].member_ids@;
            let told = member_sets(ms, ms.len() as int, id, level, devices);
            lemma_member_told(ms, ms.len() as int, id, level, devices, k);
            let j = told.index_of(want);
            assert(told[j] == want);
            assert(all[before.len() + j] == want);
        } else {
            law_members_follow(groups, n - 1, g, k, id, level, devices);
            let j = before.index_of(want);
            assert(before[j] == want);
            assert(all[j] == want);
        }
    }
}

proof fn lemma_followed_shape(groups: Seq<AppGroup>, n: int, id: Seq<char>, level: int)
    requires
        0 <= n <= groups.len(),
    ensures
        same_but_levels(followed(groups, n, id, level), groups),
    decreases n,
{
    if n > 0 {
        lemma_followed_shape(groups, n - 1, id, level);
        let f = followed(groups, n - 1, id, level);
        lemma_group_from(f, groups[n - 1].id@, 0);
        assert forall|i: int| 0 <= i < groups.len() implies (#[trigger] followed(groups, n, id, level)[i]).id
            == groups[i].id && followed(groups, n, id, level)[i].member_ids == groups[i].member_ids by {
            assert(f[i].id == groups[i].id && f[i].member_ids == groups[i].member_ids);
        }
    }
}

/// When a change is followed, every group of the device that can be found by its id
/// is at the level that the change stands for.
pub proof fn law_groups_take_the_level(groups: Seq<AppGroup>, n: int, g: int, id: Seq<char>, level: i64)
    requires
        0 <= g < n <= groups.len(),
        has_id(groups[g].member_ids@, id),
        group_from(groups, groups[g].id@, 0) == Some(g),
    ensures
        followed(groups, n, id, level as int).len() == groups.len(),
        followed(groups, n, id, level as int)[g].group_volume == level,
    decreases n,
{
    lemma_followed_shape(groups, n, id, level as int);
    lemma_followed_shape(groups, n - 1, id, level as int);
    let f = followed(groups, n - 1, id, level as int);
    lemma_same_group(f, groups, groups[n - 1].id@, 0);
    lemma_group_from(f, groups[n - 1].id@, 0);
    if g < n - 1 {
        law_groups_take_the_level(groups, n - 1, g, id, level);
    } else {
        lemma_same_group(f, groups, groups[g].id@, 0);
    }
}

/// An entry of the now-playing part of the tray menu, as far as it matters whether
/// the menu must be built anew.
#[derive(Debug)]
pub struct TrayKey {
    pub id: String,
    pub playing: bool,
    pub title: Option<String>,
    pub artist: Option<String>,
}

// ---------------------------------------------------------------------------
// What a report of a volume means for the groups
// ---------------------------------------------------------------------------

/// Whether a device is the first of its id.
pub open spec fn stands_at(devices: Seq<Entry>, id: Seq<char>, d: int) -> bool {
    &&& 0 <= d < devices.len()
    &&& devices[d].info.id@ == id
    &&& forall|j: int| 0 <= j < d ==> (#[trigger] devices[j]).info.id@ != id
}

pub proof fn lemma_stands_at(devices: Seq<Entry>, id: Seq<char>, d: int, i: int)
    requires
        stands_at(devices, id, d),
        0 <= i <= d,
    ensures
        device_from(devices, id, i) == Some(d),
    decreases d - i,
{
    if i < d {
        assert(devices[i].info.id@ != id);
        lemma_stands_at(devices, id, d, i + 1);
    }
}

pub proof fn lemma_first_group(groups: Seq<AppGroup>, g: int, i: int)
    requires
        0 <= i <= g < groups.len(),
        forall|j: int| 0 <= j < g ==> (#[trigger] groups[j]).id@ != groups[g].id@,
    ensures
        group_from(groups, groups[g].id@, i) == Some(g),
    decreases g - i,
{
    if i < g {
        assert(groups[i].id@ != groups[g].id@);
        lemma_first_group(groups, g, i + 1);
    }
}

proof fn lemma_no_echo(pending: Seq<(String, Pending)>, id: Seq<char>, volume: int, now: int)
    requires
        forall|j: int|
            0 <= j < pending.len() && (#[trigger] pending[j]).0@ == id ==> now - pending[j].1.at >= 5_000 || volume
                - pending[j].1.level > 30_000 || pending[j].1.level - volume > 30_000,
    ensures
        !is_echo(pending, id, volume, now),
{
    crate::config::lemma_key_from(pending, id, 0);
    match crate::config::key_from(pending, id, 0) {
        Some(k) => {
            assert(pending[k].0@ == id);
        },
        None => {},
    }
}

/// Whether a volume is a level times a gain, both in millionths, to the nearest millionth,
/// or full volume where the product is beyond it.
pub open spec fn is_nearest_product(t: int, level: int, gain: int) -> bool {
    &&& 0 <= t <= 1_000_000
    &&& t < 1_000_000 ==> -500_000 <= level * gain - 1_000_000 * t <= 500_000
    &&& t == 1_000_000 ==> level * gain >= 999_999_500_000
}

/// A device that is turned up or down by more than half a per cent, or muted or unmuted,
/// is followed, unless that was asked of it in the last five seconds or it is held: each
/// of its groups takes its volume divided by its gain as the group's level, and every
/// other member that is known is within one per cent of that level times its own gain or
/// is told to go there.
pub proof fn law_turning_a_device_is_followed(
    s0: CoreInner,
    s1: CoreInner,
    id: Seq<char>,
    volume: i64,
    muted: bool,
    seen: i64,
    now: i64,
    out: Seq<VolumeSet>,
    d: int,
    g: int,
    a: int,
    b: int,
    e: int,
)
    requires
        took_volume(s0, s1, id, volume, muted, seen, now, out),
        stands_at(s0.devices@, id, d),
        volume - s0.devices@[d].info.volume > 5_000 || s0.devices@[d].info.volume - volume > 5_000
            || s0.devices@[d].info.muted != muted,
        forall|j: int| 0 <= j < s0.hold_sync@.len() ==> (#[trigger] s0.hold_sync@[j])@ != id,
        forall|j: int|
            0 <= j < s0.pending@.len() && (#[trigger] s0.pending@[j]).0@ == id ==> now - s0.pending@[j].1.at >= 5_000
                || volume - s0.pending@[j].1.level > 30_000 || s0.pending@[j].1.level - volume > 30_000,
        0 <= g < s0.cfg.groups@.len(),
        forall|j: int| 0 <= j < g ==> (#[trigger] s0.cfg.groups@[j]).id@ != s0.cfg.groups@[g].id@,
        0 <= a < s0.cfg.groups@[g].member_ids@.len(),
        s0.cfg.groups@[g].member_ids@[a]@ == id,
        0 <= b < s0.cfg.groups@[g].member_ids@.len(),
        s0.cfg.groups@[g].member_ids@[b]@ != id,
        stands_at(s0.devices@, s0.cfg.groups@[g].member_ids@[b]@, e),
        0 <= volume <= 1_000_000,
        50_000 <= s0.devices@[d].info.sync_gain,
        0 <= s0.devices@[e].info.sync_gain,
    ensures
        s1.cfg.groups@.len() == s0.cfg.groups@.len(),
        ({
            let own = s0.devices@[d].info.sync_gain as int;
            let other = s0.devices@[e].info.sync_gain as int;
            let level = s1.cfg.groups@[g].group_volume as int;
            &&& 0 <= level <= 1_000_000
            &&& level < 1_000_000 ==> -own <= 2 * (1_000_000 * volume - level * own) <= own
            &&& level == 1_000_000 ==> 2 * (1_000_000 * volume) >= 2 * (1_000_000 * own) - own
            &&& exists|t: int| #[trigger]
                is_nearest_product(t, level, other) && (-10_000 <= s0.devices@[e].info.volume - t <= 10_000
                    || set_models(out).contains((s0.cfg.groups@[g].member_ids@[b]@, t)))
        }),
{
    let m = s0.cfg.groups@[g].member_ids@[b]@;
    let groups = s0.cfg.groups@;
    lemma_stands_at(s0.devices@, id, d, 0);
    lemma_stands_at(s0.devices@, m, e, 0);
    lemma_no_echo(s0.pending@, id, volume as int, now as int);
    assert(has_id(groups[g].member_ids@, id));
    let own = s0.devices@[d].info.sync_gain as int;
    let level = unscaled(volume as int, own);
    crate::levels::law_unscaled_is_the_quotient(volume as int, own);
    lemma_first_group(groups, g, 0);
    law_groups_take_the_level(groups, groups.len() as int, g, id, level as i64);
    assert(stands_at(s1.devices@, m, e)) by {
        assert forall|j: int| 0 <= j < e implies (#[trigger] s1.devices@[j]).info.id@ != m by {
            assert(s0.devices@[j].info.id@ != m);
        }
    }
    lemma_stands_at(s1.devices@, m, e, 0);
    law_members_follow(groups, groups.len() as int, g, b, id, level, s1.devices@);
    let other = s0.devices@[e].info.sync_gain as int;
    assert(s1.cfg.groups@[g].group_volume as int == level);
    let t = scaled(level, other);
    crate::levels::law_scaled_is_the_product(level, other);
    assert(gain_in(s1.devices@, m) == other);
    assert(s1.devices@[e].info.volume == s0.devices@[e].info.volume);
    assert(level < 1_000_000 ==> -own <= 2 * (1_000_000 * volume - level * own) <= own);
    assert(is_nearest_product(t, level, other));
    assert(-10_000 <= s0.devices@[e].info.volume - t <= 10_000 || set_models(out).contains((m, t)));
}

proof fn lemma_sets_are_for_others(members: Seq<String>, n: int, id: Seq<char>, level: int, devices: Seq<Entry>, k: int)
    requires
        0 <= n <= members.len(),
        0 <= k < member_sets(members, n, id, level, devices).len(),
    ensures
        member_sets(members, n, id, level, devices)[k].0 != id,
        exists|b: int| 0 <= b < n && (#[trigger] members[b])@ == member_sets(members, n, id, level, devices)[k].0,
    decreases n,
{
    if n > 0 {
        let before = member_sets(members, n - 1, id, level, devices);
        if k < before.len() {
            lemma_sets_are_for_others(members, n - 1, id, level, devices, k);
        } else {
            assert(members[n - 1]@ == member_sets(members, n, id, level, devices)[k].0);
        }
    }
}

proof fn lemma_only_members_are_told(groups: Seq<AppGroup>, n: int, id: Seq<char>, level: int, devices: Seq<Entry>, k: int)
    requires
        0 <= n <= groups.len(),
        0 <= k < follow_sets(groups, n, id, level, devices).len(),
    ensures
        follow_sets(groups, n, id, level, devices)[k].0 != id,
        exists|g: int|
            0 <= g < n && has_id((#[trigger] groups[g]).member_ids@, id) && has_id(
                groups[g].member_ids@,
                follow_sets(groups, n, id, level, devices)[k].0,
            ),
    decreases n,
{
    if n > 0 {
        let before = follow_sets(groups, n - 1, id, level, devices);
        if k < before.len() {
            lemma_only_members_are_told(groups, n - 1, id, level, devices, k);
        } else {
            let ms = groups[n - 1].member_ids@;
            lemma_sets_are_for_others(ms, ms.len() as int, id, level, devices, k - before.len());
            assert(has_id(groups[n - 1].member_ids@, id));
        }
    }
}

/// Whoever is told a volume shares a group with the device that reported one, and is not
/// that device itself.
pub proof fn law_only_members_of_its_groups_are_told(
    s0: CoreInner,
    s1: CoreInner,
    id: Seq<char>,
    volume: i64,
    muted: bool,
    seen: i64,
    now: i64,
    out: Seq<VolumeSet>,
    k: int,
)
    requires
        took_volume(s0, s1, id, volume, muted, seen, now, out),
        0 <= k < out.len(),
    ensures
        out[k].id@ != id,
        exists|g: int|
            0 <= g < s0.cfg.groups@.len() && has_id((#[trigger] s0.cfg.groups@[g]).member_ids@, id) && has_id(
                s0.cfg.groups@[g].member_ids@,
                out[k].id@,
            ),
{
    let level = unscaled(volume as int, gain_in(s0.devices@, id));
    assert(set_models(out)[k] == (out[k].id@, out[k].level as int));
    lemma_only_members_are_told(s0.cfg.groups@, s0.cfg.groups@.len() as int, id, level, s1.devices@, k);
}

/// Nobody follows a report within half a per cent of what is known, one that was asked
/// for less than five seconds before, or one of a device that is held or not known: no
/// group changes its level and nobody is told anything. What the device reported is known
/// from then on in every case.
pub proof fn law_what_is_not_followed(
    s0: CoreInner,
    s1: CoreInner,
    id: Seq<char>,
    volume: i64,
    muted: bool,
    seen: i64,
    now: i64,
    out: Seq<VolumeSet>,
    d: int,
    h: int,
)
    requires
        took_volume(s0, s1, id, volume, muted, seen, now, out),
        ({
            ||| stands_at(s0.devices@, id, d) && -5_000 <= volume - s0.devices@[d].info.volume <= 5_000
                && s0.devices@[d].info.muted == muted
            ||| 0 <= h < s0.hold_sync@.len() && s0.hold_sync@[h]@ == id
            ||| 0 <= h < s0.pending@.len() && s0.pending@[h].0@ == id && now - s0.pending@[h].1.at < 5_000 && -30_000
                <= volume - s0.pending@[h].1.level <= 30_000 && forall|j: int|
                0 <= j < h ==> (#[trigger] s0.pending@[j]).0@ != id
            ||| forall|j: int| 0 <= j < s0.devices@.len() ==> (#[trigger] s0.devices@[j]).info.id@ != id
        }),
    ensures
        out.len() == 0,
        s1.cfg.groups@ == s0.cfg.groups@,
        stands_at(s0.devices@, id, d) ==> s1.devices@[d].info.volume == volume && s1.devices@[d].info.muted == muted,
{
    lemma_device_from(s0.devices@, id, 0);
    crate::config::lemma_key_from(s0.pending@, id, 0);
    if stands_at(s0.devices@, id, d) {
        lemma_stands_at(s0.devices@, id, d, 0);
    }
    if 0 <= h < s0.hold_sync@.len() && s0.hold_sync@[h]@ == id {
        assert(has_id(s0.hold_sync@, id));
    }
}

/// An echo is heard once: the volume that was asked for is forgotten, and no other is.
pub proof fn law_an_echo_is_heard_once(
    s0: CoreInner,
    s1: CoreInner,
    id: Seq<char>,
    volume: i64,
    muted: bool,
    seen: i64,
    now: i64,
    out: Seq<VolumeSet>,
    d: int,
    h: int,
)
    requires
        took_volume(s0, s1, id, volume, muted, seen, now, out),
        stands_at(s0.devices@, id, d),
        volume - s0.devices@[d].info.volume > 5_000 || s0.devices@[d].info.volume - volume > 5_000
            || s0.devices@[d].info.muted != muted,
        0 <= h < s0.pending@.len(),
        s0.pending@[h].0@ == id,
        forall|j: int| 0 <= j < h ==> (#[trigger] s0.pending@[j]).0@ != id,
        now - s0.pending@[h].1.at < 5_000,
        -30_000 <= volume - s0.pending@[h].1.level <= 30_000,
    ensures
        forall|j: int| 0 <= j < s1.pending@.len() ==> (#[trigger] s1.pending@[j]).0@ != id,
        forall|other: Seq<char>| other != id ==> #[trigger] value_of(s1.pending@, other) == value_of(s0.pending@, other),
{
    lemma_stands_at(s0.devices@, id, d, 0);
    crate::config::lemma_key_from(s0.pending@, id, 0);
    crate::config::lemma_key_from(s1.pending@, id, 0);
}

/// A device that goes off the network plays nothing, and one that comes back keeps what it
/// is known to play; in both cases only that device changes.
pub proof fn law_off_the_network_nothing_plays(s0: CoreInner, s1: CoreInner, id: Seq<char>, online: bool, seen: i64, d: int)
    requires
        took_online(s0, s1, id, online, seen),
        stands_at(s0.devices@, id, d),
    ensures
        s1.devices@[d].info.online == online,
        !online ==> s1.devices@[d].info.media is None && s1.devices@[d].info.last_seen == s0.devices@[d].info.last_seen,
        online ==> s1.devices@[d].info.media == s0.devices@[d].info.media && s1.devices@[d].info.last_seen == seen,
        s1.devices@.len() == s0.devices@.len(),
        forall|j: int| 0 <= j < s0.devices@.len() && j != d ==> s1.devices@[j] == #[trigger] s0.devices@[j],
{
    lemma_stands_at(s0.devices@, id, d, 0);
}

/// The volume of a Roku TV is remembered in whole per cent, the nearest to what it
/// reported; that of no other device is.
pub proof fn law_roku_levels_are_remembered(
    s0: CoreInner,
    s1: CoreInner,
    id: Seq<char>,
    volume: i64,
    muted: bool,
    seen: i64,
    now: i64,
    out: Seq<VolumeSet>,
    d: int,
)
    requires
        took_volume(s0, s1, id, volume, muted, seen, now, out),
        stands_at(s0.devices@, id, d),
        0 <= volume <= 1_000_000,
    ensures
        s0.devices@[d].info.backend == Backend::Roku ==> (value_of(s1.cfg.roku_levels@, id) matches Some(p) && -5_000
            <= volume - 10_000 * p <= 5_000),
        s0.devices@[d].info.backend != Backend::Roku ==> value_of(s1.cfg.roku_levels@, id) == value_of(
            s0.cfg.roku_levels@,
            id,
        ),
{
    lemma_stands_at(s0.devices@, id, d, 0);
    crate::levels::law_percent_is_nearest(volume as int);
}

/// A report of a TV's state is kept with that TV and changes no other device; the addresses by
/// which it is woken are kept with the entry it was added by, where it gives any.
pub proof fn law_the_state_of_a_tv_is_kept(
    s0: CoreInner,
    s1: CoreInner,
    id: Seq<char>,
    tv: TvStatus,
    macs: Vec<String>,
    d: int,
    k: int,
)
    requires
        took_status(s0, s1, id, tv, macs),
        stands_at(s0.devices@, id, d),
    ensures
        s1.devices@.len() == s0.devices@.len(),
        s1.devices@[d].info.tv == Some(tv),
        s1.devices@[d].info.media == s0.devices@[d].info.media && s1.devices@[d].info.volume
            == s0.devices@[d].info.volume,
        forall|j: int| 0 <= j < s0.devices@.len() && j != d ==> s1.devices@[j] == #[trigger] s0.devices@[j],
        manual_from(s0.cfg.manual_devices@, id, 0) == Some(k) && 0 <= k < s0.cfg.manual_devices@.len() && macs@.len() > 0
            ==> texts(s1.cfg.manual_devices@[k].macs@) == texts(macs@),
        macs@.len() == 0 ==> s1.cfg.manual_devices@ == s0.cfg.manual_devices@,
{
    lemma_stands_at(s0.devices@, id, d, 0);
}

/// What a device is reported to play is kept with that device and changes nothing else.
pub proof fn law_what_plays_is_kept(s0: CoreInner, s1: CoreInner, id: Seq<char>, media: Option<MediaInfo>, d: int)
    requires
        took_media(s0, s1, id, media),
        stands_at(s0.devices@, id, d),
    ensures
        s1.devices@.len() == s0.devices@.len(),
        s1.devices@[d].info == (DeviceInfo { media, ..s0.devices@[d].info }),
        s1.cfg == s0.cfg,
        forall|j: int| 0 <= j < s0.devices@.len() && j != d ==> s1.devices@[j] == #[trigger] s0.devices@[j],
{
    lemma_stands_at(s0.devices@, id, d, 0);
}

} // verus!
