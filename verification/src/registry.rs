//! Devices coming and going, and the lists that are shown of them.

use vstd::prelude::*;
use crate::config::{AppConfig, ManualDevice};
use crate::home::{
    backend_name, backend_text, device_at, find_device, has_id, holds_id, lemma_device_from, lemma_stands_at,
    manual_id, manual_id_of, small_letters, stands_at, to_small_letters, CoreInner, Entry, TrayKey,
};
use crate::levels::FULL;
use crate::text::{chars_of, copy_opt, is_before, removed_char, str_same, string_of, text_before, texts, without_char};
use crate::types::{is_playing, opt_media, Backend, DeviceInfo, MediaModel};

verus! {

/// A cast device that was found on the network.
#[derive(Debug)]
pub struct DiscoveredCast {
    pub uuid: String,
    pub friendly_name: String,
    pub model: String,
    pub ip: String,
    pub port: u16,
    pub is_group: bool,
}

/// Whether a model is a group of speakers and no speaker of its own.
pub fn is_group_model(model: &str) -> (r: bool)
    ensures
        r == crate::text::same_ignoring_case(model@, "Google Cast Group"@),
{
    let a = chars_of(model);
    let b = chars_of("Google Cast Group");
    crate::text::same_text_ignoring_case(a.as_slice(), b.as_slice())
}

/// An address that a device announced.
#[derive(Debug)]
pub struct Announced {
    pub ip: String,
    /// Whether it is one of version 4. The others cannot be relied on.
    pub v4: bool,
}

/// The first address of version 4 from the i-th on.
pub open spec fn first_v4(list: Seq<Announced>, i: int) -> Option<Seq<char>>
    decreases list.len() - i,
{
    if i >= list.len() {
        None
    } else if list[i].v4 {
        Some(list[i].ip@)
    } else {
        first_v4(list, i + 1)
    }
}

/// The device that an announcement tells of, if it has an id and an address that can
/// be reached.
pub fn read_announcement(uuid: String, friendly_name: String, model: String, addresses: &Vec<Announced>, port: u16) -> (r:
    Option<DiscoveredCast>)
    ensures
        match r {
            Some(d) => uuid@.len() > 0 && first_v4(addresses@, 0) == Some(d.ip@) && d.uuid == uuid && d.friendly_name
                == friendly_name && d.model == model && d.port == port && d.is_group
                == crate::text::same_ignoring_case(model@, "Google Cast Group"@),
            None => uuid@.len() == 0 || first_v4(addresses@, 0) is None,
        },
{
    if chars_of(uuid.as_str()).len() == 0 {
        return None;
    }
    let is_group: bool = is_group_model(model.as_str());
    let mut i: usize = 0;
    while i < addresses.len()
        invariant
            i <= addresses@.len(),
            uuid@.len() > 0,
            is_group == crate::text::same_ignoring_case(model@, "Google Cast Group"@),
            first_v4(addresses@, 0) == first_v4(addresses@, i as int),
        decreases addresses@.len() - i,
    {
        if addresses[i].v4 {
            return Some(
                DiscoveredCast { uuid, friendly_name, model, ip: addresses[i].ip.clone(), port, is_group },
            );
        }
        i = i + 1;
    }
    None
}

/// What is to be done with a device's connection.
#[derive(Clone, Copy, Debug, PartialEq, Eq, Structural)]
pub struct Link {
    /// End the one there is.
    pub close: bool,
    /// Start a new one.
    pub open: bool,
}

/// No two devices have the same id.
pub open spec fn unique_ids(devices: Seq<Entry>) -> bool {
    forall|i: int, j: int|
        0 <= i < j < devices.len() ==> (#[trigger] devices[i]).info.id@ != (#[trigger] devices[j]).info.id@
}

/// A device that was just found and never heard of.
pub open spec fn is_fresh(e: Entry, id: Seq<char>, backend: Backend, name: Seq<char>, model: Seq<char>, seen: i64) -> bool {
    &&& e.info.id@ == id
    &&& e.info.backend == backend
    &&& e.info.friendly_name@ == name
    &&& e.info.model@ == model
    &&& e.info.last_seen == seen
    &&& e.info.custom_name is None
    &&& !e.info.online
    &&& e.info.volume == 0
    &&& !e.info.muted
    &&& e.info.sync_gain == FULL
    &&& e.info.tv is None
    &&& e.info.media is None
    &&& e.group_members@.len() == 0
}

/// What finding a cast device does to the devices that are known.
pub open spec fn took_cast(d0: Seq<Entry>, d1: Seq<Entry>, d: DiscoveredCast, seen: i64) -> bool {
    match device_at(d0, d.uuid@) {
        Some(i) => d1 == d0.update(
            i,
            Entry {
                info: DeviceInfo {
                    friendly_name: d.friendly_name,
                    model: d.model,
                    ip: d.ip,
                    port: d.port,
                    last_seen: seen,
                    ..d0[i].info
                },
                group_members: d0[i].group_members,
            },
        ),
        None => {
            &&& d1.len() == d0.len() + 1
            &&& d1.drop_last() == d0
            &&& is_fresh(d1.last(), d.uuid@, Backend::Cast, d.friendly_name@, d.model@, seen)
            &&& d1.last().info.ip == d.ip
            &&& d1.last().info.port == d.port
            &&& d1.last().info.is_cast_group == d.is_group
            &&& d1.last().info.can_absolute_volume
        },
    }
}

/// Takes in a cast device that was found. A connection is started where there is
/// none, and started anew where the device has another address.
pub fn on_cast_discovered(s: &mut CoreInner, d: &DiscoveredCast, connected: bool, seen: i64) -> (r: Link)
    ensures
        took_cast(old(s).devices@, final(s).devices@, *d, seen),
        ({
            let i = device_at(old(s).devices@, d.uuid@);
            let moved = i is Some && (old(s).devices@[i->0].info.ip@ != d.ip@ || old(s).devices@[i->0].info.port
                != d.port);
            &&& r.open == (!connected || moved)
            &&& r.close == (connected && moved)
        }),
        *final(s) == (CoreInner { devices: final(s).devices, cfg_dirty: true, ..*old(s) }),
        unique_ids(old(s).devices@) ==> unique_ids(final(s).devices@),
{
    proof {
        lemma_device_from(s.devices@, d.uuid@, 0);
    }
    s.cfg_dirty = true;
    match find_device(&s.devices, d.uuid.as_str()) {
        Some(i) => {
            let moved: bool = !str_same(s.devices[i].info.ip.as_str(), d.ip.as_str()) || s.devices[i].info.port
                != d.port;
            s.devices[i].info.friendly_name = d.friendly_name.clone();
            s.devices[i].info.model = d.model.clone();
            s.devices[i].info.ip = d.ip.clone();
            s.devices[i].info.port = d.port;
            s.devices[i].info.last_seen = seen;
            proof {
                let e = old(s).devices@[i as int];
                assert(s.devices@ =~= old(s).devices@.update(
                    i as int,
                    Entry {
                        info: DeviceInfo {
                            friendly_name: d.friendly_name,
                            model: d.model,
                            ip: d.ip,
                            port: d.port,
                            last_seen: seen,
                            ..e.info
                        },
                        group_members: e.group_members,
                    },
                ));
                lemma_update_keeps_ids(old(s).devices@, s.devices@, i as int);
            }
            Link { close: connected && moved, open: !connected || moved }
        },
        None => {
            let info = DeviceInfo {
                id: d.uuid.clone(),
                backend: Backend::Cast,
                friendly_name: d.friendly_name.clone(),
                custom_name: None,
                model: d.model.clone(),
                ip: d.ip.clone(),
                port: d.port,
                is_cast_group: d.is_group,
                online: false,
                last_seen: seen,
                volume: 0,
                muted: false,
                can_absolute_volume: true,
                sync_gain: FULL,
                tv: None,
                media: None,
            };
            s.devices.push(Entry { info, group_members: Vec::new() });
            proof {
                assert(s.devices@.drop_last() =~= old(s).devices@);
            }
            Link { close: false, open: !connected }
        },
    }
}

proof fn lemma_update_keeps_ids(a: Seq<Entry>, b: Seq<Entry>, i: int)
    requires
        0 <= i < a.len(),
        b.len() == a.len(),
        b[i].info.id == a[i].info.id,
        forall|j: int| 0 <= j < a.len() && j != i ==> a[j] == b[j],
    ensures
        unique_ids(a) ==> unique_ids(b),
{
    if unique_ids(a) {
        assert forall|p: int, q: int| 0 <= p < q < b.len() implies (#[trigger] b[p]).info.id@ != (
        #[trigger] b[q]).info.id@ by {
            assert(a[p].info.id@ != a[q].info.id@);
        }
    }
}

/// What starting a device that was added by its address does to the devices that
/// are known.
pub open spec fn took_manual(d0: Seq<Entry>, d1: Seq<Entry>, m: ManualDevice, seen: i64) -> bool {
    let id = manual_id_of(m.backend, m.ip@);
    match device_at(d0, id) {
        Some(i) => d1 == d0.update(
            i,
            Entry {
                info: DeviceInfo { ip: m.ip, port: m.port, ..d0[i].info },
                group_members: d0[i].group_members,
            },
        ),
        None => {
            &&& d1.len() == d0.len() + 1
            &&& d1.drop_last() == d0
            &&& is_fresh(d1.last(), id, m.backend, m.name@, backend_text(m.backend), seen)
            &&& d1.last().info.ip == m.ip
            &&& d1.last().info.port == m.port
            &&& !d1.last().info.is_cast_group
            &&& d1.last().info.can_absolute_volume == (m.backend != Backend::Roku)
        },
    }
}

/// Takes in a device that was added by its address and returns its id. Only a
/// Roku cannot be set to a volume outright.
pub fn ensure_manual_device(s: &mut CoreInner, m: &ManualDevice, seen: i64) -> (id: String)
    ensures
        id@ == manual_id_of(m.backend, m.ip@),
        took_manual(old(s).devices@, final(s).devices@, *m, seen),
        *final(s) == (CoreInner { devices: final(s).devices, cfg_dirty: true, ..*old(s) }),
        unique_ids(old(s).devices@) ==> unique_ids(final(s).devices@),
{
    let id = manual_id(m.backend, m.ip.as_str());
    proof {
        lemma_device_from(s.devices@, id@, 0);
    }
    s.cfg_dirty = true;
    match find_device(&s.devices, id.as_str()) {
        Some(i) => {
            s.devices[i].info.ip = m.ip.clone();
            s.devices[i].info.port = m.port;
            proof {
                let e = old(s).devices@[i as int];
                assert(s.devices@ =~= old(s).devices@.update(
                    i as int,
                    Entry {
                        info: DeviceInfo { ip: m.ip, port: m.port, ..e.info },
                        group_members: e.group_members,
                    },
                ));
                lemma_update_keeps_ids(old(s).devices@, s.devices@, i as int);
            }
        },
        None => {
            let info = DeviceInfo {
                id: id.clone(),
                backend: m.backend,
                friendly_name: m.name.clone(),
                custom_name: None,
                model: backend_name(m.backend),
                ip: m.ip.clone(),
                port: m.port,
                is_cast_group: false,
                online: false,
                last_seen: seen,
                volume: 0,
                muted: false,
                can_absolute_volume: m.backend != Backend::Roku,
                sync_gain: FULL,
                tv: None,
                media: None,
            };
            s.devices.push(Entry { info, group_members: Vec::new() });
            proof {
                assert(s.devices@.drop_last() =~= old(s).devices@);
            }
        },
    }
    id
}

/// Whether a device added by its address is the one of a kind at an address.
pub open spec fn is_manual(m: ManualDevice, backend: Backend, ip: Seq<char>) -> bool {
    m.ip@ == ip && m.backend == backend
}

/// The devices added by address without those of a kind at an address.
pub open spec fn without_manual(list: Seq<ManualDevice>, n: int, backend: Backend, ip: Seq<char>) -> Seq<ManualDevice>
    decreases n,
{
    if n <= 0 {
        Seq::empty()
    } else if is_manual(list[n - 1], backend, ip) {
        without_manual(list, n - 1, backend, ip)
    } else {
        without_manual(list, n - 1, backend, ip).push(list[n - 1])
    }
}

/// Adds a device by its address, in place of one of the same kind at that address.
pub fn add_manual_device(list: Vec<ManualDevice>, device: ManualDevice) -> (r: Vec<ManualDevice>)
    ensures
        r@ == without_manual(list@, list@.len() as int, device.backend, device.ip@).push(device),
{
    let ghost all = list@;
    let ghost n = list@.len() as int;
    let mut rest = list;
    let mut back: Vec<ManualDevice> = Vec::new();
    // Taking the devices from the end turns their order round, putting them back
    // turns it round again.
    while rest.len() > 0
        invariant
            rest@ == all.take(rest@.len() as int),
            rest@.len() <= all.len(),
            back@.len() == all.len() - rest@.len(),
            forall|i: int| 0 <= i < back@.len() ==> #[trigger] back@[i] == all[all.len() - 1 - i],
        decreases rest@.len(),
    {
        match rest.pop() {
            Some(m) => {
                back.push(m);
            },
            None => {},
        }
        proof {
            assert(rest@ =~= all.take(rest@.len() as int));
        }
    }
    let mut out: Vec<ManualDevice> = Vec::new();
    let ghost mut k: int = 0;
    while back.len() > 0
        invariant
            0 <= k <= all.len(),
            back@.len() == all.len() - k,
            forall|i: int| 0 <= i < back@.len() ==> #[trigger] back@[i] == all[all.len() - 1 - i],
            out@ == without_manual(all, k, device.backend, device.ip@),
        decreases back@.len(),
    {
        match back.pop() {
            Some(m) => {
                proof {
                    assert(m == all[k]);
                    k = k + 1;
                }
                if !(str_same(m.ip.as_str(), device.ip.as_str()) && m.backend == device.backend) {
                    out.push(m);
                }
            },
            None => {},
        }
    }
    out.push(device);
    out
}

/// Whether a Roku at an address is among the devices added by address.
pub fn knows_roku(list: &Vec<ManualDevice>, ip: &str) -> (r: bool)
    ensures
        r == exists|i: int| 0 <= i < list@.len() && is_manual(#[trigger] list@[i], Backend::Roku, ip@),
{
    let mut i: usize = 0;
    while i < list.len()
        invariant
            i <= list@.len(),
            forall|j: int| 0 <= j < i ==> !is_manual(#[trigger] list@[j], Backend::Roku, ip@),
        decreases list@.len() - i,
    {
        if str_same(list[i].ip.as_str(), ip) && list[i].backend == Backend::Roku {
            proof {
                assert(is_manual(list@[i as int], Backend::Roku, ip@));
            }
            return true;
        }
        i = i + 1;
    }
    false
}

/// The device that a Roku found on the network is added as: under its name or, if
/// it has none, its model.
pub fn found_roku(ip: String, name: String, model: String) -> (r: ManualDevice)
    ensures
        r.backend == Backend::Roku,
        r.ip == ip,
        r.port == 8060,
        r.name == (if name@.len() == 0 {
            model
        } else {
            name
        }),
        r.macs@.len() == 0,
{
    let c = chars_of(name.as_str());
    ManualDevice {
        backend: Backend::Roku,
        ip,
        port: 8060,
        name: if c.len() == 0 {
            model
        } else {
            name
        },
        macs: Vec::new(),
    }
}

/// The first `n` ids of a list without one.
pub open spec fn without_id(ids: Seq<String>, n: int, id: Seq<char>) -> Seq<Seq<char>>
    decreases n,
{
    if n <= 0 {
        Seq::empty()
    } else if ids[n - 1]@ == id {
        without_id(ids, n - 1, id)
    } else {
        without_id(ids, n - 1, id).push(ids[n - 1]@)
    }
}

fn drop_id(ids: &Vec<String>, id: &str) -> (r: Vec<String>)
    ensures
        texts(r@) == without_id(ids@, ids@.len() as int, id@),
{
    let mut out: Vec<String> = Vec::new();
    let mut i: usize = 0;
    proof {
        assert(texts(out@) =~= Seq::<Seq<char>>::empty());
    }
    while i < ids.len()
        invariant
            i <= ids@.len(),
            texts(out@) == without_id(ids@, i as int, id@),
        decreases ids@.len() - i,
    {
        if !str_same(ids[i].as_str(), id) {
            let ghost before = texts(out@);
            out.push(ids[i].clone());
            proof {
                assert(texts(out@) =~= before.push(ids@[i as int]@));
            }
        }
        i = i + 1;
    }
    out
}

/// Forgets a device, also as a member of groups.
pub fn delete_device(s: &mut CoreInner, id: &str)
    ensures
        final(s).devices@ == (match device_at(old(s).devices@, id@) {
            Some(i) => old(s).devices@.remove(i),
            None => old(s).devices@,
        }),
        final(s).cfg.groups@.len() == old(s).cfg.groups@.len(),
        forall|g: int|
            0 <= g < old(s).cfg.groups@.len() ==> {
                let a = old(s).cfg.groups@[g];
                let b = #[trigger] final(s).cfg.groups@[g];
                &&& b.id == a.id
                &&& b.name == a.name
                &&& b.group_volume == a.group_volume
                &&& b.sync_enabled == a.sync_enabled
                &&& texts(b.member_ids@) == without_id(a.member_ids@, a.member_ids@.len() as int, id@)
            },
        *final(s) == (CoreInner {
            devices: final(s).devices,
            cfg: AppConfig { groups: final(s).cfg.groups, ..old(s).cfg },
            cfg_dirty: true,
            ..*old(s)
        }),
        unique_ids(old(s).devices@) ==> unique_ids(final(s).devices@) && device_at(final(s).devices@, id@) is None,
{
    let ghost d0 = s.devices@;
    proof {
        lemma_device_from(d0, id@, 0);
    }
    match find_device(&s.devices, id) {
        Some(i) => {
            let _gone = s.devices.remove(i);
            proof {
                lemma_removed_ids(d0, i as int, id@);
            }
        },
        None => {},
    }
    let ghost g0 = s.cfg.groups@;
    let mut g: usize = 0;
    while g < s.cfg.groups.len()
        invariant
            g <= s.cfg.groups@.len(),
            s.cfg.groups@.len() == g0.len(),
            *s == (CoreInner {
                devices: s.devices,
                cfg: AppConfig { groups: s.cfg.groups, ..old(s).cfg },
                ..*old(s)
            }),
            s.devices@ == (match device_at(d0, id@) {
                Some(i) => d0.remove(i),
                None => d0,
            }),
            forall|j: int| g <= j < g0.len() ==> s.cfg.groups@[j] == g0[j],
            forall|j: int|
                0 <= j < g ==> {
                    let a = g0[j];
                    let b = #[trigger] s.cfg.groups@[j];
                    &&& b.id == a.id
                    &&& b.name == a.name
                    &&& b.group_volume == a.group_volume
                    &&& b.sync_enabled == a.sync_enabled
                    &&& texts(b.member_ids@) == without_id(a.member_ids@, a.member_ids@.len() as int, id@)
                },
        decreases s.cfg.groups@.len() - g,
    {
        let kept = drop_id(&s.cfg.groups[g].member_ids, id);
        s.cfg.groups[g].member_ids = kept;
        g = g + 1;
    }
    s.cfg_dirty = true;
}

proof fn lemma_removed_ids(a: Seq<Entry>, i: int, id: Seq<char>)
    requires
        0 <= i < a.len(),
        a[i].info.id@ == id,
    ensures
        unique_ids(a) ==> unique_ids(a.remove(i)) && device_at(a.remove(i), id) is None,
{
    let b = a.remove(i);
    if unique_ids(a) {
        assert forall|p: int, q: int| 0 <= p < q < b.len() implies (#[trigger] b[p]).info.id@ != (
        #[trigger] b[q]).info.id@ by {
            let x = if p < i {
                p
            } else {
                p + 1
            };
            let y = if q < i {
                q
            } else {
                q + 1
            };
            assert(a[x].info.id@ != a[y].info.id@);
        }
        lemma_device_from(b, id, 0);
        match device_at(b, id) {
            Some(k) => {
                let x = if k < i {
                    k
                } else {
                    k + 1
                };
                assert(b[k] == a[x]);
                if x < i {
                    assert(a[x].info.id@ != a[i].info.id@);
                } else {
                    assert(a[i].info.id@ != a[x].info.id@);
                }
            },
            None => {},
        }
    }
}

/// A device that was deleted comes back when it is seen again, as one never heard of.
pub proof fn law_deleted_device_comes_back(
    before: Seq<Entry>,
    deleted: Seq<Entry>,
    after: Seq<Entry>,
    found: DiscoveredCast,
    seen: i64,
)
    requires
        unique_ids(before),
        device_at(before, found.uuid@) matches Some(i) && deleted == before.remove(i),
        took_cast(deleted, after, found, seen),
    ensures
        after.len() == before.len(),
        is_fresh(after.last(), found.uuid@, Backend::Cast, found.friendly_name@, found.model@, seen),
{
    lemma_device_from(before, found.uuid@, 0);
    lemma_removed_ids(before, device_at(before, found.uuid@)->0, found.uuid@);
}

/// What taking over a stored copy does to the devices that are known: of one that is
/// known it gives the name and the gain; one that is not known is added, off the
/// network.
pub open spec fn adopted(d0: Seq<Entry>, d1: Seq<Entry>, stored: DeviceInfo) -> bool {
    match device_at(d0, stored.id@) {
        Some(i) => d1 == d0.update(
            i,
            Entry {
                info: DeviceInfo {
                    custom_name: stored.custom_name,
                    sync_gain: stored.sync_gain,
                    ..d0[i].info
                },
                group_members: d0[i].group_members,
            },
        ),
        None => {
            &&& d1.len() == d0.len() + 1
            &&& d1.drop_last() == d0
            &&& d1.last().info == (DeviceInfo { online: false, media: None, ..stored })
            &&& d1.last().group_members@.len() == 0
        },
    }
}

/// Takes over what a stored copy says of a device.
pub fn adopt_device(s: &mut CoreInner, stored: DeviceInfo)
    ensures
        adopted(old(s).devices@, final(s).devices@, stored),
        *final(s) == (CoreInner { devices: final(s).devices, ..*old(s) }),
        unique_ids(old(s).devices@) ==> unique_ids(final(s).devices@),
{
    proof {
        lemma_device_from(s.devices@, stored.id@, 0);
    }
    match find_device(&s.devices, stored.id.as_str()) {
        Some(i) => {
            s.devices[i].info.custom_name = stored.custom_name;
            s.devices[i].info.sync_gain = stored.sync_gain;
            proof {
                let e = old(s).devices@[i as int];
                assert(s.devices@ =~= old(s).devices@.update(
                    i as int,
                    Entry {
                        info: DeviceInfo {
                            custom_name: stored.custom_name,
                            sync_gain: stored.sync_gain,
                            ..e.info
                        },
                        group_members: e.group_members,
                    },
                ));
                lemma_update_keeps_ids(old(s).devices@, s.devices@, i as int);
            }
        },
        None => {
            let mut info = stored;
            info.online = false;
            info.media = None;
            s.devices.push(Entry { info, group_members: Vec::new() });
            proof {
                assert(s.devices@.drop_last() =~= old(s).devices@);
            }
        },
    }
}

/// What taking over stored copies does, one after another.
pub open spec fn adopted_all(d0: Seq<Entry>, d1: Seq<Entry>, stored: Seq<DeviceInfo>) -> bool
    decreases stored.len(),
{
    if stored.len() == 0 {
        d1 == d0
    } else {
        exists|mid: Seq<Entry>|
            adopted_all(d0, mid, stored.drop_last()) && #[trigger] adopted(mid, d1, stored.last())
    }
}

/// Takes over settings that were stored elsewhere, and what they say of devices. The
/// devices that are known stay, and so do the passwords and the calendar.
pub fn import_config(s: &mut CoreInner, cfg: AppConfig, known: Vec<DeviceInfo>)
    ensures
        adopted_all(old(s).devices@, final(s).devices@, known@),
        *final(s) == (CoreInner {
            devices: final(s).devices,
            cfg: AppConfig {
                groups: cfg.groups,
                schedules: cfg.schedules,
                settings: cfg.settings,
                manual_devices: cfg.manual_devices,
                roku_levels: cfg.roku_levels,
                lg_keys: cfg.lg_keys,
                ..old(s).cfg
            },
            ..*old(s)
        }),
        unique_ids(old(s).devices@) ==> unique_ids(final(s).devices@),
{
    let mut rest = known;
    let ghost mut n: int = 0;
    proof {
        assert(known@.take(0) =~= Seq::<DeviceInfo>::empty());
        assert(known@.skip(0) =~= known@);
    }
    while rest.len() > 0
        invariant
            0 <= n <= known@.len(),
            rest@ == known@.skip(n),
            adopted_all(old(s).devices@, s.devices@, known@.take(n)),
            *s == (CoreInner { devices: s.devices, ..*old(s) }),
            unique_ids(old(s).devices@) ==> unique_ids(s.devices@),
        decreases rest@.len(),
    {
        let ghost mid = s.devices@;
        let d = rest.remove(0);
        adopt_device(s, d);
        proof {
            assert(d == known@[n]);
            let next = known@.take(n + 1);
            assert(next.drop_last() =~= known@.take(n));
            assert(next.last() == d);
            assert(adopted(mid, s.devices@, next.last()));
            assert(rest@ =~= known@.skip(n + 1));
            n = n + 1;
        }
    }
    proof {
        assert(known@.take(n) =~= known@);
    }
    s.cfg.groups = cfg.groups;
    s.cfg.schedules = cfg.schedules;
    s.cfg.settings = cfg.settings;
    s.cfg.manual_devices = cfg.manual_devices;
    s.cfg.roku_levels = cfg.roku_levels;
    s.cfg.lg_keys = cfg.lg_keys;
}

/// What is stored of the devices.
pub open spec fn infos(devices: Seq<Entry>) -> Seq<DeviceInfo> {
    devices.map_values(|e: Entry| e.info)
}

proof fn lemma_own_copies(d0: Seq<Entry>, d1: Seq<Entry>, n: int)
    requires
        unique_ids(d0),
        0 <= n <= d0.len(),
        adopted_all(d0, d1, infos(d0).take(n)),
    ensures
        d1 == d0,
    decreases n,
{
    let stored = infos(d0).take(n);
    if n > 0 {
        let mid = choose|mid: Seq<Entry>|
            adopted_all(d0, mid, stored.drop_last()) && #[trigger] adopted(mid, d1, stored.last());
        assert(stored.drop_last() =~= infos(d0).take(n - 1));
        lemma_own_copies(d0, mid, n - 1);
        let id = d0[n - 1].info.id@;
        lemma_device_from(d0, id, 0);
        match device_at(d0, id) {
            Some(k) => {
                if k < n - 1 {
                    assert(d0[k].info.id@ != d0[n - 1].info.id@);
                } else if k > n - 1 {
                    assert(d0[n - 1].info.id@ != d0[k].info.id@);
                }
            },
            None => {},
        }
        assert(d1 =~= d0);
    }
}

/// Importing the devices as they were exported changes none of them.
pub proof fn law_import_of_own_export(d0: Seq<Entry>, d1: Seq<Entry>)
    requires
        unique_ids(d0),
        adopted_all(d0, d1, infos(d0)),
    ensures
        d1 == d0,
{
    assert(infos(d0).take(d0.len() as int) =~= infos(d0));
    lemma_own_copies(d0, d1, d0.len() as int);
}

/// Whether a known device is connected to at the start of the program: a cast
/// device whose address is known.
pub fn wants_connection(info: &DeviceInfo) -> (r: bool)
    ensures
        r == (info.backend == Backend::Cast && info.ip@.len() > 0),
{
    let c = chars_of(info.ip.as_str());
    info.backend == Backend::Cast && c.len() > 0
}

/// The name that a device is shown under.
pub open spec fn shown_name(d: DeviceInfo) -> Seq<char> {
    match d.custom_name {
        Some(n) => n@,
        None => d.friendly_name@,
    }
}

pub fn display_name(d: &DeviceInfo) -> (r: String)
    ensures
        r@ == shown_name(*d),
{
    match &d.custom_name {
        Some(n) => n.clone(),
        None => d.friendly_name.clone(),
    }
}

// ---------------------------------------------------------------------------
// The list of devices
// ---------------------------------------------------------------------------

/// An id in small letters and without dashes.
pub open spec fn normal_id(id: Seq<char>) -> Seq<char> {
    without_char(small_letters(id), '-')
}

pub fn normalize_id(id: &str) -> (r: String)
    ensures
        r@ == normal_id(id@),
{
    let l = to_small_letters(id);
    let c = chars_of(l.as_str());
    let t = removed_char(c.as_slice(), '-');
    string_of(t.as_slice())
}

/// The order in which devices are shown: those on the network first, then speakers
/// before groups of speakers, then by name.
pub open spec fn device_before(a: DeviceInfo, b: DeviceInfo) -> bool {
    ||| a.online && !b.online
    ||| a.online == b.online && !a.is_cast_group && b.is_cast_group
    ||| a.online == b.online && a.is_cast_group == b.is_cast_group && text_before(
        small_letters(a.friendly_name@),
        small_letters(b.friendly_name@),
    )
}

/// Positions of devices in order with one more, which goes after those it does not
/// stand before.
pub open spec fn with_device(list: Seq<int>, devices: Seq<Entry>, x: int) -> Seq<int>
    decreases list.len(),
{
    if list.len() > 0 && device_before(devices[x].info, devices[list.last()].info) {
        with_device(list.drop_last(), devices, x).push(list.last())
    } else {
        list.push(x)
    }
}

/// The positions of the first `n` devices in the order in which they are shown.
pub open spec fn device_order(devices: Seq<Entry>, n: int) -> Seq<int>
    decreases n,
{
    if n <= 0 {
        Seq::empty()
    } else {
        with_device(device_order(devices, n - 1), devices, n - 1)
    }
}

fn stands_before(a: &DeviceInfo, b: &DeviceInfo) -> (r: bool)
    ensures
        r == device_before(*a, *b),
{
    if a.online != b.online {
        return a.online;
    }
    if a.is_cast_group != b.is_cast_group {
        return b.is_cast_group;
    }
    let x = to_small_letters(a.friendly_name.as_str());
    let y = to_small_letters(b.friendly_name.as_str());
    let xc = chars_of(x.as_str());
    let yc = chars_of(y.as_str());
    is_before(xc.as_slice(), yc.as_slice())
}

pub open spec fn index_models(v: Seq<usize>) -> Seq<int> {
    v.map_values(|i: usize| i as int)
}

/// The positions of the devices in the order in which they are shown.
pub fn snapshot(devices: &Vec<Entry>) -> (r: Vec<usize>)
    ensures
        index_models(r@) == device_order(devices@, devices@.len() as int),
        forall|i: int| 0 <= i < r@.len() ==> #[trigger] r@[i] < devices@.len(),
{
    let mut out: Vec<usize> = Vec::new();
    let mut n: usize = 0;
    proof {
        assert(index_models(out@) =~= Seq::<int>::empty());
    }
    while n < devices.len()
        invariant
            n <= devices@.len(),
            index_models(out@) == device_order(devices@, n as int),
            forall|i: int| 0 <= i < out@.len() ==> #[trigger] out@[i] < devices@.len(),
        decreases devices@.len() - n,
    {
        let ghost m = index_models(out@);
        let mut pos: usize = out.len();
        proof {
            assert(m.take(m.len() as int) =~= m);
            assert(with_device(m, devices@, n as int) =~= with_device(m.take(pos as int), devices@, n as int) + m.skip(
                pos as int,
            ));
        }
        while pos > 0 && stands_before(&devices[n].info, &devices[out[pos - 1]].info)
            invariant
                pos <= out@.len(),
                n < devices@.len(),
                m == index_models(out@),
                forall|i: int| 0 <= i < out@.len() ==> #[trigger] out@[i] < devices@.len(),
                with_device(m, devices@, n as int) == with_device(m.take(pos as int), devices@, n as int) + m.skip(
                    pos as int,
                ),
            decreases pos,
        {
            proof {
                let a = m.take(pos as int);
                assert(a.last() == m[pos - 1]);
                assert(m[pos - 1] == out@[pos - 1] as int);
                assert(a.drop_last() =~= m.take(pos - 1));
                assert(with_device(m.take(pos - 1), devices@, n as int).push(m[pos - 1]) + m.skip(pos as int)
                    =~= with_device(m.take(pos - 1), devices@, n as int) + m.skip(pos - 1));
            }
            pos = pos - 1;
        }
        let ghost a = m.take(pos as int);
        proof {
            if pos > 0 {
                assert(a.last() == m[pos - 1]);
                assert(m[pos - 1] == out@[pos - 1] as int);
            }
            assert(with_device(a, devices@, n as int) == a.push(n as int));
        }
        let ghost o0 = out@;
        out.insert(pos, n);
        proof {
            assert(index_models(out@) =~= a.push(n as int) + m.skip(pos as int));
            assert forall|i: int| 0 <= i < out@.len() implies #[trigger] out@[i] < devices@.len() by {
                if i < pos {
                    assert(out@[i] == o0[i]);
                } else if i > pos {
                    assert(out@[i] == o0[i - 1]);
                }
            }
        }
        n = n + 1;
    }
    out
}

/// The last of the first `n` devices with a normal id.
pub open spec fn by_normal_id(devices: Seq<Entry>, n: int, id: Seq<char>) -> Option<int>
    decreases n,
{
    if n <= 0 {
        None
    } else if normal_id(devices[n - 1].info.id@) == id {
        Some(n - 1)
    } else {
        by_normal_id(devices, n - 1, id)
    }
}

fn find_normal(devices: &Vec<Entry>, id: &str) -> (r: Option<usize>)
    ensures
        match r {
            Some(i) => by_normal_id(devices@, devices@.len() as int, id@) == Some(i as int) && i < devices@.len(),
            None => by_normal_id(devices@, devices@.len() as int, id@) is None,
        },
{
    let mut n: usize = devices.len();
    while n > 0
        invariant
            n <= devices@.len(),
            by_normal_id(devices@, devices@.len() as int, id@) == by_normal_id(devices@, n as int, id@),
        decreases n,
    {
        let m = normalize_id(devices[n - 1].info.id.as_str());
        if str_same(m.as_str(), id) {
            return Some(n - 1);
        }
        n = n - 1;
    }
    None
}

/// The known devices among the first `n` speakers of a group.
pub open spec fn known_members(devices: Seq<Entry>, members: Seq<String>, n: int) -> Seq<Seq<char>>
    decreases n,
{
    if n <= 0 {
        Seq::empty()
    } else {
        let before = known_members(devices, members, n - 1);
        match by_normal_id(devices, devices.len() as int, members[n - 1]@) {
            Some(i) => before.push(devices[i].info.id@),
            None => before,
        }
    }
}

/// The ids of the known devices in a group of speakers.
pub fn members_of(devices: &Vec<Entry>, at: usize) -> (r: Vec<String>)
    requires
        at < devices@.len(),
    ensures
        texts(r@) == known_members(
            devices@,
            devices@[at as int].group_members@,
            devices@[at as int].group_members@.len() as int,
        ),
{
    let members = &devices[at].group_members;
    let mut out: Vec<String> = Vec::new();
    let mut i: usize = 0;
    proof {
        assert(texts(out@) =~= Seq::<Seq<char>>::empty());
    }
    while i < members.len()
        invariant
            i <= members@.len(),
            texts(out@) == known_members(devices@, members@, i as int),
        decreases members@.len() - i,
    {
        match find_normal(devices, members[i].as_str()) {
            Some(k) => {
                let ghost before = texts(out@);
                out.push(devices[k].info.id.clone());
                proof {
                    assert(texts(out@) =~= before.push(devices@[k as int].info.id@));
                }
            },
            None => {},
        }
        i = i + 1;
    }
    out
}

/// The last of the first `n` groups of speakers that play something with a device
/// in them.
pub open spec fn playing_around(devices: Seq<Entry>, n: int, id: Seq<char>) -> Option<int>
    decreases n,
{
    if n <= 0 {
        None
    } else {
        let e = devices[n - 1];
        if e.info.is_cast_group && e.info.media is Some && has_id(e.group_members@, id) {
            Some(n - 1)
        } else {
            playing_around(devices, n - 1, id)
        }
    }
}

/// The group of speakers whose session a device shows as its own: one that plays
/// with the device in it, if the device plays nothing itself.
pub open spec fn via_of(devices: Seq<Entry>, at: int) -> Option<int> {
    if devices[at].info.media is Some {
        None
    } else {
        playing_around(devices, devices.len() as int, normal_id(devices[at].info.id@))
    }
}

pub fn find_via(devices: &Vec<Entry>, at: usize) -> (r: Option<usize>)
    requires
        at < devices@.len(),
    ensures
        match r {
            Some(g) => via_of(devices@, at as int) == Some(g as int) && g < devices@.len(),
            None => via_of(devices@, at as int) is None,
        },
{
    if devices[at].info.media.is_some() {
        return None;
    }
    let id = normalize_id(devices[at].info.id.as_str());
    let mut n: usize = devices.len();
    while n > 0
        invariant
            n <= devices@.len(),
            at < devices@.len(),
            devices@[at as int].info.media is None,
            id@ == normal_id(devices@[at as int].info.id@),
            playing_around(devices@, devices@.len() as int, id@) == playing_around(devices@, n as int, id@),
        decreases n,
    {
        let e = &devices[n - 1];
        if e.info.is_cast_group && e.info.media.is_some() && holds_id(&e.group_members, id.as_str()) {
            return Some(n - 1);
        }
        n = n - 1;
    }
    None
}

/// What a session is called on a speaker that only hears it.
pub fn via_label(group: &DeviceInfo) -> (r: String)
    ensures
        r@ == "via "@ + shown_name(*group),
{
    let mut v = chars_of("via ");
    let n = display_name(group);
    let mut c = chars_of(n.as_str());
    v.append(&mut c);
    string_of(v.as_slice())
}

// ---------------------------------------------------------------------------
// Now playing
// ---------------------------------------------------------------------------

/// A session that plays or is paused.
#[derive(Debug)]
pub struct NowPlaying {
    pub id: String,
    pub device: String,
    pub playing: bool,
    pub title: Option<String>,
    pub artist: Option<String>,
    pub app: Option<String>,
}

/// Whether a device has a session that can be played and paused.
pub open spec fn is_session(d: DeviceInfo) -> bool {
    d.online && match d.media {
        Some(m) => m.supports_transport && (is_playing(m.state) || m.state is Paused),
        None => false,
    }
}

/// Whatever a device that is online reports as playing, paused or about to play is a
/// session, if it can be controlled, and plays exactly in the first case and the last.
pub proof fn law_what_plays_is_a_session(d: DeviceInfo, m: MediaModel)
    requires
        d.online,
        opt_media(d.media) == Some(m),
        m.supports_transport,
        m.state is Playing || m.state is Paused || m.state is Buffering,
    ensures
        is_session(d),
        is_playing(d.media->0.state) == !(m.state is Paused),
{
}

/// Whether an entry says what a device plays.
pub open spec fn says(n: NowPlaying, d: DeviceInfo) -> bool {
    &&& d.media is Some
    &&& n.id == d.id
    &&& n.device@ == shown_name(d)
    &&& n.playing == is_playing(d.media->0.state)
    &&& n.title == d.media->0.title
    &&& n.artist == d.media->0.artist
    &&& n.app == d.media->0.app
}

/// The order of sessions: those that play first, then by the device's name.
pub open spec fn session_before(a: DeviceInfo, b: DeviceInfo) -> bool {
    let pa = is_playing(a.media->0.state);
    let pb = is_playing(b.media->0.state);
    (pa && !pb) || (pa == pb && text_before(small_letters(shown_name(a)), small_letters(shown_name(b))))
}

pub open spec fn with_session(list: Seq<int>, devices: Seq<Entry>, x: int) -> Seq<int>
    decreases list.len(),
{
    if list.len() > 0 && session_before(devices[x].info, devices[list.last()].info) {
        with_session(list.drop_last(), devices, x).push(list.last())
    } else {
        list.push(x)
    }
}

/// The positions of those of the first `n` devices that have a session, in order.
pub open spec fn sessions(devices: Seq<Entry>, n: int) -> Seq<int>
    decreases n,
{
    if n <= 0 {
        Seq::empty()
    } else if is_session(devices[n - 1].info) {
        with_session(sessions(devices, n - 1), devices, n - 1)
    } else {
        sessions(devices, n - 1)
    }
}

fn has_session(d: &DeviceInfo) -> (r: bool)
    ensures
        r == is_session(*d),
{
    d.online && match &d.media {
        Some(m) => m.supports_transport && (m.state.playing() || match m.state {
            crate::types::PlayState::Paused => true,
            _ => false,
        }),
        None => false,
    }
}

fn plays(d: &DeviceInfo) -> (r: bool)
    requires
        d.media is Some,
    ensures
        r == is_playing(d.media->0.state),
{
    match &d.media {
        Some(m) => m.state.playing(),
        None => false,
    }
}

fn session_stands_before(a: &DeviceInfo, b: &DeviceInfo) -> (r: bool)
    requires
        a.media is Some,
        b.media is Some,
    ensures
        r == session_before(*a, *b),
{
    let pa: bool = plays(a);
    let pb: bool = plays(b);
    if pa != pb {
        return pa;
    }
    let x = display_name(a);
    let y = display_name(b);
    let xl = to_small_letters(x.as_str());
    let yl = to_small_letters(y.as_str());
    let xc = chars_of(xl.as_str());
    let yc = chars_of(yl.as_str());
    is_before(xc.as_slice(), yc.as_slice())
}

/// The positions of the devices with a session, in order.
pub fn session_order(devices: &Vec<Entry>) -> (r: Vec<usize>)
    ensures
        index_models(r@) == sessions(devices@, devices@.len() as int),
        forall|i: int|
            0 <= i < r@.len() ==> #[trigger] r@[i] < devices@.len() && is_session(devices@[r@[i] as int].info),
{
    let mut out: Vec<usize> = Vec::new();
    let mut n: usize = 0;
    proof {
        assert(index_models(out@) =~= Seq::<int>::empty());
    }
    while n < devices.len()
        invariant
            n <= devices@.len(),
            index_models(out@) == sessions(devices@, n as int),
            forall|i: int|
                0 <= i < out@.len() ==> #[trigger] out@[i] < devices@.len() && is_session(
                    devices@[out@[i] as int].info,
                ),
        decreases devices@.len() - n,
    {
        if has_session(&devices[n].info) {
            let ghost m = index_models(out@);
            let mut pos: usize = out.len();
            proof {
                assert(m.take(m.len() as int) =~= m);
                assert(with_session(m, devices@, n as int) =~= with_session(m.take(pos as int), devices@, n as int)
                    + m.skip(pos as int));
            }
            while pos > 0 && session_stands_before(&devices[n].info, &devices[out[pos - 1]].info)
                invariant
                    pos <= out@.len(),
                    n < devices@.len(),
                    is_session(devices@[n as int].info),
                    m == index_models(out@),
                    forall|i: int|
                        0 <= i < out@.len() ==> #[trigger] out@[i] < devices@.len() && is_session(
                            devices@[out@[i] as int].info,
                        ),
                    with_session(m, devices@, n as int) == with_session(m.take(pos as int), devices@, n as int)
                        + m.skip(pos as int),
                decreases pos,
            {
                proof {
                    let a = m.take(pos as int);
                    assert(a.last() == m[pos - 1]);
                    assert(m[pos - 1] == out@[pos - 1] as int);
                    assert(a.drop_last() =~= m.take(pos - 1));
                    assert(with_session(m.take(pos - 1), devices@, n as int).push(m[pos - 1]) + m.skip(pos as int)
                        =~= with_session(m.take(pos - 1), devices@, n as int) + m.skip(pos - 1));
                }
                pos = pos - 1;
            }
            let ghost a = m.take(pos as int);
            proof {
                if pos > 0 {
                    assert(a.last() == m[pos - 1]);
                    assert(m[pos - 1] == out@[pos - 1] as int);
                }
                assert(with_session(a, devices@, n as int) == a.push(n as int));
            }
            let ghost o0 = out@;
            out.insert(pos, n);
            proof {
                assert(index_models(out@) =~= a.push(n as int) + m.skip(pos as int));
                assert forall|i: int| 0 <= i < out@.len() implies #[trigger] out@[i] < devices@.len() && is_session(
                    devices@[out@[i] as int].info,
                ) by {
                    if i < pos {
                        assert(out@[i] == o0[i]);
                    } else if i > pos {
                        assert(out@[i] == o0[i - 1]);
                    }
                }
            }
        }
        n = n + 1;
    }
    out
}

fn now_of(d: &DeviceInfo) -> (r: NowPlaying)
    requires
        d.media is Some,
    ensures
        says(r, *d),
{
    let device = display_name(d);
    match &d.media {
        Some(m) => NowPlaying {
            id: d.id.clone(),
            device,
            playing: m.state.playing(),
            title: copy_opt(&m.title),
            artist: copy_opt(&m.artist),
            app: copy_opt(&m.app),
        },
        None => NowPlaying { id: d.id.clone(), device, playing: false, title: None, artist: None, app: None },
    }
}

/// The sessions that play or are paused, in order.
pub fn now_playing(devices: &Vec<Entry>) -> (r: Vec<NowPlaying>)
    ensures
        ({
            let order = sessions(devices@, devices@.len() as int);
            &&& r@.len() == order.len()
            &&& forall|i: int| 0 <= i < r@.len() ==> says(#[trigger] r@[i], devices@[order[i]].info)
        }),
{
    let order = session_order(devices);
    let ghost om = index_models(order@);
    let mut out: Vec<NowPlaying> = Vec::new();
    let mut i: usize = 0;
    while i < order.len()
        invariant
            i <= order@.len(),
            om == index_models(order@),
            out@.len() == i,
            forall|j: int|
                0 <= j < order@.len() ==> #[trigger] order@[j] < devices@.len() && is_session(
                    devices@[order@[j] as int].info,
                ),
            forall|j: int| 0 <= j < i ==> says(#[trigger] out@[j], devices@[om[j]].info),
        decreases order@.len() - i,
    {
        proof {
            assert(om[i as int] == order@[i as int] as int);
        }
        out.push(now_of(&devices[order[i]].info));
        i = i + 1;
    }
    out
}

/// Whether two optional texts are the same.
pub open spec fn same_option(a: Option<String>, b: Option<String>) -> bool {
    match (a, b) {
        (Some(x), Some(y)) => x@ == y@,
        (None, None) => true,
        _ => false,
    }
}

/// Whether the tray menu shows a session as it is.
pub open spec fn same_key(k: TrayKey, n: NowPlaying) -> bool {
    k.id@ == n.id@ && k.playing == n.playing && same_option(k.title, n.title) && same_option(k.artist, n.artist)
}

/// Whether the tray menu shows the sessions as they are.
pub open spec fn same_keys(keys: Seq<TrayKey>, list: Seq<NowPlaying>) -> bool {
    keys.len() == list.len() && forall|i: int| 0 <= i < keys.len() ==> same_key(#[trigger] keys[i], list[i])
}

fn opt_same(a: &Option<String>, b: &Option<String>) -> (r: bool)
    ensures
        r == same_option(*a, *b),
{
    match (a, b) {
        (Some(x), Some(y)) => str_same(x.as_str(), y.as_str()),
        (None, None) => true,
        _ => false,
    }
}

fn keys_same(keys: &Vec<TrayKey>, list: &Vec<NowPlaying>) -> (r: bool)
    ensures
        r == same_keys(keys@, list@),
{
    if keys.len() != list.len() {
        return false;
    }
    let mut i: usize = 0;
    while i < keys.len()
        invariant
            i <= keys@.len(),
            keys@.len() == list@.len(),
            forall|j: int| 0 <= j < i ==> same_key(#[trigger] keys@[j], list@[j]),
        decreases keys@.len() - i,
    {
        if !(str_same(keys[i].id.as_str(), list[i].id.as_str()) && keys[i].playing == list[i].playing && opt_same(
            &keys[i].title,
            &list[i].title,
        ) && opt_same(&keys[i].artist, &list[i].artist)) {
            proof {
                assert(!same_key(keys@[i as int], list@[i as int]));
            }
            return false;
        }
        i = i + 1;
    }
    true
}

/// Whether the tray menu must be built anew for the sessions there are, and
/// remembers that it will be. A session that only buffers in between is no change.
pub fn tray_changed(sig: &mut Vec<TrayKey>, list: &Vec<NowPlaying>) -> (r: bool)
    ensures
        r == !same_keys(old(sig)@, list@),
        same_keys(final(sig)@, list@),
{
    if keys_same(sig, list) {
        return false;
    }
    let mut out: Vec<TrayKey> = Vec::new();
    let mut i: usize = 0;
    while i < list.len()
        invariant
            i <= list@.len(),
            out@.len() == i,
            forall|j: int| 0 <= j < i ==> same_key(#[trigger] out@[j], list@[j]),
        decreases list@.len() - i,
    {
        let n = &list[i];
        out.push(
            TrayKey {
                id: n.id.clone(),
                playing: n.playing,
                title: copy_opt(&n.title),
                artist: copy_opt(&n.artist),
            },
        );
        i = i + 1;
    }
    *sig = out;
    true
}

// ---------------------------------------------------------------------------
// What is kept of devices, and the order in which they are shown
// ---------------------------------------------------------------------------

/// A Cast device that announces itself again takes its new address, port, name and model,
/// and keeps everything that was set or learned: its own name, gain, volume, muting, what it
/// plays and its speakers. Nothing changes of any other device.
pub proof fn law_an_announcement_keeps_what_was_set(d0: Seq<Entry>, d1: Seq<Entry>, d: DiscoveredCast, seen: i64, i: int, j: int)
    requires
        took_cast(d0, d1, d, seen),
        stands_at(d0, d.uuid@, i),
        0 <= j < d0.len(),
    ensures
        d1.len() == d0.len(),
        d1[i].info.ip == d.ip && d1[i].info.port == d.port && d1[i].info.friendly_name == d.friendly_name
            && d1[i].info.model == d.model && d1[i].info.last_seen == seen,
        d1[i].info.id == d0[i].info.id && d1[i].info.custom_name == d0[i].info.custom_name && d1[i].info.sync_gain
            == d0[i].info.sync_gain && d1[i].info.volume == d0[i].info.volume && d1[i].info.muted == d0[i].info.muted
            && d1[i].info.media == d0[i].info.media && d1[i].info.online == d0[i].info.online && d1[i].group_members
            == d0[i].group_members,
        j != i ==> d1[j] == d0[j],
{
    lemma_stands_at(d0, d.uuid@, i, 0);
}

/// A Cast device that was not known is added behind the others, off the network until it is
/// reached, silent, at the gain that changes nothing, and can be set to any volume.
pub proof fn law_a_new_device_is_added(d0: Seq<Entry>, d1: Seq<Entry>, d: DiscoveredCast, seen: i64)
    requires
        took_cast(d0, d1, d, seen),
        forall|j: int| 0 <= j < d0.len() ==> (#[trigger] d0[j]).info.id@ != d.uuid@,
    ensures
        d1.len() == d0.len() + 1,
        forall|j: int| 0 <= j < d0.len() ==> #[trigger] d1[j] == d0[j],
        ({
            let e = d1[d0.len() as int];
            &&& e.info.id@ == d.uuid@ && e.info.ip == d.ip && e.info.port == d.port && e.info.is_cast_group == d.is_group
            &&& e.info.backend == Backend::Cast && e.info.friendly_name@ == d.friendly_name@ && e.info.model@ == d.model@
            &&& !e.info.online && e.info.volume == 0 && !e.info.muted && e.info.sync_gain == 1_000_000
            &&& e.info.media is None && e.info.tv is None && e.info.custom_name is None && e.info.can_absolute_volume
        }),
{
    crate::home::lemma_device_from(d0, d.uuid@, 0);
    assert forall|j: int| 0 <= j < d0.len() implies #[trigger] d1[j] == d0[j] by {
        assert(d1.drop_last()[j] == d1[j]);
    }
}

/// A device that was added by its address again takes its address and port anew and keeps
/// all else; one that was not known is added, and only a Roku TV cannot be set to a volume
/// but has to be taken there step by step.
pub proof fn law_a_device_added_by_address(d0: Seq<Entry>, d1: Seq<Entry>, m: ManualDevice, seen: i64, i: int)
    requires
        took_manual(d0, d1, m, seen),
    ensures
        stands_at(d0, manual_id_of(m.backend, m.ip@), i) ==> d1.len() == d0.len() && d1[i] == (Entry {
            info: DeviceInfo { ip: m.ip, port: m.port, ..d0[i].info },
            group_members: d0[i].group_members,
        }),
        (forall|j: int| 0 <= j < d0.len() ==> (#[trigger] d0[j]).info.id@ != manual_id_of(m.backend, m.ip@)) ==> ({
            let e = d1[d0.len() as int];
            &&& d1.len() == d0.len() + 1
            &&& e.info.id@ == manual_id_of(m.backend, m.ip@) && e.info.backend == m.backend
            &&& e.info.ip == m.ip && e.info.port == m.port && e.info.friendly_name@ == m.name@
            &&& e.info.sync_gain == 1_000_000 && !e.info.online && e.info.volume == 0
            &&& e.info.can_absolute_volume <==> !(m.backend is Roku)
        }),
{
    crate::home::lemma_device_from(d0, manual_id_of(m.backend, m.ip@), 0);
    if stands_at(d0, manual_id_of(m.backend, m.ip@), i) {
        lemma_stands_at(d0, manual_id_of(m.backend, m.ip@), i, 0);
    }
}

proof fn lemma_without_id(ids: Seq<String>, n: int, id: Seq<char>, x: Seq<char>)
    requires
        0 <= n <= ids.len(),
    ensures
        without_id(ids, n, id).contains(x) == (x != id && exists|i: int| 0 <= i < n && (#[trigger] ids[i])@ == x),
    decreases n,
{
    if n > 0 {
        lemma_without_id(ids, n - 1, id, x);
        let before = without_id(ids, n - 1, id);
        let all = without_id(ids, n, id);
        if ids[n - 1]@ != id {
            if before.contains(x) || ids[n - 1]@ == x {
                crate::text::lemma_push_contains(before, ids[n - 1]@, x);
            }
            if all.contains(x) {
                let at = all.index_of(x);
                if at < before.len() {
                    assert(before[at] == x);
                    let i = choose|i: int| 0 <= i < n - 1 && (#[trigger] ids[i])@ == x;
                    assert(ids[i]@ == x);
                } else {
                    assert(ids[n - 1]@ == x);
                }
            }
        } else if before.contains(x) {
            let i = choose|i: int| 0 <= i < n - 1 && (#[trigger] ids[i])@ == x;
            assert(ids[i]@ == x);
        }
        if x != id && exists|i: int| 0 <= i < n && (#[trigger] ids[i])@ == x {
            let i = choose|i: int| 0 <= i < n && (#[trigger] ids[i])@ == x;
            if i < n - 1 {
                assert(ids[i]@ == x);
            }
        }
    }
}

/// A group without a device has all its other members and no more.
pub proof fn law_only_the_deleted_member_goes(ids: Seq<String>, id: Seq<char>, x: Seq<char>)
    ensures
        without_id(ids, ids.len() as int, id).contains(x) <==> x != id && exists|i: int|
            0 <= i < ids.len() && (#[trigger] ids[i])@ == x,
{
    lemma_without_id(ids, ids.len() as int, id, x);
}

/// A device of a configuration that is taken over gives a known one its own name and its
/// gain and nothing else; one that was not known is added off the network, playing nothing.
pub proof fn law_what_is_taken_over(d0: Seq<Entry>, d1: Seq<Entry>, stored: DeviceInfo, i: int)
    requires
        adopted(d0, d1, stored),
    ensures
        stands_at(d0, stored.id@, i) ==> d1.len() == d0.len() && d1[i].info.custom_name == stored.custom_name
            && d1[i].info.sync_gain == stored.sync_gain && d1[i].info.volume == d0[i].info.volume && d1[i].info.ip
            == d0[i].info.ip && d1[i].info.online == d0[i].info.online && d1[i].info.media == d0[i].info.media,
        (forall|j: int| 0 <= j < d0.len() ==> (#[trigger] d0[j]).info.id@ != stored.id@) ==> d1.len() == d0.len() + 1
            && !d1[d0.len() as int].info.online && d1[d0.len() as int].info.media is None && d1[d0.len() as int].info.id
            == stored.id && d1[d0.len() as int].info.volume == stored.volume && d1[d0.len() as int].info.sync_gain
            == stored.sync_gain,
{
    crate::home::lemma_device_from(d0, stored.id@, 0);
    if stands_at(d0, stored.id@, i) {
        lemma_stands_at(d0, stored.id@, i, 0);
    }
}

/// Where a device stands in the list: those online first, and among them and the others
/// single devices before groups of speakers.
spec fn rank(d: DeviceInfo) -> int {
    (if d.online {
        0int
    } else {
        2
    }) + (if d.is_cast_group {
        1int
    } else {
        0
    })
}

spec fn in_rank_order(list: Seq<int>, devices: Seq<Entry>) -> bool {
    forall|i: int, j: int|
        #![trigger list[i], list[j]]
        0 <= i <= j < list.len() ==> !device_before(devices[list[j]].info, devices[list[i]].info) && rank(
            devices[list[i]].info,
        ) <= rank(devices[list[j]].info)
}

proof fn lemma_before_chain(a: DeviceInfo, b: DeviceInfo, c: DeviceInfo)
    requires
        !device_before(b, a),
        !device_before(c, b),
    ensures
        !device_before(c, a),
{
    let x = small_letters(a.friendly_name@);
    let y = small_letters(b.friendly_name@);
    let z = small_letters(c.friendly_name@);
    if !text_before(y, x) && !text_before(z, y) {
        crate::text::lemma_order_chain(x, y, z, 0);
    }
}

proof fn lemma_before_once(a: DeviceInfo, b: DeviceInfo)
    ensures
        !(device_before(a, b) && device_before(b, a)),
{
    crate::text::lemma_order_total(small_letters(a.friendly_name@), small_letters(b.friendly_name@), 0);
}

proof fn lemma_with_device(list: Seq<int>, devices: Seq<Entry>, x: int)
    requires
        in_rank_order(list, devices),
    ensures
        in_rank_order(with_device(list, devices, x), devices),
        with_device(list, devices, x).len() == list.len() + 1,
        forall|v: int| #[trigger] with_device(list, devices, x).contains(v) == (v == x || list.contains(v)),
        with_device(list, devices, x).last() == (if list.len() > 0 && device_before(
            devices[x].info,
            devices[list.last()].info,
        ) {
            list.last()
        } else {
            x
        }),
    decreases list.len(),
{
    let more = with_device(list, devices, x);
    lemma_before_once(devices[x].info, devices[x].info);
    if list.len() > 0 && device_before(devices[x].info, devices[list.last()].info) {
        let rest = list.drop_last();
        let y = list.last();
        assert forall|i: int, j: int|
            #![trigger rest[i], rest[j]]
            0 <= i <= j < rest.len() implies !device_before(devices[rest[j]].info, devices[rest[i]].info) && rank(
            devices[rest[i]].info,
        ) <= rank(devices[rest[j]].info) by {
            assert(rest[i] == list[i] && rest[j] == list[j]);
        }
        lemma_with_device(rest, devices, x);
        let inner = with_device(rest, devices, x);
        lemma_before_once(devices[x].info, devices[y].info);
        assert(!device_before(devices[y].info, devices[inner.last()].info) && rank(devices[inner.last()].info) <= rank(
            devices[y].info,
        )) by {
            if inner.last() != x {
                assert(inner.last() == list[list.len() - 2]);
                assert(list[list.len() - 1] == y);
            }
        }
        assert forall|i: int, j: int|
            #![trigger more[i], more[j]]
            0 <= i <= j < more.len() implies !device_before(devices[more[j]].info, devices[more[i]].info) && rank(
            devices[more[i]].info,
        ) <= rank(devices[more[j]].info) by {
            if j < inner.len() {
                assert(more[i] == inner[i] && more[j] == inner[j]);
            } else if i < inner.len() {
                assert(more[i] == inner[i]);
                let e = inner.len() - 1;
                assert(inner[e] == inner.last());
                assert(!device_before(devices[inner[e]].info, devices[inner[i]].info));
                lemma_before_chain(devices[inner[i]].info, devices[inner[e]].info, devices[y].info);
            } else {
                lemma_before_once(devices[y].info, devices[y].info);
            }
        }
        assert forall|v: int| #[trigger] more.contains(v) == (v == x || list.contains(v)) by {
            if more.contains(v) {
                let at = more.index_of(v);
                if at < inner.len() {
                    assert(inner[at] == v);
                    assert(inner.contains(v));
                    if v != x {
                        let k = rest.index_of(v);
                        assert(list[k] == v);
                    }
                } else {
                    assert(list[list.len() - 1] == v);
                }
            }
            if list.contains(v) {
                let at = list.index_of(v);
                if at < rest.len() {
                    assert(rest[at] == v);
                    assert(rest.contains(v));
                }
                crate::text::lemma_push_contains(inner, y, v);
            }
            if v == x {
                assert(inner.contains(x));
                crate::text::lemma_push_contains(inner, y, v);
            }
        }
    } else {
        assert(more == list.push(x));
        assert forall|i: int, j: int|
            #![trigger more[i], more[j]]
            0 <= i <= j < more.len() implies !device_before(devices[more[j]].info, devices[more[i]].info) && rank(
            devices[more[i]].info,
        ) <= rank(devices[more[j]].info) by {
            if j < list.len() {
                assert(more[i] == list[i] && more[j] == list[j]);
            } else if i < list.len() {
                let e = list.len() - 1;
                assert(more[i] == list[i]);
                assert(list[e] == list.last());
                assert(!device_before(devices[list[e]].info, devices[list[i]].info));
                lemma_before_chain(devices[list[i]].info, devices[list[e]].info, devices[x].info);
            }
        }
        assert forall|v: int| #[trigger] more.contains(v) == (v == x || list.contains(v)) by {
            if more.contains(v) {
                let at = more.index_of(v);
                if at < list.len() {
                    assert(list[at] == v);
                }
            }
            if v == x || list.contains(v) {
                crate::text::lemma_push_contains(list, x, v);
            }
        }
    }
}

proof fn lemma_device_order(devices: Seq<Entry>, n: int)
    requires
        0 <= n <= devices.len(),
    ensures
        in_rank_order(device_order(devices, n), devices),
        device_order(devices, n).len() == n,
        forall|v: int| #[trigger] device_order(devices, n).contains(v) == (0 <= v < n),
    decreases n,
{
    if n > 0 {
        lemma_device_order(devices, n - 1);
        lemma_with_device(device_order(devices, n - 1), devices, n - 1);
    }
}

/// Every device is shown once. Those online come before those that are not, single devices
/// before groups of speakers where that is the same, and where both are the same they go by
/// their names, whatever the case of the letters.
pub proof fn law_the_order_of_devices(devices: Seq<Entry>, i: int, j: int, d: int)
    requires
        0 <= i < j < devices.len(),
        0 <= d < devices.len(),
    ensures
        ({
            let order = device_order(devices, devices.len() as int);
            let a = devices[order[i]].info;
            let b = devices[order[j]].info;
            &&& order.len() == devices.len()
            &&& order.contains(d)
            &&& b.online ==> a.online
            &&& a.online == b.online && a.is_cast_group ==> b.is_cast_group
            &&& a.online == b.online && a.is_cast_group == b.is_cast_group ==> !text_before(
                small_letters(b.friendly_name@),
                small_letters(a.friendly_name@),
            )
        }),
{
    lemma_device_order(devices, devices.len() as int);
    let order = device_order(devices, devices.len() as int);
    assert(!device_before(devices[order[j]].info, devices[order[i]].info) && rank(devices[order[i]].info) <= rank(
        devices[order[j]].info,
    ));
}

spec fn playing_first(list: Seq<int>, devices: Seq<Entry>) -> bool {
    forall|i: int, j: int|
        #![trigger list[i], list[j]]
        0 <= i <= j < list.len() && is_playing(devices[list[j]].info.media->0.state) ==> is_playing(
            devices[list[i]].info.media->0.state,
        )
}

proof fn lemma_with_session(list: Seq<int>, devices: Seq<Entry>, x: int)
    requires
        playing_first(list, devices),
    ensures
        playing_first(with_session(list, devices, x), devices),
        with_session(list, devices, x).len() == list.len() + 1,
        with_session(list, devices, x).last() == (if list.len() > 0 && session_before(
            devices[x].info,
            devices[list.last()].info,
        ) {
            list.last()
        } else {
            x
        }),
        forall|v: int| #[trigger] with_session(list, devices, x).contains(v) == (v == x || list.contains(v)),
    decreases list.len(),
{
    let more = with_session(list, devices, x);
    if list.len() > 0 && session_before(devices[x].info, devices[list.last()].info) {
        let rest = list.drop_last();
        let y = list.last();
        assert forall|i: int, j: int|
            #![trigger rest[i], rest[j]]
            0 <= i <= j < rest.len() && is_playing(devices[rest[j]].info.media->0.state) implies is_playing(
            devices[rest[i]].info.media->0.state,
        ) by {
            assert(rest[i] == list[i] && rest[j] == list[j]);
        }
        lemma_with_session(rest, devices, x);
        let inner = with_session(rest, devices, x);
        assert(is_playing(devices[y].info.media->0.state) ==> is_playing(devices[inner.last()].info.media->0.state)) by {
            if inner.last() != x {
                assert(inner.last() == list[list.len() - 2]);
                assert(list[list.len() - 1] == y);
            }
        }
        assert forall|i: int, j: int|
            #![trigger more[i], more[j]]
            0 <= i <= j < more.len() && is_playing(devices[more[j]].info.media->0.state) implies is_playing(
            devices[more[i]].info.media->0.state,
        ) by {
            if j < inner.len() {
                assert(more[i] == inner[i] && more[j] == inner[j]);
            } else if i < inner.len() {
                assert(more[i] == inner[i]);
                assert(inner[inner.len() - 1] == inner.last());
            }
        }
        assert forall|v: int| #[trigger] more.contains(v) == (v == x || list.contains(v)) by {
            if more.contains(v) {
                let at = more.index_of(v);
                if at < inner.len() {
                    assert(inner[at] == v);
                    assert(inner.contains(v));
                    if v != x {
                        let k = rest.index_of(v);
                        assert(list[k] == v);
                    }
                } else {
                    assert(list[list.len() - 1] == v);
                }
            }
            if list.contains(v) {
                let at = list.index_of(v);
                if at < rest.len() {
                    assert(rest[at] == v);
                    assert(rest.contains(v));
                }
                crate::text::lemma_push_contains(inner, y, v);
            }
            if v == x {
                assert(inner.contains(x));
                crate::text::lemma_push_contains(inner, y, v);
            }
        }
    } else {
        assert(more == list.push(x));
        assert forall|i: int, j: int|
            #![trigger more[i], more[j]]
            0 <= i <= j < more.len() && is_playing(devices[more[j]].info.media->0.state) implies is_playing(
            devices[more[i]].info.media->0.state,
        ) by {
            if j < list.len() {
                assert(more[i] == list[i] && more[j] == list[j]);
            } else if i < list.len() {
                assert(more[i] == list[i]);
                assert(list[list.len() - 1] == list.last());
                assert(is_playing(devices[list.last()].info.media->0.state));
            }
        }
        assert forall|v: int| #[trigger] more.contains(v) == (v == x || list.contains(v)) by {
            if more.contains(v) {
                let at = more.index_of(v);
                if at < list.len() {
                    assert(list[at] == v);
                }
            }
            if v == x || list.contains(v) {
                crate::text::lemma_push_contains(list, x, v);
            }
        }
    }
}

proof fn lemma_sessions(devices: Seq<Entry>, n: int)
    requires
        0 <= n <= devices.len(),
    ensures
        playing_first(sessions(devices, n), devices),
        forall|v: int| #[trigger]
            sessions(devices, n).contains(v) == (0 <= v < n && is_session(devices[v].info)),
    decreases n,
{
    if n > 0 {
        lemma_sessions(devices, n - 1);
        if is_session(devices[n - 1].info) {
            lemma_with_session(sessions(devices, n - 1), devices, n - 1);
        }
    }
}

/// What plays now is exactly what a device that is online plays, loads or has paused and lets
/// itself be controlled in; what plays or loads comes before what is paused.
pub proof fn law_what_is_shown_as_playing(devices: Seq<Entry>, d: int, i: int, j: int)
    requires
        0 <= d < devices.len(),
        0 <= i < j < sessions(devices, devices.len() as int).len(),
    ensures
        ({
            let order = sessions(devices, devices.len() as int);
            &&& order.contains(d) == (devices[d].info.online && (devices[d].info.media matches Some(m)
                && m.supports_transport && (m.state is Playing || m.state is Buffering || m.state is Paused)))
            &&& devices[order[j]].info.media->0.state is Playing || devices[order[j]].info.media->0.state is Buffering
                ==> devices[order[i]].info.media->0.state is Playing || devices[order[i]].info.media->0.state is Buffering
        }),
{
    lemma_sessions(devices, devices.len() as int);
    let order = sessions(devices, devices.len() as int);
    assert(is_playing(devices[order[j]].info.media->0.state) ==> is_playing(devices[order[i]].info.media->0.state));
}

/// A device that plays something of its own is not said to play through a group; one that
/// does not is said to play through a group of speakers that plays and has it among its
/// speakers, wherever there is one.
pub proof fn law_playing_through_a_group(devices: Seq<Entry>, at: int, g: int)
    requires
        0 <= at < devices.len(),
        0 <= g < devices.len(),
    ensures
        devices[at].info.media is Some ==> via_of(devices, at) is None,
        via_of(devices, at) matches Some(v) ==> 0 <= v < devices.len() && devices[v].info.is_cast_group
            && devices[v].info.media is Some && has_id(devices[v].group_members@, normal_id(devices[at].info.id@)),
        devices[at].info.media is None && devices[g].info.is_cast_group && devices[g].info.media is Some && has_id(
            devices[g].group_members@,
            normal_id(devices[at].info.id@),
        ) ==> via_of(devices, at) is Some,
{
    lemma_playing_around(devices, devices.len() as int, normal_id(devices[at].info.id@), g);
}

proof fn lemma_playing_around(devices: Seq<Entry>, n: int, id: Seq<char>, g: int)
    requires
        0 <= n <= devices.len(),
        0 <= g < devices.len(),
    ensures
        playing_around(devices, n, id) matches Some(v) ==> 0 <= v < n && devices[v].info.is_cast_group
            && devices[v].info.media is Some && has_id(devices[v].group_members@, id),
        g < n && devices[g].info.is_cast_group && devices[g].info.media is Some && has_id(devices[g].group_members@, id)
            ==> playing_around(devices, n, id) is Some,
    decreases n,
{
    if n > 0 {
        lemma_playing_around(devices, n - 1, id, g);
    }
}

/// The name under which a device is shown is its own where it has one.
pub proof fn law_own_names_are_shown(d: DeviceInfo)
    ensures
        d.custom_name matches Some(n) ==> shown_name(d) == n@,
        d.custom_name is None ==> shown_name(d) == d.friendly_name@,
{
}

proof fn lemma_by_normal_id(devices: Seq<Entry>, n: int, id: Seq<char>)
    requires
        0 <= n <= devices.len(),
    ensures
        by_normal_id(devices, n, id) matches Some(i) ==> 0 <= i < n && normal_id(devices[i].info.id@) == id,
        by_normal_id(devices, n, id) is None ==> forall|i: int|
            0 <= i < n ==> normal_id((#[trigger] devices[i]).info.id@) != id,
    decreases n,
{
    if n > 0 {
        lemma_by_normal_id(devices, n - 1, id);
    }
}

proof fn lemma_known_members(devices: Seq<Entry>, members: Seq<String>, n: int, k: int, d: int)
    requires
        0 <= k < n <= members.len(),
        0 <= d < devices.len(),
        normal_id(devices[d].info.id@) == members[k]@,
        forall|i: int| 0 <= i < devices.len() && i != d ==> normal_id((#[trigger] devices[i]).info.id@) != members[k]@,
    ensures
        known_members(devices, members, n).contains(devices[d].info.id@),
    decreases n,
{
    let before = known_members(devices, members, n - 1);
    let all = known_members(devices, members, n);
    lemma_by_normal_id(devices, devices.len() as int, members[n - 1]@);
    if k < n - 1 {
        lemma_known_members(devices, members, n - 1, k, d);
        let at = before.index_of(devices[d].info.id@);
        assert(all[at] == devices[d].info.id@);
    } else {
        assert(by_normal_id(devices, devices.len() as int, members[k]@) == Some(d));
        crate::text::lemma_push_contains(before, devices[d].info.id@, devices[d].info.id@);
    }
}

/// The speakers of a group are found by their ids, whatever hyphens and letters those are
/// written with.
pub proof fn law_speakers_are_found(devices: Seq<Entry>, members: Seq<String>, k: int, d: int)
    requires
        0 <= k < members.len(),
        0 <= d < devices.len(),
        normal_id(devices[d].info.id@) == members[k]@,
        forall|i: int| 0 <= i < devices.len() && i != d ==> normal_id((#[trigger] devices[i]).info.id@) != members[k]@,
    ensures
        known_members(devices, members, members.len() as int).contains(devices[d].info.id@),
{
    lemma_known_members(devices, members, members.len() as int, k, d);
}

} // verus!
