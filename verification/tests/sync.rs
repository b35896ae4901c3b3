//! Playing in step, spoken messages and the state of the home.

use volume_sync::broadcast::{
    check_message, hold, message_item, message_over, message_volumes, message_wait, plan, release, resume, resume_all, still_playing, volumes_back, Paused, Resume,
};
use volume_sync::commands::{device_backend, tv_ready};
use volume_sync::config::{AppConfig, ManualDevice};
use volume_sync::control::{
    due_schedules, expect_volumes, fire_target, group_transport, mark_fired, media_toggle, rename_device, run_due_schedules,
    set_device_volume_from_ui, set_group_volume, set_sync_gain,
};
use volume_sync::home::{handle_event, manual_id, CoreInner, Entry, VolumeSet};
use volume_sync::levels::{clamp_gain, from_percent, percent, scale, unscale};
use volume_sync::registry::{
    add_manual_device, adopt_device, delete_device, display_name, ensure_manual_device, find_via, import_config, knows_roku, members_of,
    now_playing, on_cast_discovered, read_announcement, snapshot, tray_changed, Announced,
};
use volume_sync::sync_play::{
    begin, estimate, samples_of, should_start, step, Sample, SampleMedia, SyncAction, SyncCmd, SyncLoop, SyncSession, SyncStatus,
};
use volume_sync::types::{
    AppGroup, Backend, CoreEvent, DeviceCmd, DeviceInfo, MediaInfo, PlayState, ScheduleEvent, ScheduleTarget,
};
use volume_sync::wave::{read_wave, with_chime};

fn media(state: PlayState, title: &str) -> MediaInfo {
    MediaInfo {
        state,
        title: Some(title.to_string()),
        artist: None,
        app: Some("Spotify".to_string()),
        supports_transport: true,
        album: None,
        image: None,
        position_ms: Some(1_000),
        duration_ms: None,
        position_at: Some(10_000),
        content_id: None,
        content_type: None,
    }
}

fn device(id: &str, backend: Backend) -> Entry {
    Entry {
        info: DeviceInfo {
            id: id.to_string(),
            backend,
            friendly_name: format!("{id} name"),
            custom_name: None,
            model: "M".to_string(),
            ip: "10.0.0.1".to_string(),
            port: 8009,
            is_cast_group: false,
            online: true,
            last_seen: 0,
            volume: 500_000,
            muted: false,
            can_absolute_volume: true,
            sync_gain: 1_000_000,
            tv: None,
            media: None,
        },
        group_members: Vec::new(),
    }
}

fn home(devices: Vec<Entry>) -> CoreInner {
    CoreInner { cfg: AppConfig::default(), devices, pending: Vec::new(), hold_sync: Vec::new(), cfg_dirty: false, tray_sig: Vec::new() }
}

fn group(id: &str, members: &[&str]) -> AppGroup {
    AppGroup {
        id: id.to_string(),
        name: id.to_string(),
        member_ids: members.iter().map(|s| s.to_string()).collect(),
        sync_enabled: true,
        group_volume: 500_000,
    }
}

fn sets(v: &[VolumeSet]) -> Vec<(String, i64)> {
    v.iter().map(|s| (s.id.clone(), s.level)).collect()
}

// ---------------------------------------------------------------------------
// In step
// ---------------------------------------------------------------------------

fn sample(id: &str, state: PlayState, pos: Option<u64>, at: Option<i64>) -> Sample {
    Sample { id: id.to_string(), media: Some(SampleMedia { state, position_ms: pos, position_at: at }) }
}

fn session(members: &[&str]) -> SyncSession {
    SyncSession {
        id: 1,
        members: members.iter().map(|s| s.to_string()).collect(),
        paused: false,
        spread_ms: None,
        status: SyncStatus::Loading,
    }
}

fn acts(v: &[SyncAction]) -> Vec<(String, SyncCmd)> {
    v.iter().map(|a| (a.id.clone(), a.cmd)).collect()
}

fn calm(last: Vec<(String, volume_sync::sync_play::Seen)>) -> SyncLoop {
    SyncLoop { quiet_until: 0, last_seen: last, gone_since: Vec::new() }
}

#[test]
fn devices_start_together() {
    let ready = vec![sample("a", PlayState::Paused, None, None), sample("b", PlayState::Buffering, None, None)];
    assert!(!should_start(&ready, 6_000));
    assert!(should_start(&ready, 6_001));
    assert!(!should_start(&vec![Sample { id: "a".into(), media: None }], 20_000));
    assert!(should_start(&vec![Sample { id: "a".into(), media: None }], 20_001));
    let mut s = session(&["a", "b"]);
    let st = begin(&mut s, 100);
    assert_eq!((s.status, st.quiet_until), (SyncStatus::Playing, 2_600));
    assert_eq!(SyncStatus::Loading.text(), "Loading on every device\u{2026}");
}

#[test]
fn positions_go_on_while_playing() {
    let m = |state, pos, at| SampleMedia { state, position_ms: pos, position_at: at };
    assert_eq!(estimate(&m(PlayState::Playing, Some(5_000), Some(100)), 350), Some(5_250));
    assert_eq!(estimate(&m(PlayState::Playing, Some(5_000), Some(400)), 350), Some(5_000));
    assert_eq!(estimate(&m(PlayState::Paused, Some(5_000), Some(100)), 350), Some(5_000));
    assert_eq!(estimate(&m(PlayState::Playing, None, None), 350), None);
    let far = 1i128 << 64;
    assert_eq!(estimate(&m(PlayState::Playing, Some(u64::MAX), Some(i64::MIN)), i64::MAX), Some(2 * far - 2));
    let mut d = device("a", Backend::Cast);
    d.info.media = Some(media(PlayState::Paused, "x"));
    let v = samples_of(&vec![d], &vec!["a".to_string(), "b".to_string()]);
    assert!(v[0].media.as_ref().unwrap().position_ms == Some(1_000) && v[1].media.is_none());
}

#[test]
fn a_pause_is_copied_and_undone() {
    let mut s = session(&["a", "b", "c"]);
    let mut st = calm(vec![]);
    let v = vec![
        sample("a", PlayState::Playing, Some(0), None),
        sample("b", PlayState::Paused, Some(0), None),
        sample("c", PlayState::Playing, Some(0), None),
    ];
    let (out, end) = step(&mut s, &mut st, &v, 1_000, 0);
    assert!(!end && s.paused && s.status == SyncStatus::Paused);
    assert_eq!(acts(&out), vec![("a".to_string(), SyncCmd::Pause), ("c".to_string(), SyncCmd::Pause)]);
    assert_eq!(st.quiet_until, 3_500);
    // Too soon to be judged again.
    let (out, _) = step(&mut s, &mut st, &v, 3_499, 0);
    assert!(out.is_empty());
    let (out, _) = step(&mut s, &mut st, &v, 3_500, 0);
    assert_eq!(acts(&out), vec![("b".to_string(), SyncCmd::Play), ("c".to_string(), SyncCmd::Play)]);
    assert!(!s.paused);
}

#[test]
fn a_message_is_waited_for() {
    assert_eq!(message_wait(1_000), 4_500);
    assert!(!message_over(4_499, 1_000, false) && message_over(4_500, 1_000, false));
    assert!(!message_over(21_000, 1_000, true) && message_over(21_001, 1_000, true));
}

#[test]
fn a_small_lead_is_held_back_and_a_gap_is_closed() {
    let mut s = session(&["a", "b", "c"]);
    let mut st = calm(vec![]);
    let at = |a, b, c| {
        vec![
            sample("a", PlayState::Playing, Some(a), None),
            sample("b", PlayState::Playing, Some(b), None),
            sample("c", PlayState::Playing, Some(c), None),
        ]
    };
    let (out, _) = step(&mut s, &mut st, &at(10_000, 10_100, 10_200), 0, 0);
    assert!(out.is_empty());
    assert_eq!((s.spread_ms, st.last_seen.len()), (Some(200), 3));
    let (out, _) = step(&mut s, &mut st, &at(10_000, 10_100, 10_500), 10, 0);
    assert_eq!(acts(&out), vec![("c".to_string(), SyncCmd::Nudge(500))]);
    // A lead within the tolerance is left alone, whatever the others do.
    let mut near = calm(vec![]);
    let (out, _) = step(&mut s, &mut near, &at(10_000, 10_150, 10_300), 0, 0);
    assert_eq!(acts(&out), vec![("c".to_string(), SyncCmd::Nudge(300))]);
    assert_eq!(st.quiet_until, 10 + 500 + 2_500);
    // Far apart and nobody jumped: all meet at the position in the middle.
    let mut st = calm(vec![]);
    let (out, _) = step(&mut s, &mut st, &at(20_000, 10_000, 15_000), 0, 0);
    assert_eq!(acts(&out), vec![("a".to_string(), SyncCmd::Seek(15_400)), ("b".to_string(), SyncCmd::Seek(15_400))]);
    assert_eq!(st.quiet_until, 3_500);
    // One jumped: the others follow it.
    let seen = |pos| volume_sync::sync_play::Seen { pos, at: 0 };
    let mut st = calm(vec![("a".into(), seen(10_000)), ("b".into(), seen(10_000)), ("c".into(), seen(10_000))]);
    let (out, _) = step(&mut s, &mut st, &at(60_000, 11_000, 11_000), 1_000, 0);
    assert_eq!(acts(&out), vec![("b".to_string(), SyncCmd::Seek(60_400)), ("c".to_string(), SyncCmd::Seek(60_400))]);
}

#[test]
fn devices_leave_after_ten_seconds() {
    let mut s = session(&["a", "b", "c"]);
    let mut st = calm(vec![]);
    let v = |c: Sample| vec![sample("a", PlayState::Playing, Some(0), None), sample("b", PlayState::Playing, Some(0), None), c];
    let none = || Sample { id: "c".into(), media: None };
    step(&mut s, &mut st, &v(none()), 0, 0);
    let (_, end) = step(&mut s, &mut st, &v(none()), 10_000, 0);
    assert!(!end && s.members.len() == 3);
    let (_, end) = step(&mut s, &mut st, &v(none()), 10_001, 0);
    assert!(!end);
    assert_eq!(s.members, vec!["a", "b"]);
    // The others are kept in step from then on.
    let apart = vec![sample("a", PlayState::Playing, Some(0), None), sample("b", PlayState::Playing, Some(300), None)];
    let (out, _) = step(&mut s, &mut st, &apart, 11_000, 0);
    assert_eq!(acts(&out), vec![("b".to_string(), SyncCmd::Nudge(300))]);
    let mut s = session(&["a", "c"]);
    let mut st = calm(vec![]);
    let two = || vec![sample("a", PlayState::Playing, Some(0), None), sample("c", PlayState::Idle, Some(0), None)];
    step(&mut s, &mut st, &two(), 0, 0);
    let (_, end) = step(&mut s, &mut st, &two(), 10_001, 0);
    assert!(end);
}

// ---------------------------------------------------------------------------
// Spoken messages
// ---------------------------------------------------------------------------

fn wav(channels: u16, rate: u32, data: &[u8]) -> Vec<u8> {
    let mut w = b"RIFF\0\0\0\0WAVEfmt ".to_vec();
    w.extend_from_slice(&16u32.to_le_bytes());
    w.extend_from_slice(&1u16.to_le_bytes());
    w.extend_from_slice(&channels.to_le_bytes());
    w.extend_from_slice(&rate.to_le_bytes());
    w.extend_from_slice(&0u32.to_le_bytes());
    w.extend_from_slice(&0u16.to_le_bytes());
    w.extend_from_slice(&16u16.to_le_bytes());
    w.extend_from_slice(b"LIST\x03\0\0\0abc\0");
    w.extend_from_slice(b"data");
    w.extend_from_slice(&(data.len() as u32).to_le_bytes());
    w.extend_from_slice(data);
    w
}

#[test]
fn a_chime_stands_before_the_speech() {
    let w = wav(2, 1_000, &[1, 2, 3, 4, 5]);
    let (out, ms) = with_chime(&w, &Some(vec![0x1234, 0xFFFE])).unwrap();
    let f = read_wave(&out).unwrap();
    assert_eq!((f.channels, f.rate, f.bits), (2, 1_000, 16));
    // 350, 250 and 400 frames of silence of four bytes, two samples on two channels, four bytes of speech.
    let bytes = 4 * 1_000 + 8 + 4;
    assert_eq!(f.data, Some((44, 44 + bytes)));
    assert_eq!(out.len() as u64, 44 + bytes);
    assert_eq!(&out[44 + 1_400..44 + 1_408], &[0x34, 0x12, 0x34, 0x12, 0xFE, 0xFF, 0xFE, 0xFF]);
    assert_eq!(&out[44 + 2_408..44 + 2_412], &[1, 2, 3, 4]);
    assert_eq!(ms, 1_003);
    let (plain, ms) = with_chime(&w, &None).unwrap();
    assert_eq!((plain.len(), ms), (44 + 4 * 750 + 4, 751));
    let bad = Err("The spoken message came out in an unexpected format.".to_string());
    assert_eq!(with_chime(b"RIFFxxxx", &None), bad);
    assert_eq!(with_chime(&wav(0, 1_000, &[1, 2]), &None), bad);
    assert_eq!(with_chime(&w[..44], &None), bad);
}

#[test]
fn messages_are_checked() {
    assert_eq!(check_message("  ", false), Err("Type a message first.".to_string()));
    assert_eq!(check_message(" hi ", true), Err("A message is already playing.".to_string()));
    assert_eq!(check_message(" hi ", false), Ok("hi".to_string()));
}

#[test]
fn a_message_is_planned_and_everything_put_back() {
    let mut a = device("a", Backend::Cast);
    a.info.muted = true;
    a.info.volume = 300_000;
    a.info.media = Some(media(PlayState::Playing, "Song"));
    let mut g = device("g", Backend::Cast);
    g.info.is_cast_group = true;
    g.group_members = vec!["a".to_string(), "b".to_string(), "unknown".to_string()];
    g.info.media = Some(media(PlayState::Buffering, "Group"));
    let b = device("b", Backend::Cast);
    let mut off = device("off", Backend::Cast);
    off.info.online = false;
    let devices = vec![a, g, b, off, device("r", Backend::Roku)];
    let chosen: Vec<String> = ["a", "g", "off", "r"].iter().map(|s| s.to_string()).collect();
    let p = plan(&devices, &chosen, 12_500).unwrap();
    // The speaker hears it through the group.
    assert_eq!(p.cast_targets, vec!["g"]);
    assert_eq!(p.speakers, vec!["a", "b"]);
    assert_eq!(p.paused.iter().map(|x| (x.owner.as_str(), x.position_ms)).collect::<Vec<_>>(), vec![("a", 3_500), ("g", 3_500)]);
    let up = message_volumes(&p.saved, 2_000_000);
    assert_eq!((up[0].id.as_str(), up[0].level, up[0].mute), ("a", 1_000_000, Some(false)));
    assert_eq!((up[1].id.as_str(), up[1].mute), ("b", None));
    let back = volumes_back(&p.saved);
    assert_eq!((back[0].level, back[0].mute), (300_000, Some(true)));
    let (all, outcome) = resume_all(&p);
    assert!(all.iter().all(|r| matches!(r, Resume::ByHand(_))));
    assert_eq!(outcome.resume_by_hand, vec!["a name (Spotify)", "g name (Spotify)"]);
    let none: Vec<String> = vec!["off".to_string()];
    assert_eq!(plan(&devices, &none, 0).err().as_deref(), Some("None of the chosen speakers are online."));
    assert!(!still_playing(&devices, &p.cast_targets));
    assert_eq!(message_item("u").content_type, "audio/wav");
}

#[test]
fn what_was_paused_goes_on() {
    let p = |app: Option<&str>, url: Option<&str>, pos| Paused {
        owner: "a".into(),
        owner_name: "Kitchen".into(),
        app: app.map(String::from),
        content_id: url.map(String::from),
        content_type: None,
        title: None,
        position_ms: pos,
    };
    let here = vec!["a".to_string()];
    let none: Vec<String> = Vec::new();
    assert!(matches!(resume(&p(None, None, 0), &none, &none), Resume::Play(id) if id == "a"));
    let ours = p(Some("Default Media Receiver"), Some("http://h/a.mp4"), 3_001);
    assert!(matches!(resume(&ours, &here, &none), Resume::Reload(_, item, Some(3_001))
        if item.url == "http://h/a.mp4" && item.title == "Media" && item.content_type == "video/mp4"));
    let early = p(Some("Default Media Receiver"), Some("http://h/a.mp4"), 3_000);
    assert!(matches!(resume(&early, &none, &here), Resume::Reload(_, _, None)));
    assert!(matches!(resume(&p(None, None, 0), &here, &none), Resume::ByHand(t) if t == "Kitchen"));
}

#[test]
fn groups_hold_still_during_a_message() {
    let mut s = home(vec![device("a", Backend::Cast), device("b", Backend::Cast)]);
    s.cfg.groups = vec![group("g", &["a", "b"])];
    let both = vec!["a".to_string(), "b".to_string()];
    hold(&mut s, &both);
    let ev = |v| CoreEvent::VolumeChanged { id: "a".into(), volume: v, muted: false };
    assert!(handle_event(&mut s, ev(800_000), 1, 1).sets.is_empty());
    release(&mut s, &both);
    assert!(s.hold_sync.is_empty());
    let r = handle_event(&mut s, ev(900_000), 2, 2);
    assert_eq!(sets(&r.sets), vec![("b".to_string(), 900_000)]);
}

// ---------------------------------------------------------------------------
// The home
// ---------------------------------------------------------------------------

#[test]
fn levels_and_gains() {
    assert_eq!(scale(500_000, 1_500_000), 750_000);
    assert_eq!(scale(800_000, 2_000_000), 1_000_000);
    assert_eq!(unscale(750_000, 1_500_000), 500_000);
    assert_eq!(unscale(scale(333_333, 1_000_000), 1_000_000), 333_333);
    assert_eq!((percent(354_999), from_percent(35), clamp_gain(9_000_000)), (35, 350_000, 2_000_000));
}

#[test]
fn members_of_a_group_follow_by_their_gains() {
    let mut s = home(vec![device("a", Backend::Cast), device("b", Backend::Cast)]);
    s.devices[1].info.sync_gain = 500_000;
    s.cfg.groups = vec![group("g", &["a", "b"])];
    let r = handle_event(&mut s, CoreEvent::VolumeChanged { id: "a".into(), volume: 800_000, muted: false }, 5, 1_000);
    assert_eq!(sets(&r.sets), vec![("b".to_string(), 400_000)]);
    assert_eq!(s.cfg.groups[0].group_volume, 800_000);
    assert_eq!((s.devices[0].info.volume, s.devices[0].info.last_seen, s.cfg_dirty), (800_000, 5, true));
    // The echo of a volume that was asked for moves nothing.
    expect_volumes(&mut s.pending, &r.sets, 1_000);
    let r = handle_event(&mut s, CoreEvent::VolumeChanged { id: "b".into(), volume: 400_000, muted: false }, 6, 1_500);
    assert!(r.sets.is_empty());
    // Nor does a change that is too small to matter.
    let r = handle_event(&mut s, CoreEvent::VolumeChanged { id: "a".into(), volume: 800_001, muted: false }, 7, 60_000);
    assert!(r.sets.is_empty());
}

#[test]
fn other_events() {
    let mut s = home(vec![device("a", Backend::Cast)]);
    let m = Some(media(PlayState::Playing, "x"));
    assert!(handle_event(&mut s, CoreEvent::MediaChanged { id: "a".into(), media: m }, 0, 0).playback);
    assert!(s.devices[0].info.media.is_some());
    handle_event(&mut s, CoreEvent::Online { id: "a".into(), online: false }, 9, 0);
    assert!(!s.devices[0].info.online && s.devices[0].info.media.is_none());
    handle_event(&mut s, CoreEvent::GroupMembers { id: "a".into(), members: vec!["x".into()] }, 0, 0);
    assert_eq!(s.devices[0].group_members, vec!["x"]);
    assert_eq!(manual_id(Backend::Roku, "1.2.3.4"), "roku:1.2.3.4");
}

#[test]
fn volumes_from_the_window() {
    let mut s = home(vec![device("a", Backend::Cast), device("b", Backend::Roku)]);
    s.cfg.groups = vec![group("g", &["a", "b"])];
    s.devices[1].info.sync_gain = 2_000_000;
    assert_eq!(sets(&set_group_volume(&mut s, "g", 300_000)), vec![("a".to_string(), 300_000), ("b".to_string(), 600_000)]);
    assert!(set_group_volume(&mut s, "none", 300_000).is_empty());
    assert_eq!(sets(&set_device_volume_from_ui(&mut s, "b", 400_000)), vec![("b".to_string(), 400_000), ("a".to_string(), 200_000)]);
    set_sync_gain(&mut s, "a", 5_000_000);
    assert_eq!(s.devices[0].info.sync_gain, 2_000_000);
    rename_device(&mut s, "a", Some("  ".into()));
    assert_eq!(s.devices[0].info.custom_name, None);
    rename_device(&mut s, "a", Some("Den".into()));
    assert_eq!(display_name(&s.devices[0].info), "Den");
    assert!(group_transport(&s, "g").is_empty());
    s.devices[0].info.media = Some(media(PlayState::Playing, "x"));
    assert_eq!(group_transport(&s, "g"), vec!["a"]);
    assert!(matches!(media_toggle(&s, "a"), Some(DeviceCmd::Pause)));
    let t = ScheduleTarget { target_id: "a".into(), is_group: false, volume_pct: 25 };
    assert_eq!(sets(&fire_target(&mut s, &t)), vec![("a".to_string(), 250_000)]);
    assert!(matches!(device_backend(&s.devices, "a"), Ok((Backend::Cast, ip)) if ip == "10.0.0.1"));
    assert_eq!(device_backend(&s.devices, "zz").err().as_deref(), Some("Unknown device."));
    assert_eq!(tv_ready(&s.devices, "b"), Ok(("10.0.0.1".to_string(), false)));
}

#[test]
fn schedules_fire_once_a_minute() {
    let e = |id: &str, time: &str| ScheduleEvent {
        id: id.into(),
        enabled: true,
        days: [true, false, false, false, false, false, false],
        time: time.into(),
        targets: Vec::new(),
    };
    let list = vec![e("x", "07:30"), e("y", "08:00")];
    let mut fired: Vec<(String, String)> = Vec::new();
    assert_eq!(due_schedules(&list, &fired, "07:30", 0, "2026-09-21 07:30"), vec![0]);
    assert!(due_schedules(&list, &fired, "07:30", 1, "2026-09-22 07:30").is_empty());
    mark_fired(&mut fired, "x", "2026-09-21 07:30");
    assert!(due_schedules(&list, &fired, "07:30", 0, "2026-09-21 07:30").is_empty());
    assert_eq!(due_schedules(&list, &fired, "07:30", 0, "2026-09-28 07:30"), vec![0]);

    let mut s = home(vec![device("a", Backend::Cast), device("b", Backend::Cast)]);
    s.devices[1].info.sync_gain = 500_000;
    s.cfg.groups = vec![group("g", &["a", "b"])];
    s.cfg.schedules = list;
    s.cfg.schedules[0].targets = vec![
        ScheduleTarget { target_id: "g".into(), is_group: true, volume_pct: 40 },
        ScheduleTarget { target_id: "none".into(), is_group: true, volume_pct: 10 },
        ScheduleTarget { target_id: "b".into(), is_group: false, volume_pct: 5 },
    ];
    let want = vec![("a".to_string(), 400_000), ("b".to_string(), 200_000), ("b".to_string(), 50_000)];
    let mut fired: Vec<(String, String)> = Vec::new();
    assert_eq!(sets(&run_due_schedules(&mut s, &mut fired, "07:30", 0, "2026-09-21 07:30")), want);
    assert_eq!((s.cfg.groups[0].group_volume, s.cfg_dirty), (400_000, true));
    assert_eq!(fired, vec![("x".to_string(), "2026-09-21 07:30".to_string())]);
    assert!(run_due_schedules(&mut s, &mut fired, "07:30", 0, "2026-09-21 07:30").is_empty());
    assert_eq!(sets(&run_due_schedules(&mut s, &mut fired, "07:30", 0, "2026-09-28 07:30")), want);
}

#[test]
fn settings_are_imported() {
    let mut s = home(vec![device("a", Backend::Cast)]);
    s.cfg.roku_dev_passwords = vec![("r".to_string(), "p".to_string())];
    s.cfg.calendar.token = "t".to_string();
    let mut known = vec![device("a", Backend::Cast).info, device("b", Backend::Lg).info];
    known[0].custom_name = Some("Den".into());
    known[0].sync_gain = 1_500_000;
    known[0].ip = "10.9.9.9".into();
    let mut cfg = AppConfig::default();
    cfg.groups = vec![group("g", &["a"])];
    cfg.lg_keys = vec![("b".to_string(), "k".to_string())];
    import_config(&mut s, cfg, known);
    assert_eq!(s.devices.len(), 2);
    let a = &s.devices[0].info;
    assert_eq!((a.custom_name.as_deref(), a.sync_gain, a.ip.as_str(), a.online), (Some("Den"), 1_500_000, "10.0.0.1", true));
    assert!(!s.devices[1].info.online);
    assert_eq!((s.cfg.groups.len(), s.cfg.lg_keys.len(), s.cfg.roku_dev_passwords.len()), (1, 1, 1));
    assert_eq!(s.cfg.calendar.token, "t");
}

#[test]
fn devices_come_and_go() {
    let mut s = home(vec![]);
    let at = |ip: &str, v4| Announced { ip: ip.to_string(), v4 };
    let d = read_announcement("U-1".into(), "Den".into(), "google cast GROUP".into(), &vec![at("fe80::1", false), at("10.0.0.7", true)], 8009).unwrap();
    assert!(d.is_group && d.ip == "10.0.0.7");
    assert!(read_announcement("".into(), "x".into(), "m".into(), &vec![at("10.0.0.7", true)], 1).is_none());
    assert!(read_announcement("u".into(), "x".into(), "m".into(), &vec![at("fe80::1", false)], 1).is_none());
    let l = on_cast_discovered(&mut s, &d, false, 3);
    assert!(l.open && !l.close && s.devices.len() == 1 && s.devices[0].info.is_cast_group);
    let mut moved = d;
    moved.ip = "10.0.0.8".into();
    let l = on_cast_discovered(&mut s, &moved, true, 4);
    assert!(l.open && l.close && s.devices[0].info.ip == "10.0.0.8");
    let m = ManualDevice { backend: Backend::Roku, ip: "10.0.0.9".into(), port: 8060, name: "TV".into(), macs: vec![] };
    assert_eq!(ensure_manual_device(&mut s, &m, 5), "roku:10.0.0.9");
    s.cfg.manual_devices = add_manual_device(Vec::new(), m);
    assert!(knows_roku(&s.cfg.manual_devices, "10.0.0.9") && !knows_roku(&s.cfg.manual_devices, "10.0.0.10"));
    assert_eq!(s.devices.len(), 2);
    s.cfg.groups = vec![group("g", &["U-1", "roku:10.0.0.9"])];
    delete_device(&mut s, "U-1");
    assert_eq!((s.devices.len(), s.cfg.groups[0].member_ids.len()), (1, 1));
    on_cast_discovered(&mut s, &moved, false, 7);
    assert_eq!((s.devices.len(), s.devices[1].info.id.as_str(), s.devices[1].info.last_seen), (2, "U-1", 7));
    delete_device(&mut s, "U-1");
    let mut stored = device("old", Backend::Cast).info;
    stored.custom_name = Some("Old".into());
    adopt_device(&mut s, stored);
    assert!(!s.devices[1].info.online);
}

#[test]
fn what_plays_now() {
    let mut a = device("AB-1", Backend::Cast);
    let mut g = device("g", Backend::Cast);
    g.info.is_cast_group = true;
    g.group_members = vec!["ab1".to_string()];
    g.info.media = Some(media(PlayState::Playing, "Song"));
    a.info.friendly_name = "zoe".into();
    let devices = vec![g, a];
    assert_eq!(members_of(&devices, 0), vec!["AB-1"]);
    assert_eq!(find_via(&devices, 1), Some(0));
    assert_eq!(snapshot(&devices), vec![1, 0]);
    let list = now_playing(&devices);
    assert_eq!((list.len(), list[0].id.as_str(), list[0].playing), (1, "g", true));
    let mut sig = Vec::new();
    assert!(tray_changed(&mut sig, &list));
    assert!(!tray_changed(&mut sig, &list));
}

#[test]
fn states_have_names() {
    assert!(matches!(PlayState::of("PLAYING"), PlayState::Playing) && matches!(PlayState::of("BUFFERING"), PlayState::Buffering));
    assert!(matches!(PlayState::of("PAUSED"), PlayState::Paused) && matches!(PlayState::of("IDLE"), PlayState::Idle));
    assert!(matches!(PlayState::of("Playing"), PlayState::Other(t) if t == "Playing"));
    assert!(PlayState::of("PLAYING").same(&PlayState::Playing) && PlayState::of("x").same(&PlayState::of("x")));
    assert!(!PlayState::of("x").same(&PlayState::of("y")));
    assert!(!PlayState::Other("PLAYING".to_string()).same(&PlayState::Playing));
    for (name, shown) in [("PLAYING", Some(true)), ("BUFFERING", Some(true)), ("PAUSED", Some(false)), ("IDLE", None), ("x", None)] {
        let mut d = device("a", Backend::Cast);
        d.info.media = Some(media(PlayState::of(name), "Song"));
        let list = now_playing(&vec![d]);
        assert_eq!(list.first().map(|n| n.playing), shown);
    }
}
