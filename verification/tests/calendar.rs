//! The calendar on TVs: looks, pictures, schedules and settings.

use volume_sync::cal_feeds::FeedStatus;
use volume_sync::cal_render::{
    begin_round, data_due, end_round, file_name, frame_from_png, is_photo_name, is_served_name, is_stale, kick, page_request, payload,
    photo_url, status, store_events, swap_red_blue, want, window_size, PageRequest, RenderState, Round, Variant, use_entry, FolderEntry,
};
use volume_sync::cal_schedule::{
    busy, drop_moved_on, end_windows, find_running, forget_windows, judge, parse_hm, run_schedules, schedules_due, show_failed, CalAct,
    WinAct,
};
use volume_sync::calendar::{
    allowed_ips, clean_views, current_view, display_settings, ensure_token, is_outdated, is_small_display, manual_opts, mark_pushed,
    picture_item, push_targets, roku_params, schedule_opts, set_outdated, should_push, show_target, start_showing, stop_showing, touched,
    view, wanted, Runtime, ShowOpts, Win,
};
use volume_sync::config::{CalSchedule, CalendarConfig, DisplayDefaults, DisplaySettings};
use volume_sync::dates::day_from_ymd;
use volume_sync::home::Entry;
use volume_sync::saver_import::{import_saver, should_import};
use volume_sync::types::{Activity, Backend, DeviceInfo, MediaInfo, PlayState, TvStatus};
use volume_sync::zones::{to_utc, LocalClock, Zone};

fn strings(v: &[&str]) -> Vec<String> {
    v.iter().map(|s| s.to_string()).collect()
}

fn variant(theme: &str, pct: u32, photos: bool) -> Variant {
    Variant { theme: theme.to_string(), text_pct: pct, photos }
}

fn settings(theme: &str, pct: u32) -> DisplaySettings {
    DisplaySettings { theme: theme.into(), text_pct: pct, photos: true, views: strings(&["day", "month"]), rotate_secs: 30 }
}

fn defaults() -> DisplayDefaults {
    DisplayDefaults { small: settings("default", 150), large: settings("default", 100) }
}

fn device(id: &str, backend: Backend) -> Entry {
    Entry {
        info: DeviceInfo {
            id: id.to_string(),
            backend,
            friendly_name: id.to_string(),
            custom_name: None,
            model: "Google Nest HUB".to_string(),
            ip: format!("ip-{id}"),
            port: 1,
            is_cast_group: false,
            online: true,
            last_seen: 0,
            volume: 0,
            muted: false,
            can_absolute_volume: true,
            sync_gain: 1_000_000,
            tv: None,
            media: None,
        },
        group_members: Vec::new(),
    }
}

fn titled(state: PlayState, title: &str) -> Option<MediaInfo> {
    Some(MediaInfo {
        state,
        title: Some(title.to_string()),
        artist: None,
        app: None,
        supports_transport: true,
        album: None,
        image: None,
        position_ms: None,
        duration_ms: None,
        position_at: None,
        content_id: None,
        content_type: None,
    })
}

fn opts(cfg: &CalendarConfig, id: &str) -> ShowOpts {
    manual_opts(cfg, id, false, &defaults())
}

// ---------------------------------------------------------------------------
// Drawing
// ---------------------------------------------------------------------------

#[test]
fn drawn_files_are_served_and_no_others() {
    let name = file_name(&variant("dark", 100, true).name(), "month", "jpg");
    assert_eq!(name, "calendar-dark-t100-p1-month.jpg");
    assert!(is_served_name(&name));
    assert!(is_served_name(&file_name(&variant("light", 400, false).name(), "day", "mp4")));
    for bad in [
        "calendar-dark-t100-p1-year.jpg",
        "calendar-dark-t100-p1-month.png",
        "calendar-dark-t1000-p1-month.jpg",
        "calendar-dark-t-p1-month.jpg",
        "calendar-pink-t100-p1-month.jpg",
        "calendar-dark-t100-p2-month.jpg",
        "x-dark-t100-p1-month.jpg",
        "calendar-dark-t100-p1-x-month.jpg",
        "../calendar-dark-t100-p1-month.jpg",
    ] {
        assert!(!is_served_name(bad), "{bad}");
    }
}

#[test]
fn new_looks_are_drawn_at_once() {
    let mut s = RenderState::new();
    want(&mut s, vec![variant("dark", 100, true)], false);
    assert!(s.kick);
    s.kick = false;
    want(&mut s, vec![variant("dark", 100, true)], false);
    assert!(!s.kick);
    want(&mut s, vec![], false);
    assert!(!s.kick && s.variants.is_empty());
    want(&mut s, vec![], true);
    assert!(s.kick && s.four_k);
    kick(&mut s, true);
    assert!(s.reload_data);
}

#[test]
fn rounds_of_drawing() {
    let mut s = RenderState::new();
    let mut last = Some(5);
    assert_eq!(begin_round(&mut s, &mut last, 6, 30), Round::Rest);
    assert_eq!(last, None);
    s.window_4k = Some(false);
    s.status.rendering = true;
    assert_eq!(begin_round(&mut s, &mut last, 6, 30), Round::Close);
    assert!(!s.status.rendering && s.window_4k.is_none());
    s.variants = vec![variant("dark", 100, true)];
    assert_eq!(begin_round(&mut s, &mut last, 6, 0), Round::Rest);
    assert_eq!(begin_round(&mut s, &mut last, 6, 1), Round::Draw(false));
    assert_eq!(begin_round(&mut s, &mut last, 6, 2), Round::Rest);
    kick(&mut s, true);
    assert_eq!(begin_round(&mut s, &mut last, 6, 3), Round::Draw(true));
    assert!(!s.kick);
    let d = data_due(&s, 15, false, 0);
    assert!(d.fetch && d.scan && d.first);
    s.last_fetch = Some(0);
    s.last_scan = Some(0);
    assert!(!data_due(&s, 15, false, 899_999).fetch && data_due(&s, 15, false, 900_000).fetch);
    assert!(!data_due(&s, 0, false, 59_999).fetch && data_due(&s, 0, false, 60_000).fetch);
    assert!(data_due(&s, 60, false, 1_800_000).scan && data_due(&s, 60, true, 1).fetch);
    let feed = FeedStatus { name: "F".into(), color: "#1".into(), stale: false, error: None, enabled: true };
    store_events(&mut s, "[1]".into(), 1, vec![feed], Some("09:00".into()));
    end_round(&mut s, Ok(()), 77);
    let st = status(&s);
    assert_eq!((st.rendering, st.updated, st.error, st.events, st.feeds.len()), (true, Some(77), None, 1, 1));
    end_round(&mut s, Err("no window".into()), 78);
    assert_eq!((s.status.updated, s.status.error.as_deref()), (Some(77), Some("no window")));
    assert_eq!((window_size(true), window_size(false)), ((3840, 2160), (1920, 1080)));
    assert!(is_stale(7_201) && !is_stale(7_200));
}

#[test]
fn the_page_is_told_what_to_draw() {
    let mut s = RenderState::new();
    s.events_json = "[]".into();
    s.photos = strings(&["a\"b"]);
    let t = payload(&s, &variant("light", 125, true), "week", 20, 2026, 9, "[{}]");
    let v: serde_json::Value = serde_json::from_str(&t).unwrap();
    assert_eq!((v["year"].as_i64(), v["month"].as_i64(), v["photos"][0].as_str()), (Some(2026), Some(9), Some("a\"b")));
    assert_eq!((v["textScale"].as_f64(), v["theme"].as_str(), v["view"].as_str()), (Some(1.25), Some("light"), Some("week")));
    assert!(v["lastRefresh"].is_null() && t.contains("\"textScale\":1.25}"));
    s.last_refresh_label = Some("09:05".into());
    let t = payload(&s, &variant("dark", 100, false), "day", 5, 2026, 9, "[]");
    assert!(t.contains("\"photos\":[],") && t.contains("\"lastRefresh\":\"09:05\"") && t.ends_with("\"textScale\":1}"));
    assert!(payload(&s, &variant("dark", 150, false), "day", 5, 2026, 9, "[]").ends_with("\"textScale\":1.5}"));
}

#[test]
fn photos_and_previews() {
    assert_eq!(use_entry("a.JPG", false), FolderEntry::Photo);
    assert_eq!(use_entry("a.jpg", true), FolderEntry::Enter);
    assert_eq!((use_entry(".git", true), use_entry(".a.jpg", false), use_entry("a.txt", false)), (FolderEntry::PassOver, FolderEntry::PassOver, FolderEntry::PassOver));
    assert!(is_photo_name("a.JPG") && is_photo_name("b.webp") && !is_photo_name(".a.jpg") && !is_photo_name("a.gif"));
    assert_eq!(photo_url(2, &strings(&["a b", "c.jpg"])), "http://calphoto.localhost/p/2/a%20b/c.jpg");
    assert!(matches!(page_request("/p/1/a%20b/c.jpg", 2), PageRequest::Photo(1, p) if p == "a b\\c.jpg"));
    assert!(matches!(page_request("/p/2/c.jpg", 2), PageRequest::Nothing));
    assert!(matches!(page_request("/preview/calendar-dark-t100-p1-month.jpg", 0), PageRequest::Preview(_)));
    assert!(matches!(page_request("/preview/other.jpg", 0), PageRequest::Nothing));
    assert!(matches!(page_request("/x", 1), PageRequest::Nothing));
}

#[test]
fn a_picture_becomes_a_frame() {
    let img = image::RgbaImage::from_fn(3, 2, |x, y| image::Rgba([x as u8, y as u8, 9, 255]));
    let mut png = std::io::Cursor::new(Vec::new());
    img.write_to(&mut png, image::ImageFormat::Png).unwrap();
    let (w, h, d) = frame_from_png(png.get_ref()).unwrap();
    assert_eq!((w, h, d.len()), (2, 2, 24));
    assert_eq!(&d[4..8], &[9, 0, 1, 255]);
    assert!(frame_from_png(b"no picture").is_err());
    let mut px = vec![1, 2, 3, 4, 5];
    swap_red_blue(&mut px);
    assert_eq!(px, vec![3, 2, 1, 4, 5]);
    swap_red_blue(&mut px);
    assert_eq!(px, vec![1, 2, 3, 4, 5]);
}

// ---------------------------------------------------------------------------
// Screens
// ---------------------------------------------------------------------------

#[test]
fn how_screens_show_it() {
    let mut c = CalendarConfig::default();
    c.displays = vec![("a".into(), settings("light", 20))];
    let o = opts(&c, "a");
    assert_eq!((o.variant.theme.as_str(), o.variant.text_pct, o.views.clone(), o.rotate), ("light", 50, strings(&["month", "day"]), 30));
    let o = opts(&c, "b");
    assert_eq!((o.variant.theme.as_str(), o.variant.text_pct), ("dark", 100));
    assert_eq!(display_settings(&c, "b", true, &defaults()).text_pct, 150);
    assert_eq!(clean_views(&strings(&["x"])), strings(&["month"]));
    let devices = vec![device("h", Backend::Cast), device("r", Backend::Roku)];
    assert!(is_small_display(&devices, "h") && !is_small_display(&devices, "r") && !is_small_display(&devices, "z"));
    assert_eq!(
        roku_params("http://x/", &opts(&c, "a"), true),
        "cal=http%3A%2F%2Fx%2F&theme=light-t50-p1&views=month,day&rotate=30&q=4k&every=60"
    );
    assert!(matches!(show_target(&devices, "r"), Ok(Backend::Roku)));
    assert_eq!(show_target(&devices, "z").err().as_deref(), Some("Unknown device."));
    let y = vec![device("y", Backend::Yamaha)];
    assert_eq!(show_target(&y, "y").err().as_deref(), Some("This device can't show pictures."));
    assert!(ensure_token(&mut c) && c.token.len() == 32);
    let t = c.token.clone();
    assert!(!ensure_token(&mut c) && c.token == t);
}

#[test]
fn screens_and_their_pictures() {
    let c = CalendarConfig::default();
    let mut r = Runtime::new();
    let devices = vec![device("h", Backend::Cast), device("r", Backend::Roku)];
    start_showing(&mut r, "h", "ip-h", opts(&c, "h"), None, 1_000);
    start_showing(&mut r, "r", "ip-r", opts(&c, "r"), Some("k".into()), 1_000);
    assert_eq!(current_view(&r.showing[0].1, 1_000), "month");
    assert_eq!(current_view(&r.showing[0].1, 31_000), "day");
    assert_eq!(current_view(&r.showing[0].1, 61_000), "month");
    let t = push_targets(&r, &devices, 31_000);
    assert_eq!((t.len(), t[0].id.as_str(), t[0].name.as_str()), (1, "h", "calendar-dark-t100-p1-day.jpg"));
    assert!(should_push(&r, "h", "n.jpg", 5, 180_000) && !should_push(&r, "h", "n.jpg", 5, 180_001));
    mark_pushed(&mut r, "h", "n.jpg", 5);
    assert!(!should_push(&r, "h", "n.jpg", 5, 0) && should_push(&r, "h", "n.jpg", 6, 0));
    assert_eq!(picture_item("u", 12).url, "u?v=12");
    let (looks, four_k) = wanted(&r, &c, &devices, &defaults());
    assert_eq!((looks.len(), four_k), (1, false));
    let mut c4 = CalendarConfig::default();
    c4.four_k = true;
    c4.screensaver_tvs = strings(&["r"]);
    c4.displays = vec![("r".into(), settings("light", 100))];
    let (looks, four_k) = wanted(&r, &c4, &devices, &defaults());
    assert_eq!((looks.len(), four_k), (2, true));
    let ips = allowed_ips(&r, &c4, &devices);
    assert!(ips.contains(&"ip-h".to_string()) && ips.contains(&"ip-r".to_string()));
    assert!(is_outdated(&c4, "r", "b", &defaults()));
    c4.pushed = vec![("r".into(), roku_params("b", &opts(&c4, "r"), true))];
    assert!(!is_outdated(&c4, "r", "b", &defaults()) && is_outdated(&c4, "r", "other", &defaults()));
    assert!(set_outdated(&mut r, strings(&["r"])) && !set_outdated(&mut r, strings(&["r"])));
    touched(&mut r, "ip-r", 9_999);
    assert_eq!((r.showing[0].1.touched, r.showing[1].1.touched), (1_000, 9_999));
    c4.token = "secret".into();
    let v = view(&r, &RenderState::new(), c4, true);
    assert_eq!((v.showing, v.settings.token.as_str(), v.settings.pushed.len()), (strings(&["h", "r"]), "", 0));
    assert!(v.saver_found && v.settings.four_k);
    assert!(stop_showing(&mut r, "h") && !stop_showing(&mut r, "h"));
}

#[test]
fn screens_that_moved_on() {
    let c = CalendarConfig::default();
    let mut r = Runtime::new();
    start_showing(&mut r, "h", "ip", opts(&c, "h"), None, 0);
    let mut devices = vec![device("h", Backend::Cast)];
    devices[0].info.media = titled(PlayState::Playing, "Film");
    assert!(!drop_moved_on(&mut r, &devices, 29_999));
    assert!(r.elsewhere.is_empty());
    for _ in 0..3 {
        assert!(!drop_moved_on(&mut r, &devices, 30_000));
    }
    devices[0].info.media = titled(PlayState::Playing, "Calendar");
    assert!(!drop_moved_on(&mut r, &devices, 30_000));
    devices[0].info.media = titled(PlayState::Playing, "Film");
    for _ in 0..3 {
        assert!(!drop_moved_on(&mut r, &devices, 30_000));
    }
    assert!(drop_moved_on(&mut r, &devices, 30_000));
    assert!(r.showing.is_empty() && r.elsewhere.is_empty());
}

// ---------------------------------------------------------------------------
// Schedules
// ---------------------------------------------------------------------------

fn schedule(start: &str, minutes: u32) -> CalSchedule {
    CalSchedule {
        id: "s1".into(),
        enabled: true,
        days: [true; 7],
        start: start.into(),
        duration_min: minutes,
        devices: strings(&["r"]),
        theme: "light".into(),
        views: strings(&["week"]),
        rotate_secs: 0,
        power_on: true,
        dont_interrupt: true,
        off_after: true,
        idle_off_min: 10,
    }
}

fn roku(on: bool) -> Entry {
    let mut e = device("r", Backend::Roku);
    let mut tv = TvStatus::unknown();
    tv.power = Some(on);
    e.info.tv = Some(tv);
    e
}

#[test]
fn times_of_the_clock() {
    assert_eq!(parse_hm("7:30"), (7, 30));
    assert_eq!(parse_hm(" 25 : 99 "), (23, 59));
    assert_eq!(parse_hm("x"), (0, 0));
    assert_eq!(parse_hm("8"), (8, 0));
}

#[test]
fn a_time_runs_from_its_start_to_its_end() {
    let mut clock = LocalClock::new();
    let day = day_from_ymd(2026, 6, 15).unwrap();
    let s = schedule("07:00", 60);
    let start = to_utc(2 * (86_400 * day + 7 * 3_600), &Zone::Floating, &mut clock) / 2;
    assert_eq!(find_running(&s, day, start, &mut clock), Some(start + 3_600));
    assert_eq!(find_running(&s, day, start - 1, &mut clock), None);
    assert_eq!(find_running(&s, day, start + 3_600, &mut clock), None);
    let mut off = schedule("07:00", 60);
    off.enabled = false;
    assert_eq!(find_running(&off, day, start, &mut clock), None);
    let mut other = schedule("07:00", 60);
    other.days = [false; 7];
    assert_eq!(find_running(&other, day, start, &mut clock), None);
}

#[test]
fn what_a_time_asks_of_a_screen() {
    let s = schedule("07:00", 60);
    let fresh = || Win { end: 0, shown: false, turned_on: false, power_asked: None, done: false };
    // Off: turned on, at most once a minute.
    let mut w = fresh();
    assert_eq!(judge(&mut w, &s, &roku(false), None, 0), WinAct::TurnOn);
    assert_eq!(judge(&mut w, &s, &roku(false), None, 60_000), WinAct::Nothing);
    assert_eq!(judge(&mut w, &s, &roku(false), None, 60_001), WinAct::TurnOn);
    // Busy: left alone.
    let mut film = roku(true);
    film.info.tv.as_mut().unwrap().activity = Some(Activity::Playing);
    assert!(busy(&film));
    assert_eq!(judge(&mut w, &s, &film, None, 70_000), WinAct::Nothing);
    assert_eq!(judge(&mut w, &s, &roku(true), None, 70_000), WinAct::Show);
    // Nobody pressed a key for ten minutes.
    assert_eq!(judge(&mut w, &s, &roku(true), Some(70_000), 669_999), WinAct::Nothing);
    assert_eq!(judge(&mut w, &s, &roku(true), Some(70_000), 670_000), WinAct::TurnOff);
    assert_eq!(judge(&mut w, &s, &roku(true), None, 670_001), WinAct::Nothing);
    // Somebody switched away: it is done.
    let mut w = fresh();
    w.shown = true;
    assert_eq!(judge(&mut w, &s, &roku(true), None, 0), WinAct::Nothing);
    assert!(w.done);
    let mut our = roku(true);
    our.info.tv.as_mut().unwrap().showing = Some("Volume Sync".into());
    our.info.tv.as_mut().unwrap().activity = Some(Activity::App);
    assert!(!busy(&our));
}

#[test]
fn a_schedule_from_start_to_end() {
    let mut clock = LocalClock::new();
    let day = day_from_ymd(2026, 6, 15).unwrap();
    let mut cfg = CalendarConfig::default();
    cfg.schedules = vec![schedule("23:30", 60)];
    let start = to_utc(2 * (86_400 * day + 23 * 3_600 + 1_800), &Zone::Floating, &mut clock) / 2;
    let mut r = Runtime::new();
    let devices = vec![roku(true)];
    let out = run_schedules(&mut r, &cfg, &devices, &defaults(), day, start, 0, &mut clock);
    let key = match &out[0] {
        CalAct::Show { key, id, opts } => {
            assert_eq!((id.as_str(), opts.variant.theme.as_str(), opts.views.clone()), ("r", "light", strings(&["week"])));
            key.clone()
        }
        _ => panic!("not shown"),
    };
    assert_eq!(key, "s1|2026-06-15|r");
    start_showing(&mut r, "r", "ip", schedule_opts(&cfg, &cfg.schedules[0], "r", false, &defaults()), Some(key.clone()), 0);
    // After midnight it still runs, and nothing more is asked.
    assert!(run_schedules(&mut r, &cfg, &devices, &defaults(), day + 1, start + 2_000, 1, &mut clock).is_empty());
    assert!(end_windows(&mut r, &cfg, &devices, start + 3_599).is_empty());
    let out = end_windows(&mut r, &cfg, &devices, start + 3_600);
    assert!(matches!(&out[0], CalAct::Power(id, false) if id == "r"));
    assert!(r.showing.is_empty() && r.windows[0].1.done);
    assert!(end_windows(&mut r, &cfg, &devices, start + 3_700).is_empty());
    forget_windows(&mut r, start + 3_600 + 172_799);
    assert_eq!(r.windows.len(), 1);
    forget_windows(&mut r, start + 3_600 + 172_800);
    assert!(r.windows.is_empty());
    // A show that failed is tried again.
    let out = run_schedules(&mut r, &cfg, &devices, &defaults(), day, start, 0, &mut clock);
    assert_eq!(out.len(), 1);
    show_failed(&mut r, &key);
    assert_eq!(run_schedules(&mut r, &cfg, &devices, &defaults(), day, start + 15, 0, &mut clock).len(), 1);
    assert!(schedules_due(&mut r, 0) && !schedules_due(&mut r, 14_999) && schedules_due(&mut r, 15_000));
}

#[test]
fn screens_are_turned_on_before_the_calendar_is_shown() {
    let mut clock = LocalClock::new();
    let day = day_from_ymd(2026, 6, 15).unwrap();
    let mut cfg = CalendarConfig::default();
    let mut second = schedule("07:00", 60);
    second.id = "s2".into();
    second.devices = strings(&["q"]);
    cfg.schedules = vec![schedule("07:00", 60), second];
    let start = to_utc(2 * (86_400 * day + 7 * 3_600), &Zone::Floating, &mut clock) / 2;
    let mut dark = roku(false);
    dark.info.id = "q".into();
    let out = run_schedules(&mut Runtime::new(), &cfg, &vec![roku(true), dark], &defaults(), day, start, 0, &mut clock);
    assert_eq!(out.len(), 2);
    assert!(matches!(&out[0], CalAct::Power(id, true) if id == "q"));
    assert!(matches!(&out[1], CalAct::Show { id, .. } if id == "r"));
}

// ---------------------------------------------------------------------------
// Importing
// ---------------------------------------------------------------------------

#[test]
fn settings_are_taken_over_once() {
    let mut c = CalendarConfig::default();
    assert!(should_import(&c, true) && !should_import(&c, false));
    let doc = r##"{"feeds":[{"Url":"https://h/a.ics","name":"A","enabled":false},{"url":" https://h/a.ics "},{"url":""},
    {"url":"https://h/b.ics","color":"#123456"}],"PhotoFolders":["C:\\P","c:\\p",5,"D:\\Q"],"photoIntervalSeconds":2,"refreshMinutes":90}"##;
    assert_eq!(import_saver(&mut c, doc), Ok("Copied 2 calendars and 2 photo folders from the Calendar Saver.".to_string()));
    assert_eq!((c.feeds[0].url.as_str(), c.feeds[0].enabled, c.feeds[0].color.as_str()), ("https://h/a.ics", false, "#7aa2f7"));
    assert_eq!((c.feeds[1].color.as_str(), c.feeds[1].enabled), ("#123456", true));
    assert_eq!(c.photo_folders, strings(&["C:\\P", "D:\\Q"]));
    assert_eq!((c.photo_interval_secs, c.refresh_minutes, c.saver_imported), (5, 90, true));
    assert!(!should_import(&c, true));
    assert_eq!(import_saver(&mut c, doc), Ok("Copied 0 calendars and 0 photo folders from the Calendar Saver.".to_string()));
    let one = r#"{"feeds":[{"url":"x"}]}"#;
    assert_eq!(import_saver(&mut c, one), Ok("Copied 1 calendar and 0 photo folders from the Calendar Saver.".to_string()));
    let e = import_saver(&mut c, "{").unwrap_err();
    assert!(e.starts_with("Couldn't read the Calendar Saver's settings: ") && e.len() > 50);
}
