//! Roku TVs: what they show, what they are sent, and the channel on them.

use volume_sync::roku::{
    is_screensaver_app, list_inputs, parse_apps, parse_ms, player_reply, poll, tv_status, wants_channel, wants_inputs, Replies, Seen,
};
use volume_sync::roku_player::{
    answer_challenge, build_zip, bundled_version, calendar_params, dev_key, dev_key_error, dev_key_wait, digest_header, endpoint,
    install_result, installed_version, kind, needs_upgrade, play_params, play_result, q, sidecar_subtitles, stream_format,
    stream_format_for_url, version_key, ChannelFiles, Item,
};
use volume_sync::roku_remote::{
    act_on, collapse, note_answer, note_hosts, plan_seek, poll_wait, power_key, ramp, ramp_done, read_device_info, read_position, remote_key,
    scan_step, should_wake, subnet_hosts, target, wake_packet, KeyResult, RokuAct, Scan, SeekPlan,
};
use volume_sync::types::{Activity, CoreEvent, DeviceCmd, InputOption, PlayState};
use volume_sync::xml::{xml_attr, xml_tag, xml_unescape};

fn chars(s: &str) -> Vec<char> {
    s.chars().collect()
}

fn text(v: Option<Vec<char>>) -> Option<String> {
    v.map(|c| c.into_iter().collect())
}

const APPS: &str = r#"<apps><app id="dev" type="appl" version="1.2.3">Volume Sync</app>
<app id="tvinput.hdmi1" type="tvin" version="1.0.0">PS5 &amp; more</app><app id="12" type="appl"> Netflix </app><app type="x">none</app></apps>"#;

const INFO: &str = "<device-info><is-tv>true</is-tv><power-mode>PowerOn</power-mode><wifi-mac>aa:bb</wifi-mac>\
<ethernet-mac></ethernet-mac><vendor-name>TCL</vendor-name><model-name>X1</model-name><software-version>12.0</software-version>\
<developer-enabled>true</developer-enabled><headphones-connected>false</headphones-connected></device-info>";

fn replies(active: &str, player: Option<&str>) -> Replies {
    Replies { info: INFO.to_string(), player: player.map(String::from), active: active.to_string(), channel: None }
}

#[test]
fn xml_of_tvs() {
    assert_eq!(text(xml_tag(&chars("<a> x &lt;y&gt; </a>"), "a")).as_deref(), Some("x <y>"));
    assert_eq!(text(xml_tag(&chars("<a>x"), "a")), None);
    assert_eq!(text(xml_attr(&chars(r#" id="q&quot;" b="2""#), "id")).as_deref(), Some("q\""));
    assert_eq!(text(xml_attr(&chars(r#"x="1""#), "id")), None);
    let s: String = xml_unescape(&chars("&amp;lt;&apos;")).into_iter().collect();
    assert_eq!(s, "&lt;'");
}

#[test]
fn apps_and_inputs() {
    let apps = parse_apps(APPS);
    assert_eq!(apps.len(), 3);
    assert_eq!((apps[1].id.as_str(), apps[1].kind.as_str(), apps[1].name.as_str()), ("tvinput.hdmi1", "tvin", "PS5 & more"));
    let inputs = list_inputs(APPS, "1.2.3.4");
    let ids: Vec<&str> = inputs.iter().map(|i| i.id.as_str()).collect();
    assert_eq!(ids, vec!["app:tvinput.hdmi1", "app:dev", "app:12"]);
    assert_eq!(inputs[1].kind, "player");
    assert_eq!(inputs[2].icon.as_deref(), Some("http://1.2.3.4:8060/query/icon/12"));
    let usual = list_inputs("Limited mode", "1.2.3.4");
    assert_eq!(usual.len(), 6);
    assert_eq!((usual[0].id.as_str(), usual[5].label.as_str()), ("key:InputTuner", "AV"));
}

#[test]
fn status_of_an_app_that_plays() {
    let r = replies(
        r#"<active-app><app id="12" type="appl">Netflix</app></active-app>"#,
        Some(r#"<player error="false" state="play"><position>12345 ms</position><duration>60000 ms</duration><is_live>true</is_live></player>"#),
    );
    let tv = tv_status(&r, &list_inputs(APPS, "ip"), "ip", 99);
    assert_eq!(tv.activity, Some(Activity::Playing));
    assert_eq!((tv.position_ms, tv.duration_ms, tv.position_at), (Some(12_345), Some(60_000), Some(99)));
    assert_eq!(tv.showing.as_deref(), Some("Netflix"));
    assert_eq!(tv.showing_detail.as_deref(), Some("Playing"));
    assert_eq!(tv.model.as_deref(), Some("TCL X1"));
    assert_eq!(tv.firmware.as_deref(), Some("Roku OS 12.0"));
    assert!(tv.is_live && tv.dev_mode && tv.player_ready && !tv.restricted && !tv.headphones);
    assert_eq!(tv.power, Some(true));
}

#[test]
fn status_of_other_screens() {
    let none: Vec<InputOption> = Vec::new();
    let home = tv_status(&replies(r#"<app id="1" type="home">Home</app>"#, Some("")), &none, "ip", 0);
    assert_eq!((home.activity, home.showing.as_deref(), home.showing_icon), (Some(Activity::Home), Some("Home"), None));
    let hdmi = tv_status(&replies(r#"<app id="tvinput.hdmi2" type="tvin">x</app>"#, None), &none, "ip", 0);
    assert_eq!((hdmi.activity, hdmi.showing.as_deref()), (Some(Activity::Input), Some("HDMI 2")));
    assert!(hdmi.restricted);
    let mut live = replies(r#"<app id="tvinput.dtv" type="tvin">x</app>"#, Some(""));
    live.channel = Some("<number>5.1</number><name>CBC</name><program-title>News</program-title>".to_string());
    let live = tv_status(&live, &none, "ip", 0);
    assert_eq!((live.activity, live.showing_detail.as_deref()), (Some(Activity::LiveTv), Some("5.1 CBC \u{b7} News")));
    let saver = tv_status(&replies(r#"<app id="773622" type="appl">Backdrops</app>"#, Some("")), &none, "ip", 0);
    assert_eq!(saver.activity, Some(Activity::Screensaver));
    let mut off = replies(r#"<app id="12" type="appl">x</app>"#, Some(""));
    off.info = INFO.replace("PowerOn", "DisplayOff");
    let off = tv_status(&off, &none, "ip", 0);
    assert_eq!((off.activity, off.power), (Some(Activity::Off), Some(false)));
    let quiet = tv_status(&replies(r#"<app id="12" type="appl">x</app>"#, Some("")), &none, "ip", 0);
    assert_eq!(quiet.activity, Some(Activity::App));
    assert!(is_screensaver_app("9", "My ScreenSaver") && is_screensaver_app("9", "Roku City") && !is_screensaver_app("9", "Films"));
}

#[test]
fn only_changes_are_reported() {
    let mut seen = Seen::new(vec![]);
    let play = || replies(r#"<app id="12" type="appl">Netflix</app>"#, Some(r#"<player state="play">"#));
    assert!(wants_inputs(&seen, INFO, 0));
    let out = poll(&mut seen, "r", "ip", Some(play()), APPS, 0, 5);
    assert!(matches!(&out[0], CoreEvent::Online { online: true, .. }));
    assert!(matches!(&out[1], CoreEvent::DeviceStatus { macs, .. } if macs == &vec!["aa:bb".to_string()]));
    assert!(matches!(&out[2], CoreEvent::MediaChanged { media: Some(m), .. } if matches!(m.state, PlayState::Playing)));
    assert!(!wants_inputs(&seen, INFO, 60_000) && wants_inputs(&seen, INFO, 60_001));
    assert!(poll(&mut seen, "r", "ip", Some(play()), APPS, 1, 5).is_empty());
    let paused = replies(r#"<app id="12" type="appl">Netflix</app>"#, Some(r#"<player state="pause">"#));
    let out = poll(&mut seen, "r", "ip", Some(paused), APPS, 1, 5);
    assert!(out.iter().any(|e| matches!(e, CoreEvent::MediaChanged { media: Some(m), .. } if matches!(m.state, PlayState::Paused))));
    let out = poll(&mut seen, "r", "ip", None, "", 2, 6);
    assert_eq!(out.len(), 1);
    assert!(matches!(&out[0], CoreEvent::Online { online: false, .. }));
}

#[test]
fn small_answers() {
    assert_eq!(parse_ms(&chars(" 12345 ms")), Some(12_345));
    assert_eq!(parse_ms(&chars("ms")), None);
    assert_eq!(player_reply(403, "x".into()), None);
    assert_eq!(player_reply(200, "ECP is in Limited mode".into()), None);
    assert_eq!(player_reply(200, "x".into()).as_deref(), Some("x"));
    assert!(wants_channel(r#"<app id="tvinput.dtv">"#) && !wants_channel(r#"<app id="12">"#));
    assert_eq!(read_position("<position>7 ms</position>"), Some(7));
}

#[test]
fn commands_of_the_remote() {
    assert!(matches!(act_on(DeviceCmd::SetVolume(354_999)), RokuAct::Volume(35)));
    assert!(matches!(act_on(DeviceCmd::Pause), RokuAct::Press(k) if k == "Play"));
    assert!(matches!(act_on(DeviceCmd::Input("key:InputHDMI1".into())), RokuAct::PressAndLook(k) if k == "InputHDMI1"));
    assert!(matches!(act_on(DeviceCmd::Input("app:12".into())), RokuAct::LaunchAndLook(k) if k == "12"));
    assert!(matches!(act_on(DeviceCmd::Input("x".into())), RokuAct::WaitAndLook));
    assert!(matches!(act_on(DeviceCmd::Key("Home".into())), RokuAct::Press(_)));
    assert!(matches!(act_on(DeviceCmd::Key("VolumeUp".into())), RokuAct::Nothing));
    assert!(matches!(act_on(DeviceCmd::Shutdown), RokuAct::Stop));
    assert!(remote_key("Search") && !remote_key("PowerOff"));
    assert_eq!(collapse(1, &vec![DeviceCmd::SetVolume(2), DeviceCmd::Play, DeviceCmd::SetVolume(3)]), Some(3));
    assert_eq!(collapse(1, &vec![DeviceCmd::Shutdown, DeviceCmd::SetVolume(3)]), None);
    assert_eq!((poll_wait(Some(Activity::Loading)), poll_wait(None)), (3_000, 10_000));
    assert_eq!((target(-5), target(2_000_000), target(5_000)), (0, 100, 1));
}

#[test]
fn a_ramp_arrives() {
    for level in 0..=100i64 {
        for (cached, to) in [(Some(level as u8), 0u8), (Some(level as u8), 63), (None, 0), (None, 100)] {
            let r = ramp(cached, to);
            let now = ((level - r.downs as i64).max(0) + r.ups as i64).min(100);
            assert_eq!(now, to as i64);
        }
    }
    assert_eq!(ramp_done("r", 40, true).0, None);
    assert!(matches!(ramp_done("r", 40, false), (Some(40), Some(CoreEvent::VolumeChanged { volume: 400_000, muted: false, .. }))));
}

#[test]
fn seeking() {
    assert_eq!(plan_seek(r#"<app id="dev">"#, None, 5), SeekPlan::Direct);
    assert_eq!(plan_seek("", None, 5), SeekPlan::Nothing);
    assert_eq!(plan_seek("", Some(10_000), 13_999), SeekPlan::Nothing);
    assert_eq!(plan_seek("", Some(0), 600_001), SeekPlan::Scan { forward: true, start: 0, presses: 3 });
    assert_eq!(plan_seek("", Some(200_000), 79_999), SeekPlan::Scan { forward: false, start: 200_000, presses: 2 });
    let mut s = Scan { forward: true, target: 100_000, begun: 0, pos: 0, at: 0, moved: 0 };
    assert!(!scan_step(&mut s, Some(3_000), 300));
    // Ten times the speed: 4500 ms and a second ahead.
    assert!(!scan_step(&mut s, Some(6_000), 600));
    s.pos = 91_500;
    assert!(scan_step(&mut s, Some(94_500), 900));
    // Standing still for more than four seconds ends it, and so do ninety seconds.
    let mut s = Scan { forward: true, target: 100_000, begun: 0, pos: 5, at: 0, moved: 0 };
    assert!(!scan_step(&mut s, Some(5), 4_000));
    assert!(scan_step(&mut s, Some(5), 4_001));
    let mut s = Scan { forward: true, target: 1_000_000, begun: 0, pos: 5, at: 90_000, moved: 90_000 };
    assert!(scan_step(&mut s, Some(6), 90_001));
    assert!(scan_step(&mut s, None, 90_002));
}

#[test]
fn waking() {
    assert!(should_wake(true, KeyResult::Unreachable, true, 0));
    assert!(!should_wake(true, KeyResult::Refused, true, 0));
    assert!(!should_wake(true, KeyResult::Unreachable, false, 0));
    assert!(should_wake(true, KeyResult::Refused, true, 5));
    assert!(!should_wake(true, KeyResult::Refused, true, 6));
    assert!(!should_wake(true, KeyResult::Done, true, 2));
    assert!(!should_wake(false, KeyResult::Unreachable, true, 0));
    assert_eq!((power_key(true), power_key(false)), ("PowerOn", "PowerOff"));
    let p = wake_packet("01:02-0a:FF:10:00").unwrap();
    assert_eq!(p.len(), 102);
    assert_eq!(&p[..12], &[255, 255, 255, 255, 255, 255, 1, 2, 10, 255, 16, 0]);
    assert_eq!(&p[96..], &[1, 2, 10, 255, 16, 0]);
    assert_eq!(wake_packet("01:02"), Err("bad MAC address".to_string()));
    assert_eq!(wake_packet("01:02:03:04:05:100"), Err("bad MAC address".to_string()));
}

#[test]
fn finding_tvs() {
    let mut hosts = vec!["10.0.0.9".to_string()];
    note_hosts(&mut hosts, "HTTP/1.1 200 OK\r\nLOCATION: http://10.0.0.5:8060/\r\nLocation: http://10.0.0.9:8060/\r\nlocation: http://10.0.0.6:8060/");
    assert_eq!(hosts, vec!["10.0.0.9", "10.0.0.5"]);
    let mut more = Vec::new();
    note_answer(&mut more, b"\xff\r\nLOCATION: http://10.0.0.5:8060/\r\n");
    assert_eq!(more, vec!["10.0.0.5"]);
    let f = read_device_info("<user-device-name></user-device-name><friendly-device-name>Den</friendly-device-name><model-name>M</model-name>", "1.1.1.1");
    assert_eq!((f.ip.as_str(), f.name.as_str(), f.model.as_str(), f.serial.as_str()), ("1.1.1.1", "Den", "M", ""));
    let h = subnet_hosts(192, 168, 1);
    assert_eq!((h.len(), h[0].as_str(), h[253].as_str()), (254, "192.168.1.1", "192.168.1.254"));
}

#[test]
fn stream_formats() {
    assert_eq!((kind("image"), kind("audio:mp3"), kind("mp4")), ("image", "audio", "video"));
    assert_eq!(stream_format("C:\\v\\A.MKV"), Some("mkv"));
    assert_eq!(stream_format("/v/a.webm"), Some("mp4"));
    assert_eq!((stream_format("a.mp4/."), stream_format("a.mp4/"), stream_format("b.mp4")), (Some("mp4"), Some("mp4"), Some("mp4")));
    assert_eq!(stream_format("/v/song.AAC"), Some("audio:es.aac-adts"));
    assert_eq!(stream_format("/v.mp4/readme"), None);
    assert_eq!(stream_format("/v/.mp4"), None);
    assert_eq!(stream_format_for_url("http://h/live.M3U8?x=1.png"), "hls");
    assert_eq!(stream_format_for_url("http://h.com/watch"), "mp4");
    assert_eq!(stream_format_for_url("http://h/a.jpg#frag"), "image");
}

#[test]
fn subtitles_next_to_a_video() {
    let names: Vec<String> = ["Film.txt", "film.SRT", "Film.vtt"].iter().map(|s| s.to_string()).collect();
    assert_eq!(sidecar_subtitles("FILM.mp4", &names), Some(1));
    assert_eq!(sidecar_subtitles("Other.mp4", &names), None);
}

#[test]
fn requests_to_the_channel() {
    assert_eq!(q("a b/\u{e9}~"), "a%20b%2F%C3%A9~");
    let items = vec![
        Item { url: "http://h/a b".into(), title: "A".into(), fmt: "mp4".into(), subtitles: Some("s".into()), autoplay: false },
        Item { url: "u".into(), title: "B".into(), fmt: "image".into(), subtitles: None, autoplay: true },
    ];
    assert_eq!(play_params(&items), "n=2&ap=0&u1=http%3A%2F%2Fh%2Fa%20b&t1=A&f1=mp4&s1=s&u2=u&t2=B&f2=image");
    assert_eq!(play_params(&vec![]), "n=0");
    assert_eq!(calendar_params("x", 60, true), "cal=x&every=60&save=1");
    assert_eq!(endpoint("ip", r#"id="dev""#, "p"), "http://ip:8060/input?p");
    assert_eq!(endpoint("ip", "", "p"), "http://ip:8060/launch/dev?p");
    assert_eq!(play_result(200, "200 OK", ""), Ok(()));
    assert_eq!(
        play_result(404, "404 Not Found", ""),
        Err("The player channel isn't installed on this TV. Use Set up video playback first.".to_string())
    );
    assert_eq!(
        play_result(500, "500 Oops", " to start playback"),
        Err("The TV refused to start playback (500 Oops).".to_string())
    );
}

#[test]
fn digest_login() {
    // The example of RFC 2617.
    let challenge = "Digest realm=\"testrealm@host.com\", qop=\"auth,auth-int\", nonce=\"dcd98b7102dd2f0e8b11d0f600bfb0c093\", opaque=\"5ccc\"";
    let h = digest_header(challenge, "Mufasa", "Circle Of Life", "GET", "/dir/index.html", "0a4f113b").unwrap();
    assert_eq!(
        h,
        "Digest username=\"Mufasa\", realm=\"testrealm@host.com\", nonce=\"dcd98b7102dd2f0e8b11d0f600bfb0c093\", uri=\"/dir/index.html\", \
qop=auth, nc=00000001, cnonce=\"0a4f113b\", response=\"6629fae49393a05397450978507c4ef1\""
    );
    let plain = digest_header("Digest realm=r, nonce=n", "u", "p", "GET", "/", "c").unwrap();
    assert!(plain.starts_with("Digest username=\"u\", realm=\"r\", nonce=\"n\", uri=\"/\", response=\"") && plain.len() == 95);
    assert_eq!(digest_header("Basic realm=\"x\"", "u", "p", "GET", "/", "c"), None);
    assert_eq!(digest_header("Digest realm=\"x\"", "u", "p", "GET", "/", "c"), None);
    let a = answer_challenge(challenge, "u", "p", "POST", "/plugin_install").unwrap();
    let b = answer_challenge(challenge, "u", "p", "POST", "/plugin_install").unwrap();
    assert_ne!(a, b);
    let i = a.find("cnonce=\"").unwrap() + 8;
    assert!(a[i..i + 32].chars().all(|c| c.is_ascii_digit() || ('a'..='f').contains(&c)));
}

#[test]
fn the_channel_is_zipped() {
    let f = |s: &str| s.as_bytes().to_vec();
    let zip = build_zip(ChannelFiles {
        manifest: f("m"),
        main_brs: f("main"),
        scene_xml: f("sx"),
        scene_brs: f("sb"),
        cal_xml: f("cx"),
        cal_brs: f("cb"),
        saver_xml: f("vx"),
        icon: vec![0, 255],
    })
    .unwrap();
    let mut a = zip::ZipArchive::new(std::io::Cursor::new(zip)).unwrap();
    let names: Vec<String> = (0..a.len()).map(|i| a.by_index(i).unwrap().name().to_string()).collect();
    assert_eq!(
        names,
        vec![
            "manifest", "source/main.brs", "components/PlayerScene.xml", "components/PlayerScene.brs", "components/CalendarView.xml",
            "components/CalendarView.brs", "components/CalendarSaverScene.xml", "images/icon.png",
        ]
    );
    let mut main = String::new();
    std::io::Read::read_to_string(&mut a.by_name("source/main.brs").unwrap(), &mut main).unwrap();
    assert_eq!(main, "main");
}

#[test]
fn installing() {
    assert_eq!(install_result(200, "200 OK", "... Install Success ..."), Ok(()));
    assert_eq!(install_result(200, "200 OK", "Identical to previous version"), Ok(()));
    assert_eq!(install_result(401, "401", ""), Err("Wrong developer password for this TV.".to_string()));
    assert_eq!(install_result(500, "500 Bad", ""), Err("The TV rejected the install (500 Bad).".to_string()));
    assert_eq!(
        install_result(200, "200 OK", "?"),
        Err("The TV didn't confirm the install. Try again, or check the password.".to_string())
    );
    let keys: Vec<&str> = (0..12).filter_map(dev_key).collect();
    assert_eq!(keys, vec!["Home", "Home", "Home", "Up", "Up", "Right", "Left", "Right", "Left", "Right"]);
    assert_eq!((dev_key_wait("Home"), dev_key_wait("Up")), (700, 350));
    assert_eq!(dev_key_error("Up", "403"), "The TV refused the Up key (403).");
}

#[test]
fn versions() {
    assert_eq!(bundled_version("title=x\r\nmajor_version=1\r\nminor_version= 4 \nbuild_version=0007"), "1.4.0007");
    assert_eq!(bundled_version(""), "0.0.0");
    assert_eq!(installed_version(APPS).as_deref(), Some("1.2.3"));
    assert_eq!(installed_version("<apps/>"), None);
    assert_eq!(version_key("1.x.12"), vec![1, 0, 12]);
    assert!(needs_upgrade(&Some("1.2.3".into()), "1.10.0"));
    assert!(needs_upgrade(&Some("1.2".into()), "1.2.0"));
    assert!(!needs_upgrade(&Some("1.10.0".into()), "1.10.0"));
    assert!(!needs_upgrade(&Some("2.0.0".into()), "1.10.0"));
    assert!(!needs_upgrade(&None, "1.0.0"));
}
