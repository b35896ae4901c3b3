//! LG TVs, Yamaha receivers and Optoma projectors.

use serde_json::Value;
use volume_sync::lg::{self, LgMessage, LgState};
use volume_sync::optoma::{self, Assumed};
use volume_sync::types::{CoreEvent, DeviceCmd, PlayState};
use volume_sync::yamaha::{self, YamahaState};

fn value(s: &str) -> Value {
    serde_json::from_str(s).unwrap()
}

#[test]
fn lg_registers() {
    let v = value(&lg::register(&None));
    assert_eq!(v["type"], "register");
    assert_eq!(v["id"], "register_0");
    assert_eq!(v["payload"]["manifest"]["permissions"][5], "CONTROL_POWER");
    assert!(v["payload"].get("client-key").is_none());
    assert_eq!(value(&lg::register(&Some("k\"1".into())))["payload"]["client-key"], "k\"1");
}

#[test]
fn lg_conversation() {
    let mut s = LgState::new(None);
    assert!(lg::command(&mut s, &DeviceCmd::Play).is_none());
    let r = lg::react(&mut s, "l", lg::read_message(r#"{"type":"registered","payload":{"client-key":"abc"}}"#));
    assert_eq!(r.new_key.as_deref(), Some("abc"));
    assert!(matches!(r.event, Some(CoreEvent::Online { online: true, .. })));
    assert_eq!(value(&r.send.unwrap()), value(r#"{"type":"subscribe","id":"vol_101","uri":"ssap://audio/getVolume"}"#));
    // The same key is not reported again.
    assert!(lg::react(&mut s, "l", LgMessage::Registered(Some("abc".into()))).new_key.is_none());
    let m = lg::command(&mut s, &DeviceCmd::SetVolume(355_000)).unwrap();
    assert_eq!(value(&m), value(r#"{"type":"request","id":"req_103","uri":"ssap://audio/setVolume","payload":{"volume":36}}"#));
    let m = lg::command(&mut s, &DeviceCmd::SetMuted(false)).unwrap();
    assert_eq!(value(&m)["payload"], value(r#"{"mute":false}"#));
    assert!(lg::command(&mut s, &DeviceCmd::Power(true)).is_none());
    // An error after that ends nothing.
    assert!(!lg::react(&mut s, "l", LgMessage::Error).ended);
}

#[test]
fn lg_volume_in_both_forms() {
    let mut s = LgState::new(None);
    let r = lg::react(&mut s, "l", lg::read_message(r#"{"type":"response","payload":{"volume":12,"muted":true}}"#));
    assert!(matches!(r.event, Some(CoreEvent::VolumeChanged { volume: 120_000, muted: true, .. })));
    let r = lg::react(&mut s, "l", lg::read_message(r#"{"type":"response","payload":{"volumeStatus":{"volume":7,"muteStatus":false}}}"#));
    assert!(matches!(r.event, Some(CoreEvent::VolumeChanged { volume: 70_000, muted: false, .. })));
    assert!(matches!(lg::read_message(r#"{"type":"response","payload":{}}"#), LgMessage::Other));
    assert!(matches!(lg::read_message("nothing"), LgMessage::Other));
    assert!(lg::react(&mut s, "l", lg::read_message(r#"{"type":"error","error":"x"}"#)).ended);
}

#[test]
fn yamaha_looks() {
    let mut s = YamahaState::new();
    let status = Some(r#"{"volume":81,"mute":true}"#.to_string());
    let features = Some(r#"{"zone":[{"id":"zone2"},{"id":"main","range_step":[{"id":"x"},{"id":"volume","max":162.0}]}]}"#.to_string());
    let playing = Some(r#"{"playback":"play","track":"T","artist":"","input":"spotify","albumart_url":"/a.jpg"}"#.to_string());
    let out = yamaha::look(&mut s, "y", "10.0.0.3", &status, &features, &playing);
    assert!(matches!(&out[0], CoreEvent::Online { online: true, .. }));
    assert!(matches!(&out[1], CoreEvent::VolumeChanged { volume: 500_000, muted: true, .. }));
    match &out[2] {
        CoreEvent::MediaChanged { media: Some(m), .. } => {
            assert!(matches!(m.state, PlayState::Playing));
            assert_eq!((m.title.as_deref(), m.artist.as_deref(), m.app.as_deref()), (Some("T"), None, Some("spotify")));
            assert_eq!(m.image.as_deref(), Some("http://10.0.0.3/a.jpg"));
        }
        _ => panic!("no media"),
    }
    assert_eq!(s.max, 162_000_000);
    let paused = Some(r#"{"playback":"pause"}"#.to_string());
    let out = yamaha::look(&mut s, "y", "ip", &status, &None, &paused);
    assert!(matches!(&out[1], CoreEvent::MediaChanged { media: Some(m), .. } if matches!(m.state, PlayState::Paused)));
    let stopped = Some(r#"{"playback":"stop"}"#.to_string());
    let out = yamaha::look(&mut s, "y", "ip", &status, &None, &stopped);
    assert_eq!(out.len(), 2);
    assert!(matches!(&out[1], CoreEvent::MediaChanged { media: None, .. }));
    let out = yamaha::look(&mut s, "y", "ip", &Some("no json".into()), &None, &None);
    assert!(matches!(&out[0], CoreEvent::Online { online: false, .. }));
    assert!(yamaha::look(&mut s, "y", "ip", &None, &None, &None).is_empty());
}

#[test]
fn yamaha_steps_round_trip() {
    for max in [1i64, 100, 161] {
        for n in 0..=max {
            let l = yamaha::level(n * 1_000_000, max * 1_000_000);
            assert_eq!(i64::from(yamaha::steps(l, max * 1_000_000)), n);
        }
    }
    assert_eq!(yamaha::level(200, 100), 1_000_000);
    assert_eq!(yamaha::level(0, 0), 0);
    // Below zero on either side, and on both.
    assert_eq!(yamaha::level(-5, 100), 0);
    assert_eq!(yamaha::level(5, -100), 0);
    assert_eq!(yamaha::level(-5, -10), 500_000);
    assert_eq!(yamaha::steps(-500_000, 161_000_000), -81);
    assert_eq!(yamaha::steps(500_000, 161_000_000), 81);
    assert_eq!(yamaha::steps(i64::MAX, i64::MAX), i32::MAX);
}

#[test]
fn yamaha_addresses() {
    let s = YamahaState::new();
    assert_eq!(
        yamaha::command(&s, "ip", &DeviceCmd::SetVolume(500_000)).as_deref(),
        Some("http://ip/YamahaExtendedControl/v1/main/setVolume?volume=81")
    );
    assert_eq!(
        yamaha::command(&s, "ip", &DeviceCmd::SetMuted(true)).as_deref(),
        Some("http://ip/YamahaExtendedControl/v1/main/setMute?enable=true")
    );
    assert_eq!(
        yamaha::command(&s, "ip", &DeviceCmd::Prev).as_deref(),
        Some("http://ip/YamahaExtendedControl/v1/netusb/setPlayback?playback=previous")
    );
    assert_eq!(yamaha::command(&s, "ip", &DeviceCmd::Resync), None);
    assert_eq!(yamaha::service("ip", "/main/getStatus"), "http://ip/YamahaExtendedControl/v1/main/getStatus");
}

#[test]
fn optoma_commands() {
    let mut s = Assumed::new();
    assert_eq!(optoma::command(&mut s, &DeviceCmd::SetVolume(340_000)).as_deref(), Some("~0081 3\r"));
    assert_eq!(s.volume, 340_000);
    assert_eq!(optoma::command(&mut s, &DeviceCmd::SetMuted(true)).as_deref(), Some("~0080 1\r"));
    assert!(s.muted);
    assert_eq!(optoma::command(&mut s, &DeviceCmd::Power(false)).as_deref(), Some("~0000 0\r"));
    assert_eq!(optoma::command(&mut s, &DeviceCmd::Play), None);
    assert!(matches!(optoma::sent_event(&s, "o"), CoreEvent::VolumeChanged { volume: 340_000, muted: true, .. }));
    let out = optoma::reached(&mut s, "o", true);
    assert_eq!(out.len(), 2);
    assert!(matches!(&out[1], CoreEvent::DeviceStatus { tv, .. } if tv.has_power && tv.power.is_none()));
    assert!(optoma::reached(&mut s, "o", true).is_empty());
    assert_eq!(optoma::reached(&mut s, "o", false).len(), 1);
}
