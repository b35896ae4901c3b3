//! The conversation with Cast devices.

use serde_json::Value;
use volume_sync::cast::{
    greet, handle_cmd, handle_payload, heartbeat, load_one, next_req_id, next_slide, next_wait, queue_load, read_message, CastOut,
    Incoming, SessionState,
};
use volume_sync::json::{fraction_text, read_level, read_positive, read_units};
use volume_sync::proto::{
    frame, frame_length, text_msg, NS_CONNECTION, NS_HEARTBEAT, NS_MEDIA, NS_MULTIZONE, NS_RECEIVER,
};
use volume_sync::types::{CastItem, CoreEvent, DeviceCmd, PlayState};

fn chars(s: &str) -> Vec<char> {
    s.chars().collect()
}

fn item(url: &str, content_type: &str) -> CastItem {
    CastItem {
        url: url.to_string(),
        title: "T \"x\"".to_string(),
        content_type: content_type.to_string(),
        subtitles: None,
        autoplay: true,
    }
}

fn sent(o: &CastOut) -> (String, String, Value) {
    match o {
        CastOut::Send { dest, namespace, payload } => {
            (dest.clone(), namespace.clone(), serde_json::from_str(payload).unwrap())
        }
        CastOut::Event(_) => panic!("an event"),
    }
}

fn value(s: &str) -> Value {
    serde_json::from_str(s).unwrap()
}

const STATUS: &str = r#"{"type":"RECEIVER_STATUS","requestId":1,"status":{"volume":{"level":0.3499999940395355,"muted":true},
"applications":[{"appId":"IDLE","transportId":"t0","isIdleScreen":true,"namespaces":[{"name":"urn:x-cast:com.google.cast.media"}]},
{"appId":"CC1AD845","displayName":"Player (Remote Control)","transportId":"t1","namespaces":[{"name":"a"},{"name":"urn:x-cast:com.google.cast.media"}]}]}}"#;

#[test]
fn greeting_asks_for_the_status() {
    let mut ids = 1000;
    let out = greet(false, &mut ids);
    assert_eq!(out.len(), 2);
    assert_eq!(sent(&out[0]), ("receiver-0".into(), NS_CONNECTION.into(), value(r#"{"type":"CONNECT"}"#)));
    assert_eq!(sent(&out[1]), ("receiver-0".into(), NS_RECEIVER.into(), value(r#"{"type":"GET_STATUS","requestId":1000}"#)));
    assert_eq!(ids, 1001);
    let out = greet(true, &mut ids);
    assert_eq!(sent(&out[2]), ("receiver-0".into(), NS_MULTIZONE.into(), value(r#"{"type":"GET_STATUS","requestId":1002}"#)));
    assert_eq!(ids, 1003);
}

#[test]
fn request_numbers_go_round() {
    let mut ids = i32::MAX;
    assert_eq!(next_req_id(&mut ids), i32::MAX);
    assert_eq!(ids, i32::MIN);
}

#[test]
fn volume_commands() {
    let mut s = SessionState::new(0);
    let mut ids = 5;
    let out = handle_cmd(DeviceCmd::SetVolume(350_000), &mut s, &mut ids, 0);
    assert_eq!(sent(&out[0]).2, value(r#"{"type":"SET_VOLUME","requestId":5,"volume":{"level":0.35}}"#));
    let out = handle_cmd(DeviceCmd::SetVolume(1_000_000), &mut s, &mut ids, 0);
    assert_eq!(sent(&out[0]).2, value(r#"{"type":"SET_VOLUME","requestId":6,"volume":{"level":1.0}}"#));
    let out = handle_cmd(DeviceCmd::SetMuted(true), &mut s, &mut ids, 0);
    assert_eq!(sent(&out[0]).2, value(r#"{"type":"SET_VOLUME","requestId":7,"volume":{"muted":true}}"#));
    assert!(handle_cmd(DeviceCmd::Power(true), &mut s, &mut ids, 0).is_empty());
}

#[test]
fn transport_needs_a_session() {
    let mut s = SessionState::new(0);
    let mut ids = 5;
    assert!(handle_cmd(DeviceCmd::Play, &mut s, &mut ids, 0).is_empty());
    s.media_transport_id = Some("t1".to_string());
    assert!(handle_cmd(DeviceCmd::Seek(1), &mut s, &mut ids, 0).is_empty());
    s.media_session_id = Some(7);
    let out = handle_cmd(DeviceCmd::Seek(61_500), &mut s, &mut ids, 0);
    assert_eq!(sent(&out[0]), ("t1".into(), NS_MEDIA.into(), value(r#"{"type":"SEEK","requestId":5,"mediaSessionId":7,"currentTime":61.5}"#)));
    let out = handle_cmd(DeviceCmd::Prev, &mut s, &mut ids, 0);
    assert_eq!(sent(&out[0]).2, value(r#"{"type":"QUEUE_UPDATE","requestId":6,"mediaSessionId":7,"jump":-1}"#));
    let out = handle_cmd(DeviceCmd::PollMedia, &mut s, &mut ids, 0);
    assert_eq!(sent(&out[0]).2, value(r#"{"type":"GET_STATUS","requestId":7}"#));
    let out = handle_cmd(DeviceCmd::StopCasting, &mut s, &mut ids, 0);
    assert_eq!(sent(&out[0]).2, value(r#"{"type":"STOP","requestId":8,"mediaSessionId":7}"#));
}

#[test]
fn receiver_status_is_read() {
    match read_message(NS_RECEIVER, STATUS) {
        Some(Incoming::Receiver(r)) => {
            assert_eq!(r.volume, Some((350_000, true)));
            let app = r.app.unwrap();
            assert_eq!((app.transport.as_str(), app.name.as_str()), ("t1", "Player (Remote Control)"));
            assert_eq!(app.app_id.as_deref(), Some("CC1AD845"));
        }
        _ => panic!("no status"),
    }
    assert!(read_message(NS_RECEIVER, "no json").is_none());
    assert!(matches!(read_message(NS_MEDIA, STATUS), Some(Incoming::Other)));
}

#[test]
fn a_queue_is_loaded_once_the_player_runs() {
    let mut s = SessionState::new(0);
    let mut ids = 10;
    let mut it = item("http://h/a.mp4", "video/mp4");
    it.subtitles = Some("http://h/a.vtt".to_string());
    let out = handle_cmd(DeviceCmd::Cast(vec![it]), &mut s, &mut ids, 0);
    assert_eq!(sent(&out[0]).2, value(r#"{"type":"LAUNCH","requestId":10,"appId":"CC1AD845"}"#));
    let out = handle_payload("dev", "receiver-0", NS_RECEIVER, STATUS, &mut s, &mut ids, 99);
    assert_eq!(out.len(), 4);
    assert!(matches!(&out[0], CastOut::Event(CoreEvent::VolumeChanged { id, volume: 350_000, muted: true }) if id == "dev"));
    assert_eq!(sent(&out[1]), ("t1".into(), NS_CONNECTION.into(), value(r#"{"type":"CONNECT"}"#)));
    assert_eq!(sent(&out[2]).2, value(r#"{"type":"GET_STATUS","requestId":11}"#));
    assert_eq!(
        sent(&out[3]).2,
        value(r#"{"type":"QUEUE_LOAD","requestId":12,"startIndex":0,"repeatMode":"REPEAT_OFF","items":[{"autoplay":true,"preloadTime":10,
        "activeTrackIds":[1],"media":{"contentId":"http://h/a.mp4","contentUrl":"http://h/a.mp4","contentType":"video/mp4",
        "streamType":"BUFFERED","metadata":{"metadataType":0,"title":"T \"x\""},"tracks":[{"trackId":1,"type":"TEXT",
        "trackContentId":"http://h/a.vtt","trackContentType":"text/vtt","subtype":"SUBTITLES","name":"Subtitles","language":"en-US"}]}}]}"#)
    );
    assert!(s.pending_cast.is_none());
    assert_eq!(s.app_name.as_deref(), Some("Player"));
    // The same report again loads nothing more.
    let out = handle_payload("dev", "receiver-0", NS_RECEIVER, STATUS, &mut s, &mut ids, 99);
    assert_eq!(out.len(), 1);
}

#[test]
fn pictures_become_a_show_that_goes_round() {
    let mut s = SessionState::new(0);
    let mut ids = 1;
    let pics = vec![item("a", "image/jpeg"), item("b", "image/png"), item("c", "image/gif")];
    handle_cmd(DeviceCmd::Cast(pics), &mut s, &mut ids, 100);
    assert_eq!(s.next_slide, 8100);
    assert_eq!(s.pending_cast.as_ref().unwrap().len(), 1);
    // Nothing is sent before the app runs.
    assert!(next_slide(&mut s, &mut ids, 8100).is_empty());
    s.media_transport_id = Some("t1".to_string());
    let mut urls = Vec::new();
    for _ in 0..4 {
        let out = next_slide(&mut s, &mut ids, 9000);
        urls.push(sent(&out[0]).2["media"]["contentId"].as_str().unwrap().to_string());
    }
    assert_eq!(urls, vec!["b", "c", "a", "b"]);
    let v: Value = serde_json::from_str(&load_one(&item("a", "image/jpeg"), &mut ids)).unwrap();
    assert_eq!(v["media"]["streamType"], "NONE");
    assert_eq!(v["media"]["metadata"]["metadataType"], 4);
    let v: Value = serde_json::from_str(&queue_load(&vec![item("a", "audio/mpeg")], &mut ids)).unwrap();
    assert_eq!(v["items"][0]["media"]["metadata"]["metadataType"], 3);
}

#[test]
fn media_status_keeps_the_title() {
    let mut s = SessionState::new(0);
    let mut ids = 1;
    let first = r#"{"type":"MEDIA_STATUS","status":[{"mediaSessionId":3,"playerState":"PLAYING","currentTime":12.3456,
    "media":{"contentId":"http://x/a.mp3","contentType":"audio/mpeg","duration":100.5,"metadata":{"title":"Song","subtitle":"Someone","images":[{"url":"http://p"}]}}}]}"#;
    let out = handle_payload("dev", "t1", NS_MEDIA, first, &mut s, &mut ids, 777);
    match &out[0] {
        CastOut::Event(CoreEvent::MediaChanged { media: Some(m), .. }) => {
            assert!(matches!(m.state, PlayState::Playing));
            assert_eq!(m.title.as_deref(), Some("Song"));
            assert_eq!(m.artist.as_deref(), Some("Someone"));
            assert_eq!(m.image.as_deref(), Some("http://p"));
            assert_eq!((m.content_id.as_deref(), m.content_type.as_deref()), (Some("http://x/a.mp3"), Some("audio/mpeg")));
            assert_eq!((m.position_ms, m.duration_ms, m.position_at), (Some(12_345), Some(100_500), Some(777)));
        }
        _ => panic!("no media"),
    }
    // A report without a title keeps it; another session starts anew.
    let more = r#"{"type":"MEDIA_STATUS","status":[{"mediaSessionId":3,"playerState":"PAUSED"}]}"#;
    let out = handle_payload("dev", "t1", NS_MEDIA, more, &mut s, &mut ids, 778);
    assert!(matches!(&out[0], CastOut::Event(CoreEvent::MediaChanged { media: Some(m), .. })
        if m.title.as_deref() == Some("Song") && m.content_id.is_some() && m.position_at.is_none() && matches!(m.state, PlayState::Paused)));
    let other = r#"{"type":"MEDIA_STATUS","status":[{"mediaSessionId":4}]}"#;
    let out = handle_payload("dev", "t1", NS_MEDIA, other, &mut s, &mut ids, 779);
    assert!(matches!(&out[0], CastOut::Event(CoreEvent::MediaChanged { media: Some(m), .. })
        if m.title.is_none() && m.content_id.is_none() && m.duration_ms.is_none() && matches!(m.state, PlayState::Idle)));
    assert!(handle_payload("dev", "t1", NS_MEDIA, r#"{"type":"MEDIA_STATUS","status":[]}"#, &mut s, &mut ids, 780).is_empty());
}

#[test]
fn groups_closing_and_pings() {
    let mut s = SessionState::new(0);
    let mut ids = 1;
    let zone = r#"{"type":"MULTIZONE_STATUS","status":{"devices":[{"deviceId":"AB-12-c"},{"name":"x"},{"deviceId":"D"}]}}"#;
    let out = handle_payload("g", "receiver-0", NS_MULTIZONE, zone, &mut s, &mut ids, 0);
    assert!(matches!(&out[0], CastOut::Event(CoreEvent::GroupMembers { members, .. }) if members == &vec!["ab12c".to_string(), "d".to_string()]));
    let out = handle_payload("g", "receiver-0", NS_MULTIZONE, r#"{"type":"DEVICE_ADDED"}"#, &mut s, &mut ids, 0);
    assert_eq!(sent(&out[0]).1, NS_MULTIZONE);
    let out = handle_payload("g", "src", NS_HEARTBEAT, r#"{"type":"PING"}"#, &mut s, &mut ids, 0);
    assert_eq!(sent(&out[0]), ("src".into(), NS_HEARTBEAT.into(), value(r#"{"type":"PONG"}"#)));
    s.media_transport_id = Some("t1".to_string());
    assert!(handle_payload("g", "t2", NS_CONNECTION, r#"{"type":"CLOSE"}"#, &mut s, &mut ids, 0).is_empty());
    let out = handle_payload("g", "t1", NS_CONNECTION, r#"{"type":"CLOSE"}"#, &mut s, &mut ids, 0);
    assert!(matches!(&out[0], CastOut::Event(CoreEvent::MediaChanged { media: None, .. })));
    assert!(s.media_transport_id.is_none());
    // No app: nothing plays.
    s.media_transport_id = Some("t1".to_string());
    let none = r#"{"type":"RECEIVER_STATUS","status":{}}"#;
    let out = handle_payload("g", "receiver-0", NS_RECEIVER, none, &mut s, &mut ids, 0);
    assert!(matches!(&out[0], CastOut::Event(CoreEvent::MediaChanged { media: None, .. })));
}

#[test]
fn silence_ends_a_connection() {
    assert!(heartbeat(0, 30_000).is_some());
    assert!(heartbeat(0, 30_001).is_none());
    assert_eq!(next_wait(1, 60), 2);
    assert_eq!(next_wait(40, 60), 60);
}

#[test]
fn frames_round_trip() {
    let body = vec![1u8, 2, 3];
    let f = frame(&body);
    assert_eq!(f, vec![0, 0, 0, 3, 1, 2, 3]);
    assert_eq!(frame_length(&f[..4]), Ok(3));
    assert_eq!(frame_length(&[0, 16, 0, 0]), Ok(1_048_576));
    assert_eq!(frame_length(&[0, 16, 0, 1]), Err("frame too large".to_string()));
    let m = text_msg("d", NS_MEDIA, "{}");
    assert_eq!((m.source_id.as_str(), m.destination_id.as_str()), ("sender-pacto", "d"));
    assert_eq!(m.payload_utf8.as_deref(), Some("{}"));
}

#[test]
fn numbers_are_read_in_units() {
    assert_eq!(read_units(&chars("12.3456"), 3), Some(12_345));
    assert_eq!(read_units(&chars("1.5e-3"), 6), Some(1_500));
    assert_eq!(read_units(&chars("2e3"), 0), Some(2_000));
    assert_eq!(read_units(&chars("-4"), 3), Some(0));
    assert_eq!(read_units(&chars("1e30"), 0), Some(u64::MAX));
    assert_eq!(read_units(&chars("1."), 0), None);
    assert_eq!(read_units(&chars("x"), 0), None);
    assert_eq!(read_level(&chars("-0.5")), Some(-500_000));
    assert_eq!(read_level(&chars("0.0000006")), Some(1));
    assert!(read_positive(&chars("0.0001")));
    assert!(!read_positive(&chars("0.0")));
    assert_eq!(fraction_text(61_500, 3).into_iter().collect::<String>(), "61.5");
    assert_eq!(fraction_text(7, 6).into_iter().collect::<String>(), "0.000007");
    assert_eq!(fraction_text(2_000, 3).into_iter().collect::<String>(), "2.0");
}
