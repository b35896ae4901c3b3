//! The server from which TVs stream files, and what the window asks for.

use volume_sync::commands::{
    build_menu, can_cast, check_files, check_link, file_title, group_menu, link_item, link_title, link_type, menu_action, newest, now_ts, tail,
    to_signed, MenuAct, MenuPart,
};
use volume_sync::media_server::{
    body_span, content_type, drop_expired, find_file, find_picture, find_shared, head_complete, is_vtt, live_url, not_found, parse_request, pick_range, read_request,
    response_head, share, share_file, share_url, srt_to_vtt, token_of, Pick, Request, Shared,
};
use volume_sync::roku_player::q;
use volume_sync::types::{AppGroup, DeviceCmd};

fn strings(v: &[&str]) -> Vec<String> {
    v.iter().map(|s| s.to_string()).collect()
}

#[test]
fn types_of_content() {
    assert_eq!(content_type("/a/B.MP4"), "video/mp4");
    assert_eq!(content_type("C:\\x\\y.opus"), "audio/ogg");
    assert_eq!(content_type("a.vtt"), "text/vtt");
    assert_eq!(content_type("a.jpg"), "application/octet-stream");
    assert_eq!(content_type("noext"), "application/octet-stream");
    // A slash or a lone point at the end names the same file.
    assert_eq!(content_type("a.mp4/."), "video/mp4");
    assert_eq!(content_type("a.mp4/././/"), "video/mp4");
    assert_eq!(content_type("b.MP4"), "video/mp4");
    assert_eq!(content_type("a.mp4/.."), "application/octet-stream");
    assert_eq!(content_type("."), "application/octet-stream");
    assert_eq!(content_type("a.mp4."), "application/octet-stream");
}

#[test]
fn files_are_shared_with_one_device_for_twelve_hours() {
    let mut files: Vec<(String, Shared)> = Vec::new();
    share_file(&mut files, "t1", "/v/a.mp4", "10.0.0.2", 0);
    assert_eq!(find_shared(&files, "t1", "10.0.0.2", 43_199_999).as_deref(), Some("/v/a.mp4"));
    assert_eq!(find_shared(&files, "t1", "10.0.0.2", 43_200_000), None);
    assert_eq!(find_shared(&files, "t1", "10.0.0.3", 1), None);
    assert_eq!(find_shared(&files, "t2", "10.0.0.2", 1), None);
    share_file(&mut files, "t2", "/v/b.mp4", "10.0.0.2", 43_200_000);
    assert_eq!(files.len(), 1);
    let token = share(&mut files, "/v/c.mp4", "10.0.0.4", 43_200_001);
    assert_eq!((token.len(), files.len()), (32, 2));
    assert_eq!(find_shared(&files, &token, "10.0.0.4", 43_200_002).as_deref(), Some("/v/c.mp4"));
    assert_ne!(share(&mut files, "/v/c.mp4", "10.0.0.4", 43_200_001), token);
    drop_expired(&mut files, i64::MAX);
    assert!(files.is_empty());
    assert_eq!(share_url("1.2.3.4", 80, "tok", "/v/a b.mp4"), "http://1.2.3.4:80/v/tok/a%20b.mp4");
}

#[test]
fn pictures_have_a_lasting_address() {
    assert_eq!(live_url("1.2.3.4", 80, "tok", "a.jpg"), "http://1.2.3.4:80/live/tok/a.jpg");
    let name = "calendar-dark-t100-p1-month.jpg";
    let ask = |method: &str, target: &str| Request { method: method.into(), target: target.into(), range: None };
    let allowed = strings(&["10.0.0.2"]);
    let target = format!("/live/tok/{name}");
    assert_eq!(find_picture("tok", &allowed, &ask("GET", &target), "10.0.0.2").as_deref(), Some(name));
    assert_eq!(find_picture("tok", &allowed, &ask("HEAD", &format!("{target}?x=1")), "10.0.0.2").as_deref(), Some(name));
    assert_eq!(find_picture("tok", &allowed, &ask("POST", &target), "10.0.0.2"), None);
    assert_eq!(find_picture("tok", &allowed, &ask("GET", &target), "10.0.0.3"), None);
    assert_eq!(find_picture("other", &allowed, &ask("GET", &target), "10.0.0.2"), None);
    assert_eq!(find_picture("tok", &allowed, &ask("GET", "/live/tok/../config.json"), "10.0.0.2"), None);
    assert_eq!(find_picture("tok", &allowed, &ask("GET", "/v/tok/x"), "10.0.0.2"), None);
}

#[test]
fn requests_are_read() {
    let r = parse_request("GET /v/abc/file%20x.mp4 HTTP/1.1\r\nHost: x\r\nRANGE : bytes=5-\r\n\r\n");
    assert_eq!((r.method.as_str(), r.target.as_str(), r.range.as_deref()), ("GET", "/v/abc/file%20x.mp4", Some("bytes=5-")));
    assert_eq!(token_of(&r.target), "abc");
    assert_eq!(token_of("/x"), "");
    let r = read_request(b"GET /v/\xff HTTP/1.1\r\n\r\n");
    assert_eq!((r.method.as_str(), r.target.as_str()), ("GET", "/v/\u{fffd}"));
    let r = parse_request("");
    assert_eq!((r.method.as_str(), r.target.as_str(), r.range), ("", "", None));
    assert!(head_complete(b"GET / HTTP/1.1\r\n\r\n") && !head_complete(b"GET / HTTP/1.1\r\n") && !head_complete(b"ab"));
}

#[test]
fn only_reading_is_served() {
    let mut files: Vec<(String, Shared)> = Vec::new();
    share_file(&mut files, "t", "/v/a.mp4", "ip", 0);
    let req = |m: &str| Request { method: m.to_string(), target: "/v/t/a.mp4".to_string(), range: None };
    assert!(find_file(&files, &req("GET"), "ip", 1).is_some());
    assert!(find_file(&files, &req("HEAD"), "ip", 1).is_some());
    assert!(find_file(&files, &req("POST"), "ip", 1).is_none());
    assert!(not_found().starts_with("HTTP/1.1 404 Not Found\r\n"));
}

#[test]
fn ranges() {
    let pick = |r: &str, size: u64| pick_range(&Some(r.to_string()), size);
    assert_eq!(pick_range(&None, 10), Pick::Whole);
    assert_eq!(pick("items=1-2", 10), Pick::Whole);
    assert_eq!(pick("bytes=2-5", 10), Pick::Part(2, 5));
    assert_eq!(pick("bytes=2-", 10), Pick::Part(2, 9));
    assert_eq!(pick("bytes=2-99", 10), Pick::Part(2, 9));
    assert_eq!(pick("bytes=-3", 10), Pick::Part(7, 9));
    assert_eq!(pick("bytes=-30", 10), Pick::Part(0, 9));
    assert_eq!(pick("bytes=-0", 10), Pick::Outside);
    assert_eq!(pick("bytes=10-", 10), Pick::Outside);
    assert_eq!(pick("bytes=5-4", 10), Pick::Outside);
    assert_eq!(pick("bytes=0-", 0), Pick::Outside);
    assert_eq!(
        response_head(Pick::Part(2, 5), 10, "a.mp3"),
        "HTTP/1.1 206 Partial Content\r\nContent-Range: bytes 2-5/10\r\nContent-Type: audio/mpeg\r\nContent-Length: 4\r\n\
Accept-Ranges: bytes\r\nAccess-Control-Allow-Origin: *\r\nConnection: close\r\n\r\n"
    );
    assert!(response_head(Pick::Whole, 10, "a.mp3").starts_with("HTTP/1.1 200 OK\r\nContent-Type: audio/mpeg\r\nContent-Length: 10\r\n"));
    assert_eq!(
        response_head(Pick::Outside, 10, "a.mp3"),
        "HTTP/1.1 416 Range Not Satisfiable\r\nContent-Range: bytes */10\r\nContent-Length: 0\r\nConnection: close\r\n\r\n"
    );
    assert_eq!(body_span(Pick::Part(2, 5), 10, "GET"), (2, 4));
    assert_eq!(body_span(Pick::Whole, 10, "GET"), (0, 10));
    assert_eq!(body_span(Pick::Whole, 10, "HEAD"), (0, 0));
}

#[test]
fn subtitles_are_turned_into_vtt() {
    let srt = "\u{feff}1\r\n00:00:01,234 --> 00:00:03,000\r\nHello, you\n";
    assert_eq!(srt_to_vtt(srt), "WEBVTT\n\n1\n00:00:01.234 --> 00:00:03.000\nHello, you\n");
    assert!(is_vtt("A.VTT") && !is_vtt("a.srt"));
}

#[test]
fn quoting_keeps_every_name() {
    assert_eq!(q("a/b?c=d&e%"), "a%2Fb%3Fc%3Dd%26e%25");
}

#[test]
fn files_for_devices() {
    assert!(can_cast("a.MKV") && !can_cast("a.avi") && !can_cast("mp4"));
    assert_eq!(check_files(true, &strings(&["/v/a.mp4", "/v/b.ogg"])), Ok(()));
    assert_eq!(
        check_files(true, &strings(&["/v/a.avi", "/v/b.mp4", "C:\\c.txt"])),
        Err("Cast devices play MP4, WebM, MKV and MOV video and MP3, M4A, AAC, FLAC, WAV and OGG audio. Not supported: a.avi, c.txt".to_string())
    );
    assert_eq!(
        check_files(false, &strings(&["/v/a.avi"])),
        Err("Roku TVs play MP4, MOV, MKV and TS video files. Not supported: a.avi".to_string())
    );
    assert_eq!(file_title("/v/My Film.mp4", "Media"), "My Film");
    assert_eq!(file_title("", "Media"), "Media");
}

#[test]
fn links() {
    assert_eq!(check_link("  https://h/a.mp4 "), Ok("https://h/a.mp4".to_string()));
    assert_eq!(
        check_link("ftp://h"),
        Err("That doesn't look like a web link (it should start with http:// or https://).".to_string())
    );
    assert_eq!(link_type("https://h/LIVE.M3U8?x"), "application/x-mpegURL");
    assert_eq!(link_type("https://h/a.webm"), "video/webm");
    assert_eq!(link_type("https://h/a"), "video/mp4");
    assert_eq!(link_title("https://h/a/b.mp3#x", "Media"), "b.mp3");
    assert_eq!(link_title("https://h/a/", "Media"), "Media");
    let i = link_item("https://h/b.mp3");
    assert_eq!((i.title.as_str(), i.content_type.as_str(), i.autoplay), ("b.mp3", "audio/mpeg", true));
}

#[test]
fn the_log_and_the_clock() {
    assert_eq!(tail("a\nb\r\nc\n", 2), vec!["b", "c"]);
    assert_eq!(tail("a", 5), vec!["a"]);
    assert!(tail("", 5).is_empty());
    assert_eq!(newest(&vec![3, 9, 9, 1]), Some(1));
    assert_eq!(newest(&vec![]), None);
    assert_eq!(to_signed(u64::MAX), i64::MAX);
    assert_eq!(to_signed(7), 7);
    assert!(now_ts() > 1_600_000_000);
}

#[test]
fn the_whole_menu() {
    let group = |id: &str, name: &str| AppGroup {
        id: id.into(),
        name: name.into(),
        member_ids: Vec::new(),
        sync_enabled: true,
        group_volume: 0,
    };
    let m = build_menu(&vec![group("g2", "Den"), group("g1", "Hall")]);
    assert_eq!(m.len(), 5);
    assert!(matches!(&m[0], MenuPart::Group(n, e) if n == "Den" && e.len() == 25 && e[0].id == "gv|g2|5" && e[19].id == "gv|g2|100"));
    assert!(matches!(&m[1], MenuPart::Group(n, e) if n == "Hall" && e[24].id == "gt|g1|prev"));
    assert!(matches!(&m[2], MenuPart::Line));
    assert!(matches!(&m[3], MenuPart::Entry(e) if e.id == "open" && e.label == "Open App"));
    assert!(matches!(&m[4], MenuPart::Entry(e) if e.id == "exit" && e.label == "Exit"));
    assert_eq!(build_menu(&Vec::new()).len(), 2);
}

#[test]
fn the_menu() {
    let m = group_menu("g1");
    assert_eq!(m.len(), 25);
    assert_eq!((m[0].id.as_str(), m[0].label.as_str()), ("gv|g1|5", "5%"));
    assert_eq!((m[19].id.as_str(), m[20].id.as_str(), m[24].label.as_str()), ("gv|g1|100", "", "Previous"));
    assert!(matches!(menu_action(&m[9].id), MenuAct::Volume(g, 500_000) if g == "g1"));
    assert!(matches!(menu_action(&m[22].id), MenuAct::Transport(g, DeviceCmd::Pause) if g == "g1"));
    assert!(matches!(menu_action("open"), MenuAct::Open));
    assert!(matches!(menu_action("exit"), MenuAct::Exit));
    assert!(matches!(menu_action("gt|g1|stop"), MenuAct::Nothing));
    assert!(matches!(menu_action("x"), MenuAct::Nothing));
}
