//! Calendars: windows, recurrence, time zones, and how feeds are read.

use chrono::{Local, NaiveDate, NaiveDateTime, TimeZone, Utc};
use volume_sync::cal_feeds::{
    cache_name, cache_path_for, count_ci, feed_source, fetch_all, is_google_share_link, missing_file_error, net_error,
    order_events, share_link_error, shorten, status_error, test_feed, visible_window, FeedCfg, FeedReply, FeedSource,
};
use volume_sync::dates::{day_from_ymd, format_date, stamp_day};
use volume_sync::events::EventOut;
use volume_sync::feed_events::events_from_ics;
use volume_sync::ics::unfold;
use volume_sync::ics_time::IcsTime;
use volume_sync::recurrence::expand_rrule;
use volume_sync::rrule::parse_rrule;
use volume_sync::windows_zones::windows_zone_at;
use volume_sync::zones::{resolve_tzid, LocalClock, Zone};

fn chars(s: &str) -> Vec<char> {
    s.chars().collect()
}

fn day(y: i64, m: u32, d: u32) -> i64 {
    day_from_ymd(y, m, d).unwrap()
}

fn date(n: i64) -> String {
    format_date(n).unwrap().into_iter().collect()
}

fn cal(body: &str) -> String {
    format!("BEGIN:VCALENDAR\r\nVERSION:2.0\r\n{}\r\nEND:VCALENDAR\r\n", body.trim().replace('\n', "\r\n"))
}

fn today() -> i64 {
    day(2026, 9, 23)
}

fn run(body: &str) -> Vec<EventOut> {
    let (ws, we) = visible_window(today());
    let mut v = events_from_ics(&cal(body), 0, ws, we).unwrap();
    v.sort_by(|a, b| a.start.cmp(&b.start));
    v
}

fn starts(v: &[EventOut]) -> Vec<String> {
    v.iter().map(|e| e.start.clone()).collect()
}

/// How a wall time of a zone reads on this machine.
fn loc(tz: &str, s: &str) -> String {
    let tz: chrono_tz::Tz = tz.parse().unwrap();
    let ndt = NaiveDateTime::parse_from_str(s, "%Y%m%dT%H%M%S").unwrap();
    tz.from_local_datetime(&ndt).unwrap().with_timezone(&Local).naive_local().format("%Y-%m-%dT%H:%M:%S").to_string()
}

fn utc_loc(s: &str) -> String {
    let ndt = NaiveDateTime::parse_from_str(s, "%Y%m%dT%H%M%S").unwrap();
    Utc.from_utc_datetime(&ndt).with_timezone(&Local).naive_local().format("%Y-%m-%dT%H:%M:%S").to_string()
}

#[test]
fn window_is_month_plus_minus_week() {
    let (s, e) = visible_window(today());
    assert_eq!(date(s), "2026-08-25");
    assert_eq!(date(e), "2026-10-08");
    let (s, e) = visible_window(day(2026, 12, 5));
    assert_eq!(date(s), "2026-11-24");
    assert_eq!(date(e), "2027-01-08");
}

#[test]
fn weekly_byday_with_exdate() {
    let v = run("BEGIN:VEVENT
UID:w1
DTSTART;TZID=America/Edmonton:20260907T090000
DTEND;TZID=America/Edmonton:20260907T100000
RRULE:FREQ=WEEKLY;WKST=SU;UNTIL=20261001T055959Z;BYDAY=MO,WE
EXDATE;TZID=America/Edmonton:20260916T090000
SUMMARY:Standup
END:VEVENT");
    let want: Vec<String> = ["20260907", "20260909", "20260914", "20260921", "20260923", "20260928", "20260930"]
        .iter()
        .map(|d| loc("America/Edmonton", &format!("{d}T090000")))
        .collect();
    assert_eq!(starts(&v), want);
    assert_eq!(v[0].end, loc("America/Edmonton", "20260907T100000"));
    assert!(v.iter().all(|e| e.title == "Standup" && !e.all_day));
}

#[test]
fn monthly_last_friday() {
    let v = run("BEGIN:VEVENT
UID:m1
DTSTART:20260130T170000
DTEND:20260130T180000
RRULE:FREQ=MONTHLY;BYDAY=-1FR
SUMMARY:Payday
END:VEVENT");
    assert_eq!(starts(&v), vec!["2026-08-28T17:00:00", "2026-09-25T17:00:00"]);
    assert_eq!(v[1].end, "2026-09-25T18:00:00");
}

fn stamp(s: &str) -> i64 {
    let t = NaiveDateTime::parse_from_str(s, "%Y%m%dT%H%M%S").unwrap();
    let first = NaiveDate::from_ymd_opt(1, 1, 1).unwrap().and_hms_opt(0, 0, 0).unwrap();
    86_400 + (t - first).num_seconds()
}

fn rule_dates(rule: &str, start: &str, n: usize) -> Vec<String> {
    let r = parse_rrule(&chars(rule)).unwrap();
    let limit = stamp("21000101T000000");
    let until = match &r.until {
        Some(IcsTime::Date(d)) => Some(86_400 * d + 86_399),
        Some(IcsTime::Time(t, _)) => Some(t / 2),
        None => None,
    };
    expand_rrule(&r, 2 * stamp(start), until, limit).into_iter().take(n).map(|t| date(stamp_day(t))).collect()
}

#[test]
fn rrule_rfc_examples() {
    // WKST matters with INTERVAL=2 (RFC 5545 example).
    assert_eq!(
        rule_dates("FREQ=WEEKLY;INTERVAL=2;COUNT=4;BYDAY=TU,SU;WKST=MO", "19970805T090000", 10),
        vec!["1997-08-05", "1997-08-10", "1997-08-19", "1997-08-24"]
    );
    assert_eq!(
        rule_dates("FREQ=WEEKLY;INTERVAL=2;COUNT=4;BYDAY=TU,SU;WKST=SU", "19970805T090000", 10),
        vec!["1997-08-05", "1997-08-17", "1997-08-19", "1997-08-31"]
    );
    // Last weekday of the month.
    assert_eq!(
        rule_dates("FREQ=MONTHLY;BYDAY=MO,TU,WE,TH,FR;BYSETPOS=-1", "20260130T090000", 3),
        vec!["2026-01-30", "2026-02-27", "2026-03-31"]
    );
    // Second Monday, every other month.
    assert_eq!(
        rule_dates("FREQ=MONTHLY;INTERVAL=2;BYDAY=2MO", "20260112T090000", 3),
        vec!["2026-01-12", "2026-03-09", "2026-05-11"]
    );
    // US Thanksgiving.
    assert_eq!(
        rule_dates("FREQ=YEARLY;BYMONTH=11;BYDAY=4TH", "20251127T120000", 2),
        vec!["2025-11-27", "2026-11-26"]
    );
    // The 31st only in months that have one.
    assert_eq!(rule_dates("FREQ=MONTHLY", "20260131T090000", 3), vec!["2026-01-31", "2026-03-31", "2026-05-31"]);
    // Daily with UNTIL (date) and COUNT.
    assert_eq!(rule_dates("FREQ=DAILY;UNTIL=20260103", "20260101T090000", 10).len(), 3);
    assert_eq!(rule_dates("FREQ=DAILY;INTERVAL=3;COUNT=2", "20260101T090000", 10), vec!["2026-01-01", "2026-01-04"]);
    // Yearly on the 1st and 15th of March.
    assert_eq!(
        rule_dates("FREQ=YEARLY;BYMONTH=3;BYMONTHDAY=1,15", "20260301T090000", 3),
        vec!["2026-03-01", "2026-03-15", "2027-03-01"]
    );
    // Friday the 13th.
    assert_eq!(rule_dates("FREQ=MONTHLY;BYDAY=FR;BYMONTHDAY=13", "20260213T090000", 2), vec!["2026-02-13", "2026-03-13"]);
    // 100th day of the year, and the 20th Monday of the year.
    assert_eq!(rule_dates("FREQ=YEARLY;BYYEARDAY=100", "20260410T090000", 1), vec!["2026-04-10"]);
    assert_eq!(rule_dates("FREQ=YEARLY;BYDAY=20MO", "19970519T090000", 2), vec!["1997-05-19", "1998-05-18"]);
    // Monday of ISO week 20.
    assert_eq!(rule_dates("FREQ=YEARLY;BYWEEKNO=20;BYDAY=MO", "19970512T090000", 2), vec!["1997-05-12", "1998-05-11"]);
}

#[test]
fn all_day_multi_and_single_day() {
    let v = run("BEGIN:VEVENT
UID:a1
DTSTART;VALUE=DATE:20260920
DTEND;VALUE=DATE:20260923
SUMMARY:Trip
END:VEVENT
BEGIN:VEVENT
UID:a2
DTSTART;VALUE=DATE:20260921
DTEND;VALUE=DATE:20260922
SUMMARY:Holiday
END:VEVENT
BEGIN:VEVENT
UID:a3
DTSTART;VALUE=DATE:20260922
SUMMARY:No end
END:VEVENT
BEGIN:VEVENT
UID:a4
DTSTART;VALUE=DATE:20260823
DTEND;VALUE=DATE:20260826
SUMMARY:Starts before window
END:VEVENT
BEGIN:VEVENT
UID:a5
DTSTART;VALUE=DATE:20260822
DTEND;VALUE=DATE:20260825
SUMMARY:Ends before window
END:VEVENT");
    let got: Vec<(String, String, String)> = v.iter().map(|e| (e.title.clone(), e.start.clone(), e.end.clone())).collect();
    assert!(v.iter().all(|e| e.all_day));
    assert!(got.contains(&("Trip".into(), "2026-09-20".into(), "2026-09-22".into())));
    assert!(got.contains(&("Holiday".into(), "2026-09-21".into(), "2026-09-21".into())));
    assert!(got.contains(&("No end".into(), "2026-09-22".into(), "2026-09-22".into())));
    assert!(got.contains(&("Starts before window".into(), "2026-08-23".into(), "2026-08-25".into())));
    assert_eq!(v.len(), 4);
}

#[test]
fn yearly_all_day_birthday() {
    let v = run("BEGIN:VEVENT
UID:b1
DTSTART;VALUE=DATE:19900915
DTEND;VALUE=DATE:19900916
RRULE:FREQ=YEARLY
SUMMARY:Birthday
END:VEVENT");
    assert_eq!(v.len(), 1);
    assert_eq!((v[0].start.as_str(), v[0].end.as_str(), v[0].all_day), ("2026-09-15", "2026-09-15", true));
}

#[test]
fn recurrence_id_override_and_cancel() {
    let v = run("BEGIN:VEVENT
UID:r1
DTSTART:20260914T080000
DTEND:20260914T083000
RRULE:FREQ=DAILY;COUNT=5
SUMMARY:Walk
END:VEVENT
BEGIN:VEVENT
UID:r1
RECURRENCE-ID:20260916T080000
DTSTART:20260916T113000
DTEND:20260916T120000
SUMMARY:Walk (moved)
END:VEVENT
BEGIN:VEVENT
UID:r1
RECURRENCE-ID:20260917T080000
DTSTART:20260917T080000
DTEND:20260917T083000
STATUS:CANCELLED
SUMMARY:Walk
END:VEVENT
BEGIN:VEVENT
UID:c1
DTSTART:20260918T080000
STATUS:CANCELLED
SUMMARY:Gone
END:VEVENT");
    let got: Vec<(String, String)> = v.iter().map(|e| (e.start.clone(), e.title.clone())).collect();
    assert_eq!(
        got,
        vec![
            ("2026-09-14T08:00:00".to_string(), "Walk".to_string()),
            ("2026-09-15T08:00:00".to_string(), "Walk".to_string()),
            ("2026-09-16T11:30:00".to_string(), "Walk (moved)".to_string()),
            ("2026-09-18T08:00:00".to_string(), "Walk".to_string()),
        ]
    );
}

#[test]
fn utc_and_tzid_conversion() {
    let v = run("BEGIN:VEVENT
UID:u1
DTSTART:20260915T160000Z
DTEND:20260915T170000Z
SUMMARY:UTC call
END:VEVENT
BEGIN:VEVENT
UID:t1
DTSTART;TZID=America/New_York:20260916T090000
DTEND;TZID=America/New_York:20260916T093000
SUMMARY:NY
END:VEVENT
BEGIN:VEVENT
UID:t2
DTSTART;TZID=Eastern Standard Time:20260917T090000
DURATION:PT45M
SUMMARY:Windows zone
END:VEVENT
BEGIN:VEVENT
UID:t3
DTSTART;TZID=\"/mozilla.org/20050126_1/Asia/Tokyo\":20260918T090000
SUMMARY:Prefixed
END:VEVENT
BEGIN:VEVENT
UID:f1
DTSTART:20260919T090000
SUMMARY:Floating
END:VEVENT");
    let by = |t: &str| v.iter().find(|e| e.title == t).unwrap();
    assert_eq!(by("UTC call").start, utc_loc("20260915T160000"));
    assert_eq!(by("UTC call").end, utc_loc("20260915T170000"));
    assert_eq!(by("NY").start, loc("America/New_York", "20260916T090000"));
    assert_eq!(by("NY").end, loc("America/New_York", "20260916T093000"));
    assert_eq!(by("Windows zone").start, loc("America/New_York", "20260917T090000"));
    assert_eq!(by("Windows zone").end, loc("America/New_York", "20260917T094500"));
    assert_eq!(by("Prefixed").start, loc("Asia/Tokyo", "20260918T090000"));
    assert_eq!(by("Prefixed").end, by("Prefixed").start);
    assert_eq!(by("Floating").start, "2026-09-19T09:00:00");
}

#[test]
fn windows_zone_names() {
    for (w, iana) in [
        ("Pacific Standard Time", "America/Los_Angeles"),
        ("Mountain Standard Time", "America/Denver"),
        ("Central Standard Time", "America/Chicago"),
        ("GMT Standard Time", "Europe/London"),
        ("W. Europe Standard Time", "Europe/Berlin"),
        ("AUS Eastern Standard Time", "Australia/Sydney"),
        ("India Standard Time", "Asia/Kolkata"),
        ("China Standard Time", "Asia/Shanghai"),
        ("Tokyo Standard Time", "Asia/Tokyo"),
    ] {
        assert!(matches!(resolve_tzid(w), Zone::Named(n) if n == iana), "{w}");
    }
    assert!(matches!(resolve_tzid("UTC"), Zone::Named(_)));
    assert!(matches!(resolve_tzid("Totally Made Up"), Zone::Floating));
    for i in 0..141 {
        let (_, iana) = windows_zone_at(i);
        assert!(iana.parse::<chrono_tz::Tz>().is_ok(), "{iana}");
    }
}

#[test]
fn folded_lines_params_and_escapes() {
    let text = "BEGIN:VCALENDAR\nBEGIN:VEVENT\r\nUID:f\r\nDTSTART;TZID=\"America/Edmonton\";X-A=\"a;b:c\":20260915T\r\n 100000\r\nSUMMARY:  Line one\\, with comma\\; semi\r\n\t and fold \\\\ done\\nnext  \r\nATTENDEE;CN=\"Doe, John: Jr\":mailto:x@example.com\r\nBEGIN:VALARM\r\nSUMMARY:alarm text\r\nTRIGGER:-PT10M\r\nEND:VALARM\r\nEND:VEVENT\r\nBEGIN:VTODO\r\nUID:todo\r\nDTSTART:20260915T100000\r\nSUMMARY:A task\r\nEND:VTODO\r\nEND:VCALENDAR";
    let (ws, we) = visible_window(today());
    let v = events_from_ics(text, 3, ws, we).unwrap();
    assert_eq!(v.len(), 1);
    assert_eq!(v[0].feed, 3);
    assert_eq!(v[0].title, "Line one, with comma; semi and fold \\ done\nnext");
    assert_eq!(v[0].start, loc("America/Edmonton", "20260915T100000"));
}

#[test]
fn untitled_and_rdate() {
    let v = run("BEGIN:VEVENT
UID:x
DTSTART:20260901T100000
DTEND:20260901T110000
RDATE:20260910T100000,20260912T140000
SUMMARY:
END:VEVENT");
    assert_eq!(starts(&v), vec!["2026-09-01T10:00:00", "2026-09-10T10:00:00", "2026-09-12T14:00:00"]);
    assert!(v.iter().all(|e| e.title == "(untitled)"));
    assert_eq!(v[2].end, "2026-09-12T15:00:00");
}

#[test]
fn not_ics() {
    assert!(events_from_ics("<html>nope</html>", 0, today(), today()).is_err());
}

#[test]
fn cache_name_format() {
    let name = cache_name("  https://example.com/a.ics ");
    assert_eq!(name, cache_name("https://example.com/a.ics"));
    assert!(name.starts_with("feed_") && name.ends_with(".ics") && name.len() == 5 + 16 + 4);
    assert!(name[5..21].chars().all(|c| c.is_ascii_digit() || c.is_ascii_uppercase()));
    let path = cache_path_for("c", "  https://example.com/a.ics ");
    assert_eq!(path, cache_path_for("c", "https://example.com/a.ics"));
    assert!(path.starts_with('c') && path.ends_with(&name));
}

#[test]
fn shorten_like_csharp() {
    let long = "x".repeat(130);
    let s = shorten(&long);
    assert_eq!(s.chars().count(), 121);
    assert!(s.ends_with('\u{2026}'));
    assert_eq!(shorten("short"), "short");
}

#[test]
fn google_share_link() {
    assert!(is_google_share_link("https://calendar.google.com/calendar/u/0?cid=abc"));
    assert!(!is_google_share_link("https://calendar.google.com/calendar/ical/x/private-y/basic.ics"));
}

fn reply(text: &str) -> FeedReply {
    FeedReply { fetched: Some(Ok(text.to_string())), save_error: None, cached: None }
}

/// The feeds as they are read, with the files and the cache handed over.
#[test]
fn fetch_all_disabled_and_local_file() {
    let local = cal("BEGIN:VEVENT\nUID:l\nDTSTART;VALUE=DATE:20260910\nSUMMARY:Local\nEND:VEVENT");
    let feeds = vec![
        FeedCfg { url: "https://x.invalid/a.ics".into(), name: " ".into(), color: "#111".into(), enabled: false },
        FeedCfg { url: "file:///tmp/local.ics".into(), name: "".into(), color: "#222".into(), enabled: true },
        FeedCfg { url: "/tmp/local.ics".into(), name: " Mine ".into(), color: "#333".into(), enabled: true },
    ];
    let replies = vec![
        FeedReply { fetched: None, save_error: None, cached: None },
        reply(&local),
        reply(&local),
    ];
    let mut clock = LocalClock::new();
    let r = fetch_all(&feeds, &replies, false, today(), &mut clock);
    assert_eq!(r.statuses.len(), 3);
    assert_eq!(r.statuses[0].name, "Feed 1");
    assert!(!r.statuses[0].enabled);
    assert_eq!(r.statuses[1].name, "Feed 2");
    assert_eq!(r.statuses[1].error, None);
    assert_eq!(r.statuses[2].name, "Mine");
    assert_eq!(r.events.len(), 2);
    assert!(r.events.iter().any(|e| e.feed == 1) && r.events.iter().any(|e| e.feed == 2));
    assert_eq!(test_feed(&feeds[2].url, Ok(local.clone())), Ok("1 events".to_string()));

    // The source disappears: what is cached is shown, stale and with an error.
    let one = vec![FeedCfg { url: "/tmp/local.ics".into(), name: " Mine ".into(), color: "#333".into(), enabled: true }];
    let gone = vec![FeedReply {
        fetched: Some(Err(missing_file_error("/tmp/local.ics"))),
        save_error: None,
        cached: Some(Ok(local.clone())),
    }];
    let r = fetch_all(&one, &gone, false, today(), &mut clock);
    assert!(r.statuses[0].stale);
    assert!(r.statuses[0].error.is_some());
    assert_eq!(r.events.len(), 1);
    let kept = vec![FeedReply { fetched: None, save_error: None, cached: Some(Ok(local)) }];
    let r = fetch_all(&one, &kept, true, today(), &mut clock);
    assert!(!r.statuses[0].stale && r.statuses[0].error.is_none() && !r.network);
}

#[test]
fn feed_sources_and_errors() {
    assert!(matches!(feed_source("file:///C:/a%20b.ics"), FeedSource::File(p) if p.contains("a b.ics")));
    assert!(matches!(feed_source("webcal://x.example/a.ics"), FeedSource::Address(u) if u == "https://x.example/a.ics"));
    assert_eq!(status_error(404, "Not Found"), "Response status code does not indicate success: 404 (Not Found).");
    assert_eq!(
        net_error(true, false, "x"),
        "The request was canceled due to the configured HttpClient.Timeout of 25 seconds elapsing."
    );
    assert_eq!(net_error(false, true, "x"), "An invalid request URI was provided.");
    assert_eq!(net_error(false, false, "refused"), "refused");
    assert_eq!(missing_file_error("a.ics"), "Could not find file 'a.ics'.");
    assert_eq!(test_feed("https://x.example/a.ics", Err("refused".to_string())), Err("refused".to_string()));
    assert_eq!(test_feed("https://calendar.google.com/calendar/u/0?cid=a", Ok(String::new())), Err(share_link_error()));
    assert_eq!(count_ci("begin:vevent BEGIN:VEVENT", "BEGIN:VEVENT"), 2);
}

#[test]
fn events_are_ordered_by_start_and_day_events_first() {
    let e = |start: &str, all_day: bool, title: &str| EventOut {
        feed: 0,
        title: title.to_string(),
        all_day,
        start: start.to_string(),
        end: start.to_string(),
    };
    let v = order_events(vec![
        e("2026-09-02T10:00:00", false, "b"),
        e("2026-09-01T10:00:00", false, "a"),
        e("2026-09-02", true, "c"),
    ]);
    let starts: Vec<&str> = v.iter().map(|x| x.start.as_str()).collect();
    assert_eq!(starts, vec!["2026-09-01T10:00:00", "2026-09-02", "2026-09-02T10:00:00"]);
}

#[test]
fn a_time_that_the_clock_skips_and_one_that_it_shows_twice() {
    // New York skips 02:30 on 2026-03-08 and shows 01:30 twice on 2026-11-01.
    let (ws, we) = (day(2026, 3, 1), day(2026, 3, 31));
    let skipped = cal("BEGIN:VEVENT\nUID:g\nDTSTART;TZID=America/New_York:20260308T023000\nSUMMARY:Gap\nEND:VEVENT");
    let v = events_from_ics(&skipped, 0, ws, we).unwrap();
    assert_eq!(v[0].start, utc_loc("20260308T073000"));
    let (ws, we) = (day(2026, 10, 25), day(2026, 11, 8));
    let twice = cal("BEGIN:VEVENT\nUID:t\nDTSTART;TZID=America/New_York:20261101T013000\nSUMMARY:Twice\nEND:VEVENT");
    let v = events_from_ics(&twice, 0, ws, we).unwrap();
    assert_eq!(v[0].start, utc_loc("20261101T053000"));
}

#[test]
fn counts_and_ends_only_cut_off() {
    let start = stamp("20260901T100000");
    let limit = stamp("20270101T000000");
    let all = expand_rrule(&parse_rrule(&chars("FREQ=WEEKLY;BYDAY=TU,FR")).unwrap(), 2 * start, None, limit);
    for n in 1..=5usize {
        let r = parse_rrule(&chars(&format!("FREQ=WEEKLY;BYDAY=TU,FR;COUNT={n}"))).unwrap();
        assert_eq!(expand_rrule(&r, 2 * start, None, limit), all[..n].to_vec());
    }
    let r = parse_rrule(&chars("FREQ=WEEKLY;BYDAY=TU,FR")).unwrap();
    for u in [start - 1, start, all[3] - 1, all[3], limit] {
        let want: Vec<i64> = all.iter().copied().filter(|c| *c <= u).collect();
        assert_eq!(expand_rrule(&r, 2 * start, Some(u), limit), want);
    }
}

#[test]
fn an_exception_takes_one_occurrence_away() {
    let series = |more: &str| {
        run(&format!("BEGIN:VEVENT\nUID:x\nDTSTART:20260901T100000\nRRULE:FREQ=DAILY;COUNT=5\n{more}SUMMARY:S\nEND:VEVENT"))
    };
    let all = series("");
    assert_eq!(all.len(), 5);
    let rest = series("EXDATE:20260903T100000\n");
    assert_eq!(starts(&rest), vec!["2026-09-01T10:00:00", "2026-09-02T10:00:00", "2026-09-04T10:00:00", "2026-09-05T10:00:00"]);
    assert_eq!(starts(&series("EXDATE:20260903T100001\n")), starts(&all));
}

/// How a time so many seconds after another reads.
fn after(s: &str, secs: i64) -> String {
    let t = NaiveDateTime::parse_from_str(s, "%Y%m%dT%H%M%S").unwrap() + chrono::Duration::seconds(secs);
    t.format("%Y-%m-%dT%H:%M:%S").to_string()
}

#[test]
fn leap_seconds() {
    let one = |start: &str, more: &str| {
        let v = run(&format!("BEGIN:VEVENT\nUID:l\nDTSTART:{start}\n{more}SUMMARY:L\nEND:VEVENT"));
        (v[0].start.clone(), v[0].end.clone())
    };
    let leap = "20260915T235960";
    assert_eq!(one(leap, ""), ("2026-09-15T23:59:60".to_string(), "2026-09-15T23:59:60".to_string()));
    assert_eq!(one(leap, "DURATION:PT1H\n"), (after(leap, 0), after(leap, 3_600)));
    assert_eq!(one(leap, "DURATION:PT1H\n").1, "2026-09-16T00:59:59");
    assert_eq!(one(leap, "DURATION:-PT1H\n").1, after(leap, -3_600));
    let apart = |a: &str, b: &str| {
        let t = |s: &str| NaiveDateTime::parse_from_str(s, "%Y%m%dT%H%M%S").unwrap();
        (t(b) - t(a)).num_seconds()
    };
    for (a, b) in [
        ("20260915T230000", leap),
        (leap, "20260916T000000"),
        (leap, "20260916T120000"),
        (leap, "20260915T235959"),
        ("20260915T235959", leap),
        (leap, leap),
        ("20260914T235960", leap),
        ("20260915T101060", leap),
        (leap, "20260916T101060"),
    ] {
        let want = (after(a, 0), after(a, apart(a, b)));
        assert_eq!(one(a, &format!("DTEND:{b}\n")), want, "{a} {b}");
    }
    // In a zone, and in another one at the end.
    let (s, e) = one("20260915T235960Z", "DTEND;TZID=Europe/Berlin:20260916T030000\n");
    let begin = NaiveDateTime::parse_from_str(leap, "%Y%m%dT%H%M%S").unwrap();
    let end = begin + chrono::Duration::seconds(apart(leap, "20260916T010000"));
    assert_eq!((s, e), (utc_loc(leap), utc_loc(&end.format("%Y%m%dT%H%M%S").to_string())));
    // A series goes on a second earlier, and only a leap second leaves one out.
    let series = |more: &str| {
        starts(&run(&format!("BEGIN:VEVENT\nUID:x\nDTSTART:{leap}\nRRULE:FREQ=DAILY;COUNT=2\n{more}SUMMARY:S\nEND:VEVENT")))
    };
    let all = vec!["2026-09-15T23:59:60", "2026-09-16T23:59:59", "2026-09-17T23:59:59"];
    assert_eq!(series(""), all);
    assert_eq!(series("EXDATE:20260916T235960\n"), all);
    assert_eq!(series("EXDATE:20260915T235960\n"), all[1..].to_vec());
    assert_eq!(series("EXDATE:20260916T235959\n"), vec![all[0], all[2]]);
}

#[test]
fn folding_changes_nothing() {
    let lines = ["BEGIN:VEVENT", "SUMMARY:a long line", "END:VEVENT"];
    let plain = lines.join("\r\n");
    let read = |t: &str| -> Vec<String> { unfold(&chars(t)).into_iter().map(|l| l.into_iter().collect()).collect() };
    assert_eq!(read(&plain), lines);
    assert_eq!(read(&plain.replace("long", "lo\r\n ng\r\n\t")), lines);
    assert_eq!(read(&plain.replace("long", "\r\n  long")), ["BEGIN:VEVENT", "SUMMARY:a  long line", "END:VEVENT"]);
}

#[test]
fn days_and_dates() {
    assert_eq!(day(1, 1, 1), 1);
    assert_eq!(date(day(2024, 2, 29)), "2024-02-29");
    assert_eq!(day_from_ymd(2023, 2, 29), None);
    assert_eq!(day(2026, 9, 23) - day(2025, 9, 23), 365);
}
