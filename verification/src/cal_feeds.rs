//! Calendar feeds: where they come from, what is shown of them, and in what order.

use vstd::prelude::*;
use crate::bytes::{hex_first, hex_text, percent_decode, percent_text, sha256, sha256_of};
use crate::dates::{
    date_of, day_from_ymd, day_number, in_calendar, is_date, lemma_date_of, month_len, ymd_from_day, MAX_YEAR,
};
use crate::events::{event_models, EventModel, EventOut};
use crate::feed_events::{day_window, events_with_clock, file_events};
use crate::ics::{components_of, is_calendar};
use crate::text::{
    chars_of, contains, contains_text, copy_range, count_from, count_text, decimal, decimal_text, is_before,
    law_trim_twice, lemma_order_chain, lemma_order_total, lower, replace_char, replaced_char, starts, string_of,
    text_before, to_upper, trim, trimmed, upper, utf8_len,
};
use crate::zones::{lemma_extends_chain, lemma_forget, LocalClock, LocalModel};
use vstd::utf8::encode_utf8;

verus! {

/// A feed as it is configured.
#[derive(Debug)]
pub struct FeedCfg {
    pub url: String,
    pub name: String,
    pub color: String,
    pub enabled: bool,
}

/// The colour of a feed that has none.
pub fn default_color() -> (r: String)
    ensures
        r@ == "#7aa2f7"@,
{
    "#7aa2f7".to_string()
}

/// How a feed fared.
#[derive(Debug)]
pub struct FeedStatus {
    pub name: String,
    pub color: String,
    /// Its events come from the cache although the network was tried.
    pub stale: bool,
    pub error: Option<String>,
    pub enabled: bool,
}

#[verifier::ext_equal]
pub struct StatusModel {
    pub name: Seq<char>,
    pub color: Seq<char>,
    pub stale: bool,
    pub error: Option<Seq<char>>,
    pub enabled: bool,
}

impl View for FeedStatus {
    type V = StatusModel;

    open spec fn view(&self) -> StatusModel {
        StatusModel {
            name: self.name@,
            color: self.color@,
            stale: self.stale,
            error: crate::text::opt(self.error),
            enabled: self.enabled,
        }
    }
}

pub open spec fn status_models(v: Seq<FeedStatus>) -> Seq<StatusModel> {
    v.map_values(|s: FeedStatus| s@)
}

/// The events of all feeds and how each feed fared.
#[derive(Debug)]
pub struct FetchResult {
    pub events: Vec<EventOut>,
    pub statuses: Vec<FeedStatus>,
    /// Whether the network was tried.
    pub network: bool,
}

// ---------------------------------------------------------------------------
// Small helpers
// ---------------------------------------------------------------------------

/// A message cut after 120 characters, with an ellipsis for the rest.
pub open spec fn shortened(msg: Seq<char>) -> Seq<char> {
    if msg.len() > 120 {
        msg.take(120).push('\u{2026}')
    } else {
        msg
    }
}

pub fn shorten(msg: &str) -> (r: String)
    ensures
        r@ == shortened(msg@),
{
    let c = chars_of(msg);
    if c.len() > 120 {
        let mut t = copy_range(c.as_slice(), 0, 120);
        t.push('\u{2026}');
        proof {
            assert(c@.subrange(0, 120) =~= c@.take(120));
        }
        string_of(t.as_slice())
    } else {
        string_of(c.as_slice())
    }
}

/// Whether a text occurs in another, whatever the case of ASCII letters.
pub open spec fn contains_any_case(hay: Seq<char>, needle: Seq<char>) -> bool {
    contains(upper(hay), upper(needle))
}

pub fn contains_ci(hay: &str, needle: &str) -> (r: bool)
    ensures
        r == contains_any_case(hay@, needle@),
{
    let h = chars_of(hay);
    let n = chars_of(needle);
    let hu = to_upper(h.as_slice());
    let nu = to_upper(n.as_slice());
    contains_text(hu.as_slice(), nu.as_slice())
}

/// How often a text occurs in another, whatever the case of ASCII letters.
pub fn count_ci(hay: &str, needle: &str) -> (r: usize)
    requires
        needle@.len() > 0,
    ensures
        r == count_from(upper(hay@), upper(needle@), 0),
{
    let h = chars_of(hay);
    let n = chars_of(needle);
    let hu = to_upper(h.as_slice());
    let nu = to_upper(n.as_slice());
    count_text(hu.as_slice(), nu.as_slice())
}

/// Whether an address is the share page of a Google calendar and no feed.
pub open spec fn is_share_link(url: Seq<char>) -> bool {
    contains_any_case(trim(url), "calendar.google.com"@) && !contains_any_case(trim(url), "/ical/"@)
}

pub fn is_google_share_link(url: &str) -> (r: bool)
    ensures
        r == is_share_link(url@),
{
    let c = chars_of(url);
    let t = trimmed(c.as_slice());
    let s = string_of(t.as_slice());
    contains_ci(s.as_str(), "calendar.google.com") && !contains_ci(s.as_str(), "/ical/")
}

/// Why a share page is no feed.
pub fn share_link_error() -> (r: String)
    ensures
        r@ == share_link_text(),
{
    "this is a Google share link, not an ICS feed \u{2014} in Google Calendar, right-click the calendar in the left sidebar \u{2192} \u{201C}Settings and sharing\u{201D}, scroll to the bottom, and copy the \u{201C}Secret address in iCal format\u{201D} (ends in basic.ics)".to_string()
}

pub open spec fn share_link_text() -> Seq<char> {
    "this is a Google share link, not an ICS feed \u{2014} in Google Calendar, right-click the calendar in the left sidebar \u{2192} \u{201C}Settings and sharing\u{201D}, scroll to the bottom, and copy the \u{201C}Secret address in iCal format\u{201D} (ends in basic.ics)"@
}

/// What a test of a feed says of the text that came back: how many events it
/// holds, or that it is no calendar.
pub open spec fn tested(text: Seq<char>) -> Result<Seq<char>, Seq<char>> {
    if contains_any_case(text, "BEGIN:VCALENDAR"@) {
        Ok(decimal(count_from(upper(text), upper("BEGIN:VEVENT"@), 0)) + " events"@)
    } else {
        Err("not an ICS file"@)
    }
}

/// What a test of a feed says, given what fetching its address brought. A share
/// page is refused whatever it brought.
pub open spec fn feed_test(url: Seq<char>, fetched: Result<Seq<char>, Seq<char>>) -> Result<Seq<char>, Seq<char>> {
    if is_share_link(url) {
        Err(share_link_text())
    } else {
        match fetched {
            Ok(text) => tested(text),
            Err(e) => Err(shortened(e)),
        }
    }
}

pub open spec fn text_result(r: Result<String, String>) -> Result<Seq<char>, Seq<char>> {
    match r {
        Ok(s) => Ok(s@),
        Err(e) => Err(e@),
    }
}

/// Tests a feed by what fetching its address brought: the number of its events, or
/// the reason why it is none.
pub fn test_feed(url: &str, fetched: Result<String, String>) -> (r: Result<String, String>)
    ensures
        text_result(r) == feed_test(url@, text_result(fetched)),
{
    if is_google_share_link(url) {
        return Err(share_link_error());
    }
    match fetched {
        Err(e) => Err(shorten(e.as_str())),
        Ok(text) => {
            if !contains_ci(text.as_str(), "BEGIN:VCALENDAR") {
                return Err("not an ICS file".to_string());
            }
            proof {
                reveal_strlit("BEGIN:VEVENT");
            }
            let n: usize = count_ci(text.as_str(), "BEGIN:VEVENT");
            let mut v = decimal_text(n as u64);
            let mut tail = chars_of(" events");
            v.append(&mut tail);
            Ok(string_of(v.as_slice()))
        },
    }
}

// ---------------------------------------------------------------------------
// The window that is shown
// ---------------------------------------------------------------------------

/// The first of the month after a date.
pub open spec fn month_after(y: int, m: int) -> (int, int) {
    if m == 12 {
        (y + 1, 1)
    } else {
        (y, m + 1)
    }
}

/// The days from which and before which events are shown: a week before the first
/// of the month and a week after the first of the next one. In the last month of
/// the calendar the end is counted from today.
#[verifier::opaque]
pub open spec fn window_around(today: int) -> (int, int) {
    let (y, m, d) = date_of(today);
    let (ny, nm) = month_after(y, m);
    (
        day_number(y, m, 1) - 7,
        if ny <= MAX_YEAR {
            day_number(ny, nm, 1) + 7
        } else {
            today + 7
        },
    )
}

pub fn visible_window(today: i64) -> (r: (i64, i64))
    requires
        in_calendar(today as int),
    ensures
        (r.0 as int, r.1 as int) == window_around(today as int),
{
    reveal(window_around);
    match ymd_from_day(today) {
        None => (today, today),
        Some((y, m, d)) => {
            let first: i64 = match day_from_ymd(y, m, 1) {
                Some(n) => n,
                None => today,
            };
            let next: i64 = if m == 12 {
                match day_from_ymd(y + 1, 1, 1) {
                    Some(n) => n,
                    None => today,
                }
            } else {
                match day_from_ymd(y, m + 1, 1) {
                    Some(n) => n,
                    None => today,
                }
            };
            (first - 7, next + 7)
        },
    }
}

// ---------------------------------------------------------------------------
// Where a feed comes from
// ---------------------------------------------------------------------------

/// A place that a feed is read from.
#[derive(Debug)]
pub enum FeedSource {
    /// A file of this machine.
    File(String),
    /// An address, or the path of a file if there is one of that name.
    Address(String),
}

pub enum SourceModel {
    File(Seq<char>),
    Address(Seq<char>),
}

impl View for FeedSource {
    type V = SourceModel;

    open spec fn view(&self) -> SourceModel {
        match self {
            FeedSource::File(s) => SourceModel::File(s@),
            FeedSource::Address(s) => SourceModel::Address(s@),
        }
    }
}

/// Whether a text starts with another, whatever the case of ASCII letters.
pub open spec fn starts_any_case(s: Seq<char>, prefix: Seq<char>) -> bool {
    s.len() >= prefix.len() && lower(s.take(prefix.len() as int)) == lower(prefix)
}

pub fn starts_with_ci(s: &[char], prefix: &str) -> (r: bool)
    ensures
        r == starts_any_case(s@, prefix@),
{
    let p = chars_of(prefix);
    if s.len() < p.len() {
        return false;
    }
    let head = copy_range(s, 0, p.len());
    proof {
        assert(s@.subrange(0, p@.len() as int) =~= s@.take(p@.len() as int));
    }
    crate::text::same_text_ignoring_case(head.as_slice(), p.as_slice())
}

/// Whether a path starts with a drive: one ASCII character and a colon.
pub open spec fn has_drive(s: Seq<char>) -> bool {
    s.len() >= 2 && utf8_len(s[0]) == 1 && s[1] == ':'
}

/// The path that a file address names. After the scheme, a slash and a drive make
/// a path on that drive, a slash alone an absolute path, and a server's name a
/// share of that server.
pub open spec fn file_path(u: Seq<char>) -> Seq<char> {
    let d = percent_text(u.subrange(7, u.len() as int));
    if d.len() > 0 && d[0] == '/' {
        let r = d.subrange(1, d.len() as int);
        if has_drive(r) {
            replace_char(r, '/', '\\')
        } else {
            d
        }
    } else if has_drive(d) {
        replace_char(d, '/', '\\')
    } else {
        seq!['\\', '\\'] + replace_char(d, '/', '\\')
    }
}

fn drive_first(s: &[char]) -> (r: bool)
    ensures
        r == has_drive(s@),
{
    s.len() >= 2 && crate::text::char_bytes(s[0]) == 1 && s[1] == ':'
}

pub fn file_url_to_path(u: &[char]) -> (r: String)
    requires
        u.len() >= 7,
    ensures
        r@ == file_path(u@),
{
    let rest = copy_range(u, 7, u.len());
    let rest_text = string_of(rest.as_slice());
    let decoded = percent_decode(rest_text.as_str());
    let d = chars_of(decoded.as_str());
    if d.len() > 0 && d[0] == '/' {
        let r = copy_range(d.as_slice(), 1, d.len());
        if drive_first(r.as_slice()) {
            let p = replaced_char(r.as_slice(), '/', '\\');
            return string_of(p.as_slice());
        }
        return decoded;
    }
    let mut p = replaced_char(d.as_slice(), '/', '\\');
    if drive_first(d.as_slice()) {
        return string_of(p.as_slice());
    }
    let mut share: Vec<char> = Vec::new();
    share.push('\\');
    share.push('\\');
    share.append(&mut p);
    proof {
        assert(share@ =~= seq!['\\', '\\'] + replace_char(d@, '/', '\\'));
    }
    string_of(share.as_slice())
}

/// An address whose scheme `webcal` is read as `https`.
pub open spec fn as_https(u: Seq<char>) -> Seq<char> {
    if starts_any_case(u, "webcal://"@) {
        "https://"@ + u.subrange(9, u.len() as int)
    } else {
        u
    }
}

/// Where the feed with an address is read from.
pub open spec fn source_of(url: Seq<char>) -> SourceModel {
    let u = as_https(trim(url));
    if starts_any_case(u, "file://"@) {
        SourceModel::File(file_path(u))
    } else {
        SourceModel::Address(u)
    }
}

pub fn feed_source(url: &str) -> (r: FeedSource)
    ensures
        r@ == source_of(url@),
{
    proof {
        reveal_strlit("webcal://");
        reveal_strlit("file://");
    }
    let c = chars_of(url);
    let t = trimmed(c.as_slice());
    let u: Vec<char> = if starts_with_ci(t.as_slice(), "webcal://") {
        let mut v = chars_of("https://");
        let mut rest = copy_range(t.as_slice(), 9, t.len());
        v.append(&mut rest);
        v
    } else {
        t
    };
    if starts_with_ci(u.as_slice(), "file://") {
        FeedSource::File(file_url_to_path(u.as_slice()))
    } else {
        FeedSource::Address(string_of(u.as_slice()))
    }
}

/// What a response that is no success says.
pub fn status_error(code: u16, reason: &str) -> (r: String)
    ensures
        r@ == "Response status code does not indicate success: "@ + decimal(code as int) + " ("@ + reason@ + ")."@,
{
    let mut v = chars_of("Response status code does not indicate success: ");
    let mut n = decimal_text(code as u64);
    let mut a = chars_of(" (");
    let mut b = chars_of(reason);
    let mut c = chars_of(").");
    v.append(&mut n);
    v.append(&mut a);
    v.append(&mut b);
    v.append(&mut c);
    string_of(v.as_slice())
}

/// What a request that failed says: that it took too long, that its address is
/// none, or its innermost cause.
pub fn net_error(timeout: bool, bad_address: bool, cause: &str) -> (r: String)
    ensures
        r@ == (if timeout {
            "The request was canceled due to the configured HttpClient.Timeout of 25 seconds elapsing."@
        } else if bad_address {
            "An invalid request URI was provided."@
        } else {
            cause@
        }),
{
    if timeout {
        "The request was canceled due to the configured HttpClient.Timeout of 25 seconds elapsing.".to_string()
    } else if bad_address {
        "An invalid request URI was provided.".to_string()
    } else {
        cause.to_string()
    }
}

/// What reading a file that is not there says.
pub fn missing_file_error(path: &str) -> (r: String)
    ensures
        r@ == "Could not find file '"@ + path@ + "'."@,
{
    let mut v = chars_of("Could not find file '");
    let mut p = chars_of(path);
    let mut e = chars_of("'.");
    v.append(&mut p);
    v.append(&mut e);
    string_of(v.as_slice())
}

// ---------------------------------------------------------------------------
// The cache
// ---------------------------------------------------------------------------

/// The name of the file that a feed is cached in: the first eight bytes of the
/// digest of its address in hexadecimal.
pub open spec fn cache_file(url: Seq<char>) -> Seq<char> {
    "feed_"@ + hex_first(sha256_of(encode_utf8(trim(url))), 8, true) + ".ics"@
}

pub fn cache_name(url: &str) -> (r: String)
    ensures
        r@ == cache_file(url@),
        r@.len() == 25,
{
    proof {
        reveal_strlit("feed_");
        reveal_strlit(".ics");
    }
    let c = chars_of(url);
    let t = trimmed(c.as_slice());
    let s = string_of(t.as_slice());
    let digest = sha256(s.as_str().as_bytes());
    let mut v = chars_of("feed_");
    let mut h = hex_text(digest.as_slice(), 8, true);
    let mut e = chars_of(".ics");
    v.append(&mut h);
    v.append(&mut e);
    string_of(v.as_slice())
}

/// White space around an address changes nothing about where it is cached: addresses
/// that differ in nothing else have one file, which is that of the address without it.
pub proof fn law_cache_ignores_white_space(a: Seq<char>, b: Seq<char>)
    requires
        trim(a) == trim(b),
    ensures
        cache_file(a) == cache_file(b),
        cache_file(a) == cache_file(trim(a)),
        forall|path: Seq<char>, dir: Seq<char>| #[trigger]
            is_file_in(path, dir, cache_file(a)) == is_file_in(path, dir, cache_file(b)),
{
    law_trim_twice(a);
}

/// Whether a path is a directory's with a name after it, with or without a
/// separator between them.
pub open spec fn is_joined(path: Seq<char>, dir: Seq<char>, name: Seq<char>) -> bool {
    path == dir + name || path == dir + seq!['/'] + name || path == dir + seq!['\\'] + name
}

/// Whether a path has the prefix of those that Windows takes as they are written.
pub open spec fn is_verbatim(path: Seq<char>) -> bool {
    starts(path, "\\\\?\\"@)
}

/// Whether a text ends in another.
pub open spec fn ends_in(s: Seq<char>, end: Seq<char>) -> bool {
    s.len() >= end.len() && s.skip(s.len() - end.len()) == end
}

/// Whether a path is where a file with a name stands in a directory. Of a directory
/// whose path is rewritten it is only said that the name ends it.
pub open spec fn is_file_in(path: Seq<char>, dir: Seq<char>, name: Seq<char>) -> bool {
    ends_in(path, name) && (!is_verbatim(dir) ==> is_joined(path, dir, name))
}

/// `std::path::Path::join`, as text: a directory and the name of a file in it, with
/// the machine's separator between them where one is missing. Which separator that
/// is depends on the machine. On Windows a directory that begins with `\\?\` is
/// rewritten without its dots; how is not said here.
#[verifier::external_body]
pub(crate) fn join_path(dir: &str, name: &str) -> (r: String)
    requires
        name@ != "."@,
        name@ != ".."@,
        forall|i: int| 0 <= i < name@.len() ==> name@[i] != '/' && name@[i] != '\\' && name@[i] != ':',
    ensures
        is_file_in(r@, dir@, name@),
{
    std::path::Path::new(dir).join(name).to_string_lossy().into_owned()
}

/// Where a feed is cached.
pub fn cache_path_for(cache_dir: &str, url: &str) -> (r: String)
    ensures
        is_file_in(r@, cache_dir@, cache_file(url@)),
{
    let name = cache_name(url);
    proof {
        lemma_cache_chars(url@);
        reveal_strlit(".");
        reveal_strlit("..");
    }
    join_path(cache_dir, name.as_str())
}

proof fn lemma_hex_len(b: Seq<u8>, n: int)
    requires
        0 <= n,
    ensures
        hex_first(b, n, true).len() == 2 * n,
    decreases n,
{
    if n > 0 {
        lemma_hex_len(b, n - 1);
    }
}

/// Whether a character is a hexadecimal digit in capitals.
pub open spec fn is_capital_hex(c: char) -> bool {
    '0' <= c <= '9' || 'A' <= c <= 'F'
}

/// The file that a feed is cached in has a name of one form: a fixed start, sixteen
/// hexadecimal digits in capitals, and the ending of calendars, 25 characters in all.
pub proof fn law_cache_name_form(url: Seq<char>, i: int)
    requires
        0 <= i < 16,
    ensures
        cache_file(url).len() == 25,
        cache_file(url).take(5) == "feed_"@,
        is_capital_hex(cache_file(url)[5 + i]),
        cache_file(url).skip(21) == ".ics"@,
{
    reveal_strlit("feed_");
    reveal_strlit(".ics");
    let b = sha256_of(encode_utf8(trim(url)));
    let h = hex_first(b, 8, true);
    lemma_hex_len(b, 8);
    lemma_hex_chars(b, 8, i);
    assert(cache_file(url)[5 + i] == h[i]);
    assert(cache_file(url).take(5) =~= "feed_"@);
    assert(cache_file(url).skip(21) =~= ".ics"@);
}

proof fn lemma_hex_chars(b: Seq<u8>, n: int, i: int)
    requires
        0 <= n,
        0 <= i < hex_first(b, n, true).len(),
    ensures
        '0' <= hex_first(b, n, true)[i] <= '9' || 'A' <= hex_first(b, n, true)[i] <= 'F',
    decreases n,
{
    if n > 0 {
        let before = hex_first(b, n - 1, true);
        if i < before.len() {
            lemma_hex_chars(b, n - 1, i);
        }
    }
}

proof fn lemma_cache_chars(url: Seq<char>)
    ensures
        forall|i: int|
            0 <= i < cache_file(url).len() ==> cache_file(url)[i] != '/' && cache_file(url)[i] != '\\' && cache_file(
                url,
            )[i] != ':',
{
    reveal_strlit("feed_");
    reveal_strlit(".ics");
    let h = hex_first(sha256_of(encode_utf8(trim(url))), 8, true);
    assert forall|i: int| 0 <= i < cache_file(url).len() implies cache_file(url)[i] != '/' && cache_file(url)[i]
        != '\\' && cache_file(url)[i] != ':' by {
        if 5 <= i < 5 + h.len() {
            lemma_hex_chars(sha256_of(encode_utf8(trim(url))), 8, i - 5);
            assert(cache_file(url)[i] == h[i - 5]);
        }
    }
}

// ---------------------------------------------------------------------------
// Fetching all feeds
// ---------------------------------------------------------------------------

/// What trying to read a feed brought.
#[derive(Debug)]
pub struct FeedReply {
    /// The text from the network, or why there is none; nothing if it was not tried.
    pub fetched: Option<Result<String, String>>,
    /// Why the fetched text could not be cached.
    pub save_error: Option<String>,
    /// The text from the cache, or why it cannot be read; nothing if there is none.
    pub cached: Option<Result<String, String>>,
}

#[verifier::ext_equal]
pub struct ReplyModel {
    pub fetched: Option<Result<Seq<char>, Seq<char>>>,
    pub save_error: Option<Seq<char>>,
    pub cached: Option<Result<Seq<char>, Seq<char>>>,
}

pub open spec fn opt_result(r: Option<Result<String, String>>) -> Option<Result<Seq<char>, Seq<char>>> {
    match r {
        Some(x) => Some(text_result(x)),
        None => None,
    }
}

impl View for FeedReply {
    type V = ReplyModel;

    open spec fn view(&self) -> ReplyModel {
        ReplyModel {
            fetched: opt_result(self.fetched),
            save_error: crate::text::opt(self.save_error),
            cached: opt_result(self.cached),
        }
    }
}

#[verifier::ext_equal]
pub struct FeedModel {
    pub url: Seq<char>,
    pub name: Seq<char>,
    pub color: Seq<char>,
    pub enabled: bool,
}

impl View for FeedCfg {
    type V = FeedModel;

    open spec fn view(&self) -> FeedModel {
        FeedModel { url: self.url@, name: self.name@, color: self.color@, enabled: self.enabled }
    }
}

pub open spec fn feed_models(v: Seq<FeedCfg>) -> Seq<FeedModel> {
    v.map_values(|f: FeedCfg| f@)
}

pub open spec fn reply_models(v: Seq<FeedReply>) -> Seq<ReplyModel> {
    v.map_values(|r: FeedReply| r@)
}

/// Whether a feed is read at all.
pub open spec fn is_active(f: FeedModel) -> bool {
    f.enabled && trim(f.url).len() > 0
}

pub fn feed_is_active(feed: &FeedCfg) -> (r: bool)
    ensures
        r == is_active(feed@),
{
    let c = chars_of(feed.url.as_str());
    let t = trimmed(c.as_slice());
    feed.enabled && t.len() > 0
}

/// The name that a feed is shown under; one without a name is counted.
pub open spec fn shown_name(f: FeedModel, i: int) -> Seq<char> {
    if trim(f.name).len() == 0 {
        "Feed "@ + decimal(i + 1)
    } else {
        trim(f.name)
    }
}

fn feed_name(feed: &FeedCfg, i: usize) -> (r: String)
    requires
        i < usize::MAX,
    ensures
        r@ == shown_name(feed@, i as int),
{
    let c = chars_of(feed.name.as_str());
    let t = trimmed(c.as_slice());
    if t.len() == 0 {
        let mut v = chars_of("Feed ");
        let mut n = decimal_text(i as u64 + 1);
        v.append(&mut n);
        string_of(v.as_slice())
    } else {
        string_of(t.as_slice())
    }
}

/// The text that a feed is shown from: the network's, else the cache's.
pub open spec fn reply_text(r: ReplyModel) -> Option<Seq<char>> {
    match r.fetched {
        Some(Ok(text)) => Some(text),
        _ => match r.cached {
            Some(Ok(text)) => Some(text),
            _ => None,
        },
    }
}

/// What went wrong while a feed was read: the network, or caching what it brought;
/// else the cache.
pub open spec fn reply_error(r: ReplyModel) -> Option<Seq<char>> {
    match r.fetched {
        Some(Ok(_)) => match r.save_error {
            Some(e) => Some(shortened(e)),
            None => None,
        },
        Some(Err(e)) => Some(shortened(e)),
        None => match r.cached {
            Some(Err(e)) => Some(shortened(e)),
            _ => None,
        },
    }
}

/// Whether a feed is shown from the cache although the network was tried.
pub open spec fn reply_stale(r: ReplyModel, cache_only: bool) -> bool {
    !cache_only && !(r.fetched matches Some(Ok(_))) && r.cached matches Some(Ok(_))
}

/// How the i-th feed fared.
pub open spec fn status_of(f: FeedModel, i: int, r: ReplyModel, cache_only: bool) -> StatusModel {
    if !is_active(f) {
        StatusModel { name: shown_name(f, i), color: f.color, stale: false, error: None, enabled: false }
    } else {
        StatusModel {
            name: shown_name(f, i),
            color: f.color,
            stale: reply_stale(r, cache_only),
            error: match reply_text(r) {
                Some(text) => if is_calendar(components_of(text)) {
                    reply_error(r)
                } else {
                    Some("parse: "@ + shortened("not an ICS file"@))
                },
                None => reply_error(r),
            },
            enabled: true,
        }
    }
}

/// What is shown of the i-th feed.
pub open spec fn events_of(f: FeedModel, i: int, r: ReplyModel, window: (int, int), l: LocalModel) -> Seq<EventModel> {
    match reply_text(r) {
        Some(text) => if is_active(f) && is_calendar(components_of(text)) {
            file_events(components_of(text), i, day_window(window.0, window.1), l)
        } else {
            Seq::empty()
        },
        None => Seq::empty(),
    }
}

/// What is shown of the first `n` feeds, feed by feed.
pub open spec fn events_first(
    feeds: Seq<FeedModel>,
    replies: Seq<ReplyModel>,
    n: int,
    window: (int, int),
    l: LocalModel,
) -> Seq<EventModel>
    decreases n,
{
    if n <= 0 {
        Seq::empty()
    } else {
        events_first(feeds, replies, n - 1, window, l) + events_of(
            feeds[n - 1],
            n - 1,
            replies[n - 1],
            window,
            l,
        )
    }
}

/// The order in which events are shown: by start, then by feed, then by title.
pub open spec fn event_before(a: EventModel, b: EventModel) -> bool {
    text_before(a.start, b.start) || (a.start == b.start && (a.feed < b.feed || (a.feed == b.feed && text_before(
        a.title,
        b.title,
    ))))
}

/// Events in order with one more, which goes after those it does not stand before.
pub open spec fn with_event(list: Seq<EventModel>, x: EventModel) -> Seq<EventModel>
    decreases list.len(),
{
    if list.len() > 0 && event_before(x, list.last()) {
        with_event(list.drop_last(), x).push(list.last())
    } else {
        list.push(x)
    }
}

/// The first `n` events in order; equal ones stay as they came.
pub open spec fn ordered_first(list: Seq<EventModel>, n: int) -> Seq<EventModel>
    decreases n,
{
    if n <= 0 {
        Seq::empty()
    } else {
        with_event(ordered_first(list, n - 1), list[n - 1])
    }
}

pub open spec fn ordered(list: Seq<EventModel>) -> Seq<EventModel> {
    ordered_first(list, list.len() as int)
}

pub open spec fn in_order(list: Seq<EventModel>) -> bool {
    forall|i: int, j: int| 0 <= i < j < list.len() ==> !event_before(#[trigger] list[j], #[trigger] list[i])
}

proof fn lemma_event_chain(a: EventModel, b: EventModel, c: EventModel)
    requires
        !event_before(b, a),
        !event_before(c, b),
    ensures
        !event_before(c, a),
{
    lemma_order_chain(a.start, b.start, c.start, 0);
    if !text_before(b.title, a.title) && !text_before(c.title, b.title) {
        lemma_order_chain(a.title, b.title, c.title, 0);
    }
    lemma_order_total(a.start, b.start, 0);
    lemma_order_total(b.start, c.start, 0);
    lemma_order_total(a.start, c.start, 0);
}

proof fn lemma_event_asymmetric(a: EventModel, b: EventModel)
    ensures
        !(event_before(a, b) && event_before(b, a)),
{
    lemma_order_total(a.start, b.start, 0);
    lemma_order_total(a.title, b.title, 0);
}

proof fn lemma_with_event(list: Seq<EventModel>, x: EventModel)
    requires
        in_order(list),
    ensures
        in_order(with_event(list, x)),
        with_event(list, x).to_multiset() == list.to_multiset().insert(x),
        with_event(list, x).len() == list.len() + 1,
        forall|y: EventModel| #[trigger] with_event(list, x).contains(y) ==> y == x || list.contains(y),
    decreases list.len(),
{
    broadcast use vstd::seq_lib::group_to_multiset_ensures;

    if list.len() > 0 && event_before(x, list.last()) {
        let init = list.drop_last();
        let last = list.last();
        assert(in_order(init)) by {
            assert forall|i: int, j: int| 0 <= i < j < init.len() implies !event_before(
                #[trigger] init[j],
                #[trigger] init[i],
            ) by {
                assert(!event_before(list[j], list[i]));
            }
        }
        lemma_with_event(init, x);
        let w = with_event(init, x);
        assert(init.push(last) =~= list);
        let r = w.push(last);
        assert forall|i: int, j: int| 0 <= i < j < r.len() implies !event_before(
            #[trigger] r[j],
            #[trigger] r[i],
        ) by {
            if j == w.len() {
                assert(w.contains(w[i]));
                if w[i] == x {
                    lemma_event_asymmetric(x, last);
                } else {
                    let k = init.index_of(w[i]);
                    assert(init[k] == w[i]);
                    assert(!event_before(list[list.len() - 1], list[k]));
                }
            }
        }
        assert forall|y: EventModel| r.contains(y) implies y == x || list.contains(y) by {
            let k = r.index_of(y);
            if k < w.len() {
                assert(w.contains(w[k]));
                if y != x {
                    let m = init.index_of(y);
                    assert(list[m] == y);
                }
            } else {
                assert(list[list.len() - 1] == y);
            }
        }
        assert(r.to_multiset() =~= list.to_multiset().insert(x));
    } else {
        let r = list.push(x);
        assert forall|i: int, j: int| 0 <= i < j < r.len() implies !event_before(
            #[trigger] r[j],
            #[trigger] r[i],
        ) by {
            if j == list.len() {
                let last = list.last();
                if i < list.len() - 1 {
                    assert(!event_before(list[list.len() - 1], list[i]));
                    lemma_event_chain(list[i], last, x);
                }
            }
        }
        assert forall|y: EventModel| r.contains(y) implies y == x || list.contains(y) by {
            let k = r.index_of(y);
            if k < list.len() {
                assert(list[k] == y);
            }
        }
    }
}

/// Ordering events neither loses nor invents one, and leaves none before one that
/// it should follow.
pub proof fn law_ordered(list: Seq<EventModel>)
    ensures
        in_order(ordered(list)),
        ordered(list).to_multiset() == list.to_multiset(),
        ordered(list).len() == list.len(),
{
    lemma_ordered_first(list, list.len() as int);
    assert(list.take(list.len() as int) =~= list);
}

proof fn lemma_ordered_first(list: Seq<EventModel>, n: int)
    requires
        0 <= n <= list.len(),
    ensures
        in_order(ordered_first(list, n)),
        ordered_first(list, n).to_multiset() == list.take(n).to_multiset(),
        ordered_first(list, n).len() == n,
    decreases n,
{
    broadcast use vstd::seq_lib::group_to_multiset_ensures;

    if n > 0 {
        lemma_ordered_first(list, n - 1);
        lemma_with_event(ordered_first(list, n - 1), list[n - 1]);
        assert(list.take(n) =~= list.take(n - 1).push(list[n - 1]));
    } else {
        assert(list.take(0) =~= Seq::<EventModel>::empty());
    }
}

fn stands_before(a: &EventOut, b: &EventOut) -> (r: bool)
    ensures
        r == event_before(a@, b@),
{
    let sa = chars_of(a.start.as_str());
    let sb = chars_of(b.start.as_str());
    if is_before(sa.as_slice(), sb.as_slice()) {
        return true;
    }
    if !crate::text::same(sa.as_slice(), sb.as_slice()) {
        return false;
    }
    if a.feed != b.feed {
        return a.feed < b.feed;
    }
    let ta = chars_of(a.title.as_str());
    let tb = chars_of(b.title.as_str());
    is_before(ta.as_slice(), tb.as_slice())
}

fn insert_event(list: &mut Vec<EventOut>, e: EventOut)
    ensures
        event_models(final(list)@) == with_event(event_models(old(list)@), e@),
{
    let ghost m = event_models(list@);
    let ghost x = e@;
    let mut pos: usize = list.len();
    proof {
        assert(m.take(m.len() as int) =~= m);
        assert(with_event(m, x) =~= with_event(m.take(pos as int), x) + m.skip(pos as int));
    }
    while pos > 0 && stands_before(&e, &list[pos - 1])
        invariant
            pos <= list.len(),
            m == event_models(list@),
            x == e@,
            *list == *old(list),
            with_event(m, x) == with_event(m.take(pos as int), x) + m.skip(pos as int),
        decreases pos,
    {
        proof {
            let a = m.take(pos as int);
            assert(a.last() == m[pos - 1]);
            assert(m[pos - 1] == list@[pos - 1]@);
            assert(a.drop_last() =~= m.take(pos - 1));
            assert(with_event(m.take(pos - 1), x).push(m[pos - 1]) + m.skip(pos as int) =~= with_event(
                m.take(pos - 1),
                x,
            ) + m.skip(pos - 1));
        }
        pos = pos - 1;
    }
    let ghost a = m.take(pos as int);
    proof {
        if pos > 0 {
            assert(a.last() == m[pos - 1]);
            assert(m[pos - 1] == list@[pos - 1]@);
        }
        assert(with_event(a, x) == a.push(x));
    }
    list.insert(pos, e);
    proof {
        assert(event_models(list@) =~= a.push(x) + m.skip(pos as int));
    }
}

/// Puts events into the order in which they are shown.
pub fn order_events(events: Vec<EventOut>) -> (r: Vec<EventOut>)
    ensures
        event_models(r@) == ordered(event_models(events@)),
{
    let ghost m = event_models(events@);
    let ghost n = events@.len() as int;
    let mut rest = events;
    rest = reversed(rest);
    let mut out: Vec<EventOut> = Vec::new();
    let mut k: usize = 0;
    let total: usize = rest.len();
    proof {
        assert(event_models(out@) =~= Seq::<EventModel>::empty());
    }
    while k < total
        invariant
            k <= total,
            total == n,
            m.len() == n,
            rest@.len() == n - k,
            forall|i: int| 0 <= i < n - k ==> (#[trigger] rest@[i])@ == m[n - 1 - i],
            event_models(out@) == ordered_first(m, k as int),
        decreases total - k,
    {
        match rest.pop() {
            Some(e) => {
                proof {
                    assert(e@ == m[k as int]);
                }
                insert_event(&mut out, e);
            },
            None => {},
        }
        k = k + 1;
    }
    out
}

fn reversed(events: Vec<EventOut>) -> (r: Vec<EventOut>)
    ensures
        r@.len() == events@.len(),
        forall|i: int| 0 <= i < r@.len() ==> (#[trigger] r@[i])@ == event_models(events@)[events@.len() - 1 - i],
{
    let ghost m = event_models(events@);
    let ghost n = events@.len() as int;
    let mut rest = events;
    let mut out: Vec<EventOut> = Vec::new();
    while rest.len() > 0
        invariant
            m.len() == n,
            rest@.len() + out@.len() == n,
            forall|i: int| 0 <= i < rest@.len() ==> (#[trigger] rest@[i])@ == m[i],
            forall|i: int| 0 <= i < out@.len() ==> (#[trigger] out@[i])@ == m[n - 1 - i],
        decreases rest@.len(),
    {
        match rest.pop() {
            Some(e) => {
                out.push(e);
            },
            None => {},
        }
    }
    out
}

fn settle_error(fetched: &Option<Result<String, String>>, save_error: &Option<String>, cached: &Option<
    Result<String, String>,
>) -> (r: Option<String>)
    ensures
        crate::text::opt(r) == reply_error(
            ReplyModel {
                fetched: opt_result(*fetched),
                save_error: crate::text::opt(*save_error),
                cached: opt_result(*cached),
            },
        ),
{
    match fetched {
        Some(Ok(_)) => match save_error {
            Some(e) => Some(shorten(e.as_str())),
            None => None,
        },
        Some(Err(e)) => Some(shorten(e.as_str())),
        None => match cached {
            Some(Err(e)) => Some(shorten(e.as_str())),
            _ => None,
        },
    }
}

/// How one feed fared and what is shown of it, given what reading it brought.
pub fn feed_result(
    feed: &FeedCfg,
    i: usize,
    reply: &FeedReply,
    cache_only: bool,
    window: (i64, i64),
    clock: &mut LocalClock,
) -> (r: (FeedStatus, Vec<EventOut>))
    requires
        old(clock).wf(),
        i < usize::MAX,
        in_calendar(window.0 as int),
        in_calendar(window.1 as int),
    ensures
        final(clock).wf(),
        final(clock).extends(old(clock)),
        r.0@ == status_of(feed@, i as int, reply@, cache_only),
        forall|l: LocalModel| #[trigger]
            final(clock).agrees(l) ==> event_models(r.1@) == events_of(
                feed@,
                i as int,
                reply@,
                (window.0 as int, window.1 as int),
                l,
            ),
{
    let name = feed_name(feed, i);
    let color = feed.color.clone();
    let none: Vec<EventOut> = Vec::new();
    proof {
        assert(event_models(none@) =~= Seq::<EventModel>::empty());
    }
    if !feed_is_active(feed) {
        return (FeedStatus { name, color, stale: false, error: None, enabled: false }, none);
    }
    let error = settle_error(&reply.fetched, &reply.save_error, &reply.cached);
    let mut stale: bool = false;
    let text: Option<&String> = match &reply.fetched {
        Some(Ok(t)) => Some(t),
        _ => match &reply.cached {
            Some(Ok(t)) => {
                stale = !cache_only;
                Some(t)
            },
            _ => None,
        },
    };
    match text {
        None => (FeedStatus { name, color, stale, error, enabled: true }, none),
        Some(t) => match events_with_clock(t.as_str(), i, window.0, window.1, clock) {
            Ok(list) => (FeedStatus { name, color, stale, error, enabled: true }, list),
            Err(e) => {
                let mut v = chars_of("parse: ");
                let short = shorten(e.as_str());
                let mut s = chars_of(short.as_str());
                v.append(&mut s);
                (
                    FeedStatus { name, color, stale, error: Some(string_of(v.as_slice())), enabled: true },
                    none,
                )
            },
        },
    }
}

/// The events and statuses of all feeds, given what reading each brought. Statuses
/// stand in the order of the feeds, events in the order in which they are shown.
pub fn fetch_all(
    feeds: &Vec<FeedCfg>,
    replies: &Vec<FeedReply>,
    cache_only: bool,
    today: i64,
    clock: &mut LocalClock,
) -> (r: FetchResult)
    requires
        old(clock).wf(),
        replies@.len() == feeds@.len(),
        in_calendar(today as int),
        in_calendar(window_around(today as int).0),
        in_calendar(window_around(today as int).1),
    ensures
        final(clock).wf(),
        final(clock).extends(old(clock)),
        r.network == !cache_only,
        r.statuses@.len() == feeds@.len(),
        forall|i: int|
            0 <= i < feeds@.len() ==> (#[trigger] r.statuses@[i])@ == status_of(
                feeds@[i]@,
                i,
                replies@[i]@,
                cache_only,
            ),
        forall|l: LocalModel| #[trigger]
            final(clock).agrees(l) ==> event_models(r.events@) == ordered(
                events_first(
                    feed_models(feeds@),
                    reply_models(replies@),
                    feeds@.len() as int,
                    window_around(today as int),
                    l,
                ),
            ),
{
    let window = visible_window(today);
    let ghost w = window_around(today as int);
    let ghost fm = feed_models(feeds@);
    let ghost rm = reply_models(replies@);
    let mut events: Vec<EventOut> = Vec::new();
    let mut statuses: Vec<FeedStatus> = Vec::new();
    let mut i: usize = 0;
    proof {
        assert(event_models(events@) =~= Seq::<EventModel>::empty());
    }
    while i < feeds.len()
        invariant
            i <= feeds.len(),
            feeds.len() <= usize::MAX,
            replies@.len() == feeds@.len(),
            fm == feed_models(feeds@),
            rm == reply_models(replies@),
            w == (window.0 as int, window.1 as int),
            in_calendar(window.0 as int),
            in_calendar(window.1 as int),
            clock.wf(),
            clock.extends(old(clock)),
            statuses@.len() == i,
            forall|j: int|
                0 <= j < i ==> (#[trigger] statuses@[j])@ == status_of(feeds@[j]@, j, replies@[j]@, cache_only),
            forall|l: LocalModel| #[trigger]
                clock.agrees(l) ==> event_models(events@) == events_first(fm, rm, i as int, w, l),
        decreases feeds.len() - i,
    {
        let ghost mid = *clock;
        let ghost before = event_models(events@);
        let (status, list) = feed_result(&feeds[i], i, &replies[i], cache_only, window, clock);
        let ghost lm = event_models(list@);
        let mut more = list;
        events.append(&mut more);
        statuses.push(status);
        proof {
            lemma_extends_chain(old(clock), &mid, clock);
            lemma_forget(&mid, clock);
            assert(event_models(events@) =~= before + lm);
            assert(fm[i as int] == feeds@[i as int]@);
            assert(rm[i as int] == replies@[i as int]@);
            assert forall|l: LocalModel| #[trigger] clock.agrees(l) implies event_models(events@) == events_first(
                fm,
                rm,
                i + 1,
                w,
                l,
            ) by {
                assert(mid.agrees(l));
                assert(before == events_first(fm, rm, i as int, w, l));
            }
        }
        i = i + 1;
    }
    FetchResult { events: order_events(events), statuses, network: !cache_only }
}

/// The days that are shown are those of the month of today, with a week before them and a week
/// behind them.
pub proof fn law_the_days_of_the_month_are_shown(y: int, m: int, d: int)
    requires
        is_date(y, m, d),
        y < MAX_YEAR,
    ensures
        ({
            let first = day_number(y, m, 1);
            window_around(day_number(y, m, d)) == (first - 7, first + month_len(y, m) + 7)
        }),
{
    reveal(window_around);
    lemma_date_of(y, m, d);
    crate::dates::lemma_month_span(y, m);
}

/// What a feed shows is what was fetched; where that failed or was not tried, what is kept of
/// it. It is stale exactly where it was to be fetched and what is kept is shown instead, and
/// the reason of a failure is said.
pub proof fn law_what_is_read_of_a_feed(r: ReplyModel, text: Seq<char>, kept: Seq<char>, e: Seq<char>, cache_only: bool)
    ensures
        r.fetched == Some(Ok::<Seq<char>, Seq<char>>(text)) ==> reply_text(r) == Some(text) && !reply_stale(r, cache_only)
            && (r.save_error is None ==> reply_error(r) is None),
        r.fetched == Some(Err::<Seq<char>, Seq<char>>(e)) && r.cached == Some(Ok::<Seq<char>, Seq<char>>(kept))
            ==> reply_text(r) == Some(kept) && reply_stale(r, false) && !reply_stale(r, true) && reply_error(r) == Some(
            shortened(e),
        ),
        r.fetched == Some(Err::<Seq<char>, Seq<char>>(e)) && !(r.cached matches Some(Ok(_))) ==> reply_text(r) is None
            && !reply_stale(r, false) && reply_error(r) == Some(shortened(e)),
        r.fetched is None && r.cached == Some(Ok::<Seq<char>, Seq<char>>(kept)) ==> reply_text(r) == Some(kept)
            && reply_error(r) is None,
        e.len() <= 120 ==> shortened(e) == e,
        e.len() > 120 ==> shortened(e).len() == 121 && shortened(e).take(120) == e.take(120),
{
    if e.len() > 120 {
        assert(shortened(e).take(120) =~= e.take(120));
    }
}

/// A feed that is switched off or has no address shows nothing and says so; one that is on
/// shows what its file does.
pub proof fn law_feeds_that_are_on(f: FeedModel, i: int, r: ReplyModel, window: (int, int), l: LocalModel, text: Seq<char>)
    requires
        reply_text(r) == Some(text),
    ensures
        !f.enabled || trim(f.url).len() == 0 ==> events_of(f, i, r, window, l).len() == 0 && !status_of(
            f,
            i,
            r,
            false,
        ).enabled,
        f.enabled && trim(f.url).len() > 0 && is_calendar(components_of(text)) ==> events_of(f, i, r, window, l)
            == file_events(components_of(text), i, day_window(window.0, window.1), l) && status_of(f, i, r, false).enabled,
        f.enabled && trim(f.url).len() > 0 && !is_calendar(components_of(text)) ==> events_of(f, i, r, window, l).len()
            == 0 && status_of(f, i, r, false).error is Some,
        trim(f.name).len() > 0 ==> status_of(f, i, r, false).name == trim(f.name),
        trim(f.name).len() == 0 ==> status_of(f, i, r, false).name == "Feed "@ + decimal(i + 1),
{
}

#[verifier::spinoff_prover]
#[verifier::rlimit(60)]
proof fn lemma_events_first(
    feeds: Seq<FeedModel>,
    replies: Seq<ReplyModel>,
    n: int,
    window: (int, int),
    l: LocalModel,
    i: int,
    e: EventModel,
)
    requires
        0 <= i < n <= feeds.len(),
        events_of(feeds[i], i, replies[i], window, l).contains(e),
    ensures
        events_first(feeds, replies, n, window, l).contains(e),
    decreases n,
{
    let before = events_first(feeds, replies, n - 1, window, l);
    let own = events_of(feeds[n - 1], n - 1, replies[n - 1], window, l);
    if i < n - 1 {
        lemma_events_first(feeds, replies, n - 1, window, l, i, e);
    }
    lemma_in_either(before, own, e);
}

proof fn lemma_in_either(a: Seq<EventModel>, b: Seq<EventModel>, e: EventModel)
    ensures
        a.contains(e) || b.contains(e) ==> (a + b).contains(e),
{
    if a.contains(e) {
        let at = a.index_of(e);
        assert((a + b)[at] == e);
    } else if b.contains(e) {
        let at = b.index_of(e);
        assert((a + b)[a.len() + at] == e);
    }
}

/// Every event of every feed is shown.
pub proof fn law_no_event_is_lost(
    feeds: Seq<FeedModel>,
    replies: Seq<ReplyModel>,
    window: (int, int),
    l: LocalModel,
    i: int,
    e: EventModel,
)
    requires
        0 <= i < feeds.len(),
        events_of(feeds[i], i, replies[i], window, l).contains(e),
    ensures
        ordered(events_first(feeds, replies, feeds.len() as int, window, l)).contains(e),
{
    let all = events_first(feeds, replies, feeds.len() as int, window, l);
    lemma_events_first(feeds, replies, feeds.len() as int, window, l, i, e);
    law_ordered(all);
    all.to_multiset_ensures();
    ordered(all).to_multiset_ensures();
    assert(all.to_multiset().count(e) > 0);
    assert(ordered(all).to_multiset().count(e) > 0);
}

/// Events are shown by their beginning; those that begin together by their feed, and those of
/// one feed by their title.
pub proof fn law_the_order_of_events(list: Seq<EventModel>, i: int, j: int)
    requires
        0 <= i < j < list.len(),
    ensures
        ({
            let a = ordered(list)[i];
            let b = ordered(list)[j];
            &&& !text_before(b.start, a.start)
            &&& a.start == b.start ==> a.feed <= b.feed
            &&& a.start == b.start && a.feed == b.feed ==> !text_before(b.title, a.title)
        }),
{
    law_ordered(list);
    let o = ordered(list);
    assert(!event_before(o[j], o[i]));
}

/// An address of a calendar to subscribe to is fetched as an ordinary one, and one of a file is
/// read from the disk.
pub proof fn law_where_a_feed_comes_from(rest: Seq<char>)
    requires
        trim("webcal://"@ + rest) == "webcal://"@ + rest,
    ensures
        source_of("webcal://"@ + rest) == SourceModel::Address("https://"@ + rest),
{
    reveal_strlit("webcal://");
    reveal_strlit("https://");
    reveal_strlit("file://");
    let u = "webcal://"@ + rest;
    assert(u.take(9) =~= "webcal://"@);
    assert(u.subrange(9, u.len() as int) =~= rest);
    let v = "https://"@ + rest;
    assert(v[0] == 'h');
    if starts_any_case(v, "file://"@) {
        assert(lower(v.take(7))[0] == lower("file://"@)[0]);
        assert(lower(v.take(7))[0] == crate::text::lower_char(v[0]));
        assert(lower("file://"@)[0] == crate::text::lower_char('f'));
    }
}

/// A feed that is tried is a calendar exactly if it says so, and is said to have as many events
/// as it begins; a link to share a calendar is refused before it is fetched.
pub proof fn law_trying_a_feed(url: Seq<char>, text: Seq<char>, e: Seq<char>)
    ensures
        is_share_link(url) ==> feed_test(url, Ok(text)) is Err && feed_test(url, Err(e)) is Err,
        !is_share_link(url) && contains(upper(text), upper("BEGIN:VCALENDAR"@)) ==> feed_test(url, Ok(text)) == Ok::<
            Seq<char>,
            Seq<char>,
        >(decimal(count_from(upper(text), upper("BEGIN:VEVENT"@), 0)) + " events"@),
        !is_share_link(url) && !contains(upper(text), upper("BEGIN:VCALENDAR"@)) ==> feed_test(url, Ok(text)) is Err,
        !is_share_link(url) ==> feed_test(url, Err(e)) == Err::<Seq<char>, Seq<char>>(shortened(e)),
{
}

} // verus!
