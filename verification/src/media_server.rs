//! The little server from which a TV streams a file that was shared with it.
//!
//! Only files that were shared are served, each under a token of its own, only to
//! the device it was shared with, and only for twelve hours. A part of a file can be
//! asked for, so that the TV can seek.

use vstd::prelude::*;
use vstd::string::*;
use vstd::utf8::encode_utf8;
use crate::bytes::{lossy_text, percent_decoded, percent_text, text_of};
use crate::cal_render::{is_served, is_served_name, law_served_names_stay_inside};
use crate::config::{as_map, keys_differ, lemma_each_found, lemma_without, put_value, value_of};
use crate::home::{has_id, holds_id};
use crate::roku_player::{
    ending, file_name_of, find_ending, is_simple_uuid, name_of_file, q, quoted, quoted_first, random_id,
};
use crate::roku_remote::{after_start, strip_start_text};
use crate::text::{
    chars_of, contains, contains_text, copy_range, decimal, decimal_text, is_str, lower, opt, parse_nat,
    parse_unsigned, position, replace_char, replaced_char, same_ignoring_case, same_text_ignoring_case, space,
    str_same, string_of, to_lower, trim, trimmed, views, within,
};
use crate::xml::{opt_chars, part_at, parted};

verus! {

/// How long a file is shared, in milliseconds: twelve hours.
pub const SHARE_LIFETIME_MS: i64 = 43_200_000;

// ---------------------------------------------------------------------------
// Types of content
// ---------------------------------------------------------------------------

/// The type of content of files with an ending in small letters.
pub open spec fn type_of(ext: Option<Seq<char>>) -> Seq<char> {
    match ext {
        None => "application/octet-stream"@,
        Some(e) => if e == "mp4"@ || e == "m4v"@ {
            "video/mp4"@
        } else if e == "mkv"@ {
            "video/x-matroska"@
        } else if e == "mov"@ {
            "video/quicktime"@
        } else if e == "webm"@ {
            "video/webm"@
        } else if e == "ts"@ {
            "video/mp2t"@
        } else if e == "mp3"@ {
            "audio/mpeg"@
        } else if e == "m4a"@ {
            "audio/mp4"@
        } else if e == "aac"@ {
            "audio/aac"@
        } else if e == "flac"@ {
            "audio/flac"@
        } else if e == "wav"@ {
            "audio/wav"@
        } else if e == "ogg"@ || e == "opus"@ {
            "audio/ogg"@
        } else if e == "m3u8"@ {
            "application/x-mpegURL"@
        } else if e == "srt"@ {
            "application/x-subrip"@
        } else if e == "vtt"@ {
            "text/vtt"@
        } else {
            "application/octet-stream"@
        },
    }
}

/// The ending of a file in small letters.
pub open spec fn small_ending(path: Seq<char>) -> Option<Seq<char>> {
    match ending(name_of_file(path)) {
        Some(e) => Some(lower(e)),
        None => None,
    }
}

fn find_small_ending(path: &str) -> (r: Option<Vec<char>>)
    ensures
        opt_chars(r) == small_ending(path@),
{
    let c = chars_of(path);
    let name = file_name_of(c.as_slice());
    match find_ending(name.as_slice()) {
        Some(e) => Some(to_lower(e.as_slice())),
        None => None,
    }
}

/// The type of content of a file, by its ending.
pub fn content_type(path: &str) -> (r: &'static str)
    ensures
        r@ == type_of(small_ending(path@)),
{
    match find_small_ending(path) {
        None => "application/octet-stream",
        Some(v) => {
            let e = v.as_slice();
            if is_str(e, "mp4") || is_str(e, "m4v") {
                "video/mp4"
            } else if is_str(e, "mkv") {
                "video/x-matroska"
            } else if is_str(e, "mov") {
                "video/quicktime"
            } else if is_str(e, "webm") {
                "video/webm"
            } else if is_str(e, "ts") {
                "video/mp2t"
            } else if is_str(e, "mp3") {
                "audio/mpeg"
            } else if is_str(e, "m4a") {
                "audio/mp4"
            } else if is_str(e, "aac") {
                "audio/aac"
            } else if is_str(e, "flac") {
                "audio/flac"
            } else if is_str(e, "wav") {
                "audio/wav"
            } else if is_str(e, "ogg") || is_str(e, "opus") {
                "audio/ogg"
            } else if is_str(e, "m3u8") {
                "application/x-mpegURL"
            } else if is_str(e, "srt") {
                "application/x-subrip"
            } else if is_str(e, "vtt") {
                "text/vtt"
            } else {
                "application/octet-stream"
            }
        },
    }
}

/// Whether files with an ending in small letters have a type of their own.
pub open spec fn has_own_type(e: Seq<char>) -> bool {
    e == "mp4"@ || e == "m4v"@ || e == "mkv"@ || e == "mov"@ || e == "webm"@ || e == "ts"@ || e == "mp3"@ || e
        == "m4a"@ || e == "aac"@ || e == "flac"@ || e == "wav"@ || e == "ogg"@ || e == "opus"@ || e == "m3u8"@ || e
        == "srt"@ || e == "vtt"@
}

/// The type of content of a file depends on the ending of its name alone, in whatever
/// case that is written. It is the general one exactly for files without an ending and
/// for those whose ending has no type of its own.
pub proof fn law_type_goes_by_the_ending(a: Seq<char>, b: Seq<char>)
    ensures
        small_ending(a) == small_ending(b) ==> type_of(small_ending(a)) == type_of(small_ending(b)),
        type_of(small_ending(a)) == "application/octet-stream"@ <==> !(small_ending(a) is Some && has_own_type(
            small_ending(a)->0,
        )),
{
    reveal_strlit("application/octet-stream");
    reveal_strlit("video/mp4");
    reveal_strlit("video/x-matroska");
    reveal_strlit("video/quicktime");
    reveal_strlit("video/webm");
    reveal_strlit("video/mp2t");
    reveal_strlit("audio/mpeg");
    reveal_strlit("audio/mp4");
    reveal_strlit("audio/aac");
    reveal_strlit("audio/flac");
    reveal_strlit("audio/wav");
    reveal_strlit("audio/ogg");
    reveal_strlit("application/x-mpegURL");
    reveal_strlit("application/x-subrip");
    reveal_strlit("text/vtt");
    assert("application/octet-stream"@.len() == 24);
    assert("video/mp4"@.len() < 24);
    assert("video/x-matroska"@.len() < 24);
    assert("video/quicktime"@.len() < 24);
    assert("video/webm"@.len() < 24);
    assert("video/mp2t"@.len() < 24);
    assert("audio/mpeg"@.len() < 24);
    assert("audio/mp4"@.len() < 24);
    assert("audio/aac"@.len() < 24);
    assert("audio/flac"@.len() < 24);
    assert("audio/wav"@.len() < 24);
    assert("audio/ogg"@.len() < 24);
    assert("application/x-mpegURL"@.len() < 24);
    assert("application/x-subrip"@.len() < 24);
    assert("text/vtt"@.len() < 24);
}

// ---------------------------------------------------------------------------
// Shared files
// ---------------------------------------------------------------------------

/// A file that is shared with one device. Addresses are in the form in which the
/// system writes them, times in milliseconds.
#[derive(Debug)]
pub struct Shared {
    pub path: String,
    pub allowed: String,
    pub expires: i64,
}

pub struct SharedModel {
    pub path: Seq<char>,
    pub allowed: Seq<char>,
    pub expires: int,
}

/// What is shared under a token.
pub open spec fn shared_under(files: Seq<(String, Shared)>, token: Seq<char>) -> Option<SharedModel> {
    match value_of(files, token) {
        Some(f) => Some(SharedModel { path: f.path@, allowed: f.allowed@, expires: f.expires as int }),
        None => None,
    }
}

/// What a device gets under a token: what was shared with it, as long as it is.
pub open spec fn served(files: Seq<(String, Shared)>, token: Seq<char>, peer: Seq<char>, now: int) -> Option<Seq<char>> {
    match shared_under(files, token) {
        Some(f) => if f.allowed == peer && f.expires > now {
            Some(f.path)
        } else {
            None
        },
        None => None,
    }
}

/// What is shared, without what is shared no longer.
pub open spec fn still_shared(files: Map<Seq<char>, Shared>, now: int) -> Map<Seq<char>, Shared> {
    Map::new(
        |t: Seq<char>| files.dom().contains(t) && files[t].expires > now,
        |t: Seq<char>| files[t],
    )
}

/// Takes away what is shared no longer.
pub fn drop_expired(files: &mut Vec<(String, Shared)>, now: i64)
    requires
        keys_differ(old(files)@),
    ensures
        keys_differ(final(files)@),
        as_map(final(files)@) == still_shared(as_map(old(files)@), now as int),
{
    let ghost all = as_map(files@);
    let mut i: usize = 0;
    while i < files.len()
        invariant
            i <= files@.len(),
            keys_differ(files@),
            forall|j: int| 0 <= j < i ==> (#[trigger] files@[j]).1.expires > now,
            still_shared(as_map(files@), now as int) == still_shared(all, now as int),
        decreases files@.len() - i,
    {
        if files[i].1.expires > now {
            i = i + 1;
        } else {
            let ghost before = files@;
            let _gone = files.remove(i);
            proof {
                lemma_each_found(before);
                lemma_without(before, i as int);
                assert(still_shared(as_map(files@), now as int) =~= still_shared(as_map(before), now as int));
            }
        }
    }
    proof {
        assert forall|t: Seq<char>| #[trigger] as_map(files@).dom().contains(t) implies as_map(files@)[t].expires
            > now by {
            crate::config::lemma_key_from(files@, t, 0);
        }
        assert(as_map(files@) =~= still_shared(as_map(files@), now as int));
    }
}

/// Shares a file with a device under a token.
pub fn share_file(files: &mut Vec<(String, Shared)>, token: &str, path: &str, allowed: &str, now: i64)
    requires
        keys_differ(old(files)@),
        now <= i64::MAX - SHARE_LIFETIME_MS,
    ensures
        keys_differ(final(files)@),
        shared_under(final(files)@, token@) == Some(
            SharedModel { path: path@, allowed: allowed@, expires: now + SHARE_LIFETIME_MS },
        ),
        as_map(final(files)@).remove(token@) == still_shared(as_map(old(files)@), now as int).remove(token@),
{
    drop_expired(files, now);
    let f = Shared { path: path.to_string(), allowed: allowed.to_string(), expires: now + SHARE_LIFETIME_MS };
    put_value(files, token, f);
    proof {
        assert(as_map(files@).remove(token@) =~= still_shared(as_map(old(files)@), now as int).remove(token@));
    }
}

/// Shares a file with a device under a token that is drawn for it.
pub fn share(files: &mut Vec<(String, Shared)>, path: &str, allowed: &str, now: i64) -> (token: String)
    requires
        keys_differ(old(files)@),
        now <= i64::MAX - SHARE_LIFETIME_MS,
    ensures
        is_simple_uuid(token@),
        keys_differ(final(files)@),
        shared_under(final(files)@, token@) == Some(
            SharedModel { path: path@, allowed: allowed@, expires: now + SHARE_LIFETIME_MS },
        ),
        as_map(final(files)@).remove(token@) == still_shared(as_map(old(files)@), now as int).remove(token@),
{
    let token = random_id();
    share_file(files, token.as_str(), path, allowed, now);
    token
}

/// What a device gets under a token.
pub fn find_shared(files: &Vec<(String, Shared)>, token: &str, peer: &str, now: i64) -> (r: Option<String>)
    ensures
        opt(r) == served(files@, token@, peer@, now as int),
{
    match crate::config::find_key(files, token) {
        Some(i) => {
            if str_same(files[i].1.allowed.as_str(), peer) && files[i].1.expires > now {
                Some(files[i].1.path.clone())
            } else {
                None
            }
        },
        None => None,
    }
}

/// The address of a shared file: its name stands in it for the TV to read.
pub fn share_url(ip: &str, port: u16, token: &str, path: &str) -> (r: String)
    ensures
        r@ == "http://"@ + ip@ + ":"@ + decimal(port as int) + "/v/"@ + token@ + "/"@ + quoted(
            if name_of_file(path@).len() == 0 || name_of_file(path@) == ".."@ {
                "video"@
            } else {
                name_of_file(path@)
            },
        ),
{
    let c = chars_of(path);
    let name = file_name_of(c.as_slice());
    let n = string_of(decimal_text(port as u64).as_slice());
    let shown = if name.len() == 0 || is_str(name.as_slice(), "..") {
        "video".to_string()
    } else {
        string_of(name.as_slice())
    };
    let e = q(shown.as_str());
    "http://".to_string().concat(ip).concat(":").concat(n.as_str()).concat("/v/").concat(token).concat("/").concat(
        e.as_str(),
    )
}

/// A file is served to the device it was shared with until twelve hours have passed,
/// and to no other device nor after that.
pub proof fn law_shared_with_one_device(
    files: Seq<(String, Shared)>,
    token: Seq<char>,
    path: Seq<char>,
    allowed: Seq<char>,
    peer: Seq<char>,
    shared_at: int,
    now: int,
)
    requires
        shared_under(files, token) == Some(
            SharedModel { path, allowed, expires: shared_at + SHARE_LIFETIME_MS },
        ),
    ensures
        served(files, token, peer, now) == (if peer == allowed && now < shared_at + SHARE_LIFETIME_MS {
            Some(path)
        } else {
            None
        }),
{
}

// ---------------------------------------------------------------------------
// Requests
// ---------------------------------------------------------------------------

/// Whether the head of a request is complete: an empty line ends it.
pub open spec fn head_ends(b: Seq<u8>) -> bool {
    exists|i: int|
        0 <= i && i + 4 <= b.len() && #[trigger] b[i] == 13 && b[i + 1] == 10 && b[i + 2] == 13 && b[i + 3] == 10
}

/// Whether the head of a request is complete.
pub fn head_complete(b: &[u8]) -> (r: bool)
    ensures
        r == head_ends(b@),
{
    if b.len() < 4 {
        return false;
    }
    let mut i: usize = 0;
    while i <= b.len() - 4
        invariant
            i <= b@.len() - 3,
            b.len() >= 4,
            b@.len() == b.len(),
            forall|k: int| 0 <= k < i ==> !(#[trigger] b@[k] == 13 && b@[k + 1] == 10 && b@[k + 2] == 13 && b@[k + 3] == 10),
        decreases b@.len() - i,
    {
        if b[i] == 13 && b[i + 1] == 10 && b[i + 2] == 13 && b[i + 3] == 10 {
            return true;
        }
        i = i + 1;
    }
    false
}

/// The lines of a text from a position on. A carriage return before the end of a
/// line belongs to the end.
pub open spec fn lines_from(s: Seq<char>, from: int) -> Seq<Seq<char>>
    decreases s.len() - from,
    when 0 <= from
    via lines_decreases
{
    let e = position(s, '\n', from);
    if from >= s.len() {
        Seq::empty()
    } else if e >= s.len() {
        seq![s.subrange(from, s.len() as int)]
    } else {
        seq![crate::roku_remote::line_text(s.subrange(from, e))] + lines_from(s, e + 1)
    }
}

#[via_fn]
proof fn lines_decreases(s: Seq<char>, from: int) {
    if from < s.len() {
        crate::text::lemma_position(s, '\n', from);
    }
}

/// The lines of a text.
pub fn text_lines(s: &[char]) -> (r: Vec<Vec<char>>)
    ensures
        views(r@) == lines_from(s@, 0),
{
    let mut out: Vec<Vec<char>> = Vec::new();
    let mut from: usize = 0;
    proof {
        assert(views(out@) + lines_from(s@, 0) =~= lines_from(s@, 0));
    }
    while from < s.len()
        invariant
            from <= s@.len(),
            s@.len() == s.len(),
            views(out@) + lines_from(s@, from as int) == lines_from(s@, 0),
        decreases s@.len() - from,
    {
        let ghost before = views(out@);
        let e: usize = crate::text::find_char(s, '\n', from);
        if e >= s.len() {
            let l = copy_range(s, from, s.len());
            out.push(l);
            proof {
                assert(views(out@) =~= before.push(l@));
                assert(before + seq![l@] =~= before.push(l@));
                assert(lines_from(s@, s@.len() as int) =~= Seq::<Seq<char>>::empty());
                assert(views(out@) + lines_from(s@, s@.len() as int) =~= views(out@));
            }
            from = s.len();
        } else {
            let end: usize = if e > from && s[e - 1] == '\r' {
                e - 1
            } else {
                e
            };
            let l = copy_range(s, from, end);
            out.push(l);
            proof {
                assert(l@ =~= crate::roku_remote::line_text(s@.subrange(from as int, e as int)));
                assert(views(out@) =~= before.push(l@));
                assert(before + (seq![l@] + lines_from(s@, e + 1)) =~= before.push(l@) + lines_from(s@, e + 1));
            }
            from = e + 1;
        }
    }
    proof {
        assert(lines_from(s@, from as int) =~= Seq::<Seq<char>>::empty());
        assert(views(out@) + Seq::<Seq<char>>::empty() =~= views(out@));
    }
    out
}

/// The word that starts at or behind a position, and where it ends.
pub open spec fn word_at(s: Seq<char>, i: int) -> (Seq<char>, int) {
    let a = crate::roku::word_start(s, i);
    let b = crate::roku::word_end(s, a);
    (s.subrange(a, b), b)
}

fn read_word(s: &[char], from: usize) -> (r: (Vec<char>, usize))
    requires
        from <= s.len(),
    ensures
        (r.0@, r.1 as int) == word_at(s@, from as int),
        r.1 <= s.len(),
{
    let mut a: usize = from;
    while a < s.len() && space(s[a])
        invariant
            from <= a <= s.len(),
            crate::roku::word_start(s@, from as int) == crate::roku::word_start(s@, a as int),
        decreases s.len() - a,
    {
        a = a + 1;
    }
    let mut b: usize = a;
    while b < s.len() && !space(s[b])
        invariant
            a <= b <= s.len(),
            crate::roku::word_end(s@, a as int) == crate::roku::word_end(s@, b as int),
        decreases s.len() - b,
    {
        b = b + 1;
    }
    (copy_range(s, a, b), b)
}

/// The value of the header with a name in lines from the i-th on.
pub open spec fn header_from(lines: Seq<Seq<char>>, name: Seq<char>, i: int) -> Option<Seq<char>>
    decreases lines.len() - i,
{
    if i >= lines.len() {
        None
    } else {
        match parted(lines[i], ':') {
            Some((k, v)) => if same_ignoring_case(trim(k), name) {
                Some(trim(v))
            } else {
                header_from(lines, name, i + 1)
            },
            None => header_from(lines, name, i + 1),
        }
    }
}

/// What is asked for.
#[derive(Debug)]
pub struct Request {
    pub method: String,
    pub target: String,
    pub range: Option<String>,
}

pub struct RequestModel {
    pub method: Seq<char>,
    pub target: Seq<char>,
    pub range: Option<Seq<char>>,
}

impl Request {
    pub open spec fn model(self) -> RequestModel {
        RequestModel { method: self.method@, target: self.target@, range: opt(self.range) }
    }
}

/// What the head of a request asks for: the first two words of its first line, and
/// the range in the lines behind it.
pub open spec fn request_in(head: Seq<char>) -> RequestModel {
    let lines = lines_from(head, 0);
    let first = if lines.len() > 0 {
        lines[0]
    } else {
        Seq::empty()
    };
    let (method, n) = word_at(first, 0);
    RequestModel { method, target: word_at(first, n).0, range: header_from(lines, "range"@, 1) }
}

/// What the head of a request asks for.
pub fn parse_request(head: &str) -> (r: Request)
    ensures
        r.model() == request_in(head@),
{
    let c = chars_of(head);
    let lines = text_lines(c.as_slice());
    let ghost m = views(lines@);
    proof {
        assert(m.len() == lines@.len());
    }
    let first: Vec<char> = if lines.len() > 0 {
        copy_range(lines[0].as_slice(), 0, lines[0].len())
    } else {
        Vec::new()
    };
    proof {
        if lines@.len() > 0 {
            assert(m[0] == lines@[0]@);
            assert(first@ =~= m[0]);
        }
    }
    let (method, n) = read_word(first.as_slice(), 0);
    let (target, _) = read_word(first.as_slice(), n);
    let name = chars_of("range");
    let mut range: Option<String> = None;
    let mut i: usize = 1;
    while i < lines.len() && range.is_none()
        invariant
            1 <= i,
            m == views(lines@),
            m.len() == lines@.len(),
            name@ == "range"@,
            match range {
                Some(v) => header_from(m, name@, 1) == Some(v@),
                None => header_from(m, name@, 1) == header_from(m, name@, i as int),
            },
        decreases lines@.len() - i,
    {
        proof {
            assert(m[i as int] == lines@[i as int]@);
        }
        match part_at(lines[i].as_slice(), ':') {
            Some((k, v)) => {
                let t = trimmed(k.as_slice());
                if same_text_ignoring_case(t.as_slice(), name.as_slice()) {
                    let u = trimmed(v.as_slice());
                    range = Some(string_of(u.as_slice()));
                }
            },
            None => {},
        }
        i = i + 1;
    }
    Request { method: string_of(method.as_slice()), target: string_of(target.as_slice()), range }
}

/// What the bytes of the head of a request ask for.
pub fn read_request(head: &[u8]) -> (r: Request)
    ensures
        r.model() == request_in(text_of(head@)),
{
    parse_request(lossy_text(head).as_str())
}

/// The token in what is asked for.
pub open spec fn token_in(target: Seq<char>) -> Seq<char> {
    match after_start(target, "/v/"@) {
        Some(rest) => rest.take(position(rest, '/', 0)),
        None => Seq::empty(),
    }
}

/// The token in what is asked for.
pub fn token_of(target: &str) -> (r: String)
    ensures
        r@ == token_in(target@),
{
    match strip_start_text(target, "/v/") {
        Some(rest) => {
            let c = chars_of(rest.as_str());
            let n: usize = crate::text::find_char(c.as_slice(), '/', 0);
            let t = copy_range(c.as_slice(), 0, n);
            proof {
                assert(t@ =~= rest@.take(n as int));
            }
            string_of(t.as_slice())
        },
        None => String::new(),
    }
}

/// The file that a request gets: one that is shared with the device, and only to be
/// read.
pub open spec fn file_for(files: Seq<(String, Shared)>, r: RequestModel, peer: Seq<char>, now: int) -> Option<Seq<char>> {
    if r.method == "GET"@ || r.method == "HEAD"@ {
        served(files, token_in(r.target), peer, now)
    } else {
        None
    }
}

/// The file that a request gets.
pub fn find_file(files: &Vec<(String, Shared)>, req: &Request, peer: &str, now: i64) -> (r: Option<String>)
    ensures
        opt(r) == file_for(files@, req.model(), peer@, now as int),
{
    if !(str_same(req.method.as_str(), "GET") || str_same(req.method.as_str(), "HEAD")) {
        return None;
    }
    let token = token_of(req.target.as_str());
    find_shared(files, token.as_str(), peer, now)
}

/// The address of a picture of the calendar, or of all of them where the name is empty.
pub fn live_url(ip: &str, port: u16, token: &str, name: &str) -> (r: String)
    ensures
        r@ == "http://"@ + ip@ + ":"@ + decimal(port as int) + "/live/"@ + token@ + "/"@ + name@,
{
    let n = string_of(decimal_text(port as u64).as_slice());
    "http://".to_string().concat(ip).concat(":").concat(n.as_str()).concat("/live/").concat(token).concat("/").concat(
        name,
    )
}

/// The picture of the calendar that a request gets: it comes from a device that may have
/// them, and gives the token and the name of a picture.
pub open spec fn picture_for(token: Seq<char>, allowed: Seq<String>, r: RequestModel, peer: Seq<char>) -> Option<
    Seq<char>,
> {
    let path = r.target.take(position(r.target, '?', 0));
    if r.method == "GET"@ || r.method == "HEAD"@ {
        match after_start(path, "/live/"@) {
            Some(rest) => match parted(rest, '/') {
                Some((t, name)) => if t == token && has_id(allowed, peer) && is_served(name) {
                    Some(name)
                } else {
                    None
                },
                None => None,
            },
            None => None,
        }
    } else {
        None
    }
}

/// The picture of the calendar that a request gets.
pub fn find_picture(token: &str, allowed: &Vec<String>, req: &Request, peer: &str) -> (r: Option<String>)
    ensures
        opt(r) == picture_for(token@, allowed@, req.model(), peer@),
{
    if !(str_same(req.method.as_str(), "GET") || str_same(req.method.as_str(), "HEAD")) {
        return None;
    }
    let c = chars_of(req.target.as_str());
    let n: usize = crate::text::find_char(c.as_slice(), '?', 0);
    let p = copy_range(c.as_slice(), 0, n);
    proof {
        assert(p@ =~= req.target@.take(n as int));
    }
    let path = string_of(p.as_slice());
    match strip_start_text(path.as_str(), "/live/") {
        Some(rest) => {
            let v = chars_of(rest.as_str());
            match part_at(v.as_slice(), '/') {
                Some((t, name)) => {
                    let file = string_of(name.as_slice());
                    if is_str(t.as_slice(), token) && holds_id(allowed, peer) && is_served_name(file.as_str()) {
                        Some(file)
                    } else {
                        None
                    }
                },
                None => None,
            }
        },
        None => None,
    }
}

proof fn lemma_first_at(a: Seq<char>, c: char, b: Seq<char>)
    requires
        !a.contains(c),
    ensures
        position(a + seq![c] + b, c, 0) == a.len(),
        position(a, c, 0) == a.len(),
{
    let s = a + seq![c] + b;
    crate::text::lemma_position(s, c, 0);
    crate::text::lemma_position(a, c, 0);
    let i = position(s, c, 0);
    assert(s[a.len() as int] == c);
    if i < a.len() {
        assert(a[i] == c);
    }
    let k = position(a, c, 0);
    if k < a.len() {
        assert(a[k] == c);
    }
}

/// The address of a shared file leads back to the token it is shared under, whatever
/// the file is called.
pub proof fn law_shared_address_leads_back(token: Seq<char>, name: Seq<char>)
    requires
        !token.contains('/'),
    ensures
        token_in("/v/"@ + token + "/"@ + name) == token,
{
    reveal_strlit("/v/");
    reveal_strlit("/");
    let target = "/v/"@ + token + "/"@ + name;
    let rest = token + seq!['/'] + name;
    assert("/"@ =~= seq!['/']);
    assert(target =~= "/v/"@ + rest);
    assert(target.take(3) =~= "/v/"@);
    assert(target.skip(3) =~= rest);
    lemma_first_at(token, '/', name);
    assert(rest.take(token.len() as int) =~= token);
}

/// The address of a picture of the calendar leads to the picture, for the devices that
/// may have it.
pub proof fn law_live_address_leads_to_the_picture(
    token: Seq<char>,
    name: Seq<char>,
    allowed: Seq<String>,
    peer: Seq<char>,
    range: Option<Seq<char>>,
)
    requires
        !token.contains('/'),
        !token.contains('?'),
        is_served(name),
        has_id(allowed, peer),
    ensures
        picture_for(
            token,
            allowed,
            (RequestModel { method: "GET"@, target: "/live/"@ + token + "/"@ + name, range }),
            peer,
        ) == Some(name),
{
    reveal_strlit("/live/");
    reveal_strlit("/");
    let target = "/live/"@ + token + "/"@ + name;
    let rest = token + seq!['/'] + name;
    assert("/"@ =~= seq!['/']);
    assert(target =~= "/live/"@ + rest);
    assert(!target.contains('?')) by {
        if target.contains('?') {
            let i = choose|i: int| 0 <= i < target.len() && target[i] == '?';
            if i >= 6 && i < 6 + token.len() {
                assert(token[i - 6] == '?');
            } else if i > 6 + token.len() {
                assert(name[i - 7 - token.len()] == '?');
                law_served_names_stay_inside(name, i - 7 - token.len());
            }
        }
    }
    lemma_first_at(target, '?', Seq::empty());
    assert(target.take(target.len() as int) =~= target);
    assert(target.take(6) =~= "/live/"@);
    assert(target.skip(6) =~= rest);
    lemma_first_at(token, '/', name);
    assert(rest.take(token.len() as int) =~= token);
    assert(rest.skip(token.len() as int + 1) =~= name);
}

// ---------------------------------------------------------------------------
// Ranges
// ---------------------------------------------------------------------------

/// The part of a file that is sent.
#[derive(Clone, Copy, Debug, PartialEq, Eq, Structural)]
pub enum Pick {
    Whole,
    /// From the first to the last byte.
    Part(u64, u64),
    /// Nothing of the file is in the range.
    Outside,
}

/// A number in a range.
pub open spec fn range_number(s: Seq<char>) -> Option<int> {
    within(parse_nat(s), 0, u64::MAX as int)
}

/// The last byte of a file.
pub open spec fn last_byte(size: int) -> int {
    if size > 0 {
        size - 1
    } else {
        0
    }
}

/// The part of a file of a size that a range names: from one byte to another, from
/// one to the end, or the last so many.
pub open spec fn picked(range: Option<Seq<char>>, size: int) -> Pick {
    let parts = match range {
        Some(r) => match after_start(r, "bytes="@) {
            Some(x) => parted(x, '-'),
            None => None,
        },
        None => None,
    };
    match parts {
        None => Pick::Whole,
        Some((a, b)) => {
            let start = if a.len() == 0 {
                let n = match range_number(b) {
                    Some(n) => n,
                    None => 0,
                };
                if n < size {
                    size - n
                } else {
                    0
                }
            } else {
                match range_number(a) {
                    Some(n) => n,
                    None => 0,
                }
            };
            let end = if a.len() == 0 {
                last_byte(size)
            } else {
                match range_number(b) {
                    Some(n) => if n < last_byte(size) {
                        n
                    } else {
                        last_byte(size)
                    },
                    None => last_byte(size),
                }
            };
            if start >= size || start > end {
                Pick::Outside
            } else {
                Pick::Part(start as u64, end as u64)
            }
        },
    }
}

/// The part of a file that a range names.
pub fn pick_range(range: &Option<String>, size: u64) -> (r: Pick)
    ensures
        r == picked(opt(*range), size as int),
        r matches Pick::Part(a, b) ==> a <= b < size,
{
    let text = match range {
        Some(t) => match strip_start_text(t.as_str(), "bytes=") {
            Some(x) => chars_of(x.as_str()),
            None => {
                return Pick::Whole;
            },
        },
        None => {
            return Pick::Whole;
        },
    };
    let (a, b) = match part_at(text.as_slice(), '-') {
        Some(p) => p,
        None => {
            return Pick::Whole;
        },
    };
    let last: u64 = if size > 0 {
        size - 1
    } else {
        0
    };
    let mut start: u64 = 0;
    let mut end: u64 = last;
    if a.len() == 0 {
        let n: u64 = match parse_unsigned(b.as_slice(), u64::MAX) {
            Some(n) => n,
            None => 0,
        };
        start = if n < size {
            size - n
        } else {
            0
        };
    } else {
        start = match parse_unsigned(a.as_slice(), u64::MAX) {
            Some(n) => n,
            None => 0,
        };
        match parse_unsigned(b.as_slice(), u64::MAX) {
            Some(n) => {
                if n < last {
                    end = n;
                }
            },
            None => {},
        }
    }
    if start >= size || start > end {
        Pick::Outside
    } else {
        Pick::Part(start, end)
    }
}

/// How many bytes are sent.
pub open spec fn body_length(p: Pick, size: int) -> int {
    match p {
        Pick::Whole => size,
        Pick::Part(a, b) => b - a + 1,
        Pick::Outside => 0,
    }
}

/// The head of the answer for a file that is not there for the device.
pub fn not_found() -> (r: &'static str)
    ensures
        r@ == "HTTP/1.1 404 Not Found\r\nContent-Length: 0\r\nConnection: close\r\n\r\n"@,
{
    "HTTP/1.1 404 Not Found\r\nContent-Length: 0\r\nConnection: close\r\n\r\n"
}

/// The lines of an answer that say what is sent.
pub open spec fn head_end(kind: Seq<char>, length: int) -> Seq<char> {
    "Content-Type: "@ + kind + "\r\nContent-Length: "@ + decimal(length)
        + "\r\nAccept-Ranges: bytes\r\nAccess-Control-Allow-Origin: *\r\nConnection: close\r\n\r\n"@
}

/// The head of the answer for a part of a file.
pub open spec fn head_for(p: Pick, size: int, kind: Seq<char>) -> Seq<char> {
    match p {
        Pick::Outside => "HTTP/1.1 416 Range Not Satisfiable\r\nContent-Range: bytes */"@ + decimal(size)
            + "\r\nContent-Length: 0\r\nConnection: close\r\n\r\n"@,
        Pick::Part(a, b) => "HTTP/1.1 206 Partial Content\r\nContent-Range: bytes "@ + decimal(a as int) + "-"@ + decimal(
            b as int,
        ) + "/"@ + decimal(size) + "\r\n"@ + head_end(kind, b - a + 1),
        Pick::Whole => "HTTP/1.1 200 OK\r\n"@ + head_end(kind, size),
    }
}

fn number_text(n: u64) -> (r: String)
    ensures
        r@ == decimal(n as int),
{
    string_of(decimal_text(n).as_slice())
}

fn end_text(kind: &str, length: u64) -> (r: String)
    ensures
        r@ == head_end(kind@, length as int),
{
    let n = number_text(length);
    "Content-Type: ".to_string().concat(kind).concat("\r\nContent-Length: ").concat(n.as_str()).concat(
        "\r\nAccept-Ranges: bytes\r\nAccess-Control-Allow-Origin: *\r\nConnection: close\r\n\r\n",
    )
}

/// The head of the answer for a part of a file.
pub fn response_head(p: Pick, size: u64, path: &str) -> (r: String)
    requires
        p matches Pick::Part(a, b) ==> a <= b < size,
    ensures
        r@ == head_for(p, size as int, type_of(small_ending(path@))),
{
    let kind = content_type(path);
    let s = number_text(size);
    match p {
        Pick::Outside => "HTTP/1.1 416 Range Not Satisfiable\r\nContent-Range: bytes */".to_string().concat(
            s.as_str(),
        ).concat("\r\nContent-Length: 0\r\nConnection: close\r\n\r\n"),
        Pick::Part(a, b) => {
            let x = number_text(a);
            let y = number_text(b);
            let e = end_text(kind, b - a + 1);
            "HTTP/1.1 206 Partial Content\r\nContent-Range: bytes ".to_string().concat(x.as_str()).concat("-").concat(
                y.as_str(),
            ).concat("/").concat(s.as_str()).concat("\r\n").concat(e.as_str())
        },
        Pick::Whole => {
            let e = end_text(kind, size);
            "HTTP/1.1 200 OK\r\n".to_string().concat(e.as_str())
        },
    }
}

/// Where the bytes that are sent start and how many they are. Who asks for the head
/// alone is sent none.
pub fn body_span(p: Pick, size: u64, method: &str) -> (r: (u64, u64))
    requires
        p matches Pick::Part(a, b) ==> a <= b < size,
    ensures
        r.1 == (if method@ == "HEAD"@ {
            0
        } else {
            body_length(p, size as int)
        }),
        r.0 == (match p {
            Pick::Part(a, _) => a as int,
            _ => 0,
        }),
        r.0 + r.1 <= size,
{
    let start: u64 = match p {
        Pick::Part(a, _) => a,
        _ => 0,
    };
    if str_same(method, "HEAD") {
        return (start, 0);
    }
    match p {
        Pick::Whole => (0, size),
        Pick::Part(a, b) => (a, b - a + 1),
        Pick::Outside => (0, 0),
    }
}

/// A range that is answered lies within the file, and a file of no bytes has none.
pub proof fn law_range_within(range: Option<Seq<char>>, size: int)
    requires
        0 <= size <= u64::MAX,
    ensures
        picked(range, size) matches Pick::Part(a, b) ==> a <= b < size && 0 < body_length(picked(range, size), size)
            <= size,
        size == 0 ==> !(picked(range, size) is Part),
{
}

// ---------------------------------------------------------------------------
// Subtitles
// ---------------------------------------------------------------------------

/// A line of subtitles: times are written with points in place of commas.
pub open spec fn vtt_line(line: Seq<char>) -> Seq<char> {
    if contains(line, "-->"@) {
        replace_char(line, ',', '.')
    } else {
        line
    }
}

/// The first `n` lines of subtitles.
pub open spec fn vtt_lines(lines: Seq<Seq<char>>, n: int) -> Seq<char>
    decreases n,
{
    if n <= 0 {
        "WEBVTT\n\n"@
    } else {
        vtt_lines(lines, n - 1) + vtt_line(lines[n - 1]).push('\n')
    }
}

/// Text without byte order marks at its start.
pub open spec fn without_marks(s: Seq<char>) -> Seq<char> {
    crate::text::strip_start(s, '\u{feff}')
}

/// Subtitles in the form that Cast devices show.
pub open spec fn as_vtt(text: Seq<char>) -> Seq<char> {
    let lines = lines_from(without_marks(text), 0);
    vtt_lines(lines, lines.len() as int)
}

/// Subtitles in the form that Cast devices show, from those of the older form.
pub fn srt_to_vtt(text: &str) -> (r: String)
    ensures
        r@ == as_vtt(text@),
{
    let c = chars_of(text);
    let a: usize = crate::text::skip_char(c.as_slice(), '\u{feff}');
    let rest = copy_range(c.as_slice(), a, c.len());
    proof {
        assert(rest@ =~= without_marks(text@));
    }
    let lines = text_lines(rest.as_slice());
    let ghost m = views(lines@);
    let arrow = chars_of("-->");
    let mut out = chars_of("WEBVTT\n\n");
    let mut i: usize = 0;
    while i < lines.len()
        invariant
            i <= lines@.len(),
            m == views(lines@),
            arrow@ == "-->"@,
            out@ == vtt_lines(m, i as int),
        decreases lines@.len() - i,
    {
        proof {
            assert(m[i as int] == lines@[i as int]@);
        }
        let ghost before = out@;
        let mut l: Vec<char> = if contains_text(lines[i].as_slice(), arrow.as_slice()) {
            replaced_char(lines[i].as_slice(), ',', '.')
        } else {
            copy_range(lines[i].as_slice(), 0, lines[i].len())
        };
        proof {
            assert(l@ =~= vtt_line(m[i as int]));
        }
        l.push('\n');
        out.append(&mut l);
        i = i + 1;
    }
    proof {
        assert(m.len() == lines@.len());
    }
    string_of(out.as_slice())
}

/// Whether subtitles have that form already.
pub fn is_vtt(path: &str) -> (r: bool)
    ensures
        r == (small_ending(path@) == Some("vtt"@)),
{
    match find_small_ending(path) {
        Some(e) => is_str(e.as_slice(), "vtt"),
        None => false,
    }
}

// ---------------------------------------------------------------------------
// Names in addresses
// ---------------------------------------------------------------------------

proof fn lemma_quoted_prefix(b: Seq<u8>, i: int, n: int)
    requires
        0 <= i <= n <= b.len(),
    ensures
        quoted_first(b, i).len() <= quoted_first(b, n).len(),
        quoted_first(b, n).take(quoted_first(b, i).len() as int) == quoted_first(b, i),
    decreases n - i,
{
    if i < n {
        lemma_quoted_prefix(b, i, n - 1);
        let a = quoted_first(b, i);
        let m = quoted_first(b, n - 1);
        assert(quoted_first(b, n).take(a.len() as int) =~= m.take(a.len() as int));
    } else {
        assert(quoted_first(b, n).take(quoted_first(b, n).len() as int) =~= quoted_first(b, n));
    }
}

proof fn lemma_hex_digit_back(x: int)
    requires
        0 <= x < 16,
    ensures
        crate::bytes::hex_value(crate::bytes::hex_char(x, true) as u8) == Some(x),
        '\0' <= crate::bytes::hex_char(x, true) <= '\u{7f}',
{
}

proof fn lemma_quoted_ascii(b: Seq<u8>, n: int)
    requires
        0 <= n <= b.len(),
    ensures
        forall|i: int|
            0 <= i < quoted_first(b, n).len() ==> '\0' <= (#[trigger] quoted_first(b, n)[i]) <= '\u{7f}',
    decreases n,
{
    if n > 0 {
        lemma_quoted_ascii(b, n - 1);
        lemma_hex_digit_back(b[n - 1] as int / 16);
        lemma_hex_digit_back(b[n - 1] as int % 16);
        let before = quoted_first(b, n - 1);
        let all = quoted_first(b, n);
        assert forall|i: int| 0 <= i < all.len() implies '\0' <= (#[trigger] all[i]) <= '\u{7f}' by {
            if i < before.len() {
                assert(all[i] == before[i]);
            }
        }
    }
}

proof fn lemma_decoded_from(b: Seq<u8>, z: Seq<u8>, i: int)
    requires
        0 <= i <= b.len(),
        z.len() == quoted_first(b, b.len() as int).len(),
        forall|k: int| 0 <= k < z.len() ==> #[trigger] z[k] == quoted_first(b, b.len() as int)[k] as u8,
    ensures
        percent_decoded(z, quoted_first(b, i).len() as int) == b.skip(i),
    decreases b.len() - i,
{
    let n = b.len() as int;
    let all = quoted_first(b, n);
    lemma_quoted_prefix(b, i, n);
    if i == n {
        assert(b.skip(n) =~= Seq::<u8>::empty());
    } else {
        lemma_decoded_from(b, z, i + 1);
        lemma_quoted_prefix(b, i + 1, n);
        let here = quoted_first(b, i);
        let next = quoted_first(b, i + 1);
        let p = here.len() as int;
        let x = b[i];
        assert(next == all.take(next.len() as int));
        assert(all[p] == next[p]);
        assert(b.skip(i) =~= seq![x] + b.skip(i + 1));
        if crate::roku_player::is_plain_byte(x) {
            assert(next[p] == x as char);
            assert(z[p] == x);
        } else {
            assert(next[p] == '%');
            assert(next[p + 1] == crate::bytes::hex_char(x as int / 16, true));
            assert(next[p + 2] == crate::bytes::hex_char(x as int % 16, true));
            assert(all[p + 1] == next[p + 1] && all[p + 2] == next[p + 2]);
            lemma_hex_digit_back(x as int / 16);
            lemma_hex_digit_back(x as int % 16);
            assert(crate::bytes::hex_pair(z[p + 1], z[p + 2]) == Some(x as int));
        }
    }
}

/// A name that was written into an address is read back from it.
pub proof fn law_quoted_round_trip(s: Seq<char>)
    ensures
        percent_text(quoted(s)) == s,
{
    let b = encode_utf8(s);
    let c = quoted(s);
    lemma_quoted_ascii(b, b.len() as int);
    assert forall|i: int| 0 <= i < c.len() implies '\0' <= #[trigger] c[i] <= '\u{7f}' by {
        assert('\0' <= quoted_first(b, b.len() as int)[i] <= '\u{7f}');
    }
    vstd::utf8::is_ascii_chars_encode_utf8(c);
    lemma_decoded_from(b, encode_utf8(c), 0);
    assert(b.skip(0) =~= b);
    vstd::utf8::encode_utf8_valid_utf8(s);
    vstd::utf8::encode_utf8_decode_utf8(s);
}

// ---------------------------------------------------------------------------
// What devices are given
// ---------------------------------------------------------------------------

/// What each ending of a file's name says of the file.
pub proof fn law_endings_and_their_types(e: Seq<char>)
    ensures
        e == "mp4"@ ==> type_of(Some(e)) == "video/mp4"@,
        e == "m4v"@ ==> type_of(Some(e)) == "video/mp4"@,
        e == "mkv"@ ==> type_of(Some(e)) == "video/x-matroska"@,
        e == "mov"@ ==> type_of(Some(e)) == "video/quicktime"@,
        e == "webm"@ ==> type_of(Some(e)) == "video/webm"@,
        e == "ts"@ ==> type_of(Some(e)) == "video/mp2t"@,
        e == "mp3"@ ==> type_of(Some(e)) == "audio/mpeg"@,
        e == "m4a"@ ==> type_of(Some(e)) == "audio/mp4"@,
        e == "aac"@ ==> type_of(Some(e)) == "audio/aac"@,
        e == "flac"@ ==> type_of(Some(e)) == "audio/flac"@,
        e == "wav"@ ==> type_of(Some(e)) == "audio/wav"@,
        e == "ogg"@ ==> type_of(Some(e)) == "audio/ogg"@,
        e == "opus"@ ==> type_of(Some(e)) == "audio/ogg"@,
        e == "m3u8"@ ==> type_of(Some(e)) == "application/x-mpegURL"@,
        e == "srt"@ ==> type_of(Some(e)) == "application/x-subrip"@,
        e == "vtt"@ ==> type_of(Some(e)) == "text/vtt"@,
{
    reveal_strlit("mp4");
    reveal_strlit("m4v");
    reveal_strlit("mkv");
    reveal_strlit("mov");
    reveal_strlit("webm");
    reveal_strlit("ts");
    reveal_strlit("mp3");
    reveal_strlit("m4a");
    reveal_strlit("aac");
    reveal_strlit("flac");
    reveal_strlit("wav");
    reveal_strlit("ogg");
    reveal_strlit("opus");
    reveal_strlit("m3u8");
    reveal_strlit("srt");
    reveal_strlit("vtt");
    assert("mp4"@.len() == 3 && "mp4"@[0] == 'm' && "mp4"@[1] == 'p' && "mp4"@[2] == '4');
    assert("m4v"@.len() == 3 && "m4v"@[0] == 'm' && "m4v"@[1] == '4' && "m4v"@[2] == 'v');
    assert("mkv"@.len() == 3 && "mkv"@[0] == 'm' && "mkv"@[1] == 'k' && "mkv"@[2] == 'v');
    assert("mov"@.len() == 3 && "mov"@[0] == 'm' && "mov"@[1] == 'o' && "mov"@[2] == 'v');
    assert("webm"@.len() == 4 && "webm"@[0] == 'w' && "webm"@[1] == 'e' && "webm"@[2] == 'b' && "webm"@[3] == 'm');
    assert("ts"@.len() == 2 && "ts"@[0] == 't' && "ts"@[1] == 's');
    assert("mp3"@.len() == 3 && "mp3"@[0] == 'm' && "mp3"@[1] == 'p' && "mp3"@[2] == '3');
    assert("m4a"@.len() == 3 && "m4a"@[0] == 'm' && "m4a"@[1] == '4' && "m4a"@[2] == 'a');
    assert("aac"@.len() == 3 && "aac"@[0] == 'a' && "aac"@[1] == 'a' && "aac"@[2] == 'c');
    assert("flac"@.len() == 4 && "flac"@[0] == 'f' && "flac"@[1] == 'l' && "flac"@[2] == 'a' && "flac"@[3] == 'c');
    assert("wav"@.len() == 3 && "wav"@[0] == 'w' && "wav"@[1] == 'a' && "wav"@[2] == 'v');
    assert("ogg"@.len() == 3 && "ogg"@[0] == 'o' && "ogg"@[1] == 'g' && "ogg"@[2] == 'g');
    assert("opus"@.len() == 4 && "opus"@[0] == 'o' && "opus"@[1] == 'p' && "opus"@[2] == 'u' && "opus"@[3] == 's');
    assert("m3u8"@.len() == 4 && "m3u8"@[0] == 'm' && "m3u8"@[1] == '3' && "m3u8"@[2] == 'u' && "m3u8"@[3] == '8');
    assert("srt"@.len() == 3 && "srt"@[0] == 's' && "srt"@[1] == 'r' && "srt"@[2] == 't');
    assert("vtt"@.len() == 3 && "vtt"@[0] == 'v' && "vtt"@[1] == 't' && "vtt"@[2] == 't');
}

/// A file is given to nobody but the device it was shared with, and for twelve hours from
/// then on.
pub proof fn law_a_share_lasts_twelve_hours(
    files: Seq<(String, Shared)>,
    token: Seq<char>,
    path: Seq<char>,
    allowed: Seq<char>,
    peer: Seq<char>,
    at: int,
    now: int,
)
    requires
        shared_under(files, token) == Some(SharedModel { path, allowed, expires: at + SHARE_LIFETIME_MS }),
    ensures
        served(files, token, peer, now) is Some <==> peer == allowed && now < at + 12 * 60 * 60 * 1_000,
        served(files, token, peer, now) matches Some(p) ==> p == path,
{
}

/// Only what asks to read is answered with a file or a picture.
pub proof fn law_only_reading_is_answered(
    files: Seq<(String, Shared)>,
    token: Seq<char>,
    allowed: Seq<String>,
    r: RequestModel,
    peer: Seq<char>,
    now: int,
)
    ensures
        r.method != "GET"@ && r.method != "HEAD"@ ==> file_for(files, r, peer, now) is None && picture_for(
            token,
            allowed,
            r,
            peer,
        ) is None,
        r.method == "GET"@ || r.method == "HEAD"@ ==> file_for(files, r, peer, now) == served(
            files,
            token_in(r.target),
            peer,
            now,
        ),
        picture_for(token, allowed, r, peer) is Some ==> has_id(allowed, peer),
{
}

proof fn lemma_no_such(s: Seq<char>, rest: Seq<char>, c: char, i: int)
    requires
        0 <= i <= s.len(),
        !s.contains(c),
    ensures
        position(s.push(c) + rest, c, i) == s.len(),
    decreases s.len() - i,
{
    let t = s.push(c) + rest;
    if i < s.len() {
        assert(t[i] == s[i]);
        assert(s.contains(s[i]));
        lemma_no_such(s, rest, c, i + 1);
    } else {
        assert(t[i] == c);
    }
}

proof fn lemma_no_hyphen(s: Seq<char>)
    requires
        crate::text::all_digits(s),
    ensures
        !s.contains('-'),
{
    if s.contains('-') {
        let i = s.index_of('-');
        assert(crate::text::is_digit(s[i]));
    }
}

proof fn lemma_range(a: Seq<char>, b: Seq<char>)
    requires
        crate::text::all_digits(a),
    ensures
        after_start("bytes="@ + a + "-"@ + b, "bytes="@) == Some(a + "-"@ + b),
        parted(a + "-"@ + b, '-') == Some((a, b)),
{
    reveal_strlit("bytes=");
    reveal_strlit("-");
    let whole = "bytes="@ + a + "-"@ + b;
    let x = a + "-"@ + b;
    assert(whole.subrange(0, 6) =~= "bytes="@);
    assert(whole.skip(6) =~= x);
    lemma_no_hyphen(a);
    lemma_no_such(a, b, '-', 0);
    assert(a.push('-') + b =~= x);
    assert(x.take(a.len() as int) =~= a);
    assert(x.skip(a.len() as int + 1) =~= b);
}

/// A request for the bytes from one to another, both counted in, is answered with those, as
/// far as the file reaches; without an end with all from the first on; and without a start
/// with as many from the end. A start behind the file is refused, and without a range the
/// whole file is given.
pub proof fn law_the_bytes_asked_for(a: int, b: int, size: int)
    requires
        0 <= a <= u64::MAX,
        0 <= b <= u64::MAX,
        0 < size <= u64::MAX,
    ensures
        picked(None, size) is Whole,
        ({
            let p = picked(Some("bytes="@ + decimal(a) + "-"@ + decimal(b)), size);
            &&& a < size && a <= b ==> p == Pick::Part(
                a as u64,
                (if b < size {
                    b
                } else {
                    size - 1
                }) as u64,
            )
            &&& a >= size || a > b ==> p is Outside
        }),
        ({
            let p = picked(Some("bytes="@ + decimal(a) + "-"@ + Seq::<char>::empty()), size);
            &&& a < size ==> p == Pick::Part(a as u64, (size - 1) as u64)
            &&& a >= size ==> p is Outside
        }),
        ({
            let p = picked(Some("bytes="@ + Seq::<char>::empty() + "-"@ + decimal(b)), size);
            &&& 0 < b <= size ==> p == Pick::Part((size - b) as u64, (size - 1) as u64)
            &&& b > size ==> p == Pick::Part(0, (size - 1) as u64)
            &&& b == 0 ==> p is Outside
        }),
{
    crate::text::law_decimal_round_trip(a);
    crate::text::law_decimal_round_trip(b);
    lemma_range(decimal(a), decimal(b));
    lemma_range(decimal(a), Seq::empty());
    lemma_range(Seq::empty(), decimal(b));
    assert(crate::text::parse_nat(Seq::<char>::empty()) is None);
}

/// A part of a file has the bytes from the first to the last, both counted in.
pub proof fn law_the_length_of_an_answer(a: u64, b: u64, size: int)
    requires
        a <= b,
    ensures
        body_length(Pick::Whole, size) == size,
        body_length(Pick::Part(a, b), size) == b - a + 1,
        body_length(Pick::Outside, size) == 0,
{
}

/// Subtitles keep every line; in those that say when, and in no other, the commas become
/// points.
pub proof fn law_subtitles_keep_their_lines(line: Seq<char>, i: int)
    requires
        0 <= i < line.len(),
    ensures
        vtt_line(line).len() == line.len(),
        !contains(line, "-->"@) ==> vtt_line(line) == line,
        contains(line, "-->"@) ==> vtt_line(line)[i] == (if line[i] == ',' {
            '.'
        } else {
            line[i]
        }),
{
}

/// The head of an answer says how much of the file follows: all of it, which bytes of how many,
/// or that there are no such bytes.
pub proof fn law_what_the_head_says(a: u64, b: u64, size: int, kind: Seq<char>)
    requires
        a <= b,
    ensures
        head_for(Pick::Whole, size, kind) == "HTTP/1.1 200 OK\r\n"@ + (
        "Content-Type: "@ + kind + "\r\nContent-Length: "@ + decimal(size)
            + "\r\nAccept-Ranges: bytes\r\nAccess-Control-Allow-Origin: *\r\nConnection: close\r\n\r\n"@),
        head_for(Pick::Part(a, b), size, kind) == "HTTP/1.1 206 Partial Content\r\nContent-Range: bytes "@ + decimal(
            a as int,
        ) + "-"@ + decimal(b as int) + "/"@ + decimal(size) + "\r\n"@ + ("Content-Type: "@ + kind
            + "\r\nContent-Length: "@ + decimal(b - a + 1)
            + "\r\nAccept-Ranges: bytes\r\nAccess-Control-Allow-Origin: *\r\nConnection: close\r\n\r\n"@),
        head_for(Pick::Outside, size, kind) == "HTTP/1.1 416 Range Not Satisfiable\r\nContent-Range: bytes */"@ + decimal(
            size,
        ) + "\r\nContent-Length: 0\r\nConnection: close\r\n\r\n"@,
{
}

} // verus!
