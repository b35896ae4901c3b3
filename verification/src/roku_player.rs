//! Playing files on Roku TVs with a channel of our own.
//!
//! The channel is installed through the installer for developers, which asks for a
//! digest login, and is started with the addresses of what it is to play.

use vstd::prelude::*;
use vstd::string::*;
use vstd::utf8::encode_utf8;
use crate::bytes::{hex, hex_digit, hex_text};
use crate::roku_remote::{after_start, strip_start_text};
use crate::text::{
    chars_of, contains, contains_text, copy_range, decimal, decimal_text, is_str, lower, opt, parse_nat,
    parse_unsigned, position, split, split_char, starts, starts_with, str_same, string_of, strip_end, strip_start,
    stripped, to_lower, trim, trimmed, views, within,
};
use crate::xml::{between, cut, cut_text, opt_chars, part_at, parted, text_between};

verus! {

// ---------------------------------------------------------------------------
// Formats
// ---------------------------------------------------------------------------

/// Whether a stream is a picture, sound or video.
pub fn kind(fmt: &str) -> (r: &'static str)
    ensures
        r@ == (if fmt@ == "image"@ {
            "image"@
        } else if starts(fmt@, "audio:"@) {
            "audio"@
        } else {
            "video"@
        }),
{
    if str_same(fmt, "image") {
        "image"
    } else if starts_with(fmt, "audio:") {
        "audio"
    } else {
        "video"
    }
}

/// The stream format of files with an ending in small letters.
pub open spec fn format_of(ext: Seq<char>) -> Option<Seq<char>> {
    if ext == "mp4"@ || ext == "m4v"@ || ext == "mov"@ {
        Some("mp4"@)
    } else if ext == "mkv"@ {
        Some("mkv"@)
    } else if ext == "ts"@ {
        Some("ts"@)
    } else if ext == "webm"@ {
        Some("mp4"@)
    } else if ext == "m3u8"@ {
        Some("hls"@)
    } else if ext == "jpg"@ || ext == "jpeg"@ || ext == "png"@ || ext == "gif"@ || ext == "bmp"@ {
        Some("image"@)
    } else if ext == "mp3"@ {
        Some("audio:mp3"@)
    } else if ext == "m4a"@ {
        Some("audio:mp4"@)
    } else if ext == "aac"@ {
        Some("audio:es.aac-adts"@)
    } else if ext == "flac"@ {
        Some("audio:flac"@)
    } else if ext == "wav"@ {
        Some("audio:wav"@)
    } else {
        None
    }
}

/// The view of optional constant text.
pub open spec fn opt_static(s: Option<&'static str>) -> Option<Seq<char>> {
    match s {
        Some(t) => Some(t@),
        None => None,
    }
}

/// The stream format of files with an ending, in letters of any size.
pub fn format_for_ext(ext: &[char]) -> (r: Option<&'static str>)
    ensures
        opt_static(r) == format_of(lower(ext@)),
{
    let e = to_lower(ext);
    let x = e.as_slice();
    if is_str(x, "mp4") || is_str(x, "m4v") || is_str(x, "mov") {
        Some("mp4")
    } else if is_str(x, "mkv") {
        Some("mkv")
    } else if is_str(x, "ts") {
        Some("ts")
    } else if is_str(x, "webm") {
        Some("mp4")
    } else if is_str(x, "m3u8") {
        Some("hls")
    } else if is_str(x, "jpg") || is_str(x, "jpeg") || is_str(x, "png") || is_str(x, "gif") || is_str(x, "bmp") {
        Some("image")
    } else if is_str(x, "mp3") {
        Some("audio:mp3")
    } else if is_str(x, "m4a") {
        Some("audio:mp4")
    } else if is_str(x, "aac") {
        Some("audio:es.aac-adts")
    } else if is_str(x, "flac") {
        Some("audio:flac")
    } else if is_str(x, "wav") {
        Some("audio:wav")
    } else {
        None
    }
}

/// The last position before `n` of one of two characters, or -1.
pub open spec fn last_of(s: Seq<char>, a: char, b: char, n: int) -> int
    decreases n,
{
    if n <= 0 {
        -1
    } else if s[n - 1] == a || s[n - 1] == b {
        n - 1
    } else {
        last_of(s, a, b, n - 1)
    }
}

pub fn find_last(s: &[char], a: char, b: char) -> (r: Option<usize>)
    ensures
        match r {
            Some(i) => last_of(s@, a, b, s@.len() as int) == i && i < s.len(),
            None => last_of(s@, a, b, s@.len() as int) == -1,
        },
{
    let mut n: usize = s.len();
    while n > 0
        invariant
            n <= s@.len(),
            last_of(s@, a, b, s@.len() as int) == last_of(s@, a, b, n as int),
        decreases n,
    {
        if s[n - 1] == a || s[n - 1] == b {
            return Some(n - 1);
        }
        n = n - 1;
    }
    None
}

pub open spec fn is_slash(c: char) -> bool {
    c == '/' || c == '\\'
}

/// Whether the end of a path says nothing of what it names: a slash, or a point that
/// stands alone behind one or makes up the path.
pub open spec fn has_idle_end(path: Seq<char>) -> bool {
    path.len() > 0 && (is_slash(path.last()) || (path.last() == '.' && (path.len() == 1 || is_slash(
        path[path.len() - 2],
    ))))
}

/// A path without slashes and lone points at its end.
pub open spec fn without_idle_end(path: Seq<char>) -> Seq<char>
    decreases path.len(),
{
    if has_idle_end(path) {
        without_idle_end(path.drop_last())
    } else {
        path
    }
}

/// The name of a file: what stands behind the last slash of either kind.
pub open spec fn name_of_file(path: Seq<char>) -> Seq<char> {
    let p = without_idle_end(path);
    p.skip(last_of(p, '/', '\\', p.len() as int) + 1)
}

fn slash(c: char) -> (r: bool)
    ensures
        r == is_slash(c),
{
    c == '/' || c == '\\'
}

fn idle_end(path: &[char], n: usize) -> (r: bool)
    requires
        n <= path@.len(),
    ensures
        r == has_idle_end(path@.take(n as int)),
{
    n > 0 && (slash(path[n - 1]) || (path[n - 1] == '.' && (n == 1 || slash(path[n - 2]))))
}

pub fn file_name_of(path: &[char]) -> (r: Vec<char>)
    ensures
        r@ == name_of_file(path@),
{
    let mut n: usize = path.len();
    proof {
        assert(path@.take(n as int) =~= path@);
    }
    while idle_end(path, n)
        invariant
            n <= path@.len(),
            without_idle_end(path@) == without_idle_end(path@.take(n as int)),
        ensures
            !has_idle_end(path@.take(n as int)),
        decreases n,
    {
        proof {
            assert(path@.take(n as int).drop_last() =~= path@.take(n - 1));
        }
        n = n - 1;
    }
    let p = copy_range(path, 0, n);
    proof {
        assert(p@ =~= path@.take(n as int));
        assert(p@ == without_idle_end(path@));
    }
    let from: usize = match find_last(p.as_slice(), '/', '\\') {
        Some(i) => i + 1,
        None => 0,
    };
    let r = copy_range(p.as_slice(), from, p.len());
    proof {
        assert(r@ =~= name_of_file(path@));
    }
    r
}

/// The ending of the name of a file: what stands behind its last point, unless that
/// is where the name starts.
pub open spec fn ending(name: Seq<char>) -> Option<Seq<char>> {
    let i = last_of(name, '.', '.', name.len() as int);
    if i <= 0 || name == ".."@ {
        None
    } else {
        Some(name.skip(i + 1))
    }
}

pub fn find_ending(name: &[char]) -> (r: Option<Vec<char>>)
    ensures
        opt_chars(r) == ending(name@),
{
    if is_str(name, "..") {
        return None;
    }
    match find_last(name, '.', '.') {
        Some(i) => {
            if i == 0 {
                None
            } else {
                let r = copy_range(name, i + 1, name.len());
                proof {
                    assert(r@ =~= name@.skip(i + 1));
                }
                Some(r)
            }
        },
        None => None,
    }
}

/// The stream format of a file.
pub open spec fn format_of_path(path: Seq<char>) -> Option<Seq<char>> {
    match ending(name_of_file(path)) {
        Some(e) => format_of(lower(e)),
        None => None,
    }
}

/// Whether a TV plays files with an ending in small letters.
pub open spec fn is_played(e: Seq<char>) -> bool {
    e == "mp4"@ || e == "m4v"@ || e == "mov"@ || e == "mkv"@ || e == "ts"@ || e == "webm"@ || e == "m3u8"@ || e
        == "jpg"@ || e == "jpeg"@ || e == "png"@ || e == "gif"@ || e == "bmp"@ || e == "mp3"@ || e == "m4a"@ || e
        == "aac"@ || e == "flac"@ || e == "wav"@
}

/// The stream format of a file depends on the ending of its name alone, in whatever
/// case that is written. There is one exactly for the endings that a TV plays.
pub proof fn law_format_goes_by_the_ending(a: Seq<char>, b: Seq<char>)
    ensures
        ending(name_of_file(a)) is Some && ending(name_of_file(b)) is Some && lower(ending(name_of_file(a))->0)
            == lower(ending(name_of_file(b))->0) ==> format_of_path(a) == format_of_path(b),
        format_of_path(a) is Some <==> ending(name_of_file(a)) is Some && is_played(
            lower(ending(name_of_file(a))->0),
        ),
{
}

/// Slashes and lone points at the end of a path change nothing about the file it names.
pub proof fn law_idle_ends_change_nothing(path: Seq<char>)
    ensures
        path.len() > 0 ==> name_of_file(path.push('/')) == name_of_file(path),
        path.len() > 0 ==> name_of_file(path.push('/').push('.')) == name_of_file(path),
{
    let a = path.push('/');
    let b = a.push('.');
    assert(a.drop_last() =~= path);
    assert(b.drop_last() =~= a);
    assert(without_idle_end(a) == without_idle_end(path));
    assert(without_idle_end(b) == without_idle_end(a));
}

/// The stream format of a file, or nothing if a TV cannot play it.
pub fn stream_format(path: &str) -> (r: Option<&'static str>)
    ensures
        opt_static(r) == format_of_path(path@),
{
    let c = chars_of(path);
    let name = file_name_of(c.as_slice());
    match find_ending(name.as_slice()) {
        Some(e) => format_for_ext(e.as_slice()),
        None => None,
    }
}

/// An address without what follows a question mark or a number sign.
pub open spec fn url_path(url: Seq<char>) -> Seq<char> {
    let a = position(url, '?', 0);
    let b = position(url, '#', 0);
    url.take(
        if a < b {
            a
        } else {
            b
        },
    )
}

/// The stream format of an address: that of its ending, and that of most videos if
/// it has none that is known.
pub open spec fn format_of_url(url: Seq<char>) -> Seq<char> {
    let path = url_path(url);
    let i = last_of(path, '.', '.', path.len() as int);
    if i < 0 {
        "mp4"@
    } else {
        match format_of(lower(path.skip(i + 1))) {
            Some(f) => f,
            None => "mp4"@,
        }
    }
}

/// The stream format of an address.
pub fn stream_format_for_url(url: &str) -> (r: &'static str)
    ensures
        r@ == format_of_url(url@),
{
    let c = chars_of(url);
    let a: usize = crate::text::find_char(c.as_slice(), '?', 0);
    let b: usize = crate::text::find_char(c.as_slice(), '#', 0);
    let path = copy_range(
        c.as_slice(),
        0,
        if a < b {
            a
        } else {
            b
        },
    );
    proof {
        assert(path@ =~= url_path(url@));
    }
    match find_last(path.as_slice(), '.', '.') {
        Some(i) => {
            let e = copy_range(path.as_slice(), i + 1, path.len());
            proof {
                assert(e@ =~= path@.skip(i + 1));
            }
            match format_for_ext(e.as_slice()) {
                Some(f) => f,
                None => "mp4",
            }
        },
        None => "mp4",
    }
}

// ---------------------------------------------------------------------------
// Subtitles
// ---------------------------------------------------------------------------

/// The name of a file without its ending.
pub open spec fn stem(name: Seq<char>) -> Seq<char> {
    let i = last_of(name, '.', '.', name.len() as int);
    if i <= 0 || name == ".."@ {
        name
    } else {
        name.take(i)
    }
}

pub fn find_stem(name: &[char]) -> (r: Vec<char>)
    ensures
        r@ == stem(name@),
{
    let n: usize = if is_str(name, "..") {
        name.len()
    } else {
        match find_last(name, '.', '.') {
            Some(i) => if i == 0 {
                name.len()
            } else {
                i
            },
            None => name.len(),
        }
    };
    let r = copy_range(name, 0, n);
    proof {
        assert(r@ =~= stem(name@));
    }
    r
}

/// Whether a file holds the subtitles of a video: the same name, in letters of any
/// size, with the ending of subtitles.
pub open spec fn is_sidecar(video: Seq<char>, other: Seq<char>) -> bool {
    &&& crate::home::small_letters(stem(other)) == crate::home::small_letters(stem(video))
    &&& ending(other) matches Some(e) && (lower(e) == "srt"@ || lower(e) == "vtt"@)
}

/// The first file from the i-th on that holds the subtitles of a video.
pub open spec fn sidecar_from(video: Seq<char>, names: Seq<String>, i: int) -> Option<int>
    decreases names.len() - i,
{
    if i >= names.len() {
        None
    } else if is_sidecar(video, names[i]@) {
        Some(i)
    } else {
        sidecar_from(video, names, i + 1)
    }
}

fn subtitles_for(video: &str, other: &str) -> (r: bool)
    ensures
        r == is_sidecar(video@, other@),
{
    let v = chars_of(video);
    let o = chars_of(other);
    let vs = string_of(find_stem(v.as_slice()).as_slice());
    let os = string_of(find_stem(o.as_slice()).as_slice());
    let a = crate::home::to_small_letters(vs.as_str());
    let b = crate::home::to_small_letters(os.as_str());
    if !str_same(a.as_str(), b.as_str()) {
        return false;
    }
    match find_ending(o.as_slice()) {
        Some(e) => {
            let l = to_lower(e.as_slice());
            is_str(l.as_slice(), "srt") || is_str(l.as_slice(), "vtt")
        },
        None => false,
    }
}

/// The file next to a video that holds its subtitles. `names` are the files of the
/// directory.
pub fn sidecar_subtitles(video: &str, names: &Vec<String>) -> (r: Option<usize>)
    ensures
        match r {
            Some(i) => sidecar_from(video@, names@, 0) == Some(i as int) && i < names@.len(),
            None => sidecar_from(video@, names@, 0) is None,
        },
{
    let mut i: usize = 0;
    while i < names.len()
        invariant
            i <= names@.len(),
            sidecar_from(video@, names@, 0) == sidecar_from(video@, names@, i as int),
        decreases names@.len() - i,
    {
        if subtitles_for(video, names[i].as_str()) {
            return Some(i);
        }
        i = i + 1;
    }
    None
}

// ---------------------------------------------------------------------------
// Requests
// ---------------------------------------------------------------------------

/// Whether a byte stands for itself in an address.
pub open spec fn is_plain_byte(b: u8) -> bool {
    65 <= b <= 90 || 97 <= b <= 122 || 48 <= b <= 57 || b == 45 || b == 95 || b == 46 || b == 126
}

/// The first `n` bytes as they stand in an address.
pub open spec fn quoted_first(b: Seq<u8>, n: int) -> Seq<char>
    decreases n,
{
    if n <= 0 {
        Seq::empty()
    } else {
        let before = quoted_first(b, n - 1);
        let x = b[n - 1];
        if is_plain_byte(x) {
            before.push(x as char)
        } else {
            before.push('%').push(crate::bytes::hex_char(x as int / 16, true)).push(
                crate::bytes::hex_char(x as int % 16, true),
            )
        }
    }
}

/// A text as it stands in an address: its bytes in UTF-8, with a percent sign and
/// two digits for each that does not stand for itself.
pub open spec fn quoted(s: Seq<char>) -> Seq<char> {
    quoted_first(encode_utf8(s), encode_utf8(s).len() as int)
}

/// A text as it stands in an address.
pub fn q(s: &str) -> (r: String)
    ensures
        r@ == quoted(s@),
{
    let b = s.as_bytes();
    let mut out: Vec<char> = Vec::new();
    let mut i: usize = 0;
    while i < b.len()
        invariant
            i <= b@.len(),
            out@ == quoted_first(b@, i as int),
        decreases b@.len() - i,
    {
        let x: u8 = b[i];
        if (65 <= x && x <= 90) || (97 <= x && x <= 122) || (48 <= x && x <= 57) || x == 45 || x == 95 || x == 46 || x
            == 126 {
            out.push(x as char);
        } else {
            out.push('%');
            out.push(hex_digit(x / 16, true));
            out.push(hex_digit(x % 16, true));
        }
        i = i + 1;
    }
    string_of(out.as_slice())
}

/// An entry of a playlist.
#[derive(Debug)]
pub struct Item {
    pub url: String,
    pub title: String,
    pub fmt: String,
    pub subtitles: Option<String>,
    /// Whether it starts by itself. Several devices that start together load it
    /// paused.
    pub autoplay: bool,
}

/// An entry as it stands in the request, by its number.
pub open spec fn item_params(it: Item, n: int) -> Seq<char> {
    let first = "&u"@ + decimal(n) + "="@ + quoted(it.url@) + "&t"@ + decimal(n) + "="@ + quoted(it.title@) + "&f"@
        + decimal(n) + "="@ + it.fmt@;
    match it.subtitles {
        Some(s) => first + ("&s"@ + decimal(n) + "="@ + quoted(s@)),
        None => first,
    }
}

/// The first `n` entries of a playlist as they stand in the request.
pub open spec fn params_first(items: Seq<Item>, n: int) -> Seq<char>
    decreases n,
{
    if n <= 0 {
        "n="@ + decimal(items.len() as int) + if items.len() > 0 && !items[0].autoplay {
            "&ap=0"@
        } else {
            ""@
        }
    } else {
        params_first(items, n - 1) + item_params(items[n - 1], n)
    }
}

/// A playlist as it stands in the request.
pub open spec fn playlist_params(items: Seq<Item>) -> Seq<char> {
    params_first(items, items.len() as int)
}

fn number(n: usize) -> (r: String)
    ensures
        r@ == decimal(n as int),
{
    string_of(decimal_text(n as u64).as_slice())
}

fn one_item(it: &Item, n: usize) -> (r: String)
    ensures
        r@ == item_params(*it, n as int),
{
    let k = number(n);
    let u = q(it.url.as_str());
    let t = q(it.title.as_str());
    let first = "&u".to_string().concat(k.as_str()).concat("=").concat(u.as_str()).concat("&t").concat(
        k.as_str(),
    ).concat("=").concat(t.as_str()).concat("&f").concat(k.as_str()).concat("=").concat(it.fmt.as_str());
    match &it.subtitles {
        Some(s) => {
            let x = q(s.as_str());
            let more = "&s".to_string().concat(k.as_str()).concat("=").concat(x.as_str());
            first.concat(more.as_str())
        },
        None => first,
    }
}

/// A playlist as it stands in the request.
pub fn play_params(items: &Vec<Item>) -> (r: String)
    ensures
        r@ == playlist_params(items@),
{
    let n = number(items.len());
    let mut out = "n=".to_string().concat(n.as_str()).concat(
        if items.len() > 0 && !items[0].autoplay {
            "&ap=0"
        } else {
            ""
        },
    );
    let mut i: usize = 0;
    while i < items.len()
        invariant
            i <= items@.len(),
            out@ == params_first(items@, i as int),
        decreases items@.len() - i,
    {
        let p = one_item(&items[i], i + 1);
        out.append(p.as_str());
        i = i + 1;
    }
    out
}

/// What the channel is told to show a calendar. With `save` the TV keeps the address
/// for its screensaver.
pub fn calendar_params(url: &str, every: u64, save: bool) -> (r: String)
    ensures
        r@ == "cal="@ + quoted(url@) + "&every="@ + decimal(every as int) + (if save {
            "&save=1"@
        } else {
            ""@
        }),
{
    let u = q(url);
    let e = string_of(decimal_text(every).as_slice());
    "cal=".to_string().concat(u.as_str()).concat("&every=").concat(e.as_str()).concat(
        if save {
            "&save=1"
        } else {
            ""
        },
    )
}

/// The address of a request to the channel, which is handed it if it is on the
/// screen and started with it if not.
pub fn endpoint(ip: &str, active: &str, params: &str) -> (r: String)
    ensures
        r@ == "http://"@ + ip@ + (if contains(active@, "id=\"dev\""@) {
            ":8060/input?"@
        } else {
            ":8060/launch/dev?"@
        }) + params@,
{
    let open: bool = crate::roku_remote::is_player_active(active);
    "http://".to_string().concat(ip).concat(
        if open {
            ":8060/input?"
        } else {
            ":8060/launch/dev?"
        },
    ).concat(params)
}

/// Whether a status is a success.
pub open spec fn is_success(code: u16) -> bool {
    200 <= code < 300
}

/// What a request to the channel came to. `status` is the status in words, `what`
/// what the TV refused.
pub fn play_result(code: u16, status: &str, what: &str) -> (r: Result<(), String>)
    ensures
        match r {
            Ok(_) => is_success(code),
            Err(e) => !is_success(code) && e@ == (if code == 404 {
                "The player channel isn't installed on this TV. Use Set up video playback first."@
            } else {
                "The TV refused"@ + what@ + " ("@ + status@ + ")."@
            }),
        },
{
    if 200 <= code && code < 300 {
        Ok(())
    } else if code == 404 {
        Err("The player channel isn't installed on this TV. Use Set up video playback first.".to_string())
    } else {
        Err("The TV refused".to_string().concat(what).concat(" (").concat(status).concat(")."))
    }
}

// ---------------------------------------------------------------------------
// The login
// ---------------------------------------------------------------------------

/// The MD5 digest of some bytes.
pub uninterp spec fn md5_of(b: Seq<u8>) -> Seq<u8>;

/// `md5::compute`: sixteen bytes that depend on the input alone.
#[verifier::external_body]
fn md5_bytes(b: &[u8]) -> (r: Vec<u8>)
    ensures
        r@ == md5_of(b@),
        r@.len() == 16,
{
    md5::compute(b).to_vec()
}

/// The MD5 digest of a text in hexadecimal.
pub open spec fn md5_text(s: Seq<char>) -> Seq<char> {
    hex(md5_of(encode_utf8(s)), false)
}

fn md5_hex(s: &str) -> (r: String)
    ensures
        r@ == md5_text(s@),
{
    let d = md5_bytes(s.as_bytes());
    string_of(hex_text(d.as_slice(), d.len(), false).as_slice())
}

/// The value of a field in one part of a challenge.
pub open spec fn field_in(part: Seq<char>, name: Seq<char>) -> Option<Seq<char>> {
    match parted(part, '=') {
        Some((k, v)) => if trim(k) == name {
            Some(strip_end(strip_start(trim(v), '"'), '"'))
        } else {
            None
        },
        None => None,
    }
}

/// The value of the first part from the i-th on that has a field.
pub open spec fn field_from(parts: Seq<Seq<char>>, name: Seq<char>, i: int) -> Option<Seq<char>>
    decreases parts.len() - i,
{
    if i >= parts.len() {
        None
    } else if field_in(parts[i], name) is Some {
        field_in(parts[i], name)
    } else {
        field_from(parts, name, i + 1)
    }
}

/// A field of a challenge.
pub open spec fn challenge_field(rest: Seq<char>, name: Seq<char>) -> Option<Seq<char>> {
    field_from(split(rest, ','), name, 0)
}

fn read_field(rest: &[char], name: &str) -> (r: Option<String>)
    ensures
        opt(r) == challenge_field(rest@, name@),
{
    let parts = split_char(rest, ',');
    let ghost m = views(parts@);
    let mut i: usize = 0;
    while i < parts.len()
        invariant
            i <= parts@.len(),
            m == views(parts@),
            m == split(rest@, ','),
            field_from(m, name@, 0) == field_from(m, name@, i as int),
        decreases parts@.len() - i,
    {
        proof {
            assert(m[i as int] == parts@[i as int]@);
        }
        match part_at(parts[i].as_slice(), '=') {
            Some((k, v)) => {
                let kt = trimmed(k.as_slice());
                if is_str(kt.as_slice(), name) {
                    let vt = trimmed(v.as_slice());
                    let u = stripped(vt.as_slice(), '"');
                    return Some(string_of(u.as_slice()));
                }
            },
            None => {},
        }
        i = i + 1;
    }
    proof {
        assert(m.len() == parts@.len());
    }
    None
}

/// Whether `auth` is among the kinds of protection.
pub open spec fn offers_auth(qop: Seq<char>) -> bool {
    exists|i: int| 0 <= i < split(qop, ',').len() && trim(#[trigger] split(qop, ',')[i]) == "auth"@
}

fn has_auth(qop: &str) -> (r: bool)
    ensures
        r == offers_auth(qop@),
{
    let c = chars_of(qop);
    let parts = split_char(c.as_slice(), ',');
    let ghost m = views(parts@);
    let mut i: usize = 0;
    while i < parts.len()
        invariant
            i <= parts@.len(),
            m == views(parts@),
            m == split(qop@, ','),
            forall|k: int| 0 <= k < i ==> trim(#[trigger] m[k]) != "auth"@,
        decreases parts@.len() - i,
    {
        proof {
            assert(m[i as int] == parts@[i as int]@);
        }
        let t = trimmed(parts[i].as_slice());
        if is_str(t.as_slice(), "auth") {
            return true;
        }
        i = i + 1;
    }
    proof {
        assert(m.len() == parts@.len());
    }
    false
}

/// The part of the answer that every login has.
pub open spec fn digest_start(user: Seq<char>, realm: Seq<char>, nonce: Seq<char>, uri: Seq<char>) -> Seq<char> {
    "Digest username=\""@ + user + "\", realm=\""@ + realm + "\", nonce=\""@ + nonce + "\", uri=\""@ + uri + "\", "@
}

/// The answer to a challenge, as RFC 2617 has it: the digest of the digests of who
/// asks and of what is asked. `cnonce` is a number of our own.
pub open spec fn digest_answer(
    challenge: Seq<char>,
    user: Seq<char>,
    pass: Seq<char>,
    method: Seq<char>,
    uri: Seq<char>,
    cnonce: Seq<char>,
) -> Option<Seq<char>> {
    match after_start(trim(challenge), "Digest"@) {
        None => None,
        Some(rest) => match (challenge_field(rest, "realm"@), challenge_field(rest, "nonce"@)) {
            (Some(realm), Some(nonce)) => {
                let ha1 = md5_text(user + ":"@ + realm + ":"@ + pass);
                let ha2 = md5_text(method + ":"@ + uri);
                let qop = challenge_field(rest, "qop"@);
                if qop is Some && offers_auth(qop->0) {
                    let response = md5_text(ha1 + ":"@ + nonce + ":00000001:"@ + cnonce + ":auth:"@ + ha2);
                    Some(
                        digest_start(user, realm, nonce, uri) + "qop=auth, nc=00000001, cnonce=\""@ + cnonce
                            + "\", response=\""@ + response + "\""@,
                    )
                } else {
                    let response = md5_text(ha1 + ":"@ + nonce + ":"@ + ha2);
                    Some(digest_start(user, realm, nonce, uri) + "response=\""@ + response + "\""@)
                }
            },
            _ => None,
        },
    }
}

fn answer_start(user: &str, realm: &str, nonce: &str, uri: &str) -> (r: String)
    ensures
        r@ == digest_start(user@, realm@, nonce@, uri@),
{
    "Digest username=\"".to_string().concat(user).concat("\", realm=\"").concat(realm).concat("\", nonce=\"").concat(
        nonce,
    ).concat("\", uri=\"").concat(uri).concat("\", ")
}

/// The answer to a challenge with a number of our own.
pub fn digest_header(challenge: &str, user: &str, pass: &str, method: &str, uri: &str, cnonce: &str) -> (r: Option<
    String,
>)
    ensures
        opt(r) == digest_answer(challenge@, user@, pass@, method@, uri@, cnonce@),
{
    let t = crate::text::trim_str(challenge);
    let rest = match strip_start_text(t.as_str(), "Digest") {
        Some(x) => chars_of(x.as_str()),
        None => {
            return None;
        },
    };
    match (read_field(rest.as_slice(), "realm"), read_field(rest.as_slice(), "nonce")) {
        (Some(realm), Some(nonce)) => {
            let who = user.to_string().concat(":").concat(realm.as_str()).concat(":").concat(pass);
            let what = method.to_string().concat(":").concat(uri);
            let ha1 = md5_hex(who.as_str());
            let ha2 = md5_hex(what.as_str());
            let start = answer_start(user, realm.as_str(), nonce.as_str(), uri);
            let auth: bool = match read_field(rest.as_slice(), "qop") {
                Some(x) => has_auth(x.as_str()),
                None => false,
            };
            if auth {
                let all = ha1.concat(":").concat(nonce.as_str()).concat(":00000001:").concat(cnonce).concat(
                    ":auth:",
                ).concat(ha2.as_str());
                let response = md5_hex(all.as_str());
                Some(
                    start.concat("qop=auth, nc=00000001, cnonce=\"").concat(cnonce).concat("\", response=\"").concat(
                        response.as_str(),
                    ).concat("\""),
                )
            } else {
                let all = ha1.concat(":").concat(nonce.as_str()).concat(":").concat(ha2.as_str());
                let response = md5_hex(all.as_str());
                Some(start.concat("response=\"").concat(response.as_str()).concat("\""))
            }
        },
        _ => None,
    }
}

/// Whether a text is 32 hexadecimal digits with small letters.
pub open spec fn is_simple_uuid(s: Seq<char>) -> bool {
    s.len() == 32 && forall|i: int| 0 <= i < 32 ==> ('0' <= #[trigger] s[i] <= '9' || 'a' <= s[i] <= 'f')
}

/// `uuid::Uuid::new_v4` in its simple form: 32 hexadecimal digits with small
/// letters. Which they are is left to chance.
#[verifier::external_body]
pub(crate) fn random_id() -> (r: String)
    ensures
        is_simple_uuid(r@),
{
    uuid::Uuid::new_v4().simple().to_string()
}

/// The answer to a challenge with a number that is drawn.
pub fn answer_challenge(challenge: &str, user: &str, pass: &str, method: &str, uri: &str) -> (r: Option<String>)
    ensures
        exists|cnonce: Seq<char>|
            is_simple_uuid(cnonce) && opt(r) == #[trigger] digest_answer(
                challenge@,
                user@,
                pass@,
                method@,
                uri@,
                cnonce,
            ),
{
    let cnonce = random_id();
    let r = digest_header(challenge, user, pass, method, uri, cnonce.as_str());
    proof {
        assert(opt(r) == digest_answer(challenge@, user@, pass@, method@, uri@, cnonce@));
    }
    r
}

// ---------------------------------------------------------------------------
// The channel
// ---------------------------------------------------------------------------

/// The files of the channel.
#[derive(Debug)]
pub struct ChannelFiles {
    pub manifest: Vec<u8>,
    pub main_brs: Vec<u8>,
    pub scene_xml: Vec<u8>,
    pub scene_brs: Vec<u8>,
    pub cal_xml: Vec<u8>,
    pub cal_brs: Vec<u8>,
    pub saver_xml: Vec<u8>,
    pub icon: Vec<u8>,
}

/// A file of an archive.
#[derive(Debug)]
pub struct ZipFile {
    pub name: String,
    pub data: Vec<u8>,
}

pub open spec fn zip_models(v: Seq<ZipFile>) -> Seq<(Seq<char>, Seq<u8>)> {
    v.map_values(|f: ZipFile| (f.name@, f.data@))
}

/// An archive that is being written: a `zip::ZipWriter` over bytes in memory.
#[verifier::external_body]
pub struct Archive {
    writer: zip::ZipWriter<std::io::Cursor<Vec<u8>>>,
}

/// The files that an archive holds by now, each with its name and contents.
pub uninterp spec fn archived(a: Archive) -> Seq<(Seq<char>, Seq<u8>)>;

/// Why an archive that holds some files takes no file with a name.
pub uninterp spec fn start_problem(held: Seq<(Seq<char>, Seq<u8>)>, name: Seq<char>) -> Option<Seq<char>>;

/// Why the last file of an archive does not take more contents.
pub uninterp spec fn write_problem(held: Seq<(Seq<char>, Seq<u8>)>, data: Seq<u8>) -> Option<Seq<char>>;

/// The bytes of an archive of files that are not compressed, or why there are none.
pub uninterp spec fn zipped(files: Seq<(Seq<char>, Seq<u8>)>) -> Result<Seq<u8>, Seq<char>>;

/// The view of bytes or of what went wrong.
pub open spec fn zip_result(r: Result<Vec<u8>, String>) -> Result<Seq<u8>, Seq<char>> {
    match r {
        Ok(b) => Ok(b@),
        Err(e) => Err(e@),
    }
}

/// `zip::ZipWriter::new`: an archive that holds nothing.
#[verifier::external_body]
fn new_archive() -> (a: Archive)
    ensures
        archived(a) == Seq::<(Seq<char>, Seq<u8>)>::empty(),
{
    Archive { writer: zip::ZipWriter::new(std::io::Cursor::new(Vec::new())) }
}

/// `zip::ZipWriter::start_file` without compression: adds a file that is empty yet. What
/// the archive holds and the name decide whether it fails, and the error in words.
#[verifier::external_body]
fn start_file(a: &mut Archive, name: &str) -> (r: Result<(), String>)
    requires
        name@.len() <= 16_000,
    ensures
        match r {
            Ok(_) => start_problem(archived(*old(a)), name@) is None && archived(*final(a)) == archived(*old(a)).push(
                (name@, Seq::empty()),
            ),
            Err(e) => start_problem(archived(*old(a)), name@) == Some(e@),
        },
{
    let opts = zip::write::SimpleFileOptions::default().compression_method(zip::CompressionMethod::Stored);
    a.writer.start_file(name, opts).map_err(|e| e.to_string())
}

/// `write_all` of a `zip::ZipWriter`: adds to the contents of the last file. What the
/// archive holds and the bytes decide whether it fails, and the error in words.
#[verifier::external_body]
fn write_file(a: &mut Archive, data: &[u8]) -> (r: Result<(), String>)
    requires
        archived(*old(a)).len() > 0,
    ensures
        match r {
            Ok(_) => write_problem(archived(*old(a)), data@) is None && archived(*final(a)) == archived(
                *old(a),
            ).drop_last().push((archived(*old(a)).last().0, archived(*old(a)).last().1 + data@)),
            Err(e) => write_problem(archived(*old(a)), data@) == Some(e@),
        },
{
    std::io::Write::write_all(&mut a.writer, data).map_err(|e| e.to_string())
}

/// `zip::ZipWriter::finish`: the bytes of the archive, or the error in words, depend on
/// the files that it holds.
#[verifier::external_body]
fn finish_archive(a: Archive) -> (r: Result<Vec<u8>, String>)
    ensures
        zip_result(r) == zipped(archived(a)),
{
    a.writer.finish().map(|c| c.into_inner()).map_err(|e| e.to_string())
}

/// What packing the files from the i-th on behind those before them comes to: the bytes
/// of the archive, or the first error.
pub open spec fn packed(files: Seq<(Seq<char>, Seq<u8>)>, i: int) -> Result<Seq<u8>, Seq<char>>
    decreases files.len() - i,
{
    if i >= files.len() {
        zipped(files)
    } else {
        let (name, data) = files[i];
        match start_problem(files.take(i), name) {
            Some(e) => Err(e),
            None => match write_problem(files.take(i).push((name, Seq::empty())), data) {
                Some(e) => Err(e),
                None => packed(files, i + 1),
            },
        }
    }
}

fn pack(files: &Vec<ZipFile>) -> (r: Result<Vec<u8>, String>)
    requires
        forall|i: int| 0 <= i < files@.len() ==> (#[trigger] files@[i]).name@.len() <= 16_000,
    ensures
        zip_result(r) == packed(zip_models(files@), 0),
{
    let ghost m = zip_models(files@);
    let mut a = new_archive();
    let mut i: usize = 0;
    proof {
        assert(m.take(0) =~= Seq::<(Seq<char>, Seq<u8>)>::empty());
    }
    while i < files.len()
        invariant
            i <= files@.len(),
            m == zip_models(files@),
            forall|j: int| 0 <= j < files@.len() ==> (#[trigger] files@[j]).name@.len() <= 16_000,
            archived(a) == m.take(i as int),
            packed(m, 0) == packed(m, i as int),
        decreases files@.len() - i,
    {
        proof {
            assert(m[i as int] == (files@[i as int].name@, files@[i as int].data@));
        }
        start_file(&mut a, files[i].name.as_str())?;
        write_file(&mut a, files[i].data.as_slice())?;
        proof {
            let held = m.take(i as int).push((files@[i as int].name@, Seq::empty()));
            assert(Seq::<u8>::empty() + files@[i as int].data@ =~= files@[i as int].data@);
            assert(held.drop_last() =~= m.take(i as int));
            assert(archived(a) =~= m.take(i + 1));
        }
        i = i + 1;
    }
    proof {
        assert(m.take(i as int) =~= m);
    }
    finish_archive(a)
}

/// The files of the channel and where they stand in it.
pub open spec fn channel_layout(f: ChannelFiles) -> Seq<(Seq<char>, Seq<u8>)> {
    seq![
        ("manifest"@, f.manifest@),
        ("source/main.brs"@, f.main_brs@),
        ("components/PlayerScene.xml"@, f.scene_xml@),
        ("components/PlayerScene.brs"@, f.scene_brs@),
        ("components/CalendarView.xml"@, f.cal_xml@),
        ("components/CalendarView.brs"@, f.cal_brs@),
        ("components/CalendarSaverScene.xml"@, f.saver_xml@),
        ("images/icon.png"@, f.icon@),
    ]
}

fn push_file(out: &mut Vec<ZipFile>, name: &str, data: Vec<u8>)
    requires
        name@.len() <= 16_000,
        forall|i: int| 0 <= i < old(out)@.len() ==> (#[trigger] old(out)@[i]).name@.len() <= 16_000,
    ensures
        zip_models(final(out)@) == zip_models(old(out)@).push((name@, data@)),
        forall|i: int| 0 <= i < final(out)@.len() ==> (#[trigger] final(out)@[i]).name@.len() <= 16_000,
{
    out.push(ZipFile { name: name.to_string(), data });
    proof {
        assert(zip_models(out@) =~= zip_models(old(out)@).push((name@, data@)));
    }
}

/// The channel as it is installed.
pub fn build_zip(f: ChannelFiles) -> (r: Result<Vec<u8>, String>)
    ensures
        zip_result(r) == packed(channel_layout(f), 0),
{
    proof {
        reveal_strlit("manifest");
        reveal_strlit("source/main.brs");
        reveal_strlit("components/PlayerScene.xml");
        reveal_strlit("components/PlayerScene.brs");
        reveal_strlit("components/CalendarView.xml");
        reveal_strlit("components/CalendarView.brs");
        reveal_strlit("components/CalendarSaverScene.xml");
        reveal_strlit("images/icon.png");
    }
    let mut out: Vec<ZipFile> = Vec::new();
    push_file(&mut out, "manifest", f.manifest);
    push_file(&mut out, "source/main.brs", f.main_brs);
    push_file(&mut out, "components/PlayerScene.xml", f.scene_xml);
    push_file(&mut out, "components/PlayerScene.brs", f.scene_brs);
    push_file(&mut out, "components/CalendarView.xml", f.cal_xml);
    push_file(&mut out, "components/CalendarView.brs", f.cal_brs);
    push_file(&mut out, "components/CalendarSaverScene.xml", f.saver_xml);
    push_file(&mut out, "images/icon.png", f.icon);
    proof {
        assert(zip_models(out@) =~= channel_layout(f));
    }
    pack(&out)
}

/// What the installer's answer to a channel came to. `status` is the status in
/// words.
pub fn install_result(code: u16, status: &str, body: &str) -> (r: Result<(), String>)
    ensures
        match r {
            Ok(_) => is_success(code) && (contains(body@, "Install Success"@) || contains(
                body@,
                "Identical to previous version"@,
            ) || contains(body@, "Received"@)),
            Err(e) => if code == 401 {
                e@ == "Wrong developer password for this TV."@
            } else if !is_success(code) {
                e@ == "The TV rejected the install ("@ + status@ + ")."@
            } else {
                !contains(body@, "Install Success"@) && !contains(body@, "Identical to previous version"@) && !contains(
                    body@,
                    "Received"@,
                ) && e@ == "The TV didn't confirm the install. Try again, or check the password."@
            },
        },
{
    if code == 401 {
        return Err("Wrong developer password for this TV.".to_string());
    }
    if !(200 <= code && code < 300) {
        return Err("The TV rejected the install (".to_string().concat(status).concat(")."));
    }
    let b = chars_of(body);
    let x = chars_of("Install Success");
    let y = chars_of("Identical to previous version");
    let z = chars_of("Received");
    if contains_text(b.as_slice(), x.as_slice()) || contains_text(b.as_slice(), y.as_slice()) || contains_text(
        b.as_slice(),
        z.as_slice(),
    ) {
        Ok(())
    } else {
        Err("The TV didn't confirm the install. Try again, or check the password.".to_string())
    }
}

/// The i-th key of the ten that open the settings for developers.
pub fn dev_key(i: usize) -> (r: Option<&'static str>)
    ensures
        opt_static(r) == (if i < 3 {
            Some("Home"@)
        } else if i < 5 {
            Some("Up"@)
        } else if i == 5 || i == 7 || i == 9 {
            Some("Right"@)
        } else if i == 6 || i == 8 {
            Some("Left"@)
        } else {
            None
        }),
{
    if i < 3 {
        Some("Home")
    } else if i < 5 {
        Some("Up")
    } else if i == 5 || i == 7 || i == 9 {
        Some("Right")
    } else if i == 6 || i == 8 {
        Some("Left")
    } else {
        None
    }
}

/// How long to wait after a key, in milliseconds.
pub fn dev_key_wait(key: &str) -> (r: u64)
    ensures
        r == (if key@ == "Home"@ {
            700
        } else {
            350int
        }),
{
    if str_same(key, "Home") {
        700
    } else {
        350
    }
}

/// What a key that was refused says.
pub fn dev_key_error(key: &str, status: &str) -> (r: String)
    ensures
        r@ == "The TV refused the "@ + key@ + " key ("@ + status@ + ")."@,
{
    "The TV refused the ".to_string().concat(key).concat(" key (").concat(status).concat(").")
}

// ---------------------------------------------------------------------------
// Versions
// ---------------------------------------------------------------------------

/// The value of a key from the i-th line on.
pub open spec fn manifest_from(lines: Seq<Seq<char>>, key: Seq<char>, i: int) -> Seq<char>
    decreases lines.len() - i,
{
    if i >= lines.len() {
        "0"@
    } else {
        match after_start(crate::roku_remote::line_text(lines[i]), key + "="@) {
            Some(v) => trim(v),
            None => manifest_from(lines, key, i + 1),
        }
    }
}

/// The value of a key of a manifest, zero if there is none.
pub open spec fn manifest_value(manifest: Seq<char>, key: Seq<char>) -> Seq<char> {
    manifest_from(split(manifest, '\n'), key, 0)
}

fn read_manifest(manifest: &str, key: &str) -> (r: String)
    ensures
        r@ == manifest_value(manifest@, key@),
{
    let c = chars_of(manifest);
    let lines = split_char(c.as_slice(), '\n');
    let ghost m = views(lines@);
    let start = key.to_string().concat("=");
    let mut i: usize = 0;
    while i < lines.len()
        invariant
            i <= lines@.len(),
            m == views(lines@),
            m == split(manifest@, '\n'),
            start@ == key@ + "="@,
            manifest_from(m, key@, 0) == manifest_from(m, key@, i as int),
        decreases lines@.len() - i,
    {
        proof {
            assert(m[i as int] == lines@[i as int]@);
        }
        let n: usize = lines[i].len();
        let end: usize = if n > 0 && lines[i][n - 1] == '\r' {
            n - 1
        } else {
            n
        };
        let l = copy_range(lines[i].as_slice(), 0, end);
        proof {
            assert(l@ =~= crate::roku_remote::line_text(m[i as int]));
        }
        let t = string_of(l.as_slice());
        match strip_start_text(t.as_str(), start.as_str()) {
            Some(v) => {
                return crate::text::trim_str(v.as_str());
            },
            None => {},
        }
        i = i + 1;
    }
    proof {
        assert(m.len() == lines@.len());
    }
    "0".to_string()
}

/// The version in a manifest: its three numbers with points between them.
pub open spec fn version_of(manifest: Seq<char>) -> Seq<char> {
    manifest_value(manifest, "major_version"@) + "."@ + manifest_value(manifest, "minor_version"@) + "."@
        + manifest_value(manifest, "build_version"@)
}

/// The version of the channel with a manifest.
pub fn bundled_version(manifest: &str) -> (r: String)
    ensures
        r@ == version_of(manifest@),
{
    let a = read_manifest(manifest, "major_version");
    let b = read_manifest(manifest, "minor_version");
    let c = read_manifest(manifest, "build_version");
    a.concat(".").concat(b.as_str()).concat(".").concat(c.as_str())
}

/// The version of the channel among the pieces of a list of apps from the i-th on:
/// the first piece that names it decides.
pub open spec fn version_from(chunks: Seq<Seq<char>>, i: int) -> Option<Seq<char>>
    decreases chunks.len() - i,
{
    if i >= chunks.len() {
        None
    } else if contains(chunks[i], "id=\"dev\""@) {
        between(chunks[i], "version=\""@, "\""@)
    } else {
        version_from(chunks, i + 1)
    }
}

/// The version of the channel that is installed on a TV with a list of apps.
pub fn installed_version(apps: &str) -> (r: Option<String>)
    ensures
        opt(r) == version_from(cut(apps@, "<app "@), 0),
{
    let c = chars_of(apps);
    proof {
        reveal_strlit("<app ");
    }
    let chunks = cut_text(c.as_slice(), "<app ");
    let ghost m = views(chunks@);
    let dev = chars_of("id=\"dev\"");
    let open = chars_of("version=\"");
    let close = chars_of("\"");
    let mut i: usize = 0;
    while i < chunks.len()
        invariant
            i <= chunks@.len(),
            m == views(chunks@),
            m == cut(apps@, "<app "@),
            dev@ == "id=\"dev\""@,
            open@ == "version=\""@,
            close@ == "\""@,
            version_from(m, 0) == version_from(m, i as int),
        decreases chunks@.len() - i,
    {
        proof {
            assert(m[i as int] == chunks@[i as int]@);
        }
        if contains_text(chunks[i].as_slice(), dev.as_slice()) {
            return match text_between(chunks[i].as_slice(), open.as_slice(), close.as_slice()) {
                Some(t) => Some(string_of(t.as_slice())),
                None => None,
            };
        }
        i = i + 1;
    }
    proof {
        assert(m.len() == chunks@.len());
    }
    None
}

/// The numbers of a version. What is no number counts as zero.
pub open spec fn version_numbers(v: Seq<char>) -> Seq<u64> {
    split(v, '.').map_values(
        |p: Seq<char>|
            match within(parse_nat(p), 0, u64::MAX as int) {
                Some(n) => n as u64,
                None => 0u64,
            },
    )
}

/// Whether a row of numbers comes before another: the first that differs decides,
/// and the beginning of a row comes before the whole.
pub open spec fn numbers_before(a: Seq<u64>, b: Seq<u64>, i: int) -> bool
    decreases b.len() - i,
{
    if i >= b.len() {
        false
    } else if i >= a.len() {
        true
    } else if a[i] != b[i] {
        a[i] < b[i]
    } else {
        numbers_before(a, b, i + 1)
    }
}

/// The numbers of a version.
pub fn version_key(v: &str) -> (r: Vec<u64>)
    ensures
        r@ == version_numbers(v@),
{
    let c = chars_of(v);
    let parts = split_char(c.as_slice(), '.');
    let ghost m = views(parts@);
    let mut out: Vec<u64> = Vec::new();
    let mut i: usize = 0;
    while i < parts.len()
        invariant
            i <= parts@.len(),
            m == views(parts@),
            m == split(v@, '.'),
            out@ =~= version_numbers(v@).take(i as int),
            m.len() == parts@.len(),
        decreases parts@.len() - i,
    {
        proof {
            assert(m[i as int] == parts@[i as int]@);
        }
        let n: u64 = match parse_unsigned(parts[i].as_slice(), u64::MAX) {
            Some(x) => x,
            None => 0,
        };
        out.push(n);
        i = i + 1;
    }
    proof {
        assert(out@ =~= version_numbers(v@));
    }
    out
}

/// Whether the channel of a TV is older than the one at hand. One that has none
/// needs no upgrade.
pub fn needs_upgrade(installed: &Option<String>, bundled: &str) -> (r: bool)
    ensures
        r == (match opt(*installed) {
            Some(v) => numbers_before(version_numbers(v), version_numbers(bundled@), 0),
            None => false,
        }),
{
    match installed {
        Some(v) => {
            let a = version_key(v.as_str());
            let b = version_key(bundled);
            let mut i: usize = 0;
            while i < b.len()
                invariant
                    i <= b@.len(),
                    numbers_before(a@, b@, 0) == numbers_before(a@, b@, i as int),
                    a@ == version_numbers(v@),
                    b@ == version_numbers(bundled@),
                    opt(*installed) == Some(v@),
                decreases b@.len() - i,
            {
                if i >= a.len() {
                    return true;
                }
                if a[i] != b[i] {
                    return a[i] < b[i];
                }
                i = i + 1;
            }
            false
        },
        None => false,
    }
}

/// A version is not older than itself, so that none needs an upgrade after one; of
/// two versions that differ exactly one is older.
pub proof fn law_upgraded(a: Seq<u64>, b: Seq<u64>)
    ensures
        !numbers_before(a, a, 0),
        a != b ==> numbers_before(a, b, 0) != numbers_before(b, a, 0),
{
    lemma_numbers(a, a, 0);
    lemma_numbers(a, b, 0);
}

proof fn lemma_numbers(a: Seq<u64>, b: Seq<u64>, i: int)
    requires
        0 <= i <= a.len(),
        i <= b.len(),
        forall|k: int| 0 <= k < i ==> a[k] == b[k],
    ensures
        !(numbers_before(a, b, i) && numbers_before(b, a, i)),
        numbers_before(a, b, i) || numbers_before(b, a, i) || a == b,
    decreases a.len() - i,
{
    if i < a.len() && i < b.len() && a[i] == b[i] {
        lemma_numbers(a, b, i + 1);
    } else if i >= a.len() && i >= b.len() {
        assert(a =~= b);
    }
}

// ---------------------------------------------------------------------------
// Names, formats and versions
// ---------------------------------------------------------------------------

/// What a Roku TV is told of a file, by the ending of its name.
pub proof fn law_endings_and_their_formats(e: Seq<char>)
    ensures
        e == "mp4"@ ==> format_of(e) == Some("mp4"@),
        e == "m4v"@ ==> format_of(e) == Some("mp4"@),
        e == "mov"@ ==> format_of(e) == Some("mp4"@),
        e == "mkv"@ ==> format_of(e) == Some("mkv"@),
        e == "ts"@ ==> format_of(e) == Some("ts"@),
        e == "webm"@ ==> format_of(e) == Some("mp4"@),
        e == "m3u8"@ ==> format_of(e) == Some("hls"@),
        e == "jpg"@ ==> format_of(e) == Some("image"@),
        e == "jpeg"@ ==> format_of(e) == Some("image"@),
        e == "png"@ ==> format_of(e) == Some("image"@),
        e == "gif"@ ==> format_of(e) == Some("image"@),
        e == "bmp"@ ==> format_of(e) == Some("image"@),
        e == "mp3"@ ==> format_of(e) == Some("audio:mp3"@),
        e == "m4a"@ ==> format_of(e) == Some("audio:mp4"@),
        e == "aac"@ ==> format_of(e) == Some("audio:es.aac-adts"@),
        e == "flac"@ ==> format_of(e) == Some("audio:flac"@),
        e == "wav"@ ==> format_of(e) == Some("audio:wav"@),
{
    reveal_strlit("mp4");
    assert("mp4"@.len() == 3 && "mp4"@[0] == 'm' && "mp4"@[1] == 'p' && "mp4"@[2] == '4');
    reveal_strlit("m4v");
    assert("m4v"@.len() == 3 && "m4v"@[0] == 'm' && "m4v"@[1] == '4' && "m4v"@[2] == 'v');
    reveal_strlit("mov");
    assert("mov"@.len() == 3 && "mov"@[0] == 'm' && "mov"@[1] == 'o' && "mov"@[2] == 'v');
    reveal_strlit("mkv");
    assert("mkv"@.len() == 3 && "mkv"@[0] == 'm' && "mkv"@[1] == 'k' && "mkv"@[2] == 'v');
    reveal_strlit("ts");
    assert("ts"@.len() == 2 && "ts"@[0] == 't' && "ts"@[1] == 's');
    reveal_strlit("webm");
    assert("webm"@.len() == 4 && "webm"@[0] == 'w' && "webm"@[1] == 'e' && "webm"@[2] == 'b' && "webm"@[3] == 'm');
    reveal_strlit("m3u8");
    assert("m3u8"@.len() == 4 && "m3u8"@[0] == 'm' && "m3u8"@[1] == '3' && "m3u8"@[2] == 'u' && "m3u8"@[3] == '8');
    reveal_strlit("jpg");
    assert("jpg"@.len() == 3 && "jpg"@[0] == 'j' && "jpg"@[1] == 'p' && "jpg"@[2] == 'g');
    reveal_strlit("jpeg");
    assert("jpeg"@.len() == 4 && "jpeg"@[0] == 'j' && "jpeg"@[1] == 'p' && "jpeg"@[2] == 'e' && "jpeg"@[3] == 'g');
    reveal_strlit("png");
    assert("png"@.len() == 3 && "png"@[0] == 'p' && "png"@[1] == 'n' && "png"@[2] == 'g');
    reveal_strlit("gif");
    assert("gif"@.len() == 3 && "gif"@[0] == 'g' && "gif"@[1] == 'i' && "gif"@[2] == 'f');
    reveal_strlit("bmp");
    assert("bmp"@.len() == 3 && "bmp"@[0] == 'b' && "bmp"@[1] == 'm' && "bmp"@[2] == 'p');
    reveal_strlit("mp3");
    assert("mp3"@.len() == 3 && "mp3"@[0] == 'm' && "mp3"@[1] == 'p' && "mp3"@[2] == '3');
    reveal_strlit("m4a");
    assert("m4a"@.len() == 3 && "m4a"@[0] == 'm' && "m4a"@[1] == '4' && "m4a"@[2] == 'a');
    reveal_strlit("aac");
    assert("aac"@.len() == 3 && "aac"@[0] == 'a' && "aac"@[1] == 'a' && "aac"@[2] == 'c');
    reveal_strlit("flac");
    assert("flac"@.len() == 4 && "flac"@[0] == 'f' && "flac"@[1] == 'l' && "flac"@[2] == 'a' && "flac"@[3] == 'c');
    reveal_strlit("wav");
    assert("wav"@.len() == 3 && "wav"@[0] == 'w' && "wav"@[1] == 'a' && "wav"@[2] == 'v');
}

proof fn lemma_last_found(head: Seq<char>, c: char, rest: Seq<char>, a: char, b: char, n: int)
    requires
        0 <= n <= rest.len(),
        c == a || c == b,
        !rest.contains(a),
        !rest.contains(b),
    ensures
        last_of(head + seq![c] + rest, a, b, head.len() + 1 + n) == head.len(),
    decreases n,
{
    let s = head + seq![c] + rest;
    if n > 0 {
        assert(s[head.len() + n] == rest[n - 1]);
        assert(rest.contains(rest[n - 1]));
        lemma_last_found(head, c, rest, a, b, n - 1);
    } else {
        assert(s[head.len() as int] == c);
    }
}

/// A name is a stem and an ending, cut at the last point; it has none where the only point
/// stands first.
pub proof fn law_names_are_stems_and_endings(s: Seq<char>, e: Seq<char>)
    requires
        s.len() > 0,
        e.len() > 0,
        !e.contains('.'),
    ensures
        ending(s + seq!['.'] + e) == Some(e),
        stem(s + seq!['.'] + e) == s,
        ending(seq!['.'] + e) is None,
        stem(seq!['.'] + e) == seq!['.'] + e,
{
    reveal_strlit("..");
    let name = s + seq!['.'] + e;
    lemma_last_found(s, '.', e, '.', '.', e.len() as int);
    assert(name.len() == s.len() + 1 + e.len());
    assert(name.skip(s.len() as int + 1) =~= e);
    assert(name.take(s.len() as int) =~= s);
    assert(name != ".."@) by {
        assert(name.len() >= 3);
    }
    let hidden = seq!['.'] + e;
    lemma_last_found(Seq::empty(), '.', e, '.', '.', e.len() as int);
    assert(Seq::<char>::empty() + seq!['.'] + e =~= hidden);
}

/// The name of a file is what stands behind the last stroke of its path, of either kind.
pub proof fn law_names_of_files(dir: Seq<char>, name: Seq<char>, stroke: char)
    requires
        stroke == '/' || stroke == '\\',
        name.len() > 0,
        !name.contains('/'),
        !name.contains('\\'),
        name.last() != '.',
    ensures
        name_of_file(dir + seq![stroke] + name) == name,
{
    let path = dir + seq![stroke] + name;
    assert(path.last() == name.last());
    assert(name.contains(name.last()));
    assert(!has_idle_end(path));
    lemma_last_found(dir, stroke, name, '/', '\\', name.len() as int);
    assert(path.len() == dir.len() + 1 + name.len());
    assert(path.skip(dir.len() as int + 1) =~= name);
}

/// What stands behind a question mark is not part of an address's path.
pub proof fn law_paths_of_addresses(path: Seq<char>, query: Seq<char>)
    requires
        !path.contains('?'),
        !path.contains('#'),
    ensures
        url_path(path) == path,
        url_path(path + seq!['?'] + query) == path,
        url_path(path + seq!['#'] + query) == path,
{
    lemma_not_in(path, '?');
    lemma_not_in(path, '#');
    assert(path.take(path.len() as int) =~= path);
    lemma_first_mark(path, '?', '#', query);
    lemma_first_mark(path, '#', '?', query);
    assert((path + seq!['?'] + query).take(path.len() as int) =~= path);
    assert((path + seq!['#'] + query).take(path.len() as int) =~= path);
}

proof fn lemma_not_in(s: Seq<char>, c: char)
    requires
        !s.contains(c),
    ensures
        position(s, c, 0) == s.len(),
{
    crate::text::lemma_position(s, c, 0);
    let i = position(s, c, 0);
    if i < s.len() {
        assert(s.contains(s[i]));
    }
}

proof fn lemma_first_mark(path: Seq<char>, c: char, other: char, query: Seq<char>)
    requires
        !path.contains(c),
        !path.contains(other),
        c != other,
    ensures
        position(path + seq![c] + query, c, 0) == path.len(),
        position(path + seq![c] + query, other, 0) > path.len(),
{
    let s = path + seq![c] + query;
    crate::text::lemma_position(s, c, 0);
    crate::text::lemma_position(s, other, 0);
    let i = position(s, c, 0);
    let j = position(s, other, 0);
    assert(s[path.len() as int] == c);
    if i < path.len() {
        assert(s[i] == path[i]);
        assert(path.contains(path[i]));
    }
    if j < path.len() {
        assert(s[j] == path[j]);
        assert(path.contains(path[j]));
    }
}

/// Of two versions the one is older whose first different number is smaller, or that ends
/// where the other goes on.
pub proof fn law_older_versions(a: Seq<u64>, b: Seq<u64>, i: int)
    requires
        0 <= i <= a.len(),
        i < b.len(),
        forall|j: int| 0 <= j < i ==> a[j] == b[j],
        i < a.len() ==> a[i] < b[i],
    ensures
        numbers_before(a, b, 0),
        !numbers_before(b, a, 0),
{
    lemma_older(a, b, i, 0);
    law_upgraded(a, b);
}

proof fn lemma_older(a: Seq<u64>, b: Seq<u64>, i: int, k: int)
    requires
        0 <= k <= i <= a.len(),
        i < b.len(),
        forall|j: int| 0 <= j < i ==> a[j] == b[j],
        i < a.len() ==> a[i] < b[i],
    ensures
        numbers_before(a, b, k),
    decreases i - k,
{
    if k < i {
        lemma_older(a, b, i, k + 1);
    }
}

/// An answer is a success from two hundred up to three hundred.
pub proof fn law_what_a_success_is(code: u16)
    ensures
        is_success(code) <==> code / 100 == 2,
{
}

/// A challenge is answered by the digest of the name and the password, the number that was sent
/// and what is asked for; where the TV offers it, together with a number of our own.
pub proof fn law_answers_to_challenges(
    challenge: Seq<char>,
    rest: Seq<char>,
    user: Seq<char>,
    pass: Seq<char>,
    method: Seq<char>,
    uri: Seq<char>,
    cnonce: Seq<char>,
    realm: Seq<char>,
    nonce: Seq<char>,
)
    requires
        after_start(trim(challenge), "Digest"@) == Some(rest),
        challenge_field(rest, "realm"@) == Some(realm),
        challenge_field(rest, "nonce"@) == Some(nonce),
    ensures
        ({
            let secret = md5_text(user + ":"@ + realm + ":"@ + pass);
            let asked = md5_text(method + ":"@ + uri);
            let who = "Digest username=\""@ + user + "\", realm=\""@ + realm + "\", nonce=\""@ + nonce + "\", uri=\""@
                + uri + "\", "@;
            &&& challenge_field(rest, "qop"@) is None ==> digest_answer(challenge, user, pass, method, uri, cnonce) == Some(
                who + "response=\""@ + md5_text(secret + ":"@ + nonce + ":"@ + asked) + "\""@,
            )
            &&& (challenge_field(rest, "qop"@) matches Some(o) && offers_auth(o)) ==> digest_answer(
                challenge,
                user,
                pass,
                method,
                uri,
                cnonce,
            ) == Some(
                who + "qop=auth, nc=00000001, cnonce=\""@ + cnonce + "\", response=\""@ + md5_text(
                    secret + ":"@ + nonce + ":00000001:"@ + cnonce + ":auth:"@ + asked,
                ) + "\""@,
            )
        }),
{
}

} // verus!
