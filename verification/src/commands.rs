//! What the window of the program and the tray ask for: files and links to be played,
//! entries of the menu, and the end of the log.

use vstd::prelude::*;
use vstd::string::*;
use crate::control::{transport_cmd, transport_of};
use crate::home::{device_at, find_device, Entry};
use crate::media_server::{lines_from, text_lines};
use crate::roku_player::{
    ending, file_name_of, find_ending, find_last, format_of_path, last_of, name_of_file, stem, stream_format,
    url_path,
};
use crate::text::{
    chars_of, copy_range, decimal, decimal_text, is_str, lower, parse_nat, parse_unsigned, split, split_char,
    starts, starts_with, str_same, string_of, texts, to_lower, trim, trim_str, views, within,
};
use crate::types::{item_model, AppGroup, Backend, CastItem, DeviceCmd, ItemModel};

verus! {

// ---------------------------------------------------------------------------
// The clock
// ---------------------------------------------------------------------------

/// `std::time::SystemTime::now` as whole seconds since 1970, zero if it is earlier.
/// What it is is not said: it depends on the time.
#[verifier::external_body]
fn clock_seconds() -> (r: u64) {
    std::time::SystemTime::now().duration_since(std::time::UNIX_EPOCH).map(|d| d.as_secs()).unwrap_or(0)
}

/// Seconds as a signed number, which holds all but those of a distant future.
pub open spec fn signed_seconds(secs: u64) -> i64 {
    if secs > i64::MAX {
        i64::MAX
    } else {
        secs as i64
    }
}

/// Seconds as a signed number.
pub fn to_signed(secs: u64) -> (r: i64)
    ensures
        r == signed_seconds(secs),
{
    if secs > i64::MAX as u64 {
        i64::MAX
    } else {
        secs as i64
    }
}

/// The time in seconds since 1970.
pub fn now_ts() -> (r: i64)
    ensures
        exists|secs: u64| r == #[trigger] signed_seconds(secs),
{
    let s: u64 = clock_seconds();
    let r: i64 = to_signed(s);
    proof {
        assert(r == signed_seconds(s));
    }
    r
}

// ---------------------------------------------------------------------------
// Devices
// ---------------------------------------------------------------------------

/// The kind and the address of a device.
pub fn device_backend(devices: &Vec<Entry>, id: &str) -> (r: Result<(Backend, String), String>)
    ensures
        match device_at(devices@, id@) {
            Some(i) => r matches Ok((b, ip)) && b == devices@[i].info.backend && ip@ == devices@[i].info.ip@,
            None => r matches Err(e) && e@ == "Unknown device."@,
        },
{
    match find_device(devices, id) {
        Some(i) => Ok((devices[i].info.backend, devices[i].info.ip.clone())),
        None => Err("Unknown device.".to_string()),
    }
}

/// The address of a TV, and whether it has to be turned on first.
pub fn tv_ready(devices: &Vec<Entry>, id: &str) -> (r: Result<(String, bool), String>)
    ensures
        match device_at(devices@, id@) {
            Some(i) => r matches Ok((ip, off)) && ip@ == devices@[i].info.ip@ && off == (devices@[i].info.tv is Some && (
            devices@[i].info.tv->0).power == Some(false)),
            None => r matches Err(e) && e@ == "Unknown device."@,
        },
{
    match find_device(devices, id) {
        Some(i) => {
            let off: bool = match &devices[i].info.tv {
                Some(t) => match t.power {
                    Some(p) => !p,
                    None => false,
                },
                None => false,
            };
            Ok((devices[i].info.ip.clone(), off))
        },
        None => Err("Unknown device.".to_string()),
    }
}

// ---------------------------------------------------------------------------
// Files
// ---------------------------------------------------------------------------

/// Whether Cast devices play files with an ending in small letters.
pub open spec fn is_cast_ending(e: Seq<char>) -> bool {
    e == "mp4"@ || e == "m4v"@ || e == "webm"@ || e == "mkv"@ || e == "mov"@ || e == "mp3"@ || e == "m4a"@ || e == "aac"@
        || e == "flac"@ || e == "wav"@ || e == "ogg"@ || e == "opus"@
}

/// Whether Cast devices play a file.
pub open spec fn plays_on_cast(path: Seq<char>) -> bool {
    match ending(name_of_file(path)) {
        Some(e) => is_cast_ending(lower(e)),
        None => false,
    }
}

/// Whether Cast devices play a file.
pub fn can_cast(path: &str) -> (r: bool)
    ensures
        r == plays_on_cast(path@),
{
    let c = chars_of(path);
    let name = file_name_of(c.as_slice());
    match find_ending(name.as_slice()) {
        Some(e) => {
            let l = to_lower(e.as_slice());
            let x = l.as_slice();
            is_str(x, "mp4") || is_str(x, "m4v") || is_str(x, "webm") || is_str(x, "mkv") || is_str(x, "mov") || is_str(
                x,
                "mp3",
            ) || is_str(x, "m4a") || is_str(x, "aac") || is_str(x, "flac") || is_str(x, "wav") || is_str(x, "ogg")
                || is_str(x, "opus")
        },
        None => false,
    }
}

/// Whether a device of a kind plays a file.
pub open spec fn plays(cast: bool, path: Seq<char>) -> bool {
    if cast {
        plays_on_cast(path)
    } else {
        format_of_path(path) is Some
    }
}

/// The names of those of the first `n` files that a device does not play. Files
/// without a name are passed over.
pub open spec fn not_played(cast: bool, paths: Seq<Seq<char>>, n: int) -> Seq<Seq<char>>
    decreases n,
{
    if n <= 0 {
        Seq::empty()
    } else {
        let before = not_played(cast, paths, n - 1);
        let name = name_of_file(paths[n - 1]);
        if plays(cast, paths[n - 1]) || name.len() == 0 || name == ".."@ {
            before
        } else {
            before.push(name)
        }
    }
}

/// What is said when some files are not played.
pub open spec fn unsupported_text(cast: bool, names: Seq<Seq<char>>) -> Seq<char> {
    (if cast {
        "Cast devices play MP4, WebM, MKV and MOV video and MP3, M4A, AAC, FLAC, WAV and OGG audio. Not supported: "@
    } else {
        "Roku TVs play MP4, MOV, MKV and TS video files. Not supported: "@
    }) + crate::calendar::joined(names, ", "@, names.len() as int)
}

/// Whether a device plays all of some files, or which it does not.
pub fn check_files(cast: bool, paths: &Vec<String>) -> (r: Result<(), String>)
    ensures
        ({
            let bad = not_played(cast, texts(paths@), paths@.len() as int);
            match r {
                Ok(_) => bad.len() == 0,
                Err(e) => bad.len() > 0 && e@ == unsupported_text(cast, bad),
            }
        }),
{
    let ghost m = texts(paths@);
    let mut bad: Vec<String> = Vec::new();
    let mut i: usize = 0;
    proof {
        assert(texts(bad@) =~= Seq::<Seq<char>>::empty());
    }
    while i < paths.len()
        invariant
            i <= paths@.len(),
            m == texts(paths@),
            texts(bad@) == not_played(cast, m, i as int),
        decreases paths@.len() - i,
    {
        proof {
            assert(m[i as int] == paths@[i as int]@);
        }
        let ok: bool = if cast {
            can_cast(paths[i].as_str())
        } else {
            stream_format(paths[i].as_str()).is_some()
        };
        if !ok {
            let c = chars_of(paths[i].as_str());
            let name = file_name_of(c.as_slice());
            if name.len() > 0 && !is_str(name.as_slice(), "..") {
                let ghost before = texts(bad@);
                bad.push(string_of(name.as_slice()));
                proof {
                    assert(texts(bad@) =~= before.push(name@));
                }
            }
        }
        i = i + 1;
    }
    proof {
        assert(texts(bad@).len() == bad@.len());
    }
    if bad.len() == 0 {
        return Ok(());
    }
    let list = crate::calendar::join_texts(&bad, ", ");
    Err(
        (if cast {
            "Cast devices play MP4, WebM, MKV and MOV video and MP3, M4A, AAC, FLAC, WAV and OGG audio. Not supported: ".to_string()
        } else {
            "Roku TVs play MP4, MOV, MKV and TS video files. Not supported: ".to_string()
        }).concat(list.as_str()),
    )
}

/// The title of a file: its name without its ending, or another if it has no name.
pub fn file_title(path: &str, other: &str) -> (r: String)
    ensures
        r@ == (if name_of_file(path@).len() == 0 || name_of_file(path@) == ".."@ {
            other@
        } else {
            stem(name_of_file(path@))
        }),
{
    let c = chars_of(path);
    let name = file_name_of(c.as_slice());
    if name.len() == 0 || is_str(name.as_slice(), "..") {
        return other.to_string();
    }
    let s = crate::roku_player::find_stem(name.as_slice());
    string_of(s.as_slice())
}

// ---------------------------------------------------------------------------
// Links
// ---------------------------------------------------------------------------

/// Whether a text is a link of the web.
pub open spec fn is_link(url: Seq<char>) -> bool {
    starts(url, "http://"@) || starts(url, "https://"@)
}

/// A link without space around it, or why it is none.
pub fn check_link(url: &str) -> (r: Result<String, String>)
    ensures
        match r {
            Ok(u) => u@ == trim(url@) && is_link(u@),
            Err(e) => !is_link(trim(url@)) && e@
                == "That doesn't look like a web link (it should start with http:// or https://)."@,
        },
{
    let u = trim_str(url);
    if starts_with(u.as_str(), "http://") || starts_with(u.as_str(), "https://") {
        Ok(u)
    } else {
        Err("That doesn't look like a web link (it should start with http:// or https://).".to_string())
    }
}

/// Whether a text ends with another.
pub open spec fn ends(s: Seq<char>, with: Seq<char>) -> bool {
    with.len() <= s.len() && s.skip(s.len() - with.len()) == with
}

fn ends_with(s: &[char], with: &str) -> (r: bool)
    ensures
        r == ends(s@, with@),
{
    let w = chars_of(with);
    if w.len() > s.len() {
        return false;
    }
    let at: usize = s.len() - w.len();
    proof {
        assert(s@.skip(at as int) =~= s@.subrange(at as int, s@.len() as int));
    }
    crate::text::has_at(s, w.as_slice(), at)
}

/// The type of content behind a link, for Cast devices: video, unless its ending says
/// otherwise.
pub open spec fn link_type_of(url: Seq<char>) -> Seq<char> {
    let p = lower(url_path(url));
    if ends(p, ".m3u8"@) {
        "application/x-mpegURL"@
    } else if ends(p, ".mp3"@) {
        "audio/mpeg"@
    } else if ends(p, ".webm"@) {
        "video/webm"@
    } else {
        "video/mp4"@
    }
}

/// The title of a link: the last part of its path, or another if that is empty.
pub open spec fn link_title_of(url: Seq<char>, other: Seq<char>) -> Seq<char> {
    let p = url_path(url);
    let t = p.skip(last_of(p, '/', '/', p.len() as int) + 1);
    if t.len() == 0 {
        other
    } else {
        t
    }
}

fn path_of_link(url: &str) -> (r: Vec<char>)
    ensures
        r@ == url_path(url@),
{
    let c = chars_of(url);
    let a: usize = crate::text::find_char(c.as_slice(), '?', 0);
    let b: usize = crate::text::find_char(c.as_slice(), '#', 0);
    let p = copy_range(
        c.as_slice(),
        0,
        if a < b {
            a
        } else {
            b
        },
    );
    proof {
        assert(p@ =~= url_path(url@));
    }
    p
}

/// The type of content behind a link, for Cast devices.
pub fn link_type(url: &str) -> (r: &'static str)
    ensures
        r@ == link_type_of(url@),
{
    let p = path_of_link(url);
    let l = to_lower(p.as_slice());
    if ends_with(l.as_slice(), ".m3u8") {
        "application/x-mpegURL"
    } else if ends_with(l.as_slice(), ".mp3") {
        "audio/mpeg"
    } else if ends_with(l.as_slice(), ".webm") {
        "video/webm"
    } else {
        "video/mp4"
    }
}

/// The title of a link.
pub fn link_title(url: &str, other: &str) -> (r: String)
    ensures
        r@ == link_title_of(url@, other@),
{
    let p = path_of_link(url);
    let from: usize = match find_last(p.as_slice(), '/', '/') {
        Some(i) => i + 1,
        None => 0,
    };
    let t = copy_range(p.as_slice(), from, p.len());
    proof {
        assert(t@ =~= url_path(url@).skip(last_of(url_path(url@), '/', '/', url_path(url@).len() as int) + 1));
    }
    if t.len() == 0 {
        other.to_string()
    } else {
        string_of(t.as_slice())
    }
}

/// What a Cast device is told to play a link.
pub fn link_item(url: &str) -> (r: CastItem)
    ensures
        item_model(r) == (ItemModel {
            url: url@,
            title: link_title_of(url@, "Media"@),
            content_type: link_type_of(url@),
            subtitles: None,
            autoplay: true,
        }),
{
    CastItem {
        url: url.to_string(),
        title: link_title(url, "Media"),
        content_type: link_type(url).to_string(),
        subtitles: None,
        autoplay: true,
    }
}

// ---------------------------------------------------------------------------
// The log
// ---------------------------------------------------------------------------

/// The last `n` of some lines.
pub open spec fn last_lines(lines: Seq<Seq<char>>, n: int) -> Seq<Seq<char>> {
    if lines.len() > n {
        lines.skip(lines.len() - n)
    } else {
        lines
    }
}

/// The last `n` lines of a log.
pub fn tail(text: &str, n: usize) -> (r: Vec<String>)
    ensures
        texts(r@) == last_lines(lines_from(text@, 0), n as int),
{
    let c = chars_of(text);
    let lines = text_lines(c.as_slice());
    let ghost m = views(lines@);
    proof {
        assert(m.len() == lines@.len());
    }
    let from: usize = if lines.len() > n {
        lines.len() - n
    } else {
        0
    };
    let mut out: Vec<String> = Vec::new();
    let mut i: usize = from;
    while i < lines.len()
        invariant
            from <= i <= lines@.len(),
            m == views(lines@),
            m.len() == lines@.len(),
            texts(out@) =~= m.subrange(from as int, i as int),
        decreases lines@.len() - i,
    {
        let ghost before = texts(out@);
        out.push(string_of(lines[i].as_slice()));
        proof {
            assert(m[i as int] == lines@[i as int]@);
            assert(texts(out@) =~= before.push(m[i as int]));
        }
        i = i + 1;
    }
    proof {
        assert(m.subrange(from as int, m.len() as int) =~= last_lines(m, n as int));
    }
    out
}

/// The position of the latest of some times, the first of equal ones.
pub fn newest(times: &Vec<i64>) -> (r: Option<usize>)
    ensures
        match r {
            None => times@.len() == 0,
            Some(i) => i < times@.len() && (forall|k: int| 0 <= k < times@.len() ==> times@[k] <= times@[i as int])
                && forall|k: int| 0 <= k < i ==> times@[k] < times@[i as int],
        },
{
    if times.len() == 0 {
        return None;
    }
    let mut best: usize = 0;
    let mut i: usize = 1;
    while i < times.len()
        invariant
            best < i <= times@.len(),
            forall|k: int| 0 <= k < i ==> times@[k] <= times@[best as int],
            forall|k: int| 0 <= k < best ==> times@[k] < times@[best as int],
        decreases times@.len() - i,
    {
        if times[i] > times[best] {
            best = i;
        }
        i = i + 1;
    }
    Some(best)
}

// ---------------------------------------------------------------------------
// The menu of the tray
// ---------------------------------------------------------------------------

/// An entry of the menu: what it is known by and what it says. An entry with neither
/// is a line.
#[derive(Debug)]
pub struct MenuEntry {
    pub id: String,
    pub label: String,
}

pub open spec fn menu_models(v: Seq<MenuEntry>) -> Seq<(Seq<char>, Seq<char>)> {
    v.map_values(|e: MenuEntry| (e.id@, e.label@))
}

/// The entry that brings a group to so many per cent.
pub open spec fn volume_entry(group: Seq<char>, pct: int) -> (Seq<char>, Seq<char>) {
    ("gv|"@ + group + "|"@ + decimal(pct), decimal(pct) + "%"@)
}

/// The entries for the volumes of a group: every five per cent, the first `n` of them.
pub open spec fn volume_entries(group: Seq<char>, n: int) -> Seq<(Seq<char>, Seq<char>)> {
    Seq::new(
        if n > 0 {
            n as nat
        } else {
            0
        },
        |i: int| volume_entry(group, 5 * i + 5),
    )
}

pub open spec fn transport_entry(group: Seq<char>, action: Seq<char>, label: Seq<char>) -> (Seq<char>, Seq<char>) {
    ("gt|"@ + group + "|"@ + action, label)
}

/// The entries for a group: its volumes, a line, and the controls.
pub open spec fn group_entries(group: Seq<char>) -> Seq<(Seq<char>, Seq<char>)> {
    volume_entries(group, 20) + seq![
        (""@, ""@),
        transport_entry(group, "play"@, "Play"@),
        transport_entry(group, "pause"@, "Pause"@),
        transport_entry(group, "next"@, "Next"@),
        transport_entry(group, "prev"@, "Previous"@),
    ]
}

fn push_entry(out: &mut Vec<MenuEntry>, id: String, label: String)
    ensures
        menu_models(final(out)@) == menu_models(old(out)@).push((id@, label@)),
{
    let ghost m = (id@, label@);
    out.push(MenuEntry { id, label });
    proof {
        assert(menu_models(out@) =~= menu_models(old(out)@).push(m));
    }
}

fn transport_id(group: &str, action: &str) -> (r: String)
    ensures
        r@ == "gt|"@ + group@ + "|"@ + action@,
{
    "gt|".to_string().concat(group).concat("|").concat(action)
}

/// The entries of the menu for a group.
pub fn group_menu(group: &str) -> (out: Vec<MenuEntry>)
    ensures
        menu_models(out@) == group_entries(group@),
{
    let mut out: Vec<MenuEntry> = Vec::new();
    let mut i: u64 = 0;
    while i < 20
        invariant
            i <= 20,
            menu_models(out@) =~= volume_entries(group@, i as int),
        decreases 20 - i,
    {
        let n = string_of(decimal_text(5 * i + 5).as_slice());
        let id = "gv|".to_string().concat(group).concat("|").concat(n.as_str());
        push_entry(&mut out, id, n.concat("%"));
        i = i + 1;
    }
    push_entry(&mut out, "".to_string(), "".to_string());
    push_entry(&mut out, transport_id(group, "play"), "Play".to_string());
    push_entry(&mut out, transport_id(group, "pause"), "Pause".to_string());
    push_entry(&mut out, transport_id(group, "next"), "Next".to_string());
    push_entry(&mut out, transport_id(group, "prev"), "Previous".to_string());
    proof {
        assert(menu_models(out@) =~= group_entries(group@));
    }
    out
}

/// A part of the menu.
#[derive(Debug)]
pub enum MenuPart {
    /// The menu of a group, under its name.
    Group(String, Vec<MenuEntry>),
    Line,
    Entry(MenuEntry),
}

pub enum PartModel {
    Group(Seq<char>, Seq<(Seq<char>, Seq<char>)>),
    Line,
    Entry(Seq<char>, Seq<char>),
}

impl MenuPart {
    pub open spec fn model(self) -> PartModel {
        match self {
            MenuPart::Group(name, entries) => PartModel::Group(name@, menu_models(entries@)),
            MenuPart::Line => PartModel::Line,
            MenuPart::Entry(e) => PartModel::Entry(e.id@, e.label@),
        }
    }
}

pub open spec fn part_models(v: Seq<MenuPart>) -> Seq<PartModel> {
    v.map_values(|p: MenuPart| p.model())
}

/// The menus of groups, in their order.
pub open spec fn group_parts(groups: Seq<AppGroup>) -> Seq<PartModel> {
    groups.map_values(|g: AppGroup| PartModel::Group(g.name@, group_entries(g.id@)))
}

/// The whole menu: a menu for each group, in their order, and a line behind them where
/// there is one, then what opens the program and what ends it.
pub open spec fn whole_menu(groups: Seq<AppGroup>) -> Seq<PartModel> {
    group_parts(groups) + (if groups.len() > 0 {
        seq![PartModel::Line]
    } else {
        Seq::empty()
    }) + seq![PartModel::Entry("open"@, "Open App"@), PartModel::Entry("exit"@, "Exit"@)]
}

fn push_part(out: &mut Vec<MenuPart>, p: MenuPart)
    ensures
        part_models(final(out)@) == part_models(old(out)@).push(p.model()),
{
    let ghost m = p.model();
    out.push(p);
    proof {
        assert(part_models(out@) =~= part_models(old(out)@).push(m));
    }
}

/// The whole menu.
pub fn build_menu(groups: &Vec<AppGroup>) -> (out: Vec<MenuPart>)
    ensures
        part_models(out@) == whole_menu(groups@),
{
    let mut out: Vec<MenuPart> = Vec::new();
    let mut i: usize = 0;
    while i < groups.len()
        invariant
            i <= groups@.len(),
            part_models(out@) =~= group_parts(groups@).take(i as int),
        decreases groups@.len() - i,
    {
        let g = &groups[i];
        push_part(&mut out, MenuPart::Group(g.name.clone(), group_menu(g.id.as_str())));
        i = i + 1;
    }
    if groups.len() > 0 {
        push_part(&mut out, MenuPart::Line);
    }
    push_part(&mut out, MenuPart::Entry(MenuEntry { id: "open".to_string(), label: "Open App".to_string() }));
    push_part(&mut out, MenuPart::Entry(MenuEntry { id: "exit".to_string(), label: "Exit".to_string() }));
    proof {
        assert(part_models(out@) =~= whole_menu(groups@));
    }
    out
}

/// What an entry of the menu asks for.
#[derive(Debug)]
pub enum MenuAct {
    Open,
    Exit,
    /// Bring a group to a level.
    Volume(String, i64),
    Transport(String, DeviceCmd),
    Nothing,
}

pub enum MenuModel {
    Open,
    Exit,
    Volume(Seq<char>, int),
    Transport(Seq<char>, DeviceCmd),
    Nothing,
}

impl MenuAct {
    pub open spec fn model(self) -> MenuModel {
        match self {
            MenuAct::Open => MenuModel::Open,
            MenuAct::Exit => MenuModel::Exit,
            MenuAct::Volume(g, l) => MenuModel::Volume(g@, l as int),
            MenuAct::Transport(g, c) => MenuModel::Transport(g@, c),
            MenuAct::Nothing => MenuModel::Nothing,
        }
    }
}

/// What an entry of the menu asks for.
pub open spec fn chosen(id: Seq<char>) -> MenuModel {
    let p = split(id, '|');
    if id == "open"@ {
        MenuModel::Open
    } else if id == "exit"@ {
        MenuModel::Exit
    } else if p.len() == 3 && p[0] == "gv"@ {
        match within(parse_nat(p[2]), 0, 100_000) {
            Some(n) => MenuModel::Volume(p[1], 10_000 * n),
            None => MenuModel::Nothing,
        }
    } else if p.len() == 3 && p[0] == "gt"@ {
        match transport_of(p[2]) {
            Some(c) => MenuModel::Transport(p[1], c),
            None => MenuModel::Nothing,
        }
    } else {
        MenuModel::Nothing
    }
}

/// What an entry of the menu asks for.
pub fn menu_action(id: &str) -> (r: MenuAct)
    ensures
        r.model() == chosen(id@),
{
    if str_same(id, "open") {
        return MenuAct::Open;
    }
    if str_same(id, "exit") {
        return MenuAct::Exit;
    }
    let c = chars_of(id);
    let p = split_char(c.as_slice(), '|');
    let ghost m = views(p@);
    proof {
        assert(m.len() == p@.len());
    }
    if p.len() != 3 {
        return MenuAct::Nothing;
    }
    proof {
        assert(m[0] == p@[0]@ && m[1] == p@[1]@ && m[2] == p@[2]@);
    }
    if is_str(p[0].as_slice(), "gv") {
        match parse_unsigned(p[2].as_slice(), 100_000) {
            Some(n) => MenuAct::Volume(string_of(p[1].as_slice()), 10_000 * n as i64),
            None => MenuAct::Nothing,
        }
    } else if is_str(p[0].as_slice(), "gt") {
        let a = string_of(p[2].as_slice());
        match transport_cmd(a.as_str()) {
            Some(cmd) => MenuAct::Transport(string_of(p[1].as_slice()), cmd),
            None => MenuAct::Nothing,
        }
    } else {
        MenuAct::Nothing
    }
}

/// Every entry of the menu does what it says: choosing a volume of a group brings that
/// group to it, and choosing a control sends it to that group.
pub proof fn law_menu_entries_work(group: Seq<char>, pct: int, action: Seq<char>, label: Seq<char>)
    requires
        forall|i: int| 0 <= i < group.len() ==> group[i] != '|',
        0 <= pct <= 100,
        transport_of(action) is Some,
    ensures
        chosen(volume_entry(group, pct).0) == MenuModel::Volume(group, 10_000 * pct),
        chosen(transport_entry(group, action, label).0) == MenuModel::Transport(group, transport_of(action)->0),
{
    reveal_strlit("gv|");
    reveal_strlit("gt|");
    reveal_strlit("gv");
    reveal_strlit("gt");
    reveal_strlit("|");
    reveal_strlit("open");
    reveal_strlit("exit");
    reveal_strlit("play");
    reveal_strlit("pause");
    reveal_strlit("next");
    reveal_strlit("prev");
    let d = decimal(pct);
    crate::text::law_decimal_round_trip(pct);
    assert forall|i: int| 0 <= i < d.len() implies d[i] != '|' by {
        assert(crate::text::is_digit(d[i]));
    }
    crate::text::lemma_three_pieces("gv"@, group, d, '|');
    crate::text::lemma_three_pieces("gt"@, group, action, '|');
    let a = volume_entry(group, pct).0;
    let b = transport_entry(group, action, label).0;
    assert(a =~= "gv"@ + seq!['|'] + group + seq!['|'] + d);
    assert(b =~= "gt"@ + seq!['|'] + group + seq!['|'] + action);
    assert(a[2] == '|' && b[2] == '|');
    assert("open"@[2] == 'e' && "exit"@[2] == 'i');
    assert("gv"@[1] != "gt"@[1]);
}

/// What a Cast device plays, by the ending of the file's name.
pub proof fn law_what_cast_devices_play(e: Seq<char>)
    ensures
        is_cast_ending("mp4"@),
        is_cast_ending("m4v"@),
        is_cast_ending("webm"@),
        is_cast_ending("mkv"@),
        is_cast_ending("mov"@),
        is_cast_ending("mp3"@),
        is_cast_ending("m4a"@),
        is_cast_ending("aac"@),
        is_cast_ending("flac"@),
        is_cast_ending("wav"@),
        is_cast_ending("ogg"@),
        is_cast_ending("opus"@),
        is_cast_ending(e) ==> e.len() == 3 || e.len() == 4,
{
    reveal_strlit("mp4");
    assert("mp4"@.len() == 3 && "mp4"@[0] == 'm' && "mp4"@[1] == 'p' && "mp4"@[2] == '4');
    reveal_strlit("m4v");
    assert("m4v"@.len() == 3 && "m4v"@[0] == 'm' && "m4v"@[1] == '4' && "m4v"@[2] == 'v');
    reveal_strlit("webm");
    assert("webm"@.len() == 4 && "webm"@[0] == 'w' && "webm"@[1] == 'e' && "webm"@[2] == 'b' && "webm"@[3] == 'm');
    reveal_strlit("mkv");
    assert("mkv"@.len() == 3 && "mkv"@[0] == 'm' && "mkv"@[1] == 'k' && "mkv"@[2] == 'v');
    reveal_strlit("mov");
    assert("mov"@.len() == 3 && "mov"@[0] == 'm' && "mov"@[1] == 'o' && "mov"@[2] == 'v');
    reveal_strlit("mp3");
    assert("mp3"@.len() == 3 && "mp3"@[0] == 'm' && "mp3"@[1] == 'p' && "mp3"@[2] == '3');
    reveal_strlit("m4a");
    assert("m4a"@.len() == 3 && "m4a"@[0] == 'm' && "m4a"@[1] == '4' && "m4a"@[2] == 'a');
    reveal_strlit("aac");
    assert("aac"@.len() == 3 && "aac"@[0] == 'a' && "aac"@[1] == 'a' && "aac"@[2] == 'c');
    reveal_strlit("flac");
    assert("flac"@.len() == 4 && "flac"@[0] == 'f' && "flac"@[1] == 'l' && "flac"@[2] == 'a' && "flac"@[3] == 'c');
    reveal_strlit("wav");
    assert("wav"@.len() == 3 && "wav"@[0] == 'w' && "wav"@[1] == 'a' && "wav"@[2] == 'v');
    reveal_strlit("ogg");
    assert("ogg"@.len() == 3 && "ogg"@[0] == 'o' && "ogg"@[1] == 'g' && "ogg"@[2] == 'g');
    reveal_strlit("opus");
    assert("opus"@.len() == 4 && "opus"@[0] == 'o' && "opus"@[1] == 'p' && "opus"@[2] == 'u' && "opus"@[3] == 's');
}

/// The menu of a group has every volume from five per cent to a hundred in steps of five, each
/// with its per cent as its label, and then play, pause, next and previous, each of which does
/// what it says.
pub proof fn law_the_menu_of_a_group(group: Seq<char>, k: int)
    requires
        forall|i: int| 0 <= i < group.len() ==> group[i] != '|',
        0 <= k < 20,
    ensures
        ({
            let m = group_entries(group);
            &&& m.len() == 25
            &&& chosen(m[k].0) == MenuModel::Volume(group, 50_000 * (k + 1))
            &&& m[k].1 == decimal(5 * (k + 1)) + "%"@
            &&& chosen(m[21].0) == MenuModel::Transport(group, DeviceCmd::Play) && m[21].1 == "Play"@
            &&& chosen(m[22].0) == MenuModel::Transport(group, DeviceCmd::Pause) && m[22].1 == "Pause"@
            &&& chosen(m[23].0) == MenuModel::Transport(group, DeviceCmd::Next) && m[23].1 == "Next"@
            &&& chosen(m[24].0) == MenuModel::Transport(group, DeviceCmd::Prev) && m[24].1 == "Previous"@
        }),
{
    crate::control::law_words_of_commands("play"@);
    crate::control::law_words_of_commands("pause"@);
    crate::control::law_words_of_commands("next"@);
    crate::control::law_words_of_commands("prev"@);
    law_menu_entries_work(group, 5 * k + 5, "play"@, "Play"@);
    law_menu_entries_work(group, 5 * k + 5, "pause"@, "Pause"@);
    law_menu_entries_work(group, 5 * k + 5, "next"@, "Next"@);
    law_menu_entries_work(group, 5 * k + 5, "prev"@, "Previous"@);
    let m = group_entries(group);
    assert(m[k] == volume_entry(group, 5 * k + 5));
    assert(m[21] == transport_entry(group, "play"@, "Play"@));
    assert(m[22] == transport_entry(group, "pause"@, "Pause"@));
    assert(m[23] == transport_entry(group, "next"@, "Next"@));
    assert(m[24] == transport_entry(group, "prev"@, "Previous"@));
}

/// The two entries that are always there open the window and end the program.
pub proof fn law_open_and_exit(groups: Seq<AppGroup>)
    ensures
        chosen("open"@) is Open,
        chosen("exit"@) is Exit,
        ({
            let m = whole_menu(groups);
            &&& m[m.len() - 2] == PartModel::Entry("open"@, "Open App"@)
            &&& m[m.len() - 1] == PartModel::Entry("exit"@, "Exit"@)
            &&& m.len() == groups.len() + (if groups.len() > 0 {
                3int
            } else {
                2
            })
            &&& forall|i: int| 0 <= i < groups.len() ==> #[trigger] m[i] == PartModel::Group(
                groups[i].name@,
                group_entries(groups[i].id@),
            )
        }),
{
    reveal_strlit("open");
    reveal_strlit("exit");
    assert("open"@[0] == 'o' && "exit"@[0] == 'e');
}

/// A link is a stream, a sound or a video of its kind by the end of its path, in letters of
/// either case, and else an ordinary video.
pub proof fn law_what_a_link_is(url: Seq<char>)
    ensures
        ends(lower(url_path(url)), ".m3u8"@) ==> link_type_of(url) == "application/x-mpegURL"@,
        ends(lower(url_path(url)), ".mp3"@) && !ends(lower(url_path(url)), ".m3u8"@) ==> link_type_of(url)
            == "audio/mpeg"@,
        ends(lower(url_path(url)), ".webm"@) && !ends(lower(url_path(url)), ".m3u8"@) && !ends(
            lower(url_path(url)),
            ".mp3"@,
        ) ==> link_type_of(url) == "video/webm"@,
        !ends(lower(url_path(url)), ".m3u8"@) && !ends(lower(url_path(url)), ".mp3"@) && !ends(
            lower(url_path(url)),
            ".webm"@,
        ) ==> link_type_of(url) == "video/mp4"@,
        starts(url, "http://"@) || starts(url, "https://"@) <==> is_link(url),
{
}

proof fn lemma_not_played(cast: bool, paths: Seq<Seq<char>>, n: int, i: int)
    requires
        0 <= i < n <= paths.len(),
        !plays(cast, paths[i]),
        name_of_file(paths[i]).len() > 0,
        name_of_file(paths[i]) != ".."@,
    ensures
        not_played(cast, paths, n).contains(name_of_file(paths[i])),
    decreases n,
{
    let before = not_played(cast, paths, n - 1);
    let all = not_played(cast, paths, n);
    if i < n - 1 {
        lemma_not_played(cast, paths, n - 1, i);
        let at = before.index_of(name_of_file(paths[i]));
        assert(all[at] == name_of_file(paths[i]));
    } else {
        crate::text::lemma_push_contains(before, name_of_file(paths[i]), name_of_file(paths[i]));
    }
}

/// A file that the device does not play is refused by its name.
pub proof fn law_what_is_not_played_is_named(cast: bool, paths: Seq<Seq<char>>, i: int)
    requires
        0 <= i < paths.len(),
        !plays(cast, paths[i]),
        name_of_file(paths[i]).len() > 0,
        name_of_file(paths[i]) != ".."@,
    ensures
        not_played(cast, paths, paths.len() as int).contains(name_of_file(paths[i])),
{
    lemma_not_played(cast, paths, paths.len() as int, i);
}

/// The last lines of a text, or all where there are fewer.
pub proof fn law_the_last_lines(lines: Seq<Seq<char>>, n: int, i: int)
    requires
        0 <= n,
        0 <= i < last_lines(lines, n).len(),
    ensures
        last_lines(lines, n).len() == (if lines.len() < n {
            lines.len() as int
        } else {
            n
        }),
        last_lines(lines, n)[i] == lines[lines.len() - last_lines(lines, n).len() + i],
{
}

} // verus!
