//! Drawing the calendar for TVs: which looks are drawn and when, what the page is
//! told, and which files TVs may fetch.

use vstd::prelude::*;
use vstd::string::*;
use crate::bytes::{percent_decode, percent_text};
use crate::cal_feeds::{status_models, FeedStatus, StatusModel};
use crate::json::{json_quote, json_quoted, list_of, list_text};
use crate::roku_player::{ending, find_ending, last_of, q, quoted};
use crate::roku_remote::{after_start, strip_start_text};
use crate::text::{
    all_digits, chars_of, copy_opt, copy_range, decimal, decimal_text, is_digit, is_str, lower, opt, parse_nat,
    parse_unsigned, replace_char, replaced_char, split, split_char, str_same, string_of, texts, to_lower, views,
    within,
};
use crate::xml::{part_at, parted};

verus! {

// ---------------------------------------------------------------------------
// Looks
// ---------------------------------------------------------------------------

/// A look of the calendar. Each that is in use has pictures of its own.
#[derive(Debug)]
pub struct Variant {
    pub theme: String,
    pub text_pct: u32,
    pub photos: bool,
}

pub struct VariantModel {
    pub theme: Seq<char>,
    pub text_pct: u32,
    pub photos: bool,
}

/// The name of a look, such as `dark-t100-p1`.
pub open spec fn variant_name(v: VariantModel) -> Seq<char> {
    v.theme + "-t"@ + decimal(v.text_pct as int) + "-p"@ + (if v.photos {
        "1"@
    } else {
        "0"@
    })
}

impl Variant {
    pub open spec fn model(self) -> VariantModel {
        VariantModel { theme: self.theme@, text_pct: self.text_pct, photos: self.photos }
    }

    /// The name of the look, which stands in the names of its files.
    pub fn name(&self) -> (r: String)
        ensures
            r@ == variant_name(self.model()),
    {
        let n = string_of(decimal_text(self.text_pct as u64).as_slice());
        self.theme.clone().concat("-t").concat(n.as_str()).concat("-p").concat(
            if self.photos {
                "1"
            } else {
                "0"
            },
        )
    }

    pub fn copy(&self) -> (r: Variant)
        ensures
            r.model() == self.model(),
    {
        Variant { theme: self.theme.clone(), text_pct: self.text_pct, photos: self.photos }
    }

    pub fn same(&self, other: &Variant) -> (r: bool)
        ensures
            r == (self.model() == other.model()),
    {
        str_same(self.theme.as_str(), other.theme.as_str()) && self.text_pct == other.text_pct && self.photos
            == other.photos
    }
}

/// The views of the calendar.
pub open spec fn is_view(s: Seq<char>) -> bool {
    s == "month"@ || s == "week"@ || s == "day"@
}

pub fn known_view(s: &[char]) -> (r: bool)
    ensures
        r == is_view(s@),
{
    is_str(s, "month") || is_str(s, "week") || is_str(s, "day")
}

/// Whether a text is the size in the name of a look: a `t` and one to three digits.
pub open spec fn is_size(s: Seq<char>) -> bool {
    2 <= s.len() <= 4 && s[0] == 't' && all_digits(s.skip(1))
}

/// Whether a text is the name of a look.
pub open spec fn is_variant(s: Seq<char>) -> bool {
    let p = split(s, '-');
    p.len() == 3 && (p[0] == "dark"@ || p[0] == "light"@) && is_size(p[1]) && (p[2] == "p0"@ || p[2] == "p1"@)
}

fn size_ok(s: &[char]) -> (r: bool)
    ensures
        r == is_size(s@),
{
    if s.len() < 2 || s.len() > 4 || s[0] != 't' {
        return false;
    }
    let mut i: usize = 1;
    while i < s.len()
        invariant
            1 <= i <= s@.len(),
            s@.len() == s.len(),
            2 <= s.len() <= 4,
            s@[0] == 't',
            forall|k: int| 1 <= k < i ==> is_digit(#[trigger] s@[k]),
        decreases s@.len() - i,
    {
        if !('0' <= s[i] && s[i] <= '9') {
            proof {
                assert(!is_digit(s@.skip(1)[i - 1]));
            }
            return false;
        }
        i = i + 1;
    }
    proof {
        assert forall|k: int| 0 <= k < s@.skip(1).len() implies is_digit(#[trigger] s@.skip(1)[k]) by {
            assert(is_digit(s@[k + 1]));
        }
    }
    true
}

/// Whether a text is the name of a look.
pub fn is_variant_name(s: &[char]) -> (r: bool)
    ensures
        r == is_variant(s@),
{
    let p = split_char(s, '-');
    let ghost m = views(p@);
    proof {
        assert(m.len() == p@.len());
    }
    if p.len() != 3 {
        return false;
    }
    proof {
        assert(m[0] == p@[0]@ && m[1] == p@[1]@ && m[2] == p@[2]@);
    }
    (is_str(p[0].as_slice(), "dark") || is_str(p[0].as_slice(), "light")) && size_ok(p[1].as_slice()) && (is_str(
        p[2].as_slice(),
        "p0",
    ) || is_str(p[2].as_slice(), "p1"))
}

/// The name of a file of the calendar.
pub open spec fn name_of_picture(variant: Seq<char>, view: Seq<char>, ext: Seq<char>) -> Seq<char> {
    "calendar-"@ + variant + "-"@ + view + "."@ + ext
}

/// The name of a file of the calendar.
pub fn file_name(variant: &str, view: &str, ext: &str) -> (r: String)
    ensures
        r@ == name_of_picture(variant@, view@, ext@),
{
    "calendar-".to_string().concat(variant).concat("-").concat(view).concat(".").concat(ext)
}

/// What stands before and behind the last character of its kind.
pub open spec fn parted_last(s: Seq<char>, c: char) -> Option<(Seq<char>, Seq<char>)> {
    let i = last_of(s, c, c, s.len() as int);
    if i < 0 {
        None
    } else {
        Some((s.take(i), s.skip(i + 1)))
    }
}

fn part_at_last(s: &[char], c: char) -> (r: Option<(Vec<char>, Vec<char>)>)
    ensures
        match r {
            Some((a, b)) => parted_last(s@, c) == Some((a@, b@)),
            None => parted_last(s@, c) is None,
        },
{
    match crate::roku_player::find_last(s, c, c) {
        Some(i) => {
            let a = copy_range(s, 0, i);
            let b = copy_range(s, i + 1, s.len());
            proof {
                assert(a@ =~= s@.take(i as int));
                assert(b@ =~= s@.skip(i + 1));
            }
            Some((a, b))
        },
        None => None,
    }
}

/// Whether a file may be fetched: it is a picture or a video of a view of a look.
pub open spec fn is_served(name: Seq<char>) -> bool {
    match after_start(name, "calendar-"@) {
        None => false,
        Some(rest) => match parted_last(rest, '.') {
            None => false,
            Some((stem, ext)) => match parted_last(stem, '-') {
                None => false,
                Some((variant, view)) => is_variant(variant) && is_view(view) && (ext == "jpg"@ || ext == "mp4"@),
            },
        },
    }
}

/// Whether a file may be fetched by TVs.
pub fn is_served_name(name: &str) -> (r: bool)
    ensures
        r == is_served(name@),
{
    match strip_start_text(name, "calendar-") {
        None => false,
        Some(rest) => {
            let c = chars_of(rest.as_str());
            match part_at_last(c.as_slice(), '.') {
                None => false,
                Some((stem, ext)) => match part_at_last(stem.as_slice(), '-') {
                    None => false,
                    Some((variant, view)) => is_variant_name(variant.as_slice()) && known_view(view.as_slice()) && (is_str(
                        ext.as_slice(),
                        "jpg",
                    ) || is_str(ext.as_slice(), "mp4")),
                },
            }
        },
    }
}

proof fn lemma_last_of(s: Seq<char>, c: char, i: int, n: int)
    requires
        0 <= i < n <= s.len(),
        s[i] == c,
        forall|j: int| i < j < n ==> s[j] != c,
    ensures
        last_of(s, c, c, n) == i,
    decreases n,
{
    if n - 1 > i {
        lemma_last_of(s, c, i, n - 1);
    }
}

proof fn lemma_small_decimal(n: int)
    requires
        0 <= n <= 999,
    ensures
        1 <= decimal(n).len() <= 3,
        forall|i: int| 0 <= i < decimal(n).len() ==> is_digit(#[trigger] decimal(n)[i]),
{
    reveal_with_fuel(decimal, 4);
    crate::text::law_decimal_round_trip(n);
}

proof fn lemma_variant_named(v: VariantModel)
    requires
        v.theme == "dark"@ || v.theme == "light"@,
        v.text_pct <= 999,
    ensures
        is_variant(variant_name(v)),
{
    reveal_strlit("dark");
    reveal_strlit("light");
    reveal_strlit("-t");
    reveal_strlit("-p");
    reveal_strlit("p0");
    reveal_strlit("p1");
    reveal_strlit("0");
    reveal_strlit("1");
    let d = decimal(v.text_pct as int);
    lemma_small_decimal(v.text_pct as int);
    let b = seq!['t'] + d;
    let c = if v.photos {
        "p1"@
    } else {
        "p0"@
    };
    assert(forall|i: int| 0 <= i < b.len() ==> b[i] != '-') by {
        assert forall|i: int| 0 <= i < b.len() implies b[i] != '-' by {
            if i > 0 {
                assert(is_digit(d[i - 1]));
            }
        }
    }
    crate::text::lemma_three_pieces(v.theme, b, c, '-');
    assert(variant_name(v) =~= v.theme + seq!['-'] + b + seq!['-'] + c);
    assert(b.skip(1) =~= d);
}

/// Every picture and video that is drawn may be fetched.
pub proof fn law_pictures_are_served(v: VariantModel, view: Seq<char>, ext: Seq<char>)
    requires
        v.theme == "dark"@ || v.theme == "light"@,
        v.text_pct <= 999,
        is_view(view),
        ext == "jpg"@ || ext == "mp4"@,
    ensures
        is_served(name_of_picture(variant_name(v), view, ext)),
{
    reveal_strlit("calendar-");
    reveal_strlit("-");
    reveal_strlit(".");
    reveal_strlit("jpg");
    reveal_strlit("mp4");
    reveal_strlit("month");
    reveal_strlit("week");
    reveal_strlit("day");
    let a = variant_name(v);
    lemma_variant_named(v);
    let stem = a + "-"@ + view;
    let rest = stem + "."@ + ext;
    let name = name_of_picture(a, view, ext);
    assert(name =~= "calendar-"@ + rest);
    assert(name.subrange(0, 9) =~= "calendar-"@);
    assert(name.skip(9) =~= rest);
    let i = stem.len() as int;
    assert(rest[i] == '.');
    assert forall|j: int| i < j < rest.len() implies rest[j] != '.' by {
        assert(rest[j] == ext[j - i - 1]);
    }
    lemma_last_of(rest, '.', i, rest.len() as int);
    assert(rest.take(i) =~= stem);
    assert(rest.skip(i + 1) =~= ext);
    let k = a.len() as int;
    assert(stem[k] == '-');
    assert forall|j: int| k < j < stem.len() implies stem[j] != '-' by {
        assert(stem[j] == view[j - k - 1]);
    }
    lemma_last_of(stem, '-', k, stem.len() as int);
    assert(stem.take(k) =~= a);
    assert(stem.skip(k + 1) =~= view);
}

proof fn lemma_parted_last(s: Seq<char>, c: char, n: int)
    requires
        n <= s.len(),
    ensures
        last_of(s, c, c, n) < n || n <= 0,
        last_of(s, c, c, n) >= 0 ==> s[last_of(s, c, c, n)] == c,
    decreases n,
{
    if n > 0 {
        lemma_parted_last(s, c, n - 1);
    }
}

/// Whether a character leads out of a folder, or ends the name of a file in an address.
pub open spec fn leads_out(c: char) -> bool {
    c == '/' || c == '\\' || c == ':' || c == '?'
}

proof fn lemma_variant_plain(s: Seq<char>, i: int)
    requires
        is_variant(s),
        0 <= i < s.len(),
    ensures
        !leads_out(s[i]),
{
    reveal_strlit("dark");
    reveal_strlit("light");
    reveal_strlit("p0");
    reveal_strlit("p1");
    if s[i] != '-' {
        crate::text::lemma_in_a_piece(s, '-', 0, i);
        let p = split(s, '-');
        let k = choose|k: int| 0 <= k < p.len() && (#[trigger] p[k]).contains(s[i]);
        let x = p[k];
        let j = choose|j: int| 0 <= j < x.len() && x[j] == s[i];
        if k == 1 && j > 0 {
            assert(is_digit(x.skip(1)[j - 1]));
        }
    }
}

/// What is served lies in the folder of the pictures: no name of it leads out.
pub proof fn law_served_names_stay_inside(name: Seq<char>, i: int)
    requires
        is_served(name),
        0 <= i < name.len(),
    ensures
        !leads_out(name[i]),
{
    reveal_strlit("calendar-");
    reveal_strlit("jpg");
    reveal_strlit("mp4");
    reveal_strlit("month");
    reveal_strlit("week");
    reveal_strlit("day");
    let rest = after_start(name, "calendar-"@)->0;
    let (stem, ext) = parted_last(rest, '.')->0;
    let (variant, view) = parted_last(stem, '-')->0;
    lemma_parted_last(rest, '.', rest.len() as int);
    lemma_parted_last(stem, '-', stem.len() as int);
    if i < 9 {
        assert(name.subrange(0, 9)[i] == "calendar-"@[i]);
        assert(i == 0 || i == 1 || i == 2 || i == 3 || i == 4 || i == 5 || i == 6 || i == 7 || i == 8);
    } else {
        let j = i - 9;
        assert(rest[j] == name[i]);
        let d = stem.len() as int;
        if j > d {
            let k = j - d - 1;
            assert(rest.len() == d + 1 + ext.len());
            assert(ext[k] == rest[j]);
            assert(k == 0 || k == 1 || k == 2);
        } else if j < d {
            let e = variant.len() as int;
            assert(stem[j] == rest[j]);
            if j > e {
                let k = j - e - 1;
                assert(stem.len() == e + 1 + view.len());
                assert(view[k] == stem[j]);
                assert(k == 0 || k == 1 || k == 2 || k == 3 || k == 4);
            } else if j < e {
                assert(variant[j] == stem[j]);
                lemma_variant_plain(variant, j);
            }
        }
    }
}

// ---------------------------------------------------------------------------
// The state of drawing
// ---------------------------------------------------------------------------

/// What is known of drawing.
#[derive(Debug)]
pub struct RenderStatus {
    pub rendering: bool,
    /// When the last pictures were made, in milliseconds.
    pub updated: Option<i64>,
    pub error: Option<String>,
    pub feeds: Vec<FeedStatus>,
    pub events: usize,
    pub photos: usize,
}

pub struct RenderModel {
    pub rendering: bool,
    pub updated: Option<i64>,
    pub error: Option<Seq<char>>,
    pub feeds: Seq<StatusModel>,
    pub events: int,
    pub photos: int,
}

impl RenderStatus {
    pub open spec fn model(self) -> RenderModel {
        RenderModel {
            rendering: self.rendering,
            updated: self.updated,
            error: opt(self.error),
            feeds: status_models(self.feeds@),
            events: self.events as int,
            photos: self.photos as int,
        }
    }
}

/// The state of drawing. Times are in milliseconds.
#[derive(Debug)]
pub struct RenderState {
    /// The looks that are in use, each once.
    pub variants: Vec<Variant>,
    pub four_k: bool,
    /// Draw again now.
    pub kick: bool,
    pub reload_data: bool,
    /// The events as the page takes them.
    pub events_json: String,
    pub feeds: Vec<FeedStatus>,
    pub event_count: usize,
    pub photos: Vec<String>,
    pub last_fetch: Option<i64>,
    pub last_scan: Option<i64>,
    pub last_refresh_label: Option<String>,
    /// Whether the window is there, and whether it is one for 4K.
    pub window_4k: Option<bool>,
    pub status: RenderStatus,
}

/// The looks in a list.
pub open spec fn looks(v: Seq<Variant>) -> Set<VariantModel> {
    Set::new(|m: VariantModel| exists|i: int| 0 <= i < v.len() && (#[trigger] v[i]).model() == m)
}

impl RenderState {
    pub fn new() -> (r: RenderState)
        ensures
            r.variants@.len() == 0,
            !r.four_k,
            !r.kick,
            !r.reload_data,
            r.events_json@.len() == 0,
            r.feeds@.len() == 0,
            r.event_count == 0,
            r.photos@.len() == 0,
            r.last_fetch is None,
            r.last_scan is None,
            r.last_refresh_label is None,
            r.window_4k is None,
            r.status.model() == (RenderModel {
                rendering: false,
                updated: None,
                error: None,
                feeds: Seq::empty(),
                events: 0,
                photos: 0,
            }),
    {
        let r = RenderState {
            variants: Vec::new(),
            four_k: false,
            kick: false,
            reload_data: false,
            events_json: String::new(),
            feeds: Vec::new(),
            event_count: 0,
            photos: Vec::new(),
            last_fetch: None,
            last_scan: None,
            last_refresh_label: None,
            window_4k: None,
            status: RenderStatus {
                rendering: false,
                updated: None,
                error: None,
                feeds: Vec::new(),
                events: 0,
                photos: 0,
            },
        };
        proof {
            assert(status_models(r.status.feeds@) =~= Seq::<StatusModel>::empty());
        }
        r
    }
}

/// Whether a look is in a list.
pub fn has_look(list: &Vec<Variant>, v: &Variant) -> (r: bool)
    ensures
        r == looks(list@).contains(v.model()),
{
    let mut i: usize = 0;
    while i < list.len()
        invariant
            i <= list@.len(),
            forall|k: int| 0 <= k < i ==> (#[trigger] list@[k]).model() != v.model(),
        decreases list@.len() - i,
    {
        if list[i].same(v) {
            return true;
        }
        i = i + 1;
    }
    false
}

fn all_looks_in(a: &Vec<Variant>, b: &Vec<Variant>) -> (r: bool)
    ensures
        r == looks(a@).subset_of(looks(b@)),
{
    let mut i: usize = 0;
    while i < a.len()
        invariant
            i <= a@.len(),
            forall|k: int| 0 <= k < i ==> looks(b@).contains((#[trigger] a@[k]).model()),
        decreases a@.len() - i,
    {
        if !has_look(b, &a[i]) {
            proof {
                assert(looks(a@).contains(a@[i as int].model()));
            }
            return false;
        }
        i = i + 1;
    }
    proof {
        assert forall|m: VariantModel| looks(a@).contains(m) implies looks(b@).contains(m) by {
            let k = choose|k: int| 0 <= k < a@.len() && (#[trigger] a@[k]).model() == m;
            assert(looks(b@).contains(a@[k].model()));
        }
    }
    true
}

/// Whether other looks than before make a new picture necessary: one that was not
/// drawn, or the first in 4K.
pub open spec fn is_new_look(s: RenderState, variants: Seq<Variant>, four_k: bool) -> bool {
    !looks(variants).subset_of(looks(s.variants@)) || (four_k && !s.four_k)
}

/// Takes in which looks TVs need now (none: nothing is drawn), and whether videos in
/// 4K are wanted.
pub fn want(s: &mut RenderState, variants: Vec<Variant>, four_k: bool)
    ensures
        looks(final(s).variants@) == looks(variants@),
        final(s).four_k == four_k,
        final(s).kick == (old(s).kick || is_new_look(*old(s), variants@, four_k)),
        *final(s) == (RenderState {
            variants: final(s).variants,
            four_k: final(s).four_k,
            kick: final(s).kick,
            ..*old(s)
        }),
{
    let fewer: bool = all_looks_in(&variants, &s.variants);
    let more: bool = all_looks_in(&s.variants, &variants);
    proof {
        if fewer && more {
            assert(looks(variants@) =~= looks(s.variants@));
        }
    }
    if !(fewer && more) || s.four_k != four_k {
        let new_look: bool = !fewer || (four_k && !s.four_k);
        s.variants = variants;
        s.four_k = four_k;
        if new_look {
            s.kick = true;
        }
    }
}

/// Has the calendar drawn again now, with the data read again if they changed.
pub fn kick(s: &mut RenderState, reload_data: bool)
    ensures
        *final(s) == (RenderState { kick: true, reload_data: old(s).reload_data || reload_data, ..*old(s) }),
{
    s.kick = true;
    if reload_data {
        s.reload_data = true;
    }
}

fn copy_feeds(v: &Vec<FeedStatus>) -> (r: Vec<FeedStatus>)
    ensures
        status_models(r@) == status_models(v@),
{
    let mut out: Vec<FeedStatus> = Vec::new();
    let mut i: usize = 0;
    while i < v.len()
        invariant
            i <= v@.len(),
            status_models(out@) =~= status_models(v@).take(i as int),
        decreases v@.len() - i,
    {
        let ghost before = status_models(out@);
        let f = FeedStatus {
            name: v[i].name.clone(),
            color: v[i].color.clone(),
            stale: v[i].stale,
            error: copy_opt(&v[i].error),
            enabled: v[i].enabled,
        };
        proof {
            assert(f@ =~= v@[i as int]@);
        }
        out.push(f);
        proof {
            assert(status_models(out@) =~= before.push(v@[i as int]@));
        }
        i = i + 1;
    }
    proof {
        assert(status_models(v@).take(v@.len() as int) =~= status_models(v@));
    }
    out
}

/// What is known of drawing.
pub fn status(s: &RenderState) -> (r: RenderStatus)
    ensures
        r.model() == s.status.model(),
{
    RenderStatus {
        rendering: s.status.rendering,
        updated: s.status.updated,
        error: copy_opt(&s.status.error),
        feeds: copy_feeds(&s.status.feeds),
        events: s.status.events,
        photos: s.status.photos,
    }
}

// ---------------------------------------------------------------------------
// Rounds
// ---------------------------------------------------------------------------

/// What is done in a round, twice a second.
#[derive(Clone, Copy, Debug, PartialEq, Eq, Structural)]
pub enum Round {
    /// Nobody needs pictures: close the window.
    Close,
    Rest,
    /// Draw, with the data read again if so.
    Draw(bool),
}

/// What is done in a round: drawing is due once a minute, just after it has begun,
/// so that the clock in the picture is right, and whenever it was asked for.
pub open spec fn round_of(s: RenderState, last: Option<i64>, minute: i64, second: u32) -> Round {
    if s.variants@.len() == 0 {
        if s.window_4k is Some {
            Round::Close
        } else {
            Round::Rest
        }
    } else if (last != Some(minute) && second >= 1) || s.kick {
        Round::Draw(s.reload_data)
    } else {
        Round::Rest
    }
}

/// A round at a minute and second of the clock. `last` is the minute of the last
/// drawing.
pub fn begin_round(s: &mut RenderState, last: &mut Option<i64>, minute: i64, second: u32) -> (r: Round)
    ensures
        r == round_of(*old(s), *old(last), minute, second),
        *final(last) == (if old(s).variants@.len() == 0 {
            None
        } else if r is Draw {
            Some(minute)
        } else {
            *old(last)
        }),
        final(s).status.rendering == (old(s).status.rendering && !(r is Close)),
        *final(s) == (RenderState {
            kick: false,
            reload_data: false,
            window_4k: if r is Close {
                None
            } else {
                old(s).window_4k
            },
            status: RenderStatus { rendering: final(s).status.rendering, ..old(s).status },
            ..*old(s)
        }),
{
    let kicked: bool = s.kick;
    let reload: bool = s.reload_data;
    s.kick = false;
    s.reload_data = false;
    if s.variants.len() == 0 {
        *last = None;
        if s.window_4k.is_some() {
            s.window_4k = None;
            s.status.rendering = false;
            return Round::Close;
        }
        return Round::Rest;
    }
    let drawn: bool = match *last {
        Some(m) => m == minute,
        None => false,
    };
    if !kicked && (drawn || second < 1) {
        return Round::Rest;
    }
    *last = Some(minute);
    Round::Draw(reload)
}

/// What is read before drawing.
#[derive(Clone, Copy, Debug, PartialEq, Eq, Structural)]
pub struct DataDue {
    pub fetch: bool,
    pub scan: bool,
    /// No feed was read yet: what is kept of them is shown until they are.
    pub first: bool,
}

pub open spec fn is_due(last: Option<i64>, span: int, now: int) -> bool {
    match last {
        Some(t) => now - t >= span,
        None => true,
    }
}

fn due(last: Option<i64>, span: i64, now: i64) -> (r: bool)
    ensures
        r == is_due(last, span as int, now as int),
{
    match last {
        Some(t) => now as i128 - t as i128 >= span as i128,
        None => true,
    }
}

/// What is read before drawing: the feeds every so many minutes, and the folders of
/// photos every half hour.
pub fn data_due(s: &RenderState, refresh_minutes: u32, force: bool, now: i64) -> (r: DataDue)
    ensures
        r == (DataDue {
            fetch: force || is_due(
                s.last_fetch,
                60_000 * (if refresh_minutes < 1 {
                    1
                } else {
                    refresh_minutes as int
                }),
                now as int,
            ),
            scan: force || is_due(s.last_scan, 1_800_000, now as int),
            first: s.last_fetch is None,
        }),
{
    let minutes: i64 = if refresh_minutes < 1 {
        1
    } else {
        refresh_minutes as i64
    };
    DataDue {
        fetch: force || due(s.last_fetch, 60_000 * minutes, now),
        scan: force || due(s.last_scan, 1_800_000, now),
        first: s.last_fetch.is_none(),
    }
}

/// Takes in the events of the feeds. `label` is the time, if the network was asked.
pub fn store_events(
    s: &mut RenderState,
    events_json: String,
    count: usize,
    feeds: Vec<FeedStatus>,
    label: Option<String>,
)
    ensures
        *final(s) == (RenderState {
            events_json,
            event_count: count,
            feeds,
            last_refresh_label: if label is Some {
                label
            } else {
                old(s).last_refresh_label
            },
            ..*old(s)
        }),
{
    s.events_json = events_json;
    s.event_count = count;
    s.feeds = feeds;
    if label.is_some() {
        s.last_refresh_label = label;
    }
}

/// Takes in how a drawing ended.
pub fn end_round(s: &mut RenderState, result: Result<(), String>, now: i64)
    ensures
        final(s).status.model() == (RenderModel {
            rendering: true,
            feeds: status_models(old(s).feeds@),
            events: old(s).event_count as int,
            photos: old(s).photos@.len() as int,
            updated: if result is Ok {
                Some(now)
            } else {
                old(s).status.updated
            },
            error: match result {
                Ok(_) => None,
                Err(e) => Some(e@),
            },
        }),
        *final(s) == (RenderState { status: final(s).status, ..*old(s) }),
{
    s.status.rendering = true;
    s.status.feeds = copy_feeds(&s.feeds);
    s.status.events = s.event_count;
    s.status.photos = s.photos.len();
    match result {
        Ok(_) => {
            s.status.updated = Some(now);
            s.status.error = None;
        },
        Err(e) => {
            s.status.error = Some(e);
        },
    }
}

/// The size of the window.
pub fn window_size(four_k: bool) -> (r: (u32, u32))
    ensures
        r == (if four_k {
            (3840u32, 2160u32)
        } else {
            (1920u32, 1080u32)
        }),
{
    if four_k {
        (3840, 2160)
    } else {
        (1920, 1080)
    }
}

/// Whether a picture of an age in seconds is of a look that no screen uses any more.
pub fn is_stale(age: u64) -> (r: bool)
    ensures
        r == (age > 7_200),
{
    age > 7_200
}

// ---------------------------------------------------------------------------
// What the page is told
// ---------------------------------------------------------------------------

/// A percentage as a factor, such as 1.25.
pub open spec fn factor_of(pct: int) -> Seq<char> {
    if pct % 100 == 0 {
        decimal(pct / 100)
    } else if pct % 10 == 0 {
        decimal(pct / 100) + "."@ + decimal(pct / 10 % 10)
    } else {
        decimal(pct / 100) + "."@ + decimal(pct / 10 % 10) + decimal(pct % 10)
    }
}

fn number(n: u64) -> (r: String)
    ensures
        r@ == decimal(n as int),
{
    string_of(decimal_text(n).as_slice())
}

fn factor(pct: u32) -> (r: String)
    ensures
        r@ == factor_of(pct as int),
{
    let p: u64 = pct as u64;
    let whole = number(p / 100);
    if p % 100 == 0 {
        return whole;
    }
    let tenth = number(p / 10 % 10);
    if p % 10 == 0 {
        return whole.concat(".").concat(tenth.as_str());
    }
    let rest = number(p % 10);
    whole.concat(".").concat(tenth.as_str()).concat(rest.as_str())
}

/// Texts as JSON strings.
pub open spec fn quoted_texts(v: Seq<Seq<char>>) -> Seq<Seq<char>> {
    v.map_values(|s: Seq<char>| json_quoted(s))
}

fn quote_all(v: &Vec<String>) -> (r: Vec<String>)
    ensures
        texts(r@) == quoted_texts(texts(v@)),
{
    let mut out: Vec<String> = Vec::new();
    let mut i: usize = 0;
    while i < v.len()
        invariant
            i <= v@.len(),
            texts(out@) =~= quoted_texts(texts(v@)).take(i as int),
        decreases v@.len() - i,
    {
        let ghost before = texts(out@);
        out.push(json_quote(v[i].as_str()));
        proof {
            assert(texts(v@)[i as int] == v@[i as int]@);
            assert(texts(out@) =~= before.push(json_quoted(v@[i as int]@)));
        }
        i = i + 1;
    }
    proof {
        assert(quoted_texts(texts(v@)).take(v@.len() as int) =~= quoted_texts(texts(v@)));
    }
    out
}

/// What the page is told to draw a view of a look. `feeds` are the feeds as the page
/// takes them.
pub open spec fn page_data(
    s: RenderState,
    v: VariantModel,
    view: Seq<char>,
    interval: int,
    year: int,
    month: int,
    feeds: Seq<char>,
) -> Seq<char> {
    "{\"type\":\"data\",\"year\":"@ + crate::text::signed_decimal(year) + ",\"month\":"@ + decimal(month)
        + ",\"events\":"@ + s.events_json@ + ",\"tasks\":[],\"feeds\":"@ + feeds + ",\"photos\":"@ + (if v.photos {
        list_of(quoted_texts(texts(s.photos@)))
    } else {
        "[]"@
    }) + ",\"photoIntervalSeconds\":"@ + decimal(interval) + ",\"lastRefresh\":"@ + (match s.last_refresh_label {
        Some(t) => json_quoted(t@),
        None => "null"@,
    }) + ",\"theme\":\""@ + v.theme + "\",\"view\":\""@ + view + "\",\"textScale\":"@ + factor_of(v.text_pct as int)
        + "}"@
}

/// What the page is told to draw a view of a look.
pub fn payload(s: &RenderState, v: &Variant, view: &str, interval: u32, year: i32, month: u32, feeds: &str) -> (r: String)
    ensures
        r@ == page_data(*s, v.model(), view@, interval as int, year as int, month as int, feeds@),
{
    let y = string_of(crate::text::signed_decimal_text(year as i64).as_slice());
    let m = number(month as u64);
    let photos = if v.photos {
        let q = quote_all(&s.photos);
        list_text(&q)
    } else {
        "[]".to_string()
    };
    let n = number(interval as u64);
    let label = match &s.last_refresh_label {
        Some(t) => json_quote(t.as_str()),
        None => "null".to_string(),
    };
    let f = factor(v.text_pct);
    "{\"type\":\"data\",\"year\":".to_string().concat(y.as_str()).concat(",\"month\":").concat(m.as_str()).concat(
        ",\"events\":",
    ).concat(s.events_json.as_str()).concat(",\"tasks\":[],\"feeds\":").concat(feeds).concat(",\"photos\":").concat(
        photos.as_str(),
    ).concat(",\"photoIntervalSeconds\":").concat(n.as_str()).concat(",\"lastRefresh\":").concat(label.as_str()).concat(
        ",\"theme\":\"",
    ).concat(v.theme.as_str()).concat("\",\"view\":\"").concat(view).concat("\",\"textScale\":").concat(f.as_str()).concat(
        "}",
    )
}

// ---------------------------------------------------------------------------
// Photos
// ---------------------------------------------------------------------------

/// Whether a file is a photo that is shown: not hidden, and with the ending of one.
pub open spec fn is_photo(name: Seq<char>) -> bool {
    &&& !(name.len() > 0 && name[0] == '.')
    &&& match ending(name) {
        Some(e) => {
            let x = lower(e);
            x == "jpg"@ || x == "jpeg"@ || x == "png"@ || x == "webp"@
        },
        None => false,
    }
}

/// Whether a file is a photo that is shown.
pub fn is_photo_name(name: &str) -> (r: bool)
    ensures
        r == is_photo(name@),
{
    let c = chars_of(name);
    if c.len() > 0 && c[0] == '.' {
        return false;
    }
    match find_ending(c.as_slice()) {
        Some(e) => {
            let l = to_lower(e.as_slice());
            let x = l.as_slice();
            is_str(x, "jpg") || is_str(x, "jpeg") || is_str(x, "png") || is_str(x, "webp")
        },
        None => false,
    }
}

/// What is done with an entry of a folder of photos.
#[derive(Clone, Copy, Debug, PartialEq, Eq, Structural)]
pub enum FolderEntry {
    /// It is hidden, or no photo.
    PassOver,
    /// Its own entries are looked at too.
    Enter,
    Photo,
}

/// What is done with an entry of a folder of photos. A name that starts with a point
/// hides files and folders.
pub open spec fn entry_use(name: Seq<char>, is_folder: bool) -> FolderEntry {
    if name.len() > 0 && name[0] == '.' {
        FolderEntry::PassOver
    } else if is_folder {
        FolderEntry::Enter
    } else if is_photo(name) {
        FolderEntry::Photo
    } else {
        FolderEntry::PassOver
    }
}

/// What is done with an entry of a folder of photos.
pub fn use_entry(name: &str, is_folder: bool) -> (r: FolderEntry)
    ensures
        r == entry_use(name@, is_folder),
{
    let c = chars_of(name);
    if c.len() > 0 && c[0] == '.' {
        FolderEntry::PassOver
    } else if is_folder {
        FolderEntry::Enter
    } else if is_photo_name(name) {
        FolderEntry::Photo
    } else {
        FolderEntry::PassOver
    }
}

/// The first `n` parts of a path in an address.
pub open spec fn quoted_path(parts: Seq<String>, n: int) -> Seq<char>
    decreases n,
{
    if n <= 0 {
        Seq::empty()
    } else if n == 1 {
        quoted(parts[0]@)
    } else {
        quoted_path(parts, n - 1) + "/"@ + quoted(parts[n - 1]@)
    }
}

/// The address of a photo in the i-th folder, for the page.
pub fn photo_url(folder: usize, parts: &Vec<String>) -> (r: String)
    ensures
        r@ == "http://calphoto.localhost/p/"@ + decimal(folder as int) + "/"@ + quoted_path(
            parts@,
            parts@.len() as int,
        ),
{
    let mut path = String::new();
    let mut i: usize = 0;
    while i < parts.len()
        invariant
            i <= parts@.len(),
            path@ == quoted_path(parts@, i as int),
        decreases parts@.len() - i,
    {
        let p = q(parts[i].as_str());
        if i > 0 {
            path.append("/");
            path.append(p.as_str());
        } else {
            path.append(p.as_str());
            proof {
                assert(path@ =~= quoted(parts@[0]@));
            }
        }
        i = i + 1;
    }
    let n = number(folder as u64);
    "http://calphoto.localhost/p/".to_string().concat(n.as_str()).concat("/").concat(path.as_str())
}

/// What the page asks for.
#[derive(Debug)]
pub enum PageRequest {
    /// A file of a folder of photos.
    Photo(usize, String),
    /// A picture of the calendar.
    Preview(String),
    Nothing,
}

pub enum PageModel {
    Photo(int, Seq<char>),
    Preview(Seq<char>),
    Nothing,
}

impl PageRequest {
    pub open spec fn model(self) -> PageModel {
        match self {
            PageRequest::Photo(i, p) => PageModel::Photo(i as int, p@),
            PageRequest::Preview(n) => PageModel::Preview(n@),
            PageRequest::Nothing => PageModel::Nothing,
        }
    }
}

/// What the page asks for by a path: `/p/<folder>/<path>` is a photo, whose path is
/// written with backslashes, and `/preview/<file>` a picture. `folders` is how many
/// folders there are.
pub open spec fn asked_for(path: Seq<char>, folders: int) -> PageModel {
    let p = percent_text(path);
    match after_start(p, "/p/"@) {
        Some(rest) => {
            let (idx, rel) = match parted(rest, '/') {
                Some((a, b)) => (a, b),
                None => (rest, Seq::empty()),
            };
            match within(parse_nat(idx), 0, u64::MAX as int) {
                Some(i) => if i < folders {
                    PageModel::Photo(i, replace_char(rel, '/', '\\'))
                } else {
                    PageModel::Nothing
                },
                None => PageModel::Nothing,
            }
        },
        None => match after_start(p, "/preview/"@) {
            Some(name) => if is_served(name) {
                PageModel::Preview(name)
            } else {
                PageModel::Nothing
            },
            None => PageModel::Nothing,
        },
    }
}

/// What the page asks for by a path.
pub fn page_request(path: &str, folders: usize) -> (r: PageRequest)
    ensures
        r.model() == asked_for(path@, folders as int),
{
    let p = percent_decode(path);
    match strip_start_text(p.as_str(), "/p/") {
        Some(rest) => {
            let c = chars_of(rest.as_str());
            let (idx, rel) = match part_at(c.as_slice(), '/') {
                Some((a, b)) => (a, b),
                None => (c, Vec::new()),
            };
            match parse_unsigned(idx.as_slice(), u64::MAX) {
                Some(i) => {
                    if i < folders as u64 {
                        let t = replaced_char(rel.as_slice(), '/', '\\');
                        PageRequest::Photo(i as usize, string_of(t.as_slice()))
                    } else {
                        PageRequest::Nothing
                    }
                },
                None => PageRequest::Nothing,
            }
        },
        None => match strip_start_text(p.as_str(), "/preview/") {
            Some(name) => {
                if is_served_name(name.as_str()) {
                    PageRequest::Preview(name)
                } else {
                    PageRequest::Nothing
                }
            },
            None => PageRequest::Nothing,
        },
    }
}

// ---------------------------------------------------------------------------
// Pictures as frames of a video
// ---------------------------------------------------------------------------

/// The width, the height and the pixels of a picture in PNG, four bytes each in the
/// order red, green, blue, alpha, or what is wrong with it.
pub uninterp spec fn png_pixels(png: Seq<u8>) -> Result<(u32, u32, Seq<u8>), Seq<char>>;

/// The view of a picture or of what is wrong with it.
pub open spec fn picture_result(r: Result<(u32, u32, Vec<u8>), String>) -> Result<(u32, u32, Seq<u8>), Seq<char>> {
    match r {
        Ok((w, h, d)) => Ok((w, h, d@)),
        Err(e) => Err(e@),
    }
}

/// `image::load_from_memory_with_format` for PNG and `to_rgba8`: the size and the
/// pixels of the picture, or the error in words, depend on the bytes alone.
#[verifier::external_body]
fn decode_png(png: &[u8]) -> (r: Result<(u32, u32, Vec<u8>), String>)
    ensures
        picture_result(r) == png_pixels(png@),
{
    let img = image::load_from_memory_with_format(png, image::ImageFormat::Png).map_err(|e| e.to_string())?.to_rgba8();
    let (w, h) = img.dimensions();
    Ok((w, h, img.into_raw()))
}

/// Pixels with red and blue changed over.
pub open spec fn changed_over(d: Seq<u8>) -> Seq<u8> {
    Seq::new(
        d.len(),
        |i: int|
            if i / 4 * 4 + 4 > d.len() {
                d[i]
            } else if i % 4 == 0 {
                d[i + 2]
            } else if i % 4 == 2 {
                d[i - 2]
            } else {
                d[i]
            },
    )
}

/// Changes red and blue over.
pub fn swap_red_blue(d: &mut Vec<u8>)
    ensures
        final(d)@ == changed_over(old(d)@),
{
    let n: usize = d.len();
    let mut k: usize = 0;
    while n - k >= 4
        invariant
            k <= n,
            k % 4 == 0,
            n == d@.len(),
            d@.len() == old(d)@.len(),
            forall|i: int| 0 <= i < k ==> #[trigger] d@[i] == changed_over(old(d)@)[i],
            forall|i: int| k <= i < n ==> #[trigger] d@[i] == old(d)@[i],
        decreases n - k,
    {
        let a: u8 = d[k];
        let b: u8 = d[k + 2];
        d.set(k, b);
        d.set(k + 2, a);
        proof {
            assert forall|i: int| 0 <= i < k + 4 implies #[trigger] d@[i] == changed_over(old(d)@)[i] by {
                if i >= k {
                    assert(i / 4 * 4 == k as int);
                }
            }
        }
        k = k + 4;
    }
    proof {
        assert forall|i: int| k <= i < n implies #[trigger] d@[i] == changed_over(old(d)@)[i] by {
            assert(i / 4 * 4 == k as int);
        }
        assert(d@ =~= changed_over(old(d)@));
    }
}

proof fn lemma_changed_over_twice_at(d: Seq<u8>, i: int)
    requires
        0 <= i < d.len(),
    ensures
        changed_over(changed_over(d))[i] == d[i],
{
    let j = if i / 4 * 4 + 4 > d.len() {
        i
    } else if i % 4 == 0 {
        i + 2
    } else if i % 4 == 2 {
        i - 2
    } else {
        i
    };
    assert(j / 4 == i / 4);
    assert(changed_over(d)[j] == d[i]);
}

/// Changing red and blue over twice gives the same pixels again.
pub proof fn law_changed_over_twice(d: Seq<u8>)
    ensures
        changed_over(changed_over(d)) == d,
{
    let a = changed_over(changed_over(d));
    assert forall|i: int| 0 <= i < d.len() implies #[trigger] a[i] == d[i] by {
        lemma_changed_over_twice_at(d, i);
    }
    assert(a =~= d);
}

/// The largest even number up to another.
pub open spec fn even(n: u32) -> int {
    n - n % 2
}

/// A picture as a frame of a video: its size, made even, and its pixels in the order
/// blue, green, red, alpha.
pub open spec fn frame_of(p: Result<(u32, u32, Seq<u8>), Seq<char>>) -> Result<(u32, u32, Seq<u8>), Seq<char>> {
    match p {
        Ok((w, h, d)) => Ok((even(w) as u32, even(h) as u32, changed_over(d))),
        Err(e) => Err(e),
    }
}

/// A picture as a frame of a video.
pub fn to_frame(p: Result<(u32, u32, Vec<u8>), String>) -> (r: Result<(u32, u32, Vec<u8>), String>)
    ensures
        picture_result(r) == frame_of(picture_result(p)),
{
    match p {
        Ok((w, h, d)) => {
            let mut px = d;
            swap_red_blue(&mut px);
            Ok((w - w % 2, h - h % 2, px))
        },
        Err(e) => Err(e),
    }
}

/// A picture in PNG as a frame of a video.
pub fn frame_from_png(png: &[u8]) -> (r: Result<(u32, u32, Vec<u8>), String>)
    ensures
        picture_result(r) == frame_of(png_pixels(png@)),
{
    to_frame(decode_png(png))
}

/// The calendar is drawn exactly if some look is in use and either a minute has begun that was
/// not drawn yet, its first second being over, or it was asked for. The large window is closed
/// when no look is.
pub proof fn law_when_the_calendar_is_drawn(s: RenderState, last: Option<i64>, minute: i64, second: u32)
    ensures
        round_of(s, last, minute, second) is Draw <==> s.variants@.len() > 0 && (s.kick || (second > 0 && last != Some(
            minute,
        ))),
        round_of(s, last, minute, second) is Close <==> s.variants@.len() == 0 && s.window_4k is Some,
        round_of(s, last, minute, second) matches Round::Draw(reload) ==> reload == s.reload_data,
{
}

/// Something is due when it was never done or was done at least so long ago.
pub proof fn law_when_something_is_due(t: i64, span: int, now: int)
    ensures
        is_due(None, span, now),
        is_due(Some(t), span, now) <==> t + span <= now,
{
}

/// Of each pixel red and blue change places, and green and the last stay.
pub proof fn law_red_and_blue_change_places(d: Seq<u8>, k: int)
    requires
        0 <= k,
        4 * k + 4 <= d.len(),
    ensures
        changed_over(d).len() == d.len(),
        changed_over(d)[4 * k] == d[4 * k + 2],
        changed_over(d)[4 * k + 1] == d[4 * k + 1],
        changed_over(d)[4 * k + 2] == d[4 * k],
        changed_over(d)[4 * k + 3] == d[4 * k + 3],
{
}

/// A picture becomes a frame of even width and height, at most one pixel smaller.
pub proof fn law_frames_are_even(w: u32, h: u32, d: Seq<u8>)
    ensures
        frame_of(Ok((w, h, d))) matches Ok((fw, fh, _)) && fw % 2 == 0 && fh % 2 == 0 && w - 1 <= fw <= w && h - 1 <= fh
            <= h,
{
}

/// The size of the text is written as a factor: whole hundreds of per cent without a point.
pub proof fn law_text_sizes_as_factors(n: int)
    requires
        0 <= n,
    ensures
        factor_of(100 * n) == decimal(n),
        factor_of(100 * n + 50) == decimal(n) + "."@ + decimal(5),
        factor_of(100 * n + 25) == decimal(n) + "."@ + decimal(2) + decimal(5),
{
}

/// What a look's name says: its theme, the size of its text and whether it shows photos.
pub proof fn law_looks_with_other_names(a: VariantModel, b: VariantModel)
    requires
        a.theme == b.theme,
        a.text_pct == b.text_pct,
    ensures
        variant_name(a) == variant_name(b) <==> a.photos == b.photos,
{
    reveal_strlit("1");
    reveal_strlit("0");
    let x = variant_name(a);
    let y = variant_name(b);
    if a.photos != b.photos {
        assert(x.last() != y.last());
    }
}

/// Of a folder, hidden entries are passed over, other folders entered, and pictures taken.
pub proof fn law_what_is_taken_of_a_folder(name: Seq<char>, is_folder: bool)
    requires
        name.len() > 0,
    ensures
        name[0] == '.' ==> entry_use(name, is_folder) is PassOver,
        name[0] != '.' && is_folder ==> entry_use(name, is_folder) is Enter,
        name[0] != '.' && !is_folder ==> (entry_use(name, is_folder) is Photo) == (ending(name) matches Some(e) && (lower(
            e,
        ) == "jpg"@ || lower(e) == "jpeg"@ || lower(e) == "png"@ || lower(e) == "webp"@)),
{
}

/// The calendar is drawn at once when a look is wanted that was not in use, or the large size is
/// and was not; dropping looks asks for nothing.
pub proof fn law_new_looks_are_drawn_at_once(s: RenderState, variants: Seq<Variant>, four_k: bool, i: int)
    ensures
        0 <= i < variants.len() && (forall|j: int|
            0 <= j < s.variants@.len() ==> (#[trigger] s.variants@[j]).model() != variants[i].model()) ==> is_new_look(
            s,
            variants,
            four_k,
        ),
        four_k && !s.four_k ==> is_new_look(s, variants, four_k),
        (!four_k || s.four_k) && (forall|k: int|
            0 <= k < variants.len() ==> exists|j: int|
                0 <= j < s.variants@.len() && (#[trigger] s.variants@[j]).model() == (
                #[trigger] variants[k]).model()) ==> !is_new_look(s, variants, four_k),
{
    if 0 <= i < variants.len() && (forall|j: int|
        0 <= j < s.variants@.len() ==> (#[trigger] s.variants@[j]).model() != variants[i].model()) {
        let m = variants[i].model();
        assert(looks(variants).contains(m));
        assert(!looks(s.variants@).contains(m));
    }
    if forall|k: int|
        0 <= k < variants.len() ==> exists|j: int|
            0 <= j < s.variants@.len() && (#[trigger] s.variants@[j]).model() == (#[trigger] variants[k]).model() {
        assert forall|m: VariantModel| looks(variants).contains(m) implies looks(s.variants@).contains(m) by {
            let k = choose|k: int| 0 <= k < variants.len() && (#[trigger] variants[k]).model() == m;
            let j = choose|j: int|
                0 <= j < s.variants@.len() && (#[trigger] s.variants@[j]).model() == variants[k].model();
            assert(s.variants@[j].model() == m);
        }
    }
}

} // verus!
