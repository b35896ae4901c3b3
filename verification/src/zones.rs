//! Time zones: which zone a name stands for, and wall-clock times in it.
//!
//! A zone is `Floating` (the machine's own), UTC, or one of the IANA database.
//! What the machine's zone answers can change from one question to the next, so
//! a [`LocalClock`] remembers every answer: within one clock the same question
//! always has the same answer.

use chrono::{Offset, TimeZone};
use std::collections::HashMap;
use vstd::prelude::*;
use crate::dates::{
    day_of, in_calendar, later, moment_later, moment_second, second_at, second_of_day, stamp_day, stamp_second,
    MAX_DAY, MIN_DAY,
};
use crate::text::{
    chars_of, contains, contains_text, copy_range, replace_char, replaced_char, same_ignoring_case,
    same_text_ignoring_case, str_same, string_of, strip_end, strip_start, stripped, trim, trimmed,
};
use crate::windows_zones::{windows_zone, windows_zone_at, WINDOWS_ZONE_COUNT};

verus! {

broadcast use vstd::std_specs::hash::group_hash_axioms;

/// The zone of a time.
#[derive(Debug)]
pub enum Zone {
    /// The machine's own zone.
    Floating,
    Utc,
    /// A zone of the IANA database, by name.
    Named(String),
}

/// A zone with its name as text.
pub enum ZoneModel {
    Floating,
    Utc,
    Named(Seq<char>),
}

impl View for Zone {
    type V = ZoneModel;

    open spec fn view(&self) -> ZoneModel {
        match self {
            Zone::Floating => ZoneModel::Floating,
            Zone::Utc => ZoneModel::Utc,
            Zone::Named(n) => ZoneModel::Named(n@),
        }
    }
}

/// How far a wall-clock time is ahead of UTC, in seconds.
#[derive(Clone, Copy, Debug, PartialEq, Eq, Structural)]
pub enum Offsets {
    /// The clock skips that time.
    Gap,
    Single(i32),
    /// The clock shows that time twice; the earlier one first.
    Ambiguous(i32, i32),
}

// ---------------------------------------------------------------------------
// Zone names
// ---------------------------------------------------------------------------

/// How many zones the database holds.
pub const ZONE_COUNT: usize = 597;

/// Whether a name is one of the IANA database, exactly as written.
pub uninterp spec fn is_iana(name: Seq<char>) -> bool;

/// The name of the zone at a position of the database.
pub uninterp spec fn zone_name(i: int) -> Seq<char>;

/// Parsing a `chrono_tz::Tz` succeeds exactly on the names of the database.
#[verifier::external_body]
fn chrono_tz_knows(name: &str) -> (r: bool)
    ensures
        r == is_iana(name@),
{
    name.parse::<chrono_tz::Tz>().is_ok()
}

/// The name of an entry of `chrono_tz::TZ_VARIANTS`, which holds 597 zones. Every
/// name parses back.
#[verifier::external_body]
fn chrono_tz_variant(i: usize) -> (r: String)
    requires
        i < ZONE_COUNT,
    ensures
        r@ == zone_name(i as int),
        is_iana(r@),
{
    chrono_tz::TZ_VARIANTS[i].name().to_string()
}

/// The first Windows zone from `i` on whose name is `t`, whatever its case.
pub open spec fn windows_match(t: Seq<char>, i: int) -> int
    decreases WINDOWS_ZONE_COUNT - i,
{
    if i >= WINDOWS_ZONE_COUNT {
        WINDOWS_ZONE_COUNT as int
    } else if same_ignoring_case(windows_zone(i).0, t) {
        i
    } else {
        windows_match(t, i + 1)
    }
}

/// The first zone of the database from `i` on whose name is `t`, whatever its case.
pub open spec fn iana_match(t: Seq<char>, i: int) -> int
    decreases ZONE_COUNT - i,
{
    if i >= ZONE_COUNT {
        ZONE_COUNT as int
    } else if same_ignoring_case(zone_name(i), t) {
        i
    } else {
        iana_match(t, i + 1)
    }
}

/// Among the first `i` zones of the database, the longest whose name (of more
/// than three letters) occurs in `t`; the last of equally long ones.
pub open spec fn iana_inside(t: Seq<char>, i: int) -> Option<int>
    decreases i,
{
    if i <= 0 {
        None
    } else {
        let best = iana_inside(t, i - 1);
        let n = zone_name(i - 1);
        if n.len() > 3 && contains(t, n) && (best is None || zone_name(best->0).len() <= n.len()) {
            Some(i - 1)
        } else {
            best
        }
    }
}

/// The same among the first `i` Windows names.
pub open spec fn windows_inside(t: Seq<char>, i: int) -> Option<int>
    decreases i,
{
    if i <= 0 {
        None
    } else {
        let best = windows_inside(t, i - 1);
        let n = windows_zone(i - 1).0;
        if n.len() > 3 && contains(t, n) && (best is None || windows_zone(best->0).0.len() <= n.len()) {
            Some(i - 1)
        } else {
            best
        }
    }
}

/// A zone id without white space, quotation marks and a leading slash.
pub open spec fn bare_tzid(tzid: Seq<char>) -> Seq<char> {
    let t = strip_end(strip_start(trim(tzid), '"'), '"');
    if t.len() > 0 && t[0] == '/' {
        t.subrange(1, t.len() as int)
    } else {
        t
    }
}

/// The zone of an id: an IANA name, a Windows name, an IANA name in another case
/// or with hyphens for slashes, an IANA name inside the id, a Windows name inside
/// it. Any other id stands for the machine's zone.
pub open spec fn zone_of_tzid(tzid: Seq<char>) -> ZoneModel {
    let t = bare_tzid(tzid);
    let w = windows_match(t, 0);
    let v = iana_match(t, 0);
    let slashed = replace_char(t, '-', '/');
    if is_iana(t) {
        ZoneModel::Named(t)
    } else if w < WINDOWS_ZONE_COUNT && is_iana(windows_zone(w).1) {
        ZoneModel::Named(windows_zone(w).1)
    } else if v < ZONE_COUNT {
        ZoneModel::Named(zone_name(v))
    } else if is_iana(slashed) {
        ZoneModel::Named(slashed)
    } else if iana_inside(t, ZONE_COUNT as int) is Some {
        ZoneModel::Named(zone_name(iana_inside(t, ZONE_COUNT as int)->0))
    } else if windows_inside(t, WINDOWS_ZONE_COUNT as int) is Some && is_iana(
        windows_zone(windows_inside(t, WINDOWS_ZONE_COUNT as int)->0).1,
    ) {
        ZoneModel::Named(windows_zone(windows_inside(t, WINDOWS_ZONE_COUNT as int)->0).1)
    } else {
        ZoneModel::Floating
    }
}

fn find_windows(t: &[char]) -> (r: usize)
    ensures
        r == windows_match(t@, 0),
        r <= WINDOWS_ZONE_COUNT,
{
    let mut i: usize = 0;
    while i < WINDOWS_ZONE_COUNT
        invariant
            i <= WINDOWS_ZONE_COUNT,
            windows_match(t@, 0) == windows_match(t@, i as int),
        decreases WINDOWS_ZONE_COUNT - i,
    {
        let w = chars_of(windows_zone_at(i).0);
        if same_text_ignoring_case(w.as_slice(), t) {
            return i;
        }
        i = i + 1;
    }
    i
}

fn find_iana(t: &[char]) -> (r: usize)
    ensures
        r == iana_match(t@, 0),
        r <= ZONE_COUNT,
{
    let mut i: usize = 0;
    while i < ZONE_COUNT
        invariant
            i <= ZONE_COUNT,
            iana_match(t@, 0) == iana_match(t@, i as int),
        decreases ZONE_COUNT - i,
    {
        let name = chrono_tz_variant(i);
        let n = chars_of(name.as_str());
        if same_text_ignoring_case(n.as_slice(), t) {
            return i;
        }
        i = i + 1;
    }
    i
}

fn find_iana_inside(t: &[char]) -> (r: Option<usize>)
    ensures
        match r {
            Some(i) => iana_inside(t@, ZONE_COUNT as int) == Some(i as int) && i < ZONE_COUNT,
            None => iana_inside(t@, ZONE_COUNT as int) is None,
        },
{
    let mut best: Option<usize> = None;
    let mut best_len: usize = 0;
    let mut i: usize = 0;
    while i < ZONE_COUNT
        invariant
            i <= ZONE_COUNT,
            match best {
                Some(b) => iana_inside(t@, i as int) == Some(b as int) && b < i && best_len == zone_name(
                    b as int,
                ).len(),
                None => iana_inside(t@, i as int) is None,
            },
        decreases ZONE_COUNT - i,
    {
        let name = chrono_tz_variant(i);
        let n = chars_of(name.as_str());
        if n.len() > 3 && (best.is_none() || best_len <= n.len()) && contains_text(t, n.as_slice()) {
            best = Some(i);
            best_len = n.len();
        }
        i = i + 1;
    }
    best
}

fn find_windows_inside(t: &[char]) -> (r: Option<usize>)
    ensures
        match r {
            Some(i) => windows_inside(t@, WINDOWS_ZONE_COUNT as int) == Some(i as int) && i < WINDOWS_ZONE_COUNT,
            None => windows_inside(t@, WINDOWS_ZONE_COUNT as int) is None,
        },
{
    let mut best: Option<usize> = None;
    let mut best_len: usize = 0;
    let mut i: usize = 0;
    while i < WINDOWS_ZONE_COUNT
        invariant
            i <= WINDOWS_ZONE_COUNT,
            match best {
                Some(b) => windows_inside(t@, i as int) == Some(b as int) && b < i && best_len == windows_zone(
                    b as int,
                ).0.len(),
                None => windows_inside(t@, i as int) is None,
            },
        decreases WINDOWS_ZONE_COUNT - i,
    {
        let n = chars_of(windows_zone_at(i).0);
        if n.len() > 3 && (best.is_none() || best_len <= n.len()) && contains_text(t, n.as_slice()) {
            best = Some(i);
            best_len = n.len();
        }
        i = i + 1;
    }
    best
}

/// The zone that a zone id stands for.
pub fn resolve_tzid(tzid: &str) -> (r: Zone)
    ensures
        r@ == zone_of_tzid(tzid@),
{
    let all = chars_of(tzid);
    let inner = trimmed(all.as_slice());
    let bare = stripped(inner.as_slice(), '"');
    let from: usize = if bare.len() > 0 && bare[0] == '/' {
        1
    } else {
        0
    };
    let t = copy_range(bare.as_slice(), from, bare.len());
    proof {
        assert(t@ =~= bare_tzid(tzid@));
    }
    let name = string_of(t.as_slice());
    if chrono_tz_knows(name.as_str()) {
        return Zone::Named(name);
    }
    let w: usize = find_windows(t.as_slice());
    if w < WINDOWS_ZONE_COUNT {
        let iana = windows_zone_at(w).1;
        if chrono_tz_knows(iana) {
            return Zone::Named(iana.to_string());
        }
    }
    let v: usize = find_iana(t.as_slice());
    if v < ZONE_COUNT {
        return Zone::Named(chrono_tz_variant(v));
    }
    let slashed = replaced_char(t.as_slice(), '-', '/');
    let slashed_name = string_of(slashed.as_slice());
    if chrono_tz_knows(slashed_name.as_str()) {
        return Zone::Named(slashed_name);
    }
    match find_iana_inside(t.as_slice()) {
        Some(i) => {
            return Zone::Named(chrono_tz_variant(i));
        },
        None => {},
    }
    match find_windows_inside(t.as_slice()) {
        Some(i) => {
            let iana = windows_zone_at(i).1;
            if chrono_tz_knows(iana) {
                return Zone::Named(iana.to_string());
            }
        },
        None => {},
    }
    Zone::Floating
}

// ---------------------------------------------------------------------------
// Offsets
// ---------------------------------------------------------------------------

/// Every offset is less than a day.
pub open spec fn small(o: Offsets) -> bool {
    match o {
        Offsets::Gap => true,
        Offsets::Single(a) => -86_400 < a < 86_400,
        Offsets::Ambiguous(a, b) => -86_400 < a < 86_400 && -86_400 < b < 86_400,
    }
}

/// The offsets that a zone of the database gives a wall-clock time.
pub uninterp spec fn zone_wall(name: Seq<char>, day: int, second: int) -> Offsets;

/// The offset of a zone of the database at an instant.
pub uninterp spec fn zone_utc(name: Seq<char>, day: int, second: int) -> int;

/// `offset_from_local_datetime` of the `chrono_tz::Tz` with a name: whether that
/// zone shows a wall-clock time never, once or twice, and how far it is then ahead
/// of UTC, always less than a day. A name that is not in the database gives nothing.
#[verifier::external_body]
fn chrono_tz_wall(name: &str, day: i32, second: u32) -> (r: Option<Offsets>)
    requires
        in_calendar(day as int),
        second < 86_400,
    ensures
        r == (if is_iana(name@) {
            Some(zone_wall(name@, day as int, second as int))
        } else {
            None
        }),
        r matches Some(o) ==> small(o),
{
    let zone = name.parse::<chrono_tz::Tz>().ok()?;
    let time = chrono::NaiveTime::from_num_seconds_from_midnight_opt(second, 0)?;
    let wall = chrono::NaiveDate::from_num_days_from_ce_opt(day)?.and_time(time);
    Some(match zone.offset_from_local_datetime(&wall) {
        chrono::LocalResult::None => Offsets::Gap,
        chrono::LocalResult::Single(a) => Offsets::Single(a.fix().local_minus_utc()),
        chrono::LocalResult::Ambiguous(a, b) => {
            Offsets::Ambiguous(a.fix().local_minus_utc(), b.fix().local_minus_utc())
        },
    })
}

/// `offset_from_utc_datetime` of the `chrono_tz::Tz` with a name: how far that
/// zone is ahead of UTC at an instant, always less than a day. A name that is not
/// in the database gives nothing.
#[verifier::external_body]
fn chrono_tz_utc(name: &str, day: i32, second: u32) -> (r: Option<i32>)
    requires
        in_calendar(day as int),
        second < 86_400,
    ensures
        r is Some == is_iana(name@),
        r matches Some(o) ==> o == zone_utc(name@, day as int, second as int) && -86_400 < o < 86_400,
{
    let zone = name.parse::<chrono_tz::Tz>().ok()?;
    let time = chrono::NaiveTime::from_num_seconds_from_midnight_opt(second, 0)?;
    let utc = chrono::NaiveDate::from_num_days_from_ce_opt(day)?.and_time(time);
    Some(zone.offset_from_utc_datetime(&utc).fix().local_minus_utc())
}

/// `offset_from_local_datetime` of `chrono::Local`: whether the machine's clock
/// shows a wall-clock time never, once or twice, and how far it is then ahead of
/// UTC. Which it is depends on the machine; that an offset is less than a day
/// does not.
#[verifier::external_body]
fn chrono_local_wall(day: i32, second: u32) -> (r: Option<Offsets>)
    requires
        in_calendar(day as int),
        second < 86_400,
    ensures
        r matches Some(o) ==> small(o),
{
    let time = chrono::NaiveTime::from_num_seconds_from_midnight_opt(second, 0)?;
    let wall = chrono::NaiveDate::from_num_days_from_ce_opt(day)?.and_time(time);
    Some(match chrono::Local.offset_from_local_datetime(&wall) {
        chrono::LocalResult::None => Offsets::Gap,
        chrono::LocalResult::Single(a) => Offsets::Single(a.local_minus_utc()),
        chrono::LocalResult::Ambiguous(a, b) => Offsets::Ambiguous(a.local_minus_utc(), b.local_minus_utc()),
    })
}

/// `offset_from_utc_datetime` of `chrono::Local`: how far the machine's clock is
/// ahead of UTC at an instant. How far depends on the machine; that it is less
/// than a day does not.
#[verifier::external_body]
fn chrono_local_utc(day: i32, second: u32) -> (r: Option<i32>)
    requires
        in_calendar(day as int),
        second < 86_400,
    ensures
        r matches Some(o) ==> -86_400 < o < 86_400,
{
    let time = chrono::NaiveTime::from_num_seconds_from_midnight_opt(second, 0)?;
    let utc = chrono::NaiveDate::from_num_days_from_ce_opt(day)?.and_time(time);
    Some(chrono::Local.offset_from_utc_datetime(&utc).local_minus_utc())
}

/// A machine zone: the offsets it gives every wall-clock time, and its offset at
/// every instant.
pub struct LocalModel {
    pub wall: spec_fn(int) -> Offsets,
    pub utc: spec_fn(int) -> int,
}

/// The answers of the machine's zone so far.
pub struct LocalClock {
    pub wall: HashMap<i64, Offsets>,
    pub utc: HashMap<i64, i32>,
}

/// Times far enough from the ends of the number range to be shifted by offsets.
pub open spec fn in_span(t: int) -> bool {
    -1_000_000_000_000_000_000 <= t <= 1_000_000_000_000_000_000
}

impl LocalClock {
    /// Every offset remembered is less than a day.
    pub open spec fn wf(&self) -> bool {
        &&& forall|t: i64| #[trigger] self.wall@.contains_key(t) ==> small(self.wall@[t])
        &&& forall|t: i64| #[trigger] self.utc@.contains_key(t) ==> -86_400 < self.utc@[t] < 86_400
    }

    /// Nothing that `old` remembers is forgotten or changed.
    pub open spec fn extends(&self, old: &LocalClock) -> bool {
        &&& forall|t: i64|
            #[trigger] old.wall@.contains_key(t) ==> self.wall@.contains_key(t) && self.wall@[t] == old.wall@[t]
        &&& forall|t: i64|
            #[trigger] old.utc@.contains_key(t) ==> self.utc@.contains_key(t) && self.utc@[t] == old.utc@[t]
    }

    /// Whether a machine zone gives every answer that is remembered.
    pub open spec fn agrees(&self, l: LocalModel) -> bool {
        &&& forall|t: i64| #[trigger] self.wall@.contains_key(t) ==> (l.wall)(t as int) == self.wall@[t]
        &&& forall|t: i64| #[trigger] self.utc@.contains_key(t) ==> (l.utc)(t as int) == self.utc@[t]
    }

    pub fn new() -> (r: LocalClock)
        ensures
            r.wf(),
            forall|l: LocalModel| #[trigger] r.agrees(l),
    {
        LocalClock { wall: HashMap::new(), utc: HashMap::new() }
    }

    /// The machine's offsets at a wall-clock time.
    pub fn wall_offsets(&mut self, t: i64) -> (r: Offsets)
        requires
            old(self).wf(),
        ensures
            final(self).wf(),
            final(self).extends(old(self)),
            final(self).wall@.contains_key(t),
            final(self).wall@[t] == r,
            small(r),
    {
        match self.wall.get(&t) {
            Some(o) => {
                return *o;
            },
            None => {},
        }
        let day: i64 = stamp_day(t);
        let mut o = Offsets::Gap;
        if MIN_DAY <= day && day <= MAX_DAY {
            match chrono_local_wall(day as i32, stamp_second(t) as u32) {
                Some(x) => {
                    o = x;
                },
                None => {},
            }
        }
        self.wall.insert(t, o);
        o
    }

    /// The machine's offset at an instant.
    pub fn utc_offset(&mut self, t: i64) -> (r: i32)
        requires
            old(self).wf(),
        ensures
            final(self).wf(),
            final(self).extends(old(self)),
            final(self).utc@.contains_key(t),
            final(self).utc@[t] == r,
            -86_400 < r < 86_400,
    {
        match self.utc.get(&t) {
            Some(o) => {
                return *o;
            },
            None => {},
        }
        let day: i64 = stamp_day(t);
        let mut o: i32 = 0;
        if MIN_DAY <= day && day <= MAX_DAY {
            match chrono_local_utc(day as i32, stamp_second(t) as u32) {
                Some(x) => {
                    o = x;
                },
                None => {},
            }
        }
        self.utc.insert(t, o);
        o
    }
}

/// Some machine zone gives every answer that a clock remembers.
pub proof fn law_clock_has_a_model(c: &LocalClock)
    ensures
        exists|l: LocalModel| c.agrees(l),
{
    let l = LocalModel {
        wall: |t: int|
            if i64::MIN <= t <= i64::MAX && c.wall@.contains_key(t as i64) {
                c.wall@[t as i64]
            } else {
                Offsets::Gap
            },
        utc: |t: int|
            if i64::MIN <= t <= i64::MAX && c.utc@.contains_key(t as i64) {
                c.utc@[t as i64] as int
            } else {
                0
            },
    };
    assert(c.agrees(l));
}

/// A clock that remembers more agrees with fewer machine zones.
pub proof fn lemma_agrees_with_less(a: &LocalClock, b: &LocalClock, l: LocalModel)
    requires
        b.extends(a),
        b.agrees(l),
    ensures
        a.agrees(l),
{
    assert forall|t: i64| #[trigger] a.wall@.contains_key(t) implies (l.wall)(t as int) == a.wall@[t] by {
        assert(b.wall@.contains_key(t));
    }
    assert forall|t: i64| #[trigger] a.utc@.contains_key(t) implies (l.utc)(t as int) == a.utc@[t] by {
        assert(b.utc@.contains_key(t));
    }
}

pub proof fn lemma_forget(a: &LocalClock, b: &LocalClock)
    requires
        b.extends(a),
    ensures
        forall|l: LocalModel| #[trigger] b.agrees(l) ==> a.agrees(l),
{
    assert forall|l: LocalModel| #[trigger] b.agrees(l) implies a.agrees(l) by {
        lemma_agrees_with_less(a, b, l);
    }
}

pub proof fn lemma_extends_chain(a: &LocalClock, b: &LocalClock, c: &LocalClock)
    requires
        b.extends(a),
        c.extends(b),
    ensures
        c.extends(a),
{
    assert forall|t: i64| #[trigger] a.wall@.contains_key(t) implies c.wall@.contains_key(t) && c.wall@[t]
        == a.wall@[t] by {
        assert(b.wall@.contains_key(t));
    }
    assert forall|t: i64| #[trigger] a.utc@.contains_key(t) implies c.utc@.contains_key(t) && c.utc@[t]
        == a.utc@[t] by {
        assert(b.utc@.contains_key(t));
    }
}

// ---------------------------------------------------------------------------
// Wall clocks and instants
// ---------------------------------------------------------------------------

/// The offsets of a wall-clock time in a zone.
pub open spec fn offsets_at(z: ZoneModel, t: int, l: LocalModel) -> Offsets {
    match z {
        ZoneModel::Floating => (l.wall)(t),
        ZoneModel::Utc => Offsets::Single(0),
        ZoneModel::Named(n) => if is_iana(n) && in_calendar(day_of(t)) {
            zone_wall(n, day_of(t), second_of_day(t))
        } else {
            Offsets::Gap
        },
    }
}

/// How far a zone is ahead of UTC at an instant.
pub open spec fn ahead_at(z: ZoneModel, t: int, l: LocalModel) -> int {
    match z {
        ZoneModel::Floating => (l.utc)(t),
        ZoneModel::Utc => 0,
        ZoneModel::Named(n) => if is_iana(n) && in_calendar(day_of(t)) {
            zone_utc(n, day_of(t), second_of_day(t))
        } else {
            0
        },
    }
}

/// The instant at which a zone's clock shows a moment. Of a time shown twice it is
/// the earlier one; a skipped time moves on by the gap, that is, it keeps the
/// offset of three hours before.
pub open spec fn instant(t: int, z: ZoneModel, l: LocalModel) -> int {
    match offsets_at(z, second_at(t), l) {
        Offsets::Single(o) => t - 2 * o,
        Offsets::Ambiguous(o, _) => t - 2 * o,
        Offsets::Gap => match offsets_at(z, second_at(later(t, -10_800)), l) {
            Offsets::Single(o) => later(t, -o),
            Offsets::Ambiguous(o, _) => later(t, -o),
            Offsets::Gap => t,
        },
    }
}

/// What a zone's clock shows at an instant.
pub open spec fn shown(t: int, z: ZoneModel, l: LocalModel) -> int {
    t + 2 * ahead_at(z, second_at(t), l)
}

/// A zone's wall-clock time on the machine's clock.
pub open spec fn local_wall(t: int, z: ZoneModel, l: LocalModel) -> int {
    if z is Floating {
        t
    } else {
        shown(instant(t, z, l), ZoneModel::Floating, l)
    }
}

/// A wall-clock time of one zone on the clock of another.
pub open spec fn rezoned(t: int, from: ZoneModel, to: ZoneModel, l: LocalModel) -> int {
    if from == to {
        t
    } else {
        shown(instant(t, from, l), to, l)
    }
}

pub fn zone_offsets(t: i64, zone: &Zone, clock: &mut LocalClock) -> (r: Offsets)
    requires
        old(clock).wf(),
    ensures
        final(clock).wf(),
        final(clock).extends(old(clock)),
        forall|l: LocalModel| #[trigger] final(clock).agrees(l) ==> r == offsets_at(zone@, t as int, l),
        small(r),
{
    match zone {
        Zone::Floating => clock.wall_offsets(t),
        Zone::Utc => Offsets::Single(0),
        Zone::Named(n) => {
            let day: i64 = stamp_day(t);
            if MIN_DAY <= day && day <= MAX_DAY {
                match chrono_tz_wall(n.as_str(), day as i32, stamp_second(t) as u32) {
                    Some(o) => o,
                    None => Offsets::Gap,
                }
            } else {
                Offsets::Gap
            }
        },
    }
}

/// The instant at which a zone's clock shows a moment.
pub fn to_utc(t: i64, zone: &Zone, clock: &mut LocalClock) -> (r: i64)
    requires
        old(clock).wf(),
        in_span(t as int),
    ensures
        final(clock).wf(),
        final(clock).extends(old(clock)),
        forall|l: LocalModel| #[trigger] final(clock).agrees(l) ==> r == instant(t as int, zone@, l),
        -200_000 < r - t < 200_000,
{
    let first = zone_offsets(moment_second(t), zone, clock);
    match first {
        Offsets::Single(o) => t - 2 * o as i64,
        Offsets::Ambiguous(o, _) => t - 2 * o as i64,
        Offsets::Gap => {
            let ghost mid = *clock;
            let before = zone_offsets(moment_second(moment_later(t, -10_800)), zone, clock);
            proof {
                lemma_extends_chain(old(clock), &mid, clock);
                lemma_forget(&mid, clock);
            }
            match before {
                Offsets::Single(o) => moment_later(t, -(o as i64)),
                Offsets::Ambiguous(o, _) => moment_later(t, -(o as i64)),
                Offsets::Gap => t,
            }
        },
    }
}

/// What a zone's clock shows at an instant.
pub fn from_utc(t: i64, zone: &Zone, clock: &mut LocalClock) -> (r: i64)
    requires
        old(clock).wf(),
        -1_000_000_000_000_200_000 <= t <= 1_000_000_000_000_200_000,
    ensures
        final(clock).wf(),
        final(clock).extends(old(clock)),
        forall|l: LocalModel| #[trigger] final(clock).agrees(l) ==> r == shown(t as int, zone@, l),
        -200_000 < r - t < 200_000,
{
    let at: i64 = moment_second(t);
    match zone {
        Zone::Floating => t + 2 * clock.utc_offset(at) as i64,
        Zone::Utc => t,
        Zone::Named(n) => {
            let day: i64 = stamp_day(at);
            if MIN_DAY <= day && day <= MAX_DAY {
                match chrono_tz_utc(n.as_str(), day as i32, stamp_second(at) as u32) {
                    Some(o) => t + 2 * o as i64,
                    None => t,
                }
            } else {
                t
            }
        },
    }
}

/// A zone's wall-clock time on the machine's clock.
pub fn to_local(t: i64, zone: &Zone, clock: &mut LocalClock) -> (r: i64)
    requires
        old(clock).wf(),
        in_span(t as int),
    ensures
        final(clock).wf(),
        final(clock).extends(old(clock)),
        forall|l: LocalModel| #[trigger] final(clock).agrees(l) ==> r == local_wall(t as int, zone@, l),
        -400_000 < r - t < 400_000,
{
    match zone {
        Zone::Floating => t,
        _ => {
            let u: i64 = to_utc(t, zone, clock);
            let ghost mid = *clock;
            let r: i64 = from_utc(u, &Zone::Floating, clock);
            proof {
                lemma_extends_chain(old(clock), &mid, clock);
                lemma_forget(&mid, clock);
            }
            r
        },
    }
}

/// Whether two zones are the same.
pub fn same_zone(a: &Zone, b: &Zone) -> (r: bool)
    ensures
        r == (a@ == b@),
{
    match (a, b) {
        (Zone::Floating, Zone::Floating) => true,
        (Zone::Utc, Zone::Utc) => true,
        (Zone::Named(x), Zone::Named(y)) => str_same(x.as_str(), y.as_str()),
        _ => false,
    }
}

/// A copy of a zone.
pub fn copy_zone(z: &Zone) -> (r: Zone)
    ensures
        r@ == z@,
{
    match z {
        Zone::Floating => Zone::Floating,
        Zone::Utc => Zone::Utc,
        Zone::Named(n) => Zone::Named(n.clone()),
    }
}

/// A wall-clock time of one zone on the clock of another.
pub fn convert_wall(t: i64, from: &Zone, to: &Zone, clock: &mut LocalClock) -> (r: i64)
    requires
        old(clock).wf(),
        in_span(t as int),
    ensures
        final(clock).wf(),
        final(clock).extends(old(clock)),
        forall|l: LocalModel| #[trigger] final(clock).agrees(l) ==> r == rezoned(t as int, from@, to@, l),
        -400_000 < r - t < 400_000,
{
    if same_zone(from, to) {
        return t;
    }
    let u: i64 = to_utc(t, from, clock);
    let ghost mid = *clock;
    let r: i64 = from_utc(u, to, clock);
    proof {
        lemma_extends_chain(old(clock), &mid, clock);
        lemma_forget(&mid, clock);
    }
    r
}

/// A clock that is so many seconds ahead of UTC shows a time that many seconds before UTC
/// reaches it, and shows any moment of UTC that many seconds later. A time that a clock shows
/// twice is taken as the first. One that it skips is taken by how far ahead the clock was
/// three hours earlier.
pub proof fn law_clocks_ahead_of_utc(t: int, z: ZoneModel, l: LocalModel, o: i32, p: i32)
    requires
        t % 2 == 0,
    ensures
        offsets_at(z, t / 2, l) == Offsets::Single(o) ==> instant(t, z, l) == t - 2 * o,
        offsets_at(z, t / 2, l) == Offsets::Ambiguous(o, p) ==> instant(t, z, l) == t - 2 * o,
        offsets_at(z, t / 2, l) is Gap && offsets_at(z, t / 2 - 3 * 3_600, l) == Offsets::Single(o) ==> instant(t, z, l)
            == t - 2 * o,
        ahead_at(z, t / 2, l) == o ==> shown(t, z, l) == t + 2 * o,
        instant(t, ZoneModel::Utc, l) == t,
        shown(t, ZoneModel::Utc, l) == t,
{
}

/// A time without a zone is shown as it stands, one of UTC by how far ahead the clock of the
/// machine is then, and one of another zone by the difference of the two clocks.
pub proof fn law_times_are_shown_on_the_clock(t: int, z: ZoneModel, l: LocalModel, o: i32, p: int)
    requires
        t % 2 == 0,
    ensures
        local_wall(t, ZoneModel::Floating, l) == t,
        (l.utc)(t / 2) == p ==> local_wall(t, ZoneModel::Utc, l) == t + 2 * p,
        !(z is Floating) && offsets_at(z, t / 2, l) == Offsets::Single(o) && (l.utc)(t / 2 - o) == p ==> local_wall(
            t,
            z,
            l,
        ) == t - 2 * o + 2 * p,
        rezoned(t, z, z, l) == t,
        !(z is Utc) && offsets_at(z, t / 2, l) == Offsets::Single(o) ==> rezoned(t, z, ZoneModel::Utc, l) == t - 2 * o,
{
    if !(z is Floating) && offsets_at(z, t / 2, l) == Offsets::Single(o) {
        assert(second_at(t - 2 * o) == t / 2 - o);
    }
}

/// A zone that goes by one of the names of the time-zone database is that zone, also in
/// quotation marks or behind a stroke.
pub proof fn law_known_zones_keep_their_names(name: Seq<char>)
    requires
        is_iana(name),
        bare_tzid(name) == name,
    ensures
        zone_of_tzid(name) == ZoneModel::Named(name),
{
}

} // verus!
