//! What a Roku TV is sent: keys for the volume, the power and a position, and how
//! TVs are found and woken on the network.

use vstd::prelude::*;
use vstd::string::*;
use crate::bytes::{lossy_text, text_of};
use crate::json::is_empty;
use crate::levels::from_percent;
use crate::roku::{first_number, parse_ms};
use crate::text::{
    chars_of, contains, contains_text, copy_range, decimal, decimal_text, has_text, opt, split_char, starts,
    str_same, string_of, texts, trim, trim_str, views,
};
use crate::types::{event_model, Activity, CoreEvent, DeviceCmd, EventModel};
use crate::xml::{tag, xml_tag};

verus! {

// ---------------------------------------------------------------------------
// Commands
// ---------------------------------------------------------------------------

/// What is done for a command.
#[derive(Debug)]
pub enum RokuAct {
    Stop,
    Nothing,
    /// Bring the volume to so many per cent.
    Volume(u8),
    Press(String),
    /// Forget the level, so that the next change starts from zero.
    Recalibrate,
    Power(bool),
    /// Press a key, wait, and look.
    PressAndLook(String),
    /// Start an app, wait, and look.
    LaunchAndLook(String),
    /// Look after a wait.
    WaitAndLook,
    /// Forget the list of inputs and look.
    Reload,
    Seek(u64),
}

pub enum ActModel {
    Stop,
    Nothing,
    Volume(int),
    Press(Seq<char>),
    Recalibrate,
    Power(bool),
    PressAndLook(Seq<char>),
    LaunchAndLook(Seq<char>),
    WaitAndLook,
    Reload,
    Seek(u64),
}

pub open spec fn act_model(a: RokuAct) -> ActModel {
    match a {
        RokuAct::Stop => ActModel::Stop,
        RokuAct::Nothing => ActModel::Nothing,
        RokuAct::Volume(p) => ActModel::Volume(p as int),
        RokuAct::Press(k) => ActModel::Press(k@),
        RokuAct::Recalibrate => ActModel::Recalibrate,
        RokuAct::Power(on) => ActModel::Power(on),
        RokuAct::PressAndLook(k) => ActModel::PressAndLook(k@),
        RokuAct::LaunchAndLook(a) => ActModel::LaunchAndLook(a@),
        RokuAct::WaitAndLook => ActModel::WaitAndLook,
        RokuAct::Reload => ActModel::Reload,
        RokuAct::Seek(t) => ActModel::Seek(t),
    }
}

/// A level as whole per cent, between 0 and 100.
pub open spec fn target_of(level: int) -> int {
    if level <= 0 {
        0
    } else if level >= 1_000_000 {
        100
    } else {
        (level + 5_000) / 10_000
    }
}

pub fn target(level: i64) -> (r: u8)
    ensures
        r == target_of(level as int),
        r <= 100,
{
    if level <= 0 {
        0
    } else if level >= 1_000_000 {
        100
    } else {
        ((level + 5_000) / 10_000) as u8
    }
}

/// The keys of the remote that may be sent. Those of the volume are not among them:
/// the level would no longer be known.
pub open spec fn is_remote_key(k: Seq<char>) -> bool {
    ||| k == "Home"@
    ||| k == "Back"@
    ||| k == "Select"@
    ||| k == "Up"@
    ||| k == "Down"@
    ||| k == "Left"@
    ||| k == "Right"@
    ||| k == "Info"@
    ||| k == "InstantReplay"@
    ||| k == "Play"@
    ||| k == "Rev"@
    ||| k == "Fwd"@
    ||| k == "ChannelUp"@
    ||| k == "ChannelDown"@
    ||| k == "Search"@
}

pub fn remote_key(k: &str) -> (r: bool)
    ensures
        r == is_remote_key(k@),
{
    str_same(k, "Home") || str_same(k, "Back") || str_same(k, "Select") || str_same(k, "Up") || str_same(k, "Down")
        || str_same(k, "Left") || str_same(k, "Right") || str_same(k, "Info") || str_same(k, "InstantReplay") || str_same(
        k,
        "Play",
    ) || str_same(k, "Rev") || str_same(k, "Fwd") || str_same(k, "ChannelUp") || str_same(k, "ChannelDown")
        || str_same(k, "Search")
}

/// What follows a beginning.
pub open spec fn after_start(s: Seq<char>, start: Seq<char>) -> Option<Seq<char>> {
    if starts(s, start) {
        Some(s.skip(start.len() as int))
    } else {
        None
    }
}

pub fn strip_start_text(s: &str, start: &str) -> (r: Option<String>)
    ensures
        opt(r) == after_start(s@, start@),
{
    let a = chars_of(s);
    let b = chars_of(start);
    if crate::text::has_at(a.as_slice(), b.as_slice(), 0) {
        let rest = copy_range(a.as_slice(), b.len(), a.len());
        proof {
            assert(rest@ =~= s@.skip(b@.len() as int));
        }
        Some(string_of(rest.as_slice()))
    } else {
        None
    }
}

/// What is done for a command.
pub open spec fn act_for(cmd: DeviceCmd) -> ActModel {
    match cmd {
        DeviceCmd::Shutdown => ActModel::Stop,
        DeviceCmd::SetVolume(level) => ActModel::Volume(target_of(level as int)),
        DeviceCmd::SetMuted(_) => ActModel::Press("VolumeMute"@),
        DeviceCmd::Play | DeviceCmd::Pause => ActModel::Press("Play"@),
        DeviceCmd::Next => ActModel::Press("Fwd"@),
        DeviceCmd::Prev => ActModel::Press("Rev"@),
        DeviceCmd::Refresh => ActModel::Recalibrate,
        DeviceCmd::Power(on) => ActModel::Power(on),
        DeviceCmd::Input(input) => match after_start(input@, "key:"@) {
            Some(key) => ActModel::PressAndLook(key),
            None => match after_start(input@, "app:"@) {
                Some(app) => ActModel::LaunchAndLook(app),
                None => ActModel::WaitAndLook,
            },
        },
        DeviceCmd::Resync => ActModel::Reload,
        DeviceCmd::Seek(t) => ActModel::Seek(t),
        DeviceCmd::Key(key) => if is_remote_key(key@) {
            ActModel::Press(key@)
        } else {
            ActModel::Nothing
        },
        DeviceCmd::Cast(_) | DeviceCmd::PollMedia | DeviceCmd::StopCasting => ActModel::Nothing,
    }
}

pub fn act_on(cmd: DeviceCmd) -> (r: RokuAct)
    ensures
        act_model(r) == act_for(cmd),
{
    match cmd {
        DeviceCmd::Shutdown => RokuAct::Stop,
        DeviceCmd::SetVolume(level) => RokuAct::Volume(target(level)),
        DeviceCmd::SetMuted(_) => RokuAct::Press("VolumeMute".to_string()),
        DeviceCmd::Play => RokuAct::Press("Play".to_string()),
        DeviceCmd::Pause => RokuAct::Press("Play".to_string()),
        DeviceCmd::Next => RokuAct::Press("Fwd".to_string()),
        DeviceCmd::Prev => RokuAct::Press("Rev".to_string()),
        DeviceCmd::Refresh => RokuAct::Recalibrate,
        DeviceCmd::Power(on) => RokuAct::Power(on),
        DeviceCmd::Input(input) => match strip_start_text(input.as_str(), "key:") {
            Some(key) => RokuAct::PressAndLook(key),
            None => match strip_start_text(input.as_str(), "app:") {
                Some(app) => RokuAct::LaunchAndLook(app),
                None => RokuAct::WaitAndLook,
            },
        },
        DeviceCmd::Resync => RokuAct::Reload,
        DeviceCmd::Seek(t) => RokuAct::Seek(t),
        DeviceCmd::Key(key) => {
            if remote_key(key.as_str()) {
                RokuAct::Press(key)
            } else {
                RokuAct::Nothing
            }
        },
        DeviceCmd::Cast(_) => RokuAct::Nothing,
        DeviceCmd::PollMedia => RokuAct::Nothing,
        DeviceCmd::StopCasting => RokuAct::Nothing,
    }
}

/// The last volume that was asked for among the first `n` commands that wait, and
/// nothing if one of them ends it all.
pub open spec fn last_volume(level: i64, queued: Seq<DeviceCmd>, n: int) -> Option<i64>
    decreases n,
{
    if n <= 0 {
        Some(level)
    } else {
        match last_volume(level, queued, n - 1) {
            Some(l) => match queued[n - 1] {
                DeviceCmd::SetVolume(v) => Some(v),
                DeviceCmd::Shutdown => None,
                _ => Some(l),
            },
            None => None,
        }
    }
}

/// The volume that is set: of those that wait only the last counts, since a ramp is
/// slow.
pub fn collapse(level: i64, queued: &Vec<DeviceCmd>) -> (r: Option<i64>)
    ensures
        r == last_volume(level, queued@, queued@.len() as int),
{
    let mut out: Option<i64> = Some(level);
    let mut i: usize = 0;
    while i < queued.len()
        invariant
            i <= queued@.len(),
            out == last_volume(level, queued@, i as int),
        decreases queued@.len() - i,
    {
        if out.is_some() {
            match &queued[i] {
                DeviceCmd::SetVolume(v) => {
                    out = Some(*v);
                },
                DeviceCmd::Shutdown => {
                    out = None;
                },
                _ => {},
            }
        }
        i = i + 1;
    }
    out
}

/// How long until a TV is looked at again, in milliseconds: it is watched closely
/// while something plays.
pub fn poll_wait(activity: Option<Activity>) -> (r: u64)
    ensures
        r == (if activity == Some(Activity::Playing) || activity == Some(Activity::Loading) {
            3_000
        } else {
            10_000int
        }),
{
    match activity {
        Some(Activity::Playing) => 3_000,
        Some(Activity::Loading) => 3_000,
        _ => 10_000,
    }
}

// ---------------------------------------------------------------------------
// The volume
// ---------------------------------------------------------------------------

/// So many presses that any level is brought to zero.
pub const ZERO_PRESSES: u32 = 102;

/// Presses of the volume keys: first down, then up.
#[derive(Clone, Copy, Debug, PartialEq, Eq, Structural)]
pub struct Ramp {
    pub downs: u32,
    pub ups: u32,
    /// Whether the level was not known, so that the TV has to settle at zero.
    pub from_zero: bool,
}

/// The presses from the last known level, if there is one, to another.
pub open spec fn ramp_of(cached: Option<u8>, target: u8) -> Ramp {
    match cached {
        Some(cur) => if target < cur {
            Ramp { downs: (cur - target) as u32, ups: 0, from_zero: false }
        } else {
            Ramp { downs: 0, ups: (target - cur) as u32, from_zero: false }
        },
        None => Ramp { downs: ZERO_PRESSES, ups: target as u32, from_zero: true },
    }
}

pub fn ramp(cached: Option<u8>, target: u8) -> (r: Ramp)
    ensures
        r == ramp_of(cached, target),
{
    match cached {
        Some(cur) => if target < cur {
            Ramp { downs: (cur - target) as u32, ups: 0, from_zero: false }
        } else {
            Ramp { downs: 0, ups: (target - cur) as u32, from_zero: false }
        },
        None => Ramp { downs: ZERO_PRESSES, ups: target as u32, from_zero: true },
    }
}

/// What is known after the presses, and what is reported: if one failed the level is
/// no longer known.
pub fn ramp_done(id: &str, target: u8, failed: bool) -> (r: (Option<u8>, Option<CoreEvent>))
    requires
        target <= 100,
    ensures
        failed ==> r.0 is None && r.1 is None,
        !failed ==> r.0 == Some(target) && r.1 is Some && event_model(r.1->0) == EventModel::Volume(
            id@,
            10_000 * target,
            false,
        ),
{
    if failed {
        (None, None)
    } else {
        (
            Some(target),
            Some(CoreEvent::VolumeChanged { id: id.to_string(), volume: from_percent(target), muted: false }),
        )
    }
}

/// The level of a TV after so many presses down and up. It stays between 0 and 100.
pub open spec fn level_after(level: int, downs: int, ups: int) -> int {
    let low = if level - downs < 0 {
        0
    } else {
        level - downs
    };
    if low + ups > 100 {
        100
    } else {
        low + ups
    }
}

/// A ramp ends at the level that was asked for, when the known level is the true
/// one, and from any level when none is known.
pub proof fn law_ramp_arrives(level: int, cached: Option<u8>, target: u8)
    requires
        0 <= level <= 100,
        target <= 100,
        cached matches Some(c) ==> c == level,
    ensures
        level_after(level, ramp_of(cached, target).downs as int, ramp_of(cached, target).ups as int) == target,
{
}

// ---------------------------------------------------------------------------
// A position
// ---------------------------------------------------------------------------

/// How a position is reached.
#[derive(Clone, Copy, Debug, PartialEq, Eq, Structural)]
pub enum SeekPlan {
    /// The channel of our own takes a position.
    Direct,
    /// No position is reported, or it is near enough.
    Nothing,
    /// Scan from a position, forward or back, with so many presses.
    Scan { forward: bool, start: u64, presses: u8 },
}

pub open spec fn gap(a: u64, b: u64) -> int {
    if a > b {
        a - b
    } else {
        b - a
    }
}

/// How a position is reached from where the TV is. Each press makes the scan
/// faster; a long way takes three.
pub open spec fn seek_plan_of(active: Seq<char>, start: Option<u64>, target: u64) -> SeekPlan {
    if contains(active, "id=\"dev\""@) {
        SeekPlan::Direct
    } else {
        match start {
            None => SeekPlan::Nothing,
            Some(p) => if gap(target, p) < 4_000 {
                SeekPlan::Nothing
            } else {
                SeekPlan::Scan {
                    forward: target > p,
                    start: p,
                    presses: if gap(target, p) > 600_000 {
                        3
                    } else if gap(target, p) > 120_000 {
                        2
                    } else {
                        1
                    },
                }
            },
        }
    }
}

pub fn plan_seek(active: &str, start: Option<u64>, target: u64) -> (r: SeekPlan)
    ensures
        r == seek_plan_of(active@, start, target),
{
    if is_player_active(active) {
        return SeekPlan::Direct;
    }
    match start {
        None => SeekPlan::Nothing,
        Some(p) => {
            let distance: u64 = if target > p {
                target - p
            } else {
                p - target
            };
            if distance < 4_000 {
                return SeekPlan::Nothing;
            }
            SeekPlan::Scan {
                forward: target > p,
                start: p,
                presses: if distance > 600_000 {
                    3
                } else if distance > 120_000 {
                    2
                } else {
                    1
                },
            }
        },
    }
}

/// Whether the channel of our own is on the screen.
pub fn is_player_active(active: &str) -> (r: bool)
    ensures
        r == contains(active@, "id=\"dev\""@),
{
    let c = chars_of(active);
    let d = chars_of("id=\"dev\"");
    contains_text(c.as_slice(), d.as_slice())
}

/// The position in what the player says.
pub fn read_position(player: &str) -> (r: Option<u64>)
    ensures
        r == (match tag(player@, "position"@) {
            Some(v) => first_number(v),
            None => None,
        }),
{
    let c = chars_of(player);
    match xml_tag(c.as_slice(), "position") {
        Some(v) => parse_ms(v.as_slice()),
        None => None,
    }
}

/// A scan that runs. Times are in milliseconds.
#[derive(Clone, Copy, Debug, PartialEq, Eq, Structural)]
pub struct Scan {
    pub forward: bool,
    pub target: u64,
    pub begun: i64,
    pub pos: u64,
    pub at: i64,
    /// When the position last moved.
    pub moved: i64,
}

/// How far a scan runs on until a press takes effect: what it covers in 450
/// milliseconds at its present speed, and a second.
pub open spec fn lead_of(s: Scan, pos: u64, now: int) -> int {
    let took = if now - s.at < 1 {
        1
    } else {
        now - s.at
    };
    gap(pos, s.pos) * 450 / took + 1_000
}

/// Whether a scan has arrived: it will have reached the target when a press takes
/// effect.
pub open spec fn arrived(s: Scan, pos: u64, now: int) -> bool {
    if s.forward {
        pos + lead_of(s, pos, now) >= s.target
    } else {
        pos <= s.target + lead_of(s, pos, now)
    }
}

/// Whether a scan ends: no position is reported, it has arrived, the position has
/// not moved for four seconds, or it has taken ninety.
pub open spec fn scan_ends(s: Scan, pos: Option<u64>, now: int) -> bool {
    match pos {
        None => true,
        Some(p) => {
            let moved = if p != s.pos {
                now
            } else {
                s.moved as int
            };
            arrived(s, p, now) || now - moved > 4_000 || now - s.begun > 90_000
        },
    }
}

/// One look at a scan: whether it ends.
pub fn scan_step(s: &mut Scan, pos: Option<u64>, now: i64) -> (r: bool)
    requires
        old(s).at <= now,
        old(s).moved <= now,
        old(s).begun <= now,
        -4_000_000_000_000_000_000 <= old(s).at,
        -4_000_000_000_000_000_000 <= old(s).moved,
        -4_000_000_000_000_000_000 <= old(s).begun,
        now <= 4_000_000_000_000_000_000,
    ensures
        r == scan_ends(*old(s), pos, now as int),
        *final(s) == (match pos {
            Some(p) => Scan {
                pos: p,
                at: now,
                moved: if p != old(s).pos {
                    now
                } else {
                    old(s).moved
                },
                ..*old(s)
            },
            None => *old(s),
        }),
{
    match pos {
        None => true,
        Some(p) => {
            let took: i64 = if now - s.at < 1 {
                1
            } else {
                now - s.at
            };
            let far: u64 = if p > s.pos {
                p - s.pos
            } else {
                s.pos - p
            };
            proof {
                assert(far as int * 450 >= 0 && far * 450 <= 0x1_0000_0000_0000_0000 * 450);
            }
            let way: u128 = far as u128 * 450;
            let steps: u128 = way / (took as u128);
            proof {
                vstd::arithmetic::div_mod::lemma_div_is_ordered_by_denominator(way as int, 1, took as int);
                assert(way as int / 1 == way as int);
            }
            let lead: u128 = steps + 1_000;
            let there: bool = if s.forward {
                p as u128 + lead >= s.target as u128
            } else {
                p as u128 <= s.target as u128 + lead
            };
            if p != s.pos {
                s.moved = now;
            }
            s.pos = p;
            s.at = now;
            there || now - s.moved > 4_000 || now - s.begun > 90_000
        },
    }
}

/// A scan does not run for ever: a look at it after ninety seconds is the last.
pub proof fn law_scan_ends(s: Scan, pos: Option<u64>, now: int)
    requires
        now > s.begun + 90_000,
    ensures
        scan_ends(s, pos, now),
{
}

// ---------------------------------------------------------------------------
// The power
// ---------------------------------------------------------------------------

/// How a key press ended.
#[derive(Clone, Copy, Debug, PartialEq, Eq, Structural)]
pub enum KeyResult {
    Done,
    /// No answer: the TV is off the network or asleep.
    Unreachable,
    /// The TV said no.
    Refused,
}

/// How often a TV is woken.
pub const WAKE_ATTEMPTS: u8 = 6;

/// Whether a TV that was to be switched on is woken after a key press, when it has
/// been woken `woken` times: one that did not answer at all is, if an address to
/// wake it is known, and again as long as it does not take the key.
pub fn should_wake(on: bool, result: KeyResult, has_address: bool, woken: u8) -> (r: bool)
    ensures
        r == (on && if woken == 0 {
            result == KeyResult::Unreachable && has_address
        } else {
            result != KeyResult::Done && woken < WAKE_ATTEMPTS
        }),
{
    on && if woken == 0 {
        result == KeyResult::Unreachable && has_address
    } else {
        result != KeyResult::Done && woken < WAKE_ATTEMPTS
    }
}

/// The key that switches a TV on or off.
pub fn power_key(on: bool) -> (r: &'static str)
    ensures
        r@ == (if on {
            "PowerOn"@
        } else {
            "PowerOff"@
        }),
{
    if on {
        "PowerOn"
    } else {
        "PowerOff"
    }
}

/// The value of a hexadecimal digit.
pub open spec fn hex_digit_of(c: char) -> Option<int> {
    if '0' <= c <= '9' {
        Some(c as int - '0' as int)
    } else if 'a' <= c <= 'f' {
        Some(c as int - 'a' as int + 10)
    } else if 'A' <= c <= 'F' {
        Some(c as int - 'A' as int + 10)
    } else {
        None
    }
}

/// The number that the first `n` characters stand for, if they are hexadecimal.
pub open spec fn hex_number(s: Seq<char>, n: int) -> Option<int>
    decreases n,
{
    if n <= 0 {
        Some(0)
    } else {
        match (hex_number(s, n - 1), hex_digit_of(s[n - 1])) {
            (Some(a), Some(d)) => Some(16 * a + d),
            _ => None,
        }
    }
}

/// The byte that a text in hexadecimal stands for. A plus sign may stand before it.
pub open spec fn hex_byte(s: Seq<char>) -> Option<u8> {
    let t = if s.len() > 0 && s[0] == '+' {
        s.skip(1)
    } else {
        s
    };
    match hex_number(t, t.len() as int) {
        Some(n) => if t.len() > 0 && n <= 255 {
            Some(n as u8)
        } else {
            None
        },
        None => None,
    }
}

fn hex_value_of(c: char) -> (r: Option<u32>)
    ensures
        match r {
            Some(d) => hex_digit_of(c) == Some(d as int) && d < 16,
            None => hex_digit_of(c) is None,
        },
{
    let n: u32 = c as u32;
    if '0' <= c && c <= '9' {
        Some(n - 48)
    } else if 'a' <= c && c <= 'f' {
        Some(n - 87)
    } else if 'A' <= c && c <= 'F' {
        Some(n - 55)
    } else {
        None
    }
}

proof fn lemma_hex_grows(s: Seq<char>, i: int, n: int)
    requires
        0 <= i <= n <= s.len(),
    ensures
        hex_number(s, n) matches Some(v) ==> hex_number(s, i) is Some && 0 <= hex_number(s, i)->0 <= v,
    decreases n,
{
    if n > i {
        lemma_hex_grows(s, i, n - 1);
    }
    if n > 0 && i == n {
        lemma_hex_grows(s, 0, n - 1);
        lemma_hex_nat(s, n);
    }
}

proof fn lemma_hex_nat(s: Seq<char>, n: int)
    ensures
        hex_number(s, n) matches Some(v) ==> v >= 0,
    decreases n,
{
    if n > 0 {
        lemma_hex_nat(s, n - 1);
    }
}

fn read_hex_byte(s: &[char]) -> (r: Option<u8>)
    ensures
        r == hex_byte(s@),
{
    let from: usize = if s.len() > 0 && s[0] == '+' {
        1
    } else {
        0
    };
    let t = copy_range(s, from, s.len());
    proof {
        assert(t@ =~= (if s@.len() > 0 && s@[0] == '+' {
            s@.skip(1)
        } else {
            s@
        }));
    }
    if t.len() == 0 {
        return None;
    }
    let mut v: u32 = 0;
    let mut i: usize = 0;
    while i < t.len()
        invariant
            i <= t@.len(),
            t@.len() > 0,
            t@ == (if s@.len() > 0 && s@[0] == '+' {
                s@.skip(1)
            } else {
                s@
            }),
            v <= 255,
            hex_number(t@, i as int) == Some(v as int),
        decreases t@.len() - i,
    {
        match hex_value_of(t[i]) {
            Some(d) => {
                v = 16 * v + d;
                proof {
                    lemma_hex_grows(t@, i + 1, t@.len() as int);
                }
                if v > 255 {
                    return None;
                }
            },
            None => {
                proof {
                    lemma_hex_grows(t@, i + 1, t@.len() as int);
                }
                return None;
            },
        }
        i = i + 1;
    }
    Some(v as u8)
}

/// The bytes in the first `n` parts of an address.
pub open spec fn mac_bytes(parts: Seq<Seq<char>>, n: int) -> Seq<u8>
    decreases n,
{
    if n <= 0 {
        Seq::empty()
    } else {
        match hex_byte(parts[n - 1]) {
            Some(b) => mac_bytes(parts, n - 1).push(b),
            None => mac_bytes(parts, n - 1),
        }
    }
}

/// The parts of an address, with colons or dashes between them.
pub open spec fn mac_parts(mac: Seq<char>) -> Seq<Seq<char>> {
    crate::text::split(crate::text::replace_char(mac, '-', ':'), ':')
}

/// The packet that wakes the device with an address: six bytes of ones and sixteen
/// times the address.
pub open spec fn wake_packet_of(address: Seq<u8>, n: int) -> Seq<u8>
    decreases n,
{
    if n <= 0 {
        seq![255u8, 255u8, 255u8, 255u8, 255u8, 255u8]
    } else {
        wake_packet_of(address, n - 1) + address
    }
}

/// The packet that wakes the device with an address of six bytes.
pub fn wake_packet(mac: &str) -> (r: Result<Vec<u8>, String>)
    ensures
        ({
            let parts = mac_parts(mac@);
            let bytes = mac_bytes(parts, parts.len() as int);
            match r {
                Ok(p) => bytes.len() == 6 && p@ == wake_packet_of(bytes, 16),
                Err(e) => bytes.len() != 6 && e@ == "bad MAC address"@,
            }
        }),
{
    let c = chars_of(mac);
    let d = crate::text::replaced_char(c.as_slice(), '-', ':');
    let parts = split_char(d.as_slice(), ':');
    let ghost m = views(parts@);
    let mut bytes: Vec<u8> = Vec::new();
    let mut i: usize = 0;
    while i < parts.len()
        invariant
            i <= parts@.len(),
            m == views(parts@),
            bytes@ == mac_bytes(m, i as int),
            bytes@.len() <= i,
        decreases parts@.len() - i,
    {
        proof {
            assert(m[i as int] == parts@[i as int]@);
        }
        match read_hex_byte(parts[i].as_slice()) {
            Some(b) => bytes.push(b),
            None => {},
        }
        i = i + 1;
    }
    proof {
        assert(m.len() == parts@.len());
    }
    if bytes.len() != 6 {
        return Err("bad MAC address".to_string());
    }
    let mut out: Vec<u8> = vec![255u8, 255, 255, 255, 255, 255];
    proof {
        assert(out@ =~= wake_packet_of(bytes@, 0));
    }
    let mut k: usize = 0;
    while k < 16
        invariant
            k <= 16,
            out@ == wake_packet_of(bytes@, k as int),
        decreases 16 - k,
    {
        let mut again = crate::h264::copy_bytes(bytes.as_slice(), 0, bytes.len());
        proof {
            assert(again@ =~= bytes@);
        }
        out.append(&mut again);
        k = k + 1;
    }
    Ok(out)
}

/// A packet that wakes a device has 102 bytes, and the address stands in each of its
/// sixteen places.
pub proof fn law_wake_packet(address: Seq<u8>, n: int)
    requires
        address.len() == 6,
        n >= 0,
    ensures
        wake_packet_of(address, n).len() == 6 + 6 * n,
        forall|k: int|
            0 <= k < n ==> #[trigger] wake_packet_of(address, n).subrange(6 + 6 * k, 12 + 6 * k) == address,
        wake_packet_of(address, n).take(6) == seq![255u8, 255u8, 255u8, 255u8, 255u8, 255u8],
    decreases n,
{
    if n > 0 {
        law_wake_packet(address, n - 1);
        let before = wake_packet_of(address, n - 1);
        let all = wake_packet_of(address, n);
        assert(all.take(6) =~= before.take(6));
        assert forall|k: int| 0 <= k < n implies #[trigger] all.subrange(6 + 6 * k, 12 + 6 * k) == address by {
            if k < n - 1 {
                assert(all.subrange(6 + 6 * k, 12 + 6 * k) =~= before.subrange(6 + 6 * k, 12 + 6 * k));
            } else {
                assert(all.subrange(6 + 6 * k, 12 + 6 * k) =~= address);
            }
        }
    } else {
        assert(wake_packet_of(address, 0).take(6) =~= wake_packet_of(address, 0));
    }
}

// ---------------------------------------------------------------------------
// Finding TVs
// ---------------------------------------------------------------------------

/// A Roku that was found.
#[derive(Debug)]
pub struct FoundRoku {
    pub ip: String,
    pub name: String,
    pub model: String,
    pub serial: String,
}

/// The text of an element, or an empty one.
pub open spec fn tag_text(xml: Seq<char>, name: Seq<char>) -> Seq<char> {
    match tag(xml, name) {
        Some(t) => t,
        None => Seq::empty(),
    }
}

fn read_tag(xml: &[char], name: &str) -> (r: String)
    ensures
        r@ == tag_text(xml@, name@),
{
    match xml_tag(xml, name) {
        Some(t) => string_of(t.as_slice()),
        None => String::new(),
    }
}

/// What a Roku says of itself. Its name is the one that its owner gave it, else its
/// own.
pub fn read_device_info(xml: &str, ip: &str) -> (r: FoundRoku)
    ensures
        r.ip@ == ip@,
        r.name@ == (if tag_text(xml@, "user-device-name"@).len() == 0 {
            tag_text(xml@, "friendly-device-name"@)
        } else {
            tag_text(xml@, "user-device-name"@)
        }),
        r.model@ == tag_text(xml@, "model-name"@),
        r.serial@ == tag_text(xml@, "serial-number"@),
{
    let c = chars_of(xml);
    let user = read_tag(c.as_slice(), "user-device-name");
    let name = if is_empty(user.as_str()) {
        read_tag(c.as_slice(), "friendly-device-name")
    } else {
        user
    };
    FoundRoku {
        ip: ip.to_string(),
        name,
        model: read_tag(c.as_slice(), "model-name"),
        serial: read_tag(c.as_slice(), "serial-number"),
    }
}

/// A line without the carriage return at its end.
pub open spec fn line_text(s: Seq<char>) -> Seq<char> {
    if s.len() > 0 && s.last() == '\r' {
        s.drop_last()
    } else {
        s
    }
}

/// The host that a line of an answer names, as in
/// `LOCATION: http://192.168.1.50:8060/`.
pub open spec fn host_in(line: Seq<char>) -> Option<Seq<char>> {
    let place = match after_start(line, "LOCATION: "@) {
        Some(x) => Some(x),
        None => after_start(line, "Location: "@),
    };
    match place {
        Some(x) => match after_start(trim(x), "http://"@) {
            Some(rest) => Some(rest.take(crate::text::position(rest, ':', 0))),
            None => None,
        },
        None => None,
    }
}

fn read_host(line: &str) -> (r: Option<String>)
    ensures
        opt(r) == host_in(line@),
{
    let place = match strip_start_text(line, "LOCATION: ") {
        Some(x) => Some(x),
        None => strip_start_text(line, "Location: "),
    };
    match place {
        Some(x) => {
            let t = trim_str(x.as_str());
            match strip_start_text(t.as_str(), "http://") {
                Some(rest) => {
                    let c = chars_of(rest.as_str());
                    let n: usize = crate::text::find_char(c.as_slice(), ':', 0);
                    let h = copy_range(c.as_slice(), 0, n);
                    proof {
                        assert(h@ =~= rest@.take(n as int));
                    }
                    Some(string_of(h.as_slice()))
                },
                None => None,
            }
        },
        None => None,
    }
}

/// The hosts that were known and those in the first `n` lines, each once.
pub open spec fn hosts_in(known: Seq<Seq<char>>, lines: Seq<Seq<char>>, n: int) -> Seq<Seq<char>>
    decreases n,
{
    if n <= 0 {
        known
    } else {
        let before = hosts_in(known, lines, n - 1);
        match host_in(line_text(lines[n - 1])) {
            Some(h) => if before.contains(h) {
                before
            } else {
                before.push(h)
            },
            None => before,
        }
    }
}

/// Takes in an answer to the question who is there.
pub fn note_hosts(hosts: &mut Vec<String>, answer: &str)
    ensures
        ({
            let lines = crate::text::split(answer@, '\n');
            texts(final(hosts)@) == hosts_in(texts(old(hosts)@), lines, lines.len() as int)
        }),
{
    let c = chars_of(answer);
    let lines = split_char(c.as_slice(), '\n');
    let ghost m = views(lines@);
    let mut i: usize = 0;
    while i < lines.len()
        invariant
            i <= lines@.len(),
            m == views(lines@),
            texts(hosts@) == hosts_in(texts(old(hosts)@), m, i as int),
        decreases lines@.len() - i,
    {
        proof {
            assert(m[i as int] == lines@[i as int]@);
        }
        let n: usize = lines[i].len();
        let end: usize = if n > 0 && lines[i][n - 1] == '\r' {
            n - 1
        } else {
            n
        };
        let l = copy_range(lines[i].as_slice(), 0, end);
        proof {
            assert(l@ =~= line_text(m[i as int]));
        }
        let t = string_of(l.as_slice());
        match read_host(t.as_str()) {
            Some(h) => {
                if !has_text(hosts, h.as_str()) {
                    let ghost before = texts(hosts@);
                    hosts.push(h);
                    proof {
                        assert(texts(hosts@) =~= before.push(h@));
                    }
                }
            },
            None => {},
        }
        i = i + 1;
    }
    proof {
        assert(m.len() == lines@.len());
    }
}

/// Takes in the bytes of an answer to the question who is there.
pub fn note_answer(hosts: &mut Vec<String>, answer: &[u8])
    ensures
        ({
            let lines = crate::text::split(text_of(answer@), '\n');
            texts(final(hosts)@) == hosts_in(texts(old(hosts)@), lines, lines.len() as int)
        }),
{
    note_hosts(hosts, lossy_text(answer).as_str())
}

/// The address of a host of a network.
pub open spec fn host_address(a: u8, b: u8, c: u8, host: int) -> Seq<char> {
    decimal(a as int) + "."@ + decimal(b as int) + "."@ + decimal(c as int) + "."@ + decimal(host)
}

/// The addresses that are tried on the network of an address: all but the first and
/// the last.
pub fn subnet_hosts(a: u8, b: u8, c: u8) -> (r: Vec<String>)
    ensures
        r@.len() == 254,
        forall|i: int| 0 <= i < 254 ==> (#[trigger] r@[i])@ == host_address(a, b, c, i + 1),
{
    let mut out: Vec<String> = Vec::new();
    let mut host: u64 = 1;
    while host < 255
        invariant
            1 <= host <= 255,
            out@.len() == host - 1,
            forall|i: int| 0 <= i < host - 1 ==> (#[trigger] out@[i])@ == host_address(a, b, c, i + 1),
        decreases 255 - host,
    {
        let x = string_of(decimal_text(a as u64).as_slice());
        let y = string_of(decimal_text(b as u64).as_slice());
        let z = string_of(decimal_text(c as u64).as_slice());
        let h = string_of(decimal_text(host).as_slice());
        out.push(
            x.concat(".").concat(y.as_str()).concat(".").concat(z.as_str()).concat(".").concat(h.as_str()),
        );
        host = host + 1;
    }
    out
}

/// What a Roku TV does for each command: the volume in whole per cent, the nearest to the
/// level; the keys of its remote control by their names; and a seek to where it is asked.
pub proof fn law_commands_of_a_roku(level: i64, muted: bool, on: bool, t: u64)
    requires
        0 <= level <= 1_000_000,
    ensures
        act_for(DeviceCmd::SetVolume(level)) matches ActModel::Volume(p) && 0 <= p <= 100 && -5_000 <= level - 10_000 * p
            <= 5_000,
        act_for(DeviceCmd::SetMuted(muted)) == ActModel::Press("VolumeMute"@),
        act_for(DeviceCmd::Play) == ActModel::Press("Play"@),
        act_for(DeviceCmd::Pause) == ActModel::Press("Play"@),
        act_for(DeviceCmd::Next) == ActModel::Press("Fwd"@),
        act_for(DeviceCmd::Prev) == ActModel::Press("Rev"@),
        act_for(DeviceCmd::Power(on)) == ActModel::Power(on),
        act_for(DeviceCmd::Seek(t)) == ActModel::Seek(t),
        act_for(DeviceCmd::Shutdown) is Stop,
{
}

/// An input that is a key is pressed, and one that is an app is started, by the name that
/// stands behind the mark.
pub proof fn law_inputs_of_a_roku(input: String, name: Seq<char>)
    ensures
        input@ == "key:"@ + name ==> act_for(DeviceCmd::Input(input)) == ActModel::PressAndLook(name),
        input@ == "app:"@ + name ==> act_for(DeviceCmd::Input(input)) == ActModel::LaunchAndLook(name),
{
    reveal_strlit("key:");
    reveal_strlit("app:");
    if input@ == "key:"@ + name {
        assert(input@.subrange(0, 4) =~= "key:"@);
        assert(input@.skip(4) =~= name);
    }
    if input@ == "app:"@ + name {
        assert(input@.subrange(0, 4) =~= "app:"@);
        assert(input@.skip(4) =~= name);
        assert(input@[0] == 'a');
        if starts(input@, "key:"@) {
            assert(input@.subrange(0, 4)[0] == "key:"@[0]);
        }
    }
}

/// Of volumes that were asked for in a row only the last counts, and none does once the TV is
/// let go.
pub proof fn law_only_the_last_volume_counts(level: i64, queued: Seq<DeviceCmd>, v: i64, k: int)
    requires
        0 <= k < queued.len(),
        queued[k] == DeviceCmd::SetVolume(v),
        forall|j: int| k < j < queued.len() ==> !((#[trigger] queued[j]) is SetVolume),
    ensures
        (forall|j: int| 0 <= j < queued.len() ==> !((#[trigger] queued[j]) is Shutdown)) ==> last_volume(
            level,
            queued,
            queued.len() as int,
        ) == Some(v),
        (exists|j: int| 0 <= j < queued.len() && (#[trigger] queued[j]) is Shutdown) ==> last_volume(
            level,
            queued,
            queued.len() as int,
        ) is None,
{
    lemma_last_volume(level, queued, v, k, queued.len() as int);
}

proof fn lemma_last_volume(level: i64, queued: Seq<DeviceCmd>, v: i64, k: int, n: int)
    requires
        0 <= k < queued.len(),
        0 <= n <= queued.len(),
        queued[k] == DeviceCmd::SetVolume(v),
        forall|j: int| k < j < queued.len() ==> !((#[trigger] queued[j]) is SetVolume),
    ensures
        (last_volume(level, queued, n) is None) == (exists|j: int| 0 <= j < n && (#[trigger] queued[j]) is Shutdown),
        k < n && last_volume(level, queued, n) is Some ==> last_volume(level, queued, n) == Some(v),
    decreases n,
{
    if n > 0 {
        lemma_last_volume(level, queued, v, k, n - 1);
        if queued[n - 1] is Shutdown {
            assert(queued[n - 1] is Shutdown);
        }
        if exists|j: int| 0 <= j < n - 1 && (#[trigger] queued[j]) is Shutdown {
            let j = choose|j: int| 0 <= j < n - 1 && (#[trigger] queued[j]) is Shutdown;
            assert(queued[j] is Shutdown);
        }
    }
}

/// A TV whose volume is known is taken to another by as many presses as lie between, up or
/// down and never both; one whose volume is not known is taken down to silence first, with
/// more presses than there are steps.
pub proof fn law_the_presses_of_a_ramp(cached: u8, target: u8)
    requires
        cached <= 100,
        target <= 100,
    ensures
        ramp_of(Some(cached), target).ups - ramp_of(Some(cached), target).downs == target - cached,
        ramp_of(Some(cached), target).ups == 0 || ramp_of(Some(cached), target).downs == 0,
        !ramp_of(Some(cached), target).from_zero,
        ramp_of(None, target).downs > 100,
        ramp_of(None, target).ups == target,
        ramp_of(None, target).from_zero,
{
}

/// Where a TV's own player runs it is told the position; elsewhere it scans, unless it is
/// within four seconds already: forward exactly if the position lies ahead, and the faster
/// the further it is, beyond two minutes and beyond ten.
pub proof fn law_how_a_roku_seeks(active: Seq<char>, start: u64, target: u64)
    ensures
        contains(active, "id=\"dev\""@) ==> seek_plan_of(active, Some(start), target) is Direct,
        !contains(active, "id=\"dev\""@) ==> ({
            let p = seek_plan_of(active, Some(start), target);
            &&& p is Nothing <==> -4_000 < target - start < 4_000
            &&& p matches SeekPlan::Scan { forward, start: from, presses } ==> forward == (target > start) && from == start
                && (presses == 3 <==> target - start > 600_000 || start - target > 600_000) && (presses == 1 <==> -120_000
                <= target - start <= 120_000) && 1 <= presses <= 3
        }),
        !contains(active, "id=\"dev\""@) ==> seek_plan_of(active, None, target) is Nothing,
{
}

/// A scan forward ends once the position and what the TV still runs on reach the target, one
/// back once they do from the other side; both end where the position stands still for more
/// than four seconds, and where it is not known any more.
pub proof fn law_when_a_scan_ends(s: Scan, pos: u64, now: int)
    requires
        s.at <= now,
        s.begun <= now,
        now - s.begun <= 90_000,
        pos != s.pos,
    ensures
        s.forward && pos >= s.target ==> scan_ends(s, Some(pos), now),
        !s.forward && pos <= s.target ==> scan_ends(s, Some(pos), now),
        scan_ends(s, None, now),
        s.moved + 4_000 < now ==> scan_ends(s, Some(s.pos), now),
        s.forward && pos + lead_of(s, pos, now) < s.target ==> !scan_ends(s, Some(pos), now),
        !s.forward && pos - lead_of(s, pos, now) > s.target ==> !scan_ends(s, Some(pos), now),
        lead_of(s, pos, now) >= 1_000,
{
    let took = if now - s.at < 1 {
        1
    } else {
        now - s.at
    };
    assert(gap(pos, s.pos) * 450 / took >= 0) by (nonlinear_arith)
        requires
            gap(pos, s.pos) >= 0,
            took >= 1,
    ;
    assert(gap(s.pos, s.pos) * 450 / took >= 0) by (nonlinear_arith)
        requires
            gap(s.pos, s.pos) >= 0,
            took >= 1,
    ;
}

/// What a TV still runs on when a scan is stopped: a second, and what it covers in not quite half
/// a second at the speed it went since the last look.
pub proof fn law_how_far_a_scan_runs_on(s: Scan, pos: u64, now: int)
    requires
        s.at < now,
    ensures
        ({
            let moved = if pos >= s.pos {
                pos - s.pos
            } else {
                s.pos - pos
            };
            let more = lead_of(s, pos, now) - 1_000;
            more * (now - s.at) <= 450 * moved && 450 * moved < (more + 1) * (now - s.at)
        }),
{
    let took = now - s.at;
    let moved = gap(pos, s.pos);
    let more = moved * 450 / took;
    vstd::arithmetic::div_mod::lemma_fundamental_div_mod(moved * 450, took);
    vstd::arithmetic::div_mod::lemma_mod_bound(moved * 450, took);
    assert(took * more == more * took) by (nonlinear_arith);
    assert((more + 1) * took == more * took + took) by (nonlinear_arith);
}

} // verus!
