//! Keeping one file playing in step on several devices.
//!
//! Each device loads the file paused; once all are ready they are started together.
//! After that their positions are looked at about once a second. A pause, resume
//! or seek made on one device is copied to the others. A device that is ahead of
//! the slowest is paused for exactly its lead. A gap too large for that is closed
//! by a seek.

use vstd::prelude::*;
use crate::config::{put_value, remove_key, value_of};
use crate::home::{device_at, find_device, Entry};
use crate::text::{str_same, texts};
use crate::types::PlayState;

verus! {

/// A smaller lead than this is left alone.
pub const SYNC_TOLERANCE_MS: i64 = 200;

/// Beyond this a pause would take too long.
pub const SEEK_GAP_MS: i64 = 4000;

/// A jump that is larger than this is a seek of the user's.
pub const JUMP_MS: i64 = 2500;

/// How long nothing is judged after commands of our own.
pub const SETTLE_MS: i64 = 2500;

/// A device that plays nothing for longer than this has left.
pub const GONE_MS: i64 = 10_000;

/// What a session is about.
#[derive(Clone, Copy, Debug, PartialEq, Eq, Structural)]
pub enum SyncStatus {
    Loading,
    Playing,
    Paused,
}

impl SyncStatus {
    pub fn text(self) -> (r: String)
        ensures
            r@ == (match self {
                SyncStatus::Loading => "Loading on every device\u{2026}"@,
                SyncStatus::Playing => "Playing in sync"@,
                SyncStatus::Paused => "Paused"@,
            }),
    {
        match self {
            SyncStatus::Loading => "Loading on every device\u{2026}".to_string(),
            SyncStatus::Playing => "Playing in sync".to_string(),
            SyncStatus::Paused => "Paused".to_string(),
        }
    }
}

/// Devices that play a file in step.
#[derive(Debug)]
pub struct SyncSession {
    pub id: u64,
    pub members: Vec<String>,
    pub paused: bool,
    /// How far the first device is ahead of the last.
    pub spread_ms: Option<u64>,
    pub status: SyncStatus,
}

/// What a member plays.
#[derive(Debug)]
pub struct Sample {
    pub id: String,
    pub media: Option<SampleMedia>,
}

#[derive(Debug)]
pub struct SampleMedia {
    pub state: PlayState,
    pub position_ms: Option<u64>,
    /// When the position was read, in milliseconds of the clock on the wall.
    pub position_at: Option<i64>,
}

/// A position that was seen, and when.
#[derive(Clone, Copy, Debug, PartialEq, Eq, Structural)]
pub struct Seen {
    pub pos: i128,
    pub at: i64,
}

/// What is remembered from one look to the next.
#[derive(Debug)]
pub struct SyncLoop {
    pub quiet_until: i128,
    pub last_seen: Vec<(String, Seen)>,
    pub gone_since: Vec<(String, i64)>,
}

/// What a member is told.
#[derive(Clone, Copy, Debug, PartialEq, Eq, Structural)]
pub enum SyncCmd {
    Play,
    Pause,
    Seek(u64),
    /// Pause now and play again after so many milliseconds.
    Nudge(u64),
}

#[derive(Debug)]
pub struct SyncAction {
    pub id: String,
    pub cmd: SyncCmd,
}

pub open spec fn action_models(v: Seq<SyncAction>) -> Seq<(Seq<char>, SyncCmd)> {
    v.map_values(|a: SyncAction| (a.id@, a.cmd))
}

/// Whether a sample says what a member plays: its state, its position, and when that
/// was read.
pub open spec fn is_sample(s: Sample, devices: Seq<Entry>, id: Seq<char>) -> bool {
    &&& s.id@ == id
    &&& match device_at(devices, id) {
        None => s.media is None,
        Some(i) => match (devices[i].info.media, s.media) {
            (Some(m), Some(x)) => x.state == m.state && x.position_ms == m.position_ms && x.position_at == m.position_at,
            (None, None) => true,
            _ => false,
        },
    }
}

/// What the members play.
pub fn samples_of(devices: &Vec<Entry>, members: &Vec<String>) -> (out: Vec<Sample>)
    ensures
        out@.len() == members@.len(),
        forall|i: int| 0 <= i < members@.len() ==> is_sample(#[trigger] out@[i], devices@, members@[i]@),
{
    let mut out: Vec<Sample> = Vec::new();
    let mut i: usize = 0;
    while i < members.len()
        invariant
            i <= members@.len(),
            out@.len() == i,
            forall|k: int| 0 <= k < i ==> is_sample(#[trigger] out@[k], devices@, members@[k]@),
        decreases members@.len() - i,
    {
        let mut media: Option<SampleMedia> = None;
        match find_device(devices, members[i].as_str()) {
            Some(d) => match &devices[d].info.media {
                Some(m) => {
                    media = Some(
                        SampleMedia {
                            state: m.state.copy(),
                            position_ms: m.position_ms,
                            position_at: m.position_at,
                        },
                    );
                },
                None => {},
            },
            None => {},
        }
        out.push(Sample { id: members[i].clone(), media });
        i = i + 1;
    }
    out
}

// ---------------------------------------------------------------------------
// Loading
// ---------------------------------------------------------------------------

/// Whether a device has the file loaded. Some players say that they are buffering
/// while they wait; that counts after six seconds.
pub open spec fn is_ready(s: Sample, waited: int) -> bool {
    match s.media {
        Some(m) => m.state is Paused || (waited > 6000 && m.state is Buffering),
        None => false,
    }
}

/// Whether playing is started: when every device is ready, or after twenty seconds.
pub fn should_start(samples: &Vec<Sample>, waited: i64) -> (r: bool)
    ensures
        r == (waited > 20_000 || forall|i: int| 0 <= i < samples@.len() ==> is_ready(#[trigger] samples@[i], waited as int)),
{
    if waited > 20_000 {
        return true;
    }
    let mut i: usize = 0;
    while i < samples.len()
        invariant
            i <= samples@.len(),
            waited <= 20_000,
            forall|j: int| 0 <= j < i ==> is_ready(#[trigger] samples@[j], waited as int),
        decreases samples@.len() - i,
    {
        let ok: bool = match &samples[i].media {
            Some(m) => match m.state {
                PlayState::Paused => true,
                PlayState::Buffering => waited > 6000,
                _ => false,
            },
            None => false,
        };
        if !ok {
            proof {
                assert(!is_ready(samples@[i as int], waited as int));
            }
            return false;
        }
        i = i + 1;
    }
    true
}

// ---------------------------------------------------------------------------
// Positions
// ---------------------------------------------------------------------------

/// The position of a member now: while it plays, the one it reported and the time
/// since then.
pub open spec fn estimate_of(m: SampleMedia, wall: int) -> Option<int> {
    match m.position_ms {
        Some(p) => if m.state is Playing {
            let since = match m.position_at {
                Some(t) => wall - t,
                None => 0,
            };
            Some(
                p + if since > 0 {
                    since
                } else {
                    0
                },
            )
        } else {
            Some(p as int)
        },
        None => None,
    }
}

pub fn estimate(m: &SampleMedia, wall: i64) -> (r: Option<i128>)
    ensures
        match r {
            Some(x) => estimate_of(*m, wall as int) == Some(x as int) && 0 <= x <= 0x2_0000_0000_0000_0000,
            None => estimate_of(*m, wall as int) is None,
        },
{
    match m.position_ms {
        None => None,
        Some(p) => match m.state {
            PlayState::Playing => {
                let since: i128 = match m.position_at {
                    Some(t) => wall as i128 - t as i128,
                    None => 0,
                };
                Some(
                    p as i128 + if since > 0 {
                        since
                    } else {
                        0
                    },
                )
            },
            _ => Some(p as i128),
        },
    }
}

/// The positions of the first `n` members, of those that have one.
pub open spec fn estimates(samples: Seq<Sample>, n: int, wall: int) -> Seq<(Seq<char>, int)>
    decreases n,
{
    if n <= 0 {
        Seq::empty()
    } else {
        let before = estimates(samples, n - 1, wall);
        match samples[n - 1].media {
            Some(m) => match estimate_of(m, wall) {
                Some(e) => before.push((samples[n - 1].id@, e)),
                None => before,
            },
            None => before,
        }
    }
}

/// A position of a member, by name.
#[derive(Debug)]
pub struct Estimate {
    pub id: String,
    pub pos: i128,
}

pub open spec fn estimate_models(v: Seq<Estimate>) -> Seq<(Seq<char>, int)> {
    v.map_values(|e: Estimate| (e.id@, e.pos as int))
}

pub open spec fn estimates_fit(v: Seq<Estimate>) -> bool {
    forall|i: int| 0 <= i < v.len() ==> 0 <= (#[trigger] v[i]).pos <= 0x2_0000_0000_0000_0000
}

fn all_estimates(samples: &Vec<Sample>, wall: i64) -> (r: Vec<Estimate>)
    ensures
        estimate_models(r@) == estimates(samples@, samples@.len() as int, wall as int),
        estimates_fit(r@),
{
    let mut out: Vec<Estimate> = Vec::new();
    let mut i: usize = 0;
    proof {
        assert(estimate_models(out@) =~= Seq::<(Seq<char>, int)>::empty());
    }
    while i < samples.len()
        invariant
            i <= samples@.len(),
            estimate_models(out@) == estimates(samples@, i as int, wall as int),
            estimates_fit(out@),
        decreases samples@.len() - i,
    {
        match &samples[i].media {
            Some(m) => match estimate(m, wall) {
                Some(e) => {
                    let ghost before = estimate_models(out@);
                    out.push(Estimate { id: samples[i].id.clone(), pos: e });
                    proof {
                        assert(estimate_models(out@) =~= before.push((samples@[i as int].id@, e as int)));
                    }
                },
                None => {},
            },
            None => {},
        }
        i = i + 1;
    }
    out
}

pub open spec fn lowest(es: Seq<(Seq<char>, int)>, n: int) -> int
    decreases n,
{
    if n <= 1 {
        es[0].1
    } else if es[n - 1].1 < lowest(es, n - 1) {
        es[n - 1].1
    } else {
        lowest(es, n - 1)
    }
}

pub open spec fn highest(es: Seq<(Seq<char>, int)>, n: int) -> int
    decreases n,
{
    if n <= 1 {
        es[0].1
    } else if es[n - 1].1 > highest(es, n - 1) {
        es[n - 1].1
    } else {
        highest(es, n - 1)
    }
}

/// How far the first member is ahead of the last.
pub open spec fn spread_of(es: Seq<(Seq<char>, int)>) -> int {
    highest(es, es.len() as int) - lowest(es, es.len() as int)
}

proof fn lemma_extremes(es: Seq<(Seq<char>, int)>, n: int, i: int)
    requires
        0 <= i < n <= es.len(),
    ensures
        lowest(es, n) <= es[i].1 <= highest(es, n),
    decreases n,
{
    if n > 1 {
        if i < n - 1 {
            lemma_extremes(es, n - 1, i);
        } else {
            lemma_extremes(es, n - 1, 0);
        }
    }
}

fn extremes(es: &Vec<Estimate>) -> (r: (i128, i128))
    requires
        es@.len() > 0,
        estimates_fit(es@),
    ensures
        r.0 == lowest(estimate_models(es@), es@.len() as int),
        r.1 == highest(estimate_models(es@), es@.len() as int),
        0 <= r.0 <= r.1 <= 0x2_0000_0000_0000_0000,
{
    let ghost m = estimate_models(es@);
    proof {
        assert(m[0].1 == es@[0].pos);
    }
    let mut lo: i128 = es[0].pos;
    let mut hi: i128 = es[0].pos;
    let mut i: usize = 1;
    while i < es.len()
        invariant
            1 <= i <= es@.len(),
            m == estimate_models(es@),
            estimates_fit(es@),
            lo == lowest(m, i as int),
            hi == highest(m, i as int),
            0 <= lo <= hi <= 0x2_0000_0000_0000_0000,
        decreases es@.len() - i,
    {
        proof {
            assert(m[i as int].1 == es@[i as int].pos);
        }
        let p: i128 = es[i].pos;
        if p < lo {
            lo = p;
        }
        if p > hi {
            hi = p;
        }
        i = i + 1;
    }
    (lo, hi)
}

pub open spec fn ints(v: Seq<i128>) -> Seq<int> {
    v.map_values(|x: i128| x as int)
}

fn apart(a: i128, b: i128) -> (r: i128)
    requires
        -0x2_0000_0000_0000_0000 <= a <= 0x2_0000_0000_0000_0000,
        -0x2_0000_0000_0000_0000 <= b <= 2 * 0x2_0000_0000_0000_0000,
    ensures
        r == crate::levels::distance(a as int, b as int),
{
    if a >= b {
        a - b
    } else {
        b - a
    }
}

/// Numbers in order with one more.
pub open spec fn with_number(list: Seq<int>, x: int) -> Seq<int>
    decreases list.len(),
{
    if list.len() > 0 && x < list.last() {
        with_number(list.drop_last(), x).push(list.last())
    } else {
        list.push(x)
    }
}

pub open spec fn in_order(es: Seq<(Seq<char>, int)>, n: int) -> Seq<int>
    decreases n,
{
    if n <= 0 {
        Seq::empty()
    } else {
        with_number(in_order(es, n - 1), es[n - 1].1)
    }
}

/// The position in the middle.
pub open spec fn median(es: Seq<(Seq<char>, int)>) -> int {
    in_order(es, es.len() as int)[es.len() as int / 2]
}

fn middle(es: &Vec<Estimate>) -> (r: i128)
    requires
        es@.len() > 0,
        estimates_fit(es@),
    ensures
        r == median(estimate_models(es@)),
        0 <= r <= 0x2_0000_0000_0000_0000,
{
    let ghost m = estimate_models(es@);
    let mut sorted: Vec<i128> = Vec::new();
    let mut n: usize = 0;
    proof {
        assert(ints(sorted@) =~= Seq::<int>::empty());
    }
    while n < es.len()
        invariant
            n <= es@.len(),
            m == estimate_models(es@),
            estimates_fit(es@),
            sorted@.len() == n,
            ints(sorted@) == in_order(m, n as int),
            forall|i: int| 0 <= i < sorted@.len() ==> 0 <= #[trigger] sorted@[i] <= 0x2_0000_0000_0000_0000,
        decreases es@.len() - n,
    {
        let x: i128 = es[n].pos;
        let ghost s = ints(sorted@);
        let mut pos: usize = sorted.len();
        proof {
            assert(m[n as int].1 == x);
            assert(s.take(s.len() as int) =~= s);
            assert(with_number(s, x as int) =~= with_number(s.take(pos as int), x as int) + s.skip(pos as int));
        }
        while pos > 0 && x < sorted[pos - 1]
            invariant
                pos <= sorted@.len(),
                s == ints(sorted@),
                with_number(s, x as int) == with_number(s.take(pos as int), x as int) + s.skip(pos as int),
            decreases pos,
        {
            proof {
                let a = s.take(pos as int);
                assert(a.last() == s[pos - 1]);
                assert(s[pos - 1] == sorted@[pos - 1] as int);
                assert(a.drop_last() =~= s.take(pos - 1));
                assert(with_number(s.take(pos - 1), x as int).push(s[pos - 1]) + s.skip(pos as int) =~= with_number(
                    s.take(pos - 1),
                    x as int,
                ) + s.skip(pos - 1));
            }
            pos = pos - 1;
        }
        let ghost a = s.take(pos as int);
        proof {
            if pos > 0 {
                assert(a.last() == s[pos - 1]);
                assert(s[pos - 1] == sorted@[pos - 1] as int);
            }
            assert(with_number(a, x as int) == a.push(x as int));
        }
        let ghost o0 = sorted@;
        sorted.insert(pos, x);
        proof {
            assert(ints(sorted@) =~= a.push(x as int) + s.skip(pos as int));
            assert forall|i: int| 0 <= i < sorted@.len() implies 0 <= #[trigger] sorted@[i]
                <= 0x2_0000_0000_0000_0000 by {
                if i < pos {
                    assert(sorted@[i] == o0[i]);
                } else if i > pos {
                    assert(sorted@[i] == o0[i - 1]);
                }
            }
        }
        n = n + 1;
    }
    proof {
        assert(ints(sorted@)[es@.len() as int / 2] == sorted@[es@.len() as int / 2] as int);
    }
    sorted[es.len() / 2]
}

/// How far a position is from where it would be had it only gone on.
pub open spec fn jump_of(last: Seq<(String, Seen)>, id: Seq<char>, pos: int, now: int) -> Option<int> {
    match value_of(last, id) {
        Some(s) => {
            let off = crate::levels::distance(pos, s.pos + (now - s.at));
            if off > JUMP_MS {
                Some(off)
            } else {
                None
            }
        },
        None => None,
    }
}

/// Among the first `n` members, the one that jumped furthest; the last of equal
/// ones.
pub open spec fn furthest_jump(es: Seq<(Seq<char>, int)>, last: Seq<(String, Seen)>, n: int, now: int) -> Option<int>
    decreases n,
{
    if n <= 0 {
        None
    } else {
        let best = furthest_jump(es, last, n - 1, now);
        match jump_of(last, es[n - 1].0, es[n - 1].1, now) {
            Some(off) => match best {
                Some(b) => if jump_of(last, es[b].0, es[b].1, now)->0 <= off {
                    Some(n - 1)
                } else {
                    best
                },
                None => Some(n - 1),
            },
            None => best,
        }
    }
}

/// Where the members meet when they are far apart: where the one went that jumped,
/// else at the position in the middle.
pub open spec fn meeting_point(es: Seq<(Seq<char>, int)>, last: Seq<(String, Seen)>, now: int) -> int {
    match furthest_jump(es, last, es.len() as int, now) {
        Some(i) => es[i].1,
        None => median(es),
    }
}

pub open spec fn seen_fits(last: Seq<(String, Seen)>) -> bool {
    forall|id: Seq<char>|
        (#[trigger] value_of(last, id)) matches Some(s) ==> 0 <= s.pos <= 0x2_0000_0000_0000_0000
}

fn find_meeting_point(es: &Vec<Estimate>, last: &Vec<(String, Seen)>, now: i64) -> (r: i128)
    requires
        es@.len() > 0,
        estimates_fit(es@),
        seen_fits(last@),
    ensures
        r == meeting_point(estimate_models(es@), last@, now as int),
        0 <= r <= 0x2_0000_0000_0000_0000,
{
    let ghost m = estimate_models(es@);
    let mut best: Option<usize> = None;
    let mut best_off: i128 = 0;
    let mut i: usize = 0;
    while i < es.len()
        invariant
            i <= es@.len(),
            m == estimate_models(es@),
            estimates_fit(es@),
            seen_fits(last@),
            match best {
                Some(b) => furthest_jump(m, last@, i as int, now as int) == Some(b as int) && b < i && jump_of(
                    last@,
                    m[b as int].0,
                    m[b as int].1,
                    now as int,
                ) == Some(best_off as int),
                None => furthest_jump(m, last@, i as int, now as int) is None,
            },
        decreases es@.len() - i,
    {
        proof {
            assert(m[i as int] == (es@[i as int].id@, es@[i as int].pos as int));
        }
        match crate::config::find_key(last, es[i].id.as_str()) {
            Some(k) => {
                let s = last[k].1;
                proof {
                    assert(value_of(last@, es@[i as int].id@) == Some(s));
                }
                let off: i128 = apart(es[i].pos, s.pos + (now as i128 - s.at as i128));
                if off > JUMP_MS as i128 {
                    let better: bool = match best {
                        Some(_) => best_off <= off,
                        None => true,
                    };
                    if better {
                        best = Some(i);
                        best_off = off;
                    }
                }
            },
            None => {},
        }
        i = i + 1;
    }
    match best {
        Some(b) => {
            proof {
                assert(m[b as int].1 == es@[b as int].pos);
            }
            es[b].pos
        },
        None => middle(es),
    }
}

// ---------------------------------------------------------------------------
// What the members are told
// ---------------------------------------------------------------------------

/// A command for those of the first `n` members that are not one of them.
pub open spec fn others_told(members: Seq<String>, n: int, who: Seq<char>, cmd: SyncCmd) -> Seq<(Seq<char>, SyncCmd)>
    decreases n,
{
    if n <= 0 {
        Seq::empty()
    } else if members[n - 1]@ == who {
        others_told(members, n - 1, who, cmd)
    } else {
        others_told(members, n - 1, who, cmd).push((members[n - 1]@, cmd))
    }
}

/// A number of milliseconds, as far as 64 bits reach.
pub open spec fn held(n: int) -> u64 {
    if n > u64::MAX {
        u64::MAX
    } else {
        n as u64
    }
}

fn hold(n: i128) -> (r: u64)
    requires
        0 <= n,
    ensures
        r == held(n as int),
{
    if n > u64::MAX as i128 {
        u64::MAX
    } else {
        n as u64
    }
}

/// Where a seek is aimed: a little ahead, for the time it takes.
pub open spec fn seek_aim(target: int) -> u64 {
    held(target + 400)
}

/// A seek for those of the first `n` members that are not near the meeting point.
pub open spec fn seeks(es: Seq<(Seq<char>, int)>, n: int, target: int) -> Seq<(Seq<char>, SyncCmd)>
    decreases n,
{
    if n <= 0 {
        Seq::empty()
    } else {
        let before = seeks(es, n - 1, target);
        if crate::levels::distance(es[n - 1].1, target) > SYNC_TOLERANCE_MS {
            before.push((es[n - 1].0, SyncCmd::Seek(seek_aim(target))))
        } else {
            before
        }
    }
}

/// A pause as long as its lead for those of the first `n` members that are ahead.
pub open spec fn nudges(es: Seq<(Seq<char>, int)>, n: int, low: int) -> Seq<(Seq<char>, SyncCmd)>
    decreases n,
{
    if n <= 0 {
        Seq::empty()
    } else {
        let before = nudges(es, n - 1, low);
        if es[n - 1].1 - low > SYNC_TOLERANCE_MS {
            before.push((es[n - 1].0, SyncCmd::Nudge(held(es[n - 1].1 - low))))
        } else {
            before
        }
    }
}

/// The longest of those leads.
pub open spec fn longest_lead(es: Seq<(Seq<char>, int)>, n: int, low: int) -> int
    decreases n,
{
    if n <= 0 {
        0
    } else {
        let before = longest_lead(es, n - 1, low);
        let lead = es[n - 1].1 - low;
        if lead > SYNC_TOLERANCE_MS && lead > before {
            lead
        } else {
            before
        }
    }
}

fn push_action(out: &mut Vec<SyncAction>, id: &str, cmd: SyncCmd)
    ensures
        action_models(final(out)@) == action_models(old(out)@).push((id@, cmd)),
{
    out.push(SyncAction { id: id.to_string(), cmd });
    proof {
        assert(action_models(out@) =~= action_models(old(out)@).push((id@, cmd)));
    }
}

fn tell_others(members: &Vec<String>, who: &str, cmd: SyncCmd) -> (out: Vec<SyncAction>)
    ensures
        action_models(out@) == others_told(members@, members@.len() as int, who@, cmd),
{
    let mut out: Vec<SyncAction> = Vec::new();
    let mut i: usize = 0;
    proof {
        assert(action_models(out@) =~= Seq::<(Seq<char>, SyncCmd)>::empty());
    }
    while i < members.len()
        invariant
            i <= members@.len(),
            action_models(out@) == others_told(members@, i as int, who@, cmd),
        decreases members@.len() - i,
    {
        if !str_same(members[i].as_str(), who) {
            push_action(&mut out, members[i].as_str(), cmd);
        }
        i = i + 1;
    }
    out
}

fn tell_seeks(es: &Vec<Estimate>, target: i128) -> (out: Vec<SyncAction>)
    requires
        estimates_fit(es@),
        0 <= target <= 0x2_0000_0000_0000_0000,
    ensures
        action_models(out@) == seeks(estimate_models(es@), es@.len() as int, target as int),
{
    let ghost m = estimate_models(es@);
    let mut out: Vec<SyncAction> = Vec::new();
    let mut i: usize = 0;
    proof {
        assert(action_models(out@) =~= Seq::<(Seq<char>, SyncCmd)>::empty());
    }
    while i < es.len()
        invariant
            i <= es@.len(),
            m == estimate_models(es@),
            estimates_fit(es@),
            0 <= target <= 0x2_0000_0000_0000_0000,
            action_models(out@) == seeks(m, i as int, target as int),
        decreases es@.len() - i,
    {
        proof {
            assert(m[i as int] == (es@[i as int].id@, es@[i as int].pos as int));
        }
        if apart(es[i].pos, target) > SYNC_TOLERANCE_MS as i128 {
            push_action(&mut out, es[i].id.as_str(), SyncCmd::Seek(hold(target + 400)));
        }
        i = i + 1;
    }
    out
}

fn tell_nudges(es: &Vec<Estimate>, low: i128) -> (r: (Vec<SyncAction>, i128))
    requires
        estimates_fit(es@),
        0 <= low <= 0x2_0000_0000_0000_0000,
    ensures
        action_models(r.0@) == nudges(estimate_models(es@), es@.len() as int, low as int),
        r.1 == longest_lead(estimate_models(es@), es@.len() as int, low as int),
        0 <= r.1 <= 0x2_0000_0000_0000_0000,
{
    let ghost m = estimate_models(es@);
    let mut out: Vec<SyncAction> = Vec::new();
    let mut longest: i128 = 0;
    let mut i: usize = 0;
    proof {
        assert(action_models(out@) =~= Seq::<(Seq<char>, SyncCmd)>::empty());
    }
    while i < es.len()
        invariant
            i <= es@.len(),
            m == estimate_models(es@),
            estimates_fit(es@),
            0 <= low <= 0x2_0000_0000_0000_0000,
            0 <= longest <= 0x2_0000_0000_0000_0000,
            action_models(out@) == nudges(m, i as int, low as int),
            longest == longest_lead(m, i as int, low as int),
        decreases es@.len() - i,
    {
        proof {
            assert(m[i as int] == (es@[i as int].id@, es@[i as int].pos as int));
        }
        let lead: i128 = es[i].pos - low;
        if lead > SYNC_TOLERANCE_MS as i128 {
            if lead > longest {
                longest = lead;
            }
            push_action(&mut out, es[i].id.as_str(), SyncCmd::Nudge(hold(lead)));
        }
        i = i + 1;
    }
    (out, longest)
}

/// The first member in a state.
pub open spec fn first_paused(samples: Seq<Sample>, i: int) -> Option<int>
    decreases samples.len() - i,
{
    if i >= samples.len() {
        None
    } else if samples[i].media is Some && samples[i].media->0.state is Paused {
        Some(i)
    } else {
        first_paused(samples, i + 1)
    }
}

pub open spec fn first_playing(samples: Seq<Sample>, i: int) -> Option<int>
    decreases samples.len() - i,
{
    if i >= samples.len() {
        None
    } else if samples[i].media is Some && samples[i].media->0.state is Playing {
        Some(i)
    } else {
        first_playing(samples, i + 1)
    }
}

fn find_paused(samples: &Vec<Sample>) -> (r: Option<usize>)
    ensures
        match r {
            Some(i) => first_paused(samples@, 0) == Some(i as int) && i < samples@.len(),
            None => first_paused(samples@, 0) is None,
        },
{
    let mut i: usize = 0;
    while i < samples.len()
        invariant
            i <= samples@.len(),
            first_paused(samples@, 0) == first_paused(samples@, i as int),
        decreases samples@.len() - i,
    {
        let hit: bool = match &samples[i].media {
            Some(m) => match m.state {
                PlayState::Paused => true,
                _ => false,
            },
            None => false,
        };
        if hit {
            return Some(i);
        }
        i = i + 1;
    }
    None
}

fn find_playing(samples: &Vec<Sample>) -> (r: Option<usize>)
    ensures
        match r {
            Some(i) => first_playing(samples@, 0) == Some(i as int) && i < samples@.len(),
            None => first_playing(samples@, 0) is None,
        },
{
    let mut i: usize = 0;
    while i < samples.len()
        invariant
            i <= samples@.len(),
            first_playing(samples@, 0) == first_playing(samples@, i as int),
        decreases samples@.len() - i,
    {
        let hit: bool = match &samples[i].media {
            Some(m) => match m.state {
                PlayState::Playing => true,
                _ => false,
            },
            None => false,
        };
        if hit {
            return Some(i);
        }
        i = i + 1;
    }
    None
}

// ---------------------------------------------------------------------------
// Members that leave
// ---------------------------------------------------------------------------

/// Whether a member plays, is paused or loads.
pub open spec fn is_active(s: Sample) -> bool {
    s.media is Some && !(s.media->0.state is Idle)
}

/// Since when a member plays nothing, after the first `n` members were looked at.
pub open spec fn gone_after(
    gone: Seq<(String, i64)>,
    samples: Seq<Sample>,
    n: int,
    id: Seq<char>,
    now: i64,
) -> Option<i64>
    decreases n,
{
    if n <= 0 {
        value_of(gone, id)
    } else {
        let before = gone_after(gone, samples, n - 1, id, now);
        if samples[n - 1].id@ != id {
            before
        } else if is_active(samples[n - 1]) {
            None
        } else if before is Some {
            before
        } else {
            Some(now)
        }
    }
}

fn note_gone(gone: &mut Vec<(String, i64)>, samples: &Vec<Sample>, now: i64)
    ensures
        forall|id: Seq<char>|
            #[trigger] value_of(final(gone)@, id) == gone_after(
                old(gone)@,
                samples@,
                samples@.len() as int,
                id,
                now,
            ),
{
    let mut i: usize = 0;
    while i < samples.len()
        invariant
            i <= samples@.len(),
            forall|id: Seq<char>|
                #[trigger] value_of(gone@, id) == gone_after(old(gone)@, samples@, i as int, id, now),
        decreases samples@.len() - i,
    {
        let active: bool = match &samples[i].media {
            Some(m) => match m.state {
                PlayState::Idle => false,
                _ => true,
            },
            None => false,
        };
        let id = samples[i].id.as_str();
        if active {
            remove_key(gone, id);
        } else {
            match crate::config::find_key(gone, id) {
                Some(_) => {},
                None => {
                    put_value(gone, id, now);
                },
            }
        }
        i = i + 1;
    }
}

/// Whether a device has by now played nothing for so long that it has left.
pub open spec fn has_left(gone: Seq<(String, i64)>, samples: Seq<Sample>, id: Seq<char>, now: i64) -> bool {
    match gone_after(gone, samples, samples.len() as int, id, now) {
        Some(t) => now - t > GONE_MS,
        None => false,
    }
}

/// Whether any device has.
pub open spec fn some_left(gone: Seq<(String, i64)>, samples: Seq<Sample>, now: i64) -> bool {
    exists|id: Seq<char>| #[trigger] has_left(gone, samples, id, now)
}

/// Since when a device plays nothing, after those that have left were forgotten.
pub open spec fn gone_next(gone: Seq<(String, i64)>, samples: Seq<Sample>, id: Seq<char>, now: i64) -> Option<i64> {
    if has_left(gone, samples, id, now) {
        None
    } else {
        gone_after(gone, samples, samples.len() as int, id, now)
    }
}

/// The first `n` members without those that have left.
pub open spec fn staying(
    members: Seq<String>,
    n: int,
    gone: Seq<(String, i64)>,
    samples: Seq<Sample>,
    now: i64,
) -> Seq<Seq<char>>
    decreases n,
{
    if n <= 0 {
        Seq::empty()
    } else if has_left(gone, samples, members[n - 1]@, now) {
        staying(members, n - 1, gone, samples, now)
    } else {
        staying(members, n - 1, gone, samples, now).push(members[n - 1]@)
    }
}

/// Whether a time at which nothing played is too long ago.
pub open spec fn is_old(t: Option<i64>, now: i64) -> bool {
    match t {
        Some(x) => now - x > GONE_MS,
        None => false,
    }
}

fn left(gone: &Vec<(String, i64)>, id: &str, now: i64) -> (r: bool)
    ensures
        r == is_old(value_of(gone@, id@), now),
{
    match crate::config::find_key(gone, id) {
        Some(k) => now as i128 - gone[k].1 as i128 > GONE_MS as i128,
        None => false,
    }
}

fn first_left(gone: &Vec<(String, i64)>, now: i64) -> (r: Option<usize>)
    ensures
        match r {
            Some(i) => i < gone@.len() && is_old(value_of(gone@, gone@[i as int].0@), now),
            None => forall|id: Seq<char>| !is_old(#[trigger] value_of(gone@, id), now),
        },
{
    let mut i: usize = 0;
    while i < gone.len()
        invariant
            i <= gone@.len(),
            forall|j: int| 0 <= j < i ==> !is_old(value_of(gone@, (#[trigger] gone@[j]).0@), now),
        decreases gone@.len() - i,
    {
        if left(gone, gone[i].0.as_str(), now) {
            return Some(i);
        }
        i = i + 1;
    }
    proof {
        assert forall|id: Seq<char>| !is_old(#[trigger] value_of(gone@, id), now) by {
            crate::config::lemma_key_from(gone@, id, 0);
            match crate::config::key_from(gone@, id, 0) {
                Some(k) => {
                    assert(!is_old(value_of(gone@, gone@[k].0@), now));
                },
                None => {},
            }
        }
    }
    None
}

fn forget_left(gone: &mut Vec<(String, i64)>, now: i64)
    ensures
        forall|id: Seq<char>|
            #[trigger] value_of(final(gone)@, id) == (if is_old(value_of(old(gone)@, id), now) {
                None
            } else {
                value_of(old(gone)@, id)
            }),
{
    loop
        invariant
            forall|id: Seq<char>|
                #[trigger] value_of(gone@, id) == value_of(old(gone)@, id) || (value_of(gone@, id) is None && is_old(
                    value_of(old(gone)@, id),
                    now,
                )),
        ensures
            forall|id: Seq<char>| !is_old(#[trigger] value_of(gone@, id), now),
        decreases gone@.len(),
    {
        match first_left(gone, now) {
            Some(i) => {
                let id = gone[i].0.clone();
                let ghost before = gone@;
                remove_key(gone, id.as_str());
                proof {
                    crate::config::lemma_key_from(gone@, id@, 0);
                    assert(value_of(before, id@) is Some);
                }
            },
            None => {
                break;
            },
        }
    }
}

fn keep_staying(
    members: &Vec<String>,
    gone: &Vec<(String, i64)>,
    now: i64,
    Ghost(before): Ghost<Seq<(String, i64)>>,
    Ghost(samples): Ghost<Seq<Sample>>,
) -> (r: Vec<String>)
    requires
        forall|id: Seq<char>|
            #[trigger] value_of(gone@, id) == gone_after(before, samples, samples.len() as int, id, now),
    ensures
        texts(r@) == staying(members@, members@.len() as int, before, samples, now),
{
    let mut out: Vec<String> = Vec::new();
    let mut i: usize = 0;
    proof {
        assert(texts(out@) =~= Seq::<Seq<char>>::empty());
    }
    while i < members.len()
        invariant
            i <= members@.len(),
            forall|id: Seq<char>|
                #[trigger] value_of(gone@, id) == gone_after(before, samples, samples.len() as int, id, now),
            texts(out@) == staying(members@, i as int, before, samples, now),
        decreases members@.len() - i,
    {
        if !left(gone, members[i].as_str(), now) {
            let ghost b = texts(out@);
            out.push(members[i].clone());
            proof {
                assert(texts(out@) =~= b.push(members@[i as int]@));
            }
        }
        i = i + 1;
    }
    out
}

// ---------------------------------------------------------------------------
// One look
// ---------------------------------------------------------------------------

/// What a look at the members leads to.
pub enum Verdict {
    /// Some have left, and fewer than two stay.
    End,
    /// Some have left.
    Leave,
    /// One was paused: pause the others.
    PauseAll(Seq<char>),
    /// One was resumed: resume the others.
    ResumeAll(Seq<char>),
    /// Nothing to compare.
    Wait,
    /// Too soon after commands of our own.
    Settle,
    /// Far apart: meet at a position.
    Meet(int),
    /// A little apart: hold back those that are ahead.
    HoldBack,
    InStep,
}

/// What a look leads to. `gone` says since when members played nothing before it.
pub open spec fn verdict(
    s: SyncSession,
    quiet: int,
    last: Seq<(String, Seen)>,
    gone: Seq<(String, i64)>,
    samples: Seq<Sample>,
    now: i64,
    wall: int,
) -> Verdict {
    let es = estimates(samples, samples.len() as int, wall);
    if some_left(gone, samples, now) {
        if staying(s.members@, s.members@.len() as int, gone, samples, now).len() < 2 {
            Verdict::End
        } else {
            Verdict::Leave
        }
    } else if now >= quiet && !s.paused && first_paused(samples, 0) is Some {
        Verdict::PauseAll(samples[first_paused(samples, 0)->0].id@)
    } else if now >= quiet && s.paused && first_playing(samples, 0) is Some {
        Verdict::ResumeAll(samples[first_playing(samples, 0)->0].id@)
    } else if s.paused || es.len() < 2 {
        Verdict::Wait
    } else if now < quiet {
        Verdict::Settle
    } else if spread_of(es) > SEEK_GAP_MS {
        Verdict::Meet(meeting_point(es, last, now as int))
    } else if spread_of(es) > SYNC_TOLERANCE_MS {
        Verdict::HoldBack
    } else {
        Verdict::InStep
    }
}

/// What the members are told.
pub open spec fn told(v: Verdict, s: SyncSession, es: Seq<(Seq<char>, int)>) -> Seq<(Seq<char>, SyncCmd)> {
    match v {
        Verdict::PauseAll(who) => others_told(s.members@, s.members@.len() as int, who, SyncCmd::Pause),
        Verdict::ResumeAll(who) => others_told(s.members@, s.members@.len() as int, who, SyncCmd::Play),
        Verdict::Meet(target) => seeks(es, es.len() as int, target),
        Verdict::HoldBack => nudges(es, es.len() as int, lowest(es, es.len() as int)),
        _ => Seq::empty(),
    }
}

/// The session after a look.
pub open spec fn session_after(
    v: Verdict,
    s0: SyncSession,
    s1: SyncSession,
    es: Seq<(Seq<char>, int)>,
    gone: Seq<(String, i64)>,
    samples: Seq<Sample>,
    now: i64,
) -> bool {
    &&& s1.id == s0.id
    &&& match v {
        Verdict::End | Verdict::Leave => texts(s1.members@) == staying(
            s0.members@,
            s0.members@.len() as int,
            gone,
            samples,
            now,
        ) && s1.paused == s0.paused && s1.status == s0.status && s1.spread_ms == s0.spread_ms,
        Verdict::PauseAll(_) => s1.members == s0.members && s1.paused && s1.status == SyncStatus::Paused
            && s1.spread_ms == s0.spread_ms,
        Verdict::ResumeAll(_) => s1.members == s0.members && !s1.paused && s1.status == SyncStatus::Playing
            && s1.spread_ms == s0.spread_ms,
        Verdict::Wait => s1 == s0,
        _ => s1.members == s0.members && s1.paused == s0.paused && s1.status == s0.status && s1.spread_ms == Some(
            held(spread_of(es)),
        ),
    }
}

/// Until when nothing is judged after a look.
pub open spec fn quiet_after(v: Verdict, quiet: int, es: Seq<(Seq<char>, int)>, now: int) -> int {
    match v {
        Verdict::PauseAll(_) => now + SETTLE_MS,
        Verdict::ResumeAll(_) => now + SETTLE_MS,
        Verdict::Meet(_) => now + SETTLE_MS + 1000,
        Verdict::HoldBack => now + longest_lead(es, es.len() as int, lowest(es, es.len() as int)) + SETTLE_MS,
        _ => quiet,
    }
}

/// The last of the first `n` positions of a member.
pub open spec fn last_position(es: Seq<(Seq<char>, int)>, n: int, id: Seq<char>) -> Option<int>
    decreases n,
{
    if n <= 0 {
        None
    } else if es[n - 1].0 == id {
        Some(es[n - 1].1)
    } else {
        last_position(es, n - 1, id)
    }
}

/// The positions that are remembered after a look: those just seen in calm times,
/// none after a command that moves them.
pub open spec fn seen_after(
    v: Verdict,
    last: Seq<(String, Seen)>,
    es: Seq<(Seq<char>, int)>,
    now: i64,
    id: Seq<char>,
) -> Option<Seen> {
    match v {
        Verdict::Settle | Verdict::InStep => match last_position(es, es.len() as int, id) {
            Some(p) => Some(Seen { pos: p as i128, at: now }),
            None => value_of(last, id),
        },
        Verdict::ResumeAll(_) | Verdict::Meet(_) | Verdict::HoldBack => None,
        _ => value_of(last, id),
    }
}

proof fn lemma_last_position(es: Seq<Estimate>, n: int, id: Seq<char>)
    requires
        estimates_fit(es),
        n <= es.len(),
    ensures
        last_position(estimate_models(es), n, id) matches Some(p) ==> 0 <= p <= 0x2_0000_0000_0000_0000,
    decreases n,
{
    if n > 0 {
        assert(estimate_models(es)[n - 1] == (es[n - 1].id@, es[n - 1].pos as int));
        lemma_last_position(es, n - 1, id);
    }
}

fn remember(last: &mut Vec<(String, Seen)>, es: &Vec<Estimate>, now: i64)
    requires
        estimates_fit(es@),
        seen_fits(old(last)@),
    ensures
        seen_fits(final(last)@),
        forall|id: Seq<char>|
            #[trigger] value_of(final(last)@, id) == (match last_position(
                estimate_models(es@),
                es@.len() as int,
                id,
            ) {
                Some(p) => Some(Seen { pos: p as i128, at: now }),
                None => value_of(old(last)@, id),
            }),
{
    let ghost m = estimate_models(es@);
    let mut i: usize = 0;
    while i < es.len()
        invariant
            i <= es@.len(),
            m == estimate_models(es@),
            forall|id: Seq<char>|
                #[trigger] value_of(last@, id) == (match last_position(m, i as int, id) {
                    Some(p) => Some(Seen { pos: p as i128, at: now }),
                    None => value_of(old(last)@, id),
                }),
        decreases es@.len() - i,
    {
        proof {
            assert(m[i as int] == (es@[i as int].id@, es@[i as int].pos as int));
        }
        put_value(last, es[i].id.as_str(), Seen { pos: es[i].pos, at: now });
        i = i + 1;
    }
    proof {
        assert forall|id: Seq<char>| (#[trigger] value_of(last@, id)) is Some implies 0 <= value_of(last@, id)->0.pos
            <= 0x2_0000_0000_0000_0000 by {
            lemma_last_position(es@, es@.len() as int, id);
            assert(value_of(old(last)@, id) matches Some(s) ==> 0 <= s.pos <= 0x2_0000_0000_0000_0000);
        }
    }
}

/// One look at the members: what they are told, and whether the session ends.
/// `now` is the time since the program started and `wall` that of the clock on the
/// wall, both in milliseconds.
pub fn step(s: &mut SyncSession, st: &mut SyncLoop, samples: &Vec<Sample>, now: i64, wall: i64) -> (r: (
    Vec<SyncAction>,
    bool,
))
    requires
        seen_fits(old(st).last_seen@),
    ensures
        seen_fits(final(st).last_seen@),
        forall|id: Seq<char>|
            #[trigger] value_of(final(st).gone_since@, id) == gone_next(old(st).gone_since@, samples@, id, now),
        ({
            let es = estimates(samples@, samples@.len() as int, wall as int);
            let v = verdict(
                *old(s),
                old(st).quiet_until as int,
                old(st).last_seen@,
                old(st).gone_since@,
                samples@,
                now,
                wall as int,
            );
            &&& r.1 == (v is End)
            &&& action_models(r.0@) == told(v, *old(s), es)
            &&& session_after(v, *old(s), *final(s), es, old(st).gone_since@, samples@, now)
            &&& final(st).quiet_until == quiet_after(v, old(st).quiet_until as int, es, now as int)
            &&& forall|id: Seq<char>|
                #[trigger] value_of(final(st).last_seen@, id) == seen_after(v, old(st).last_seen@, es, now, id)
        }),
{
    note_gone(&mut st.gone_since, samples, now);
    let none: Vec<SyncAction> = Vec::new();
    proof {
        assert(action_models(none@) =~= Seq::<(Seq<char>, SyncCmd)>::empty());
    }
    match first_left(&st.gone_since, now) {
        Some(i) => {
            proof {
                assert(has_left(old(st).gone_since@, samples@, st.gone_since@[i as int].0@, now));
            }
            let kept = keep_staying(&s.members, &st.gone_since, now, Ghost(old(st).gone_since@), Ghost(samples@));
            proof {
                assert(texts(kept@).len() == kept@.len());
            }
            forget_left(&mut st.gone_since, now);
            let few: bool = kept.len() < 2;
            s.members = kept;
            return (none, few);
        },
        None => {
            proof {
                assert forall|id: Seq<char>| !#[trigger] has_left(old(st).gone_since@, samples@, id, now) by {
                    assert(!is_old(value_of(st.gone_since@, id), now));
                }
            }
        },
    }
    if now as i128 >= st.quiet_until {
        if !s.paused {
            match find_paused(samples) {
                Some(i) => {
                    let out = tell_others(&s.members, samples[i].id.as_str(), SyncCmd::Pause);
                    s.paused = true;
                    s.status = SyncStatus::Paused;
                    st.quiet_until = now as i128 + SETTLE_MS as i128;
                    return (out, false);
                },
                None => {},
            }
        } else {
            match find_playing(samples) {
                Some(i) => {
                    let out = tell_others(&s.members, samples[i].id.as_str(), SyncCmd::Play);
                    s.paused = false;
                    s.status = SyncStatus::Playing;
                    st.quiet_until = now as i128 + SETTLE_MS as i128;
                    st.last_seen.clear();
                    return (out, false);
                },
                None => {},
            }
        }
    }
    let es = all_estimates(samples, wall);
    let ghost em = estimate_models(es@);
    proof {
        assert(em.len() == es@.len());
    }
    if s.paused || es.len() < 2 {
        return (none, false);
    }
    let (low, high) = extremes(&es);
    let spread: i128 = high - low;
    s.spread_ms = Some(hold(spread));
    if (now as i128) < st.quiet_until {
        remember(&mut st.last_seen, &es, now);
        return (none, false);
    }
    if spread > SEEK_GAP_MS as i128 {
        let target: i128 = find_meeting_point(&es, &st.last_seen, now);
        let out = tell_seeks(&es, target);
        st.quiet_until = now as i128 + SETTLE_MS as i128 + 1000;
        st.last_seen.clear();
        return (out, false);
    }
    if spread > SYNC_TOLERANCE_MS as i128 {
        let (out, longest) = tell_nudges(&es, low);
        st.quiet_until = now as i128 + longest + SETTLE_MS as i128;
        st.last_seen.clear();
        return (out, false);
    }
    remember(&mut st.last_seen, &es, now);
    (none, false)
}

/// The session as it starts, once the members play.
pub fn begin(s: &mut SyncSession, now: i64) -> (st: SyncLoop)
    ensures
        final(s).status == SyncStatus::Playing,
        final(s).id == old(s).id,
        final(s).members == old(s).members,
        final(s).paused == old(s).paused,
        final(s).spread_ms == old(s).spread_ms,
        st.quiet_until == now + SETTLE_MS,
        st.last_seen@.len() == 0,
        seen_fits(st.last_seen@),
        st.gone_since@.len() == 0,
{
    s.status = SyncStatus::Playing;
    SyncLoop { quiet_until: now as i128 + SETTLE_MS as i128, last_seen: Vec::new(), gone_since: Vec::new() }
}

proof fn lemma_nudged(es: Seq<(Seq<char>, int)>, n: int, low: int, i: int)
    requires
        0 <= i < n <= es.len(),
        es[i].1 - low > SYNC_TOLERANCE_MS,
    ensures
        nudges(es, n, low).contains((es[i].0, SyncCmd::Nudge(held(es[i].1 - low)))),
    decreases n,
{
    let x = (es[i].0, SyncCmd::Nudge(held(es[i].1 - low)));
    let before = nudges(es, n - 1, low);
    if i < n - 1 {
        lemma_nudged(es, n - 1, low, i);
        if es[n - 1].1 - low > SYNC_TOLERANCE_MS {
            let y = (es[n - 1].0, SyncCmd::Nudge(held(es[n - 1].1 - low)));
            crate::text::lemma_push_contains(before, y, x);
        }
    } else {
        crate::text::lemma_push_contains(before, x, x);
    }
}

proof fn lemma_only_leaders_nudged(es: Seq<(Seq<char>, int)>, n: int, low: int, k: int)
    requires
        0 <= n <= es.len(),
        0 <= k < nudges(es, n, low).len(),
    ensures
        exists|i: int|
            0 <= i < n && (#[trigger] es[i]).1 - low > SYNC_TOLERANCE_MS && nudges(es, n, low)[k] == (
                es[i].0,
                SyncCmd::Nudge(held(es[i].1 - low)),
            ),
    decreases n,
{
    if n > 0 {
        let before = nudges(es, n - 1, low);
        if k < before.len() {
            lemma_only_leaders_nudged(es, n - 1, low, k);
        } else {
            assert(es[n - 1].1 - low > SYNC_TOLERANCE_MS);
        }
    }
}

/// Members that are a little apart line up: each that leads the slowest by more than
/// the tolerance is paused for exactly its lead, and nobody else is told anything.
pub proof fn law_held_back_members_line_up(s: SyncSession, es: Seq<(Seq<char>, int)>, i: int, k: int)
    requires
        0 <= i < es.len(),
        0 <= k < told(Verdict::HoldBack, s, es).len(),
    ensures
        ({
            let low = lowest(es, es.len() as int);
            let all = told(Verdict::HoldBack, s, es);
            &&& low <= es[i].1
            &&& es[i].1 - low > SYNC_TOLERANCE_MS ==> all.contains(
                (es[i].0, SyncCmd::Nudge(held(es[i].1 - low))),
            )
            &&& exists|j: int|
                0 <= j < es.len() && (#[trigger] es[j]).1 - low > SYNC_TOLERANCE_MS && all[k] == (
                    es[j].0,
                    SyncCmd::Nudge(held(es[j].1 - low)),
                )
        }),
{
    let n = es.len() as int;
    let low = lowest(es, n);
    lemma_extremes(es, n, i);
    if es[i].1 - low > SYNC_TOLERANCE_MS {
        lemma_nudged(es, n, low, i);
    }
    lemma_only_leaders_nudged(es, n, low, k);
}

proof fn lemma_others_told(members: Seq<String>, n: int, who: Seq<char>, cmd: SyncCmd, i: int)
    requires
        0 <= i < n <= members.len(),
        members[i]@ != who,
    ensures
        others_told(members, n, who, cmd).contains((members[i]@, cmd)),
    decreases n,
{
    let before = others_told(members, n - 1, who, cmd);
    if i < n - 1 {
        lemma_others_told(members, n - 1, who, cmd, i);
        if members[n - 1]@ != who {
            crate::text::lemma_push_contains(before, (members[n - 1]@, cmd), (members[i]@, cmd));
        }
    } else {
        crate::text::lemma_push_contains(before, (members[i]@, cmd), (members[i]@, cmd));
    }
}

proof fn lemma_only_others_told(members: Seq<String>, n: int, who: Seq<char>, cmd: SyncCmd, k: int)
    requires
        0 <= n <= members.len(),
        0 <= k < others_told(members, n, who, cmd).len(),
    ensures
        others_told(members, n, who, cmd)[k].0 != who,
    decreases n,
{
    if n > 0 && k < others_told(members, n - 1, who, cmd).len() {
        lemma_only_others_told(members, n - 1, who, cmd, k);
    }
}

/// A pause or a resumption on one device is copied to every other member, and the
/// device itself is told nothing.
pub proof fn law_pausing_is_copied(v: Verdict, s: SyncSession, es: Seq<(Seq<char>, int)>, i: int)
    requires
        v is PauseAll || v is ResumeAll,
        0 <= i < s.members@.len(),
    ensures
        v matches Verdict::PauseAll(who) ==> s.members@[i]@ != who ==> told(v, s, es).contains(
            (s.members@[i]@, SyncCmd::Pause),
        ),
        v matches Verdict::ResumeAll(who) ==> s.members@[i]@ != who ==> told(v, s, es).contains(
            (s.members@[i]@, SyncCmd::Play),
        ),
        forall|k: int|
            0 <= k < told(v, s, es).len() ==> (#[trigger] told(v, s, es)[k]).0 != (match v {
                Verdict::PauseAll(who) => who,
                Verdict::ResumeAll(who) => who,
                _ => Seq::empty(),
            }),
{
    let n = s.members@.len() as int;
    let (who, cmd) = match v {
        Verdict::PauseAll(w) => (w, SyncCmd::Pause),
        Verdict::ResumeAll(w) => (w, SyncCmd::Play),
        _ => (Seq::empty(), SyncCmd::Pause),
    };
    if s.members@[i]@ != who {
        lemma_others_told(s.members@, n, who, cmd, i);
    }
    assert forall|k: int| 0 <= k < told(v, s, es).len() implies (#[trigger] told(v, s, es)[k]).0 != who by {
        lemma_only_others_told(s.members@, n, who, cmd, k);
    }
}

proof fn lemma_seeks(es: Seq<(Seq<char>, int)>, n: int, target: int, i: int)
    requires
        0 <= i < n <= es.len(),
        crate::levels::distance(es[i].1, target) > SYNC_TOLERANCE_MS,
    ensures
        seeks(es, n, target).contains((es[i].0, SyncCmd::Seek(seek_aim(target)))),
    decreases n,
{
    let cmd = SyncCmd::Seek(seek_aim(target));
    let before = seeks(es, n - 1, target);
    if i < n - 1 {
        lemma_seeks(es, n - 1, target, i);
        if crate::levels::distance(es[n - 1].1, target) > SYNC_TOLERANCE_MS {
            crate::text::lemma_push_contains(before, (es[n - 1].0, cmd), (es[i].0, cmd));
        }
    } else {
        crate::text::lemma_push_contains(before, (es[i].0, cmd), (es[i].0, cmd));
    }
}

/// Members that are far apart are brought together: where one has jumped, all that are
/// not near it are sent there, and else all that are not near the one in the middle.
pub proof fn law_seeking_is_copied(
    s: SyncSession,
    quiet: int,
    last: Seq<(String, Seen)>,
    gone: Seq<(String, i64)>,
    samples: Seq<Sample>,
    now: i64,
    wall: int,
    i: int,
)
    requires
        verdict(s, quiet, last, gone, samples, now, wall) is Meet,
        0 <= i < estimates(samples, samples.len() as int, wall).len(),
    ensures
        ({
            let es = estimates(samples, samples.len() as int, wall);
            let target = match furthest_jump(es, last, es.len() as int, now as int) {
                Some(j) => es[j].1,
                None => median(es),
            };
            crate::levels::distance(es[i].1, target) > SYNC_TOLERANCE_MS ==> told(
                verdict(s, quiet, last, gone, samples, now, wall),
                s,
                es,
            ).contains((es[i].0, SyncCmd::Seek(seek_aim(target))))
        }),
{
    let es = estimates(samples, samples.len() as int, wall);
    let target = meeting_point(es, last, now as int);
    if crate::levels::distance(es[i].1, target) > SYNC_TOLERANCE_MS {
        lemma_seeks(es, es.len() as int, target, i);
    }
}

/// While members are told to move, nothing is judged for at least two and a half
/// seconds.
pub proof fn law_commands_are_followed_by_quiet(v: Verdict, s: SyncSession, quiet: int, es: Seq<(Seq<char>, int)>, now: int)
    requires
        told(v, s, es).len() > 0,
    ensures
        quiet_after(v, quiet, es, now) >= now + SETTLE_MS,
{
    if v is HoldBack {
        lemma_longest_nat(es, es.len() as int, lowest(es, es.len() as int));
    }
}

proof fn lemma_longest_nat(es: Seq<(Seq<char>, int)>, n: int, low: int)
    ensures
        longest_lead(es, n, low) >= 0,
    decreases n,
{
    if n > 0 {
        lemma_longest_nat(es, n - 1, low);
    }
}

/// A device that has left is dropped once: whatever the others play, nobody is seen to
/// leave again at that time, so that the others are kept in step from the next look on.
pub proof fn law_a_device_leaves_once(
    before: Seq<(String, i64)>,
    after: Seq<(String, i64)>,
    samples: Seq<Sample>,
    others: Seq<Sample>,
    now: i64,
)
    requires
        forall|id: Seq<char>| #[trigger] value_of(after, id) == gone_next(before, samples, id, now),
    ensures
        !some_left(after, others, now),
{
    assert forall|id: Seq<char>| !#[trigger] has_left(after, others, id, now) by {
        assert(!is_old(value_of(after, id), now));
        lemma_not_yet(after, others, others.len() as int, id, now);
    }
}

proof fn lemma_not_yet(gone: Seq<(String, i64)>, samples: Seq<Sample>, n: int, id: Seq<char>, now: i64)
    requires
        !is_old(value_of(gone, id), now),
    ensures
        !is_old(gone_after(gone, samples, n, id, now), now),
    decreases n,
{
    if n > 0 {
        lemma_not_yet(gone, samples, n - 1, id, now);
    }
}

// ---------------------------------------------------------------------------
// What members that play can rely on
// ---------------------------------------------------------------------------

/// Whether a member plays and is at a position now.
pub open spec fn plays_at(s: Sample, wall: int, p: int) -> bool {
    &&& s.media matches Some(m)
    &&& m.state is Playing
    &&& m.position_ms matches Some(x)
    &&& m.position_at matches Some(t)
    &&& t <= wall
    &&& p == x + (wall - t)
}

/// Whether all members play, each at a position.
pub open spec fn all_play_at(samples: Seq<Sample>, wall: int, ps: Seq<int>) -> bool {
    &&& ps.len() == samples.len()
    &&& forall|i: int| 0 <= i < samples.len() ==> plays_at(#[trigger] samples[i], wall, ps[i])
}

/// Whether nobody is known to have played nothing for more than ten seconds.
pub open spec fn nobody_gone(gone: Seq<(String, i64)>, now: i64) -> bool {
    forall|j: int| 0 <= j < gone.len() ==> now - (#[trigger] gone[j]).1 <= 10_000
}

/// How far a position is from where it would be had it only gone on, in either direction.
pub open spec fn off_course(p: int, seen: Seen, now: int) -> int {
    let ahead = p - (seen.pos + (now - seen.at));
    if ahead < 0 {
        -ahead
    } else {
        ahead
    }
}

proof fn lemma_nobody_left(gone: Seq<(String, i64)>, samples: Seq<Sample>, now: i64)
    requires
        nobody_gone(gone, now),
    ensures
        !some_left(gone, samples, now),
{
    assert forall|id: Seq<char>| !#[trigger] has_left(gone, samples, id, now) by {
        crate::config::lemma_key_from(gone, id, 0);
        match crate::config::key_from(gone, id, 0) {
            Some(k) => {
                assert(now - gone[k].1 <= 10_000);
            },
            None => {},
        }
        lemma_not_yet(gone, samples, samples.len() as int, id, now);
    }
}

proof fn lemma_positions(samples: Seq<Sample>, wall: int, ps: Seq<int>, n: int)
    requires
        all_play_at(samples, wall, ps),
        0 <= n <= samples.len(),
    ensures
        estimates(samples, n, wall).len() == n,
        forall|i: int| 0 <= i < n ==> #[trigger] estimates(samples, n, wall)[i] == (samples[i].id@, ps[i]),
    decreases n,
{
    if n > 0 {
        lemma_positions(samples, wall, ps, n - 1);
        assert(plays_at(samples[n - 1], wall, ps[n - 1]));
    }
}

proof fn lemma_none_paused(samples: Seq<Sample>, wall: int, ps: Seq<int>, i: int)
    requires
        all_play_at(samples, wall, ps),
        0 <= i <= samples.len(),
    ensures
        first_paused(samples, i) is None,
    decreases samples.len() - i,
{
    if i < samples.len() {
        assert(plays_at(samples[i], wall, ps[i]));
        lemma_none_paused(samples, wall, ps, i + 1);
    }
}

proof fn lemma_bounds(es: Seq<(Seq<char>, int)>, n: int, low: int, high: int)
    requires
        0 < n <= es.len(),
        forall|i: int| 0 <= i < n ==> low <= (#[trigger] es[i]).1 <= high,
    ensures
        low <= lowest(es, n),
        highest(es, n) <= high,
    decreases n,
{
    if n > 1 {
        lemma_bounds(es, n - 1, low, high);
        assert(low <= es[n - 1].1 <= high);
    } else {
        assert(low <= es[0].1 <= high);
    }
}

proof fn lemma_furthest(es: Seq<(Seq<char>, int)>, last: Seq<(String, Seen)>, n: int, now: int, j: int, seen: Seen)
    requires
        0 <= j < es.len(),
        0 <= n <= es.len(),
        value_of(last, es[j].0) == Some(seen),
        off_course(es[j].1, seen, now) > 2_500,
        forall|i: int|
            0 <= i < es.len() && i != j ==> (value_of(last, (#[trigger] es[i]).0) matches Some(x) ==> off_course(
                es[i].1,
                x,
                now,
            ) < off_course(es[j].1, seen, now)),
    ensures
        j < n ==> furthest_jump(es, last, n, now) == Some(j),
        j >= n ==> (furthest_jump(es, last, n, now) matches Some(b) ==> 0 <= b < n && jump_of(
            last,
            es[b].0,
            es[b].1,
            now,
        ) is Some && jump_of(last, es[b].0, es[b].1, now)->0 < off_course(es[j].1, seen, now)),
    decreases n,
{
    if n > 0 {
        lemma_furthest(es, last, n - 1, now, j, seen);
        let i = n - 1;
        if i != j {
            assert(value_of(last, es[i].0) matches Some(x) ==> off_course(es[i].1, x, now) < off_course(
                es[j].1,
                seen,
                now,
            ));
        }
        assert(jump_of(last, es[j].0, es[j].1, now) == Some(off_course(es[j].1, seen, now)));
    }
}

proof fn lemma_seeks_only(es: Seq<(Seq<char>, int)>, n: int, target: int, k: int)
    requires
        0 <= n <= es.len(),
        0 <= k < seeks(es, n, target).len(),
    ensures
        seeks(es, n, target)[k].1 == SyncCmd::Seek(seek_aim(target)),
        exists|i: int|
            0 <= i < n && (#[trigger] es[i]).0 == seeks(es, n, target)[k].0 && (es[i].1 - target > 200 || target - es[i].1
                > 200),
    decreases n,
{
    if n > 0 {
        let before = seeks(es, n - 1, target);
        if k < before.len() {
            lemma_seeks_only(es, n - 1, target, k);
        } else {
            assert(es[n - 1].0 == seeks(es, n, target)[k].0);
        }
    }
}

/// A seek that a user makes on one device, forward or back, is copied to the others.
///
/// Where the members are more than four seconds apart, and one of them is more than two and
/// a half seconds from where it would be had it only gone on, and further than any other
/// is, then every member that is more than a fifth of a second from that one's position is
/// told to seek to it and a little ahead. The one that jumped is told nothing, and nobody is
/// told anything else.
pub proof fn law_a_users_seek_is_copied(
    s: SyncSession,
    quiet: int,
    last: Seq<(String, Seen)>,
    gone: Seq<(String, i64)>,
    samples: Seq<Sample>,
    now: i64,
    wall: int,
    ps: Seq<int>,
    a: int,
    b: int,
    j: int,
    seen: Seen,
)
    requires
        !s.paused,
        now >= quiet,
        nobody_gone(gone, now),
        all_play_at(samples, wall, ps),
        0 <= a < samples.len(),
        0 <= b < samples.len(),
        ps[a] - ps[b] > 4_000,
        0 <= j < samples.len(),
        forall|i: int| 0 <= i < samples.len() && i != j ==> (#[trigger] samples[i]).id@ != samples[j].id@,
        value_of(last, samples[j].id@) == Some(seen),
        off_course(ps[j], seen, now as int) > 2_500,
        forall|i: int|
            0 <= i < samples.len() && i != j ==> (value_of(last, (#[trigger] samples[i]).id@) matches Some(x)
                ==> off_course(ps[i], x, now as int) < off_course(ps[j], seen, now as int)),
        ps[j] + 400 <= u64::MAX,
    ensures
        ({
            let out = told(
                verdict(s, quiet, last, gone, samples, now, wall),
                s,
                estimates(samples, samples.len() as int, wall),
            );
            &&& forall|i: int|
                0 <= i < samples.len() && (ps[i] - ps[j] > 200 || ps[j] - ps[i] > 200) ==> out.contains(
                    ((#[trigger] samples[i]).id@, SyncCmd::Seek((ps[j] + 400) as u64)),
                )
            &&& forall|k: int|
                0 <= k < out.len() ==> (#[trigger] out[k]).0 != samples[j].id@ && out[k].1 == SyncCmd::Seek(
                    (ps[j] + 400) as u64,
                )
        }),
{
    let n = samples.len() as int;
    let es = estimates(samples, n, wall);
    lemma_nobody_left(gone, samples, now);
    lemma_positions(samples, wall, ps, n);
    lemma_none_paused(samples, wall, ps, 0);
    lemma_extremes(es, n, a);
    lemma_extremes(es, n, b);
    assert(a != b);
    assert forall|i: int| 0 <= i < es.len() && i != j implies (value_of(last, (#[trigger] es[i]).0) matches Some(x)
        ==> off_course(es[i].1, x, now as int) < off_course(es[j].1, seen, now as int)) by {
        assert(es[i] == (samples[i].id@, ps[i]));
        assert(samples[i].id@ == es[i].0);
    }
    lemma_furthest(es, last, n, now as int, j, seen);
    let target = ps[j];
    let out = told(verdict(s, quiet, last, gone, samples, now, wall), s, es);
    assert(out == seeks(es, n, target));
    assert forall|i: int| 0 <= i < samples.len() && (ps[i] - ps[j] > 200 || ps[j] - ps[i] > 200) implies out.contains(
        ((#[trigger] samples[i]).id@, SyncCmd::Seek((ps[j] + 400) as u64)),
    ) by {
        assert(es[i] == (samples[i].id@, ps[i]));
        lemma_seeks(es, n, target, i);
    }
    assert forall|k: int| 0 <= k < out.len() implies (#[trigger] out[k]).0 != samples[j].id@ && out[k].1
        == SyncCmd::Seek((ps[j] + 400) as u64) by {
        lemma_seeks_only(es, n, target, k);
        let i = choose|i: int|
            0 <= i < n && (#[trigger] es[i]).0 == out[k].0 && (es[i].1 - target > 200 || target - es[i].1 > 200);
        assert(es[i] == (samples[i].id@, ps[i]));
        assert(i != j);
        assert(samples[i].id@ != samples[j].id@);
    }
}

/// How many of the first `n` positions lie before one, or behind it.
pub open spec fn how_many(ps: Seq<int>, n: int, t: int, before: bool) -> int
    decreases n,
{
    if n <= 0 {
        0
    } else {
        how_many(ps, n - 1, t, before) + if (before && ps[n - 1] < t) || (!before && ps[n - 1] > t) {
            1int
        } else {
            0
        }
    }
}

spec fn ascends(list: Seq<int>) -> bool {
    forall|i: int, j: int| 0 <= i <= j < list.len() ==> list[i] <= list[j]
}

proof fn lemma_how_many_same(a: Seq<int>, b: Seq<int>, n: int, t: int, before: bool)
    requires
        0 <= n <= a.len(),
        n <= b.len(),
        forall|i: int| 0 <= i < n ==> #[trigger] a[i] == b[i],
    ensures
        how_many(a, n, t, before) == how_many(b, n, t, before),
    decreases n,
{
    if n > 0 {
        lemma_how_many_same(a, b, n - 1, t, before);
        assert(a[n - 1] == b[n - 1]);
    }
}

proof fn lemma_with_number(list: Seq<int>, x: int, t: int, before: bool)
    requires
        ascends(list),
    ensures
        ({
            let more = with_number(list, x);
            &&& more.len() == list.len() + 1
            &&& ascends(more)
            &&& more.last() == (if list.len() > 0 && x < list.last() {
                list.last()
            } else {
                x
            })
            &&& more.contains(x)
            &&& forall|v: int| #[trigger] more.contains(v) ==> v == x || list.contains(v)
            &&& how_many(more, more.len() as int, t, before) == how_many(list, list.len() as int, t, before) + if (before
                && x < t) || (!before && x > t) {
                1int
            } else {
                0
            }
        }),
    decreases list.len(),
{
    let more = with_number(list, x);
    if list.len() > 0 && x < list.last() {
        let rest = list.drop_last();
        assert(ascends(rest));
        lemma_with_number(rest, x, t, before);
        let inner = with_number(rest, x);
        assert(more == inner.push(list.last()));
        assert(inner.last() <= list.last()) by {
            if rest.len() > 0 {
                assert(list[rest.len() - 1] <= list[list.len() - 1]);
            }
        }
        assert forall|i: int, j: int| 0 <= i <= j < more.len() implies more[i] <= more[j] by {
            if j == inner.len() && i < j {
                assert(inner[i] <= inner[inner.len() - 1]);
            }
        }
        lemma_how_many_same(more, inner, inner.len() as int, t, before);
        lemma_how_many_same(list, rest, rest.len() as int, t, before);
        let at = inner.index_of(x);
        assert(more[at] == x);
        assert forall|v: int| #[trigger] more.contains(v) implies v == x || list.contains(v) by {
            let at = more.index_of(v);
            if at < inner.len() {
                assert(inner[at] == v);
                assert(inner.contains(v));
                if v != x {
                    let k = rest.index_of(v);
                    assert(list[k] == v);
                }
            } else {
                assert(list[list.len() - 1] == v);
            }
        }
    } else {
        assert(more == list.push(x));
        lemma_how_many_same(more, list, list.len() as int, t, before);
        assert(more[list.len() as int] == x);
        assert forall|i: int, j: int| 0 <= i <= j < more.len() implies more[i] <= more[j] by {
            if j == list.len() && i < j {
                assert(list[i] <= list[list.len() - 1]);
            }
        }
        assert forall|v: int| #[trigger] more.contains(v) implies v == x || list.contains(v) by {
            let at = more.index_of(v);
            if at < list.len() {
                assert(list[at] == v);
            }
        }
    }
}

proof fn lemma_in_order(es: Seq<(Seq<char>, int)>, ps: Seq<int>, n: int, t: int, before: bool)
    requires
        0 <= n <= es.len(),
        ps.len() == es.len(),
        forall|i: int| 0 <= i < es.len() ==> (#[trigger] es[i]).1 == ps[i],
    ensures
        ascends(in_order(es, n)),
        in_order(es, n).len() == n,
        how_many(in_order(es, n), n, t, before) == how_many(ps, n, t, before),
        forall|v: int| #[trigger] in_order(es, n).contains(v) ==> exists|i: int| 0 <= i < n && #[trigger] ps[i] == v,
    decreases n,
{
    if n > 0 {
        lemma_in_order(es, ps, n - 1, t, before);
        let list = in_order(es, n - 1);
        lemma_with_number(list, es[n - 1].1, t, before);
        assert(es[n - 1].1 == ps[n - 1]);
        assert forall|v: int| #[trigger] in_order(es, n).contains(v) implies exists|i: int|
            0 <= i < n && #[trigger] ps[i] == v by {
            if v == ps[n - 1] {
            } else {
                assert(list.contains(v));
                let i = choose|i: int| 0 <= i < n - 1 && #[trigger] ps[i] == v;
                assert(ps[i] == v);
            }
        }
    }
}

proof fn lemma_how_many_in_order(list: Seq<int>, n: int, k: int)
    requires
        ascends(list),
        0 <= n <= list.len(),
        0 <= k < list.len(),
    ensures
        how_many(list, n, list[k], true) <= k,
        how_many(list, n, list[k], false) <= if n <= k + 1 {
            0
        } else {
            n - k - 1
        },
        0 <= how_many(list, n, list[k], true) <= n,
    decreases n,
{
    if n > 0 {
        lemma_how_many_in_order(list, n - 1, k);
        if n - 1 >= k {
            assert(list[k] <= list[n - 1]);
        }
        if n - 1 <= k {
            assert(list[n - 1] <= list[k]);
        }
    }
}

/// Where nobody jumped, members that are more than four seconds apart meet in the middle: at
/// the position of one of them, before which there are at most half of the others, and
/// behind which fewer than half of all. Whoever is more than a fifth of a second from there
/// is told to seek to it and a little ahead, and nobody is told anything else.
pub proof fn law_members_meet_in_the_middle(
    s: SyncSession,
    quiet: int,
    last: Seq<(String, Seen)>,
    gone: Seq<(String, i64)>,
    samples: Seq<Sample>,
    now: i64,
    wall: int,
    ps: Seq<int>,
    a: int,
    b: int,
)
    requires
        !s.paused,
        now >= quiet,
        nobody_gone(gone, now),
        all_play_at(samples, wall, ps),
        0 <= a < samples.len(),
        0 <= b < samples.len(),
        ps[a] - ps[b] > 4_000,
        forall|i: int|
            0 <= i < samples.len() ==> (value_of(last, (#[trigger] samples[i]).id@) matches Some(x) ==> off_course(
                ps[i],
                x,
                now as int,
            ) <= 2_500),
        forall|i: int| 0 <= i < ps.len() ==> #[trigger] ps[i] + 400 <= u64::MAX,
    ensures
        exists|m: int|
            #![trigger ps[m]]
            0 <= m < ps.len() && 2 * how_many(ps, ps.len() as int, ps[m], true) <= ps.len() && 2 * how_many(
                ps,
                ps.len() as int,
                ps[m],
                false,
            ) < ps.len() && ({
                let out = told(
                    verdict(s, quiet, last, gone, samples, now, wall),
                    s,
                    estimates(samples, samples.len() as int, wall),
                );
                &&& forall|i: int|
                    0 <= i < samples.len() && (ps[i] - ps[m] > 200 || ps[m] - ps[i] > 200) ==> out.contains(
                        ((#[trigger] samples[i]).id@, SyncCmd::Seek((ps[m] + 400) as u64)),
                    )
                &&& forall|k: int| 0 <= k < out.len() ==> (#[trigger] out[k]).1 == SyncCmd::Seek((ps[m] + 400) as u64)
            }),
{
    let n = samples.len() as int;
    let es = estimates(samples, n, wall);
    lemma_nobody_left(gone, samples, now);
    lemma_positions(samples, wall, ps, n);
    lemma_none_paused(samples, wall, ps, 0);
    lemma_extremes(es, n, a);
    lemma_extremes(es, n, b);
    assert forall|i: int| 0 <= i < es.len() implies (#[trigger] es[i]).1 == ps[i] by {
        assert(es[i] == (samples[i].id@, ps[i]));
    }
    assert forall|i: int| 0 <= i < es.len() implies jump_of(last, (#[trigger] es[i]).0, es[i].1, now as int) is None by {
        assert(es[i] == (samples[i].id@, ps[i]));
        assert(samples[i].id@ == es[i].0);
    }
    lemma_no_jump(es, last, n, now as int);
    let t = median(es);
    let k = n / 2;
    lemma_in_order(es, ps, n, t, true);
    lemma_in_order(es, ps, n, t, false);
    let list = in_order(es, n);
    lemma_how_many_in_order(list, n, k);
    assert(list.contains(list[k]));
    let m = choose|m: int| 0 <= m < n && #[trigger] ps[m] == list[k];
    assert(ps[m] + 400 <= u64::MAX);
    let out = told(verdict(s, quiet, last, gone, samples, now, wall), s, es);
    assert(out == seeks(es, n, t));
    assert forall|i: int| 0 <= i < samples.len() && (ps[i] - ps[m] > 200 || ps[m] - ps[i] > 200) implies out.contains(
        ((#[trigger] samples[i]).id@, SyncCmd::Seek((ps[m] + 400) as u64)),
    ) by {
        assert(es[i] == (samples[i].id@, ps[i]));
        lemma_seeks(es, n, t, i);
    }
    assert forall|q: int| 0 <= q < out.len() implies (#[trigger] out[q]).1 == SyncCmd::Seek((ps[m] + 400) as u64) by {
        lemma_seeks_only(es, n, t, q);
    }
}

proof fn lemma_no_jump(es: Seq<(Seq<char>, int)>, last: Seq<(String, Seen)>, n: int, now: int)
    requires
        0 <= n <= es.len(),
        forall|i: int| 0 <= i < es.len() ==> jump_of(last, (#[trigger] es[i]).0, es[i].1, now) is None,
    ensures
        furthest_jump(es, last, n, now) is None,
    decreases n,
{
    if n > 0 {
        lemma_no_jump(es, last, n - 1, now);
        assert(jump_of(last, es[n - 1].0, es[n - 1].1, now) is None);
    }
}

/// Members that are between a fifth of a second and four seconds apart line up behind the
/// slowest: each that is more than a fifth of a second ahead of it is paused for exactly as
/// long as it is ahead, and nobody is told anything else. Nothing is judged until the last of
/// them has been back for two and a half seconds.
pub proof fn law_the_fast_wait_for_the_slowest(
    s: SyncSession,
    quiet: int,
    last: Seq<(String, Seen)>,
    gone: Seq<(String, i64)>,
    samples: Seq<Sample>,
    now: i64,
    wall: int,
    ps: Seq<int>,
    fast: int,
    slow: int,
)
    requires
        !s.paused,
        now >= quiet,
        nobody_gone(gone, now),
        samples.len() >= 2,
        all_play_at(samples, wall, ps),
        0 <= fast < samples.len(),
        0 <= slow < samples.len(),
        forall|i: int| 0 <= i < ps.len() ==> ps[slow] <= #[trigger] ps[i] <= ps[fast],
        200 < ps[fast] - ps[slow] <= 4_000,
    ensures
        ({
            let es = estimates(samples, samples.len() as int, wall);
            let v = verdict(s, quiet, last, gone, samples, now, wall);
            let out = told(v, s, es);
            &&& forall|i: int|
                0 <= i < samples.len() && ps[i] - ps[slow] > 200 ==> out.contains(
                    ((#[trigger] samples[i]).id@, SyncCmd::Nudge((ps[i] - ps[slow]) as u64)),
                )
            &&& forall|k: int|
                0 <= k < out.len() ==> exists|i: int|
                    0 <= i < samples.len() && ps[i] - ps[slow] > 200 && #[trigger] out[k] == (
                        (#[trigger] samples[i]).id@,
                        SyncCmd::Nudge((ps[i] - ps[slow]) as u64),
                    )
            &&& quiet_after(v, quiet, es, now as int) == now + (ps[fast] - ps[slow]) + 2_500
        }),
{
    let n = samples.len() as int;
    let es = estimates(samples, n, wall);
    lemma_nobody_left(gone, samples, now);
    lemma_positions(samples, wall, ps, n);
    lemma_none_paused(samples, wall, ps, 0);
    lemma_extremes(es, n, fast);
    lemma_extremes(es, n, slow);
    assert forall|i: int| 0 <= i < n implies ps[slow] <= (#[trigger] es[i]).1 <= ps[fast] by {
        assert(es[i] == (samples[i].id@, ps[i]));
        assert(ps[slow] <= ps[i] <= ps[fast]);
    }
    lemma_bounds(es, n, ps[slow], ps[fast]);
    let low = lowest(es, n);
    assert(low == ps[slow]);
    let v = verdict(s, quiet, last, gone, samples, now, wall);
    assert(v is HoldBack);
    let out = told(v, s, es);
    assert forall|i: int| 0 <= i < samples.len() && ps[i] - ps[slow] > 200 implies out.contains(
        ((#[trigger] samples[i]).id@, SyncCmd::Nudge((ps[i] - ps[slow]) as u64)),
    ) by {
        assert(es[i] == (samples[i].id@, ps[i]));
        assert(es[i].1 <= ps[fast]);
        lemma_nudged(es, n, low, i);
    }
    assert forall|k: int| 0 <= k < out.len() implies exists|i: int|
        0 <= i < samples.len() && ps[i] - ps[slow] > 200 && #[trigger] out[k] == (
            (#[trigger] samples[i]).id@,
            SyncCmd::Nudge((ps[i] - ps[slow]) as u64),
        ) by {
        lemma_only_leaders_nudged(es, n, low, k);
        let i = choose|i: int|
            0 <= i < n && (#[trigger] es[i]).1 - low > SYNC_TOLERANCE_MS && nudges(es, n, low)[k] == (
                es[i].0,
                SyncCmd::Nudge(held(es[i].1 - low)),
            );
        assert(es[i] == (samples[i].id@, ps[i]));
        assert(es[i].1 <= ps[fast]);
        assert(samples[i].id@ == es[i].0);
    }
    lemma_longest_is_the_fastest(es, n, low, fast);
}

proof fn lemma_longest_is_the_fastest(es: Seq<(Seq<char>, int)>, n: int, low: int, fast: int)
    requires
        0 <= n <= es.len(),
        0 <= fast < es.len(),
        es[fast].1 - low > 200,
        forall|i: int| 0 <= i < es.len() ==> (#[trigger] es[i]).1 <= es[fast].1,
    ensures
        longest_lead(es, n, low) <= es[fast].1 - low,
        fast < n ==> longest_lead(es, n, low) == es[fast].1 - low,
    decreases n,
{
    if n > 0 {
        lemma_longest_is_the_fastest(es, n - 1, low, fast);
        assert(es[n - 1].1 <= es[fast].1);
    }
}

/// Members that are no more than a fifth of a second apart are told nothing, and where each
/// is now is remembered.
pub proof fn law_members_in_step_are_left_alone(
    s: SyncSession,
    quiet: int,
    last: Seq<(String, Seen)>,
    gone: Seq<(String, i64)>,
    samples: Seq<Sample>,
    now: i64,
    wall: int,
    ps: Seq<int>,
    i: int,
)
    requires
        !s.paused,
        now >= quiet,
        nobody_gone(gone, now),
        samples.len() >= 2,
        all_play_at(samples, wall, ps),
        forall|a: int, b: int| 0 <= a < ps.len() && 0 <= b < ps.len() ==> #[trigger] ps[a] - #[trigger] ps[b] <= 200,
        0 <= i < samples.len(),
        forall|j: int| i < j < samples.len() ==> (#[trigger] samples[j]).id@ != samples[i].id@,
        ps[i] < 0x2_0000_0000_0000_0000,
    ensures
        ({
            let es = estimates(samples, samples.len() as int, wall);
            let v = verdict(s, quiet, last, gone, samples, now, wall);
            &&& told(v, s, es).len() == 0
            &&& quiet_after(v, quiet, es, now as int) == quiet
            &&& seen_after(v, last, es, now, samples[i].id@) == Some(Seen { pos: ps[i] as i128, at: now })
        }),
{
    let n = samples.len() as int;
    let es = estimates(samples, n, wall);
    lemma_nobody_left(gone, samples, now);
    lemma_positions(samples, wall, ps, n);
    lemma_none_paused(samples, wall, ps, 0);
    lemma_reached(es, n);
    let (a, b) = choose|a: int, b: int|
        0 <= a < n && 0 <= b < n && lowest(es, n) == (#[trigger] es[a]).1 && highest(es, n) == (#[trigger] es[b]).1;
    assert(es[a] == (samples[a].id@, ps[a]) && es[b] == (samples[b].id@, ps[b]));
    assert(ps[b] - ps[a] <= 200);
    assert(spread_of(es) <= 200);
    assert forall|j: int| i < j < n implies (#[trigger] es[j]).0 != samples[i].id@ by {
        assert(es[j] == (samples[j].id@, ps[j]));
        assert(samples[j].id@ != samples[i].id@);
    }
    assert(es[i] == (samples[i].id@, ps[i]));
    lemma_last_seen(es, n, i);
}

proof fn lemma_reached(es: Seq<(Seq<char>, int)>, n: int)
    requires
        0 < n <= es.len(),
    ensures
        exists|a: int, b: int|
            0 <= a < n && 0 <= b < n && lowest(es, n) == (#[trigger] es[a]).1 && highest(es, n) == (#[trigger] es[b]).1,
    decreases n,
{
    if n > 1 {
        lemma_reached(es, n - 1);
        let (a, b) = choose|a: int, b: int|
            0 <= a < n - 1 && 0 <= b < n - 1 && lowest(es, n - 1) == (#[trigger] es[a]).1 && highest(es, n - 1) == (
            #[trigger] es[b]).1;
        let a1 = if es[n - 1].1 < lowest(es, n - 1) {
            n - 1
        } else {
            a
        };
        let b1 = if es[n - 1].1 > highest(es, n - 1) {
            n - 1
        } else {
            b
        };
        assert(lowest(es, n) == es[a1].1 && highest(es, n) == es[b1].1);
    } else {
        assert(lowest(es, n) == es[0].1 && highest(es, n) == es[0].1);
    }
}

proof fn lemma_last_seen(es: Seq<(Seq<char>, int)>, n: int, i: int)
    requires
        0 <= i < n <= es.len(),
        forall|j: int| i < j < n ==> (#[trigger] es[j]).0 != es[i].0,
    ensures
        last_position(es, n, es[i].0) == Some(es[i].1),
    decreases n,
{
    if i < n - 1 {
        assert(es[n - 1].0 != es[i].0);
        lemma_last_seen(es, n - 1, i);
    }
}

/// Whether a member is in a state.
pub open spec fn member_paused(s: Sample) -> bool {
    s.media matches Some(m) && m.state is Paused
}

pub open spec fn member_plays(s: Sample) -> bool {
    s.media matches Some(m) && m.state is Playing
}

/// A pause that a user makes on one device is copied: where members play, the first that is
/// seen to be paused leaves all others told to pause, itself told nothing, and the session
/// paused, for two and a half seconds in which nothing is judged. A session that is paused
/// is not paused again.
pub proof fn law_a_users_pause_is_copied(
    s0: SyncSession,
    s1: SyncSession,
    quiet: int,
    last: Seq<(String, Seen)>,
    gone: Seq<(String, i64)>,
    samples: Seq<Sample>,
    now: i64,
    wall: int,
    j: int,
    i: int,
)
    requires
        !s0.paused,
        now >= quiet,
        nobody_gone(gone, now),
        0 <= j < samples.len(),
        member_paused(samples[j]),
        forall|k: int| 0 <= k < j ==> !member_paused(#[trigger] samples[k]),
        0 <= i < s0.members@.len(),
        session_after(
            verdict(s0, quiet, last, gone, samples, now, wall),
            s0,
            s1,
            estimates(samples, samples.len() as int, wall),
            gone,
            samples,
            now,
        ),
    ensures
        ({
            let es = estimates(samples, samples.len() as int, wall);
            let v = verdict(s0, quiet, last, gone, samples, now, wall);
            let out = told(v, s0, es);
            &&& s1.paused
            &&& s1.status == SyncStatus::Paused
            &&& s1.members == s0.members
            &&& quiet_after(v, quiet, es, now as int) == now + 2_500
            &&& s0.members@[i]@ != samples[j].id@ ==> out.contains((s0.members@[i]@, SyncCmd::Pause))
            &&& forall|k: int|
                0 <= k < out.len() ==> (#[trigger] out[k]).0 != samples[j].id@ && out[k].1 == SyncCmd::Pause
        }),
{
    let es = estimates(samples, samples.len() as int, wall);
    let v = verdict(s0, quiet, last, gone, samples, now, wall);
    lemma_nobody_left(gone, samples, now);
    lemma_first_paused(samples, j, 0);
    law_pausing_is_copied(v, s0, es, i);
    lemma_all_the_same(s0.members@, s0.members@.len() as int, samples[j].id@, SyncCmd::Pause);
}

proof fn lemma_first_paused(samples: Seq<Sample>, j: int, i: int)
    requires
        0 <= i <= j < samples.len(),
        member_paused(samples[j]),
        forall|k: int| 0 <= k < j ==> !member_paused(#[trigger] samples[k]),
    ensures
        first_paused(samples, i) == Some(j),
    decreases j - i,
{
    if i < j {
        assert(!member_paused(samples[i]));
        lemma_first_paused(samples, j, i + 1);
    }
}

proof fn lemma_first_playing(samples: Seq<Sample>, j: int, i: int)
    requires
        0 <= i <= j < samples.len(),
        member_plays(samples[j]),
        forall|k: int| 0 <= k < j ==> !member_plays(#[trigger] samples[k]),
    ensures
        first_playing(samples, i) == Some(j),
    decreases j - i,
{
    if i < j {
        assert(!member_plays(samples[i]));
        lemma_first_playing(samples, j, i + 1);
    }
}

proof fn lemma_all_the_same(members: Seq<String>, n: int, who: Seq<char>, cmd: SyncCmd)
    requires
        0 <= n <= members.len(),
    ensures
        forall|k: int|
            0 <= k < others_told(members, n, who, cmd).len() ==> (#[trigger] others_told(members, n, who, cmd)[k]).1
                == cmd,
    decreases n,
{
    if n > 0 {
        lemma_all_the_same(members, n - 1, who, cmd);
    }
}

/// A resumption that a user makes on one device of a paused session is copied in the same
/// way: all others are told to play, and where they were before is forgotten.
pub proof fn law_a_users_resumption_is_copied(
    s0: SyncSession,
    s1: SyncSession,
    quiet: int,
    last: Seq<(String, Seen)>,
    gone: Seq<(String, i64)>,
    samples: Seq<Sample>,
    now: i64,
    wall: int,
    j: int,
    i: int,
)
    requires
        s0.paused,
        now >= quiet,
        nobody_gone(gone, now),
        0 <= j < samples.len(),
        member_plays(samples[j]),
        forall|k: int| 0 <= k < j ==> !member_plays(#[trigger] samples[k]),
        0 <= i < s0.members@.len(),
        session_after(
            verdict(s0, quiet, last, gone, samples, now, wall),
            s0,
            s1,
            estimates(samples, samples.len() as int, wall),
            gone,
            samples,
            now,
        ),
    ensures
        ({
            let es = estimates(samples, samples.len() as int, wall);
            let v = verdict(s0, quiet, last, gone, samples, now, wall);
            let out = told(v, s0, es);
            &&& !s1.paused
            &&& s1.status == SyncStatus::Playing
            &&& s1.members == s0.members
            &&& quiet_after(v, quiet, es, now as int) == now + 2_500
            &&& s0.members@[i]@ != samples[j].id@ ==> out.contains((s0.members@[i]@, SyncCmd::Play))
            &&& forall|k: int|
                0 <= k < out.len() ==> (#[trigger] out[k]).0 != samples[j].id@ && out[k].1 == SyncCmd::Play
            &&& forall|id: Seq<char>| #[trigger] seen_after(v, last, es, now, id) is None
        }),
{
    let es = estimates(samples, samples.len() as int, wall);
    let v = verdict(s0, quiet, last, gone, samples, now, wall);
    lemma_nobody_left(gone, samples, now);
    lemma_first_playing(samples, j, 0);
    law_pausing_is_copied(v, s0, es, i);
    lemma_all_the_same(s0.members@, s0.members@.len() as int, samples[j].id@, SyncCmd::Play);
}

/// Too soon after commands of our own nobody is told anything and the session goes on as it
/// was, whatever the members seem to do.
pub proof fn law_nothing_is_told_while_it_settles(
    s: SyncSession,
    quiet: int,
    last: Seq<(String, Seen)>,
    gone: Seq<(String, i64)>,
    samples: Seq<Sample>,
    now: i64,
    wall: int,
)
    requires
        now < quiet,
        nobody_gone(gone, now),
    ensures
        ({
            let es = estimates(samples, samples.len() as int, wall);
            let v = verdict(s, quiet, last, gone, samples, now, wall);
            told(v, s, es).len() == 0 && quiet_after(v, quiet, es, now as int) == quiet
        }),
{
    lemma_nobody_left(gone, samples, now);
}

/// A device that has played nothing for more than ten seconds leaves the session; one that
/// plays, is paused or loads stays, and so does one that has just fallen silent. With fewer
/// than two left the session ends.
pub proof fn law_who_leaves(
    gone: Seq<(String, i64)>,
    samples: Seq<Sample>,
    now: i64,
    j: int,
    since: i64,
)
    requires
        0 <= j < samples.len(),
        forall|i: int| 0 <= i < samples.len() && i != j ==> (#[trigger] samples[i]).id@ != samples[j].id@,
    ensures
        samples[j].media matches Some(m) && !(m.state is Idle) ==> !has_left(gone, samples, samples[j].id@, now),
        (samples[j].media matches Some(m) ==> m.state is Idle) && value_of(gone, samples[j].id@) == Some(since)
            ==> has_left(gone, samples, samples[j].id@, now) == (now - since > 10_000),
        value_of(gone, samples[j].id@) is None ==> !has_left(gone, samples, samples[j].id@, now),
{
    lemma_gone_after_one(gone, samples, samples.len() as int, now, j);
}

proof fn lemma_gone_after_one(gone: Seq<(String, i64)>, samples: Seq<Sample>, n: int, now: i64, j: int)
    requires
        0 <= j < samples.len(),
        0 <= n <= samples.len(),
        forall|i: int| 0 <= i < samples.len() && i != j ==> (#[trigger] samples[i]).id@ != samples[j].id@,
    ensures
        gone_after(gone, samples, n, samples[j].id@, now) == (if n <= j {
            value_of(gone, samples[j].id@)
        } else if is_active(samples[j]) {
            None
        } else if value_of(gone, samples[j].id@) is Some {
            value_of(gone, samples[j].id@)
        } else {
            Some(now)
        }),
    decreases n,
{
    if n > 0 {
        lemma_gone_after_one(gone, samples, n - 1, now, j);
        if n - 1 != j {
            assert(samples[n - 1].id@ != samples[j].id@);
        }
    }
}

proof fn lemma_staying(
    members: Seq<String>,
    n: int,
    gone: Seq<(String, i64)>,
    samples: Seq<Sample>,
    now: i64,
    id: Seq<char>,
)
    requires
        0 <= n <= members.len(),
    ensures
        staying(members, n, gone, samples, now).contains(id) == (!has_left(gone, samples, id, now) && exists|i: int|
            0 <= i < n && (#[trigger] members[i])@ == id),
    decreases n,
{
    if n > 0 {
        lemma_staying(members, n - 1, gone, samples, now, id);
        let before = staying(members, n - 1, gone, samples, now);
        if !has_left(gone, samples, members[n - 1]@, now) {
            crate::text::lemma_push_contains(before, members[n - 1]@, id);
            if before.push(members[n - 1]@).contains(id) && id != members[n - 1]@ {
                let at = before.push(members[n - 1]@).index_of(id);
                assert(before[at] == id);
            }
        }
        if id == members[n - 1]@ {
            assert(members[n - 1]@ == id);
            if !has_left(gone, samples, id, now) {
                crate::text::lemma_push_contains(before, id, id);
            }
        }
        if exists|i: int| 0 <= i < n && (#[trigger] members[i])@ == id {
            let i = choose|i: int| 0 <= i < n && (#[trigger] members[i])@ == id;
            if i < n - 1 {
                assert(members[i]@ == id);
            }
        }
    }
}

/// After some have left, exactly those stay that have not, and nobody is told anything.
pub proof fn law_those_that_left_are_dropped(
    s0: SyncSession,
    s1: SyncSession,
    quiet: int,
    last: Seq<(String, Seen)>,
    gone: Seq<(String, i64)>,
    samples: Seq<Sample>,
    now: i64,
    wall: int,
    who: Seq<char>,
    id: Seq<char>,
)
    requires
        has_left(gone, samples, who, now),
        session_after(
            verdict(s0, quiet, last, gone, samples, now, wall),
            s0,
            s1,
            estimates(samples, samples.len() as int, wall),
            gone,
            samples,
            now,
        ),
    ensures
        ({
            let v = verdict(s0, quiet, last, gone, samples, now, wall);
            &&& v is End == (s1.members@.len() < 2)
            &&& told(v, s0, estimates(samples, samples.len() as int, wall)).len() == 0
            &&& texts(s1.members@).contains(id) == (texts(s0.members@).contains(id) && !has_left(gone, samples, id, now))
        }),
{
    lemma_staying(s0.members@, s0.members@.len() as int, gone, samples, now, id);
    let m = texts(s0.members@);
    assert(texts(s1.members@).len() == s1.members@.len());
    if m.contains(id) {
        let i = m.index_of(id);
        assert(m[i] == s0.members@[i]@);
    }
    if exists|i: int| 0 <= i < s0.members@.len() && (#[trigger] s0.members@[i])@ == id {
        let i = choose|i: int| 0 <= i < s0.members@.len() && (#[trigger] s0.members@[i])@ == id;
        assert(m[i] == id);
    }
}

/// A member is ready when it is paused, and one that says it is buffering when it has done so
/// for more than six seconds.
pub proof fn law_when_a_member_is_ready(s: Sample, waited: int)
    ensures
        member_paused(s) ==> is_ready(s, waited),
        s.media matches Some(m) && m.state is Buffering ==> is_ready(s, waited) == (waited > 6_000),
        s.media matches Some(m) && !(m.state is Buffering) && !(m.state is Paused) ==> !is_ready(s, waited),
        s.media is None ==> !is_ready(s, waited),
{
}

/// While a member plays, its position goes on with the clock; in any other state it stays
/// where it was reported.
pub proof fn law_positions_go_on_while_playing(m: SampleMedia, wall: int, more: int)
    requires
        m.position_ms is Some,
        m.position_at is Some,
        wall >= m.position_at->0,
        more >= 0,
    ensures
        m.state is Playing ==> estimate_of(m, wall + more) == Some(estimate_of(m, wall)->0 + more) && estimate_of(
            m,
            m.position_at->0 as int,
        ) == Some(m.position_ms->0 as int),
        !(m.state is Playing) ==> estimate_of(m, wall) == Some(m.position_ms->0 as int),
{
}

/// How long nothing is judged after commands of our own: two and a half seconds after a pause or
/// a resumption, one more after a seek. After a look that told nobody anything that stays as
/// it was.
pub proof fn law_how_long_it_settles(v: Verdict, quiet: int, es: Seq<(Seq<char>, int)>, now: int)
    ensures
        v is PauseAll || v is ResumeAll ==> quiet_after(v, quiet, es, now) == now + 2_500,
        v is Meet ==> quiet_after(v, quiet, es, now) == now + 3_500,
        v is End || v is Leave || v is Wait || v is Settle || v is InStep ==> quiet_after(v, quiet, es, now) == quiet,
{
}

/// Positions that are out of date are forgotten when members are moved, and kept in a pause.
pub proof fn law_what_is_remembered(
    v: Verdict,
    last: Seq<(String, Seen)>,
    es: Seq<(Seq<char>, int)>,
    now: i64,
    id: Seq<char>,
)
    ensures
        v is Meet || v is HoldBack || v is ResumeAll ==> seen_after(v, last, es, now, id) is None,
        v is PauseAll || v is Wait || v is End || v is Leave ==> seen_after(v, last, es, now, id) == value_of(last, id),
{
}

} // verus!
