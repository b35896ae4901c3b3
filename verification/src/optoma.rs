//! Optoma projectors: the commands of their serial line over the network. They
//! answer nothing that can be relied on, so that what was sent is taken to be so.

use vstd::prelude::*;
use vstd::string::*;
use crate::text::{opt, signed_decimal, signed_decimal_text, string_of};
use crate::types::{
    event_model, event_models, no_status, push_event, CoreEvent, DeviceCmd, EventModel, TvModel, TvStatus,
};

verus! {

/// What a projector is taken to be.
#[derive(Clone, Copy, Debug, PartialEq, Eq, Structural)]
pub struct Assumed {
    pub volume: i64,
    pub muted: bool,
    pub online: bool,
}

impl Assumed {
    pub fn new() -> (r: Assumed)
        ensures
            r == (Assumed { volume: 500_000, muted: false, online: false }),
    {
        Assumed { volume: 500_000, muted: false, online: false }
    }
}

/// A level in tenths.
pub open spec fn tenths(level: int) -> int {
    if level < 0 {
        -((50_000 - level) / 100_000)
    } else {
        (level + 50_000) / 100_000
    }
}

pub open spec fn switch(on: bool) -> Seq<char> {
    if on {
        "1\r"@
    } else {
        "0\r"@
    }
}

/// What is sent for a command. There are no controls for playing.
pub open spec fn sent_for(cmd: DeviceCmd) -> Option<Seq<char>> {
    match cmd {
        DeviceCmd::SetVolume(level) => Some("~0081 "@ + signed_decimal(tenths(level as int)) + "\r"@),
        DeviceCmd::SetMuted(m) => Some("~0080 "@ + switch(m)),
        DeviceCmd::Power(on) => Some("~0000 "@ + switch(on)),
        _ => None,
    }
}

fn tenth(level: i64) -> (r: i64)
    ensures
        r == tenths(level as int),
{
    if level < 0 {
        -(((50_000 - level as i128) / 100_000) as i64)
    } else {
        ((level as i128 + 50_000) / 100_000) as i64
    }
}

fn switch_text(on: bool) -> (r: &'static str)
    ensures
        r@ == switch(on),
{
    if on {
        "1\r"
    } else {
        "0\r"
    }
}

/// What is sent for a command, and what the projector is then taken to be.
pub fn command(s: &mut Assumed, cmd: &DeviceCmd) -> (r: Option<String>)
    ensures
        opt(r) == sent_for(*cmd),
        *final(s) == (match *cmd {
            DeviceCmd::SetVolume(level) => Assumed { volume: level, ..*old(s) },
            DeviceCmd::SetMuted(m) => Assumed { muted: m, ..*old(s) },
            _ => *old(s),
        }),
{
    match cmd {
        DeviceCmd::SetVolume(level) => {
            s.volume = *level;
            let n = string_of(signed_decimal_text(tenth(*level)).as_slice());
            Some("~0081 ".to_string().concat(n.as_str()).concat("\r"))
        },
        DeviceCmd::SetMuted(m) => {
            s.muted = *m;
            Some("~0080 ".to_string().concat(switch_text(*m)))
        },
        DeviceCmd::Power(on) => Some("~0000 ".to_string().concat(switch_text(*on))),
        _ => None,
    }
}

/// What is reported once something was sent.
pub fn sent_event(s: &Assumed, id: &str) -> (r: CoreEvent)
    ensures
        event_model(r) == EventModel::Volume(id@, s.volume as int, s.muted),
{
    CoreEvent::VolumeChanged { id: id.to_string(), volume: s.volume, muted: s.muted }
}

/// What is reported of a projector that was tried: a change, and that it can be
/// switched, which is all that is known of it.
pub open spec fn tried(was: bool, reachable: bool, me: Seq<char>) -> Seq<EventModel> {
    if reachable == was {
        Seq::empty()
    } else if reachable {
        seq![
            EventModel::Online(me, true),
            EventModel::Status(me, TvModel { has_power: true, ..no_status() }, Seq::empty()),
        ]
    } else {
        seq![EventModel::Online(me, false)]
    }
}

/// Takes in whether the projector `id` can be reached.
pub fn reached(s: &mut Assumed, id: &str, reachable: bool) -> (out: Vec<CoreEvent>)
    ensures
        *final(s) == (Assumed { online: reachable, ..*old(s) }),
        event_models(out@) == tried(old(s).online, reachable, id@),
{
    let mut out: Vec<CoreEvent> = Vec::new();
    if reachable != s.online {
        s.online = reachable;
        push_event(&mut out, CoreEvent::Online { id: id.to_string(), online: reachable });
        if reachable {
            let mut tv = TvStatus::unknown();
            tv.has_power = true;
            let macs: Vec<String> = Vec::new();
            proof {
                assert(crate::text::texts(macs@) =~= Seq::<Seq<char>>::empty());
            }
            push_event(&mut out, CoreEvent::DeviceStatus { id: id.to_string(), tv, macs });
        }
    }
    proof {
        assert(event_models(out@) =~= tried(old(s).online, reachable, id@));
    }
    out
}

/// What a projector is sent for each command: the volume in tenths, the nearest to the level,
/// and one or zero for muting and for the power.
pub proof fn law_commands_of_a_projector(level: i64, on: bool)
    requires
        0 <= level <= 1_000_000,
    ensures
        sent_for(DeviceCmd::SetVolume(level)) == Some("~0081 "@ + signed_decimal(tenths(level as int)) + "\r"@),
        0 <= tenths(level as int) <= 10,
        -50_000 <= level - 100_000 * tenths(level as int) <= 50_000,
        sent_for(DeviceCmd::SetMuted(on)) == Some(
            "~0080 "@ + (if on {
                "1\r"@
            } else {
                "0\r"@
            }),
        ),
        sent_for(DeviceCmd::Power(on)) == Some(
            "~0000 "@ + (if on {
                "1\r"@
            } else {
                "0\r"@
            }),
        ),
        sent_for(DeviceCmd::Play) is None,
        sent_for(DeviceCmd::Pause) is None,
{
}

/// A projector that is reached or is no longer reached is said to be online or not, once each
/// time that changes.
pub proof fn law_a_projector_comes_and_goes(was: bool, reachable: bool, me: Seq<char>)
    ensures
        was == reachable ==> tried(was, reachable, me).len() == 0,
        was != reachable ==> tried(was, reachable, me).len() > 0 && tried(was, reachable, me)[0] == EventModel::Online(
            me,
            reachable,
        ),
{
}

} // verus!
