//! LG TVs: the conversation over a web socket, and what is sent for each command.

use vstd::prelude::*;
use vstd::string::*;
use crate::json::{
    bool_str, bool_text, closed, is_json, json_bool, json_bool_at, json_int, json_int_at, json_ok, json_text,
    json_text_at, opened, with_field, with_int, with_text, ObjectText,
};
use crate::text::{decimal, decimal_text, opt, str_same, string_of};
use crate::types::{event_model, CoreEvent, DeviceCmd, EventModel};

verus! {

// ---------------------------------------------------------------------------
// Registration
// ---------------------------------------------------------------------------

/// What is asked to be allowed.
pub open spec fn permissions() -> Seq<char> {
    "[\"LAUNCH\",\"CONTROL_AUDIO\",\"CONTROL_PLAYBACK\",\"READ_CURRENT_CHANNEL\",\"READ_RUNNING_APPS\",\"CONTROL_POWER\"]"@
}

/// The first message: what is asked to be allowed and, if there was a conversation
/// before, the key that the TV gave then.
pub open spec fn registration(key: Option<Seq<char>>) -> Seq<char> {
    let manifest = closed(
        with_field(with_int(opened(), "manifestVersion"@, 1), "permissions"@, permissions()),
    );
    let start = match key {
        Some(k) => with_text(opened(), "client-key"@, k),
        None => opened(),
    };
    closed(
        with_text(
            with_field(
                with_text(opened(), "id"@, "register_0"@),
                "payload"@,
                closed(with_field(start, "manifest"@, manifest)),
            ),
            "type"@,
            "register"@,
        ),
    )
}

pub fn register(key: &Option<String>) -> (r: String)
    ensures
        r@ == registration(opt(*key)),
{
    let manifest = ObjectText::new().number("manifestVersion", 1).field(
        "permissions",
        "[\"LAUNCH\",\"CONTROL_AUDIO\",\"CONTROL_PLAYBACK\",\"READ_CURRENT_CHANNEL\",\"READ_RUNNING_APPS\",\"CONTROL_POWER\"]",
    ).done();
    let start = match key {
        Some(k) => ObjectText::new().text("client-key", k.as_str()),
        None => ObjectText::new(),
    };
    let payload = start.field("manifest", manifest.as_str()).done();
    ObjectText::new().text("id", "register_0").field("payload", payload.as_str()).text("type", "register").done()
}

// ---------------------------------------------------------------------------
// What the TV says
// ---------------------------------------------------------------------------

/// A message of the TV.
#[derive(Debug)]
pub enum LgMessage {
    /// The TV lets us in. A key comes with it.
    Registered(Option<String>),
    /// The volume in per cent, and whether it is muted.
    Volume(i64, bool),
    Error,
    Other,
}

pub enum LgModel {
    Registered(Option<Seq<char>>),
    Volume(i64, bool),
    Error,
    Other,
}

pub open spec fn message_model(m: LgMessage) -> LgModel {
    match m {
        LgMessage::Registered(k) => LgModel::Registered(opt(k)),
        LgMessage::Volume(v, m) => LgModel::Volume(v, m),
        LgMessage::Error => LgModel::Error,
        LgMessage::Other => LgModel::Other,
    }
}

/// The volume in a message. It stands in one of two places, by the age of the TV.
pub open spec fn volume_in(doc: Seq<char>) -> Option<i64> {
    match json_int_at(doc, "/payload/volume"@) {
        Some(v) => Some(v),
        None => json_int_at(doc, "/payload/volumeStatus/volume"@),
    }
}

pub open spec fn muted_in(doc: Seq<char>) -> bool {
    match json_bool_at(doc, "/payload/muted"@) {
        Some(b) => b,
        None => json_bool_at(doc, "/payload/volumeStatus/muteStatus"@) == Some(true),
    }
}

/// What a message of the TV says.
pub open spec fn message_in(doc: Seq<char>) -> LgModel {
    let kind = json_text_at(doc, "/type"@);
    if kind == Some("registered"@) {
        LgModel::Registered(json_text_at(doc, "/payload/client-key"@))
    } else if kind == Some("response"@) {
        match volume_in(doc) {
            Some(v) => LgModel::Volume(v, muted_in(doc)),
            None => LgModel::Other,
        }
    } else if kind == Some("error"@) {
        LgModel::Error
    } else {
        LgModel::Other
    }
}

/// Reads a message. One that is no JSON is passed over.
pub fn read_message(doc: &str) -> (r: LgMessage)
    ensures
        message_model(r) == (if is_json(doc@) {
            message_in(doc@)
        } else {
            LgModel::Other
        }),
{
    if !json_ok(doc) {
        return LgMessage::Other;
    }
    match json_text(doc, "/type") {
        None => LgMessage::Other,
        Some(kind) => {
            if str_same(kind.as_str(), "registered") {
                LgMessage::Registered(json_text(doc, "/payload/client-key"))
            } else if str_same(kind.as_str(), "response") {
                let v: Option<i64> = match json_int(doc, "/payload/volume") {
                    Some(v) => Some(v),
                    None => json_int(doc, "/payload/volumeStatus/volume"),
                };
                match v {
                    Some(v) => {
                        let muted: bool = match json_bool(doc, "/payload/muted") {
                            Some(b) => b,
                            None => match json_bool(doc, "/payload/volumeStatus/muteStatus") {
                                Some(b) => b,
                                None => false,
                            },
                        };
                        LgMessage::Volume(v, muted)
                    },
                    None => LgMessage::Other,
                }
            } else if str_same(kind.as_str(), "error") {
                LgMessage::Error
            } else {
                LgMessage::Other
            }
        },
    }
}

/// The state of a conversation.
#[derive(Debug)]
pub struct LgState {
    pub client_key: Option<String>,
    pub registered: bool,
    /// The number of the last request.
    pub req_id: u64,
}

pub struct LgStateModel {
    pub key: Option<Seq<char>>,
    pub registered: bool,
    pub req_id: int,
}

impl LgState {
    pub open spec fn model(self) -> LgStateModel {
        LgStateModel { key: opt(self.client_key), registered: self.registered, req_id: self.req_id as int }
    }

    /// At the start of a conversation.
    pub fn new(client_key: Option<String>) -> (r: LgState)
        ensures
            r.model() == (LgStateModel { key: opt(client_key), registered: false, req_id: 100 }),
    {
        LgState { client_key, registered: false, req_id: 100 }
    }
}

/// What a message leads to.
#[derive(Debug)]
pub struct LgReaction {
    /// The key of the TV, if it is a new one.
    pub new_key: Option<String>,
    pub event: Option<CoreEvent>,
    pub send: Option<String>,
    /// The conversation is over.
    pub ended: bool,
}

pub struct ReactionModel {
    pub new_key: Option<Seq<char>>,
    pub event: Option<EventModel>,
    pub send: Option<Seq<char>>,
    pub ended: bool,
}

pub open spec fn opt_event(e: Option<CoreEvent>) -> Option<EventModel> {
    match e {
        Some(x) => Some(event_model(x)),
        None => None,
    }
}

impl LgReaction {
    pub open spec fn model(self) -> ReactionModel {
        ReactionModel { new_key: opt(self.new_key), event: opt_event(self.event), send: opt(self.send), ended: self.ended }
    }
}

/// The message that asks to be told of each change of the volume.
pub open spec fn subscription(n: int) -> Seq<char> {
    closed(
        with_text(
            with_text(with_text(opened(), "id"@, "vol_"@ + decimal(n)), "type"@, "subscribe"@),
            "uri"@,
            "ssap://audio/getVolume"@,
        ),
    )
}

/// What a message leads to: once the TV lets us in it is online, a new key is kept
/// and the volume is asked for. An error before that ends the conversation.
pub open spec fn reacted(s: LgStateModel, me: Seq<char>, m: LgModel) -> (LgStateModel, ReactionModel) {
    let none = ReactionModel { new_key: None, event: None, send: None, ended: false };
    match m {
        LgModel::Registered(key) => {
            let is_new = key is Some && key != s.key;
            (
                LgStateModel {
                    key: if is_new {
                        key
                    } else {
                        s.key
                    },
                    registered: true,
                    req_id: s.req_id + 1,
                },
                ReactionModel {
                    new_key: if is_new {
                        key
                    } else {
                        None
                    },
                    event: Some(EventModel::Online(me, true)),
                    send: Some(subscription(s.req_id + 1)),
                    ended: false,
                },
            )
        },
        LgModel::Volume(v, muted) => (
            s,
            ReactionModel { event: Some(EventModel::Volume(me, crate::lg::level_of(v), muted)), ..none },
        ),
        LgModel::Error => (s, ReactionModel { ended: !s.registered, ..none }),
        LgModel::Other => (s, none),
    }
}

/// The level of a volume in per cent, as far as 64 bits reach.
pub open spec fn level_of(v: i64) -> int {
    if 10_000 * v > i64::MAX {
        i64::MAX as int
    } else if 10_000 * v < i64::MIN {
        i64::MIN as int
    } else {
        10_000 * v
    }
}

fn level(v: i64) -> (r: i64)
    ensures
        r == level_of(v),
{
    let l: i128 = 10_000 * v as i128;
    if l > i64::MAX as i128 {
        i64::MAX
    } else if l < i64::MIN as i128 {
        i64::MIN
    } else {
        l as i64
    }
}

/// Takes in a message of the TV `id`.
pub fn react(s: &mut LgState, id: &str, m: LgMessage) -> (r: LgReaction)
    requires
        old(s).req_id < u64::MAX,
    ensures
        final(s).model() == reacted(old(s).model(), id@, message_model(m)).0,
        r.model() == reacted(old(s).model(), id@, message_model(m)).1,
{
    match m {
        LgMessage::Registered(key) => {
            s.registered = true;
            let mut new_key: Option<String> = None;
            match key {
                Some(k) => {
                    let same: bool = match &s.client_key {
                        Some(old) => str_same(old.as_str(), k.as_str()),
                        None => false,
                    };
                    if !same {
                        s.client_key = Some(k.clone());
                        new_key = Some(k);
                    }
                },
                None => {},
            }
            s.req_id = s.req_id + 1;
            let n = string_of(decimal_text(s.req_id).as_slice());
            let name = "vol_".to_string().concat(n.as_str());
            let send = ObjectText::new().text("id", name.as_str()).text("type", "subscribe").text(
                "uri",
                "ssap://audio/getVolume",
            ).done();
            LgReaction {
                new_key,
                event: Some(CoreEvent::Online { id: id.to_string(), online: true }),
                send: Some(send),
                ended: false,
            }
        },
        LgMessage::Volume(v, muted) => LgReaction {
            new_key: None,
            event: Some(CoreEvent::VolumeChanged { id: id.to_string(), volume: level(v), muted }),
            send: None,
            ended: false,
        },
        LgMessage::Error => LgReaction { new_key: None, event: None, send: None, ended: !s.registered },
        LgMessage::Other => LgReaction { new_key: None, event: None, send: None, ended: false },
    }
}

// ---------------------------------------------------------------------------
// Commands
// ---------------------------------------------------------------------------

/// A level as whole per cent.
pub open spec fn whole_percent(level: int) -> int {
    if level < 0 {
        -((5_000 - level) / 10_000)
    } else {
        (level + 5_000) / 10_000
    }
}

fn percent_number(level: i64) -> (r: i64)
    ensures
        r == whole_percent(level as int),
{
    if level < 0 {
        -(((5_000 - level as i128) / 10_000) as i64)
    } else {
        ((level as i128 + 5_000) / 10_000) as i64
    }
}

/// What a command asks of the TV: where it goes, and what goes with it. Commands
/// that the TV does not know ask nothing.
pub open spec fn asked(cmd: DeviceCmd) -> Option<(Seq<char>, Seq<char>)> {
    match cmd {
        DeviceCmd::SetVolume(level) => Some(
            ("ssap://audio/setVolume"@, closed(with_int(opened(), "volume"@, whole_percent(level as int)))),
        ),
        DeviceCmd::SetMuted(m) => Some(
            ("ssap://audio/setMute"@, closed(with_field(opened(), "mute"@, bool_text(m)))),
        ),
        DeviceCmd::Play => Some(("ssap://media.controls/play"@, closed(opened()))),
        DeviceCmd::Pause => Some(("ssap://media.controls/pause"@, closed(opened()))),
        DeviceCmd::Next => Some(("ssap://media.controls/fastForward"@, closed(opened()))),
        DeviceCmd::Prev => Some(("ssap://media.controls/rewind"@, closed(opened()))),
        DeviceCmd::Refresh => Some(("ssap://audio/getVolume"@, closed(opened()))),
        _ => None,
    }
}

/// The message for a command, by the number of the request.
pub open spec fn command_message(cmd: DeviceCmd, n: int) -> Option<Seq<char>> {
    match asked(cmd) {
        Some((uri, payload)) => Some(
            closed(
                with_text(
                    with_text(
                        with_field(with_text(opened(), "id"@, "req_"@ + decimal(n)), "payload"@, payload),
                        "type"@,
                        "request"@,
                    ),
                    "uri"@,
                    uri,
                ),
            ),
        ),
        None => None,
    }
}

fn ask(cmd: &DeviceCmd) -> (r: Option<(&'static str, String)>)
    ensures
        match r {
            Some((uri, payload)) => asked(*cmd) == Some((uri@, payload@)),
            None => asked(*cmd) is None,
        },
{
    match cmd {
        DeviceCmd::SetVolume(level) => Some(
            ("ssap://audio/setVolume", ObjectText::new().number("volume", percent_number(*level)).done()),
        ),
        DeviceCmd::SetMuted(m) => Some(
            ("ssap://audio/setMute", ObjectText::new().field("mute", bool_str(*m)).done()),
        ),
        DeviceCmd::Play => Some(("ssap://media.controls/play", ObjectText::new().done())),
        DeviceCmd::Pause => Some(("ssap://media.controls/pause", ObjectText::new().done())),
        DeviceCmd::Next => Some(("ssap://media.controls/fastForward", ObjectText::new().done())),
        DeviceCmd::Prev => Some(("ssap://media.controls/rewind", ObjectText::new().done())),
        DeviceCmd::Refresh => Some(("ssap://audio/getVolume", ObjectText::new().done())),
        _ => None,
    }
}

/// What is sent for a command. Before the TV has let us in commands are dropped.
pub fn command(s: &mut LgState, cmd: &DeviceCmd) -> (r: Option<String>)
    requires
        old(s).req_id < u64::MAX,
    ensures
        final(s).client_key == old(s).client_key,
        final(s).registered == old(s).registered,
        final(s).req_id == (if old(s).registered && asked(*cmd) is Some {
            old(s).req_id + 1
        } else {
            old(s).req_id as int
        }),
        opt(r) == (if old(s).registered {
            command_message(*cmd, old(s).req_id + 1)
        } else {
            None
        }),
{
    if !s.registered {
        return None;
    }
    match ask(cmd) {
        Some((uri, payload)) => {
            s.req_id = s.req_id + 1;
            let n = string_of(decimal_text(s.req_id).as_slice());
            let name = "req_".to_string().concat(n.as_str());
            Some(
                ObjectText::new().text("id", name.as_str()).field("payload", payload.as_str()).text(
                    "type",
                    "request",
                ).text("uri", uri).done(),
            )
        },
        None => None,
    }
}

/// A TV that has let us in keeps doing so: no message ends the conversation any
/// more.
pub proof fn law_registered_stays(s: LgStateModel, me: Seq<char>, m: LgModel)
    requires
        s.registered,
    ensures
        reacted(s, me, m).0.registered,
        !reacted(s, me, m).1.ended,
{
}

/// What an LG TV is asked for each command: by the address of the service, and with the
/// volume in whole per cent, the nearest to the level.
pub proof fn law_commands_of_an_lg(level: i64, muted: bool)
    requires
        0 <= level <= 1_000_000,
    ensures
        asked(DeviceCmd::SetVolume(level)) == Some(
            ("ssap://audio/setVolume"@, closed(with_int(opened(), "volume"@, whole_percent(level as int)))),
        ),
        -5_000 <= level - 10_000 * whole_percent(level as int) <= 5_000,
        asked(DeviceCmd::SetMuted(muted)) == Some(
            (
                "ssap://audio/setMute"@,
                closed(
                    with_field(
                        opened(),
                        "mute"@,
                        if muted {
                            "true"@
                        } else {
                            "false"@
                        },
                    ),
                ),
            ),
        ),
        asked(DeviceCmd::Play) == Some(("ssap://media.controls/play"@, closed(opened()))),
        asked(DeviceCmd::Pause) == Some(("ssap://media.controls/pause"@, closed(opened()))),
        asked(DeviceCmd::Next) == Some(("ssap://media.controls/fastForward"@, closed(opened()))),
        asked(DeviceCmd::Prev) == Some(("ssap://media.controls/rewind"@, closed(opened()))),
        asked(DeviceCmd::Refresh) == Some(("ssap://audio/getVolume"@, closed(opened()))),
        asked(DeviceCmd::StopCasting) is None,
{
}

/// A request names its number, what is handed over and the service it is for.
pub proof fn law_a_request_names_its_service(cmd: DeviceCmd, n: int)
    ensures
        asked(cmd) is None ==> command_message(cmd, n) is None,
        asked(cmd) matches Some((uri, payload)) ==> command_message(cmd, n) == Some(
            closed(
                with_text(
                    with_text(
                        with_field(with_text(opened(), "id"@, "req_"@ + decimal(n)), "payload"@, payload),
                        "type"@,
                        "request"@,
                    ),
                    "uri"@,
                    uri,
                ),
            ),
        ),
{
}

/// A TV that has registered us is online and asked to report its volume; a key that it gives
/// out and that is not known yet is kept and passed on. A volume that it reports in per cent
/// is passed on as a level. An error ends the connection only before the registration.
pub proof fn law_what_an_lg_says(s: LgStateModel, me: Seq<char>, key: Seq<char>, v: i64, muted: bool)
    requires
        0 <= v <= 100,
    ensures
        ({
            let (s1, r) = reacted(s, me, LgModel::Registered(Some(key)));
            &&& s1.registered && s1.key == Some(key) && s1.req_id == s.req_id + 1
            &&& r.event == Some(EventModel::Online(me, true)) && r.send is Some && !r.ended
            &&& r.new_key == (if s.key == Some(key) {
                None
            } else {
                Some(key)
            })
        }),
        reacted(s, me, LgModel::Registered(None)).0.key == s.key,
        reacted(s, me, LgModel::Volume(v, muted)).1.event == Some(EventModel::Volume(me, 10_000 * v, muted)),
        reacted(s, me, LgModel::Volume(v, muted)).0 == s,
        reacted(s, me, LgModel::Error).1.ended == !s.registered,
{
}

/// What a message of an LG TV says: that we are registered, with a key or without; a volume,
/// in either of two places, and whether it is muted; or an error. Anything else says nothing.
pub proof fn law_messages_of_an_lg(doc: Seq<char>, v: i64)
    ensures
        json_text_at(doc, "/type"@) == Some("registered"@) ==> message_in(doc) == LgModel::Registered(
            json_text_at(doc, "/payload/client-key"@),
        ),
        json_text_at(doc, "/type"@) == Some("response"@) && json_int_at(doc, "/payload/volume"@) == Some(v) ==> (
        message_in(doc) matches LgModel::Volume(x, m) && x == v && (json_bool_at(doc, "/payload/muted"@) matches Some(b)
            ==> m == b)),
        json_text_at(doc, "/type"@) == Some("response"@) && json_int_at(doc, "/payload/volume"@) is None && json_int_at(
            doc,
            "/payload/volumeStatus/volume"@,
        ) == Some(v) ==> (message_in(doc) matches LgModel::Volume(x, m) && x == v),
        json_text_at(doc, "/type"@) == Some("error"@) ==> message_in(doc) is Error,
{
    reveal_strlit("registered");
    reveal_strlit("response");
    reveal_strlit("error");
    assert("registered"@.len() == 10 && "response"@.len() == 8 && "error"@.len() == 5);
}

} // verus!
