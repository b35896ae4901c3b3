//! The conversation with a Cast device: what is sent for each command, and what a
//! message of the device leads to.
//!
//! A connection starts with a greeting. The device then reports its volume and the
//! app it runs; when an app that plays media starts, a second conversation with
//! that app is opened. Pictures are shown one after another.

use vstd::prelude::*;
use vstd::string::*;
use crate::json::{
    bool_str, bool_text, closed, entry, entry_of, filled_text, filled_text_at, fraction, fraction_text, is_empty,
    is_json, is_positive, json_bool, json_bool_at, json_int, json_int_at, json_list, json_list_at, json_number,
    json_number_at, json_object, json_object_at, json_ok, json_text, json_text_at, level_in, list_of, list_text,
    opened, part, part_of, read_level, read_positive, read_units, units_in, with_field, with_int, with_text,
    ObjectText,
};
use crate::proto::{NS_CONNECTION, NS_HEARTBEAT, NS_MEDIA, NS_MULTIZONE, NS_RECEIVER};
use crate::registry::{normal_id, normalize_id};
use crate::text::{chars_of, copy_opt, opt, str_same, string_of, texts};
use crate::registry::{is_session, law_what_plays_is_a_session};
use crate::types::{
    event_model, is_playing, item_model, item_models, opt_media, state_named, CastItem, CoreEvent, DeviceCmd,
    DeviceInfo, EventModel, ItemModel, MediaInfo, MediaModel, PlayState,
};

verus! {

/// How long each picture stays up.
pub const SLIDE_INTERVAL_MS: i64 = 8000;

/// The app of Google's that plays an address on any Cast device.
pub const DEFAULT_MEDIA_RECEIVER: &'static str = "CC1AD845";

/// A device that says nothing for longer than this is gone.
pub const SILENCE_MS: i64 = 30_000;

// ---------------------------------------------------------------------------
// The state of a connection
// ---------------------------------------------------------------------------

/// What is known of the piece that plays.
#[derive(Debug)]
pub struct Track {
    pub title: Option<String>,
    pub artist: Option<String>,
    pub album: Option<String>,
    pub image: Option<String>,
    pub duration_ms: Option<u64>,
    /// Its address, and what it is.
    pub content_id: Option<String>,
    pub content_type: Option<String>,
}

pub struct TrackModel {
    pub title: Option<Seq<char>>,
    pub artist: Option<Seq<char>>,
    pub album: Option<Seq<char>>,
    pub image: Option<Seq<char>>,
    pub duration_ms: Option<u64>,
    pub content_id: Option<Seq<char>>,
    pub content_type: Option<Seq<char>>,
}

pub open spec fn track_model(t: Track) -> TrackModel {
    TrackModel {
        title: opt(t.title),
        artist: opt(t.artist),
        album: opt(t.album),
        image: opt(t.image),
        duration_ms: t.duration_ms,
        content_id: opt(t.content_id),
        content_type: opt(t.content_type),
    }
}

pub open spec fn no_track() -> TrackModel {
    TrackModel {
        title: None,
        artist: None,
        album: None,
        image: None,
        duration_ms: None,
        content_id: None,
        content_type: None,
    }
}

impl Track {
    pub fn none() -> (r: Track)
        ensures
            track_model(r) == no_track(),
    {
        Track {
            title: None,
            artist: None,
            album: None,
            image: None,
            duration_ms: None,
            content_id: None,
            content_type: None,
        }
    }
}

/// Pictures that are shown one after another.
#[derive(Debug)]
pub struct Slideshow {
    pub items: Vec<CastItem>,
    pub idx: usize,
}

/// The state of a connection.
#[derive(Debug)]
pub struct SessionState {
    pub media_transport_id: Option<String>,
    pub media_session_id: Option<i64>,
    pub app_name: Option<String>,
    pub track: Track,
    /// What is played as soon as the app runs.
    pub pending_cast: Option<Vec<CastItem>>,
    pub slideshow: Option<Slideshow>,
    /// When the next picture is shown, in milliseconds.
    pub next_slide: i64,
}

pub struct SessionModel {
    pub transport: Option<Seq<char>>,
    pub session: Option<i64>,
    pub app: Option<Seq<char>>,
    pub track: TrackModel,
    pub pending: Option<Seq<ItemModel>>,
    pub slideshow: Option<(Seq<ItemModel>, int)>,
    pub next_slide: int,
}

pub open spec fn pending_model(p: Option<Vec<CastItem>>) -> Option<Seq<ItemModel>> {
    match p {
        Some(v) => Some(item_models(v@)),
        None => None,
    }
}

pub open spec fn show_model(s: Option<Slideshow>) -> Option<(Seq<ItemModel>, int)> {
    match s {
        Some(x) => Some((item_models(x.items@), x.idx as int)),
        None => None,
    }
}

impl SessionState {
    pub open spec fn model(self) -> SessionModel {
        SessionModel {
            transport: opt(self.media_transport_id),
            session: self.media_session_id,
            app: opt(self.app_name),
            track: track_model(self.track),
            pending: pending_model(self.pending_cast),
            slideshow: show_model(self.slideshow),
            next_slide: self.next_slide as int,
        }
    }

    /// A picture is shown of those that there are.
    pub open spec fn wf(self) -> bool {
        self.slideshow matches Some(s) ==> s.idx < s.items@.len()
    }

    pub fn new(now: i64) -> (r: SessionState)
        ensures
            r.model() == (SessionModel {
                transport: None,
                session: None,
                app: None,
                track: no_track(),
                pending: None,
                slideshow: None,
                next_slide: now as int,
            }),
            r.wf(),
    {
        SessionState {
            media_transport_id: None,
            media_session_id: None,
            app_name: None,
            track: Track::none(),
            pending_cast: None,
            slideshow: None,
            next_slide: now,
        }
    }
}

/// What is done: a message that is sent, or an event that is passed on.
#[derive(Debug)]
pub enum CastOut {
    Send { dest: String, namespace: String, payload: String },
    Event(CoreEvent),
}

pub enum OutModel {
    Send(Seq<char>, Seq<char>, Seq<char>),
    Event(EventModel),
}

pub open spec fn out_model(o: CastOut) -> OutModel {
    match o {
        CastOut::Send { dest, namespace, payload } => OutModel::Send(dest@, namespace@, payload@),
        CastOut::Event(e) => OutModel::Event(event_model(e)),
    }
}

pub open spec fn out_models(v: Seq<CastOut>) -> Seq<OutModel> {
    v.map_values(|o: CastOut| out_model(o))
}

fn push_out(out: &mut Vec<CastOut>, o: CastOut)
    ensures
        out_models(final(out)@) == out_models(old(out)@).push(out_model(o)),
{
    out.push(o);
    proof {
        assert(out_models(out@) =~= out_models(old(out)@).push(out_model(o)));
    }
}

fn no_out() -> (out: Vec<CastOut>)
    ensures
        out_models(out@) == Seq::<OutModel>::empty(),
{
    let out: Vec<CastOut> = Vec::new();
    proof {
        assert(out_models(out@) =~= Seq::<OutModel>::empty());
    }
    out
}

fn one_out(dest: &str, namespace: &str, payload: String) -> (out: Vec<CastOut>)
    ensures
        out_models(out@) == seq![OutModel::Send(dest@, namespace@, payload@)],
{
    let mut out = no_out();
    push_out(&mut out, CastOut::Send { dest: dest.to_string(), namespace: namespace.to_string(), payload });
    proof {
        assert(out_models(out@) =~= seq![OutModel::Send(dest@, namespace@, payload@)]);
    }
    out
}

// ---------------------------------------------------------------------------
// Messages to the device
// ---------------------------------------------------------------------------

/// The number of the request after one.
pub open spec fn after_id(n: int) -> int {
    if n == i32::MAX {
        i32::MIN as int
    } else {
        n + 1
    }
}

/// Takes the number of the next request.
pub fn next_req_id(ids: &mut i32) -> (r: i32)
    ensures
        r == *old(ids),
        *final(ids) == after_id(*old(ids) as int),
{
    let n: i32 = *ids;
    *ids = if n == i32::MAX {
        i32::MIN
    } else {
        n + 1
    };
    n
}

/// A message of nothing but its type.
pub open spec fn plain(kind: Seq<char>) -> Seq<char> {
    closed(with_text(opened(), "type"@, kind))
}

fn plain_msg(kind: &str) -> (r: String)
    ensures
        r@ == plain(kind@),
{
    ObjectText::new().text("type", kind).done()
}

/// A request of nothing but its type.
pub open spec fn request(kind: Seq<char>, id: int) -> Seq<char> {
    closed(with_text(with_int(opened(), "requestId"@, id), "type"@, kind))
}

fn request_msg(kind: &str, ids: &mut i32) -> (r: String)
    ensures
        r@ == request(kind@, *old(ids) as int),
        *final(ids) == after_id(*old(ids) as int),
{
    let n: i32 = next_req_id(ids);
    ObjectText::new().number("requestId", n as i64).text("type", kind).done()
}

/// A request about what is played.
pub open spec fn media_request(kind: Seq<char>, id: int, session: int) -> Seq<char> {
    closed(with_text(with_int(with_int(opened(), "mediaSessionId"@, session), "requestId"@, id), "type"@, kind))
}

fn media_request_msg(kind: &str, session: i64, ids: &mut i32) -> (r: String)
    ensures
        r@ == media_request(kind@, *old(ids) as int, session as int),
        *final(ids) == after_id(*old(ids) as int),
{
    let n: i32 = next_req_id(ids);
    ObjectText::new().number("mediaSessionId", session).number("requestId", n as i64).text("type", kind).done()
}

/// A request to go on by so many pieces.
pub open spec fn jump_request(jump: int, id: int, session: int) -> Seq<char> {
    closed(
        with_text(
            with_int(with_int(with_int(opened(), "jump"@, jump), "mediaSessionId"@, session), "requestId"@, id),
            "type"@,
            "QUEUE_UPDATE"@,
        ),
    )
}

fn jump_msg(jump: i64, session: i64, ids: &mut i32) -> (r: String)
    ensures
        r@ == jump_request(jump as int, *old(ids) as int, session as int),
        *final(ids) == after_id(*old(ids) as int),
{
    let n: i32 = next_req_id(ids);
    ObjectText::new().number("jump", jump).number("mediaSessionId", session).number("requestId", n as i64).text(
        "type",
        "QUEUE_UPDATE",
    ).done()
}

/// A request to move to a position, which is given in seconds.
pub open spec fn seek_request(ms: int, id: int, session: int) -> Seq<char> {
    closed(
        with_text(
            with_int(
                with_int(with_field(opened(), "currentTime"@, fraction(ms, 3)), "mediaSessionId"@, session),
                "requestId"@,
                id,
            ),
            "type"@,
            "SEEK"@,
        ),
    )
}

fn seek_msg(ms: u64, session: i64, ids: &mut i32) -> (r: String)
    ensures
        r@ == seek_request(ms as int, *old(ids) as int, session as int),
        *final(ids) == after_id(*old(ids) as int),
{
    let n: i32 = next_req_id(ids);
    let t = string_of(fraction_text(ms, 3).as_slice());
    ObjectText::new().field("currentTime", t.as_str()).number("mediaSessionId", session).number(
        "requestId",
        n as i64,
    ).text("type", "SEEK").done()
}

/// A level in decimal.
pub open spec fn level_text(level: int) -> Seq<char> {
    if level < 0 {
        "-"@ + fraction(-level, 6)
    } else {
        fraction(level, 6)
    }
}

fn level_str(level: i64) -> (r: String)
    ensures
        r@ == level_text(level as int),
{
    if level < 0 {
        let m: i128 = -(level as i128);
        let t = string_of(fraction_text(m as u64, 6).as_slice());
        "-".to_string().concat(t.as_str())
    } else {
        string_of(fraction_text(level as u64, 6).as_slice())
    }
}

/// A request to change one thing of the volume.
pub open spec fn volume_request(key: Seq<char>, value: Seq<char>, id: int) -> Seq<char> {
    closed(
        with_field(
            with_text(with_int(opened(), "requestId"@, id), "type"@, "SET_VOLUME"@),
            "volume"@,
            closed(with_field(opened(), key, value)),
        ),
    )
}

fn volume_msg(key: &str, value: &str, ids: &mut i32) -> (r: String)
    ensures
        r@ == volume_request(key@, value@, *old(ids) as int),
        *final(ids) == after_id(*old(ids) as int),
{
    let n: i32 = next_req_id(ids);
    let v = ObjectText::new().field(key, value).done();
    ObjectText::new().number("requestId", n as i64).text("type", "SET_VOLUME").field("volume", v.as_str()).done()
}

/// A request to start an app.
pub open spec fn launch_request(app: Seq<char>, id: int) -> Seq<char> {
    closed(with_text(with_int(with_text(opened(), "appId"@, app), "requestId"@, id), "type"@, "LAUNCH"@))
}

fn launch_msg(app: &str, ids: &mut i32) -> (r: String)
    ensures
        r@ == launch_request(app@, *old(ids) as int),
        *final(ids) == after_id(*old(ids) as int),
{
    let n: i32 = next_req_id(ids);
    ObjectText::new().text("appId", app).number("requestId", n as i64).text("type", "LAUNCH").done()
}

/// The kind of metadata: 4 for a picture, 3 for music, 0 for anything else.
pub open spec fn metadata_kind(it: ItemModel) -> int {
    if it.is_image() {
        4
    } else if crate::text::starts(it.content_type, "audio/"@) {
        3
    } else {
        0
    }
}

/// Something to be played, as the device is told. A picture has no stream.
pub open spec fn media_fields(it: ItemModel) -> Seq<char> {
    with_text(
        with_field(
            with_text(
                with_text(with_text(opened(), "contentId"@, it.url), "contentType"@, it.content_type),
                "contentUrl"@,
                it.url,
            ),
            "metadata"@,
            closed(with_text(with_int(opened(), "metadataType"@, metadata_kind(it)), "title"@, it.title)),
        ),
        "streamType"@,
        if it.is_image() {
            "NONE"@
        } else {
            "BUFFERED"@
        },
    )
}

fn media_object(it: &CastItem) -> (r: ObjectText)
    ensures
        r.text@ == media_fields(item_model(*it)),
{
    let image: bool = it.is_image();
    let kind: i64 = if image {
        4
    } else if crate::text::starts_with(it.content_type.as_str(), "audio/") {
        3
    } else {
        0
    };
    let meta = ObjectText::new().number("metadataType", kind).text("title", it.title.as_str()).done();
    ObjectText::new().text("contentId", it.url.as_str()).text("contentType", it.content_type.as_str()).text(
        "contentUrl",
        it.url.as_str(),
    ).field("metadata", meta.as_str()).text(
        "streamType",
        if image {
            "NONE"
        } else {
            "BUFFERED"
        },
    )
}

/// Subtitles, as the device is told.
pub open spec fn subtitle_track(url: Seq<char>) -> Seq<char> {
    closed(
        with_text(
            with_int(
                with_text(
                    with_text(
                        with_text(
                            with_text(with_text(opened(), "language"@, "en-US"@), "name"@, "Subtitles"@),
                            "subtype"@,
                            "SUBTITLES"@,
                        ),
                        "trackContentId"@,
                        url,
                    ),
                    "trackContentType"@,
                    "text/vtt"@,
                ),
                "trackId"@,
                1,
            ),
            "type"@,
            "TEXT"@,
        ),
    )
}

/// An entry of a playlist, as the device is told.
pub open spec fn queue_item(it: ItemModel) -> Seq<char> {
    match it.subtitles {
        Some(sub) => closed(
            with_int(
                with_field(
                    with_field(
                        with_field(opened(), "activeTrackIds"@, "[1]"@),
                        "autoplay"@,
                        bool_text(it.autoplay),
                    ),
                    "media"@,
                    closed(with_field(media_fields(it), "tracks"@, list_of(seq![subtitle_track(sub)]))),
                ),
                "preloadTime"@,
                10,
            ),
        ),
        None => closed(
            with_int(
                with_field(
                    with_field(opened(), "autoplay"@, bool_text(it.autoplay)),
                    "media"@,
                    closed(media_fields(it)),
                ),
                "preloadTime"@,
                10,
            ),
        ),
    }
}

fn queue_item_text(it: &CastItem) -> (r: String)
    ensures
        r@ == queue_item(item_model(*it)),
{
    let media = media_object(it);
    match &it.subtitles {
        Some(sub) => {
            let track = ObjectText::new().text("language", "en-US").text("name", "Subtitles").text(
                "subtype",
                "SUBTITLES",
            ).text("trackContentId", sub.as_str()).text("trackContentType", "text/vtt").number("trackId", 1).text(
                "type",
                "TEXT",
            ).done();
            let mut tracks: Vec<String> = Vec::new();
            tracks.push(track);
            proof {
                assert(texts(tracks@) =~= seq![subtitle_track(sub@)]);
            }
            let list = list_text(&tracks);
            let media = media.field("tracks", list.as_str()).done();
            ObjectText::new().field("activeTrackIds", "[1]").field("autoplay", bool_str(it.autoplay)).field(
                "media",
                media.as_str(),
            ).number("preloadTime", 10).done()
        },
        None => {
            let media = media.done();
            ObjectText::new().field("autoplay", bool_str(it.autoplay)).field("media", media.as_str()).number(
                "preloadTime",
                10,
            ).done()
        },
    }
}

pub open spec fn queue_items(items: Seq<ItemModel>) -> Seq<Seq<char>> {
    items.map_values(|it: ItemModel| queue_item(it))
}

/// A playlist, as the device is told.
pub open spec fn queue_request(items: Seq<ItemModel>, id: int) -> Seq<char> {
    closed(
        with_text(
            with_int(
                with_int(
                    with_text(
                        with_field(opened(), "items"@, list_of(queue_items(items))),
                        "repeatMode"@,
                        "REPEAT_OFF"@,
                    ),
                    "requestId"@,
                    id,
                ),
                "startIndex"@,
                0,
            ),
            "type"@,
            "QUEUE_LOAD"@,
        ),
    )
}

/// A playlist with its subtitles.
pub fn queue_load(items: &Vec<CastItem>, ids: &mut i32) -> (r: String)
    ensures
        r@ == queue_request(item_models(items@), *old(ids) as int),
        *final(ids) == after_id(*old(ids) as int),
{
    let mut list: Vec<String> = Vec::new();
    let mut i: usize = 0;
    while i < items.len()
        invariant
            i <= items@.len(),
            texts(list@) =~= queue_items(item_models(items@)).take(i as int),
        decreases items@.len() - i,
    {
        let ghost before = texts(list@);
        list.push(queue_item_text(&items[i]));
        proof {
            assert(item_models(items@)[i as int] == item_model(items@[i as int]));
            assert(texts(list@) =~= before.push(queue_item(item_model(items@[i as int]))));
        }
        i = i + 1;
    }
    proof {
        assert(texts(list@) =~= queue_items(item_models(items@)));
    }
    let n: i32 = next_req_id(ids);
    let l = list_text(&list);
    ObjectText::new().field("items", l.as_str()).text("repeatMode", "REPEAT_OFF").number("requestId", n as i64).number(
        "startIndex",
        0,
    ).text("type", "QUEUE_LOAD").done()
}

/// One item, as the device is told.
pub open spec fn load_request(it: ItemModel, id: int) -> Seq<char> {
    closed(
        with_text(
            with_int(
                with_field(with_field(opened(), "autoplay"@, "true"@), "media"@, closed(media_fields(it))),
                "requestId"@,
                id,
            ),
            "type"@,
            "LOAD"@,
        ),
    )
}

/// One item, for the next picture.
pub fn load_one(it: &CastItem, ids: &mut i32) -> (r: String)
    ensures
        r@ == load_request(item_model(*it), *old(ids) as int),
        *final(ids) == after_id(*old(ids) as int),
{
    let n: i32 = next_req_id(ids);
    let m = media_object(it).done();
    ObjectText::new().field("autoplay", "true").field("media", m.as_str()).number("requestId", n as i64).text(
        "type",
        "LOAD",
    ).done()
}

/// The messages with which a connection starts. A group is asked for its speakers.
pub open spec fn greetings(is_group: bool, id: int) -> Seq<OutModel> {
    let first = seq![
        OutModel::Send("receiver-0"@, NS_CONNECTION@, plain("CONNECT"@)),
        OutModel::Send("receiver-0"@, NS_RECEIVER@, request("GET_STATUS"@, id)),
    ];
    if is_group {
        first.push(OutModel::Send("receiver-0"@, NS_MULTIZONE@, request("GET_STATUS"@, after_id(id))))
    } else {
        first
    }
}

pub fn greet(is_group: bool, ids: &mut i32) -> (out: Vec<CastOut>)
    ensures
        out_models(out@) == greetings(is_group, *old(ids) as int),
        *final(ids) == (if is_group {
            after_id(after_id(*old(ids) as int))
        } else {
            after_id(*old(ids) as int)
        }),
{
    let mut out = one_out("receiver-0", NS_CONNECTION, plain_msg("CONNECT"));
    let m = request_msg("GET_STATUS", ids);
    push_out(
        &mut out,
        CastOut::Send { dest: "receiver-0".to_string(), namespace: NS_RECEIVER.to_string(), payload: m },
    );
    if is_group {
        let m = request_msg("GET_STATUS", ids);
        push_out(
            &mut out,
            CastOut::Send { dest: "receiver-0".to_string(), namespace: NS_MULTIZONE.to_string(), payload: m },
        );
    }
    proof {
        assert(out_models(out@) =~= greetings(is_group, *old(ids) as int));
    }
    out
}

/// What is sent every five seconds, if the device was heard of in the last thirty.
pub fn heartbeat(last_heard: i64, now: i64) -> (r: Option<CastOut>)
    ensures
        match r {
            Some(o) => now - last_heard <= SILENCE_MS && out_model(o) == OutModel::Send(
                "receiver-0"@,
                NS_HEARTBEAT@,
                plain("PING"@),
            ),
            None => now - last_heard > SILENCE_MS,
        },
{
    if now as i128 - last_heard as i128 > SILENCE_MS as i128 {
        None
    } else {
        Some(
            CastOut::Send {
                dest: "receiver-0".to_string(),
                namespace: NS_HEARTBEAT.to_string(),
                payload: plain_msg("PING"),
            },
        )
    }
}

/// How long to wait before the next attempt after one that took `wait` seconds.
pub fn next_wait(wait: u64, most: u64) -> (r: u64)
    ensures
        r == (if 2 * wait < most {
            2 * wait
        } else {
            most as int
        }),
{
    if wait as u128 * 2 < most as u128 {
        2 * wait
    } else {
        most
    }
}

// ---------------------------------------------------------------------------
// Commands
// ---------------------------------------------------------------------------

/// A state, the number of the next request, and what is done.
pub struct Outcome {
    pub state: SessionModel,
    pub ids: int,
    pub out: Seq<OutModel>,
}

pub open spec fn sent(s: SessionModel, id: int, dest: Seq<char>, namespace: Seq<char>, payload: Seq<char>) -> Outcome {
    Outcome { state: s, ids: after_id(id), out: seq![OutModel::Send(dest, namespace, payload)] }
}

pub open spec fn nothing(s: SessionModel, id: int) -> Outcome {
    Outcome { state: s, ids: id, out: Seq::empty() }
}

/// Whether something is a row of pictures.
pub open spec fn is_show(items: Seq<ItemModel>) -> bool {
    items.len() > 1 && forall|i: int| 0 <= i < items.len() ==> (#[trigger] items[i]).is_image()
}

/// What a command leads to. A command about playing is sent only when something is
/// played; several pictures become a show; what is to be played is held until the
/// app that plays it runs.
pub open spec fn commanded(s: SessionModel, cmd: DeviceCmd, id: int, now: int) -> Outcome {
    let playing = s.transport is Some && s.session is Some;
    let tid = s.transport->0;
    let msid = s.session->0 as int;
    match cmd {
        DeviceCmd::SetVolume(level) => sent(
            s,
            id,
            "receiver-0"@,
            NS_RECEIVER@,
            volume_request("level"@, level_text(level as int), id),
        ),
        DeviceCmd::SetMuted(m) => sent(
            s,
            id,
            "receiver-0"@,
            NS_RECEIVER@,
            volume_request("muted"@, bool_text(m), id),
        ),
        DeviceCmd::Refresh => sent(s, id, "receiver-0"@, NS_RECEIVER@, request("GET_STATUS"@, id)),
        DeviceCmd::Play => if playing {
            sent(s, id, tid, NS_MEDIA@, media_request("PLAY"@, id, msid))
        } else {
            nothing(s, id)
        },
        DeviceCmd::Pause => if playing {
            sent(s, id, tid, NS_MEDIA@, media_request("PAUSE"@, id, msid))
        } else {
            nothing(s, id)
        },
        DeviceCmd::Next => if playing {
            sent(s, id, tid, NS_MEDIA@, jump_request(1, id, msid))
        } else {
            nothing(s, id)
        },
        DeviceCmd::Prev => if playing {
            sent(s, id, tid, NS_MEDIA@, jump_request(-1, id, msid))
        } else {
            nothing(s, id)
        },
        DeviceCmd::Seek(ms) => if playing {
            sent(s, id, tid, NS_MEDIA@, seek_request(ms as int, id, msid))
        } else {
            nothing(s, id)
        },
        DeviceCmd::Cast(items) => {
            let m = item_models(items@);
            let s1 = if is_show(m) {
                SessionModel {
                    slideshow: Some((m, 0)),
                    next_slide: now + SLIDE_INTERVAL_MS,
                    pending: Some(seq![m[0]]),
                    ..s
                }
            } else {
                SessionModel { slideshow: None, pending: Some(m), ..s }
            };
            sent(s1, id, "receiver-0"@, NS_RECEIVER@, launch_request(DEFAULT_MEDIA_RECEIVER@, id))
        },
        DeviceCmd::PollMedia => if s.transport is Some {
            sent(s, id, tid, NS_MEDIA@, request("GET_STATUS"@, id))
        } else {
            nothing(s, id)
        },
        DeviceCmd::StopCasting => {
            let s1 = SessionModel { slideshow: None, pending: None, ..s };
            if playing {
                sent(s1, id, tid, NS_MEDIA@, media_request("STOP"@, id, msid))
            } else {
                nothing(s1, id)
            }
        },
        _ => nothing(s, id),
    }
}

fn all_pictures(items: &Vec<CastItem>) -> (r: bool)
    ensures
        r == forall|i: int| 0 <= i < items@.len() ==> (#[trigger] item_models(items@)[i]).is_image(),
{
    let mut i: usize = 0;
    while i < items.len()
        invariant
            i <= items@.len(),
            forall|k: int| 0 <= k < i ==> (#[trigger] item_models(items@)[k]).is_image(),
        decreases items@.len() - i,
    {
        proof {
            assert(item_models(items@)[i as int] == item_model(items@[i as int]));
        }
        if !items[i].is_image() {
            return false;
        }
        i = i + 1;
    }
    true
}

fn take_items(state: &mut SessionState, items: Vec<CastItem>, now: i64)
    requires
        old(state).wf(),
        now <= i64::MAX - SLIDE_INTERVAL_MS,
    ensures
        final(state).wf(),
        final(state).model() == ({
            let m = item_models(items@);
            if is_show(m) {
                SessionModel {
                    slideshow: Some((m, 0)),
                    next_slide: now + SLIDE_INTERVAL_MS,
                    pending: Some(seq![m[0]]),
                    ..old(state).model()
                }
            } else {
                SessionModel { slideshow: None, pending: Some(m), ..old(state).model() }
            }
        }),
{
    let ghost m = item_models(items@);
    if items.len() > 1 && all_pictures(&items) {
        let mut first: Vec<CastItem> = Vec::new();
        first.push(items[0].copy());
        proof {
            assert(m[0] == item_model(items@[0]));
            assert(item_models(first@) =~= seq![m[0]]);
        }
        state.slideshow = Some(Slideshow { items, idx: 0 });
        state.next_slide = now + SLIDE_INTERVAL_MS;
        state.pending_cast = Some(first);
    } else {
        state.slideshow = None;
        state.pending_cast = Some(items);
    }
}

/// What is sent for a command. `ids` is the number of the next request.
pub fn handle_cmd(cmd: DeviceCmd, state: &mut SessionState, ids: &mut i32, now: i64) -> (out: Vec<CastOut>)
    requires
        old(state).wf(),
        now <= i64::MAX - SLIDE_INTERVAL_MS,
    ensures
        final(state).wf(),
        ({
            let o = commanded(old(state).model(), cmd, *old(ids) as int, now as int);
            &&& final(state).model() == o.state
            &&& *final(ids) == o.ids
            &&& out_models(out@) == o.out
        }),
{
    match cmd {
        DeviceCmd::SetVolume(level) => {
            let t = level_str(level);
            one_out("receiver-0", NS_RECEIVER, volume_msg("level", t.as_str(), ids))
        },
        DeviceCmd::SetMuted(m) => one_out("receiver-0", NS_RECEIVER, volume_msg("muted", bool_str(m), ids)),
        DeviceCmd::Refresh => one_out("receiver-0", NS_RECEIVER, request_msg("GET_STATUS", ids)),
        DeviceCmd::Play => match (&state.media_transport_id, state.media_session_id) {
            (Some(tid), Some(msid)) => one_out(tid.as_str(), NS_MEDIA, media_request_msg("PLAY", msid, ids)),
            _ => no_out(),
        },
        DeviceCmd::Pause => match (&state.media_transport_id, state.media_session_id) {
            (Some(tid), Some(msid)) => one_out(tid.as_str(), NS_MEDIA, media_request_msg("PAUSE", msid, ids)),
            _ => no_out(),
        },
        DeviceCmd::Next => match (&state.media_transport_id, state.media_session_id) {
            (Some(tid), Some(msid)) => one_out(tid.as_str(), NS_MEDIA, jump_msg(1, msid, ids)),
            _ => no_out(),
        },
        DeviceCmd::Prev => match (&state.media_transport_id, state.media_session_id) {
            (Some(tid), Some(msid)) => one_out(tid.as_str(), NS_MEDIA, jump_msg(-1, msid, ids)),
            _ => no_out(),
        },
        DeviceCmd::Seek(ms) => match (&state.media_transport_id, state.media_session_id) {
            (Some(tid), Some(msid)) => one_out(tid.as_str(), NS_MEDIA, seek_msg(ms, msid, ids)),
            _ => no_out(),
        },
        DeviceCmd::Cast(items) => {
            take_items(state, items, now);
            one_out("receiver-0", NS_RECEIVER, launch_msg(DEFAULT_MEDIA_RECEIVER, ids))
        },
        DeviceCmd::PollMedia => match &state.media_transport_id {
            Some(tid) => one_out(tid.as_str(), NS_MEDIA, request_msg("GET_STATUS", ids)),
            None => no_out(),
        },
        DeviceCmd::StopCasting => {
            state.slideshow = None;
            state.pending_cast = None;
            match (&state.media_transport_id, state.media_session_id) {
                (Some(tid), Some(msid)) => one_out(tid.as_str(), NS_MEDIA, media_request_msg("STOP", msid, ids)),
                _ => no_out(),
            }
        },
        _ => no_out(),
    }
}

/// What happens when the next picture is due: it is shown, after the last one the
/// first again, if the app that shows it still runs.
pub open spec fn slid(s: SessionModel, id: int, now: int) -> Outcome {
    let s1 = SessionModel { next_slide: now + SLIDE_INTERVAL_MS, ..s };
    match (s.slideshow, s.transport) {
        (Some((items, idx)), Some(tid)) => {
            let k = (idx + 1) % (items.len() as int);
            sent(
                SessionModel { slideshow: Some((items, k)), ..s1 },
                id,
                tid,
                NS_MEDIA@,
                load_request(items[k], id),
            )
        },
        _ => nothing(s1, id),
    }
}

/// Shows the next picture.
pub fn next_slide(state: &mut SessionState, ids: &mut i32, now: i64) -> (out: Vec<CastOut>)
    requires
        old(state).wf(),
        now <= i64::MAX - SLIDE_INTERVAL_MS,
    ensures
        final(state).wf(),
        ({
            let o = slid(old(state).model(), *old(ids) as int, now as int);
            &&& final(state).model() == o.state
            &&& *final(ids) == o.ids
            &&& out_models(out@) == o.out
        }),
{
    state.next_slide = now + SLIDE_INTERVAL_MS;
    let tid = copy_opt(&state.media_transport_id);
    match (&mut state.slideshow, tid) {
        (Some(show), Some(tid)) => {
            let n: usize = show.items.len();
            let k: usize = if show.idx + 1 < n {
                show.idx + 1
            } else {
                0
            };
            proof {
                assert(k == (show.idx + 1) % (n as int)) by {
                    if show.idx + 1 < n {
                        vstd::arithmetic::div_mod::lemma_small_mod((show.idx + 1) as nat, n as nat);
                    } else {
                        vstd::arithmetic::div_mod::lemma_mod_self_0(n as int);
                    }
                }
                assert(item_models(show.items@)[k as int] == item_model(show.items@[k as int]));
            }
            show.idx = k;
            let m = load_one(&show.items[k], ids);
            one_out(tid.as_str(), NS_MEDIA, m)
        },
        _ => no_out(),
    }
}

/// The state after so many pictures were due.
pub open spec fn after_slides(s: SessionModel, id: int, now: int, k: int) -> SessionModel
    decreases k,
{
    if k <= 0 {
        s
    } else {
        slid(after_slides(s, id, now, k - 1), id, now).state
    }
}

/// A show goes round: each picture follows the one before it, and after as many
/// pictures as there are the same one is shown again.
pub proof fn law_show_goes_round(s: SessionModel, id: int, now: int, k: int)
    requires
        s.transport is Some,
        s.slideshow is Some,
        0 <= (s.slideshow->0).1 < (s.slideshow->0).0.len(),
        0 <= k,
    ensures
        after_slides(s, id, now, k).transport == s.transport,
        ({
            let (items, idx) = s.slideshow->0;
            &&& after_slides(s, id, now, k).slideshow == Some((items, (idx + k) % (items.len() as int)))
            &&& after_slides(s, id, now, items.len() as int).slideshow == s.slideshow
        }),
    decreases k,
{
    let (items, idx) = s.slideshow->0;
    let n = items.len() as int;
    lemma_slides(s, id, now, k);
    lemma_slides(s, id, now, n);
    vstd::arithmetic::div_mod::lemma_mod_add_multiples_vanish(idx, n);
    vstd::arithmetic::div_mod::lemma_small_mod(idx as nat, n as nat);
}

proof fn lemma_slides(s: SessionModel, id: int, now: int, k: int)
    requires
        s.transport is Some,
        s.slideshow is Some,
        0 <= (s.slideshow->0).1 < (s.slideshow->0).0.len(),
        0 <= k,
    ensures
        after_slides(s, id, now, k).transport == s.transport,
        after_slides(s, id, now, k).slideshow == Some(
            ((s.slideshow->0).0, ((s.slideshow->0).1 + k) % ((s.slideshow->0).0.len() as int)),
        ),
    decreases k,
{
    let (items, idx) = s.slideshow->0;
    let n = items.len() as int;
    if k == 0 {
        vstd::arithmetic::div_mod::lemma_small_mod(idx as nat, n as nat);
    } else {
        lemma_slides(s, id, now, k - 1);
        vstd::arithmetic::div_mod::lemma_add_mod_noop_right(1, idx + k - 1, n);
    }
}

// ---------------------------------------------------------------------------
// Reading messages
// ---------------------------------------------------------------------------

/// An app that plays media.
#[derive(Debug)]
pub struct MediaApp {
    pub transport: String,
    pub name: String,
    pub app_id: Option<String>,
}

pub struct AppModel {
    pub transport: Seq<char>,
    pub name: Seq<char>,
    pub app_id: Option<Seq<char>>,
}

/// What a device says of itself.
#[derive(Debug)]
pub struct ReceiverStatus {
    /// The level, and whether it is muted.
    pub volume: Option<(i64, bool)>,
    pub app: Option<MediaApp>,
}

/// What a piece is called.
#[derive(Debug)]
pub struct Metadata {
    pub title: Option<String>,
    pub artist: Option<String>,
    pub album: Option<String>,
    pub image: Option<String>,
}

pub struct MetadataModel {
    pub title: Option<Seq<char>>,
    pub artist: Option<Seq<char>>,
    pub album: Option<Seq<char>>,
    pub image: Option<Seq<char>>,
}

/// What an app says of what it plays.
#[derive(Debug)]
pub struct MediaEntry {
    pub session: Option<i64>,
    pub duration_ms: Option<u64>,
    pub content_id: Option<String>,
    pub content_type: Option<String>,
    pub metadata: Option<Metadata>,
    pub position_ms: Option<u64>,
    pub state: String,
}

pub struct EntryModel {
    pub session: Option<i64>,
    pub duration_ms: Option<u64>,
    pub content_id: Option<Seq<char>>,
    pub content_type: Option<Seq<char>>,
    pub metadata: Option<MetadataModel>,
    pub position_ms: Option<u64>,
    pub state: Seq<char>,
}

/// A message of a device.
#[derive(Debug)]
pub enum Incoming {
    Ping,
    Receiver(ReceiverStatus),
    Media(Option<MediaEntry>),
    Members(Vec<String>),
    /// The speakers of a group have changed.
    MembersChanged,
    Close,
    Other,
}

pub enum IncomingModel {
    Ping,
    Receiver(Option<(int, bool)>, Option<AppModel>),
    Media(Option<EntryModel>),
    Members(Seq<Seq<char>>),
    MembersChanged,
    Close,
    Other,
}

pub open spec fn app_model(a: Option<MediaApp>) -> Option<AppModel> {
    match a {
        Some(x) => Some(AppModel { transport: x.transport@, name: x.name@, app_id: opt(x.app_id) }),
        None => None,
    }
}

pub open spec fn volume_model(v: Option<(i64, bool)>) -> Option<(int, bool)> {
    match v {
        Some((l, m)) => Some((l as int, m)),
        None => None,
    }
}

pub open spec fn metadata_model(m: Option<Metadata>) -> Option<MetadataModel> {
    match m {
        Some(x) => Some(
            MetadataModel { title: opt(x.title), artist: opt(x.artist), album: opt(x.album), image: opt(x.image) },
        ),
        None => None,
    }
}

pub open spec fn entry_model(e: Option<MediaEntry>) -> Option<EntryModel> {
    match e {
        Some(x) => Some(
            EntryModel {
                session: x.session,
                duration_ms: x.duration_ms,
                content_id: opt(x.content_id),
                content_type: opt(x.content_type),
                metadata: metadata_model(x.metadata),
                position_ms: x.position_ms,
                state: x.state@,
            },
        ),
        None => None,
    }
}

pub open spec fn incoming_model(m: Incoming) -> IncomingModel {
    match m {
        Incoming::Ping => IncomingModel::Ping,
        Incoming::Receiver(r) => IncomingModel::Receiver(volume_model(r.volume), app_model(r.app)),
        Incoming::Media(e) => IncomingModel::Media(entry_model(e)),
        Incoming::Members(v) => IncomingModel::Members(texts(v@)),
        Incoming::MembersChanged => IncomingModel::MembersChanged,
        Incoming::Close => IncomingModel::Close,
        Incoming::Other => IncomingModel::Other,
    }
}

/// A text, or none at all.
pub open spec fn text_or(s: Option<Seq<char>>, other: Seq<char>) -> Seq<char> {
    match s {
        Some(t) => t,
        None => other,
    }
}

fn text_or_else(s: Option<String>, other: &str) -> (r: String)
    ensures
        r@ == text_or(opt(s), other@),
{
    match s {
        Some(t) => t,
        None => other.to_string(),
    }
}

/// The volume in a message of a device.
pub open spec fn volume_in(doc: Seq<char>) -> Option<(int, bool)> {
    match json_number_at(doc, "/status/volume/level"@) {
        Some(n) => match level_in(n) {
            Some(l) => Some((l, json_bool_at(doc, "/status/volume/muted"@) == Some(true))),
            None => None,
        },
        None => None,
    }
}

fn read_volume(doc: &str) -> (r: Option<(i64, bool)>)
    ensures
        volume_model(r) == volume_in(doc@),
{
    match json_number(doc, "/status/volume/level") {
        Some(n) => {
            let c = chars_of(n.as_str());
            match read_level(c.as_slice()) {
                Some(l) => {
                    let muted: bool = match json_bool(doc, "/status/volume/muted") {
                        Some(b) => b,
                        None => false,
                    };
                    Some((l, muted))
                },
                None => None,
            }
        },
        None => None,
    }
}

/// Whether the media channel is among the channels of an app from the i-th on.
pub open spec fn speaks_media(doc: Seq<char>, list: Seq<char>, i: int, n: int) -> bool
    decreases n - i,
{
    if i >= n {
        false
    } else {
        json_text_at(doc, part(entry(list, i), "/name"@)) == Some(NS_MEDIA@) || speaks_media(doc, list, i + 1, n)
    }
}

/// Whether an app plays media: it has the media channel and is no idle screen.
pub open spec fn is_media_app(doc: Seq<char>, app: Seq<char>) -> bool {
    let list = part(app, "/namespaces"@);
    json_list_at(doc, list) is Some && speaks_media(doc, list, 0, json_list_at(doc, list)->0 as int) && json_bool_at(
        doc,
        part(app, "/isIdleScreen"@),
    ) != Some(true)
}

fn plays_media(doc: &str, app: &str) -> (r: bool)
    ensures
        r == is_media_app(doc@, app@),
{
    let idle: bool = match json_bool(doc, part_of(app, "/isIdleScreen").as_str()) {
        Some(b) => b,
        None => false,
    };
    let list = part_of(app, "/namespaces");
    match json_list(doc, list.as_str()) {
        None => false,
        Some(n) => {
            let mut i: usize = 0;
            while i < n
                invariant
                    i <= n,
                    json_list_at(doc@, list@) == Some(n as nat),
                    list@ == part(app@, "/namespaces"@),
                    idle == (json_bool_at(doc@, part(app@, "/isIdleScreen"@)) == Some(true)),
                    speaks_media(doc@, list@, 0, n as int) == speaks_media(doc@, list@, i as int, n as int),
                decreases n - i,
            {
                let e = entry_of(list.as_str(), i);
                let place = part_of(e.as_str(), "/name");
                match json_text(doc, place.as_str()) {
                    Some(t) => {
                        if str_same(t.as_str(), NS_MEDIA) {
                            return !idle;
                        }
                    },
                    None => {},
                }
                i = i + 1;
            }
            false
        },
    }
}

/// The first app from the i-th on that plays media.
pub open spec fn media_app_from(doc: Seq<char>, i: int, n: int) -> Option<int>
    decreases n - i,
{
    if i >= n {
        None
    } else if is_media_app(doc, entry("/status/applications"@, i)) {
        Some(i)
    } else {
        media_app_from(doc, i + 1, n)
    }
}

/// The app that plays media.
pub open spec fn app_in(doc: Seq<char>) -> Option<AppModel> {
    match json_list_at(doc, "/status/applications"@) {
        Some(n) => match media_app_from(doc, 0, n as int) {
            Some(i) => {
                let app = entry("/status/applications"@, i);
                Some(
                    AppModel {
                        transport: text_or(json_text_at(doc, part(app, "/transportId"@)), ""@),
                        name: text_or(json_text_at(doc, part(app, "/displayName"@)), ""@),
                        app_id: json_text_at(doc, part(app, "/appId"@)),
                    },
                )
            },
            None => None,
        },
        None => None,
    }
}

fn read_app(doc: &str) -> (r: Option<MediaApp>)
    ensures
        app_model(r) == app_in(doc@),
{
    match json_list(doc, "/status/applications") {
        None => None,
        Some(n) => {
            let mut i: usize = 0;
            while i < n
                invariant
                    i <= n,
                    json_list_at(doc@, "/status/applications"@) == Some(n as nat),
                    media_app_from(doc@, 0, n as int) == media_app_from(doc@, i as int, n as int),
                decreases n - i,
            {
                let app = entry_of("/status/applications", i);
                if plays_media(doc, app.as_str()) {
                    let transport = text_or_else(json_text(doc, part_of(app.as_str(), "/transportId").as_str()), "");
                    let name = text_or_else(json_text(doc, part_of(app.as_str(), "/displayName").as_str()), "");
                    let app_id = json_text(doc, part_of(app.as_str(), "/appId").as_str());
                    return Some(MediaApp { transport, name, app_id });
                }
                i = i + 1;
            }
            None
        },
    }
}

/// Thousandths of the number at a place.
pub open spec fn thousandths_at(doc: Seq<char>, place: Seq<char>) -> Option<u64> {
    match json_number_at(doc, place) {
        Some(n) => match units_in(n, 3) {
            Some(v) => Some(v as u64),
            None => None,
        },
        None => None,
    }
}

fn read_thousandths(doc: &str, place: &str) -> (r: Option<u64>)
    ensures
        r == thousandths_at(doc@, place@),
{
    match json_number(doc, place) {
        Some(n) => {
            let c = chars_of(n.as_str());
            read_units(c.as_slice(), 3)
        },
        None => None,
    }
}

/// Thousandths of the number at a place, if it is above zero.
pub open spec fn positive_at(doc: Seq<char>, place: Seq<char>) -> Option<u64> {
    match json_number_at(doc, place) {
        Some(n) => if is_positive(n) {
            Some(units_in(n, 3)->0 as u64)
        } else {
            None
        },
        None => None,
    }
}

fn read_positive_at(doc: &str, place: &str) -> (r: Option<u64>)
    ensures
        r == positive_at(doc@, place@),
{
    match json_number(doc, place) {
        Some(n) => {
            let c = chars_of(n.as_str());
            if read_positive(c.as_slice()) {
                read_units(c.as_slice(), 3)
            } else {
                None
            }
        },
        None => None,
    }
}

/// The first of two texts that there is.
pub open spec fn either(a: Option<Seq<char>>, b: Option<Seq<char>>) -> Option<Seq<char>> {
    if a is Some {
        a
    } else {
        b
    }
}

fn either_text(a: Option<String>, b: Option<String>) -> (r: Option<String>)
    ensures
        opt(r) == either(opt(a), opt(b)),
{
    match a {
        Some(x) => Some(x),
        None => b,
    }
}

/// The title and the rest of what an app plays.
pub open spec fn metadata_in(doc: Seq<char>, meta: Seq<char>) -> Option<MetadataModel> {
    if json_object_at(doc, meta) {
        Some(
            MetadataModel {
                title: filled_text_at(doc, part(meta, "/title"@)),
                artist: either(
                    filled_text_at(doc, part(meta, "/artist"@)),
                    either(
                        filled_text_at(doc, part(meta, "/albumArtist"@)),
                        filled_text_at(doc, part(meta, "/subtitle"@)),
                    ),
                ),
                album: filled_text_at(doc, part(meta, "/albumName"@)),
                image: if json_list_at(doc, part(meta, "/images"@)) is Some {
                    json_text_at(doc, part(meta, "/images/0/url"@))
                } else {
                    None
                },
            },
        )
    } else {
        None
    }
}

fn read_metadata(doc: &str, meta: &str) -> (r: Option<Metadata>)
    ensures
        metadata_model(r) == metadata_in(doc@, meta@),
{
    if !json_object(doc, meta) {
        return None;
    }
    let artist = filled_text(doc, part_of(meta, "/artist").as_str());
    let album_artist = filled_text(doc, part_of(meta, "/albumArtist").as_str());
    let subtitle = filled_text(doc, part_of(meta, "/subtitle").as_str());
    let image = match json_list(doc, part_of(meta, "/images").as_str()) {
        Some(_) => json_text(doc, part_of(meta, "/images/0/url").as_str()),
        None => None,
    };
    Some(
        Metadata {
            title: filled_text(doc, part_of(meta, "/title").as_str()),
            artist: either_text(artist, either_text(album_artist, subtitle)),
            album: filled_text(doc, part_of(meta, "/albumName").as_str()),
            image,
        },
    )
}

/// What an app says of what it plays: the first entry of a list.
pub open spec fn media_in(doc: Seq<char>) -> Option<EntryModel> {
    match json_list_at(doc, "/status"@) {
        Some(n) => if n > 0 {
            Some(
                EntryModel {
                    session: json_int_at(doc, "/status/0/mediaSessionId"@),
                    duration_ms: positive_at(doc, "/status/0/media/duration"@),
                    content_id: json_text_at(doc, "/status/0/media/contentId"@),
                    content_type: json_text_at(doc, "/status/0/media/contentType"@),
                    metadata: metadata_in(doc, "/status/0/media/metadata"@),
                    position_ms: thousandths_at(doc, "/status/0/currentTime"@),
                    state: text_or(json_text_at(doc, "/status/0/playerState"@), "IDLE"@),
                },
            )
        } else {
            None
        },
        None => None,
    }
}

fn read_media(doc: &str) -> (r: Option<MediaEntry>)
    ensures
        entry_model(r) == media_in(doc@),
{
    match json_list(doc, "/status") {
        Some(n) => {
            if n == 0 {
                return None;
            }
            Some(
                MediaEntry {
                    session: json_int(doc, "/status/0/mediaSessionId"),
                    duration_ms: read_positive_at(doc, "/status/0/media/duration"),
                    content_id: json_text(doc, "/status/0/media/contentId"),
                    content_type: json_text(doc, "/status/0/media/contentType"),
                    metadata: read_metadata(doc, "/status/0/media/metadata"),
                    position_ms: read_thousandths(doc, "/status/0/currentTime"),
                    state: text_or_else(json_text(doc, "/status/0/playerState"), "IDLE"),
                },
            )
        },
        None => None,
    }
}

/// The normal ids of the first `n` speakers of a group, of those that have one.
pub open spec fn members_in(doc: Seq<char>, n: int) -> Seq<Seq<char>>
    decreases n,
{
    if n <= 0 {
        Seq::empty()
    } else {
        let before = members_in(doc, n - 1);
        match json_text_at(doc, part(entry("/status/devices"@, n - 1), "/deviceId"@)) {
            Some(id) => before.push(normal_id(id)),
            None => before,
        }
    }
}

pub open spec fn all_members_in(doc: Seq<char>) -> Seq<Seq<char>> {
    match json_list_at(doc, "/status/devices"@) {
        Some(n) => members_in(doc, n as int),
        None => Seq::empty(),
    }
}

fn read_members(doc: &str) -> (out: Vec<String>)
    ensures
        texts(out@) == all_members_in(doc@),
{
    let mut out: Vec<String> = Vec::new();
    proof {
        assert(texts(out@) =~= Seq::<Seq<char>>::empty());
    }
    match json_list(doc, "/status/devices") {
        Some(n) => {
            let mut i: usize = 0;
            while i < n
                invariant
                    i <= n,
                    texts(out@) == members_in(doc@, i as int),
                decreases n - i,
            {
                let e = entry_of("/status/devices", i);
                match json_text(doc, part_of(e.as_str(), "/deviceId").as_str()) {
                    Some(id) => {
                        let ghost before = texts(out@);
                        out.push(normalize_id(id.as_str()));
                        proof {
                            assert(texts(out@) =~= before.push(normal_id(id@)));
                        }
                    },
                    None => {},
                }
                i = i + 1;
            }
        },
        None => {},
    }
    out
}

/// What a message says: its channel and its type decide what is read of it.
pub open spec fn message_in(namespace: Seq<char>, doc: Seq<char>) -> IncomingModel {
    let kind = text_or(json_text_at(doc, "/type"@), ""@);
    if namespace == NS_HEARTBEAT@ {
        if kind == "PING"@ {
            IncomingModel::Ping
        } else {
            IncomingModel::Other
        }
    } else if namespace == NS_RECEIVER@ {
        if kind == "RECEIVER_STATUS"@ {
            IncomingModel::Receiver(volume_in(doc), app_in(doc))
        } else {
            IncomingModel::Other
        }
    } else if namespace == NS_MEDIA@ {
        if kind == "MEDIA_STATUS"@ {
            IncomingModel::Media(media_in(doc))
        } else {
            IncomingModel::Other
        }
    } else if namespace == NS_MULTIZONE@ {
        if kind == "MULTIZONE_STATUS"@ {
            IncomingModel::Members(all_members_in(doc))
        } else if kind == "DEVICE_ADDED"@ || kind == "DEVICE_UPDATED"@ || kind == "DEVICE_REMOVED"@ {
            IncomingModel::MembersChanged
        } else {
            IncomingModel::Other
        }
    } else if namespace == NS_CONNECTION@ && kind == "CLOSE"@ {
        IncomingModel::Close
    } else {
        IncomingModel::Other
    }
}

/// Reads a message. One that is no JSON is passed over.
pub fn read_message(namespace: &str, doc: &str) -> (r: Option<Incoming>)
    ensures
        match r {
            Some(m) => is_json(doc@) && incoming_model(m) == message_in(namespace@, doc@),
            None => !is_json(doc@),
        },
{
    if !json_ok(doc) {
        return None;
    }
    let kind = text_or_else(json_text(doc, "/type"), "");
    let k = kind.as_str();
    if str_same(namespace, NS_HEARTBEAT) {
        if str_same(k, "PING") {
            Some(Incoming::Ping)
        } else {
            Some(Incoming::Other)
        }
    } else if str_same(namespace, NS_RECEIVER) {
        if str_same(k, "RECEIVER_STATUS") {
            Some(Incoming::Receiver(ReceiverStatus { volume: read_volume(doc), app: read_app(doc) }))
        } else {
            Some(Incoming::Other)
        }
    } else if str_same(namespace, NS_MEDIA) {
        if str_same(k, "MEDIA_STATUS") {
            Some(Incoming::Media(read_media(doc)))
        } else {
            Some(Incoming::Other)
        }
    } else if str_same(namespace, NS_MULTIZONE) {
        if str_same(k, "MULTIZONE_STATUS") {
            Some(Incoming::Members(read_members(doc)))
        } else if str_same(k, "DEVICE_ADDED") || str_same(k, "DEVICE_UPDATED") || str_same(k, "DEVICE_REMOVED") {
            Some(Incoming::MembersChanged)
        } else {
            Some(Incoming::Other)
        }
    } else if str_same(namespace, NS_CONNECTION) && str_same(k, "CLOSE") {
        Some(Incoming::Close)
    } else {
        Some(Incoming::Other)
    }
}

// ---------------------------------------------------------------------------
// What messages lead to
// ---------------------------------------------------------------------------

/// A text without an ending, however often it stands there.
pub open spec fn without_ending(s: Seq<char>, ending: Seq<char>) -> Seq<char>
    decreases s.len(),
{
    if 0 < ending.len() <= s.len() && s.skip(s.len() - ending.len()) == ending {
        without_ending(s.take(s.len() - ending.len()), ending)
    } else {
        s
    }
}

/// The name of an app as it is shown.
pub open spec fn shown_name(name: Seq<char>) -> Option<Seq<char>> {
    let n = without_ending(name, " (Remote Control)"@);
    if n.len() == 0 {
        None
    } else {
        Some(n)
    }
}

fn ends_at(s: &[char], ending: &[char], n: usize) -> (r: bool)
    requires
        n <= s@.len(),
    ensures
        r == (0 < ending@.len() <= n && s@.take(n as int).skip(n - ending@.len()) == ending@),
{
    if ending.len() == 0 || ending.len() > n {
        return false;
    }
    let at: usize = n - ending.len();
    proof {
        assert(s@.take(n as int).skip(at as int) =~= s@.subrange(at as int, n as int));
    }
    crate::text::has_at(s, ending, at)
}

fn show_name(name: &str) -> (r: Option<String>)
    ensures
        opt(r) == shown_name(name@),
{
    let s = chars_of(name);
    let e = chars_of(" (Remote Control)");
    let mut n: usize = s.len();
    proof {
        assert(s@.take(s@.len() as int) =~= s@);
    }
    while ends_at(s.as_slice(), e.as_slice(), n)
        invariant
            n <= s@.len(),
            e@ == " (Remote Control)"@,
            s@ == name@,
            without_ending(s@, e@) == without_ending(s@.take(n as int), e@),
        decreases n,
    {
        proof {
            let t = s@.take(n as int);
            assert(t.take(t.len() - e@.len()) =~= s@.take(n - e@.len()));
        }
        n = n - e.len();
    }
    if n == 0 {
        None
    } else {
        let out = crate::text::copy_range(s.as_slice(), 0, n);
        proof {
            assert(out@ =~= s@.take(n as int));
        }
        Some(string_of(out.as_slice()))
    }
}

/// What a message of a device leads to: its volume is passed on. When the app that
/// plays media changes, a conversation with it is opened; what waits to be played is
/// loaded into the app that can. When no such app runs any more, nothing plays.
pub open spec fn received(
    s: SessionModel,
    me: Seq<char>,
    volume: Option<(int, bool)>,
    app: Option<AppModel>,
    id: int,
) -> Outcome {
    let first = match volume {
        Some((level, muted)) => seq![OutModel::Event(EventModel::Volume(me, level, muted))],
        None => Seq::empty(),
    };
    match app {
        Some(a) => {
            let named = SessionModel { app: shown_name(a.name), ..s };
            let opens = s.transport != Some(a.transport) && a.transport.len() > 0;
            let s1 = if opens {
                SessionModel { transport: Some(a.transport), session: None, track: no_track(), ..named }
            } else {
                named
            };
            let out1 = if opens {
                first.push(OutModel::Send(a.transport, NS_CONNECTION@, plain("CONNECT"@))).push(
                    OutModel::Send(a.transport, NS_MEDIA@, request("GET_STATUS"@, id)),
                )
            } else {
                first
            };
            let id1 = if opens {
                after_id(id)
            } else {
                id
            };
            let loads = a.app_id == Some(DEFAULT_MEDIA_RECEIVER@) && a.transport.len() > 0 && s.pending is Some;
            if loads {
                Outcome {
                    state: SessionModel { pending: None, ..s1 },
                    ids: after_id(id1),
                    out: out1.push(OutModel::Send(a.transport, NS_MEDIA@, queue_request(s.pending->0, id1))),
                }
            } else {
                Outcome { state: s1, ids: id1, out: out1 }
            }
        },
        None => {
            let s1 = SessionModel { app: None, slideshow: None, ..s };
            if s.transport is Some {
                Outcome {
                    state: SessionModel { transport: None, session: None, track: no_track(), ..s1 },
                    ids: id,
                    out: first.push(OutModel::Event(EventModel::Media(me, None))),
                }
            } else {
                Outcome { state: s1, ids: id, out: first }
            }
        },
    }
}

fn on_receiver(id: &str, status: ReceiverStatus, state: &mut SessionState, ids: &mut i32) -> (out: Vec<CastOut>)
    requires
        old(state).wf(),
    ensures
        final(state).wf(),
        ({
            let o = received(
                old(state).model(),
                id@,
                volume_model(status.volume),
                app_model(status.app),
                *old(ids) as int,
            );
            &&& final(state).model() == o.state
            &&& *final(ids) == o.ids
            &&& out_models(out@) == o.out
        }),
{
    let mut out = no_out();
    match status.volume {
        Some((volume, muted)) => {
            push_out(&mut out, CastOut::Event(CoreEvent::VolumeChanged { id: id.to_string(), volume, muted }));
            proof {
                assert(out_models(out@) =~= seq![OutModel::Event(EventModel::Volume(id@, volume as int, muted))]);
            }
        },
        None => {},
    }
    match status.app {
        Some(a) => {
            state.app_name = show_name(a.name.as_str());
            let known: bool = match &state.media_transport_id {
                Some(t) => str_same(t.as_str(), a.transport.as_str()),
                None => false,
            };
            let named: bool = !is_empty(a.transport.as_str());
            if !known && named {
                state.media_transport_id = Some(a.transport.clone());
                state.media_session_id = None;
                state.track = Track::none();
                push_out(
                    &mut out,
                    CastOut::Send {
                        dest: a.transport.clone(),
                        namespace: NS_CONNECTION.to_string(),
                        payload: plain_msg("CONNECT"),
                    },
                );
                let m = request_msg("GET_STATUS", ids);
                push_out(
                    &mut out,
                    CastOut::Send { dest: a.transport.clone(), namespace: NS_MEDIA.to_string(), payload: m },
                );
            }
            let ours: bool = match &a.app_id {
                Some(x) => str_same(x.as_str(), DEFAULT_MEDIA_RECEIVER),
                None => false,
            };
            if ours && named {
                match state.pending_cast.take() {
                    Some(items) => {
                        let m = queue_load(&items, ids);
                        push_out(
                            &mut out,
                            CastOut::Send { dest: a.transport.clone(), namespace: NS_MEDIA.to_string(), payload: m },
                        );
                    },
                    None => {},
                }
            }
        },
        None => {
            state.app_name = None;
            state.slideshow = None;
            if state.media_transport_id.is_some() {
                state.media_transport_id = None;
                state.media_session_id = None;
                state.track = Track::none();
                push_out(&mut out, CastOut::Event(CoreEvent::MediaChanged { id: id.to_string(), media: None }));
            }
        },
    }
    out
}

/// The piece that plays after a report: one that belongs to another session starts
/// anew. A report without a title keeps the one that is known.
pub open spec fn track_after(s: SessionModel, e: EntryModel) -> TrackModel {
    let kept = if e.session != s.session {
        no_track()
    } else {
        s.track
    };
    let timed = TrackModel {
        duration_ms: if e.duration_ms is Some {
            e.duration_ms
        } else {
            kept.duration_ms
        },
        content_id: either(e.content_id, kept.content_id),
        content_type: either(e.content_type, kept.content_type),
        ..kept
    };
    match e.metadata {
        Some(m) => TrackModel { title: m.title, artist: m.artist, album: m.album, image: m.image, ..timed },
        None => timed,
    }
}

/// What is reported of what plays. `wall` is the time at which the position was
/// read.
pub open spec fn media_after(s: SessionModel, e: EntryModel, wall: i64) -> MediaModel {
    let t = track_after(s, e);
    MediaModel {
        state: state_named(e.state),
        title: t.title,
        artist: t.artist,
        app: s.app,
        supports_transport: true,
        album: t.album,
        image: t.image,
        position_ms: e.position_ms,
        duration_ms: t.duration_ms,
        position_at: if e.position_ms is Some {
            Some(wall)
        } else {
            None
        },
        content_id: t.content_id,
        content_type: t.content_type,
    }
}

fn on_media(state: &mut SessionState, e: MediaEntry, wall: i64) -> (r: MediaInfo)
    requires
        old(state).wf(),
    ensures
        final(state).wf(),
        crate::types::media_model(r) == media_after(old(state).model(), entry_model(Some(e))->0, wall),
        final(state).model() == (SessionModel {
            session: e.session,
            track: track_after(old(state).model(), entry_model(Some(e))->0),
            ..old(state).model()
        }),
{
    let same: bool = match (e.session, state.media_session_id) {
        (Some(a), Some(b)) => a == b,
        (None, None) => true,
        _ => false,
    };
    if !same {
        state.track = Track::none();
    }
    state.media_session_id = e.session;
    match e.duration_ms {
        Some(d) => {
            state.track.duration_ms = Some(d);
        },
        None => {},
    }
    if e.content_id.is_some() {
        state.track.content_id = e.content_id;
    }
    if e.content_type.is_some() {
        state.track.content_type = e.content_type;
    }
    match e.metadata {
        Some(m) => {
            state.track.title = m.title;
            state.track.artist = m.artist;
            state.track.album = m.album;
            state.track.image = m.image;
        },
        None => {},
    }
    MediaInfo {
        state: PlayState::of(e.state.as_str()),
        title: copy_opt(&state.track.title),
        artist: copy_opt(&state.track.artist),
        app: copy_opt(&state.app_name),
        supports_transport: true,
        album: copy_opt(&state.track.album),
        image: copy_opt(&state.track.image),
        position_ms: e.position_ms,
        duration_ms: state.track.duration_ms,
        position_at: match e.position_ms {
            Some(_) => Some(wall),
            None => None,
        },
        content_id: copy_opt(&state.track.content_id),
        content_type: copy_opt(&state.track.content_type),
    }
}

/// What a message leads to. `me` is the device and `source` who sent it.
pub open spec fn handled(
    s: SessionModel,
    me: Seq<char>,
    source: Seq<char>,
    msg: IncomingModel,
    id: int,
    wall: i64,
) -> Outcome {
    match msg {
        IncomingModel::Ping => Outcome {
            state: s,
            ids: id,
            out: seq![OutModel::Send(source, NS_HEARTBEAT@, plain("PONG"@))],
        },
        IncomingModel::Receiver(volume, app) => received(s, me, volume, app, id),
        IncomingModel::Media(e) => match e {
            Some(x) => Outcome {
                state: SessionModel { session: x.session, track: track_after(s, x), ..s },
                ids: id,
                out: seq![OutModel::Event(EventModel::Media(me, Some(media_after(s, x, wall))))],
            },
            None => nothing(s, id),
        },
        IncomingModel::Members(v) => Outcome {
            state: s,
            ids: id,
            out: seq![OutModel::Event(EventModel::Members(me, v))],
        },
        IncomingModel::MembersChanged => sent(s, id, "receiver-0"@, NS_MULTIZONE@, request("GET_STATUS"@, id)),
        IncomingModel::Close => if s.transport == Some(source) {
            Outcome {
                state: SessionModel { transport: None, session: None, ..s },
                ids: id,
                out: seq![OutModel::Event(EventModel::Media(me, None))],
            }
        } else {
            nothing(s, id)
        },
        IncomingModel::Other => nothing(s, id),
    }
}

fn one_event(e: CoreEvent) -> (out: Vec<CastOut>)
    ensures
        out_models(out@) == seq![OutModel::Event(event_model(e))],
{
    let mut out = no_out();
    push_out(&mut out, CastOut::Event(e));
    proof {
        assert(out_models(out@) =~= seq![OutModel::Event(event_model(e))]);
    }
    out
}

/// Takes in a message of the device `id`.
pub fn handle_message(
    id: &str,
    source: &str,
    msg: Incoming,
    state: &mut SessionState,
    ids: &mut i32,
    wall: i64,
) -> (out: Vec<CastOut>)
    requires
        old(state).wf(),
    ensures
        final(state).wf(),
        ({
            let o = handled(old(state).model(), id@, source@, incoming_model(msg), *old(ids) as int, wall);
            &&& final(state).model() == o.state
            &&& *final(ids) == o.ids
            &&& out_models(out@) == o.out
        }),
{
    match msg {
        Incoming::Ping => one_out(source, NS_HEARTBEAT, plain_msg("PONG")),
        Incoming::Receiver(status) => on_receiver(id, status, state, ids),
        Incoming::Media(e) => match e {
            Some(x) => {
                let m = on_media(state, x, wall);
                one_event(CoreEvent::MediaChanged { id: id.to_string(), media: Some(m) })
            },
            None => no_out(),
        },
        Incoming::Members(v) => one_event(CoreEvent::GroupMembers { id: id.to_string(), members: v }),
        Incoming::MembersChanged => one_out("receiver-0", NS_MULTIZONE, request_msg("GET_STATUS", ids)),
        Incoming::Close => {
            let ours: bool = match &state.media_transport_id {
                Some(t) => str_same(t.as_str(), source),
                None => false,
            };
            if ours {
                state.media_transport_id = None;
                state.media_session_id = None;
                one_event(CoreEvent::MediaChanged { id: id.to_string(), media: None })
            } else {
                no_out()
            }
        },
        Incoming::Other => no_out(),
    }
}

/// Takes in a message as it came: one that is no JSON changes nothing.
pub fn handle_payload(
    id: &str,
    source: &str,
    namespace: &str,
    doc: &str,
    state: &mut SessionState,
    ids: &mut i32,
    wall: i64,
) -> (out: Vec<CastOut>)
    requires
        old(state).wf(),
    ensures
        final(state).wf(),
        ({
            let o = if is_json(doc@) {
                handled(old(state).model(), id@, source@, message_in(namespace@, doc@), *old(ids) as int, wall)
            } else {
                nothing(old(state).model(), *old(ids) as int)
            };
            &&& final(state).model() == o.state
            &&& *final(ids) == o.ids
            &&& out_models(out@) == o.out
        }),
{
    match read_message(namespace, doc) {
        Some(msg) => handle_message(id, source, msg, state, ids, wall),
        None => no_out(),
    }
}

/// What waits to be played is loaded once: after it was, nothing waits, and no
/// later report of the app loads it again.
pub proof fn law_loaded_once(s: SessionModel, me: Seq<char>, volume: Option<(int, bool)>, app: AppModel, id: int)
    requires
        app.app_id == Some(DEFAULT_MEDIA_RECEIVER@),
        app.transport.len() > 0,
    ensures
        ({
            let o = received(s, me, volume, Some(app), id);
            &&& o.state.pending is None
            &&& o.state.transport == Some(app.transport)
            &&& received(o.state, me, None, Some(app), o.ids).out == Seq::<OutModel>::empty()
        }),
{
}


/// What a Cast device reports as playing, paused or buffering counts as a session, and as
/// playing but for the second.
pub proof fn law_reported_media_is_a_session(d: DeviceInfo, s: SessionModel, e: EntryModel, wall: i64)
    requires
        e.state == "PLAYING"@ || e.state == "PAUSED"@ || e.state == "BUFFERING"@,
        d.online,
        opt_media(d.media) == Some(media_after(s, e, wall)),
    ensures
        is_session(d),
        is_playing(d.media->0.state) == (e.state != "PAUSED"@),
{
    reveal_strlit("PLAYING");
    reveal_strlit("PAUSED");
    reveal_strlit("IDLE");
    reveal_strlit("BUFFERING");
    assert("PLAYING"@.len() == 7 && "PAUSED"@.len() == 6 && "IDLE"@.len() == 4 && "BUFFERING"@.len() == 9);
    law_what_plays_is_a_session(d, media_after(s, e, wall));
}

// ---------------------------------------------------------------------------
// What is sent for commands
// ---------------------------------------------------------------------------

/// While something plays, playing on asks the app that plays it for PLAY, pausing for PAUSE
/// and stopping for STOP, each with the session and the number of the request. Nothing else
/// is sent, and only stopping forgets what waits to be played.
pub proof fn law_play_plays_and_pause_pauses(s: SessionModel, id: int, now: int, t: Seq<char>, n: i64)
    requires
        s.transport == Some(t),
        s.session == Some(n),
    ensures
        commanded(s, DeviceCmd::Play, id, now).out == seq![
            OutModel::Send(
                t,
                "urn:x-cast:com.google.cast.media"@,
                closed(
                    with_text(
                        with_int(with_int(opened(), "mediaSessionId"@, n as int), "requestId"@, id),
                        "type"@,
                        "PLAY"@,
                    ),
                ),
            ),
        ],
        commanded(s, DeviceCmd::Pause, id, now).out == seq![
            OutModel::Send(
                t,
                "urn:x-cast:com.google.cast.media"@,
                closed(
                    with_text(
                        with_int(with_int(opened(), "mediaSessionId"@, n as int), "requestId"@, id),
                        "type"@,
                        "PAUSE"@,
                    ),
                ),
            ),
        ],
        commanded(s, DeviceCmd::StopCasting, id, now).out == seq![
            OutModel::Send(
                t,
                "urn:x-cast:com.google.cast.media"@,
                closed(
                    with_text(
                        with_int(with_int(opened(), "mediaSessionId"@, n as int), "requestId"@, id),
                        "type"@,
                        "STOP"@,
                    ),
                ),
            ),
        ],
        commanded(s, DeviceCmd::Play, id, now).state == s,
        commanded(s, DeviceCmd::Pause, id, now).state == s,
        commanded(s, DeviceCmd::StopCasting, id, now).state == (SessionModel { slideshow: None, pending: None, ..s }),
{
}

/// While something plays, the next piece is one further in the list and the one before it
/// one back, and a seek names the position in seconds.
pub proof fn law_next_goes_on_and_previous_goes_back(s: SessionModel, id: int, now: int, t: Seq<char>, n: i64, ms: u64)
    requires
        s.transport == Some(t),
        s.session == Some(n),
    ensures
        commanded(s, DeviceCmd::Next, id, now).out == seq![
            OutModel::Send(
                t,
                "urn:x-cast:com.google.cast.media"@,
                closed(
                    with_text(
                        with_int(
                            with_int(with_int(opened(), "jump"@, 1), "mediaSessionId"@, n as int),
                            "requestId"@,
                            id,
                        ),
                        "type"@,
                        "QUEUE_UPDATE"@,
                    ),
                ),
            ),
        ],
        commanded(s, DeviceCmd::Prev, id, now).out == seq![
            OutModel::Send(
                t,
                "urn:x-cast:com.google.cast.media"@,
                closed(
                    with_text(
                        with_int(
                            with_int(with_int(opened(), "jump"@, -1), "mediaSessionId"@, n as int),
                            "requestId"@,
                            id,
                        ),
                        "type"@,
                        "QUEUE_UPDATE"@,
                    ),
                ),
            ),
        ],
        commanded(s, DeviceCmd::Seek(ms), id, now).out == seq![
            OutModel::Send(
                t,
                "urn:x-cast:com.google.cast.media"@,
                closed(
                    with_text(
                        with_int(
                            with_int(
                                with_field(opened(), "currentTime"@, fraction(ms as int, 3)),
                                "mediaSessionId"@,
                                n as int,
                            ),
                            "requestId"@,
                            id,
                        ),
                        "type"@,
                        "SEEK"@,
                    ),
                ),
            ),
        ],
        commanded(s, DeviceCmd::Next, id, now).state == s,
        commanded(s, DeviceCmd::Prev, id, now).state == s,
        commanded(s, DeviceCmd::Seek(ms), id, now).state == s,
{
}

/// Where nothing plays, no command about playing sends anything or changes what is known,
/// but that stopping forgets what waits to be played.
pub proof fn law_without_a_piece_nothing_is_sent(s: SessionModel, cmd: DeviceCmd, id: int, now: int)
    requires
        s.transport is None || s.session is None,
        cmd is Play || cmd is Pause || cmd is Next || cmd is Prev || cmd is Seek || cmd is StopCasting,
    ensures
        commanded(s, cmd, id, now).out == Seq::<OutModel>::empty(),
        commanded(s, cmd, id, now).ids == id,
        !(cmd is StopCasting) ==> commanded(s, cmd, id, now).state == s,
        cmd is StopCasting ==> commanded(s, cmd, id, now).state == (SessionModel {
            slideshow: None,
            pending: None,
            ..s
        }),
{
}

/// The volume and the muting are asked of the device itself, whatever plays: the level as a
/// fraction of full volume, the muting as true or false.
pub proof fn law_volume_is_asked_of_the_device(s: SessionModel, id: int, now: int, level: i64, muted: bool)
    requires
        0 <= level,
    ensures
        commanded(s, DeviceCmd::SetVolume(level), id, now).out == seq![
            OutModel::Send(
                "receiver-0"@,
                "urn:x-cast:com.google.cast.receiver"@,
                closed(
                    with_field(
                        with_text(with_int(opened(), "requestId"@, id), "type"@, "SET_VOLUME"@),
                        "volume"@,
                        closed(with_field(opened(), "level"@, fraction(level as int, 6))),
                    ),
                ),
            ),
        ],
        commanded(s, DeviceCmd::SetMuted(muted), id, now).out == seq![
            OutModel::Send(
                "receiver-0"@,
                "urn:x-cast:com.google.cast.receiver"@,
                closed(
                    with_field(
                        with_text(with_int(opened(), "requestId"@, id), "type"@, "SET_VOLUME"@),
                        "volume"@,
                        closed(
                            with_field(
                                opened(),
                                "muted"@,
                                if muted {
                                    "true"@
                                } else {
                                    "false"@
                                },
                            ),
                        ),
                    ),
                ),
            ),
        ],
        commanded(s, DeviceCmd::SetVolume(level), id, now).state == s,
        commanded(s, DeviceCmd::SetMuted(muted), id, now).state == s,
{
}

/// What is cast waits until the app that plays it was started, which is asked for at once.
/// More than one picture and nothing else is a show: its first picture waits, and the next
/// one is due after eight seconds. Anything else waits as a whole and ends a show.
pub proof fn law_what_is_cast_waits_for_its_app(s: SessionModel, items: Vec<CastItem>, id: int, now: int)
    ensures
        ({
            let m = item_models(items@);
            let o = commanded(s, DeviceCmd::Cast(items), id, now);
            let show = items@.len() > 1 && forall|i: int|
                0 <= i < items@.len() ==> crate::text::starts((#[trigger] items@[i]).content_type@, "image/"@);
            &&& o.out == seq![
                OutModel::Send(
                    "receiver-0"@,
                    "urn:x-cast:com.google.cast.receiver"@,
                    closed(
                        with_text(
                            with_int(with_text(opened(), "appId"@, "CC1AD845"@), "requestId"@, id),
                            "type"@,
                            "LAUNCH"@,
                        ),
                    ),
                ),
            ]
            &&& show ==> o.state.pending == Some(seq![m[0]]) && o.state.slideshow == Some((m, 0int))
                && o.state.next_slide == now + 8_000
            &&& !show ==> o.state.pending == Some(m) && o.state.slideshow is None && o.state.next_slide == s.next_slide
            &&& o.state.transport == s.transport && o.state.session == s.session && o.state.track == s.track
        }),
{
    let m = item_models(items@);
    assert forall|i: int| 0 <= i < items@.len() implies (#[trigger] m[i]).is_image() == crate::text::starts(
        items@[i].content_type@,
        "image/"@,
    ) by {
        assert(m[i] == item_model(items@[i]));
    }
    if is_show(m) {
        assert forall|i: int| 0 <= i < items@.len() implies crate::text::starts(
            (#[trigger] items@[i]).content_type@,
            "image/"@,
        ) by {
            assert(m[i].is_image());
        }
    } else if items@.len() > 1 {
        let i = choose|i: int| 0 <= i < m.len() && !(#[trigger] m[i]).is_image();
        assert(!crate::text::starts(items@[i].content_type@, "image/"@));
    }
}

/// Every message has a number of its own: one that is sent takes the next, and after the
/// largest comes the smallest.
pub proof fn law_requests_are_numbered(s: SessionModel, cmd: DeviceCmd, id: int, now: int)
    requires
        i32::MIN <= id <= i32::MAX,
    ensures
        commanded(s, cmd, id, now).out.len() <= 1,
        commanded(s, cmd, id, now).ids != id <==> commanded(s, cmd, id, now).out.len() == 1,
        id < i32::MAX ==> id <= commanded(s, cmd, id, now).ids <= id + 1,
{
}

/// What a device says of its volume is passed on as it stands, whatever it says besides, and
/// before anything else.
pub proof fn law_a_reported_volume_is_passed_on(
    s: SessionModel,
    me: Seq<char>,
    source: Seq<char>,
    level: int,
    muted: bool,
    app: Option<AppModel>,
    id: int,
    wall: i64,
)
    ensures
        ({
            let o = handled(s, me, source, IncomingModel::Receiver(Some((level, muted)), app), id, wall);
            &&& o.out.len() > 0
            &&& o.out[0] == OutModel::Event(EventModel::Volume(me, level, muted))
        }),
{
}

/// A conversation is opened with an app that was not known: it is told CONNECT and asked for
/// what it plays, and nothing of the app before is kept. One that is known already is not
/// told so again. When no app is left, nothing plays.
pub proof fn law_a_new_app_is_talked_to(s: SessionModel, me: Seq<char>, a: AppModel, id: int)
    requires
        a.transport.len() > 0,
        s.pending is None,
    ensures
        ({
            let o = received(s, me, None, Some(a), id);
            &&& s.transport != Some(a.transport) ==> o.out == seq![
                OutModel::Send(
                    a.transport,
                    "urn:x-cast:com.google.cast.tp.connection"@,
                    closed(with_text(opened(), "type"@, "CONNECT"@)),
                ),
                OutModel::Send(
                    a.transport,
                    "urn:x-cast:com.google.cast.media"@,
                    closed(with_text(with_int(opened(), "requestId"@, id), "type"@, "GET_STATUS"@)),
                ),
            ] && o.state.session is None && o.state.track == no_track()
            &&& s.transport == Some(a.transport) ==> o.out.len() == 0 && o.state.session == s.session && o.state.track
                == s.track
            &&& o.state.transport == Some(a.transport)
        }),
        ({
            let o = received(s, me, None, None, id);
            &&& o.state.transport is None && o.state.app is None && o.state.slideshow is None
            &&& s.transport is Some ==> o.state.session is None && o.out == seq![
                OutModel::Event(EventModel::Media(me, None)),
            ]
            &&& s.transport is None ==> o.out.len() == 0
        }),
{
    let o = received(s, me, None, Some(a), id);
    if s.transport != Some(a.transport) {
        assert(o.out =~= seq![
            OutModel::Send(a.transport, NS_CONNECTION@, plain("CONNECT"@)),
            OutModel::Send(a.transport, NS_MEDIA@, request("GET_STATUS"@, id)),
        ]);
    }
    let e = received(s, me, None, None, id);
    if s.transport is Some {
        assert(e.out =~= seq![OutModel::Event(EventModel::Media(me, None))]);
    }
}

/// A ping is answered with a pong to whoever sent it.
pub proof fn law_a_ping_is_answered(s: SessionModel, me: Seq<char>, source: Seq<char>, id: int, wall: i64)
    ensures
        handled(s, me, source, IncomingModel::Ping, id, wall).out == seq![
            OutModel::Send(
                source,
                "urn:x-cast:com.google.cast.tp.heartbeat"@,
                closed(with_text(opened(), "type"@, "PONG"@)),
            ),
        ],
        handled(s, me, source, IncomingModel::Ping, id, wall).state == s,
{
}

/// A report of what plays is passed on with its position, as read at that time. What it
/// leaves out is kept from the reports before it, but only while the session is the same.
pub proof fn law_reports_of_one_piece_add_up(s: SessionModel, me: Seq<char>, source: Seq<char>, e: EntryModel, id: int, wall: i64)
    ensures
        ({
            let o = handled(s, me, source, IncomingModel::Media(Some(e)), id, wall);
            let m = media_after(s, e, wall);
            let same = e.session == s.session;
            &&& o.out == seq![OutModel::Event(EventModel::Media(me, Some(m)))]
            &&& o.state.session == e.session
            &&& m.position_ms == e.position_ms
            &&& m.position_at == (if e.position_ms is Some {
                Some(wall)
            } else {
                None
            })
            &&& e.metadata matches Some(x) ==> m.title == x.title && m.artist == x.artist && m.album == x.album
                && m.image == x.image
            &&& e.metadata is None && same ==> m.title == s.track.title && m.artist == s.track.artist && m.album
                == s.track.album && m.image == s.track.image
            &&& e.metadata is None && !same ==> m.title is None && m.artist is None && m.album is None && m.image is None
            &&& m.duration_ms == (if e.duration_ms is Some {
                e.duration_ms
            } else if same {
                s.track.duration_ms
            } else {
                None
            })
            &&& m.content_id == (if e.content_id is Some {
                e.content_id
            } else if same {
                s.track.content_id
            } else {
                None
            })
            &&& m.app == s.app
        }),
{
}

// ---------------------------------------------------------------------------
// What messages say
// ---------------------------------------------------------------------------

/// A message is read by its channel and its type: a ping, the state of the device, what plays,
/// the speakers of a group, or the end of a conversation. Anything else says nothing.
pub proof fn law_messages_by_their_channel(namespace: Seq<char>, doc: Seq<char>, kind: Seq<char>)
    requires
        json_text_at(doc, "/type"@) == Some(kind),
    ensures
        namespace == "urn:x-cast:com.google.cast.tp.heartbeat"@ && kind == "PING"@ ==> message_in(namespace, doc) is Ping,
        namespace == "urn:x-cast:com.google.cast.receiver"@ && kind == "RECEIVER_STATUS"@ ==> message_in(namespace, doc)
            == IncomingModel::Receiver(volume_in(doc), app_in(doc)),
        namespace == "urn:x-cast:com.google.cast.media"@ && kind == "MEDIA_STATUS"@ ==> message_in(namespace, doc)
            == IncomingModel::Media(media_in(doc)),
        namespace == "urn:x-cast:com.google.cast.multizone"@ && kind == "MULTIZONE_STATUS"@ ==> message_in(namespace, doc)
            == IncomingModel::Members(all_members_in(doc)),
        namespace == "urn:x-cast:com.google.cast.tp.connection"@ && kind == "CLOSE"@ ==> message_in(namespace, doc)
            is Close,
{
    reveal_strlit("urn:x-cast:com.google.cast.tp.heartbeat");
    reveal_strlit("urn:x-cast:com.google.cast.receiver");
    reveal_strlit("urn:x-cast:com.google.cast.media");
    reveal_strlit("urn:x-cast:com.google.cast.multizone");
    reveal_strlit("urn:x-cast:com.google.cast.tp.connection");
    assert("urn:x-cast:com.google.cast.tp.heartbeat"@.len() == 39);
    assert("urn:x-cast:com.google.cast.receiver"@.len() == 35);
    assert("urn:x-cast:com.google.cast.media"@.len() == 32);
    assert("urn:x-cast:com.google.cast.multizone"@.len() == 36);
    assert("urn:x-cast:com.google.cast.tp.connection"@.len() == 40);
}

/// The volume of a device is the number that it says, to the nearest millionth, and it is muted
/// exactly if it says so. What it plays has the state, the session, the position and the
/// length that stand first in its list.
pub proof fn law_what_a_device_says(doc: Seq<char>, n: Seq<char>, level: int, count: nat)
    ensures
        json_number_at(doc, "/status/volume/level"@) == Some(n) && level_in(n) == Some(level) ==> volume_in(doc) == Some(
            (level, json_bool_at(doc, "/status/volume/muted"@) == Some(true)),
        ),
        json_number_at(doc, "/status/volume/level"@) is None ==> volume_in(doc) is None,
        json_list_at(doc, "/status"@) == Some(count) && count > 0 ==> (media_in(doc) matches Some(e) && e.session
            == json_int_at(doc, "/status/0/mediaSessionId"@) && e.position_ms == thousandths_at(
            doc,
            "/status/0/currentTime"@,
        ) && e.duration_ms == positive_at(doc, "/status/0/media/duration"@) && (json_text_at(
            doc,
            "/status/0/playerState"@,
        ) matches Some(t) ==> e.state == t) && (json_text_at(doc, "/status/0/playerState"@) is None ==> e.state
            == "IDLE"@)),
        json_list_at(doc, "/status"@) == Some(0nat) ==> media_in(doc) is None,
{
}

/// A device that was not heard of for more than thirty seconds is gone.
pub proof fn law_how_long_a_device_may_be_silent()
    ensures
        SILENCE_MS == 30 * 1_000,
        SLIDE_INTERVAL_MS == 8 * 1_000,
{
}

/// What waits is loaded, once the app that plays it runs, as a list that begins with its first
/// entry and is not repeated, behind whatever opens the conversation.
pub proof fn law_what_waits_is_loaded(s: SessionModel, me: Seq<char>, a: AppModel, items: Seq<ItemModel>, id: int)
    requires
        s.pending == Some(items),
        a.app_id == Some("CC1AD845"@),
        a.transport.len() > 0,
    ensures
        ({
            let o = received(s, me, None, Some(a), id);
            let number = if s.transport == Some(a.transport) {
                id
            } else {
                after_id(id)
            };
            &&& o.state.pending is None
            &&& o.out.len() > 0
            &&& o.out.last() == OutModel::Send(
                a.transport,
                "urn:x-cast:com.google.cast.media"@,
                closed(
                    with_text(
                        with_int(
                            with_int(
                                with_text(
                                    with_field(
                                        opened(),
                                        "items"@,
                                        list_of(Seq::new(items.len(), |i: int| queue_item(items[i]))),
                                    ),
                                    "repeatMode"@,
                                    "REPEAT_OFF"@,
                                ),
                                "requestId"@,
                                number,
                            ),
                            "startIndex"@,
                            0,
                        ),
                        "type"@,
                        "QUEUE_LOAD"@,
                    ),
                ),
            )
        }),
{
    assert(queue_items(items) =~= Seq::new(items.len(), |i: int| queue_item(items[i])));
}

/// An app other than the one that plays what waits leaves it waiting.
pub proof fn law_other_apps_leave_it_waiting(s: SessionModel, me: Seq<char>, a: AppModel, id: int)
    requires
        a.app_id != Some("CC1AD845"@),
    ensures
        received(s, me, None, Some(a), id).state.pending == s.pending,
{
}

/// What a device is told of something to be played: its address, its kind and its title; a
/// picture has no stream, and sound is said to be music.
pub proof fn law_what_is_said_of_an_item(it: ItemModel)
    ensures
        ({
            let image = crate::text::starts(it.content_type, "image/"@);
            let music = crate::text::starts(it.content_type, "audio/"@);
            let kind = if image {
                4int
            } else if music {
                3
            } else {
                0
            };
            media_fields(it) == with_text(
                with_field(
                    with_text(
                        with_text(with_text(opened(), "contentId"@, it.url), "contentType"@, it.content_type),
                        "contentUrl"@,
                        it.url,
                    ),
                    "metadata"@,
                    closed(with_text(with_int(opened(), "metadataType"@, kind), "title"@, it.title)),
                ),
                "streamType"@,
                if image {
                    "NONE"@
                } else {
                    "BUFFERED"@
                },
            )
        }),
{
}

/// When the next picture of a show is due, the one behind the last is loaded into the app, after
/// the last the first, and the one after it is due eight seconds later. Without a show or
/// without the app nothing is loaded.
pub proof fn law_the_next_picture_is_loaded(s: SessionModel, items: Seq<ItemModel>, idx: int, t: Seq<char>, id: int, now: int)
    requires
        s.transport == Some(t),
        s.slideshow == Some((items, idx)),
        0 <= idx < items.len(),
    ensures
        ({
            let o = slid(s, id, now);
            let k = if idx + 1 < items.len() {
                idx + 1
            } else {
                0
            };
            &&& o.out == seq![OutModel::Send(t, "urn:x-cast:com.google.cast.media"@, load_request(items[k], id))]
            &&& o.state.slideshow == Some((items, k))
            &&& o.state.next_slide == now + 8_000
        }),
        load_request(items[0], id) == closed(
            with_text(
                with_int(
                    with_field(with_field(opened(), "autoplay"@, "true"@), "media"@, closed(media_fields(items[0]))),
                    "requestId"@,
                    id,
                ),
                "type"@,
                "LOAD"@,
            ),
        ),
        slid(SessionModel { slideshow: None, ..s }, id, now).out.len() == 0,
        slid(SessionModel { transport: None, ..s }, id, now).out.len() == 0,
{
    let n = items.len() as int;
    if idx + 1 < n {
        vstd::arithmetic::div_mod::lemma_small_mod((idx + 1) as nat, n as nat);
    } else {
        vstd::arithmetic::div_mod::lemma_mod_self_0(n);
    }
}

/// A connection starts with CONNECT and a question for the state of the device; a group is asked
/// for its speakers too.
pub proof fn law_how_a_connection_starts(is_group: bool, id: int)
    ensures
        greetings(is_group, id).len() == (if is_group {
            3int
        } else {
            2
        }),
        greetings(is_group, id)[0] == OutModel::Send(
            "receiver-0"@,
            "urn:x-cast:com.google.cast.tp.connection"@,
            closed(with_text(opened(), "type"@, "CONNECT"@)),
        ),
        greetings(is_group, id)[1] == OutModel::Send(
            "receiver-0"@,
            "urn:x-cast:com.google.cast.receiver"@,
            closed(with_text(with_int(opened(), "requestId"@, id), "type"@, "GET_STATUS"@)),
        ),
        is_group ==> (greetings(is_group, id)[2] matches OutModel::Send(to, channel, _) && to == "receiver-0"@ && channel
            == "urn:x-cast:com.google.cast.multizone"@),
{
}

/// The name of an app is shown without the words that say it is controlled from afar.
pub proof fn law_names_of_apps(name: Seq<char>)
    ensures
        name.len() > 0 && without_ending(name, " (Remote Control)"@) == name ==> shown_name(name) == Some(name) && shown_name(
            name + " (Remote Control)"@,
        ) == Some(name),
{
    reveal_strlit(" (Remote Control)");
    let e = " (Remote Control)"@;
    let s = name + e;
    assert(s.skip(s.len() - e.len()) =~= e);
    assert(s.take(s.len() - e.len()) =~= name);
}

} // verus!
