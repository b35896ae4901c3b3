//! The devices of a home, what they play, and what they are told.

use vstd::prelude::*;
use crate::text::{copy_opt, opt, starts, starts_with, str_same, texts};

verus! {

/// The kind of a device.
#[derive(Clone, Copy, Debug, PartialEq, Eq, Structural)]
pub enum Backend {
    Cast,
    Roku,
    Yamaha,
    Lg,
    Optoma,
}

/// What a player does.
#[derive(Debug)]
pub enum PlayState {
    Playing,
    Paused,
    Idle,
    Buffering,
    Other(String),
}

/// Whether a player plays or is about to.
pub open spec fn is_playing(s: PlayState) -> bool {
    s is Playing || s is Buffering
}

/// A state in words.
pub open spec fn state_text(s: PlayState) -> Seq<char> {
    match s {
        PlayState::Playing => "PLAYING"@,
        PlayState::Paused => "PAUSED"@,
        PlayState::Idle => "IDLE"@,
        PlayState::Buffering => "BUFFERING"@,
        PlayState::Other(t) => t@,
    }
}

/// What a player does, by value.
pub enum StateModel {
    Playing,
    Paused,
    Idle,
    Buffering,
    Other(Seq<char>),
}

pub open spec fn state_model(s: PlayState) -> StateModel {
    match s {
        PlayState::Playing => StateModel::Playing,
        PlayState::Paused => StateModel::Paused,
        PlayState::Idle => StateModel::Idle,
        PlayState::Buffering => StateModel::Buffering,
        PlayState::Other(t) => StateModel::Other(t@),
    }
}

/// The state that a text names.
pub open spec fn state_named(t: Seq<char>) -> StateModel {
    if t == "PLAYING"@ {
        StateModel::Playing
    } else if t == "PAUSED"@ {
        StateModel::Paused
    } else if t == "IDLE"@ {
        StateModel::Idle
    } else if t == "BUFFERING"@ {
        StateModel::Buffering
    } else {
        StateModel::Other(t)
    }
}

impl PlayState {
    pub fn of(t: &str) -> (r: PlayState)
        ensures
            state_model(r) == state_named(t@),
            state_text(r) == t@,
    {
        if str_same(t, "PLAYING") {
            PlayState::Playing
        } else if str_same(t, "PAUSED") {
            PlayState::Paused
        } else if str_same(t, "IDLE") {
            PlayState::Idle
        } else if str_same(t, "BUFFERING") {
            PlayState::Buffering
        } else {
            PlayState::Other(t.to_string())
        }
    }

    pub fn copy(&self) -> (r: PlayState)
        ensures
            r == *self,
    {
        match self {
            PlayState::Playing => PlayState::Playing,
            PlayState::Paused => PlayState::Paused,
            PlayState::Idle => PlayState::Idle,
            PlayState::Buffering => PlayState::Buffering,
            PlayState::Other(t) => PlayState::Other(t.clone()),
        }
    }

    /// Whether two states are the same.
    pub fn same(&self, other: &PlayState) -> (r: bool)
        ensures
            r == (state_model(*self) == state_model(*other)),
    {
        match (self, other) {
            (PlayState::Playing, PlayState::Playing) => true,
            (PlayState::Paused, PlayState::Paused) => true,
            (PlayState::Idle, PlayState::Idle) => true,
            (PlayState::Buffering, PlayState::Buffering) => true,
            (PlayState::Other(a), PlayState::Other(b)) => str_same(a.as_str(), b.as_str()),
            _ => false,
        }
    }

    pub fn text(&self) -> (r: String)
        ensures
            r@ == state_text(*self),
    {
        match self {
            PlayState::Playing => "PLAYING".to_string(),
            PlayState::Paused => "PAUSED".to_string(),
            PlayState::Idle => "IDLE".to_string(),
            PlayState::Buffering => "BUFFERING".to_string(),
            PlayState::Other(t) => t.clone(),
        }
    }

    pub fn playing(&self) -> (r: bool)
        ensures
            r == is_playing(*self),
    {
        match self {
            PlayState::Playing => true,
            PlayState::Buffering => true,
            _ => false,
        }
    }
}

/// What a device plays.
#[derive(Debug)]
pub struct MediaInfo {
    pub state: PlayState,
    pub title: Option<String>,
    pub artist: Option<String>,
    pub app: Option<String>,
    pub supports_transport: bool,
    pub album: Option<String>,
    /// The address of a picture.
    pub image: Option<String>,
    pub position_ms: Option<u64>,
    pub duration_ms: Option<u64>,
    /// When the position was read, in milliseconds.
    pub position_at: Option<i64>,
    /// The address and the type of what is played, where they are known.
    pub content_id: Option<String>,
    pub content_type: Option<String>,
}

/// What a device plays, by value.
pub struct MediaModel {
    pub state: StateModel,
    pub title: Option<Seq<char>>,
    pub artist: Option<Seq<char>>,
    pub app: Option<Seq<char>>,
    pub supports_transport: bool,
    pub album: Option<Seq<char>>,
    pub image: Option<Seq<char>>,
    pub position_ms: Option<u64>,
    pub duration_ms: Option<u64>,
    pub position_at: Option<i64>,
    pub content_id: Option<Seq<char>>,
    pub content_type: Option<Seq<char>>,
}

pub open spec fn media_model(m: MediaInfo) -> MediaModel {
    MediaModel {
        state: state_model(m.state),
        title: opt(m.title),
        artist: opt(m.artist),
        app: opt(m.app),
        supports_transport: m.supports_transport,
        album: opt(m.album),
        image: opt(m.image),
        position_ms: m.position_ms,
        duration_ms: m.duration_ms,
        position_at: m.position_at,
        content_id: opt(m.content_id),
        content_type: opt(m.content_type),
    }
}

pub open spec fn opt_media(m: Option<MediaInfo>) -> Option<MediaModel> {
    match m {
        Some(x) => Some(media_model(x)),
        None => None,
    }
}

/// Something that a TV can show: an input or an app.
#[derive(Debug)]
pub struct InputOption {
    pub id: String,
    pub label: String,
    /// `input`, `app`, or `player` for the channel of our own.
    pub kind: String,
    pub icon: Option<String>,
}

/// Something that a TV can show, by value.
pub struct InputModel {
    pub id: Seq<char>,
    pub label: Seq<char>,
    pub kind: Seq<char>,
    pub icon: Option<Seq<char>>,
}

pub open spec fn input_model(i: InputOption) -> InputModel {
    InputModel { id: i.id@, label: i.label@, kind: i.kind@, icon: opt(i.icon) }
}

pub open spec fn input_models(v: Seq<InputOption>) -> Seq<InputModel> {
    v.map_values(|i: InputOption| input_model(i))
}

/// What a TV does.
#[derive(Clone, Copy, Debug, PartialEq, Eq, Structural)]
pub enum Activity {
    Off,
    Screensaver,
    Home,
    Playing,
    Paused,
    Loading,
    LiveTv,
    /// A source outside the TV.
    Input,
    /// An app that reports no playback.
    App,
}

/// The state of a TV.
#[derive(Debug)]
pub struct TvStatus {
    /// Power, inputs and questions about apps are refused.
    pub restricted: bool,
    pub has_power: bool,
    /// Channels of our own can be installed.
    pub dev_mode: bool,
    /// The channel of our own is installed.
    pub player_ready: bool,
    /// Whether the screen is on, if the TV says so.
    pub power: Option<bool>,
    pub showing: Option<String>,
    pub showing_icon: Option<String>,
    pub showing_detail: Option<String>,
    pub activity: Option<Activity>,
    pub position_ms: Option<u64>,
    pub duration_ms: Option<u64>,
    pub position_at: Option<i64>,
    pub is_live: bool,
    pub inputs: Vec<InputOption>,
    /// Headphones are plugged into the remote or the app.
    pub headphones: bool,
    pub model: Option<String>,
    pub firmware: Option<String>,
}

/// The state of a TV, by value.
pub struct TvModel {
    pub restricted: bool,
    pub has_power: bool,
    pub dev_mode: bool,
    pub player_ready: bool,
    pub power: Option<bool>,
    pub showing: Option<Seq<char>>,
    pub showing_icon: Option<Seq<char>>,
    pub showing_detail: Option<Seq<char>>,
    pub activity: Option<Activity>,
    pub position_ms: Option<u64>,
    pub duration_ms: Option<u64>,
    pub position_at: Option<i64>,
    pub is_live: bool,
    pub inputs: Seq<InputModel>,
    pub headphones: bool,
    pub model: Option<Seq<char>>,
    pub firmware: Option<Seq<char>>,
}

pub open spec fn tv_model(t: TvStatus) -> TvModel {
    TvModel {
        restricted: t.restricted,
        has_power: t.has_power,
        dev_mode: t.dev_mode,
        player_ready: t.player_ready,
        power: t.power,
        showing: opt(t.showing),
        showing_icon: opt(t.showing_icon),
        showing_detail: opt(t.showing_detail),
        activity: t.activity,
        position_ms: t.position_ms,
        duration_ms: t.duration_ms,
        position_at: t.position_at,
        is_live: t.is_live,
        inputs: input_models(t.inputs@),
        headphones: t.headphones,
        model: opt(t.model),
        firmware: opt(t.firmware),
    }
}

/// The state of a TV of which nothing is known.
pub open spec fn no_status() -> TvModel {
    TvModel {
        restricted: false,
        has_power: false,
        dev_mode: false,
        player_ready: false,
        power: None,
        showing: None,
        showing_icon: None,
        showing_detail: None,
        activity: None,
        position_ms: None,
        duration_ms: None,
        position_at: None,
        is_live: false,
        inputs: Seq::empty(),
        headphones: false,
        model: None,
        firmware: None,
    }
}

impl TvStatus {
    pub fn unknown() -> (r: TvStatus)
        ensures
            tv_model(r) == no_status(),
    {
        let r = TvStatus {
            restricted: false,
            has_power: false,
            dev_mode: false,
            player_ready: false,
            power: None,
            showing: None,
            showing_icon: None,
            showing_detail: None,
            activity: None,
            position_ms: None,
            duration_ms: None,
            position_at: None,
            is_live: false,
            inputs: Vec::new(),
            headphones: false,
            model: None,
            firmware: None,
        };
        proof {
            assert(input_models(r.inputs@) =~= Seq::<InputModel>::empty());
        }
        r
    }
}

/// A device of the home.
#[derive(Debug)]
pub struct DeviceInfo {
    pub id: String,
    pub backend: Backend,
    pub friendly_name: String,
    pub custom_name: Option<String>,
    pub model: String,
    pub ip: String,
    pub port: u16,
    pub is_cast_group: bool,
    pub online: bool,
    /// When it was last heard of, in seconds.
    pub last_seen: i64,
    /// Its level.
    pub volume: i64,
    pub muted: bool,
    pub can_absolute_volume: bool,
    /// Its gain.
    pub sync_gain: i64,
    pub tv: Option<TvStatus>,
    pub media: Option<MediaInfo>,
}

/// Something to be played from an address.
#[derive(Debug)]
pub struct CastItem {
    pub url: String,
    pub title: String,
    pub content_type: String,
    pub subtitles: Option<String>,
    pub autoplay: bool,
}

/// Something to be played, by value.
pub struct ItemModel {
    pub url: Seq<char>,
    pub title: Seq<char>,
    pub content_type: Seq<char>,
    pub subtitles: Option<Seq<char>>,
    pub autoplay: bool,
}

pub open spec fn item_model(i: CastItem) -> ItemModel {
    ItemModel {
        url: i.url@,
        title: i.title@,
        content_type: i.content_type@,
        subtitles: opt(i.subtitles),
        autoplay: i.autoplay,
    }
}

pub open spec fn item_models(v: Seq<CastItem>) -> Seq<ItemModel> {
    v.map_values(|i: CastItem| item_model(i))
}

impl ItemModel {
    /// Whether it is a picture.
    pub open spec fn is_image(self) -> bool {
        starts(self.content_type, "image/"@)
    }
}

impl CastItem {
    pub fn is_image(&self) -> (r: bool)
        ensures
            r == item_model(*self).is_image(),
    {
        starts_with(self.content_type.as_str(), "image/")
    }

    pub fn copy(&self) -> (r: CastItem)
        ensures
            item_model(r) == item_model(*self),
    {
        CastItem {
            url: self.url.clone(),
            title: self.title.clone(),
            content_type: self.content_type.clone(),
            subtitles: copy_opt(&self.subtitles),
            autoplay: self.autoplay,
        }
    }
}

/// What a device is told.
#[derive(Debug)]
pub enum DeviceCmd {
    SetVolume(i64),
    SetMuted(bool),
    Play,
    Pause,
    Next,
    Prev,
    Refresh,
    Power(bool),
    /// The id of an input.
    Input(String),
    /// A key of a remote control.
    Key(String),
    /// Move to a position, in milliseconds.
    Seek(u64),
    Cast(Vec<CastItem>),
    PollMedia,
    StopCasting,
    Resync,
    Shutdown,
}

/// What a device reports.
#[derive(Debug)]
pub enum CoreEvent {
    VolumeChanged { id: String, volume: i64, muted: bool },
    MediaChanged { id: String, media: Option<MediaInfo> },
    Online { id: String, online: bool },
    /// The speakers of a group, by their normal ids.
    GroupMembers { id: String, members: Vec<String> },
    /// The state of a TV, and the network addresses by which it is woken.
    DeviceStatus { id: String, tv: TvStatus, macs: Vec<String> },
}

/// What a device reports, by value.
pub enum EventModel {
    Volume(Seq<char>, int, bool),
    Media(Seq<char>, Option<MediaModel>),
    Online(Seq<char>, bool),
    Members(Seq<char>, Seq<Seq<char>>),
    Status(Seq<char>, TvModel, Seq<Seq<char>>),
}

pub open spec fn event_model(e: CoreEvent) -> EventModel {
    match e {
        CoreEvent::VolumeChanged { id, volume, muted } => EventModel::Volume(id@, volume as int, muted),
        CoreEvent::MediaChanged { id, media } => EventModel::Media(id@, opt_media(media)),
        CoreEvent::Online { id, online } => EventModel::Online(id@, online),
        CoreEvent::GroupMembers { id, members } => EventModel::Members(id@, texts(members@)),
        CoreEvent::DeviceStatus { id, tv, macs } => EventModel::Status(id@, tv_model(tv), texts(macs@)),
    }
}

pub open spec fn event_models(v: Seq<CoreEvent>) -> Seq<EventModel> {
    v.map_values(|e: CoreEvent| event_model(e))
}

pub fn push_event(out: &mut Vec<CoreEvent>, e: CoreEvent)
    ensures
        event_models(final(out)@) == event_models(old(out)@).push(event_model(e)),
{
    out.push(e);
    proof {
        assert(event_models(out@) =~= event_models(old(out)@).push(event_model(e)));
    }
}

/// Devices whose volumes follow each other.
#[derive(Debug)]
pub struct AppGroup {
    pub id: String,
    pub name: String,
    pub member_ids: Vec<String>,
    pub sync_enabled: bool,
    pub group_volume: i64,
}

/// A volume that a schedule sets.
#[derive(Debug)]
pub struct ScheduleTarget {
    /// A group or a device.
    pub target_id: String,
    pub is_group: bool,
    pub volume_pct: u8,
}

/// Volumes set at a time of certain weekdays.
#[derive(Debug)]
pub struct ScheduleEvent {
    pub id: String,
    pub enabled: bool,
    /// Monday to Sunday.
    pub days: [bool; 7],
    /// Hours and minutes, two digits each, with a colon between them.
    pub time: String,
    pub targets: Vec<ScheduleTarget>,
}

/// The words by which devices name their states, each for one state and no other word for
/// it. What plays or is about to play counts as playing, and nothing else does.
pub proof fn law_states_have_their_words(t: Seq<char>, s: PlayState)
    ensures
        (state_named(t) is Playing) == (t == "PLAYING"@),
        (state_named(t) is Paused) == (t == "PAUSED"@),
        (state_named(t) is Idle) == (t == "IDLE"@),
        (state_named(t) is Buffering) == (t == "BUFFERING"@),
        state_model(s) == state_named(t) ==> (is_playing(s) == (t == "PLAYING"@ || t == "BUFFERING"@)),
        state_model(s) == state_named(t) ==> state_text(s) == t,
{
    reveal_strlit("PLAYING");
    reveal_strlit("PAUSED");
    reveal_strlit("IDLE");
    reveal_strlit("BUFFERING");
    assert("PLAYING"@.len() == 7 && "PAUSED"@.len() == 6 && "IDLE"@.len() == 4 && "BUFFERING"@.len() == 9);
}

} // verus!
