//! Local volume control, synchronised playback and calendar screens for the
//! speakers and TVs of one home.
//!
//! The library holds every rule of the program as verified functions over plain
//! values. Sockets, files, windows and clocks live in the program around it.

pub mod bits;
pub mod broadcast;
pub mod bytes;
pub mod cal_feeds;
pub mod cal_render;
pub mod cal_schedule;
pub mod cal_video;
pub mod calendar;
pub mod cast;
pub mod commands;
pub mod config;
pub mod control;
pub mod dates;
pub mod events;
pub mod feed_events;
pub mod h264;
pub mod home;
pub mod ics;
pub mod ics_time;
pub mod json;
pub mod levels;
pub mod lg;
pub mod media_server;
pub mod mp4;
pub mod optoma;
pub mod proto;
pub mod recurrence;
pub mod registry;
pub mod roku;
pub mod roku_player;
pub mod roku_remote;
pub mod rrule;
pub mod saver_import;
pub mod series;
pub mod sync_play;
pub mod text;
pub mod types;
pub mod wave;
pub mod windows_zones;
pub mod xml;
pub mod yamaha;
pub mod zones;

