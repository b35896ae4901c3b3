//! Still pictures as videos: bits, parameter sets, boxes and frames; and text.

use volume_sync::bits::{BitReader, BitWriter};
use volume_sync::bytes::{decode_text, percent_decode};
use volume_sync::cal_video::{
    bgra_to_nv12, check_encode, find_parameter_sets, frame_span, h264_level, plan_encode, skip_frame, temp_name, EncodePlan,
};
use volume_sync::config::{config_dirs, config_path, find_key, put_value, remove_key, AppConfig};
use volume_sync::h264::{escape, parse_pps, parse_sps, split_annexb, unescape, Pps, Sps};
use volume_sync::ics::unescape_text;
use volume_sync::ics_time::parse_duration;
use volume_sync::mp4::{move_index_to_front, patch_chunk_offsets, top_level_boxes};
use volume_sync::text::{
    decimal_text, is_before, parse_signed, parse_unsigned, prefix_of_bytes, signed_decimal_text, split_char, trim_str, zero_padded,
};

fn chars(s: &str) -> Vec<char> {
    s.chars().collect()
}

fn text(v: Vec<char>) -> String {
    v.into_iter().collect()
}

#[test]
fn bits_round_trip() {
    let mut w = BitWriter::new();
    w.bits(5, 3);
    for v in [0u32, 1, 2, 7, 8, 1_000_000] {
        w.ue(v);
    }
    let b = w.finish();
    let mut r = BitReader { d: &b, pos: 0 };
    assert_eq!(r.bits(3), Ok(5));
    for v in [0u32, 1, 2, 7, 8, 1_000_000] {
        assert_eq!(r.ue(), Ok(v));
    }
    let mut r = BitReader { d: &[0b0110_0100], pos: 0 };
    assert_eq!(r.se(), Ok(-1));
    let mut r = BitReader { d: &[0], pos: 8 };
    assert!(r.bit().is_err());
}

#[test]
fn start_codes_are_hidden_and_found() {
    let raw = vec![0u8, 0, 0, 1, 0, 0, 3, 9, 0, 0];
    let e = escape(&raw);
    assert_eq!(e, vec![0, 0, 3, 0, 1, 0, 0, 3, 3, 9, 0, 0]);
    assert_eq!(unescape(&e), raw);
    assert!(!e.windows(3).any(|w| w == [0, 0, 1]));
    let units = split_annexb(&[0, 0, 0, 1, 0x67, 1, 0, 0, 1, 0x68, 2]);
    assert_eq!(units, vec![vec![0x67, 1], vec![0x68, 2]]);
    assert!(split_annexb(&[1, 2, 3]).is_empty());
}

/// A picture of 16 by 16 points in the constrained profile.
fn sps_bytes() -> Vec<u8> {
    let mut w = BitWriter::new();
    w.bits(0x67, 8);
    w.bits(66, 8);
    w.bits(0xC0, 8);
    w.bits(31, 8);
    w.ue(0); // id
    w.ue(0); // frame numbers of four bits
    w.ue(0); // order counts of type 0
    w.ue(2); // of six bits
    w.ue(1); // reference frames
    w.bits(0, 1);
    w.ue(0); // one macroblock wide
    w.ue(0); // and one high
    w.bits(1, 1); // whole frames
    w.bits(0, 1);
    w.bits(0, 1);
    w.bits(0, 1);
    w.bits(1, 1);
    w.finish()
}

fn pps_bytes() -> Vec<u8> {
    let mut w = BitWriter::new();
    w.bits(0x68, 8);
    w.ue(0);
    w.ue(0);
    w.bits(0, 1); // without arithmetic coding
    w.bits(0, 1);
    w.ue(0); // slice groups
    w.ue(0);
    w.ue(0);
    w.bits(0, 1);
    w.bits(0, 2);
    w.ue(0); // se 0
    w.ue(0);
    w.ue(0);
    w.bits(1, 1); // deblocking control
    w.bits(0, 1);
    w.bits(0, 1);
    w.bits(1, 1);
    w.finish()
}

#[test]
fn parameter_sets() {
    let sps = parse_sps(&sps_bytes()[1..]).unwrap();
    assert_eq!((sps.log2_max_frame_num, sps.poc_type, sps.log2_max_poc_lsb, sps.mbs), (4, 0, 6, 1));
    let pps = parse_pps(&pps_bytes()[1..]).unwrap();
    assert_eq!((pps.id, pps.cabac, pps.deblock_control), (0, false, true));
    assert!(parse_sps(&[0x67]).is_err());
    assert!(parse_pps(&[0x68]).is_err());
    let mut stream = vec![0, 0, 0, 1];
    stream.extend(sps_bytes());
    stream.extend([0, 0, 1]);
    stream.extend(pps_bytes());
    let (a, b) = find_parameter_sets(&stream, &[]).unwrap();
    assert_eq!((a, b), (sps, pps));
    assert!(find_parameter_sets(&[], &[]).is_err());
}

#[test]
fn repeated_frames() {
    let sps = Sps { log2_max_frame_num: 4, poc_type: 0, log2_max_poc_lsb: 6, mbs: 1 };
    let pps = Pps { id: 0, cabac: false, bottom_field_poc: false, deblock_control: true, redundant_pic_cnt: false };
    let a = skip_frame(&sps, &pps, 1);
    let b = skip_frame(&sps, &pps, 2);
    assert_ne!(a, b);
    assert_eq!(&a[..5], &[0, 0, 0, 1, 0x41]);
    assert_eq!(split_annexb(&a).len(), 1);
    // 0, 5, 0, the frame number, the order count, one reference, and one macroblock that is skipped.
    assert_eq!(unescape(&a[5..])[..2], [0b1_00110_1_0, 0b001_00001]);
}

#[test]
fn frames_fill_the_time() {
    let total = 75 * 10_000_000;
    let mut at = 0;
    for i in 0..7 {
        let (start, len) = frame_span(i, 7, total);
        assert_eq!(start, at);
        at = start + len;
    }
    assert_eq!(at, total);
    assert_eq!((h264_level(1280, 720), h264_level(1920, 1080), h264_level(3840, 2160)), (31, 41, 51));
    assert_eq!((h264_level(640, 480), h264_level(1296, 720), h264_level(2560, 1440)), (31, 41, 50));
    assert_eq!(temp_name("a.mp4", 12, "tmp.mp4"), "a.mp4.12.tmp.mp4");
}

#[test]
fn videos_are_checked_and_planned() {
    assert_eq!(check_encode(16, 2, 2, 75, Some(1)), Ok(()));
    assert_eq!(check_encode(16, 3, 2, 75, None), Err("width and height must be even and non-zero, got 3x2".to_string()));
    assert_eq!(check_encode(16, 5000, 2, 75, None), Err("5000x2 is larger than H.264 level 5.1 allows".to_string()));
    assert_eq!(check_encode(15, 2, 2, 75, None), Err("bgra is 15 bytes, need 16".to_string()));
    assert_eq!(check_encode(16, 2, 2, 0, None), Err("seconds must be 1..=86400, got 0".to_string()));
    assert_eq!(check_encode(16, 2, 2, 1, Some(31)), Err("fps must be 1..=30, got 31".to_string()));
    match plan_encode(75, Some(1), true) {
        EncodePlan::Repeat { first, otherwise } => {
            assert_eq!((first.frames, first.total_ticks, first.cavlc), (1, 10_000_000, true));
            assert_eq!((otherwise.frames, otherwise.rate), (75, 1));
        }
        EncodePlan::All(_) => panic!("not repeated"),
    }
    assert!(matches!(plan_encode(75, None, true), EncodePlan::All(p) if p.frames == 1));
}

#[test]
fn white_and_black() {
    let white = bgra_to_nv12(&[255u8; 16], 2, 2);
    assert_eq!(white, vec![235, 235, 235, 235, 128, 128]);
    let black = bgra_to_nv12(&[0u8; 16], 2, 2);
    assert_eq!(black, vec![16, 16, 16, 16, 128, 128]);
}

fn mp4_box(kind: &[u8; 4], body: &[u8]) -> Vec<u8> {
    let mut b = ((8 + body.len()) as u32).to_be_bytes().to_vec();
    b.extend_from_slice(kind);
    b.extend_from_slice(body);
    b
}

fn index(offset: u32) -> Vec<u8> {
    let mut stco = vec![0, 0, 0, 0, 0, 0, 0, 1];
    stco.extend_from_slice(&offset.to_be_bytes());
    let mut b = mp4_box(b"stco", &stco);
    for k in [b"stbl", b"minf", b"mdia", b"trak", b"moov"] {
        b = mp4_box(k, &b);
    }
    b
}

#[test]
fn the_index_moves_to_the_front() {
    let ftyp = mp4_box(b"ftyp", b"isom");
    let mdat = mp4_box(b"mdat", b"picture");
    let at = (ftyp.len() + 8) as u32;
    let moov = index(at);
    let file = [ftyp.clone(), mdat.clone(), moov.clone()].concat();
    let out = move_index_to_front(&file).unwrap().unwrap();
    let want = [ftyp.clone(), index(at + moov.len() as u32), mdat.clone()].concat();
    assert_eq!(out, want);
    assert_eq!(move_index_to_front(&want), Ok(None));
    assert_eq!(top_level_boxes(&file).unwrap().len(), 3);
    assert!(top_level_boxes(&[0, 0, 0, 3, 1, 2, 3, 4]).is_err());
    assert!(move_index_to_front(&ftyp).is_err());
    let mut d = index(u32::MAX);
    let n = d.len();
    assert!(patch_chunk_offsets(&mut d, 8, n, 1).is_err());
}

#[test]
fn text_and_numbers() {
    assert_eq!(trim_str(" \u{a0}x\t"), "x");
    assert_eq!(text(decimal_text(u64::MAX)), "18446744073709551615");
    assert_eq!(text(signed_decimal_text(i64::MIN)), "-9223372036854775808");
    assert_eq!(text(zero_padded(decimal_text(7), 3)), "007");
    assert_eq!(parse_unsigned(&chars("+12"), 255), Some(12));
    assert_eq!(parse_unsigned(&chars("256"), 255), None);
    assert_eq!(parse_signed(&chars("-12"), 255), Some(-12));
    assert_eq!(split_char(&chars("a,,b"), ',').len(), 3);
    assert!(is_before(&chars("ab"), &chars("b")) && !is_before(&chars("b"), &chars("ab")));
    assert_eq!(prefix_of_bytes(&chars("\u{e9}x"), 2), Some(1));
    assert_eq!(prefix_of_bytes(&chars("\u{e9}x"), 1), None);
    assert_eq!(text(unescape_text(&chars("a\\,b\\nc\\\\d"))), "a,b\nc\\d");
    assert_eq!(parse_duration(&chars("-P1DT2H")), Some(-93_600));
    assert_eq!(parse_duration(&chars("1D")), None);
}

#[test]
fn bytes_as_text() {
    assert_eq!(decode_text(&[0xEF, 0xBB, 0xBF, b'a', 0xFF]), "a\u{fffd}");
    assert_eq!(percent_decode("a%20b%zz%C3%A9%4"), "a b%zz\u{e9}%4");
}

#[test]
fn settings_and_keys() {
    let c = AppConfig::default();
    assert!(c.settings.start_with_windows && !c.settings.auto_update && c.calendar.theme == "dark");
    let (new, old) = config_dirs("base");
    assert!(new.ends_with("GoogleHomeVolumeSync") && old.ends_with("PactoCastSync"));
    assert!(config_path("d").starts_with('d') && config_path("d").ends_with("config.json"));
    let mut v: Vec<(String, u8)> = Vec::new();
    put_value(&mut v, "a", 1);
    put_value(&mut v, "b", 2);
    put_value(&mut v, "a", 3);
    assert_eq!(v, vec![("a".to_string(), 3), ("b".to_string(), 2)]);
    remove_key(&mut v, "a");
    assert_eq!(find_key(&v, "b"), Some(0));
}
