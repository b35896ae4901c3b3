//! A still picture as a short video: what is asked of the encoder, the frames that
//! repeat the first one, and the picture in the encoder's colours.

use vstd::prelude::*;
use crate::bits::{
    binary, bytes_of, lemma_binary_bits, padded, read_bits, read_ue, two_to, ue_code, value_at, zeros, BitWriter,
};
use crate::h264::{
    begins, copy_bytes, escape, escaped, is_found, is_start_code, law_escape_hides_start_codes, lemma_begins_more,
    lemma_begins_part, lemma_bits_here, lemma_ue_here, next_start, parse_pps, parse_sps, pps_of, split_annexb,
    sps_of, unescape, unescaped, unit_views, units_from, units_of, without_zeros, Pps, Sps,
};
use crate::text::{chars_of, decimal, decimal_text, string_of};

verus! {

/// Time units per second.
pub const TICKS: i64 = 10_000_000;

// ---------------------------------------------------------------------------
// What is asked of the encoder
// ---------------------------------------------------------------------------

/// How many frames the encoder is fed, and over what span of time.
#[derive(Clone, Copy, Debug, PartialEq, Eq, Structural)]
pub struct Plan {
    pub rate: u32,
    pub frames: u32,
    pub total_ticks: i64,
    pub cavlc: bool,
}

/// How a video is made.
#[derive(Clone, Copy, Debug, PartialEq, Eq, Structural)]
pub enum EncodePlan {
    /// All frames are encoded.
    All(Plan),
    /// One frame is encoded and then repeated; should that fail, all are.
    Repeat { first: Plan, otherwise: Plan },
}

pub open spec fn size_text(w: int, h: int) -> Seq<char> {
    decimal(w) + "x"@ + decimal(h)
}

/// Why a picture cannot be made into a video: an odd or empty size, one that is
/// too large, too few bytes, a bad duration or a bad frame rate, in that order.
pub open spec fn refusal(len: int, w: int, h: int, seconds: int, fps: Option<u32>) -> Option<Seq<char>> {
    if w == 0 || h == 0 || w % 2 != 0 || h % 2 != 0 {
        Some("width and height must be even and non-zero, got "@ + size_text(w, h))
    } else if w > 4096 || h > 2304 {
        Some(size_text(w, h) + " is larger than H.264 level 5.1 allows"@)
    } else if len < 4 * (w * h) {
        Some("bgra is "@ + decimal(len) + " bytes, need "@ + decimal(4 * (w * h)))
    } else if seconds == 0 || seconds > 86_400 {
        Some("seconds must be 1..=86400, got "@ + decimal(seconds))
    } else {
        match fps {
            Some(f) => if f == 0 || f > 30 {
                Some("fps must be 1..=30, got "@ + decimal(f as int))
            } else {
                None
            },
            None => None,
        }
    }
}

fn join3(a: &str, n: u64, b: &str) -> (r: Vec<char>)
    ensures
        r@ == a@ + decimal(n as int) + b@,
{
    let mut v = chars_of(a);
    let mut d = decimal_text(n);
    let mut t = chars_of(b);
    v.append(&mut d);
    v.append(&mut t);
    v
}

/// Why a picture cannot be made into a video, if it cannot.
pub fn check_encode(len: usize, width: u32, height: u32, seconds: u32, fps: Option<u32>) -> (r: Result<(), String>)
    ensures
        match r {
            Ok(_) => refusal(len as int, width as int, height as int, seconds as int, fps) is None,
            Err(e) => refusal(len as int, width as int, height as int, seconds as int, fps) == Some(e@),
        },
{
    if width == 0 || height == 0 || width % 2 != 0 || height % 2 != 0 {
        let mut v = join3("width and height must be even and non-zero, got ", width as u64, "x");
        let mut h = decimal_text(height as u64);
        v.append(&mut h);
        proof {
            assert(v@ =~= "width and height must be even and non-zero, got "@ + size_text(
                width as int,
                height as int,
            ));
        }
        return Err(string_of(v.as_slice()));
    }
    if width > 4096 || height > 2304 {
        let mut v = decimal_text(width as u64);
        let mut t = join3("x", height as u64, " is larger than H.264 level 5.1 allows");
        v.append(&mut t);
        proof {
            assert(v@ =~= size_text(width as int, height as int) + " is larger than H.264 level 5.1 allows"@);
        }
        return Err(string_of(v.as_slice()));
    }
    proof {
        assert(0 <= width * height <= 4096 * 2304) by (nonlinear_arith)
            requires
                0 <= width <= 4096,
                0 <= height <= 2304,
        ;
    }
    let need: u64 = 4 * (width as u64 * height as u64);
    if (len as u64) < need {
        let mut v = join3("bgra is ", len as u64, " bytes, need ");
        let mut n = decimal_text(need);
        v.append(&mut n);
        return Err(string_of(v.as_slice()));
    }
    if seconds == 0 || seconds > 86_400 {
        let mut v = chars_of("seconds must be 1..=86400, got ");
        let mut n = decimal_text(seconds as u64);
        v.append(&mut n);
        return Err(string_of(v.as_slice()));
    }
    match fps {
        Some(f) => {
            if f == 0 || f > 30 {
                let mut v = chars_of("fps must be 1..=30, got ");
                let mut n = decimal_text(f as u64);
                v.append(&mut n);
                return Err(string_of(v.as_slice()));
            }
        },
        None => {},
    }
    Ok(())
}

/// How a video of some seconds is made. Without a frame rate it is one frame. With
/// one, and two frames or more, only the first is encoded, unless repeating frames
/// is switched off.
pub open spec fn plan_of(seconds: int, fps: Option<u32>, synth_repeats: bool) -> EncodePlan {
    let total = seconds * TICKS;
    match fps {
        None => EncodePlan::All(Plan { rate: 1, frames: 1, total_ticks: total as i64, cavlc: false }),
        Some(f) => {
            let full = Plan { rate: f, frames: (seconds * f) as u32, total_ticks: total as i64, cavlc: false };
            if !synth_repeats || seconds * f < 2 {
                EncodePlan::All(full)
            } else {
                EncodePlan::Repeat {
                    first: Plan { rate: 1, frames: 1, total_ticks: (TICKS as int / f as int) as i64, cavlc: true },
                    otherwise: full,
                }
            }
        },
    }
}

pub fn plan_encode(seconds: u32, fps: Option<u32>, synth_repeats: bool) -> (r: EncodePlan)
    requires
        1 <= seconds <= 86_400,
        fps matches Some(f) ==> 1 <= f <= 30,
    ensures
        r == plan_of(seconds as int, fps, synth_repeats),
{
    let total_ticks: i64 = seconds as i64 * TICKS;
    match fps {
        None => EncodePlan::All(Plan { rate: 1, frames: 1, total_ticks, cavlc: false }),
        Some(f) => {
            proof {
                assert(0 <= seconds * f <= 86_400 * 30) by (nonlinear_arith)
                    requires
                        1 <= seconds <= 86_400,
                        1 <= f <= 30,
                ;
            }
            let frames: u32 = seconds * f;
            let full = Plan { rate: f, frames, total_ticks, cavlc: false };
            if !synth_repeats || frames < 2 {
                EncodePlan::All(full)
            } else {
                EncodePlan::Repeat {
                    first: Plan { rate: 1, frames: 1, total_ticks: TICKS / f as i64, cavlc: true },
                    otherwise: full,
                }
            }
        },
    }
}

/// When the i-th of `n` frames begins.
pub open spec fn frame_start(i: int, n: int, total: int) -> int {
    i * total / n
}

/// When the i-th of `n` frames begins, and how long it lasts.
pub fn frame_span(i: u32, n: u32, total: i64) -> (r: (i64, i64))
    requires
        i < n,
        0 <= total <= 0x1_0000_0000_0000,
    ensures
        r.0 == frame_start(i as int, n as int, total as int),
        r.0 + r.1 == frame_start(i + 1, n as int, total as int),
        r.1 >= 0,
{
    proof {
        assert(0 <= i * total <= 0x1_0000_0000 * 0x1_0000_0000_0000) by (nonlinear_arith)
            requires
                0 <= i < 0x1_0000_0000,
                0 <= total <= 0x1_0000_0000_0000,
        ;
        assert(0 <= (i + 1) * total <= 0x1_0000_0000 * 0x1_0000_0000_0000) by (nonlinear_arith)
            requires
                0 <= i < 0x1_0000_0000 - 1,
                0 <= total <= 0x1_0000_0000_0000,
        ;
        lemma_frame_order(i as int, n as int, total as int);
        lemma_frame_order(i + 1, n as int, total as int);
    }
    let a: i128 = i as i128 * total as i128 / n as i128;
    let b: i128 = (i as i128 + 1) * total as i128 / n as i128;
    (a as i64, (b - a) as i64)
}

proof fn lemma_frame_order(i: int, n: int, total: int)
    by (nonlinear_arith)
    requires
        0 <= i <= n,
        0 < n,
        0 <= total,
    ensures
        0 <= i * total / n <= total,
        i * total / n <= (i + 1) * total / n,
{
}

/// The frames follow each other without a gap: the first begins at zero, each ends
/// where the next begins, and the last ends with the video.
pub proof fn law_frames_fill_the_time(n: int, total: int)
    requires
        n > 0,
        total >= 0,
    ensures
        frame_start(0, n, total) == 0,
        frame_start(n, n, total) == total,
        forall|i: int| 0 <= i < n ==> #[trigger] frame_start(i, n, total) <= frame_start(i + 1, n, total),
{
    assert(0 * total / n == 0) by (nonlinear_arith)
        requires
            n > 0,
    ;
    assert(n * total / n == total) by (nonlinear_arith)
        requires
            n > 0,
    ;
    assert forall|i: int| 0 <= i < n implies #[trigger] frame_start(i, n, total) <= frame_start(i + 1, n, total) by {
        lemma_frame_order(i, n, total);
    }
}

/// The macroblocks of a picture.
pub open spec fn macroblocks(w: int, h: int) -> int {
    ((w + 15) / 16) * ((h + 15) / 16)
}

/// The macroblocks that a picture may have at most at one of the H.264 levels 3.1, 4.1,
/// 5 and 5.1, each written as ten times its number.
pub open spec fn most_macroblocks(level: int) -> int {
    if level == 31 {
        3_600
    } else if level == 41 {
        8_192
    } else if level == 50 {
        22_080
    } else {
        36_864
    }
}

/// The smallest of those levels whose limit on the picture's size fits; the largest of
/// them where none does.
pub open spec fn level_of(w: int, h: int) -> u32 {
    let n = macroblocks(w, h);
    if n <= 3_600 {
        31
    } else if n <= 8192 {
        41
    } else if n <= 22_080 {
        50
    } else {
        51
    }
}

pub fn h264_level(width: u32, height: u32) -> (r: u32)
    ensures
        r == level_of(width as int, height as int),
{
    let a: u64 = (width as u64 + 15) / 16;
    let b: u64 = (height as u64 + 15) / 16;
    proof {
        assert(0 <= a * b <= 0x1000_0000 * 0x1000_0000) by (nonlinear_arith)
            requires
                0 <= a <= 0x1000_0000,
                0 <= b <= 0x1000_0000,
        ;
    }
    let n: u64 = a * b;
    if n <= 3_600 {
        31
    } else if n <= 8192 {
        41
    } else if n <= 22_080 {
        50
    } else {
        51
    }
}

/// The level is the smallest that the picture fits: it fits that one, and none of the
/// smaller ones. All pictures that can be encoded fit the largest.
pub proof fn law_smallest_level(w: int, h: int, other: int)
    requires
        0 < w <= 4096,
        0 < h <= 2304,
        other == 31 || other == 41 || other == 50 || other == 51,
    ensures
        macroblocks(w, h) <= most_macroblocks(level_of(w, h) as int),
        macroblocks(w, h) <= most_macroblocks(other) ==> level_of(w, h) <= other,
{
    let a = (w + 15) / 16;
    let b = (h + 15) / 16;
    assert(a * b <= 256 * 144) by (nonlinear_arith)
        requires
            0 <= a <= 256,
            0 <= b <= 144,
    ;
}

// ---------------------------------------------------------------------------
// Frames that repeat the first
// ---------------------------------------------------------------------------

/// Bits that are there only on a condition.
pub open spec fn bits_if(c: bool, s: Seq<int>) -> Seq<int> {
    if c {
        s
    } else {
        Seq::empty()
    }
}

/// A slice that takes its whole picture from the frame before: its header, and a
/// run of skipped macroblocks as long as the picture.
pub open spec fn skip_bits_of(sps: Sps, pps: Pps, index: int) -> Seq<int> {
    ue_code(0) + ue_code(5) + ue_code(pps.id as int) + binary(index, sps.log2_max_frame_num as int) + bits_if(
        sps.poc_type == 0,
        binary(2 * index, sps.log2_max_poc_lsb as int) + bits_if(pps.bottom_field_poc, ue_code(0)),
    ) + bits_if(pps.redundant_pic_cnt, ue_code(0)) + seq![1int] + ue_code(0) + seq![0int] + seq![0int] + ue_code(0)
        + bits_if(pps.deblock_control, ue_code(1)) + ue_code(sps.mbs as int)
}

/// The unit's payload: those bits, ended and filled up to whole bytes.
pub open spec fn skip_payload(sps: Sps, pps: Pps, index: int) -> Seq<u8> {
    bytes_of(padded(skip_bits_of(sps, pps, index)))
}

/// A whole frame: a start code, the unit's first byte, and the escaped payload.
pub open spec fn skip_frame_of(sps: Sps, pps: Pps, index: int) -> Seq<u8> {
    seq![0u8, 0u8, 0u8, 1u8, 0x41u8] + escaped(skip_payload(sps, pps, index), 0, 0)
}

/// Whether the numbers of the parameter sets fit a frame header.
pub open spec fn sets_fit(sps: Sps) -> bool {
    sps.log2_max_frame_num <= 31 && sps.log2_max_poc_lsb <= 31 && sps.mbs <= u32::MAX
}

/// The frame with a number, in which nothing changes.
pub fn skip_frame(sps: &Sps, pps: &Pps, index: u32) -> (r: Vec<u8>)
    requires
        sets_fit(*sps),
    ensures
        r@ == skip_frame_of(*sps, *pps, index as int),
{
    let mut w = BitWriter::new();
    w.ue(0);
    w.ue(5);
    w.ue(pps.id);
    w.bits(index as u64, sps.log2_max_frame_num as u32);
    let ghost s1 = w.bits_view();
    if sps.poc_type == 0 {
        w.bits(2 * index as u64, sps.log2_max_poc_lsb as u32);
        if pps.bottom_field_poc {
            w.ue(0);
        }
    }
    let ghost s2 = w.bits_view();
    proof {
        assert(s2 =~= s1 + bits_if(
            sps.poc_type == 0,
            binary(2 * index, sps.log2_max_poc_lsb as int) + bits_if(pps.bottom_field_poc, ue_code(0)),
        ));
    }
    if pps.redundant_pic_cnt {
        w.ue(0);
    }
    let ghost s3 = w.bits_view();
    proof {
        assert(s3 =~= s2 + bits_if(pps.redundant_pic_cnt, ue_code(0)));
    }
    w.bit(1);
    w.ue(0);
    w.bit(0);
    w.bit(0);
    w.ue(0);
    let ghost s4 = w.bits_view();
    proof {
        assert(s4 =~= s3 + seq![1int] + ue_code(0) + seq![0int] + seq![0int] + ue_code(0));
    }
    if pps.deblock_control {
        w.ue(1);
    }
    let ghost s5 = w.bits_view();
    proof {
        assert(s5 =~= s4 + bits_if(pps.deblock_control, ue_code(1)));
    }
    w.ue(sps.mbs as u32);
    proof {
        assert(s1 =~= ue_code(0) + ue_code(5) + ue_code(pps.id as int) + binary(
            index as int,
            sps.log2_max_frame_num as int,
        ));
        assert(w.bits_view() =~= skip_bits_of(*sps, *pps, index as int));
    }
    let rbsp = w.finish();
    let mut out: Vec<u8> = Vec::new();
    out.push(0);
    out.push(0);
    out.push(0);
    out.push(1);
    out.push(0x41);
    let mut e = escape(rbsp.as_slice());
    out.append(&mut e);
    proof {
        assert(out@ =~= skip_frame_of(*sps, *pps, index as int));
    }
    out
}

proof fn lemma_no_start(d: Seq<u8>, i: int)
    requires
        0 <= i <= d.len(),
        forall|j: int| i <= j ==> !#[trigger] is_start_code(d, j),
    ensures
        next_start(d, i) == d.len(),
    decreases d.len() - i,
{
    if i + 3 <= d.len() {
        assert(!is_start_code(d, i));
        lemma_no_start(d, i + 1);
    }
}

proof fn lemma_escape_last(d: Seq<u8>, i: int, z: int)
    requires
        0 <= i < d.len(),
    ensures
        escaped(d, i, z).len() > 0,
        escaped(d, i, z).last() == d.last(),
    decreases d.len() - i,
{
    if i + 1 < d.len() {
        if z >= 2 && d[i] <= 3 {
            lemma_escape_last(d, i + 1, crate::h264::run_after(0, d[i]));
        } else {
            lemma_escape_last(d, i + 1, crate::h264::run_after(z, d[i]));
        }
    } else {
        reveal_with_fuel(escaped, 2);
        assert(d.last() == d[i]);
    }
}

proof fn lemma_value_positive(s: Seq<int>, pos: int, n: int, k: int)
    requires
        0 <= pos,
        pos + n <= s.len(),
        pos <= k < pos + n,
        s[k] == 1,
        forall|i: int| pos <= i < pos + n ==> 0 <= #[trigger] s[i] <= 1,
    ensures
        value_at(s, pos, n) >= 1,
    decreases n,
{
    if k < pos + n - 1 {
        lemma_value_positive(s, pos, n - 1, k);
    } else {
        lemma_value_nat(s, pos, n - 1);
    }
}

proof fn lemma_value_nat(s: Seq<int>, pos: int, n: int)
    requires
        0 <= pos,
        pos + n <= s.len(),
        forall|i: int| pos <= i < pos + n ==> 0 <= #[trigger] s[i] <= 1,
    ensures
        value_at(s, pos, n) >= 0,
        value_at(s, pos, n) < two_to(n),
    decreases n,
{
    if n > 0 {
        lemma_value_nat(s, pos, n - 1);
    }
}

spec fn all_bits(s: Seq<int>) -> bool {
    forall|i: int| 0 <= i < s.len() ==> 0 <= #[trigger] s[i] <= 1
}

proof fn lemma_bits_join(a: Seq<int>, b: Seq<int>)
    requires
        all_bits(a),
        all_bits(b),
    ensures
        all_bits(a + b),
{
    let s = a + b;
    assert forall|i: int| 0 <= i < s.len() implies 0 <= #[trigger] s[i] <= 1 by {
        if i < a.len() {
            assert(s[i] == a[i]);
        } else {
            assert(s[i] == b[i - a.len()]);
        }
    }
}

proof fn lemma_code_bits(v: int)
    ensures
        all_bits(ue_code(v)),
{
    let k = crate::bits::digits_after_first(v + 1);
    lemma_binary_bits(v + 1, k + 1);
    lemma_bits_join(zeros(k), binary(v + 1, k + 1));
}

proof fn lemma_skip_bits(sps: Sps, pps: Pps, index: int)
    ensures
        all_bits(skip_bits_of(sps, pps, index)),
{
    lemma_code_bits(0);
    lemma_code_bits(5);
    lemma_code_bits(1);
    lemma_code_bits(pps.id as int);
    lemma_code_bits(sps.mbs as int);
    lemma_binary_bits(index, sps.log2_max_frame_num as int);
    lemma_binary_bits(2 * index, sps.log2_max_poc_lsb as int);
    let poc = binary(2 * index, sps.log2_max_poc_lsb as int) + bits_if(pps.bottom_field_poc, ue_code(0));
    lemma_bits_join(binary(2 * index, sps.log2_max_poc_lsb as int), bits_if(pps.bottom_field_poc, ue_code(0)));
    let a = ue_code(0) + ue_code(5);
    lemma_bits_join(ue_code(0), ue_code(5));
    let b = a + ue_code(pps.id as int);
    lemma_bits_join(a, ue_code(pps.id as int));
    let c = b + binary(index, sps.log2_max_frame_num as int);
    lemma_bits_join(b, binary(index, sps.log2_max_frame_num as int));
    let d = c + bits_if(sps.poc_type == 0, poc);
    lemma_bits_join(c, bits_if(sps.poc_type == 0, poc));
    let e = d + bits_if(pps.redundant_pic_cnt, ue_code(0));
    lemma_bits_join(d, bits_if(pps.redundant_pic_cnt, ue_code(0)));
    let f = e + seq![1int];
    lemma_bits_join(e, seq![1int]);
    let g = f + ue_code(0);
    lemma_bits_join(f, ue_code(0));
    let h = g + seq![0int];
    lemma_bits_join(g, seq![0int]);
    let i = h + seq![0int];
    lemma_bits_join(h, seq![0int]);
    let j = i + ue_code(0);
    lemma_bits_join(i, ue_code(0));
    let k = j + bits_if(pps.deblock_control, ue_code(1));
    lemma_bits_join(j, bits_if(pps.deblock_control, ue_code(1)));
    lemma_bits_join(k, ue_code(sps.mbs as int));
}

proof fn lemma_padded_last(s: Seq<int>)
    requires
        all_bits(s),
    ensures
        bytes_of(padded(s)).len() > 0,
        bytes_of(padded(s)).last() != 0,
{
    let p = padded(s);
    let n = p.len() as int;
    assert(all_bits(p)) by {
        lemma_bits_join(s, seq![1int]);
        assert(s.push(1) =~= s + seq![1int]);
        lemma_bits_join(s.push(1), zeros((7 - s.len() as int % 8) % 8));
    }
    assert(n >= 8 && n % 8 == 0);
    assert(p[s.len() as int] == 1);
    lemma_value_positive(p, n - 8, 8, s.len() as int);
    lemma_value_nat(p, n - 8, 8);
    reveal_with_fuel(two_to, 9);
}

/// A frame is one unit of a byte stream: its payload holds no start code and does
/// not end in zeros, whatever the parameter sets.
pub proof fn law_skip_frame_is_one_unit(sps: Sps, pps: Pps, index: int)
    ensures
        units_of(skip_frame_of(sps, pps, index)) == seq![
            seq![0x41u8] + escaped(skip_payload(sps, pps, index), 0, 0),
        ],
{
    lemma_skip_bits(sps, pps, index);
    lemma_padded_last(skip_bits_of(sps, pps, index));
    let p = skip_payload(sps, pps, index);
    let e = escaped(p, 0, 0);
    let d = skip_frame_of(sps, pps, index);
    lemma_escape_last(p, 0, 0);
    assert(d.len() == 5 + e.len());
    assert forall|j: int| 4 <= j implies !#[trigger] is_start_code(d, j) by {
        if j + 3 <= d.len() {
            if j >= 5 {
                assert(d[j] == e[j - 5] && d[j + 1] == e[j - 4] && d[j + 2] == e[j - 3]);
                if e[j - 5] == 0 && e[j - 4] == 0 {
                    law_escape_hides_start_codes(p, j - 5);
                }
            } else {
                assert(d[4] == 0x41);
            }
        }
    }
    reveal_with_fuel(next_start, 3);
    assert(!is_start_code(d, 0)) by {
        assert(d[2] == 0);
    }
    assert(is_start_code(d, 1));
    assert(next_start(d, 0) == 1);
    lemma_no_start(d, 4);
    let u = d.subrange(4, d.len() as int);
    assert(u =~= seq![0x41u8] + e);
    assert(u.last() == e.last());
    assert(without_zeros(u) == u);
    assert(units_from(d, 4) =~= seq![u]);
}

// ---------------------------------------------------------------------------
// The parameter sets of a stream
// ---------------------------------------------------------------------------

/// The payload of a unit, without its first byte and its escapes.
pub open spec fn payload_of(unit: Seq<u8>) -> Seq<u8> {
    unescaped(unit.subrange(1, unit.len() as int), 0, 0)
}

/// The kind of a unit.
pub open spec fn unit_kind(unit: Seq<u8>) -> int {
    unit[0] as int % 32
}

/// The parameter sets found so far, or why one could not be read.
pub type Sets = Result<(Option<Sps>, Option<Pps>), Seq<char>>;

/// The sets after one more unit. Only the first of each kind counts.
pub open spec fn sets_step(s: Sets, unit: Seq<u8>) -> Sets {
    match s {
        Err(e) => Err(e),
        Ok((sps, pps)) => if unit.len() > 0 && unit_kind(unit) == 7 && sps is None {
            match sps_of(payload_of(unit)) {
                Ok(x) => Ok((Some(x), pps)),
                Err(e) => Err(e),
            }
        } else if unit.len() > 0 && unit_kind(unit) == 8 && pps is None {
            match pps_of(payload_of(unit)) {
                Ok(x) => Ok((sps, Some(x))),
                Err(e) => Err(e),
            }
        } else {
            Ok((sps, pps))
        },
    }
}

pub open spec fn sets_first(units: Seq<Seq<u8>>, n: int) -> Sets
    decreases n,
{
    if n <= 0 {
        Ok((None, None))
    } else {
        sets_step(sets_first(units, n - 1), units[n - 1])
    }
}

/// The parameter sets of a header and a first frame, if frames can be repeated
/// with them.
pub open spec fn repeat_sets(headers: Seq<u8>, idr: Seq<u8>) -> Result<(Sps, Pps), Seq<char>> {
    let units = units_of(headers) + units_of(idr);
    match sets_first(units, units.len() as int) {
        Err(e) => Err(e),
        Ok((None, _)) => Err("no SPS"@),
        Ok((Some(_), None)) => Err("no PPS"@),
        Ok((Some(sps), Some(pps))) => if pps.cabac {
            Err("encoder ignored the CAVLC request"@)
        } else {
            Ok((sps, pps))
        },
    }
}

fn apply_unit(sps: &mut Option<Sps>, pps: &mut Option<Pps>, unit: &[u8]) -> (r: Result<(), String>)
    requires
        8 * unit@.len() + 8 <= usize::MAX,
    ensures
        match sets_step(Ok((*old(sps), *old(pps))), unit@) {
            Ok((a, b)) => r is Ok && *final(sps) == a && *final(pps) == b,
            Err(t) => r matches Err(e) && e@ == t,
        },
{
    if unit.len() == 0 {
        return Ok(());
    }
    let kind: u8 = unit[0] % 32;
    if kind == 7 && sps.is_none() {
        let rest = copy_bytes(unit, 1, unit.len());
        let p = unescape(rest.as_slice());
        match parse_sps(p.as_slice()) {
            Ok(x) => {
                *sps = Some(x);
                Ok(())
            },
            Err(e) => Err(e),
        }
    } else if kind == 8 && pps.is_none() {
        let rest = copy_bytes(unit, 1, unit.len());
        let p = unescape(rest.as_slice());
        match parse_pps(p.as_slice()) {
            Ok(x) => {
                *pps = Some(x);
                Ok(())
            },
            Err(e) => Err(e),
        }
    } else {
        Ok(())
    }
}

proof fn lemma_sets_error(units: Seq<Seq<u8>>, n: int, k: int)
    requires
        n <= k,
        sets_first(units, n) is Err,
    ensures
        sets_first(units, k) == sets_first(units, n),
    decreases k - n,
{
    if n < k {
        lemma_sets_error(units, n, k - 1);
    }
}

/// Finds the parameter sets of a stream: those that its header gives and those in
/// its first frame, the first of each kind.
pub fn find_parameter_sets(headers: &[u8], idr: &[u8]) -> (r: Result<(Sps, Pps), String>)
    requires
        8 * headers@.len() + 8 <= usize::MAX,
        8 * idr@.len() + 8 <= usize::MAX,
    ensures
        is_found(r, repeat_sets(headers@, idr@)),
{
    let mut units = split_annexb(headers);
    let mut more = split_annexb(idr);
    let ghost a = unit_views(units@);
    let ghost b = unit_views(more@);
    proof {
        crate::h264::lemma_unit_sizes(headers@);
        crate::h264::lemma_unit_sizes(idr@);
    }
    units.append(&mut more);
    let ghost uv = unit_views(units@);
    proof {
        assert(uv =~= a + b);
        assert forall|i: int| 0 <= i < uv.len() implies 8 * (#[trigger] uv[i]).len() + 8 <= usize::MAX by {
            if i < a.len() {
                assert(uv[i] == a[i]);
            } else {
                assert(uv[i] == b[i - a.len()]);
            }
        }
    }
    let mut sps: Option<Sps> = None;
    let mut pps: Option<Pps> = None;
    let mut i: usize = 0;
    while i < units.len()
        invariant
            i <= units.len(),
            uv == unit_views(units@),
            uv == units_of(headers@) + units_of(idr@),
            forall|k: int| 0 <= k < uv.len() ==> 8 * (#[trigger] uv[k]).len() + 8 <= usize::MAX,
            sets_first(uv, i as int) == Ok::<(Option<Sps>, Option<Pps>), Seq<char>>((sps, pps)),
        decreases units.len() - i,
    {
        proof {
            assert(uv[i as int] == units@[i as int]@);
        }
        match apply_unit(&mut sps, &mut pps, units[i].as_slice()) {
            Ok(_) => {},
            Err(e) => {
                proof {
                    lemma_sets_error(uv, i + 1, uv.len() as int);
                }
                return Err(e);
            },
        }
        i = i + 1;
    }
    match (sps, pps) {
        (None, _) => Err("no SPS".to_string()),
        (Some(_), None) => Err("no PPS".to_string()),
        (Some(s), Some(p)) => if p.cabac {
            Err("encoder ignored the CAVLC request".to_string())
        } else {
            Ok((s, p))
        },
    }
}

// ---------------------------------------------------------------------------
// Colours
// ---------------------------------------------------------------------------

/// The brightness of a colour in the range that video uses.
pub open spec fn luma(b: int, g: int, r: int) -> int {
    (47 * r + 157 * g + 16 * b + 128) / 256 + 16
}

pub open spec fn clamp_chroma(x: int) -> int {
    if x < 16 {
        16
    } else if x > 240 {
        240
    } else {
        x
    }
}

/// The two colour differences of four pixels, from their summed colours.
pub open spec fn chroma_u(b: int, g: int, r: int) -> int {
    clamp_chroma((-26 * r - 86 * g + 112 * b + 512) / 1024 + 128)
}

pub open spec fn chroma_v(b: int, g: int, r: int) -> int {
    clamp_chroma((112 * r - 102 * g - 10 * b + 512) / 1024 + 128)
}

/// One colour value of a pixel: 0 for blue, 1 for green, 2 for red.
pub open spec fn colour(d: Seq<u8>, w: int, x: int, y: int, c: int) -> int {
    d[4 * (y * w + x) + c] as int
}

/// A colour value summed over a block of four pixels.
pub open spec fn block_sum(d: Seq<u8>, w: int, x: int, y: int, c: int) -> int {
    colour(d, w, x, y, c) + colour(d, w, x + 1, y, c) + colour(d, w, x, y + 1, c) + colour(d, w, x + 1, y + 1, c)
}

/// The byte at a position of a converted row pair: a chroma byte alternates
/// between the two differences.
pub open spec fn chroma_at(d: Seq<u8>, w: int, x: int, y: int) -> int {
    let x0 = x - x % 2;
    if x % 2 == 0 {
        chroma_u(block_sum(d, w, x0, y, 0), block_sum(d, w, x0, y, 1), block_sum(d, w, x0, y, 2))
    } else {
        chroma_v(block_sum(d, w, x0, y, 0), block_sum(d, w, x0, y, 1), block_sum(d, w, x0, y, 2))
    }
}

pub open spec fn luma_at(d: Seq<u8>, w: int, x: int, y: int) -> int {
    luma(colour(d, w, x, y, 0), colour(d, w, x, y, 1), colour(d, w, x, y, 2))
}

proof fn lemma_pixel(w: int, h: int, x: int, y: int)
    by (nonlinear_arith)
    requires
        0 <= x < w,
        0 <= y < h,
    ensures
        0 <= y * w + x < w * h,
        (y + 1) * w == y * w + w,
{
}

fn pixel(d: &[u8], w: usize, x: usize, y: usize, Ghost(h): Ghost<int>) -> (r: (i32, i32, i32))
    requires
        x < w,
        0 <= y < h,
        4 * (w * h) <= d@.len(),
    ensures
        r.0 == colour(d@, w as int, x as int, y as int, 0),
        r.1 == colour(d@, w as int, x as int, y as int, 1),
        r.2 == colour(d@, w as int, x as int, y as int, 2),
        0 <= r.0 <= 255,
        0 <= r.1 <= 255,
        0 <= r.2 <= 255,
{
    let len: usize = d.len();
    proof {
        lemma_pixel(w as int, h, x as int, y as int);
        assert(0 <= y * w) by (nonlinear_arith)
            requires
                0 <= y,
                0 <= w,
        ;
        assert(y * w + x <= len);
    }
    let i: usize = 4 * (y * w + x);
    (d[i] as i32, d[i + 1] as i32, d[i + 2] as i32)
}

fn luma_value(p: (i32, i32, i32)) -> (r: u8)
    requires
        0 <= p.0 <= 255,
        0 <= p.1 <= 255,
        0 <= p.2 <= 255,
    ensures
        r == luma(p.0 as int, p.1 as int, p.2 as int),
{
    ((47 * p.2 + 157 * p.1 + 16 * p.0 + 128) / 256 + 16) as u8
}

fn clamped(x: i32) -> (r: u8)
    ensures
        r == clamp_chroma(x as int),
{
    if x < 16 {
        16
    } else if x > 240 {
        240
    } else {
        x as u8
    }
}

fn chroma_values(b: i32, g: i32, r: i32) -> (v: (u8, u8))
    requires
        0 <= b <= 1020,
        0 <= g <= 1020,
        0 <= r <= 1020,
    ensures
        v.0 == chroma_u(b as int, g as int, r as int),
        v.1 == chroma_v(b as int, g as int, r as int),
{
    let u: i32 = (112 * b - 26 * r - 86 * g + 512 + 1_024_000) / 1024 - 1000 + 128;
    let x: i32 = (112 * r - 102 * g - 10 * b + 512 + 1_024_000) / 1024 - 1000 + 128;
    (clamped(u), clamped(x))
}

/// The brightness of a row of pixels.
pub open spec fn luma_row(d: Seq<u8>, w: int, y: int) -> Seq<u8> {
    Seq::new(w as nat, |x: int| luma_at(d, w, x, y) as u8)
}

/// The colour differences of a pair of rows.
pub open spec fn chroma_row(d: Seq<u8>, w: int, y: int) -> Seq<u8> {
    Seq::new(w as nat, |x: int| chroma_at(d, w, x, y) as u8)
}

/// The brightness of the first `n` rows.
pub open spec fn luma_rows(d: Seq<u8>, w: int, n: int) -> Seq<u8>
    decreases n,
{
    if n <= 0 {
        Seq::empty()
    } else {
        luma_rows(d, w, n - 1) + luma_row(d, w, n - 1)
    }
}

/// The colour differences of the first `n` pairs of rows.
pub open spec fn chroma_rows(d: Seq<u8>, w: int, n: int) -> Seq<u8>
    decreases n,
{
    if n <= 0 {
        Seq::empty()
    } else {
        chroma_rows(d, w, n - 1) + chroma_row(d, w, 2 * (n - 1))
    }
}

fn push_luma_row(out: &mut Vec<u8>, d: &[u8], w: usize, y: usize, Ghost(h): Ghost<int>)
    requires
        y < h,
        4 * (w * h) <= d@.len(),
    ensures
        final(out)@ == old(out)@ + luma_row(d@, w as int, y as int),
{
    let mut x: usize = 0;
    while x < w
        invariant
            x <= w,
            y < h,
            4 * (w * h) <= d@.len(),
            out@ == old(out)@ + luma_row(d@, w as int, y as int).take(x as int),
        decreases w - x,
    {
        let p = pixel(d, w, x, y, Ghost(h));
        let v: u8 = luma_value(p);
        let ghost row = luma_row(d@, w as int, y as int);
        let ghost before = out@;
        out.push(v);
        proof {
            assert(row[x as int] == v);
            assert(row.take(x + 1) =~= row.take(x as int).push(v));
            assert(out@ =~= old(out)@ + row.take(x + 1));
        }
        x = x + 1;
    }
    proof {
        let row = luma_row(d@, w as int, y as int);
        assert(row.take(w as int) =~= row);
    }
}

#[verifier::spinoff_prover]
#[verifier::rlimit(60)]
fn push_chroma_row(out: &mut Vec<u8>, d: &[u8], w: usize, y: usize, Ghost(h): Ghost<int>)
    requires
        y + 1 < h,
        w % 2 == 0,
        4 * (w * h) <= d@.len(),
        h <= usize::MAX,
    ensures
        final(out)@ == old(out)@ + chroma_row(d@, w as int, y as int),
{
    let mut x: usize = 0;
    while x < w
        invariant
            x <= w,
            x % 2 == 0,
            w % 2 == 0,
            y + 1 < h <= usize::MAX,
            4 * (w * h) <= d@.len(),
            out@ == old(out)@ + chroma_row(d@, w as int, y as int).take(x as int),
        decreases w - x,
    {
        let p0 = pixel(d, w, x, y, Ghost(h));
        let p1 = pixel(d, w, x + 1, y, Ghost(h));
        let p2 = pixel(d, w, x, y + 1, Ghost(h));
        let p3 = pixel(d, w, x + 1, y + 1, Ghost(h));
        let (u, v) = chroma_values(
            p0.0 + p1.0 + p2.0 + p3.0,
            p0.1 + p1.1 + p2.1 + p3.1,
            p0.2 + p1.2 + p2.2 + p3.2,
        );
        let ghost row = chroma_row(d@, w as int, y as int);
        out.push(u);
        out.push(v);
        proof {
            assert((x + 1) % 2 == 1);
            assert(row[x as int] == u);
            assert(row[x + 1] == v);
            assert(row.take(x + 2) =~= row.take(x as int).push(u).push(v));
            assert(out@ =~= old(out)@ + row.take(x + 2));
        }
        x = x + 2;
    }
    proof {
        let row = chroma_row(d@, w as int, y as int);
        assert(row.take(w as int) =~= row);
    }
}

/// A picture in blue, green, red and opacity as brightness for each pixel and two
/// colour differences for each block of four, first all the brightness, then the
/// differences.
pub fn bgra_to_nv12(bgra: &[u8], w: usize, h: usize) -> (out: Vec<u8>)
    requires
        w % 2 == 0,
        h % 2 == 0,
        4 * (w * h) <= bgra@.len(),
    ensures
        out@ == luma_rows(bgra@, w as int, h as int) + chroma_rows(bgra@, w as int, h as int / 2),
{
    let mut out: Vec<u8> = Vec::new();
    let mut y: usize = 0;
    while y < h
        invariant
            y <= h,
            4 * (w * h) <= bgra@.len(),
            out@ == luma_rows(bgra@, w as int, y as int),
        decreases h - y,
    {
        push_luma_row(&mut out, bgra, w, y, Ghost(h as int));
        y = y + 1;
    }
    let ghost top = out@;
    let mut k: usize = 0;
    proof {
        assert(top + chroma_rows(bgra@, w as int, 0) =~= top);
    }
    while k < h / 2
        invariant
            k <= h / 2,
            w % 2 == 0,
            h % 2 == 0,
            4 * (w * h) <= bgra@.len(),
            out@ == top + chroma_rows(bgra@, w as int, k as int),
        decreases h / 2 - k,
    {
        let ghost before = chroma_rows(bgra@, w as int, k as int);
        push_chroma_row(&mut out, bgra, w, 2 * k, Ghost(h as int));
        proof {
            let row = chroma_row(bgra@, w as int, 2 * k);
            assert(top + before + row =~= top + (before + row));
        }
        k = k + 1;
    }
    out
}

/// The temporary name of a video that is being written.
pub fn temp_name(name: &str, process: u32, suffix: &str) -> (r: String)
    ensures
        r@ == name@ + "."@ + decimal(process as int) + "."@ + suffix@,
{
    let mut v = chars_of(name);
    let mut t = join3(".", process as u64, ".");
    let mut s = chars_of(suffix);
    v.append(&mut t);
    v.append(&mut s);
    proof {
        assert(v@ =~= name@ + "."@ + decimal(process as int) + "."@ + suffix@);
    }
    string_of(v.as_slice())
}

/// The brightness of a pixel lies between that of black and that of white, grows with each of
/// its colors, and most with green and least with blue.
pub proof fn law_brightness(b: int, g: int, r: int)
    requires
        0 <= b <= 255,
        0 <= g <= 255,
        0 <= r <= 255,
    ensures
        luma(0, 0, 0) == 16,
        luma(255, 255, 255) == 235,
        16 <= luma(b, g, r) <= 235,
        luma(b, g, 0) <= luma(b, g, r),
        luma(b, 0, r) <= luma(b, g, r),
        luma(0, g, r) <= luma(b, g, r),
        luma(255, 0, 0) < luma(0, 0, 255) < luma(0, 255, 0),
{
}

/// A grey has no color. Blue raises the first of the two numbers that say the color, red the
/// second, and green lowers both. Each is of the sum of four pixels.
pub proof fn law_colors(b: int, g: int, r: int, v: int)
    requires
        0 <= b <= 1020,
        0 <= g <= 1020,
        0 <= r <= 1020,
        0 <= v <= 1020,
    ensures
        chroma_u(v, v, v) == 128,
        chroma_v(v, v, v) == 128,
        16 <= chroma_u(b, g, r) <= 240,
        16 <= chroma_v(b, g, r) <= 240,
        chroma_u(0, g, r) <= chroma_u(b, g, r),
        chroma_v(b, g, 0) <= chroma_v(b, g, r),
        chroma_u(b, g, r) <= chroma_u(b, 0, r),
        chroma_v(b, g, r) <= chroma_v(b, 0, r),
        chroma_u(1020, 0, 0) == 240,
        chroma_v(0, 0, 1020) == 240,
        chroma_u(0, 0, 1020) < 128,
        chroma_v(1020, 0, 0) < 128,
{
}

/// Where the numbers of a pixel stand: blue, green, red and one more, row by row. The color of
/// each two by two pixels is said by two numbers, that of blue first.
pub proof fn law_where_colors_stand(d: Seq<u8>, w: int, x: int, y: int)
    requires
        0 <= x,
        x % 2 == 0,
    ensures
        luma_at(d, w, x, y) == luma(
            d[4 * (y * w + x)] as int,
            d[4 * (y * w + x) + 1] as int,
            d[4 * (y * w + x) + 2] as int,
        ),
        ({
            let sum = |c: int|
                d[4 * (y * w + x) + c] + d[4 * (y * w + (x + 1)) + c] + d[4 * ((y + 1) * w + x) + c] + d[4 * ((y + 1) * w
                    + (x + 1)) + c];
            &&& chroma_at(d, w, x, y) == chroma_u(sum(0), sum(1), sum(2))
            &&& chroma_at(d, w, x + 1, y) == chroma_v(sum(0), sum(1), sum(2))
        }),
{
}

/// A video lasts as long as it is asked to, in ten-millionths of a second; it has as many
/// pictures a second as asked for, or a single one for the whole time.
pub proof fn law_how_long_a_video_lasts(seconds: int, f: u32)
    requires
        1 <= seconds <= 86_400,
        1 <= f <= 30,
    ensures
        plan_of(seconds, None, true) matches EncodePlan::All(p) && p.total_ticks == 10_000_000 * seconds && p.frames == 1,
        plan_of(seconds, Some(f), false) matches EncodePlan::All(p) && p.total_ticks == 10_000_000 * seconds && p.frames
            == seconds * f && p.rate == f,
        seconds * f >= 2 ==> (plan_of(seconds, Some(f), true) matches EncodePlan::Repeat { first, otherwise }
            && first.frames == 1 && first.cavlc && otherwise.frames == seconds * f && otherwise.total_ticks == 10_000_000
            * seconds),
{
    assert(1 <= seconds * f <= 86_400 * 30) by (nonlinear_arith)
        requires
            1 <= seconds <= 86_400,
            1 <= f <= 30,
    ;
}

/// Pictures that take the same time each begin at its multiples.
pub proof fn law_pictures_are_evenly_spaced(i: int, n: int, t: int)
    requires
        0 <= i <= n,
        0 < n,
        0 <= t,
    ensures
        frame_start(i, n, n * t) == i * t,
{
    assert(i * (n * t) == (i * t) * n) by (nonlinear_arith);
    vstd::arithmetic::div_mod::lemma_div_by_multiple(i * t, n);
}

/// What a repeated picture says when it is read: that it begins at the first block, that it only
/// repeats, which parameters it goes by and which picture it is; and in the end that every
/// block is the one before.
#[verifier::spinoff_prover]
#[verifier::rlimit(60)]
pub proof fn law_what_a_repeated_picture_says(sps: Sps, pps: Pps, index: int)
    requires
        pps.id < 1_000,
        sps.log2_max_frame_num <= 31,
        0 <= index < two_to(sps.log2_max_frame_num as int),
        sps.mbs < 0xFFFF_FFFF,
    ensures
        ({
            let s = skip_bits_of(sps, pps, index);
            let a = ue_code(0).len() as int;
            let b = a + ue_code(5).len();
            let c = b + ue_code(pps.id as int).len();
            let e = s.len() - ue_code(sps.mbs as int).len();
            &&& read_ue(s, 0) == Ok::<(int, int), Seq<char>>((0int, a))
            &&& read_ue(s, a) == Ok::<(int, int), Seq<char>>((5int, b))
            &&& read_ue(s, b) == Ok::<(int, int), Seq<char>>((pps.id as int, c))
            &&& read_bits(s, c, sps.log2_max_frame_num as int) == Ok::<(int, int), Seq<char>>(
                (index, c + sps.log2_max_frame_num),
            )
            &&& read_ue(s, e) == Ok::<(int, int), Seq<char>>((sps.mbs as int, s.len() as int))
        }),
{
    let s = skip_bits_of(sps, pps, index);
    let n = sps.log2_max_frame_num as int;
    let none = Seq::<int>::empty();
    let p0 = ue_code(0);
    let p1 = p0 + ue_code(5);
    let p2 = p1 + ue_code(pps.id as int);
    lemma_skip_head(sps, pps, index);
    let before = lemma_skip_tail(sps, pps, index);
    lemma_begins_part(s, p2, binary(index, n));
    lemma_begins_part(s, p1, ue_code(pps.id as int));
    lemma_begins_part(s, p0, ue_code(5));
    assert(none + p0 =~= p0);
    lemma_ue_here(s, none, 0);
    lemma_ue_here(s, p0, 5);
    lemma_ue_here(s, p1, pps.id);
    lemma_bits_here(s, p2, index, n);
    assert(s.take(s.len() as int) =~= s);
    lemma_ue_here(s, before, sps.mbs as u32);
    lemma_binary_length(index, n);
}

proof fn lemma_skip_tail(sps: Sps, pps: Pps, index: int) -> (before: Seq<int>)
    ensures
        skip_bits_of(sps, pps, index) == before + ue_code(sps.mbs as int),
{
    ue_code(0) + ue_code(5) + ue_code(pps.id as int) + binary(index, sps.log2_max_frame_num as int) + bits_if(
        sps.poc_type == 0,
        binary(2 * index, sps.log2_max_poc_lsb as int) + bits_if(pps.bottom_field_poc, ue_code(0)),
    ) + bits_if(pps.redundant_pic_cnt, ue_code(0)) + seq![1int] + ue_code(0) + seq![0int] + seq![0int] + ue_code(0)
        + bits_if(pps.deblock_control, ue_code(1))
}

proof fn lemma_skip_head(sps: Sps, pps: Pps, index: int)
    ensures
        begins(
            skip_bits_of(sps, pps, index),
            ue_code(0) + ue_code(5) + ue_code(pps.id as int) + binary(index, sps.log2_max_frame_num as int),
        ),
{
    let s = skip_bits_of(sps, pps, index);
    let n = sps.log2_max_frame_num as int;
    let p0 = ue_code(0);
    let p1 = p0 + ue_code(5);
    let p2 = p1 + ue_code(pps.id as int);
    let p3 = p2 + binary(index, n);
    let order = bits_if(
        sps.poc_type == 0,
        binary(2 * index, sps.log2_max_poc_lsb as int) + bits_if(pps.bottom_field_poc, ue_code(0)),
    );
    let p4 = p3 + order;
    let p5 = p4 + bits_if(pps.redundant_pic_cnt, ue_code(0));
    let p6 = p5 + seq![1int];
    let p7 = p6 + ue_code(0);
    let p8 = p7 + seq![0int];
    let p9 = p8 + seq![0int];
    let p10 = p9 + ue_code(0);
    let p11 = p10 + bits_if(pps.deblock_control, ue_code(1));
    let last = ue_code(sps.mbs as int);
    assert(s == p11 + last);
    assert(p3.take(p3.len() as int) =~= p3);
    lemma_begins_more(p3, order, p3);
    lemma_begins_more(p4, bits_if(pps.redundant_pic_cnt, ue_code(0)), p3);
    lemma_begins_more(p5, seq![1int], p3);
    lemma_begins_more(p6, ue_code(0), p3);
    lemma_begins_more(p7, seq![0int], p3);
    lemma_begins_more(p8, seq![0int], p3);
    lemma_begins_more(p9, ue_code(0), p3);
    lemma_begins_more(p10, bits_if(pps.deblock_control, ue_code(1)), p3);
    lemma_begins_more(p11, last, p3);
}

proof fn lemma_binary_length(x: int, n: int)
    requires
        0 <= x,
        0 <= n,
    ensures
        binary(x, n).len() == n,
{
    if n > 0 {
        crate::bits::law_the_highest_bit_comes_first(x, n, 0);
    }
}

/// Which of two kinds of parameters a unit holds is said by the lowest five bits of its first
/// byte.
pub proof fn law_kinds_of_units(unit: Seq<u8>)
    requires
        unit.len() > 0,
    ensures
        unit[0] == 0x67 || unit[0] == 0x27 ==> unit_kind(unit) == 7,
        unit[0] == 0x68 || unit[0] == 0x28 ==> unit_kind(unit) == 8,
        0 <= unit_kind(unit) < 32,
{
}

} // verus!
