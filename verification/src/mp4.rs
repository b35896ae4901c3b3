//! MP4 files: their boxes, and moving the index before the pictures so that a
//! player can start while the file still loads.

use vstd::prelude::*;
use crate::h264::copy_bytes;
use crate::text::{chars_of, decimal, decimal_text, string_of};

verus! {

/// The number that four bytes spell, the highest first.
pub open spec fn be32(d: Seq<u8>, i: int) -> int {
    0x100_0000 * d[i] + 0x1_0000 * d[i + 1] + 0x100 * d[i + 2] + d[i + 3]
}

/// The number that eight bytes spell, the highest first.
pub open spec fn be64(d: Seq<u8>, i: int) -> int {
    0x1_0000_0000 * be32(d, i) + be32(d, i + 4)
}

/// The four bytes that spell a number.
pub open spec fn be32_bytes(n: int) -> Seq<u8> {
    seq![(n / 0x100_0000 % 256) as u8, (n / 0x1_0000 % 256) as u8, (n / 0x100 % 256) as u8, (n % 256) as u8]
}

/// The eight bytes that spell a number.
pub open spec fn be64_bytes(n: int) -> Seq<u8> {
    be32_bytes(n / 0x1_0000_0000) + be32_bytes(n % 0x1_0000_0000)
}

/// The number that four bytes were made from can be read from them.
pub proof fn law_be32_round_trip(n: int)
    requires
        0 <= n < 0x1_0000_0000,
    ensures
        be32(be32_bytes(n), 0) == n,
{
}

/// The number that eight bytes were made from can be read from them.
pub proof fn law_be64_round_trip(n: int)
    requires
        0 <= n < 0x1_0000_0000_0000_0000,
    ensures
        be64(be64_bytes(n), 0) == n,
{
    let a = n / 0x1_0000_0000;
    let b = n % 0x1_0000_0000;
    law_be32_round_trip(a);
    law_be32_round_trip(b);
    let s = be64_bytes(n);
    assert(be32(s, 0) == be32(be32_bytes(a), 0));
    assert(be32(s, 4) == be32(be32_bytes(b), 0));
}

pub fn read_be32(d: &[u8], i: usize) -> (r: u32)
    requires
        i + 4 <= d@.len(),
    ensures
        r == be32(d@, i as int),
{
    0x100_0000 * d[i] as u32 + 0x1_0000 * d[i + 1] as u32 + 0x100 * d[i + 2] as u32 + d[i + 3] as u32
}

pub fn read_be64(d: &[u8], i: usize) -> (r: u64)
    requires
        i + 8 <= d@.len(),
    ensures
        r == be64(d@, i as int),
{
    let n: usize = d.len();
    proof {
        assert(i + 8 <= n);
    }
    0x1_0000_0000 * read_be32(d, i) as u64 + read_be32(d, i + 4) as u64
}

// ---------------------------------------------------------------------------
// Boxes
// ---------------------------------------------------------------------------

/// A box: its four-letter kind, where it starts and where it ends.
#[derive(Clone, Copy, Debug, PartialEq, Eq, Structural)]
pub struct Mp4Box {
    pub kind: u32,
    pub start: usize,
    pub end: usize,
}

/// The kinds `moov`, `mdat`, `trak`, `mdia`, `minf`, `stbl`, `stco` and `co64` as
/// numbers.
pub const MOOV: u32 = 0x6D6F_6F76;

pub const MDAT: u32 = 0x6D64_6174;

pub const TRAK: u32 = 0x7472_616B;

pub const MDIA: u32 = 0x6D64_6961;

pub const MINF: u32 = 0x6D69_6E66;

pub const STBL: u32 = 0x7374_626C;

pub const STCO: u32 = 0x7374_636F;

pub const CO64: u32 = 0x636F_3634;

/// The size that a box at a position says it has: 1 means that eight bytes more
/// say it, 0 that it reaches to the end.
pub open spec fn box_size(d: Seq<u8>, i: int) -> int {
    let size = be32(d, i);
    if size == 1 && i + 16 <= d.len() {
        be64(d, i + 8)
    } else if size == 0 {
        d.len() - i
    } else {
        size
    }
}

/// The boxes from a position on, or where the first bad one stands.
#[verifier::opaque]
pub open spec fn boxes_from(d: Seq<u8>, i: int) -> Result<Seq<Mp4Box>, int>
    decreases d.len() - i,
    when 0 <= i
{
    if i + 8 > d.len() {
        Ok(Seq::empty())
    } else {
        let size = box_size(d, i);
        if size < 8 || i + size > d.len() {
            Err(i)
        } else {
            match boxes_from(d, i + size) {
                Ok(rest) => Ok(
                    seq![Mp4Box { kind: be32(d, i + 4) as u32, start: i as usize, end: (i + size) as usize }] + rest,
                ),
                Err(e) => Err(e),
            }
        }
    }
}

pub open spec fn bad_box(at: int) -> Seq<char> {
    "bad MP4 box at offset "@ + decimal(at)
}

/// The boxes of a file, from its start to its end.
pub fn top_level_boxes(d: &[u8]) -> (r: Result<Vec<Mp4Box>, String>)
    ensures
        match r {
            Ok(v) => boxes_from(d@, 0) == Ok::<Seq<Mp4Box>, int>(v@) && lie_between(v@, 0, d@.len() as int),
            Err(e) => boxes_from(d@, 0) is Err && e@ == bad_box(boxes_from(d@, 0)->Err_0),
        },
{
    reveal(boxes_from);
    let mut out: Vec<Mp4Box> = Vec::new();
    let mut i: usize = 0;
    let ghost whole = boxes_from(d@, 0);
    proof {
        if whole is Ok {
            assert(Seq::<Mp4Box>::empty() + whole->Ok_0 =~= whole->Ok_0);
        }
    }
    while d.len() - i >= 8
        invariant
            i <= d.len(),
            whole == boxes_from(d@, 0),
            match boxes_from(d@, i as int) {
                Ok(rest) => whole == Ok::<Seq<Mp4Box>, int>(out@ + rest),
                Err(e) => whole == Err::<Seq<Mp4Box>, int>(e),
            },
        decreases d.len() - i,
    {
        reveal(boxes_from);
        let first: u32 = read_be32(d, i);
        let kind: u32 = read_be32(d, i + 4);
        let mut size: u64 = first as u64;
        if first == 1 && d.len() - i >= 16 {
            size = read_be64(d, i + 8);
        } else if first == 0 {
            size = (d.len() - i) as u64;
        }
        proof {
            assert(size == box_size(d@, i as int));
        }
        if size < 8 || size > (d.len() - i) as u64 {
            let mut v = chars_of("bad MP4 box at offset ");
            let mut n = decimal_text(i as u64);
            v.append(&mut n);
            return Err(string_of(v.as_slice()));
        }
        let end: usize = i + size as usize;
        let b = Mp4Box { kind, start: i, end };
        let ghost before = out@;
        out.push(b);
        proof {
            match boxes_from(d@, end as int) {
                Ok(rest) => {
                    assert(before + (seq![b] + rest) =~= out@ + rest);
                },
                Err(_) => {},
            }
        }
        i = end;
    }
    proof {
        assert(out@ + Seq::<Mp4Box>::empty() =~= out@);
        lemma_boxes_lie(d@, 0);
    }
    Ok(out)
}

// ---------------------------------------------------------------------------
// Chunk offsets
// ---------------------------------------------------------------------------

/// Bytes with some of them replaced from a position on.
pub open spec fn overwrite(d: Seq<u8>, at: int, b: Seq<u8>) -> Seq<u8> {
    Seq::new(
        d.len(),
        |i: int|
            if at <= i < at + b.len() {
                b[i - at]
            } else {
                d[i]
            },
    )
}

/// A table of chunk offsets, four or eight bytes each, with `shift` added to every
/// entry from the k-th on.
pub open spec fn shifted_table(d: Seq<u8>, at: int, k: int, count: int, wide: bool, shift: int) -> Result<
    Seq<u8>,
    Seq<char>,
>
    decreases count - k,
{
    if k >= count {
        Ok(d)
    } else if wide {
        let v = be64(d, at + 8 * k) + shift;
        if v > u64::MAX {
            Err("file too large for stco"@)
        } else {
            shifted_table(overwrite(d, at + 8 * k, be64_bytes(v)), at, k + 1, count, wide, shift)
        }
    } else {
        let v = be32(d, at + 4 * k) + shift;
        if v > u32::MAX {
            Err("file too large for stco"@)
        } else {
            shifted_table(overwrite(d, at + 4 * k, be32_bytes(v)), at, k + 1, count, wide, shift)
        }
    }
}

/// The body of a table box, from `b` to `e`, with its offsets shifted.
pub open spec fn shifted_body(d: Seq<u8>, b: int, e: int, wide: bool, shift: int) -> Result<Seq<u8>, Seq<char>> {
    let w: int = if wide {
        8
    } else {
        4
    };
    if e - b < 8 || 8 + be32(d, b + 4) * w > e - b {
        Err("bad chunk offset table"@)
    } else {
        shifted_table(d, b + 8, 0, be32(d, b + 4), wide, shift)
    }
}

pub open spec fn is_container(kind: int) -> bool {
    kind == TRAK || kind == MDIA || kind == MINF || kind == STBL
}

/// A file with `shift` added to every chunk offset in the boxes from `i` to `to`
/// and in the boxes inside those.
pub open spec fn shifted_offsets(d: Seq<u8>, i: int, to: int, shift: int) -> Result<Seq<u8>, Seq<char>>
    decreases to - i,
    when 0 <= i
{
    if i + 8 > to {
        Ok(d)
    } else {
        let size = be32(d, i);
        let kind = be32(d, i + 4);
        if size < 8 || i + size > to {
            Err("bad box inside moov"@)
        } else {
            let inner = if is_container(kind) {
                shifted_offsets(d, i + 8, i + size, shift)
            } else if kind == STCO || kind == CO64 {
                shifted_body(d, i + 8, i + size, kind == CO64, shift)
            } else {
                Ok(d)
            };
            match inner {
                Ok(d2) => shifted_offsets(d2, i + size, to, shift),
                Err(e) => Err(e),
            }
        }
    }
}

fn put_be32(d: &mut Vec<u8>, at: usize, n: u32)
    requires
        at + 4 <= old(d)@.len(),
    ensures
        final(d)@ == overwrite(old(d)@, at as int, be32_bytes(n as int)),
{
    let len: usize = d.len();
    proof {
        assert(at + 4 <= len);
    }
    d.set(at, (n / 0x100_0000) as u8);
    d.set(at + 1, (n / 0x1_0000 % 256) as u8);
    d.set(at + 2, (n / 0x100 % 256) as u8);
    d.set(at + 3, (n % 256) as u8);
    proof {
        assert(d@ =~= overwrite(old(d)@, at as int, be32_bytes(n as int)));
    }
}

fn put_be64(d: &mut Vec<u8>, at: usize, n: u64)
    requires
        at + 8 <= old(d)@.len(),
    ensures
        final(d)@ == overwrite(old(d)@, at as int, be64_bytes(n as int)),
{
    let len: usize = d.len();
    proof {
        assert(at + 8 <= len);
    }
    put_be32(d, at, (n / 0x1_0000_0000) as u32);
    put_be32(d, at + 4, (n % 0x1_0000_0000) as u32);
    proof {
        assert(d@ =~= overwrite(old(d)@, at as int, be64_bytes(n as int)));
    }
}

proof fn lemma_table_len(d: Seq<u8>, at: int, k: int, count: int, wide: bool, shift: int)
    ensures
        shifted_table(d, at, k, count, wide, shift) matches Ok(r) ==> r.len() == d.len(),
    decreases count - k,
{
    if k < count {
        if wide {
            let v = be64(d, at + 8 * k) + shift;
            lemma_table_len(overwrite(d, at + 8 * k, be64_bytes(v)), at, k + 1, count, wide, shift);
        } else {
            let v = be32(d, at + 4 * k) + shift;
            lemma_table_len(overwrite(d, at + 4 * k, be32_bytes(v)), at, k + 1, count, wide, shift);
        }
    }
}

/// Shifting offsets leaves the file as long as it was.
pub proof fn law_shift_keeps_length(d: Seq<u8>, i: int, to: int, shift: int)
    requires
        0 <= i,
    ensures
        shifted_offsets(d, i, to, shift) matches Ok(r) ==> r.len() == d.len(),
    decreases to - i,
{
    if i + 8 <= to {
        let size = be32(d, i);
        let kind = be32(d, i + 4);
        if !(size < 8 || i + size > to) {
            if is_container(kind) {
                law_shift_keeps_length(d, i + 8, i + size, shift);
                match shifted_offsets(d, i + 8, i + size, shift) {
                    Ok(d2) => {
                        law_shift_keeps_length(d2, i + size, to, shift);
                    },
                    Err(_) => {},
                }
            } else if kind == STCO || kind == CO64 {
                lemma_table_len(d, i + 16, 0, be32(d, i + 12), kind == CO64, shift);
                match shifted_body(d, i + 8, i + size, kind == CO64, shift) {
                    Ok(d2) => {
                        law_shift_keeps_length(d2, i + size, to, shift);
                    },
                    Err(_) => {},
                }
            } else {
                law_shift_keeps_length(d, i + size, to, shift);
            }
        }
    }
}

/// Whether a result is the file as it should be, or the reason why there is none.
pub open spec fn is_patched(r: Result<(), String>, d: Seq<u8>, want: Result<Seq<u8>, Seq<char>>) -> bool {
    match (r, want) {
        (Ok(_), Ok(x)) => d == x,
        (Err(e), Err(t)) => e@ == t,
        _ => false,
    }
}

fn shift_body(d: &mut Vec<u8>, b: usize, e: usize, wide: bool, shift: u64) -> (r: Result<(), String>)
    requires
        b <= e <= old(d)@.len(),
    ensures
        final(d)@.len() == old(d)@.len(),
        is_patched(r, final(d)@, shifted_body(old(d)@, b as int, e as int, wide, shift as int)),
{
    if e - b < 8 {
        return Err("bad chunk offset table".to_string());
    }
    let count: u32 = read_be32(d.as_slice(), b + 4);
    let w: u64 = if wide {
        8
    } else {
        4
    };
    if 8 + count as u64 * w > (e - b) as u64 {
        return Err("bad chunk offset table".to_string());
    }
    let ghost whole = shifted_table(d@, b + 8, 0, count as int, wide, shift as int);
    let mut k: u32 = 0;
    while k < count
        invariant
            k <= count,
            b + 8 + count * w <= e <= d@.len(),
            d@.len() == old(d)@.len(),
            w == (if wide {
                8
            } else {
                4int
            }),
            whole == shifted_table(old(d)@, b + 8, 0, count as int, wide, shift as int),
            whole == shifted_table(d@, b + 8, k as int, count as int, wide, shift as int),
            !(e - b < 8 || 8 + be32(old(d)@, b + 4) * w > e - b),
            count == be32(old(d)@, b + 4),
        decreases count - k,
    {
        if wide {
            let at: usize = b + 8 + 8 * k as usize;
            let v: u128 = read_be64(d.as_slice(), at) as u128 + shift as u128;
            if v > u64::MAX as u128 {
                return Err("file too large for stco".to_string());
            }
            put_be64(d, at, v as u64);
        } else {
            let at: usize = b + 8 + 4 * k as usize;
            let v: u128 = read_be32(d.as_slice(), at) as u128 + shift as u128;
            if v > u32::MAX as u128 {
                return Err("file too large for stco".to_string());
            }
            put_be32(d, at, v as u32);
        }
        k = k + 1;
    }
    Ok(())
}

/// Adds `shift` to every chunk offset in the boxes between two positions.
pub fn patch_chunk_offsets(d: &mut Vec<u8>, from: usize, to: usize, shift: u64) -> (r: Result<(), String>)
    requires
        from <= to <= old(d)@.len(),
    ensures
        final(d)@.len() == old(d)@.len(),
        is_patched(r, final(d)@, shifted_offsets(old(d)@, from as int, to as int, shift as int)),
    decreases to - from,
{
    let ghost whole = shifted_offsets(d@, from as int, to as int, shift as int);
    let mut i: usize = from;
    while to - i >= 8
        invariant
            from <= i <= to <= d@.len(),
            d@.len() == old(d)@.len(),
            whole == shifted_offsets(old(d)@, from as int, to as int, shift as int),
            whole == shifted_offsets(d@, i as int, to as int, shift as int),
        decreases to - i,
    {
        let size: u32 = read_be32(d.as_slice(), i);
        let kind: u32 = read_be32(d.as_slice(), i + 4);
        if size < 8 || size as u64 > (to - i) as u64 {
            return Err("bad box inside moov".to_string());
        }
        let end: usize = i + size as usize;
        if kind == TRAK || kind == MDIA || kind == MINF || kind == STBL {
            match patch_chunk_offsets(d, i + 8, end, shift) {
                Ok(_) => {},
                Err(e) => {
                    return Err(e);
                },
            }
        } else if kind == STCO || kind == CO64 {
            match shift_body(d, i + 8, end, kind == CO64, shift) {
                Ok(_) => {},
                Err(e) => {
                    return Err(e);
                },
            }
        }
        i = end;
    }
    Ok(())
}

// ---------------------------------------------------------------------------
// The index first
// ---------------------------------------------------------------------------

/// The first box of a kind, from the i-th on.
pub open spec fn box_of(boxes: Seq<Mp4Box>, kind: u32, i: int) -> Option<int>
    decreases boxes.len() - i,
{
    if i >= boxes.len() {
        None
    } else if boxes[i].kind == kind {
        Some(i)
    } else {
        box_of(boxes, kind, i + 1)
    }
}

/// The bytes of the boxes from the i-th on, but for the one at `but`.
pub open spec fn joined_boxes(d: Seq<u8>, boxes: Seq<Mp4Box>, i: int, but: int) -> Seq<u8>
    decreases boxes.len() - i,
{
    if i >= boxes.len() {
        Seq::empty()
    } else if i == but {
        joined_boxes(d, boxes, i + 1, but)
    } else {
        d.subrange(boxes[i].start as int, boxes[i].end as int) + joined_boxes(d, boxes, i + 1, but)
    }
}

/// The index with its offsets shifted by its own length.
pub open spec fn shifted_index(d: Seq<u8>, b: Mp4Box) -> Result<Seq<u8>, Seq<char>> {
    let moov = d.subrange(b.start as int, b.end as int);
    shifted_offsets(moov, 8, moov.len() as int, moov.len() as int)
}

/// A file with the boxes given and its index before its pictures: what stands
/// before the pictures, the shifted index, and the other boxes. Nothing if it is
/// so already.
pub open spec fn with_index_first(d: Seq<u8>, boxes: Seq<Mp4Box>) -> Result<Option<Seq<u8>>, Seq<char>> {
    match (box_of(boxes, MOOV, 0), box_of(boxes, MDAT, 0)) {
        (Some(mi), Some(di)) => if mi < di {
            Ok(None)
        } else {
            match shifted_index(d, boxes[mi]) {
                Err(e) => Err(e),
                Ok(m) => Ok(Some(d.take(boxes[di].start as int) + m + joined_boxes(d, boxes, di, mi))),
            }
        },
        _ => Err("MP4 has no moov or mdat box"@),
    }
}

/// The file with its index before its pictures; nothing if it is so already.
pub open spec fn index_first(d: Seq<u8>) -> Result<Option<Seq<u8>>, Seq<char>> {
    match boxes_from(d, 0) {
        Err(at) => Err(bad_box(at)),
        Ok(boxes) => with_index_first(d, boxes),
    }
}

fn find_box(boxes: &Vec<Mp4Box>, kind: u32) -> (r: Option<usize>)
    ensures
        match r {
            Some(i) => box_of(boxes@, kind, 0) == Some(i as int) && i < boxes@.len(),
            None => box_of(boxes@, kind, 0) is None,
        },
{
    let mut i: usize = 0;
    while i < boxes.len()
        invariant
            i <= boxes.len(),
            box_of(boxes@, kind, 0) == box_of(boxes@, kind, i as int),
        decreases boxes.len() - i,
    {
        if boxes[i].kind == kind {
            return Some(i);
        }
        i = i + 1;
    }
    None
}

/// Whether all boxes lie between two positions and have room for their header.
pub open spec fn lie_between(boxes: Seq<Mp4Box>, from: int, len: int) -> bool {
    forall|i: int|
        0 <= i < boxes.len() ==> from <= (#[trigger] boxes[i]).start && boxes[i].start + 8 <= boxes[i].end <= len
}

proof fn lemma_boxes_lie(d: Seq<u8>, i: int)
    requires
        0 <= i <= d.len() <= usize::MAX,
    ensures
        boxes_from(d, i) matches Ok(b) ==> lie_between(b, i, d.len() as int),
    decreases d.len() - i,
{
    reveal(boxes_from);
    if i + 8 <= d.len() {
        let size = box_size(d, i);
        if !(size < 8 || i + size > d.len()) {
            lemma_boxes_lie(d, i + size);
            match boxes_from(d, i + size) {
                Ok(rest) => {
                    let x = Mp4Box { kind: be32(d, i + 4) as u32, start: i as usize, end: (i + size) as usize };
                    let b = seq![x] + rest;
                    assert forall|k: int| 0 <= k < b.len() implies i <= (#[trigger] b[k]).start && b[k].start + 8
                        <= b[k].end <= d.len() by {
                        if k > 0 {
                            assert(b[k] == rest[k - 1]);
                        }
                    }
                },
                Err(_) => {},
            }
        }
    }
}

pub open spec fn opt_bytes(v: Option<Vec<u8>>) -> Option<Seq<u8>> {
    match v {
        Some(x) => Some(x@),
        None => None,
    }
}

fn append_boxes(d: &[u8], boxes: &Vec<Mp4Box>, from: usize, but: usize, head: Vec<u8>) -> (out: Vec<u8>)
    requires
        from <= boxes@.len(),
        lie_between(boxes@, 0, d@.len() as int),
    ensures
        out@ == head@ + joined_boxes(d@, boxes@, from as int, but as int),
{
    let mut out = head;
    let mut i: usize = from;
    while i < boxes.len()
        invariant
            from <= i <= boxes.len(),
            lie_between(boxes@, 0, d@.len() as int),
            out@ + joined_boxes(d@, boxes@, i as int, but as int) == head@ + joined_boxes(
                d@,
                boxes@,
                from as int,
                but as int,
            ),
        decreases boxes.len() - i,
    {
        if i != but {
            let ghost before = out@;
            let mut part = copy_bytes(d, boxes[i].start, boxes[i].end);
            let ghost pv = part@;
            out.append(&mut part);
            proof {
                let rest = joined_boxes(d@, boxes@, i + 1, but as int);
                assert(before + (pv + rest) =~= out@ + rest);
            }
        }
        i = i + 1;
    }
    proof {
        assert(out@ + Seq::<u8>::empty() =~= out@);
    }
    out
}

fn shift_index(d: &[u8], b: Mp4Box) -> (r: Result<Vec<u8>, String>)
    requires
        b.start + 8 <= b.end <= d@.len(),
    ensures
        match r {
            Ok(v) => shifted_index(d@, b) == Ok::<Seq<u8>, Seq<char>>(v@),
            Err(e) => shifted_index(d@, b) == Err::<Seq<u8>, Seq<char>>(e@),
        },
{
    let mut moov = copy_bytes(d, b.start, b.end);
    let n: usize = moov.len();
    match patch_chunk_offsets(&mut moov, 8, n, n as u64) {
        Ok(_) => Ok(moov),
        Err(e) => Err(e),
    }
}

fn put_index_first(d: &[u8], boxes: &Vec<Mp4Box>) -> (r: Result<Option<Vec<u8>>, String>)
    requires
        lie_between(boxes@, 0, d@.len() as int),
    ensures
        match r {
            Ok(v) => with_index_first(d@, boxes@) == Ok::<Option<Seq<u8>>, Seq<char>>(opt_bytes(v)),
            Err(e) => with_index_first(d@, boxes@) == Err::<Option<Seq<u8>>, Seq<char>>(e@),
        },
{
    let (mi, di) = match (find_box(boxes, MOOV), find_box(boxes, MDAT)) {
        (Some(m), Some(x)) => (m, x),
        _ => {
            return Err("MP4 has no moov or mdat box".to_string());
        },
    };
    if mi < di {
        return Ok(None);
    }
    let mut moov = match shift_index(d, boxes[mi]) {
        Ok(m) => m,
        Err(e) => {
            return Err(e);
        },
    };
    let mut out = copy_bytes(d, 0, boxes[di].start);
    proof {
        assert(d@.subrange(0, boxes@[di as int].start as int) =~= d@.take(boxes@[di as int].start as int));
    }
    out.append(&mut moov);
    Ok(Some(append_boxes(d, boxes, di, mi, out)))
}

/// The file with its index before its pictures, or nothing if it is so already.
pub fn move_index_to_front(d: &[u8]) -> (r: Result<Option<Vec<u8>>, String>)
    ensures
        match r {
            Ok(v) => index_first(d@) == Ok::<Option<Seq<u8>>, Seq<char>>(opt_bytes(v)),
            Err(e) => index_first(d@) == Err::<Option<Seq<u8>>, Seq<char>>(e@),
        },
{
    match top_level_boxes(d) {
        Ok(boxes) => put_index_first(d, &boxes),
        Err(e) => Err(e),
    }
}

/// Moving the index moves the pictures by exactly the length of the index: what
/// stood at a position of the picture box stands that much further on, which is
/// what was added to every chunk offset.
pub proof fn law_pictures_move_with_their_offsets(d: Seq<u8>, p: int)
    requires
        d.len() <= usize::MAX,
        index_first(d) is Ok,
        index_first(d)->Ok_0 is Some,
        ({
            let boxes = boxes_from(d, 0)->Ok_0;
            let di = box_of(boxes, MDAT, 0)->0;
            boxes[di].start <= p < boxes[di].end
        }),
    ensures
        ({
            let boxes = boxes_from(d, 0)->Ok_0;
            let mi = box_of(boxes, MOOV, 0)->0;
            let shift = boxes[mi].end - boxes[mi].start;
            let out = index_first(d)->Ok_0->0;
            &&& 0 <= p + shift < out.len()
            &&& out[p + shift] == d[p]
        }),
{
    let boxes = boxes_from(d, 0)->Ok_0;
    let mi = box_of(boxes, MOOV, 0)->0;
    let di = box_of(boxes, MDAT, 0)->0;
    lemma_boxes_lie(d, 0);
    lemma_box_of(boxes, MOOV, 0);
    lemma_box_of(boxes, MDAT, 0);
    let moov = d.subrange(boxes[mi].start as int, boxes[mi].end as int);
    law_shift_keeps_length(moov, 8, moov.len() as int, moov.len() as int);
    let m = shifted_offsets(moov, 8, moov.len() as int, moov.len() as int)->Ok_0;
    let first = d.subrange(boxes[di].start as int, boxes[di].end as int);
    assert(di != mi);
    let rest = joined_boxes(d, boxes, di + 1, mi);
    assert(joined_boxes(d, boxes, di, mi) == first + rest);
    let out = d.take(boxes[di].start as int) + m + (first + rest);
    assert(out[p + moov.len()] == first[p - boxes[di].start]);
}

proof fn lemma_box_of(boxes: Seq<Mp4Box>, kind: u32, i: int)
    requires
        0 <= i,
    ensures
        box_of(boxes, kind, i) matches Some(k) ==> i <= k < boxes.len() && boxes[k].kind == kind,
    decreases boxes.len() - i,
{
    if i < boxes.len() && boxes[i].kind != kind {
        lemma_box_of(boxes, kind, i + 1);
    }
}

// ---------------------------------------------------------------------------
// The index stands first
// ---------------------------------------------------------------------------

/// Whether the next box starts where one ends.
spec fn next_follows(b: Seq<Mp4Box>, k: int) -> bool {
    b[k + 1].start == b[k].end
}

/// Whether boxes follow one another from a position on, each as long as it says.
spec fn follow(d: Seq<u8>, b: Seq<Mp4Box>, i: int) -> bool {
    &&& b.len() > 0 ==> b[0].start == i
    &&& forall|k: int|
        0 <= k < b.len() ==> {
            let x = #[trigger] b[k];
            &&& x.start + 8 <= x.end <= d.len()
            &&& box_size(d, x.start as int) == x.end - x.start
            &&& x.kind == be32(d, x.start + 4)
        }
    &&& forall|k: int| 0 <= k < b.len() - 1 ==> #[trigger] next_follows(b, k)
}

proof fn lemma_boxes_follow(d: Seq<u8>, i: int)
    requires
        0 <= i <= d.len() <= usize::MAX,
    ensures
        boxes_from(d, i) matches Ok(b) ==> follow(d, b, i),
    decreases d.len() - i,
{
    reveal(boxes_from);
    if i + 8 <= d.len() {
        let size = box_size(d, i);
        if !(size < 8 || i + size > d.len()) {
            lemma_boxes_follow(d, i + size);
            match boxes_from(d, i + size) {
                Ok(rest) => {
                    let x = Mp4Box { kind: be32(d, i + 4) as u32, start: i as usize, end: (i + size) as usize };
                    let b = seq![x] + rest;
                    assert forall|k: int| 0 <= k < b.len() implies {
                        let y = #[trigger] b[k];
                        &&& y.start + 8 <= y.end <= d.len()
                        &&& box_size(d, y.start as int) == y.end - y.start
                        &&& y.kind == be32(d, y.start + 4)
                    } by {
                        if k > 0 {
                            assert(b[k] == rest[k - 1]);
                        }
                    }
                    assert forall|k: int| 0 <= k < b.len() - 1 implies #[trigger] next_follows(b, k) by {
                        assert(b[k + 1] == rest[k]);
                        if k > 0 {
                            assert(b[k] == rest[k - 1]);
                            assert(next_follows(rest, k - 1));
                        }
                    }
                },
                Err(_) => {},
            }
        }
    }
}

/// Whether the bytes of a box hold its own length, so that it can stand anywhere; one
/// that reaches to the end can only stand last.
spec fn stands_alone(x: Seq<u8>, last: bool) -> bool {
    &&& x.len() >= 8
    &&& be32(x, 0) == 1 ==> x.len() >= 16
    &&& be32(x, 0) == 0 ==> last
    &&& box_size(x, 0) == x.len()
}

proof fn lemma_box_anywhere(d: Seq<u8>, i: int, x: Seq<u8>)
    requires
        0 <= i,
        i + x.len() <= d.len() <= usize::MAX,
        d.subrange(i, i + x.len()) == x,
        stands_alone(x, i + x.len() == d.len()),
    ensures
        boxes_from(d, i) == (match boxes_from(d, i + x.len()) {
            Ok(rest) => Ok::<Seq<Mp4Box>, int>(
                seq![
                    Mp4Box { kind: be32(x, 4) as u32, start: i as usize, end: (i + x.len()) as usize },
                ] + rest,
            ),
            Err(e) => Err(e),
        }),
{
    reveal(boxes_from);
    assert forall|k: int| 0 <= k < x.len() implies d[i + k] == #[trigger] x[k] by {
        assert(d.subrange(i, i + x.len())[k] == d[i + k]);
    }
    assert(x[0] == d[i] && x[1] == d[i + 1] && x[2] == d[i + 2] && x[3] == d[i + 3]);
    assert(x[4] == d[i + 4] && x[5] == d[i + 5] && x[6] == d[i + 6] && x[7] == d[i + 7]);
    if be32(x, 0) == 1 {
        assert(x[8] == d[i + 8] && x[9] == d[i + 9] && x[10] == d[i + 10] && x[11] == d[i + 11]);
        assert(x[12] == d[i + 12] && x[13] == d[i + 13] && x[14] == d[i + 14] && x[15] == d[i + 15]);
    }
    assert(box_size(d, i) == x.len());
}

/// The bytes of a box in a file.
spec fn bytes_at(d: Seq<u8>, b: Mp4Box) -> Seq<u8> {
    d.subrange(b.start as int, b.end as int)
}

proof fn lemma_cut_out(d: Seq<u8>, b: Mp4Box)
    requires
        b.start + 8 <= b.end <= d.len(),
        box_size(d, b.start as int) == b.end - b.start,
        be32(d, b.start as int) == 1 ==> b.start + 16 <= b.end,
    ensures
        stands_alone(bytes_at(d, b), b.end == d.len()),
        be32(bytes_at(d, b), 0) == be32(d, b.start as int),
        be32(bytes_at(d, b), 4) == be32(d, b.start + 4),
{
}

/// Whether a length that is written in eight bytes covers them.
spec fn long_headers_fit(d: Seq<u8>, b: Seq<Mp4Box>) -> bool {
    forall|k: int| 0 <= k < b.len() && be32(d, (#[trigger] b[k]).start as int) == 1 ==> b[k].start + 16 <= b[k].end
}

/// The boxes behind the index can be read again.
proof fn lemma_rest_reads(d: Seq<u8>, b: Seq<Mp4Box>, k: int, but: int, p: Seq<u8>)
    requires
        0 <= k <= b.len(),
        follow(d, b, 0),
        long_headers_fit(d, b),
        0 <= but < b.len(),
        be32(d, b[but].start as int) != 0,
        p.len() + joined_boxes(d, b, k, but).len() <= usize::MAX,
    ensures
        boxes_from(p + joined_boxes(d, b, k, but), p.len() as int) matches Ok(bs) && (k < b.len() && k != but ==> bs.len()
            > 0 && bs[0].kind == b[k].kind),
    decreases b.len() - k,
{
    let j = joined_boxes(d, b, k, but);
    let all = p + j;
    if k >= b.len() {
        reveal(boxes_from);
    } else if k == but {
        lemma_rest_reads(d, b, k + 1, but, p);
    } else {
        let x = bytes_at(d, b[k]);
        let rest = joined_boxes(d, b, k + 1, but);
        lemma_cut_out(d, b[k]);
        assert(all.subrange(p.len() as int, (p.len() + x.len()) as int) =~= x);
        assert(all =~= (p + x) + rest);
        if be32(x, 0) == 0 {
            // It reaches to the end, so nothing follows it.
            if k + 1 < b.len() {
                assert(next_follows(b, k));
                assert(b[k + 1].start + 8 <= b[k + 1].end <= d.len());
            }
        }
        lemma_rest_reads(d, b, k + 1, but, p + x);
        lemma_box_anywhere(all, p.len() as int, x);
    }
}

proof fn lemma_table_keeps_head(d: Seq<u8>, at: int, k: int, count: int, wide: bool, shift: int, j: int)
    requires
        0 <= k,
        0 <= j < d.len(),
        j < at,
    ensures
        shifted_table(d, at, k, count, wide, shift) matches Ok(r) ==> r.len() == d.len() && r[j] == d[j],
    decreases count - k,
{
    if k < count {
        if wide {
            let v = be64(d, at + 8 * k) + shift;
            lemma_table_keeps_head(overwrite(d, at + 8 * k, be64_bytes(v)), at, k + 1, count, wide, shift, j);
        } else {
            let v = be32(d, at + 4 * k) + shift;
            lemma_table_keeps_head(overwrite(d, at + 4 * k, be32_bytes(v)), at, k + 1, count, wide, shift, j);
        }
    }
}

proof fn lemma_shift_keeps_head(d: Seq<u8>, i: int, to: int, shift: int, j: int)
    requires
        0 <= i,
        0 <= j < d.len(),
        j < i + 8,
    ensures
        shifted_offsets(d, i, to, shift) matches Ok(r) ==> r.len() == d.len() && r[j] == d[j],
    decreases to - i,
{
    if i + 8 <= to {
        let size = be32(d, i);
        let kind = be32(d, i + 4);
        if !(size < 8 || i + size > to) {
            if is_container(kind) {
                lemma_shift_keeps_head(d, i + 8, i + size, shift, j);
                match shifted_offsets(d, i + 8, i + size, shift) {
                    Ok(d2) => {
                        lemma_shift_keeps_head(d2, i + size, to, shift, j);
                    },
                    Err(_) => {},
                }
            } else if kind == STCO || kind == CO64 {
                lemma_table_keeps_head(d, i + 16, 0, be32(d, i + 12), kind == CO64, shift, j);
                match shifted_body(d, i + 8, i + size, kind == CO64, shift) {
                    Ok(d2) => {
                        lemma_shift_keeps_head(d2, i + size, to, shift, j);
                    },
                    Err(_) => {},
                }
            } else {
                lemma_shift_keeps_head(d, i + size, to, shift, j);
            }
        }
    }
}

/// With its offsets shifted the index is a box as before.
proof fn lemma_shifted_index_stands(d: Seq<u8>, b: Mp4Box)
    requires
        b.start + 8 <= b.end <= d.len(),
        box_size(d, b.start as int) == b.end - b.start,
        be32(d, b.start as int) != 0,
        be32(d, b.start as int) == 1 ==> b.start + 16 <= b.end,
    ensures
        shifted_index(d, b) matches Ok(m) ==> stands_alone(m, false) && m.len() == b.end - b.start && be32(m, 4) == be32(
            d,
            b.start + 4,
        ),
{
    let x = bytes_at(d, b);
    lemma_cut_out(d, b);
    assert forall|j: int| 0 <= j < 16 && j < x.len() implies (shifted_index(d, b) matches Ok(m) ==> m.len() == x.len()
        && #[trigger] x[j] == m[j]) by {
        lemma_shift_keeps_head(x, 8, x.len() as int, x.len() as int, j);
    }
    match shifted_index(d, b) {
        Ok(m) => {
            assert(x[0] == m[0] && x[1] == m[1] && x[2] == m[2] && x[3] == m[3]);
            assert(x[4] == m[4] && x[5] == m[5] && x[6] == m[6] && x[7] == m[7]);
            if be32(x, 0) == 1 {
                assert(x[8] == m[8] && x[9] == m[9] && x[10] == m[10] && x[11] == m[11]);
                assert(x[12] == m[12] && x[13] == m[13] && x[14] == m[14] && x[15] == m[15]);
            }
        },
        Err(_) => {},
    }
}

proof fn lemma_joined_len(d: Seq<u8>, b: Seq<Mp4Box>, k: int, but: int)
    requires
        0 <= k < b.len(),
        follow(d, b, 0),
        0 <= but < b.len(),
    ensures
        joined_boxes(d, b, k, but).len() + (if k <= but {
            b[but].end - b[but].start
        } else {
            0
        }) <= d.len() - b[k].start,
    decreases b.len() - k,
{
    if k + 1 < b.len() {
        lemma_joined_len(d, b, k + 1, but);
        assert(next_follows(b, k));
    } else {
        assert(joined_boxes(d, b, k + 1, but).len() == 0);
    }
}

proof fn lemma_no_box_before(b: Seq<Mp4Box>, kind: u32, i: int, k: int)
    requires
        box_of(b, kind, i) is Some,
        0 <= i <= k < box_of(b, kind, i)->0,
        k < b.len(),
    ensures
        b[k].kind != kind,
    decreases k - i,
{
    if i < k {
        lemma_no_box_before(b, kind, i + 1, k);
    }
}

/// The boxes of the new file from the index on.
proof fn lemma_index_reads(d: Seq<u8>, b: Seq<Mp4Box>, mi: int, di: int, m: Seq<u8>, out: Seq<u8>)
    requires
        0 <= di < mi < b.len(),
        d.len() <= usize::MAX,
        follow(d, b, 0),
        long_headers_fit(d, b),
        b[mi].kind == MOOV,
        b[di].kind == MDAT,
        be32(d, b[mi].start as int) != 0,
        shifted_index(d, b[mi]) == Ok::<Seq<u8>, Seq<char>>(m),
        out == d.take(b[di].start as int) + m + joined_boxes(d, b, di, mi),
    ensures
        out.len() <= d.len(),
        m.len() >= 8,
        boxes_from(out, b[di].start as int) matches Ok(bs) && box_of(bs, MOOV, 0) == Some(0int) && box_of(bs, MDAT, 0)
            == Some(1int),
{
    let head = d.take(b[di].start as int);
    assert(b[mi].start + 8 <= b[mi].end <= d.len());
    assert(b[di].start + 8 <= b[di].end <= d.len());
    lemma_shifted_index_stands(d, b[mi]);
    lemma_joined_len(d, b, di, mi);
    lemma_rest_reads(d, b, di, mi, head + m);
    let tail = boxes_from(out, (head + m).len() as int)->Ok_0;
    assert(out.subrange(head.len() as int, (head.len() + m.len()) as int) =~= m);
    lemma_box_anywhere(out, head.len() as int, m);
    let bs = boxes_from(out, head.len() as int)->Ok_0;
    assert(bs[0].kind == MOOV);
    assert(bs[1] == tail[0]);
    assert(box_of(bs, MDAT, 1) == Some(1int));
}

proof fn lemma_same_part(out: Seq<u8>, d: Seq<u8>, n: int, b: Mp4Box)
    requires
        b.start <= b.end <= n <= d.len(),
        n <= out.len(),
        out.take(n) == d.take(n),
    ensures
        bytes_at(out, b) == bytes_at(d, b),
{
    assert forall|j: int| b.start <= j < b.end implies out[j] == d[j] by {
        assert(out.take(n)[j] == out[j]);
        assert(d.take(n)[j] == d[j]);
    }
    assert(bytes_at(out, b) =~= bytes_at(d, b));
}

proof fn lemma_found_after(b: Seq<Mp4Box>, x: Mp4Box, kind: u32)
    requires
        x.kind != kind,
        box_of(b, kind, 0) is Some,
    ensures
        box_of(seq![x] + b, kind, 0) == Some(box_of(b, kind, 0)->0 + 1),
{
    lemma_one_before(b, x, kind, 0);
    assert((seq![x] + b)[0] == x);
}

/// The boxes of the new file from the k-th on.
proof fn lemma_head_reads(d: Seq<u8>, b: Seq<Mp4Box>, k: int, di: int, out: Seq<u8>)
    requires
        0 <= k <= di < b.len(),
        follow(d, b, 0),
        long_headers_fit(d, b),
        forall|i: int| 0 <= i < di ==> (#[trigger] b[i]).kind != MOOV && b[i].kind != MDAT,
        b[di].start + 8 <= out.len() <= usize::MAX,
        out.take(b[di].start as int) == d.take(b[di].start as int),
        boxes_from(out, b[di].start as int) matches Ok(bs) && box_of(bs, MOOV, 0) == Some(0int) && box_of(bs, MDAT, 0)
            == Some(1int),
    ensures
        boxes_from(out, b[k].start as int) matches Ok(bs) && box_of(bs, MOOV, 0) == Some(di - k) && box_of(bs, MDAT, 0)
            == Some(di - k + 1),
    decreases di - k,
{
    if k < di {
        lemma_head_reads(d, b, k + 1, di, out);
        assert(next_follows(b, k));
        lemma_starts_rise(d, b, k + 1, di);
        lemma_cut_out(d, b[k]);
        let x = bytes_at(d, b[k]);
        assert(b[di].start + 8 <= b[di].end <= d.len());
        lemma_same_part(out, d, b[di].start as int, b[k]);
        assert(be32(x, 0) != 0) by {
            if be32(x, 0) == 0 {
                assert(b[k + 1].start + 8 <= b[k + 1].end <= d.len());
            }
        }
        lemma_box_anywhere(out, b[k].start as int, x);
        let later = boxes_from(out, b[k + 1].start as int)->Ok_0;
        let first = Mp4Box { kind: be32(x, 4) as u32, start: b[k].start, end: b[k].end };
        assert(boxes_from(out, b[k].start as int) == Ok::<Seq<Mp4Box>, int>(seq![first] + later));
        lemma_found_after(later, first, MOOV);
        lemma_found_after(later, first, MDAT);
    }
}

proof fn lemma_starts_rise(d: Seq<u8>, b: Seq<Mp4Box>, i: int, k: int)
    requires
        0 <= i <= k < b.len(),
        follow(d, b, 0),
    ensures
        b[i].start <= b[k].start,
    decreases k - i,
{
    if i < k {
        lemma_starts_rise(d, b, i + 1, k);
        assert(next_follows(b, i));
    }
}

proof fn lemma_one_before(b: Seq<Mp4Box>, x: Mp4Box, kind: u32, i: int)
    requires
        0 <= i,
    ensures
        box_of(seq![x] + b, kind, i + 1) == (match box_of(b, kind, i) {
            Some(k) => Some(k + 1),
            None => None,
        }),
    decreases b.len() - i,
{
    if i < b.len() {
        assert((seq![x] + b)[i + 1] == b[i]);
        lemma_one_before(b, x, kind, i + 1);
    }
}

/// In the file that comes out the index stands before the pictures: moving it once
/// more moves nothing. The lengths of the boxes are taken to be such that a box can
/// be moved: one that is written in eight bytes covers them, and that of the index is
/// written at all.
pub proof fn law_index_stands_first(d: Seq<u8>)
    requires
        d.len() <= usize::MAX,
        index_first(d) is Ok,
        index_first(d)->Ok_0 is Some,
        ({
            let b = boxes_from(d, 0)->Ok_0;
            &&& forall|k: int|
                0 <= k < b.len() && be32(d, (#[trigger] b[k]).start as int) == 1 ==> b[k].start + 16 <= b[k].end
            &&& be32(d, b[box_of(b, MOOV, 0)->0].start as int) != 0
        }),
    ensures
        index_first(index_first(d)->Ok_0->0) == Ok::<Option<Seq<u8>>, Seq<char>>(None),
{
    let b = boxes_from(d, 0)->Ok_0;
    let out = index_first(d)->Ok_0->0;
    let mi = box_of(b, MOOV, 0)->0;
    let di = box_of(b, MDAT, 0)->0;
    lemma_boxes_follow(d, 0);
    lemma_box_of(b, MOOV, 0);
    lemma_box_of(b, MDAT, 0);
    assert(di != mi);
    assert(long_headers_fit(d, b));
    let m = shifted_index(d, b[mi])->Ok_0;
    lemma_index_reads(d, b, mi, di, m, out);
    assert(out.take(b[di].start as int) =~= d.take(b[di].start as int));
    assert forall|i: int| 0 <= i < di implies (#[trigger] b[i]).kind != MOOV && b[i].kind != MDAT by {
        lemma_no_box_before(b, MOOV, 0, i);
        lemma_no_box_before(b, MDAT, 0, i);
    }
    lemma_head_reads(d, b, 0, di, out);
}

proof fn lemma_number_written(n: int)
    requires
        0 <= n < 0x1_0000_0000,
    ensures
        be32_bytes(n).len() == 4,
        forall|d: Seq<u8>, i: int|
            0 <= i && i + 4 <= d.len() && (forall|k: int| 0 <= k < 4 ==> d[i + k] == #[trigger] be32_bytes(n)[k])
                ==> #[trigger] be32(d, i) == n,
{
    law_be32_round_trip(n);
    let b = be32_bytes(n);
    assert forall|d: Seq<u8>, i: int|
        0 <= i && i + 4 <= d.len() && (forall|k: int| 0 <= k < 4 ==> d[i + k] == #[trigger] be32_bytes(n)[k]) implies
        #[trigger] be32(d, i) == n by {
        assert(d[i + 0] == b[0] && d[i + 1] == b[1] && d[i + 2] == b[2] && d[i + 3] == b[3]);
    }
}

proof fn lemma_offsets_moved(d: Seq<u8>, at: int, k: int, count: int, shift: int, j: int)
    requires
        0 <= at,
        0 <= k <= count,
        at + 4 * count <= d.len(),
        0 <= j < count,
        0 <= shift,
        shifted_table(d, at, k, count, false, shift) is Ok,
    ensures
        ({
            let r = shifted_table(d, at, k, count, false, shift)->Ok_0;
            &&& r.len() == d.len()
            &&& j >= k ==> be32(r, at + 4 * j) == be32(d, at + 4 * j) + shift
            &&& j < k ==> be32(r, at + 4 * j) == be32(d, at + 4 * j)
            &&& forall|i: int| 0 <= i < d.len() && !(at <= i < at + 4 * count) ==> #[trigger] r[i] == d[i]
        }),
    decreases count - k,
{
    if k < count {
        let p = at + 4 * k;
        let v = be32(d, p) + shift;
        assert(be32(d, p) >= 0);
        let d2 = overwrite(d, p, be32_bytes(v));
        lemma_offsets_moved(d2, at, k + 1, count, shift, j);
        lemma_number_written(v);
        if j == k {
            assert forall|q: int| 0 <= q < 4 implies d2[p + q] == #[trigger] be32_bytes(v)[q] by {}
            assert(be32(d2, p) == v);
        } else {
            let o = at + 4 * j;
            assert(d2[o] == d[o] && d2[o + 1] == d[o + 1] && d2[o + 2] == d[o + 2] && d2[o + 3] == d[o + 3]);
        }
    }
}

/// A table of where the pictures stand has every number raised by as much as they move, and
/// nothing else in the file changes.
pub proof fn law_every_offset_is_moved(d: Seq<u8>, at: int, count: int, shift: int, j: int)
    requires
        0 <= at,
        at + 4 * count <= d.len(),
        0 <= j < count,
        0 <= shift,
        shifted_table(d, at, 0, count, false, shift) is Ok,
    ensures
        ({
            let r = shifted_table(d, at, 0, count, false, shift)->Ok_0;
            &&& be32(r, at + 4 * j) == be32(d, at + 4 * j) + shift
            &&& r.len() == d.len()
            &&& forall|i: int| 0 <= i < d.len() && !(at <= i < at + 4 * count) ==> #[trigger] r[i] == d[i]
        }),
{
    lemma_offsets_moved(d, at, 0, count, shift, j);
}

/// The boxes in which tables of pictures are looked for, and the tables themselves, by their
/// names.
pub proof fn law_names_of_boxes(kind: int)
    ensures
        is_container(kind) <==> kind == 0x7472_616B || kind == 0x6D64_6961 || kind == 0x6D69_6E66 || kind == 0x7374_626C,
        MOOV == 0x6D6F_6F76,
        MDAT == 0x6D64_6174,
        STCO == 0x7374_636F,
        CO64 == 0x636F_3634,
{
}

} // verus!
