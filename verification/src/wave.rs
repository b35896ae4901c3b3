//! Spoken messages in WAV: reading what a voice gives, and putting a chime and a
//! little silence around it.

use vstd::prelude::*;

verus! {

// ---------------------------------------------------------------------------
// Bytes
// ---------------------------------------------------------------------------

pub open spec fn le16(d: Seq<u8>, i: int) -> nat {
    (d[i] + 256 * d[i + 1]) as nat
}

pub open spec fn le32(d: Seq<u8>, i: int) -> nat {
    le16(d, i) + 65_536 * le16(d, i + 2)
}

/// The byte of a number at a place, the lowest first.
pub open spec fn byte_of(n: int, place: int) -> u8 {
    if place == 0 {
        (n % 256) as u8
    } else if place == 1 {
        (n / 256 % 256) as u8
    } else if place == 2 {
        (n / 65_536 % 256) as u8
    } else {
        (n / 16_777_216 % 256) as u8
    }
}

fn read16(d: &[u8], i: usize) -> (r: u16)
    requires
        i + 2 <= d.len(),
    ensures
        r == le16(d@, i as int),
{
    d[i] as u16 + 256 * d[i + 1] as u16
}

fn read32(d: &[u8], i: usize) -> (r: u32)
    requires
        i + 4 <= d.len(),
    ensures
        r == le32(d@, i as int),
{
    read16(d, i) as u32 + 65_536 * read16(d, i + 2) as u32
}

/// Whether four letters stand at a place.
pub open spec fn has_mark(d: Seq<u8>, i: int, a: u8, b: u8, c: u8, e: u8) -> bool {
    d[i] == a && d[i + 1] == b && d[i + 2] == c && d[i + 3] == e
}

// ---------------------------------------------------------------------------
// Reading
// ---------------------------------------------------------------------------

/// What a WAV file says of its sound.
#[derive(Clone, Copy, Debug)]
pub struct Wave {
    pub channels: u16,
    pub rate: u32,
    pub bits: u16,
    /// Where the samples start and end.
    pub data: Option<(u64, u64)>,
}

/// Where the content of a chunk ends.
pub open spec fn chunk_end(w: Seq<u8>, i: int) -> int {
    if i + 8 + le32(w, i + 4) > w.len() {
        w.len() as int
    } else {
        i + 8 + le32(w, i + 4)
    }
}

/// What is known after a chunk.
pub open spec fn with_chunk(w: Seq<u8>, i: int, f: Wave) -> Wave {
    let end = chunk_end(w, i);
    if has_mark(w, i, 102, 109, 116, 32) && end - (i + 8) >= 16 {
        Wave {
            channels: le16(w, i + 10) as u16,
            rate: le32(w, i + 12) as u32,
            bits: le16(w, i + 22) as u16,
            ..f
        }
    } else if has_mark(w, i, 100, 97, 116, 97) {
        Wave { data: Some(((i + 8) as u64, end as u64)), ..f }
    } else {
        f
    }
}

/// What is known after the chunks from a place on. A chunk of odd length is followed
/// by a byte that does not count.
pub open spec fn chunks_from(w: Seq<u8>, i: int, f: Wave) -> Wave
    decreases
            if i < w.len() {
                w.len() - i
            } else {
                0
            },
{
    if i < 0 || i + 8 > w.len() {
        f
    } else {
        let len = le32(w, i + 4);
        chunks_from(w, i + 8 + len + len % 2, with_chunk(w, i, f))
    }
}

pub open spec fn nothing_known() -> Wave {
    Wave { channels: 0, rate: 0, bits: 0, data: None }
}

/// Whether some bytes start as a WAV file does.
pub open spec fn is_wave(w: Seq<u8>) -> bool {
    w.len() >= 12 && has_mark(w, 0, 82, 73, 70, 70) && has_mark(w, 8, 87, 65, 86, 69)
}

/// The sound in a WAV file, if it has samples of 16 bits.
pub open spec fn sound_in(w: Seq<u8>) -> Option<Wave> {
    let f = chunks_from(w, 12, nothing_known());
    if is_wave(w) && f.data is Some && f.bits == 16 && f.channels != 0 && f.rate != 0 {
        Some(f)
    } else {
        None
    }
}

fn mark_at(d: &[u8], i: usize, a: u8, b: u8, c: u8, e: u8) -> (r: bool)
    requires
        i + 4 <= d.len(),
    ensures
        r == has_mark(d@, i as int, a, b, c, e),
{
    d[i] == a && d[i + 1] == b && d[i + 2] == c && d[i + 3] == e
}

proof fn lemma_chunks_within(w: Seq<u8>, i: int, f: Wave)
    requires
        0 <= i,
        w.len() <= u64::MAX,
        f.data matches Some((a, b)) ==> a <= b <= w.len(),
    ensures
        chunks_from(w, i, f).data matches Some((a, b)) ==> a <= b <= w.len(),
    decreases
            if i < w.len() {
                w.len() - i
            } else {
                0
            },
{
    if i + 8 <= w.len() {
        let len = le32(w, i + 4);
        lemma_chunks_within(w, i + 8 + len + len % 2, with_chunk(w, i, f));
    }
}

/// The sound in a WAV file.
pub fn read_wave(w: &[u8]) -> (r: Option<Wave>)
    ensures
        r == sound_in(w@),
        r matches Some(f) ==> f.data matches Some((a, b)) && a <= b <= w.len(),
{
    if w.len() < 12 || !mark_at(w, 0, 82, 73, 70, 70) || !mark_at(w, 8, 87, 65, 86, 69) {
        return None;
    }
    let mut f = Wave { channels: 0, rate: 0, bits: 0, data: None };
    let n: u64 = w.len() as u64;
    let mut i: u64 = 12;
    while n - i >= 8
        invariant
            12 <= i,
            n == w.len(),
            is_wave(w@),
            w@.len() == w.len(),
            chunks_from(w@, 12, nothing_known()) == chunks_from(w@, i as int, f),
            i <= n,
        decreases n - i,
    {
        let k: usize = i as usize;
        let len: u64 = read32(w, k + 4) as u64;
        let end: u64 = if len > n - (i + 8) {
            n
        } else {
            i + 8 + len
        };
        if mark_at(w, k, 102, 109, 116, 32) && end - (i + 8) >= 16 {
            f.channels = read16(w, k + 10);
            f.rate = read32(w, k + 12);
            f.bits = read16(w, k + 22);
        } else if mark_at(w, k, 100, 97, 116, 97) {
            f.data = Some((i + 8, end));
        }
        if len > n - (i + 8) {
            // The last chunk.
            proof {
                assert(chunks_from(w@, i + 8 + len + len % 2, f) == f);
            }
            i = n;
            proof {
                assert(chunks_from(w@, n as int, f) == f);
            }
        } else {
            let next: u64 = i + 8 + len;
            if len % 2 == 1 && next < n {
                i = next + 1;
            } else {
                proof {
                    if len % 2 == 1 {
                        assert(chunks_from(w@, next + 1, f) == chunks_from(w@, next as int, f));
                    }
                }
                i = next;
            }
        }
    }
    proof {
        lemma_chunks_within(w@, 12, nothing_known());
    }
    if f.bits != 16 || f.channels == 0 || f.rate == 0 || f.data.is_none() {
        None
    } else {
        Some(f)
    }
}

// ---------------------------------------------------------------------------
// Writing
// ---------------------------------------------------------------------------

/// The head of a WAV file with samples of 16 bits that take so many bytes.
pub open spec fn head(channels: int, rate: int, bytes: int) -> Seq<u8> {
    let all = (36 + bytes) % 0x1_0000_0000;
    let per_second = (rate * channels * 2) % 0x1_0000_0000;
    let size = bytes % 0x1_0000_0000;
    seq![
        82u8, 73u8, 70u8, 70u8,
        byte_of(all, 0), byte_of(all, 1), byte_of(all, 2), byte_of(all, 3),
        87u8, 65u8, 86u8, 69u8,
        102u8, 109u8, 116u8, 32u8,
        16u8, 0u8, 0u8, 0u8,
        1u8, 0u8,
        byte_of(channels, 0), byte_of(channels, 1),
        byte_of(rate, 0), byte_of(rate, 1), byte_of(rate, 2), byte_of(rate, 3),
        byte_of(per_second, 0), byte_of(per_second, 1), byte_of(per_second, 2), byte_of(per_second, 3),
        byte_of(channels * 2 % 65_536, 0), byte_of(channels * 2 % 65_536, 1),
        16u8, 0u8,
        100u8, 97u8, 116u8, 97u8,
        byte_of(size, 0), byte_of(size, 1), byte_of(size, 2), byte_of(size, 3)
    ]
}

fn push32(out: &mut Vec<u8>, n: u32)
    ensures
        final(out)@ == old(out)@ + seq![
            byte_of(n as int, 0),
            byte_of(n as int, 1),
            byte_of(n as int, 2),
            byte_of(n as int, 3),
        ],
{
    out.push((n % 256) as u8);
    out.push((n / 256 % 256) as u8);
    out.push((n / 65_536 % 256) as u8);
    out.push((n / 16_777_216 % 256) as u8);
    proof {
        assert(out@ =~= old(out)@ + seq![
            byte_of(n as int, 0),
            byte_of(n as int, 1),
            byte_of(n as int, 2),
            byte_of(n as int, 3),
        ]);
    }
}

fn push16(out: &mut Vec<u8>, n: u16)
    ensures
        final(out)@ == old(out)@ + seq![byte_of(n as int, 0), byte_of(n as int, 1)],
{
    out.push((n % 256) as u8);
    out.push((n / 256) as u8);
    proof {
        assert(n as int / 256 % 256 == n as int / 256);
        assert(out@ =~= old(out)@ + seq![byte_of(n as int, 0), byte_of(n as int, 1)]);
    }
}

fn push4(out: &mut Vec<u8>, a: u8, b: u8, c: u8, d: u8)
    ensures
        final(out)@ == old(out)@ + seq![a, b, c, d],
{
    out.push(a);
    out.push(b);
    out.push(c);
    out.push(d);
    proof {
        assert(out@ =~= old(out)@ + seq![a, b, c, d]);
    }
}

#[verifier::spinoff_prover]
#[verifier::rlimit(40)]
fn head_bytes(channels: u16, rate: u32, bytes: u64) -> (out: Vec<u8>)
    ensures
        out@ == head(channels as int, rate as int, bytes as int),
{
    proof {
        assert(0 <= rate * channels <= 0xFFFF_FFFF * 0xFFFF) by (nonlinear_arith)
            requires
                0 <= rate <= 0xFFFF_FFFF,
                0 <= channels <= 0xFFFF,
        ;
    }
    let all: u32 = ((36 + bytes as u128) % 0x1_0000_0000) as u32;
    let per_second: u32 = ((rate as u64 * channels as u64 * 2) % 0x1_0000_0000) as u32;
    let size: u32 = (bytes % 0x1_0000_0000) as u32;
    let frame: u16 = ((channels as u32 * 2) % 65_536) as u16;
    let mut out: Vec<u8> = Vec::new();
    push4(&mut out, 82, 73, 70, 70);
    push32(&mut out, all);
    push4(&mut out, 87, 65, 86, 69);
    push4(&mut out, 102, 109, 116, 32);
    push4(&mut out, 16, 0, 0, 0);
    out.push(1);
    out.push(0);
    push16(&mut out, channels);
    push32(&mut out, rate);
    push32(&mut out, per_second);
    push16(&mut out, frame);
    out.push(16);
    out.push(0);
    push4(&mut out, 100, 97, 116, 97);
    push32(&mut out, size);
    proof {
        assert(out@ =~= head(channels as int, rate as int, bytes as int));
    }
    out
}

/// So many bytes of silence.
pub open spec fn silence(n: int) -> Seq<u8> {
    Seq::new(
        if n > 0 {
            n as nat
        } else {
            0
        },
        |i: int| 0u8,
    )
}

/// A sample on so many channels.
pub open spec fn on_channels(s: u16, channels: int) -> Seq<u8>
    decreases channels,
{
    if channels <= 0 {
        Seq::empty()
    } else {
        on_channels(s, channels - 1) + seq![byte_of(s as int, 0), byte_of(s as int, 1)]
    }
}

/// The first `n` samples of a chime on all channels.
pub open spec fn chime_bytes(chime: Seq<u16>, channels: int, n: int) -> Seq<u8>
    decreases n,
{
    if n <= 0 {
        Seq::empty()
    } else {
        chime_bytes(chime, channels, n - 1) + on_channels(chime[n - 1], channels)
    }
}

/// How many bytes so many hundredths of a second take.
pub open spec fn span(rate: int, channels: int, hundredths: int) -> int {
    rate * hundredths / 100 * channels * 2
}

/// What stands before the speech: a short silence, since some speakers cut off the
/// start, and then the chime and another silence, if there is to be a chime.
pub open spec fn lead_in(f: Wave, chime: Option<Seq<u16>>) -> Seq<u8> {
    let c = f.channels as int;
    let first = silence(span(f.rate as int, c, 35));
    match chime {
        Some(s) => first + chime_bytes(s, c, s.len() as int) + silence(span(f.rate as int, c, 25)),
        None => first,
    }
}

/// The speech itself: whole samples.
pub open spec fn speech(w: Seq<u8>, f: Wave) -> Seq<u8> {
    let (a, b) = f.data->0;
    w.subrange(a as int, a + (b - a) / 2 * 2)
}

/// The samples of a message.
pub open spec fn body(w: Seq<u8>, f: Wave, chime: Option<Seq<u16>>) -> Seq<u8> {
    lead_in(f, chime) + speech(w, f) + silence(span(f.rate as int, f.channels as int, 40))
}

/// A message: its head and its samples.
pub open spec fn message(w: Seq<u8>, f: Wave, chime: Option<Seq<u16>>) -> Seq<u8> {
    let b = body(w, f, chime);
    head(f.channels as int, f.rate as int, b.len() as int) + b
}

/// How long so many bytes of samples play, in milliseconds.
pub open spec fn length_ms(f: Wave, bytes: int) -> int {
    bytes / 2 * 1_000 / (f.channels * f.rate)
}

fn push_silence(out: &mut Vec<u8>, rate: u32, channels: u16, hundredths: u64)
    requires
        hundredths <= 100,
    ensures
        final(out)@ == old(out)@ + silence(span(rate as int, channels as int, hundredths as int)),
{
    proof {
        assert(0 <= rate * hundredths <= 0xFFFF_FFFF * 100) by (nonlinear_arith)
            requires
                0 <= rate <= 0xFFFF_FFFF,
                0 <= hundredths <= 100,
        ;
        let frames = rate as int * hundredths as int / 100;
        assert(0 <= frames * channels <= 0xFFFF_FFFF * 0xFFFF) by (nonlinear_arith)
            requires
                0 <= frames <= 0xFFFF_FFFF,
                0 <= channels <= 0xFFFF,
        ;
    }
    let n: u64 = rate as u64 * hundredths / 100 * channels as u64 * 2;
    let ghost before = out@;
    let mut i: u64 = 0;
    proof {
        assert(out@ =~= before + silence(0));
    }
    while i < n
        invariant
            i <= n,
            out@ == before + silence(i as int),
        decreases n - i,
    {
        out.push(0);
        proof {
            assert(out@ =~= before + silence(i + 1));
        }
        i = i + 1;
    }
}

fn push_chime(out: &mut Vec<u8>, chime: &Vec<u16>, channels: u16)
    ensures
        final(out)@ == old(out)@ + chime_bytes(chime@, channels as int, chime@.len() as int),
{
    let ghost before = out@;
    let mut i: usize = 0;
    proof {
        assert(out@ =~= before + chime_bytes(chime@, channels as int, 0));
    }
    while i < chime.len()
        invariant
            i <= chime@.len(),
            out@ == before + chime_bytes(chime@, channels as int, i as int),
        decreases chime@.len() - i,
    {
        let s: u16 = chime[i];
        let ghost here = out@;
        let mut k: u16 = 0;
        proof {
            assert(out@ =~= here + on_channels(s, 0));
        }
        while k < channels
            invariant
                k <= channels,
                out@ == here + on_channels(s, k as int),
            decreases channels - k,
        {
            let ghost now = on_channels(s, k as int);
            push16(out, s);
            proof {
                let two = seq![byte_of(s as int, 0), byte_of(s as int, 1)];
                assert((here + now) + two =~= here + (now + two));
            }
            k = k + 1;
        }
        proof {
            let x = chime_bytes(chime@, channels as int, i as int);
            let y = on_channels(s, channels as int);
            assert((before + x) + y =~= before + (x + y));
        }
        i = i + 1;
    }
}

pub open spec fn chime_model(chime: Option<Vec<u16>>) -> Option<Seq<u16>> {
    match chime {
        Some(s) => Some(s@),
        None => None,
    }
}

/// Puts a chime, if there is to be one, and a little silence around the speech in a
/// WAV file. `chime` are the samples of the chime at the rate of the speech, in two's
/// complement. With the message comes how long it plays, in milliseconds.
pub fn with_chime(w: &[u8], chime: &Option<Vec<u16>>) -> (r: Result<(Vec<u8>, u128), String>)
    ensures
        match r {
            Ok((out, ms)) => {
                let f = sound_in(w@)->0;
                let c = chime_model(*chime);
                &&& sound_in(w@) is Some
                &&& out@ == message(w@, f, c)
                &&& ms == length_ms(f, body(w@, f, c).len() as int)
            },
            Err(e) => sound_in(w@) is None && e@ == "The spoken message came out in an unexpected format."@,
        },
{
    let f = match read_wave(w) {
        Some(f) => f,
        None => {
            return Err("The spoken message came out in an unexpected format.".to_string());
        },
    };
    let (a, b) = match f.data {
        Some(p) => p,
        None => {
            return Err("The spoken message came out in an unexpected format.".to_string());
        },
    };
    let ghost cm = chime_model(*chime);
    let mut pcm: Vec<u8> = Vec::new();
    push_silence(&mut pcm, f.rate, f.channels, 35);
    proof {
        assert(pcm@ =~= silence(span(f.rate as int, f.channels as int, 35)));
    }
    match chime {
        Some(s) => {
            push_chime(&mut pcm, s, f.channels);
            push_silence(&mut pcm, f.rate, f.channels, 25);
        },
        None => {},
    }
    proof {
        assert(pcm@ == lead_in(f, cm));
    }
    let end: usize = (a + (b - a) / 2 * 2) as usize;
    let mut words = crate::h264::copy_bytes(w, a as usize, end);
    pcm.append(&mut words);
    push_silence(&mut pcm, f.rate, f.channels, 40);
    proof {
        assert(pcm@ == body(w@, f, cm));
    }
    let n: u64 = pcm.len() as u64;
    let mut out = head_bytes(f.channels, f.rate, n);
    proof {
        assert(0 < f.channels * f.rate <= 0xFFFF * 0xFFFF_FFFF) by (nonlinear_arith)
            requires
                0 < f.channels <= 0xFFFF,
                0 < f.rate <= 0xFFFF_FFFF,
        ;
    }
    let ms: u128 = n as u128 / 2 * 1_000 / (f.channels as u128 * f.rate as u128);
    out.append(&mut pcm);
    Ok((out, ms))
}

/// The sound of a message is that of the speech: it has the same channels and the
/// same rate, all its samples are found, and the speech stands among them unchanged.
pub proof fn law_message_holds_the_speech(w: Seq<u8>, f: Wave, chime: Option<Seq<u16>>)
    requires
        sound_in(w) == Some(f),
        w.len() <= u64::MAX,
        body(w, f, chime).len() <= 0xFFFF_FFFF,
    ensures
        ({
            let b = body(w, f, chime);
            let at = lead_in(f, chime).len() as int;
            &&& sound_in(message(w, f, chime)) == Some(Wave { data: Some((44, (44 + b.len()) as u64)), ..f })
            &&& message(w, f, chime).subrange(44 + at, 44 + at + speech(w, f).len()) == speech(w, f)
        }),
{
    let b = body(w, f, chime);
    let n = b.len() as int;
    let h = head(f.channels as int, f.rate as int, n);
    let m = message(w, f, chime);
    lemma_head(f.channels as int, f.rate as int, n);
    lemma_same_head(h, b);
    assert(m == h + b);
    lemma_chunks(m, f.channels, f.rate, n);
    let at = lead_in(f, chime).len() as int;
    let s = speech(w, f);
    assert(m.subrange(44 + at, 44 + at + s.len()) =~= s);
}

/// What the first 44 bytes of a message say.
spec fn says(m: Seq<u8>, c: int, r: int, n: int) -> bool {
    &&& has_mark(m, 0, 82, 73, 70, 70)
    &&& has_mark(m, 8, 87, 65, 86, 69)
    &&& has_mark(m, 12, 102, 109, 116, 32)
    &&& le32(m, 16) == 16
    &&& le16(m, 22) == c
    &&& le32(m, 24) == r
    &&& le16(m, 34) == 16
    &&& has_mark(m, 36, 100, 97, 116, 97)
    &&& le32(m, 40) == n
}

proof fn lemma_head(c: int, r: int, n: int)
    requires
        0 <= c <= 0xFFFF,
        0 <= r <= 0xFFFF_FFFF,
        0 <= n <= 0xFFFF_FFFF,
    ensures
        head(c, r, n).len() == 44,
        says(head(c, r, n), c, r, n),
{
    lemma_bytes_back(n);
    lemma_bytes_back(r);
    assert(c / 256 % 256 == c / 256);
    assert(n % 0x1_0000_0000 == n);
}

proof fn lemma_same_head(h: Seq<u8>, b: Seq<u8>)
    requires
        h.len() == 44,
    ensures
        forall|c: int, r: int, n: int| says(h, c, r, n) ==> #[trigger] says(h + b, c, r, n),
{
    let m = h + b;
    assert(forall|i: int| 0 <= i < 44 ==> m[i] == h[i]);
}

proof fn lemma_chunks(m: Seq<u8>, c: u16, r: u32, n: int)
    requires
        0 <= n <= 0xFFFF_FFFF,
        m.len() == 44 + n,
        says(m, c as int, r as int, n),
    ensures
        is_wave(m),
        chunks_from(m, 12, nothing_known()) == (Wave {
            channels: c,
            rate: r,
            bits: 16,
            data: Some((44, (44 + n) as u64)),
        }),
{
    let g = Wave { channels: c, rate: r, bits: 16, data: None };
    let z = Wave { data: Some((44, (44 + n) as u64)), ..g };
    assert(chunk_end(m, 12) == 36);
    assert(with_chunk(m, 12, nothing_known()) == g);
    assert(chunk_end(m, 36) == 44 + n);
    assert(with_chunk(m, 36, g) == z);
    let last = 44 + n + n % 2;
    assert(chunks_from(m, last, z) == z);
    assert(chunks_from(m, 36, g) == chunks_from(m, last, z));
    assert(chunks_from(m, 12, nothing_known()) == chunks_from(m, 36, g));
}

proof fn lemma_bytes_back(n: int)
    requires
        0 <= n <= 0xFFFF_FFFF,
    ensures
        byte_of(n, 0) + 256 * byte_of(n, 1) + 65_536 * (byte_of(n, 2) + 256 * byte_of(n, 3)) == n,
{
    assert(n / 16_777_216 % 256 == n / 16_777_216);
    assert(n / 65_536 / 256 == n / 16_777_216);
    assert(n / 256 / 256 == n / 65_536);
}

/// A message begins with about a third of a second of silence, then the chime on every
/// channel if there is one and a quarter of a second more of silence; after the speech come
/// two fifths of a second. A frame has two bytes for each channel.
pub proof fn law_the_parts_of_a_message(w: Seq<u8>, f: Wave, chime: Option<Seq<u16>>)
    requires
        f.data is Some,
        (f.data->0).0 <= (f.data->0).1 <= w.len(),
    ensures
        ({
            let c = f.channels as int;
            let before = f.rate * 35 / 100;
            let between = f.rate * 25 / 100;
            let behind = f.rate * 40 / 100;
            let spoken = ((f.data->0).1 - (f.data->0).0) / 2 * 2;
            &&& chime is None ==> body(w, f, chime).len() == before * c * 2 + spoken + behind * c * 2
            &&& chime matches Some(s) ==> body(w, f, chime).len() == before * c * 2 + s.len() * (2 * c) + between * c * 2
                + spoken + behind * c * 2
        }),
{
    let c = f.channels as int;
    assert(f.rate * 35 / 100 * c >= 0 && f.rate * 25 / 100 * c >= 0 && f.rate * 40 / 100 * c >= 0) by (nonlinear_arith)
        requires
            c >= 0,
            f.rate >= 0,
    ;
    match chime {
        Some(s) => {
            lemma_chime_len(s, c, s.len() as int);
        },
        None => {},
    }
}

proof fn lemma_on_channels_len(s: u16, c: int)
    requires
        0 <= c,
    ensures
        on_channels(s, c).len() == 2 * c,
    decreases c,
{
    if c > 0 {
        lemma_on_channels_len(s, c - 1);
    }
}

proof fn lemma_chime_len(chime: Seq<u16>, c: int, n: int)
    requires
        0 <= n <= chime.len(),
        0 <= c,
    ensures
        chime_bytes(chime, c, n).len() == n * (2 * c),
    decreases n,
{
    if n > 0 {
        lemma_chime_len(chime, c, n - 1);
        lemma_on_channels_len(chime[n - 1], c);
        assert(n * (2 * c) == (n - 1) * (2 * c) + 2 * c) by (nonlinear_arith);
    } else {
        assert(0 * (2 * c) == 0) by (nonlinear_arith);
    }
}

/// The length of a message in milliseconds is that of its frames: so many a second.
pub proof fn law_the_length_of_a_message(f: Wave, frames: int)
    requires
        0 <= frames,
        f.channels > 0,
        f.rate > 0,
    ensures
        length_ms(f, 2 * f.channels * frames) == frames * 1_000 / f.rate as int,
{
    let c = f.channels as int;
    let r = f.rate as int;
    assert(2 * c * frames / 2 == c * frames) by (nonlinear_arith)
        requires
            c > 0,
            frames >= 0,
    ;
    vstd::arithmetic::div_mod::lemma_div_denominator(c * frames * 1_000, c, r);
    assert(c * frames * 1_000 == (frames * 1_000) * c) by (nonlinear_arith);
    vstd::arithmetic::div_mod::lemma_div_by_multiple(frames * 1_000, c);
}

/// Numbers are written with their lowest byte first and read back as they were.
pub proof fn law_numbers_of_a_wave(n: int)
    requires
        0 <= n < 0x1_0000_0000,
    ensures
        le32(seq![byte_of(n, 0), byte_of(n, 1), byte_of(n, 2), byte_of(n, 3)], 0) == n,
        n < 65_536 ==> le16(seq![byte_of(n, 0), byte_of(n, 1)], 0) == n,
{
}

/// The chime stands behind the first silence, each of its samples once for every channel with
/// the lower byte first.
pub proof fn law_where_the_chime_stands(w: Seq<u8>, f: Wave, chime: Seq<u16>, i: int, k: int)
    requires
        f.data is Some,
        (f.data->0).0 <= (f.data->0).1 <= w.len(),
        0 <= i < chime.len(),
        0 <= k < f.channels,
    ensures
        ({
            let c = f.channels as int;
            let at = f.rate * 35 / 100 * c * 2 + i * (2 * c) + 2 * k;
            let b = body(w, f, Some(chime));
            &&& 0 <= at && at + 1 < b.len()
            &&& b[at] + 256 * b[at + 1] == chime[i]
        }),
{
    let c = f.channels as int;
    let first = f.rate * 35 / 100 * c * 2;
    assert(f.rate * 35 / 100 * c >= 0 && f.rate * 25 / 100 * c >= 0 && f.rate * 40 / 100 * c >= 0) by (nonlinear_arith)
        requires
            c >= 0,
            f.rate >= 0,
    ;
    let n = chime.len() as int;
    lemma_chime_len(chime, c, n);
    lemma_sample_at(chime, c, n, i, k);
    assert(0 <= i * (2 * c) && i * (2 * c) + 2 * k + 1 < n * (2 * c)) by (nonlinear_arith)
        requires
            0 <= i < n,
            0 <= k < c,
    ;
    let b = body(w, f, Some(chime));
    let cb = chime_bytes(chime, c, n);
    let at = i * (2 * c) + 2 * k;
    assert(silence(first).len() == first);
    assert(b[first + at] == cb[at]);
    assert(b[first + at + 1] == cb[at + 1]);
}

proof fn lemma_channel_at(s: u16, c: int, k: int)
    requires
        0 <= k < c,
    ensures
        on_channels(s, c).len() == 2 * c,
        on_channels(s, c)[2 * k] + 256 * on_channels(s, c)[2 * k + 1] == s,
    decreases c,
{
    lemma_on_channels_len(s, c);
    lemma_on_channels_len(s, c - 1);
    let before = on_channels(s, c - 1);
    let all = on_channels(s, c);
    if k < c - 1 {
        lemma_channel_at(s, c - 1, k);
        assert(all[2 * k] == before[2 * k] && all[2 * k + 1] == before[2 * k + 1]);
    } else {
        assert(all[2 * k] == byte_of(s as int, 0) && all[2 * k + 1] == byte_of(s as int, 1));
    }
}

proof fn lemma_sample_at(chime: Seq<u16>, c: int, n: int, i: int, k: int)
    requires
        0 <= i < n <= chime.len(),
        0 <= k < c,
    ensures
        ({
            let cb = chime_bytes(chime, c, n);
            let at = i * (2 * c) + 2 * k;
            &&& 0 <= at && at + 1 < cb.len()
            &&& cb[at] + 256 * cb[at + 1] == chime[i]
        }),
    decreases n,
{
    lemma_chime_len(chime, c, n);
    lemma_chime_len(chime, c, n - 1);
    lemma_on_channels_len(chime[n - 1], c);
    let before = chime_bytes(chime, c, n - 1);
    let all = chime_bytes(chime, c, n);
    let at = i * (2 * c) + 2 * k;
    assert(n * (2 * c) == (n - 1) * (2 * c) + 2 * c) by (nonlinear_arith);
    assert(0 <= i * (2 * c)) by (nonlinear_arith)
        requires
            0 <= i,
            0 <= c,
    ;
    if i < n - 1 {
        lemma_sample_at(chime, c, n - 1, i, k);
        assert(all[at] == before[at] && all[at + 1] == before[at + 1]);
    } else {
        lemma_channel_at(chime[i], c, k);
        let own = on_channels(chime[i], c);
        assert(all[at] == own[2 * k] && all[at + 1] == own[2 * k + 1]);
    }
}

} // verus!
