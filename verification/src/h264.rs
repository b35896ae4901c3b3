//! H.264 streams, as far as repeating a still picture needs them: NAL units,
//! parameter sets, and the frame in which nothing changes.

use vstd::prelude::*;
use crate::bits::{binary, bits_of, read_bits, read_se, read_ue, ue_code, BitReader};

verus! {

// ---------------------------------------------------------------------------
// NAL units
// ---------------------------------------------------------------------------

/// Whether a start code (two zeros and a one) stands at a position.
pub open spec fn is_start_code(d: Seq<u8>, i: int) -> bool {
    i + 3 <= d.len() && d[i] == 0 && d[i + 1] == 0 && d[i + 2] == 1
}

/// Where the first start code from `i` on stands, or the length of the bytes.
pub open spec fn next_start(d: Seq<u8>, i: int) -> int
    decreases d.len() - i,
{
    if i + 3 > d.len() {
        d.len() as int
    } else if is_start_code(d, i) {
        i
    } else {
        next_start(d, i + 1)
    }
}

/// Bytes without the zeros at their end.
pub open spec fn without_zeros(d: Seq<u8>) -> Seq<u8>
    decreases d.len(),
{
    if d.len() > 0 && d.last() == 0 {
        without_zeros(d.drop_last())
    } else {
        d
    }
}

/// The units from a position on that stands just after a start code. Zeros at the
/// end of a unit belong to the next start code; an empty unit is none.
pub open spec fn units_from(d: Seq<u8>, s: int) -> Seq<Seq<u8>>
    decreases d.len() - s,
    when 0 <= s <= d.len()
    via units_from_decreases
{
    let e = next_start(d, s);
    let unit = without_zeros(d.subrange(s, e));
    let head = if unit.len() > 0 {
        seq![unit]
    } else {
        Seq::empty()
    };
    if e >= d.len() {
        head
    } else {
        head + units_from(d, e + 3)
    }
}

pub proof fn lemma_next_start(d: Seq<u8>, i: int)
    requires
        0 <= i <= d.len(),
    ensures
        i <= next_start(d, i) <= d.len(),
        next_start(d, i) < d.len() ==> is_start_code(d, next_start(d, i)),
    decreases d.len() - i,
{
    if i + 3 <= d.len() && !is_start_code(d, i) {
        lemma_next_start(d, i + 1);
    }
}

#[via_fn]
proof fn units_from_decreases(d: Seq<u8>, s: int) {
    lemma_next_start(d, s);
}

/// The NAL units of a byte stream.
pub open spec fn units_of(d: Seq<u8>) -> Seq<Seq<u8>> {
    let s = next_start(d, 0);
    if s >= d.len() {
        Seq::empty()
    } else {
        units_from(d, s + 3)
    }
}

/// The bytes of a list of units.
pub open spec fn unit_views(v: Seq<Vec<u8>>) -> Seq<Seq<u8>> {
    v.map_values(|u: Vec<u8>| u@)
}

fn find_start(d: &[u8], from: usize) -> (r: usize)
    requires
        from <= d.len(),
    ensures
        r == next_start(d@, from as int),
        from <= r <= d.len(),
        r < d.len() ==> r + 3 <= d.len(),
{
    let mut i: usize = from;
    while d.len() - i >= 3
        invariant
            from <= i <= d.len(),
            next_start(d@, from as int) == next_start(d@, i as int),
        decreases d.len() - i,
    {
        if d[i] == 0 && d[i + 1] == 0 && d[i + 2] == 1 {
            return i;
        }
        i = i + 1;
    }
    d.len()
}

pub fn copy_bytes(d: &[u8], from: usize, to: usize) -> (r: Vec<u8>)
    requires
        from <= to <= d.len(),
    ensures
        r@ == d@.subrange(from as int, to as int),
{
    let mut out: Vec<u8> = Vec::new();
    let mut i: usize = from;
    while i < to
        invariant
            from <= i <= to <= d.len(),
            out@ == d@.subrange(from as int, i as int),
        decreases to - i,
    {
        out.push(d[i]);
        proof {
            assert(d@.subrange(from as int, i + 1) =~= d@.subrange(from as int, i as int).push(d@[i as int]));
        }
        i = i + 1;
    }
    out
}

fn unit_between(d: &[u8], s: usize, e: usize) -> (r: Vec<u8>)
    requires
        s <= e <= d.len(),
    ensures
        r@ == without_zeros(d@.subrange(s as int, e as int)),
{
    let mut t: usize = e;
    while t > s && d[t - 1] == 0
        invariant
            s <= t <= e <= d.len(),
            without_zeros(d@.subrange(s as int, e as int)) == without_zeros(d@.subrange(s as int, t as int)),
        decreases t,
    {
        proof {
            let u = d@.subrange(s as int, t as int);
            assert(u.drop_last() =~= d@.subrange(s as int, t - 1));
        }
        t = t - 1;
    }
    copy_bytes(d, s, t)
}

/// Splits a byte stream with start codes into its NAL units.
pub fn split_annexb(d: &[u8]) -> (r: Vec<Vec<u8>>)
    ensures
        unit_views(r@) == units_of(d@),
{
    let mut out: Vec<Vec<u8>> = Vec::new();
    let first: usize = find_start(d, 0);
    proof {
        assert(unit_views(out@) =~= Seq::<Seq<u8>>::empty());
    }
    if first >= d.len() {
        return out;
    }
    let mut s: usize = first + 3;
    proof {
        assert(unit_views(out@) + units_from(d@, s as int) =~= units_of(d@));
    }
    loop
        invariant
            s <= d.len(),
            unit_views(out@) + units_from(d@, s as int) == units_of(d@),
        decreases d.len() - s,
    {
        let ghost before = unit_views(out@);
        let e: usize = find_start(d, s);
        let unit = unit_between(d, s, e);
        let ghost u = unit@;
        let ghost head: Seq<Seq<u8>> = if u.len() > 0 {
            seq![u]
        } else {
            Seq::empty()
        };
        if unit.len() > 0 {
            out.push(unit);
        }
        proof {
            assert(unit_views(out@) =~= before + head);
        }
        if e >= d.len() {
            return out;
        }
        proof {
            assert(before + (head + units_from(d@, e + 3)) =~= unit_views(out@) + units_from(d@, e + 3));
        }
        s = e + 3;
    }
}

/// No unit is longer than the stream.
pub proof fn lemma_unit_sizes(d: Seq<u8>)
    ensures
        forall|i: int| 0 <= i < units_of(d).len() ==> (#[trigger] units_of(d)[i]).len() <= d.len(),
{
    lemma_next_start(d, 0);
    let s = next_start(d, 0);
    if s < d.len() {
        lemma_units_from_sizes(d, s + 3);
    }
}

proof fn lemma_units_from_sizes(d: Seq<u8>, s: int)
    requires
        0 <= s <= d.len(),
    ensures
        forall|i: int| 0 <= i < units_from(d, s).len() ==> (#[trigger] units_from(d, s)[i]).len() <= d.len(),
    decreases d.len() - s,
{
    lemma_next_start(d, s);
    let e = next_start(d, s);
    let unit = without_zeros(d.subrange(s, e));
    lemma_without_zeros_len(d.subrange(s, e));
    let head = if unit.len() > 0 {
        seq![unit]
    } else {
        Seq::empty()
    };
    if e < d.len() {
        lemma_units_from_sizes(d, e + 3);
        let rest = units_from(d, e + 3);
        assert forall|i: int| 0 <= i < units_from(d, s).len() implies (#[trigger] units_from(d, s)[i]).len()
            <= d.len() by {
            if i >= head.len() {
                assert(units_from(d, s)[i] == rest[i - head.len()]);
            }
        }
    }
}

proof fn lemma_without_zeros_len(d: Seq<u8>)
    ensures
        without_zeros(d).len() <= d.len(),
    decreases d.len(),
{
    if d.len() > 0 && d.last() == 0 {
        lemma_without_zeros_len(d.drop_last());
    }
}

// ---------------------------------------------------------------------------
// Emulation prevention
// ---------------------------------------------------------------------------

/// How many zeros stand at the end after one more byte.
pub open spec fn run_after(zeros: int, b: u8) -> int {
    if b == 0 {
        zeros + 1
    } else {
        0
    }
}

/// The bytes from `i` on without the threes that prevent start codes, after
/// `zeros` zeros.
pub open spec fn unescaped(d: Seq<u8>, i: int, zeros: int) -> Seq<u8>
    decreases d.len() - i,
{
    if i >= d.len() {
        Seq::empty()
    } else if zeros >= 2 && d[i] == 3 {
        unescaped(d, i + 1, 0)
    } else {
        seq![d[i]] + unescaped(d, i + 1, run_after(zeros, d[i]))
    }
}

/// The bytes from `i` on with a three before each byte that would end a start
/// code, after `zeros` zeros.
pub open spec fn escaped(d: Seq<u8>, i: int, zeros: int) -> Seq<u8>
    decreases d.len() - i,
{
    if i >= d.len() {
        Seq::empty()
    } else if zeros >= 2 && d[i] <= 3 {
        seq![3u8, d[i]] + escaped(d, i + 1, run_after(0, d[i]))
    } else {
        seq![d[i]] + escaped(d, i + 1, run_after(zeros, d[i]))
    }
}

pub fn unescape(d: &[u8]) -> (r: Vec<u8>)
    ensures
        r@ == unescaped(d@, 0, 0),
        r@.len() <= d@.len(),
{
    let mut out: Vec<u8> = Vec::new();
    let mut zeros: usize = 0;
    let mut i: usize = 0;
    proof {
        assert(out@ + unescaped(d@, 0, 0) =~= unescaped(d@, 0, 0));
    }
    while i < d.len()
        invariant
            zeros <= i <= d.len(),
            out@.len() <= i,
            out@ + unescaped(d@, i as int, zeros as int) == unescaped(d@, 0, 0),
        decreases d.len() - i,
    {
        let b: u8 = d[i];
        let ghost before = out@;
        if zeros >= 2 && b == 3 {
            zeros = 0;
        } else {
            zeros = if b == 0 {
                zeros + 1
            } else {
                0
            };
            out.push(b);
            proof {
                let rest = unescaped(d@, i + 1, zeros as int);
                assert(before + (seq![b] + rest) =~= out@ + rest);
            }
        }
        i = i + 1;
    }
    proof {
        assert(out@ + Seq::<u8>::empty() =~= out@);
    }
    out
}

pub fn escape(d: &[u8]) -> (r: Vec<u8>)
    ensures
        r@ == escaped(d@, 0, 0),
{
    let mut out: Vec<u8> = Vec::new();
    let mut zeros: usize = 0;
    let mut i: usize = 0;
    proof {
        assert(out@ + escaped(d@, 0, 0) =~= escaped(d@, 0, 0));
    }
    while i < d.len()
        invariant
            zeros <= i <= d.len(),
            out@ + escaped(d@, i as int, zeros as int) == escaped(d@, 0, 0),
        decreases d.len() - i,
    {
        let b: u8 = d[i];
        let ghost before = out@;
        let ghost z0 = zeros as int;
        if zeros >= 2 && b <= 3 {
            out.push(3);
            zeros = 0;
        }
        zeros = if b == 0 {
            zeros + 1
        } else {
            0
        };
        out.push(b);
        proof {
            let rest = escaped(d@, i + 1, zeros as int);
            if z0 >= 2 && b <= 3 {
                assert(before + (seq![3u8, b] + rest) =~= out@ + rest);
            } else {
                assert(before + (seq![b] + rest) =~= out@ + rest);
            }
        }
        i = i + 1;
    }
    proof {
        assert(out@ + Seq::<u8>::empty() =~= out@);
    }
    out
}

proof fn lemma_unescape_shift(a: Seq<u8>, d: Seq<u8>, i: int, zeros: int)
    requires
        0 <= i,
    ensures
        unescaped(a + d, a.len() + i, zeros) == unescaped(d, i, zeros),
    decreases d.len() - i,
{
    if i < d.len() {
        assert((a + d)[a.len() + i] == d[i]);
        if zeros >= 2 && d[i] == 3 {
            lemma_unescape_shift(a, d, i + 1, 0);
        } else {
            lemma_unescape_shift(a, d, i + 1, run_after(zeros, d[i]));
        }
    }
}

proof fn lemma_unescape_escape(d: Seq<u8>, i: int, zeros: int)
    requires
        0 <= i <= d.len(),
    ensures
        unescaped(escaped(d, i, zeros), 0, zeros) == d.subrange(i, d.len() as int),
    decreases d.len() - i,
{
    if i < d.len() {
        let b = d[i];
        if zeros >= 2 && b <= 3 {
            let rest = escaped(d, i + 1, run_after(0, b));
            let e = seq![3u8, b] + rest;
            lemma_unescape_escape(d, i + 1, run_after(0, b));
            lemma_unescape_shift(seq![3u8, b], rest, 0, run_after(0, b));
            assert(e[0] == 3 && e[1] == b);
            assert(unescaped(e, 0, zeros) == unescaped(e, 1, 0));
            assert(unescaped(e, 1, 0) == seq![b] + unescaped(e, 2, run_after(0, b)));
            assert(seq![b] + d.subrange(i + 1, d.len() as int) =~= d.subrange(i, d.len() as int));
        } else {
            let rest = escaped(d, i + 1, run_after(zeros, b));
            let e = seq![b] + rest;
            lemma_unescape_escape(d, i + 1, run_after(zeros, b));
            lemma_unescape_shift(seq![b], rest, 0, run_after(zeros, b));
            assert(e[0] == b);
            assert(unescaped(e, 0, zeros) == seq![b] + unescaped(e, 1, run_after(zeros, b)));
            assert(seq![b] + d.subrange(i + 1, d.len() as int) =~= d.subrange(i, d.len() as int));
        }
    } else {
        assert(d.subrange(i, d.len() as int) =~= Seq::<u8>::empty());
    }
}

/// Taking the threes out again gives back the bytes they were put into.
pub proof fn law_unescape_undoes_escape(d: Seq<u8>)
    ensures
        unescaped(escaped(d, 0, 0), 0, 0) == d,
{
    lemma_unescape_escape(d, 0, 0);
    assert(d.subrange(0, d.len() as int) =~= d);
}

/// How many zeros stand just before a position, where `z` stand before the first.
spec fn run_before(e: Seq<u8>, j: int, z: int) -> int
    decreases j,
{
    if j <= 0 {
        z
    } else {
        run_after(run_before(e, j - 1, z), e[j - 1])
    }
}

proof fn lemma_run_shift(a: Seq<u8>, e: Seq<u8>, j: int, z: int)
    requires
        0 <= j <= e.len(),
    ensures
        run_before(a + e, a.len() + j, z) == run_before(e, j, run_before(a, a.len() as int, z)),
    decreases j,
{
    if j > 0 {
        lemma_run_shift(a, e, j - 1, z);
        assert((a + e)[a.len() + j - 1] == e[j - 1]);
    } else {
        lemma_run_prefix(a, e, a.len() as int, z);
    }
}

proof fn lemma_run_prefix(a: Seq<u8>, e: Seq<u8>, j: int, z: int)
    requires
        0 <= j <= a.len(),
    ensures
        run_before(a + e, j, z) == run_before(a, j, z),
    decreases j,
{
    if j > 0 {
        lemma_run_prefix(a, e, j - 1, z);
    }
}

proof fn lemma_no_low_byte(d: Seq<u8>, i: int, zeros: int, j: int)
    requires
        0 <= i <= d.len(),
        0 <= zeros,
        0 <= j < escaped(d, i, zeros).len(),
        run_before(escaped(d, i, zeros), j, zeros) >= 2,
    ensures
        escaped(d, i, zeros)[j] >= 3,
    decreases d.len() - i,
{
    reveal_with_fuel(run_before, 3);
    if i < d.len() {
        let b = d[i];
        if zeros >= 2 && b <= 3 {
            let a = seq![3u8, b];
            let rest = escaped(d, i + 1, run_after(0, b));
            assert(escaped(d, i, zeros) == a + rest);
            assert(run_before(a, 1, zeros) == 0);
            assert(run_before(a, 2, zeros) == run_after(0, b));
            if j >= 2 {
                lemma_run_shift(a, rest, j - 2, zeros);
                lemma_no_low_byte(d, i + 1, run_after(0, b), j - 2);
            } else if j == 1 {
                lemma_run_prefix(a, rest, 1, zeros);
            }
        } else {
            let a = seq![b];
            let rest = escaped(d, i + 1, run_after(zeros, b));
            assert(escaped(d, i, zeros) == a + rest);
            assert(run_before(a, 1, zeros) == run_after(zeros, b));
            if j >= 1 {
                lemma_run_shift(a, rest, j - 1, zeros);
                lemma_no_low_byte(d, i + 1, run_after(zeros, b), j - 1);
            }
        }
    }
}

/// With the threes in, no two zeros are followed by a byte below three, so no
/// start code stands in the bytes.
pub proof fn law_escape_hides_start_codes(d: Seq<u8>, j: int)
    requires
        0 <= j,
        j + 2 < escaped(d, 0, 0).len(),
        escaped(d, 0, 0)[j] == 0,
        escaped(d, 0, 0)[j + 1] == 0,
    ensures
        escaped(d, 0, 0)[j + 2] >= 3,
{
    reveal_with_fuel(run_before, 3);
    let e = escaped(d, 0, 0);
    lemma_run_nat(e, j);
    assert(run_before(e, j + 2, 0) >= 2);
    lemma_no_low_byte(d, 0, 0, j + 2);
}

proof fn lemma_run_nat(e: Seq<u8>, j: int)
    ensures
        run_before(e, j, 0) >= 0,
    decreases j,
{
    if j > 0 {
        lemma_run_nat(e, j - 1);
    }
}

// ---------------------------------------------------------------------------
// Parameter sets
// ---------------------------------------------------------------------------

/// What a sequence parameter set says that a repeated frame needs.
#[derive(Clone, Copy, Debug, PartialEq, Eq, Structural)]
pub struct Sps {
    pub log2_max_frame_num: u64,
    pub poc_type: u32,
    pub log2_max_poc_lsb: u64,
    /// Macroblocks of a picture.
    pub mbs: u64,
}

/// What a picture parameter set says that a repeated frame needs.
#[derive(Clone, Copy, Debug, PartialEq, Eq, Structural)]
pub struct Pps {
    pub id: u32,
    pub cabac: bool,
    pub bottom_field_poc: bool,
    pub deblock_control: bool,
    pub redundant_pic_cnt: bool,
}

/// Where reading goes on, or why it stopped.
pub type Place = Result<int, Seq<char>>;

/// The place after a read whose value does not matter.
pub open spec fn place(r: Result<(int, int), Seq<char>>) -> Place {
    match r {
        Ok((_, p)) => Ok(p),
        Err(e) => Err(e),
    }
}

/// The place after a number of variable length that is not needed.
pub open spec fn skip_ue(s: Seq<int>, at: Place) -> Place {
    match at {
        Ok(p) => place(read_ue(s, p)),
        Err(e) => Err(e),
    }
}

pub open spec fn skip_se(s: Seq<int>, at: Place) -> Place {
    match at {
        Ok(p) => place(read_se(s, p)),
        Err(e) => Err(e),
    }
}

pub open spec fn skip_bits(s: Seq<int>, at: Place, n: int) -> Place {
    match at {
        Ok(p) => place(read_bits(s, p, n)),
        Err(e) => Err(e),
    }
}

/// The remainder of a division by 256 that keeps the sign of the dividend.
pub open spec fn rem_256(x: int) -> int {
    if x >= 0 {
        x % 256
    } else {
        -((-x) % 256)
    }
}

/// The place after the entries of a scaling list from the i-th on.
pub open spec fn after_scaling(s: Seq<int>, pos: int, i: int, size: int, last: int, next: int) -> Place
    decreases size - i,
{
    if i >= size {
        Ok(pos)
    } else if next != 0 {
        match read_se(s, pos) {
            Ok((v, p)) => {
                let n = rem_256(last + v + 256);
                after_scaling(
                    s,
                    p,
                    i + 1,
                    size,
                    if n == 0 {
                        last
                    } else {
                        n
                    },
                    n,
                )
            },
            Err(e) => Err(e),
        }
    } else {
        after_scaling(s, pos, i + 1, size, last, next)
    }
}

/// The place after the scaling lists from the i-th on.
pub open spec fn after_lists(s: Seq<int>, pos: int, i: int, n: int) -> Place
    decreases n - i,
{
    if i >= n {
        Ok(pos)
    } else {
        match read_bits(s, pos, 1) {
            Ok((flag, p)) => if flag == 1 {
                match after_scaling(
                    s,
                    p,
                    0,
                    if i < 6 {
                        16
                    } else {
                        64
                    },
                    8,
                    8,
                ) {
                    Ok(q) => after_lists(s, q, i + 1, n),
                    Err(e) => Err(e),
                }
            } else {
                after_lists(s, p, i + 1, n)
            },
            Err(e) => Err(e),
        }
    }
}

/// Whether a profile's parameter sets say something of chroma and scaling.
pub open spec fn is_high_profile(p: int) -> bool {
    p == 100 || p == 110 || p == 122 || p == 244 || p == 44 || p == 83 || p == 86 || p == 118 || p == 128 || p == 138
        || p == 139 || p == 134 || p == 135
}

/// The place after what a high profile says of chroma and scaling.
pub open spec fn after_chroma(s: Seq<int>, pos: int) -> Place {
    match read_ue(s, pos) {
        Ok((chroma, p)) => {
            let a: Place = if chroma == 3 {
                skip_bits(s, Ok(p), 1)
            } else {
                Ok(p)
            };
            match skip_bits(s, skip_ue(s, skip_ue(s, a)), 1) {
                Ok(q) => match read_bits(s, q, 1) {
                    Ok((flag, t)) => if flag == 1 {
                        after_lists(
                            s,
                            t,
                            0,
                            if chroma == 3 {
                                12
                            } else {
                                8
                            },
                        )
                    } else {
                        Ok(t)
                    },
                    Err(e) => Err(e),
                },
                Err(e) => Err(e),
            }
        },
        Err(e) => Err(e),
    }
}

/// The size of the picture at a place, and whether frames are whole.
pub open spec fn size_at(s: Seq<int>, at: Place, frame_num: int, poc_type: int, poc_lsb: int) -> Result<
    Sps,
    Seq<char>,
> {
    match skip_bits(s, skip_ue(s, at), 1) {
        Ok(a) => match read_ue(s, a) {
            Ok((w, b)) => match read_ue(s, b) {
                Ok((h, c)) => match read_bits(s, c, 1) {
                    Ok((flag, _)) => if flag != 1 {
                        Err("interlaced stream"@)
                    } else {
                        Ok(
                            Sps {
                                log2_max_frame_num: frame_num as u64,
                                poc_type: poc_type as u32,
                                log2_max_poc_lsb: poc_lsb as u64,
                                mbs: ((w + 1) * (h + 1)) as u64,
                            },
                        )
                    },
                    Err(e) => Err(e),
                },
                Err(e) => Err(e),
            },
            Err(e) => Err(e),
        },
        Err(e) => Err(e),
    }
}

/// The rest of a sequence parameter set, from the length of frame numbers on.
pub open spec fn sps_rest(s: Seq<int>, pos: int) -> Result<Sps, Seq<char>> {
    match read_ue(s, pos) {
        Ok((frame_num, p)) => match read_ue(s, p) {
            Ok((poc_type, q)) => if poc_type == 0 {
                match read_ue(s, q) {
                    Ok((lsb, t)) => size_at(s, Ok(t), frame_num + 4, poc_type, lsb + 4),
                    Err(e) => Err(e),
                }
            } else if poc_type == 2 {
                size_at(s, Ok(q), frame_num + 4, poc_type, 0)
            } else {
                Err("picture order count type 1 not handled"@)
            },
            Err(e) => Err(e),
        },
        Err(e) => Err(e),
    }
}

/// What the payload of a sequence parameter set says.
pub open spec fn sps_of(d: Seq<u8>) -> Result<Sps, Seq<char>> {
    let s = bits_of(d);
    match read_bits(s, 0, 8) {
        Ok((profile, p)) => match skip_ue(s, skip_bits(s, Ok(p), 16)) {
            Ok(q) => if is_high_profile(profile) {
                match after_chroma(s, q) {
                    Ok(t) => sps_rest(s, t),
                    Err(e) => Err(e),
                }
            } else {
                sps_rest(s, q)
            },
            Err(e) => Err(e),
        },
        Err(e) => Err(e),
    }
}

/// Whether a result says what was found, or why nothing was.
pub open spec fn is_place(r: Result<(), String>, pos: int, at: Place) -> bool {
    match (r, at) {
        (Ok(_), Ok(p)) => pos == p,
        (Err(e), Err(t)) => e@ == t,
        _ => false,
    }
}

fn skip_scaling_list(r: &mut BitReader, size: u32) -> (v: Result<(), String>)
    requires
        old(r).wf(),
        size <= 64,
    ensures
        final(r).wf(),
        final(r).d == old(r).d,
        is_place(v, final(r).pos as int, after_scaling(old(r).bits_view(), old(r).pos as int, 0, size as int, 8, 8)),
{
    let ghost s = r.bits_view();
    let ghost whole = after_scaling(s, r.pos as int, 0, size as int, 8, 8);
    let mut last: i64 = 8;
    let mut next: i64 = 8;
    let mut i: u32 = 0;
    while i < size
        invariant
            i <= size <= 64,
            r.wf(),
            r.d == old(r).d,
            s == old(r).bits_view(),
            s == r.bits_view(),
            -256 < last < 256,
            -256 < next < 256,
            whole == after_scaling(s, old(r).pos as int, 0, size as int, 8, 8),
            whole == after_scaling(s, r.pos as int, i as int, size as int, last as int, next as int),
        decreases size - i,
    {
        if next != 0 {
            match r.se() {
                Ok(v) => {
                    let x: i64 = last + v as i64 + 256;
                    next = if x >= 0 {
                        x % 256
                    } else {
                        -((-x) % 256)
                    };
                },
                Err(e) => {
                    return Err(e);
                },
            }
            if next != 0 {
                last = next;
            }
        }
        i = i + 1;
    }
    Ok(())
}

fn skip_lists(r: &mut BitReader, n: u32) -> (v: Result<(), String>)
    requires
        old(r).wf(),
        n <= 12,
    ensures
        final(r).wf(),
        final(r).d == old(r).d,
        is_place(v, final(r).pos as int, after_lists(old(r).bits_view(), old(r).pos as int, 0, n as int)),
{
    let ghost s = r.bits_view();
    let ghost whole = after_lists(s, r.pos as int, 0, n as int);
    let mut i: u32 = 0;
    while i < n
        invariant
            i <= n <= 12,
            r.wf(),
            r.d == old(r).d,
            s == old(r).bits_view(),
            s == r.bits_view(),
            whole == after_lists(s, old(r).pos as int, 0, n as int),
            whole == after_lists(s, r.pos as int, i as int, n as int),
        decreases n - i,
    {
        match r.bit() {
            Ok(flag) => {
                if flag == 1 {
                    let size: u32 = if i < 6 {
                        16
                    } else {
                        64
                    };
                    match skip_scaling_list(r, size) {
                        Ok(_) => {},
                        Err(e) => {
                            return Err(e);
                        },
                    }
                }
            },
            Err(e) => {
                return Err(e);
            },
        }
        i = i + 1;
    }
    Ok(())
}

fn skip_chroma(r: &mut BitReader) -> (v: Result<(), String>)
    requires
        old(r).wf(),
    ensures
        final(r).wf(),
        final(r).d == old(r).d,
        is_place(v, final(r).pos as int, after_chroma(old(r).bits_view(), old(r).pos as int)),
{
    let chroma: u32 = match r.ue() {
        Ok(c) => c,
        Err(e) => {
            return Err(e);
        },
    };
    if chroma == 3 {
        match r.bit() {
            Ok(_) => {},
            Err(e) => {
                return Err(e);
            },
        }
    }
    match r.ue() {
        Ok(_) => {},
        Err(e) => {
            return Err(e);
        },
    }
    match r.ue() {
        Ok(_) => {},
        Err(e) => {
            return Err(e);
        },
    }
    match r.bit() {
        Ok(_) => {},
        Err(e) => {
            return Err(e);
        },
    }
    match r.bit() {
        Ok(flag) => {
            if flag == 1 {
                let n: u32 = if chroma == 3 {
                    12
                } else {
                    8
                };
                skip_lists(r, n)
            } else {
                Ok(())
            }
        },
        Err(e) => Err(e),
    }
}

/// Whether a result says what was found, or why nothing was.
pub open spec fn is_found<T>(r: Result<T, String>, found: Result<T, Seq<char>>) -> bool {
    match (r, found) {
        (Ok(x), Ok(y)) => x == y,
        (Err(e), Err(t)) => e@ == t,
        _ => false,
    }
}

fn read_size(r: &mut BitReader, frame_num: u64, poc_type: u32, poc_lsb: u64) -> (v: Result<Sps, String>)
    requires
        old(r).wf(),
    ensures
        final(r).d == old(r).d,
        is_found(
            v,
            size_at(
                old(r).bits_view(),
                Ok(old(r).pos as int),
                frame_num as int,
                poc_type as int,
                poc_lsb as int,
            ),
        ),
{
    match r.ue() {
        Ok(_) => {},
        Err(e) => {
            return Err(e);
        },
    }
    match r.bit() {
        Ok(_) => {},
        Err(e) => {
            return Err(e);
        },
    }
    let w: u32 = match r.ue() {
        Ok(x) => x,
        Err(e) => {
            return Err(e);
        },
    };
    let h: u32 = match r.ue() {
        Ok(x) => x,
        Err(e) => {
            return Err(e);
        },
    };
    match r.bit() {
        Ok(flag) => {
            if flag != 1 {
                return Err("interlaced stream".to_string());
            }
            proof {
                assert(0 <= (w + 1) * (h + 1) <= 0xFFFF_FFFF * 0xFFFF_FFFF) by (nonlinear_arith)
                    requires
                        0 <= w <= 0xFFFF_FFFE,
                        0 <= h <= 0xFFFF_FFFE,
                ;
            }
            Ok(
                Sps {
                    log2_max_frame_num: frame_num,
                    poc_type,
                    log2_max_poc_lsb: poc_lsb,
                    mbs: (w as u64 + 1) * (h as u64 + 1),
                },
            )
        },
        Err(e) => Err(e),
    }
}

/// Reads the payload of a sequence parameter set.
pub fn parse_sps(d: &[u8]) -> (v: Result<Sps, String>)
    requires
        8 * d@.len() + 8 <= usize::MAX,
    ensures
        is_found(v, sps_of(d@)),
{
    let mut r = BitReader { d, pos: 0 };
    let profile: u32 = match r.bits(8) {
        Ok(p) => p,
        Err(e) => {
            return Err(e);
        },
    };
    match r.bits(16) {
        Ok(_) => {},
        Err(e) => {
            return Err(e);
        },
    }
    match r.ue() {
        Ok(_) => {},
        Err(e) => {
            return Err(e);
        },
    }
    if profile == 100 || profile == 110 || profile == 122 || profile == 244 || profile == 44 || profile == 83
        || profile == 86 || profile == 118 || profile == 128 || profile == 138 || profile == 139 || profile == 134
        || profile == 135 {
        match skip_chroma(&mut r) {
            Ok(_) => {},
            Err(e) => {
                return Err(e);
            },
        }
    }
    let frame_num: u32 = match r.ue() {
        Ok(x) => x,
        Err(e) => {
            return Err(e);
        },
    };
    let poc_type: u32 = match r.ue() {
        Ok(x) => x,
        Err(e) => {
            return Err(e);
        },
    };
    if poc_type == 0 {
        let lsb: u32 = match r.ue() {
            Ok(x) => x,
            Err(e) => {
                return Err(e);
            },
        };
        read_size(&mut r, frame_num as u64 + 4, poc_type, lsb as u64 + 4)
    } else if poc_type == 2 {
        read_size(&mut r, frame_num as u64 + 4, poc_type, 0)
    } else {
        Err("picture order count type 1 not handled".to_string())
    }
}

/// The end of a picture parameter set, from its weighted prediction flag on.
pub open spec fn pps_rest(s: Seq<int>, at: Place, id: int, cabac: bool, bottom: bool) -> Result<Pps, Seq<char>> {
    match at {
        Ok(a) => match read_bits(s, a, 1) {
            Ok((weighted, b)) => match skip_se(s, skip_se(s, skip_se(s, skip_bits(s, Ok(b), 2)))) {
                Ok(c) => match read_bits(s, c, 1) {
                    Ok((deblock, t)) => match skip_bits(s, Ok(t), 1) {
                        Ok(u) => match read_bits(s, u, 1) {
                            Ok((redundant, _)) => if weighted == 1 {
                                Err("weighted prediction not handled"@)
                            } else {
                                Ok(
                                    Pps {
                                        id: id as u32,
                                        cabac,
                                        bottom_field_poc: bottom,
                                        deblock_control: deblock == 1,
                                        redundant_pic_cnt: redundant == 1,
                                    },
                                )
                            },
                            Err(e) => Err(e),
                        },
                        Err(e) => Err(e),
                    },
                    Err(e) => Err(e),
                },
                Err(e) => Err(e),
            },
            Err(e) => Err(e),
        },
        Err(e) => Err(e),
    }
}

/// What the payload of a picture parameter set says.
pub open spec fn pps_of(d: Seq<u8>) -> Result<Pps, Seq<char>> {
    let s = bits_of(d);
    match read_ue(s, 0) {
        Ok((id, p)) => match skip_ue(s, Ok(p)) {
            Ok(q) => match read_bits(s, q, 1) {
                Ok((cabac, t)) => match read_bits(s, t, 1) {
                    Ok((bottom, u)) => match read_ue(s, u) {
                        Ok((groups, v)) => if groups != 0 {
                            Err("slice groups not handled"@)
                        } else {
                            pps_rest(s, skip_ue(s, skip_ue(s, Ok(v))), id, cabac == 1, bottom == 1)
                        },
                        Err(e) => Err(e),
                    },
                    Err(e) => Err(e),
                },
                Err(e) => Err(e),
            },
            Err(e) => Err(e),
        },
        Err(e) => Err(e),
    }
}

fn read_pps_rest(r: &mut BitReader, id: u32, cabac: bool, bottom: bool) -> (v: Result<Pps, String>)
    requires
        old(r).wf(),
    ensures
        is_found(v, pps_rest(old(r).bits_view(), Ok(old(r).pos as int), id as int, cabac, bottom)),
{
    let weighted: u32 = match r.bit() {
        Ok(x) => x,
        Err(e) => {
            return Err(e);
        },
    };
    match r.bits(2) {
        Ok(_) => {},
        Err(e) => {
            return Err(e);
        },
    }
    match r.se() {
        Ok(_) => {},
        Err(e) => {
            return Err(e);
        },
    }
    match r.se() {
        Ok(_) => {},
        Err(e) => {
            return Err(e);
        },
    }
    match r.se() {
        Ok(_) => {},
        Err(e) => {
            return Err(e);
        },
    }
    let deblock: u32 = match r.bit() {
        Ok(x) => x,
        Err(e) => {
            return Err(e);
        },
    };
    match r.bit() {
        Ok(_) => {},
        Err(e) => {
            return Err(e);
        },
    }
    let redundant: u32 = match r.bit() {
        Ok(x) => x,
        Err(e) => {
            return Err(e);
        },
    };
    if weighted == 1 {
        return Err("weighted prediction not handled".to_string());
    }
    Ok(
        Pps {
            id,
            cabac,
            bottom_field_poc: bottom,
            deblock_control: deblock == 1,
            redundant_pic_cnt: redundant == 1,
        },
    )
}

/// Reads the payload of a picture parameter set.
pub fn parse_pps(d: &[u8]) -> (v: Result<Pps, String>)
    requires
        8 * d@.len() + 8 <= usize::MAX,
    ensures
        is_found(v, pps_of(d@)),
{
    let mut r = BitReader { d, pos: 0 };
    let id: u32 = match r.ue() {
        Ok(x) => x,
        Err(e) => {
            return Err(e);
        },
    };
    match r.ue() {
        Ok(_) => {},
        Err(e) => {
            return Err(e);
        },
    }
    let cabac: u32 = match r.bit() {
        Ok(x) => x,
        Err(e) => {
            return Err(e);
        },
    };
    let bottom: u32 = match r.bit() {
        Ok(x) => x,
        Err(e) => {
            return Err(e);
        },
    };
    match r.ue() {
        Ok(groups) => {
            if groups != 0 {
                return Err("slice groups not handled".to_string());
            }
        },
        Err(e) => {
            return Err(e);
        },
    }
    match r.ue() {
        Ok(_) => {},
        Err(e) => {
            return Err(e);
        },
    }
    match r.ue() {
        Ok(_) => {},
        Err(e) => {
            return Err(e);
        },
    }
    read_pps_rest(&mut r, id, cabac == 1, bottom == 1)
}

/// What the parameters of a sequence say, of a profile without more: how many bits number its
/// pictures, how their order is counted, and how many blocks a picture has.
#[verifier::spinoff_prover]
#[verifier::rlimit(80)]
pub proof fn law_parameters_of_a_sequence(
    d: Seq<u8>,
    profile: int,
    flags: int,
    id: u32,
    frame_num: u32,
    lsb: u32,
    refs: u32,
    gaps: int,
    w: u32,
    h: u32,
    rest: Seq<int>,
)
    requires
        0 <= profile < 256,
        !is_high_profile(profile),
        0 <= flags < 65_536,
        0 <= gaps <= 1,
        id < u32::MAX && frame_num < 1_000 && lsb < 1_000 && refs < u32::MAX && w < 10_000 && h < 10_000,
        bits_of(d) == binary(profile, 8) + binary(flags, 16) + ue_code(id as int) + ue_code(frame_num as int) + ue_code(0)
            + ue_code(lsb as int) + ue_code(refs as int) + seq![gaps] + ue_code(w as int) + ue_code(h as int) + seq![1int]
            + rest,
    ensures
        sps_of(d) == Ok::<Sps, Seq<char>>(
            Sps {
                log2_max_frame_num: (frame_num + 4) as u64,
                poc_type: 0,
                log2_max_poc_lsb: (lsb + 4) as u64,
                mbs: ((w + 1) * (h + 1)) as u64,
            },
        ),
{
    let s = bits_of(d);
    let p0 = binary(profile, 8);
    let p1 = p0 + binary(flags, 16);
    let p2 = p1 + ue_code(id as int);
    let p3 = p2 + ue_code(frame_num as int);
    let p4 = p3 + ue_code(0);
    let p5 = p4 + ue_code(lsb as int);
    let p6 = p5 + ue_code(refs as int);
    let p7 = p6 + seq![gaps];
    let p8 = p7 + ue_code(w as int);
    let p9 = p8 + ue_code(h as int);
    let p10 = p9 + seq![1int];
    let none = Seq::<int>::empty();
    assert(crate::bits::two_to(8) == 256) by {
        reveal_with_fuel(crate::bits::two_to, 10);
    }
    assert(crate::bits::two_to(16) == 65_536) by {
        reveal_with_fuel(crate::bits::two_to, 18);
    }
    assert(s == p10 + rest);
    assert(s.take(p10.len() as int) =~= p10);
    lemma_begins_part(s, p9, seq![1int]);
    lemma_begins_part(s, p8, ue_code(h as int));
    lemma_begins_part(s, p7, ue_code(w as int));
    lemma_begins_part(s, p6, seq![gaps]);
    lemma_begins_part(s, p5, ue_code(refs as int));
    lemma_begins_part(s, p4, ue_code(lsb as int));
    lemma_begins_part(s, p3, ue_code(0));
    lemma_begins_part(s, p2, ue_code(frame_num as int));
    lemma_begins_part(s, p1, ue_code(id as int));
    lemma_begins_part(s, p0, binary(flags, 16));
    assert(none + p0 =~= p0);
    lemma_bits_here(s, none, profile, 8);
    lemma_bits_here(s, p0, flags, 16);
    lemma_ue_here(s, p1, id);
    lemma_ue_here(s, p2, frame_num);
    lemma_ue_here(s, p3, 0);
    lemma_ue_here(s, p4, lsb);
    lemma_ue_here(s, p5, refs);
    lemma_flag_here(s, p6, gaps);
    lemma_ue_here(s, p7, w);
    lemma_ue_here(s, p8, h);
    lemma_flag_here(s, p9, 1);
    assert(p0.len() == 8 && p1.len() == 24) by {
        crate::bits::law_the_highest_bit_comes_first(profile, 8, 0);
        crate::bits::law_the_highest_bit_comes_first(flags, 16, 0);
    }
}

/// Whether a row of bits begins with another.
pub open spec fn begins(s: Seq<int>, p: Seq<int>) -> bool {
    p.len() <= s.len() && s.take(p.len() as int) == p
}

pub proof fn lemma_bits_here(s: Seq<int>, p: Seq<int>, x: int, n: int)
    requires
        0 <= n,
        0 <= x < crate::bits::two_to(n),
        begins(s, p + binary(x, n)),
    ensures
        read_bits(s, p.len() as int, n) == Ok::<(int, int), Seq<char>>((x, (p + binary(x, n)).len() as int)),
{
    let q = p + binary(x, n);
    crate::bits::law_bits_round_trip(p, x, n, s.skip(q.len() as int));
    assert(p + binary(x, n) + s.skip(q.len() as int) =~= s);
    if n > 0 {
        crate::bits::law_the_highest_bit_comes_first(x, n, 0);
    }
}

pub proof fn lemma_ue_here(s: Seq<int>, p: Seq<int>, v: u32)
    requires
        v < u32::MAX,
        begins(s, p + ue_code(v as int)),
    ensures
        read_ue(s, p.len() as int) == Ok::<(int, int), Seq<char>>((v as int, (p + ue_code(v as int)).len() as int)),
{
    let q = p + ue_code(v as int);
    crate::bits::law_ue_round_trip(p, v, s.skip(q.len() as int));
    assert(p + ue_code(v as int) + s.skip(q.len() as int) =~= s);
}

/// A part of what begins a row of bits begins it too.
pub proof fn lemma_begins_part(s: Seq<int>, a: Seq<int>, b: Seq<int>)
    requires
        begins(s, a + b),
    ensures
        begins(s, a),
{
    assert(s.take((a + b).len() as int).take(a.len() as int) =~= s.take(a.len() as int));
    assert((a + b).take(a.len() as int) =~= a);
}

/// What begins a row of bits begins it also where more bits follow.
pub proof fn lemma_begins_more(a: Seq<int>, b: Seq<int>, p: Seq<int>)
    requires
        begins(a, p),
    ensures
        begins(a + b, p),
{
    assert((a + b).take(p.len() as int) =~= a.take(p.len() as int));
}

proof fn lemma_flag_here(s: Seq<int>, p: Seq<int>, b: int)
    requires
        0 <= b <= 1,
        begins(s, p + seq![b]),
    ensures
        read_bits(s, p.len() as int, 1) == Ok::<(int, int), Seq<char>>((b, p.len() as int + 1)),
{
    assert(s[p.len() as int] == b) by {
        assert(s.take(p.len() as int + 1)[p.len() as int] == (p + seq![b])[p.len() as int]);
    }
    reveal_with_fuel(crate::bits::value_at, 2);
}

/// What the parameters of a picture say: their number, how numbers are packed, and whether each
/// picture says more of its order, of its smoothing and of a spare copy.
#[verifier::spinoff_prover]
#[verifier::rlimit(80)]
pub proof fn law_parameters_of_a_picture(
    d: Seq<u8>,
    id: u32,
    sps: u32,
    cabac: int,
    bottom: int,
    a: u32,
    b: u32,
    mode: int,
    q0: u32,
    q1: u32,
    q2: u32,
    deblock: int,
    intra: int,
    redundant: int,
    rest: Seq<int>,
)
    requires
        id < u32::MAX && sps < u32::MAX && a < u32::MAX && b < u32::MAX && q0 < u32::MAX && q1 < u32::MAX && q2 < u32::MAX,
        0 <= cabac <= 1 && 0 <= bottom <= 1 && 0 <= mode < 4 && 0 <= deblock <= 1 && 0 <= intra <= 1 && 0 <= redundant <= 1,
        bits_of(d) == ue_code(id as int) + ue_code(sps as int) + seq![cabac] + seq![bottom] + ue_code(0) + ue_code(
            a as int,
        ) + ue_code(b as int) + seq![0int] + binary(mode, 2) + ue_code(q0 as int) + ue_code(q1 as int) + ue_code(
            q2 as int,
        ) + seq![deblock] + seq![intra] + seq![redundant] + rest,
    ensures
        pps_of(d) == Ok::<Pps, Seq<char>>(
            Pps {
                id,
                cabac: cabac == 1,
                bottom_field_poc: bottom == 1,
                deblock_control: deblock == 1,
                redundant_pic_cnt: redundant == 1,
            },
        ),
{
    let s = bits_of(d);
    let none = Seq::<int>::empty();
    let p0 = ue_code(id as int);
    let p1 = p0 + ue_code(sps as int);
    let p2 = p1 + seq![cabac];
    let p3 = p2 + seq![bottom];
    let p4 = p3 + ue_code(0);
    let p5 = p4 + ue_code(a as int);
    let p6 = p5 + ue_code(b as int);
    let p7 = p6 + seq![0int];
    let p8 = p7 + binary(mode, 2);
    let p9 = p8 + ue_code(q0 as int);
    let p10 = p9 + ue_code(q1 as int);
    let p11 = p10 + ue_code(q2 as int);
    let p12 = p11 + seq![deblock];
    let p13 = p12 + seq![intra];
    assert(crate::bits::two_to(2) == 4) by {
        reveal_with_fuel(crate::bits::two_to, 4);
    }
    let p14 = p13 + seq![redundant];
    assert(s == p14 + rest);
    assert(s.take(p14.len() as int) =~= p14);
    lemma_begins_part(s, p13, seq![redundant]);
    lemma_begins_part(s, p12, seq![intra]);
    lemma_begins_part(s, p11, seq![deblock]);
    lemma_begins_part(s, p10, ue_code(q2 as int));
    lemma_begins_part(s, p9, ue_code(q1 as int));
    lemma_begins_part(s, p8, ue_code(q0 as int));
    lemma_begins_part(s, p7, binary(mode, 2));
    lemma_begins_part(s, p6, seq![0int]);
    lemma_begins_part(s, p5, ue_code(b as int));
    lemma_begins_part(s, p4, ue_code(a as int));
    lemma_begins_part(s, p3, ue_code(0));
    lemma_begins_part(s, p2, seq![bottom]);
    lemma_begins_part(s, p1, seq![cabac]);
    lemma_begins_part(s, p0, ue_code(sps as int));
    assert(none + p0 =~= p0);
    lemma_ue_here(s, none, id);
    lemma_ue_here(s, p0, sps);
    lemma_flag_here(s, p1, cabac);
    lemma_flag_here(s, p2, bottom);
    lemma_ue_here(s, p3, 0);
    lemma_ue_here(s, p4, a);
    lemma_ue_here(s, p5, b);
    lemma_flag_here(s, p6, 0);
    lemma_bits_here(s, p7, mode, 2);
    lemma_ue_here(s, p8, q0);
    lemma_ue_here(s, p9, q1);
    lemma_ue_here(s, p10, q2);
    lemma_flag_here(s, p11, deblock);
    lemma_flag_here(s, p12, intra);
    lemma_flag_here(s, p13, redundant);
}

} // verus!
