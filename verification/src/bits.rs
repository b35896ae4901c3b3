//! Bit strings: reading and writing numbers of fixed and of variable length.
//!
//! Bits are counted from the most significant bit of the first byte. A number of
//! variable length is written as an exp-Golomb code: as many zeros as its
//! successor has binary digits after the first, and then that successor.

use vstd::prelude::*;

verus! {

// ---------------------------------------------------------------------------
// Bits of bytes
// ---------------------------------------------------------------------------

/// Two to the n-th.
pub open spec fn two_to(n: int) -> int
    decreases n,
{
    if n <= 0 {
        1
    } else {
        2 * two_to(n - 1)
    }
}

/// The last `n` binary digits of a number, the highest first.
pub open spec fn binary(x: int, n: int) -> Seq<int>
    decreases n,
{
    if n <= 0 {
        Seq::empty()
    } else {
        binary(x / 2, n - 1).push(x % 2)
    }
}

/// The bits of bytes.
pub open spec fn bits_of(d: Seq<u8>) -> Seq<int>
    decreases d.len(),
{
    if d.len() == 0 {
        Seq::empty()
    } else {
        bits_of(d.drop_last()) + binary(d.last() as int, 8)
    }
}

/// The number that `n` bits from a position on stand for.
pub open spec fn value_at(s: Seq<int>, pos: int, n: int) -> int
    decreases n,
{
    if n <= 0 {
        0
    } else {
        2 * value_at(s, pos, n - 1) + s[pos + n - 1]
    }
}

proof fn lemma_binary_len(x: int, n: int)
    ensures
        binary(x, n).len() == (if n < 0 {
            0
        } else {
            n
        }),
    decreases n,
{
    if n > 0 {
        lemma_binary_len(x / 2, n - 1);
    }
}

proof fn lemma_bits_len(d: Seq<u8>)
    ensures
        bits_of(d).len() == 8 * d.len(),
    decreases d.len(),
{
    if d.len() > 0 {
        lemma_bits_len(d.drop_last());
        lemma_binary_len(d.last() as int, 8);
    }
}

/// The i-th of eight binary digits of a byte.
proof fn lemma_byte_bit(x: u8, i: int)
    requires
        0 <= i < 8,
    ensures
        binary(x as int, 8).len() == 8,
        binary(x as int, 8)[i] == (x as int / two_to(7 - i)) % 2,
{
    reveal_with_fuel(binary, 9);
    reveal_with_fuel(two_to, 9);
    let b = x as int;
    assert(binary(b, 8) =~= seq![
        b / 2 / 2 / 2 / 2 / 2 / 2 / 2 % 2,
        b / 2 / 2 / 2 / 2 / 2 / 2 % 2,
        b / 2 / 2 / 2 / 2 / 2 % 2,
        b / 2 / 2 / 2 / 2 % 2,
        b / 2 / 2 / 2 % 2,
        b / 2 / 2 % 2,
        b / 2 % 2,
        b % 2,
    ]);
    assert(b / 128 == b / 2 / 2 / 2 / 2 / 2 / 2 / 2);
    assert(b / 64 == b / 2 / 2 / 2 / 2 / 2 / 2);
    assert(b / 32 == b / 2 / 2 / 2 / 2 / 2);
    assert(b / 16 == b / 2 / 2 / 2 / 2);
    assert(b / 8 == b / 2 / 2 / 2);
    assert(b / 4 == b / 2 / 2);
}

proof fn lemma_bit_in_byte(d: Seq<u8>, k: int, i: int)
    requires
        0 <= k < d.len(),
        0 <= i < 8,
    ensures
        bits_of(d).len() == 8 * d.len(),
        bits_of(d)[8 * k + i] == binary(d[k] as int, 8)[i],
    decreases d.len(),
{
    lemma_bits_len(d);
    lemma_bits_len(d.drop_last());
    lemma_binary_len(d.last() as int, 8);
    if k < d.len() - 1 {
        lemma_bit_in_byte(d.drop_last(), k, i);
    }
}

proof fn lemma_value_bound(s: Seq<int>, pos: int, n: int)
    requires
        0 <= pos,
        pos + n <= s.len(),
        forall|i: int| 0 <= i < s.len() ==> 0 <= #[trigger] s[i] <= 1,
    ensures
        0 <= value_at(s, pos, n) < two_to(n),
    decreases n,
{
    if n > 0 {
        lemma_value_bound(s, pos, n - 1);
    }
}

proof fn lemma_bits_are_bits(d: Seq<u8>)
    ensures
        forall|i: int| 0 <= i < bits_of(d).len() ==> 0 <= #[trigger] bits_of(d)[i] <= 1,
    decreases d.len(),
{
    if d.len() > 0 {
        lemma_bits_are_bits(d.drop_last());
        lemma_binary_bits(d.last() as int, 8);
        let init = bits_of(d.drop_last());
        assert forall|i: int| 0 <= i < bits_of(d).len() implies 0 <= #[trigger] bits_of(d)[i] <= 1 by {
            if i < init.len() {
                assert(bits_of(d)[i] == init[i]);
            } else {
                assert(bits_of(d)[i] == binary(d.last() as int, 8)[i - init.len()]);
            }
        }
    }
}

pub proof fn lemma_binary_bits(x: int, n: int)
    ensures
        forall|i: int| 0 <= i < binary(x, n).len() ==> 0 <= #[trigger] binary(x, n)[i] <= 1,
    decreases n,
{
    if n > 0 {
        lemma_binary_bits(x / 2, n - 1);
        assert forall|i: int| 0 <= i < binary(x, n).len() implies 0 <= #[trigger] binary(x, n)[i] <= 1 by {
            if i < binary(x / 2, n - 1).len() {
                assert(binary(x, n)[i] == binary(x / 2, n - 1)[i]);
            }
        }
    }
}

proof fn lemma_two_to_31()
    ensures
        two_to(31) == 0x8000_0000,
        two_to(8) == 256,
        two_to(16) == 65_536,
{
    reveal_with_fuel(two_to, 32);
}

proof fn lemma_two_to_grows(a: int, b: int)
    requires
        a <= b,
    ensures
        1 <= two_to(a) <= two_to(b),
    decreases b,
{
    if b > 0 {
        if a < b {
            lemma_two_to_grows(a, b - 1);
        } else {
            lemma_two_to_grows(a - 1, b - 1);
        }
    }
}

// ---------------------------------------------------------------------------
// Reading
// ---------------------------------------------------------------------------

/// What a read found and where it stopped, or why it failed.
pub type Read = Result<(int, int), Seq<char>>;

pub open spec fn too_short() -> Seq<char> {
    "parameter set too short"@
}

pub open spec fn bad_code() -> Seq<char> {
    "bad exp-golomb code"@
}

/// A number of `n` bits at a position.
pub open spec fn read_bits(s: Seq<int>, pos: int, n: int) -> Read {
    if pos + n <= s.len() {
        Ok((value_at(s, pos, n), pos + n))
    } else {
        Err(too_short())
    }
}

/// How many zeros stand from a position on before the first one, given how many
/// were seen already; at most 31.
pub open spec fn leading_zeros(s: Seq<int>, pos: int, seen: int) -> Read
    decreases s.len() - pos,
{
    if pos >= s.len() {
        Err(too_short())
    } else if s[pos] != 0 {
        Ok((seen, pos + 1))
    } else if seen + 1 > 31 {
        Err(bad_code())
    } else {
        leading_zeros(s, pos + 1, seen + 1)
    }
}

/// A number of variable length at a position.
pub open spec fn read_ue(s: Seq<int>, pos: int) -> Read {
    match leading_zeros(s, pos, 0) {
        Ok((zeros, p)) => match read_bits(s, p, zeros) {
            Ok((v, q)) => Ok((two_to(zeros) - 1 + v, q)),
            Err(e) => Err(e),
        },
        Err(e) => Err(e),
    }
}

/// The signed number that a number of variable length stands for: odd ones count
/// up, even ones down.
pub open spec fn signed_of(k: int) -> int {
    if k % 2 == 1 {
        (k + 1) / 2
    } else {
        -(k / 2)
    }
}

pub open spec fn read_se(s: Seq<int>, pos: int) -> Read {
    match read_ue(s, pos) {
        Ok((k, p)) => Ok((signed_of(k), p)),
        Err(e) => Err(e),
    }
}

/// Whether a result is what a read says.
pub open spec fn is_read(r: Result<u32, String>, pos: int, read: Read) -> bool {
    match (r, read) {
        (Ok(v), Ok((x, p))) => v == x && pos == p,
        (Err(e), Err(t)) => e@ == t,
        _ => false,
    }
}

/// A position in some bytes, bit by bit.
pub struct BitReader<'a> {
    pub d: &'a [u8],
    pub pos: usize,
}

impl<'a> BitReader<'a> {
    /// The position lies in the bytes or at their end.
    pub open spec fn wf(&self) -> bool {
        self.pos <= 8 * self.d@.len() && 8 * self.d@.len() + 8 <= usize::MAX
    }

    pub open spec fn bits_view(&self) -> Seq<int> {
        bits_of(self.d@)
    }

    pub fn bit(&mut self) -> (r: Result<u32, String>)
        requires
            old(self).wf(),
        ensures
            final(self).wf(),
            final(self).d == old(self).d,
            final(self).pos >= old(self).pos,
            is_read(r, final(self).pos as int, read_bits(old(self).bits_view(), old(self).pos as int, 1)),
            r matches Ok(v) ==> v <= 1 && v == old(self).bits_view()[old(self).pos as int] && old(self).pos
                < old(self).bits_view().len() && final(self).pos == old(self).pos + 1,
            r is Err ==> old(self).pos >= old(self).bits_view().len(),
    {
        let k: usize = self.pos / 8;
        let ghost s = self.bits_view();
        proof {
            lemma_bits_len(self.d@);
            reveal_with_fuel(value_at, 2);
        }
        if k >= self.d.len() {
            return Err("parameter set too short".to_string());
        }
        let i: usize = self.pos % 8;
        proof {
            lemma_bit_in_byte(self.d@, k as int, i as int);
            lemma_byte_bit(self.d@[k as int], i as int);
            reveal_with_fuel(two_to, 9);
        }
        let byte: u8 = self.d[k];
        let v: u8 = if i == 0 {
            byte / 128
        } else if i == 1 {
            byte / 64 % 2
        } else if i == 2 {
            byte / 32 % 2
        } else if i == 3 {
            byte / 16 % 2
        } else if i == 4 {
            byte / 8 % 2
        } else if i == 5 {
            byte / 4 % 2
        } else if i == 6 {
            byte / 2 % 2
        } else {
            byte % 2
        };
        self.pos = self.pos + 1;
        Ok(v as u32)
    }

    pub fn bits(&mut self, n: u32) -> (r: Result<u32, String>)
        requires
            old(self).wf(),
            n <= 31,
        ensures
            final(self).wf(),
            final(self).d == old(self).d,
            final(self).pos >= old(self).pos,
            is_read(r, final(self).pos as int, read_bits(old(self).bits_view(), old(self).pos as int, n as int)),
            r matches Ok(v) ==> v < two_to(n as int),
    {
        let ghost s = self.bits_view();
        let ghost p0 = self.pos as int;
        let mut v: u32 = 0;
        let mut k: u32 = 0;
        proof {
            lemma_bits_len(self.d@);
            lemma_bits_are_bits(self.d@);
        }
        while k < n
            invariant
                k <= n <= 31,
                self.wf(),
                self.d == old(self).d,
                s == old(self).bits_view(),
                s == self.bits_view(),
                s.len() == 8 * self.d@.len(),
                forall|i: int| 0 <= i < s.len() ==> 0 <= #[trigger] s[i] <= 1,
                p0 == old(self).pos,
                self.pos == p0 + k,
                p0 + k <= s.len(),
                v == value_at(s, p0, k as int),
            decreases n - k,
        {
            proof {
                lemma_value_bound(s, p0, k as int);
                lemma_two_to_31();
                lemma_two_to_grows(k as int, 30);
                reveal_with_fuel(two_to, 2);
            }
            match self.bit() {
                Ok(b) => {
                    v = 2 * v + b;
                },
                Err(e) => {
                    return Err(e);
                },
            }
            k = k + 1;
        }
        proof {
            lemma_value_bound(s, p0, n as int);
        }
        Ok(v)
    }

    pub fn ue(&mut self) -> (r: Result<u32, String>)
        requires
            old(self).wf(),
        ensures
            final(self).wf(),
            final(self).d == old(self).d,
            final(self).pos >= old(self).pos,
            is_read(r, final(self).pos as int, read_ue(old(self).bits_view(), old(self).pos as int)),
            r matches Ok(v) ==> v <= 0xFFFF_FFFE,
    {
        let ghost s = self.bits_view();
        let mut zeros: u32 = 0;
        loop
            invariant_except_break
                zeros <= 31,
                self.wf(),
                self.d == old(self).d,
                self.pos >= old(self).pos,
                s == old(self).bits_view(),
                s == self.bits_view(),
                leading_zeros(s, old(self).pos as int, 0) == leading_zeros(s, self.pos as int, zeros as int),
            ensures
                zeros <= 31,
                self.wf(),
                self.d == old(self).d,
                self.pos >= old(self).pos,
                s == self.bits_view(),
                leading_zeros(s, old(self).pos as int, 0) == Ok::<(int, int), Seq<char>>(
                    (zeros as int, self.pos as int),
                ),
            decreases 8 * self.d@.len() - self.pos,
        {
            proof {
                lemma_bits_len(self.d@);
            }
            match self.bit() {
                Ok(b) => {
                    if b != 0 {
                        break;
                    }
                    if zeros + 1 > 31 {
                        return Err("bad exp-golomb code".to_string());
                    }
                    zeros = zeros + 1;
                },
                Err(e) => {
                    return Err(e);
                },
            }
        }
        match self.bits(zeros) {
            Ok(v) => {
                proof {
                    lemma_two_to_31();
                    lemma_two_to_grows(zeros as int, 31);
                }
                let base: u32 = power(zeros);
                Ok(base - 1 + v)
            },
            Err(e) => Err(e),
        }
    }

    pub fn se(&mut self) -> (r: Result<i32, String>)
        requires
            old(self).wf(),
        ensures
            final(self).wf(),
            final(self).d == old(self).d,
            final(self).pos >= old(self).pos,
            match (r, read_se(old(self).bits_view(), old(self).pos as int)) {
                (Ok(v), Ok((x, p))) => v == x && final(self).pos == p,
                (Err(e), Err(t)) => e@ == t,
                _ => false,
            },
    {
        match self.ue() {
            Ok(k) => if k % 2 == 1 {
                Ok((k / 2 + 1) as i32)
            } else {
                Ok(-((k / 2) as i32))
            },
            Err(e) => Err(e),
        }
    }
}

/// Two to the n-th.
pub fn power(n: u32) -> (r: u32)
    requires
        n <= 31,
    ensures
        r == two_to(n as int),
        r >= 1,
{
    let mut r: u32 = 1;
    let mut i: u32 = 0;
    proof {
        lemma_two_to_31();
    }
    while i < n
        invariant
            i <= n <= 31,
            r == two_to(i as int),
            r >= 1,
            two_to(31) == 0x8000_0000,
        decreases n - i,
    {
        proof {
            lemma_two_to_grows(i + 1, 31);
        }
        r = 2 * r;
        i = i + 1;
    }
    r
}

// ---------------------------------------------------------------------------
// Writing
// ---------------------------------------------------------------------------

/// How many binary digits a number has after the first.
pub open spec fn digits_after_first(x: int) -> int
    decreases x,
{
    if x <= 1 {
        0
    } else {
        1 + digits_after_first(x / 2)
    }
}

/// `n` zeros.
pub open spec fn zeros(n: int) -> Seq<int> {
    Seq::new(n as nat, |i: int| 0int)
}

/// The code of a number of variable length.
pub open spec fn ue_code(v: int) -> Seq<int> {
    let k = digits_after_first(v + 1);
    zeros(k) + binary(v + 1, k + 1)
}

/// The bytes that bits make, eight to each.
pub open spec fn bytes_of(s: Seq<int>) -> Seq<u8>
    decreases s.len(),
{
    if s.len() < 8 {
        Seq::empty()
    } else {
        bytes_of(s.take(s.len() - 8)).push(value_at(s, s.len() - 8, 8) as u8)
    }
}

/// Bits with a one and then zeros after them, up to the end of a byte.
pub open spec fn padded(s: Seq<int>) -> Seq<int> {
    s.push(1) + zeros((7 - s.len() as int % 8) % 8)
}

/// Bits on their way into bytes.
pub struct BitWriter {
    out: Vec<u8>,
    cur: u8,
    n: u8,
}

impl BitWriter {
    pub closed spec fn wf(&self) -> bool {
        self.n < 8 && self.cur < two_to(self.n as int)
    }

    /// The bits written so far.
    pub closed spec fn bits_view(&self) -> Seq<int> {
        bits_of(self.out@) + binary(self.cur as int, self.n as int)
    }

    pub fn new() -> (r: BitWriter)
        ensures
            r.wf(),
            r.bits_view() == Seq::<int>::empty(),
    {
        let r = BitWriter { out: Vec::new(), cur: 0, n: 0 };
        proof {
            assert(r.bits_view() =~= Seq::<int>::empty());
        }
        r
    }

    pub fn bit(&mut self, b: u8)
        requires
            old(self).wf(),
            b <= 1,
        ensures
            final(self).wf(),
            final(self).bits_view() == old(self).bits_view().push(b as int),
    {
        proof {
            lemma_two_to_31();
            lemma_two_to_grows(self.n as int, 7);
            reveal_with_fuel(two_to, 9);
        }
        let ghost before = self.bits_view();
        let ghost cur0 = self.cur as int;
        let ghost n0 = self.n as int;
        self.cur = 2 * self.cur + b;
        self.n = self.n + 1;
        proof {
            assert(binary(self.cur as int, self.n as int) == binary(cur0, n0).push(b as int));
            assert(bits_of(self.out@) + binary(self.cur as int, self.n as int) =~= before.push(b as int));
        }
        if self.n == 8 {
            let ghost o = self.out@;
            self.out.push(self.cur);
            proof {
                assert(self.out@.drop_last() =~= o);
            }
            self.cur = 0;
            self.n = 0;
            proof {
                assert(binary(0, 0) =~= Seq::<int>::empty());
                assert(self.bits_view() =~= bits_of(o) + binary(self.out@.last() as int, 8));
            }
        }
    }

    /// Writes the last `n` binary digits of a number.
    pub fn bits(&mut self, v: u64, n: u32)
        requires
            old(self).wf(),
            n <= 64,
        ensures
            final(self).wf(),
            final(self).bits_view() == old(self).bits_view() + binary(v as int, n as int),
        decreases n,
    {
        if n > 0 {
            self.bits(v / 2, n - 1);
            let ghost mid = self.bits_view();
            self.bit((v % 2) as u8);
            proof {
                assert(mid.push(v as int % 2) =~= old(self).bits_view() + binary(v as int, n as int));
            }
        } else {
            proof {
                assert(self.bits_view() + binary(v as int, 0) =~= self.bits_view());
            }
        }
    }

    /// Writes a number of variable length.
    pub fn ue(&mut self, v: u32)
        requires
            old(self).wf(),
        ensures
            final(self).wf(),
            final(self).bits_view() == old(self).bits_view() + ue_code(v as int),
    {
        let x: u64 = v as u64 + 1;
        let k: u32 = count_digits(x);
        let mut i: u32 = 0;
        proof {
            assert(self.bits_view() + zeros(0) =~= self.bits_view());
        }
        while i < k
            invariant
                i <= k,
                self.wf(),
                self.bits_view() == old(self).bits_view() + zeros(i as int),
            decreases k - i,
        {
            let ghost mid = self.bits_view();
            self.bit(0);
            proof {
                assert(mid.push(0) =~= old(self).bits_view() + zeros(i + 1));
            }
            i = i + 1;
        }
        let ghost mid = self.bits_view();
        self.bits(x, k + 1);
        proof {
            assert(mid + binary(x as int, k + 1) =~= old(self).bits_view() + ue_code(v as int));
        }
    }

    /// Ends the bits with a one and zeros up to the end of a byte.
    pub fn finish(self) -> (r: Vec<u8>)
        requires
            self.wf(),
        ensures
            bits_of(r@) == padded(self.bits_view()),
            r@ == bytes_of(padded(self.bits_view())),
    {
        let ghost s = self.bits_view();
        let mut w = self;
        proof {
            w.lemma_len();
        }
        w.bit(1);
        let ghost k = (7 - s.len() as int % 8) % 8;
        let mut i: u8 = 0;
        proof {
            w.lemma_len();
            assert(s.push(1) + zeros(0) =~= s.push(1));
        }
        while w.n != 0
            invariant
                w.wf(),
                i <= 7,
                k == (7 - s.len() as int % 8) % 8,
                i as int <= k,
                w.bits_view() == s.push(1) + zeros(i as int),
                w.n as int == w.bits_view().len() % 8,
            decreases k - i,
        {
            let ghost mid = w.bits_view();
            let ghost n0 = w.n as int;
            w.bit(0);
            proof {
                assert(mid.push(0) =~= s.push(1) + zeros(i + 1));
                w.lemma_len();
            }
            i = i + 1;
        }
        proof {
            assert(i as int == k);
            assert(binary(w.cur as int, 0) =~= Seq::<int>::empty());
            assert(bits_of(w.out@) =~= w.bits_view());
            lemma_bytes_of_bits(w.out@);
        }
        w.out
    }

    proof fn lemma_len(&self)
        requires
            self.wf(),
        ensures
            self.bits_view().len() % 8 == self.n,
    {
        lemma_bits_len(self.out@);
        lemma_binary_len(self.cur as int, self.n as int);
    }
}

fn count_digits(x: u64) -> (k: u32)
    requires
        1 <= x < 0x8000_0000_0000_0000,
    ensures
        k == digits_after_first(x as int),
        k <= 62,
        x < 0x1_0000_0000 ==> k <= 31,
{
    let mut y: u64 = x;
    let mut k: u32 = 0;
    proof {
        reveal_with_fuel(two_to, 64);
        lemma_digit_bound(x as int, 62);
        if x < 0x1_0000_0000 {
            lemma_digit_bound(x as int, 31);
        }
    }
    while y > 1
        invariant
            1 <= y,
            digits_after_first(x as int) == k + digits_after_first(y as int),
            digits_after_first(x as int) <= 62,
        decreases y,
    {
        proof {
            lemma_digits_nat(y as int / 2);
        }
        y = y / 2;
        k = k + 1;
    }
    k
}

proof fn lemma_digits_nat(x: int)
    ensures
        digits_after_first(x) >= 0,
    decreases x,
{
    if x > 1 {
        lemma_digits_nat(x / 2);
    }
}

/// A number below a power of two has no more digits than its exponent.
proof fn lemma_digit_bound(x: int, n: int)
    requires
        1 <= x < two_to(n + 1),
        0 <= n,
    ensures
        0 <= digits_after_first(x) <= n,
    decreases n,
{
    if x > 1 {
        assert(n >= 1) by {
            if n == 0 {
                reveal_with_fuel(two_to, 2);
            }
        }
        lemma_digit_bound(x / 2, n - 1);
    }
}

proof fn lemma_value_of_binary(prefix: Seq<int>, x: int, n: int, rest: Seq<int>)
    requires
        0 <= n,
        0 <= x < two_to(n),
    ensures
        value_at(prefix + binary(x, n) + rest, prefix.len() as int, n) == x,
    decreases n,
{
    lemma_binary_len(x, n);
    if n > 0 {
        lemma_binary_len(x / 2, n - 1);
        lemma_value_of_binary(prefix, x / 2, n - 1, seq![x % 2] + rest);
        assert(prefix + binary(x / 2, n - 1) + (seq![x % 2] + rest) =~= prefix + binary(x, n) + rest);
        assert((prefix + binary(x, n) + rest)[prefix.len() + n - 1] == x % 2);
    }
}

proof fn lemma_bytes_of_bits(d: Seq<u8>)
    ensures
        bytes_of(bits_of(d)) == d,
    decreases d.len(),
{
    lemma_bits_len(d);
    if d.len() > 0 {
        let b = bits_of(d);
        let init = bits_of(d.drop_last());
        lemma_bits_len(d.drop_last());
        lemma_binary_len(d.last() as int, 8);
        lemma_bytes_of_bits(d.drop_last());
        lemma_two_to_31();
        lemma_value_of_binary(init, d.last() as int, 8, Seq::empty());
        assert(init + binary(d.last() as int, 8) + Seq::<int>::empty() =~= b);
        assert(b.take(b.len() - 8) =~= init);
        assert(bytes_of(b) =~= d);
    } else {
        assert(bytes_of(bits_of(d)) =~= d);
    }
}

proof fn lemma_leading_zeros(s: Seq<int>, pos: int, seen: int, k: int)
    requires
        0 <= pos,
        0 <= k,
        seen + k <= 31,
        pos + k < s.len(),
        forall|i: int| pos <= i < pos + k ==> #[trigger] s[i] == 0,
        s[pos + k] == 1,
    ensures
        leading_zeros(s, pos, seen) == Ok::<(int, int), Seq<char>>((seen + k, pos + k + 1)),
    decreases k,
{
    if k > 0 {
        lemma_leading_zeros(s, pos + 1, seen + 1, k - 1);
    }
}

/// The first of a number's binary digits is a one, the others make the rest.
proof fn lemma_first_digit(x: int)
    requires
        x >= 1,
    ensures
        ({
            let k = digits_after_first(x);
            &&& two_to(k) <= x < two_to(k + 1)
            &&& binary(x, k + 1) == seq![1int] + binary(x - two_to(k), k)
            &&& k >= 0
        }),
    decreases x,
{
    let k = digits_after_first(x);
    reveal_with_fuel(binary, 2);
    if x > 1 {
        lemma_first_digit(x / 2);
        let h = x / 2;
        assert(two_to(k) == 2 * two_to(k - 1));
        assert(two_to(k + 1) == 2 * two_to(k));
        assert((x - two_to(k)) / 2 == h - two_to(k - 1));
        assert((x - two_to(k)) % 2 == x % 2);
        assert(binary(x, k + 1) =~= seq![1int] + binary(x - two_to(k), k));
    } else {
        assert(binary(1, 1) =~= seq![1int] + binary(0, 0));
    }
}

/// A number of variable length is read back as it was written, wherever it stands.
pub proof fn law_ue_round_trip(prefix: Seq<int>, v: u32, rest: Seq<int>)
    requires
        v < u32::MAX,
    ensures
        read_ue(prefix + ue_code(v as int) + rest, prefix.len() as int) == Ok::<(int, int), Seq<char>>(
            (v as int, (prefix.len() + ue_code(v as int).len()) as int),
        ),
{
    let x = v + 1;
    let k = digits_after_first(x);
    let s = prefix + ue_code(v as int) + rest;
    let p = prefix.len() as int;
    lemma_two_to_31();
    lemma_first_digit(x);
    assert(two_to(32) == 2 * two_to(31));
    lemma_digit_bound(x, 31);
    lemma_binary_len(x, k + 1);
    lemma_binary_len(x - two_to(k), k);
    let code = ue_code(v as int);
    assert(code =~= zeros(k) + (seq![1int] + binary(x - two_to(k), k)));
    assert forall|i: int| p <= i < p + k implies #[trigger] s[i] == 0 by {
        assert(s[i] == code[i - p]);
    }
    assert(s[p + k] == code[k]);
    lemma_leading_zeros(s, p, 0, k);
    let head = prefix + zeros(k) + seq![1int];
    lemma_value_of_binary(head, x - two_to(k), k, rest);
    assert(head + binary(x - two_to(k), k) + rest =~= s);
}

/// A number of fixed length is read back as it was written, wherever it stands.
pub proof fn law_bits_round_trip(prefix: Seq<int>, x: int, n: int, rest: Seq<int>)
    requires
        0 <= n,
        0 <= x < two_to(n),
    ensures
        read_bits(prefix + binary(x, n) + rest, prefix.len() as int, n) == Ok::<(int, int), Seq<char>>(
            (x, prefix.len() + n),
        ),
{
    lemma_binary_len(x, n);
    lemma_value_of_binary(prefix, x, n, rest);
}

/// The bits of a number come with the highest first: each is whether its power of two is in it.
pub proof fn law_the_highest_bit_comes_first(x: int, n: int, i: int)
    requires
        0 <= x,
        0 <= i < n,
    ensures
        binary(x, n).len() == n,
        binary(x, n)[i] == x / two_to(n - 1 - i) % 2,
    decreases n,
{
    if i < n - 1 {
        law_the_highest_bit_comes_first(x / 2, n - 1, i);
        let p = two_to(n - 2 - i);
        lemma_power_positive(n - 2 - i);
        vstd::arithmetic::div_mod::lemma_div_denominator(x, 2, p);
        assert(two_to(n - 1 - i) == 2 * p);
    } else {
        lemma_length_of_binary(x, n);
    }
}

proof fn lemma_power_positive(n: int)
    ensures
        two_to(n) >= 1,
    decreases n,
{
    if n > 0 {
        lemma_power_positive(n - 1);
    }
}

proof fn lemma_length_of_binary(x: int, n: int)
    requires
        0 <= n,
    ensures
        binary(x, n).len() == n,
    decreases n,
{
    if n > 0 {
        lemma_length_of_binary(x / 2, n - 1);
    }
}

/// Signed numbers count out from zero: one, minus one, two, minus two and so on.
pub proof fn law_signed_numbers(n: int)
    requires
        0 < n,
    ensures
        signed_of(0) == 0,
        signed_of(2 * n - 1) == n,
        signed_of(2 * n) == -n,
{
}

} // verus!
