//! Bytes: hexadecimal, percent escapes, text in UTF-8 and digests.

use sha2::Digest;
use vstd::prelude::*;
use vstd::utf8::{decode_utf8, encode_utf8, valid_utf8};

verus! {

// ---------------------------------------------------------------------------
// Hexadecimal
// ---------------------------------------------------------------------------

/// The digit of a number below sixteen, with capital letters or small ones.
pub open spec fn hex_char(n: int, capital: bool) -> char {
    if n < 10 {
        (48 + n) as char
    } else if capital {
        (55 + n) as char
    } else {
        (87 + n) as char
    }
}

/// Two digits for each of the first `n` bytes.
pub open spec fn hex_first(b: Seq<u8>, n: int, capital: bool) -> Seq<char>
    decreases n,
{
    if n <= 0 {
        Seq::empty()
    } else {
        hex_first(b, n - 1, capital).push(hex_char(b[n - 1] as int / 16, capital)).push(
            hex_char(b[n - 1] as int % 16, capital),
        )
    }
}

pub open spec fn hex(b: Seq<u8>, capital: bool) -> Seq<char> {
    hex_first(b, b.len() as int, capital)
}

pub fn hex_digit(n: u8, capital: bool) -> (r: char)
    requires
        n < 16,
    ensures
        r == hex_char(n as int, capital),
{
    if n < 10 {
        (48 + n) as char
    } else if capital {
        (55 + n) as char
    } else {
        (87 + n) as char
    }
}

/// The bytes in hexadecimal.
pub fn hex_text(b: &[u8], n: usize, capital: bool) -> (r: Vec<char>)
    requires
        n <= b.len(),
    ensures
        r@ == hex_first(b@, n as int, capital),
        r@.len() == 2 * n,
{
    let mut out: Vec<char> = Vec::new();
    let mut i: usize = 0;
    while i < n
        invariant
            i <= n <= b.len(),
            out@ == hex_first(b@, i as int, capital),
            out@.len() == 2 * i,
        decreases n - i,
    {
        out.push(hex_digit(b[i] / 16, capital));
        out.push(hex_digit(b[i] % 16, capital));
        i = i + 1;
    }
    out
}

/// The value of a hexadecimal digit.
pub open spec fn hex_value(b: u8) -> Option<int> {
    if 48 <= b <= 57 {
        Some(b - 48)
    } else if 65 <= b <= 70 {
        Some(b - 55)
    } else if 97 <= b <= 102 {
        Some(b - 87)
    } else {
        None
    }
}

/// The value of two hexadecimal digits, or of one after a plus sign.
pub open spec fn hex_pair(a: u8, b: u8) -> Option<int> {
    match (hex_value(a), hex_value(b)) {
        (Some(x), Some(y)) => Some(16 * x + y),
        (None, Some(y)) => if a == 43 {
            Some(y)
        } else {
            None
        },
        _ => None,
    }
}

pub fn hex_digit_value(b: u8) -> (r: Option<u8>)
    ensures
        match r {
            Some(v) => hex_value(b) == Some(v as int) && v < 16,
            None => hex_value(b) is None,
        },
{
    if 48 <= b && b <= 57 {
        Some(b - 48)
    } else if 65 <= b && b <= 70 {
        Some(b - 55)
    } else if 97 <= b && b <= 102 {
        Some(b - 87)
    } else {
        None
    }
}

fn hex_pair_value(a: u8, b: u8) -> (r: Option<u8>)
    ensures
        match r {
            Some(v) => hex_pair(a, b) == Some(v as int),
            None => hex_pair(a, b) is None,
        },
{
    match (hex_digit_value(a), hex_digit_value(b)) {
        (Some(x), Some(y)) => Some(16 * x + y),
        (None, Some(y)) => if a == 43 {
            Some(y)
        } else {
            None
        },
        _ => None,
    }
}

// ---------------------------------------------------------------------------
// Percent escapes
// ---------------------------------------------------------------------------

/// Bytes from position `i` on with percent escapes undone. A percent sign that no
/// two digits follow stays.
pub open spec fn percent_decoded(b: Seq<u8>, i: int) -> Seq<u8>
    decreases b.len() - i,
{
    if i >= b.len() {
        Seq::empty()
    } else if b[i] == 37 && i + 2 < b.len() && hex_pair(b[i + 1], b[i + 2]) is Some {
        seq![hex_pair(b[i + 1], b[i + 2])->0 as u8] + percent_decoded(b, i + 3)
    } else {
        seq![b[i]] + percent_decoded(b, i + 1)
    }
}

/// What a text with percent escapes says. Bytes that are no UTF-8 become
/// replacement characters.
pub open spec fn percent_text(s: Seq<char>) -> Seq<char> {
    text_of(percent_decoded(encode_utf8(s), 0))
}

pub fn percent_decode(s: &str) -> (r: String)
    ensures
        r@ == percent_text(s@),
{
    let b = s.as_bytes();
    let mut out: Vec<u8> = Vec::new();
    let mut i: usize = 0;
    proof {
        assert(out@ + percent_decoded(b@, 0) =~= percent_decoded(b@, 0));
    }
    while i < b.len()
        invariant
            i <= b.len(),
            out@ + percent_decoded(b@, i as int) == percent_decoded(b@, 0),
        decreases b.len() - i,
    {
        let ghost before = out@;
        let pair: Option<u8> = if b[i] == 37 && b.len() - i > 2 {
            hex_pair_value(b[i + 1], b[i + 2])
        } else {
            None
        };
        match pair {
            Some(v) => {
                out.push(v);
                proof {
                    assert(before + (seq![v] + percent_decoded(b@, i + 3)) =~= out@ + percent_decoded(b@, i + 3));
                }
                i = i + 3;
            },
            None => {
                out.push(b[i]);
                proof {
                    assert(before + (seq![b@[i as int]] + percent_decoded(b@, i + 1)) =~= out@ + percent_decoded(
                        b@,
                        i + 1,
                    ));
                }
                i = i + 1;
            },
        }
    }
    proof {
        assert(out@ + Seq::<u8>::empty() =~= out@);
    }
    lossy_text(out.as_slice())
}

// ---------------------------------------------------------------------------
// Text in UTF-8
// ---------------------------------------------------------------------------

/// Bytes as text, with replacement characters where they are no UTF-8.
pub uninterp spec fn utf8_lossy(b: Seq<u8>) -> Seq<char>;

/// `String::from_utf8_lossy`: bytes in UTF-8 give the text they encode; in others
/// the parts that are no UTF-8 are replaced.
#[verifier::external_body]
pub(crate) fn lossy_text(b: &[u8]) -> (r: String)
    ensures
        r@ == utf8_lossy(b@),
        valid_utf8(b@) ==> r@ == decode_utf8(b@),
{
    String::from_utf8_lossy(b).into_owned()
}

/// Bytes as text: what they encode where they are UTF-8, and else with replacement
/// characters.
pub open spec fn text_of(b: Seq<u8>) -> Seq<char> {
    if valid_utf8(b) {
        decode_utf8(b)
    } else {
        utf8_lossy(b)
    }
}

/// Bytes without a byte order mark at their start.
pub open spec fn without_mark(b: Seq<u8>) -> Seq<u8> {
    if b.len() >= 3 && b[0] == 0xEF && b[1] == 0xBB && b[2] == 0xBF {
        b.subrange(3, b.len() as int)
    } else {
        b
    }
}

/// The text of a file.
pub fn decode_text(b: &[u8]) -> (r: String)
    ensures
        r@ == text_of(without_mark(b@)),
{
    if b.len() >= 3 && b[0] == 0xEF && b[1] == 0xBB && b[2] == 0xBF {
        lossy_text(&b[3..b.len()])
    } else {
        lossy_text(b)
    }
}

// ---------------------------------------------------------------------------
// Digests
// ---------------------------------------------------------------------------

/// The SHA-256 digest of some bytes.
pub uninterp spec fn sha256_of(b: Seq<u8>) -> Seq<u8>;

/// `Sha256::digest` of the crate `sha2`: 32 bytes that depend on the input alone.
#[verifier::external_body]
pub(crate) fn sha256(b: &[u8]) -> (r: Vec<u8>)
    ensures
        r@ == sha256_of(b@),
        r@.len() == 32,
{
    sha2::Sha256::digest(b).to_vec()
}

} // verus!
