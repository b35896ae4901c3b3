//! Messages in JSON: reading what stands at a place of a document, numbers, and
//! writing objects and lists.
//!
//! A place is named by a JSON pointer such as `/status/volume/level`. What a
//! document holds there is found by `serde_json`.

use vstd::prelude::*;
use vstd::string::*;
use crate::text::{chars_of, decimal, decimal_text, digit, digit_char, digit_value, is_digit, opt, string_of};

verus! {

// ---------------------------------------------------------------------------
// Reading
// ---------------------------------------------------------------------------

/// What keeps a text from being a JSON document, in words.
pub uninterp spec fn json_problem_in(doc: Seq<char>) -> Option<Seq<char>>;

/// Whether a text is a JSON document.
pub open spec fn is_json(doc: Seq<char>) -> bool {
    json_problem_in(doc) is None
}

/// The string at a place of a document.
pub uninterp spec fn json_text_at(doc: Seq<char>, place: Seq<char>) -> Option<Seq<char>>;

/// The truth value at a place of a document.
pub uninterp spec fn json_bool_at(doc: Seq<char>, place: Seq<char>) -> Option<bool>;

/// The whole number of 64 bits with a sign at a place of a document.
pub uninterp spec fn json_int_at(doc: Seq<char>, place: Seq<char>) -> Option<i64>;

/// The whole number of 64 bits without a sign at a place of a document.
pub uninterp spec fn json_nat_at(doc: Seq<char>, place: Seq<char>) -> Option<u64>;

/// Whether anything stands at a place of a document.
pub uninterp spec fn json_holds(doc: Seq<char>, place: Seq<char>) -> bool;

/// The number at a place of a document, in decimal.
pub uninterp spec fn json_number_at(doc: Seq<char>, place: Seq<char>) -> Option<Seq<char>>;

/// The length of the list at a place of a document.
pub uninterp spec fn json_list_at(doc: Seq<char>, place: Seq<char>) -> Option<nat>;

/// Whether an object stands at a place of a document.
pub uninterp spec fn json_object_at(doc: Seq<char>, place: Seq<char>) -> bool;

/// A text as a JSON string, with quotes.
pub uninterp spec fn json_quoted(s: Seq<char>) -> Seq<char>;

/// `serde_json::from_str` into a `Value`: whether it fails, and the error in words,
/// depends on the text alone.
#[verifier::external_body]
pub(crate) fn json_problem(doc: &str) -> (r: Option<String>)
    ensures
        opt(r) == json_problem_in(doc@),
{
    serde_json::from_str::<serde_json::Value>(doc).err().map(|e| e.to_string())
}

pub fn json_ok(doc: &str) -> (r: bool)
    ensures
        r == is_json(doc@),
{
    json_problem(doc).is_none()
}

/// `serde_json::Value::pointer` and `as_str`: the string at a place, which the
/// document and the place fix. A text that is no document holds nothing.
#[verifier::external_body]
pub(crate) fn json_text(doc: &str, place: &str) -> (r: Option<String>)
    ensures
        match r {
            Some(s) => json_text_at(doc@, place@) == Some(s@),
            None => json_text_at(doc@, place@) is None,
        },
{
    let v = serde_json::from_str::<serde_json::Value>(doc).ok()?;
    v.pointer(place)?.as_str().map(String::from)
}

/// `serde_json::Value::pointer` and `as_bool`: the truth value at a place, which
/// the document and the place fix.
#[verifier::external_body]
pub(crate) fn json_bool(doc: &str, place: &str) -> (r: Option<bool>)
    ensures
        r == json_bool_at(doc@, place@),
{
    let v = serde_json::from_str::<serde_json::Value>(doc).ok()?;
    v.pointer(place)?.as_bool()
}

/// `serde_json::Value::pointer` and `as_i64`: the whole number at a place, which
/// the document and the place fix.
#[verifier::external_body]
pub(crate) fn json_int(doc: &str, place: &str) -> (r: Option<i64>)
    ensures
        r == json_int_at(doc@, place@),
{
    let v = serde_json::from_str::<serde_json::Value>(doc).ok()?;
    v.pointer(place)?.as_i64()
}

/// `serde_json::Value::pointer` and `as_u64`: the whole number at a place, which
/// the document and the place fix.
#[verifier::external_body]
pub(crate) fn json_nat(doc: &str, place: &str) -> (r: Option<u64>)
    ensures
        r == json_nat_at(doc@, place@),
{
    let v = serde_json::from_str::<serde_json::Value>(doc).ok()?;
    v.pointer(place)?.as_u64()
}

/// `serde_json::Value::pointer`: whether anything stands at a place, which the
/// document and the place fix.
#[verifier::external_body]
pub(crate) fn json_has(doc: &str, place: &str) -> (r: bool)
    ensures
        r == json_holds(doc@, place@),
{
    match serde_json::from_str::<serde_json::Value>(doc) {
        Ok(v) => v.pointer(place).is_some(),
        Err(_) => false,
    }
}

/// `serde_json::Value::pointer`, `as_number` and the number as text: the number at
/// a place in decimal, which the document and the place fix.
#[verifier::external_body]
pub(crate) fn json_number(doc: &str, place: &str) -> (r: Option<String>)
    ensures
        match r {
            Some(s) => json_number_at(doc@, place@) == Some(s@),
            None => json_number_at(doc@, place@) is None,
        },
{
    let v = serde_json::from_str::<serde_json::Value>(doc).ok()?;
    v.pointer(place)?.as_number().map(|n| n.to_string())
}

/// `serde_json::Value::pointer` and `as_array`: the length of the list at a place,
/// which the document and the place fix.
#[verifier::external_body]
pub(crate) fn json_list(doc: &str, place: &str) -> (r: Option<usize>)
    ensures
        match r {
            Some(n) => json_list_at(doc@, place@) == Some(n as nat),
            None => json_list_at(doc@, place@) is None,
        },
{
    let v = serde_json::from_str::<serde_json::Value>(doc).ok()?;
    v.pointer(place)?.as_array().map(|a| a.len())
}

/// `serde_json::Value::pointer` and `is_object`: whether an object stands at a
/// place, which the document and the place fix.
#[verifier::external_body]
pub(crate) fn json_object(doc: &str, place: &str) -> (r: bool)
    ensures
        r == json_object_at(doc@, place@),
{
    match serde_json::from_str::<serde_json::Value>(doc) {
        Ok(v) => v.pointer(place).map(|p| p.is_object()).unwrap_or(false),
        Err(_) => false,
    }
}

/// `serde_json::Value::String` as text: the string in quotes and with escapes,
/// which the string fixes.
#[verifier::external_body]
pub(crate) fn json_quote(s: &str) -> (r: String)
    ensures
        r@ == json_quoted(s@),
{
    serde_json::Value::String(s.to_string()).to_string()
}

/// The place of an entry of a list.
pub open spec fn entry(list: Seq<char>, i: int) -> Seq<char> {
    list + "/"@ + decimal(i)
}

pub fn entry_of(list: &str, i: usize) -> (r: String)
    ensures
        r@ == entry(list@, i as int),
{
    let n = string_of(decimal_text(i as u64).as_slice());
    list.to_string().concat("/").concat(n.as_str())
}

/// The place of a part of what stands at a place.
pub open spec fn part(place: Seq<char>, rest: Seq<char>) -> Seq<char> {
    place + rest
}

pub fn part_of(place: &str, rest: &str) -> (r: String)
    ensures
        r@ == part(place@, rest@),
{
    place.to_string().concat(rest)
}

/// The string at a place, unless it is empty.
pub open spec fn filled_text_at(doc: Seq<char>, place: Seq<char>) -> Option<Seq<char>> {
    match json_text_at(doc, place) {
        Some(s) => if s.len() == 0 {
            None
        } else {
            Some(s)
        },
        None => None,
    }
}

pub fn filled_text(doc: &str, place: &str) -> (r: Option<String>)
    ensures
        opt(r) == filled_text_at(doc@, place@),
{
    match json_text(doc, place) {
        Some(s) => {
            if is_empty(s.as_str()) {
                None
            } else {
                Some(s)
            }
        },
        None => None,
    }
}

pub fn is_empty(s: &str) -> (r: bool)
    ensures
        r == (s@.len() == 0),
{
    chars_of(s).len() == 0
}

// ---------------------------------------------------------------------------
// Numbers
// ---------------------------------------------------------------------------

/// A number in decimal: digits, some of them behind a point, and a power of ten.
pub struct Number {
    pub negative: bool,
    pub digits: int,
    /// How often the digits are multiplied by ten.
    pub power: int,
}

/// Where the digits end that stand from a position on.
pub open spec fn digits_end(s: Seq<char>, i: int) -> int
    decreases s.len() - i,
{
    if i < 0 || i >= s.len() || !is_digit(s[i]) {
        i
    } else {
        digits_end(s, i + 1)
    }
}

/// The digits of a stretch of text behind those that were read before.
pub open spec fn read_digits(s: Seq<char>, from: int, to: int, before: int) -> int
    decreases to - from,
{
    if from >= to {
        before
    } else {
        10 * read_digits(s, from, to - 1, before) + digit_value(s[to - 1])
    }
}

/// The power behind an `e`, which may have a sign.
pub open spec fn read_power(s: Seq<char>, i: int) -> Option<int> {
    let from = if i < s.len() && (s[i] == '-' || s[i] == '+') {
        i + 1
    } else {
        i
    };
    let to = digits_end(s, from);
    if from < to && to == s.len() {
        let n = read_digits(s, from, to, 0);
        Some(
            if s[i] == '-' {
                -n
            } else {
                n
            },
        )
    } else {
        None
    }
}

/// The longest number that is read. One of 64 bits takes up to twenty-four
/// characters.
pub const MAX_NUMBER: usize = 32;

/// The number that a text stands for.
pub open spec fn number_in(s: Seq<char>) -> Option<Number> {
    let negative = s.len() > 0 && s[0] == '-';
    let a: int = if negative {
        1
    } else {
        0
    };
    let b = digits_end(s, a);
    let point = b < s.len() && s[b] == '.';
    let c = if point {
        digits_end(s, b + 1)
    } else {
        b
    };
    let whole = read_digits(s, a, b, 0);
    let digits = if point {
        read_digits(s, b + 1, c, whole)
    } else {
        whole
    };
    let behind = if point {
        c - (b + 1)
    } else {
        0
    };
    if s.len() > MAX_NUMBER || a == b || (point && behind == 0) {
        None
    } else if c == s.len() {
        Some(Number { negative, digits, power: -behind })
    } else if s[c] == 'e' {
        match read_power(s, c + 1) {
            Some(p) => Some(Number { negative, digits, power: p - behind }),
            None => None,
        }
    } else {
        None
    }
}

/// A number times a power of ten, without what is then behind the point.
pub open spec fn shifted(n: int, power: int) -> int
    decreases
            if power < 0 {
                -power
            } else {
                power
            },
{
    if power > 0 {
        shifted(10 * n, power - 1)
    } else if power < 0 {
        shifted(n / 10, power + 1)
    } else {
        n
    }
}

pub open spec fn capped(n: int) -> int {
    if n > u64::MAX {
        u64::MAX as int
    } else {
        n
    }
}

/// How many of a unit a number holds, when ten to the power of `unit` of them make
/// one: whole ones, none below zero, and at most what fits in 64 bits.
pub open spec fn units(v: Number, unit: int) -> int {
    if v.negative {
        0
    } else {
        capped(shifted(v.digits, v.power + unit))
    }
}

/// How many of a unit the number in a text holds.
pub open spec fn units_in(s: Seq<char>, unit: int) -> Option<int> {
    match number_in(s) {
        Some(v) => Some(units(v, unit)),
        None => None,
    }
}

spec fn pow10(n: int) -> int
    decreases n,
{
    if n <= 0 {
        1
    } else {
        10 * pow10(n - 1)
    }
}

proof fn lemma_pow10_grows(a: int, b: int)
    requires
        a <= b,
    ensures
        1 <= pow10(a) <= pow10(b),
    decreases b,
{
    if b > 0 && a < b {
        lemma_pow10_grows(a, b - 1);
    } else if a > 0 {
        lemma_pow10_grows(a - 1, b - 1);
    }
}

proof fn lemma_pow10_limit(n: int)
    requires
        n <= 32,
    ensures
        pow10(n) <= 100_000_000_000_000_000_000_000_000_000_000,
{
    lemma_pow10_grows(n, 32);
    reveal_with_fuel(pow10, 34);
}

proof fn lemma_shifted_up(n: int, power: int)
    requires
        n >= 0,
        power >= 0,
    ensures
        shifted(n, power) >= n,
    decreases power,
{
    if power > 0 {
        lemma_shifted_up(10 * n, power - 1);
    }
}

proof fn lemma_shifted_zero(power: int)
    ensures
        shifted(0, power) == 0,
    decreases
            if power < 0 {
                -power
            } else {
                power
            },
{
    if power > 0 {
        lemma_shifted_zero(power - 1);
    } else if power < 0 {
        lemma_shifted_zero(power + 1);
    }
}

fn shift(n: u128, power: i128) -> (r: u64)
    requires
        power > i128::MIN,
    ensures
        r == capped(shifted(n as int, power as int)),
{
    let mut m: u128 = n;
    let mut p: i128 = power;
    while p != 0
        invariant
            p > i128::MIN,
            shifted(m as int, p as int) == shifted(n as int, power as int),
        decreases
            if p < 0 {
                -p
            } else {
                p as int
            },
    {
        if m == 0 {
            proof {
                lemma_shifted_zero(p as int);
            }
            return 0;
        }
        if p > 0 {
            if m > u64::MAX as u128 {
                proof {
                    lemma_shifted_up(m as int, p as int);
                }
                return u64::MAX;
            }
            m = 10 * m;
            p = p - 1;
        } else {
            m = m / 10;
            p = p + 1;
        }
    }
    if m > u64::MAX as u128 {
        u64::MAX
    } else {
        m as u64
    }
}

fn skip_digits(s: &[char], from: usize) -> (r: usize)
    requires
        from <= s.len(),
    ensures
        r == digits_end(s@, from as int),
        from <= r <= s.len(),
        forall|k: int| from <= k < r ==> is_digit(#[trigger] s@[k]),
{
    let mut i: usize = from;
    while i < s.len() && '0' <= s[i] && s[i] <= '9'
        invariant
            from <= i <= s.len(),
            digits_end(s@, from as int) == digits_end(s@, i as int),
            forall|k: int| from <= k < i ==> is_digit(#[trigger] s@[k]),
        decreases s.len() - i,
    {
        i = i + 1;
    }
    i
}

fn collect_digits(s: &[char], from: usize, to: usize, before: u128, Ghost(used): Ghost<int>) -> (r: u128)
    requires
        from <= to <= s.len() <= MAX_NUMBER,
        forall|k: int| from <= k < to ==> is_digit(#[trigger] s@[k]),
        0 <= used,
        before < pow10(used),
        used + (to - from) <= 32,
    ensures
        r == read_digits(s@, from as int, to as int, before as int),
        r < pow10(used + (to - from)),
{
    let mut n: u128 = before;
    let mut i: usize = from;
    while i < to
        invariant
            from <= i <= to <= s.len() <= MAX_NUMBER,
            forall|k: int| from <= k < to ==> is_digit(#[trigger] s@[k]),
            0 <= used,
            used + (to - from) <= 32,
            n < pow10(used + (i - from)),
            n == read_digits(s@, from as int, i as int, before as int),
        decreases to - i,
    {
        proof {
            assert(is_digit(s@[i as int]));
            lemma_pow10_limit(used + (i + 1 - from));
        }
        let d: u128 = (s[i] as u32 - 48) as u128;
        n = 10 * n + d;
        i = i + 1;
    }
    n
}

fn read_number(s: &[char]) -> (r: Option<(bool, u128, i128)>)
    ensures
        match r {
            Some(v) => number_in(s@) == Some(Number { negative: v.0, digits: v.1 as int, power: v.2 as int })
                && -1_000_000_000_000_000_000_000_000_000_000_000 < v.2
                < 1_000_000_000_000_000_000_000_000_000_000_000,
            None => number_in(s@) is None,
        },
{
    if s.len() > MAX_NUMBER {
        return None;
    }
    let negative: bool = s.len() > 0 && s[0] == '-';
    let a: usize = if negative {
        1
    } else {
        0
    };
    let b: usize = skip_digits(s, a);
    if a == b {
        return None;
    }
    let whole: u128 = collect_digits(s, a, b, 0, Ghost(0));
    let point: bool = b < s.len() && s[b] == '.';
    let mut c: usize = b;
    let mut digits: u128 = whole;
    let mut behind: i128 = 0;
    if point {
        c = skip_digits(s, b + 1);
        if c == b + 1 {
            return None;
        }
        digits = collect_digits(s, b + 1, c, whole, Ghost(b - a));
        behind = (c - (b + 1)) as i128;
    }
    let mut power: i128 = 0;
    if c < s.len() {
        if s[c] != 'e' {
            return None;
        }
        let signed: bool = c + 1 < s.len() && (s[c + 1] == '-' || s[c + 1] == '+');
        let from: usize = if signed {
            c + 2
        } else {
            c + 1
        };
        let to: usize = skip_digits(s, from);
        if from == to || to != s.len() {
            return None;
        }
        let p: u128 = collect_digits(s, from, to, 0, Ghost(0));
        proof {
            lemma_pow10_limit((to - from) as int);
        }
        power = if s[c + 1] == '-' {
            -(p as i128)
        } else {
            p as i128
        };
    }
    Some((negative, digits, power - behind))
}

/// How many of a unit the number in a text holds.
pub fn read_units(s: &[char], unit: u8) -> (r: Option<u64>)
    ensures
        match r {
            Some(n) => units_in(s@, unit as int) == Some(n as int),
            None => units_in(s@, unit as int) is None,
        },
{
    match read_number(s) {
        Some((negative, digits, power)) => {
            if negative {
                Some(0)
            } else {
                Some(shift(digits, power + unit as i128))
            }
        },
        None => None,
    }
}

/// Whether a text is a number above zero.
pub open spec fn is_positive(s: Seq<char>) -> bool {
    number_in(s) matches Some(v) && !v.negative && v.digits > 0
}

pub fn read_positive(s: &[char]) -> (r: bool)
    ensures
        r == is_positive(s@),
{
    match read_number(s) {
        Some((negative, digits, _)) => !negative && digits > 0,
        None => false,
    }
}

/// A number without the sign before it.
pub open spec fn without_sign(s: Seq<char>) -> Seq<char> {
    if s.len() > 0 && s[0] == '-' {
        s.skip(1)
    } else {
        s
    }
}

/// A number with the sign of a text.
pub open spec fn with_sign(s: Seq<char>, n: int) -> int {
    if s.len() > 0 && s[0] == '-' {
        -n
    } else {
        n
    }
}

/// How many of a unit the number in a text holds, below zero too, as far as 64 bits
/// reach.
pub open spec fn signed_units_in(s: Seq<char>, unit: int) -> Option<int> {
    match units_in(without_sign(s), unit) {
        Some(n) => Some(
            with_sign(
                s,
                if n > i64::MAX {
                    i64::MAX as int
                } else {
                    n
                },
            ),
        ),
        None => None,
    }
}

fn drop_sign(s: &[char]) -> (r: (bool, Vec<char>))
    ensures
        r.0 == (s@.len() > 0 && s@[0] == '-'),
        r.1@ == without_sign(s@),
{
    let negative: bool = s.len() > 0 && s[0] == '-';
    let from: usize = if negative {
        1
    } else {
        0
    };
    let rest = crate::text::copy_range(s, from, s.len());
    proof {
        assert(rest@ =~= without_sign(s@));
    }
    (negative, rest)
}

/// How many of a unit the number in a text holds, below zero too.
pub fn read_signed_units(s: &[char], unit: u8) -> (r: Option<i64>)
    ensures
        match r {
            Some(n) => signed_units_in(s@, unit as int) == Some(n as int),
            None => signed_units_in(s@, unit as int) is None,
        },
{
    let (negative, rest) = drop_sign(s);
    match read_units(rest.as_slice(), unit) {
        Some(n) => {
            let m: i64 = if n > i64::MAX as u64 {
                i64::MAX
            } else {
                n as i64
            };
            Some(
                if negative {
                    -m
                } else {
                    m
                },
            )
        },
        None => None,
    }
}

/// The level that a number stands for, in millionths, to the nearest one.
pub open spec fn level_in(s: Seq<char>) -> Option<int> {
    match units_in(without_sign(s), 7) {
        Some(n) => Some(with_sign(s, (n + 5) / 10)),
        None => None,
    }
}

pub fn read_level(s: &[char]) -> (r: Option<i64>)
    ensures
        match r {
            Some(n) => level_in(s@) == Some(n as int),
            None => level_in(s@) is None,
        },
{
    let (negative, rest) = drop_sign(s);
    match read_units(rest.as_slice(), 7) {
        Some(n) => {
            let m: i64 = ((n as u128 + 5) / 10) as i64;
            Some(
                if negative {
                    -m
                } else {
                    m
                },
            )
        },
        None => None,
    }
}

/// The text of a number of thousandths or the like: `n` divided by ten to the power
/// of `places`, with no zeros at its end but one behind the point.
pub open spec fn fraction(n: int, places: int) -> Seq<char>
    decreases places,
{
    if places <= 1 {
        decimal(n / 10) + "."@ + seq![digit_char(n % 10)]
    } else if n % 10 == 0 {
        fraction(n / 10, places - 1)
    } else {
        fraction_full(n / 10, places - 1).push(digit_char(n % 10))
    }
}

/// The same with all its places.
pub open spec fn fraction_full(n: int, places: int) -> Seq<char>
    decreases places,
{
    if places <= 1 {
        decimal(n / 10) + "."@ + seq![digit_char(n % 10)]
    } else {
        fraction_full(n / 10, places - 1).push(digit_char(n % 10))
    }
}

fn full_text(n: u64, places: u8) -> (r: Vec<char>)
    requires
        places >= 1,
    ensures
        r@ == fraction_full(n as int, places as int),
    decreases places,
{
    if places <= 1 {
        let mut v = decimal_text(n / 10);
        let mut p = chars_of(".");
        v.append(&mut p);
        v.push(digit(n % 10));
        proof {
            assert(v@ =~= decimal(n as int / 10) + "."@ + seq![digit_char(n as int % 10)]);
        }
        v
    } else {
        let mut v = full_text(n / 10, places - 1);
        v.push(digit(n % 10));
        v
    }
}

pub fn fraction_text(n: u64, places: u8) -> (r: Vec<char>)
    requires
        places >= 1,
    ensures
        r@ == fraction(n as int, places as int),
    decreases places,
{
    if places <= 1 {
        full_text(n, 1)
    } else if n % 10 == 0 {
        fraction_text(n / 10, places - 1)
    } else {
        let mut v = full_text(n / 10, places - 1);
        v.push(digit(n % 10));
        v
    }
}

// ---------------------------------------------------------------------------
// Writing
// ---------------------------------------------------------------------------

/// The start of an object.
pub open spec fn opened() -> Seq<char> {
    seq!['{']
}

/// An object that is being written with one more field.
pub open spec fn with_field(object: Seq<char>, key: Seq<char>, value: Seq<char>) -> Seq<char> {
    object + (if object.len() > 1 {
        ",\""@
    } else {
        "\""@
    }) + key + "\":"@ + value
}

/// An object that has been written.
pub open spec fn closed(object: Seq<char>) -> Seq<char> {
    object.push('}')
}

/// An object with one field more, a string.
pub open spec fn with_text(object: Seq<char>, key: Seq<char>, value: Seq<char>) -> Seq<char> {
    with_field(object, key, json_quoted(value))
}

/// A number with its sign.
pub open spec fn with_int(object: Seq<char>, key: Seq<char>, value: int) -> Seq<char> {
    with_field(object, key, crate::text::signed_decimal(value))
}

pub open spec fn bool_text(b: bool) -> Seq<char> {
    if b {
        "true"@
    } else {
        "false"@
    }
}

pub fn bool_str(b: bool) -> (r: &'static str)
    ensures
        r@ == bool_text(b),
{
    if b {
        "true"
    } else {
        "false"
    }
}

/// An object that is being written.
#[derive(Debug)]
pub struct ObjectText {
    pub text: String,
}

impl ObjectText {
    pub fn new() -> (r: ObjectText)
        ensures
            r.text@ == opened(),
    {
        let t = "{".to_string();
        proof {
            reveal_strlit("{");
            assert(t@ =~= opened());
        }
        ObjectText { text: t }
    }

    pub fn field(self, key: &str, value: &str) -> (r: ObjectText)
        ensures
            r.text@ == with_field(self.text@, key@, value@),
    {
        let more: bool = chars_of(self.text.as_str()).len() > 1;
        let t = self.text.concat(
            if more {
                ",\""
            } else {
                "\""
            },
        );
        ObjectText { text: t.concat(key).concat("\":").concat(value) }
    }

    pub fn text(self, key: &str, value: &str) -> (r: ObjectText)
        ensures
            r.text@ == with_text(self.text@, key@, value@),
    {
        let q = json_quote(value);
        self.field(key, q.as_str())
    }

    pub fn number(self, key: &str, value: i64) -> (r: ObjectText)
        ensures
            r.text@ == with_int(self.text@, key@, value as int),
    {
        let n = string_of(crate::text::signed_decimal_text(value).as_slice());
        self.field(key, n.as_str())
    }

    pub fn done(self) -> (r: String)
        ensures
            r@ == closed(self.text@),
    {
        let t = self.text.concat("}");
        proof {
            reveal_strlit("}");
            assert(t@ =~= closed(self.text@));
        }
        t
    }
}

/// The first `n` values of a list, with commas between them.
pub open spec fn list_items(values: Seq<Seq<char>>, n: int) -> Seq<char>
    decreases n,
{
    if n <= 0 {
        Seq::empty()
    } else if n == 1 {
        values[0]
    } else {
        list_items(values, n - 1) + ","@ + values[n - 1]
    }
}

/// A list.
pub open spec fn list_of(values: Seq<Seq<char>>) -> Seq<char> {
    "["@ + list_items(values, values.len() as int) + "]"@
}

pub fn list_text(values: &Vec<String>) -> (r: String)
    ensures
        r@ == list_of(crate::text::texts(values@)),
{
    let ghost m = crate::text::texts(values@);
    let mut out = String::new();
    let mut i: usize = 0;
    while i < values.len()
        invariant
            i <= values@.len(),
            m == crate::text::texts(values@),
            out@ == list_items(m, i as int),
        decreases values@.len() - i,
    {
        proof {
            assert(m[i as int] == values@[i as int]@);
        }
        if i > 0 {
            out.append(",");
            out.append(values[i].as_str());
        } else {
            out.append(values[i].as_str());
            proof {
                assert(out@ =~= m[0]);
            }
        }
        i = i + 1;
    }
    "[".to_string().concat(out.as_str()).concat("]")
}

// ---------------------------------------------------------------------------
// Numbers that are written are read back
// ---------------------------------------------------------------------------

/// Whether a text is digits with a point among them, at a place, that stand for a number when
/// the point is left out.
spec fn pointed(s: Seq<char>, b: int, v: int) -> bool {
    &&& 0 < b < s.len() - 1
    &&& s[b] == '.'
    &&& forall|i: int| 0 <= i < s.len() && i != b ==> is_digit(#[trigger] s[i])
    &&& read_digits(s, b + 1, s.len() as int, read_digits(s, 0, b, 0)) == v
    &&& v >= 0
}

proof fn lemma_same_digits(s: Seq<char>, t: Seq<char>, from: int, to: int, before: int)
    requires
        0 <= from,
        to <= s.len(),
        to <= t.len(),
        forall|i: int| from <= i < to ==> s[i] == t[i],
    ensures
        read_digits(s, from, to, before) == read_digits(t, from, to, before),
    decreases to - from,
{
    if from < to {
        lemma_same_digits(s, t, from, to - 1, before);
    }
}

proof fn lemma_read_decimal(n: int)
    requires
        0 <= n,
    ensures
        read_digits(decimal(n), 0, decimal(n).len() as int, 0) == n,
    decreases n,
{
    let s = decimal(n);
    if n >= 10 {
        lemma_read_decimal(n / 10);
        let t = decimal(n / 10);
        lemma_same_digits(s, t, 0, t.len() as int, 0);
        assert(s.len() == t.len() + 1);
        assert(s[s.len() - 1] == digit_char(n % 10));
    } else {
        assert(s.len() == 1);
        assert(read_digits(s, 0, 0, 0) == 0);
    }
}

proof fn lemma_pointed_pushed(s: Seq<char>, b: int, v: int, d: int)
    requires
        pointed(s, b, v),
        0 <= d <= 9,
    ensures
        pointed(s.push(digit_char(d)), b, 10 * v + d),
{
    let t = s.push(digit_char(d));
    lemma_same_digits(s, t, 0, b, 0);
    lemma_same_digits(s, t, b + 1, s.len() as int, read_digits(s, 0, b, 0));
    assert(t[t.len() - 1] == digit_char(d));
}

proof fn lemma_pointed_base(n: int)
    requires
        0 <= n,
    ensures
        ({
            let s = decimal(n / 10) + "."@ + seq![digit_char(n % 10)];
            pointed(s, s.len() - 2, n)
        }),
{
    reveal_strlit(".");
    let w = decimal(n / 10);
    let s = w + "."@ + seq![digit_char(n % 10)];
    crate::text::law_decimal_round_trip(n / 10);
    lemma_read_decimal(n / 10);
    let b = w.len() as int;
    lemma_same_digits(s, w, 0, b, 0);
    assert(s[b] == '.');
    assert(s[b + 1] == digit_char(n % 10));
    assert(read_digits(s, b + 1, b + 1, n / 10) == n / 10);
    assert forall|i: int| 0 <= i < s.len() && i != b implies is_digit(#[trigger] s[i]) by {
        if i < b {
            assert(s[i] == w[i]);
            assert(is_digit(w[i]));
        }
    }
}

proof fn lemma_full_pointed(n: int, places: int)
    requires
        0 <= n,
        1 <= places,
    ensures
        ({
            let s = fraction_full(n, places);
            pointed(s, s.len() - 1 - places, n)
        }),
    decreases places,
{
    if places <= 1 {
        lemma_pointed_base(n);
    } else {
        lemma_full_pointed(n / 10, places - 1);
        let s = fraction_full(n / 10, places - 1);
        lemma_pointed_pushed(s, s.len() - 1 - (places - 1), n / 10, n % 10);
    }
}

proof fn lemma_fraction_pointed(n: int, places: int) -> (r: (int, int))
    requires
        0 <= n,
        1 <= places,
    ensures
        ({
            let s = fraction(n, places);
            let (k, v) = r;
            &&& 1 <= k <= places
            &&& pointed(s, s.len() - 1 - k, v)
            &&& v * pow10(places - k) == n
        }),
    decreases places,
{
    if places <= 1 {
        lemma_pointed_base(n);
        assert(pow10(0) == 1);
        (1, n)
    } else if n % 10 == 0 {
        let (k, v) = lemma_fraction_pointed(n / 10, places - 1);
        let p = pow10(places - 1 - k);
        assert(pow10(places - k) == 10 * p);
        assert(v * (10 * p) == 10 * (v * p)) by (nonlinear_arith);
        (k, v)
    } else {
        lemma_full_pointed(n / 10, places - 1);
        let s = fraction_full(n / 10, places - 1);
        lemma_pointed_pushed(s, s.len() - 1 - (places - 1), n / 10, n % 10);
        assert(pow10(0) == 1);
        assert(n * 1 == n);
        (places, n)
    }
}

proof fn lemma_digits_to(s: Seq<char>, i: int, e: int)
    requires
        0 <= i <= e <= s.len(),
        forall|j: int| i <= j < e ==> is_digit(#[trigger] s[j]),
        e < s.len() ==> !is_digit(s[e]),
    ensures
        digits_end(s, i) == e,
    decreases e - i,
{
    if i < e {
        lemma_digits_to(s, i + 1, e);
    }
}

proof fn lemma_times_ten(n: int, power: int)
    requires
        0 <= power,
    ensures
        shifted(n, power) == n * pow10(power),
    decreases power,
{
    if power > 0 {
        lemma_times_ten(10 * n, power - 1);
        let p = pow10(power - 1);
        assert((10 * n) * p == n * (10 * p)) by (nonlinear_arith);
    } else {
        assert(n * 1 == n);
    }
}

proof fn lemma_decimal_len(n: int, k: int)
    requires
        0 <= n < pow10(k),
        1 <= k,
    ensures
        decimal(n).len() <= k,
    decreases k,
{
    if n >= 10 {
        assert(k > 1) by {
            if k == 1 {
                assert(pow10(0) == 1);
                assert(pow10(1) == 10);
            }
        }
        assert(n / 10 < pow10(k - 1));
        lemma_decimal_len(n / 10, k - 1);
    }
}

proof fn lemma_fraction_len(n: int, places: int)
    requires
        0 <= n <= u64::MAX,
        1 <= places <= 10,
    ensures
        fraction(n, places).len() <= 22 + places,
        fraction_full(n, places).len() <= 22 + places,
    decreases places,
{
    if places <= 1 {
        reveal_strlit(".");
        assert(pow10(20) == 100_000_000_000_000_000_000) by {
            reveal_with_fuel(pow10, 22);
        }
        lemma_decimal_len(n / 10, 20);
    } else {
        lemma_fraction_len(n / 10, places - 1);
    }
}

/// A number that is written with a point is read back as the same number of its smallest unit:
/// a level of so many millionths, or a time of so many milliseconds.
pub proof fn law_written_numbers_are_read_back(n: int, places: int)
    requires
        0 <= n <= u64::MAX,
        1 <= places <= 10,
    ensures
        units_in(fraction(n, places), places) == Some(n),
{
    let s = fraction(n, places);
    let (k, v) = lemma_fraction_pointed(n, places);
    let b = s.len() - 1 - k;
    lemma_fraction_len(n, places);
    assert(is_digit(s[0]));
    lemma_digits_to(s, 0, b);
    lemma_digits_to(s, b + 1, s.len() as int);
    assert(number_in(s) == Some(Number { negative: false, digits: v, power: -k }));
    lemma_times_ten(v, places - k);
}

/// A whole number is so many of its units, and with a minus sign before it none.
pub proof fn law_whole_numbers_are_read(n: int, places: int)
    requires
        0 <= n,
        0 <= places <= 10,
        n < 1_000_000_000,
    ensures
        units_in(decimal(n), places) matches Some(x) && (places == 0 ==> x == n) && (places == 3 ==> x == 1_000 * n) && (
        places == 6 ==> x == 1_000_000 * n),
        units_in(seq!['-'] + decimal(n), places) == Some(0int),
{
    let s = decimal(n);
    let t = seq!['-'] + s;
    crate::text::law_decimal_round_trip(n);
    lemma_read_decimal(n);
    assert(pow10(9) == 1_000_000_000) by {
        reveal_with_fuel(pow10, 11);
    }
    lemma_decimal_len(n, 9);
    assert(is_digit(s[0]));
    lemma_digits_to(s, 0, s.len() as int);
    assert(number_in(s) == Some(Number { negative: false, digits: n, power: 0 }));
    lemma_times_ten(n, places);
    reveal_with_fuel(pow10, 8);
    assert(pow10(0) == 1 && pow10(3) == 1_000 && pow10(6) == 1_000_000);
    assert(shifted(n, places) == n * pow10(places));
    assert forall|j: int| 1 <= j < t.len() implies is_digit(#[trigger] t[j]) by {
        assert(t[j] == s[j - 1]);
    }
    lemma_digits_to(t, 1, t.len() as int);
    assert(number_in(t) is Some);
}

/// An object is its fields between braces, each with its name in quotation marks and a colon,
/// and commas between them.
pub proof fn law_how_objects_are_written(k1: Seq<char>, v1: Seq<char>, k2: Seq<char>, v2: Seq<char>)
    ensures
        closed(with_field(opened(), k1, v1)) == seq!['{', '"'] + k1 + seq!['"', ':'] + v1 + seq!['}'],
        closed(with_field(with_field(opened(), k1, v1), k2, v2)) == seq!['{', '"'] + k1 + seq!['"', ':'] + v1 + seq![
            ',',
            '"',
        ] + k2 + seq!['"', ':'] + v2 + seq!['}'],
{
    reveal_strlit(",\"");
    reveal_strlit("\"");
    reveal_strlit("\":");
    assert(closed(with_field(opened(), k1, v1)) =~= seq!['{', '"'] + k1 + seq!['"', ':'] + v1 + seq!['}']);
    assert(closed(with_field(with_field(opened(), k1, v1), k2, v2)) =~= seq!['{', '"'] + k1 + seq!['"', ':'] + v1 + seq![
        ',',
        '"',
    ] + k2 + seq!['"', ':'] + v2 + seq!['}']);
}

} // verus!
