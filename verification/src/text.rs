//! Text as sequences of characters: trimming, cutting, searching, replacing and
//! numbers in decimal and hexadecimal.

use vstd::prelude::*;

verus! {

// ---------------------------------------------------------------------------
// Strings and characters
// ---------------------------------------------------------------------------

/// `String::push` appends one character.
pub assume_specification[ String::push ](s: &mut String, c: char)
    ensures
        final(s)@ == old(s)@.push(c),
;

/// The characters of a string.
pub fn chars_of(s: &str) -> (r: Vec<char>)
    ensures
        r@ == s@,
{
    let mut out: Vec<char> = Vec::new();
    for c in it: s.chars()
        invariant
            out@ == it.seq().take(it.index() as int),
            it.seq() == s@,
    {
        out.push(c);
    }
    proof {
        assert(s@.take(s@.len() as int) =~= s@);
    }
    out
}

/// A string made of the given characters.
pub fn string_of(s: &[char]) -> (r: String)
    ensures
        r@ == s@,
{
    let mut out = String::new();
    let mut i: usize = 0;
    while i < s.len()
        invariant
            i <= s.len(),
            out@ == s@.take(i as int),
        decreases s.len() - i,
    {
        out.push(s[i]);
        proof {
            assert(s@.take(i + 1) =~= s@.take(i as int).push(s@[i as int]));
        }
        i = i + 1;
    }
    proof {
        assert(s@.take(s@.len() as int) =~= s@);
    }
    out
}

/// A copy of `s[from..to]`.
pub fn copy_range(s: &[char], from: usize, to: usize) -> (r: Vec<char>)
    requires
        from <= to <= s.len(),
    ensures
        r@ == s@.subrange(from as int, to as int),
{
    let mut out: Vec<char> = Vec::new();
    let mut i: usize = from;
    while i < to
        invariant
            from <= i <= to <= s.len(),
            out@ == s@.subrange(from as int, i as int),
        decreases to - i,
    {
        out.push(s[i]);
        proof {
            assert(s@.subrange(from as int, i + 1) =~= s@.subrange(from as int, i as int).push(s@[i as int]));
        }
        i = i + 1;
    }
    out
}

/// Whether two pieces of text are the same.
pub fn same(a: &[char], b: &[char]) -> (r: bool)
    ensures
        r == (a@ == b@),
{
    if a.len() != b.len() {
        return false;
    }
    let mut i: usize = 0;
    while i < a.len()
        invariant
            i <= a.len(),
            a.len() == b.len(),
            forall|j: int| 0 <= j < i ==> a@[j] == b@[j],
        decreases a.len() - i,
    {
        if a[i] != b[i] {
            return false;
        }
        i = i + 1;
    }
    proof {
        assert(a@ =~= b@);
    }
    true
}

/// Whether a piece of text equals a string.
pub fn is_str(a: &[char], b: &str) -> (r: bool)
    ensures
        r == (a@ == b@),
{
    let c = chars_of(b);
    same(a, c.as_slice())
}

/// Whether two strings hold the same text.
pub fn str_same(a: &str, b: &str) -> (r: bool)
    ensures
        r == (a@ == b@),
{
    let c = chars_of(a);
    is_str(c.as_slice(), b)
}

// ---------------------------------------------------------------------------
// Case
// ---------------------------------------------------------------------------

/// The ASCII upper-case form of a character; other characters stay.
pub open spec fn upper_char(c: char) -> char {
    if 'a' <= c <= 'z' {
        ((c as u32 - 32) as u32) as char
    } else {
        c
    }
}

/// The ASCII lower-case form of a character; other characters stay.
pub open spec fn lower_char(c: char) -> char {
    if 'A' <= c <= 'Z' {
        ((c as u32 + 32) as u32) as char
    } else {
        c
    }
}

/// Text with its ASCII letters in upper case.
pub open spec fn upper(s: Seq<char>) -> Seq<char> {
    s.map_values(|c: char| upper_char(c))
}

/// Text with its ASCII letters in lower case.
pub open spec fn lower(s: Seq<char>) -> Seq<char> {
    s.map_values(|c: char| lower_char(c))
}

pub fn to_upper_char(c: char) -> (r: char)
    ensures
        r == upper_char(c),
{
    if 'a' <= c && c <= 'z' {
        let n: u8 = c as u8;
        (n - 32) as char
    } else {
        c
    }
}

pub fn to_lower_char(c: char) -> (r: char)
    ensures
        r == lower_char(c),
{
    if 'A' <= c && c <= 'Z' {
        let n: u8 = c as u8;
        (n + 32) as char
    } else {
        c
    }
}

pub fn to_upper(s: &[char]) -> (r: Vec<char>)
    ensures
        r@ == upper(s@),
{
    let mut out: Vec<char> = Vec::new();
    let mut i: usize = 0;
    while i < s.len()
        invariant
            i <= s.len(),
            out@ == upper(s@.take(i as int)),
        decreases s.len() - i,
    {
        out.push(to_upper_char(s[i]));
        proof {
            assert(upper(s@.take(i + 1)) =~= upper(s@.take(i as int)).push(upper_char(s@[i as int])));
        }
        i = i + 1;
    }
    proof {
        assert(s@.take(s@.len() as int) =~= s@);
    }
    out
}

pub fn to_lower(s: &[char]) -> (r: Vec<char>)
    ensures
        r@ == lower(s@),
{
    let mut out: Vec<char> = Vec::new();
    let mut i: usize = 0;
    while i < s.len()
        invariant
            i <= s.len(),
            out@ == lower(s@.take(i as int)),
        decreases s.len() - i,
    {
        out.push(to_lower_char(s[i]));
        proof {
            assert(lower(s@.take(i + 1)) =~= lower(s@.take(i as int)).push(lower_char(s@[i as int])));
        }
        i = i + 1;
    }
    proof {
        assert(s@.take(s@.len() as int) =~= s@);
    }
    out
}

// ---------------------------------------------------------------------------
// White space
// ---------------------------------------------------------------------------

/// Characters with the Unicode property `White_Space`.
pub open spec fn is_space(c: char) -> bool {
    ||| '\u{9}' <= c <= '\u{d}'
    ||| c == ' '
    ||| c == '\u{85}'
    ||| c == '\u{a0}'
    ||| c == '\u{1680}'
    ||| '\u{2000}' <= c <= '\u{200a}'
    ||| c == '\u{2028}'
    ||| c == '\u{2029}'
    ||| c == '\u{202f}'
    ||| c == '\u{205f}'
    ||| c == '\u{3000}'
}

pub fn space(c: char) -> (r: bool)
    ensures
        r == is_space(c),
{
    ('\u{9}' <= c && c <= '\u{d}') || c == ' ' || c == '\u{85}' || c == '\u{a0}' || c == '\u{1680}' || (
    '\u{2000}' <= c && c <= '\u{200a}') || c == '\u{2028}' || c == '\u{2029}' || c == '\u{202f}' || c
        == '\u{205f}' || c == '\u{3000}'
}

/// Text without its leading white space.
pub open spec fn trim_start(s: Seq<char>) -> Seq<char>
    decreases s.len(),
{
    if s.len() > 0 && is_space(s[0]) {
        trim_start(s.subrange(1, s.len() as int))
    } else {
        s
    }
}

/// Text without its trailing white space.
pub open spec fn trim_end(s: Seq<char>) -> Seq<char>
    decreases s.len(),
{
    if s.len() > 0 && is_space(s[s.len() - 1]) {
        trim_end(s.subrange(0, s.len() - 1))
    } else {
        s
    }
}

/// Text without white space at either end.
pub open spec fn trim(s: Seq<char>) -> Seq<char> {
    trim_end(trim_start(s))
}

/// Where the text starts and ends once white space is cut off at both ends.
pub fn trim_range(s: &[char]) -> (r: (usize, usize))
    ensures
        r.0 <= r.1 <= s.len(),
        s@.subrange(r.0 as int, r.1 as int) == trim(s@),
{
    let mut a: usize = 0;
    proof {
        assert(s@.subrange(0, s@.len() as int) =~= s@);
    }
    while a < s.len() && space(s[a])
        invariant
            a <= s.len(),
            trim_start(s@) == trim_start(s@.subrange(a as int, s@.len() as int)),
        decreases s.len() - a,
    {
        proof {
            let t = s@.subrange(a as int, s@.len() as int);
            assert(t.subrange(1, t.len() as int) =~= s@.subrange(a + 1, s@.len() as int));
        }
        a = a + 1;
    }
    let mut b: usize = s.len();
    while b > a && space(s[b - 1])
        invariant
            a <= b <= s.len(),
            trim(s@) == trim_end(s@.subrange(a as int, b as int)),
        decreases b,
    {
        proof {
            let t = s@.subrange(a as int, b as int);
            assert(t.subrange(0, t.len() - 1) =~= s@.subrange(a as int, b - 1));
        }
        b = b - 1;
    }
    (a, b)
}

pub fn trimmed(s: &[char]) -> (r: Vec<char>)
    ensures
        r@ == trim(s@),
{
    let (a, b) = trim_range(s);
    copy_range(s, a, b)
}

/// A string without white space at either end.
pub fn trim_str(s: &str) -> (r: String)
    ensures
        r@ == trim(s@),
{
    let c = chars_of(s);
    let t = trimmed(c.as_slice());
    string_of(t.as_slice())
}

/// Trimmed text has no white space at its ends, so trimming again changes nothing.
pub proof fn law_trim_twice(s: Seq<char>)
    ensures
        trim(trim(s)) == trim(s),
{
    lemma_trim_start_ends(s);
    let t = trim_start(s);
    lemma_trim_end_ends(t);
    let u = trim_end(t);
    if u.len() > 0 {
        assert(u[0] == t[0]);
    }
    assert(trim_start(u) == u);
    assert(trim_end(u) == u);
}

proof fn lemma_trim_start_ends(s: Seq<char>)
    ensures
        trim_start(s).len() > 0 ==> !is_space(trim_start(s)[0]),
    decreases s.len(),
{
    if s.len() > 0 && is_space(s[0]) {
        lemma_trim_start_ends(s.subrange(1, s.len() as int));
    }
}

proof fn lemma_trim_end_ends(s: Seq<char>)
    ensures
        trim_end(s).len() <= s.len(),
        trim_end(s).len() > 0 ==> !is_space(trim_end(s)[trim_end(s).len() - 1]),
        forall|i: int| 0 <= i < trim_end(s).len() ==> trim_end(s)[i] == s[i],
    decreases s.len(),
{
    if s.len() > 0 && is_space(s[s.len() - 1]) {
        let t = s.subrange(0, s.len() - 1);
        lemma_trim_end_ends(t);
        assert forall|i: int| 0 <= i < trim_end(s).len() implies trim_end(s)[i] == s[i] by {
            assert(trim_end(t)[i] == t[i]);
        }
    }
}

// ---------------------------------------------------------------------------
// Searching and cutting
// ---------------------------------------------------------------------------

/// The first position from `from` on that holds `c`, or the length of the text.
pub open spec fn position(s: Seq<char>, c: char, from: int) -> int
    decreases s.len() - from,
{
    if from >= s.len() {
        s.len() as int
    } else if s[from] == c {
        from
    } else {
        position(s, c, from + 1)
    }
}

pub proof fn lemma_position(s: Seq<char>, c: char, from: int)
    requires
        0 <= from <= s.len(),
    ensures
        from <= position(s, c, from) <= s.len(),
        position(s, c, from) < s.len() ==> s[position(s, c, from)] == c,
        forall|i: int| from <= i < position(s, c, from) ==> s[i] != c,
    decreases s.len() - from,
{
    if from < s.len() && s[from] != c {
        lemma_position(s, c, from + 1);
    }
}

pub fn find_char(s: &[char], c: char, from: usize) -> (r: usize)
    requires
        from <= s.len(),
    ensures
        r == position(s@, c, from as int),
        from <= r <= s.len(),
        r < s.len() ==> s@[r as int] == c,
        forall|i: int| from <= i < r ==> s@[i] != c,
{
    let mut i: usize = from;
    proof {
        lemma_position(s@, c, from as int);
    }
    while i < s.len() && s[i] != c
        invariant
            from <= i <= s.len(),
            position(s@, c, from as int) == position(s@, c, i as int),
        decreases s.len() - i,
    {
        i = i + 1;
    }
    i
}

/// The pieces of `s[from..]` between the occurrences of `sep`.
pub open spec fn pieces(s: Seq<char>, sep: char, from: int) -> Seq<Seq<char>>
    decreases s.len() - from,
    when 0 <= from <= s.len()
    via pieces_decreases
{
    let e = position(s, sep, from);
    if e >= s.len() {
        seq![s.subrange(from, s.len() as int)]
    } else {
        seq![s.subrange(from, e)] + pieces(s, sep, e + 1)
    }
}

#[via_fn]
proof fn pieces_decreases(s: Seq<char>, sep: char, from: int) {
    lemma_position(s, sep, from);
}

/// Text cut at every occurrence of a character.
pub open spec fn split(s: Seq<char>, sep: char) -> Seq<Seq<char>> {
    pieces(s, sep, 0)
}

/// The texts held by a list of character vectors.
pub open spec fn views(v: Seq<Vec<char>>) -> Seq<Seq<char>> {
    v.map_values(|x: Vec<char>| x@)
}

/// The texts held by a list of strings.
pub open spec fn texts(v: Seq<String>) -> Seq<Seq<char>> {
    v.map_values(|x: String| x@)
}

pub fn split_char(s: &[char], sep: char) -> (r: Vec<Vec<char>>)
    ensures
        views(r@) == split(s@, sep),
        r@.len() >= 1,
{
    let mut out: Vec<Vec<char>> = Vec::new();
    let mut from: usize = 0;
    proof {
        assert(views(out@) + pieces(s@, sep, 0) =~= split(s@, sep));
    }
    loop
        invariant_except_break
            from <= s.len(),
            views(out@) + pieces(s@, sep, from as int) == split(s@, sep),
        ensures
            views(out@) == split(s@, sep),
            out@.len() >= 1,
        decreases s.len() - from,
    {
        let e: usize = find_char(s, sep, from);
        let ghost before = views(out@);
        let piece = copy_range(s, from, e);
        out.push(piece);
        proof {
            assert(views(out@) =~= before.push(piece@));
        }
        if e >= s.len() {
            proof {
                assert(before + seq![piece@] =~= before.push(piece@));
            }
            break;
        }
        proof {
            assert(before + (seq![piece@] + pieces(s@, sep, e + 1)) =~= before.push(piece@) + pieces(s@, sep, e + 1));
        }
        from = e + 1;
    }
    out
}

proof fn lemma_position_behind(s: Seq<char>, sep: char, from: int, k: int)
    requires
        0 <= from <= s.len(),
        0 <= k <= s.len() - from,
    ensures
        position(s, sep, from + k) == from + position(s.skip(from), sep, k),
    decreases s.len() - from - k,
{
    if from + k < s.len() {
        assert(s.skip(from)[k] == s[from + k]);
        if s[from + k] != sep {
            lemma_position_behind(s, sep, from, k + 1);
        }
    }
}

proof fn lemma_pieces_behind(s: Seq<char>, sep: char, from: int, k: int)
    requires
        0 <= from <= s.len(),
        0 <= k <= s.len() - from,
    ensures
        pieces(s, sep, from + k) == pieces(s.skip(from), sep, k),
    decreases s.len() - from - k,
{
    let t = s.skip(from);
    lemma_position_behind(s, sep, from, k);
    lemma_position(t, sep, k);
    let e = position(t, sep, k);
    if e >= t.len() {
        assert(s.subrange(from + k, s.len() as int) =~= t.subrange(k, t.len() as int));
    } else {
        lemma_pieces_behind(s, sep, from, e + 1);
        assert(s.subrange(from + k, from + e) =~= t.subrange(k, e));
    }
}

/// The first piece of a text is what stands before the first separator, and the others
/// are those of what stands behind it.
pub proof fn lemma_split_first(a: Seq<char>, sep: char, rest: Seq<char>)
    requires
        !a.contains(sep),
    ensures
        split(a, sep) == seq![a],
        split(a + seq![sep] + rest, sep) == seq![a] + split(rest, sep),
{
    let s = a + seq![sep] + rest;
    let n = a.len() as int;
    lemma_position(a, sep, 0);
    lemma_position(s, sep, 0);
    let i = position(a, sep, 0);
    if i < n {
        assert(a[i] == sep);
    }
    assert(a.subrange(0, n) =~= a);
    let k = position(s, sep, 0);
    assert(s[n] == sep);
    if k < n {
        assert(a[k] == sep);
    }
    assert(k == n);
    assert(s.subrange(0, n) =~= a);
    lemma_pieces_behind(s, sep, n + 1, 0);
    assert(s.skip(n + 1) =~= rest);
}

/// A character that does not separate stands in one of the pieces.
pub proof fn lemma_in_a_piece(s: Seq<char>, sep: char, from: int, i: int)
    requires
        0 <= from <= i < s.len(),
        s[i] != sep,
    ensures
        exists|k: int| 0 <= k < pieces(s, sep, from).len() && (#[trigger] pieces(s, sep, from)[k]).contains(s[i]),
    decreases s.len() - from,
{
    lemma_position(s, sep, from);
    let end = position(s, sep, from);
    let p = pieces(s, sep, from);
    if i < end {
        assert(p[0] == s.subrange(from, end));
        assert(s.subrange(from, end)[i - from] == s[i]);
        assert(p[0].contains(s[i]));
    } else {
        lemma_in_a_piece(s, sep, end + 1, i);
        let rest = pieces(s, sep, end + 1);
        let k = choose|k: int| 0 <= k < rest.len() && (#[trigger] rest[k]).contains(s[i]);
        assert(p[k + 1] == rest[k]);
    }
}

/// Three pieces with a separator between them are cut at it.
pub proof fn lemma_three_pieces(a: Seq<char>, b: Seq<char>, c: Seq<char>, sep: char)
    requires
        forall|i: int| 0 <= i < a.len() ==> a[i] != sep,
        forall|i: int| 0 <= i < b.len() ==> b[i] != sep,
        forall|i: int| 0 <= i < c.len() ==> c[i] != sep,
    ensures
        split(a + seq![sep] + b + seq![sep] + c, sep) == seq![a, b, c],
{
    let s = a + seq![sep] + b + seq![sep] + c;
    let x = a.len() as int;
    let y = x + 1 + b.len() as int;
    lemma_position(s, sep, 0);
    assert(s[x] == sep);
    assert(forall|i: int| 0 <= i < x ==> s[i] == a[i]);
    assert(position(s, sep, 0) == x);
    lemma_position(s, sep, x + 1);
    assert(s[y] == sep);
    assert(forall|i: int| x < i < y ==> s[i] == b[i - x - 1]);
    assert(position(s, sep, x + 1) == y);
    lemma_position(s, sep, y + 1);
    assert(forall|i: int| y < i < s.len() ==> s[i] == c[i - y - 1]);
    assert(position(s, sep, y + 1) == s.len());
    assert(s.subrange(0, x) =~= a);
    assert(s.subrange(x + 1, y) =~= b);
    assert(s.subrange(y + 1, s.len() as int) =~= c);
    assert(pieces(s, sep, y + 1) =~= seq![c]);
    assert(pieces(s, sep, x + 1) =~= seq![b] + seq![c]);
    assert(pieces(s, sep, 0) =~= seq![a] + (seq![b] + seq![c]));
    assert(seq![a] + (seq![b] + seq![c]) =~= seq![a, b, c]);
}

/// Whether `needle` stands at position `i`.
pub open spec fn stands_at(hay: Seq<char>, needle: Seq<char>, i: int) -> bool {
    0 <= i && i + needle.len() <= hay.len() && hay.subrange(i, i + needle.len()) == needle
}

/// The first position from `from` on at which `needle` stands.
pub open spec fn find(hay: Seq<char>, needle: Seq<char>, from: int) -> Option<int>
    decreases hay.len() - from + 1,
{
    if from + needle.len() > hay.len() {
        None
    } else if stands_at(hay, needle, from) {
        Some(from)
    } else {
        find(hay, needle, from + 1)
    }
}

pub open spec fn contains(hay: Seq<char>, needle: Seq<char>) -> bool {
    find(hay, needle, 0) is Some
}

/// Text is found exactly where it stands, and nowhere before.
pub proof fn lemma_find(hay: Seq<char>, needle: Seq<char>, from: int)
    requires
        0 <= from,
    ensures
        find(hay, needle, from) matches Some(i) ==> from <= i && stands_at(hay, needle, i),
        forall|i: int|
            from <= i && #[trigger] stands_at(hay, needle, i) ==> find(hay, needle, from) is Some && find(
                hay,
                needle,
                from,
            )->0 <= i,
    decreases hay.len() - from + 1,
{
    if from + needle.len() <= hay.len() && !stands_at(hay, needle, from) {
        lemma_find(hay, needle, from + 1);
    }
}

pub fn has_at(hay: &[char], needle: &[char], i: usize) -> (r: bool)
    requires
        i <= hay.len(),
    ensures
        r == stands_at(hay@, needle@, i as int),
{
    if needle.len() > hay.len() - i {
        return false;
    }
    let mut j: usize = 0;
    while j < needle.len()
        invariant
            j <= needle.len() <= hay.len() - i,
            i <= hay.len(),
            forall|k: int| 0 <= k < j ==> hay@[i + k] == needle@[k],
        decreases needle.len() - j,
    {
        if hay[i + j] != needle[j] {
            proof {
                assert(hay@.subrange(i as int, i + needle@.len())[j as int] != needle@[j as int]);
            }
            return false;
        }
        j = j + 1;
    }
    proof {
        assert(hay@.subrange(i as int, i + needle@.len()) =~= needle@);
    }
    true
}

pub fn find_text(hay: &[char], needle: &[char], from: usize) -> (r: Option<usize>)
    requires
        from <= hay.len(),
    ensures
        match r {
            Some(i) => find(hay@, needle@, from as int) == Some(i as int) && i + needle.len() <= hay.len(),
            None => find(hay@, needle@, from as int) is None,
        },
{
    let mut i: usize = from;
    while needle.len() <= hay.len() - i
        invariant
            from <= i <= hay.len(),
            find(hay@, needle@, from as int) == find(hay@, needle@, i as int),
        decreases hay.len() - i,
    {
        if has_at(hay, needle, i) {
            return Some(i);
        }
        if i == hay.len() {
            proof {
                assert(find(hay@, needle@, i + 1) is None);
            }
            return None;
        }
        i = i + 1;
    }
    None
}

pub fn contains_text(hay: &[char], needle: &[char]) -> (r: bool)
    ensures
        r == contains(hay@, needle@),
{
    match find_text(hay, needle, 0) {
        Some(_) => true,
        None => false,
    }
}

/// Whether a text starts with another.
pub open spec fn starts(s: Seq<char>, with: Seq<char>) -> bool {
    stands_at(s, with, 0)
}

pub fn starts_with(s: &str, with: &str) -> (r: bool)
    ensures
        r == starts(s@, with@),
{
    let a = chars_of(s);
    let b = chars_of(with);
    has_at(a.as_slice(), b.as_slice(), 0)
}

/// Whether two pieces of text differ at most in the case of ASCII letters.
pub open spec fn same_ignoring_case(a: Seq<char>, b: Seq<char>) -> bool {
    lower(a) == lower(b)
}

pub fn same_text_ignoring_case(a: &[char], b: &[char]) -> (r: bool)
    ensures
        r == same_ignoring_case(a@, b@),
{
    let x = to_lower(a);
    let y = to_lower(b);
    same(x.as_slice(), y.as_slice())
}

/// Text with every `from` replaced by `to`.
pub open spec fn replace_char(s: Seq<char>, from: char, to: char) -> Seq<char> {
    s.map_values(
        |c: char|
            if c == from {
                to
            } else {
                c
            },
    )
}

pub fn replaced_char(s: &[char], from: char, to: char) -> (r: Vec<char>)
    ensures
        r@ == replace_char(s@, from, to),
{
    let mut out: Vec<char> = Vec::new();
    let mut i: usize = 0;
    while i < s.len()
        invariant
            i <= s.len(),
            out@ == replace_char(s@.take(i as int), from, to),
        decreases s.len() - i,
    {
        let c: char = if s[i] == from {
            to
        } else {
            s[i]
        };
        out.push(c);
        proof {
            assert(replace_char(s@.take(i + 1), from, to) =~= replace_char(s@.take(i as int), from, to).push(c));
        }
        i = i + 1;
    }
    proof {
        assert(s@.take(s@.len() as int) =~= s@);
    }
    out
}

/// Text without any `c` in it.
pub open spec fn without_char(s: Seq<char>, c: char) -> Seq<char>
    decreases s.len(),
{
    if s.len() == 0 {
        Seq::empty()
    } else if s.last() == c {
        without_char(s.drop_last(), c)
    } else {
        without_char(s.drop_last(), c).push(s.last())
    }
}

pub fn removed_char(s: &[char], c: char) -> (r: Vec<char>)
    ensures
        r@ == without_char(s@, c),
{
    let mut out: Vec<char> = Vec::new();
    let mut i: usize = 0;
    while i < s.len()
        invariant
            i <= s.len(),
            out@ == without_char(s@.take(i as int), c),
        decreases s.len() - i,
    {
        proof {
            let t = s@.take(i + 1);
            assert(t.drop_last() =~= s@.take(i as int));
            assert(t.last() == s@[i as int]);
        }
        if s[i] != c {
            out.push(s[i]);
        }
        i = i + 1;
    }
    proof {
        assert(s@.take(s@.len() as int) =~= s@);
    }
    out
}

/// The view of an optional string.
pub open spec fn opt(s: Option<String>) -> Option<Seq<char>> {
    match s {
        Some(t) => Some(t@),
        None => None,
    }
}

/// A copy of an optional string.
pub fn copy_opt(s: &Option<String>) -> (r: Option<String>)
    ensures
        r == *s,
{
    match s {
        Some(x) => Some(x.clone()),
        None => None,
    }
}

/// Text without any `c` at its start.
pub open spec fn strip_start(s: Seq<char>, c: char) -> Seq<char>
    decreases s.len(),
{
    if s.len() > 0 && s[0] == c {
        strip_start(s.subrange(1, s.len() as int), c)
    } else {
        s
    }
}

/// Text without any `c` at its end.
pub open spec fn strip_end(s: Seq<char>, c: char) -> Seq<char>
    decreases s.len(),
{
    if s.len() > 0 && s[s.len() - 1] == c {
        strip_end(s.subrange(0, s.len() - 1), c)
    } else {
        s
    }
}

/// Where the text starts once every `c` at its start is cut off.
pub fn skip_char(s: &[char], c: char) -> (a: usize)
    ensures
        a <= s.len(),
        s@.subrange(a as int, s@.len() as int) == strip_start(s@, c),
{
    let mut a: usize = 0;
    proof {
        assert(s@.subrange(0, s@.len() as int) =~= s@);
    }
    while a < s.len() && s[a] == c
        invariant
            a <= s.len(),
            strip_start(s@, c) == strip_start(s@.subrange(a as int, s@.len() as int), c),
        decreases s.len() - a,
    {
        proof {
            let t = s@.subrange(a as int, s@.len() as int);
            assert(t.subrange(1, t.len() as int) =~= s@.subrange(a + 1, s@.len() as int));
        }
        a = a + 1;
    }
    a
}

/// Text without any `c` at either end.
pub fn stripped(s: &[char], c: char) -> (r: Vec<char>)
    ensures
        r@ == strip_end(strip_start(s@, c), c),
{
    let a: usize = skip_char(s, c);
    let mut b: usize = s.len();
    while b > a && s[b - 1] == c
        invariant
            a <= b <= s.len(),
            strip_end(strip_start(s@, c), c) == strip_end(s@.subrange(a as int, b as int), c),
        decreases b,
    {
        proof {
            let t = s@.subrange(a as int, b as int);
            assert(t.subrange(0, t.len() - 1) =~= s@.subrange(a as int, b - 1));
        }
        b = b - 1;
    }
    copy_range(s, a, b)
}

/// How often a text occurs from `from` on, without overlaps.
pub open spec fn count_from(hay: Seq<char>, needle: Seq<char>, from: int) -> int
    decreases hay.len() - from,
    when needle.len() > 0 && 0 <= from
    via count_from_decreases
{
    match find(hay, needle, from) {
        Some(i) => 1 + count_from(hay, needle, i + needle.len()),
        None => 0,
    }
}

#[via_fn]
proof fn count_from_decreases(hay: Seq<char>, needle: Seq<char>, from: int) {
    lemma_find(hay, needle, from);
}

pub fn count_text(hay: &[char], needle: &[char]) -> (r: usize)
    requires
        needle.len() > 0,
    ensures
        r == count_from(hay@, needle@, 0),
{
    let mut n: usize = 0;
    let mut from: usize = 0;
    loop
        invariant
            needle.len() > 0,
            n <= from <= hay.len(),
            count_from(hay@, needle@, 0) == n + count_from(hay@, needle@, from as int),
        decreases hay.len() - from,
    {
        match find_text(hay, needle, from) {
            Some(i) => {
                proof {
                    lemma_find(hay@, needle@, from as int);
                }
                n = n + 1;
                from = i + needle.len();
            },
            None => {
                return n;
            },
        }
    }
}

/// Whether one text stands before another in the order of their characters, from
/// position `i` on.
pub open spec fn before_from(a: Seq<char>, b: Seq<char>, i: int) -> bool
    decreases b.len() - i,
{
    if i >= b.len() {
        false
    } else if i >= a.len() {
        true
    } else if a[i] != b[i] {
        a[i] < b[i]
    } else {
        before_from(a, b, i + 1)
    }
}

pub open spec fn text_before(a: Seq<char>, b: Seq<char>) -> bool {
    before_from(a, b, 0)
}

pub fn is_before(a: &[char], b: &[char]) -> (r: bool)
    ensures
        r == text_before(a@, b@),
{
    let mut i: usize = 0;
    while i < b.len()
        invariant
            i <= b.len(),
            i <= a.len(),
            text_before(a@, b@) == before_from(a@, b@, i as int),
        decreases b.len() - i,
    {
        if i >= a.len() {
            return true;
        }
        if a[i] != b[i] {
            return a[i] < b[i];
        }
        i = i + 1;
    }
    false
}

/// Of two different texts exactly one stands before the other.
pub proof fn lemma_order_total(a: Seq<char>, b: Seq<char>, i: int)
    requires
        0 <= i <= a.len(),
        i <= b.len(),
        forall|j: int| 0 <= j < i ==> a[j] == b[j],
    ensures
        !(before_from(a, b, i) && before_from(b, a, i)),
        !before_from(a, b, i) && !before_from(b, a, i) ==> a == b,
    decreases a.len() - i,
{
    if i < a.len() && i < b.len() && a[i] == b[i] {
        lemma_order_total(a, b, i + 1);
    } else if i == a.len() && i == b.len() {
        assert(a =~= b);
    }
}

/// A text that stands before no later one stands before none after that either.
pub proof fn lemma_order_chain(a: Seq<char>, b: Seq<char>, c: Seq<char>, i: int)
    requires
        0 <= i,
        !before_from(b, a, i),
        !before_from(c, b, i),
    ensures
        !before_from(c, a, i),
    decreases a.len() - i,
{
    if i < a.len() && i < b.len() && i < c.len() && a[i] == b[i] && b[i] == c[i] {
        lemma_order_chain(a, b, c, i + 1);
    }
}

/// How many bytes a character takes in UTF-8.
pub open spec fn utf8_len(c: char) -> int {
    if (c as u32) < 0x80 {
        1
    } else if (c as u32) < 0x800 {
        2
    } else if (c as u32) < 0x1_0000 {
        3
    } else {
        4
    }
}

/// How many characters from `i` on take exactly `n` bytes, counted from the start
/// of the text.
pub open spec fn byte_prefix(s: Seq<char>, i: int, n: int) -> Option<int>
    decreases s.len() - i,
{
    if n == 0 {
        Some(i)
    } else if i >= s.len() || utf8_len(s[i]) > n {
        None
    } else {
        byte_prefix(s, i + 1, n - utf8_len(s[i]))
    }
}

pub fn char_bytes(c: char) -> (r: usize)
    ensures
        r == utf8_len(c),
        1 <= r <= 4,
{
    let n: u32 = c as u32;
    if n < 0x80 {
        1
    } else if n < 0x800 {
        2
    } else if n < 0x1_0000 {
        3
    } else {
        4
    }
}

/// How many characters at the start of the text take exactly `n` bytes.
pub fn prefix_of_bytes(s: &[char], n: usize) -> (r: Option<usize>)
    ensures
        match r {
            Some(k) => byte_prefix(s@, 0, n as int) == Some(k as int) && k <= s.len(),
            None => byte_prefix(s@, 0, n as int) is None,
        },
{
    let mut i: usize = 0;
    let mut left: usize = n;
    while left > 0
        invariant
            i <= s.len(),
            byte_prefix(s@, 0, n as int) == byte_prefix(s@, i as int, left as int),
        decreases left,
    {
        if i >= s.len() {
            return None;
        }
        let b: usize = char_bytes(s[i]);
        if b > left {
            return None;
        }
        left = left - b;
        i = i + 1;
    }
    Some(i)
}

// ---------------------------------------------------------------------------
// Numbers
// ---------------------------------------------------------------------------

pub open spec fn is_digit(c: char) -> bool {
    '0' <= c <= '9'
}

pub open spec fn digit_value(c: char) -> int {
    c as int - '0' as int
}

pub open spec fn digit_char(n: int) -> char {
    (48 + n) as char
}

pub open spec fn all_digits(s: Seq<char>) -> bool {
    forall|i: int| 0 <= i < s.len() ==> is_digit(#[trigger] s[i])
}

/// The number that a row of digits stands for.
pub open spec fn decimal_value(s: Seq<char>) -> int
    decreases s.len(),
{
    if s.len() == 0 {
        0
    } else {
        10 * decimal_value(s.drop_last()) + digit_value(s.last())
    }
}

/// The digits of a number, without leading zeros.
pub open spec fn decimal(n: int) -> Seq<char>
    decreases n,
{
    if n < 10 {
        seq![digit_char(n)]
    } else {
        decimal(n / 10).push(digit_char(n % 10))
    }
}

/// The digits of a number with its sign.
pub open spec fn signed_decimal(n: int) -> Seq<char> {
    if n < 0 {
        seq!['-'] + decimal(-n)
    } else {
        decimal(n)
    }
}

/// Text filled up with zeros from the left to a width.
pub open spec fn zero_pad(s: Seq<char>, width: int) -> Seq<char>
    decreases width - s.len(),
{
    if s.len() >= width {
        s
    } else {
        zero_pad(seq!['0'] + s, width)
    }
}

/// An unsigned number in text: digits, at most one plus sign before them.
pub open spec fn parse_nat(s: Seq<char>) -> Option<int> {
    let t = if s.len() > 0 && s[0] == '+' {
        s.subrange(1, s.len() as int)
    } else {
        s
    };
    if t.len() == 0 || !all_digits(t) {
        None
    } else {
        Some(decimal_value(t))
    }
}

/// A number in text: digits, at most one sign before them.
pub open spec fn parse_int(s: Seq<char>) -> Option<int> {
    if s.len() > 0 && s[0] == '-' {
        let t = s.subrange(1, s.len() as int);
        if t.len() == 0 || !all_digits(t) {
            None
        } else {
            Some(-decimal_value(t))
        }
    } else {
        parse_nat(s)
    }
}

/// A parsed number, if it lies between two bounds.
pub open spec fn within(v: Option<int>, min: int, max: int) -> Option<int> {
    match v {
        Some(n) => if min <= n <= max {
            Some(n)
        } else {
            None
        },
        None => None,
    }
}

pub fn digit(n: u64) -> (r: char)
    requires
        n < 10,
    ensures
        r == digit_char(n as int),
{
    (48 + n as u8) as char
}

pub fn decimal_text(n: u64) -> (r: Vec<char>)
    ensures
        r@ == decimal(n as int),
        r@.len() >= 1,
    decreases n,
{
    if n < 10 {
        let mut v: Vec<char> = Vec::new();
        v.push(digit(n));
        v
    } else {
        let mut v = decimal_text(n / 10);
        v.push(digit(n % 10));
        v
    }
}

pub fn signed_decimal_text(n: i64) -> (r: Vec<char>)
    ensures
        r@ == signed_decimal(n as int),
{
    if n < 0 {
        let m: i128 = -(n as i128);
        let mut d = decimal_text(m as u64);
        let mut v: Vec<char> = Vec::new();
        v.push('-');
        v.append(&mut d);
        proof {
            assert(v@ =~= seq!['-'] + decimal(-(n as int)));
        }
        v
    } else {
        decimal_text(n as u64)
    }
}

pub fn zero_padded(s: Vec<char>, width: usize) -> (r: Vec<char>)
    ensures
        r@ == zero_pad(s@, width as int),
{
    let mut v = s;
    while v.len() < width
        invariant
            zero_pad(v@, width as int) == zero_pad(s@, width as int),
        decreases width - v.len(),
    {
        let ghost before = v@;
        v.insert(0, '0');
        proof {
            assert(v@ =~= seq!['0'] + before);
        }
    }
    v
}

/// The digits of `s` from `from` on as a number, if it is not above `max`.
pub fn digits_from(s: &[char], from: usize, max: u64) -> (r: Option<u64>)
    requires
        from <= s.len(),
    ensures
        r == ({
            let t = s@.subrange(from as int, s@.len() as int);
            if t.len() == 0 || !all_digits(t) || decimal_value(t) > max {
                None
            } else {
                Some(decimal_value(t) as u64)
            }
        }),
        r matches Some(v) ==> v == decimal_value(s@.subrange(from as int, s@.len() as int)),
{
    let ghost t = s@.subrange(from as int, s@.len() as int);
    if from >= s.len() {
        return None;
    }
    let mut i: usize = from;
    let mut acc: u64 = 0;
    let mut over: bool = false;
    while i < s.len()
        invariant
            from <= i <= s.len(),
            t == s@.subrange(from as int, s@.len() as int),
            forall|j: int| 0 <= j < i - from ==> is_digit(#[trigger] t[j]),
            over ==> decimal_value(t.take(i - from)) > max,
            !over ==> decimal_value(t.take(i - from)) == acc && acc <= max,
        decreases s.len() - i,
    {
        let c = s[i];
        if c < '0' || c > '9' {
            proof {
                assert(t[i - from] == c);
            }
            return None;
        }
        proof {
            assert(t.take(i - from + 1).drop_last() =~= t.take(i - from));
            assert(t.take(i - from + 1).last() == c);
        }
        if !over {
            let d: u8 = c as u8 - 48;
            let n: u128 = 10 * acc as u128 + d as u128;
            if n > max as u128 {
                over = true;
            } else {
                acc = n as u64;
            }
        }
        i = i + 1;
    }
    proof {
        assert(t.take(s@.len() - from) =~= t);
        assert(all_digits(t));
    }
    if over {
        None
    } else {
        Some(acc)
    }
}

/// An unsigned number of at most `max`.
pub fn parse_unsigned(s: &[char], max: u64) -> (r: Option<u64>)
    ensures
        match r {
            Some(v) => within(parse_nat(s@), 0, max as int) == Some(v as int),
            None => within(parse_nat(s@), 0, max as int) is None,
        },
{
    proof {
        assert(s@.subrange(0, s@.len() as int) =~= s@);
        lemma_decimal_value_nat(s@);
        if s@.len() > 0 {
            lemma_decimal_value_nat(s@.subrange(1, s@.len() as int));
        }
    }
    if s.len() > 0 && s[0] == '+' {
        digits_from(s, 1, max)
    } else {
        digits_from(s, 0, max)
    }
}

/// A number between `-max - 1` and `max`.
pub fn parse_signed(s: &[char], max: i64) -> (r: Option<i64>)
    requires
        max >= 0,
    ensures
        match r {
            Some(v) => within(parse_int(s@), -max - 1, max as int) == Some(v as int),
            None => within(parse_int(s@), -max - 1, max as int) is None,
        },
{
    proof {
        lemma_decimal_value_nat(s@);
        if s@.len() > 0 {
            lemma_decimal_value_nat(s@.subrange(1, s@.len() as int));
        }
    }
    if s.len() > 0 && s[0] == '-' {
        match digits_from(s, 1, max as u64 + 1) {
            Some(v) => Some((-(v as i128)) as i64),
            None => None,
        }
    } else {
        match parse_unsigned(s, max as u64) {
            Some(v) => Some(v as i64),
            None => None,
        }
    }
}

pub proof fn lemma_decimal_value_nat(s: Seq<char>)
    ensures
        all_digits(s) ==> decimal_value(s) >= 0,
    decreases s.len(),
{
    if s.len() > 0 {
        lemma_decimal_value_nat(s.drop_last());
        if all_digits(s) {
            assert forall|i: int| 0 <= i < s.drop_last().len() implies is_digit(#[trigger] s.drop_last()[i]) by {
                assert(is_digit(s[i]));
            }
            assert(is_digit(s[s.len() - 1]));
        }
    }
}

/// What a number's digits stand for is the number itself.
pub proof fn law_decimal_round_trip(n: int)
    requires
        n >= 0,
    ensures
        all_digits(decimal(n)),
        decimal(n).len() >= 1,
        decimal_value(decimal(n)) == n,
        parse_nat(decimal(n)) == Some(n),
    decreases n,
{
    if n >= 10 {
        law_decimal_round_trip(n / 10);
        let s = decimal(n);
        assert(s.drop_last() =~= decimal(n / 10));
        assert forall|i: int| 0 <= i < s.len() implies is_digit(#[trigger] s[i]) by {
            if i < s.len() - 1 {
                assert(s[i] == decimal(n / 10)[i]);
            }
        }
    } else {
        let s = decimal(n);
        assert(decimal_value(s.drop_last()) == 0);
    }
    assert(is_digit(decimal(n)[0]));
}

// ---------------------------------------------------------------------------
// Lists of texts
// ---------------------------------------------------------------------------

/// Whether a text is in a list.
pub fn has_text(list: &Vec<String>, s: &str) -> (r: bool)
    ensures
        r == texts(list@).contains(s@),
{
    let mut i: usize = 0;
    while i < list.len()
        invariant
            i <= list@.len(),
            forall|k: int| 0 <= k < i ==> #[trigger] texts(list@)[k] != s@,
        decreases list@.len() - i,
    {
        proof {
            assert(texts(list@)[i as int] == list@[i as int]@);
        }
        if str_same(list[i].as_str(), s) {
            return true;
        }
        i = i + 1;
    }
    proof {
        assert(texts(list@).len() == list@.len());
    }
    false
}

/// Puts a text at the end of a list.
pub fn push_text(list: &mut Vec<String>, s: &str)
    ensures
        texts(final(list)@) == texts(old(list)@).push(s@),
{
    list.push(s.to_string());
    proof {
        assert(texts(list@) =~= texts(old(list)@).push(s@));
    }
}

/// A copy of a list.
pub fn copy_texts(v: &Vec<String>) -> (r: Vec<String>)
    ensures
        texts(r@) == texts(v@),
{
    let mut out: Vec<String> = Vec::new();
    let mut i: usize = 0;
    while i < v.len()
        invariant
            i <= v@.len(),
            texts(out@) =~= texts(v@).take(i as int),
        decreases v@.len() - i,
    {
        let ghost before = texts(out@);
        out.push(v[i].clone());
        proof {
            assert(texts(out@) =~= before.push(v@[i as int]@));
        }
        i = i + 1;
    }
    proof {
        assert(texts(v@).take(v@.len() as int) =~= texts(v@));
    }
    out
}

/// Whether two lists are the same.
pub fn same_texts(a: &Vec<String>, b: &Vec<String>) -> (r: bool)
    ensures
        r == (texts(a@) == texts(b@)),
{
    proof {
        assert(texts(a@).len() == a@.len());
        assert(texts(b@).len() == b@.len());
    }
    if a.len() != b.len() {
        return false;
    }
    let mut i: usize = 0;
    while i < a.len()
        invariant
            i <= a@.len(),
            a@.len() == b@.len(),
            forall|k: int| 0 <= k < i ==> #[trigger] texts(a@)[k] == texts(b@)[k],
        decreases a@.len() - i,
    {
        proof {
            assert(texts(a@)[i as int] == a@[i as int]@);
            assert(texts(b@)[i as int] == b@[i as int]@);
        }
        if !str_same(a[i].as_str(), b[i].as_str()) {
            return false;
        }
        i = i + 1;
    }
    proof {
        assert(texts(a@) =~= texts(b@));
    }
    true
}

/// Whether two optional texts are the same.
pub fn same_opt(a: &Option<String>, b: &Option<String>) -> (r: bool)
    ensures
        r == (opt(*a) == opt(*b)),
{
    match (a, b) {
        (Some(x), Some(y)) => str_same(x.as_str(), y.as_str()),
        (None, None) => true,
        _ => false,
    }
}

pub proof fn lemma_push_contains<T>(v: Seq<T>, x: T, y: T)
    ensures
        v.push(x).contains(y) == (v.contains(y) || x == y),
{
    if v.contains(y) {
        let i = choose|i: int| 0 <= i < v.len() && v[i] == y;
        assert(v.push(x)[i] == y);
    }
    if x == y {
        assert(v.push(x)[v.len() as int] == y);
    }
}

} // verus!
