//! The little of XML that TVs answer in: elements by name, attributes, and the
//! five escapes.

use vstd::prelude::*;
use crate::text::{chars_of, copy_range, find, find_char, find_text, lemma_find, position, trim, trimmed, views};

verus! {

/// Text from a position on with each `needle` replaced.
pub open spec fn replaced_from(s: Seq<char>, needle: Seq<char>, to: Seq<char>, from: int) -> Seq<char>
    decreases s.len() - from,
    when 0 <= from <= s.len() && needle.len() > 0
    via replaced_decreases
{
    match find(s, needle, from) {
        Some(i) => s.subrange(from, i) + to + replaced_from(s, needle, to, i + needle.len()),
        None => s.subrange(from, s.len() as int),
    }
}

#[via_fn]
proof fn replaced_decreases(s: Seq<char>, needle: Seq<char>, to: Seq<char>, from: int) {
    lemma_find(s, needle, from);
}

/// Text with each `needle` replaced.
pub open spec fn replaced(s: Seq<char>, needle: Seq<char>, to: Seq<char>) -> Seq<char> {
    replaced_from(s, needle, to, 0)
}

pub fn replace_text(s: &[char], needle: &str, to: &str) -> (r: Vec<char>)
    requires
        needle@.len() > 0,
    ensures
        r@ == replaced(s@, needle@, to@),
{
    let n = chars_of(needle);
    let mut out: Vec<char> = Vec::new();
    let mut from: usize = 0;
    proof {
        assert(out@ + replaced_from(s@, n@, to@, 0) =~= replaced(s@, n@, to@));
    }
    loop
        invariant_except_break
            n@ == needle@,
            n@.len() > 0,
            from <= s@.len(),
            out@ + replaced_from(s@, n@, to@, from as int) == replaced(s@, n@, to@),
        ensures
            out@ == replaced(s@, n@, to@),
            n@ == needle@,
        decreases s@.len() - from,
    {
        proof {
            lemma_find(s@, n@, from as int);
        }
        match find_text(s, n.as_slice(), from) {
            Some(i) => {
                let ghost before = out@;
                let mut a = copy_range(s, from, i);
                let mut b = chars_of(to);
                out.append(&mut a);
                out.append(&mut b);
                proof {
                    let rest = replaced_from(s@, n@, to@, i + n@.len());
                    assert(before + (s@.subrange(from as int, i as int) + to@ + rest) =~= out@ + rest);
                }
                from = i + n.len();
            },
            None => {
                let mut a = copy_range(s, from, s.len());
                out.append(&mut a);
                break;
            },
        }
    }
    out
}

/// Text without the escapes of XML. They are undone one after another, that of the
/// ampersand last.
pub open spec fn unescaped(s: Seq<char>) -> Seq<char> {
    replaced(
        replaced(
            replaced(replaced(replaced(s, "&lt;"@, "<"@), "&gt;"@, ">"@), "&quot;"@, "\""@),
            "&apos;"@,
            "'"@,
        ),
        "&amp;"@,
        "&"@,
    )
}

pub fn xml_unescape(s: &[char]) -> (r: Vec<char>)
    ensures
        r@ == unescaped(s@),
{
    proof {
        reveal_strlit("&lt;");
        reveal_strlit("&gt;");
        reveal_strlit("&quot;");
        reveal_strlit("&apos;");
        reveal_strlit("&amp;");
    }
    let a = replace_text(s, "&lt;", "<");
    let b = replace_text(a.as_slice(), "&gt;", ">");
    let c = replace_text(b.as_slice(), "&quot;", "\"");
    let d = replace_text(c.as_slice(), "&apos;", "'");
    replace_text(d.as_slice(), "&amp;", "&")
}

/// What stands between the first `open` and the next `close` behind it.
pub open spec fn between(s: Seq<char>, open: Seq<char>, close: Seq<char>) -> Option<Seq<char>> {
    match find(s, open, 0) {
        Some(i) => match find(s, close, i + open.len()) {
            Some(j) => Some(s.subrange(i + open.len(), j)),
            None => None,
        },
        None => None,
    }
}

pub fn text_between(s: &[char], open: &[char], close: &[char]) -> (r: Option<Vec<char>>)
    ensures
        match r {
            Some(t) => between(s@, open@, close@) == Some(t@),
            None => between(s@, open@, close@) is None,
        },
{
    proof {
        lemma_find(s@, open@, 0);
    }
    match find_text(s, open, 0) {
        Some(i) => {
            let from: usize = i + open.len();
            proof {
                lemma_find(s@, close@, from as int);
            }
            match find_text(s, close, from) {
                Some(j) => Some(copy_range(s, from, j)),
                None => None,
            }
        },
        None => None,
    }
}

/// The text of the first element with a name, if it has no attributes.
pub open spec fn tag(xml: Seq<char>, name: Seq<char>) -> Option<Seq<char>> {
    match between(xml, "<"@ + name + ">"@, "</"@ + name + ">"@) {
        Some(t) => Some(unescaped(trim(t))),
        None => None,
    }
}

/// The view of optional characters.
pub open spec fn opt_chars(v: Option<Vec<char>>) -> Option<Seq<char>> {
    match v {
        Some(x) => Some(x@),
        None => None,
    }
}

fn mark(before: &str, name: &str, after: &str) -> (r: Vec<char>)
    ensures
        r@ == before@ + name@ + after@,
{
    let mut v = chars_of(before);
    let mut n = chars_of(name);
    let mut a = chars_of(after);
    v.append(&mut n);
    v.append(&mut a);
    v
}

pub fn xml_tag(xml: &[char], name: &str) -> (r: Option<Vec<char>>)
    ensures
        opt_chars(r) == tag(xml@, name@),
{
    let open = mark("<", name, ">");
    let close = mark("</", name, ">");
    match text_between(xml, open.as_slice(), close.as_slice()) {
        Some(t) => {
            let u = trimmed(t.as_slice());
            Some(xml_unescape(u.as_slice()))
        },
        None => None,
    }
}

/// The value of an attribute of an element.
pub open spec fn attribute(element: Seq<char>, name: Seq<char>) -> Option<Seq<char>> {
    match between(element, name + "=\""@, "\""@) {
        Some(t) => Some(unescaped(t)),
        None => None,
    }
}

pub fn xml_attr(element: &[char], name: &str) -> (r: Option<Vec<char>>)
    ensures
        opt_chars(r) == attribute(element@, name@),
{
    let mut open = chars_of(name);
    let mut e = chars_of("=\"");
    open.append(&mut e);
    let close = chars_of("\"");
    match text_between(element, open.as_slice(), close.as_slice()) {
        Some(t) => Some(xml_unescape(t.as_slice())),
        None => None,
    }
}

/// The pieces of a text from a position on, cut at each `needle`.
pub open spec fn cut_from(s: Seq<char>, needle: Seq<char>, from: int) -> Seq<Seq<char>>
    decreases s.len() - from,
    when 0 <= from <= s.len() && needle.len() > 0
    via cut_decreases
{
    match find(s, needle, from) {
        Some(i) => seq![s.subrange(from, i)] + cut_from(s, needle, i + needle.len()),
        None => seq![s.subrange(from, s.len() as int)],
    }
}

#[via_fn]
proof fn cut_decreases(s: Seq<char>, needle: Seq<char>, from: int) {
    lemma_find(s, needle, from);
}

/// The pieces of a text, cut at each `needle`.
pub open spec fn cut(s: Seq<char>, needle: Seq<char>) -> Seq<Seq<char>> {
    cut_from(s, needle, 0)
}

pub fn cut_text(s: &[char], needle: &str) -> (r: Vec<Vec<char>>)
    requires
        needle@.len() > 0,
    ensures
        views(r@) == cut(s@, needle@),
        r@.len() >= 1,
{
    let n = chars_of(needle);
    let mut out: Vec<Vec<char>> = Vec::new();
    let mut from: usize = 0;
    proof {
        assert(views(out@) + cut_from(s@, n@, 0) =~= cut(s@, n@));
    }
    loop
        invariant_except_break
            n@ == needle@,
            n@.len() > 0,
            from <= s@.len(),
            views(out@) + cut_from(s@, n@, from as int) == cut(s@, n@),
        ensures
            views(out@) == cut(s@, n@),
            out@.len() >= 1,
            n@ == needle@,
        decreases s@.len() - from,
    {
        proof {
            lemma_find(s@, n@, from as int);
        }
        let ghost before = views(out@);
        match find_text(s, n.as_slice(), from) {
            Some(i) => {
                let a = copy_range(s, from, i);
                out.push(a);
                proof {
                    let rest = cut_from(s@, n@, i + n@.len());
                    assert(views(out@) =~= before.push(a@));
                    assert(before + (seq![a@] + rest) =~= views(out@) + rest);
                }
                from = i + n.len();
            },
            None => {
                let a = copy_range(s, from, s.len());
                out.push(a);
                proof {
                    assert(views(out@) =~= before.push(a@));
                    assert(before + seq![a@] =~= before.push(a@));
                }
                break;
            },
        }
    }
    out
}

/// What stands before the first `needle`, or all of it.
pub open spec fn before_text(s: Seq<char>, needle: Seq<char>) -> Seq<char> {
    match find(s, needle, 0) {
        Some(i) => s.take(i),
        None => s,
    }
}

pub fn text_before_mark(s: &[char], needle: &str) -> (r: Vec<char>)
    ensures
        r@ == before_text(s@, needle@),
{
    let n = chars_of(needle);
    proof {
        lemma_find(s@, n@, 0);
    }
    match find_text(s, n.as_slice(), 0) {
        Some(i) => {
            let r = copy_range(s, 0, i);
            proof {
                assert(r@ =~= s@.take(i as int));
            }
            r
        },
        None => {
            let r = copy_range(s, 0, s.len());
            proof {
                assert(r@ =~= s@);
            }
            r
        },
    }
}

/// What stands before and behind the first character of its kind.
pub open spec fn parted(s: Seq<char>, c: char) -> Option<(Seq<char>, Seq<char>)> {
    let i = position(s, c, 0);
    if i < s.len() {
        Some((s.take(i), s.skip(i + 1)))
    } else {
        None
    }
}

pub fn part_at(s: &[char], c: char) -> (r: Option<(Vec<char>, Vec<char>)>)
    ensures
        match r {
            Some((a, b)) => parted(s@, c) == Some((a@, b@)),
            None => parted(s@, c) is None,
        },
{
    let i: usize = find_char(s, c, 0);
    if i < s.len() {
        let a = copy_range(s, 0, i);
        let b = copy_range(s, i + 1, s.len());
        proof {
            assert(a@ =~= s@.take(i as int));
            assert(b@ =~= s@.skip(i + 1));
        }
        Some((a, b))
    } else {
        None
    }
}

} // verus!
