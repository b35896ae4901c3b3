//! The iCalendar text format: folded lines, properties with parameters, and
//! nested components.

use vstd::prelude::*;
use crate::text::{
    chars_of, copy_range, find_char, is_str, lemma_position, position, split, split_char, str_same, string_of,
    to_upper, trim, trimmed, upper, views,
};

verus! {

// ---------------------------------------------------------------------------
// Lines
// ---------------------------------------------------------------------------

/// A line without its carriage return.
pub open spec fn without_cr(line: Seq<char>) -> Seq<char> {
    if line.len() > 0 && line[line.len() - 1] == '\r' {
        line.subrange(0, line.len() - 1)
    } else {
        line
    }
}

/// The unfolded lines after one more line of the file: one that starts with a
/// space or a tab continues the line before it, and an empty one is dropped.
pub open spec fn unfold_step(acc: Seq<Seq<char>>, raw: Seq<char>) -> Seq<Seq<char>> {
    let line = without_cr(raw);
    if line.len() > 0 && (line[0] == ' ' || line[0] == '\t') && acc.len() > 0 {
        acc.update(acc.len() - 1, acc[acc.len() - 1] + line.subrange(1, line.len() as int))
    } else if line.len() > 0 {
        acc.push(line)
    } else {
        acc
    }
}

pub open spec fn unfold_first(raw: Seq<Seq<char>>, n: int) -> Seq<Seq<char>>
    decreases n,
{
    if n <= 0 {
        Seq::empty()
    } else {
        unfold_step(unfold_first(raw, n - 1), raw[n - 1])
    }
}

/// Text without a byte order mark at its start.
pub open spec fn without_bom(s: Seq<char>) -> Seq<char> {
    if s.len() > 0 && s[0] == '\u{feff}' {
        s.subrange(1, s.len() as int)
    } else {
        s
    }
}

/// The logical lines of a file.
pub open spec fn unfolded(text: Seq<char>) -> Seq<Seq<char>> {
    let raw = split(without_bom(text), '\n');
    unfold_first(raw, raw.len() as int)
}

/// Joins folded lines: a line that starts with a space or a tab continues the
/// line before it.
pub fn unfold(text: &[char]) -> (r: Vec<Vec<char>>)
    ensures
        views(r@) == unfolded(text@),
{
    let from: usize = if text.len() > 0 && text[0] == '\u{feff}' {
        1
    } else {
        0
    };
    let body = copy_range(text, from, text.len());
    proof {
        assert(body@ =~= without_bom(text@));
    }
    let raw = split_char(body.as_slice(), '\n');
    let ghost rv = views(raw@);
    let mut lines: Vec<Vec<char>> = Vec::new();
    let mut i: usize = 0;
    proof {
        assert(views(lines@) =~= Seq::<Seq<char>>::empty());
    }
    while i < raw.len()
        invariant
            i <= raw.len(),
            rv == views(raw@),
            views(lines@) == unfold_first(rv, i as int),
        decreases raw.len() - i,
    {
        let full = raw[i].as_slice();
        let ghost before = views(lines@);
        proof {
            assert(rv[i as int] == full@);
        }
        let n: usize = if full.len() > 0 && full[full.len() - 1] == '\r' {
            full.len() - 1
        } else {
            full.len()
        };
        let ghost line = without_cr(full@);
        proof {
            assert(line =~= full@.subrange(0, n as int));
        }
        if n > 0 && (full[0] == ' ' || full[0] == '\t') && lines.len() > 0 {
            let mut rest = copy_range(full, 1, n);
            let mut last: Vec<char> = match lines.pop() {
                Some(v) => v,
                None => Vec::new(),
            };
            let ghost last0 = last@;
            last.append(&mut rest);
            lines.push(last);
            proof {
                assert(last@ =~= last0 + line.subrange(1, line.len() as int));
                assert(last0 == before[before.len() - 1]);
                assert(views(lines@) =~= before.update(before.len() - 1, last@));
            }
        } else if n > 0 {
            lines.push(copy_range(full, 0, n));
            proof {
                assert(views(lines@) =~= before.push(line));
            }
        }
        i = i + 1;
    }
    lines
}

/// A line as it is written in a file: its start, and the pieces that were folded over,
/// each behind a space or a tab on a line of its own.
pub struct FoldedLine {
    pub head: Seq<char>,
    pub more: Seq<(char, Seq<char>)>,
}

/// Whether a text stays on one line.
pub open spec fn on_one_line(s: Seq<char>) -> bool {
    forall|i: int| 0 <= i < s.len() ==> #[trigger] s[i] != '\r' && s[i] != '\n'
}

/// Whether a line is written so that it can be told from a piece of the one before it.
pub open spec fn is_folded_line(l: FoldedLine) -> bool {
    &&& l.head.len() > 0
    &&& l.head[0] != ' '
    &&& l.head[0] != '\t'
    &&& on_one_line(l.head)
    &&& forall|i: int|
        0 <= i < l.more.len() ==> ((#[trigger] l.more[i]).0 == ' ' || l.more[i].0 == '\t') && on_one_line(
            l.more[i].1,
        )
}

/// The pieces of a line put together, the first `n` of those that were folded over.
pub open spec fn line_of(l: FoldedLine, n: int) -> Seq<char>
    decreases n,
{
    if n <= 0 {
        l.head
    } else {
        line_of(l, n - 1) + l.more[n - 1].1
    }
}

/// The lines that a line takes in the file.
pub open spec fn written(l: FoldedLine) -> Seq<Seq<char>> {
    seq![l.head] + Seq::new(l.more.len(), |i: int| seq![l.more[i].0] + l.more[i].1)
}

/// The lines that lines take in the file.
pub open spec fn all_written(ls: Seq<FoldedLine>) -> Seq<Seq<char>>
    decreases ls.len(),
{
    if ls.len() == 0 {
        Seq::empty()
    } else {
        all_written(ls.drop_last()) + written(ls.last())
    }
}

/// Lines as the text of a file.
pub open spec fn joined_lines(raw: Seq<Seq<char>>) -> Seq<char>
    decreases raw.len(),
{
    if raw.len() == 0 {
        Seq::empty()
    } else if raw.len() == 1 {
        raw[0]
    } else {
        raw[0] + seq!['\r', '\n'] + joined_lines(raw.skip(1))
    }
}

/// The same lines as they come apart at the ends of lines.
spec fn with_cr(raw: Seq<Seq<char>>) -> Seq<Seq<char>> {
    Seq::new(
        raw.len(),
        |i: int|
            if i == raw.len() - 1 {
                raw[i]
            } else {
                raw[i].push('\r')
            },
    )
}

proof fn lemma_split_lines(raw: Seq<Seq<char>>)
    requires
        raw.len() > 0,
        forall|i: int| 0 <= i < raw.len() ==> on_one_line(#[trigger] raw[i]),
    ensures
        split(joined_lines(raw), '\n') == with_cr(raw),
    decreases raw.len(),
{
    assert(on_one_line(raw[0]));
    if raw.len() == 1 {
        crate::text::lemma_split_first(raw[0], '\n', Seq::empty());
        assert(with_cr(raw) =~= seq![raw[0]]);
    } else {
        let rest = raw.skip(1);
        assert forall|i: int| 0 <= i < rest.len() implies on_one_line(#[trigger] rest[i]) by {
            assert(rest[i] == raw[i + 1]);
        }
        lemma_split_lines(rest);
        let first = raw[0].push('\r');
        crate::text::lemma_split_first(first, '\n', joined_lines(rest));
        assert(joined_lines(raw) =~= first + seq!['\n'] + joined_lines(rest));
        assert(with_cr(raw) =~= seq![first] + with_cr(rest));
    }
}

proof fn lemma_unfold_with_cr(raw: Seq<Seq<char>>, n: int)
    requires
        0 <= n <= raw.len(),
        forall|i: int| 0 <= i < raw.len() ==> on_one_line(#[trigger] raw[i]),
    ensures
        unfold_first(with_cr(raw), n) == unfold_first(raw, n),
    decreases n,
{
    if n > 0 {
        lemma_unfold_with_cr(raw, n - 1);
        let a = raw[n - 1];
        assert(on_one_line(a));
        if a.len() > 0 {
            assert(a[a.len() - 1] != '\r');
        }
        assert(without_cr(a) =~= a);
        assert(without_cr(a.push('\r')) =~= a);
    }
}

proof fn lemma_unfold_before(a: Seq<Seq<char>>, b: Seq<Seq<char>>, n: int)
    requires
        0 <= n <= a.len(),
    ensures
        unfold_first(a + b, n) == unfold_first(a, n),
    decreases n,
{
    if n > 0 {
        lemma_unfold_before(a, b, n - 1);
    }
}

proof fn lemma_unfold_line(a: Seq<Seq<char>>, l: FoldedLine, n: int)
    requires
        is_folded_line(l),
        0 <= n <= l.more.len(),
    ensures
        unfold_first(a + written(l), a.len() + 1 + n) == unfold_first(a, a.len() as int).push(line_of(l, n)),
    decreases n,
{
    let all = a + written(l);
    let acc = unfold_first(a, a.len() as int);
    if n == 0 {
        lemma_unfold_before(a, written(l), a.len() as int);
        assert(all[a.len() as int] == l.head);
        assert(l.head[l.head.len() - 1] != '\r');
        assert(without_cr(l.head) =~= l.head);
    } else {
        lemma_unfold_line(a, l, n - 1);
        let (c, p) = l.more[n - 1];
        let line = seq![c] + p;
        assert(all[a.len() + n] == line);
        if p.len() > 0 {
            assert(p[p.len() - 1] != '\r');
            assert(line[line.len() - 1] == p[p.len() - 1]);
        }
        assert(without_cr(line) =~= line);
        assert(line.subrange(1, line.len() as int) =~= p);
        let before = acc.push(line_of(l, n - 1));
        assert(unfold_step(before, line) =~= acc.push(line_of(l, n)));
    }
}

/// Whole lines, with the pieces of each put together.
pub open spec fn whole_lines(ls: Seq<FoldedLine>) -> Seq<Seq<char>> {
    ls.map_values(|l: FoldedLine| line_of(l, l.more.len() as int))
}

proof fn lemma_unfold_lines(ls: Seq<FoldedLine>)
    requires
        forall|i: int| 0 <= i < ls.len() ==> is_folded_line(#[trigger] ls[i]),
    ensures
        unfold_first(all_written(ls), all_written(ls).len() as int) == whole_lines(ls),
        forall|i: int| 0 <= i < all_written(ls).len() ==> on_one_line(#[trigger] all_written(ls)[i]),
        ls.len() > 0 ==> all_written(ls).len() > 0 && all_written(ls)[0] == ls[0].head,
    decreases ls.len(),
{
    if ls.len() == 0 {
        assert(whole_lines(ls) =~= Seq::<Seq<char>>::empty());
    } else {
        let before = ls.drop_last();
        let l = ls.last();
        lemma_unfold_lines(before);
        let a = all_written(before);
        let all = all_written(ls);
        lemma_unfold_line(a, l, l.more.len() as int);
        assert(whole_lines(ls) =~= whole_lines(before).push(line_of(l, l.more.len() as int)));
        assert forall|i: int| 0 <= i < all.len() implies on_one_line(#[trigger] all[i]) by {
            if i < a.len() {
                assert(all[i] == a[i]);
            } else if i == a.len() {
                assert(all[i] == l.head);
            } else {
                let k = i - a.len() - 1;
                let (c, p) = l.more[k];
                assert(all[i] == seq![c] + p);
                assert forall|j: int| 0 <= j < all[i].len() implies #[trigger] all[i][j] != '\r' && all[i][j] != '\n' by {
                    if j > 0 {
                        assert(all[i][j] == p[j - 1]);
                    }
                }
            }
        }
        if before.len() == 0 {
            assert(a =~= Seq::<Seq<char>>::empty());
            assert(all[0] == l.head);
        }
    }
}

/// Folding never changes the lines: however they are folded over several lines of the
/// file, they are read as they are without that, and of each fold only the one space or
/// tab is dropped.
pub proof fn law_folding_changes_nothing(ls: Seq<FoldedLine>)
    requires
        forall|i: int| 0 <= i < ls.len() ==> is_folded_line(#[trigger] ls[i]),
        ls.len() > 0 ==> ls[0].head[0] != '\u{feff}',
    ensures
        unfolded(joined_lines(all_written(ls))) == whole_lines(ls),
{
    let raw = all_written(ls);
    let text = joined_lines(raw);
    lemma_unfold_lines(ls);
    if ls.len() == 0 {
        crate::text::lemma_split_first(Seq::empty(), '\n', Seq::empty());
        assert(raw =~= Seq::<Seq<char>>::empty());
        assert(text =~= Seq::<char>::empty());
        assert(without_bom(text) == text);
        let one = seq![Seq::<char>::empty()];
        assert(split(text, '\n') == one);
        assert(unfold_first(one, 0) == Seq::<Seq<char>>::empty());
        assert(unfold_first(one, 1) == unfold_step(unfold_first(one, 0), one[0]));
        assert(whole_lines(ls) =~= Seq::<Seq<char>>::empty());
    } else {
        assert(text[0] == raw[0][0]);
        assert(without_bom(text) == text);
        lemma_split_lines(raw);
        lemma_unfold_with_cr(raw, raw.len() as int);
    }
}

// ---------------------------------------------------------------------------
// Properties
// ---------------------------------------------------------------------------

/// A property: name, parameters and value.
#[derive(Debug)]
pub struct Prop {
    pub name: String,
    pub params: Vec<(String, String)>,
    pub value: String,
}

/// A property as text.
#[verifier::ext_equal]
pub struct PropModel {
    pub name: Seq<char>,
    pub params: Seq<(Seq<char>, Seq<char>)>,
    pub value: Seq<char>,
}

/// Parameters as text.
pub open spec fn param_models(v: Seq<(String, String)>) -> Seq<(Seq<char>, Seq<char>)> {
    v.map_values(|p: (String, String)| (p.0@, p.1@))
}

impl View for Prop {
    type V = PropModel;

    open spec fn view(&self) -> PropModel {
        PropModel { name: self.name@, params: param_models(self.params@), value: self.value@ }
    }
}

/// The properties of a list as text.
pub open spec fn prop_models(v: Seq<Prop>) -> Seq<PropModel> {
    v.map_values(|p: Prop| p@)
}

/// The value of the first parameter with a name, from position `i` on.
pub open spec fn param_from(params: Seq<(Seq<char>, Seq<char>)>, key: Seq<char>, i: int) -> Option<Seq<char>>
    decreases params.len() - i,
{
    if i >= params.len() {
        None
    } else if params[i].0 == key {
        Some(params[i].1)
    } else {
        param_from(params, key, i + 1)
    }
}

impl Prop {
    /// The value of the first parameter with a name.
    pub fn param(&self, key: &str) -> (r: Option<&str>)
        ensures
            match r {
                Some(v) => param_from(self@.params, key@, 0) == Some(v@),
                None => param_from(self@.params, key@, 0) is None,
            },
    {
        let mut i: usize = 0;
        while i < self.params.len()
            invariant
                i <= self.params.len(),
                param_from(self@.params, key@, 0) == param_from(self@.params, key@, i as int),
            decreases self.params.len() - i,
        {
            if str_same(self.params[i].0.as_str(), key) {
                return Some(self.params[i].1.as_str());
            }
            i = i + 1;
        }
        None
    }
}

/// The first position from `from` on that holds one of three characters, or the
/// length of the text.
pub open spec fn next_of(s: Seq<char>, a: char, b: char, c: char, from: int) -> int
    decreases s.len() - from,
{
    if from >= s.len() {
        s.len() as int
    } else if s[from] == a || s[from] == b || s[from] == c {
        from
    } else {
        next_of(s, a, b, c, from + 1)
    }
}

proof fn lemma_next_of(s: Seq<char>, a: char, b: char, c: char, from: int)
    requires
        0 <= from <= s.len(),
    ensures
        from <= next_of(s, a, b, c, from) <= s.len(),
    decreases s.len() - from,
{
    if from < s.len() {
        lemma_next_of(s, a, b, c, from + 1);
    }
}

fn skip_to(s: &[char], a: char, b: char, c: char, from: usize) -> (r: usize)
    requires
        from <= s.len(),
    ensures
        r == next_of(s@, a, b, c, from as int),
        from <= r <= s.len(),
{
    let mut i: usize = from;
    while i < s.len() && s[i] != a && s[i] != b && s[i] != c
        invariant
            from <= i <= s.len(),
            next_of(s@, a, b, c, from as int) == next_of(s@, a, b, c, i as int),
        decreases s.len() - i,
    {
        i = i + 1;
    }
    i
}

/// Where one value of a parameter starts and ends, and where the text goes on
/// after it. Quotation marks around a value are not part of it.
pub open spec fn param_value(s: Seq<char>, i: int) -> (int, int, int) {
    if i < s.len() && s[i] == '"' {
        let e = position(s, '"', i + 1);
        (i + 1, e, next_of(s, ',', ';', ':', if e < s.len() {
            e + 1
        } else {
            e
        }))
    } else {
        let j = next_of(s, ',', ';', ':', i);
        (i, j, j)
    }
}

/// The values of a parameter joined by commas, and the position after them.
pub open spec fn param_text(s: Seq<char>, i: int) -> (Seq<char>, int)
    decreases s.len() - i,
    when 0 <= i <= s.len()
    via param_text_decreases
{
    let (a, b, j) = param_value(s, i);
    if j < s.len() && s[j] == ',' {
        let rest = param_text(s, j + 1);
        (s.subrange(a, b) + seq![','] + rest.0, rest.1)
    } else {
        (s.subrange(a, b), j)
    }
}

proof fn lemma_param_value(s: Seq<char>, i: int)
    requires
        0 <= i <= s.len(),
    ensures
        ({
            let (a, b, j) = param_value(s, i);
            i <= a <= b <= j <= s.len()
        }),
{
    if i < s.len() && s[i] == '"' {
        lemma_position(s, '"', i + 1);
        let e = position(s, '"', i + 1);
        lemma_next_of(s, ',', ';', ':', if e < s.len() {
            e + 1
        } else {
            e
        });
    } else {
        lemma_next_of(s, ',', ';', ':', i);
    }
}

#[via_fn]
proof fn param_text_decreases(s: Seq<char>, i: int) {
    lemma_param_value(s, i);
}

proof fn lemma_param_text(s: Seq<char>, i: int)
    requires
        0 <= i <= s.len(),
    ensures
        i <= param_text(s, i).1 <= s.len(),
    decreases s.len() - i,
{
    lemma_param_value(s, i);
    let (a, b, j) = param_value(s, i);
    if j < s.len() && s[j] == ',' {
        lemma_param_text(s, j + 1);
    }
}

fn read_param_text(s: &[char], from: usize) -> (r: (Vec<char>, usize))
    requires
        from <= s.len(),
    ensures
        (r.0@, r.1 as int) == param_text(s@, from as int),
        from <= r.1 <= s.len(),
{
    let mut acc: Vec<char> = Vec::new();
    let mut i: usize = from;
    proof {
        lemma_param_text(s@, from as int);
        assert(acc@ + param_text(s@, i as int).0 =~= param_text(s@, from as int).0);
    }
    loop
        invariant
            from <= i <= s.len(),
            acc@ + param_text(s@, i as int).0 == param_text(s@, from as int).0,
            param_text(s@, i as int).1 == param_text(s@, from as int).1,
            from <= param_text(s@, from as int).1 <= s.len(),
        decreases s.len() - i,
    {
        proof {
            lemma_param_value(s@, i as int);
        }
        let ghost before = acc@;
        let a: usize;
        let b: usize;
        let j: usize;
        if i < s.len() && s[i] == '"' {
            a = i + 1;
            b = find_char(s, '"', i + 1);
            let after: usize = if b < s.len() {
                b + 1
            } else {
                b
            };
            j = skip_to(s, ',', ';', ':', after);
        } else {
            a = i;
            b = skip_to(s, ',', ';', ':', i);
            j = b;
        }
        let mut v = copy_range(s, a, b);
        let ghost vv = v@;
        acc.append(&mut v);
        if j < s.len() && s[j] == ',' {
            acc.push(',');
            proof {
                let rest = param_text(s@, j + 1).0;
                assert(before + (vv + seq![','] + rest) =~= acc@ + rest);
            }
            i = j + 1;
        } else {
            return (acc, j);
        }
    }
}

/// The parameters from position `i` on, and the position after them.
pub open spec fn params_from(s: Seq<char>, i: int) -> (Seq<(Seq<char>, Seq<char>)>, int)
    decreases s.len() - i,
    when 0 <= i <= s.len()
    via params_from_decreases
{
    if i < s.len() && s[i] == ';' {
        let e = next_of(s, '=', ';', ':', i + 1);
        let key = upper(trim(s.subrange(i + 1, e)));
        let v = if e < s.len() && s[e] == '=' {
            param_text(s, e + 1)
        } else {
            (Seq::<char>::empty(), e)
        };
        let rest = params_from(s, v.1);
        (seq![(key, v.0)] + rest.0, rest.1)
    } else {
        (Seq::empty(), i)
    }
}

proof fn lemma_param_end(s: Seq<char>, i: int)
    requires
        0 <= i < s.len(),
    ensures
        ({
            let e = next_of(s, '=', ';', ':', i + 1);
            let v = if e < s.len() && s[e] == '=' {
                param_text(s, e + 1)
            } else {
                (Seq::<char>::empty(), e)
            };
            i < e <= s.len() && i < v.1 <= s.len()
        }),
{
    lemma_next_of(s, '=', ';', ':', i + 1);
    let e = next_of(s, '=', ';', ':', i + 1);
    if e < s.len() {
        lemma_param_text(s, e + 1);
    }
}

#[via_fn]
proof fn params_from_decreases(s: Seq<char>, i: int) {
    if i < s.len() {
        lemma_param_end(s, i);
    }
}

proof fn lemma_params_from(s: Seq<char>, i: int)
    requires
        0 <= i <= s.len(),
    ensures
        i <= params_from(s, i).1 <= s.len(),
    decreases s.len() - i,
{
    if i < s.len() && s[i] == ';' {
        lemma_param_end(s, i);
        let e = next_of(s, '=', ';', ':', i + 1);
        let v = if e < s.len() && s[e] == '=' {
            param_text(s, e + 1)
        } else {
            (Seq::<char>::empty(), e)
        };
        lemma_params_from(s, v.1);
    }
}

fn read_params(s: &[char], from: usize) -> (r: (Vec<(String, String)>, usize))
    requires
        from <= s.len(),
    ensures
        (param_models(r.0@), r.1 as int) == params_from(s@, from as int),
        from <= r.1 <= s.len(),
{
    let mut out: Vec<(String, String)> = Vec::new();
    let mut i: usize = from;
    proof {
        assert(param_models(out@) + params_from(s@, i as int).0 =~= params_from(s@, from as int).0);
    }
    while i < s.len() && s[i] == ';'
        invariant
            from <= i <= s.len(),
            param_models(out@) + params_from(s@, i as int).0 == params_from(s@, from as int).0,
            params_from(s@, i as int).1 == params_from(s@, from as int).1,
        decreases s.len() - i,
    {
        proof {
            lemma_param_end(s@, i as int);
        }
        let ghost before = param_models(out@);
        let e: usize = skip_to(s, '=', ';', ':', i + 1);
        let raw_key = copy_range(s, i + 1, e);
        let trimmed_key = trimmed(raw_key.as_slice());
        let key = to_upper(trimmed_key.as_slice());
        let mut value: Vec<char> = Vec::new();
        let mut j: usize = e;
        if e < s.len() && s[e] == '=' {
            let (v, k) = read_param_text(s, e + 1);
            value = v;
            j = k;
        }
        let pair = (string_of(key.as_slice()), string_of(value.as_slice()));
        out.push(pair);
        proof {
            let m = (pair.0@, pair.1@);
            assert(param_models(out@) =~= before.push(m));
            let rest = params_from(s@, j as int).0;
            assert(before + (seq![m] + rest) =~= before.push(m) + rest);
        }
        i = j;
    }
    proof {
        assert(param_models(out@) + Seq::<(Seq<char>, Seq<char>)>::empty() =~= param_models(out@));
    }
    (out, i)
}

/// The property that a line spells: a name, parameters, a colon and a value.
pub open spec fn property_of(line: Seq<char>) -> Option<PropModel> {
    let e = next_of(line, ';', ':', ':', 0);
    let (params, j) = params_from(line, e);
    if e >= line.len() || j >= line.len() || line[j] != ':' {
        None
    } else {
        Some(
            PropModel {
                name: upper(trim(line.subrange(0, e))),
                params,
                value: line.subrange(j + 1, line.len() as int),
            },
        )
    }
}

/// Splits a line into name, parameters and value.
pub fn parse_line(line: &[char]) -> (r: Option<Prop>)
    ensures
        match r {
            Some(p) => property_of(line@) == Some(p@),
            None => property_of(line@) is None,
        },
{
    let e: usize = skip_to(line, ';', ':', ':', 0);
    if e >= line.len() {
        return None;
    }
    let raw_name = copy_range(line, 0, e);
    let trimmed_name = trimmed(raw_name.as_slice());
    let name = to_upper(trimmed_name.as_slice());
    let (params, j) = read_params(line, e);
    if j >= line.len() || line[j] != ':' {
        return None;
    }
    let value = copy_range(line, j + 1, line.len());
    Some(Prop { name: string_of(name.as_slice()), params, value: string_of(value.as_slice()) })
}

// ---------------------------------------------------------------------------
// Components
// ---------------------------------------------------------------------------

/// A component, in the order in which components begin.
#[derive(Debug)]
pub struct Comp {
    pub name: String,
    pub props: Vec<Prop>,
    /// The position of the component around this one.
    pub parent: Option<usize>,
    /// Whether it lies inside an event, a task, a journal entry or a time zone.
    pub hidden: bool,
}

#[verifier::ext_equal]
pub struct CompModel {
    pub name: Seq<char>,
    pub props: Seq<PropModel>,
    pub parent: Option<int>,
    pub hidden: bool,
}

impl View for Comp {
    type V = CompModel;

    open spec fn view(&self) -> CompModel {
        CompModel {
            name: self.name@,
            props: prop_models(self.props@),
            parent: match self.parent {
                Some(p) => Some(p as int),
                None => None,
            },
            hidden: self.hidden,
        }
    }
}

pub open spec fn comp_models(v: Seq<Comp>) -> Seq<CompModel> {
    v.map_values(|c: Comp| c@)
}

/// The components begun so far, and the positions of those still open, the
/// innermost last.
#[verifier::ext_equal]
pub struct ParseModel {
    pub comps: Seq<CompModel>,
    pub open: Seq<int>,
}

/// Whether components inside one of this name are not events of their own.
pub open spec fn hides_children(name: Seq<char>) -> bool {
    name == "VEVENT"@ || name == "VTODO"@ || name == "VJOURNAL"@ || name == "VTIMEZONE"@
}

/// Among the first `n` open components, the innermost with a name.
pub open spec fn innermost(m: ParseModel, name: Seq<char>, n: int) -> Option<int>
    decreases n,
{
    if n <= 0 {
        None
    } else if m.comps[m.open[n - 1]].name == name {
        Some(n - 1)
    } else {
        innermost(m, name, n - 1)
    }
}

/// The components after one more line. BEGIN opens a component inside the
/// innermost open one. END closes the innermost open component of that name and
/// all inside it. Any other property belongs to the innermost open component.
pub open spec fn parse_step(m: ParseModel, line: Seq<char>) -> ParseModel {
    match property_of(line) {
        None => m,
        Some(p) => if p.name == "BEGIN"@ {
            let parent = if m.open.len() > 0 {
                Some(m.open[m.open.len() - 1])
            } else {
                None
            };
            ParseModel {
                comps: m.comps.push(
                    CompModel {
                        name: upper(trim(p.value)),
                        props: Seq::empty(),
                        parent,
                        hidden: match parent {
                            Some(i) => m.comps[i].hidden || hides_children(m.comps[i].name),
                            None => false,
                        },
                    },
                ),
                open: m.open.push(m.comps.len() as int),
            }
        } else if p.name == "END"@ {
            match innermost(m, upper(trim(p.value)), m.open.len() as int) {
                Some(k) => ParseModel { comps: m.comps, open: m.open.take(k) },
                None => m,
            }
        } else if m.open.len() > 0 {
            let i = m.open[m.open.len() - 1];
            let c = m.comps[i];
            ParseModel { comps: m.comps.update(i, CompModel { props: c.props.push(p), ..c }), open: m.open }
        } else {
            m
        },
    }
}

pub open spec fn parse_first(lines: Seq<Seq<char>>, n: int) -> ParseModel
    decreases n,
{
    if n <= 0 {
        ParseModel { comps: Seq::empty(), open: Seq::empty() }
    } else {
        parse_step(parse_first(lines, n - 1), lines[n - 1])
    }
}

/// All components of a file.
pub open spec fn components_of(text: Seq<char>) -> Seq<CompModel> {
    let lines = unfolded(text);
    parse_first(lines, lines.len() as int).comps
}

pub open spec fn is_calendar_root(c: CompModel) -> bool {
    c.parent is None && c.name == "VCALENDAR"@
}

/// A file is a calendar if one of its outermost components is.
pub open spec fn is_calendar(comps: Seq<CompModel>) -> bool {
    exists|i: int| 0 <= i < comps.len() && is_calendar_root(#[trigger] comps[i])
}

fn is_hiding(name: &str) -> (r: bool)
    ensures
        r == hides_children(name@),
{
    str_same(name, "VEVENT") || str_same(name, "VTODO") || str_same(name, "VJOURNAL") || str_same(name, "VTIMEZONE")
}

/// The positions of open components as numbers.
pub open spec fn open_model(v: Seq<usize>) -> Seq<int> {
    v.map_values(|i: usize| i as int)
}

/// The innermost open component with a name.
fn find_open(comps: &Vec<Comp>, open: &Vec<usize>, name: &[char]) -> (r: Option<usize>)
    requires
        forall|i: int| 0 <= i < open@.len() ==> #[trigger] open@[i] < comps@.len(),
    ensures
        match r {
            Some(k) => innermost(
                ParseModel { comps: comp_models(comps@), open: open_model(open@) },
                name@,
                open@.len() as int,
            ) == Some(k as int) && k < open@.len(),
            None => innermost(
                ParseModel { comps: comp_models(comps@), open: open_model(open@) },
                name@,
                open@.len() as int,
            ) is None,
        },
{
    let ghost m = ParseModel { comps: comp_models(comps@), open: open_model(open@) };
    let mut n: usize = open.len();
    while n > 0
        invariant
            n <= open.len(),
            m == (ParseModel { comps: comp_models(comps@), open: open_model(open@) }),
            forall|i: int| 0 <= i < open@.len() ==> #[trigger] open@[i] < comps@.len(),
            innermost(m, name@, open@.len() as int) == innermost(m, name@, n as int),
        decreases n,
    {
        let i: usize = open[n - 1];
        proof {
            assert(m.open[n - 1] == i);
            assert(m.comps[i as int].name == comps@[i as int].name@);
        }
        if is_str(name, comps[i].name.as_str()) {
            return Some(n - 1);
        }
        n = n - 1;
    }
    None
}

fn apply_line(comps: &mut Vec<Comp>, open: &mut Vec<usize>, line: &[char])
    requires
        forall|i: int| 0 <= i < old(open)@.len() ==> #[trigger] old(open)@[i] < old(comps)@.len(),
    ensures
        forall|i: int| 0 <= i < final(open)@.len() ==> #[trigger] final(open)@[i] < final(comps)@.len(),
        (ParseModel { comps: comp_models(final(comps)@), open: open_model(final(open)@) }) == parse_step(
            ParseModel { comps: comp_models(old(comps)@), open: open_model(old(open)@) },
            line@,
        ),
{
    let ghost m = ParseModel { comps: comp_models(comps@), open: open_model(open@) };
    match parse_line(line) {
        None => {},
        Some(p) => {
            if str_same(p.name.as_str(), "BEGIN") {
                let v = chars_of(p.value.as_str());
                let t = trimmed(v.as_slice());
                let name = to_upper(t.as_slice());
                let parent: Option<usize> = if open.len() > 0 {
                    Some(open[open.len() - 1])
                } else {
                    None
                };
                let hidden: bool = match parent {
                    Some(i) => comps[i].hidden || is_hiding(comps[i].name.as_str()),
                    None => false,
                };
                let c = Comp { name: string_of(name.as_slice()), props: Vec::new(), parent, hidden };
                proof {
                    assert(c@.props =~= Seq::<PropModel>::empty());
                }
                open.push(comps.len());
                comps.push(c);
                proof {
                    assert(comp_models(comps@) =~= m.comps.push(c@));
                    assert(open_model(open@) =~= m.open.push(m.comps.len() as int));
                }
            } else if str_same(p.name.as_str(), "END") {
                let v = chars_of(p.value.as_str());
                let t = trimmed(v.as_slice());
                let name = to_upper(t.as_slice());
                match find_open(comps, open, name.as_slice()) {
                    Some(k) => {
                        open.truncate(k);
                        proof {
                            assert(open_model(open@) =~= m.open.take(k as int));
                        }
                    },
                    None => {},
                }
            } else if open.len() > 0 {
                let i: usize = open[open.len() - 1];
                let ghost c = comps@[i as int]@;
                let ghost pm = p@;
                comps[i].props.push(p);
                proof {
                    assert(comps@[i as int]@.props =~= c.props.push(pm));
                    assert(comp_models(comps@) =~= m.comps.update(
                        i as int,
                        CompModel { props: c.props.push(pm), ..c },
                    ));
                }
            }
        },
    }
}

/// The components of a file, in the order in which they begin. A file without an
/// outermost calendar component is refused.
pub fn parse_components(text: &[char]) -> (r: Result<Vec<Comp>, String>)
    ensures
        match r {
            Ok(comps) => comp_models(comps@) == components_of(text@) && is_calendar(components_of(text@)),
            Err(e) => e@ == "not an ICS file"@ && !is_calendar(components_of(text@)),
        },
{
    let lines = unfold(text);
    let ghost lv = views(lines@);
    let mut comps: Vec<Comp> = Vec::new();
    let mut open: Vec<usize> = Vec::new();
    let mut i: usize = 0;
    proof {
        assert(comp_models(comps@) =~= Seq::<CompModel>::empty());
        assert(open_model(open@) =~= Seq::<int>::empty());
    }
    while i < lines.len()
        invariant
            i <= lines.len(),
            lv == views(lines@),
            forall|k: int| 0 <= k < open@.len() ==> #[trigger] open@[k] < comps@.len(),
            (ParseModel { comps: comp_models(comps@), open: open_model(open@) }) == parse_first(lv, i as int),
        decreases lines.len() - i,
    {
        proof {
            assert(lv[i as int] == lines@[i as int]@);
        }
        apply_line(&mut comps, &mut open, lines[i].as_slice());
        i = i + 1;
    }
    let ghost cm = comp_models(comps@);
    let mut k: usize = 0;
    while k < comps.len()
        invariant
            k <= comps.len(),
            cm == comp_models(comps@),
            forall|j: int| 0 <= j < k ==> !is_calendar_root(#[trigger] cm[j]),
            cm == components_of(text@),
        decreases comps.len() - k,
    {
        if comps[k].parent.is_none() && str_same(comps[k].name.as_str(), "VCALENDAR") {
            proof {
                assert(is_calendar_root(cm[k as int]));
            }
            return Ok(comps);
        }
        k = k + 1;
    }
    Err("not an ICS file".to_string())
}

/// The first property with a name, from position `i` on.
pub open spec fn prop_from(props: Seq<PropModel>, name: Seq<char>, i: int) -> Option<PropModel>
    decreases props.len() - i,
{
    if i >= props.len() {
        None
    } else if props[i].name == name {
        Some(props[i])
    } else {
        prop_from(props, name, i + 1)
    }
}

impl Comp {
    /// The first property with a name.
    pub fn prop(&self, name: &str) -> (r: Option<&Prop>)
        ensures
            match r {
                Some(p) => prop_from(self@.props, name@, 0) == Some(p@),
                None => prop_from(self@.props, name@, 0) is None,
            },
    {
        let mut i: usize = 0;
        while i < self.props.len()
            invariant
                i <= self.props.len(),
                prop_from(self@.props, name@, 0) == prop_from(self@.props, name@, i as int),
            decreases self.props.len() - i,
        {
            if str_same(self.props[i].name.as_str(), name) {
                return Some(&self.props[i]);
            }
            i = i + 1;
        }
        None
    }
}

// ---------------------------------------------------------------------------
// Escaped text
// ---------------------------------------------------------------------------

/// Text with its escapes undone: a backslash and the letter n stand for a line
/// break, a backslash and any other character for that character.
pub open spec fn unescaped(s: Seq<char>, i: int) -> Seq<char>
    decreases s.len() - i,
{
    if i >= s.len() {
        Seq::empty()
    } else if s[i] != '\\' {
        seq![s[i]] + unescaped(s, i + 1)
    } else if i + 1 >= s.len() {
        seq!['\\']
    } else if s[i + 1] == 'n' || s[i + 1] == 'N' {
        seq!['\n'] + unescaped(s, i + 2)
    } else {
        seq![s[i + 1]] + unescaped(s, i + 2)
    }
}

pub fn unescape_text(s: &[char]) -> (r: Vec<char>)
    ensures
        r@ == unescaped(s@, 0),
{
    let mut out: Vec<char> = Vec::new();
    let mut i: usize = 0;
    proof {
        assert(out@ + unescaped(s@, 0) =~= unescaped(s@, 0));
    }
    while i < s.len()
        invariant
            i <= s.len(),
            out@ + unescaped(s@, i as int) == unescaped(s@, 0),
        decreases s.len() - i,
    {
        let ghost before = out@;
        let c = s[i];
        if c != '\\' {
            out.push(c);
            proof {
                assert(before + (seq![c] + unescaped(s@, i + 1)) =~= out@ + unescaped(s@, i + 1));
            }
            i = i + 1;
        } else if s.len() - i == 1 {
            out.push('\\');
            proof {
                assert(out@ =~= before + seq!['\\']);
            }
            return out;
        } else {
            let x: char = if s[i + 1] == 'n' || s[i + 1] == 'N' {
                '\n'
            } else {
                s[i + 1]
            };
            out.push(x);
            proof {
                assert(before + (seq![x] + unescaped(s@, i + 2)) =~= out@ + unescaped(s@, i + 2));
            }
            i = i + 2;
        }
    }
    proof {
        assert(out@ + Seq::<char>::empty() =~= out@);
    }
    out
}

/// Text with every backslash, comma, semicolon and line break escaped.
pub open spec fn escaped(s: Seq<char>) -> Seq<char>
    decreases s.len(),
{
    if s.len() == 0 {
        Seq::empty()
    } else {
        let c = s.last();
        let e: Seq<char> = if c == '\n' {
            seq!['\\', 'n']
        } else if c == '\\' || c == ',' || c == ';' {
            seq!['\\', c]
        } else {
            seq![c]
        };
        escaped(s.drop_last()) + e
    }
}

/// Undoing the escapes gives back the text that was escaped.
pub proof fn law_unescape_undoes_escape(s: Seq<char>)
    ensures
        unescaped(escaped(s), 0) == s,
    decreases s.len(),
{
    lemma_unescape_append(s, Seq::empty());
    assert(escaped(s) + Seq::<char>::empty() =~= escaped(s));
    assert(s + Seq::<char>::empty() =~= s);
}

proof fn lemma_unescape_shift(a: Seq<char>, s: Seq<char>, i: int)
    requires
        0 <= i,
    ensures
        unescaped(a + s, a.len() + i) == unescaped(s, i),
    decreases s.len() - i,
{
    if i < s.len() {
        assert((a + s)[a.len() + i] == s[i]);
        if s[i] != '\\' {
            lemma_unescape_shift(a, s, i + 1);
        } else if i + 1 < s.len() {
            assert((a + s)[a.len() + i + 1] == s[i + 1]);
            lemma_unescape_shift(a, s, i + 2);
        }
    }
}

proof fn lemma_unescape_append(s: Seq<char>, rest: Seq<char>)
    ensures
        unescaped(escaped(s) + rest, 0) == s + unescaped(rest, 0),
    decreases s.len(),
{
    if s.len() == 0 {
        assert(escaped(s) + rest =~= rest);
        assert(s + unescaped(rest, 0) =~= unescaped(rest, 0));
    } else {
        let c = s.last();
        let e: Seq<char> = if c == '\n' {
            seq!['\\', 'n']
        } else if c == '\\' || c == ',' || c == ';' {
            seq!['\\', c]
        } else {
            seq![c]
        };
        lemma_unescape_append(s.drop_last(), e + rest);
        assert(escaped(s) + rest =~= escaped(s.drop_last()) + (e + rest));
        lemma_unescape_shift(e, rest, 0);
        assert(unescaped(e + rest, 0) =~= seq![c] + unescaped(rest, 0)) by {
            assert((e + rest)[0] == e[0]);
            if e.len() == 2 {
                assert((e + rest)[1] == e[1]);
            }
        }
        assert(s.drop_last() + (seq![c] + unescaped(rest, 0)) =~= s + unescaped(rest, 0));
    }
}

/// A line of a name and a value says exactly those: the name in large letters, and the value as
/// it stands, whatever colons it has.
pub proof fn law_lines_of_names_and_values(name: Seq<char>, value: Seq<char>)
    requires
        !name.contains(':'),
        !name.contains(';'),
    ensures
        property_of(name + seq![':'] + value) == Some(
            PropModel { name: upper(trim(name)), params: Seq::empty(), value },
        ),
{
    let line = name + seq![':'] + value;
    lemma_next_of(line, ';', ':', ':', 0);
    let e = next_of(line, ';', ':', ':', 0);
    lemma_up_to(name, value, ':', ';', ':', ':', 0);
    assert(line[e] == ':');
    assert(line.subrange(0, e) =~= name);
    assert(line.subrange(e + 1, line.len() as int) =~= value);
}

proof fn lemma_up_to(name: Seq<char>, rest: Seq<char>, end: char, a: char, b: char, c: char, i: int)
    requires
        0 <= i <= name.len(),
        end == a || end == b || end == c,
        !name.contains(a),
        !name.contains(b),
        !name.contains(c),
    ensures
        next_of(name + seq![end] + rest, a, b, c, i) == name.len(),
    decreases name.len() - i,
{
    let s = name + seq![end] + rest;
    if i < name.len() {
        assert(s[i] == name[i]);
        assert(name.contains(name[i]));
        lemma_up_to(name, rest, end, a, b, c, i + 1);
    } else {
        assert(s[i] == end);
    }
}

/// What a line does to the components that are open: one that begins a component opens it
/// inside the last that is open, hidden where that one is or is an event, a task, a journal or
/// a time zone; one that ends it closes it; any other belongs to the last that is open, and to
/// nobody else.
pub proof fn law_components_are_nested(m: ParseModel, line: Seq<char>, p: PropModel)
    requires
        property_of(line) == Some(p),
        m.open.len() > 0,
        0 <= m.open.last() < m.comps.len(),
    ensures
        ({
            let m1 = parse_step(m, line);
            let top = m.open.last();
            &&& p.name == "BEGIN"@ ==> m1.comps.len() == m.comps.len() + 1 && m1.comps.last().parent == Some(top)
                && m1.comps.last().name == upper(trim(p.value)) && m1.comps.last().props.len() == 0 && m1.open
                == m.open.push(m.comps.len() as int) && m1.comps.last().hidden == (m.comps[top].hidden
                || m.comps[top].name == "VEVENT"@ || m.comps[top].name == "VTODO"@ || m.comps[top].name == "VJOURNAL"@
                || m.comps[top].name == "VTIMEZONE"@)
            &&& p.name == "END"@ ==> m1.comps == m.comps
            &&& p.name == "END"@ && upper(trim(p.value)) == m.comps[top].name ==> m1.open == m.open.drop_last()
            &&& p.name != "BEGIN"@ && p.name != "END"@ ==> m1.open == m.open && m1.comps.len() == m.comps.len()
                && m1.comps[top].props == m.comps[top].props.push(p) && forall|i: int|
                0 <= i < m.comps.len() && i != top ==> #[trigger] m1.comps[i] == m.comps[i]
        }),
{
    reveal_strlit("BEGIN");
    reveal_strlit("END");
    assert("BEGIN"@.len() == 5 && "END"@.len() == 3);
    let top = m.open.last();
    if p.name == "END"@ && upper(trim(p.value)) == m.comps[top].name {
        assert(m.open[m.open.len() - 1] == top);
        assert(m.open.take(m.open.len() - 1) =~= m.open.drop_last());
    }
}

/// A line with a parameter says it too: its name in large letters and its value as it stands.
pub proof fn law_lines_with_a_parameter(name: Seq<char>, key: Seq<char>, val: Seq<char>, value: Seq<char>)
    requires
        !name.contains(':') && !name.contains(';'),
        !key.contains(':') && !key.contains(';') && !key.contains('='),
        !val.contains(':') && !val.contains(';') && !val.contains(',') && !val.contains('"'),
        val.len() > 0,
    ensures
        property_of(name + seq![';'] + key + seq!['='] + val + seq![':'] + value) == Some(
            PropModel { name: upper(trim(name)), params: seq![(upper(trim(key)), val)], value },
        ),
{
    let line = name + seq![';'] + key + seq!['='] + val + seq![':'] + value;
    let a = name.len() as int;
    let b = a + 1 + key.len();
    let c = b + 1 + val.len();
    lemma_up_to_here(line, 0, a, ';', ':', ':');
    assert(line[a] == ';');
    lemma_up_to_here(line, a + 1, b, '=', ';', ':');
    assert(line[b] == '=');
    assert(line[b + 1] == val[0]);
    assert(val.contains(val[0]));
    lemma_up_to_here(line, b + 1, c, ',', ';', ':');
    assert(line[c] == ':');
    assert(line.subrange(0, a) =~= name);
    assert(line.subrange(a + 1, b) =~= key);
    assert(line.subrange(b + 1, c) =~= val);
    assert(param_text(line, b + 1) == (val, c));
    assert(params_from(line, c) == (Seq::<(Seq<char>, Seq<char>)>::empty(), c));
    assert(params_from(line, a).0 =~= seq![(upper(trim(key)), val)]);
    assert(line.subrange(c + 1, line.len() as int) =~= value);
}

proof fn lemma_up_to_here(s: Seq<char>, from: int, e: int, a: char, b: char, c: char)
    requires
        0 <= from <= e < s.len(),
        s[e] == a || s[e] == b || s[e] == c,
        forall|i: int| from <= i < e ==> #[trigger] s[i] != a && s[i] != b && s[i] != c,
    ensures
        next_of(s, a, b, c, from) == e,
    decreases e - from,
{
    if from < e {
        lemma_up_to_here(s, from + 1, e, a, b, c);
    }
}

} // verus!
