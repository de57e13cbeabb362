//! The template source and the spans that point into it.
use vstd::prelude::*;
use crate::text::{
    Class, blen, byte_len, chars_in, find, index_of, is_boundary, lemma_blen_take_le,
    lemma_blen_take_step, lemma_boundary_of_skip, lemma_chars_in, lemma_index_of, split_bytes,
};

verus! {

/// Whether `at` (a byte offset and a byte length) starts and ends between characters of `cs`.
pub open spec fn valid_span(cs: Seq<char>, at: (usize, usize)) -> bool {
    &&& is_boundary(cs, at.0 as int)
    &&& is_boundary(cs, at.0 + at.1)
}

/// The characters of `cs` that the byte span `at` covers.
pub open spec fn span(cs: Seq<char>, at: (usize, usize)) -> Seq<char> {
    cs.subrange(chars_in(cs, at.0 as int), chars_in(cs, at.0 + at.1))
}

/// The byte length of a span is its length.
pub proof fn lemma_span_blen(cs: Seq<char>, at: (usize, usize))
    requires
        valid_span(cs, at),
    ensures
        blen(span(cs, at)) == at.1,
{
    let i = chars_in(cs, at.0 as int);
    let j = chars_in(cs, at.0 + at.1);
    if j < i {
        crate::text::lemma_blen_take_mono(cs, j, i);
    }
    crate::text::lemma_blen_take_skip(cs, i, j);
    assert(span(cs, at) =~= cs.skip(i).take(j - i));
}

/// The source text of a template.
#[derive(Clone, Copy)]
pub struct TemplateString<'t>(pub &'t str);

impl<'t> TemplateString<'t> {
    /// The text at byte offset `at.0`, `at.1` bytes long.
    pub fn content(&self, at: (usize, usize)) -> (r: &'t str)
        requires
            valid_span(self.0@, at),
        ensures
            r@ == span(self.0@, at),
    {
        let (start, len) = at;
        let ghost cs = self.0@;
        let ghost i = chars_in(cs, start as int);
        let ghost j = chars_in(cs, start + len);
        proof {
            lemma_blen_take_le(cs, j);
            lemma_blen_take_le(cs, i);
            lemma_boundary_of_skip(cs, i, start + len);
            lemma_chars_in(cs, i);
        }
        let rest = split_bytes(self.0, start).1;
        let r = split_bytes(rest, len).0;
        assert(r@ =~= cs.subrange(i, j));
        r
    }
}

impl<'t> From<&'t str> for TemplateString<'t> {
    fn from(value: &'t str) -> (r: Self)
        ensures
            r.0 == value,
    {
        TemplateString(value)
    }
}

impl<'t> vstd::std_specs::convert::FromSpecImpl<&'t str> for TemplateString<'t> {
    open spec fn obeys_from_spec() -> bool {
        true
    }

    open spec fn from_spec(v: &'t str) -> Self {
        TemplateString(v)
    }
}

/// The parts of a dotted name, each with its byte span, starting at byte offset `start`.
pub open spec fn dotted_parts(cs: Seq<char>, start: int) -> Seq<(Seq<char>, (int, int))>
    decreases cs.len(),
{
    if cs.len() == 0 {
        Seq::empty()
    } else {
        let k = index_of(cs, Class::Char('.'));
        proof {
            lemma_index_of(cs, Class::Char('.'));
        }
        if k < cs.len() {
            seq![(cs.take(k), (start, blen(cs.take(k)) as int))] + dotted_parts(
                cs.skip(k + 1),
                start + blen(cs.take(k)) + 1,
            )
        } else {
            seq![(cs, (start, blen(cs) as int))]
        }
    }
}

/// A string literal: the span of its content, without the quotes.
#[derive(Clone, Copy, Debug, PartialEq, Eq)]
pub struct Text {
    pub at: (usize, usize),
}

impl Text {
    pub fn new(at: (usize, usize)) -> (r: Self)
        ensures
            r.at == at,
    {
        Self { at }
    }
}

/// A translated string literal: the span of its content, without `_(`, the quotes and `)`.
#[derive(Clone, Copy, Debug, PartialEq, Eq)]
pub struct TranslatedText {
    pub at: (usize, usize),
}

impl TranslatedText {
    pub fn new(at: (usize, usize)) -> (r: Self)
        ensures
            r.at == at,
    {
        Self { at }
    }
}

/// A variable, such as `user.name`, by its span.
#[derive(Clone, Copy, Debug, PartialEq, Eq)]
pub struct Variable {
    pub at: (usize, usize),
}

impl Variable {
    pub fn new(at: (usize, usize)) -> (r: Self)
        ensures
            r.at == at,
    {
        Self { at }
    }

    /// The dot-separated parts of the variable, each with its span in the template.
    pub fn parts<'t>(&self, template: TemplateString<'t>) -> (r: Vec<(&'t str, (usize, usize))>)
        requires
            valid_span(template.0@, self.at),
        ensures
            r@.len() == dotted_parts(span(template.0@, self.at), self.at.0 as int).len(),
            forall|i: int|
                0 <= i < r@.len() ==> {
                    let p = dotted_parts(span(template.0@, self.at), self.at.0 as int)[i];
                    &&& (#[trigger] r@[i]).0@ == p.0
                    &&& r@[i].1.0 == p.1.0
                    &&& r@[i].1.1 == p.1.1
                },
    {
        let mut start = self.at.0;
        let mut variable = template.content(self.at);
        let ghost total = dotted_parts(variable@, start as int);
        let mut parts: Vec<(&'t str, (usize, usize))> = Vec::new();
        let _ = byte_len(template.0);
        proof {
            let cs = template.0@;
            let j = chars_in(cs, self.at.0 + self.at.1);
            let i = chars_in(cs, self.at.0 as int);
            lemma_blen_take_le(cs, j);
            lemma_boundary_of_skip(cs, i, self.at.0 + self.at.1);
            lemma_chars_in(cs, i);
            lemma_chars_in(cs.skip(i), j - i);
            assert(variable@ =~= cs.skip(i).take(j - i));
            assert(cs.take(j) =~= cs.take(i) + cs.skip(i).take(j - i));
            crate::text::lemma_blen_concat(cs.take(i), cs.skip(i).take(j - i));
        }
        while byte_len(variable) > 0
            invariant
                start + blen(variable@) <= usize::MAX,
                parts@.len() + dotted_parts(variable@, start as int).len() == total.len(),
                forall|i: int|
                    0 <= i < parts@.len() ==> {
                        let p = total[i];
                        &&& (#[trigger] parts@[i]).0@ == p.0
                        &&& parts@[i].1.0 == p.1.0
                        &&& parts@[i].1.1 == p.1.1
                    },
                forall|i: int|
                    0 <= i < dotted_parts(variable@, start as int).len() ==> #[trigger] dotted_parts(
                        variable@,
                        start as int,
                    )[i] == total[parts@.len() + i],
            decreases variable@.len(),
        {
            let ghost v = variable@;
            let ghost d = dotted_parts(v, start as int);
            proof {
                lemma_index_of(v, Class::Char('.'));
                lemma_blen_take_le(v, v.len() as int);
            }
            match find(variable, Class::Char('.')) {
                Some(index) => {
                    let ghost k = index_of(v, Class::Char('.'));
                    proof {
                        lemma_chars_in(v, k);
                        lemma_chars_in(v, k + 1);
                        lemma_blen_take_step(v, k);
                        lemma_blen_take_le(v, k + 1);
                    }
                    proof {
                        crate::text::lemma_blen_take_skip(v, k + 1, k + 1);
                        assert(d[0] == (v.take(k), (start as int, blen(v.take(k)) as int)));
                    }
                    let part = split_bytes(variable, index).0;
                    let at = (start, index);
                    parts.push((part, at));
                    start = start + index + 1;
                    variable = split_bytes(variable, index + 1).1;
                    assert(d.len() == 1 + dotted_parts(variable@, start as int).len());
                    assert forall|i: int|
                        0 <= i < dotted_parts(variable@, start as int).len() implies #[trigger] dotted_parts(
                        variable@,
                        start as int,
                    )[i] == total[parts@.len() + i] by {
                        assert(dotted_parts(variable@, start as int)[i] == d[i + 1]);
                    }
                },
                None => {
                    let len = byte_len(variable);
                    assert(d[0] == (v, (start as int, blen(v) as int)));
                    parts.push((variable, (start, len)));
                    variable = "";
                    proof {
                        reveal_strlit("");
                    }
                    assert(dotted_parts(variable@, start as int).len() == 0);
                },
            }
        }
        proof {
            if variable@.len() > 0 {
                crate::text::lemma_blen_pos(variable@);
            }
            assert(dotted_parts(variable@, start as int).len() == 0);
        }
        parts
    }
}

/// The parts of the characters `v` of `cs` that start after its first `i` characters: each
/// part is the text at its span.
proof fn lemma_dotted_parts_spans(cs: Seq<char>, i: int, v: Seq<char>)
    requires
        0 <= i,
        i + v.len() <= cs.len(),
        v == cs.subrange(i, i + v.len()),
    ensures
        forall|k: int|
            0 <= k < dotted_parts(v, blen(cs.take(i)) as int).len() ==> {
                let p = #[trigger] dotted_parts(v, blen(cs.take(i)) as int)[k];
                &&& is_boundary(cs, p.1.0)
                &&& is_boundary(cs, p.1.0 + p.1.1)
                &&& cs.subrange(chars_in(cs, p.1.0), chars_in(cs, p.1.0 + p.1.1)) == p.0
            },
    decreases v.len(),
{
    let s = blen(cs.take(i)) as int;
    let d = dotted_parts(v, s);
    if v.len() > 0 {
        let k = index_of(v, Class::Char('.'));
        lemma_index_of(v, Class::Char('.'));
        let e = if k < v.len() { k } else { v.len() as int };
        crate::text::lemma_blen_take_skip(cs, i, i + e);
        assert(cs.skip(i).take(e) =~= v.take(e));
        lemma_chars_in(cs, i);
        lemma_chars_in(cs, i + e);
        assert(cs.subrange(i, i + e) =~= v.take(e));
        if k < v.len() {
            lemma_blen_take_step(cs, i + k);
            assert(cs[i + k] == '.');
            let v2 = v.skip(k + 1);
            assert(v2 =~= cs.subrange(i + k + 1, i + k + 1 + v2.len()));
            lemma_dotted_parts_spans(cs, i + k + 1, v2);
            assert(d == seq![(v.take(k), (s, blen(v.take(k)) as int))] + dotted_parts(
                v2,
                blen(cs.take(i + k + 1)) as int,
            ));
            assert forall|m: int| 0 <= m < d.len() implies {
                let p = #[trigger] d[m];
                &&& is_boundary(cs, p.1.0)
                &&& is_boundary(cs, p.1.0 + p.1.1)
                &&& cs.subrange(chars_in(cs, p.1.0), chars_in(cs, p.1.0 + p.1.1)) == p.0
            } by {
                if m > 0 {
                    assert(d[m] == dotted_parts(v2, blen(cs.take(i + k + 1)) as int)[m - 1]);
                }
            }
        } else {
            assert(v.take(e) =~= v);
        }
    }
}

/// Each part of a variable is the text of the template at the part's span.
pub proof fn lemma_parts_spans(template: Seq<char>, at: (usize, usize))
    requires
        valid_span(template, at),
        at.0 + at.1 <= usize::MAX,
    ensures
        forall|k: int|
            0 <= k < dotted_parts(span(template, at), at.0 as int).len() ==> {
                let p = #[trigger] dotted_parts(span(template, at), at.0 as int)[k];
                &&& p.1.0 + p.1.1 <= at.0 + at.1
                &&& valid_span(template, (p.1.0 as usize, p.1.1 as usize))
                &&& span(template, (p.1.0 as usize, p.1.1 as usize)) == p.0
            },
{
    let i = chars_in(template, at.0 as int);
    let j = chars_in(template, at.0 + at.1);
    lemma_chars_in(template, i);
    if j < i {
        crate::text::lemma_blen_take_mono(template, j, i);
    }
    let v = span(template, at);
    lemma_dotted_parts_spans(template, i, v);
    assert forall|k: int|
        0 <= k < dotted_parts(v, at.0 as int).len() implies {
            let p = #[trigger] dotted_parts(v, at.0 as int)[k];
            &&& p.1.0 + p.1.1 <= at.0 + at.1
            &&& valid_span(template, (p.1.0 as usize, p.1.1 as usize))
            &&& span(template, (p.1.0 as usize, p.1.1 as usize)) == p.0
        } by {
        lemma_parts_bounds(v, at.0 as int, k);
        crate::types::lemma_span_blen(template, at);
    }
}

/// The spans of the parts of `v`, which starts at byte `start`, lie inside `v`'s own span.
proof fn lemma_parts_bounds(v: Seq<char>, start: int, k: int)
    requires
        0 <= start,
        0 <= k < dotted_parts(v, start).len(),
    ensures
        start <= dotted_parts(v, start)[k].1.0,
        0 <= dotted_parts(v, start)[k].1.1,
        dotted_parts(v, start)[k].1.0 + dotted_parts(v, start)[k].1.1 <= start + blen(v),
    decreases v.len(),
{
    let c = index_of(v, Class::Char('.'));
    lemma_index_of(v, Class::Char('.'));
    if c < v.len() {
        crate::text::lemma_blen_take_skip(v, c + 1, c + 1);
        lemma_blen_take_step(v, c);
        if k > 0 {
            lemma_parts_bounds(v.skip(c + 1), start + blen(v.take(c)) + 1, k - 1);
        }
    } else {
        assert(dotted_parts(v, start)[k] == (v, (start, blen(v) as int)));
    }
}

/// Text that is the template's text at the span where it starts, split into a head and a
/// suffix `r` that starts at byte `b`: the head is a span of the template, and so is the suffix.
pub proof fn lemma_head_in_template(template: Seq<char>, text: Seq<char>, start: usize, r: Seq<char>, b: usize)
    requires
        start + blen(text) < usize::MAX,
        text.len() > 0,
        valid_span(template, (start, blen(text) as usize)),
        span(template, (start, blen(text) as usize)) == text,
        crate::text::is_suffix(r, text),
        b + blen(r) == start + blen(text),
    ensures
        start <= b,
        valid_span(template, (start, (b - start) as usize)),
        span(template, (start, (b - start) as usize)) == text.take(text.len() - r.len()),
        r.len() > 0 ==> valid_span(template, (b, blen(r) as usize)) && span(
            template,
            (b, blen(r) as usize),
        ) == r,
{
    let x = text.len() - r.len();
    crate::text::lemma_blen_take_skip(text, x, x);
    assert(text.take(0) =~= Seq::<char>::empty());
    lemma_sub_span(template, start, text, 0, x);
    assert(text.subrange(0, x) =~= text.take(x));
    if r.len() > 0 {
        lemma_sub_span(template, start, text, x, text.len() as int);
        assert(text.subrange(x, text.len() as int) =~= r);
        assert(text.take(text.len() as int) =~= text);
    }
}


/// Where `text` is the text of `cs` at the span that starts at byte `start`, a piece of `text`
/// between characters `x` and `y` is the text of `cs` at the matching span.
pub proof fn lemma_sub_span(cs: Seq<char>, start: usize, text: Seq<char>, x: int, y: int)
    requires
        start + blen(text) <= usize::MAX,
        valid_span(cs, (start, blen(text) as usize)),
        span(cs, (start, blen(text) as usize)) == text,
        0 <= x <= y <= text.len(),
    ensures
        ({
            let at = ((start + blen(text.take(x))) as usize, (blen(text.take(y)) - blen(
                text.take(x),
            )) as usize);
            &&& blen(text.take(x)) <= blen(text.take(y))
            &&& valid_span(cs, at)
            &&& span(cs, at) == text.subrange(x, y)
        }),
{
    let i = chars_in(cs, start as int);
    let j = chars_in(cs, start + blen(text));
    lemma_chars_in(cs, i);
    if j < i {
        crate::text::lemma_blen_take_mono(cs, j, i);
    }
    assert(text =~= cs.subrange(i, j));
    crate::text::lemma_blen_take_mono(text, x, y);
    lemma_blen_take_le(text, y);
    assert(cs.take(i + x) =~= cs.take(i) + text.take(x));
    crate::text::lemma_blen_concat(cs.take(i), text.take(x));
    assert(cs.take(i + y) =~= cs.take(i) + text.take(y));
    crate::text::lemma_blen_concat(cs.take(i), text.take(y));
    lemma_chars_in(cs, i + x);
    lemma_chars_in(cs, i + y);
    assert(cs.subrange(i + x, i + y) =~= text.subrange(x, y));
    let at = ((start + blen(text.take(x))) as usize, (blen(text.take(y)) - blen(text.take(x))) as usize);
    assert(at.0 == start + blen(text.take(x)));
    assert(at.0 + at.1 == start + blen(text.take(y)));
    assert(blen(cs.take(i + x)) == at.0);
    assert(blen(cs.take(i + y)) == at.0 + at.1);
    assert(chars_in(cs, at.0 as int) == i + x);
    assert(chars_in(cs, at.0 + at.1) == i + y);
}

/// Texts joined with a `.` between each two.
pub open spec fn join_dots(texts: Seq<Seq<char>>) -> Seq<char>
    decreases texts.len(),
{
    if texts.len() == 0 {
        Seq::empty()
    } else if texts.len() == 1 {
        texts[0]
    } else {
        texts[0] + seq!['.'] + join_dots(texts.skip(1))
    }
}

/// The texts of `parts`.
pub open spec fn part_texts(parts: Seq<(Seq<char>, (int, int))>) -> Seq<Seq<char>> {
    parts.map_values(|p: (Seq<char>, (int, int))| p.0)
}

/// Joining the parts of a variable with `.` gives back the variable, unless it ends with a `.`
/// (whose empty last part is dropped).
pub proof fn lemma_parts_join(cs: Seq<char>, start: int)
    requires
        cs.len() > 0 ==> cs.last() != '.',
    ensures
        join_dots(part_texts(dotted_parts(cs, start))) == cs,
    decreases cs.len(),
{
    let d = dotted_parts(cs, start);
    if cs.len() > 0 {
        let k = index_of(cs, Class::Char('.'));
        lemma_index_of(cs, Class::Char('.'));
        if k < cs.len() {
            let rest = cs.skip(k + 1);
            let rs = start + blen(cs.take(k)) + 1;
            assert(k + 1 < cs.len());
            assert(rest.last() == cs.last());
            lemma_parts_join(rest, rs);
            let dr = dotted_parts(rest, rs);
            assert(d == seq![(cs.take(k), (start, blen(cs.take(k)) as int))] + dr);
            assert(dr.len() > 0);
            assert(part_texts(d) =~= seq![cs.take(k)] + part_texts(dr));
            assert(part_texts(d).skip(1) =~= part_texts(dr));
            assert(cs =~= cs.take(k) + seq!['.'] + rest);
        } else {
            assert(part_texts(d) =~= seq![cs]);
        }
    } else {
        assert(part_texts(d) =~= Seq::<Seq<char>>::empty());
    }
}

/// The parts that `Variable::parts` gives (the dotted parts of the variable's text): each part's
/// span lies inside the variable and reads the part's text in the template, and joining the
/// texts with `.` gives back the variable's text unless that text ends with `.`.
pub proof fn lemma_variable_parts(template: Seq<char>, v: Variable)
    requires
        valid_span(template, v.at),
        v.at.0 + v.at.1 <= usize::MAX,
    ensures
        forall|k: int|
            0 <= k < dotted_parts(span(template, v.at), v.at.0 as int).len() ==> {
                let p = #[trigger] dotted_parts(span(template, v.at), v.at.0 as int)[k];
                &&& v.at.0 <= p.1.0
                &&& p.1.0 + p.1.1 <= v.at.0 + v.at.1
                &&& valid_span(template, (p.1.0 as usize, p.1.1 as usize))
                &&& span(template, (p.1.0 as usize, p.1.1 as usize)) == p.0
            },
        span(template, v.at).len() > 0 && span(template, v.at).last() != '.' ==> join_dots(
            part_texts(dotted_parts(span(template, v.at), v.at.0 as int)),
        ) == span(template, v.at),
{
    lemma_parts_spans(template, v.at);
    lemma_dotted_parts_start(span(template, v.at), v.at.0 as int);
    if span(template, v.at).len() > 0 && span(template, v.at).last() != '.' {
        lemma_parts_join(span(template, v.at), v.at.0 as int);
    }
}

proof fn lemma_dotted_parts_start(cs: Seq<char>, start: int)
    ensures
        forall|k: int| 0 <= k < dotted_parts(cs, start).len() ==> start <= (
        #[trigger] dotted_parts(cs, start)[k]).1.0,
    decreases cs.len(),
{
    if cs.len() > 0 {
        let k = index_of(cs, Class::Char('.'));
        lemma_index_of(cs, Class::Char('.'));
        if k < cs.len() {
            let rs = start + blen(cs.take(k)) + 1;
            lemma_dotted_parts_start(cs.skip(k + 1), rs);
            let d = dotted_parts(cs, start);
            assert forall|j: int| 0 <= j < d.len() implies start <= (#[trigger] d[j]).1.0 by {
                if j > 0 {
                    assert(d[j] == dotted_parts(cs.skip(k + 1), rs)[j - 1]);
                }
            }
        }
    }
}

} // verus!
