//! Splits the inside of a block tag `{% name parts %}` into its name and the rest.
use vstd::prelude::*;

use crate::text::{
    Class, blen, byte_len, chars_in, find, index_of, is_boundary, lemma_blen_take_le,
    lemma_blen_take_skip, lemma_chars_in, lemma_index_of, lemma_trim_end_len, split_bytes, trim,
    trim_end_len, trim_start, trimmed, trimmed_start,
};
use crate::lex::common::next_whitespace;
use crate::types::{lemma_sub_span, span, valid_span};

verus! {

broadcast use vstd::string::group_string_axioms;

/// What `lex_tag` rejects.
#[derive(Clone, Copy, Debug, PartialEq, Eq)]
pub enum TagLexerError {
    InvalidTagName { at: (usize, usize) },
}

/// The name of a block tag, by its span.
#[derive(Clone, Copy, Debug, PartialEq, Eq)]
pub struct TagToken {
    pub at: (usize, usize),
}

/// The arguments of a block tag, by their span, without surrounding whitespace.
#[derive(Clone, Copy, Debug, PartialEq, Eq)]
pub struct TagParts {
    pub at: (usize, usize),
}

/// What `lex_tag` returns for the inside `tag` of a block tag whose first byte is at `start`.
/// Whitespace around the tag is dropped; the name runs up to the first character that is not an
/// identifier character, and is invalid when it reaches no whitespace before that character.
pub open spec fn spec_lex_tag(tag: Seq<char>, start: usize) -> Result<
    Option<(TagToken, TagParts)>,
    TagLexerError,
> {
    let rest = trimmed_start(tag);
    if trimmed(rest).len() == 0 {
        Ok(None)
    } else {
        let start = start + blen(tag) - blen(rest);
        let t = trimmed(tag);
        let n = index_of(t, Class::NotXid);
        if n == t.len() {
            Ok(
                Some(
                    (
                        TagToken { at: (start as usize, blen(t) as usize) },
                        TagParts { at: ((start + blen(t)) as usize, 0) },
                    ),
                ),
            )
        } else {
            let w = blen(t.take(index_of(t, Class::Whitespace)));
            let name = blen(t.take(n));
            if w > name {
                Err(TagLexerError::InvalidTagName { at: (start as usize, w as usize) })
            } else {
                let r = t.skip(n);
                let tr = trimmed(r);
                Ok(
                    Some(
                        (
                            TagToken { at: (start as usize, name as usize) },
                            TagParts {
                                at: (
                                    (start + name + blen(r) - blen(tr)) as usize,
                                    blen(tr) as usize,
                                ),
                            },
                        ),
                    ),
                )
            }
        }
    }
}

/// Byte lengths of trimmed text.
pub proof fn lemma_trimmed_blen(cs: Seq<char>)
    ensures
        blen(trimmed(cs)) <= blen(trimmed_start(cs)) <= blen(cs),
        blen(trimmed_start(cs)) + blen(cs.take(index_of(cs, Class::NotWhitespace))) == blen(cs),
{
    let i = index_of(cs, Class::NotWhitespace);
    lemma_index_of(cs, Class::NotWhitespace);
    lemma_blen_take_skip(cs, i, i);
    let t = trimmed_start(cs);
    lemma_trim_end_len(t);
    lemma_blen_take_le(t, trim_end_len(t));
}

/// Trimming leading whitespace twice trims it once.
pub proof fn lemma_trimmed_start_idem(cs: Seq<char>)
    ensures
        trimmed_start(trimmed_start(cs)) == trimmed_start(cs),
        trimmed(trimmed_start(cs)) == trimmed(cs),
{
    let i = index_of(cs, Class::NotWhitespace);
    lemma_index_of(cs, Class::NotWhitespace);
    let t = trimmed_start(cs);
    if t.len() > 0 {
        assert(t[0] == cs[i]);
    }
    crate::text::lemma_index_of_unique(t, Class::NotWhitespace, 0);
    assert(t.skip(0) =~= t);
}

/// Lexes the inside of a block tag, whose first byte is at `start`.
pub fn lex_tag(tag: &str, start: usize) -> (r: Result<Option<(TagToken, TagParts)>, TagLexerError>)
    requires
        start + blen(tag@) <= usize::MAX,
    ensures
        r == spec_lex_tag(tag@, start),
{
    let rest = trim_start(tag);
    proof {
        lemma_trimmed_blen(tag@);
        lemma_trimmed_blen(rest@);
    }
    if trim(rest).is_empty() {
        return Ok(None);
    }
    let start = start + byte_len(tag) - byte_len(rest);
    let tag = trim(tag);
    proof {
        lemma_trimmed_start_idem(tag@);
    }
    let ghost t = tag@;
    proof {
        lemma_index_of(t, Class::NotXid);
        lemma_index_of(t, Class::Whitespace);
        lemma_blen_take_le(t, index_of(t, Class::NotXid));
        assert(t.take(t.len() as int) =~= t);
    }
    let tag_len = match find(tag, Class::NotXid) {
        Some(tag_len) => tag_len,
        None => {
            let len = byte_len(tag);
            let at = (start, len);
            let token = TagToken { at };
            let parts = TagParts { at: (start + len, 0) };
            return Ok(Some((token, parts)));
        },
    };
    let index = next_whitespace(tag);
    if index > tag_len {
        let at = (start, index);
        return Err(TagLexerError::InvalidTagName { at });
    }
    let at = (start, tag_len);
    let token = TagToken { at };
    proof {
        lemma_chars_in(t, index_of(t, Class::NotXid));
        lemma_blen_take_skip(t, index_of(t, Class::NotXid), index_of(t, Class::NotXid));
    }
    let rest = split_bytes(tag, tag_len).1;
    let trimmed_rest = trim(rest);
    proof {
        lemma_trimmed_blen(rest@);
    }
    let start = start + tag_len + byte_len(rest) - byte_len(trimmed_rest);
    let at = (start, byte_len(trimmed_rest));
    let parts = TagParts { at };
    Ok(Some((token, parts)))
}


impl TagLexerError {
    /// The error's message.
    pub open spec fn message(self) -> Seq<char> {
        "Invalid block tag name"@
    }

    /// The error's message.
    pub fn to_string(&self) -> (r: String)
        ensures
            r@ == self.message(),
    {
        "Invalid block tag name".to_string()
    }
}

/// A block tag's name and arguments lie inside the tag, the name first and never empty; a
/// rejected name lies inside the tag too.
pub proof fn lemma_lex_tag_inside(tag: Seq<char>, start: usize)
    requires
        start + blen(tag) <= usize::MAX,
    ensures
        spec_lex_tag(tag, start) matches Ok(Some((name, parts))) ==> {
            &&& start <= name.at.0
            &&& 0 < name.at.1
            &&& name.at.0 + name.at.1 <= parts.at.0
            &&& parts.at.0 + parts.at.1 <= start + blen(tag)
        },
        spec_lex_tag(tag, start) matches Err(TagLexerError::InvalidTagName { at }) ==> {
            &&& start <= at.0
            &&& 0 < at.1
            &&& at.0 + at.1 <= start + blen(tag)
        },
{
    let rest = trimmed_start(tag);
    lemma_trimmed_blen(tag);
    lemma_trimmed_blen(rest);
    lemma_trimmed_start_idem(tag);
    if trimmed(rest).len() > 0 {
        let t = trimmed(tag);
        let ts = trimmed_start(tag);
        lemma_index_of(tag, Class::NotWhitespace);
        lemma_trim_end_len(ts);
        assert(t[0] == ts[0]);
        assert(!crate::text::white_space(t[0]));
        let n = index_of(t, Class::NotXid);
        lemma_index_of(t, Class::NotXid);
        lemma_index_of(t, Class::Whitespace);
        let wi = index_of(t, Class::Whitespace);
        assert(wi > 0);
        lemma_blen_take_le(t, wi);
        lemma_blen_take_le(t, n);
        lemma_blen_take_le(t, t.len() as int);
        assert(t.take(t.len() as int) =~= t);
        lemma_blen_take_skip(t, n, n);
        let r = t.skip(n);
        lemma_trimmed_blen(r);
        lemma_blen_take_le(ts, trim_end_len(ts));
    }
}

/// When `tag` is the text of `template` at the span that starts at byte `start`, the name and
/// the arguments that `lex_tag` gives are spans of `template` whose text is the name and the
/// arguments: they can be handed to `TemplateString::content` and to the lexers of the tags.
pub proof fn lemma_lex_tag_spans(template: Seq<char>, tag: Seq<char>, start: usize)
    requires
        start + blen(tag) <= usize::MAX,
        valid_span(template, (start, blen(tag) as usize)),
        span(template, (start, blen(tag) as usize)) == tag,
    ensures
        spec_lex_tag(tag, start) matches Ok(Some((name, parts))) ==> {
            let t = trimmed(tag);
            let n = index_of(t, Class::NotXid);
            &&& valid_span(template, name.at)
            &&& span(template, name.at) == t.take(n)
            &&& valid_span(template, parts.at)
            &&& span(template, parts.at) == trimmed(t.skip(n))
        },
{
    let ts = trimmed_start(tag);
    lemma_trimmed_blen(tag);
    lemma_trimmed_blen(ts);
    lemma_trimmed_start_idem(tag);
    if trimmed(ts).len() > 0 {
        let a = index_of(tag, Class::NotWhitespace);
        lemma_index_of(tag, Class::NotWhitespace);
        let e = trim_end_len(ts);
        lemma_trim_end_len(ts);
        let t = trimmed(tag);
        assert(t =~= tag.subrange(a, a + e));
        let n = index_of(t, Class::NotXid);
        lemma_index_of(t, Class::NotXid);
        lemma_index_of(t, Class::Whitespace);
        lemma_blen_take_skip(tag, a, a + n);
        assert(tag.skip(a).take(n) =~= t.take(n));
        lemma_sub_span(template, start, tag, a, a + n);
        if n == t.len() {
            assert(t.take(n) =~= t);
            lemma_sub_span(template, start, tag, a + e, a + e);
            assert(t.skip(n) =~= Seq::<char>::empty());
            assert(tag.subrange(a + e, a + e) =~= Seq::<char>::empty());
            lemma_index_of(Seq::<char>::empty(), Class::NotWhitespace);
            assert(trimmed(Seq::<char>::empty()) =~= Seq::<char>::empty());
        } else {
            let r = t.skip(n);
            let b = index_of(r, Class::NotWhitespace);
            lemma_index_of(r, Class::NotWhitespace);
            let rs = r.skip(b);
            lemma_trim_end_len(rs);
            if rs.len() > 0 {
                assert(rs[rs.len() - 1] == t[e - 1]);
                assert(trim_end_len(rs) == rs.len()) by {
                    if trim_end_len(rs) < rs.len() {
                        assert(crate::text::white_space(rs[rs.len() - 1]));
                    }
                }
            }
            assert(rs.take(trim_end_len(rs)) =~= rs);
            assert(rs =~= tag.subrange(a + n + b, a + e));
            lemma_blen_take_skip(r, b, b);
            lemma_blen_take_skip(tag, a + n, a + n + b);
            assert(tag.skip(a + n).take(b) =~= r.take(b));
            lemma_blen_take_skip(tag, a + n + b, a + e);
            assert(tag.skip(a + n + b).take(e - n - b) =~= rs);
            lemma_blen_take_skip(t, n, n);
            lemma_sub_span(template, start, tag, a + n + b, a + e);
        }
    }
}

} // verus!
