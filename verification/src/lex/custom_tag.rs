//! Lexes the arguments of a tag registered by a template library: `{% tag arg key=value %}`.
use vstd::prelude::*;

use crate::lex::common::{next_non_whitespace, next_whitespace};
use crate::lex::tag::TagParts;
use crate::lex::url::{lemma_spec_kwarg, spec_kwarg};
use crate::text::{
    Class, blen, find, index_of, lemma_blen_take_le, lemma_blen_take_skip, lemma_blen_take_step,
    lemma_chars_in, lemma_index_of, split_bytes,
};
use crate::types::{TemplateString, span, valid_span};

verus! {

/// An argument of a tag, by its span; a keyword argument also has the span of its name.
#[derive(Clone, Copy, Debug, PartialEq, Eq)]
pub enum CustomTagToken {
    Arg { at: (usize, usize) },
    Kwarg { at: (usize, usize), name_at: (usize, usize) },
}

/// What the lexer of a library's tag rejects: nothing, so no value has this type.
pub type CustomTagLexerError = core::convert::Infallible;

/// Lexes the arguments of a library's tag, token by token.
pub struct CustomTagLexer<'t> {
    rest: &'t str,
    byte: usize,
    takes_context: bool,
}

/// The state of a `CustomTagLexer`: the characters left and the byte offset of the first.
pub type CustomTagModel = (Seq<char>, usize);

impl<'t> View for CustomTagLexer<'t> {
    type V = CustomTagModel;

    closed spec fn view(&self) -> CustomTagModel {
        (self.rest@, self.byte)
    }
}

/// One step of a `CustomTagLexer`: the next state and the argument it yields, or `None` when
/// nothing is left. An argument runs up to the next whitespace; a keyword, when there is one, is
/// taken off first.
pub open spec fn custom_tag_step(m: CustomTagModel) -> (
    CustomTagModel,
    Option<Result<CustomTagToken, CustomTagLexerError>>,
) {
    let (rest, byte) = m;
    if rest.len() == 0 {
        (m, None)
    } else {
        let (r1, b1, kwarg) = spec_kwarg(rest, byte);
        let wi = index_of(r1, Class::Whitespace);
        let after = r1.skip(wi);
        let j = index_of(after, Class::NotWhitespace);
        let at = (b1, blen(r1.take(wi)) as usize);
        (
            (after.skip(j), (b1 + blen(r1.take(wi)) + blen(after.take(j))) as usize),
            Some(
                Ok(
                    match kwarg {
                        Some(name_at) => CustomTagToken::Kwarg { at, name_at },
                        None => CustomTagToken::Arg { at },
                    },
                ),
            ),
        )
    }
}

/// The arguments that a `CustomTagLexer` yields from state `m` until it yields `None`.
pub open spec fn custom_tag_run(m: CustomTagModel) -> Seq<Result<CustomTagToken, CustomTagLexerError>>
    decreases m.0.len(),
{
    match custom_tag_step(m) {
        (_, None) => Seq::empty(),
        (next, Some(item)) => if next.0.len() < m.0.len() {
            seq![item] + custom_tag_run(next)
        } else {
            Seq::empty()
        },
    }
}

impl<'t> CustomTagLexer<'t> {
    /// The lexer's invariant: the byte offsets it reports fit in `usize`.
    pub closed spec fn wf(&self) -> bool {
        self.byte + blen(self.rest@) < usize::MAX
    }

    /// Whether the tag's function takes the template context.
    pub closed spec fn spec_takes_context(&self) -> bool {
        self.takes_context
    }

    /// A lexer over the arguments of a library's tag.
    pub fn new(template: TemplateString<'t>, parts: TagParts, takes_context: bool) -> (r: Self)
        requires
            valid_span(template.0@, parts.at),
            parts.at.0 + parts.at.1 < usize::MAX,
        ensures
            r.wf(),
            r@ == (span(template.0@, parts.at), parts.at.0),
            r.spec_takes_context() == takes_context,
    {
        let rest = template.content(parts.at);
        proof {
            crate::types::lemma_span_blen(template.0@, parts.at);
        }
        Self { rest, byte: parts.at.0, takes_context }
    }

    fn lex_kwarg(&mut self) -> (r: Option<(usize, usize)>)
        requires
            old(self).wf(),
        ensures
            final(self).wf(),
            final(self)@.0 == spec_kwarg(old(self)@.0, old(self)@.1).0,
            final(self)@.1 == spec_kwarg(old(self)@.0, old(self)@.1).1,
            final(self).spec_takes_context() == old(self).spec_takes_context(),
            r == spec_kwarg(old(self)@.0, old(self)@.1).2,
    {
        let ghost rest = self.rest@;
        proof {
            lemma_spec_kwarg(rest, self.byte);
            lemma_index_of(rest, Class::Char('='));
            lemma_index_of(rest, Class::NotXid);
        }
        let index = match find(self.rest, Class::Char('=')) {
            Some(index) => index,
            None => return None,
        };
        match find(self.rest, Class::NotXid) {
            Some(n) => if n < index {
                return None;
            },
            None => {},
        }
        let at = (self.byte, index);
        proof {
            let e = index_of(rest, Class::Char('='));
            lemma_blen_take_step(rest, e);
            lemma_chars_in(rest, e + 1);
            lemma_blen_take_le(rest, e + 1);
        }
        self.rest = split_bytes(self.rest, index + 1).1;
        self.byte = self.byte + index + 1;
        Some(at)
    }

    /// The next argument of the tag, or `None` when the whole tag has been read.
    pub fn next(&mut self) -> (r: Option<Result<CustomTagToken, CustomTagLexerError>>)
        requires
            old(self).wf(),
        ensures
            final(self).wf(),
            final(self)@ == custom_tag_step(old(self)@).0,
            final(self).spec_takes_context() == old(self).spec_takes_context(),
            r == custom_tag_step(old(self)@).1,
    {
        if self.rest.is_empty() {
            return None;
        }
        let kwarg = self.lex_kwarg();
        let start = self.byte;
        let ghost r1 = self.rest@;
        let len = next_whitespace(self.rest);
        proof {
            let wi = index_of(r1, Class::Whitespace);
            lemma_index_of(r1, Class::Whitespace);
            lemma_chars_in(r1, wi);
            lemma_blen_take_le(r1, wi);
            lemma_blen_take_skip(r1, wi, wi);
        }
        let rest = split_bytes(self.rest, len).1;
        let next = next_non_whitespace(rest);
        proof {
            let j = index_of(rest@, Class::NotWhitespace);
            lemma_index_of(rest@, Class::NotWhitespace);
            lemma_chars_in(rest@, j);
            lemma_blen_take_le(rest@, j);
            lemma_blen_take_skip(rest@, j, j);
        }
        self.rest = split_bytes(rest, next).1;
        self.byte = self.byte + len + next;
        let at = (start, len);
        Some(
            Ok(
                match kwarg {
                    Some(kwarg) => CustomTagToken::Kwarg { at, name_at: kwarg },
                    None => CustomTagToken::Arg { at },
                },
            ),
        )
    }

    /// All the arguments that the lexer yields, up to its first `None`.
    pub fn collect(self) -> (r: Vec<Result<CustomTagToken, CustomTagLexerError>>)
        requires
            self.wf(),
        ensures
            r@ == custom_tag_run(self@),
    {
        let ghost all = custom_tag_run(self@);
        let mut lexer = self;
        let mut tokens: Vec<Result<CustomTagToken, CustomTagLexerError>> = Vec::new();
        loop
            invariant
                lexer.wf(),
                tokens@ + custom_tag_run(lexer@) == all,
                all == custom_tag_run(self@),
            decreases lexer@.0.len(),
        {
            let ghost before = lexer@;
            proof {
                crate::lex::custom_tag::lemma_custom_tag_progress(before);
            }
            match lexer.next() {
                None => {
                    assert(custom_tag_run(before) =~= Seq::<
                        Result<CustomTagToken, CustomTagLexerError>,
                    >::empty());
                    assert(tokens@ =~= all);
                    return tokens;
                },
                Some(token) => {
                    assert(seq![token] + custom_tag_run(lexer@) == custom_tag_run(before));
                    tokens.push(token);
                    assert(tokens@ + custom_tag_run(lexer@) =~= all);
                },
            }
        }
    }
}

/// Each argument consumes some of the tag: the lexer ends.
pub proof fn lemma_custom_tag_progress(m: CustomTagModel)
    requires
        m.1 + blen(m.0) < usize::MAX,
    ensures
        custom_tag_step(m).1 is Some ==> custom_tag_step(m).0.0.len() < m.0.len(),
{
    let (rest, byte) = m;
    if rest.len() > 0 {
        lemma_spec_kwarg(rest, byte);
        let (r1, b1, kwarg) = spec_kwarg(rest, byte);
        let wi = index_of(r1, Class::Whitespace);
        lemma_index_of(r1, Class::Whitespace);
        let after = r1.skip(wi);
        let j = index_of(after, Class::NotWhitespace);
        lemma_index_of(after, Class::NotWhitespace);
        if kwarg is None && wi == 0 && r1.len() > 0 {
            assert(crate::text::white_space(r1[0]));
            assert(j > 0);
        }
    }
}

/// The span of an argument, and of its keyword when it has one.
pub open spec fn custom_tag_spans(t: CustomTagToken) -> ((usize, usize), Option<(usize, usize)>) {
    match t {
        CustomTagToken::Arg { at } => (at, None),
        CustomTagToken::Kwarg { at, name_at } => (at, Some(name_at)),
    }
}

/// One step of the lexer stays inside what is left of the tag: the argument, and its keyword
/// before it, end where the next state begins.
pub proof fn lemma_custom_tag_step(m: CustomTagModel)
    requires
        m.1 + blen(m.0) < usize::MAX,
    ensures
        custom_tag_step(m).1 is None <==> m.0.len() == 0,
        m.1 <= custom_tag_step(m).0.1,
        custom_tag_step(m).0.1 + blen(custom_tag_step(m).0.0) == m.1 + blen(m.0),
        custom_tag_step(m).1 matches Some(Ok(t)) ==> ({
            let (at, name) = custom_tag_spans(t);
            &&& m.1 <= at.0
            &&& at.0 + at.1 <= custom_tag_step(m).0.1
            &&& name matches Some(k) ==> m.1 <= k.0 && k.0 + k.1 < at.0
        }),
{
    let (rest, byte) = m;
    if rest.len() > 0 {
        lemma_spec_kwarg(rest, byte);
        let (r1, b1, kwarg) = spec_kwarg(rest, byte);
        let wi = index_of(r1, Class::Whitespace);
        lemma_index_of(r1, Class::Whitespace);
        lemma_blen_take_skip(r1, wi, wi);
        let after = r1.skip(wi);
        let j = index_of(after, Class::NotWhitespace);
        lemma_index_of(after, Class::NotWhitespace);
        lemma_blen_take_skip(after, j, j);
    }
}

/// The arguments of a library's tag lie inside it, in order, without overlapping; a keyword
/// comes before its value.
pub proof fn lemma_custom_tag_run_ordered(m: CustomTagModel)
    requires
        m.1 + blen(m.0) < usize::MAX,
    ensures
        forall|i: int|
            0 <= i < custom_tag_run(m).len() ==> (#[trigger] custom_tag_run(m)[i] matches Ok(t)
                ==> ({
                let (at, name) = custom_tag_spans(t);
                &&& m.1 <= at.0
                &&& at.0 + at.1 <= m.1 + blen(m.0)
                &&& name matches Some(k) ==> m.1 <= k.0 && k.0 + k.1 < at.0
            })),
        forall|i: int, j: int|
            0 <= i < j < custom_tag_run(m).len() ==> (#[trigger] custom_tag_run(m)[i] matches Ok(
                a,
            ) ==> (#[trigger] custom_tag_run(m)[j] matches Ok(b) ==> ({
                let (at, _) = custom_tag_spans(a);
                let (bt, name) = custom_tag_spans(b);
                &&& at.0 + at.1 <= bt.0
                &&& name matches Some(k) ==> at.0 + at.1 <= k.0
            }))),
    decreases m.0.len(),
{
    lemma_custom_tag_step(m);
    match custom_tag_step(m) {
        (next, Some(item)) => {
            if next.0.len() < m.0.len() {
                lemma_custom_tag_run_ordered(next);
                let items = custom_tag_run(m);
                assert(items == seq![item] + custom_tag_run(next));
                assert forall|i: int|
                    0 <= i < items.len() implies (#[trigger] items[i] matches Ok(t) ==> ({
                    let (at, name) = custom_tag_spans(t);
                    &&& m.1 <= at.0
                    &&& at.0 + at.1 <= m.1 + blen(m.0)
                    &&& name matches Some(k) ==> m.1 <= k.0 && k.0 + k.1 < at.0
                })) by {
                    if i > 0 {
                        assert(items[i] == custom_tag_run(next)[i - 1]);
                    }
                }
                assert forall|i: int, j: int|
                    0 <= i < j < items.len() implies (#[trigger] items[i] matches Ok(a) ==> (
                    #[trigger] items[j] matches Ok(b) ==> ({
                        let (at, _) = custom_tag_spans(a);
                        let (bt, name) = custom_tag_spans(b);
                        &&& at.0 + at.1 <= bt.0
                        &&& name matches Some(k) ==> at.0 + at.1 <= k.0
                    }))) by {
                    assert(items[j] == custom_tag_run(next)[j - 1]);
                    if i > 0 {
                        assert(items[i] == custom_tag_run(next)[i - 1]);
                    }
                }
            }
        },
        _ => {},
    }
}

/// The lexer of a library's tag reads the whole tag: every step consumes some of it, and it
/// yields `None` only once nothing is left, so each argument of the tag is yielded.
pub proof fn lemma_custom_tag_total(m: CustomTagModel)
    requires
        m.1 + blen(m.0) < usize::MAX,
    ensures
        m.0.len() > 0 ==> custom_tag_run(m).len() > 0,
        custom_tag_step(m).1 is Some ==> custom_tag_step(m).0.0.len() < m.0.len(),
{
    lemma_custom_tag_progress(m);
    lemma_custom_tag_step(m);
}

/// The model of a lexer has its byte offsets in range.
pub proof fn lemma_custom_tag_lexer_wf(lexer: &CustomTagLexer)
    requires
        lexer.wf(),
    ensures
        lexer@.1 + blen(lexer@.0) < usize::MAX,
{
}

} // verus!
