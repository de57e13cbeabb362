//! Lexes the arguments of `{% url name arg key=value %}`.
use vstd::prelude::*;
use vstd::std_specs::iter::IteratorSpec;

use crate::lex::common::{
    lemma_operand_ascii, lemma_operand_suffix, lemma_remainder_suffix, LexerError, OperandKind, lemma_lex_remainder, lemma_spec_lex_text, lemma_spec_operand,
    lex_numeric, lex_remainder, lex_text, lex_translated, lex_variable, opens_numeric,
    operand_safe, spec_lex_numeric, spec_lex_remainder, spec_lex_text, spec_lex_translated,
    spec_lex_variable, spec_operand, text_safe, translated_safe, variable_len,
};
use crate::lex::tag::TagParts;
use crate::lex::{END_TRANSLATE_LEN, QUOTE_LEN, START_TRANSLATE_LEN};
use crate::text::{
    ascii, is_suffix, lemma_ascii_suffix, lemma_suffix_empty, lemma_suffix_refl,
    lemma_suffix_skip, lemma_suffix_trans, Class, blen, find, index_of, is_boundary, is_whitespace, lemma_blen_take_le,
    lemma_blen_take_skip, lemma_blen_take_step, lemma_chars_in, lemma_index_of, split_bytes,
    white_space,
};
use crate::types::{TemplateString, span, valid_span};

verus! {

broadcast use vstd::string::group_string_axioms;

/// The kinds of arguments of a `url` tag.
#[derive(Clone, Copy, Debug, PartialEq, Eq, Structural)]
pub enum UrlTokenType {
    Numeric,
    Text,
    TranslatedText,
    Variable,
}

/// An argument of a `url` tag, by its span, with the span of its keyword if it has one.
#[derive(Clone, Copy, Debug, PartialEq, Eq)]
pub struct UrlToken {
    pub at: (usize, usize),
    pub token_type: UrlTokenType,
    pub kwarg: Option<(usize, usize)>,
}

/// The span of an argument's content: a string without its quotes, a translated string without
/// `_(`, its quotes and `)`.
pub open spec fn spec_content_at(token: UrlToken) -> (usize, usize) {
    let (start, len) = token.at;
    match token.token_type {
        UrlTokenType::Variable => token.at,
        UrlTokenType::Numeric => token.at,
        UrlTokenType::Text => ((start + 1) as usize, (len - 2) as usize),
        UrlTokenType::TranslatedText => ((start + 3) as usize, (len - 5) as usize),
    }
}

/// A string spans at least its two quotes, a translated string also its `_(` and `)`, and the
/// content's offset fits in `usize`.
pub open spec fn content_at_ok(token: UrlToken) -> bool {
    &&& token.token_type == UrlTokenType::Text ==> token.at.1 >= 2 && token.at.0 + 1 <= usize::MAX
    &&& token.token_type == UrlTokenType::TranslatedText ==> token.at.1 >= 5 && token.at.0 + 3
        <= usize::MAX
}

impl UrlToken {
    /// The span of the token's content.
    pub fn content_at(&self) -> (r: (usize, usize))
        requires
            content_at_ok(*self),
        ensures
            r == spec_content_at(*self),
    {
        match self.token_type {
            UrlTokenType::Variable => self.at,
            UrlTokenType::Numeric => self.at,
            UrlTokenType::Text => {
                let (start, len) = self.at;
                let start = start + QUOTE_LEN;
                let len = len - 2 * QUOTE_LEN;
                (start, len)
            },
            UrlTokenType::TranslatedText => {
                let (start, len) = self.at;
                let start = start + START_TRANSLATE_LEN + QUOTE_LEN;
                let len = len - START_TRANSLATE_LEN - END_TRANSLATE_LEN - 2 * QUOTE_LEN;
                (start, len)
            },
        }
    }
}

/// What the `url` lexer rejects, with the span of the culprit.
#[derive(Clone, Copy, Debug, PartialEq, Eq)]
pub enum UrlLexerError {
    LexerError(LexerError),
    IncompleteKeywordArgument { at: (usize, usize) },
}

impl From<LexerError> for UrlLexerError {
    fn from(e: LexerError) -> (r: Self)
        ensures
            r == UrlLexerError::LexerError(e),
    {
        UrlLexerError::LexerError(e)
    }
}

impl vstd::std_specs::convert::FromSpecImpl<LexerError> for UrlLexerError {
    open spec fn obeys_from_spec() -> bool {
        true
    }

    open spec fn from_spec(e: LexerError) -> UrlLexerError {
        UrlLexerError::LexerError(e)
    }
}

/// Lexes the arguments of a `url` tag, token by token.
pub struct UrlLexer<'t> {
    rest: &'t str,
    byte: usize,
}

/// The state of a `UrlLexer`: the characters left and the byte offset of the first.
pub type UrlModel = (Seq<char>, usize);

impl<'t> View for UrlLexer<'t> {
    type V = UrlModel;

    closed spec fn view(&self) -> UrlModel {
        (self.rest@, self.byte)
    }
}

/// The keyword of an argument `name=value` at the start of `rest`: present when `rest` has an
/// `=` and only identifier characters before it. Returns the characters after the `=`, their
/// byte offset, and the span of the name.
pub open spec fn spec_kwarg(rest: Seq<char>, byte: usize) -> (Seq<char>, usize, Option<(usize, usize)>) {
    let e = index_of(rest, Class::Char('='));
    let n = index_of(rest, Class::NotXid);
    if e == rest.len() {
        (rest, byte, None)
    } else if n < rest.len() && blen(rest.take(n)) < blen(rest.take(e)) {
        (rest, byte, None)
    } else {
        (rest.skip(e + 1), (byte + blen(rest.take(e)) + 1) as usize, Some((byte, blen(rest.take(e)) as usize)))
    }
}

/// The token type of an argument.
pub open spec fn url_kind(kind: OperandKind) -> UrlTokenType {
    match kind {
        OperandKind::Numeric => UrlTokenType::Numeric,
        OperandKind::Text => UrlTokenType::Text,
        OperandKind::TranslatedText => UrlTokenType::TranslatedText,
        OperandKind::Variable => UrlTokenType::Variable,
    }
}

/// One step of a `UrlLexer`: the next state and the argument or error it yields, or `None` when
/// nothing is left. A keyword with no value after its `=` is incomplete; an argument not
/// followed by whitespace leaves an invalid remainder.
pub open spec fn url_step(m: UrlModel) -> (UrlModel, Option<Result<UrlToken, UrlLexerError>>) {
    let (rest, byte) = m;
    if rest.len() == 0 {
        (m, None)
    } else {
        let (r1, b1, kwarg) = spec_kwarg(rest, byte);
        if r1.len() == 0 || white_space(r1[0]) {
            let name_at = kwarg->0;
            (
                (Seq::empty(), b1),
                Some(
                    Err(
                        UrlLexerError::IncompleteKeywordArgument {
                            at: (name_at.0, (name_at.1 + 1) as usize),
                        },
                    ),
                ),
            )
        } else {
            let (r, b, t) = spec_operand(r1, b1);
            let (r2, b2, e) = spec_lex_remainder(r, b);
            match e {
                Some(e) => ((r2, b2), Some(Err(UrlLexerError::LexerError(e)))),
                None => (
                    (r2, b2),
                    Some(
                        match t {
                            Ok((at, kind)) => Ok(UrlToken { at, token_type: url_kind(kind), kwarg }),
                            Err(e) => Err(UrlLexerError::LexerError(e)),
                        },
                    ),
                ),
            }
        }
    }
}

/// The next step of the lexer neither cuts a character in two nor starts at whitespace without a
/// keyword before it.
pub open spec fn url_step_safe(m: UrlModel) -> bool {
    let (rest, byte) = m;
    let (r1, b1, kwarg) = spec_kwarg(rest, byte);
    rest.len() > 0 ==> if r1.len() == 0 || white_space(r1[0]) {
        kwarg is Some
    } else {
        operand_safe(r1, b1)
    }
}

/// The arguments that a `UrlLexer` yields from state `m` until it yields `None`, and whether no
/// step on the way fails `url_step_safe`.
pub open spec fn url_run(m: UrlModel) -> (Seq<Result<UrlToken, UrlLexerError>>, bool)
    decreases m.0.len(),
{
    if !url_step_safe(m) {
        (Seq::empty(), false)
    } else {
        match url_step(m) {
            (_, None) => (Seq::empty(), true),
            (next, Some(item)) => if next.0.len() < m.0.len() {
                let (items, safe) = url_run(next);
                (seq![item] + items, safe)
            } else {
                (Seq::empty(), false)
            },
        }
    }
}

pub proof fn lemma_spec_kwarg(rest: Seq<char>, byte: usize)
    requires
        byte + blen(rest) < usize::MAX,
    ensures
        ({
            let (r, b, k) = spec_kwarg(rest, byte);
            &&& b + blen(r) == byte + blen(rest)
            &&& byte <= b
            &&& r.len() <= rest.len()
            &&& k is Some ==> r.len() < rest.len()
            &&& k matches Some(at) ==> at.0 == byte && at.0 + at.1 < b
            &&& is_suffix(r, rest)
            &&& k is None ==> r == rest
        }),
{
    lemma_suffix_refl(rest);
    let e = index_of(rest, Class::Char('='));
    lemma_index_of(rest, Class::Char('='));
    if e < rest.len() {
        lemma_blen_take_step(rest, e);
        lemma_blen_take_skip(rest, e + 1, e + 1);
        lemma_suffix_skip(rest, e + 1);
    }
}

impl<'t> UrlLexer<'t> {
    /// The lexer's invariant: the byte offsets it reports fit in `usize`.
    pub closed spec fn wf(&self) -> bool {
        self.byte + blen(self.rest@) < usize::MAX
    }

    /// A lexer over the arguments of a `url` tag.
    pub fn new(template: TemplateString<'t>, parts: TagParts) -> (r: Self)
        requires
            valid_span(template.0@, parts.at),
            parts.at.0 + parts.at.1 < usize::MAX,
        ensures
            r.wf(),
            r@ == (span(template.0@, parts.at), parts.at.0),
    {
        let rest = template.content(parts.at);
        proof {
            crate::types::lemma_span_blen(template.0@, parts.at);
        }
        Self { rest, byte: parts.at.0 }
    }

    fn lex_kwarg(&mut self) -> (r: Option<(usize, usize)>)
        requires
            old(self).wf(),
        ensures
            final(self).wf(),
            final(self)@.0 == spec_kwarg(old(self)@.0, old(self)@.1).0,
            final(self)@.1 == spec_kwarg(old(self)@.0, old(self)@.1).1,
            r == spec_kwarg(old(self)@.0, old(self)@.1).2,
    {
        let ghost rest = self.rest@;
        proof {
            lemma_spec_kwarg(rest, self.byte);
            lemma_index_of(rest, Class::Char('='));
            lemma_index_of(rest, Class::NotXid);
        }
        let index = match find(self.rest, Class::Char('=')) {
            Some(index) => index,
            None => return None,
        };
        match find(self.rest, Class::NotXid) {
            Some(n) => if n < index {
                return None;
            },
            None => {},
        }
        let at = (self.byte, index);
        proof {
            let e = index_of(rest, Class::Char('='));
            lemma_blen_take_step(rest, e);
            lemma_chars_in(rest, e + 1);
            lemma_blen_take_le(rest, e + 1);
        }
        self.rest = split_bytes(self.rest, index + 1).1;
        self.byte = self.byte + index + 1;
        Some(at)
    }

    fn lex_numeric(&mut self, kwarg: Option<(usize, usize)>) -> (r: UrlToken)
        requires
            old(self).wf(),
            opens_numeric(old(self)@.0),
        ensures
            final(self).wf(),
            final(self)@.0 == spec_lex_numeric(old(self)@.1, old(self)@.0).2,
            final(self)@.1 == spec_lex_numeric(old(self)@.1, old(self)@.0).1,
            r == (UrlToken {
                at: spec_lex_numeric(old(self)@.1, old(self)@.0).0,
                token_type: UrlTokenType::Numeric,
                kwarg,
            }),
    {
        proof {
            lemma_index_of(self.rest@.drop_first(), Class::NotNumeric);
            crate::lex::common::lemma_spec_lex_numeric(self.byte, self.rest@);
        }
        let (at, byte, rest) = lex_numeric(self.byte, self.rest);
        self.rest = rest;
        self.byte = byte;
        UrlToken { at, token_type: UrlTokenType::Numeric, kwarg }
    }

    fn lex_text(&mut self, chars: &mut std::str::Chars, end: char, kwarg: Option<(usize, usize)>) -> (r: Result<
        UrlToken,
        UrlLexerError,
    >)
        requires
            old(self).wf(),
            (*old(chars)).remaining() == old(self)@.0.drop_first(),
            (*old(chars)).decrease() is Some,
            old(self)@.0.len() > 0,
            text_safe(old(self)@.0, old(self)@.0.drop_first(), end),
        ensures
            final(self).wf(),
            match spec_lex_text(old(self)@.1, old(self)@.0, old(self)@.0.drop_first(), end).0 {
                Ok((at, b, after)) => {
                    &&& final(self)@.0 == after
                    &&& final(self)@.1 == b
                    &&& r == Ok::<UrlToken, UrlLexerError>(
                        UrlToken { at, token_type: UrlTokenType::Text, kwarg },
                    )
                },
                Err(e) => {
                    &&& final(self)@.0 == Seq::<char>::empty()
                    &&& final(self)@.1 == old(self)@.1
                    &&& r == Err::<UrlToken, UrlLexerError>(UrlLexerError::LexerError(e))
                },
            },
    {
        proof {
            lemma_spec_lex_text(self.byte, self.rest@, self.rest@.drop_first(), end);
            crate::text::lemma_len_le_blen(self.rest@);
        }
        match lex_text(self.byte, self.rest, chars, end) {
            Ok((at, byte, rest)) => {
                self.rest = rest;
                self.byte = byte;
                Ok(UrlToken { token_type: UrlTokenType::Text, at, kwarg })
            },
            Err(e) => {
                self.rest = "";
                proof {
                    reveal_strlit("");
                }
                Err(UrlLexerError::LexerError(e))
            },
        }
    }

    fn lex_translated(&mut self, chars: &mut std::str::Chars, kwarg: Option<(usize, usize)>) -> (r: Result<
        UrlToken,
        UrlLexerError,
    >)
        requires
            old(self).wf(),
            (*old(chars)).remaining() == old(self)@.0.skip(2),
            (*old(chars)).decrease() is Some,
            old(self)@.0.len() > 1,
            translated_safe(old(self)@.1, old(self)@.0, old(self)@.0.skip(2)),
        ensures
            final(self).wf(),
            match spec_lex_translated(old(self)@.1, old(self)@.0, old(self)@.0.skip(2)).0 {
                Ok((at, b, after)) => {
                    &&& final(self)@.0 == after
                    &&& final(self)@.1 == b
                    &&& r == Ok::<UrlToken, UrlLexerError>(
                        UrlToken { at, token_type: UrlTokenType::TranslatedText, kwarg },
                    )
                },
                Err(e) => {
                    &&& final(self)@.0 == Seq::<char>::empty()
                    &&& final(self)@.1 == old(self)@.1
                    &&& r == Err::<UrlToken, UrlLexerError>(UrlLexerError::LexerError(e))
                },
            },
    {
        proof {
            crate::lex::common::lemma_spec_lex_translated(self.byte, self.rest@, self.rest@.skip(2));
            crate::text::lemma_len_le_blen(self.rest@);
        }
        match lex_translated(self.byte, self.rest, chars) {
            Ok((at, byte, rest)) => {
                self.rest = rest;
                self.byte = byte;
                Ok(UrlToken { token_type: UrlTokenType::TranslatedText, at, kwarg })
            },
            Err(e) => {
                self.rest = "";
                proof {
                    reveal_strlit("");
                }
                Err(UrlLexerError::LexerError(e))
            },
        }
    }

    /// Lexes a variable with its filters, as `lex_variable` does.
    fn lex_variable_or_filter(&mut self, kwarg: Option<(usize, usize)>) -> (r: Result<
        UrlToken,
        UrlLexerError,
    >)
        requires
            old(self).wf(),
            is_boundary(old(self)@.0, variable_len(old(self)@.0) as int),
        ensures
            final(self).wf(),
            final(self)@.0 == spec_lex_variable(old(self)@.1, old(self)@.0).2,
            final(self)@.1 == spec_lex_variable(old(self)@.1, old(self)@.0).1,
            r == Ok::<UrlToken, UrlLexerError>(
                UrlToken {
                    at: spec_lex_variable(old(self)@.1, old(self)@.0).0,
                    token_type: UrlTokenType::Variable,
                    kwarg,
                },
            ),
    {
        proof {
            crate::lex::common::lemma_spec_lex_variable(self.byte, self.rest@);
        }
        let (at, byte, rest) = lex_variable(self.byte, self.rest);
        self.rest = rest;
        self.byte = byte;
        Ok(UrlToken { token_type: UrlTokenType::Variable, at, kwarg })
    }

    fn lex_remainder(&mut self, token: Result<UrlToken, UrlLexerError>) -> (r: Result<
        UrlToken,
        UrlLexerError,
    >)
        requires
            old(self).wf(),
        ensures
            final(self).wf(),
            final(self)@.0 == spec_lex_remainder(old(self)@.0, old(self)@.1).0,
            final(self)@.1 == spec_lex_remainder(old(self)@.0, old(self)@.1).1,
            r == match spec_lex_remainder(old(self)@.0, old(self)@.1).2 {
                Some(e) => Err(UrlLexerError::LexerError(e)),
                None => token,
            },
    {
        proof {
            lemma_lex_remainder(self.rest@, self.byte);
        }
        let (rest, byte, error) = lex_remainder(self.rest, self.byte);
        self.rest = rest;
        self.byte = byte;
        match error {
            Some(e) => Err(UrlLexerError::LexerError(e)),
            None => token,
        }
    }

    /// The next argument of the tag, or `None` when the whole tag has been read.
    pub fn next(&mut self) -> (r: Option<Result<UrlToken, UrlLexerError>>)
        requires
            old(self).wf(),
            url_step_safe(old(self)@),
        ensures
            final(self).wf(),
            final(self)@ == url_step(old(self)@).0,
            r == url_step(old(self)@).1,
    {
        if self.rest.is_empty() {
            return None;
        }
        let kwarg = self.lex_kwarg();
        let ghost rest = self.rest@;
        let mut chars = self.rest.chars();
        let next = match chars.next() {
            Some(next) if !is_whitespace(next) => next,
            _ => {
                self.rest = "";
                proof {
                    reveal_strlit("");
                }
                let at = match kwarg {
                    Some(at) => at,
                    None => {
                        assert(false);
                        (0, 0)
                    },
                };
                proof {
                    lemma_spec_kwarg(old(self)@.0, old(self)@.1);
                }
                let at = (at.0, at.1 + 1);
                return Some(Err(UrlLexerError::IncompleteKeywordArgument { at }));
            },
        };
        proof {
            lemma_spec_operand(rest, self.byte);
        }
        let token = match next {
            '_' => {
                let second = chars.next();
                if let Some('(') = second {
                    assert(chars.remaining() =~= rest.skip(2));
                    self.lex_translated(&mut chars, kwarg)
                } else {
                    self.lex_variable_or_filter(kwarg)
                }
            },
            '"' => {
                assert(chars.remaining() =~= rest.drop_first());
                self.lex_text(&mut chars, '"', kwarg)
            },
            '\'' => {
                assert(chars.remaining() =~= rest.drop_first());
                self.lex_text(&mut chars, '\'', kwarg)
            },
            c => {
                if ('0' <= c && c <= '9') || c == '-' {
                    Ok(self.lex_numeric(kwarg))
                } else {
                    self.lex_variable_or_filter(kwarg)
                }
            },
        };
        Some(self.lex_remainder(token))
    }

    /// All the arguments that the lexer yields, up to its first `None`.
    pub fn collect(self) -> (r: Vec<Result<UrlToken, UrlLexerError>>)
        requires
            self.wf(),
            url_run(self@).1,
        ensures
            r@ == url_run(self@).0,
    {
        let ghost all = url_run(self@).0;
        let mut lexer = self;
        let mut tokens: Vec<Result<UrlToken, UrlLexerError>> = Vec::new();
        loop
            invariant
                lexer.wf(),
                url_run(lexer@).1,
                tokens@ + url_run(lexer@).0 == all,
                all == url_run(self@).0,
            decreases lexer@.0.len(),
        {
            let ghost before = lexer@;
            match lexer.next() {
                None => {
                    assert(url_run(before).0 =~= Seq::<Result<UrlToken, UrlLexerError>>::empty());
                    assert(tokens@ =~= all);
                    return tokens;
                },
                Some(token) => {
                    assert(seq![token] + url_run(lexer@).0 == url_run(before).0);
                    tokens.push(token);
                    assert(tokens@ + url_run(lexer@).0 =~= all);
                },
            }
        }
    }
}


impl UrlLexerError {
    /// The error's message.
    pub open spec fn message(self) -> Seq<char> {
        match self {
            UrlLexerError::LexerError(e) => e.message(),
            UrlLexerError::IncompleteKeywordArgument { .. } => "Incomplete keyword argument"@,
        }
    }

    /// The error's message.
    pub fn to_string(&self) -> (r: String)
        ensures
            r@ == self.message(),
    {
        match self {
            UrlLexerError::LexerError(e) => e.to_string(),
            UrlLexerError::IncompleteKeywordArgument { .. } => "Incomplete keyword argument".to_string(),
        }
    }
}


/// The model of a lexer has its byte offsets in range.
pub proof fn lemma_url_lexer_wf(lexer: &UrlLexer)
    requires
        lexer.wf(),
    ensures
        lexer@.1 + blen(lexer@.0) < usize::MAX,
{
}

/// One step of the lexer: it yields `None` exactly when nothing is left, and then stays as it is;
/// otherwise it consumes part of the tag, keeps a suffix of it that does not start with
/// whitespace, and yields an argument that lies between where it was and where it is after the
/// step, after the name of its keyword if it has one.
pub proof fn lemma_url_step(m: UrlModel)
    requires
        m.1 + blen(m.0) < usize::MAX,
        url_step_safe(m),
    ensures
        url_step(m).1 is None <==> m.0.len() == 0,
        url_step(m).1 is None ==> url_step(m).0 == m,
        url_step(m).1 is Some ==> url_step(m).0.0.len() < m.0.len(),
        url_step(m).1 is Some && url_step(m).0.0.len() > 0 ==> !white_space(url_step(m).0.0[0]),
        is_suffix(url_step(m).0.0, m.0),
        m.1 <= url_step(m).0.1,
        url_step(m).0.1 + blen(url_step(m).0.0) <= m.1 + blen(m.0),
        url_step(m).1 matches Some(Ok(t)) ==> m.1 <= t.at.0 && t.at.0 + t.at.1 <= url_step(m).0.1,
        url_step(m).1 matches Some(Ok(t)) ==> (t.kwarg matches Some(k) ==> m.1 <= k.0 && k.0 + k.1
            < t.at.0),
        url_step(m).1 matches Some(Ok(t)) ==> content_at_ok(t),
        url_step(m).0.0.len() > 0 ==> url_step(m).0.1 + blen(url_step(m).0.0) == m.1 + blen(m.0),
{
    let (rest, byte) = m;
    lemma_suffix_refl(rest);
    if rest.len() > 0 {
        lemma_spec_kwarg(rest, byte);
        let (r1, b1, kwarg) = spec_kwarg(rest, byte);
        lemma_suffix_empty(rest);
        if !(r1.len() == 0 || white_space(r1[0])) {
            lemma_spec_operand(r1, b1);
            lemma_operand_suffix(r1, b1);
            let (r, b, t) = spec_operand(r1, b1);
            lemma_lex_remainder(r, b);
            lemma_remainder_suffix(r, b);
            lemma_suffix_trans(spec_lex_remainder(r, b).0, r, r1);
            lemma_suffix_trans(spec_lex_remainder(r, b).0, r1, rest);
        }
    }
}

/// The arguments of a `url` tag lie inside it, in order, without overlapping.
pub proof fn lemma_url_run_ordered(m: UrlModel)
    requires
        m.1 + blen(m.0) < usize::MAX,
    ensures
        forall|i: int|
            0 <= i < url_run(m).0.len() ==> (#[trigger] url_run(m).0[i] matches Ok(t) ==> m.1
                <= t.at.0 && t.at.0 + t.at.1 <= m.1 + blen(m.0)),
        forall|i: int, j: int|
            0 <= i < j < url_run(m).0.len() ==> (#[trigger] url_run(m).0[i] matches Ok(a) ==> (
            #[trigger] url_run(m).0[j] matches Ok(b) ==> a.at.0 + a.at.1 <= b.at.0)),
    decreases m.0.len(),
{
    if url_step_safe(m) {
        lemma_url_step(m);
        match url_step(m) {
            (next, Some(item)) => {
                if next.0.len() < m.0.len() {
                    lemma_url_run_ordered(next);
                    let items = url_run(m).0;
                    assert(items == seq![item] + url_run(next).0);
                    assert forall|i: int|
                        0 <= i < items.len() implies (#[trigger] items[i] matches Ok(t) ==> m.1
                        <= t.at.0 && t.at.0 + t.at.1 <= m.1 + blen(m.0)) by {
                        if i > 0 {
                            assert(items[i] == url_run(next).0[i - 1]);
                        }
                    }
                    assert forall|i: int, j: int|
                        0 <= i < j < items.len() implies (#[trigger] items[i] matches Ok(a) ==> (
                        #[trigger] items[j] matches Ok(b) ==> a.at.0 + a.at.1 <= b.at.0)) by {
                        assert(items[j] == url_run(next).0[j - 1]);
                        if i > 0 {
                            assert(items[i] == url_run(next).0[i - 1]);
                        }
                    }
                }
            },
            _ => {},
        }
    }
}

/// The arguments of a `url` tag in ASCII text that do not start with whitespace (as `lex_tag`
/// leaves them) are lexed to their end: `collect` can be called on them.
pub proof fn lemma_url_run_ascii(m: UrlModel)
    requires
        m.1 + blen(m.0) < usize::MAX,
        ascii(m.0),
        m.0.len() > 0 ==> !white_space(m.0[0]),
    ensures
        url_run(m).1,
    decreases m.0.len(),
{
    let (rest, byte) = m;
    if rest.len() > 0 {
        lemma_spec_kwarg(rest, byte);
        let (r1, b1, kwarg) = spec_kwarg(rest, byte);
        lemma_ascii_suffix(r1, rest);
        if r1.len() > 0 {
            lemma_operand_ascii(r1, b1);
        }
        lemma_url_step(m);
        let next = url_step(m).0;
        lemma_ascii_suffix(next.0, rest);
        lemma_url_run_ascii(next);
    }
}
/// Every argument that the `url` lexer yields has a content span, and that span lies inside
/// the argument's own.
pub proof fn lemma_url_run_content(m: UrlModel)
    requires
        m.1 + blen(m.0) < usize::MAX,
    ensures
        forall|i: int|
            0 <= i < url_run(m).0.len() ==> (#[trigger] url_run(m).0[i] matches Ok(t) ==> ({
                let c = spec_content_at(t);
                &&& content_at_ok(t)
                &&& t.at.0 <= c.0
                &&& c.0 + c.1 <= t.at.0 + t.at.1
            })),
    decreases m.0.len(),
{
    if url_step_safe(m) {
        lemma_url_step(m);
        match url_step(m) {
            (next, Some(item)) => {
                if next.0.len() < m.0.len() {
                    lemma_url_run_content(next);
                    let items = url_run(m).0;
                    assert(items == seq![item] + url_run(next).0);
                    assert forall|i: int|
                        0 <= i < items.len() implies (#[trigger] items[i] matches Ok(t) ==> ({
                        let c = spec_content_at(t);
                        &&& content_at_ok(t)
                        &&& t.at.0 <= c.0
                        &&& c.0 + c.1 <= t.at.0 + t.at.1
                    })) by {
                        if i > 0 {
                            assert(items[i] == url_run(next).0[i - 1]);
                        }
                    }
                }
            },
            _ => {},
        }
    }
}

/// After an error the lexer has nothing left: its next step yields `None`.
pub proof fn lemma_url_error_ends(m: UrlModel)
    ensures
        url_step(m).1 matches Some(Err(_)) ==> url_step(url_step(m).0).1 is None && url_run(url_step(m).0).0.len()
            == 0,
{
}

/// A lexer yields at most one error, and nothing after it.
pub proof fn lemma_url_run_error_last(m: UrlModel)
    ensures
        forall|i: int|
            0 <= i < url_run(m).0.len() ==> (#[trigger] url_run(m).0[i] is Err ==> i == url_run(m).0.len()
                - 1),
    decreases m.0.len(),
{
    if url_step_safe(m) {
        match url_step(m) {
            (next, Some(item)) => {
                if next.0.len() < m.0.len() {
                    lemma_url_error_ends(m);
                    lemma_url_run_error_last(next);
                    let items = url_run(m).0;
                    assert(items == seq![item] + url_run(next).0);
                    assert forall|i: int| 0 <= i < items.len() && #[trigger] items[i] is Err implies i
                        == items.len() - 1 by {
                        if i > 0 {
                            assert(items[i] == url_run(next).0[i - 1]);
                        }
                    }
                }
            },
            _ => {},
        }
    }
}

/// Whether the remaining text of a lexer is the template's text at the span where it starts.
pub open spec fn url_rest_in_template(template: Seq<char>, m: UrlModel) -> bool {
    m.0.len() > 0 ==> valid_span(template, (m.1, blen(m.0) as usize)) && span(
        template,
        (m.1, blen(m.0) as usize),
    ) == m.0
}

/// What the keyword of an argument reads in the template: identifier characters, then `=`
/// right before the value.
pub open spec fn keyword_reads(template: Seq<char>, t: UrlToken) -> bool {
    t.kwarg matches Some(k) ==> {
        &&& valid_span(template, k)
        &&& forall|c: int|
            0 <= c < span(template, k).len() ==> crate::text::ident_char(#[trigger] span(template, k)[c])
        &&& valid_span(template, ((k.0 + k.1) as usize, 1))
        &&& span(template, ((k.0 + k.1) as usize, 1)) == seq!['=']
        &&& t.at.0 == k.0 + k.1 + 1
    }
}

proof fn lemma_url_step_reads(template: Seq<char>, m: UrlModel)
    requires
        m.1 + blen(m.0) < usize::MAX,
        url_step_safe(m),
        url_rest_in_template(template, m),
    ensures
        url_step(m).1 matches Some(Ok(t)) ==> keyword_reads(template, t),
        url_step(m).1 matches Some(Ok(t)) ==> valid_span(template, t.at),
        url_rest_in_template(template, url_step(m).0),
{
    lemma_url_step(m);
    let (rest, byte) = m;
    let next = url_step(m).0;
    if rest.len() > 0 {
        lemma_spec_kwarg(rest, byte);
        let (r1, b1, kwarg) = spec_kwarg(rest, byte);
        let e = index_of(rest, Class::Char('='));
        let n = index_of(rest, Class::NotXid);
        lemma_index_of(rest, Class::Char('='));
        lemma_index_of(rest, Class::NotXid);
        if kwarg is Some {
            if n < e {
                crate::text::lemma_blen_take_mono(rest, n, e);
                crate::text::lemma_blen_take_step(rest, n);
            }
            crate::types::lemma_sub_span(template, byte, rest, 0, e);
            assert(rest.subrange(0, e) =~= rest.take(e));
            assert(rest.take(0) =~= Seq::<char>::empty());
            crate::types::lemma_sub_span(template, byte, rest, e, e + 1);
            lemma_blen_take_step(rest, e);
            assert(rest.subrange(e, e + 1) =~= seq!['=']);
            assert forall|c: int| 0 <= c < rest.take(e).len() implies crate::text::ident_char(
                #[trigger] rest.take(e)[c],
            ) by {
                assert(!crate::text::holds(Class::NotXid, rest[c]));
            }
            if !(r1.len() == 0 || white_space(r1[0])) {
                lemma_spec_operand(r1, b1);
            }
            let k = kwarg->0;
            lemma_blen_take_le(rest, e);
            lemma_blen_take_le(rest, e + 1);
            assert(k == (byte, blen(rest.take(e)) as usize));
            assert(span(template, k) == rest.take(e));
            assert(blen(rest.take(e + 1)) - blen(rest.take(e)) == 1);
            let at2 = ((byte + blen(rest.take(e))) as usize, (blen(rest.take(e + 1)) - blen(
                rest.take(e),
            )) as usize);
            assert(valid_span(template, at2) && span(template, at2) == rest.subrange(e, e + 1));
            assert(at2 == ((k.0 + k.1) as usize, 1usize));
            assert(valid_span(template, ((k.0 + k.1) as usize, 1)));
            assert(span(template, ((k.0 + k.1) as usize, 1)) == seq!['=']);
            assert(b1 == k.0 + k.1 + 1);
        }
        if !(r1.len() == 0 || white_space(r1[0])) {
            crate::types::lemma_head_in_template(template, rest, byte, r1, b1);
            lemma_spec_operand(r1, b1);
            lemma_operand_suffix(r1, b1);
            let (r, b, t) = spec_operand(r1, b1);
            if t is Ok {
                crate::types::lemma_head_in_template(template, r1, b1, r, b);
            }
        }
        if next.0.len() > 0 {
            let x = rest.len() - next.0.len();
            assert(next.0 == rest.skip(x));
            lemma_blen_take_skip(rest, x, x);
            crate::types::lemma_sub_span(template, byte, rest, x, rest.len() as int);
            assert(rest.subrange(x, rest.len() as int) =~= next.0);
            assert(rest.take(rest.len() as int) =~= rest);
        }
    }
}

/// Whether `text` starts with identifier characters (maybe none) directly followed by `=`.
pub open spec fn starts_with_keyword(text: Seq<char>) -> bool {
    exists|p: int|
        0 <= p < text.len() && #[trigger] text[p] == '=' && forall|c: int|
            0 <= c < p ==> crate::text::ident_char(#[trigger] text[c])
}

/// A step that yields an argument without a keyword was standing at that argument, on text that
/// does not start with a keyword and `=`.
proof fn lemma_url_step_no_keyword(m: UrlModel)
    requires
        m.1 + blen(m.0) < usize::MAX,
        url_step_safe(m),
    ensures
        url_step(m).1 matches Some(Ok(t)) ==> (t.kwarg is None ==> t.at.0 == m.1
            && !starts_with_keyword(m.0)),
{
    let (rest, byte) = m;
    if rest.len() > 0 {
        lemma_spec_kwarg(rest, byte);
        let (r1, b1, kwarg) = spec_kwarg(rest, byte);
        if kwarg is None && !(r1.len() == 0 || white_space(r1[0])) {
            lemma_spec_operand(r1, b1);
            if starts_with_keyword(rest) {
                let p = choose|p: int|
                    0 <= p < rest.len() && #[trigger] rest[p] == '=' && forall|c: int|
                        0 <= c < p ==> crate::text::ident_char(#[trigger] rest[c]);
                let e = index_of(rest, Class::Char('='));
                let n = index_of(rest, Class::NotXid);
                lemma_index_of(rest, Class::Char('='));
                lemma_index_of(rest, Class::NotXid);
                assert(!crate::text::ident_char('='));
                if e < p {
                    assert(crate::text::ident_char(rest[e]));
                }
                if n < p {
                    assert(crate::text::ident_char(rest[n]));
                }
                assert(e == p && n == p);
            }
        }
    }
}

/// A keyword argument of a `url` tag names its keyword with identifier characters, followed by
/// `=` and then the value; an argument without a keyword starts text (running to the end of the
/// tag) that does not start with such a keyword and `=`; and every argument's span falls between
/// characters of the template.
pub proof fn lemma_url_run_keywords(template: Seq<char>, m: UrlModel)
    requires
        m.1 + blen(m.0) < usize::MAX,
        url_rest_in_template(template, m),
    ensures
        forall|i: int|
            0 <= i < url_run(m).0.len() && #[trigger] url_run(m).0[i] is Ok ==> keyword_reads(
                template,
                url_run(m).0[i]->Ok_0,
            ) && valid_span(template, url_run(m).0[i]->Ok_0.at),
        forall|i: int|
            0 <= i < url_run(m).0.len() && #[trigger] url_run(m).0[i] is Ok && url_run(m).0[i]->Ok_0.kwarg
                is None ==> !starts_with_keyword(
                span(
                    template,
                    (
                        url_run(m).0[i]->Ok_0.at.0,
                        (m.1 + blen(m.0) - url_run(m).0[i]->Ok_0.at.0) as usize,
                    ),
                ),
            ),
    decreases m.0.len(),
{
    if url_step_safe(m) {
        lemma_url_step(m);
        match url_step(m) {
            (next, Some(item)) => {
                if next.0.len() < m.0.len() {
                    lemma_url_step_reads(template, m);
                    lemma_url_step_no_keyword(m);
                    lemma_url_run_keywords(template, next);
                    let items = url_run(m).0;
                    assert(items == seq![item] + url_run(next).0);
                    assert forall|i: int| 0 <= i < items.len() && #[trigger] items[i] is Ok implies keyword_reads(
                        template,
                        items[i]->Ok_0,
                    ) && valid_span(template, items[i]->Ok_0.at) by {
                        if i > 0 {
                            assert(items[i] == url_run(next).0[i - 1]);
                        }
                    }
                    assert forall|i: int| 0 <= i < items.len() && #[trigger] items[i] is Ok
                        && items[i]->Ok_0.kwarg is None implies !starts_with_keyword(
                        span(
                            template,
                            (items[i]->Ok_0.at.0, (m.1 + blen(m.0) - items[i]->Ok_0.at.0) as usize),
                        ),
                    ) by {
                        if i > 0 {
                            assert(items[i] == url_run(next).0[i - 1]);
                        }
                    }
                }
            },
            _ => {},
        }
    }
}

/// What the `url` lexer yields from the arguments `parts` of a tag, started as `UrlLexer::new`
/// starts it (so what `collect` gives): its arguments lie inside `parts`, in order, on
/// character boundaries; an argument has a keyword exactly when the text from where it was
/// lexed starts with identifier characters and `=`, and then the keyword is those characters
/// and the value starts right after the `=`; and at most one item is an error, and it is the
/// last.
#[verifier::spinoff_prover]
#[verifier::rlimit(100)]
pub proof fn lemma_url_lexer_laws(template: Seq<char>, parts: TagParts)
    requires
        valid_span(template, parts.at),
        parts.at.0 + parts.at.1 < usize::MAX,
    ensures
        ({
            let items = url_run((span(template, parts.at), parts.at.0)).0;
            &&& forall|i: int|
                0 <= i < items.len() ==> (#[trigger] items[i] matches Ok(t) ==> parts.at.0 <= t.at.0
                    && t.at.0 + t.at.1 <= parts.at.0 + parts.at.1 && valid_span(template, t.at))
            &&& forall|i: int, j: int|
                0 <= i < j < items.len() ==> (#[trigger] items[i] matches Ok(a) ==> (
                #[trigger] items[j] matches Ok(b) ==> a.at.0 + a.at.1 <= b.at.0))
            &&& forall|i: int|
                0 <= i < items.len() && #[trigger] items[i] is Ok ==> keyword_reads(
                    template,
                    items[i]->Ok_0,
                )
            &&& forall|i: int|
                0 <= i < items.len() && #[trigger] items[i] is Ok && items[i]->Ok_0.kwarg is None
                    ==> !starts_with_keyword(
                    span(
                        template,
                        (items[i]->Ok_0.at.0, (parts.at.0 + parts.at.1 - items[i]->Ok_0.at.0) as usize),
                    ),
                )
            &&& forall|i: int| 0 <= i < items.len() ==> (#[trigger] items[i] is Err ==> i == items.len() - 1)
        }),
{
    let m: UrlModel = (span(template, parts.at), parts.at.0);
    crate::types::lemma_span_blen(template, parts.at);
    lemma_url_run_ordered(m);
    lemma_url_run_keywords(template, m);
    lemma_url_run_error_last(m);
}

} // verus!
