//! Lexes the arguments of `{% for names in expression reversed %}`.
use vstd::prelude::*;
use vstd::std_specs::iter::IteratorSpec;
use vstd::string::StringExecFns;

use crate::lex::common::{
    lemma_operand_ascii, lemma_operand_suffix, lemma_remainder_suffix, LexerError, OperandKind, lemma_lex_remainder, lemma_spec_lex_text, lemma_spec_operand,
    lex_numeric, lex_remainder, lex_text, lex_translated, lex_variable, next_non_whitespace,
    next_whitespace, opens_numeric, opens_text, opens_translated, operand_safe, spec_lex_numeric,
    spec_lex_remainder, spec_lex_text, spec_lex_translated, spec_lex_variable, spec_operand,
    text_safe, translated_safe, variable_len,
};
use crate::lex::tag::TagParts;
use crate::text::{
    ascii, is_suffix, lemma_ascii_suffix, lemma_suffix_empty, lemma_suffix_refl,
    lemma_suffix_skip, lemma_suffix_trans, Class, blen, chars_in, find, index_of, is_boundary, lemma_blen_take_le, lemma_blen_take_skip,
    lemma_blen_take_step, lemma_chars_in, lemma_index_of, split_bytes, str_eq,
};
use crate::types::{TemplateString, span, valid_span};

verus! {

broadcast use vstd::string::group_string_axioms;

/// What the `for` lexer rejects, with the span of the culprit.
#[derive(Debug, PartialEq, Eq)]
pub enum ForLexerError {
    LexerError(LexerError),
    InvalidName { name: String, at: (usize, usize) },
    MissingComma { at: (usize, usize) },
    MissingIn { at: (usize, usize) },
    MissingExpression { at: (usize, usize) },
    UnexpectedExpression { at: (usize, usize) },
}

/// A `ForLexerError`, with the text of an invalid name as characters.
pub enum ForLexerErrorView {
    LexerError(LexerError),
    InvalidName { name: Seq<char>, at: (usize, usize) },
    MissingComma { at: (usize, usize) },
    MissingIn { at: (usize, usize) },
    MissingExpression { at: (usize, usize) },
    UnexpectedExpression { at: (usize, usize) },
}

impl View for ForLexerError {
    type V = ForLexerErrorView;

    open spec fn view(&self) -> ForLexerErrorView {
        match self {
            ForLexerError::LexerError(e) => ForLexerErrorView::LexerError(*e),
            ForLexerError::InvalidName { name, at } => ForLexerErrorView::InvalidName {
                name: name@,
                at: *at,
            },
            ForLexerError::MissingComma { at } => ForLexerErrorView::MissingComma { at: *at },
            ForLexerError::MissingIn { at } => ForLexerErrorView::MissingIn { at: *at },
            ForLexerError::MissingExpression { at } => ForLexerErrorView::MissingExpression {
                at: *at,
            },
            ForLexerError::UnexpectedExpression { at } => ForLexerErrorView::UnexpectedExpression {
                at: *at,
            },
        }
    }
}

impl Clone for ForLexerError {
    fn clone(&self) -> (r: Self)
        ensures
            r@ == self@,
    {
        match self {
            ForLexerError::LexerError(e) => ForLexerError::LexerError(*e),
            ForLexerError::InvalidName { name, at } => ForLexerError::InvalidName {
                name: name.clone(),
                at: *at,
            },
            ForLexerError::MissingComma { at } => ForLexerError::MissingComma { at: *at },
            ForLexerError::MissingIn { at } => ForLexerError::MissingIn { at: *at },
            ForLexerError::MissingExpression { at } => ForLexerError::MissingExpression { at: *at },
            ForLexerError::UnexpectedExpression { at } => ForLexerError::UnexpectedExpression {
                at: *at,
            },
        }
    }
}

impl From<LexerError> for ForLexerError {
    fn from(e: LexerError) -> (r: Self)
        ensures
            r == ForLexerError::LexerError(e),
    {
        ForLexerError::LexerError(e)
    }
}

impl vstd::std_specs::convert::FromSpecImpl<LexerError> for ForLexerError {
    open spec fn obeys_from_spec() -> bool {
        true
    }

    open spec fn from_spec(e: LexerError) -> ForLexerError {
        ForLexerError::LexerError(e)
    }
}

/// The kinds of tokens of a `for` tag.
#[derive(Clone, Copy, Debug, PartialEq, Eq, Structural)]
pub enum ForTokenType {
    Numeric,
    Text,
    TranslatedText,
    Variable,
    VariableName,
    In,
    Reversed,
}

/// A token of a `for` tag, by its span.
#[derive(Clone, Copy, Debug, PartialEq, Eq)]
pub struct ForToken {
    pub at: (usize, usize),
    pub token_type: ForTokenType,
}

/// What the `for` lexer expects next.
#[derive(Clone, Copy, Debug, PartialEq, Eq, Structural)]
pub enum State {
    VariableName,
    In,
    Variable,
    Reversed,
    Done,
}

/// Lexes the arguments of a `for` tag, token by token.
pub struct ForLexer<'t> {
    rest: &'t str,
    byte: usize,
    state: State,
    previous_at: Option<(usize, usize)>,
}

/// The state of a `ForLexer`: the characters left, the byte offset of the first, what it
/// expects next, and the span of the last name, keyword or expression.
pub type ForModel = (Seq<char>, usize, State, Option<(usize, usize)>);

/// A token or error as the view sees it.
pub type ForItem = Result<ForToken, ForLexerErrorView>;

impl<'t> View for ForLexer<'t> {
    type V = ForModel;

    closed spec fn view(&self) -> ForModel {
        (self.rest@, self.byte, self.state, self.previous_at)
    }
}

/// The view of what `ForLexer::next` returns.
pub open spec fn for_item_view(r: Option<Result<ForToken, ForLexerError>>) -> Option<ForItem> {
    match r {
        None => None,
        Some(Ok(t)) => Some(Ok(t)),
        Some(Err(e)) => Some(Err(e@)),
    }
}

/// The view of a token or error.
pub open spec fn for_result_view(r: Result<ForToken, ForLexerError>) -> ForItem {
    match r {
        Ok(t) => Ok(t),
        Err(e) => Err(e@),
    }
}

/// The token type of an expression.
pub open spec fn for_kind(kind: OperandKind) -> ForTokenType {
    match kind {
        OperandKind::Numeric => ForTokenType::Numeric,
        OperandKind::Text => ForTokenType::Text,
        OperandKind::TranslatedText => ForTokenType::TranslatedText,
        OperandKind::Variable => ForTokenType::Variable,
    }
}

/// A keyword (`in` or `reversed`) expected at the start of `rest`: when the word before the
/// first whitespace is `word`, the state after it and its token; otherwise nothing is left.
pub open spec fn for_keyword(
    m: ForModel,
    word: Seq<char>,
    token_type: ForTokenType,
    next_state: State,
) -> (ForModel, Option<ForItem>) {
    let (rest, byte, state, previous_at) = m;
    let wi = index_of(rest, Class::Whitespace);
    let at = (byte, blen(rest.take(wi)) as usize);
    if rest.take(wi) == word {
        let after = rest.skip(wi);
        let j = index_of(after, Class::NotWhitespace);
        (
            (
                after.skip(j),
                (byte + at.1 + blen(after.take(j))) as usize,
                next_state,
                Some(at),
            ),
            Some(Ok(ForToken { at, token_type })),
        )
    } else if state == State::In {
        (
            (Seq::empty(), byte, State::Done, previous_at),
            Some(Err(ForLexerErrorView::MissingComma { at })),
        )
    } else {
        (
            (Seq::empty(), byte, state, previous_at),
            Some(Err(ForLexerErrorView::UnexpectedExpression { at })),
        )
    }
}

/// One step of a `ForLexer`: the next state and the token or error it yields, or `None` when it
/// is done.
pub open spec fn for_step(m: ForModel) -> (ForModel, Option<ForItem>) {
    let (rest, byte, state, previous_at) = m;
    if rest.len() == 0 {
        match state {
            State::In => (
                (rest, byte, State::Done, previous_at),
                Some(Err(ForLexerErrorView::MissingIn { at: previous_at->0 })),
            ),
            State::Variable => (
                (rest, byte, State::Done, previous_at),
                Some(Err(ForLexerErrorView::MissingExpression { at: previous_at->0 })),
            ),
            _ => (m, None),
        }
    } else {
        let wi = index_of(rest, Class::Whitespace);
        match state {
            State::VariableName => {
                let ci = index_of(rest, Class::Char(','));
                let comma = ci < rest.len() && blen(rest.take(ci)) < blen(rest.take(wi));
                let name_len = if comma {
                    ci
                } else {
                    wi
                };
                let name = rest.take(name_len);
                let at = (byte, blen(name) as usize);
                let after = if comma {
                    rest.skip(ci + 1)
                } else {
                    rest.skip(wi)
                };
                let j = index_of(after, Class::NotWhitespace);
                let consumed = if comma {
                    blen(name) + 1 + blen(after.take(j))
                } else {
                    blen(name) + blen(after.take(j))
                };
                if index_of(name, Class::QuoteOrPipe) < name.len() {
                    (
                        (Seq::empty(), byte, State::Done, Some(at)),
                        Some(Err(ForLexerErrorView::InvalidName { name, at })),
                    )
                } else {
                    (
                        (
                            after.skip(j),
                            (byte + consumed) as usize,
                            if comma {
                                State::VariableName
                            } else {
                                State::In
                            },
                            Some(at),
                        ),
                        Some(Ok(ForToken { at, token_type: ForTokenType::VariableName })),
                    )
                }
            },
            State::In => for_keyword(m, "in"@, ForTokenType::In, State::Variable),
            State::Variable => {
                let (r, b, t) = spec_operand(rest, byte);
                match t {
                    Err(e) => (
                        (r, b, State::Reversed, previous_at),
                        Some(Err(ForLexerErrorView::LexerError(e))),
                    ),
                    Ok((at, kind)) => {
                        let (r2, b2, e) = spec_lex_remainder(r, b);
                        match e {
                            Some(e) => (
                                (r2, b2, State::Reversed, Some(at)),
                                Some(Err(ForLexerErrorView::LexerError(e))),
                            ),
                            None => (
                                (r2, b2, State::Reversed, Some(at)),
                                Some(Ok(ForToken { at, token_type: for_kind(kind) })),
                            ),
                        }
                    },
                }
            },
            State::Reversed => for_keyword(m, "reversed"@, ForTokenType::Reversed, State::Done),
            State::Done => (
                (Seq::empty(), byte, State::Done, previous_at),
                Some(
                    Err(
                        ForLexerErrorView::UnexpectedExpression {
                            at: (byte, blen(rest.take(wi)) as usize),
                        },
                    ),
                ),
            ),
        }
    }
}

/// The next step of the lexer cuts no character in two.
pub open spec fn for_step_safe(m: ForModel) -> bool {
    m.0.len() > 0 && m.2 == State::Variable ==> operand_safe(m.0, m.1)
}

/// How far a state is from the end of the tag.
pub open spec fn rank(s: State) -> nat {
    match s {
        State::VariableName => 4,
        State::In => 3,
        State::Variable => 2,
        State::Reversed => 1,
        State::Done => 0,
    }
}

/// The tokens that a `ForLexer` yields from state `m` until it yields `None`, and whether no step
/// on the way cuts a character in two.
pub open spec fn for_run(m: ForModel) -> (Seq<ForItem>, bool)
    decreases m.0.len(), rank(m.2),
{
    if !for_step_safe(m) {
        (Seq::empty(), false)
    } else {
        match for_step(m) {
            (_, None) => (Seq::empty(), true),
            (next, Some(item)) => if next.0.len() < m.0.len() || (next.0.len() == m.0.len()
                && rank(next.2) < rank(m.2)) {
                let (items, safe) = for_run(next);
                (seq![item] + items, safe)
            } else {
                (Seq::empty(), false)
            },
        }
    }
}

impl<'t> ForLexer<'t> {
    /// The lexer's invariant: the byte offsets it reports fit in `usize`, and it has a span to
    /// point at when it waits for `in` or for the expression.
    pub closed spec fn wf(&self) -> bool {
        &&& self.byte + blen(self.rest@) < usize::MAX
        &&& (self.state == State::In || self.state == State::Variable) ==> self.previous_at is Some
    }

    /// A lexer over the arguments of a `for` tag.
    pub fn new(template: TemplateString<'t>, parts: TagParts) -> (r: Self)
        requires
            valid_span(template.0@, parts.at),
            parts.at.0 + parts.at.1 < usize::MAX,
        ensures
            r.wf(),
            r@ == (span(template.0@, parts.at), parts.at.0, State::VariableName, None::<
                (usize, usize),
            >),
    {
        let rest = template.content(parts.at);
        proof {
            crate::types::lemma_span_blen(template.0@, parts.at);
        }
        Self { rest, byte: parts.at.0, state: State::VariableName, previous_at: None }
    }

    /// Lexes the expression after `in` and what follows it.
    fn lex_expression(&mut self) -> (r: Result<ForToken, ForLexerError>)
        requires
            old(self).wf(),
            old(self)@.0.len() > 0,
            operand_safe(old(self)@.0, old(self)@.1),
            old(self)@.2 == State::Reversed,
        ensures
            final(self).wf(),
            ({
                let (rest, byte, state, previous_at) = old(self)@;
                let step = for_step((rest, byte, State::Variable, previous_at));
                &&& final(self)@ == step.0
                &&& Some(for_result_view(r)) == step.1
            }),
    {
        let ghost rest = self.rest@;
        let ghost byte = self.byte;
        proof {
            lemma_spec_operand(rest, byte);
        }
        let mut chars = self.rest.chars();
        let first = chars.next();
        let token = match first {
            Some('_') => {
                let second = chars.next();
                if let Some('(') = second {
                    assert(chars.remaining() =~= rest.skip(2));
                    self.lex_translated(&mut chars)?
                } else {
                    self.lex_variable()
                }
            },
            Some('"') => {
                assert(chars.remaining() =~= rest.drop_first());
                self.lex_text(&mut chars, '"')?
            },
            Some('\'') => {
                assert(chars.remaining() =~= rest.drop_first());
                self.lex_text(&mut chars, '\'')?
            },
            Some(c) => {
                if ('0' <= c && c <= '9') || c == '-' {
                    self.lex_numeric()
                } else {
                    self.lex_variable()
                }
            },
            None => {
                assert(false);
                self.lex_variable()
            },
        };
        self.lex_remainder()?;
        Ok(token)
    }

    fn lex_variable(&mut self) -> (r: ForToken)
        requires
            old(self).wf(),
            is_boundary(old(self)@.0, variable_len(old(self)@.0) as int),
        ensures
            final(self).wf(),
            final(self)@.0 == spec_lex_variable(old(self)@.1, old(self)@.0).2,
            final(self)@.1 == spec_lex_variable(old(self)@.1, old(self)@.0).1,
            final(self)@.2 == old(self)@.2,
            final(self)@.3 == Some(spec_lex_variable(old(self)@.1, old(self)@.0).0),
            r == (ForToken {
                at: spec_lex_variable(old(self)@.1, old(self)@.0).0,
                token_type: ForTokenType::Variable,
            }),
    {
        proof {
            crate::lex::common::lemma_spec_lex_variable(self.byte, self.rest@);
        }
        let (at, byte, rest) = lex_variable(self.byte, self.rest);
        self.rest = rest;
        self.byte = byte;
        self.previous_at = Some(at);
        ForToken { token_type: ForTokenType::Variable, at }
    }

    fn lex_numeric(&mut self) -> (r: ForToken)
        requires
            old(self).wf(),
            opens_numeric(old(self)@.0),
        ensures
            final(self).wf(),
            final(self)@.0 == spec_lex_numeric(old(self)@.1, old(self)@.0).2,
            final(self)@.1 == spec_lex_numeric(old(self)@.1, old(self)@.0).1,
            final(self)@.2 == old(self)@.2,
            final(self)@.3 == Some(spec_lex_numeric(old(self)@.1, old(self)@.0).0),
            r == (ForToken {
                at: spec_lex_numeric(old(self)@.1, old(self)@.0).0,
                token_type: ForTokenType::Numeric,
            }),
    {
        proof {
            lemma_index_of(self.rest@.drop_first(), Class::NotNumeric);
            crate::lex::common::lemma_spec_lex_numeric(self.byte, self.rest@);
        }
        let (at, byte, rest) = lex_numeric(self.byte, self.rest);
        self.rest = rest;
        self.byte = byte;
        self.previous_at = Some(at);
        ForToken { at, token_type: ForTokenType::Numeric }
    }

    fn lex_text(&mut self, chars: &mut std::str::Chars, end: char) -> (r: Result<
        ForToken,
        ForLexerError,
    >)
        requires
            old(self).wf(),
            (*old(chars)).remaining() == old(self)@.0.drop_first(),
            (*old(chars)).decrease() is Some,
            old(self)@.0.len() > 0,
            text_safe(old(self)@.0, old(self)@.0.drop_first(), end),
        ensures
            final(self).wf(),
            final(self)@.2 == old(self)@.2,
            match spec_lex_text(old(self)@.1, old(self)@.0, old(self)@.0.drop_first(), end).0 {
                Ok((at, b, after)) => {
                    &&& final(self)@.0 == after
                    &&& final(self)@.1 == b
                    &&& final(self)@.3 == Some(at)
                    &&& r == Ok::<ForToken, ForLexerError>(
                        ForToken { at, token_type: ForTokenType::Text },
                    )
                },
                Err(e) => {
                    &&& final(self)@.0 == Seq::<char>::empty()
                    &&& final(self)@.1 == old(self)@.1
                    &&& final(self)@.3 == old(self)@.3
                    &&& r == Err::<ForToken, ForLexerError>(ForLexerError::LexerError(e))
                },
            },
    {
        proof {
            lemma_spec_lex_text(self.byte, self.rest@, self.rest@.drop_first(), end);
            crate::text::lemma_len_le_blen(self.rest@);
        }
        match lex_text(self.byte, self.rest, chars, end) {
            Ok((at, byte, rest)) => {
                self.rest = rest;
                self.byte = byte;
                self.previous_at = Some(at);
                Ok(ForToken { token_type: ForTokenType::Text, at })
            },
            Err(e) => {
                self.rest = "";
                proof {
                    reveal_strlit("");
                }
                Err(ForLexerError::LexerError(e))
            },
        }
    }

    fn lex_translated(&mut self, chars: &mut std::str::Chars) -> (r: Result<
        ForToken,
        ForLexerError,
    >)
        requires
            old(self).wf(),
            (*old(chars)).remaining() == old(self)@.0.skip(2),
            (*old(chars)).decrease() is Some,
            old(self)@.0.len() > 1,
            translated_safe(old(self)@.1, old(self)@.0, old(self)@.0.skip(2)),
        ensures
            final(self).wf(),
            final(self)@.2 == old(self)@.2,
            match spec_lex_translated(old(self)@.1, old(self)@.0, old(self)@.0.skip(2)).0 {
                Ok((at, b, after)) => {
                    &&& final(self)@.0 == after
                    &&& final(self)@.1 == b
                    &&& final(self)@.3 == Some(at)
                    &&& r == Ok::<ForToken, ForLexerError>(
                        ForToken { at, token_type: ForTokenType::TranslatedText },
                    )
                },
                Err(e) => {
                    &&& final(self)@.0 == Seq::<char>::empty()
                    &&& final(self)@.1 == old(self)@.1
                    &&& final(self)@.3 == old(self)@.3
                    &&& r == Err::<ForToken, ForLexerError>(ForLexerError::LexerError(e))
                },
            },
    {
        proof {
            crate::lex::common::lemma_spec_lex_translated(self.byte, self.rest@, self.rest@.skip(2));
            crate::text::lemma_len_le_blen(self.rest@);
        }
        match lex_translated(self.byte, self.rest, chars) {
            Ok((at, byte, rest)) => {
                self.rest = rest;
                self.byte = byte;
                self.previous_at = Some(at);
                Ok(ForToken { token_type: ForTokenType::TranslatedText, at })
            },
            Err(e) => {
                self.rest = "";
                proof {
                    reveal_strlit("");
                }
                Err(ForLexerError::LexerError(e))
            },
        }
    }

    fn lex_remainder(&mut self) -> (r: Result<(), ForLexerError>)
        requires
            old(self).wf(),
        ensures
            final(self).wf(),
            final(self)@.0 == spec_lex_remainder(old(self)@.0, old(self)@.1).0,
            final(self)@.1 == spec_lex_remainder(old(self)@.0, old(self)@.1).1,
            final(self)@.2 == old(self)@.2,
            final(self)@.3 == old(self)@.3,
            r == match spec_lex_remainder(old(self)@.0, old(self)@.1).2 {
                Some(e) => Err(ForLexerError::LexerError(e)),
                None => Ok(()),
            },
    {
        proof {
            lemma_lex_remainder(self.rest@, self.byte);
        }
        let (rest, byte, error) = lex_remainder(self.rest, self.byte);
        self.rest = rest;
        self.byte = byte;
        match error {
            Some(e) => Err(ForLexerError::LexerError(e)),
            None => Ok(()),
        }
    }

    /// Lexes the keyword `word` that ends at `index`, the first whitespace.
    fn lex_keyword(&mut self, index: usize, word: &str, token_type: ForTokenType, next_state: State) -> (r: Result<ForToken, ForLexerError>)
        requires
            old(self).wf(),
            old(self)@.0.len() > 0,
            index == blen(old(self)@.0.take(index_of(old(self)@.0, Class::Whitespace))),
            old(self)@.2 == State::In || old(self)@.2 == State::Reversed,
            next_state == State::Variable || next_state == State::Done,
        ensures
            final(self).wf(),
            final(self)@ == for_keyword(old(self)@, word@, token_type, next_state).0,
            Some(for_result_view(r)) == for_keyword(old(self)@, word@, token_type, next_state).1,
    {
        let ghost rest = self.rest@;
        let at = (self.byte, index);
        proof {
            let wi = index_of(rest, Class::Whitespace);
            lemma_index_of(rest, Class::Whitespace);
            lemma_chars_in(rest, wi);
            lemma_blen_take_le(rest, wi);
            lemma_blen_take_skip(rest, wi, wi);
        }
        let (head, after) = split_bytes(self.rest, index);
        if str_eq(head, word) {
            self.state = next_state;
            let next_index = next_non_whitespace(after);
            proof {
                let j = index_of(after@, Class::NotWhitespace);
                lemma_index_of(after@, Class::NotWhitespace);
                lemma_chars_in(after@, j);
                lemma_blen_take_le(after@, j);
                lemma_blen_take_skip(after@, j, j);
            }
            self.byte = self.byte + index + next_index;
            self.rest = split_bytes(after, next_index).1;
            self.previous_at = Some(at);
            Ok(ForToken { at, token_type })
        } else {
            self.rest = "";
            proof {
                reveal_strlit("");
            }
            if self.state == State::In {
                self.state = State::Done;
                Err(ForLexerError::MissingComma { at })
            } else {
                Err(ForLexerError::UnexpectedExpression { at })
            }
        }
    }

    /// The next token of the tag, or `None` when the lexer is done.
    pub fn next(&mut self) -> (r: Option<Result<ForToken, ForLexerError>>)
        requires
            old(self).wf(),
            for_step_safe(old(self)@),
        ensures
            final(self).wf(),
            final(self)@ == for_step(old(self)@).0,
            for_item_view(r) == for_step(old(self)@).1,
    {
        if self.rest.is_empty() {
            match self.state {
                State::In => {
                    self.state = State::Done;
                    let at = match self.previous_at {
                        Some(at) => at,
                        None => {
                            assert(false);
                            (0, 0)
                        },
                    };
                    return Some(Err(ForLexerError::MissingIn { at }));
                },
                State::Variable => {
                    self.state = State::Done;
                    let at = match self.previous_at {
                        Some(at) => at,
                        None => {
                            assert(false);
                            (0, 0)
                        },
                    };
                    return Some(Err(ForLexerError::MissingExpression { at }));
                },
                _ => return None,
            }
        }
        let ghost rest = self.rest@;
        let index = next_whitespace(self.rest);
        proof {
            let wi = index_of(rest, Class::Whitespace);
            lemma_index_of(rest, Class::Whitespace);
            lemma_chars_in(rest, wi);
            lemma_blen_take_le(rest, wi);
            lemma_blen_take_skip(rest, wi, wi);
        }
        match self.state {
            State::VariableName => {
                let ghost ci = index_of(rest, Class::Char(','));
                let ghost wi = index_of(rest, Class::Whitespace);
                proof {
                    lemma_index_of(rest, Class::Char(','));
                    if ci < rest.len() {
                        lemma_chars_in(rest, ci);
                        lemma_chars_in(rest, ci + 1);
                        lemma_blen_take_step(rest, ci);
                        lemma_blen_take_le(rest, ci + 1);
                        lemma_blen_take_skip(rest, ci + 1, ci + 1);
                    }
                }
                let (index, next_index, after, skipped) = match find(self.rest, Class::Char(',')) {
                    Some(comma_index) if comma_index < index => {
                        let after = split_bytes(self.rest, comma_index + 1).1;
                        let next_index = next_non_whitespace(after);
                        proof {
                            let j = index_of(after@, Class::NotWhitespace);
                            lemma_index_of(after@, Class::NotWhitespace);
                            lemma_chars_in(after@, j);
                            lemma_blen_take_le(after@, j);
                            lemma_blen_take_skip(after@, j, j);
                        }
                        (comma_index, next_index + 1, after, next_index)
                    },
                    _ => {
                        self.state = State::In;
                        let after = split_bytes(self.rest, index).1;
                        let next_index = next_non_whitespace(after);
                        proof {
                            let j = index_of(after@, Class::NotWhitespace);
                            lemma_index_of(after@, Class::NotWhitespace);
                            lemma_chars_in(after@, j);
                            lemma_blen_take_le(after@, j);
                            lemma_blen_take_skip(after@, j, j);
                        }
                        (index, next_index, after, next_index)
                    },
                };
                let at = (self.byte, index);
                self.previous_at = Some(at);
                let name = split_bytes(self.rest, index).0;
                proof {
                    lemma_index_of(name@, Class::QuoteOrPipe);
                }
                if find(name, Class::QuoteOrPipe).is_some() {
                    self.rest = "";
                    self.state = State::Done;
                    proof {
                        reveal_strlit("");
                    }
                    let name = name.to_string();
                    return Some(Err(ForLexerError::InvalidName { name, at }));
                }
                self.byte = self.byte + index + next_index;
                self.rest = split_bytes(after, skipped).1;
                Some(Ok(ForToken { at, token_type: ForTokenType::VariableName }))
            },
            State::In => Some(self.lex_keyword(index, "in", ForTokenType::In, State::Variable)),
            State::Variable => {
                self.state = State::Reversed;
                Some(self.lex_expression())
            },
            State::Reversed => Some(
                self.lex_keyword(index, "reversed", ForTokenType::Reversed, State::Done),
            ),
            State::Done => {
                self.rest = "";
                proof {
                    reveal_strlit("");
                }
                let at = (self.byte, index);
                Some(Err(ForLexerError::UnexpectedExpression { at }))
            },
        }
    }

    /// All the tokens that the lexer yields, up to its first `None`.
    pub fn collect(self) -> (r: Vec<Result<ForToken, ForLexerError>>)
        requires
            self.wf(),
            for_run(self@).1,
        ensures
            r@.len() == for_run(self@).0.len(),
            forall|i: int| 0 <= i < r@.len() ==> for_result_view(#[trigger] r@[i]) == for_run(self@).0[i],
    {
        let ghost all = for_run(self@).0;
        let mut lexer = self;
        let mut tokens: Vec<Result<ForToken, ForLexerError>> = Vec::new();
        loop
            invariant
                lexer.wf(),
                for_run(lexer@).1,
                tokens@.len() + for_run(lexer@).0.len() == all.len(),
                forall|i: int| 0 <= i < tokens@.len() ==> for_result_view(#[trigger] tokens@[i]) == all[i],
                forall|i: int| 0 <= i < for_run(lexer@).0.len() ==> #[trigger] for_run(lexer@).0[i] == all[tokens@.len() + i],
                all == for_run(self@).0,
            decreases lexer@.0.len(), rank(lexer@.2),
        {
            let ghost before = lexer@;
            match lexer.next() {
                None => {
                    assert(for_run(before).0.len() == 0);
                    return tokens;
                },
                Some(token) => {
                    assert(for_run(before).0 == seq![for_result_view(token)] + for_run(lexer@).0);
                    let ghost n = tokens@.len();
                    tokens.push(token);
                    assert forall|i: int| 0 <= i < tokens@.len() implies for_result_view(#[trigger] tokens@[i]) == all[i] by {
                        if i == n {
                            assert(for_run(before).0[0] == for_result_view(token));
                        }
                    }
                    assert forall|i: int| 0 <= i < for_run(lexer@).0.len() implies #[trigger] for_run(lexer@).0[i] == all[tokens@.len() + i] by {
                        assert(for_run(lexer@).0[i] == for_run(before).0[i + 1]);
                    }
                },
            }
        }
    }
}


impl ForLexerError {
    /// The error's message.
    pub open spec fn message(self) -> Seq<char> {
        match self {
            ForLexerError::LexerError(e) => e.message(),
            ForLexerError::InvalidName { name, .. } => "Invalid variable name "@ + name@ + " in for loop:"@,
            ForLexerError::MissingComma { .. } => "Unexpected expression in for loop. Did you miss a comma when unpacking?"@,
            ForLexerError::MissingIn { .. } => "Expected the 'in' keyword or a variable name:"@,
            ForLexerError::MissingExpression { .. } => "Expected an expression after the 'in' keyword:"@,
            ForLexerError::UnexpectedExpression { .. } => "Unexpected expression in for loop:"@,
        }
    }

    /// The error's message.
    pub fn to_string(&self) -> (r: String)
        ensures
            r@ == self.message(),
    {
        match self {
            ForLexerError::LexerError(e) => e.to_string(),
            ForLexerError::InvalidName { name, .. } => {
                let mut message = "Invalid variable name ".to_string();
                message.append(name.as_str());
                message.append(" in for loop:");
                message
            },
            ForLexerError::MissingComma { .. } => "Unexpected expression in for loop. Did you miss a comma when unpacking?".to_string(),
            ForLexerError::MissingIn { .. } => "Expected the 'in' keyword or a variable name:".to_string(),
            ForLexerError::MissingExpression { .. } => "Expected an expression after the 'in' keyword:".to_string(),
            ForLexerError::UnexpectedExpression { .. } => "Unexpected expression in for loop:".to_string(),
        }
    }
}


/// The state of a `ForLexer` keeps a span at hand while it waits for `in` or the expression.
pub open spec fn for_model_wf(m: ForModel) -> bool {
    &&& m.1 + blen(m.0) < usize::MAX
    &&& (m.2 == State::In || m.2 == State::Variable) ==> m.3 is Some
}

/// The model of a lexer satisfies `for_model_wf`.
pub proof fn lemma_for_lexer_wf(lexer: &ForLexer)
    requires
        lexer.wf(),
    ensures
        for_model_wf(lexer@),
{
}

/// One step of the lexer: it yields `None` exactly when nothing is left and it is not waiting
/// for `in` or the expression, and then stays as it is; otherwise it consumes part of the tag or
/// moves on to a later state, keeps a suffix of the tag, and yields a token that lies between
/// where it was and where it is after the step.
pub proof fn lemma_for_step(m: ForModel)
    requires
        for_model_wf(m),
        for_step_safe(m),
    ensures
        for_step(m).1 is None <==> (m.0.len() == 0 && m.2 != State::In && m.2 != State::Variable),
        for_step(m).1 is None ==> for_step(m).0 == m,
        for_step(m).1 is Some ==> for_step(m).0.0.len() < m.0.len() || (for_step(m).0.0.len()
            == m.0.len() && rank(for_step(m).0.2) < rank(m.2)),
        for_model_wf(for_step(m).0),
        is_suffix(for_step(m).0.0, m.0),
        m.1 <= for_step(m).0.1,
        for_step(m).0.1 + blen(for_step(m).0.0) <= m.1 + blen(m.0),
        for_step(m).1 matches Some(Ok(t)) ==> m.1 <= t.at.0 && t.at.0 + t.at.1 <= for_step(m).0.1,
        for_step(m).0.0.len() > 0 ==> for_step(m).0.1 + blen(for_step(m).0.0) == m.1 + blen(m.0),
{
    let (rest, byte, state, previous_at) = m;
    lemma_suffix_refl(rest);
    lemma_suffix_empty(rest);
    if rest.len() > 0 {
        let wi = index_of(rest, Class::Whitespace);
        lemma_index_of(rest, Class::Whitespace);
        lemma_blen_take_skip(rest, wi, wi);
        match state {
            State::VariableName => {
                let ci = index_of(rest, Class::Char(','));
                lemma_index_of(rest, Class::Char(','));
                let comma = ci < rest.len() && blen(rest.take(ci)) < blen(rest.take(wi));
                if comma {
                    lemma_blen_take_step(rest, ci);
                    lemma_blen_take_skip(rest, ci + 1, ci + 1);
                    let after = rest.skip(ci + 1);
                    let j = index_of(after, Class::NotWhitespace);
                    lemma_index_of(after, Class::NotWhitespace);
                    lemma_blen_take_skip(after, j, j);
                    lemma_suffix_skip(rest, ci + 1);
                    lemma_suffix_skip(after, j);
                    lemma_suffix_trans(after.skip(j), after, rest);
                } else {
                    let after = rest.skip(wi);
                    let j = index_of(after, Class::NotWhitespace);
                    lemma_index_of(after, Class::NotWhitespace);
                    lemma_blen_take_skip(after, j, j);
                    lemma_suffix_skip(rest, wi);
                    lemma_suffix_skip(after, j);
                    lemma_suffix_trans(after.skip(j), after, rest);
                    if wi == 0 {
                        assert(after[0] == rest[0]);
                        assert(j > 0);
                    }
                }
                let name_len = if comma { ci } else { wi };
                lemma_blen_take_le(rest, name_len);
            },
            State::In | State::Reversed => {
                reveal_strlit("in");
                reveal_strlit("reversed");
                let after = rest.skip(wi);
                let j = index_of(after, Class::NotWhitespace);
                lemma_index_of(after, Class::NotWhitespace);
                lemma_blen_take_skip(after, j, j);
                lemma_suffix_skip(rest, wi);
                lemma_suffix_skip(after, j);
                lemma_suffix_trans(after.skip(j), after, rest);
            },
            State::Variable => {
                lemma_spec_operand(rest, byte);
                lemma_operand_suffix(rest, byte);
                let (r, b, t) = spec_operand(rest, byte);
                lemma_lex_remainder(r, b);
                lemma_remainder_suffix(r, b);
                lemma_suffix_trans(spec_lex_remainder(r, b).0, r, rest);
            },
            State::Done => {},
        }
    }
}

/// The tokens of a `for` tag lie inside it, in order, without overlapping.
pub proof fn lemma_for_run_ordered(m: ForModel)
    requires
        for_model_wf(m),
    ensures
        forall|i: int|
            0 <= i < for_run(m).0.len() ==> (#[trigger] for_run(m).0[i] matches Ok(t) ==> m.1
                <= t.at.0 && t.at.0 + t.at.1 <= m.1 + blen(m.0)),
        forall|i: int, j: int|
            0 <= i < j < for_run(m).0.len() ==> (#[trigger] for_run(m).0[i] matches Ok(a) ==> (
            #[trigger] for_run(m).0[j] matches Ok(b) ==> a.at.0 + a.at.1 <= b.at.0)),
    decreases m.0.len(), rank(m.2),
{
    if for_step_safe(m) {
        lemma_for_step(m);
        match for_step(m) {
            (next, Some(item)) => {
                if next.0.len() < m.0.len() || (next.0.len() == m.0.len() && rank(next.2) < rank(
                    m.2,
                )) {
                    lemma_for_run_ordered(next);
                    let items = for_run(m).0;
                    assert(items == seq![item] + for_run(next).0);
                    assert forall|i: int|
                        0 <= i < items.len() implies (#[trigger] items[i] matches Ok(t) ==> m.1
                        <= t.at.0 && t.at.0 + t.at.1 <= m.1 + blen(m.0)) by {
                        if i > 0 {
                            assert(items[i] == for_run(next).0[i - 1]);
                        }
                    }
                    assert forall|i: int, j: int|
                        0 <= i < j < items.len() implies (#[trigger] items[i] matches Ok(a) ==> (
                        #[trigger] items[j] matches Ok(b) ==> a.at.0 + a.at.1 <= b.at.0)) by {
                        assert(items[j] == for_run(next).0[j - 1]);
                        if i > 0 {
                            assert(items[i] == for_run(next).0[i - 1]);
                        }
                    }
                }
            },
            _ => {},
        }
    }
}

/// A `for` tag in ASCII text is lexed to its end without cutting a character: `collect` can be
/// called on it.
pub proof fn lemma_for_run_ascii(m: ForModel)
    requires
        for_model_wf(m),
        ascii(m.0),
    ensures
        for_run(m).1,
    decreases m.0.len(), rank(m.2),
{
    if m.0.len() > 0 {
        lemma_operand_ascii(m.0, m.1);
    }
    lemma_for_step(m);
    let next = for_step(m).0;
    if for_step(m).1 is Some {
        lemma_ascii_suffix(next.0, m.0);
        lemma_for_run_ascii(next);
    }
}
/// After an error the lexer has nothing left: its next step yields `None`.
pub proof fn lemma_for_error_ends(m: ForModel)
    ensures
        for_step(m).1 matches Some(Err(_)) ==> for_step(for_step(m).0).1 is None && for_run(for_step(m).0).0.len()
            == 0,
{
}

/// A lexer yields at most one error, and nothing after it.
pub proof fn lemma_for_run_error_last(m: ForModel)
    ensures
        forall|i: int|
            0 <= i < for_run(m).0.len() ==> (#[trigger] for_run(m).0[i] is Err ==> i == for_run(m).0.len()
                - 1),
    decreases m.0.len(), rank(m.2),
{
    if for_step_safe(m) {
        match for_step(m) {
            (next, Some(item)) => {
                if next.0.len() < m.0.len() || (next.0.len() == m.0.len() && rank(next.2) < rank(m.2)) {
                    lemma_for_error_ends(m);
                    lemma_for_run_error_last(next);
                    let items = for_run(m).0;
                    assert(items == seq![item] + for_run(next).0);
                    assert forall|i: int| 0 <= i < items.len() && #[trigger] items[i] is Err implies i
                        == items.len() - 1 by {
                        if i > 0 {
                            assert(items[i] == for_run(next).0[i - 1]);
                        }
                    }
                }
            },
            _ => {},
        }
    }
}

/// Whether a token type is an expression to loop over.
pub open spec fn is_expression(ty: ForTokenType) -> bool {
    ty == ForTokenType::Numeric || ty == ForTokenType::Text || ty == ForTokenType::TranslatedText
        || ty == ForTokenType::Variable
}

/// The token types that the lexer yields while it expects what `state` names.
pub open spec fn emits(state: State, ty: ForTokenType) -> bool {
    match state {
        State::VariableName => ty == ForTokenType::VariableName,
        State::In => ty == ForTokenType::In,
        State::Variable => is_expression(ty),
        State::Reversed => ty == ForTokenType::Reversed,
        State::Done => false,
    }
}

/// The token types that may follow a token of type `a`: names are followed by names or `in`,
/// `in` by the expression, the expression by `reversed`, and `reversed` by nothing.
pub open spec fn follows(a: ForTokenType, b: ForTokenType) -> bool {
    if a == ForTokenType::VariableName {
        b == ForTokenType::VariableName || b == ForTokenType::In
    } else if a == ForTokenType::In {
        is_expression(b)
    } else if is_expression(a) {
        b == ForTokenType::Reversed
    } else {
        false
    }
}

/// A token that a step yields fits the state, and the next state expects what may follow it.
pub proof fn lemma_for_step_emits(m: ForModel)
    ensures
        for_step(m).1 matches Some(Ok(t)) ==> emits(m.2, t.token_type) && forall|b: ForTokenType|
            #[trigger] emits(for_step(m).0.2, b) ==> follows(t.token_type, b),
{
}

/// The token types of a `for` tag come in order: loop names, `in`, the expression, then
/// `reversed`; the first one is what the lexer's state expects.
#[verifier::spinoff_prover]
#[verifier::rlimit(40)]
pub proof fn lemma_for_run_types(m: ForModel)
    ensures
        for_run(m).0.len() > 0 ==> (for_run(m).0[0] matches Ok(t) ==> emits(m.2, t.token_type)),
        forall|i: int, j: int|
            0 <= i && j == i + 1 && j < for_run(m).0.len() ==> (#[trigger] for_run(m).0[i] matches Ok(
                a,
            ) ==> (#[trigger] for_run(m).0[j] matches Ok(b) ==> follows(a.token_type, b.token_type))),
    decreases m.0.len(), rank(m.2),
{
    if for_step_safe(m) {
        match for_step(m) {
            (next, Some(item)) => {
                if next.0.len() < m.0.len() || (next.0.len() == m.0.len() && rank(next.2) < rank(m.2)) {
                    lemma_for_step_emits(m);
                    lemma_for_run_types(next);
                    let items = for_run(m).0;
                    let rest = for_run(next).0;
                    assert(items == seq![item] + rest);
                    assert forall|i: int, j: int|
                        0 <= i && j == i + 1 && j < items.len() && #[trigger] items[i] is Ok
                            && #[trigger] items[j] is Ok implies follows(
                        items[i]->Ok_0.token_type,
                        items[j]->Ok_0.token_type,
                    ) by {
                        if i > 0 {
                            assert(items[i] == rest[i - 1]);
                            assert(items[j] == rest[i]);
                        } else {
                            assert(items[1] == rest[0]);
                            if rest[0] is Ok {
                                assert(emits(next.2, rest[0]->Ok_0.token_type));
                            }
                        }
                    }
                }
            },
            _ => {},
        }
    }
}

/// Whether a loop name holds no whitespace, comma, quote or `|`.
pub open spec fn plain_name(w: Seq<char>) -> bool {
    forall|k: int|
        0 <= k < w.len() ==> !crate::text::white_space(#[trigger] w[k]) && w[k] != ',' && w[k]
            != '"' && w[k] != '\'' && w[k] != '|'
}

/// Whether the remaining text of a lexer is the template's text at the span where it starts.
pub open spec fn for_rest_in_template(template: Seq<char>, m: ForModel) -> bool {
    m.0.len() > 0 ==> valid_span(template, (m.1, blen(m.0) as usize)) && span(
        template,
        (m.1, blen(m.0) as usize),
    ) == m.0
}

/// What a token of a `for` tag reads in the template: a loop name is plain, `in` reads `in`,
/// `reversed` reads `reversed`.
pub open spec fn reads_as_typed(template: Seq<char>, t: ForToken) -> bool {
    &&& valid_span(template, t.at)
    &&& t.token_type == ForTokenType::VariableName ==> plain_name(span(template, t.at))
    &&& t.token_type == ForTokenType::In ==> span(template, t.at) == "in"@
    &&& t.token_type == ForTokenType::Reversed ==> span(template, t.at) == "reversed"@
}

proof fn lemma_for_step_reads(template: Seq<char>, m: ForModel)
    requires
        for_model_wf(m),
        for_step_safe(m),
        for_rest_in_template(template, m),
    ensures
        for_step(m).1 matches Some(Ok(t)) ==> is_expression(t.token_type) || reads_as_typed(
            template,
            t,
        ),
        for_rest_in_template(template, for_step(m).0),
{
    lemma_for_step(m);
    let (rest, byte, state, previous_at) = m;
    let next = for_step(m).0;
    if rest.len() > 0 {
        let wi = index_of(rest, Class::Whitespace);
        lemma_index_of(rest, Class::Whitespace);
        let ci = index_of(rest, Class::Char(','));
        lemma_index_of(rest, Class::Char(','));
        if state == State::VariableName {
            let comma = ci < rest.len() && blen(rest.take(ci)) < blen(rest.take(wi));
            let name_len = if comma { ci } else { wi };
            if comma && wi < ci {
                crate::text::lemma_blen_take_mono(rest, wi, ci);
            }
            if !comma && ci < wi {
                crate::text::lemma_blen_take_mono(rest, ci, wi);
                crate::text::lemma_blen_take_step(rest, ci);
            }
            let name = rest.take(name_len);
            lemma_index_of(name, Class::QuoteOrPipe);
            crate::types::lemma_sub_span(template, byte, rest, 0, name_len);
            assert(rest.subrange(0, name_len) =~= name);
            assert(rest.take(0) =~= Seq::<char>::empty());
            if index_of(name, Class::QuoteOrPipe) == name.len() {
                assert forall|k: int| 0 <= k < name.len() implies !crate::text::white_space(
                    #[trigger] name[k],
                ) && name[k] != ',' && name[k] != '"' && name[k] != '\'' && name[k] != '|' by {
                    assert(name[k] == rest[k]);
                    assert(!crate::text::holds(Class::QuoteOrPipe, name[k]));
                }
            }
        } else if state == State::In || state == State::Reversed {
            crate::types::lemma_sub_span(template, byte, rest, 0, wi);
            assert(rest.subrange(0, wi) =~= rest.take(wi));
            assert(rest.take(0) =~= Seq::<char>::empty());
        }
        if next.0.len() > 0 {
            let x = rest.len() - next.0.len();
            assert(next.0 == rest.skip(x));
            lemma_blen_take_skip(rest, x, x);
            crate::types::lemma_sub_span(template, byte, rest, x, rest.len() as int);
            assert(rest.subrange(x, rest.len() as int) =~= next.0);
            assert(rest.take(rest.len() as int) =~= rest);
        }
    }
}

/// Each loop name of a `for` tag is plain, and its `in` and `reversed` read so in the template.
pub proof fn lemma_for_run_reads(template: Seq<char>, m: ForModel)
    requires
        for_model_wf(m),
        for_rest_in_template(template, m),
    ensures
        forall|i: int|
            0 <= i < for_run(m).0.len() && #[trigger] for_run(m).0[i] is Ok && !is_expression(
                for_run(m).0[i]->Ok_0.token_type,
            ) ==> reads_as_typed(template, for_run(m).0[i]->Ok_0),
    decreases m.0.len(), rank(m.2),
{
    if for_step_safe(m) {
        match for_step(m) {
            (next, Some(item)) => {
                if next.0.len() < m.0.len() || (next.0.len() == m.0.len() && rank(next.2) < rank(m.2)) {
                    lemma_for_step(m);
                    lemma_for_step_reads(template, m);
                    lemma_for_run_reads(template, next);
                    let items = for_run(m).0;
                    assert(items == seq![item] + for_run(next).0);
                    assert forall|i: int|
                        0 <= i < items.len() && #[trigger] items[i] is Ok && !is_expression(
                            items[i]->Ok_0.token_type,
                        ) implies reads_as_typed(template, items[i]->Ok_0) by {
                        if i > 0 {
                            assert(items[i] == for_run(next).0[i - 1]);
                        }
                    }
                }
            },
            _ => {},
        }
    }
}

/// A step that yields a token consumes part of the tag.
proof fn lemma_for_ok_consumes(m: ForModel)
    requires
        for_model_wf(m),
        for_step_safe(m),
    ensures
        for_step(m).1 matches Some(Ok(_)) ==> for_step(m).0.0.len() < m.0.len(),
{
    let (rest, byte, state, previous_at) = m;
    if rest.len() > 0 {
        let wi = index_of(rest, Class::Whitespace);
        lemma_index_of(rest, Class::Whitespace);
        match state {
            State::VariableName => {
                let ci = index_of(rest, Class::Char(','));
                lemma_index_of(rest, Class::Char(','));
                let comma = ci < rest.len() && blen(rest.take(ci)) < blen(rest.take(wi));
                let after = if comma {
                    rest.skip(ci + 1)
                } else {
                    rest.skip(wi)
                };
                lemma_index_of(after, Class::NotWhitespace);
                if !comma && wi == 0 {
                    assert(after =~= rest);
                }
            },
            State::In => {
                reveal_strlit("in");
                if rest.take(wi) == "in"@ {
                    assert(rest.take(wi).len() == 2);
                }
                lemma_index_of(rest.skip(wi), Class::NotWhitespace);
            },
            State::Reversed => {
                reveal_strlit("reversed");
                if rest.take(wi) == "reversed"@ {
                    assert(rest.take(wi).len() == 8);
                }
                lemma_index_of(rest.skip(wi), Class::NotWhitespace);
            },
            State::Variable => {
                lemma_spec_operand(rest, byte);
                let (r, b, t) = spec_operand(rest, byte);
                lemma_lex_remainder(r, b);
            },
            State::Done => {},
        }
    }
}

/// The lexer yields at most one item more than the tag has characters, and so than it has bytes.
pub proof fn lemma_for_run_len(m: ForModel)
    requires
        for_model_wf(m),
    ensures
        for_run(m).0.len() <= m.0.len() + 1,
        for_run(m).0.len() <= blen(m.0) + 1,
    decreases m.0.len(), rank(m.2),
{
    lemma_blen_take_le(m.0, m.0.len() as int);
    assert(m.0.take(m.0.len() as int) =~= m.0);
    if for_step_safe(m) {
        lemma_for_step(m);
        lemma_for_error_ends(m);
        lemma_for_ok_consumes(m);
        match for_step(m) {
            (next, Some(item)) => {
                if next.0.len() < m.0.len() || (next.0.len() == m.0.len() && rank(next.2) < rank(
                    m.2,
                )) {
                    lemma_for_run_len(next);
                }
            },
            _ => {},
        }
    }
}

/// What the `for` lexer yields from the arguments `parts` of a tag, started as `ForLexer::new`
/// starts it (so what `collect` gives): its tokens lie inside `parts`, in order; the first is a
/// loop name, and each is followed by what `names in expression reversed` allows; at most one
/// item is an error, and it is the last; a loop name is plain, and `in` and `reversed` read so;
/// and there is at most one item more than `parts` has bytes.
#[verifier::spinoff_prover]
#[verifier::rlimit(100)]
pub proof fn lemma_for_lexer_laws(template: Seq<char>, parts: TagParts)
    requires
        valid_span(template, parts.at),
        parts.at.0 + parts.at.1 < usize::MAX,
    ensures
        ({
            let items = for_run((span(template, parts.at), parts.at.0, State::VariableName, None)).0;
            &&& forall|i: int|
                0 <= i < items.len() ==> (#[trigger] items[i] matches Ok(t) ==> parts.at.0 <= t.at.0
                    && t.at.0 + t.at.1 <= parts.at.0 + parts.at.1)
            &&& forall|i: int, j: int|
                0 <= i < j < items.len() ==> (#[trigger] items[i] matches Ok(a) ==> (
                #[trigger] items[j] matches Ok(b) ==> a.at.0 + a.at.1 <= b.at.0))
            &&& items.len() > 0 ==> (items[0] matches Ok(t) ==> t.token_type
                == ForTokenType::VariableName)
            &&& forall|i: int, j: int|
                0 <= i && j == i + 1 && j < items.len() ==> (#[trigger] items[i] matches Ok(a) ==> (
                #[trigger] items[j] matches Ok(b) ==> follows(a.token_type, b.token_type)))
            &&& forall|i: int| 0 <= i < items.len() ==> (#[trigger] items[i] is Err ==> i == items.len() - 1)
            &&& forall|i: int|
                0 <= i < items.len() && #[trigger] items[i] is Ok && !is_expression(
                    items[i]->Ok_0.token_type,
                ) ==> reads_as_typed(template, items[i]->Ok_0)
            &&& items.len() <= parts.at.1 + 1
        }),
{
    let m: ForModel = (span(template, parts.at), parts.at.0, State::VariableName, None);
    let items = for_run(m).0;
    crate::types::lemma_span_blen(template, parts.at);
    assert(for_model_wf(m));
    assert(forall|i: int|
        0 <= i < items.len() ==> (#[trigger] items[i] matches Ok(t) ==> parts.at.0 <= t.at.0 && t.at.0
            + t.at.1 <= parts.at.0 + parts.at.1)) by {
        lemma_for_run_ordered(m);
    }
    assert(forall|i: int, j: int|
        0 <= i < j < items.len() ==> (#[trigger] items[i] matches Ok(a) ==> (
        #[trigger] items[j] matches Ok(b) ==> a.at.0 + a.at.1 <= b.at.0))) by {
        lemma_for_run_ordered(m);
    }
    assert(items.len() > 0 ==> (items[0] matches Ok(t) ==> t.token_type == ForTokenType::VariableName))
        by {
        lemma_for_run_types(m);
    }
    assert(forall|i: int, j: int|
        0 <= i && j == i + 1 && j < items.len() ==> (#[trigger] items[i] matches Ok(a) ==> (
        #[trigger] items[j] matches Ok(b) ==> follows(a.token_type, b.token_type)))) by {
        lemma_for_run_types(m);
    }
    assert(forall|i: int| 0 <= i < items.len() ==> (#[trigger] items[i] is Err ==> i == items.len() - 1))
        by {
        lemma_for_run_error_last(m);
    }
    assert(forall|i: int|
        0 <= i < items.len() && #[trigger] items[i] is Ok && !is_expression(items[i]->Ok_0.token_type)
            ==> reads_as_typed(template, items[i]->Ok_0)) by {
        lemma_for_run_reads(template, m);
    }
    assert(items.len() <= parts.at.1 + 1) by {
        lemma_for_run_len(m);
    }
}

} // verus!
