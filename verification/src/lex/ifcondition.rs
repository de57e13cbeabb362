//! Lexes the condition of `{% if ... %}` into operators and operands.
use vstd::prelude::*;
use vstd::std_specs::iter::IteratorSpec;

use crate::lex::common::{
    lemma_operand_ascii, lemma_operand_suffix, lemma_remainder_suffix, lemma_spec_operand,
    LexerError, OperandKind, opens_numeric, opens_text, opens_translated, operand_safe,
    spec_operand, lemma_lex_remainder, lemma_spec_lex_text, lex_numeric, lex_remainder, lex_text,
    lex_translated, lex_variable, spec_lex_numeric, spec_lex_remainder, spec_lex_text,
    spec_lex_translated, spec_lex_variable, text_safe, translated_safe, variable_len,
};
use crate::lex::tag::TagParts;
use crate::text::{
    ascii, is_suffix, lemma_ascii_suffix, lemma_suffix_skip, lemma_suffix_trans, Class, blen, chars_in, find_or_len, index_of, is_boundary, lemma_blen_take_le,
    lemma_blen_take_skip, lemma_chars_in, lemma_index_of, split_bytes, str_eq,
};
use crate::types::{TemplateString, span, valid_span};

verus! {

broadcast use vstd::string::group_string_axioms;

/// The kinds of tokens in an `if` condition.
#[derive(Clone, Copy, Debug, PartialEq, Eq, Structural)]
pub enum IfConditionTokenType {
    Numeric,
    Text,
    TranslatedText,
    Variable,
    Equal,
    NotEqual,
    LessThan,
    GreaterThan,
    LessThanEqual,
    GreaterThanEqual,
}

/// A token of an `if` condition, by its span.
#[derive(Clone, Copy, Debug, PartialEq, Eq)]
pub struct IfConditionToken {
    pub at: (usize, usize),
    pub token_type: IfConditionTokenType,
}

/// Lexes an `if` condition, token by token.
pub struct IfConditionLexer<'t> {
    rest: &'t str,
    byte: usize,
}

/// The state of an `IfConditionLexer`: the characters left and the byte offset of the first.
pub type IfModel = (Seq<char>, usize);

impl<'t> View for IfConditionLexer<'t> {
    type V = IfModel;

    closed spec fn view(&self) -> IfModel {
        (self.rest@, self.byte)
    }
}

/// The comparison operator that `word` spells, if any.
pub open spec fn if_operator(word: Seq<char>) -> Option<IfConditionTokenType> {
    if word == "=="@ {
        Some(IfConditionTokenType::Equal)
    } else if word == "!="@ {
        Some(IfConditionTokenType::NotEqual)
    } else if word == "<"@ {
        Some(IfConditionTokenType::LessThan)
    } else if word == ">"@ {
        Some(IfConditionTokenType::GreaterThan)
    } else if word == "<="@ {
        Some(IfConditionTokenType::LessThanEqual)
    } else if word == ">="@ {
        Some(IfConditionTokenType::GreaterThanEqual)
    } else {
        None
    }
}

/// The token type of an operand.
pub open spec fn if_kind(kind: OperandKind) -> IfConditionTokenType {
    match kind {
        OperandKind::Numeric => IfConditionTokenType::Numeric,
        OperandKind::Text => IfConditionTokenType::Text,
        OperandKind::TranslatedText => IfConditionTokenType::TranslatedText,
        OperandKind::Variable => IfConditionTokenType::Variable,
    }
}

/// An operand and what follows it: when the operand is not followed by whitespace, the
/// characters up to the next whitespace are an invalid remainder and nothing is left.
pub open spec fn spec_condition(rest: Seq<char>, byte: usize) -> (
    Seq<char>,
    usize,
    Result<IfConditionToken, LexerError>,
) {
    let (r, b, token) = spec_operand(rest, byte);
    match token {
        Err(e) => (r, b, Err(e)),
        Ok((at, kind)) => {
            let token_type = if_kind(kind);
            let (r2, b2, e) = spec_lex_remainder(r, b);
            match e {
                Some(e) => (r2, b2, Err(e)),
                None => (r2, b2, Ok(IfConditionToken { at, token_type })),
            }
        },
    }
}

/// One step of an `IfConditionLexer`: the next state and the token or error it yields, or
/// `None` when nothing is left. A word that is a comparison operator is an operator token;
/// anything else is an operand.
pub open spec fn if_step(m: IfModel) -> (IfModel, Option<Result<IfConditionToken, LexerError>>) {
    let (rest, byte) = m;
    if rest.len() == 0 {
        (m, None)
    } else {
        let i = index_of(rest, Class::Whitespace);
        let index = blen(rest.take(i));
        match if_operator(rest.take(i)) {
            Some(token_type) => {
                let after = rest.skip(i);
                let j = index_of(after, Class::NotWhitespace);
                let next_index = blen(after.take(j));
                (
                    (after.skip(j), (byte + index + next_index) as usize),
                    Some(Ok(IfConditionToken { at: (byte, index as usize), token_type })),
                )
            },
            None => {
                let (r, b, result) = spec_condition(rest, byte);
                ((r, b), Some(result))
            },
        }
    }
}

/// The next step of the lexer cuts no character in two.
pub open spec fn if_step_safe(m: IfModel) -> bool {
    let (rest, byte) = m;
    rest.len() > 0 && if_operator(rest.take(index_of(rest, Class::Whitespace))) is None
        ==> operand_safe(rest, byte)
}

/// The tokens that an `IfConditionLexer` yields from state `m` until it yields `None`, and
/// whether no step on the way cuts a character in two.
pub open spec fn if_run(m: IfModel) -> (Seq<Result<IfConditionToken, LexerError>>, bool)
    decreases m.0.len(),
{
    if !if_step_safe(m) {
        (Seq::empty(), false)
    } else {
        match if_step(m) {
            (_, None) => (Seq::empty(), true),
            (next, Some(item)) => if next.0.len() < m.0.len() {
                let (items, safe) = if_run(next);
                (seq![item] + items, safe)
            } else {
                (Seq::empty(), false)
            },
        }
    }
}

impl<'t> IfConditionLexer<'t> {
    /// The lexer's invariant: the byte offsets it reports fit in `usize`.
    pub closed spec fn wf(&self) -> bool {
        self.byte + blen(self.rest@) < usize::MAX
    }

    /// A lexer over the arguments of an `if` tag.
    pub fn new(template: TemplateString<'t>, parts: TagParts) -> (r: Self)
        requires
            valid_span(template.0@, parts.at),
            parts.at.0 + parts.at.1 < usize::MAX,
        ensures
            r.wf(),
            r@ == (span(template.0@, parts.at), parts.at.0),
    {
        let rest = template.content(parts.at);
        proof {
            crate::types::lemma_span_blen(template.0@, parts.at);
        }
        Self { rest, byte: parts.at.0 }
    }

    /// Lexes an operand and what follows it.
    fn lex_condition(&mut self) -> (r: Result<IfConditionToken, LexerError>)
        requires
            old(self).wf(),
            old(self)@.0.len() > 0,
            operand_safe(old(self)@.0, old(self)@.1),
        ensures
            final(self).wf(),
            final(self)@.0 == spec_condition(old(self)@.0, old(self)@.1).0,
            final(self)@.1 == spec_condition(old(self)@.0, old(self)@.1).1,
            r == spec_condition(old(self)@.0, old(self)@.1).2,
    {
        let ghost rest = self.rest@;
        let ghost byte = self.byte;
        let mut chars = self.rest.chars();
        let first = chars.next();
        let token = match first {
            Some('_') => {
                let second = chars.next();
                if let Some('(') = second {
                    assert(chars.remaining() =~= rest.skip(2));
                    match self.lex_translated(&mut chars) {
                        Ok(token) => token,
                        Err(e) => return Err(e),
                    }
                } else {
                    self.lex_variable()
                }
            },
            Some('"') => {
                assert(chars.remaining() =~= rest.drop_first());
                match self.lex_text(&mut chars, '"') {
                    Ok(token) => token,
                    Err(e) => return Err(e),
                }
            },
            Some('\'') => {
                assert(chars.remaining() =~= rest.drop_first());
                match self.lex_text(&mut chars, '\'') {
                    Ok(token) => token,
                    Err(e) => return Err(e),
                }
            },
            Some(c) => {
                if ('0' <= c && c <= '9') || c == '-' {
                    self.lex_numeric()
                } else {
                    self.lex_variable()
                }
            },
            None => {
                assert(false);
                self.lex_variable()
            },
        };
        match self.lex_remainder() {
            Ok(()) => Ok(token),
            Err(e) => Err(e),
        }
    }

    fn lex_variable(&mut self) -> (r: IfConditionToken)
        requires
            old(self).wf(),
            is_boundary(old(self)@.0, variable_len(old(self)@.0) as int),
        ensures
            final(self).wf(),
            final(self)@.0 == spec_lex_variable(old(self)@.1, old(self)@.0).2,
            final(self)@.1 == spec_lex_variable(old(self)@.1, old(self)@.0).1,
            r == (IfConditionToken {
                at: spec_lex_variable(old(self)@.1, old(self)@.0).0,
                token_type: IfConditionTokenType::Variable,
            }),
    {
        proof {
            crate::lex::common::lemma_spec_lex_variable(self.byte, self.rest@);
        }
        let (at, byte, rest) = lex_variable(self.byte, self.rest);
        self.rest = rest;
        self.byte = byte;
        IfConditionToken { token_type: IfConditionTokenType::Variable, at }
    }

    fn lex_numeric(&mut self) -> (r: IfConditionToken)
        requires
            old(self).wf(),
            opens_numeric(old(self)@.0),
        ensures
            final(self).wf(),
            final(self)@.0 == spec_lex_numeric(old(self)@.1, old(self)@.0).2,
            final(self)@.1 == spec_lex_numeric(old(self)@.1, old(self)@.0).1,
            r == (IfConditionToken {
                at: spec_lex_numeric(old(self)@.1, old(self)@.0).0,
                token_type: IfConditionTokenType::Numeric,
            }),
    {
        proof {
            lemma_index_of(self.rest@.drop_first(), Class::NotNumeric);
            crate::lex::common::lemma_spec_lex_numeric(self.byte, self.rest@);
        }
        let (at, byte, rest) = lex_numeric(self.byte, self.rest);
        self.rest = rest;
        self.byte = byte;
        IfConditionToken { at, token_type: IfConditionTokenType::Numeric }
    }

    fn lex_text(&mut self, chars: &mut std::str::Chars, end: char) -> (r: Result<
        IfConditionToken,
        LexerError,
    >)
        requires
            old(self).wf(),
            (*old(chars)).remaining() == old(self)@.0.drop_first(),
            (*old(chars)).decrease() is Some,
            old(self)@.0.len() > 0,
            text_safe(old(self)@.0, old(self)@.0.drop_first(), end),
        ensures
            final(self).wf(),
            match spec_lex_text(old(self)@.1, old(self)@.0, old(self)@.0.drop_first(), end).0 {
                Ok((at, b, after)) => {
                    &&& final(self)@.0 == after
                    &&& final(self)@.1 == b
                    &&& r == Ok::<IfConditionToken, LexerError>(
                        IfConditionToken { at, token_type: IfConditionTokenType::Text },
                    )
                },
                Err(e) => {
                    &&& final(self)@.0 == Seq::<char>::empty()
                    &&& final(self)@.1 == old(self)@.1
                    &&& r == Err::<IfConditionToken, LexerError>(e)
                },
            },
    {
        proof {
            lemma_spec_lex_text(self.byte, self.rest@, self.rest@.drop_first(), end);
            crate::text::lemma_len_le_blen(self.rest@);
        }
        match lex_text(self.byte, self.rest, chars, end) {
            Ok((at, byte, rest)) => {
                self.rest = rest;
                self.byte = byte;
                Ok(IfConditionToken { token_type: IfConditionTokenType::Text, at })
            },
            Err(e) => {
                self.rest = "";
                proof {
                    reveal_strlit("");
                }
                Err(e)
            },
        }
    }

    fn lex_translated(&mut self, chars: &mut std::str::Chars) -> (r: Result<
        IfConditionToken,
        LexerError,
    >)
        requires
            old(self).wf(),
            (*old(chars)).remaining() == old(self)@.0.skip(2),
            (*old(chars)).decrease() is Some,
            old(self)@.0.len() > 1,
            translated_safe(old(self)@.1, old(self)@.0, old(self)@.0.skip(2)),
        ensures
            final(self).wf(),
            match spec_lex_translated(old(self)@.1, old(self)@.0, old(self)@.0.skip(2)).0 {
                Ok((at, b, after)) => {
                    &&& final(self)@.0 == after
                    &&& final(self)@.1 == b
                    &&& r == Ok::<IfConditionToken, LexerError>(
                        IfConditionToken { at, token_type: IfConditionTokenType::TranslatedText },
                    )
                },
                Err(e) => {
                    &&& final(self)@.0 == Seq::<char>::empty()
                    &&& final(self)@.1 == old(self)@.1
                    &&& r == Err::<IfConditionToken, LexerError>(e)
                },
            },
    {
        proof {
            crate::lex::common::lemma_spec_lex_translated(self.byte, self.rest@, self.rest@.skip(2));
            crate::text::lemma_len_le_blen(self.rest@);
        }
        match lex_translated(self.byte, self.rest, chars) {
            Ok((at, byte, rest)) => {
                self.rest = rest;
                self.byte = byte;
                Ok(IfConditionToken { token_type: IfConditionTokenType::TranslatedText, at })
            },
            Err(e) => {
                self.rest = "";
                proof {
                    reveal_strlit("");
                }
                Err(e)
            },
        }
    }

    fn lex_remainder(&mut self) -> (r: Result<(), LexerError>)
        requires
            old(self).wf(),
        ensures
            final(self).wf(),
            final(self)@.0 == spec_lex_remainder(old(self)@.0, old(self)@.1).0,
            final(self)@.1 == spec_lex_remainder(old(self)@.0, old(self)@.1).1,
            r == match spec_lex_remainder(old(self)@.0, old(self)@.1).2 {
                Some(e) => Err(e),
                None => Ok(()),
            },
    {
        proof {
            lemma_lex_remainder(self.rest@, self.byte);
        }
        let (rest, byte, error) = lex_remainder(self.rest, self.byte);
        self.rest = rest;
        self.byte = byte;
        match error {
            Some(e) => Err(e),
            None => Ok(()),
        }
    }

    /// The next token of the condition, or `None` when the whole condition has been read.
    pub fn next(&mut self) -> (r: Option<Result<IfConditionToken, LexerError>>)
        requires
            old(self).wf(),
            if_step_safe(old(self)@),
        ensures
            final(self).wf(),
            final(self)@ == if_step(old(self)@).0,
            r == if_step(old(self)@).1,
    {
        if self.rest.is_empty() {
            return None;
        }
        let ghost rest = self.rest@;
        let index = find_or_len(self.rest, Class::Whitespace);
        proof {
            lemma_index_of(rest, Class::Whitespace);
            lemma_chars_in(rest, index_of(rest, Class::Whitespace));
            lemma_blen_take_le(rest, index_of(rest, Class::Whitespace));
        }
        let (word, after) = split_bytes(self.rest, index);
        let token_type = if str_eq(word, "==") {
            IfConditionTokenType::Equal
        } else if str_eq(word, "!=") {
            IfConditionTokenType::NotEqual
        } else if str_eq(word, "<") {
            IfConditionTokenType::LessThan
        } else if str_eq(word, ">") {
            IfConditionTokenType::GreaterThan
        } else if str_eq(word, "<=") {
            IfConditionTokenType::LessThanEqual
        } else if str_eq(word, ">=") {
            IfConditionTokenType::GreaterThanEqual
        } else {
            return Some(self.lex_condition());
        };
        let at = (self.byte, index);
        let next_index = find_or_len(after, Class::NotWhitespace);
        proof {
            let i = index_of(rest, Class::Whitespace);
            lemma_blen_take_skip(rest, i, i);
            let j = index_of(after@, Class::NotWhitespace);
            lemma_index_of(after@, Class::NotWhitespace);
            lemma_chars_in(after@, j);
            lemma_blen_take_le(after@, j);
            lemma_blen_take_skip(after@, j, j);
        }
        self.byte = self.byte + index + next_index;
        self.rest = split_bytes(after, next_index).1;
        Some(Ok(IfConditionToken { at, token_type }))
    }

    /// All the tokens that the lexer yields, up to its first `None`.
    pub fn collect(self) -> (r: Vec<Result<IfConditionToken, LexerError>>)
        requires
            self.wf(),
            if_run(self@).1,
        ensures
            r@ == if_run(self@).0,
    {
        let ghost all = if_run(self@).0;
        let mut lexer = self;
        let mut tokens: Vec<Result<IfConditionToken, LexerError>> = Vec::new();
        loop
            invariant
                lexer.wf(),
                if_run(lexer@).1,
                tokens@ + if_run(lexer@).0 == all,
                all == if_run(self@).0,
            decreases lexer@.0.len(),
        {
            let ghost before = lexer@;
            match lexer.next() {
                None => {
                    assert(if_run(before).0 =~= Seq::<Result<IfConditionToken, LexerError>>::empty());
                    assert(tokens@ =~= all);
                    return tokens;
                },
                Some(token) => {
                    assert(seq![token] + if_run(lexer@).0 == if_run(before).0);
                    tokens.push(token);
                    assert(tokens@ + if_run(lexer@).0 =~= all);
                },
            }
        }
    }
}


/// One step of the lexer: it yields `None` exactly when nothing is left, and then stays as it is;
/// otherwise it consumes part of the condition, keeps a suffix of it, and yields a token that
/// lies between where it was and where it is after the step.
pub proof fn lemma_if_step(m: IfModel)
    requires
        m.1 + blen(m.0) < usize::MAX,
        if_step_safe(m),
    ensures
        if_step(m).1 is None <==> m.0.len() == 0,
        if_step(m).1 is None ==> if_step(m).0 == m,
        if_step(m).1 is Some ==> if_step(m).0.0.len() < m.0.len(),
        is_suffix(if_step(m).0.0, m.0),
        m.1 <= if_step(m).0.1,
        if_step(m).0.1 + blen(if_step(m).0.0) <= m.1 + blen(m.0),
        if_step(m).1 matches Some(Ok(t)) ==> m.1 <= t.at.0 && t.at.0 + t.at.1 <= if_step(m).0.1,
        if_step(m).0.0.len() > 0 ==> if_step(m).0.1 + blen(if_step(m).0.0) == m.1 + blen(m.0),
{
    let (rest, byte) = m;
    crate::text::lemma_suffix_refl(rest);
    if rest.len() > 0 {
        let i = index_of(rest, Class::Whitespace);
        lemma_index_of(rest, Class::Whitespace);
        match if_operator(rest.take(i)) {
            Some(_) => {
                reveal_strlit("==");
                reveal_strlit("!=");
                reveal_strlit("<");
                reveal_strlit(">");
                reveal_strlit("<=");
                reveal_strlit(">=");
                assert(i > 0);
                let after = rest.skip(i);
                let j = index_of(after, Class::NotWhitespace);
                lemma_index_of(after, Class::NotWhitespace);
                lemma_blen_take_skip(rest, i, i);
                lemma_blen_take_skip(after, j, j);
                lemma_suffix_skip(rest, i);
                lemma_suffix_skip(after, j);
                lemma_suffix_trans(after.skip(j), after, rest);
            },
            None => {
                lemma_spec_operand(rest, byte);
                lemma_operand_suffix(rest, byte);
                let (r, b, t) = spec_operand(rest, byte);
                lemma_lex_remainder(r, b);
                lemma_remainder_suffix(r, b);
                lemma_suffix_trans(spec_lex_remainder(r, b).0, r, rest);
                if t is Err {
                    assert(r.len() == 0);
                }
            },
        }
    }
}

/// The tokens of a condition lie inside it, in order, without overlapping.
pub proof fn lemma_if_run_ordered(m: IfModel)
    requires
        m.1 + blen(m.0) < usize::MAX,
    ensures
        forall|i: int|
            0 <= i < if_run(m).0.len() ==> (#[trigger] if_run(m).0[i] matches Ok(t) ==> m.1
                <= t.at.0 && t.at.0 + t.at.1 <= m.1 + blen(m.0)),
        forall|i: int, j: int|
            0 <= i < j < if_run(m).0.len() ==> (#[trigger] if_run(m).0[i] matches Ok(a) ==> (
            #[trigger] if_run(m).0[j] matches Ok(b) ==> a.at.0 + a.at.1 <= b.at.0)),
    decreases m.0.len(),
{
    if if_step_safe(m) {
        lemma_if_step(m);
        match if_step(m) {
            (next, Some(item)) => {
                if next.0.len() < m.0.len() {
                    lemma_if_run_ordered(next);
                    let items = if_run(m).0;
                    assert(items == seq![item] + if_run(next).0);
                    assert forall|i: int|
                        0 <= i < items.len() implies (#[trigger] items[i] matches Ok(t) ==> m.1
                        <= t.at.0 && t.at.0 + t.at.1 <= m.1 + blen(m.0)) by {
                        if i > 0 {
                            assert(items[i] == if_run(next).0[i - 1]);
                        }
                    }
                    assert forall|i: int, j: int|
                        0 <= i < j < items.len() implies (#[trigger] items[i] matches Ok(a) ==> (
                        #[trigger] items[j] matches Ok(b) ==> a.at.0 + a.at.1 <= b.at.0)) by {
                        assert(items[j] == if_run(next).0[j - 1]);
                        if i > 0 {
                            assert(items[i] == if_run(next).0[i - 1]);
                        }
                    }
                }
            },
            _ => {},
        }
    }
}

/// An `if` condition in ASCII text is lexed to its end without cutting a character: `collect`
/// can be called on it.
pub proof fn lemma_if_run_ascii(m: IfModel)
    requires
        m.1 + blen(m.0) < usize::MAX,
        ascii(m.0),
    ensures
        if_run(m).1,
    decreases m.0.len(),
{
    if m.0.len() > 0 {
        lemma_operand_ascii(m.0, m.1);
    }
    lemma_if_step(m);
    let next = if_step(m).0;
    if if_step(m).1 is Some {
        lemma_ascii_suffix(next.0, m.0);
        lemma_if_run_ascii(next);
    }
}
/// The model of a lexer has its byte offsets in range.
pub proof fn lemma_if_lexer_wf(lexer: &IfConditionLexer)
    requires
        lexer.wf(),
    ensures
        lexer@.1 + blen(lexer@.0) < usize::MAX,
{
}

/// After an error the lexer has nothing left: its next step yields `None`.
pub proof fn lemma_if_error_ends(m: IfModel)
    ensures
        if_step(m).1 matches Some(Err(_)) ==> if_step(if_step(m).0).1 is None && if_run(if_step(m).0).0.len()
            == 0,
{
}

/// A lexer yields at most one error, and nothing after it.
pub proof fn lemma_if_run_error_last(m: IfModel)
    ensures
        forall|i: int|
            0 <= i < if_run(m).0.len() ==> (#[trigger] if_run(m).0[i] is Err ==> i == if_run(m).0.len()
                - 1),
    decreases m.0.len(),
{
    if if_step_safe(m) {
        match if_step(m) {
            (next, Some(item)) => {
                if next.0.len() < m.0.len() {
                    lemma_if_error_ends(m);
                    lemma_if_run_error_last(next);
                    let items = if_run(m).0;
                    assert(items == seq![item] + if_run(next).0);
                    assert forall|i: int| 0 <= i < items.len() && #[trigger] items[i] is Err implies i
                        == items.len() - 1 by {
                        if i > 0 {
                            assert(items[i] == if_run(next).0[i - 1]);
                        }
                    }
                }
            },
            _ => {},
        }
    }
}

/// Whether a token type is a comparison operator.
pub open spec fn is_operator_type(ty: IfConditionTokenType) -> bool {
    !(ty == IfConditionTokenType::Numeric || ty == IfConditionTokenType::Text || ty
        == IfConditionTokenType::TranslatedText || ty == IfConditionTokenType::Variable)
}

/// Whether the remaining text of a lexer is the template's text at the span where it starts.
pub open spec fn rest_in_template(template: Seq<char>, m: IfModel) -> bool {
    m.0.len() > 0 ==> valid_span(template, (m.1, blen(m.0) as usize)) && span(
        template,
        (m.1, blen(m.0) as usize),
    ) == m.0
}

/// Text with whitespace in it spells no comparison operator.
proof fn lemma_spaced_no_operator(t: Seq<char>, i: int)
    requires
        0 <= i < t.len(),
        crate::text::white_space(t[i]),
    ensures
        if_operator(t) is None,
{
    reveal_strlit("==");
    reveal_strlit("!=");
    reveal_strlit("<");
    reveal_strlit(">");
    reveal_strlit("<=");
    reveal_strlit(">=");
}

/// A token of an `if` condition has an operator type exactly when its text in the template
/// spells a comparison operator, and then it is that operator's type; and every token's span
/// falls between characters of the template.
pub proof fn lemma_if_run_operators(template: Seq<char>, m: IfModel)
    requires
        m.1 + blen(m.0) < usize::MAX,
        rest_in_template(template, m),
    ensures
        forall|i: int|
            0 <= i < if_run(m).0.len() ==> (#[trigger] if_run(m).0[i] matches Ok(t) ==> (
            is_operator_type(t.token_type) ==> valid_span(template, t.at) && if_operator(
                span(template, t.at),
            ) == Some(t.token_type))),
        forall|i: int|
            0 <= i < if_run(m).0.len() ==> (#[trigger] if_run(m).0[i] matches Ok(t) ==> valid_span(
                template,
                t.at,
            )),
        forall|i: int|
            0 <= i < if_run(m).0.len() ==> (#[trigger] if_run(m).0[i] matches Ok(t) ==> (
            !is_operator_type(t.token_type) ==> if_operator(span(template, t.at)) is None)),
    decreases m.0.len(),
{
    if if_step_safe(m) && m.0.len() > 0 {
        lemma_if_step(m);
        let (rest, byte) = m;
        let next = if_step(m).0;
        let item = if_step(m).1->0;
        let i = index_of(rest, Class::Whitespace);
        lemma_index_of(rest, Class::Whitespace);
        if if_operator(rest.take(i)) is Some {
            crate::types::lemma_sub_span(template, byte, rest, 0, i);
            assert(rest.subrange(0, i) =~= rest.take(i));
            assert(rest.take(0) =~= Seq::<char>::empty());
        } else {
            if item is Ok {
                assert(!is_operator_type(item->Ok_0.token_type));
            }
            lemma_spec_operand(rest, byte);
            lemma_operand_suffix(rest, byte);
            let (r, b, t) = spec_operand(rest, byte);
            if t is Ok {
                crate::types::lemma_head_in_template(template, rest, byte, r, b);
                let x = rest.len() - r.len();
                let k = index_of(r, Class::Whitespace);
                lemma_index_of(r, Class::Whitespace);
                crate::text::lemma_blen_take_le(r, k);
                if spec_lex_remainder(r, b).2 is None {
                    assert(r == rest.skip(x));
                    if x < i {
                        assert(r[0] == rest[x]);
                    } else if x == i {
                        assert(rest.take(x) == rest.take(i));
                    } else {
                        assert(rest.take(x)[i] == rest[i]);
                        lemma_spaced_no_operator(rest.take(x), i);
                    }
                }
            }
        }
        if next.0.len() > 0 {
            let x = rest.len() - next.0.len();
            assert(next.0 == rest.skip(x));
            lemma_blen_take_skip(rest, x, x);
            crate::types::lemma_sub_span(template, byte, rest, x, rest.len() as int);
            assert(rest.subrange(x, rest.len() as int) =~= next.0);
            assert(rest.take(rest.len() as int) =~= rest);
        }
        if next.0.len() < m.0.len() {
            lemma_if_run_operators(template, next);
            let items = if_run(m).0;
            assert(items == seq![item] + if_run(next).0);
            assert forall|k: int| 0 <= k < items.len() && #[trigger] items[k] is Ok && is_operator_type(
                items[k]->Ok_0.token_type,
            ) implies valid_span(template, items[k]->Ok_0.at) && if_operator(
                span(template, items[k]->Ok_0.at),
            ) == Some(items[k]->Ok_0.token_type) by {
                if k > 0 {
                    assert(items[k] == if_run(next).0[k - 1]);
                }
            }
            assert forall|k: int| 0 <= k < items.len() && #[trigger] items[k] is Ok implies valid_span(
                template,
                items[k]->Ok_0.at,
            ) by {
                if k > 0 {
                    assert(items[k] == if_run(next).0[k - 1]);
                }
            }
            assert forall|k: int| 0 <= k < items.len() && #[trigger] items[k] is Ok && !is_operator_type(
                items[k]->Ok_0.token_type,
            ) implies if_operator(span(template, items[k]->Ok_0.at)) is None by {
                if k > 0 {
                    assert(items[k] == if_run(next).0[k - 1]);
                }
            }
        }
    }
}

/// Whether the template's text from byte `a` to byte `b` is whitespace.
pub open spec fn white_between(template: Seq<char>, a: int, b: int) -> bool {
    let at = (a as usize, (b - a) as usize);
    &&& 0 <= a <= b <= usize::MAX
    &&& valid_span(template, at)
    &&& forall|c: int| 0 <= c < span(template, at).len() ==> crate::text::white_space(
        #[trigger] span(template, at)[c],
    )
}

/// One step yields a token that starts where the lexer stands, and only whitespace follows it
/// up to where the lexer stands after the step.
proof fn lemma_if_step_gap(template: Seq<char>, m: IfModel)
    requires
        m.1 + blen(m.0) < usize::MAX,
        if_step_safe(m),
        rest_in_template(template, m),
    ensures
        if_step(m).1 matches Some(Ok(t)) ==> t.at.0 == m.1 && white_between(
            template,
            t.at.0 + t.at.1,
            if_step(m).0.1 as int,
        ),
{
    let (rest, byte) = m;
    if rest.len() > 0 {
        lemma_if_step(m);
        let i = index_of(rest, Class::Whitespace);
        lemma_index_of(rest, Class::Whitespace);
        if if_operator(rest.take(i)) is Some {
            let after = rest.skip(i);
            let j = index_of(after, Class::NotWhitespace);
            lemma_index_of(after, Class::NotWhitespace);
            lemma_blen_take_skip(rest, i, i + j);
            lemma_blen_take_le(rest, i + j);
            crate::types::lemma_sub_span(template, byte, rest, i, i + j);
            let g = rest.subrange(i, i + j);
            assert forall|c: int| 0 <= c < g.len() implies crate::text::white_space(#[trigger] g[c]) by {
                assert(g[c] == after[c]);
            }
            assert(rest.skip(i).take(j) =~= after.take(j));
        } else {
            lemma_spec_operand(rest, byte);
            lemma_operand_suffix(rest, byte);
            let (r, b, t) = spec_operand(rest, byte);
            if t is Ok {
                let (r2, b2, e) = spec_lex_remainder(r, b);
                lemma_lex_remainder(r, b);
                lemma_remainder_suffix(r, b);
                if e is None {
                    crate::types::lemma_head_in_template(template, rest, byte, r, b);
                    if r.len() > 0 {
                        crate::types::lemma_head_in_template(template, r, b, r2, b2);
                        let j = index_of(r, Class::NotWhitespace);
                        lemma_index_of(r, Class::NotWhitespace);
                        assert(r2 == r.skip(j));
                        let g = r.take(r.len() - r2.len());
                        assert forall|c: int| 0 <= c < g.len() implies crate::text::white_space(
                            #[trigger] g[c],
                        ) by {
                            assert(g[c] == r[c]);
                        }
                    } else {
                        assert(r2 =~= r);
                    }
                }
            }
        }
    }
}

/// Between two tokens that follow each other in an `if` condition there is only whitespace.
pub proof fn lemma_if_run_gaps(template: Seq<char>, m: IfModel)
    requires
        m.1 + blen(m.0) < usize::MAX,
        rest_in_template(template, m),
    ensures
        forall|k: int, l: int|
            0 <= k && l == k + 1 && l < if_run(m).0.len() ==> (#[trigger] if_run(m).0[k] matches Ok(t)
                ==> (#[trigger] if_run(m).0[l] matches Ok(u) ==> white_between(
                template,
                t.at.0 + t.at.1,
                u.at.0 as int,
            ))),
        if_run(m).0.len() > 0 ==> (if_run(m).0[0] matches Ok(t) ==> t.at.0 == m.1),
    decreases m.0.len(),
{
    if if_step_safe(m) && m.0.len() > 0 {
        lemma_if_step(m);
        lemma_if_step_gap(template, m);
        let (rest, byte) = m;
        let next = if_step(m).0;
        let item = if_step(m).1->0;
        if next.0.len() > 0 {
            let x = rest.len() - next.0.len();
            assert(next.0 == rest.skip(x));
            lemma_blen_take_skip(rest, x, x);
            crate::types::lemma_sub_span(template, byte, rest, x, rest.len() as int);
            assert(rest.subrange(x, rest.len() as int) =~= next.0);
            assert(rest.take(rest.len() as int) =~= rest);
        }
        if next.0.len() < m.0.len() {
            lemma_if_run_gaps(template, next);
            let items = if_run(m).0;
            assert(items == seq![item] + if_run(next).0);
            assert forall|k: int, l: int|
                0 <= k && l == k + 1 && l < items.len() && #[trigger] items[k] is Ok
                    && #[trigger] items[l] is Ok implies white_between(
                template,
                items[k]->Ok_0.at.0 + items[k]->Ok_0.at.1,
                items[l]->Ok_0.at.0 as int,
            ) by {
                assert(items[l] == if_run(next).0[k]);
                if k > 0 {
                    assert(items[k] == if_run(next).0[k - 1]);
                }
            }
        }
    }
}

/// What the `if` lexer yields from the arguments `parts` of a tag, started as
/// `IfConditionLexer::new` starts it (so what `collect` gives): its tokens lie inside `parts`,
/// in order, the first where `parts` starts, with only whitespace between two that follow each
/// other; a token has an operator type exactly when its text spells that operator; and at most
/// one item is an error, and it is the last.
#[verifier::spinoff_prover]
#[verifier::rlimit(100)]
pub proof fn lemma_if_lexer_laws(template: Seq<char>, parts: TagParts)
    requires
        valid_span(template, parts.at),
        parts.at.0 + parts.at.1 < usize::MAX,
    ensures
        ({
            let items = if_run((span(template, parts.at), parts.at.0)).0;
            &&& forall|i: int|
                0 <= i < items.len() ==> (#[trigger] items[i] matches Ok(t) ==> parts.at.0 <= t.at.0
                    && t.at.0 + t.at.1 <= parts.at.0 + parts.at.1)
            &&& forall|i: int, j: int|
                0 <= i < j < items.len() ==> (#[trigger] items[i] matches Ok(a) ==> (
                #[trigger] items[j] matches Ok(b) ==> a.at.0 + a.at.1 <= b.at.0))
            &&& items.len() > 0 ==> (items[0] matches Ok(t) ==> t.at.0 == parts.at.0)
            &&& forall|k: int, l: int|
                0 <= k && l == k + 1 && l < items.len() ==> (#[trigger] items[k] matches Ok(t) ==> (
                #[trigger] items[l] matches Ok(u) ==> white_between(template, t.at.0 + t.at.1, u.at.0 as int)))
            &&& forall|i: int|
                0 <= i < items.len() ==> (#[trigger] items[i] matches Ok(t) ==> (is_operator_type(
                    t.token_type,
                ) ==> if_operator(span(template, t.at)) == Some(t.token_type)) && (!is_operator_type(
                    t.token_type,
                ) ==> if_operator(span(template, t.at)) is None))
            &&& forall|i: int| 0 <= i < items.len() ==> (#[trigger] items[i] is Err ==> i == items.len() - 1)
        }),
{
    let m: IfModel = (span(template, parts.at), parts.at.0);
    let items = if_run(m).0;
    crate::types::lemma_span_blen(template, parts.at);
    assert(blen(m.0) == parts.at.1);
    assert((m.1, blen(m.0) as usize) == parts.at);
    assert(rest_in_template(template, m));
    assert(forall|i: int|
        0 <= i < items.len() ==> (#[trigger] items[i] matches Ok(t) ==> parts.at.0 <= t.at.0 && t.at.0
            + t.at.1 <= parts.at.0 + parts.at.1)) by {
        lemma_if_run_ordered(m);
    }
    assert(forall|i: int, j: int|
        0 <= i < j < items.len() ==> (#[trigger] items[i] matches Ok(a) ==> (
        #[trigger] items[j] matches Ok(b) ==> a.at.0 + a.at.1 <= b.at.0))) by {
        lemma_if_run_ordered(m);
    }
    assert(items.len() > 0 ==> (items[0] matches Ok(t) ==> t.at.0 == parts.at.0)) by {
        lemma_if_run_gaps(template, m);
    }
    assert(forall|k: int, l: int|
        0 <= k && l == k + 1 && l < items.len() ==> (#[trigger] items[k] matches Ok(t) ==> (
        #[trigger] items[l] matches Ok(u) ==> white_between(template, t.at.0 + t.at.1, u.at.0 as int)))) by {
        lemma_if_run_gaps(template, m);
    }
    assert(forall|i: int|
        0 <= i < items.len() ==> (#[trigger] items[i] matches Ok(t) ==> (is_operator_type(
            t.token_type,
        ) ==> if_operator(span(template, t.at)) == Some(t.token_type)) && (!is_operator_type(
            t.token_type,
        ) ==> if_operator(span(template, t.at)) is None))) by {
        lemma_if_run_operators(template, m);
    }
    assert(forall|i: int| 0 <= i < items.len() ==> (#[trigger] items[i] is Err ==> i == items.len() - 1))
        by {
        lemma_if_run_error_last(m);
    }
}

} // verus!
