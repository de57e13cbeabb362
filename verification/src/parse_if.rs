//! The condition of an `{% if %}` tag: its tokens read as words and operators, then parsed by
//! binding power into a tree: `or` binds loosest, then `and`, then `not`, then `in` and
//! `not in`, then `is`, `is not` and the comparisons.
use vstd::prelude::*;

use crate::lex::common::LexerError;
use crate::lex::ifcondition::{
    IfConditionLexer, IfConditionToken, IfConditionTokenType, IfModel, if_operator, if_run,
    is_operator_type, lemma_if_lexer_wf, lemma_if_run_operators, lemma_if_run_ordered,
};
use crate::lex::tag::TagParts;
use crate::parse::{is_number_text, number_text_ok};
use crate::text::str_eq;
use crate::types::{TemplateString, lemma_span_blen, span, valid_span};

verus! {

broadcast use vstd::string::group_string_axioms;

/// The binary operators of a condition.
#[derive(Clone, Copy, Debug, PartialEq, Eq, Structural)]
pub enum IfOp {
    Or,
    And,
    In,
    NotIn,
    Is,
    IsNot,
    Equal,
    NotEqual,
    LessThan,
    GreaterThan,
    LessThanEqual,
    GreaterThanEqual,
}

/// A token of a condition as the parser reads it: an operand, `not`, a binary operator with
/// its span, an error of the lexer, or a number literal that reads as no number.
#[derive(Clone, Copy, Debug, PartialEq, Eq)]
pub enum IfItem {
    Atom(IfConditionToken),
    Not((usize, usize)),
    Op(IfOp, (usize, usize)),
    LexError(LexerError),
    BadNumber(IfConditionToken),
}

/// Whether `t` is the word `w`.
pub open spec fn is_word(template: Seq<char>, t: IfConditionToken, w: Seq<char>) -> bool {
    t.token_type == IfConditionTokenType::Variable && span(template, t.at) == w
}

/// Whether the token after index `i` is the word `w`.
pub open spec fn next_is_word(template: Seq<char>, toks: Seq<Result<IfConditionToken, LexerError>>, i: int, w: Seq<char>) -> bool {
    i + 1 < toks.len() && toks[i + 1] is Ok && is_word(template, toks[i + 1]->Ok_0, w)
}

/// The span from the start of `a` to the end of `b`.
pub open spec fn through(a: (usize, usize), b: (usize, usize)) -> (usize, usize) {
    (a.0, (b.0 + b.1 - a.0) as usize)
}

/// How one token reads on its own.
pub open spec fn single_item(template: Seq<char>, t: IfConditionToken) -> IfItem {
    if is_word(template, t, "not"@) {
        IfItem::Not(t.at)
    } else if is_word(template, t, "and"@) {
        IfItem::Op(IfOp::And, t.at)
    } else if is_word(template, t, "or"@) {
        IfItem::Op(IfOp::Or, t.at)
    } else if is_word(template, t, "in"@) {
        IfItem::Op(IfOp::In, t.at)
    } else if is_word(template, t, "is"@) {
        IfItem::Op(IfOp::Is, t.at)
    } else {
        match t.token_type {
            IfConditionTokenType::Equal => IfItem::Op(IfOp::Equal, t.at),
            IfConditionTokenType::NotEqual => IfItem::Op(IfOp::NotEqual, t.at),
            IfConditionTokenType::LessThan => IfItem::Op(IfOp::LessThan, t.at),
            IfConditionTokenType::GreaterThan => IfItem::Op(IfOp::GreaterThan, t.at),
            IfConditionTokenType::LessThanEqual => IfItem::Op(IfOp::LessThanEqual, t.at),
            IfConditionTokenType::GreaterThanEqual => IfItem::Op(IfOp::GreaterThanEqual, t.at),
            IfConditionTokenType::Numeric => if is_number_text(span(template, t.at)) {
                IfItem::Atom(t)
            } else {
                IfItem::BadNumber(t)
            },
            _ => IfItem::Atom(t),
        }
    }
}

/// How the tokens from index `i` on read: `not in` and `is not` are one operator each.
pub open spec fn classify(template: Seq<char>, toks: Seq<Result<IfConditionToken, LexerError>>, i: int) -> Seq<
    IfItem,
>
    decreases toks.len() - i,
{
    if i < 0 || i >= toks.len() {
        Seq::empty()
    } else {
        match toks[i] {
            Err(e) => seq![IfItem::LexError(e)] + classify(template, toks, i + 1),
            Ok(t) => if is_word(template, t, "not"@) && next_is_word(template, toks, i, "in"@) {
                seq![IfItem::Op(IfOp::NotIn, through(t.at, toks[i + 1]->Ok_0.at))] + classify(
                    template,
                    toks,
                    i + 2,
                )
            } else if is_word(template, t, "is"@) && next_is_word(template, toks, i, "not"@) {
                seq![IfItem::Op(IfOp::IsNot, through(t.at, toks[i + 1]->Ok_0.at))] + classify(
                    template,
                    toks,
                    i + 2,
                )
            } else {
                seq![single_item(template, t)] + classify(template, toks, i + 1)
            },
        }
    }
}

/// Whether the tokens are spans of the template, in order, with ends that fit in `usize`.
pub open spec fn tokens_ok(template: Seq<char>, toks: Seq<Result<IfConditionToken, LexerError>>) -> bool {
    &&& forall|i: int|
        0 <= i < toks.len() ==> (#[trigger] toks[i] matches Ok(t) ==> valid_span(template, t.at)
            && t.at.0 + t.at.1 <= usize::MAX)
    &&& forall|i: int, j: int|
        0 <= i < j < toks.len() ==> (#[trigger] toks[i] matches Ok(a) ==> (#[trigger] toks[j] matches Ok(
            b,
        ) ==> a.at.0 + a.at.1 <= b.at.0))
}

fn word_is(template: TemplateString<'_>, t: IfConditionToken, w: &str) -> (r: bool)
    requires
        valid_span(template.0@, t.at),
    ensures
        r == is_word(template.0@, t, w@),
{
    t.token_type == IfConditionTokenType::Variable && str_eq(template.content(t.at), w)
}

fn single(template: TemplateString<'_>, t: IfConditionToken) -> (r: IfItem)
    requires
        valid_span(template.0@, t.at),
    ensures
        r == single_item(template.0@, t),
{
    if word_is(template, t, "not") {
        IfItem::Not(t.at)
    } else if word_is(template, t, "and") {
        IfItem::Op(IfOp::And, t.at)
    } else if word_is(template, t, "or") {
        IfItem::Op(IfOp::Or, t.at)
    } else if word_is(template, t, "in") {
        IfItem::Op(IfOp::In, t.at)
    } else if word_is(template, t, "is") {
        IfItem::Op(IfOp::Is, t.at)
    } else {
        match t.token_type {
            IfConditionTokenType::Equal => IfItem::Op(IfOp::Equal, t.at),
            IfConditionTokenType::NotEqual => IfItem::Op(IfOp::NotEqual, t.at),
            IfConditionTokenType::LessThan => IfItem::Op(IfOp::LessThan, t.at),
            IfConditionTokenType::GreaterThan => IfItem::Op(IfOp::GreaterThan, t.at),
            IfConditionTokenType::LessThanEqual => IfItem::Op(IfOp::LessThanEqual, t.at),
            IfConditionTokenType::GreaterThanEqual => IfItem::Op(IfOp::GreaterThanEqual, t.at),
            IfConditionTokenType::Numeric => if number_text_ok(template.content(t.at)) {
                IfItem::Atom(t)
            } else {
                IfItem::BadNumber(t)
            },
            _ => IfItem::Atom(t),
        }
    }
}

/// Reads the tokens of a condition as words and operators.
pub fn classify_tokens(template: TemplateString<'_>, toks: &Vec<Result<IfConditionToken, LexerError>>) -> (r: Vec<
    IfItem,
>)
    requires
        tokens_ok(template.0@, toks@),
    ensures
        r@ == classify(template.0@, toks@, 0),
{
    let ghost t = template.0@;
    let mut out: Vec<IfItem> = Vec::new();
    let mut i: usize = 0;
    let n = toks.len();
    while i < n
        invariant
            n == toks@.len(),
            0 <= i <= n,
            t == template.0@,
            tokens_ok(t, toks@),
            out@ + classify(t, toks@, i as int) == classify(t, toks@, 0),
        decreases n - i,
    {
        let ghost before = out@;
        match toks[i] {
            Err(e) => {
                out.push(IfItem::LexError(e));
                assert(out@ + classify(t, toks@, i + 1) =~= before + classify(t, toks@, i as int));
                i = i + 1;
            },
            Ok(tok) => {
                assert(toks@[i as int] matches Ok(x) ==> valid_span(t, x.at));
                let mut pair: Option<IfOp> = None;
                if i + 1 < n {
                    match toks[i + 1] {
                        Ok(next) => {
                            assert(toks@[i + 1] matches Ok(x) ==> valid_span(t, x.at));
                            if word_is(template, tok, "not") && word_is(template, next, "in") {
                                pair = Some(IfOp::NotIn);
                            } else if word_is(template, tok, "is") && word_is(template, next, "not") {
                                pair = Some(IfOp::IsNot);
                            }
                        },
                        Err(_) => {},
                    }
                }
                match pair {
                    Some(op) => {
                        let next = match toks[i + 1] {
                            Ok(next) => next,
                            Err(_) => tok,
                        };
                        assert(toks@[i as int] matches Ok(a) ==> (toks@[i + 1] matches Ok(b) ==> a.at.0
                            + a.at.1 <= b.at.0));
                        assert(toks@[i + 1] matches Ok(x) ==> x.at.0 + x.at.1 <= usize::MAX);
                        let at = (tok.at.0, next.at.0 + next.at.1 - tok.at.0);
                        out.push(IfItem::Op(op, at));
                        assert(out@ + classify(t, toks@, i + 2) =~= before + classify(t, toks@, i as int));
                        i = i + 2;
                    },
                    None => {
                        out.push(single(template, tok));
                        assert(out@ + classify(t, toks@, i + 1) =~= before + classify(t, toks@, i as int));
                        i = i + 1;
                    },
                }
            },
        }
    }
    assert(classify(t, toks@, i as int) =~= Seq::<IfItem>::empty());
    assert(out@ =~= out@ + Seq::<IfItem>::empty());
    out
}

/// A condition: an operand, a negation, or a binary operator with its two sides.
#[derive(Debug, PartialEq, Eq)]
pub enum IfCondition {
    Variable(IfConditionToken),
    Not(Box<IfCondition>),
    Binary(IfOp, Box<(IfCondition, IfCondition)>),
}

/// What parsing a condition rejects, with the span it points at.
#[derive(Clone, Copy, Debug, PartialEq, Eq)]
pub enum IfError {
    LexerError(LexerError),
    MissingBooleanExpression { at: (usize, usize) },
    UnexpectedEndExpression { at: (usize, usize) },
    InvalidIfPosition { at: (usize, usize) },
    UnusedExpression { at: (usize, usize) },
    InvalidNumber { at: (usize, usize) },
}

/// How tightly an operator binds; `not` binds with 8.
pub open spec fn binding_power(op: IfOp) -> u8 {
    match op {
        IfOp::Or => 6,
        IfOp::And => 7,
        IfOp::In => 9,
        IfOp::NotIn => 9,
        _ => 10,
    }
}

/// How tightly `not` binds.
pub const NOT_BINDING_POWER: u8 = 8;

fn op_binding_power(op: IfOp) -> (r: u8)
    ensures
        r == binding_power(op),
{
    match op {
        IfOp::Or => 6,
        IfOp::And => 7,
        IfOp::In => 9,
        IfOp::NotIn => 9,
        _ => 10,
    }
}

/// Parsing from index `pos` an operand that binds tighter than `min_bp`, after something at
/// `at`: the condition or the error, and the index after it.
pub open spec fn spec_parse_if(items: Seq<IfItem>, pos: int, min_bp: u8, at: (usize, usize)) -> (
    Result<IfCondition, IfError>,
    int,
)
    decreases items.len() - pos, 1int,
{
    if pos < 0 || pos >= items.len() {
        (Err(IfError::UnexpectedEndExpression { at }), pos)
    } else {
        match items[pos] {
            IfItem::LexError(e) => (Err(IfError::LexerError(e)), pos),
            IfItem::Atom(t) => spec_if_loop(items, IfCondition::Variable(t), pos + 1, min_bp),
            IfItem::BadNumber(t) => (Err(IfError::InvalidNumber { at: t.at }), pos),
            IfItem::Not(not_at) => {
                let (r, p) = spec_parse_if(items, pos + 1, NOT_BINDING_POWER, not_at);
                match r {
                    Err(e) => (Err(e), p),
                    Ok(c) => if pos < p <= items.len() {
                        spec_if_loop(items, IfCondition::Not(Box::new(c)), p, min_bp)
                    } else {
                        (Err(IfError::UnexpectedEndExpression { at: not_at }), p)
                    },
                }
            },
            IfItem::Op(_, op_at) => (Err(IfError::InvalidIfPosition { at: op_at }), pos),
        }
    }
}

/// Extending `lhs` with the operators from index `pos` on that bind tighter than `min_bp`.
pub open spec fn spec_if_loop(items: Seq<IfItem>, lhs: IfCondition, pos: int, min_bp: u8) -> (
    Result<IfCondition, IfError>,
    int,
)
    decreases items.len() - pos, 0int,
{
    if pos < 0 || pos >= items.len() {
        (Ok(lhs), pos)
    } else {
        match items[pos] {
            IfItem::LexError(e) => (Err(IfError::LexerError(e)), pos),
            IfItem::Atom(t) => (Err(IfError::UnusedExpression { at: t.at }), pos),
            IfItem::BadNumber(t) => (Err(IfError::UnusedExpression { at: t.at }), pos),
            IfItem::Not(not_at) => (Err(IfError::UnusedExpression { at: not_at }), pos),
            IfItem::Op(op, op_at) => if binding_power(op) <= min_bp {
                (Ok(lhs), pos)
            } else {
                let (r, p) = spec_parse_if(items, pos + 1, binding_power(op), op_at);
                match r {
                    Err(e) => (Err(e), p),
                    Ok(rhs) => if pos < p <= items.len() {
                        spec_if_loop(items, IfCondition::Binary(op, Box::new((lhs, rhs))), p, min_bp)
                    } else {
                        (Err(IfError::UnexpectedEndExpression { at: op_at }), p)
                    },
                }
            },
        }
    }
}

fn parse_if_at(items: &Vec<IfItem>, pos: usize, min_bp: u8, at: (usize, usize)) -> (r: (
    Result<IfCondition, IfError>,
    usize,
))
    requires
        pos <= items@.len(),
    ensures
        (r.0, r.1 as int) == spec_parse_if(items@, pos as int, min_bp, at),
        pos <= r.1 <= items@.len(),
        r.0 is Ok ==> pos < r.1,
    decreases items@.len() - pos, 1int,
{
    if pos >= items.len() {
        return (Err(IfError::UnexpectedEndExpression { at }), pos);
    }
    match items[pos] {
        IfItem::LexError(e) => (Err(IfError::LexerError(e)), pos),
        IfItem::Atom(t) => {
            let r = if_loop(items, IfCondition::Variable(t), pos + 1, min_bp);
            r
        },
        IfItem::BadNumber(t) => (Err(IfError::InvalidNumber { at: t.at }), pos),
        IfItem::Not(not_at) => {
            let (r, p) = parse_if_at(items, pos + 1, NOT_BINDING_POWER, not_at);
            match r {
                Err(e) => (Err(e), p),
                Ok(c) => if pos < p && p <= items.len() {
                    if_loop(items, IfCondition::Not(Box::new(c)), p, min_bp)
                } else {
                    (Err(IfError::UnexpectedEndExpression { at: not_at }), p)
                },
            }
        },
        IfItem::Op(_, op_at) => (Err(IfError::InvalidIfPosition { at: op_at }), pos),
    }
}

fn if_loop(items: &Vec<IfItem>, lhs: IfCondition, pos: usize, min_bp: u8) -> (r: (
    Result<IfCondition, IfError>,
    usize,
))
    requires
        pos <= items@.len(),
    ensures
        (r.0, r.1 as int) == spec_if_loop(items@, lhs, pos as int, min_bp),
        pos <= r.1 <= items@.len(),
    decreases items@.len() - pos, 0int,
{
    if pos >= items.len() {
        return (Ok(lhs), pos);
    }
    match items[pos] {
        IfItem::LexError(e) => (Err(IfError::LexerError(e)), pos),
        IfItem::Atom(t) => (Err(IfError::UnusedExpression { at: t.at }), pos),
        IfItem::BadNumber(t) => (Err(IfError::UnusedExpression { at: t.at }), pos),
        IfItem::Not(not_at) => (Err(IfError::UnusedExpression { at: not_at }), pos),
        IfItem::Op(op, op_at) => {
            let bp = op_binding_power(op);
            if bp <= min_bp {
                (Ok(lhs), pos)
            } else {
                let (r, p) = parse_if_at(items, pos + 1, bp, op_at);
                match r {
                    Err(e) => (Err(e), p),
                    Ok(rhs) => if pos < p && p <= items.len() {
                        if_loop(items, IfCondition::Binary(op, Box::new((lhs, rhs))), p, min_bp)
                    } else {
                        (Err(IfError::UnexpectedEndExpression { at: op_at }), p)
                    },
                }
            }
        },
    }
}

/// What `parse_if_items` gives for the items of the condition of the `{% if %}` tag at `at`.
pub open spec fn spec_if_condition(items: Seq<IfItem>, at: (usize, usize)) -> Result<IfCondition, IfError> {
    if items.len() == 0 {
        Err(IfError::MissingBooleanExpression { at })
    } else {
        spec_parse_if(items, 0, 0, at).0
    }
}

/// Parses the condition of the `{% if %}` tag at `at`, read into `items`.
pub fn parse_if_items(items: &Vec<IfItem>, at: (usize, usize)) -> (r: Result<IfCondition, IfError>)
    ensures
        r == spec_if_condition(items@, at),
{
    if items.len() == 0 {
        return Err(IfError::MissingBooleanExpression { at });
    }
    parse_if_at(items, 0, 0, at).0
}

/// Where the `if` lexer starts on the parts `parts` of a tag of `template`.
pub open spec fn if_start(template: Seq<char>, parts: TagParts) -> IfModel {
    (span(template, parts.at), parts.at.0)
}

/// Parses the condition of the `{% if %}` tag at `at`, whose parts are `parts`: lexes them, reads
/// the tokens as words and operators, and parses those by binding power.
pub fn parse_if_condition(template: TemplateString<'_>, parts: TagParts, at: (usize, usize)) -> (r: Result<
    IfCondition,
    IfError,
>)
    requires
        valid_span(template.0@, parts.at),
        parts.at.0 + parts.at.1 < usize::MAX,
        if_run(if_start(template.0@, parts)).1,
    ensures
        r == spec_if_condition(classify(template.0@, if_run(if_start(template.0@, parts)).0, 0), at),
{
    let lexer = IfConditionLexer::new(template, parts);
    let ghost m = lexer@;
    proof {
        lemma_if_lexer_wf(&lexer);
        lemma_span_blen(template.0@, parts.at);
        lemma_if_run_operators(template.0@, m);
        lemma_if_run_ordered(m);
    }
    let toks = lexer.collect();
    let items = classify_tokens(template, &toks);
    parse_if_items(&items, at)
}

/// A token of a condition is read as the operator that its text spells: a comparison token as
/// the comparison written with that symbol, the words `and`, `or`, `in` and `is` as those
/// operators, and `not` as negation; for a token as the lexer gives it, whose type is an
/// operator's exactly when its text spells that operator.
pub proof fn lemma_operator_text(template: Seq<char>, t: IfConditionToken)
    requires
        is_operator_type(t.token_type) ==> if_operator(span(template, t.at)) == Some(t.token_type),
        !is_operator_type(t.token_type) ==> if_operator(span(template, t.at)) is None,
    ensures
        (single_item(template, t) == IfItem::Op(IfOp::Equal, t.at)) == (span(template, t.at) == "=="@),
        (single_item(template, t) == IfItem::Op(IfOp::NotEqual, t.at)) == (span(template, t.at) == "!="@),
        (single_item(template, t) == IfItem::Op(IfOp::LessThan, t.at)) == (span(template, t.at) == "<"@),
        (single_item(template, t) == IfItem::Op(IfOp::GreaterThan, t.at)) == (span(template, t.at) == ">"@),
        (single_item(template, t) == IfItem::Op(IfOp::LessThanEqual, t.at)) == (span(template, t.at) == "<="@),
        (single_item(template, t) == IfItem::Op(IfOp::GreaterThanEqual, t.at)) == (span(template, t.at) == ">="@),
        (single_item(template, t) == IfItem::Op(IfOp::And, t.at)) == (t.token_type == IfConditionTokenType::Variable && span(template, t.at) == "and"@),
        (single_item(template, t) == IfItem::Op(IfOp::Or, t.at)) == (t.token_type == IfConditionTokenType::Variable && span(template, t.at) == "or"@),
        (single_item(template, t) == IfItem::Op(IfOp::In, t.at)) == (t.token_type == IfConditionTokenType::Variable && span(template, t.at) == "in"@),
        (single_item(template, t) == IfItem::Op(IfOp::Is, t.at)) == (t.token_type == IfConditionTokenType::Variable && span(template, t.at) == "is"@),
        (single_item(template, t) == IfItem::Not(t.at)) == (t.token_type == IfConditionTokenType::Variable && span(template, t.at) == "not"@),
{
    reveal_strlit("==");
    reveal_strlit("!=");
    reveal_strlit("<");
    reveal_strlit(">");
    reveal_strlit("<=");
    reveal_strlit(">=");
    reveal_strlit("and");
    reveal_strlit("or");
    reveal_strlit("in");
    reveal_strlit("is");
    reveal_strlit("not");
    assert("=="@[0] != "!="@[0]);
    assert("=="@.len() != "<"@.len());
    assert("=="@.len() != ">"@.len());
    assert("=="@[0] != "<="@[0]);
    assert("=="@[0] != ">="@[0]);
    assert("=="@.len() != "and"@.len());
    assert("=="@[0] != "or"@[0]);
    assert("=="@[0] != "in"@[0]);
    assert("=="@[0] != "is"@[0]);
    assert("=="@.len() != "not"@.len());
    assert("!="@.len() != "<"@.len());
    assert("!="@.len() != ">"@.len());
    assert("!="@[0] != "<="@[0]);
    assert("!="@[0] != ">="@[0]);
    assert("!="@.len() != "and"@.len());
    assert("!="@[0] != "or"@[0]);
    assert("!="@[0] != "in"@[0]);
    assert("!="@[0] != "is"@[0]);
    assert("!="@.len() != "not"@.len());
    assert("<"@[0] != ">"@[0]);
    assert("<"@.len() != "<="@.len());
    assert("<"@.len() != ">="@.len());
    assert("<"@.len() != "and"@.len());
    assert("<"@.len() != "or"@.len());
    assert("<"@.len() != "in"@.len());
    assert("<"@.len() != "is"@.len());
    assert("<"@.len() != "not"@.len());
    assert(">"@.len() != "<="@.len());
    assert(">"@.len() != ">="@.len());
    assert(">"@.len() != "and"@.len());
    assert(">"@.len() != "or"@.len());
    assert(">"@.len() != "in"@.len());
    assert(">"@.len() != "is"@.len());
    assert(">"@.len() != "not"@.len());
    assert("<="@[0] != ">="@[0]);
    assert("<="@.len() != "and"@.len());
    assert("<="@[0] != "or"@[0]);
    assert("<="@[0] != "in"@[0]);
    assert("<="@[0] != "is"@[0]);
    assert("<="@.len() != "not"@.len());
    assert(">="@.len() != "and"@.len());
    assert(">="@[0] != "or"@[0]);
    assert(">="@[0] != "in"@[0]);
    assert(">="@[0] != "is"@[0]);
    assert(">="@.len() != "not"@.len());
    assert("and"@.len() != "or"@.len());
    assert("and"@.len() != "in"@.len());
    assert("and"@.len() != "is"@.len());
    assert("and"@[0] != "not"@[0]);
    assert("or"@[0] != "in"@[0]);
    assert("or"@[0] != "is"@[0]);
    assert("or"@.len() != "not"@.len());
    assert("in"@[1] != "is"@[1]);
    assert("in"@.len() != "not"@.len());
    assert("is"@.len() != "not"@.len());
}

/// A condition of two operands with an operator between them is that operator applied to the
/// two operands, in their order.
pub proof fn lemma_parse_binary(
    a: IfConditionToken,
    op: IfOp,
    op_at: (usize, usize),
    b: IfConditionToken,
    at: (usize, usize),
)
    ensures
        spec_if_condition(seq![IfItem::Atom(a), IfItem::Op(op, op_at), IfItem::Atom(b)], at) == Ok::<
            IfCondition,
            IfError,
        >(IfCondition::Binary(op, Box::new((IfCondition::Variable(a), IfCondition::Variable(b))))),
{
    let items = seq![IfItem::Atom(a), IfItem::Op(op, op_at), IfItem::Atom(b)];
    let bp = binding_power(op);
    assert(spec_if_loop(items, IfCondition::Variable(b), 3, bp) == (
        Ok::<IfCondition, IfError>(IfCondition::Variable(b)),
        3int,
    ));
    assert(spec_parse_if(items, 2, bp, op_at) == (
        Ok::<IfCondition, IfError>(IfCondition::Variable(b)),
        3int,
    ));
    let both = IfCondition::Binary(op, Box::new((IfCondition::Variable(a), IfCondition::Variable(b))));
    assert(spec_if_loop(items, both, 3, 0) == (Ok::<IfCondition, IfError>(both), 3int));
    assert(spec_if_loop(items, IfCondition::Variable(a), 1, 0) == (
        Ok::<IfCondition, IfError>(both),
        3int,
    ));
    assert(spec_parse_if(items, 0, 0, at) == (Ok::<IfCondition, IfError>(both), 3int));
}

/// `or` binds loosest, then `and`, then `not`, then `in` and `not in`, then `is`, `is not` and
/// the comparisons, which bind alike.
pub proof fn lemma_binding_order()
    ensures
        binding_power(IfOp::Or) < binding_power(IfOp::And),
        binding_power(IfOp::And) < NOT_BINDING_POWER,
        NOT_BINDING_POWER < binding_power(IfOp::In),
        binding_power(IfOp::In) == binding_power(IfOp::NotIn),
        binding_power(IfOp::In) < binding_power(IfOp::Is),
        binding_power(IfOp::Is) == binding_power(IfOp::IsNot),
        binding_power(IfOp::Is) == binding_power(IfOp::Equal),
        binding_power(IfOp::Equal) == binding_power(IfOp::NotEqual),
        binding_power(IfOp::Equal) == binding_power(IfOp::LessThan),
        binding_power(IfOp::Equal) == binding_power(IfOp::GreaterThan),
        binding_power(IfOp::Equal) == binding_power(IfOp::LessThanEqual),
        binding_power(IfOp::Equal) == binding_power(IfOp::GreaterThanEqual),
        forall|op: IfOp| 0 < #[trigger] binding_power(op),
{
}

/// In `a p b q c`, the operator that binds tighter takes `b`: `q` when it binds tighter than
/// `p`, and `p` otherwise (so operators that bind alike group from the left).
pub proof fn lemma_parse_precedence(
    a: IfConditionToken,
    p: IfOp,
    p_at: (usize, usize),
    b: IfConditionToken,
    q: IfOp,
    q_at: (usize, usize),
    c: IfConditionToken,
    at: (usize, usize),
)
    ensures
        ({
            let items = seq![
                IfItem::Atom(a),
                IfItem::Op(p, p_at),
                IfItem::Atom(b),
                IfItem::Op(q, q_at),
                IfItem::Atom(c),
            ];
            let (va, vb, vc) = (IfCondition::Variable(a), IfCondition::Variable(b), IfCondition::Variable(c));
            spec_if_condition(items, at) == if binding_power(p) < binding_power(q) {
                Ok::<IfCondition, IfError>(IfCondition::Binary(p, Box::new((va, IfCondition::Binary(q, Box::new((vb, vc)))))))
            } else {
                Ok::<IfCondition, IfError>(IfCondition::Binary(q, Box::new((IfCondition::Binary(p, Box::new((va, vb))), vc))))
            }
        }),
{
    let items = seq![
        IfItem::Atom(a),
        IfItem::Op(p, p_at),
        IfItem::Atom(b),
        IfItem::Op(q, q_at),
        IfItem::Atom(c),
    ];
    let (va, vb, vc) = (IfCondition::Variable(a), IfCondition::Variable(b), IfCondition::Variable(c));
    let (bp, bq) = (binding_power(p), binding_power(q));
    assert(bp > 0 && bq > 0);
    assert(spec_if_loop(items, vc, 5, bq) == (Ok::<IfCondition, IfError>(vc), 5int));
    assert(spec_parse_if(items, 4, bq, q_at) == (Ok::<IfCondition, IfError>(vc), 5int));
    if bp < bq {
        let qbc = IfCondition::Binary(q, Box::new((vb, vc)));
        let all = IfCondition::Binary(p, Box::new((va, qbc)));
        assert(spec_if_loop(items, qbc, 5, bp) == (Ok::<IfCondition, IfError>(qbc), 5int));
        assert(spec_if_loop(items, vb, 3, bp) == (Ok::<IfCondition, IfError>(qbc), 5int));
        assert(spec_parse_if(items, 2, bp, p_at) == (Ok::<IfCondition, IfError>(qbc), 5int));
        assert(spec_if_loop(items, all, 5, 0) == (Ok::<IfCondition, IfError>(all), 5int));
        assert(spec_if_loop(items, va, 1, 0) == (Ok::<IfCondition, IfError>(all), 5int));
        assert(spec_parse_if(items, 0, 0, at) == (Ok::<IfCondition, IfError>(all), 5int));
    } else {
        let pab = IfCondition::Binary(p, Box::new((va, vb)));
        let all = IfCondition::Binary(q, Box::new((pab, vc)));
        assert(spec_if_loop(items, vb, 3, bp) == (Ok::<IfCondition, IfError>(vb), 3int));
        assert(spec_parse_if(items, 2, bp, p_at) == (Ok::<IfCondition, IfError>(vb), 3int));
        assert(spec_if_loop(items, all, 5, 0) == (Ok::<IfCondition, IfError>(all), 5int));
        assert(spec_if_loop(items, pab, 3, 0) == (Ok::<IfCondition, IfError>(all), 5int));
        assert(spec_if_loop(items, va, 1, 0) == (Ok::<IfCondition, IfError>(all), 5int));
        assert(spec_parse_if(items, 0, 0, at) == (Ok::<IfCondition, IfError>(all), 5int));
    }
}

/// `not in` and `is not` are read as one operator each, spanning both words.
pub proof fn lemma_two_word_operators(template: Seq<char>, t: IfConditionToken, u: IfConditionToken)
    ensures
        is_word(template, t, "not"@) && is_word(template, u, "in"@) ==> classify(
            template,
            seq![Ok::<IfConditionToken, LexerError>(t), Ok::<IfConditionToken, LexerError>(u)],
            0,
        ) == seq![IfItem::Op(IfOp::NotIn, through(t.at, u.at))],
        is_word(template, t, "is"@) && is_word(template, u, "not"@) ==> classify(
            template,
            seq![Ok::<IfConditionToken, LexerError>(t), Ok::<IfConditionToken, LexerError>(u)],
            0,
        ) == seq![IfItem::Op(IfOp::IsNot, through(t.at, u.at))],
{
    reveal_strlit("not");
    reveal_strlit("in");
    reveal_strlit("is");
    assert("not"@.len() != "is"@.len());
    let toks = seq![Ok::<IfConditionToken, LexerError>(t), Ok::<IfConditionToken, LexerError>(u)];
    assert(classify(template, toks, 2) == Seq::<IfItem>::empty());
}

} // verus!
