//! The decisions of the template parser that stand on their own: which tag a block tag is,
//! which filter a filter name is, what a tag library's function must take, and what integer a
//! number literal holds.
use num_bigint::{BigInt, Sign};
use vstd::prelude::*;

use crate::lex::tag::{
    TagLexerError, TagParts, TagToken, lex_tag, lemma_lex_tag_inside, lemma_lex_tag_spans,
    spec_lex_tag,
};
use crate::lex::forloop::{
    ForLexer, ForLexerError, ForModel, ForToken, ForTokenType, State, for_result_view, for_run,
    lemma_for_lexer_wf, lemma_for_run_ascii, lemma_for_run_ordered, lemma_for_run_reads,
};
use crate::lex::url::{
    UrlLexer, UrlLexerError, UrlModel, UrlToken, UrlTokenType, lemma_url_lexer_wf,
    lemma_url_run_ascii, lemma_url_run_keywords, url_run,
};
use crate::lex::{END_TAG_LEN, START_TAG_LEN};
use crate::lex::ifcondition::{if_run, lemma_if_run_ascii};
use crate::numeric::{digits, float_text_ok, is_decimal, is_digit, is_float_text, spells, unsigned};
use crate::text::{
    Class, ascii, byte_len, find, index_of, lemma_blen_take_le, lemma_ascii_suffix, lemma_blen_take_step, lemma_chars_in,
    lemma_index_of, lemma_trim_end_len, split_bytes, str_eq, trim, trimmed, trimmed_start,
    white_space,
};
use crate::parse_if::{
    IfCondition, IfError, classify, if_start, parse_if_condition, spec_if_condition,
};
use crate::types::{TemplateString, Variable, lemma_span_blen, span, valid_span};

verus! {

broadcast use vstd::string::group_string_axioms;

/// What the parser rejects, with the span of the culprit.
#[derive(Debug, PartialEq, Eq)]
pub enum ParseError {
    EmptyTag { at: (usize, usize) },
    BlockError(TagLexerError),
    InvalidFilter { filter: String, at: (usize, usize) },
    InvalidNumber { at: (usize, usize) },
    MissingArgument { at: (usize, usize) },
    UnexpectedArgument { filter: String, at: (usize, usize) },
    RequiresContext { name: String, at: (usize, usize) },
    RequiresContent { name: String, at: (usize, usize) },
    RequiresContextAndContent { name: String, at: (usize, usize) },
    UrlError(UrlLexerError),
    UrlTagNoArguments { at: (usize, usize) },
    MixedArgsKwargs { at: (usize, usize) },
    ForError(ForLexerError),
    MissingVariableNames { at: (usize, usize) },
    MissingExpression { at: (usize, usize) },
    NotIterable { at: (usize, usize) },
    PositionalAfterKeyword { at: (usize, usize), after: (usize, usize) },
    TooManyPositionalArguments { at: (usize, usize) },
    UnexpectedKeywordArgument { at: (usize, usize) },
    DuplicateKeywordArgument {
        tag_name: String,
        kwarg_name: String,
        first_at: (usize, usize),
        second_at: (usize, usize),
    },
    MissingArguments { tag_name: String, missing: String, at: (usize, usize) },
    IfError(IfError),
    MissingVariable { at: (usize, usize) },
    MissingVariableBeforeIn { at: (usize, usize) },
}

/// The block tags that the parser knows, and those of template libraries.
#[derive(Clone, Copy, Debug, PartialEq, Eq, Structural)]
pub enum TagKind {
    Url,
    Load,
    Autoescape,
    EndAutoescape,
    EndVerbatim,
    If,
    Elif,
    Else,
    EndIf,
    For,
    Empty,
    EndFor,
    Library,
}

/// The kind of the block tag named `name`.
pub open spec fn spec_tag_kind(name: Seq<char>) -> TagKind {
    if name == "url"@ {
        TagKind::Url
    } else if name == "load"@ {
        TagKind::Load
    } else if name == "autoescape"@ {
        TagKind::Autoescape
    } else if name == "endautoescape"@ {
        TagKind::EndAutoescape
    } else if name == "endverbatim"@ {
        TagKind::EndVerbatim
    } else if name == "if"@ {
        TagKind::If
    } else if name == "elif"@ {
        TagKind::Elif
    } else if name == "else"@ {
        TagKind::Else
    } else if name == "endif"@ {
        TagKind::EndIf
    } else if name == "for"@ {
        TagKind::For
    } else if name == "empty"@ {
        TagKind::Empty
    } else if name == "endfor"@ {
        TagKind::EndFor
    } else {
        TagKind::Library
    }
}

/// The kind of the block tag named `name`.
pub fn tag_kind(name: &str) -> (r: TagKind)
    ensures
        r == spec_tag_kind(name@),
{
    if str_eq(name, "url") {
        TagKind::Url
    } else if str_eq(name, "load") {
        TagKind::Load
    } else if str_eq(name, "autoescape") {
        TagKind::Autoescape
    } else if str_eq(name, "endautoescape") {
        TagKind::EndAutoescape
    } else if str_eq(name, "endverbatim") {
        TagKind::EndVerbatim
    } else if str_eq(name, "if") {
        TagKind::If
    } else if str_eq(name, "elif") {
        TagKind::Elif
    } else if str_eq(name, "else") {
        TagKind::Else
    } else if str_eq(name, "endif") {
        TagKind::EndIf
    } else if str_eq(name, "for") {
        TagKind::For
    } else if str_eq(name, "empty") {
        TagKind::Empty
    } else if str_eq(name, "endfor") {
        TagKind::EndFor
    } else {
        TagKind::Library
    }
}

/// Each block tag that the parser knows is read from its own name and from no other; every
/// other name is the tag of a template library.
pub proof fn lemma_tag_kind_names(name: Seq<char>)
    ensures
        (spec_tag_kind(name) == TagKind::Url) == (name == "url"@),
        (spec_tag_kind(name) == TagKind::Load) == (name == "load"@),
        (spec_tag_kind(name) == TagKind::Autoescape) == (name == "autoescape"@),
        (spec_tag_kind(name) == TagKind::EndAutoescape) == (name == "endautoescape"@),
        (spec_tag_kind(name) == TagKind::EndVerbatim) == (name == "endverbatim"@),
        (spec_tag_kind(name) == TagKind::If) == (name == "if"@),
        (spec_tag_kind(name) == TagKind::Elif) == (name == "elif"@),
        (spec_tag_kind(name) == TagKind::Else) == (name == "else"@),
        (spec_tag_kind(name) == TagKind::EndIf) == (name == "endif"@),
        (spec_tag_kind(name) == TagKind::For) == (name == "for"@),
        (spec_tag_kind(name) == TagKind::Empty) == (name == "empty"@),
        (spec_tag_kind(name) == TagKind::EndFor) == (name == "endfor"@),
        (spec_tag_kind(name) == TagKind::Library) == !(name == "url"@ || name == "load"@ || name == "autoescape"@ || name == "endautoescape"@ || name == "endverbatim"@ || name == "if"@ || name == "elif"@ || name == "else"@ || name == "endif"@ || name == "for"@ || name == "empty"@ || name == "endfor"@),
{
    reveal_strlit("url");
    reveal_strlit("load");
    reveal_strlit("autoescape");
    reveal_strlit("endautoescape");
    reveal_strlit("endverbatim");
    reveal_strlit("if");
    reveal_strlit("elif");
    reveal_strlit("else");
    reveal_strlit("endif");
    reveal_strlit("for");
    reveal_strlit("empty");
    reveal_strlit("endfor");
    assert("url"@.len() != "load"@.len());
    assert("url"@.len() != "autoescape"@.len());
    assert("url"@.len() != "endautoescape"@.len());
    assert("url"@.len() != "endverbatim"@.len());
    assert("url"@.len() != "if"@.len());
    assert("url"@.len() != "elif"@.len());
    assert("url"@.len() != "else"@.len());
    assert("url"@.len() != "endif"@.len());
    assert("url"@[0] != "for"@[0]);
    assert("url"@.len() != "empty"@.len());
    assert("url"@.len() != "endfor"@.len());
    assert("load"@.len() != "autoescape"@.len());
    assert("load"@.len() != "endautoescape"@.len());
    assert("load"@.len() != "endverbatim"@.len());
    assert("load"@.len() != "if"@.len());
    assert("load"@[0] != "elif"@[0]);
    assert("load"@[0] != "else"@[0]);
    assert("load"@.len() != "endif"@.len());
    assert("load"@.len() != "for"@.len());
    assert("load"@.len() != "empty"@.len());
    assert("load"@.len() != "endfor"@.len());
    assert("autoescape"@.len() != "endautoescape"@.len());
    assert("autoescape"@.len() != "endverbatim"@.len());
    assert("autoescape"@.len() != "if"@.len());
    assert("autoescape"@.len() != "elif"@.len());
    assert("autoescape"@.len() != "else"@.len());
    assert("autoescape"@.len() != "endif"@.len());
    assert("autoescape"@.len() != "for"@.len());
    assert("autoescape"@.len() != "empty"@.len());
    assert("autoescape"@.len() != "endfor"@.len());
    assert("endautoescape"@.len() != "endverbatim"@.len());
    assert("endautoescape"@.len() != "if"@.len());
    assert("endautoescape"@.len() != "elif"@.len());
    assert("endautoescape"@.len() != "else"@.len());
    assert("endautoescape"@.len() != "endif"@.len());
    assert("endautoescape"@.len() != "for"@.len());
    assert("endautoescape"@.len() != "empty"@.len());
    assert("endautoescape"@.len() != "endfor"@.len());
    assert("endverbatim"@.len() != "if"@.len());
    assert("endverbatim"@.len() != "elif"@.len());
    assert("endverbatim"@.len() != "else"@.len());
    assert("endverbatim"@.len() != "endif"@.len());
    assert("endverbatim"@.len() != "for"@.len());
    assert("endverbatim"@.len() != "empty"@.len());
    assert("endverbatim"@.len() != "endfor"@.len());
    assert("if"@.len() != "elif"@.len());
    assert("if"@.len() != "else"@.len());
    assert("if"@.len() != "endif"@.len());
    assert("if"@.len() != "for"@.len());
    assert("if"@.len() != "empty"@.len());
    assert("if"@.len() != "endfor"@.len());
    assert("elif"@[2] != "else"@[2]);
    assert("elif"@.len() != "endif"@.len());
    assert("elif"@.len() != "for"@.len());
    assert("elif"@.len() != "empty"@.len());
    assert("elif"@.len() != "endfor"@.len());
    assert("else"@.len() != "endif"@.len());
    assert("else"@.len() != "for"@.len());
    assert("else"@.len() != "empty"@.len());
    assert("else"@.len() != "endfor"@.len());
    assert("endif"@.len() != "for"@.len());
    assert("endif"@[1] != "empty"@[1]);
    assert("endif"@.len() != "endfor"@.len());
    assert("for"@.len() != "empty"@.len());
    assert("for"@.len() != "endfor"@.len());
    assert("empty"@.len() != "endfor"@.len());
}

/// The span of the inside of the block tag `{% ... %}` at `at`.
pub open spec fn inside_at(at: (usize, usize)) -> (usize, usize) {
    ((at.0 + START_TAG_LEN) as usize, (at.1 - START_TAG_LEN - END_TAG_LEN) as usize)
}

/// What `parse_tag_head` gives for the block tag of `template` at `at`.
pub open spec fn spec_tag_head(template: Seq<char>, at: (usize, usize)) -> Result<
    (TagKind, TagToken, TagParts),
    ParseError,
> {
    match spec_lex_tag(span(template, inside_at(at)), inside_at(at).0) {
        Err(e) => Err(ParseError::BlockError(e)),
        Ok(None) => Err(ParseError::EmptyTag { at }),
        Ok(Some((name, parts))) => Ok((spec_tag_kind(span(template, name.at)), name, parts)),
    }
}

/// Reads the block tag `{% name args %}` of `template` at `at`: the kind of tag, its name and
/// its arguments. An empty tag and an invalid name are errors.
pub fn parse_tag_head(template: TemplateString<'_>, at: (usize, usize)) -> (r: Result<
    (TagKind, TagToken, TagParts),
    ParseError,
>)
    requires
        at.1 >= START_TAG_LEN + END_TAG_LEN,
        at.0 + at.1 <= usize::MAX,
        valid_span(template.0@, inside_at(at)),
    ensures
        r == spec_tag_head(template.0@, at),
{
    let inside = (at.0 + START_TAG_LEN, at.1 - START_TAG_LEN - END_TAG_LEN);
    let tag = template.content(inside);
    proof {
        lemma_span_blen(template.0@, inside);
        lemma_lex_tag_spans(template.0@, tag@, inside.0);
    }
    match lex_tag(tag, inside.0) {
        Err(e) => Err(ParseError::BlockError(e)),
        Ok(None) => Err(ParseError::EmptyTag { at }),
        Ok(Some((name, parts))) => {
            let kind = tag_kind(template.content(name.at));
            Ok((kind, name, parts))
        },
    }
}

/// The filters that the parser knows, and those of template libraries.
#[derive(Clone, Copy, Debug, PartialEq, Eq, Structural)]
pub enum FilterKind {
    Add,
    AddSlashes,
    Capfirst,
    Center,
    Default,
    Escape,
    Lower,
    Safe,
    Slugify,
    Upper,
    YesNo,
    External,
}

/// Why a filter is refused.
#[derive(Clone, Copy, Debug, PartialEq, Eq, Structural)]
pub enum FilterFault {
    MissingArgument,
    UnexpectedArgument,
    InvalidFilter,
}

/// A filter that takes an argument: refused without one.
pub open spec fn with_argument(kind: FilterKind, has_arg: bool) -> Result<FilterKind, FilterFault> {
    if has_arg {
        Ok(kind)
    } else {
        Err(FilterFault::MissingArgument)
    }
}

/// A filter that takes no argument: refused with one.
pub open spec fn without_argument(kind: FilterKind, has_arg: bool) -> Result<FilterKind, FilterFault> {
    if has_arg {
        Err(FilterFault::UnexpectedArgument)
    } else {
        Ok(kind)
    }
}

/// The filter named `name`, given whether it has an argument and whether a loaded library
/// provides a filter of that name.
pub open spec fn spec_filter_kind(name: Seq<char>, has_arg: bool, known: bool) -> Result<
    FilterKind,
    FilterFault,
> {
    if name == "add"@ {
        with_argument(FilterKind::Add, has_arg)
    } else if name == "addslashes"@ {
        without_argument(FilterKind::AddSlashes, has_arg)
    } else if name == "capfirst"@ {
        without_argument(FilterKind::Capfirst, has_arg)
    } else if name == "center"@ {
        with_argument(FilterKind::Center, has_arg)
    } else if name == "default"@ {
        with_argument(FilterKind::Default, has_arg)
    } else if name == "escape"@ {
        without_argument(FilterKind::Escape, has_arg)
    } else if name == "lower"@ {
        without_argument(FilterKind::Lower, has_arg)
    } else if name == "safe"@ {
        without_argument(FilterKind::Safe, has_arg)
    } else if name == "slugify"@ {
        without_argument(FilterKind::Slugify, has_arg)
    } else if name == "upper"@ {
        without_argument(FilterKind::Upper, has_arg)
    } else if name == "yesno"@ {
        Ok(FilterKind::YesNo)
    } else if known {
        Ok(FilterKind::External)
    } else {
        Err(FilterFault::InvalidFilter)
    }
}

/// The filters that the parser knows are read from their own names: `add`, `center` and
/// `default` need an argument and are refused without one; `yesno` takes one or none; the others
/// take none and are refused with one. Any other name is a library's filter where one is loaded
/// under it, and refused otherwise.
pub proof fn lemma_filter_kind_names(name: Seq<char>, has_arg: bool, known: bool)
    ensures
        (spec_filter_kind(name, has_arg, known) == Ok::<FilterKind, FilterFault>(FilterKind::Add)) == (name == "add"@ && has_arg),
        (spec_filter_kind(name, has_arg, known) == Ok::<FilterKind, FilterFault>(FilterKind::AddSlashes)) == (name == "addslashes"@ && !has_arg),
        (spec_filter_kind(name, has_arg, known) == Ok::<FilterKind, FilterFault>(FilterKind::Capfirst)) == (name == "capfirst"@ && !has_arg),
        (spec_filter_kind(name, has_arg, known) == Ok::<FilterKind, FilterFault>(FilterKind::Center)) == (name == "center"@ && has_arg),
        (spec_filter_kind(name, has_arg, known) == Ok::<FilterKind, FilterFault>(FilterKind::Default)) == (name == "default"@ && has_arg),
        (spec_filter_kind(name, has_arg, known) == Ok::<FilterKind, FilterFault>(FilterKind::Escape)) == (name == "escape"@ && !has_arg),
        (spec_filter_kind(name, has_arg, known) == Ok::<FilterKind, FilterFault>(FilterKind::Lower)) == (name == "lower"@ && !has_arg),
        (spec_filter_kind(name, has_arg, known) == Ok::<FilterKind, FilterFault>(FilterKind::Safe)) == (name == "safe"@ && !has_arg),
        (spec_filter_kind(name, has_arg, known) == Ok::<FilterKind, FilterFault>(FilterKind::Slugify)) == (name == "slugify"@ && !has_arg),
        (spec_filter_kind(name, has_arg, known) == Ok::<FilterKind, FilterFault>(FilterKind::Upper)) == (name == "upper"@ && !has_arg),
        (spec_filter_kind(name, has_arg, known) == Ok::<FilterKind, FilterFault>(FilterKind::YesNo)) == (name == "yesno"@),
        (spec_filter_kind(name, has_arg, known) == Ok::<FilterKind, FilterFault>(FilterKind::External)) == (!(name == "add"@ || name == "addslashes"@ || name == "capfirst"@ || name == "center"@ || name == "default"@ || name == "escape"@ || name == "lower"@ || name == "safe"@ || name == "slugify"@ || name == "upper"@ || name == "yesno"@) && known),
        (spec_filter_kind(name, has_arg, known) == Err::<FilterKind, FilterFault>(FilterFault::MissingArgument)) == (!has_arg && (name == "add"@ || name == "center"@ || name == "default"@)),
        (spec_filter_kind(name, has_arg, known) == Err::<FilterKind, FilterFault>(FilterFault::UnexpectedArgument)) == (has_arg && (name == "addslashes"@ || name == "capfirst"@ || name == "escape"@ || name == "lower"@ || name == "safe"@ || name == "slugify"@ || name == "upper"@)),
        (spec_filter_kind(name, has_arg, known) == Err::<FilterKind, FilterFault>(FilterFault::InvalidFilter)) == (!(name == "add"@ || name == "addslashes"@ || name == "capfirst"@ || name == "center"@ || name == "default"@ || name == "escape"@ || name == "lower"@ || name == "safe"@ || name == "slugify"@ || name == "upper"@ || name == "yesno"@) && !known),
{
    reveal_strlit("add");
    reveal_strlit("addslashes");
    reveal_strlit("capfirst");
    reveal_strlit("center");
    reveal_strlit("default");
    reveal_strlit("escape");
    reveal_strlit("lower");
    reveal_strlit("safe");
    reveal_strlit("slugify");
    reveal_strlit("upper");
    reveal_strlit("yesno");
    assert("add"@.len() != "addslashes"@.len());
    assert("add"@.len() != "capfirst"@.len());
    assert("add"@.len() != "center"@.len());
    assert("add"@.len() != "default"@.len());
    assert("add"@.len() != "escape"@.len());
    assert("add"@.len() != "lower"@.len());
    assert("add"@.len() != "safe"@.len());
    assert("add"@.len() != "slugify"@.len());
    assert("add"@.len() != "upper"@.len());
    assert("add"@.len() != "yesno"@.len());
    assert("addslashes"@.len() != "capfirst"@.len());
    assert("addslashes"@.len() != "center"@.len());
    assert("addslashes"@.len() != "default"@.len());
    assert("addslashes"@.len() != "escape"@.len());
    assert("addslashes"@.len() != "lower"@.len());
    assert("addslashes"@.len() != "safe"@.len());
    assert("addslashes"@.len() != "slugify"@.len());
    assert("addslashes"@.len() != "upper"@.len());
    assert("addslashes"@.len() != "yesno"@.len());
    assert("capfirst"@.len() != "center"@.len());
    assert("capfirst"@.len() != "default"@.len());
    assert("capfirst"@.len() != "escape"@.len());
    assert("capfirst"@.len() != "lower"@.len());
    assert("capfirst"@.len() != "safe"@.len());
    assert("capfirst"@.len() != "slugify"@.len());
    assert("capfirst"@.len() != "upper"@.len());
    assert("capfirst"@.len() != "yesno"@.len());
    assert("center"@.len() != "default"@.len());
    assert("center"@[0] != "escape"@[0]);
    assert("center"@.len() != "lower"@.len());
    assert("center"@.len() != "safe"@.len());
    assert("center"@.len() != "slugify"@.len());
    assert("center"@.len() != "upper"@.len());
    assert("center"@.len() != "yesno"@.len());
    assert("default"@.len() != "escape"@.len());
    assert("default"@.len() != "lower"@.len());
    assert("default"@.len() != "safe"@.len());
    assert("default"@[0] != "slugify"@[0]);
    assert("default"@.len() != "upper"@.len());
    assert("default"@.len() != "yesno"@.len());
    assert("escape"@.len() != "lower"@.len());
    assert("escape"@.len() != "safe"@.len());
    assert("escape"@.len() != "slugify"@.len());
    assert("escape"@.len() != "upper"@.len());
    assert("escape"@.len() != "yesno"@.len());
    assert("lower"@.len() != "safe"@.len());
    assert("lower"@.len() != "slugify"@.len());
    assert("lower"@[0] != "upper"@[0]);
    assert("lower"@[0] != "yesno"@[0]);
    assert("safe"@.len() != "slugify"@.len());
    assert("safe"@.len() != "upper"@.len());
    assert("safe"@.len() != "yesno"@.len());
    assert("slugify"@.len() != "upper"@.len());
    assert("slugify"@.len() != "yesno"@.len());
    assert("upper"@[0] != "yesno"@[0]);
}

/// Whether one of `names` reads `name`.
pub open spec fn names_contain(names: Seq<String>, name: Seq<char>) -> bool {
    exists|i: int| 0 <= i < names.len() && #[trigger] names[i]@ == name
}

fn contains_name(names: &Vec<String>, name: &str) -> (r: bool)
    ensures
        r == names_contain(names@, name@),
{
    let mut i: usize = 0;
    while i < names.len()
        invariant
            0 <= i <= names@.len(),
            forall|j: int| 0 <= j < i ==> #[trigger] names@[j]@ != name@,
        decreases names@.len() - i,
    {
        if str_eq(names[i].as_str(), name) {
            assert(names@[i as int]@ == name@);
            return true;
        }
        i = i + 1;
    }
    false
}

fn filter_fault(name: &str, fault: FilterFault, at: (usize, usize), right: Option<(usize, usize)>) -> (r:
    ParseError)
    requires
        fault == FilterFault::UnexpectedArgument ==> right is Some,
    ensures
        filter_error_matches(r, name@, fault, at, right),
{
    match fault {
        FilterFault::MissingArgument => ParseError::MissingArgument { at },
        FilterFault::UnexpectedArgument => ParseError::UnexpectedArgument {
            filter: name.to_string(),
            at: right.unwrap(),
        },
        FilterFault::InvalidFilter => ParseError::InvalidFilter { filter: name.to_string(), at },
    }
}

/// The fault that a filter error reports.
pub open spec fn fault_of(e: ParseError) -> FilterFault {
    match e {
        ParseError::MissingArgument { .. } => FilterFault::MissingArgument,
        ParseError::UnexpectedArgument { .. } => FilterFault::UnexpectedArgument,
        _ => FilterFault::InvalidFilter,
    }
}

/// `e` is the error for `fault` on the filter `name` at `at` with the argument at `right`: a
/// missing argument points at the filter, an unexpected one at the argument, and an unknown
/// filter at its name, which it holds.
pub open spec fn filter_error_matches(
    e: ParseError,
    name: Seq<char>,
    fault: FilterFault,
    at: (usize, usize),
    right: Option<(usize, usize)>,
) -> bool {
    match e {
        ParseError::MissingArgument { at: a } => fault == FilterFault::MissingArgument && a == at,
        ParseError::UnexpectedArgument { filter, at: a } => fault == FilterFault::UnexpectedArgument
            && filter@ == name && right == Some(a),
        ParseError::InvalidFilter { filter, at: a } => fault == FilterFault::InvalidFilter
            && filter@ == name && a == at,
        _ => false,
    }
}

/// The filter named `name` at `at`, with its argument at `right` if it has one; `external`
/// holds the names of the filters of the loaded libraries.
pub fn filter_kind(
    name: &str,
    at: (usize, usize),
    right: Option<(usize, usize)>,
    external: &Vec<String>,
) -> (r: Result<FilterKind, ParseError>)
    ensures
        r matches Ok(k) ==> spec_filter_kind(name@, right is Some, names_contain(external@, name@))
            == Ok::<FilterKind, FilterFault>(k),
        r matches Err(e) ==> spec_filter_kind(name@, right is Some, names_contain(external@, name@))
            == Err::<FilterKind, FilterFault>(fault_of(e)) && filter_error_matches(
            e,
            name@,
            fault_of(e),
            at,
            right,
        ),
{
    let has_arg = right.is_some();
    let kind = if str_eq(name, "add") {
        if has_arg { Ok(FilterKind::Add) } else { Err(FilterFault::MissingArgument) }
    } else if str_eq(name, "addslashes") {
        if has_arg { Err(FilterFault::UnexpectedArgument) } else { Ok(FilterKind::AddSlashes) }
    } else if str_eq(name, "capfirst") {
        if has_arg { Err(FilterFault::UnexpectedArgument) } else { Ok(FilterKind::Capfirst) }
    } else if str_eq(name, "center") {
        if has_arg { Ok(FilterKind::Center) } else { Err(FilterFault::MissingArgument) }
    } else if str_eq(name, "default") {
        if has_arg { Ok(FilterKind::Default) } else { Err(FilterFault::MissingArgument) }
    } else if str_eq(name, "escape") {
        if has_arg { Err(FilterFault::UnexpectedArgument) } else { Ok(FilterKind::Escape) }
    } else if str_eq(name, "lower") {
        if has_arg { Err(FilterFault::UnexpectedArgument) } else { Ok(FilterKind::Lower) }
    } else if str_eq(name, "safe") {
        if has_arg { Err(FilterFault::UnexpectedArgument) } else { Ok(FilterKind::Safe) }
    } else if str_eq(name, "slugify") {
        if has_arg { Err(FilterFault::UnexpectedArgument) } else { Ok(FilterKind::Slugify) }
    } else if str_eq(name, "upper") {
        if has_arg { Err(FilterFault::UnexpectedArgument) } else { Ok(FilterKind::Upper) }
    } else if str_eq(name, "yesno") {
        Ok(FilterKind::YesNo)
    } else if contains_name(external, name) {
        Ok(FilterKind::External)
    } else {
        Err(FilterFault::InvalidFilter)
    };
    assert(kind == spec_filter_kind(name@, has_arg, names_contain(external@, name@)));
    match kind {
        Ok(k) => Ok(k),
        Err(fault) => Err(filter_fault(name, fault, at, right)),
    }
}

/// The parameters of a library's block tag after those that the tag is called with: `content`,
/// and `context` before it when the tag takes the context. `None` when they are missing.
pub open spec fn spec_block_params(params: Seq<String>, takes_context: bool) -> Option<Seq<String>> {
    if takes_context {
        if params.len() >= 2 && params[0]@ == "context"@ && params[1]@ == "content"@ {
            Some(params.skip(2))
        } else {
            None
        }
    } else if params.len() >= 1 && params[0]@ == "content"@ {
        Some(params.skip(1))
    } else {
        None
    }
}

/// Checks the parameters of the function of a library's block tag named `name`, loaded at `at`:
/// it must take `content` first, after `context` when it takes the context. Gives the other
/// parameters.
pub fn check_simple_block(params: Vec<String>, takes_context: bool, name: String, at: (usize, usize)) -> (r:
    Result<Vec<String>, ParseError>)
    ensures
        r is Ok <==> spec_block_params(params@, takes_context) is Some,
        r matches Ok(rest) ==> Some(rest@) == spec_block_params(params@, takes_context),
        r matches Err(e) ==> e == if takes_context {
            ParseError::RequiresContextAndContent { name, at }
        } else {
            ParseError::RequiresContent { name, at }
        },
{
    let mut params = params;
    let ghost all = params@;
    if takes_context {
        if params.len() >= 2 && str_eq(params[0].as_str(), "context") && str_eq(
            params[1].as_str(),
            "content",
        ) {
            let _ = params.remove(0);
            let _ = params.remove(0);
            assert(params@ =~= all.skip(2));
            Ok(params)
        } else {
            Err(ParseError::RequiresContextAndContent { name, at })
        }
    } else {
        if params.len() >= 1 && str_eq(params[0].as_str(), "content") {
            let _ = params.remove(0);
            assert(params@ =~= all.skip(1));
            Ok(params)
        } else {
            Err(ParseError::RequiresContent { name, at })
        }
    }
}

/// The parameters of a library's tag after `context`, when the tag takes the context; all of
/// them otherwise. `None` when `context` is missing.
pub open spec fn spec_simple_params(params: Seq<String>, takes_context: bool) -> Option<Seq<String>> {
    if !takes_context {
        Some(params)
    } else if params.len() >= 1 && params[0]@ == "context"@ {
        Some(params.skip(1))
    } else {
        None
    }
}

/// Checks the parameters of the function of a library's tag named `name`, loaded at `at`: when
/// it takes the context, `context` must come first. Gives the other parameters.
pub fn check_simple_tag(params: Vec<String>, takes_context: bool, name: String, at: (usize, usize)) -> (r:
    Result<Vec<String>, ParseError>)
    ensures
        r is Ok <==> spec_simple_params(params@, takes_context) is Some,
        r matches Ok(rest) ==> Some(rest@) == spec_simple_params(params@, takes_context),
        r matches Err(e) ==> e == (ParseError::RequiresContext { name, at }),
{
    let mut params = params;
    let ghost all = params@;
    if !takes_context {
        Ok(params)
    } else if params.len() >= 1 && str_eq(params[0].as_str(), "context") {
        let _ = params.remove(0);
        assert(params@ =~= all.skip(1));
        Ok(params)
    } else {
        Err(ParseError::RequiresContext { name, at })
    }
}

/// `text` without a leading `-` (which is not followed by `+`).
pub open spec fn minus_stripped(text: Seq<char>) -> Seq<char> {
    if is_minus(text) {
        text.skip(1)
    } else {
        text
    }
}

/// Whether `text` starts with a `-` that `num-bigint` takes as a sign.
pub open spec fn is_minus(text: Seq<char>) -> bool {
    text.len() > 0 && text[0] == '-' && !(text.len() > 1 && text[1] == '+')
}

/// The digits part of an integer literal: after a sign `-`, then after a sign `+`, each taken
/// only when the same sign does not follow it.
pub open spec fn bigint_body(text: Seq<char>) -> Seq<char> {
    let r = minus_stripped(text);
    if r.len() > 0 && r[0] == '+' && !(r.len() > 1 && r[1] == '+') {
        r.skip(1)
    } else {
        r
    }
}

/// Whether `num-bigint` reads `text` as a base-10 integer: an optional sign, then a digit, then
/// digits and `_`.
pub open spec fn is_bigint_text(text: Seq<char>) -> bool {
    let b = bigint_body(text);
    &&& b.len() > 0
    &&& b[0] != '_'
    &&& forall|i: int| 0 <= i < b.len() ==> ('0' <= #[trigger] b[i] <= '9' || b[i] == '_')
}

/// The value of decimal digits, `_` skipped.
pub open spec fn digits_value(b: Seq<char>) -> nat
    decreases b.len(),
{
    if b.len() == 0 {
        0
    } else if b.last() == '_' {
        digits_value(b.drop_last())
    } else {
        digits_value(b.drop_last()) * 10 + ((b.last() as nat) - ('0' as nat)) as nat
    }
}

/// The decimal digits of `n`, most significant first, without leading zeros.
pub open spec fn decimal_digits(n: nat) -> Seq<u8>
    decreases n,
{
    if n < 10 {
        seq![n as u8]
    } else {
        decimal_digits(n / 10).push((n % 10) as u8)
    }
}

/// Calls `num_bigint::BigInt`'s `from_str` (base 10) and then `to_radix_be(10)`. By the crate's
/// source it accepts exactly `is_bigint_text`, and the integer it gives has the value of the
/// digits and is negative exactly when a `-` was taken and the value is not zero; its digits
/// come out most significant first without leading zeros.
#[verifier::external_body]
fn parse_bigint(text: &str) -> (r: Option<(bool, Vec<u8>)>)
    ensures
        r is Some <==> is_bigint_text(text@),
        r matches Some((negative, digits)) ==> digits@ == decimal_digits(
            digits_value(bigint_body(text@)),
        ) && negative == (is_minus(text@) && digits_value(bigint_body(text@)) > 0),
{
    match text.parse::<BigInt>() {
        Ok(n) => {
            let (sign, digits) = n.to_radix_be(10);
            match sign {
                Sign::Minus => Some((true, digits)),
                Sign::NoSign => Some((false, digits)),
                Sign::Plus => Some((false, digits)),
            }
        },
        Err(_) => None,
    }
}

/// The integer that the number literal `content` holds, as its sign (`true` when negative) and
/// its decimal digits; `None` when it is no integer (a float, or no number at all).
pub fn parse_numeric_int(content: &str) -> (r: Option<(bool, Vec<u8>)>)
    ensures
        r is Some <==> is_bigint_text(content@),
        r matches Some((negative, digits)) ==> digits@ == decimal_digits(
            digits_value(bigint_body(content@)),
        ) && negative == (is_minus(content@) && digits_value(bigint_body(content@)) > 0),
{
    parse_bigint(content)
}

/// Whether the number literal `text` reads as a number: an integer, or else a float.
pub open spec fn is_number_text(text: Seq<char>) -> bool {
    is_bigint_text(text) || is_float_text(text)
}

/// Whether the number literal `content` reads as a number (an integer, or else a float); where
/// it does not, the parser rejects it as an invalid number.
pub fn number_text_ok(content: &str) -> (r: bool)
    ensures
        r == is_number_text(content@),
{
    parse_numeric_int(content).is_some() || float_text_ok(content)
}

/// A number literal of digits with one point among them (and at least one digit) is a number.
pub proof fn lemma_decimal_is_number(text: Seq<char>, i: int)
    requires
        0 <= i < text.len(),
        text.len() > 1,
        text[i] == '.',
        forall|k: int| 0 <= k < text.len() && k != i ==> is_digit(#[trigger] text[k]),
    ensures
        is_number_text(text),
{
    assert(unsigned(text) == text);
    assert(text[i] == '.');
    assert(digits(text.take(i))) by {
        assert forall|k: int| 0 <= k < i implies is_digit(#[trigger] text.take(i)[k]) by {
            assert(text.take(i)[k] == text[k]);
        }
    }
    assert(digits(text.skip(i + 1))) by {
        assert forall|k: int| 0 <= k < text.len() - i - 1 implies is_digit(
            #[trigger] text.skip(i + 1)[k],
        ) by {
            assert(text.skip(i + 1)[k] == text[i + 1 + k]);
        }
    }
    assert(is_decimal(text));
}

/// A number literal of digits and points with two points or more is no number.
pub proof fn lemma_two_points_no_number(text: Seq<char>, i: int, j: int)
    requires
        0 <= i < j < text.len(),
        text[i] == '.',
        text[j] == '.',
        forall|k: int| 0 <= k < text.len() ==> is_digit(#[trigger] text[k]) || text[k] == '.',
    ensures
        !is_number_text(text),
{
    reveal_strlit("inf");
    reveal_strlit("INF");
    reveal_strlit("infinity");
    reveal_strlit("INFINITY");
    reveal_strlit("nan");
    reveal_strlit("NAN");
    assert(is_digit(text[0]) || text[0] == '.');
    assert(unsigned(text) == text);
    let b = bigint_body(text);
    assert(b == text);
    assert(!('0' <= b[i] <= '9' || b[i] == '_'));
    assert(!digits(text)) by {
        assert(!is_digit(text[i]));
    }
    assert forall|d: int|
        0 <= d < text.len() && #[trigger] text[d] == '.' implies !(digits(text.take(d)) && digits(
        text.skip(d + 1),
    )) by {
        if d <= i {
            if d == i {
                assert(text.skip(d + 1)[j - d - 1] == text[j]);
            } else {
                assert(text.skip(d + 1)[i - d - 1] == text[i]);
            }
            assert(!is_digit(text[j]));
        } else {
            assert(text.take(d)[i] == text[i]);
        }
    }
    assert forall|k: int| 0 <= k < text.len() implies !(#[trigger] text[k] == 'e' || text[k] == 'E') by {
        assert(is_digit(text[k]) || text[k] == '.');
    }
    assert(!spells(text, "inf"@, "INF"@) && !spells(text, "infinity"@, "INFINITY"@) && !spells(
        text,
        "nan"@,
        "NAN"@,
    )) by {
        if text.len() > 0 {
            assert(is_digit(text[0]) || text[0] == '.');
        }
    }
}

/// The arguments of a `{% url %}` tag, by their tokens: the view's name, the positional and the
/// keyword arguments, and the variable after `as` that the URL is stored in, if any.
#[derive(Debug, PartialEq, Eq)]
pub struct UrlHead {
    pub view_name: UrlToken,
    pub args: Vec<UrlToken>,
    pub kwargs: Vec<UrlToken>,
    pub variable: Option<(usize, usize)>,
}

/// The first error among `items`, if any.
pub open spec fn first_url_error(items: Seq<Result<UrlToken, UrlLexerError>>) -> Option<UrlLexerError>
    decreases items.len(),
{
    if items.len() == 0 {
        None
    } else {
        match items[0] {
            Err(e) => Some(e),
            Ok(_) => first_url_error(items.drop_first()),
        }
    }
}

/// The tokens of `items`, which hold no error.
pub open spec fn url_tokens(items: Seq<Result<UrlToken, UrlLexerError>>) -> Seq<UrlToken> {
    items.map_values(|item: Result<UrlToken, UrlLexerError>| item->Ok_0)
}

/// Whether the last two of `toks` are the variables `as name`.
pub open spec fn ends_with_as(template: Seq<char>, toks: Seq<UrlToken>) -> bool {
    let n = toks.len();
    &&& n >= 2
    &&& toks[n - 1].token_type == UrlTokenType::Variable
    &&& toks[n - 2].token_type == UrlTokenType::Variable
    &&& span(template, toks[n - 2].at) == "as"@
}

/// Whether a token is a positional argument.
pub open spec fn positional() -> spec_fn(UrlToken) -> bool {
    |t: UrlToken| t.kwarg is None
}

/// Whether a token is a keyword argument.
pub open spec fn keyword() -> spec_fn(UrlToken) -> bool {
    |t: UrlToken| t.kwarg is Some
}

/// Whether the argument `t` is a number literal that reads as no number.
pub open spec fn bad_number(template: Seq<char>, t: UrlToken) -> bool {
    t.token_type == UrlTokenType::Numeric && !is_number_text(span(template, t.at))
}

/// The span of the first of `ts` that is a number literal reading as no number, if any.
pub open spec fn first_bad_number(template: Seq<char>, ts: Seq<UrlToken>) -> Option<(usize, usize)>
    decreases ts.len(),
{
    if ts.len() == 0 {
        None
    } else {
        match first_bad_number(template, ts.drop_last()) {
            Some(a) => Some(a),
            None => if bad_number(template, ts.last()) {
                Some(ts.last().at)
            } else {
                None
            },
        }
    }
}

proof fn lemma_first_bad_prefix(template: Seq<char>, s: Seq<UrlToken>, m: int)
    requires
        0 <= m <= s.len(),
        first_bad_number(template, s.take(m)) is Some,
    ensures
        first_bad_number(template, s) == first_bad_number(template, s.take(m)),
    decreases s.len(),
{
    if m == s.len() {
        assert(s.take(m) =~= s);
    } else {
        assert(s.drop_last().take(m) =~= s.take(m));
        lemma_first_bad_prefix(template, s.drop_last(), m);
    }
}

/// Whether `t` is a number literal that reads as no number.
fn is_bad_number(template: TemplateString<'_>, t: UrlToken) -> (r: bool)
    requires
        valid_span(template.0@, t.at),
    ensures
        r == bad_number(template.0@, t),
{
    t.token_type == UrlTokenType::Numeric && !number_text_ok(template.content(t.at))
}

/// What `url_head` gives for the tokens `items` of the `{% url %}` tag at `at`, in the order the
/// parser meets them: no arguments at all; an error for the view's name, or its number literal
/// that reads as no number; the first error after it; then, of the arguments without a trailing
/// `as name`, the first number literal that reads as no number; a mix of positional and keyword
/// arguments; or the view's name and the arguments.
pub open spec fn spec_url_head(template: Seq<char>, at: (usize, usize), items: Seq<Result<UrlToken, UrlLexerError>>) -> Result<
    (UrlToken, Seq<UrlToken>, Seq<UrlToken>, Option<(usize, usize)>),
    ParseError,
> {
    if items.len() == 0 {
        Err(ParseError::UrlTagNoArguments { at })
    } else if items[0] is Err {
        Err(ParseError::UrlError(items[0]->Err_0))
    } else if bad_number(template, items[0]->Ok_0) {
        Err(ParseError::InvalidNumber { at: items[0]->Ok_0.at })
    } else if first_url_error(items) is Some {
        Err(ParseError::UrlError(first_url_error(items)->0))
    } else {
        let toks = url_tokens(items);
        let rest = toks.skip(1);
        let (args, variable) = if ends_with_as(template, rest) {
            (rest.take(rest.len() - 2), Some(rest[rest.len() - 1].at))
        } else {
            (rest, None)
        };
        let positionals = args.filter(positional());
        let keywords = args.filter(keyword());
        if first_bad_number(template, args) is Some {
            Err(ParseError::InvalidNumber { at: first_bad_number(template, args)->0 })
        } else if positionals.len() > 0 && keywords.len() > 0 {
            Err(ParseError::MixedArgsKwargs { at })
        } else {
            Ok((toks[0], positionals, keywords, variable))
        }
    }
}

proof fn lemma_no_url_error(items: Seq<Result<UrlToken, UrlLexerError>>, k: int)
    requires
        first_url_error(items) is None,
        0 <= k < items.len(),
    ensures
        items[k] is Ok,
    decreases items.len(),
{
    if k > 0 {
        lemma_no_url_error(items.drop_first(), k - 1);
        assert(items.drop_first()[k - 1] == items[k]);
    }
}

proof fn lemma_filter_push<T>(s: Seq<T>, x: T, pred: spec_fn(T) -> bool)
    ensures
        s.push(x).filter(pred) == if pred(x) {
            s.filter(pred).push(x)
        } else {
            s.filter(pred)
        },
{
    reveal(Seq::filter);
    assert(s.push(x).drop_last() =~= s);
}

/// Reads the tokens `items` that the `url` lexer gives for the `{% url %}` tag at `at`.
#[verifier::loop_isolation(false)]
pub fn url_head(template: TemplateString<'_>, at: (usize, usize), items: Vec<Result<UrlToken, UrlLexerError>>) -> (r:
    Result<UrlHead, ParseError>)
    requires
        forall|i: int|
            0 <= i < items@.len() ==> (#[trigger] items@[i] matches Ok(t) ==> valid_span(
                template.0@,
                t.at,
            )),
    ensures
        match r {
            Ok(h) => spec_url_head(template.0@, at, items@) == Ok::<
                (UrlToken, Seq<UrlToken>, Seq<UrlToken>, Option<(usize, usize)>),
                ParseError,
            >((h.view_name, h.args@, h.kwargs@, h.variable)),
            Err(e) => spec_url_head(template.0@, at, items@) == Err::<
                (UrlToken, Seq<UrlToken>, Seq<UrlToken>, Option<(usize, usize)>),
                ParseError,
            >(e),
        },
{
    if items.len() == 0 {
        return Err(ParseError::UrlTagNoArguments { at });
    }
    match &items[0] {
        Err(e) => {
            return Err(ParseError::UrlError(e.clone()));
        },
        Ok(t) => {
            if is_bad_number(template, *t) {
                return Err(ParseError::InvalidNumber { at: t.at });
            }
        },
    }
    let mut toks: Vec<UrlToken> = Vec::new();
    let mut i: usize = 0;
    assert(items@.skip(0) =~= items@);
    assert(items@.take(0) =~= Seq::<Result<UrlToken, UrlLexerError>>::empty());
    while i < items.len()
        invariant
            0 <= i <= items@.len(),
            items@.len() > 0,
            items@[0] is Ok && !bad_number(template.0@, items@[0]->Ok_0),
            toks@ == url_tokens(items@.take(i as int)),
            first_url_error(items@) == first_url_error(items@.skip(i as int)),
        decreases items@.len() - i,
    {
        assert(items@.skip(i as int).drop_first() =~= items@.skip(i + 1));
        match items[i] {
            Err(e) => {
                return Err(ParseError::UrlError(e));
            },
            Ok(t) => {
                toks.push(t);
                assert(url_tokens(items@.take(i + 1)) =~= url_tokens(items@.take(i as int)).push(t));
            },
        }
        i = i + 1;
    }
    assert(items@.take(items@.len() as int) =~= items@);
    assert(items@.skip(items@.len() as int) =~= Seq::<Result<UrlToken, UrlLexerError>>::empty());
    let ghost rest = toks@.skip(1);
    let n = toks.len();
    let mut end = n;
    let mut variable: Option<(usize, usize)> = None;
    if n >= 3 && toks[n - 1].token_type == UrlTokenType::Variable && toks[n - 2].token_type
        == UrlTokenType::Variable {
        let prev = toks[n - 2].at;
        proof {
            lemma_no_url_error(items@, n - 2);
            assert(toks@[n - 2] == items@[n - 2]->Ok_0);
        }
        if str_eq(template.content(prev), "as") {
            end = n - 2;
            variable = Some(toks[n - 1].at);
        }
    }
    assert(ends_with_as(template.0@, rest) <==> end == n - 2 && n >= 3) by {
        if n >= 3 {
            assert(rest[rest.len() - 2] == toks@[n - 2]);
            assert(rest[rest.len() - 1] == toks@[n - 1]);
        }
    }
    let ghost args_seq = toks@.subrange(1, end as int);
    assert(args_seq == if ends_with_as(template.0@, rest) {
        rest.take(rest.len() - 2)
    } else {
        rest
    });
    let mut args: Vec<UrlToken> = Vec::new();
    let mut kwargs: Vec<UrlToken> = Vec::new();
    let mut j: usize = 1;
    while j < end
        invariant
            1 <= j <= end <= n,
            n == toks@.len(),
            n == items@.len(),
            toks@ == url_tokens(items@),
            forall|i: int| 0 <= i < items@.len() ==> (#[trigger] items@[i] matches Ok(t) ==> valid_span(
                template.0@,
                t.at,
            )),
            first_url_error(items@) is None,
            first_bad_number(template.0@, toks@.subrange(1, j as int)) is None,
            args@ == toks@.subrange(1, j as int).filter(positional()),
            kwargs@ == toks@.subrange(1, j as int).filter(keyword()),
        decreases end - j,
    {
        let t = toks[j];
        proof {
            assert(toks@.subrange(1, j + 1) =~= toks@.subrange(1, j as int).push(t));
            assert(toks@.subrange(1, j + 1).drop_last() =~= toks@.subrange(1, j as int));
            lemma_filter_push(toks@.subrange(1, j as int), t, positional());
            lemma_filter_push(toks@.subrange(1, j as int), t, keyword());
            lemma_no_url_error(items@, j as int);
            assert(toks@[j as int] == items@[j as int]->Ok_0);
        }
        if is_bad_number(template, t) {
            proof {
                lemma_first_bad_prefix(template.0@, toks@.subrange(1, end as int), j as int);
                assert(toks@.subrange(1, end as int).take(j as int) =~= toks@.subrange(1, j + 1));
                assert(first_bad_number(template.0@, toks@.subrange(1, j + 1)) == Some(t.at));
            }
            return Err(ParseError::InvalidNumber { at: t.at });
        }
        if t.kwarg.is_none() {
            args.push(t);
        } else {
            kwargs.push(t);
        }
        j = j + 1;
    }
    if args.len() > 0 && kwargs.len() > 0 {
        return Err(ParseError::MixedArgsKwargs { at });
    }
    Ok(UrlHead { view_name: toks[0], args, kwargs, variable })
}

/// Where the `url` lexer starts on the parts `parts` of a tag of `template`.
pub open spec fn url_start(template: Seq<char>, parts: TagParts) -> UrlModel {
    (span(template, parts.at), parts.at.0)
}

/// Whether `r` is what `spec_url_head` gives, `s`.
pub open spec fn url_head_is(
    r: Result<UrlHead, ParseError>,
    s: Result<(UrlToken, Seq<UrlToken>, Seq<UrlToken>, Option<(usize, usize)>), ParseError>,
) -> bool {
    match r {
        Ok(h) => s == Ok::<(UrlToken, Seq<UrlToken>, Seq<UrlToken>, Option<(usize, usize)>), ParseError>(
            (h.view_name, h.args@, h.kwargs@, h.variable),
        ),
        Err(e) => s == Err::<(UrlToken, Seq<UrlToken>, Seq<UrlToken>, Option<(usize, usize)>), ParseError>(e),
    }
}

/// Parses the `{% url %}` tag at `at`, whose parts are `parts`: lexes the parts and reads the
/// arguments as `url_head` does.
pub fn parse_url(template: TemplateString<'_>, at: (usize, usize), parts: TagParts) -> (r: Result<
    UrlHead,
    ParseError,
>)
    requires
        valid_span(template.0@, parts.at),
        parts.at.0 + parts.at.1 < usize::MAX,
        url_run(url_start(template.0@, parts)).1,
    ensures
        url_head_is(r, spec_url_head(template.0@, at, url_run(url_start(template.0@, parts)).0)),
{
    let lexer = UrlLexer::new(template, parts);
    let ghost m = lexer@;
    proof {
        lemma_url_lexer_wf(&lexer);
        lemma_span_blen(template.0@, parts.at);
        lemma_url_run_keywords(template.0@, m);
    }
    let items = lexer.collect();
    assert forall|i: int| 0 <= i < items@.len() implies (#[trigger] items@[i] matches Ok(t)
        ==> valid_span(template.0@, t.at)) by {
        if items@[i] is Ok {
            assert(url_run(m).0[i] is Ok);
        }
    }
    url_head(template, at, items)
}

/// The head of a `{% for %}` tag, by its tokens: the spans of the loop's names, the span they
/// cover together, the expression looped over, and whether the loop runs in reverse.
#[derive(Debug, PartialEq, Eq)]
pub struct ForHead {
    pub names: Vec<(usize, usize)>,
    pub names_at: (usize, usize),
    pub iterable: ForToken,
    pub reversed: bool,
}

/// The index of the first error among `items`, or their number when there is none.
pub open spec fn first_for_error(items: Seq<Result<ForToken, ForLexerError>>) -> int
    decreases items.len(),
{
    if items.len() == 0 {
        0
    } else if items[0] is Err {
        0
    } else {
        1 + first_for_error(items.drop_first())
    }
}

/// The tokens of `items`, which hold no error.
pub open spec fn for_tokens(items: Seq<Result<ForToken, ForLexerError>>) -> Seq<ForToken> {
    items.map_values(|item: Result<ForToken, ForLexerError>| item->Ok_0)
}

/// Whether a token is the expression looped over.
pub open spec fn is_operand(t: ForToken) -> bool {
    t.token_type == ForTokenType::Numeric || t.token_type == ForTokenType::Text || t.token_type
        == ForTokenType::TranslatedText || t.token_type == ForTokenType::Variable
}

/// The index of the first operand among `toks`, or their number when there is none.
pub open spec fn first_operand(toks: Seq<ForToken>) -> int
    decreases toks.len(),
{
    if toks.len() == 0 {
        0
    } else if is_operand(toks[0]) {
        0
    } else {
        1 + first_operand(toks.drop_first())
    }
}

/// Whether a token is one of the loop's names.
pub open spec fn loop_name() -> spec_fn(ForToken) -> bool {
    |t: ForToken| t.token_type == ForTokenType::VariableName
}

/// What `for_head` gives for the tokens `items` of the `{% for %}` tag at `at`: the first error;
/// a tag without names, or without an expression; a number to loop over, which is no iterable;
/// or the names' spans, the span they cover, the expression and whether `reversed` is there.
pub open spec fn spec_for_head(template: Seq<char>, at: (usize, usize), items: Seq<
    Result<ForToken, ForLexerError>,
>) -> Result<(Seq<(usize, usize)>, (usize, usize), ForToken, bool), ParseError> {
    let k = first_for_error(items);
    if k < items.len() {
        Err(for_error(template, items[k]->Err_0, for_tokens(items.take(k))))
    } else {
        let toks = for_tokens(items);
        let names = toks.filter(loop_name());
        let e = first_operand(toks);
        if names.len() == 0 {
            Err(ParseError::MissingVariableNames { at })
        } else if e == toks.len() {
            Err(ParseError::MissingExpression { at })
        } else if toks[e].token_type == ForTokenType::Numeric {
            Err(ParseError::NotIterable { at: toks[e].at })
        } else {
            let first = names[0].at;
            let last = names.last().at;
            Ok((
                names.map_values(|t: ForToken| t.at),
                (first.0, (last.0 + last.1 - first.0) as usize),
                toks[e],
                exists|j: int| 0 <= j < toks.len() && #[trigger] toks[j].token_type == ForTokenType::Reversed,
            ))
        }
    }
}

/// The error that the `for` lexer's error `e` becomes after the tokens `read`: where `in` is
/// missing and the last name read is itself `in`, a name is missing before it (after a comma,
/// the name before that comma is pointed at); any other error is the lexer's.
pub open spec fn for_error(template: Seq<char>, e: ForLexerError, read: Seq<ForToken>) -> ParseError {
    let names = read.filter(loop_name());
    if (e is MissingComma || e is MissingIn) && names.len() > 0 && span(template, names.last().at)
        == "in"@ {
        if e is MissingComma && names.len() >= 2 {
            ParseError::MissingVariable { at: names[names.len() - 2].at }
        } else {
            ParseError::MissingVariableBeforeIn { at: names.last().at }
        }
    } else {
        ParseError::ForError(e)
    }
}

/// Computes `for_error`.
fn for_error_of(template: TemplateString<'_>, e: ForLexerError, read: &Vec<ForToken>) -> (r: ParseError)
    requires
        forall|i: int|
            0 <= i < read@.len() ==> (#[trigger] read@[i]).token_type == ForTokenType::VariableName
                ==> valid_span(template.0@, read@[i].at),
    ensures
        r == for_error(template.0@, e, read@),
{
    let is_in_error = match &e {
        ForLexerError::MissingComma { .. } => true,
        ForLexerError::MissingIn { .. } => true,
        _ => false,
    };
    if !is_in_error {
        return ParseError::ForError(e);
    }
    let ghost ts = read@;
    let mut names: Vec<(usize, usize)> = Vec::new();
    let ghost mut name_toks: Seq<ForToken> = Seq::empty();
    let mut j: usize = 0;
    while j < read.len()
        invariant
            read@ == ts,
            0 <= j <= ts.len(),
            name_toks == ts.take(j as int).filter(loop_name()),
            names@.len() == name_toks.len(),
            forall|i: int| 0 <= i < names@.len() ==> (#[trigger] names@[i]) == name_toks[i].at,
            forall|i: int|
                0 <= i < name_toks.len() ==> (#[trigger] name_toks[i]).token_type
                    == ForTokenType::VariableName && valid_span(template.0@, name_toks[i].at),
            forall|i: int|
                0 <= i < ts.len() ==> (#[trigger] ts[i]).token_type == ForTokenType::VariableName
                    ==> valid_span(template.0@, ts[i].at),
        decreases ts.len() - j,
    {
        let t = read[j];
        proof {
            assert(ts.take(j + 1) =~= ts.take(j as int).push(t));
            lemma_filter_push(ts.take(j as int), t, loop_name());
        }
        if t.token_type == ForTokenType::VariableName {
            names.push(t.at);
            proof {
                name_toks = name_toks.push(t);
            }
        }
        j = j + 1;
    }
    assert(ts.take(ts.len() as int) =~= ts);
    let n = names.len();
    if n == 0 {
        return ParseError::ForError(e);
    }
    let last = names[n - 1];
    if !str_eq(template.content(last), "in") {
        return ParseError::ForError(e);
    }
    let comma = match &e {
        ForLexerError::MissingComma { .. } => true,
        _ => false,
    };
    if comma && n >= 2 {
        ParseError::MissingVariable { at: names[n - 2] }
    } else {
        ParseError::MissingVariableBeforeIn { at: last }
    }
}

proof fn lemma_first_for_error(items: Seq<Result<ForToken, ForLexerError>>, i: int)
    requires
        0 <= i <= items.len(),
        forall|j: int| 0 <= j < i ==> #[trigger] items[j] is Ok,
        i < items.len() ==> items[i] is Err,
    ensures
        first_for_error(items) == i,
    decreases items.len(),
{
    if items.len() > 0 && i > 0 {
        assert forall|j: int| 0 <= j < i - 1 implies #[trigger] items.drop_first()[j] is Ok by {
            assert(items.drop_first()[j] == items[j + 1]);
        }
        lemma_first_for_error(items.drop_first(), i - 1);
    }
}

proof fn lemma_first_for_error_le(items: Seq<Result<ForToken, ForLexerError>>)
    ensures
        0 <= first_for_error(items) <= items.len(),
    decreases items.len(),
{
    if items.len() > 0 && items[0] is Ok {
        lemma_first_for_error_le(items.drop_first());
    }
}

proof fn lemma_no_for_error_before(items: Seq<Result<ForToken, ForLexerError>>, k: int)
    requires
        0 <= k < first_for_error(items),
    ensures
        items[k] is Ok,
    decreases items.len(),
{
    lemma_first_for_error_le(items);
    if items.len() > 0 && items[0] is Ok && k > 0 {
        lemma_first_for_error_le(items.drop_first());
        lemma_no_for_error_before(items.drop_first(), k - 1);
        assert(items.drop_first()[k - 1] == items[k]);
    }
}

proof fn lemma_no_for_error(items: Seq<Result<ForToken, ForLexerError>>, k: int)
    requires
        first_for_error(items) == items.len(),
        0 <= k < items.len(),
    ensures
        items[k] is Ok,
    decreases items.len(),
{
    if k > 0 {
        lemma_no_for_error(items.drop_first(), k - 1);
        assert(items.drop_first()[k - 1] == items[k]);
    }
}

proof fn lemma_first_operand(toks: Seq<ForToken>, i: int)
    requires
        0 <= i <= toks.len(),
        forall|j: int| 0 <= j < i ==> !is_operand(#[trigger] toks[j]),
        i < toks.len() ==> is_operand(toks[i]),
    ensures
        first_operand(toks) == i,
    decreases toks.len(),
{
    if toks.len() > 0 && i > 0 {
        assert forall|j: int| 0 <= j < i - 1 implies !is_operand(#[trigger] toks.drop_first()[j]) by {
            assert(toks.drop_first()[j] == toks[j + 1]);
        }
        lemma_first_operand(toks.drop_first(), i - 1);
    }
}

/// The first error among `items`, or all their tokens when there is none.
#[verifier::loop_isolation(false)]
fn for_tokens_or_error(items: Vec<Result<ForToken, ForLexerError>>) -> (r: Result<
    Vec<ForToken>,
    (ForLexerError, Vec<ForToken>),
>)
    ensures
        r matches Err((e, read)) ==> first_for_error(items@) < items@.len() && e == items@[first_for_error(
            items@,
        )]->Err_0 && read@ == for_tokens(items@.take(first_for_error(items@))),
        r matches Ok(ts) ==> first_for_error(items@) == items@.len() && ts@ == for_tokens(items@),
{
    let ghost all = items@;
    let mut list = items;
    let mut toks: Vec<ForToken> = Vec::new();
    let mut i: usize = 0;
    while i < list.len()
        invariant
            list@ == all,
            0 <= i <= all.len(),
            forall|j: int| 0 <= j < i ==> #[trigger] all[j] is Ok,
            toks@ == for_tokens(all.take(i as int)),
        decreases all.len() - i,
    {
        if list[i].is_err() {
            proof {
                lemma_first_for_error(all, i as int);
            }
            let item = list.remove(i);
            match item {
                Err(e) => {
                    return Err((e, toks));
                },
                Ok(_) => {
                    return Ok(toks);
                },
            }
        }
        let t = match &list[i] {
            Ok(t) => *t,
            Err(_) => {
                return Ok(toks);
            },
        };
        toks.push(t);
        assert(for_tokens(all.take(i + 1)) =~= for_tokens(all.take(i as int)).push(t));
        i = i + 1;
    }
    proof {
        lemma_first_for_error(all, all.len() as int);
        assert(all.take(all.len() as int) =~= all);
    }
    Ok(toks)
}

/// Reads the tokens `items` that the `for` lexer gives for the `{% for %}` tag at `at`.
pub fn for_head(template: TemplateString<'_>, at: (usize, usize), items: Vec<Result<ForToken, ForLexerError>>) -> (r:
    Result<ForHead, ParseError>)
    requires
        forall|i: int|
            0 <= i < items@.len() ==> (#[trigger] items@[i] matches Ok(t) ==> (t.token_type
                == ForTokenType::VariableName ==> valid_span(template.0@, t.at))),
        forall|i: int|
            0 <= i < items@.len() ==> (#[trigger] items@[i] matches Ok(t) ==> t.at.0 + t.at.1
                <= usize::MAX),
        forall|i: int, j: int|
            0 <= i < j < items@.len() ==> (#[trigger] items@[i] matches Ok(a) ==> (
            #[trigger] items@[j] matches Ok(b) ==> a.at.0 + a.at.1 <= b.at.0)),
    ensures
        match r {
            Ok(h) => spec_for_head(template.0@, at, items@) == Ok::<
                (Seq<(usize, usize)>, (usize, usize), ForToken, bool),
                ParseError,
            >((h.names@, h.names_at, h.iterable, h.reversed)),
            Err(e) => spec_for_head(template.0@, at, items@) == Err::<
                (Seq<(usize, usize)>, (usize, usize), ForToken, bool),
                ParseError,
            >(e),
        },
{
    let ghost all = items@;
    let toks = match for_tokens_or_error(items) {
        Ok(toks) => toks,
        Err((e, read)) => {
            proof {
                let k = first_for_error(all);
                lemma_first_for_error_le(all);
                assert(read@.len() == k);
                assert forall|i: int|
                    0 <= i < read@.len() && (#[trigger] read@[i]).token_type == ForTokenType::VariableName
                        implies valid_span(template.0@, read@[i].at) by {
                    lemma_no_for_error_before(all, i);
                    assert(read@[i] == all.take(k)[i]->Ok_0);
                }
            }
            return Err(for_error_of(template, e, &read));
        },
    };
    let ghost ts = toks@;
    let mut names: Vec<(usize, usize)> = Vec::new();
    let ghost mut name_toks: Seq<ForToken> = Seq::empty();
    let mut operand: Option<usize> = None;
    let mut reversed = false;
    let mut first_idx: usize = 0;
    let mut last_idx: usize = 0;
    let mut j: usize = 0;
    while j < toks.len()
        invariant
            toks@ == ts,
            0 <= j <= ts.len(),
            name_toks == ts.take(j as int).filter(loop_name()),
            names@ == name_toks.map_values(|t: ForToken| t.at),
            operand matches Some(e) ==> e < j && first_operand(ts) == e,
            operand is None ==> forall|k: int| 0 <= k < j ==> !is_operand(#[trigger] ts[k]),
            reversed <==> exists|k: int| 0 <= k < j && #[trigger] ts[k].token_type == ForTokenType::Reversed,
            names@.len() > 0 ==> first_idx <= last_idx < j && names@[0] == ts[first_idx as int].at
                && names@.last() == ts[last_idx as int].at,
        decreases ts.len() - j,
    {
        let t = toks[j];
        proof {
            assert(ts.take(j + 1) =~= ts.take(j as int).push(t));
            lemma_filter_push(ts.take(j as int), t, loop_name());
        }
        if t.token_type == ForTokenType::VariableName {
            if names.len() == 0 {
                first_idx = j;
            }
            last_idx = j;
            names.push(t.at);
            proof {
                name_toks = name_toks.push(t);
            }
            assert(names@ =~= name_toks.map_values(|t: ForToken| t.at));
        }
        if operand.is_none() && (t.token_type == ForTokenType::Numeric || t.token_type
            == ForTokenType::Text || t.token_type == ForTokenType::TranslatedText || t.token_type
            == ForTokenType::Variable) {
            proof {
                lemma_first_operand(ts, j as int);
            }
            operand = Some(j);
        }
        if t.token_type == ForTokenType::Reversed {
            reversed = true;
        }
        j = j + 1;
    }
    assert(ts.take(ts.len() as int) =~= ts);
    if names.len() == 0 {
        return Err(ParseError::MissingVariableNames { at });
    }
    let e = match operand {
        Some(e) => e,
        None => {
            proof {
                lemma_first_operand(ts, ts.len() as int);
            }
            return Err(ParseError::MissingExpression { at });
        },
    };
    let iterable = toks[e];
    if iterable.token_type == ForTokenType::Numeric {
        return Err(ParseError::NotIterable { at: iterable.at });
    }
    let first = names[0];
    let last = names[names.len() - 1];
    proof {
        assert(name_toks[0].at == first);
        assert(name_toks.last().at == last);
        lemma_no_for_error(all, first_idx as int);
        lemma_no_for_error(all, last_idx as int);
        assert(ts[first_idx as int] == all[first_idx as int]->Ok_0);
        assert(ts[last_idx as int] == all[last_idx as int]->Ok_0);
        assert(all[last_idx as int] matches Ok(t) ==> t.at.0 + t.at.1 <= usize::MAX);
        if first_idx < last_idx {
            assert(all[first_idx as int] matches Ok(a) ==> (all[last_idx as int] matches Ok(b) ==> a.at.0
                + a.at.1 <= b.at.0));
        }
    }
    let names_at = (first.0, last.0 + last.1 - first.0);
    Ok(ForHead { names, names_at, iterable, reversed })
}

/// Where the `for` lexer starts on the parts `parts` of a tag of `template`.
pub open spec fn for_start(template: Seq<char>, parts: TagParts) -> ForModel {
    (span(template, parts.at), parts.at.0, State::VariableName, None)
}

/// Whether `r` is what `spec_for_head` gives, `s`.
pub open spec fn for_head_is(
    r: Result<ForHead, ParseError>,
    s: Result<(Seq<(usize, usize)>, (usize, usize), ForToken, bool), ParseError>,
) -> bool {
    match r {
        Ok(h) => s == Ok::<(Seq<(usize, usize)>, (usize, usize), ForToken, bool), ParseError>(
            (h.names@, h.names_at, h.iterable, h.reversed),
        ),
        Err(e) => s == Err::<(Seq<(usize, usize)>, (usize, usize), ForToken, bool), ParseError>(e),
    }
}

/// Whether `r` is what `for_head` gives for the tokens that the `for` lexer yields on `parts`
/// (equal to them up to the text of an error's name).
pub open spec fn for_parsed(
    template: Seq<char>,
    parts: TagParts,
    at: (usize, usize),
    r: Result<ForHead, ParseError>,
) -> bool {
    exists|items: Seq<Result<ForToken, ForLexerError>>|
        {
            &&& items.len() == for_run(for_start(template, parts)).0.len()
            &&& forall|i: int|
                0 <= i < items.len() ==> for_result_view(#[trigger] items[i]) == for_run(
                    for_start(template, parts),
                ).0[i]
            &&& for_head_is(r, spec_for_head(template, at, items))
        }
}

/// Parses the head of the `{% for %}` tag at `at`, whose parts are `parts`: lexes the parts and
/// reads the tokens as `for_head` does. The tokens read are those that the lexer yields (equal
/// up to the text of an error's name).
pub fn parse_for_loop(template: TemplateString<'_>, parts: TagParts, at: (usize, usize)) -> (r: Result<
    ForHead,
    ParseError,
>)
    requires
        valid_span(template.0@, parts.at),
        parts.at.0 + parts.at.1 < usize::MAX,
        for_run(for_start(template.0@, parts)).1,
    ensures
        for_parsed(template.0@, parts, at, r),
{
    let lexer = ForLexer::new(template, parts);
    proof {
        lemma_for_lexer_wf(&lexer);
        lemma_for_run_ordered(lexer@);
        lemma_span_blen(template.0@, parts.at);
        lemma_for_run_reads(template.0@, lexer@);
    }
    let ghost m = lexer@;
    let items = lexer.collect();
    let ghost run = for_run(m).0;
    assert forall|i: int| 0 <= i < items@.len() implies (#[trigger] items@[i] matches Ok(t)
        ==> t.at.0 + t.at.1 <= usize::MAX) by {
        assert(for_result_view(items@[i]) == run[i]);
    }
    assert forall|i: int, j: int| 0 <= i < j < items@.len() implies (#[trigger] items@[i] matches Ok(a)
        ==> (#[trigger] items@[j] matches Ok(b) ==> a.at.0 + a.at.1 <= b.at.0)) by {
        assert(for_result_view(items@[i]) == run[i]);
        assert(for_result_view(items@[j]) == run[j]);
    }
    assert forall|i: int| 0 <= i < items@.len() implies (#[trigger] items@[i] matches Ok(t) ==> (
        t.token_type == ForTokenType::VariableName ==> valid_span(template.0@, t.at))) by {
        assert(for_result_view(items@[i]) == run[i]);
    }
    let r = for_head(template, at, items);
    proof {
        let ghost s = items@;
        assert(for_head_is(r, spec_for_head(template.0@, at, s)));
        assert(for_parsed(template.0@, parts, at, r));
    }
    r
}

/// The signature of the function of a library's tag, as the parser needs it: its name, its
/// parameters (after `context`), how many of them have defaults, whether it takes `*args` and
/// `**kwargs`, and its keyword-only parameters with those that have defaults.
pub struct TagSignature {
    pub function_name: String,
    pub params: Vec<String>,
    pub defaults_count: usize,
    pub varargs: bool,
    pub varkw: bool,
    pub kwonly: Vec<String>,
    pub kwonly_defaults: Vec<String>,
}

/// The arguments of a library's tag bound to its function: the spans of the positional
/// arguments, the spans of each keyword and its value, and the variable after `as`, if any.
#[derive(Debug, PartialEq, Eq)]
pub struct BoundArgs {
    pub args: Vec<(usize, usize)>,
    pub kwargs: Vec<((usize, usize), (usize, usize))>,
    pub target_var: Option<(usize, usize)>,
}

/// Binding the arguments so far: positional ones, keyword ones, the keywords seen with the span
/// of their argument, and the span of the last argument.
pub struct BindState {
    pub args: Seq<(usize, usize)>,
    pub kwargs: Seq<((usize, usize), (usize, usize))>,
    pub seen: Seq<(Seq<char>, (usize, usize))>,
    pub prev_at: (usize, usize),
}

/// Why binding fails, with the text of names as characters.
pub enum BindFault {
    PositionalAfterKeyword { at: (usize, usize), after: (usize, usize) },
    TooManyPositionalArguments { at: (usize, usize) },
    UnexpectedKeywordArgument { at: (usize, usize) },
    DuplicateKeywordArgument { kwarg_name: Seq<char>, first_at: (usize, usize), second_at: (usize, usize) },
    MissingArguments { missing: Seq<char> },
    InvalidNumber { at: (usize, usize) },
}

/// The span of the argument of a keyword: the keyword, `=`, and its value.
pub open spec fn kwarg_span(name_at: (usize, usize), at: (usize, usize)) -> (usize, usize) {
    (name_at.0, (name_at.1 + 1 + at.1) as usize)
}

/// Where the keyword `name` was seen first, if it was.
pub open spec fn seen_at(seen: Seq<(Seq<char>, (usize, usize))>, name: Seq<char>) -> Option<(usize, usize)>
    decreases seen.len(),
{
    if seen.len() == 0 {
        None
    } else if seen[0].0 == name {
        Some(seen[0].1)
    } else {
        seen_at(seen.drop_first(), name)
    }
}

/// One more argument, at index `index` among the arguments.
pub open spec fn bind_step(template: Seq<char>, sig: TagSignature, s: BindState, t: UrlToken, index: int) -> Result<
    BindState,
    BindFault,
> {
    let at = t.at;
    match t.kwarg {
        None => if s.seen.len() > 0 {
            Err(BindFault::PositionalAfterKeyword { at, after: s.prev_at })
        } else if !sig.varargs && index == sig.params@.len() {
            Err(BindFault::TooManyPositionalArguments { at })
        } else if bad_number(template, t) {
            Err(BindFault::InvalidNumber { at })
        } else {
            Ok(BindState { args: s.args.push(at), prev_at: at, ..s })
        },
        Some(name_at) => {
            let k = kwarg_span(name_at, at);
            let name = span(template, name_at);
            if !sig.varkw && !names_contain(sig.params@, name) && !names_contain(sig.kwonly@, name) {
                Err(BindFault::UnexpectedKeywordArgument { at: k })
            } else if seen_at(s.seen, name) is Some {
                Err(
                    BindFault::DuplicateKeywordArgument {
                        kwarg_name: name,
                        first_at: seen_at(s.seen, name)->0,
                        second_at: k,
                    },
                )
            } else if bad_number(template, t) {
                Err(BindFault::InvalidNumber { at })
            } else {
                Ok(
                    BindState {
                        kwargs: s.kwargs.push((name_at, at)),
                        seen: s.seen.push((name, k)),
                        prev_at: k,
                        ..s
                    },
                )
            }
        },
    }
}

/// Binding the first `k` arguments of `toks`, from the start of the tag's arguments at `parts_at`.
pub open spec fn bind_state(
    template: Seq<char>,
    sig: TagSignature,
    parts_at: (usize, usize),
    toks: Seq<UrlToken>,
    k: int,
) -> Result<BindState, BindFault>
    decreases k,
{
    if k <= 0 {
        Ok(BindState { args: Seq::empty(), kwargs: Seq::empty(), seen: Seq::empty(), prev_at: parts_at })
    } else {
        match bind_state(template, sig, parts_at, toks, k - 1) {
            Err(f) => Err(f),
            Ok(s) => bind_step(template, sig, s, toks[k - 1], k - 1),
        }
    }
}

/// The parameters without a value: the positional ones past the arguments given and before
/// those with defaults, then the keyword-only ones without a default; neither given by keyword.
pub open spec fn missing_params(sig: TagSignature, s: BindState) -> Seq<Seq<char>> {
    let params = sig.params@.map_values(|p: String| p@);
    let n = params.len();
    let positional = if n > s.args.len() + sig.defaults_count {
        params.subrange(s.args.len() as int, n - sig.defaults_count)
    } else {
        Seq::empty()
    };
    let kwonly = sig.kwonly@.map_values(|p: String| p@);
    positional.filter(unseen(s.seen)) + kwonly.filter(unseen_without_default(s.seen, sig.kwonly_defaults@))
}

/// Whether a parameter was not given by keyword.
pub open spec fn unseen(seen: Seq<(Seq<char>, (usize, usize))>) -> spec_fn(Seq<char>) -> bool {
    |p: Seq<char>| seen_at(seen, p) is None
}

/// Whether a keyword-only parameter was not given and has no default.
pub open spec fn unseen_without_default(seen: Seq<(Seq<char>, (usize, usize))>, defaults: Seq<String>) -> spec_fn(
    Seq<char>,
) -> bool {
    |p: Seq<char>| seen_at(seen, p) is None && !names_contain(defaults, p)
}

/// Names in single quotes, separated by `, `.
pub open spec fn quoted_list(names: Seq<Seq<char>>) -> Seq<char>
    decreases names.len(),
{
    if names.len() == 0 {
        Seq::empty()
    } else if names.len() == 1 {
        seq!['\''] + names[0] + seq!['\'']
    } else {
        quoted_list(names.drop_last()) + seq![',', ' ', '\''] + names.last() + seq!['\'']
    }
}

/// Whether the arguments end with `as name`.
pub open spec fn ends_as(template: Seq<char>, toks: Seq<UrlToken>) -> bool {
    toks.len() >= 2 && span(template, toks[toks.len() - 2].at) == "as"@
}

/// What `bind_custom_tag_args` gives for the arguments `toks` of a library's tag.
pub open spec fn spec_bind(
    template: Seq<char>,
    sig: TagSignature,
    parts_at: (usize, usize),
    toks: Seq<UrlToken>,
) -> Result<(Seq<(usize, usize)>, Seq<((usize, usize), (usize, usize))>, Option<(usize, usize)>), BindFault> {
    let n = toks.len();
    let body = if ends_as(template, toks) { toks.take(n - 2) } else { toks };
    let target = if ends_as(template, toks) {
        Some(toks[n - 1].at)
    } else {
        None
    };
    match bind_state(template, sig, parts_at, body, body.len() as int) {
        Err(f) => Err(f),
        Ok(s) => {
            let m = missing_params(sig, s);
            if m.len() > 0 {
                Err(BindFault::MissingArguments { missing: quoted_list(m) })
            } else {
                Ok((s.args, s.kwargs, target))
            }
        },
    }
}

/// The fault that a binding error reports, and whether it names the tag's function.
pub open spec fn bind_fault(e: ParseError, sig: TagSignature, parts_at: (usize, usize)) -> Option<BindFault> {
    match e {
        ParseError::PositionalAfterKeyword { at, after } => Some(BindFault::PositionalAfterKeyword { at, after }),
        ParseError::TooManyPositionalArguments { at } => Some(BindFault::TooManyPositionalArguments { at }),
        ParseError::InvalidNumber { at } => Some(BindFault::InvalidNumber { at }),
        ParseError::UnexpectedKeywordArgument { at } => Some(BindFault::UnexpectedKeywordArgument { at }),
        ParseError::DuplicateKeywordArgument { tag_name, kwarg_name, first_at, second_at } => if tag_name@
            == sig.function_name@ {
            Some(BindFault::DuplicateKeywordArgument { kwarg_name: kwarg_name@, first_at, second_at })
        } else {
            None
        },
        ParseError::MissingArguments { tag_name, missing, at } => if tag_name@ == sig.function_name@
            && at == parts_at {
            Some(BindFault::MissingArguments { missing: missing@ })
        } else {
            None
        },
        _ => None,
    }
}

/// The keywords seen, as names and spans.
pub open spec fn seen_view(template: Seq<char>, seen: Seq<((usize, usize), (usize, usize))>) -> Seq<
    (Seq<char>, (usize, usize)),
> {
    seen.map_values(|e: ((usize, usize), (usize, usize))| (span(template, e.0), e.1))
}

fn find_seen(template: TemplateString<'_>, seen: &Vec<((usize, usize), (usize, usize))>, name: &str) -> (r: Option<
    (usize, usize),
>)
    requires
        forall|i: int| 0 <= i < seen@.len() ==> valid_span(template.0@, #[trigger] seen@[i].0),
    ensures
        r == seen_at(seen_view(template.0@, seen@), name@),
{
    let ghost v = seen_view(template.0@, seen@);
    let mut i: usize = 0;
    assert(v.skip(0) =~= v);
    while i < seen.len()
        invariant
            0 <= i <= seen@.len(),
            v == seen_view(template.0@, seen@),
            forall|j: int| 0 <= j < seen@.len() ==> valid_span(template.0@, #[trigger] seen@[j].0),
            seen_at(v, name@) == seen_at(v.skip(i as int), name@),
        decreases seen@.len() - i,
    {
        assert(v.skip(i as int).drop_first() =~= v.skip(i + 1));
        assert(v.skip(i as int)[0] == v[i as int]);
        let (name_at, at) = seen[i];
        if str_eq(template.content(name_at), name) {
            return Some(at);
        }
        i = i + 1;
    }
    assert(v.skip(i as int) =~= Seq::<(Seq<char>, (usize, usize))>::empty());
    None
}

/// Whether the spans of the arguments are spans of the template, and a keyword's argument span
/// fits in `usize`.
pub open spec fn tokens_in(template: Seq<char>, toks: Seq<UrlToken>) -> bool {
    forall|i: int|
        0 <= i < toks.len() ==> {
            let at = (#[trigger] toks[i]).at;
            &&& valid_span(template, at)
            &&& toks[i].kwarg matches Some(k) ==> valid_span(template, k) && k.1 + 1 + at.1 <= usize::MAX
        }
}

fn quote_names(names: &Vec<String>) -> (r: String)
    ensures
        r@ == quoted_list(names@.map_values(|p: String| p@)),
{
    let mut out = String::new();
    let ghost all = names@.map_values(|p: String| p@);
    let mut i: usize = 0;
    while i < names.len()
        invariant
            0 <= i <= names@.len(),
            all == names@.map_values(|p: String| p@),
            out@ == quoted_list(all.take(i as int)),
        decreases names@.len() - i,
    {
        let ghost prev = all.take(i as int);
        if i > 0 {
            out.append(", ");
        }
        out.append("'");
        out.append(names[i].as_str());
        out.append("'");
        proof {
            reveal_strlit(", ");
            reveal_strlit("'");
            let next = all.take(i + 1);
            assert(next.drop_last() =~= prev);
            assert(next.last() == names@[i as int]@);
            if i == 0 {
                assert(next.len() == 1);
                assert(out@ =~= quoted_list(next));
            } else {
                assert(out@ =~= quoted_list(next));
            }
        }
        i = i + 1;
    }
    assert(all.take(names@.len() as int) =~= all);
    out
}

fn missing_names(
    template: TemplateString<'_>,
    sig: &TagSignature,
    args_len: usize,
    seen: &Vec<((usize, usize), (usize, usize))>,
    Ghost(st): Ghost<BindState>,
) -> (r: Vec<String>)
    requires
        st.args.len() == args_len,
        st.seen == seen_view(template.0@, seen@),
        forall|i: int| 0 <= i < seen@.len() ==> valid_span(template.0@, #[trigger] seen@[i].0),
    ensures
        r@.map_values(|p: String| p@) == missing_params(*sig, st),
{
    let ghost params = sig.params@.map_values(|p: String| p@);
    let ghost kwonly = sig.kwonly@.map_values(|p: String| p@);
    let n = sig.params.len();
    let mut out: Vec<String> = Vec::new();
    let ghost positional: Seq<Seq<char>> = Seq::empty();
    if args_len < n && sig.defaults_count < n - args_len {
        let end = n - sig.defaults_count;
        let mut j: usize = args_len;
        proof {
            positional = params.subrange(args_len as int, end as int);
            assert(params.subrange(args_len as int, args_len as int) =~= Seq::<Seq<char>>::empty());
            reveal(Seq::filter);
        }
        while j < end
            invariant
                args_len <= j <= end <= n,
                n == sig.params@.len(),
                params == sig.params@.map_values(|p: String| p@),
                st.seen == seen_view(template.0@, seen@),
                forall|i: int| 0 <= i < seen@.len() ==> valid_span(template.0@, #[trigger] seen@[i].0),
                out@.map_values(|p: String| p@) == params.subrange(args_len as int, j as int).filter(
                    unseen(st.seen),
                ),
            decreases end - j,
        {
            let p = sig.params[j].clone();
            proof {
                assert(params.subrange(args_len as int, j + 1) =~= params.subrange(
                    args_len as int,
                    j as int,
                ).push(p@));
                lemma_filter_push(params.subrange(args_len as int, j as int), p@, unseen(st.seen));
            }
            if find_seen(template, seen, p.as_str()).is_none() {
                out.push(p);
                assert(out@.map_values(|p: String| p@) =~= params.subrange(args_len as int, j as int).filter(
                    unseen(st.seen),
                ).push(sig.params@[j as int]@));
            }
            j = j + 1;
        }
    } else {
        proof {
            reveal(Seq::filter);
        }
        assert(out@.map_values(|p: String| p@) =~= positional.filter(unseen(st.seen)));
    }
    let ghost pos_out = out@.map_values(|p: String| p@);
    let mut k: usize = 0;
    proof {
        reveal(Seq::filter);
        assert(kwonly.take(0) =~= Seq::<Seq<char>>::empty());
        assert(pos_out + kwonly.take(0).filter(unseen_without_default(st.seen, sig.kwonly_defaults@))
            =~= pos_out);
    }
    while k < sig.kwonly.len()
        invariant
            0 <= k <= sig.kwonly@.len(),
            kwonly == sig.kwonly@.map_values(|p: String| p@),
            st.seen == seen_view(template.0@, seen@),
            forall|i: int| 0 <= i < seen@.len() ==> valid_span(template.0@, #[trigger] seen@[i].0),
            out@.map_values(|p: String| p@) == pos_out + kwonly.take(k as int).filter(
                unseen_without_default(st.seen, sig.kwonly_defaults@),
            ),
        decreases sig.kwonly@.len() - k,
    {
        let p = sig.kwonly[k].clone();
        proof {
            assert(kwonly.take(k + 1) =~= kwonly.take(k as int).push(p@));
            lemma_filter_push(
                kwonly.take(k as int),
                p@,
                unseen_without_default(st.seen, sig.kwonly_defaults@),
            );
        }
        if find_seen(template, seen, p.as_str()).is_none() && !contains_name(
            &sig.kwonly_defaults,
            p.as_str(),
        ) {
            out.push(p);
            assert(out@.map_values(|p: String| p@) =~= (pos_out + kwonly.take(k as int).filter(
                unseen_without_default(st.seen, sig.kwonly_defaults@),
            )).push(sig.kwonly@[k as int]@));
        }
        k = k + 1;
    }
    assert(kwonly.take(sig.kwonly@.len() as int) =~= kwonly);
    out
}

proof fn lemma_bind_error_stays(
    template: Seq<char>,
    sig: TagSignature,
    parts_at: (usize, usize),
    toks: Seq<UrlToken>,
    i: int,
    k: int,
)
    requires
        0 <= i <= k,
        bind_state(template, sig, parts_at, toks, i) is Err,
    ensures
        bind_state(template, sig, parts_at, toks, k) == bind_state(template, sig, parts_at, toks, i),
    decreases k - i,
{
    if k > i {
        lemma_bind_error_stays(template, sig, parts_at, toks, i, k - 1);
    }
}

/// Binds the arguments `tokens` of a library's tag (as the `url` lexer reads them, without
/// error), whose arguments start at `parts_at`, to the parameters of its function: a trailing
/// `as name` names the variable to store the result in; positional arguments come first and are
/// not more than the parameters unless the function takes `*args`; keywords must be parameters
/// unless it takes `**kwargs`, and come once; a number literal must read as a number; every
/// parameter without a default must get a value.
pub fn bind_custom_tag_args(
    template: TemplateString<'_>,
    parts_at: (usize, usize),
    tokens: &Vec<UrlToken>,
    sig: &TagSignature,
) -> (r: Result<BoundArgs, ParseError>)
    requires
        tokens_in(template.0@, tokens@),
    ensures
        r matches Ok(b) ==> spec_bind(template.0@, *sig, parts_at, tokens@) == Ok::<
            (Seq<(usize, usize)>, Seq<((usize, usize), (usize, usize))>, Option<(usize, usize)>),
            BindFault,
        >((b.args@, b.kwargs@, b.target_var)),
        r matches Err(e) ==> (spec_bind(template.0@, *sig, parts_at, tokens@) matches Err(f)
            && bind_fault(e, *sig, parts_at) == Some(f)),
{
    let ghost t = template.0@;
    let n = tokens.len();
    let mut end = n;
    let mut target: Option<(usize, usize)> = None;
    if n >= 2 {
        let prev = tokens[n - 2].at;
        if str_eq(template.content(prev), "as") {
            end = n - 2;
            target = Some(tokens[n - 1].at);
        }
    }
    let ghost body = tokens@.take(end as int);
    assert(body == if ends_as(t, tokens@) { tokens@.take(n - 2) } else { tokens@ }) by {
        assert(tokens@.take(n as int) =~= tokens@);
    }
    let mut args: Vec<(usize, usize)> = Vec::new();
    let mut kwargs: Vec<((usize, usize), (usize, usize))> = Vec::new();
    let mut seen: Vec<((usize, usize), (usize, usize))> = Vec::new();
    let mut prev_at = parts_at;
    let mut i: usize = 0;
    assert(seen_view(t, seen@) =~= Seq::<(Seq<char>, (usize, usize))>::empty());
    while i < end
        invariant
            0 <= i <= end <= n,
            n == tokens@.len(),
            t == template.0@,
            body == tokens@.take(end as int),
            body == (if ends_as(t, tokens@) { tokens@.take(n - 2) } else { tokens@ }),
            body.len() == end,
            tokens_in(t, tokens@),
            bind_state(t, *sig, parts_at, body, i as int) == Ok::<BindState, BindFault>(
                BindState { args: args@, kwargs: kwargs@, seen: seen_view(t, seen@), prev_at },
            ),
            forall|j: int| 0 <= j < seen@.len() ==> valid_span(t, #[trigger] seen@[j].0),
        decreases end - i,
    {
        let tok = tokens[i];
        let ghost st = BindState { args: args@, kwargs: kwargs@, seen: seen_view(t, seen@), prev_at };
        proof {
            assert(body[i as int] == tok);
            assert(bind_state(t, *sig, parts_at, body, i + 1) == bind_step(t, *sig, st, tok, i as int));
        }
        let at = tok.at;
        proof {
            assert(valid_span(t, tokens@[i as int].at));
        }
        match tok.kwarg {
            None => {
                if seen.len() > 0 {
                    proof {
                        lemma_bind_error_stays(t, *sig, parts_at, body, i + 1, end as int);
                    }
                    return Err(ParseError::PositionalAfterKeyword { at, after: prev_at });
                }
                if !sig.varargs && i == sig.params.len() {
                    proof {
                        lemma_bind_error_stays(t, *sig, parts_at, body, i + 1, end as int);
                    }
                    return Err(ParseError::TooManyPositionalArguments { at });
                }
                if is_bad_number(template, tok) {
                    proof {
                        lemma_bind_error_stays(t, *sig, parts_at, body, i + 1, end as int);
                    }
                    return Err(ParseError::InvalidNumber { at });
                }
                args.push(at);
                prev_at = at;
            },
            Some(name_at) => {
                proof {
                    assert(tokens@[i as int].kwarg == Some(name_at));
                }
                let k = (name_at.0, name_at.1 + 1 + at.1);
                let name = template.content(name_at);
                if !sig.varkw && !contains_name(&sig.params, name) && !contains_name(&sig.kwonly, name) {
                    proof {
                        lemma_bind_error_stays(t, *sig, parts_at, body, i + 1, end as int);
                    }
                    return Err(ParseError::UnexpectedKeywordArgument { at: k });
                }
                match find_seen(template, &seen, name) {
                    Some(first) => {
                        proof {
                            lemma_bind_error_stays(t, *sig, parts_at, body, i + 1, end as int);
                        }
                        return Err(
                            ParseError::DuplicateKeywordArgument {
                                tag_name: sig.function_name.clone(),
                                kwarg_name: name.to_string(),
                                first_at: first,
                                second_at: k,
                            },
                        );
                    },
                    None => {},
                }
                if is_bad_number(template, tok) {
                    proof {
                        lemma_bind_error_stays(t, *sig, parts_at, body, i + 1, end as int);
                    }
                    return Err(ParseError::InvalidNumber { at });
                }
                kwargs.push((name_at, at));
                seen.push((name_at, k));
                prev_at = k;
                assert(seen_view(t, seen@) =~= st.seen.push((span(t, name_at), k)));
            },
        }
        i = i + 1;
    }
    let ghost st = BindState { args: args@, kwargs: kwargs@, seen: seen_view(t, seen@), prev_at };
    let missing = missing_names(template, sig, args.len(), &seen, Ghost(st));
    if missing.len() > 0 {
        let text = quote_names(&missing);
        return Err(
            ParseError::MissingArguments {
                tag_name: sig.function_name.clone(),
                missing: text,
                at: parts_at,
            },
        );
    }
    Ok(BoundArgs { args, kwargs, target_var: target })
}

/// The `.`-separated pieces of `cs`, empty ones included.
pub open spec fn dot_pieces(cs: Seq<char>) -> Seq<Seq<char>>
    decreases cs.len(),
{
    let k = index_of(cs, Class::Char('.'));
    proof {
        lemma_index_of(cs, Class::Char('.'));
    }
    if k < cs.len() {
        seq![cs.take(k)] + dot_pieces(cs.skip(k + 1))
    } else {
        seq![cs]
    }
}

/// There is always at least one piece.
proof fn lemma_dot_pieces_len(cs: Seq<char>)
    ensures
        dot_pieces(cs).len() >= 1,
    decreases cs.len(),
{
    let k = index_of(cs, Class::Char('.'));
    lemma_index_of(cs, Class::Char('.'));
    if k < cs.len() {
        lemma_dot_pieces_len(cs.skip(k + 1));
    }
}

/// The pieces of `s` between its dots, empty ones included.
fn split_dots(s: &str) -> (r: Vec<&str>)
    ensures
        r@.len() == dot_pieces(s@).len(),
        forall|i: int| 0 <= i < r@.len() ==> (#[trigger] r@[i])@ == dot_pieces(s@)[i],
{
    let ghost all = dot_pieces(s@);
    let mut out: Vec<&str> = Vec::new();
    let mut rest = s;
    loop
        invariant_except_break
            out@.len() + dot_pieces(rest@).len() == all.len(),
            forall|i: int|
                0 <= i < dot_pieces(rest@).len() ==> #[trigger] dot_pieces(rest@)[i] == all[out@.len()
                    + i],
        invariant
            forall|i: int| 0 <= i < out@.len() ==> (#[trigger] out@[i])@ == all[i],
        ensures
            out@.len() == all.len(),
            forall|i: int| 0 <= i < out@.len() ==> (#[trigger] out@[i])@ == all[i],
        decreases rest@.len(),
    {
        let ghost v = rest@;
        let ghost d = dot_pieces(v);
        let _ = byte_len(rest);
        proof {
            lemma_index_of(v, Class::Char('.'));
        }
        match find(rest, Class::Char('.')) {
            Some(index) => {
                let ghost k = index_of(v, Class::Char('.'));
                proof {
                    lemma_chars_in(v, k);
                    lemma_chars_in(v, k + 1);
                    lemma_blen_take_step(v, k);
                    lemma_blen_take_le(v, k + 1);
                }
                let head = split_bytes(rest, index).0;
                let tail = split_bytes(rest, index + 1).1;
                assert(d[0] == v.take(k));
                out.push(head);
                rest = tail;
                assert(d.len() == 1 + dot_pieces(rest@).len());
                assert forall|i: int| 0 <= i < dot_pieces(rest@).len() implies #[trigger] dot_pieces(
                    rest@,
                )[i] == all[out@.len() + i] by {
                    assert(dot_pieces(rest@)[i] == d[i + 1]);
                }
            },
            None => {
                assert(d == seq![v]);
                assert(d[0] == all[out@.len() as int]);
                out.push(rest);
                break;
            },
        }
    }
    out
}

/// What a variable that names the loop state reads: a counter, `first`, `last`, or the loop
/// object itself.
#[derive(Clone, Copy, Debug, PartialEq, Eq, Structural)]
pub enum ForVariableName {
    Counter,
    Counter0,
    RevCounter,
    RevCounter0,
    First,
    Last,
    Object,
}

/// A variable that reads the state of a `for` loop: what it reads, and how many loops out.
#[derive(Clone, Copy, Debug, PartialEq, Eq, Structural)]
pub struct ForVariable {
    pub variant: ForVariableName,
    pub parent_count: usize,
}

/// A variable of a template, or one that reads the state of an enclosing `for` loop.
#[derive(Clone, Copy, Debug, PartialEq, Eq)]
pub enum LoopVariable {
    Plain(Variable),
    Loop(ForVariable),
}

/// The loop state that the last piece of a `forloop.` variable names, if any.
pub open spec fn for_variable_name(w: Seq<char>) -> Option<ForVariableName> {
    if w == "counter"@ {
        Some(ForVariableName::Counter)
    } else if w == "counter0"@ {
        Some(ForVariableName::Counter0)
    } else if w == "revcounter"@ {
        Some(ForVariableName::RevCounter)
    } else if w == "revcounter0"@ {
        Some(ForVariableName::RevCounter0)
    } else if w == "first"@ {
        Some(ForVariableName::First)
    } else if w == "last"@ {
        Some(ForVariableName::Last)
    } else if w == "parentloop"@ {
        Some(ForVariableName::Object)
    } else {
        None
    }
}

/// Each name of the loop's state reads the state of that name, and `parentloop` the loop itself;
/// no other name reads any.
pub proof fn lemma_for_variable_names(w: Seq<char>)
    ensures
        (for_variable_name(w) == Some(ForVariableName::Counter)) == (w == "counter"@),
        (for_variable_name(w) == Some(ForVariableName::Counter0)) == (w == "counter0"@),
        (for_variable_name(w) == Some(ForVariableName::RevCounter)) == (w == "revcounter"@),
        (for_variable_name(w) == Some(ForVariableName::RevCounter0)) == (w == "revcounter0"@),
        (for_variable_name(w) == Some(ForVariableName::First)) == (w == "first"@),
        (for_variable_name(w) == Some(ForVariableName::Last)) == (w == "last"@),
        (for_variable_name(w) == Some(ForVariableName::Object)) == (w == "parentloop"@),
        (for_variable_name(w) is None) == !(w == "counter"@ || w == "counter0"@ || w == "revcounter"@ || w == "revcounter0"@ || w == "first"@ || w == "last"@ || w == "parentloop"@),
{
    reveal_strlit("counter");
    reveal_strlit("counter0");
    reveal_strlit("revcounter");
    reveal_strlit("revcounter0");
    reveal_strlit("first");
    reveal_strlit("last");
    reveal_strlit("parentloop");
    assert("counter"@.len() != "counter0"@.len());
    assert("counter"@.len() != "revcounter"@.len());
    assert("counter"@.len() != "revcounter0"@.len());
    assert("counter"@.len() != "first"@.len());
    assert("counter"@.len() != "last"@.len());
    assert("counter"@.len() != "parentloop"@.len());
    assert("counter0"@.len() != "revcounter"@.len());
    assert("counter0"@.len() != "revcounter0"@.len());
    assert("counter0"@.len() != "first"@.len());
    assert("counter0"@.len() != "last"@.len());
    assert("counter0"@.len() != "parentloop"@.len());
    assert("revcounter"@.len() != "revcounter0"@.len());
    assert("revcounter"@.len() != "first"@.len());
    assert("revcounter"@.len() != "last"@.len());
    assert("revcounter"@[0] != "parentloop"@[0]);
    assert("revcounter0"@.len() != "first"@.len());
    assert("revcounter0"@.len() != "last"@.len());
    assert("revcounter0"@.len() != "parentloop"@.len());
    assert("first"@.len() != "last"@.len());
    assert("first"@.len() != "parentloop"@.len());
    assert("last"@.len() != "parentloop"@.len());
}

/// What the variable with text `text` at `at` reads inside `depth` nested loops: outside any
/// loop, or unless it starts with `forloop`, it is a plain variable; `forloop` alone is the loop
/// object; otherwise its last piece names what it reads, the pieces between must all be
/// `parentloop`, and it may not reach out further than there are loops (pieces are trimmed).
pub open spec fn spec_for_variable(text: Seq<char>, at: (usize, usize), depth: usize) -> LoopVariable {
    let ps = dot_pieces(text);
    let plain = LoopVariable::Plain(Variable { at });
    if depth == 0 || trimmed(ps[0]) != "forloop"@ {
        plain
    } else if ps.len() == 1 {
        LoopVariable::Loop(ForVariable { variant: ForVariableName::Object, parent_count: 0 })
    } else {
        match for_variable_name(trimmed(ps.last())) {
            None => plain,
            Some(variant) => {
                let middle: int = ps.len() - 2;
                let count: int = if variant == ForVariableName::Object {
                    middle + 1
                } else {
                    middle
                };
                if exists|i: int| 1 <= i < ps.len() - 1 && trimmed(#[trigger] ps[i]) != "parentloop"@ {
                    plain
                } else if count > depth {
                    plain
                } else {
                    LoopVariable::Loop(ForVariable { variant, parent_count: count as usize })
                }
            },
        }
    }
}

/// The loop state named by `w`, if any.
fn for_variable_name_of(w: &str) -> (r: Option<ForVariableName>)
    ensures
        r == for_variable_name(w@),
{
    if str_eq(w, "counter") {
        Some(ForVariableName::Counter)
    } else if str_eq(w, "counter0") {
        Some(ForVariableName::Counter0)
    } else if str_eq(w, "revcounter") {
        Some(ForVariableName::RevCounter)
    } else if str_eq(w, "revcounter0") {
        Some(ForVariableName::RevCounter0)
    } else if str_eq(w, "first") {
        Some(ForVariableName::First)
    } else if str_eq(w, "last") {
        Some(ForVariableName::Last)
    } else if str_eq(w, "parentloop") {
        Some(ForVariableName::Object)
    } else {
        None
    }
}

/// Reads the variable of `template` at `at`, inside `forloop_depth` nested `for` loops, as a
/// plain variable or as one that reads the state of a loop.
#[verifier::loop_isolation(false)]
pub fn parse_for_variable(template: TemplateString<'_>, at: (usize, usize), forloop_depth: usize) -> (r:
    LoopVariable)
    requires
        valid_span(template.0@, at),
    ensures
        r == spec_for_variable(span(template.0@, at), at, forloop_depth),
{
    let plain = LoopVariable::Plain(Variable::new(at));
    let text = template.content(at);
    let pieces = split_dots(text);
    let ghost ps = dot_pieces(text@);
    proof {
        lemma_dot_pieces_len(text@);
    }
    if forloop_depth == 0 || !str_eq(trim(pieces[0]), "forloop") {
        return plain;
    }
    let n = pieces.len();
    if n == 1 {
        return LoopVariable::Loop(ForVariable { variant: ForVariableName::Object, parent_count: 0 });
    }
    let variant = match for_variable_name_of(trim(pieces[n - 1])) {
        Some(variant) => variant,
        None => {
            return plain;
        },
    };
    let mut i: usize = 1;
    while i < n - 1
        invariant
            1 <= i <= n - 1,
            n == pieces@.len(),
            n == ps.len(),
            forall|j: int| 0 <= j < n ==> (#[trigger] pieces@[j])@ == ps[j],
            forall|j: int| 1 <= j < i ==> trimmed(#[trigger] ps[j]) == "parentloop"@,
        decreases n - 1 - i,
    {
        if !str_eq(trim(pieces[i]), "parentloop") {
            assert(trimmed(ps[i as int]) != "parentloop"@);
            return plain;
        }
        i = i + 1;
    }
    let mut parent_count = n - 2;
    if variant == ForVariableName::Object {
        parent_count = parent_count + 1;
    }
    if parent_count > forloop_depth {
        plain
    } else {
        LoopVariable::Loop(ForVariable { variant, parent_count })
    }
}

/// A block tag read as far as it can be without the parser's state: the head of a `url` or a
/// `for` tag, the condition of an `if` tag, or the kind, name and arguments of any other.
#[derive(Debug, PartialEq, Eq)]
pub enum TagHead {
    Url(UrlHead),
    For(ForHead),
    If(IfCondition),
    Other(TagKind, TagToken, TagParts),
}

/// Whether the lexer of the tag at `at` runs over its arguments without cutting a character in
/// two (as it does on ASCII text), where the tag is a `url`, `for` or `if` tag.
pub open spec fn tag_lexable(template: Seq<char>, at: (usize, usize)) -> bool {
    match spec_tag_head(template, at) {
        Ok((kind, _name, parts)) => {
            &&& (kind == TagKind::Url || kind == TagKind::For || kind == TagKind::If) ==> parts.at.0
                + parts.at.1 < usize::MAX
            &&& kind == TagKind::Url ==> url_run(url_start(template, parts)).1
            &&& kind == TagKind::For ==> for_run(for_start(template, parts)).1
            &&& kind == TagKind::If ==> if_run(if_start(template, parts)).1
        },
        Err(_) => true,
    }
}

/// What `parse_tag` gives for the block tag at `at`: the error of its head; or, by its kind, the
/// head of a `url` or `for` tag, the condition of an `if` tag, or the kind, name and arguments.
pub open spec fn tag_parsed(template: Seq<char>, at: (usize, usize), r: Result<TagHead, ParseError>) -> bool {
    match spec_tag_head(template, at) {
        Err(e) => r == Err::<TagHead, ParseError>(e),
        Ok((kind, name, parts)) => if kind == TagKind::Url {
            let s = spec_url_head(template, at, url_run(url_start(template, parts)).0);
            match r {
                Ok(TagHead::Url(h)) => url_head_is(Ok(h), s),
                Ok(_) => false,
                Err(e) => url_head_is(Err(e), s),
            }
        } else if kind == TagKind::For {
            match r {
                Ok(TagHead::For(h)) => for_parsed(template, parts, at, Ok(h)),
                Ok(_) => false,
                Err(e) => for_parsed(template, parts, at, Err(e)),
            }
        } else if kind == TagKind::If {
            let s = spec_if_condition(classify(template, if_run(if_start(template, parts)).0, 0), at);
            match r {
                Ok(TagHead::If(c)) => s == Ok::<IfCondition, IfError>(c),
                Ok(_) => false,
                Err(e) => match s {
                    Ok(_) => false,
                    Err(IfError::InvalidNumber { at: n }) => e == ParseError::InvalidNumber { at: n },
                    Err(ie) => e == ParseError::IfError(ie),
                },
            }
        } else {
            r == Ok::<TagHead, ParseError>(TagHead::Other(kind, name, parts))
        },
    }
}

/// A tag's arguments taken from ASCII text are ASCII and, when there are any, start with no
/// whitespace.
proof fn lemma_trimmed_ascii(cs: Seq<char>)
    requires
        ascii(cs),
    ensures
        ascii(trimmed(cs)),
        trimmed(cs).len() > 0 ==> !white_space(trimmed(cs)[0]),
{
    let i = index_of(cs, Class::NotWhitespace);
    lemma_index_of(cs, Class::NotWhitespace);
    let t = trimmed_start(cs);
    lemma_trim_end_len(t);
    let r = trimmed(cs);
    assert forall|j: int| 0 <= j < r.len() implies (#[trigger] r[j] as u32) < 0x80 by {
        assert(r[j] == cs[i + j]);
    }
    if r.len() > 0 {
        assert(r[0] == cs[i]);
    }
}

/// In ASCII text the block tag at `at` can be parsed: where it is a `url`, `for` or `if` tag, its
/// lexer runs over the arguments to their end.
pub proof fn lemma_tag_lexable_ascii(template: Seq<char>, at: (usize, usize))
    requires
        at.1 >= START_TAG_LEN + END_TAG_LEN,
        at.0 + at.1 <= usize::MAX,
        valid_span(template, inside_at(at)),
        ascii(span(template, inside_at(at))),
    ensures
        tag_lexable(template, at),
{
    let inside = inside_at(at);
    let tag = span(template, inside);
    lemma_span_blen(template, inside);
    lemma_lex_tag_spans(template, tag, inside.0);
    lemma_lex_tag_inside(tag, inside.0);
    if let Ok(Some((name, parts))) = spec_lex_tag(tag, inside.0) {
        let t = trimmed(tag);
        let n = index_of(t, Class::NotXid);
        lemma_index_of(t, Class::NotXid);
        lemma_trimmed_ascii(tag);
        lemma_ascii_suffix(t.skip(n), t);
        lemma_trimmed_ascii(t.skip(n));
        lemma_span_blen(template, parts.at);
        lemma_for_run_ascii(for_start(template, parts));
        lemma_url_run_ascii(url_start(template, parts));
        lemma_if_run_ascii(if_start(template, parts));
    }
}

/// Parses the block tag `{% name args %}` of `template` at `at`: reads its head, then by its
/// kind parses a `url`, `for` or `if` tag; any other is given back by kind, name and arguments.
pub fn parse_tag(template: TemplateString<'_>, at: (usize, usize)) -> (r: Result<TagHead, ParseError>)
    requires
        at.1 >= START_TAG_LEN + END_TAG_LEN,
        at.0 + at.1 <= usize::MAX,
        valid_span(template.0@, inside_at(at)),
        tag_lexable(template.0@, at),
    ensures
        tag_parsed(template.0@, at, r),
{
    let (kind, name, parts) = parse_tag_head(template, at)?;
    proof {
        let inside = inside_at(at);
        lemma_span_blen(template.0@, inside);
        lemma_lex_tag_spans(template.0@, span(template.0@, inside), inside.0);
    }
    match kind {
        TagKind::Url => match parse_url(template, at, parts) {
            Ok(h) => Ok(TagHead::Url(h)),
            Err(e) => Err(e),
        },
        TagKind::For => match parse_for_loop(template, parts, at) {
            Ok(h) => Ok(TagHead::For(h)),
            Err(e) => Err(e),
        },
        TagKind::If => match parse_if_condition(template, parts, at) {
            Ok(c) => Ok(TagHead::If(c)),
            Err(IfError::InvalidNumber { at: n }) => Err(ParseError::InvalidNumber { at: n }),
            Err(e) => Err(ParseError::IfError(e)),
        },
        _ => Ok(TagHead::Other(kind, name, parts)),
    }
}

} // verus!
