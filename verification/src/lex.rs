//! Lexers for the arguments of block tags.
pub mod autoescape;
pub mod common;
pub mod custom_tag;
pub mod forloop;
pub mod ifcondition;
pub mod tag;
pub mod url;

use vstd::prelude::*;

verus! {

/// The byte length of `{%` and `{{`.
pub const START_TAG_LEN: usize = 2;

/// The byte length of `%}` and `}}`.
pub const END_TAG_LEN: usize = 2;

/// The byte length of `_(`, which opens a translated string.
pub const START_TRANSLATE_LEN: usize = 2;

/// The byte length of `)`, which closes a translated string.
pub const END_TRANSLATE_LEN: usize = 1;

/// The byte length of a quote.
pub const QUOTE_LEN: usize = 1;

} // verus!
