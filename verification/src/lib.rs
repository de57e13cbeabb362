//! Django templates in Rust: the lexers of the block tags, the parser's decisions on tags,
//! filters and numbers, the state that rendering keeps, and where template files may be looked
//! for.
use vstd::prelude::*;

pub mod text;
pub mod types;
pub mod lex;
pub mod render;
pub mod loaders;
pub mod parse;
pub mod parse_if;
pub mod numeric;
pub mod engine;

verus! {
} // verus!
