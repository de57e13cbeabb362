//! What rendering a template keeps track of.
use vstd::prelude::*;

pub mod compare;
pub mod tags;
pub mod types;

verus! {

/// What a lookup that fails does: raise the error, or ignore a missing variable.
#[derive(Clone, Copy, Debug, PartialEq, Eq, Structural)]
pub enum ResolveFailures {
    Raise,
    IgnoreVariableDoesNotExist,
}

} // verus!
