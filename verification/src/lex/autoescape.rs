//! The argument of `{% autoescape on %}` and `{% autoescape off %}`.
use vstd::prelude::*;

use crate::lex::tag::TagParts;
use crate::text::{Class, find, index_of, lemma_index_of, str_eq};
use crate::types::{TemplateString, span, valid_span};

verus! {

broadcast use vstd::string::group_string_axioms;

/// Whether autoescaping is switched on or off.
#[derive(Clone, Copy, Debug, PartialEq, Eq, Structural)]
pub enum AutoescapeEnabled {
    On,
    Off,
}

impl From<&AutoescapeEnabled> for bool {
    fn from(enabled: &AutoescapeEnabled) -> (r: Self)
        ensures
            r == (*enabled == AutoescapeEnabled::On),
    {
        match enabled {
            AutoescapeEnabled::On => true,
            AutoescapeEnabled::Off => false,
        }
    }
}

impl vstd::std_specs::convert::FromSpecImpl<&AutoescapeEnabled> for bool {
    open spec fn obeys_from_spec() -> bool {
        true
    }

    open spec fn from_spec(enabled: &AutoescapeEnabled) -> bool {
        *enabled == AutoescapeEnabled::On
    }
}

/// The argument of an `autoescape` tag.
#[derive(Clone, Copy, Debug, PartialEq, Eq)]
pub struct AutoescapeToken {
    pub at: (usize, usize),
    pub enabled: AutoescapeEnabled,
}

/// What `lex_autoescape_argument` rejects, with the span of the tag's arguments.
#[derive(Clone, Copy, Debug, PartialEq, Eq)]
pub enum AutoescapeError {
    InvalidArgument { at: (usize, usize) },
    MissingArgument { at: (usize, usize) },
    UnexpectedArgument { at: (usize, usize) },
}

/// What `lex_autoescape_argument` returns when the tag's arguments read `content`: `on` and `off`
/// are accepted; nothing is a missing argument; text with whitespace in it is more than one
/// argument; any other text is an invalid argument.
pub open spec fn spec_lex_autoescape(content: Seq<char>, at: (usize, usize)) -> Result<
    AutoescapeToken,
    AutoescapeError,
> {
    if content == "off"@ {
        Ok(AutoescapeToken { at, enabled: AutoescapeEnabled::Off })
    } else if content == "on"@ {
        Ok(AutoescapeToken { at, enabled: AutoescapeEnabled::On })
    } else if content.len() == 0 {
        Err(AutoescapeError::MissingArgument { at })
    } else if index_of(content, Class::Whitespace) == content.len() {
        Err(AutoescapeError::InvalidArgument { at })
    } else {
        Err(AutoescapeError::UnexpectedArgument { at })
    }
}

/// Lexes the argument of an `autoescape` tag.
pub fn lex_autoescape_argument(template: TemplateString<'_>, parts: TagParts) -> (r: Result<
    AutoescapeToken,
    AutoescapeError,
>)
    requires
        valid_span(template.0@, parts.at),
    ensures
        r == spec_lex_autoescape(span(template.0@, parts.at), parts.at),
{
    let content = template.content(parts.at);
    let at = parts.at;
    if str_eq(content, "off") {
        Ok(AutoescapeToken { at, enabled: AutoescapeEnabled::Off })
    } else if str_eq(content, "on") {
        Ok(AutoescapeToken { at, enabled: AutoescapeEnabled::On })
    } else if content.is_empty() {
        proof {
            reveal_strlit("off");
            reveal_strlit("on");
        }
        Err(AutoescapeError::MissingArgument { at })
    } else {
        proof {
            reveal_strlit("off");
            reveal_strlit("on");
        }
        match find(content, Class::Whitespace) {
            None => Err(AutoescapeError::InvalidArgument { at }),
            Some(_) => Err(AutoescapeError::UnexpectedArgument { at }),
        }
    }
}


impl AutoescapeError {
    /// The error's message.
    pub open spec fn message(self) -> Seq<char> {
        match self {
            AutoescapeError::InvalidArgument { .. } => "'autoescape' argument should be 'on' or 'off'."@,
            AutoescapeError::MissingArgument { .. } => "'autoescape' tag missing an 'on' or 'off' argument."@,
            AutoescapeError::UnexpectedArgument { .. } => "'autoescape' tag requires exactly one argument."@,
        }
    }

    /// The error's message.
    pub fn to_string(&self) -> (r: String)
        ensures
            r@ == self.message(),
    {
        match self {
            AutoescapeError::InvalidArgument { .. } => "'autoescape' argument should be 'on' or 'off'.".to_string(),
            AutoescapeError::MissingArgument { .. } => "'autoescape' tag missing an 'on' or 'off' argument.".to_string(),
            AutoescapeError::UnexpectedArgument { .. } => "'autoescape' tag requires exactly one argument.".to_string(),
        }
    }
}

} // verus!
