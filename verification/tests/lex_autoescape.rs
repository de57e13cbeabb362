use django_rusty_templates::lex::autoescape::{
    AutoescapeEnabled, AutoescapeError, AutoescapeToken, lex_autoescape_argument,
};
use django_rusty_templates::lex::tag::TagParts;

#[test]
fn test_lex_autoescape_off() {
    let template = "{% autoescape off %}";
    let parts = TagParts { at: (14, 3) };
    let token = lex_autoescape_argument(template.into(), parts).unwrap();
    let off = AutoescapeToken {
        at: (14, 3),
        enabled: AutoescapeEnabled::Off,
    };
    assert_eq!(token, off);
}

#[test]
fn test_lex_autoescape_on() {
    let template = "{% autoescape on %}";
    let parts = TagParts { at: (14, 2) };
    let token = lex_autoescape_argument(template.into(), parts).unwrap();
    let on = AutoescapeToken {
        at: (14, 2),
        enabled: AutoescapeEnabled::On,
    };
    assert_eq!(token, on);
}

#[test]
fn test_lex_autoescape_empty() {
    let template = "{% autoescape %}";
    let parts = TagParts { at: (8, 0) };
    let error = lex_autoescape_argument(template.into(), parts).unwrap_err();
    assert_eq!(
        error,
        AutoescapeError::MissingArgument { at: (8, 0).into() }
    );
}

#[test]
fn test_lex_autoescape_invalid() {
    let template = "{% autoescape other %}";
    let parts = TagParts { at: (14, 5) };
    let error = lex_autoescape_argument(template.into(), parts).unwrap_err();
    assert_eq!(
        error,
        AutoescapeError::InvalidArgument { at: (14, 5).into() }
    );
}

#[test]
fn test_lex_autoescape_unexpected_argument() {
    let template = "{% autoescape off on %}";
    let parts = TagParts { at: (14, 6) };
    let error = lex_autoescape_argument(template.into(), parts).unwrap_err();
    assert_eq!(
        error,
        AutoescapeError::UnexpectedArgument { at: (14, 6).into() }
    );
}
