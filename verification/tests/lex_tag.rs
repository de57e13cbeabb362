use django_rusty_templates::lex::tag::{TagLexerError, TagParts, TagToken, lex_tag};
use django_rusty_templates::lex::{END_TAG_LEN, START_TAG_LEN};
use django_rusty_templates::types::TemplateString;

fn trim_tag(template: &str) -> &str {
    &template[START_TAG_LEN..(template.len() - END_TAG_LEN)]
}

#[test]
fn test_lex_empty() {
    let template = "{%  %}";
    let tag = trim_tag(template);
    assert!(lex_tag(tag, START_TAG_LEN).unwrap().is_none());
}

#[test]
fn test_lex_tag() {
    let template = "{% csrftoken %}";
    let tag = trim_tag(template);
    let (token, rest) = lex_tag(tag, START_TAG_LEN).unwrap().unwrap();
    assert_eq!(token, TagToken { at: (3, 9) });
    assert_eq!(TemplateString(template).content(token.at), "csrftoken");
    assert_eq!(rest, TagParts { at: (12, 0) })
}

#[test]
fn test_lex_invalid_tag() {
    let template = "{% url'foo' %}";
    let tag = trim_tag(template);
    let error = lex_tag(tag, START_TAG_LEN).unwrap_err();
    assert_eq!(error, TagLexerError::InvalidTagName { at: (3, 8).into() })
}

#[test]
fn test_lex_invalid_tag_rest() {
    let template = "{% url'foo' bar %}";
    let tag = trim_tag(template);
    let error = lex_tag(tag, START_TAG_LEN).unwrap_err();
    assert_eq!(error, TagLexerError::InvalidTagName { at: (3, 8).into() })
}

#[test]
fn test_lex_tag_rest() {
    let template = "{% url name arg %}";
    let tag = trim_tag(template);
    let (token, rest) = lex_tag(tag, START_TAG_LEN).unwrap().unwrap();
    assert_eq!(token, TagToken { at: (3, 3) });
    assert_eq!(TemplateString(template).content(token.at), "url");
    assert_eq!(rest, TagParts { at: (7, 8) })
}
