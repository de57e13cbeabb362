use django_rusty_templates::lex::common::LexerError;
use django_rusty_templates::lex::forloop::{ForLexer, ForLexerError, ForToken, ForTokenType};
use django_rusty_templates::lex::tag::TagParts;

#[test]
fn test_lex_simple() {
    let template = "{% for foo in bar %}";
    let parts = TagParts { at: (7, 10) };
    let lexer = ForLexer::new(template.into(), parts);
    let tokens: Vec<_> = lexer.collect();

    let foo = ForToken {
        at: (7, 3),
        token_type: ForTokenType::VariableName,
    };
    let in_token = ForToken {
        at: (11, 2),
        token_type: ForTokenType::In,
    };
    let bar = ForToken {
        at: (14, 3),
        token_type: ForTokenType::Variable,
    };
    assert_eq!(tokens, vec![Ok(foo), Ok(in_token), Ok(bar)]);
}

#[test]
fn forloop_test_lex_text() {
    let template = "{% for foo in 'bar' %}";
    let parts = TagParts { at: (7, 12) };
    let lexer = ForLexer::new(template.into(), parts);
    let tokens: Vec<_> = lexer.collect();

    let foo = ForToken {
        at: (7, 3),
        token_type: ForTokenType::VariableName,
    };
    let in_token = ForToken {
        at: (11, 2),
        token_type: ForTokenType::In,
    };
    let bar = ForToken {
        at: (14, 5),
        token_type: ForTokenType::Text,
    };
    assert_eq!(tokens, vec![Ok(foo), Ok(in_token), Ok(bar)]);
}

#[test]
fn forloop_test_lex_text_double_quotes() {
    let template = "{% for foo in \"bar\" %}";
    let parts = TagParts { at: (7, 12) };
    let lexer = ForLexer::new(template.into(), parts);
    let tokens: Vec<_> = lexer.collect();

    let foo = ForToken {
        at: (7, 3),
        token_type: ForTokenType::VariableName,
    };
    let in_token = ForToken {
        at: (11, 2),
        token_type: ForTokenType::In,
    };
    let bar = ForToken {
        at: (14, 5),
        token_type: ForTokenType::Text,
    };
    assert_eq!(tokens, vec![Ok(foo), Ok(in_token), Ok(bar)]);
}

#[test]
fn test_lex_translated_text() {
    let template = "{% for foo in _('bar') %}";
    let parts = TagParts { at: (7, 15) };
    let lexer = ForLexer::new(template.into(), parts);
    let tokens: Vec<_> = lexer.collect();

    let foo = ForToken {
        at: (7, 3),
        token_type: ForTokenType::VariableName,
    };
    let in_token = ForToken {
        at: (11, 2),
        token_type: ForTokenType::In,
    };
    let bar = ForToken {
        at: (14, 8),
        token_type: ForTokenType::TranslatedText,
    };
    assert_eq!(tokens, vec![Ok(foo), Ok(in_token), Ok(bar)]);
}

#[test]
fn test_lex_underscore_expression() {
    let template = "{% for foo in _bar %}";
    let parts = TagParts { at: (7, 11) };
    let lexer = ForLexer::new(template.into(), parts);
    let tokens: Vec<_> = lexer.collect();

    let foo = ForToken {
        at: (7, 3),
        token_type: ForTokenType::VariableName,
    };
    let in_token = ForToken {
        at: (11, 2),
        token_type: ForTokenType::In,
    };
    let bar = ForToken {
        at: (14, 4),
        token_type: ForTokenType::Variable,
    };
    assert_eq!(tokens, vec![Ok(foo), Ok(in_token), Ok(bar)]);
}

#[test]
fn test_lex_int() {
    let template = "{% for foo in 123 %}";
    let parts = TagParts { at: (7, 10) };
    let lexer = ForLexer::new(template.into(), parts);
    let tokens: Vec<_> = lexer.collect();

    let foo = ForToken {
        at: (7, 3),
        token_type: ForTokenType::VariableName,
    };
    let in_token = ForToken {
        at: (11, 2),
        token_type: ForTokenType::In,
    };
    let bar = ForToken {
        at: (14, 3),
        token_type: ForTokenType::Numeric,
    };
    assert_eq!(tokens, vec![Ok(foo), Ok(in_token), Ok(bar)]);
}

#[test]
fn test_lex_variable_names() {
    let template = "{% for foo, bar in spam %}";
    let parts = TagParts { at: (7, 16) };
    let lexer = ForLexer::new(template.into(), parts);
    let tokens: Vec<_> = lexer.collect();

    let foo = ForToken {
        at: (7, 3),
        token_type: ForTokenType::VariableName,
    };
    let bar = ForToken {
        at: (12, 3),
        token_type: ForTokenType::VariableName,
    };
    let in_token = ForToken {
        at: (16, 2),
        token_type: ForTokenType::In,
    };
    let spam = ForToken {
        at: (19, 4),
        token_type: ForTokenType::Variable,
    };
    assert_eq!(tokens, vec![Ok(foo), Ok(bar), Ok(in_token), Ok(spam)]);
}

#[test]
fn test_lex_variable_names_no_whitespace_after_comma() {
    let template = "{% for foo,bar in spam %}";
    let parts = TagParts { at: (7, 15) };
    let lexer = ForLexer::new(template.into(), parts);
    let tokens: Vec<_> = lexer.collect();

    let foo = ForToken {
        at: (7, 3),
        token_type: ForTokenType::VariableName,
    };
    let bar = ForToken {
        at: (11, 3),
        token_type: ForTokenType::VariableName,
    };
    let in_token = ForToken {
        at: (15, 2),
        token_type: ForTokenType::In,
    };
    let spam = ForToken {
        at: (18, 4),
        token_type: ForTokenType::Variable,
    };
    assert_eq!(tokens, vec![Ok(foo), Ok(bar), Ok(in_token), Ok(spam)]);
}

#[test]
fn test_lex_comma_in_text() {
    let template = "{% for foo in 'spam,' %}";
    let parts = TagParts { at: (7, 14) };
    let lexer = ForLexer::new(template.into(), parts);
    let tokens: Vec<_> = lexer.collect();

    let foo = ForToken {
        at: (7, 3),
        token_type: ForTokenType::VariableName,
    };
    let in_token = ForToken {
        at: (11, 2),
        token_type: ForTokenType::In,
    };
    let spam = ForToken {
        at: (14, 7),
        token_type: ForTokenType::Text,
    };
    assert_eq!(tokens, vec![Ok(foo), Ok(in_token), Ok(spam)]);
}

#[test]
fn test_lex_reversed() {
    let template = "{% for foo in bar reversed %}";
    let parts = TagParts { at: (7, 19) };
    let lexer = ForLexer::new(template.into(), parts);
    let tokens: Vec<_> = lexer.collect();

    let foo = ForToken {
        at: (7, 3),
        token_type: ForTokenType::VariableName,
    };
    let in_token = ForToken {
        at: (11, 2),
        token_type: ForTokenType::In,
    };
    let bar = ForToken {
        at: (14, 3),
        token_type: ForTokenType::Variable,
    };
    let reversed = ForToken {
        at: (18, 8),
        token_type: ForTokenType::Reversed,
    };
    assert_eq!(tokens, vec![Ok(foo), Ok(in_token), Ok(bar), Ok(reversed)]);
}

#[test]
fn test_unexpected_before_in() {
    let template = "{% for foo bar in bar reversed %}";
    let parts = TagParts { at: (7, 23) };
    let mut lexer = ForLexer::new(template.into(), parts);

    let foo = ForToken {
        at: (7, 3),
        token_type: ForTokenType::VariableName,
    };
    let unexpected = ForLexerError::MissingComma { at: (11, 3).into() };
    assert_eq!(lexer.next().unwrap().unwrap(), foo);
    assert_eq!(lexer.next().unwrap().unwrap_err(), unexpected);
    assert_eq!(lexer.next(), None);
}

#[test]
fn test_unexpected_after_iterable() {
    let template = "{% for foo in bar invalid %}";
    let parts = TagParts { at: (7, 18) };
    let mut lexer = ForLexer::new(template.into(), parts);

    let foo = ForToken {
        at: (7, 3),
        token_type: ForTokenType::VariableName,
    };
    let in_token = ForToken {
        at: (11, 2),
        token_type: ForTokenType::In,
    };
    let bar = ForToken {
        at: (14, 3),
        token_type: ForTokenType::Variable,
    };
    let unexpected = ForLexerError::UnexpectedExpression { at: (18, 7).into() };
    assert_eq!(lexer.next().unwrap().unwrap(), foo);
    assert_eq!(lexer.next().unwrap().unwrap(), in_token);
    assert_eq!(lexer.next().unwrap().unwrap(), bar);
    assert_eq!(lexer.next().unwrap().unwrap_err(), unexpected);
    assert_eq!(lexer.next(), None);
}

#[test]
fn test_unexpected_after_reversed() {
    let template = "{% for foo in bar reversed invalid %}";
    let parts = TagParts { at: (7, 27) };
    let mut lexer = ForLexer::new(template.into(), parts);

    let foo = ForToken {
        at: (7, 3),
        token_type: ForTokenType::VariableName,
    };
    let in_token = ForToken {
        at: (11, 2),
        token_type: ForTokenType::In,
    };
    let bar = ForToken {
        at: (14, 3),
        token_type: ForTokenType::Variable,
    };
    let reversed = ForToken {
        at: (18, 8),
        token_type: ForTokenType::Reversed,
    };
    let unexpected = ForLexerError::UnexpectedExpression { at: (27, 7).into() };
    assert_eq!(lexer.next().unwrap().unwrap(), foo);
    assert_eq!(lexer.next().unwrap().unwrap(), in_token);
    assert_eq!(lexer.next().unwrap().unwrap(), bar);
    assert_eq!(lexer.next().unwrap().unwrap(), reversed);
    assert_eq!(lexer.next().unwrap().unwrap_err(), unexpected);
    assert_eq!(lexer.next(), None);
}

#[test]
fn test_incomplete_string() {
    let template = "{% for foo in 'bar %}";
    let parts = TagParts { at: (7, 11) };
    let mut lexer = ForLexer::new(template.into(), parts);

    let foo = ForToken {
        at: (7, 3),
        token_type: ForTokenType::VariableName,
    };
    let in_token = ForToken {
        at: (11, 2),
        token_type: ForTokenType::In,
    };
    let incomplete = LexerError::IncompleteString { at: (14, 4).into() };
    assert_eq!(lexer.next().unwrap().unwrap(), foo);
    assert_eq!(lexer.next().unwrap().unwrap(), in_token);
    assert_eq!(lexer.next().unwrap().unwrap_err(), incomplete.into());
    assert_eq!(lexer.next(), None);
}

#[test]
fn test_incomplete_translated_string() {
    let template = "{% for foo in _('bar' %}";
    let parts = TagParts { at: (7, 14) };
    let mut lexer = ForLexer::new(template.into(), parts);

    let foo = ForToken {
        at: (7, 3),
        token_type: ForTokenType::VariableName,
    };
    let in_token = ForToken {
        at: (11, 2),
        token_type: ForTokenType::In,
    };
    let incomplete = LexerError::IncompleteTranslatedString { at: (14, 7).into() };
    assert_eq!(lexer.next().unwrap().unwrap(), foo);
    assert_eq!(lexer.next().unwrap().unwrap(), in_token);
    assert_eq!(lexer.next().unwrap().unwrap_err(), incomplete.into());
    assert_eq!(lexer.next(), None);
}

#[test]
fn test_invalid_remainder() {
    let template = "{% for foo in 'bar'baz %}";
    let parts = TagParts { at: (7, 15) };
    let mut lexer = ForLexer::new(template.into(), parts);

    let foo = ForToken {
        at: (7, 3),
        token_type: ForTokenType::VariableName,
    };
    let in_token = ForToken {
        at: (11, 2),
        token_type: ForTokenType::In,
    };
    let incomplete = LexerError::InvalidRemainder { at: (19, 3).into() };
    assert_eq!(lexer.next().unwrap().unwrap(), foo);
    assert_eq!(lexer.next().unwrap().unwrap(), in_token);
    assert_eq!(lexer.next().unwrap().unwrap_err(), incomplete.into());
    assert_eq!(lexer.next(), None);
}

#[test]
fn test_invalid_name() {
    let template = "{% for '2' in 'bar' %}";
    let parts = TagParts { at: (7, 12) };
    let mut lexer = ForLexer::new(template.into(), parts);

    let invalid = ForLexerError::InvalidName {
        name: "'2'".to_string(),
        at: (7, 3).into(),
    };
    assert_eq!(lexer.next().unwrap().unwrap_err(), invalid);
    assert_eq!(lexer.next(), None);
}
