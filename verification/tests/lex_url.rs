use django_rusty_templates::lex::common::LexerError;
use django_rusty_templates::lex::tag::TagParts;
use django_rusty_templates::lex::url::{UrlLexer, UrlLexerError, UrlToken, UrlTokenType};

#[test]
fn test_lex_url_name_text() {
    let template = "{% url 'foo' %}";
    let parts = TagParts { at: (7, 5) };
    let lexer = UrlLexer::new(template.into(), parts);
    let tokens: Vec<_> = lexer.collect();
    let name = UrlToken {
        at: (7, 5),
        token_type: UrlTokenType::Text,
        kwarg: None,
    };
    assert_eq!(tokens, vec![Ok(name)]);
}

#[test]
fn test_lex_url_name_text_double_quotes() {
    let template = "{% url \"foo\" %}";
    let parts = TagParts { at: (7, 5) };
    let lexer = UrlLexer::new(template.into(), parts);
    let tokens: Vec<_> = lexer.collect();
    let name = UrlToken {
        at: (7, 5),
        token_type: UrlTokenType::Text,
        kwarg: None,
    };
    assert_eq!(tokens, vec![Ok(name)]);
}

#[test]
fn test_lex_url_name_text_incomplete() {
    let template = "{% url 'foo %}";
    let parts = TagParts { at: (7, 4) };
    let mut lexer = UrlLexer::new(template.into(), parts);
    let error = lexer.next().unwrap().unwrap_err();
    assert_eq!(
        error,
        LexerError::IncompleteString { at: (7, 4).into() }.into()
    );
}

#[test]
fn test_lex_url_name_variable() {
    let template = "{% url foo %}";
    let parts = TagParts { at: (7, 3) };
    let lexer = UrlLexer::new(template.into(), parts);
    let tokens: Vec<_> = lexer.collect();
    let name = UrlToken {
        at: (7, 3),
        token_type: UrlTokenType::Variable,
        kwarg: None,
    };
    assert_eq!(tokens, vec![Ok(name)]);
}

#[test]
fn test_lex_url_name_filter() {
    let template = "{% url foo|default:'home' %}";
    let parts = TagParts { at: (7, 18) };
    let lexer = UrlLexer::new(template.into(), parts);
    let tokens: Vec<_> = lexer.collect();
    let name = UrlToken {
        at: (7, 18),
        token_type: UrlTokenType::Variable,
        kwarg: None,
    };
    assert_eq!(tokens, vec![Ok(name)]);
}

#[test]
fn test_lex_url_name_filter_inner_double_quote() {
    let template = "{% url foo|default:'home\"' %}";
    let parts = TagParts { at: (7, 19) };
    let lexer = UrlLexer::new(template.into(), parts);
    let tokens: Vec<_> = lexer.collect();
    let name = UrlToken {
        at: (7, 19),
        token_type: UrlTokenType::Variable,
        kwarg: None,
    };
    assert_eq!(tokens, vec![Ok(name)]);
}

#[test]
fn test_lex_url_name_filter_inner_single_quote() {
    let template = "{% url foo|default:\"home'\" %}";
    let parts = TagParts { at: (7, 19) };
    let lexer = UrlLexer::new(template.into(), parts);
    let tokens: Vec<_> = lexer.collect();
    let name = UrlToken {
        at: (7, 19),
        token_type: UrlTokenType::Variable,
        kwarg: None,
    };
    assert_eq!(tokens, vec![Ok(name)]);
}

#[test]
fn test_lex_url_name_filter_inner_whitespace() {
    let template = "{% url foo|default:'home url' %}";
    let parts = TagParts { at: (7, 22) };
    let lexer = UrlLexer::new(template.into(), parts);
    let tokens: Vec<_> = lexer.collect();
    let name = UrlToken {
        at: (7, 22),
        token_type: UrlTokenType::Variable,
        kwarg: None,
    };
    assert_eq!(tokens, vec![Ok(name)]);
}

#[test]
fn test_lex_url_name_leading_underscore() {
    let template = "{% url _foo %}";
    let parts = TagParts { at: (7, 4) };
    let lexer = UrlLexer::new(template.into(), parts);
    let tokens: Vec<_> = lexer.collect();
    let name = UrlToken {
        at: (7, 4),
        token_type: UrlTokenType::Variable,
        kwarg: None,
    };
    assert_eq!(tokens, vec![Ok(name)]);
}

#[test]
fn test_lex_url_name_translated() {
    let template = "{% url _('foo') %}";
    let parts = TagParts { at: (7, 8) };
    let lexer = UrlLexer::new(template.into(), parts);
    let tokens: Vec<_> = lexer.collect();
    let name = UrlToken {
        at: (7, 8),
        token_type: UrlTokenType::TranslatedText,
        kwarg: None,
    };
    assert_eq!(tokens, vec![Ok(name)]);
}

#[test]
fn test_lex_url_name_translated_incomplete() {
    let template = "{% url _('foo' %}";
    let parts = TagParts { at: (7, 7) };
    let mut lexer = UrlLexer::new(template.into(), parts);
    let error = lexer.next().unwrap().unwrap_err();
    assert_eq!(
        error,
        LexerError::IncompleteTranslatedString { at: (7, 7).into() }.into()
    );
}

#[test]
fn test_lex_url_name_numeric() {
    let template = "{% url 5 %}";
    let parts = TagParts { at: (7, 1) };
    let lexer = UrlLexer::new(template.into(), parts);
    let tokens: Vec<_> = lexer.collect();
    let name = UrlToken {
        at: (7, 1),
        token_type: UrlTokenType::Numeric,
        kwarg: None,
    };
    assert_eq!(tokens, vec![Ok(name)]);
}

#[test]
fn test_lex_url_name_text_kwarg() {
    let template = "{% url name='foo' %}";
    let parts = TagParts { at: (7, 10) };
    let lexer = UrlLexer::new(template.into(), parts);
    let tokens: Vec<_> = lexer.collect();
    let name = UrlToken {
        at: (12, 5),
        token_type: UrlTokenType::Text,
        kwarg: Some((7, 4)),
    };
    assert_eq!(tokens, vec![Ok(name)]);
}

#[test]
fn test_lex_url_name_text_kwarg_double_quotes() {
    let template = "{% url name=\"foo\" %}";
    let parts = TagParts { at: (7, 10) };
    let lexer = UrlLexer::new(template.into(), parts);
    let tokens: Vec<_> = lexer.collect();
    let name = UrlToken {
        at: (12, 5),
        token_type: UrlTokenType::Text,
        kwarg: Some((7, 4)),
    };
    assert_eq!(tokens, vec![Ok(name)]);
}

#[test]
fn test_lex_url_name_variable_kwarg() {
    let template = "{% url name=foo %}";
    let parts = TagParts { at: (7, 8) };
    let lexer = UrlLexer::new(template.into(), parts);
    let tokens: Vec<_> = lexer.collect();
    let name = UrlToken {
        at: (12, 3),
        token_type: UrlTokenType::Variable,
        kwarg: Some((7, 4)),
    };
    assert_eq!(tokens, vec![Ok(name)]);
}

#[test]
fn test_lex_url_name_leading_underscore_kwarg() {
    let template = "{% url name=_foo %}";
    let parts = TagParts { at: (7, 9) };
    let lexer = UrlLexer::new(template.into(), parts);
    let tokens: Vec<_> = lexer.collect();
    let name = UrlToken {
        at: (12, 4),
        token_type: UrlTokenType::Variable,
        kwarg: Some((7, 4)),
    };
    assert_eq!(tokens, vec![Ok(name)]);
}

#[test]
fn test_lex_url_name_translated_kwarg() {
    let template = "{% url name=_('foo') %}";
    let parts = TagParts { at: (7, 13) };
    let lexer = UrlLexer::new(template.into(), parts);
    let tokens: Vec<_> = lexer.collect();
    let name = UrlToken {
        at: (12, 8),
        token_type: UrlTokenType::TranslatedText,
        kwarg: Some((7, 4)),
    };
    assert_eq!(tokens, vec![Ok(name)]);
}

#[test]
fn test_lex_url_name_numeric_kwarg() {
    let template = "{% url name=5 %}";
    let parts = TagParts { at: (7, 6) };
    let lexer = UrlLexer::new(template.into(), parts);
    let tokens: Vec<_> = lexer.collect();
    let name = UrlToken {
        at: (12, 1),
        token_type: UrlTokenType::Numeric,
        kwarg: Some((7, 4)),
    };
    assert_eq!(tokens, vec![Ok(name)]);
}

#[test]
fn test_lex_url() {
    let template = "{% url 'home' next %}";
    let parts = TagParts { at: (7, 11) };
    let lexer = UrlLexer::new(template.into(), parts);
    let tokens: Vec<_> = lexer.collect();
    let home = UrlToken {
        at: (7, 6),
        token_type: UrlTokenType::Text,
        kwarg: None,
    };
    let next = UrlToken {
        at: (14, 4),
        token_type: UrlTokenType::Variable,
        kwarg: None,
    };
    assert_eq!(tokens, vec![Ok(home), Ok(next)]);
}

#[test]
fn test_lex_url_incomplete_kwarg() {
    let template = "{% url name= %}";
    let parts = TagParts { at: (7, 5) };
    let mut lexer = UrlLexer::new(template.into(), parts);
    let error = lexer.next().unwrap().unwrap_err();
    assert_eq!(
        error,
        UrlLexerError::IncompleteKeywordArgument { at: (7, 5).into() }
    );
}

#[test]
fn test_lex_url_incomplete_kwarg_args() {
    let template = "{% url name= foo %}";
    let parts = TagParts { at: (7, 9) };
    let mut lexer = UrlLexer::new(template.into(), parts);
    let error = lexer.next().unwrap().unwrap_err();
    assert_eq!(
        error,
        UrlLexerError::IncompleteKeywordArgument { at: (7, 5).into() }
    );
}

#[test]
fn test_lex_url_invalid_remainder() {
    let template = "{% url 'foo'remainder %}";
    let parts = TagParts { at: (7, 14) };
    let mut lexer = UrlLexer::new(template.into(), parts);
    let error = lexer.next().unwrap().unwrap_err();
    assert_eq!(
        error,
        LexerError::InvalidRemainder { at: (12, 9).into() }.into()
    );
}

#[test]
fn test_lex_url_kwarg_invalid_remainder() {
    let template = "{% url name='foo'=remainder %}";
    let parts = TagParts { at: (7, 20) };
    let mut lexer = UrlLexer::new(template.into(), parts);
    let error = lexer.next().unwrap().unwrap_err();
    assert_eq!(
        error,
        LexerError::InvalidRemainder {
            at: (17, 10).into()
        }
        .into()
    );
}

#[test]
fn test_lex_url_incomplete_kwarg_message() {
    let template = "{% url name= %}";
    let parts = TagParts { at: (7, 5) };
    let mut lexer = UrlLexer::new(template.into(), parts);
    let error = lexer.next().unwrap().unwrap_err();
    assert_eq!(error.to_string(), "Incomplete keyword argument");
}
