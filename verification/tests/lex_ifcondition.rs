use django_rusty_templates::lex::common::LexerError;
use django_rusty_templates::lex::ifcondition::{
    IfConditionLexer, IfConditionToken, IfConditionTokenType,
};
use django_rusty_templates::lex::tag::TagParts;

#[test]
fn test_lex_variable() {
    let template = "{% if foo %}";
    let parts = TagParts { at: (6, 3) };
    let lexer = IfConditionLexer::new(template.into(), parts);
    let tokens: Vec<_> = lexer.collect();

    let foo = IfConditionToken {
        at: (6, 3),
        token_type: IfConditionTokenType::Variable,
    };
    assert_eq!(tokens, vec![Ok(foo)]);
}

#[test]
fn test_lex_numeric() {
    let template = "{% if 5.3 %}";
    let parts = TagParts { at: (6, 3) };
    let lexer = IfConditionLexer::new(template.into(), parts);
    let tokens: Vec<_> = lexer.collect();

    let numeric = IfConditionToken {
        at: (6, 3),
        token_type: IfConditionTokenType::Numeric,
    };
    assert_eq!(tokens, vec![Ok(numeric)]);
}

#[test]
fn ifcondition_test_lex_text() {
    let template = "{% if 'foo' %}";
    let parts = TagParts { at: (6, 5) };
    let lexer = IfConditionLexer::new(template.into(), parts);
    let tokens: Vec<_> = lexer.collect();

    let text = IfConditionToken {
        at: (6, 5),
        token_type: IfConditionTokenType::Text,
    };
    assert_eq!(tokens, vec![Ok(text)]);
}

#[test]
fn ifcondition_test_lex_text_double_quotes() {
    let template = "{% if \"foo\" %}";
    let parts = TagParts { at: (6, 5) };
    let lexer = IfConditionLexer::new(template.into(), parts);
    let tokens: Vec<_> = lexer.collect();

    let text = IfConditionToken {
        at: (6, 5),
        token_type: IfConditionTokenType::Text,
    };
    assert_eq!(tokens, vec![Ok(text)]);
}

#[test]
fn test_lex_translated() {
    let template = "{% if _('foo') %}";
    let parts = TagParts { at: (6, 8) };
    let lexer = IfConditionLexer::new(template.into(), parts);
    let tokens: Vec<_> = lexer.collect();

    let text = IfConditionToken {
        at: (6, 8),
        token_type: IfConditionTokenType::TranslatedText,
    };
    assert_eq!(tokens, vec![Ok(text)]);
}

#[test]
fn test_lex_equal() {
    let template = "{% if == %}";
    let parts = TagParts { at: (6, 2) };
    let lexer = IfConditionLexer::new(template.into(), parts);
    let tokens: Vec<_> = lexer.collect();

    let equal = IfConditionToken {
        at: (6, 2),
        token_type: IfConditionTokenType::Equal,
    };
    assert_eq!(tokens, vec![Ok(equal)]);
}

#[test]
fn test_lex_not_equal() {
    let template = "{% if != %}";
    let parts = TagParts { at: (6, 2) };
    let lexer = IfConditionLexer::new(template.into(), parts);
    let tokens: Vec<_> = lexer.collect();

    let not_equal = IfConditionToken {
        at: (6, 2),
        token_type: IfConditionTokenType::NotEqual,
    };
    assert_eq!(tokens, vec![Ok(not_equal)]);
}

#[test]
fn test_lex_less_than() {
    let template = "{% if < %}";
    let parts = TagParts { at: (6, 1) };
    let lexer = IfConditionLexer::new(template.into(), parts);
    let tokens: Vec<_> = lexer.collect();

    let less_than = IfConditionToken {
        at: (6, 1),
        token_type: IfConditionTokenType::LessThan,
    };
    assert_eq!(tokens, vec![Ok(less_than)]);
}

#[test]
fn test_lex_greater_than() {
    let template = "{% if > %}";
    let parts = TagParts { at: (6, 1) };
    let lexer = IfConditionLexer::new(template.into(), parts);
    let tokens: Vec<_> = lexer.collect();

    let greater_than = IfConditionToken {
        at: (6, 1),
        token_type: IfConditionTokenType::GreaterThan,
    };
    assert_eq!(tokens, vec![Ok(greater_than)]);
}

#[test]
fn test_lex_less_equal() {
    let template = "{% if <= %}";
    let parts = TagParts { at: (6, 2) };
    let lexer = IfConditionLexer::new(template.into(), parts);
    let tokens: Vec<_> = lexer.collect();

    let less_equal = IfConditionToken {
        at: (6, 2),
        token_type: IfConditionTokenType::LessThanEqual,
    };
    assert_eq!(tokens, vec![Ok(less_equal)]);
}

#[test]
fn test_lex_greater_equal() {
    let template = "{% if >= %}";
    let parts = TagParts { at: (6, 2) };
    let lexer = IfConditionLexer::new(template.into(), parts);
    let tokens: Vec<_> = lexer.collect();

    let greater_equal = IfConditionToken {
        at: (6, 2),
        token_type: IfConditionTokenType::GreaterThanEqual,
    };
    assert_eq!(tokens, vec![Ok(greater_equal)]);
}

#[test]
fn test_lex_complex_condition() {
    let template = "{% if foo.bar|default:'spam' and count >= 1.5 or enabled is not False %}";
    let parts = TagParts { at: (6, 63) };
    let lexer = IfConditionLexer::new(template.into(), parts);
    let tokens: Vec<_> = lexer.collect();

    let foobar = IfConditionToken {
        at: (6, 22),
        token_type: IfConditionTokenType::Variable,
    };
    let and = IfConditionToken {
        at: (29, 3),
        token_type: IfConditionTokenType::Variable,
    };
    let count = IfConditionToken {
        at: (33, 5),
        token_type: IfConditionTokenType::Variable,
    };
    let greater_equal = IfConditionToken {
        at: (39, 2),
        token_type: IfConditionTokenType::GreaterThanEqual,
    };
    let numeric = IfConditionToken {
        at: (42, 3),
        token_type: IfConditionTokenType::Numeric,
    };
    let or = IfConditionToken {
        at: (46, 2),
        token_type: IfConditionTokenType::Variable,
    };
    let enabled = IfConditionToken {
        at: (49, 7),
        token_type: IfConditionTokenType::Variable,
    };
    let is = IfConditionToken {
        at: (57, 2),
        token_type: IfConditionTokenType::Variable,
    };
    let not = IfConditionToken {
        at: (60, 3),
        token_type: IfConditionTokenType::Variable,
    };
    let falsey = IfConditionToken {
        at: (64, 5),
        token_type: IfConditionTokenType::Variable,
    };
    let condition = vec![
        Ok(foobar),
        Ok(and),
        Ok(count),
        Ok(greater_equal),
        Ok(numeric),
        Ok(or),
        Ok(enabled),
        Ok(is),
        Ok(not),
        Ok(falsey),
    ];
    assert_eq!(tokens, condition);
}

#[test]
fn test_lex_invalid_remainder() {
    let template = "{% if 'foo'remainder %}";
    let parts = TagParts { at: (6, 14) };
    let mut lexer = IfConditionLexer::new(template.into(), parts);
    let error = lexer.next().unwrap().unwrap_err();
    assert_eq!(error, LexerError::InvalidRemainder { at: (11, 9).into() });
}
