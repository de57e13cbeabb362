use django_rusty_templates::lex::autoescape::{AutoescapeEnabled, AutoescapeError};
use django_rusty_templates::lex::common::{
    LexerError, check_variable_attrs, lex_numeric, lex_text, lex_translated, lex_variable,
    lex_variable_argument, trim_variable,
};
use django_rusty_templates::lex::custom_tag::{CustomTagLexer, CustomTagToken};
use django_rusty_templates::lex::forloop::{ForLexer, ForLexerError};
use django_rusty_templates::lex::ifcondition::IfConditionLexer;
use django_rusty_templates::lex::tag::{TagLexerError, TagParts, TagToken, lex_tag};
use django_rusty_templates::lex::url::{UrlLexer, UrlLexerError, UrlTokenType};
use django_rusty_templates::lex::{END_TAG_LEN, START_TAG_LEN};
use django_rusty_templates::types::{TemplateString, Variable};

fn inside_tag(template: &str) -> &str {
    &template[START_TAG_LEN..(template.len() - END_TAG_LEN)]
}

#[test]
fn lex_tag_name_and_parts_lie_inside_the_tag() {
    let template = "{% url 'a' b %}";
    let tag = inside_tag(template);
    let (name, parts) = lex_tag(tag, START_TAG_LEN).unwrap().unwrap();
    assert_eq!(name, TagToken { at: (3, 3) });
    assert_eq!(parts, TagParts { at: (7, 5) });
    assert!(START_TAG_LEN <= name.at.0 && name.at.1 > 0);
    assert!(name.at.0 + name.at.1 <= parts.at.0);
    assert!(parts.at.0 + parts.at.1 <= START_TAG_LEN + tag.len());
    assert_eq!(TemplateString(template).content(parts.at), "'a' b");
}

#[test]
fn lex_tag_non_ascii_name() {
    let template = "{% été x %}";
    let tag = inside_tag(template);
    let (name, parts) = lex_tag(tag, START_TAG_LEN).unwrap().unwrap();
    assert_eq!(name, TagToken { at: (3, 5) });
    assert_eq!(TemplateString(template).content(name.at), "été");
    assert_eq!(parts, TagParts { at: (9, 1) });
    assert_eq!(TemplateString(template).content(parts.at), "x");
}

#[test]
fn lex_tag_name_with_non_identifier_character() {
    let template = "{% a€b %}";
    let tag = inside_tag(template);
    let error = lex_tag(tag, START_TAG_LEN).unwrap_err();
    assert_eq!(error, TagLexerError::InvalidTagName { at: (3, 5) });
    assert_eq!(error.to_string(), "Invalid block tag name");
}

#[test]
fn lex_tag_only_whitespace() {
    assert_eq!(lex_tag(" \t\n ", 2), Ok(None));
}

#[test]
fn variable_parts_are_the_text_at_their_spans() {
    let template = TemplateString("{{ user.profile.name }}");
    let variable = Variable::new((3, 17));
    let parts = variable.parts(template);
    assert_eq!(
        parts,
        vec![("user", (3, 4)), ("profile", (8, 7)), ("name", (16, 4))]
    );
    for (text, at) in parts {
        assert_eq!(template.content(at), text);
    }
}

#[test]
fn variable_parts_empty_part_and_trailing_dot() {
    let template = TemplateString("a..b");
    let parts = Variable::new((0, 4)).parts(template);
    assert_eq!(parts, vec![("a", (0, 1)), ("", (2, 0)), ("b", (3, 1))]);
    let template = TemplateString("a.");
    let parts = Variable::new((0, 2)).parts(template);
    assert_eq!(parts, vec![("a", (0, 1))]);
    let template = TemplateString("");
    assert!(Variable::new((0, 0)).parts(template).is_empty());
}

#[test]
fn variable_parts_non_ascii() {
    let template = TemplateString("{{ été.x }}");
    let parts = Variable::new((3, 7)).parts(template);
    assert_eq!(parts, vec![("été", (3, 5)), ("x", (9, 1))]);
    for (text, at) in parts {
        assert_eq!(template.content(at), text);
    }
}

#[test]
fn url_content_at_inside_each_argument() {
    let template = "{% url 'foo' _('bar') baz %}";
    let lexer = UrlLexer::new(template.into(), TagParts { at: (7, 18) });
    let tokens: Vec<_> = lexer.collect().into_iter().map(|t| t.unwrap()).collect();
    assert_eq!(tokens.len(), 3);
    assert_eq!(tokens[0].token_type, UrlTokenType::Text);
    assert_eq!(tokens[0].content_at(), (8, 3));
    assert_eq!(tokens[1].token_type, UrlTokenType::TranslatedText);
    assert_eq!(tokens[1].content_at(), (16, 3));
    assert_eq!(tokens[2].token_type, UrlTokenType::Variable);
    assert_eq!(tokens[2].content_at(), (22, 3));
    let contents: Vec<_> = tokens
        .iter()
        .map(|t| TemplateString(template).content(t.content_at()))
        .collect();
    assert_eq!(contents, vec!["foo", "bar", "baz"]);
    for token in &tokens {
        let content = token.content_at();
        assert!(token.at.0 <= content.0);
        assert!(content.0 + content.1 <= token.at.0 + token.at.1);
    }
}

#[test]
fn url_arguments_in_order() {
    let template = "{% url 'view' a=1 b='x' c %}";
    let parts = TagParts { at: (7, 18) };
    let lexer = UrlLexer::new(template.into(), parts);
    let tokens: Vec<_> = lexer.collect().into_iter().map(|t| t.unwrap()).collect();
    assert_eq!(tokens.len(), 4);
    for pair in tokens.windows(2) {
        assert!(pair[0].at.0 + pair[0].at.1 <= pair[1].at.0);
    }
    for token in &tokens {
        assert!(parts.at.0 <= token.at.0 && token.at.0 + token.at.1 <= parts.at.0 + parts.at.1);
        if let Some(kwarg) = token.kwarg {
            assert!(kwarg.0 + kwarg.1 < token.at.0);
        }
    }
    assert_eq!(tokens[1].kwarg, Some((14, 1)));
    assert_eq!(tokens[2].kwarg, Some((18, 1)));
}

#[test]
fn url_incomplete_keyword_message() {
    let template = "{% url 'view' a= %}";
    let lexer = UrlLexer::new(template.into(), TagParts { at: (7, 9) });
    let tokens = lexer.collect();
    let error = tokens[1].clone().unwrap_err();
    assert_eq!(error, UrlLexerError::IncompleteKeywordArgument { at: (14, 2) });
    assert_eq!(error.to_string(), "Incomplete keyword argument");
}

#[test]
fn if_condition_tokens_in_order() {
    let template = "{% if a.b >= 'x' and not c %}";
    let parts = TagParts { at: (6, 20) };
    let lexer = IfConditionLexer::new(template.into(), parts);
    let tokens: Vec<_> = lexer.collect().into_iter().map(|t| t.unwrap()).collect();
    assert!(!tokens.is_empty());
    for pair in tokens.windows(2) {
        assert!(pair[0].at.0 + pair[0].at.1 <= pair[1].at.0);
    }
    for token in &tokens {
        assert!(parts.at.0 <= token.at.0 && token.at.0 + token.at.1 <= parts.at.0 + parts.at.1);
    }
}

#[test]
fn for_tokens_in_order() {
    let template = "{% for a, b in items reversed %}";
    let parts = TagParts { at: (7, 22) };
    let lexer = ForLexer::new(template.into(), parts);
    let tokens: Vec<_> = lexer.collect().into_iter().map(|t| t.unwrap()).collect();
    assert_eq!(tokens.len(), 5);
    for pair in tokens.windows(2) {
        assert!(pair[0].at.0 + pair[0].at.1 <= pair[1].at.0);
    }
    for token in &tokens {
        assert!(parts.at.0 <= token.at.0 && token.at.0 + token.at.1 <= parts.at.0 + parts.at.1);
    }
}

#[test]
fn for_error_messages() {
    let error = ForLexerError::InvalidName {
        name: "_x".to_string(),
        at: (7, 2),
    };
    assert_eq!(error.to_string(), "Invalid variable name _x in for loop:");
    assert_eq!(
        ForLexerError::MissingComma { at: (0, 1) }.to_string(),
        "Unexpected expression in for loop. Did you miss a comma when unpacking?"
    );
    assert_eq!(
        ForLexerError::MissingIn { at: (0, 1) }.to_string(),
        "Expected the 'in' keyword or a variable name:"
    );
    assert_eq!(
        ForLexerError::MissingExpression { at: (0, 1) }.to_string(),
        "Expected an expression after the 'in' keyword:"
    );
    assert_eq!(
        ForLexerError::UnexpectedExpression { at: (0, 1) }.to_string(),
        "Unexpected expression in for loop:"
    );
    let error: ForLexerError = LexerError::InvalidRemainder { at: (3, 2) }.into();
    assert_eq!(error.to_string(), "Could not parse the remainder");
}

#[test]
fn lexer_error_messages() {
    assert_eq!(
        LexerError::IncompleteString { at: (0, 1) }.to_string(),
        "Expected a complete string literal"
    );
    assert_eq!(
        LexerError::IncompleteTranslatedString { at: (0, 1) }.to_string(),
        "Expected a complete translation string"
    );
    assert_eq!(
        LexerError::InvalidVariableName { at: (0, 1) }.to_string(),
        "Expected a valid variable name"
    );
    assert_eq!(
        LexerError::InvalidRemainder { at: (0, 1) }.to_string(),
        "Could not parse the remainder"
    );
    assert_eq!(
        LexerError::MissingTranslatedString { at: (0, 1) }.to_string(),
        "Expected a string literal within translation"
    );
}

#[test]
fn autoescape_error_messages_and_flag() {
    assert_eq!(
        AutoescapeError::InvalidArgument { at: (0, 1) }.to_string(),
        "'autoescape' argument should be 'on' or 'off'."
    );
    assert_eq!(
        AutoescapeError::MissingArgument { at: (0, 1) }.to_string(),
        "'autoescape' tag missing an 'on' or 'off' argument."
    );
    assert_eq!(
        AutoescapeError::UnexpectedArgument { at: (0, 1) }.to_string(),
        "'autoescape' tag requires exactly one argument."
    );
    assert!(bool::from(&AutoescapeEnabled::On));
    assert!(!bool::from(&AutoescapeEnabled::Off));
}

#[test]
fn custom_tag_arguments_and_keywords() {
    let template = "{% mytag a key=val 'x y' %}";
    let parts = TagParts { at: (9, 15) };
    let lexer = CustomTagLexer::new(template.into(), parts, false);
    let tokens: Vec<_> = lexer.collect().into_iter().map(|t| t.unwrap()).collect();
    assert_eq!(
        tokens,
        vec![
            CustomTagToken::Arg { at: (9, 1) },
            CustomTagToken::Kwarg {
                at: (15, 3),
                name_at: (11, 3)
            },
            CustomTagToken::Arg { at: (19, 2) },
            CustomTagToken::Arg { at: (22, 2) },
        ]
    );
}

#[test]
fn custom_tag_dotted_name_is_no_keyword() {
    let template = "{% mytag a.b=c %}";
    let parts = TagParts { at: (9, 5) };
    let mut lexer = CustomTagLexer::new(template.into(), parts, true);
    assert_eq!(
        lexer.next().unwrap().unwrap(),
        CustomTagToken::Arg { at: (9, 5) }
    );
    assert!(lexer.next().is_none());
    assert!(lexer.next().is_none());
}

#[test]
fn custom_tag_reads_whole_tag() {
    let template = "{% mytag  one   two=2 %}";
    let parts = TagParts { at: (10, 11) };
    let lexer = CustomTagLexer::new(template.into(), parts, false);
    let tokens: Vec<_> = lexer.collect().into_iter().map(|t| t.unwrap()).collect();
    assert_eq!(
        tokens,
        vec![
            CustomTagToken::Arg { at: (10, 3) },
            CustomTagToken::Kwarg {
                at: (20, 1),
                name_at: (16, 3)
            },
        ]
    );
    let empty = CustomTagLexer::new(template.into(), TagParts { at: (10, 0) }, false);
    assert!(empty.collect().is_empty());
}

#[test]
fn lex_variable_stops_at_operator() {
    let ((start, len), byte, rest) = lex_variable(5, "foo.bar|baz:'a b' == 1");
    assert_eq!((start, len), (5, 17));
    assert_eq!(byte, 22);
    assert_eq!(rest, " == 1");
}

#[test]
fn lex_text_with_escape() {
    let rest = "'a\\'b' c";
    let mut chars = rest.chars();
    chars.next();
    let (at, byte, after) = lex_text(10, rest, &mut chars, '\'').unwrap();
    assert_eq!(at, (10, 6));
    assert_eq!(byte, 16);
    assert_eq!(after, " c");
}

#[test]
fn lex_text_incomplete() {
    let rest = "\"abc";
    let mut chars = rest.chars();
    chars.next();
    let error = lex_text(4, rest, &mut chars, '"').unwrap_err();
    assert_eq!(error, LexerError::IncompleteString { at: (4, 4) });
}

#[test]
fn lex_translated_cases() {
    let rest = "_('hi') x";
    let mut chars = rest.chars();
    chars.next();
    chars.next();
    assert_eq!(lex_translated(1, rest, &mut chars), Ok(((1, 7), 8, " x")));

    let rest = "_(";
    let mut chars = rest.chars();
    chars.next();
    chars.next();
    assert_eq!(
        lex_translated(0, rest, &mut chars),
        Err(LexerError::MissingTranslatedString { at: (0, 2) })
    );

    let rest = "_(x)";
    let mut chars = rest.chars();
    chars.next();
    chars.next();
    assert_eq!(
        lex_translated(0, rest, &mut chars),
        Err(LexerError::MissingTranslatedString { at: (0, 4) })
    );

    let rest = "_('hi'";
    let mut chars = rest.chars();
    chars.next();
    chars.next();
    assert_eq!(
        lex_translated(0, rest, &mut chars),
        Err(LexerError::IncompleteTranslatedString { at: (0, 6) })
    );
}

#[test]
fn lex_numeric_stops_at_inner_minus() {
    assert_eq!(lex_numeric(0, "-12.5e3 x"), ((0, 7), 7, " x"));
    assert_eq!(lex_numeric(3, "12-3"), ((3, 2), 5, "-3"));
    assert_eq!(lex_numeric(0, "7"), ((0, 1), 1, ""));
}

#[test]
fn trim_and_check_variable() {
    assert_eq!(trim_variable("foo.bar|upper"), "foo.bar");
    assert_eq!(trim_variable("foo"), "foo");
    assert_eq!(check_variable_attrs("foo.bar", 3), Ok(()));
    assert_eq!(
        check_variable_attrs("foo._bar", 3),
        Err(LexerError::InvalidVariableName { at: (7, 4) })
    );
    assert_eq!(
        check_variable_attrs("foo..bar", 0),
        Err(LexerError::InvalidVariableName { at: (4, 0) })
    );
    assert_eq!(
        lex_variable_argument(2, "a.b|c"),
        Ok(((2, 3), 5, "|c"))
    );
    assert_eq!(
        lex_variable_argument(2, "_a"),
        Err(LexerError::InvalidVariableName { at: (2, 2) })
    );
}

#[test]
fn lex_tag_parts_feed_the_lexers() {
    let template = "{%  url  'home' next=x  %}";
    let tag = inside_tag(template);
    let (name, parts) = lex_tag(tag, START_TAG_LEN).unwrap().unwrap();
    assert_eq!(TemplateString(template).content(name.at), "url");
    assert_eq!(parts, TagParts { at: (9, 13) });
    assert_eq!(TemplateString(template).content(parts.at), "'home' next=x");
    let tokens: Vec<_> = UrlLexer::new(template.into(), parts)
        .collect()
        .into_iter()
        .map(|t| t.unwrap())
        .collect();
    assert_eq!(tokens.len(), 2);
    assert_eq!(TemplateString(template).content(tokens[0].content_at()), "home");
    assert_eq!(TemplateString(template).content(tokens[1].at), "x");
    assert_eq!(tokens[1].kwarg.map(|at| TemplateString(template).content(at)), Some("next"));
}

#[test]
fn for_tokens_read_as_their_types() {
    let template = "{% for a, b in items reversed %}";
    let tokens: Vec<_> = ForLexer::new(template.into(), TagParts { at: (7, 22) })
        .collect()
        .into_iter()
        .map(|t| t.unwrap())
        .collect();
    let texts: Vec<_> = tokens
        .iter()
        .map(|t| TemplateString(template).content(t.at))
        .collect();
    assert_eq!(texts, vec!["a", "b", "in", "items", "reversed"]);
}

#[test]
fn lexer_error_is_last() {
    let template = "{% for x in y z %}";
    let items = ForLexer::new(template.into(), TagParts { at: (7, 8) }).collect();
    assert!(items.last().unwrap().is_err());
    assert!(items[..items.len() - 1].iter().all(|t| t.is_ok()));
    let template = "{% if a 'b %}";
    let items = IfConditionLexer::new(template.into(), TagParts { at: (6, 4) }).collect();
    assert_eq!(items.len(), 2);
    assert!(items[1].is_err());
}

#[test]
fn if_operators_read_as_their_types() {
    let template = "{% if a <= b != c %}";
    let tokens: Vec<_> = IfConditionLexer::new(template.into(), TagParts { at: (6, 11) })
        .collect()
        .into_iter()
        .map(|t| t.unwrap())
        .collect();
    assert_eq!(TemplateString(template).content(tokens[1].at), "<=");
    assert_eq!(TemplateString(template).content(tokens[3].at), "!=");
}

#[test]
fn url_keywords_read_name_then_equals() {
    let template = "{% url 'v' page=2 %}";
    let tokens = UrlLexer::new(template.into(), TagParts { at: (7, 10) }).collect();
    let token = tokens[1].unwrap();
    let k = token.kwarg.unwrap();
    assert_eq!(TemplateString(template).content(k), "page");
    assert_eq!(TemplateString(template).content((k.0 + k.1, 1)), "=");
    assert_eq!(token.at.0, k.0 + k.1 + 1);
}

#[test]
fn variable_parts_join_back() {
    let template = TemplateString("{{ a..b.c }}");
    let parts = Variable::new((3, 6)).parts(template);
    let joined: Vec<_> = parts.iter().map(|(text, _)| *text).collect();
    assert_eq!(joined.join("."), "a..b.c");
}

#[test]
fn if_condition_gaps_are_whitespace_and_operators_spell_their_type() {
    let template = "{% if a  ==   'b c' or x %}";
    let tokens: Vec<_> = IfConditionLexer::new(template.into(), TagParts { at: (6, 18) })
        .collect()
        .into_iter()
        .map(|t| t.unwrap())
        .collect();
    assert_eq!(tokens[0].at.0, 6);
    for pair in tokens.windows(2) {
        let end = pair[0].at.0 + pair[0].at.1;
        let gap = &template[end..pair[1].at.0];
        assert!(!gap.is_empty());
        assert!(gap.chars().all(char::is_whitespace));
    }
    let texts: Vec<&str> = tokens.iter().map(|t| TemplateString(template).content(t.at)).collect();
    assert_eq!(texts, vec!["a", "==", "'b c'", "or", "x"]);
}

#[test]
fn url_argument_without_keyword_does_not_start_with_one() {
    let template = "{% url 'a=b' c f=g %}";
    let tokens: Vec<_> = UrlLexer::new(template.into(), TagParts { at: (7, 11) })
        .collect()
        .into_iter()
        .map(|t| t.unwrap())
        .collect();
    assert_eq!(tokens.len(), 3);
    assert_eq!(tokens[0].kwarg, None);
    assert_eq!(tokens[0].at, (7, 5));
    assert_eq!(tokens[1].kwarg, None);
    assert_eq!(TemplateString(template).content(tokens[1].at), "c");
    assert_eq!(tokens[2].kwarg, Some((15, 1)));
    assert_eq!(TemplateString(template).content((15, 1)), "f");
    assert_eq!(tokens[2].at, (17, 1));
}
