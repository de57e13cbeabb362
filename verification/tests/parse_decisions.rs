use django_rusty_templates::lex::forloop::{ForLexer, ForTokenType};
use django_rusty_templates::lex::tag::{TagLexerError, TagParts, TagToken};
use django_rusty_templates::lex::url::{UrlLexer, UrlToken};
use django_rusty_templates::parse::{
    BoundArgs, FilterKind, ParseError, TagKind, TagSignature, bind_custom_tag_args,
    check_simple_block, check_simple_tag, filter_kind, for_head, parse_numeric_int,
    parse_tag_head, tag_kind, url_head,
};
use django_rusty_templates::numeric::float_text_ok;
use django_rusty_templates::parse::number_text_ok;
use django_rusty_templates::render::tags::{eval_and, eval_not, eval_or};
use django_rusty_templates::types::TemplateString;

fn strings(items: &[&str]) -> Vec<String> {
    items.iter().map(|s| s.to_string()).collect()
}

#[test]
fn tag_kinds() {
    assert_eq!(tag_kind("url"), TagKind::Url);
    assert_eq!(tag_kind("endfor"), TagKind::EndFor);
    assert_eq!(tag_kind("elif"), TagKind::Elif);
    assert_eq!(tag_kind("endverbatim"), TagKind::EndVerbatim);
    assert_eq!(tag_kind("my_tag"), TagKind::Library);
    assert_eq!(tag_kind("For"), TagKind::Library);
}

#[test]
fn tag_head_of_a_for_tag() {
    let template = TemplateString("<p>{% for x in y %}");
    let (kind, name, parts) = parse_tag_head(template, (3, 16)).unwrap();
    assert_eq!(kind, TagKind::For);
    assert_eq!(name, TagToken { at: (6, 3) });
    assert_eq!(parts, TagParts { at: (10, 6) });
    assert_eq!(template.content(parts.at), "x in y");
}

#[test]
fn tag_head_errors() {
    let template = TemplateString("{%   %}");
    assert_eq!(
        parse_tag_head(template, (0, 7)),
        Err(ParseError::EmptyTag { at: (0, 7) })
    );
    let template = TemplateString("{% url'x' %}");
    assert_eq!(
        parse_tag_head(template, (0, 12)),
        Err(ParseError::BlockError(TagLexerError::InvalidTagName { at: (3, 6) }))
    );
}

#[test]
fn filter_kinds() {
    let external = strings(&["title_case"]);
    assert_eq!(filter_kind("add", (5, 3), Some((9, 1)), &external), Ok(FilterKind::Add));
    assert_eq!(
        filter_kind("add", (5, 3), None, &external),
        Err(ParseError::MissingArgument { at: (5, 3) })
    );
    assert_eq!(filter_kind("lower", (5, 5), None, &external), Ok(FilterKind::Lower));
    assert_eq!(
        filter_kind("lower", (5, 5), Some((11, 2)), &external),
        Err(ParseError::UnexpectedArgument {
            filter: "lower".to_string(),
            at: (11, 2)
        })
    );
    assert_eq!(filter_kind("yesno", (5, 5), None, &external), Ok(FilterKind::YesNo));
    assert_eq!(filter_kind("yesno", (5, 5), Some((11, 5)), &external), Ok(FilterKind::YesNo));
    assert_eq!(
        filter_kind("title_case", (5, 10), None, &external),
        Ok(FilterKind::External)
    );
    assert_eq!(
        filter_kind("missing", (5, 7), None, &external),
        Err(ParseError::InvalidFilter {
            filter: "missing".to_string(),
            at: (5, 7)
        })
    );
}

#[test]
fn simple_block_parameters() {
    let params = strings(&["context", "content", "a", "b"]);
    assert_eq!(
        check_simple_block(params, true, "f".to_string(), (0, 9)),
        Ok(strings(&["a", "b"]))
    );
    let params = strings(&["content", "a"]);
    assert_eq!(
        check_simple_block(params, false, "f".to_string(), (0, 9)),
        Ok(strings(&["a"]))
    );
    let params = strings(&["content", "context"]);
    assert_eq!(
        check_simple_block(params, true, "f".to_string(), (0, 9)),
        Err(ParseError::RequiresContextAndContent {
            name: "f".to_string(),
            at: (0, 9)
        })
    );
    assert_eq!(
        check_simple_block(vec![], false, "g".to_string(), (1, 2)),
        Err(ParseError::RequiresContent {
            name: "g".to_string(),
            at: (1, 2)
        })
    );
}

#[test]
fn simple_tag_parameters() {
    assert_eq!(
        check_simple_tag(strings(&["context", "x"]), true, "f".to_string(), (0, 3)),
        Ok(strings(&["x"]))
    );
    assert_eq!(
        check_simple_tag(strings(&["context", "x"]), false, "f".to_string(), (0, 3)),
        Ok(strings(&["context", "x"]))
    );
    assert_eq!(
        check_simple_tag(strings(&["x"]), true, "f".to_string(), (0, 3)),
        Err(ParseError::RequiresContext {
            name: "f".to_string(),
            at: (0, 3)
        })
    );
}

#[test]
fn numeric_integers() {
    assert_eq!(parse_numeric_int("123"), Some((false, vec![1, 2, 3])));
    assert_eq!(parse_numeric_int("-45"), Some((true, vec![4, 5])));
    assert_eq!(parse_numeric_int("+7"), Some((false, vec![7])));
    assert_eq!(parse_numeric_int("1_000"), Some((false, vec![1, 0, 0, 0])));
    assert_eq!(parse_numeric_int("-007"), Some((true, vec![7])));
    assert_eq!(parse_numeric_int("-0"), Some((false, vec![0])));
    assert_eq!(parse_numeric_int("_1"), None);
    assert_eq!(parse_numeric_int("-+5"), None);
    assert_eq!(parse_numeric_int("1.5"), None);
    assert_eq!(parse_numeric_int("1e3"), None);
    assert_eq!(parse_numeric_int(""), None);
    assert_eq!(parse_numeric_int("-"), None);
}

#[test]
fn boolean_operators() {
    assert_eq!(eval_and(Some(true), Some(true)), Some(true));
    assert_eq!(eval_and(Some(true), None), Some(false));
    assert_eq!(eval_and(None, Some(true)), Some(false));
    assert_eq!(eval_or(Some(false), Some(true)), Some(true));
    assert_eq!(eval_or(None, Some(true)), Some(false));
    assert_eq!(eval_or(Some(true), None), Some(true));
    assert_eq!(eval_or(Some(false), None), Some(false));
    assert_eq!(eval_not(Some(false)), Some(true));
    assert_eq!(eval_not(Some(true)), Some(false));
    assert_eq!(eval_not(None), Some(false));
}

#[test]
fn url_head_splits_arguments() {
    let template = "{% url 'view' a b as link %}";
    let parts = TagParts { at: (7, 18) };
    let items = UrlLexer::new(template.into(), parts).collect();
    let head = url_head(template.into(), (0, 28), items).unwrap();
    assert_eq!(head.view_name.at, (7, 6));
    assert_eq!(head.args.len(), 2);
    assert!(head.kwargs.is_empty());
    assert_eq!(head.variable, Some((21, 4)));
    assert_eq!(TemplateString(template).content(head.variable.unwrap()), "link");
}

#[test]
fn url_head_keywords_and_errors() {
    let template = "{% url 'view' a=1 b=2 %}";
    let items = UrlLexer::new(template.into(), TagParts { at: (7, 14) }).collect();
    let head = url_head(template.into(), (0, 24), items).unwrap();
    assert!(head.args.is_empty());
    assert_eq!(head.kwargs.len(), 2);
    assert_eq!(head.variable, None);

    let template = "{% url 'view' a b=2 %}";
    let items = UrlLexer::new(template.into(), TagParts { at: (7, 12) }).collect();
    assert_eq!(
        url_head(template.into(), (0, 22), items),
        Err(ParseError::MixedArgsKwargs { at: (0, 22) })
    );
    assert_eq!(
        url_head(template.into(), (0, 22), vec![]),
        Err(ParseError::UrlTagNoArguments { at: (0, 22) })
    );
}

#[test]
fn for_head_reads_names_and_expression() {
    let template = "{% for a, b in items reversed %}";
    let items = ForLexer::new(template.into(), TagParts { at: (7, 22) }).collect();
    let head = for_head(template.into(), (0, 32), items).unwrap();
    assert_eq!(head.names, vec![(7, 1), (10, 1)]);
    assert_eq!(head.names_at, (7, 4));
    assert_eq!(head.iterable.token_type, ForTokenType::Variable);
    assert_eq!(TemplateString(template).content(head.iterable.at), "items");
    assert!(head.reversed);
}

#[test]
fn for_head_errors() {
    let template = "{% for x in 5 %}";
    let items = ForLexer::new(template.into(), TagParts { at: (7, 6) }).collect();
    assert_eq!(
        for_head(template.into(), (0, 16), items),
        Err(ParseError::NotIterable { at: (12, 1) })
    );
    let template = "{% for x y in z %}";
    let items = ForLexer::new(template.into(), TagParts { at: (7, 8) }).collect();
    assert!(matches!(for_head(template.into(), (0, 18), items), Err(ParseError::ForError(_))));
    assert_eq!(
        for_head("{% for %}".into(), (0, 5), vec![]),
        Err(ParseError::MissingVariableNames { at: (0, 5) })
    );
}

fn signature(params: &[&str], defaults_count: usize, kwonly: &[&str]) -> TagSignature {
    TagSignature {
        function_name: "f".to_string(),
        params: strings(params),
        defaults_count,
        varargs: false,
        varkw: false,
        kwonly: strings(kwonly),
        kwonly_defaults: vec![],
    }
}

fn tag_tokens(template: &str) -> (Vec<UrlToken>, TagParts) {
    let parts = TagParts {
        at: (9, template.len() - 9 - 3),
    };
    let tokens = UrlLexer::new(template.into(), parts)
        .collect()
        .into_iter()
        .map(|t| t.unwrap())
        .collect();
    (tokens, parts)
}

#[test]
fn bind_arguments_and_target() {
    let template = "{% mytag a b key=val as res %}";
    let (tokens, parts) = tag_tokens(template);
    let sig = signature(&["x", "y", "key"], 0, &[]);
    let bound = bind_custom_tag_args(template.into(), parts.at, &tokens, &sig).unwrap();
    assert_eq!(
        bound,
        BoundArgs {
            args: vec![(9, 1), (11, 1)],
            kwargs: vec![((13, 3), (17, 3))],
            target_var: Some((24, 3)),
        }
    );
}

#[test]
fn bind_missing_arguments() {
    let template = "{% mytag a %}";
    let (tokens, parts) = tag_tokens(template);
    let sig = signature(&["x", "y", "z"], 0, &["flag"]);
    assert_eq!(
        bind_custom_tag_args(template.into(), parts.at, &tokens, &sig),
        Err(ParseError::MissingArguments {
            tag_name: "f".to_string(),
            missing: "'y', 'z', 'flag'".to_string(),
            at: parts.at,
        })
    );
    let sig = signature(&["x", "y", "z"], 2, &[]);
    assert!(bind_custom_tag_args(template.into(), parts.at, &tokens, &sig).is_ok());
}

#[test]
fn bind_argument_errors() {
    let template = "{% mytag a b %}";
    let (tokens, parts) = tag_tokens(template);
    assert_eq!(
        bind_custom_tag_args(template.into(), parts.at, &tokens, &signature(&["x"], 0, &[])),
        Err(ParseError::TooManyPositionalArguments { at: (11, 1) })
    );
    let template = "{% mytag k=1 b %}";
    let (tokens, parts) = tag_tokens(template);
    assert_eq!(
        bind_custom_tag_args(template.into(), parts.at, &tokens, &signature(&["k", "b"], 0, &[])),
        Err(ParseError::PositionalAfterKeyword {
            at: (13, 1),
            after: (9, 3)
        })
    );
    let template = "{% mytag z=1 %}";
    let (tokens, parts) = tag_tokens(template);
    assert_eq!(
        bind_custom_tag_args(template.into(), parts.at, &tokens, &signature(&["x"], 0, &[])),
        Err(ParseError::UnexpectedKeywordArgument { at: (9, 3) })
    );
    let template = "{% mytag x=1 x=2 %}";
    let (tokens, parts) = tag_tokens(template);
    assert_eq!(
        bind_custom_tag_args(template.into(), parts.at, &tokens, &signature(&["x"], 0, &[])),
        Err(ParseError::DuplicateKeywordArgument {
            tag_name: "f".to_string(),
            kwarg_name: "x".to_string(),
            first_at: (9, 3),
            second_at: (13, 3),
        })
    );
}

#[test]
fn bind_invalid_numbers() {
    let template = "{% mytag 1.2.3 %}";
    let (tokens, parts) = tag_tokens(template);
    assert_eq!(
        bind_custom_tag_args(template.into(), parts.at, &tokens, &signature(&["x"], 0, &[])),
        Err(ParseError::InvalidNumber { at: (9, 5) })
    );
    let template = "{% mytag k=1e5e %}";
    let (tokens, parts) = tag_tokens(template);
    assert_eq!(
        bind_custom_tag_args(template.into(), parts.at, &tokens, &signature(&["k"], 0, &[])),
        Err(ParseError::InvalidNumber { at: (11, 4) })
    );
    let template = "{% mytag 1.5 k=-2 %}";
    let (tokens, parts) = tag_tokens(template);
    assert!(bind_custom_tag_args(template.into(), parts.at, &tokens, &signature(&["x", "k"], 0, &[])).is_ok());
}

#[test]
fn number_literals() {
    for ok in ["1.5", "1.", ".5", "-2.5e10", "1e+5", "1E-5", "inf", "-Infinity", "NaN", "+0.0"] {
        assert!(float_text_ok(ok), "{ok}");
        assert_eq!(float_text_ok(ok), ok.parse::<f64>().is_ok(), "{ok}");
    }
    for bad in ["", ".", "-", "1.2.3", "1e", "e5", "1e5e", "2..3", "--1", "infx", "1_0.5"] {
        assert!(!float_text_ok(bad), "{bad}");
        assert_eq!(float_text_ok(bad), bad.parse::<f64>().is_ok(), "{bad}");
    }
    assert!(number_text_ok("1_000"));
    assert!(number_text_ok("-7"));
    assert!(number_text_ok("3.25"));
    assert!(!number_text_ok("1.2.3"));
    assert!(!number_text_ok("1-2"));
}
