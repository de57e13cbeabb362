use django_rusty_templates::lex::forloop::ForTokenType;
use django_rusty_templates::lex::ifcondition::{IfConditionToken, IfConditionTokenType};
use django_rusty_templates::lex::tag::{TagParts, TagToken};
use django_rusty_templates::lex::url::UrlTokenType;
use django_rusty_templates::parse::{
    ForVariable, ForVariableName, LoopVariable, ParseError, TagHead, TagKind, parse_for_loop,
    parse_for_variable, parse_tag, parse_url,
};
use django_rusty_templates::parse_if::{IfCondition, IfError, IfOp, parse_if_condition};
use django_rusty_templates::types::{TemplateString, Variable};

#[test]
fn parse_for_loop_lexes_and_reads() {
    let template = "{% for a, b in items reversed %}";
    let head = parse_for_loop(template.into(), TagParts { at: (7, 22) }, (0, 32)).unwrap();
    assert_eq!(head.names, vec![(7, 1), (10, 1)]);
    assert_eq!(head.names_at, (7, 4));
    assert_eq!(head.iterable.token_type, ForTokenType::Variable);
    assert_eq!(head.iterable.at, (15, 5));
    assert!(head.reversed);
}

#[test]
fn parse_for_loop_errors() {
    let template = "{% for x in 5 %}";
    assert_eq!(
        parse_for_loop(template.into(), TagParts { at: (7, 6) }, (0, 16)),
        Err(ParseError::NotIterable { at: (12, 1) })
    );
    let template = "{% for x in %}";
    assert!(matches!(
        parse_for_loop(template.into(), TagParts { at: (7, 4) }, (0, 14)),
        Err(ParseError::ForError(_))
    ));
}

#[test]
fn parse_url_lexes_and_reads() {
    let template = "{% url 'view' a b as link %}";
    let head = parse_url(template.into(), (0, 28), TagParts { at: (7, 18) }).unwrap();
    assert_eq!(head.view_name.at, (7, 6));
    assert_eq!(head.view_name.token_type, UrlTokenType::Text);
    assert_eq!(head.args.len(), 2);
    assert_eq!(head.args[0].at, (14, 1));
    assert_eq!(head.args[1].at, (16, 1));
    assert!(head.kwargs.is_empty());
    assert_eq!(head.variable, Some((21, 4)));
}

#[test]
fn parse_url_errors() {
    let template = "{% url 'view' a b=2 %}";
    assert_eq!(
        parse_url(template.into(), (0, 22), TagParts { at: (7, 12) }),
        Err(ParseError::MixedArgsKwargs { at: (0, 22) })
    );
}

#[test]
fn parse_if_condition_lexes_and_parses() {
    let template = "{% if a and not b %}";
    let condition = parse_if_condition(template.into(), TagParts { at: (6, 11) }, (0, 20)).unwrap();
    let var = |at| {
        IfCondition::Variable(IfConditionToken { at, token_type: IfConditionTokenType::Variable })
    };
    let expected = IfCondition::Binary(
        IfOp::And,
        Box::new((var((6, 1)), IfCondition::Not(Box::new(var((16, 1)))))),
    );
    assert_eq!(condition, expected);
}

#[test]
fn parse_if_condition_errors() {
    let template = "{% if a and %}";
    assert_eq!(
        parse_if_condition(template.into(), TagParts { at: (6, 5) }, (0, 14)),
        Err(IfError::UnexpectedEndExpression { at: (8, 3) })
    );
}

#[test]
fn parse_tag_dispatches_by_kind() {
    let template = "<p>{% for x in y %}";
    match parse_tag(TemplateString(template), (3, 16)).unwrap() {
        TagHead::For(head) => {
            assert_eq!(head.names, vec![(10, 1)]);
            assert_eq!(head.iterable.at, (15, 1));
            assert!(!head.reversed);
        }
        other => panic!("not a for tag: {:?}", other),
    }
    let template = "{% url 'home' %}";
    match parse_tag(TemplateString(template), (0, 16)).unwrap() {
        TagHead::Url(head) => assert_eq!(head.view_name.at, (7, 6)),
        other => panic!("not a url tag: {:?}", other),
    }
    let template = "{% if x %}";
    assert_eq!(
        parse_tag(TemplateString(template), (0, 10)),
        Ok(TagHead::If(IfCondition::Variable(IfConditionToken {
            at: (6, 1),
            token_type: IfConditionTokenType::Variable,
        })))
    );
    let template = "{% endfor %}";
    assert_eq!(
        parse_tag(TemplateString(template), (0, 12)),
        Ok(TagHead::Other(TagKind::EndFor, TagToken { at: (3, 6) }, TagParts { at: (9, 0) }))
    );
}

#[test]
fn parse_tag_errors() {
    let template = "{%   %}";
    assert_eq!(
        parse_tag(TemplateString(template), (0, 7)),
        Err(ParseError::EmptyTag { at: (0, 7) })
    );
    let template = "{% if %}";
    assert_eq!(
        parse_tag(TemplateString(template), (0, 8)),
        Err(ParseError::IfError(IfError::MissingBooleanExpression { at: (0, 8) }))
    );
}

fn loop_variable(text: &str, depth: usize) -> LoopVariable {
    parse_for_variable(TemplateString(text), (0, text.len()), depth)
}

fn for_variable(variant: ForVariableName, parent_count: usize) -> LoopVariable {
    LoopVariable::Loop(ForVariable { variant, parent_count })
}

#[test]
fn for_variables_inside_loops() {
    assert_eq!(loop_variable("forloop.counter", 1), for_variable(ForVariableName::Counter, 0));
    assert_eq!(loop_variable("forloop.revcounter0", 2), for_variable(ForVariableName::RevCounter0, 0));
    assert_eq!(loop_variable("forloop", 1), for_variable(ForVariableName::Object, 0));
    assert_eq!(loop_variable("forloop.parentloop", 1), for_variable(ForVariableName::Object, 1));
    assert_eq!(
        loop_variable("forloop.parentloop.last", 1),
        for_variable(ForVariableName::Last, 1)
    );
    assert_eq!(
        loop_variable(" forloop . parentloop . first ", 2),
        for_variable(ForVariableName::First, 1)
    );
}

#[test]
fn for_variables_that_are_plain() {
    let plain = |text: &str| LoopVariable::Plain(Variable { at: (0, text.len()) });
    assert_eq!(loop_variable("forloop.counter", 0), plain("forloop.counter"));
    assert_eq!(loop_variable("forloop.foo", 1), plain("forloop.foo"));
    assert_eq!(loop_variable("forloop.x.counter", 2), plain("forloop.x.counter"));
    assert_eq!(loop_variable("item.counter", 1), plain("item.counter"));
    assert_eq!(
        loop_variable("forloop.parentloop.parentloop", 1),
        plain("forloop.parentloop.parentloop")
    );
    assert_eq!(loop_variable("forloop.", 1), plain("forloop."));
}

#[test]
fn parse_for_loop_missing_names_before_in() {
    let template = "{% for x, in y %}";
    assert_eq!(
        parse_for_loop(template.into(), TagParts { at: (7, 7) }, (0, 17)),
        Err(ParseError::MissingVariable { at: (7, 1) })
    );
    let template = "{% for in y %}";
    assert_eq!(
        parse_for_loop(template.into(), TagParts { at: (7, 4) }, (0, 14)),
        Err(ParseError::MissingVariableBeforeIn { at: (7, 2) })
    );
    let template = "{% for in %}";
    assert_eq!(
        parse_for_loop(template.into(), TagParts { at: (7, 2) }, (0, 12)),
        Err(ParseError::MissingVariableBeforeIn { at: (7, 2) })
    );
    let template = "{% for x y %}";
    assert!(matches!(
        parse_for_loop(template.into(), TagParts { at: (7, 3) }, (0, 13)),
        Err(ParseError::ForError(_))
    ));
}

#[test]
fn if_conditions_with_invalid_numbers() {
    let template = "{% if 1.2.3 %}";
    assert_eq!(
        parse_if_condition(template.into(), TagParts { at: (6, 5) }, (0, 14)),
        Err(IfError::InvalidNumber { at: (6, 5) })
    );
    assert_eq!(
        parse_tag(TemplateString(template), (0, 14)),
        Err(ParseError::InvalidNumber { at: (6, 5) })
    );
    let template = "{% if 1.2.3 b %}";
    assert_eq!(
        parse_if_condition(template.into(), TagParts { at: (6, 7) }, (0, 16)),
        Err(IfError::InvalidNumber { at: (6, 5) })
    );
    let template = "{% if a 1.2.3 %}";
    assert_eq!(
        parse_if_condition(template.into(), TagParts { at: (6, 7) }, (0, 16)),
        Err(IfError::UnusedExpression { at: (8, 5) })
    );
    let template = "{% if 1.5 and -3 or 2e10 %}";
    assert!(parse_if_condition(template.into(), TagParts { at: (6, 18) }, (0, 27)).is_ok());
}

#[test]
fn url_arguments_with_invalid_numbers() {
    let template = "{% url 1.2.3 %}";
    assert_eq!(
        parse_url(template.into(), (0, 15), TagParts { at: (7, 5) }),
        Err(ParseError::InvalidNumber { at: (7, 5) })
    );
    let template = "{% url 'v' 2..3 %}";
    assert_eq!(
        parse_url(template.into(), (0, 18), TagParts { at: (7, 8) }),
        Err(ParseError::InvalidNumber { at: (11, 4) })
    );
    let template = "{% url 'v' 1 -2.5 as x %}";
    let head = parse_url(template.into(), (0, 25), TagParts { at: (7, 15) }).unwrap();
    assert_eq!(head.args.len(), 2);
    assert_eq!(head.variable, Some((21, 1)));
}
