use django_rusty_templates::lex::ifcondition::{
    IfConditionLexer, IfConditionToken, IfConditionTokenType,
};
use django_rusty_templates::lex::tag::TagParts;
use django_rusty_templates::parse_if::{
    IfCondition, IfError, IfItem, IfOp, classify_tokens, parse_if_items,
};
use django_rusty_templates::types::TemplateString;

fn items(template: &str, parts: (usize, usize)) -> Vec<IfItem> {
    let tokens = IfConditionLexer::new(template.into(), TagParts { at: parts }).collect();
    classify_tokens(TemplateString(template), &tokens)
}

fn var(at: (usize, usize)) -> IfCondition {
    IfCondition::Variable(IfConditionToken {
        at,
        token_type: IfConditionTokenType::Variable,
    })
}

fn binary(op: IfOp, l: IfCondition, r: IfCondition) -> IfCondition {
    IfCondition::Binary(op, Box::new((l, r)))
}

#[test]
fn if_precedence() {
    let template = "{% if a or b and not c == d %}";
    let items = items(template, (6, 21));
    let condition = parse_if_items(&items, (0, 30)).unwrap();
    let expected = binary(
        IfOp::Or,
        var((6, 1)),
        binary(
            IfOp::And,
            var((11, 1)),
            IfCondition::Not(Box::new(binary(IfOp::Equal, var((21, 1)), var((26, 1))))),
        ),
    );
    assert_eq!(condition, expected);
}

#[test]
fn if_left_associative_and_two_word_operators() {
    let template = "{% if x not in y and z is not w and v %}";
    let items = items(template, (6, 31));
    assert_eq!(items[1], IfItem::Op(IfOp::NotIn, (8, 6)));
    assert_eq!(items[5], IfItem::Op(IfOp::IsNot, (23, 6)));
    let condition = parse_if_items(&items, (0, 40)).unwrap();
    let expected = binary(
        IfOp::And,
        binary(
            IfOp::And,
            binary(IfOp::NotIn, var((6, 1)), var((15, 1))),
            binary(IfOp::IsNot, var((21, 1)), var((30, 1))),
        ),
        var((36, 1)),
    );
    assert_eq!(condition, expected);
}

#[test]
fn if_errors() {
    assert_eq!(
        parse_if_items(&vec![], (0, 9)),
        Err(IfError::MissingBooleanExpression { at: (0, 9) })
    );
    let template = "{% if a b %}";
    assert_eq!(
        parse_if_items(&items(template, (6, 3)), (0, 12)),
        Err(IfError::UnusedExpression { at: (8, 1) })
    );
    let template = "{% if and a %}";
    assert_eq!(
        parse_if_items(&items(template, (6, 5)), (0, 14)),
        Err(IfError::InvalidIfPosition { at: (6, 3) })
    );
    let template = "{% if a and %}";
    assert_eq!(
        parse_if_items(&items(template, (6, 5)), (0, 14)),
        Err(IfError::UnexpectedEndExpression { at: (8, 3) })
    );
    let template = "{% if not %}";
    assert_eq!(
        parse_if_items(&items(template, (6, 3)), (0, 12)),
        Err(IfError::UnexpectedEndExpression { at: (6, 3) })
    );
}
