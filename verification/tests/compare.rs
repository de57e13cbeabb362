use django_rusty_templates::parse::parse_numeric_int;
use django_rusty_templates::render::compare::{
    Integer, Plain, plain_eq, plain_gt, plain_gte, plain_lt, plain_lte, plain_order, str_less,
};

fn integer(text: &str) -> Plain {
    let (negative, digits) = parse_numeric_int(text).unwrap();
    Plain::Int(Integer { negative, digits })
}

fn text(s: &str) -> Plain {
    Plain::Text(s.to_string())
}

#[test]
fn integers_compare_by_value() {
    assert!(plain_lt(&integer("-5"), &integer("3")));
    assert!(plain_lt(&integer("99"), &integer("100")));
    assert!(plain_gt(&integer("123456789012345678901234567890"), &integer("123456789012345678901234567889")));
    assert!(plain_eq(&integer("-0"), &integer("0")));
    assert!(plain_lte(&integer("7"), &integer("7")));
    assert!(!plain_gte(&integer("-10"), &integer("-9")));
}

#[test]
fn booleans_compare_as_numbers() {
    assert!(plain_eq(&Plain::Bool(true), &integer("1")));
    assert!(plain_eq(&integer("0"), &Plain::Bool(false)));
    assert!(!plain_eq(&integer("2"), &Plain::Bool(true)));
    assert!(plain_lt(&integer("-300"), &Plain::Bool(false)));
    assert!(plain_gt(&integer("256"), &Plain::Bool(true)));
    assert!(plain_lt(&Plain::Bool(true), &integer("1000")));
    assert!(plain_lt(&Plain::Bool(false), &Plain::Bool(true)));
    assert!(plain_gte(&Plain::Bool(true), &Plain::Bool(true)));
}

#[test]
fn strings_compare_in_order() {
    assert!(plain_lt(&text("apple"), &text("banana")));
    assert!(plain_lt(&text("ab"), &text("abc")));
    assert!(plain_eq(&text("é"), &text("é")));
    assert!(plain_gt(&text("z"), &text("é")) == ("z" > "é"));
    assert_eq!(str_less("a\u{10000}", "a\u{ffff}"), "a\u{10000}" < "a\u{ffff}");
    assert_eq!(str_less("", ""), false);
}

#[test]
fn strings_and_numbers_do_not_compare() {
    assert_eq!(plain_order(&text("1"), &integer("1")), None);
    assert!(!plain_eq(&text("1"), &integer("1")));
    assert!(!plain_lt(&Plain::Bool(true), &text("x")));
    assert!(!plain_gte(&text("x"), &Plain::Bool(false)));
}
