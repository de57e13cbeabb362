use std::collections::HashMap;

use django_rusty_templates::render::types::{ContentString, Context, RenderError};

fn empty_context() -> Context<i64> {
    Context::new(HashMap::new(), None, true)
}

#[test]
fn new_context_has_no_loop() {
    let context = empty_context();
    assert!(context.autoescape);
    assert!(context.request.is_none());
    assert!(context.context.is_empty());
    assert!(context.get_for_loop(0).is_none());
}

#[test]
fn for_loop_counters_at_first_item() {
    let mut context = empty_context();
    context.push_for_loop(3);
    let for_loop = context.get_for_loop(0).unwrap();
    assert_eq!(for_loop.counter0(), 0);
    assert_eq!(for_loop.counter(), 1);
    assert_eq!(for_loop.rev_counter(), 3);
    assert_eq!(for_loop.rev_counter0(), 2);
    assert!(for_loop.first());
    assert!(!for_loop.last());
}

#[test]
fn for_loop_counters_at_last_item() {
    let mut context = empty_context();
    context.push_for_loop(3);
    context.increment_for_loop();
    context.increment_for_loop();
    let for_loop = context.get_for_loop(0).unwrap();
    assert_eq!(for_loop.counter0(), 2);
    assert_eq!(for_loop.counter(), 3);
    assert_eq!(for_loop.rev_counter(), 1);
    assert_eq!(for_loop.rev_counter0(), 0);
    assert!(!for_loop.first());
    assert!(for_loop.last());
}

#[test]
fn for_loop_of_one_item_is_first_and_last() {
    let mut context = empty_context();
    context.push_for_loop(1);
    let for_loop = context.get_for_loop(0).unwrap();
    assert!(for_loop.first());
    assert!(for_loop.last());
    assert_eq!(for_loop.rev_counter(), 1);
}

#[test]
fn pop_for_loop_undoes_push_for_loop() {
    let mut context = empty_context();
    context.push_for_loop(4);
    context.increment_for_loop();
    context.push_for_loop(2);
    context.increment_for_loop();
    context.pop_for_loop();
    let outer = context.get_for_loop(0).unwrap();
    assert_eq!(outer.counter0(), 1);
    assert_eq!(outer.rev_counter(), 3);
    assert!(context.get_for_loop(1).is_none());
    context.pop_for_loop();
    assert!(context.get_for_loop(0).is_none());
}

#[test]
fn outer_loops_are_one_level_further_out() {
    let mut context = empty_context();
    context.push_for_loop(5);
    context.increment_for_loop();
    context.increment_for_loop();
    context.push_for_loop(7);
    let inner = context.get_for_loop(0).unwrap();
    assert_eq!(inner.counter0(), 0);
    assert_eq!(inner.rev_counter(), 7);
    let outer = context.get_for_loop(1).unwrap();
    assert_eq!(outer.counter0(), 2);
    assert_eq!(outer.rev_counter(), 3);
    assert!(context.get_for_loop(2).is_none());
}

#[test]
fn increment_changes_only_the_innermost_loop() {
    let mut context = empty_context();
    context.push_for_loop(2);
    context.push_for_loop(2);
    context.increment_for_loop();
    assert_eq!(context.get_for_loop(0).unwrap().counter0(), 1);
    assert_eq!(context.get_for_loop(1).unwrap().counter0(), 0);
}

#[test]
fn loop_state_leaves_variables_alone() {
    let mut context = empty_context();
    context.push_variable("x".to_string(), 1);
    context.push_for_loop(2);
    context.increment_for_loop();
    context.pop_for_loop();
    assert_eq!(context.context.get("x"), Some(&1));
    assert!(context.autoescape);
}

#[test]
fn push_variable_binds_and_rebinds() {
    let mut context = empty_context();
    context.push_variable("x".to_string(), 1);
    context.push_variable("y".to_string(), 2);
    context.push_variable("x".to_string(), 3);
    assert_eq!(context.context.get("x"), Some(&3));
    assert_eq!(context.context.get("y"), Some(&2));
    assert_eq!(context.context.len(), 2);
}

#[test]
fn push_variables_single_name() {
    let mut context = empty_context();
    let names = vec!["item".to_string()];
    context.push_variables(&names, (7, 4), 42, vec![], (15, 5)).unwrap();
    assert_eq!(context.context.get("item"), Some(&42));
}

#[test]
fn push_variables_unpacks_in_order() {
    let mut context = empty_context();
    let names = vec!["a".to_string(), "b".to_string(), "a".to_string()];
    context.push_variables(&names, (7, 7), 0, vec![1, 2, 3], (18, 5)).unwrap();
    assert_eq!(context.context.get("a"), Some(&3));
    assert_eq!(context.context.get("b"), Some(&2));
}

#[test]
fn push_variables_wrong_count() {
    let mut context = empty_context();
    context.push_variable("a".to_string(), 9);
    let names = vec!["a".to_string(), "b".to_string()];
    let error = context
        .push_variables(&names, (7, 4), 0, vec![1, 2, 3], (15, 5))
        .unwrap_err();
    assert_eq!(
        error,
        RenderError::TupleUnpackError {
            expected_count: 2,
            actual_count: 3,
            expected_at: (7, 4),
            actual_at: (15, 5),
        }
    );
    assert_eq!(context.context.get("a"), Some(&9));
    assert_eq!(context.context.len(), 1);
}

#[test]
fn push_variables_no_values() {
    let mut context = empty_context();
    let names = vec!["a".to_string(), "b".to_string()];
    let error = context.push_variables(&names, (3, 4), 0, vec![], (11, 2)).unwrap_err();
    assert_eq!(
        error,
        RenderError::TupleUnpackError {
            expected_count: 2,
            actual_count: 0,
            expected_at: (3, 4),
            actual_at: (11, 2),
        }
    );
}

#[test]
fn content_string_unsafe_is_escaped() {
    let content = ContentString::HtmlUnsafe("<a href=\"x\">'&'</a>".to_string());
    assert_eq!(
        content.content(),
        "&lt;a href=&quot;x&quot;&gt;&#x27;&amp;&#x27;&lt;/a&gt;"
    );
}

#[test]
fn content_string_safe_and_plain_are_not_escaped() {
    let safe = ContentString::HtmlSafe("<b>&</b>".to_string());
    assert_eq!(safe.content(), "<b>&</b>");
    let plain = ContentString::String("<i>'</i>".to_string());
    assert_eq!(plain.content(), "<i>'</i>");
}

#[test]
fn content_string_escape_keeps_other_characters() {
    let content = ContentString::HtmlUnsafe("héllo wörld / é".to_string());
    assert_eq!(content.content(), "héllo wörld / é");
}

#[test]
fn content_string_raw_is_unescaped() {
    let content = ContentString::HtmlUnsafe("<p>".to_string());
    assert_eq!(content.as_raw(), "<p>");
    assert_eq!(content.into_raw(), "<p>");
    let safe = ContentString::HtmlSafe("&amp;".to_string());
    assert_eq!(safe.as_raw(), "&amp;");
    assert_eq!(safe.into_raw(), "&amp;");
}

#[test]
fn push_variables_single_name_takes_the_whole_item() {
    let mut context = empty_context();
    let names = vec!["item".to_string()];
    context.push_variables(&names, (7, 4), 7, vec![1, 2], (15, 5)).unwrap();
    assert_eq!(context.context.get("item"), Some(&7));
    assert_eq!(context.context.len(), 1);
}
