use django_rusty_templates::loaders::{abspath, path_within, safe_join};

const CWD: Option<&str> = Some("/work/project");

#[test]
fn test_safe_join_absolute() {
    let joined = safe_join("/abc/", "def", CWD).unwrap();
    assert_eq!(joined, "/abc/def");
}

#[test]
fn test_safe_join_relative() {
    let joined = safe_join("abc", "def", CWD).unwrap();
    assert_eq!(joined, "/work/project/abc/def");
}

#[test]
fn test_safe_join_absolute_starts_with_sep() {
    assert_eq!(safe_join("/abc/", "/def", CWD), None);
}

#[test]
fn test_safe_join_relative_starts_with_sep() {
    assert_eq!(safe_join("abc", "/def", CWD), None);
}

#[test]
fn test_safe_join_absolute_parent() {
    assert_eq!(safe_join("/abc/", "../def", CWD), None);
}

#[test]
fn test_safe_join_relative_parent() {
    assert_eq!(safe_join("abc", "../def", CWD), None);
}

#[test]
fn test_safe_join_absolute_parent_starts_with_sep() {
    assert_eq!(safe_join("/abc/", "/../def", CWD), None);
}

#[test]
fn test_safe_join_relative_parent_starts_with_sep() {
    assert_eq!(safe_join("abc", "/../def", CWD), None);
}

#[test]
fn test_safe_join_django_example() {
    assert_eq!(safe_join("/dir", "/../d", CWD), None);
}

#[test]
fn test_safe_join_django_example_variant() {
    assert_eq!(safe_join("/dir", "/../directory", CWD), None);
}

#[test]
fn test_safe_join_empty_path() {
    let joined = safe_join("", "directory", CWD).unwrap();
    assert_eq!(joined, "/work/project/directory");
}

#[test]
fn test_safe_join_empty_path_and_template_name() {
    let joined = safe_join("", "", CWD).unwrap();
    assert_eq!(joined, "/work/project");
}

#[test]
fn test_safe_join_parent_and_empty_template_name() {
    let joined = safe_join("..", "", CWD).unwrap();
    assert_eq!(joined, "/work");
}

#[test]
fn safe_join_stays_inside_after_parent_steps() {
    let joined = safe_join("/abc", "x/../y/./z", CWD).unwrap();
    assert_eq!(joined, "/abc/y/z");
    assert!(joined.starts_with("/abc/"));
}

#[test]
fn safe_join_component_prefix_not_string_prefix() {
    assert_eq!(safe_join("/abc", "../abcdef/x", CWD), None);
}

#[test]
fn safe_join_without_current_directory() {
    assert_eq!(safe_join("abc", "def", None), None);
    assert_eq!(safe_join("/abc", "def", None).unwrap(), "/abc/def");
}

#[test]
fn abspath_cases() {
    assert_eq!(abspath("", CWD).unwrap(), "/work/project");
    assert_eq!(abspath("", None), None);
    assert_eq!(abspath("/a/./b/../c", None).unwrap(), "/a/c");
    assert_eq!(abspath("a//b/", CWD).unwrap(), "/work/project/a/b");
    assert_eq!(abspath("../..", CWD).unwrap(), "/");
    assert_eq!(abspath("x", None), None);
}

#[test]
fn path_within_compares_whole_components() {
    assert_eq!(path_within("/abc/def".to_string(), "/abc"), Some("/abc/def".to_string()));
    assert_eq!(path_within("/abc".to_string(), "/abc/"), Some("/abc".to_string()));
    assert_eq!(path_within("/abcdef".to_string(), "/abc"), None);
    assert_eq!(path_within("a//b/./c".to_string(), "a/b"), Some("a//b/./c".to_string()));
    assert_eq!(path_within("./a".to_string(), "a"), None);
    assert_eq!(path_within("a".to_string(), "/a"), None);
}

#[test]
fn parent_reference_into_a_sibling_is_refused() {
    assert_eq!(safe_join("/a/b", "../c", CWD), None);
    assert_eq!(safe_join("/a/b", "../c", None), None);
    assert_eq!(safe_join("/a/b", "../b", CWD), Some("/a/b".to_string()));
}
