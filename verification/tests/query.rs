use proddle::query::split_parameter;
use proddle::{find_module, find_modules, find_operation, find_operations};

#[test]
fn find_module_asks_for_one_module_by_name() {
    let query = find_module("probe", None, true);
    assert_eq!(query.name, Some("probe".to_string()));
    assert_eq!(query.version, None);
    assert!(query.highest_version_first);
    assert_eq!(query.limit, 1);
    let exact = find_module("probe", Some(3), false);
    assert_eq!(exact.version, Some(3));
    assert!(!exact.highest_version_first);
    assert_eq!(exact.limit, 1);
}

#[test]
fn find_modules_asks_by_what_is_given() {
    let all = find_modules(None, None, None, false);
    assert_eq!(all.name, None);
    assert_eq!(all.version, None);
    assert_eq!(all.limit, 0);
    assert!(!all.highest_version_first);
    let some = find_modules(Some("probe"), Some(2), Some(10), true);
    assert_eq!(some.name, Some("probe".to_string()));
    assert_eq!(some.version, Some(2));
    assert_eq!(some.limit, 10);
    assert!(some.highest_version_first);
    let by_version = find_modules(None, Some(2), Some(-1), true);
    assert_eq!(by_version.name, None);
    assert_eq!(by_version.version, Some(2));
    assert_eq!(by_version.limit, -1);
}

#[test]
fn find_operation_asks_for_one_operation_by_domain() {
    let query = find_operation("example.org", None, true);
    assert_eq!(query.domain, Some("example.org".to_string()));
    assert_eq!(query.module, None);
    assert!(query.latest_first);
    assert_eq!(query.limit, 1);
    let narrow = find_operation("example.org", Some("probe"), false);
    assert_eq!(narrow.module, Some("probe".to_string()));
    assert!(!narrow.latest_first);
}

#[test]
fn find_operations_asks_by_what_is_given() {
    let all = find_operations(None, None, None, true);
    assert_eq!(all.domain, None);
    assert_eq!(all.module, None);
    assert_eq!(all.limit, 0);
    assert!(all.latest_first);
    let some = find_operations(Some("example.org"), Some("probe"), Some(5), false);
    assert_eq!(some.domain, Some("example.org".to_string()));
    assert_eq!(some.module, Some("probe".to_string()));
    assert_eq!(some.limit, 5);
    let by_module = find_operations(None, Some("probe"), None, false);
    assert_eq!(by_module.domain, None);
    assert_eq!(by_module.module, Some("probe".to_string()));
}

fn pair(name: &str, value: &str) -> Option<(String, String)> {
    Some((name.to_string(), value.to_string()))
}

#[test]
fn split_parameter_parts_name_and_value_at_the_bar() {
    assert_eq!(split_parameter("timeout|30"), pair("timeout", "30"));
    assert_eq!(split_parameter("a|"), pair("a", ""));
    assert_eq!(split_parameter("|b"), pair("", "b"));
    assert_eq!(split_parameter("|"), pair("", ""));
}

#[test]
fn split_parameter_ends_the_value_at_the_second_bar() {
    assert_eq!(split_parameter("a|b|c"), pair("a", "b"));
    assert_eq!(split_parameter("a||c"), pair("a", ""));
    assert_eq!(split_parameter("||"), pair("", ""));
}

#[test]
fn split_parameter_wants_a_bar() {
    assert_eq!(split_parameter("timeout"), None);
    assert_eq!(split_parameter(""), None);
}

#[test]
fn split_parameter_counts_characters_not_bytes() {
    assert_eq!(split_parameter("n\u{e4}me|v\u{e4}lue|x"), pair("n\u{e4}me", "v\u{e4}lue"));
    assert_eq!(split_parameter("\u{1f600}|\u{1f600}"), pair("\u{1f600}", "\u{1f600}"));
}
