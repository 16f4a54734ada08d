use proddle::operation::{contains_tags, Operation};

fn strings(items: &[&str]) -> Vec<String> {
    items.iter().map(|item| item.to_string()).collect()
}

fn tagged(tags: Option<&[&str]>) -> Operation {
    Operation::new("probe".to_string(), "example.org".to_string(), 60, tags.map(strings))
}

#[test]
fn contains_tags_finds_a_shared_tag() {
    assert!(contains_tags(&strings(&["eu", "us"]), &strings(&["asia", "us"])));
    assert!(contains_tags(&strings(&["eu"]), &strings(&["eu"])));
}

#[test]
fn contains_tags_is_false_without_a_shared_tag() {
    assert!(!contains_tags(&strings(&["eu", "us"]), &strings(&["asia"])));
    assert!(!contains_tags(&strings(&[]), &strings(&["asia"])));
    assert!(!contains_tags(&strings(&["eu"]), &strings(&[])));
    assert!(!contains_tags(&strings(&[]), &strings(&[])));
}

#[test]
fn contains_tags_compares_whole_tags() {
    assert!(!contains_tags(&strings(&["eu"]), &strings(&["eu-west"])));
    assert!(!contains_tags(&strings(&["EU"]), &strings(&["eu"])));
}

#[test]
fn operation_without_tags_is_never_eligible() {
    let operation = tagged(None);
    assert!(!operation.is_eligible(&strings(&[]), &strings(&[])));
    assert!(!operation.is_eligible(&strings(&["eu"]), &strings(&[])));
}

#[test]
fn operation_with_an_empty_tag_list_is_never_eligible() {
    let operation = tagged(Some(&[]));
    assert!(!operation.is_eligible(&strings(&[]), &strings(&[])));
    assert!(!operation.is_eligible(&strings(&["eu"]), &strings(&["us"])));
}

#[test]
fn empty_include_list_lets_every_tagged_operation_pass() {
    let operation = tagged(Some(&["eu"]));
    assert!(operation.is_eligible(&strings(&[]), &strings(&[])));
    assert!(operation.is_eligible(&strings(&[]), &strings(&["us"])));
}

#[test]
fn include_list_asks_for_a_shared_tag() {
    let operation = tagged(Some(&["eu", "fast"]));
    assert!(operation.is_eligible(&strings(&["fast"]), &strings(&[])));
    assert!(!operation.is_eligible(&strings(&["us"]), &strings(&[])));
}

#[test]
fn exclude_list_wins_over_the_include_list() {
    let operation = tagged(Some(&["eu", "fast"]));
    assert!(!operation.is_eligible(&strings(&["eu"]), &strings(&["fast"])));
    assert!(!operation.is_eligible(&strings(&[]), &strings(&["eu"])));
}

#[test]
fn eligibility_is_the_stated_formula_on_all_small_cases() {
    let pool = ["a", "b"];
    let subsets: Vec<Vec<&str>> = vec![vec![], vec!["a"], vec!["b"], vec!["a", "b"]];
    for tags in &subsets {
        for included in &subsets {
            for excluded in &subsets {
                let shares = |list: &Vec<&str>| pool.iter().any(|t| tags.contains(t) && list.contains(t));
                let expected = (included.is_empty() || shares(included)) && !shares(excluded)
                    && !tags.is_empty();
                let operation = tagged(Some(tags.as_slice()));
                assert_eq!(operation.is_eligible(&strings(included), &strings(excluded)), expected);
            }
        }
    }
}

#[test]
fn duplicate_copies_every_field() {
    let operation = tagged(Some(&["eu", "fast"]));
    let copy = operation.duplicate();
    assert_eq!(copy.script_name, "probe");
    assert_eq!(copy.domain, "example.org");
    assert_eq!(copy.interval, 60);
    assert_eq!(copy.tags, Some(strings(&["eu", "fast"])));
    assert_eq!(tagged(None).duplicate().tags, None);
}
