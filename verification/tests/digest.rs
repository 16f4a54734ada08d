use proddle::digest::{bucket_digest, feed_operation};
use proddle::operation::Operation;
use std::collections::hash_map::DefaultHasher;
use std::hash::{Hash, Hasher};

#[derive(Hash)]
struct Mirror {
    script_name: String,
    domain: String,
    interval: u32,
    tags: Option<Vec<String>>,
}

fn mirror(operation: &Operation) -> Mirror {
    Mirror {
        script_name: operation.script_name.clone(),
        domain: operation.domain.clone(),
        interval: operation.interval,
        tags: operation.tags.clone(),
    }
}

fn derived_digest(operations: &[Operation]) -> u64 {
    let mut hasher = DefaultHasher::new();
    for operation in operations {
        mirror(operation).hash(&mut hasher);
    }
    hasher.finish()
}

fn operation(name: &str, domain: &str, interval: u32, tags: Option<Vec<&str>>) -> Operation {
    Operation::new(
        name.to_string(),
        domain.to_string(),
        interval,
        tags.map(|tags| tags.into_iter().map(|tag| tag.to_string()).collect()),
    )
}

fn sample() -> Vec<Operation> {
    vec![
        operation("probe", "example.org", 60, Some(vec!["eu", "fast"])),
        operation("dns/lookup", "example.com", 14400, None),
        operation("", "", 0, Some(vec![])),
        operation("tls", "\u{e9}xample.org", u32::MAX, Some(vec![""])),
    ]
}

#[test]
fn digest_of_no_operations_is_that_of_a_fresh_hasher() {
    assert_eq!(bucket_digest(&vec![]), DefaultHasher::new().finish());
}

#[test]
fn digest_is_the_derived_hash_of_the_operations_in_order() {
    let operations = sample();
    assert_eq!(bucket_digest(&operations), derived_digest(&operations));
    for one in sample() {
        let list = vec![one];
        assert_eq!(bucket_digest(&list), derived_digest(&list));
    }
}

#[test]
fn digest_depends_on_the_order() {
    let mut operations = sample();
    let forward = bucket_digest(&operations);
    operations.reverse();
    assert_ne!(bucket_digest(&operations), forward);
    assert_eq!(bucket_digest(&operations), derived_digest(&operations));
}

#[test]
fn digest_depends_on_every_field() {
    let base = bucket_digest(&vec![operation("probe", "example.org", 60, Some(vec!["eu"]))]);
    assert_ne!(base, bucket_digest(&vec![operation("probf", "example.org", 60, Some(vec!["eu"]))]));
    assert_ne!(base, bucket_digest(&vec![operation("probe", "example.net", 60, Some(vec!["eu"]))]));
    assert_ne!(base, bucket_digest(&vec![operation("probe", "example.org", 61, Some(vec!["eu"]))]));
    assert_ne!(base, bucket_digest(&vec![operation("probe", "example.org", 60, Some(vec!["us"]))]));
    assert_ne!(base, bucket_digest(&vec![operation("probe", "example.org", 60, Some(vec![]))]));
    assert_ne!(base, bucket_digest(&vec![operation("probe", "example.org", 60, None)]));
}

#[test]
fn feed_operation_goes_on_from_the_hasher_it_is_given() {
    let operations = sample();
    let mut hasher = DefaultHasher::new();
    for one in &operations {
        feed_operation(&mut hasher, one);
    }
    assert_eq!(hasher.finish(), bucket_digest(&operations));
}
