use proddle::{get_bucket_key, hash_string};
use std::collections::hash_map::DefaultHasher;
use std::collections::BTreeMap;
use std::hash::{Hash, Hasher};

fn std_hash(value: &str) -> u64 {
    let mut hasher = DefaultHasher::new();
    value.hash(&mut hasher);
    hasher.finish()
}

#[test]
fn hash_string_is_the_default_hash_of_the_text() {
    assert_eq!(hash_string("probe"), std_hash("probe"));
    assert_eq!(hash_string(""), std_hash(""));
    assert_eq!(hash_string("dns/lookup"), std_hash("dns/lookup"));
}

#[test]
fn hash_string_tells_names_apart() {
    assert_ne!(hash_string("probe"), hash_string("probf"));
    assert_eq!(hash_string("probe"), hash_string("probe"));
}

#[test]
fn bucket_key_is_the_greatest_key_not_above() {
    let mut map: BTreeMap<u64, DefaultHasher> = BTreeMap::new();
    map.insert(0, DefaultHasher::new());
    map.insert(100, DefaultHasher::new());
    map.insert(200, DefaultHasher::new());
    assert_eq!(get_bucket_key(&map, 0), Some(0));
    assert_eq!(get_bucket_key(&map, 99), Some(0));
    assert_eq!(get_bucket_key(&map, 100), Some(100));
    assert_eq!(get_bucket_key(&map, 150), Some(100));
    assert_eq!(get_bucket_key(&map, u64::MAX), Some(200));
}

#[test]
fn bucket_key_is_zero_where_no_key_is_low_enough() {
    let empty: BTreeMap<u64, DefaultHasher> = BTreeMap::new();
    assert_eq!(get_bucket_key(&empty, 7), Some(0));
    let mut map: BTreeMap<u64, DefaultHasher> = BTreeMap::new();
    map.insert(10, DefaultHasher::new());
    assert_eq!(get_bucket_key(&map, 9), Some(0));
}
