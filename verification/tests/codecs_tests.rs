//! The codecs configuration: validation and hash.

use rzid::codecs::{check_features, join_bytes, leading_u64, load_codecs_yaml, try_load_codecs, Codecs};
use rzid::error::RzError;
use rzid::names::NameList;

fn texts(items: &[&str]) -> Vec<String> {
    items.iter().map(|s| s.to_string()).collect()
}

fn config_error(r: Result<Codecs, RzError>) -> String {
    match r {
        Err(RzError::Config(text)) => text,
        other => panic!("expected a configuration error, got {:?}", other),
    }
}

#[test]
fn default_codecs_are_empty() {
    let codecs = Codecs::default();
    assert!(codecs.rate_features.is_empty());
    assert_eq!(codecs.hash, 0);
}

#[test]
fn hash_is_the_head_of_the_digest() {
    let codecs = load_codecs_yaml(texts(&["Wifi", "breakfast"])).unwrap();
    assert_eq!(codecs.rate_features, vec!["Wifi", "breakfast"]);
    assert_eq!(codecs.hash, 5057949822573243496);

    let codecs = load_codecs_yaml(texts(&["a"])).unwrap();
    assert_eq!(codecs.hash, 14608863320967583690);
}

#[test]
fn hash_takes_the_lowercase_of_any_script() {
    let codecs = load_codecs_yaml(texts(&["zoo", "Ärger"])).unwrap();
    assert_eq!(codecs.rate_features, vec!["zoo", "Ärger"]);
    assert_eq!(codecs.hash, 326870466592498377);
}

#[test]
fn hash_ignores_order_and_case() {
    let a = load_codecs_yaml(texts(&["Wifi", "breakfast", "Parking"])).unwrap();
    let b = load_codecs_yaml(texts(&["PARKING", "wifi", "Breakfast"])).unwrap();
    assert_eq!(a.hash, b.hash);
    let c = load_codecs_yaml(texts(&["PARKING", "wifi"])).unwrap();
    assert_ne!(a.hash, c.hash);
}

#[test]
fn no_features_are_refused() {
    assert_eq!(
        config_error(load_codecs_yaml(vec![])),
        "Rate features must have 1 to 24 items, got 0"
    );
}

#[test]
fn too_many_features_are_refused() {
    let many: Vec<String> = (0..25).map(|i| format!("f{}", i)).collect();
    assert_eq!(
        config_error(load_codecs_yaml(many)),
        "Rate features must have 1 to 24 items, got 25"
    );
    let most: Vec<String> = (0..24).map(|i| format!("f{}", i)).collect();
    assert!(load_codecs_yaml(most).is_ok());
}

#[test]
fn repeated_features_are_refused_in_their_spelling() {
    assert_eq!(
        config_error(load_codecs_yaml(texts(&["a", "Wifi", "b", "WIFI", "A"]))),
        "Duplicate rate_feature: WIFI"
    );
}

#[test]
fn features_of_ordinary_size_can_be_loaded() {
    assert_eq!(
        try_load_codecs(texts(&["Wifi", "breakfast"])),
        Some(load_codecs_yaml(texts(&["Wifi", "breakfast"])))
    );
    assert_eq!(
        config_error(try_load_codecs(vec![]).unwrap()),
        "Rate features must have 1 to 24 items, got 0"
    );
}

#[test]
fn checked_features_are_sorted_once_each() {
    let lower = texts(&["b", "a"]);
    let names = check_features(&texts(&["B", "A"]), &lower).unwrap();
    assert_eq!(names.to_vec(), vec!["a", "b"]);
    let refused = check_features(&texts(&["B", "b"]), &texts(&["b", "b"]));
    assert_eq!(refused, Err(RzError::Config("Duplicate rate_feature: b".to_string())));
}

#[test]
fn bytes_are_joined_in_order() {
    let names = NameList::from_vec(&texts(&["é", "b"]));
    assert_eq!(join_bytes(&names), vec![b'b', 0xc3, 0xa9]);
}

#[test]
fn leading_bytes_are_little_endian() {
    assert_eq!(leading_u64(&vec![1, 2, 0, 0, 0, 0, 0, 0, 9]), 513);
    assert_eq!(leading_u64(&vec![0, 0, 0, 0, 0, 0, 0, 128]), 1 << 63);
    assert_eq!(leading_u64(&vec![255; 8]), u64::MAX);
}
