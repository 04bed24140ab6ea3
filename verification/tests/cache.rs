use r_vlr_util::cache::{MruCache, RegexCache};
use std::sync::Arc;

#[test]
fn mru_cache_updates_and_evicts() {
    let mut cache = MruCache::new(2);
    cache.insert("one", 1);
    cache.insert("two", 2);
    assert_eq!(cache.get(&"one"), Some(&1));
    cache.insert("three", 3);
    assert_eq!(cache.get(&"two"), None);
    assert_eq!(cache.get(&"one"), Some(&1));
}

#[test]
fn regex_cache_reuses_compiled_value_and_reports_errors() {
    let mut cache = RegexCache::default();
    let first = cache.get(r"^\w+$").unwrap();
    let second = cache.get(r"^\w+$").unwrap();
    assert!(Arc::ptr_eq(&first, &second));
    assert!(cache.get("(").is_err());
}

#[test]
fn mru_insert_returns_the_replaced_value() {
    let mut cache = MruCache::new(3);
    assert_eq!(cache.insert("key", 1), None);
    assert_eq!(cache.insert("key", 2), Some(1));
    assert_eq!(cache.get(&"key"), Some(&2));
}

#[test]
fn mru_shrinking_capacity_evicts_least_recent() {
    let mut cache = MruCache::new(3);
    cache.insert(1, "a");
    cache.insert(2, "b");
    cache.insert(3, "c");
    assert_eq!(cache.get(&1), Some(&"a"));
    cache.set_capacity(1);
    assert_eq!(cache.get(&1), Some(&"a"));
    assert_eq!(cache.get(&3), None);
    assert_eq!(cache.get(&2), None);
}

#[test]
fn mru_zero_capacity_keeps_nothing() {
    let mut cache = MruCache::new(0);
    cache.insert("a", 1);
    assert_eq!(cache.get(&"a"), None);
}

#[test]
fn default_mru_cache_holds_one_hundred_entries() {
    let mut cache: MruCache<u32, u32> = MruCache::default();
    for i in 0..101 {
        cache.insert(i, i);
    }
    assert_eq!(cache.get(&0), None);
    assert_eq!(cache.get(&1), Some(&1));
}

#[test]
fn regex_cache_compiles_working_patterns() {
    let mut cache = RegexCache::default();
    let regex = cache.get(r"^a+b$").unwrap();
    assert!(regex.is_match("aaab"));
    assert!(!regex.is_match("ba"));
}

#[test]
fn regex_cache_hands_out_the_pattern_it_was_asked_for() {
    let mut cache = RegexCache::default();
    let first = cache.get("a+").unwrap();
    let second = cache.get("b+").unwrap();
    assert_eq!(first.as_str(), "a+");
    assert_eq!(second.as_str(), "b+");
    assert_eq!(cache.get("a+").unwrap().as_str(), "a+");
}

#[test]
fn mru_clone_keeps_order_and_values() {
    let mut cache = MruCache::new(2);
    cache.insert(String::from("one"), 1);
    cache.insert(String::from("two"), 2);
    let mut copy = cache.clone();
    copy.insert(String::from("three"), 3);
    assert_eq!(copy.get(&String::from("one")), None);
    assert_eq!(copy.get(&String::from("two")), Some(&2));
    assert_eq!(cache.get(&String::from("one")), Some(&1));
}
