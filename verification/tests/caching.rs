use mimo_proxy::cache::{cache_key, ReasoningCache};
use mimo_proxy::json::Json;
use mimo_proxy::wire::parse;
use std::collections::hash_map::DefaultHasher;
use std::hash::{Hash, Hasher};

fn json(text: &str) -> Json {
    parse(text.as_bytes()).unwrap()
}

fn put(cache: &mut ReasoningCache, key: &str, reasoning: &str, now: u64, ttl: u64, max: usize) {
    cache.store(key.to_string(), reasoning.to_string(), now, ttl, max);
}

#[test]
fn keys_are_hashes_in_hexadecimal() {
    let mut hasher = DefaultHasher::new();
    "hello".hash(&mut hasher);
    "[{\"id\":\"1\"}]".hash(&mut hasher);
    let expected = format!("{:x}", hasher.finish());
    assert_eq!(cache_key("hello", &json("[ {\"id\" : \"1\"} ]")), expected);
}

#[test]
fn keys_depend_on_content_and_calls() {
    let calls = json("[{\"id\":\"1\"}]");
    let others = json("[{\"id\":\"2\"}]");
    assert_eq!(cache_key("a", &calls), cache_key("a", &json("[{\"id\":\"1\"}]")));
    assert_ne!(cache_key("a", &calls), cache_key("b", &calls));
    assert_ne!(cache_key("a", &calls), cache_key("a", &others));
}

#[test]
fn keys_tell_where_the_content_ends() {
    assert_ne!(cache_key("1", &json("23")), cache_key("12", &json("3")));
}

#[test]
fn keys_do_not_depend_on_the_order_of_members() {
    let a = json("[{\"id\":\"1\",\"type\":\"function\"}]");
    let b = json("[{\"type\":\"function\",\"id\":\"1\"}]");
    assert_eq!(cache_key("", &a), cache_key("", &b));
}

#[test]
fn stored_text_is_recalled_until_it_expires() {
    let mut cache = ReasoningCache::new();
    put(&mut cache, "k", "thought", 100, 10, 5);
    assert_eq!(cache.recall("k", 100), Some("thought".to_string()));
    assert_eq!(cache.recall("k", 109), Some("thought".to_string()));
    assert_eq!(cache.recall("k", 110), None);
    assert_eq!(cache.recall("other", 100), None);
    assert_eq!(cache.len(), 1);
}

#[test]
fn entries_know_their_times() {
    let mut cache = ReasoningCache::new();
    put(&mut cache, "k", "thought", 100, 10, 5);
    let entry = cache.get("k").unwrap();
    assert_eq!(entry.reasoning, "thought");
    assert_eq!(entry.inserted_at, 100);
    assert_eq!(entry.expires_at, 110);
    assert!(cache.get("x").is_none());
}

#[test]
fn same_key_is_replaced() {
    let mut cache = ReasoningCache::new();
    put(&mut cache, "k", "one", 1, 100, 5);
    put(&mut cache, "k", "two", 2, 100, 5);
    assert_eq!(cache.len(), 1);
    assert_eq!(cache.recall("k", 3), Some("two".to_string()));
}

#[test]
fn oldest_entry_leaves_first() {
    let mut cache = ReasoningCache::new();
    put(&mut cache, "a", "1", 1, 100, 2);
    put(&mut cache, "b", "2", 2, 100, 2);
    put(&mut cache, "c", "3", 3, 100, 2);
    assert_eq!(cache.len(), 2);
    assert_eq!(cache.recall("a", 3), None);
    assert_eq!(cache.recall("b", 3), Some("2".to_string()));
    assert_eq!(cache.recall("c", 3), Some("3".to_string()));
}

#[test]
fn reading_does_not_make_an_entry_younger() {
    let mut cache = ReasoningCache::new();
    put(&mut cache, "a", "1", 1, 100, 2);
    put(&mut cache, "b", "2", 2, 100, 2);
    assert!(cache.recall("a", 2).is_some());
    put(&mut cache, "c", "3", 3, 100, 2);
    assert!(cache.get("a").is_none());
}

#[test]
fn storing_again_makes_an_entry_younger() {
    let mut cache = ReasoningCache::new();
    put(&mut cache, "a", "1", 1, 100, 2);
    put(&mut cache, "b", "2", 2, 100, 2);
    put(&mut cache, "a", "1", 3, 100, 2);
    put(&mut cache, "c", "3", 4, 100, 2);
    assert!(cache.get("a").is_some());
    assert!(cache.get("b").is_none());
}

#[test]
fn expired_entries_go_before_fresh_ones_do() {
    let mut cache = ReasoningCache::new();
    put(&mut cache, "short", "1", 5, 1, 2);
    put(&mut cache, "long", "2", 1, 100, 2);
    put(&mut cache, "new", "3", 10, 100, 2);
    assert_eq!(cache.len(), 2);
    assert!(cache.get("short").is_none());
    assert!(cache.get("long").is_some());
}

#[test]
fn smaller_bound_evicts_several() {
    let mut cache = ReasoningCache::new();
    for (i, key) in ["a", "b", "c", "d"].iter().enumerate() {
        put(&mut cache, key, "x", i as u64, 100, 10);
    }
    put(&mut cache, "e", "x", 9, 100, 2);
    assert_eq!(cache.len(), 2);
    assert!(cache.get("d").is_some());
    assert!(cache.get("e").is_some());
}

#[test]
fn bound_of_zero_keeps_nothing() {
    let mut cache = ReasoningCache::new();
    put(&mut cache, "a", "1", 1, 100, 0);
    assert_eq!(cache.len(), 0);
}

#[test]
fn text_without_lifetime_is_not_kept() {
    let mut cache = ReasoningCache::new();
    put(&mut cache, "a", "1", 1, 0, 10);
    assert_eq!(cache.len(), 0);
}

#[test]
fn sweeping_drops_what_expired() {
    let mut cache = ReasoningCache::new();
    put(&mut cache, "a", "1", 1, 10, 10);
    put(&mut cache, "b", "2", 1, 20, 10);
    assert_eq!(cache.sweep(10), 0);
    assert_eq!(cache.sweep(11), 1);
    assert_eq!(cache.len(), 1);
    assert_eq!(cache.recall("b", 11), Some("2".to_string()));
    assert_eq!(cache.sweep(21), 1);
    assert_eq!(cache.len(), 0);
}
