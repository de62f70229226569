use lecar::cache::Cache;
use lecar::cache_item::CacheItem;
use lecar::counter::Counter;
use lecar::enums::{AccessMethod, Policy};
use lecar::learner::updated_probability;
use lecar::policy_cache::PolicyCache;
use lecar::types::LecarData;

#[test]
fn cache_item_metadata() {
    let mut item = CacheItem::new("k".to_string(), "v".to_string(), 3);
    assert_eq!(item.key(), "k");
    assert_eq!(item.value(), "v");
    assert_eq!(item.frequency(), 0);
    assert_eq!(item.last_used(), 3);
    item.touch(7);
    assert_eq!(item.frequency(), 1);
    assert_eq!(item.last_used(), 7);
    item.update("w".to_string(), 9);
    assert_eq!(item.frequency(), 2);
    assert_eq!(item.last_used(), 9);
    assert_eq!(item.value(), "w");
    assert_eq!(item.value_owned(), "w".to_string());
}

#[test]
fn cache_update_in_place_keeps_position() {
    let mut cache = Cache::new(2);
    assert!(cache.insert_with_policy(CacheItem::new("a".to_string(), "1".to_string(), 0), Policy::LFU, 0).is_none());
    assert!(cache.insert_with_policy(CacheItem::new("b".to_string(), "2".to_string(), 1), Policy::LFU, 1).is_none());
    assert!(cache.insert_with_policy(CacheItem::new("a".to_string(), "9".to_string(), 5), Policy::LFU, 5).is_none());
    assert_eq!(cache.get_index_of("a"), Some(0));
    let item = cache.get_index(0).unwrap();
    assert_eq!(item.value(), "9");
    assert_eq!(item.frequency(), 1);
    assert_eq!(item.last_used(), 5);
    assert_eq!(cache.len(), 2);
}

#[test]
fn cache_lfu_evicts_lowest_frequency() {
    let mut cache = Cache::new(2);
    cache.insert_with_policy(CacheItem::new("a".to_string(), "1".to_string(), 0), Policy::LFU, 0);
    cache.insert_with_policy(CacheItem::new("b".to_string(), "2".to_string(), 1), Policy::LFU, 1);
    assert!(cache.get("a", 2).is_some());
    let victim = cache
        .insert_with_policy(CacheItem::new("c".to_string(), "3".to_string(), 3), Policy::LFU, 3)
        .unwrap();
    assert_eq!(victim.key(), "b");
    assert!(cache.contains("a"));
    assert!(cache.contains("c"));
    assert!(!cache.contains("b"));
}

#[test]
fn cache_lru_evicts_earliest_last_used() {
    let mut cache = Cache::new(2);
    cache.insert_with_policy(CacheItem::new("a".to_string(), "1".to_string(), 0), Policy::LRU, 0);
    cache.insert_with_policy(CacheItem::new("b".to_string(), "2".to_string(), 1), Policy::LRU, 1);
    assert!(cache.get("b", 2).is_some());
    let victim = cache
        .insert_with_policy(CacheItem::new("c".to_string(), "3".to_string(), 3), Policy::LRU, 3)
        .unwrap();
    assert_eq!(victim.key(), "a");
}

#[test]
fn cache_eviction_tie_breaks_by_insertion_order() {
    let mut cache = Cache::new(2);
    cache.insert_with_policy(CacheItem::new("a".to_string(), "1".to_string(), 0), Policy::LFU, 0);
    cache.insert_with_policy(CacheItem::new("b".to_string(), "2".to_string(), 0), Policy::LFU, 0);
    let victim = cache
        .insert_with_policy(CacheItem::new("c".to_string(), "3".to_string(), 1), Policy::LFU, 1)
        .unwrap();
    assert_eq!(victim.key(), "a");
}

#[test]
fn cache_plain_insert_refuses_new_key_when_full() {
    let mut cache = Cache::new(1);
    assert!(cache.insert(CacheItem::new("a".to_string(), "1".to_string(), 0)).is_none());
    let rejected = cache.insert(CacheItem::new("b".to_string(), "2".to_string(), 1)).unwrap();
    assert_eq!(rejected.key(), "b");
    // Replacing a resident key is always possible.
    assert!(cache.insert(CacheItem::new("a".to_string(), "3".to_string(), 2)).is_none());
    let item = cache.get_index(0).unwrap();
    assert_eq!(item.value(), "3");
    assert_eq!(item.frequency(), 0);
}

#[test]
fn cache_misses_and_bounds() {
    let mut cache = Cache::new(2);
    assert!(cache.get("nope", 1).is_none());
    assert!(cache.get_index(0).is_none());
    assert_eq!(cache.get_index_of("nope"), None);
    assert!(!cache.full());
    cache.insert_with_policy(CacheItem::new("a".to_string(), "1".to_string(), 0), Policy::LFU, 0);
    cache.insert_with_policy(CacheItem::new("b".to_string(), "2".to_string(), 1), Policy::LFU, 1);
    assert!(cache.full());
}

fn item_with_frequency(key: &str, frequency: usize, now: u64) -> CacheItem {
    let mut item = CacheItem::new(key.to_string(), String::new(), now);
    for _ in 0..frequency {
        item.touch(now);
    }
    item
}

#[test]
fn policy_cache_overflow_drops_lowest_frequency() {
    let mut history = PolicyCache::new(Policy::LFU, 2);
    history.insert(item_with_frequency("a", 2, 0), 0);
    history.insert(item_with_frequency("b", 1, 1), 1);
    assert!(history.full());
    history.insert(item_with_frequency("c", 3, 2), 2);
    assert_eq!(history.len(), 2);
    assert!(history.contains("a"));
    assert!(!history.contains("b"));
    assert!(history.contains("c"));
}

#[test]
fn policy_cache_lru_overflow_drops_earliest_use() {
    let mut history = PolicyCache::new(Policy::LRU, 2);
    history.insert(item_with_frequency("a", 1, 5), 10);
    history.insert(item_with_frequency("b", 1, 3), 11);
    history.insert(item_with_frequency("c", 1, 9), 12);
    assert_eq!(history.len(), 2);
    assert!(history.contains("a"));
    assert!(!history.contains("b"));
    assert!(history.contains("c"));
}

#[test]
fn policy_cache_eject_key_returns_admission_time() {
    let mut history = PolicyCache::new(Policy::LFU, 3);
    history.insert(item_with_frequency("a", 1, 2), 7);
    let (item, admitted_at): (lecar::cache_item::CacheItem, u64) = history.maybe_eject_key("a").unwrap();
    assert_eq!(item.key(), "a");
    assert_eq!(admitted_at, 7);
    assert_eq!(history.len(), 0);
    assert!(history.maybe_eject_key("a").is_none());
}

#[test]
fn policy_cache_ejections_come_in_metric_order() {
    let mut history = PolicyCache::new(Policy::LFU, 3);
    history.insert(item_with_frequency("three", 3, 0), 0);
    history.insert(item_with_frequency("one", 1, 0), 1);
    history.insert(item_with_frequency("two", 2, 0), 2);
    history.eject();
    assert!(!history.contains("one"));
    history.eject();
    assert!(!history.contains("two"));
    assert!(history.contains("three"));
    history.eject();
    assert_eq!(history.len(), 0);
    // Ejecting from an empty history is a no-op.
    history.eject();
    assert_eq!(history.len(), 0);
}

#[test]
fn policy_cache_overflow_can_drop_the_newcomer() {
    // Admission pushes first and then discards the extremum of the combined
    // set, so a newcomer that is itself the most evictable leaves at once.
    let mut history = PolicyCache::new(Policy::LFU, 1);
    history.insert(item_with_frequency("keep", 5, 0), 0);
    history.insert(item_with_frequency("drop", 1, 1), 1);
    assert!(history.contains("keep"));
    assert!(!history.contains("drop"));
    assert_eq!(history.len(), 1);
}

#[test]
fn counter_flush_threshold() {
    let mut counter = Counter::default();
    assert!(!counter.should_flush());
    counter.num_queries = 999;
    assert!(!counter.should_flush());
    counter.num_queries = 1000;
    assert!(counter.should_flush());
}

#[test]
fn policy_cache_capacity_zero_takes_nothing() {
    let mut history = PolicyCache::new(Policy::LFU, 0);
    history.insert(item_with_frequency("a", 1, 0), 0);
    assert_eq!(history.len(), 0);
    assert!(!history.contains("a"));
}

#[test]
fn learner_fresh_ghost_hit_moves_probability_exactly() {
    // Dwell zero gives full reward; the boost is the cubic approximation of
    // exp(0.45) in fixed point.
    assert_eq!(updated_probability(500_000, 0, Policy::LFU), 389_645);
    assert_eq!(updated_probability(500_000, 0, Policy::LRU), 610_354);
}

#[test]
fn learner_stale_ghost_hit_moves_nothing() {
    // After a thousand ticks the reward has decayed to zero, so the weights
    // are unchanged and renormalization returns the same probability.
    assert_eq!(updated_probability(500_000, 1_000, Policy::LFU), 500_000);
    assert_eq!(updated_probability(500_000, 1_000, Policy::LRU), 500_000);
}

#[test]
fn learner_probability_never_reaches_zero_or_one() {
    let mut p: u64 = 500_000;
    for _ in 0..100 {
        let next: u64 = updated_probability(p, 0, Policy::LFU);
        assert!(next <= p);
        assert!(next >= 1);
        p = next;
    }
    assert_eq!(p, 1);
    let mut q: u64 = 500_000;
    for _ in 0..100 {
        let next: u64 = updated_probability(q, 0, Policy::LRU);
        assert!(next >= q);
        assert!(next <= 999_999);
        q = next;
    }
    // Integer rounding settles just below the clamp ceiling.
    assert_eq!(q, 999_998);
}

#[test]
fn policy_from_bool() {
    assert!(matches!(Policy::from_bool(true), Policy::LFU));
    assert!(matches!(Policy::from_bool(false), Policy::LRU));
    assert!(matches!(Policy::LFU.other(), Policy::LRU));
    assert!(matches!(Policy::LRU.other(), Policy::LFU));
}

#[test]
fn access_method_from_bool() {
    assert!(matches!(AccessMethod::from_bool(true), AccessMethod::READ));
    assert!(matches!(AccessMethod::from_bool(false), AccessMethod::WRITE));
}

#[test]
fn counter_reset_keeps_size() {
    let mut counter = Counter::default();
    counter.size = 44;
    counter.num_queries = 17;
    counter.hits = 9;
    counter.misses = 8;
    counter.memory_size = 123;
    counter.reset();
    assert_eq!(counter.size, 44);
    assert_eq!(counter.num_queries, 0);
    assert_eq!(counter.hits, 0);
    assert_eq!(counter.misses, 0);
    assert_eq!(counter.memory_size, 0);
}

#[test]
fn lecar_data_carries_key_and_value() {
    let data = LecarData { key: "k".to_string(), value: "v".to_string() };
    assert_eq!(data.key, "k");
    assert_eq!(data.value, "v");
}
