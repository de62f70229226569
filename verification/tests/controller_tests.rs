use lecar::controller::Controller;
use lecar::enums::AccessMethod;

#[test]
fn test_controller() {
    let cache_size: usize = 200;
    let lfu_cache_size: usize = 20;
    let lru_cache_size: usize = 20;

    let mut cache_controller = Controller::new(cache_size, lfu_cache_size, lru_cache_size);

    let rounds: u32 = rand::random_range(1_000..2_000);
    for _ in 0..rounds {
        let key: u32 = rand::random_range(0..300);
        let key = key.to_string();

        match AccessMethod::from_bool(rand::random_bool(0.10)) {
            AccessMethod::READ => {
                cache_controller.get(&key);
            }
            AccessMethod::WRITE => {
                let data = "abcdefg";
                cache_controller.insert(&key, data.to_string());
            }
        }
    }

    let lengths = cache_controller.len();
    assert_eq!(lengths.0, cache_size);
}

#[test]
fn cold_miss_changes_nothing() {
    let mut c = Controller::new(2, 1, 1);
    assert_eq!(c.get("a"), None);
    assert_eq!(c.len(), (0, 0, 0));
}

#[test]
fn basic_admit_and_hit() {
    let mut c = Controller::new(2, 1, 1);
    c.insert("a", "1".to_string());
    c.insert("b", "2".to_string());
    assert_eq!(c.get("a"), Some("1".to_string()));
    assert_eq!(c.len().0, 2);
    let idx: usize = c.get_index_of("a").unwrap();
    let item = c.get_index(idx).unwrap();
    assert_eq!(item.frequency(), 1);
}

#[test]
fn eviction_then_ghost_hit() {
    let mut c = Controller::new(2, 1, 1);
    c.insert("a", "1".to_string());
    c.insert("b", "2".to_string());
    // All frequencies and last-used times favour evicting "a" under either
    // policy (ties break by insertion order), so this displaces "a" into a
    // ghost history.
    c.insert("c", "3".to_string());
    let lengths = c.len();
    assert_eq!(lengths.0, 2);
    assert_eq!(lengths.1 + lengths.2, 1);
    assert_eq!(c.get_index_of("a"), None);
    // The ghost hit revives "a" with its old value; "b" is the victim under
    // either policy (lowest frequency, earliest last-used).
    assert_eq!(c.get("a"), Some("1".to_string()));
    let lengths = c.len();
    assert_eq!(lengths.0, 2);
    assert!(c.get_index_of("a").is_some());
    assert!(c.get_index_of("c").is_some());
    assert_eq!(lengths.1 + lengths.2, 1);
}

#[test]
fn repeated_hot_key() {
    let mut c = Controller::new(2, 1, 1);
    c.insert("x", "1".to_string());
    for _ in 0..10 {
        assert_eq!(c.get("x"), Some("1".to_string()));
    }
    let idx: usize = c.get_index_of("x").unwrap();
    let item = c.get_index(idx).unwrap();
    assert_eq!(item.frequency(), 10);
    assert_eq!(c.len(), (1, 0, 0));
}

#[test]
fn update_in_place() {
    let mut c = Controller::new(2, 1, 1);
    c.insert("k", "v1".to_string());
    c.insert("k", "v2".to_string());
    assert_eq!(c.get("k"), Some("v2".to_string()));
    assert_eq!(c.len().0, 1);
    let idx: usize = c.get_index_of("k").unwrap();
    let item = c.get_index(idx).unwrap();
    // One touch for the in-place update, one for the hit; creation starts
    // the counter at zero.
    assert_eq!(item.frequency(), 2);
}

#[test]
fn ghost_history_overflow() {
    let mut c = Controller::new(1, 1, 0);
    c.insert("a", "1".to_string());
    c.insert("b", "2".to_string());
    c.insert("c", "3".to_string());
    let lengths = c.len();
    assert_eq!(lengths.0, 1);
    assert!(lengths.1 <= 1);
    assert_eq!(lengths.2, 0);
    assert!(c.get_index_of("c").is_some());
}

#[test]
fn idempotent_reinsert_accumulates_two_touches() {
    let mut c = Controller::new(4, 1, 1);
    c.insert("k", "v".to_string());
    let idx: usize = c.get_index_of("k").unwrap();
    let before: usize = c.get_index(idx).unwrap().frequency();
    c.insert("k", "v".to_string());
    c.insert("k", "v".to_string());
    let idx: usize = c.get_index_of("k").unwrap();
    let item = c.get_index(idx).unwrap();
    assert_eq!(item.frequency(), before + 2);
    assert_eq!(item.value(), "v");
    assert_eq!(c.len().0, 1);
}

#[test]
fn ghost_revival_empties_histories() {
    let mut c = Controller::new(1, 2, 2);
    c.insert("a", "1".to_string());
    c.insert("b", "2".to_string());
    // "a" was displaced into a ghost history; reviving it must pull it out
    // of every history.
    assert_eq!(c.get("a"), Some("1".to_string()));
    assert!(c.get_index_of("a").is_some());
    let lengths = c.len();
    assert_eq!(lengths.0, 1);
    // "b" was displaced by the revival; it is the only ghost left.
    assert_eq!(lengths.1 + lengths.2, 1);
    assert_eq!(c.get("zzz"), None);
}

#[test]
fn unit_capacity_evicts_every_time() {
    let mut c = Controller::new(1, 3, 3);
    c.insert("a", "1".to_string());
    c.insert("b", "2".to_string());
    c.insert("c", "3".to_string());
    assert_eq!(c.len().0, 1);
    assert!(c.get_index_of("c").is_some());
    assert!(c.full());
}

#[test]
fn zero_capacity_histories_forbid_ghost_hits() {
    let mut c = Controller::new(1, 0, 0);
    c.insert("a", "1".to_string());
    c.insert("b", "2".to_string());
    // "a" was evicted, and no history could keep it.
    assert_eq!(c.len(), (1, 0, 0));
    assert_eq!(c.get("a"), None);
}
