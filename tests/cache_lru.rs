use lru_cache::cache_lru::CacheLru;
use lru_cache::cache_lru_trait::CacheLruTrait;

#[test]
fn test_get() {
    let mut cache = CacheLru::new(3);
    cache.set("A", String::from("value A"));
    assert_eq!(cache.get("A").unwrap(), "value A");
    assert_eq!(cache.get("B"), None);
}

#[test]
fn test_set() {
    let mut cache = CacheLru::new(3);
    cache.set("A", 1);
    assert_eq!(cache.get("A").unwrap(), &1);
    cache.set("A", 2);
    assert_eq!(cache.get("A").unwrap(), &2);

    cache.set("B", 1);
    cache.set("C", 1);
    cache.set("D", 1);
    assert_eq!(cache.get("B").unwrap(), &1);
    assert_eq!(cache.get("A"), None);
}

#[test]
fn evicts_oldest_after_four_sets() {
    let mut cache = CacheLru::new(3);
    cache.set("A", String::from("a"));
    cache.set("B", String::from("b"));
    cache.set("C", String::from("c"));
    cache.set("D", String::from("d"));
    assert_eq!(cache.get("A"), None);
    assert_eq!(cache.get("B").unwrap(), "b");
    assert_eq!(cache.get("C").unwrap(), "c");
    assert_eq!(cache.get("D").unwrap(), "d");
    assert_eq!(cache.len(), 3);
}

#[test]
fn read_key_survives_eviction() {
    let mut cache = CacheLru::new(3);
    cache.set("A", 1);
    cache.set("B", 2);
    cache.set("C", 3);
    assert_eq!(cache.get("A"), Some(&1));
    cache.set("D", 4);
    assert_eq!(cache.get("B"), None);
    assert_eq!(cache.get("A"), Some(&1));
    assert_eq!(cache.get("C"), Some(&3));
    assert_eq!(cache.get("D"), Some(&4));
}

#[test]
fn update_keeps_single_entry() {
    let mut cache = CacheLru::new(3);
    cache.set("A", 1);
    cache.set("A", 2);
    assert_eq!(cache.get("A"), Some(&2));
    assert_eq!(cache.len(), 1);
}

#[test]
fn latest_value_wins_after_other_sets() {
    let mut cache = CacheLru::new(2);
    cache.set(7u64, 10);
    cache.set(7u64, 20);
    cache.set(8u64, 30);
    cache.set(7u64, 40);
    assert_eq!(cache.get(7), Some(&40));
    assert_eq!(cache.get(8), Some(&30));
}

#[test]
fn occupancy_never_exceeds_capacity() {
    let mut cache = CacheLru::new(4);
    let mut k: u32 = 0;
    while k < 50 {
        cache.set(k % 9, k);
        assert!(cache.len() <= 4);
        k += 1;
    }
    assert_eq!(cache.len(), 4);
}

#[test]
fn fifo_eviction_of_untouched_keys() {
    let mut cache = CacheLru::new(4);
    for k in 0u32..5 {
        cache.set(k, k * 100);
    }
    assert_eq!(cache.get(0), None);
    for k in 1u32..5 {
        assert_eq!(cache.get(k), Some(&(k * 100)));
    }
}

#[test]
fn fifo_eviction_with_capacity_one() {
    let mut cache = CacheLru::new(1);
    cache.set("x", 1);
    cache.set("y", 2);
    assert_eq!(cache.get("x"), None);
    assert_eq!(cache.get("y"), Some(&2));
    assert_eq!(cache.len(), 1);
}

#[test]
fn update_does_not_evict() {
    let mut cache = CacheLru::new(2);
    cache.set("A", 1);
    cache.set("B", 2);
    cache.set("A", 3);
    assert_eq!(cache.len(), 2);
    assert_eq!(cache.get("B"), Some(&2));
    assert_eq!(cache.get("A"), Some(&3));
}

#[test]
fn update_refreshes_recency() {
    let mut cache = CacheLru::new(2);
    cache.set("A", 1);
    cache.set("B", 2);
    cache.set("A", 3);
    cache.set("C", 4);
    assert_eq!(cache.get("B"), None);
    assert_eq!(cache.get("A"), Some(&3));
    assert_eq!(cache.get("C"), Some(&4));
}

#[test]
fn miss_leaves_order_unchanged() {
    let mut cache = CacheLru::new(2);
    cache.set("A", 1);
    cache.set("B", 2);
    assert_eq!(cache.get("Z"), None);
    assert_eq!(cache.len(), 2);
    cache.set("C", 3);
    assert_eq!(cache.get("A"), None);
    assert_eq!(cache.get("B"), Some(&2));
    assert_eq!(cache.get("C"), Some(&3));
}

#[test]
fn zero_capacity_stores_nothing() {
    let mut cache = CacheLru::new(0);
    cache.set("A", 1);
    assert_eq!(cache.len(), 0);
    assert_eq!(cache.get("A"), None);
}

#[test]
fn new_cache_is_empty() {
    let mut cache: CacheLru<u8, u8> = CacheLru::new(5);
    assert_eq!(cache.len(), 0);
    assert_eq!(cache.get(1), None);
}
