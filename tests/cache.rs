use lru_cache::LruCache;

#[test]
fn test_put_get() {
    let mut cache = LruCache::new(16);
    cache.put(1, 2);
    assert_eq!(*cache.get(&1).unwrap(), 2);
}

#[test]
fn test_update() {
    let mut cache = LruCache::new(16);
    cache.put(1, "hello");
    cache.put(2, "new");
    cache.put(2, "world");
    assert_eq!(*cache.get(&1).unwrap(), "hello");
    assert_eq!(*cache.get(&2).unwrap(), "world");
}

#[test]
fn test_eviction() {
    let mut cache = LruCache::new(2);
    cache.put(1, "hello");
    cache.put(2, "world");
    cache.put(3, "hello");
    assert!(cache.get(&1).is_none());
    assert!(cache.get(&2).is_some());
    assert!(cache.get(&3).is_some());
}

#[test]
fn test_put_get_strings() {
    let mut cache = LruCache::new(1);
    cache.put(format!("hola, {}", "s"), 101);
    let s = format!("hola, {}", "s");
    assert_eq!(*cache.get(&s).unwrap(), 101);
}

#[test]
fn eviction_returns_the_kept_values() {
    let mut cache = LruCache::new(2);
    cache.put(1, "hello");
    cache.put(2, "world");
    cache.put(3, "hello");
    assert_eq!(cache.get(&1), None);
    assert_eq!(cache.get(&2), Some(&"world"));
    assert_eq!(cache.get(&3), Some(&"hello"));
}

#[test]
fn get_on_empty_cache_misses() {
    let mut cache: LruCache<u64, u64> = LruCache::new(4);
    assert_eq!(cache.get(&7), None);
    cache.put(7, 70);
    assert_eq!(cache.get(&8), None);
    assert_eq!(cache.get(&7), Some(&70));
}

#[test]
fn recency_via_get_changes_the_victim() {
    let mut cache = LruCache::new(2);
    cache.put(1, "a");
    cache.put(2, "b");
    assert_eq!(cache.get(&1), Some(&"a"));
    cache.put(3, "c");
    assert_eq!(cache.get(&2), None);
    assert_eq!(cache.get(&1), Some(&"a"));
    assert_eq!(cache.get(&3), Some(&"c"));
}

#[test]
fn many_puts_stay_within_capacity() {
    let mut cache = LruCache::new(3);
    for i in 0..10u32 {
        cache.put(i, i * 10);
    }
    let mut held = 0;
    for i in 0..10u32 {
        if cache.get(&i).is_some() {
            held += 1;
        }
    }
    assert_eq!(held, 3);
    assert_eq!(cache.get(&7), Some(&70));
    assert_eq!(cache.get(&8), Some(&80));
    assert_eq!(cache.get(&9), Some(&90));
}

#[test]
fn repeated_puts_of_one_key_hold_one_entry() {
    let mut cache = LruCache::new(2);
    cache.put(5, 1);
    cache.put(5, 2);
    cache.put(5, 3);
    cache.put(6, 4);
    assert_eq!(cache.get(&5), Some(&3));
    assert_eq!(cache.get(&6), Some(&4));
}

#[test]
fn hit_makes_the_key_most_recently_used() {
    let mut cache = LruCache::new(3);
    cache.put(1, 'a');
    cache.put(2, 'b');
    cache.put(3, 'c');
    assert_eq!(cache.get(&1), Some(&'a'));
    cache.put(4, 'd');
    cache.put(5, 'e');
    assert_eq!(cache.get(&2), None);
    assert_eq!(cache.get(&3), None);
    assert_eq!(cache.get(&1), Some(&'a'));
}

#[test]
fn update_makes_the_key_most_recently_used() {
    let mut cache = LruCache::new(2);
    cache.put(1, "a");
    cache.put(2, "b");
    cache.put(1, "c");
    cache.put(3, "d");
    assert_eq!(cache.get(&2), None);
    assert_eq!(cache.get(&1), Some(&"c"));
    assert_eq!(cache.get(&3), Some(&"d"));
}

#[test]
fn full_cache_evicts_the_least_recently_used() {
    let mut cache = LruCache::new(3);
    cache.put(1, 10);
    cache.put(2, 20);
    cache.put(3, 30);
    assert_eq!(cache.get(&1), Some(&10));
    cache.put(2, 21);
    cache.put(4, 40);
    assert_eq!(cache.get(&3), None);
    assert_eq!(cache.get(&1), Some(&10));
    assert_eq!(cache.get(&2), Some(&21));
    assert_eq!(cache.get(&4), Some(&40));
}

#[test]
fn capacity_one_keeps_only_the_last_key() {
    let mut cache = LruCache::new(1);
    cache.put(1, "x");
    cache.put(2, "y");
    assert_eq!(cache.get(&1), None);
    assert_eq!(cache.get(&2), Some(&"y"));
    cache.put(2, "z");
    assert_eq!(cache.get(&2), Some(&"z"));
}

#[test]
fn middle_entry_moves_keep_the_list_consistent() {
    let mut cache = LruCache::new(4);
    for i in 1..=4u8 {
        cache.put(i, i);
    }
    assert_eq!(cache.get(&2), Some(&2));
    assert_eq!(cache.get(&3), Some(&3));
    assert_eq!(cache.get(&2), Some(&2));
    cache.put(5, 5);
    cache.put(6, 6);
    assert_eq!(cache.get(&1), None);
    assert_eq!(cache.get(&4), None);
    assert_eq!(cache.get(&3), Some(&3));
    assert_eq!(cache.get(&2), Some(&2));
    cache.put(7, 7);
    assert_eq!(cache.get(&5), None);
    assert_eq!(cache.get(&6), Some(&6));
    assert_eq!(cache.get(&7), Some(&7));
}
