//! A bounded cache that forgets what was used longest ago.

use rust_im::mount::lru::LruCache;

fn k(s: &str) -> String {
    s.to_string()
}

#[test]
fn evicts_least_recently_used() {
    let mut cache = LruCache::new(2);
    cache.put(k("a"), 1);
    cache.put(k("b"), 2);
    assert_eq!(cache.get(&k("a")), Some(&1));
    cache.put(k("c"), 3);
    assert_eq!(cache.get(&k("b")), None, "被淘汰的必须是最久未用的 b");
    assert_eq!(cache.get(&k("a")), Some(&1));
    assert_eq!(cache.get(&k("c")), Some(&3));
}

#[test]
fn update_refreshes_without_eviction() {
    let mut cache = LruCache::new(2);
    cache.put(k("a"), 1);
    cache.put(k("b"), 2);
    assert_eq!(cache.put(k("a"), 10), None, "更新不该触发淘汰");
    assert_eq!(cache.len(), 2);
    assert_eq!(cache.get(&k("a")), Some(&10), "值必须已更新");
    cache.put(k("c"), 3);
    assert_eq!(cache.peek(&k("b")), None);
    assert_eq!(cache.peek(&k("a")), Some(&10));
}

#[test]
fn peek_does_not_refresh_recency() {
    let mut cache = LruCache::new(2);
    cache.put(k("a"), 1);
    cache.put(k("b"), 2);
    assert_eq!(cache.peek(&k("a")), Some(&1));
    cache.put(k("c"), 3);
    assert_eq!(cache.peek(&k("a")), None, "peek 不算「使用」，a 该被淘汰");
    assert_eq!(cache.peek(&k("b")), Some(&2));
}

#[test]
fn evicted_pair_is_returned() {
    let mut cache = LruCache::new(2);
    cache.put(k("a"), 1);
    cache.put(k("b"), 2);
    let evicted = cache.put(k("c"), 3);
    assert_eq!(evicted, Some((k("a"), 1)), "淘汰表尾 a 并归还");
}

#[test]
fn slot_reuse_keeps_links_consistent() {
    let mut cache = LruCache::new(2);
    for i in 0..100 {
        cache.put(format!("key{i}"), i);
    }
    assert_eq!(cache.len(), 2);
    assert_eq!(cache.mru_order(), vec![&k("key99"), &k("key98")]);
    assert_eq!(cache.slab_len(), 2, "slab 不该随插入次数增长");
    assert_eq!(cache.peek(&k("key99")), Some(&99));
    assert_eq!(cache.peek(&k("key98")), Some(&98));
}

#[test]
fn remove_frees_slot_for_reuse() {
    let mut cache = LruCache::new(3);
    cache.put(k("a"), 1);
    cache.put(k("b"), 2);
    cache.put(k("c"), 3);
    assert_eq!(cache.remove(&k("b")), Some(2));
    assert_eq!(cache.remove(&k("b")), None, "重复删除应该落空");
    assert_eq!(cache.mru_order(), vec![&k("c"), &k("a")]);
    assert_eq!(cache.get(&k("a")), Some(&1));
    assert_eq!(cache.get(&k("c")), Some(&3));
    assert_eq!(cache.len(), 2);
}

#[test]
fn remove_at_boundaries() {
    let mut cache = LruCache::new(3);
    cache.put(k("a"), 1);
    cache.put(k("b"), 2);
    cache.put(k("c"), 3);
    cache.remove(&k("c"));
    assert_eq!(cache.mru_order(), vec![&k("b"), &k("a")]);
    cache.remove(&k("a"));
    assert_eq!(cache.mru_order(), vec![&k("b")]);
    cache.remove(&k("b"));
    assert!(cache.is_empty());
    assert_eq!(cache.mru_order(), Vec::<&String>::new());
    cache.put(k("d"), 4);
    assert_eq!(cache.get(&k("d")), Some(&4));
}

#[test]
fn get_mut_refreshes_recency() {
    let mut cache = LruCache::new(2);
    cache.put(k("a"), vec![1]);
    cache.put(k("b"), vec![2]);
    cache.get_mut(&k("a")).unwrap().push(11);
    cache.put(k("c"), vec![3]);
    assert_eq!(cache.peek(&k("b")), None, "b 最久未用，被淘汰");
    assert_eq!(cache.peek(&k("a")), Some(&vec![1, 11]));
}

#[test]
fn zero_capacity_evicts_immediately() {
    let mut cache = LruCache::new(0);
    assert_eq!(cache.put(k("a"), 1), Some((k("a"), 1)));
    assert!(cache.is_empty());
}

#[test]
fn clear_resets_but_keeps_capacity() {
    let mut cache = LruCache::new(2);
    cache.put(k("a"), 1);
    cache.put(k("b"), 2);
    cache.clear();
    assert!(cache.is_empty());
    assert_eq!(cache.capacity(), 2);
    cache.put(k("c"), 3);
    assert_eq!(cache.get(&k("c")), Some(&3));
}

/// A key is in the cache or it is not, and asking does not count as a use.
#[test]
fn contains_key_does_not_count_as_use() {
    let mut cache = LruCache::new(2);
    cache.put(k("a"), 1);
    cache.put(k("b"), 2);
    assert!(cache.contains_key(&k("a")));
    assert!(!cache.contains_key(&k("z")));
    assert_eq!(cache.put(k("c"), 3), Some((k("a"), 1)));
}

/// Numbers are keys too.
#[test]
fn numbers_are_keys() {
    let mut cache: LruCache<u64, &str> = LruCache::new(2);
    assert_eq!(cache.put(1, "one"), None);
    assert_eq!(cache.put(2, "two"), None);
    assert_eq!(cache.get(&1), Some(&"one"));
    assert_eq!(cache.put(3, "three"), Some((2, "two")));
    assert_eq!(cache.peek(&2), None);
    assert_eq!(cache.remove(&1), Some("one"));
    assert!(!cache.contains_key(&1));
    assert_eq!(cache.mru_order(), vec![&3]);
    cache.clear();
    assert_eq!(cache.slab_len(), 0);
    assert_eq!(cache.get(&3), None);
}

/// Keys stand in the order of their last use, whatever was called.
#[test]
fn keys_stand_in_the_order_of_last_use() {
    let mut cache = LruCache::new(3);
    cache.put(k("a"), 1);
    cache.put(k("b"), 2);
    cache.put(k("c"), 3);
    assert_eq!(cache.mru_order(), [&k("c"), &k("b"), &k("a")]);
    cache.get(&k("a"));
    assert_eq!(cache.mru_order(), [&k("a"), &k("c"), &k("b")]);
    *cache.get_mut(&k("b")).unwrap() = 20;
    assert_eq!(cache.mru_order(), [&k("b"), &k("a"), &k("c")]);
    cache.get(&k("missing"));
    cache.peek(&k("c"));
    assert_eq!(cache.mru_order(), [&k("b"), &k("a"), &k("c")]);
    assert_eq!(cache.put(k("d"), 4), Some((k("c"), 3)));
    cache.remove(&k("b"));
    assert_eq!(cache.mru_order(), [&k("d"), &k("a")]);
    cache.put(k("a"), 10);
    assert_eq!(cache.mru_order(), [&k("a"), &k("d")]);
}
