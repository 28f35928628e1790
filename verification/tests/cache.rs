use beankey::LruCache;

#[test]
fn a_zero_capacity_cache_keeps_one_entry() {
    let mut cache: LruCache<u32> = LruCache::new(0);
    cache.insert("a".to_string(), 1);
    cache.insert("b".to_string(), 2);
    assert_eq!(cache.get("a"), None);
    assert_eq!(cache.get("b"), Some(2));
}

#[test]
fn a_full_cache_forgets_the_least_recently_used_entry() {
    let mut cache: LruCache<Vec<i32>> = LruCache::new(2);
    cache.insert("a".to_string(), vec![1]);
    cache.insert("b".to_string(), vec![2, 3]);
    assert_eq!(cache.get("a"), Some(vec![1]));
    cache.insert("c".to_string(), vec![4]);
    assert_eq!(cache.get("b"), None);
    assert_eq!(cache.get("a"), Some(vec![1]));
    assert_eq!(cache.get("c"), Some(vec![4]));
}

#[test]
fn replacing_a_stored_key_evicts_nothing() {
    let mut cache: LruCache<u32> = LruCache::new(2);
    cache.insert("a".to_string(), 1);
    cache.insert("b".to_string(), 2);
    cache.insert("a".to_string(), 10);
    assert_eq!(cache.get("a"), Some(10));
    assert_eq!(cache.get("b"), Some(2));
    assert_eq!(cache.get("z"), None);
}
