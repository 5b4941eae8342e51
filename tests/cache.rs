use lru_cache::{Cache, ConfigError};

#[test]
fn test_cache() {
    let mut cache = Cache::new(3).unwrap();

    cache.insert(1, "aws".to_owned());
    assert_eq!(cache.get(&1), Some(&"aws".to_owned()));

    cache.insert(2, "gcp".to_owned());
    cache.insert(3, "azure".to_owned());
    assert_eq!(cache.get(&3), Some(&"azure".to_owned()));

    cache.insert(4, "vmware".to_owned());
    assert_eq!(cache.get(&2), Some(&"gcp".to_owned()));
    assert_eq!(cache.get(&1), None);

    cache.insert(5, "val".to_owned());
    assert_eq!(cache.get(&5), Some(&"val".to_owned()));
    assert_eq!(cache.get(&4), Some(&"vmware".to_owned()));
    assert_eq!(cache.get(&3), None);
    assert_eq!(cache.get(&2), Some(&"gcp".to_owned()));
    assert_eq!(cache.get(&1), None);
}

#[test]
fn zero_capacity_is_refused() {
    let r = Cache::<u32, u32>::new(0);
    assert!(matches!(r, Err(ConfigError::ZeroCapacity)));
}

#[test]
fn new_cache_is_empty() {
    let mut cache = Cache::<u32, u32>::new(1).unwrap();
    assert_eq!(cache.len(), 0);
    assert_eq!(cache.get(&0), None);
    assert_eq!(cache.len(), 0);
}

#[test]
fn size_never_exceeds_capacity() {
    let mut cache = Cache::new(2).unwrap();
    for k in 0u64..10 {
        cache.insert(k, k * 10);
        assert!(cache.len() <= 2);
        let _ = cache.get(&(k / 2));
        assert!(cache.len() <= 2);
    }
    assert_eq!(cache.len(), 2);
}

#[test]
fn capacity_one_keeps_the_last_key() {
    let mut cache = Cache::new(1).unwrap();
    cache.insert(7u8, 'a');
    cache.insert(8u8, 'b');
    assert_eq!(cache.len(), 1);
    assert_eq!(cache.get(&7), None);
    assert_eq!(cache.get(&8), Some(&'b'));
}

#[test]
fn evictions_follow_insertion_order() {
    let mut cache = Cache::new(3).unwrap();
    cache.insert(1, "one");
    cache.insert(2, "two");
    cache.insert(3, "three");
    assert_eq!(cache.len(), 3);

    cache.insert(4, "four");
    assert_eq!(cache.len(), 3);
    assert_eq!(cache.get(&1), None);

    cache.insert(5, "five");
    assert_eq!(cache.get(&2), None);

    cache.insert(6, "six");
    assert_eq!(cache.get(&3), None);

    assert_eq!(cache.get(&4), Some(&"four"));
    assert_eq!(cache.get(&5), Some(&"five"));
    assert_eq!(cache.get(&6), Some(&"six"));
}

#[test]
fn partial_fill_evicts_only_when_full() {
    let mut cache = Cache::new(3).unwrap();
    cache.insert(1, 1);
    cache.insert(2, 2);
    cache.insert(3, 3);
    assert_eq!(cache.len(), 3);
    assert_eq!(cache.get(&1), Some(&1));
    assert_eq!(cache.get(&2), Some(&2));
    assert_eq!(cache.get(&3), Some(&3));
}

#[test]
fn access_promotes_entry() {
    let mut cache = Cache::new(3).unwrap();
    cache.insert(1, 'a');
    cache.insert(2, 'b');
    cache.insert(3, 'c');
    assert_eq!(cache.get(&1), Some(&'a'));

    cache.insert(4, 'd');
    assert_eq!(cache.get(&2), None);
    cache.insert(5, 'e');
    assert_eq!(cache.get(&3), None);
    assert_eq!(cache.len(), 3);
    assert_eq!(cache.get(&1), Some(&'a'));
}

#[test]
fn promoted_entry_goes_after_capacity_new_keys() {
    let mut cache = Cache::new(2).unwrap();
    cache.insert(1, 'a');
    cache.insert(2, 'b');
    assert_eq!(cache.get(&1), Some(&'a'));
    cache.insert(3, 'c');
    cache.insert(4, 'd');
    assert_eq!(cache.get(&1), None);
    assert_eq!(cache.get(&3), Some(&'c'));
    assert_eq!(cache.get(&4), Some(&'d'));
}

#[test]
fn update_in_place_keeps_size() {
    let mut cache = Cache::new(2).unwrap();
    cache.insert(1, "old".to_owned());
    cache.insert(2, "two".to_owned());
    cache.insert(1, "new".to_owned());
    assert_eq!(cache.len(), 2);
    assert_eq!(cache.get(&2), Some(&"two".to_owned()));
    assert_eq!(cache.get(&1), Some(&"new".to_owned()));
    assert_eq!(cache.len(), 2);
}

#[test]
fn update_counts_as_use() {
    let mut cache = Cache::new(2).unwrap();
    cache.insert(1, 10);
    cache.insert(2, 20);
    cache.insert(1, 11);
    cache.insert(3, 30);
    assert_eq!(cache.get(&2), None);
    assert_eq!(cache.get(&1), Some(&11));
    assert_eq!(cache.get(&3), Some(&30));
}

#[test]
fn miss_changes_nothing() {
    let mut cache = Cache::new(2).unwrap();
    cache.insert(1, 10);
    cache.insert(2, 20);
    assert_eq!(cache.get(&3), None);
    assert_eq!(cache.len(), 2);
    cache.insert(4, 40);
    assert_eq!(cache.get(&1), None);
    assert_eq!(cache.get(&2), Some(&20));
    assert_eq!(cache.get(&4), Some(&40));
}
