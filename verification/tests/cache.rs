use lruk::cache::Cache;

#[test]
fn new_cache_is_empty() {
    let cache = Cache::<u32, 4, 2>::new(0);
    assert!(cache.is_empty());
    assert_eq!(cache.len(), 0);
    assert_eq!(cache.capacity(), 4);
    assert_eq!(cache.clock(), 0);
    assert_eq!(cache.peek(1), None);
}

#[test]
fn get_returns_what_was_put() {
    let mut cache = Cache::<&str, 4, 2>::new(0);
    cache.put(1, "one");
    cache.put(2, "two");
    assert_eq!(cache.get(1), Some(&"one"));
    assert_eq!(cache.get(2), Some(&"two"));
    assert_eq!(cache.get(3), None);
    assert_eq!(cache.len(), 2);
    assert!(!cache.is_empty());
}

#[test]
fn put_replaces_the_value_of_a_held_key() {
    let mut cache = Cache::<String, 2, 2>::new(0);
    cache.put(7, String::from("old"));
    cache.put(7, String::from("new"));
    assert_eq!(cache.len(), 1);
    assert_eq!(cache.peek(7), Some(&String::from("new")));
}

#[test]
fn a_miss_changes_nothing() {
    let mut cache = Cache::<u32, 2, 2>::new(0);
    cache.put(1, 10);
    let clock = cache.clock();
    assert_eq!(cache.get(2), None);
    assert_eq!(cache.clock(), clock);
    assert_eq!(cache.len(), 1);
}

#[test]
fn every_reference_ticks_the_clock() {
    let mut cache = Cache::<u32, 2, 2>::new(0);
    cache.put(1, 10);
    cache.put(1, 11);
    cache.get(1);
    cache.peek(1);
    assert_eq!(cache.clock(), 3);
}

#[test]
fn len_never_exceeds_capacity() {
    let mut cache = Cache::<u64, 8, 2>::new(0);
    for key in 0..1000u64 {
        cache.put(key, key * 2);
        assert!(cache.len() <= 8);
    }
    assert_eq!(cache.len(), 8);
    assert_eq!(cache.capacity(), 8);
}

#[test]
fn full_cache_evicts_by_lru_k() {
    let mut cache = Cache::<char, 3, 2>::new(0);
    cache.put(1, 'a');
    cache.put(2, 'b');
    assert_eq!(cache.get(1), Some(&'a')); // key 1 retained
    cache.put(3, 'c');
    cache.put(4, 'd'); // full: key 2 is the least recent with a single reference
    assert_eq!(cache.peek(2), None);
    assert_eq!(cache.peek(1), Some(&'a'));
    assert_eq!(cache.peek(3), Some(&'c'));
    assert_eq!(cache.peek(4), Some(&'d'));
    assert_eq!(cache.len(), 3);

    assert_eq!(cache.get(3), Some(&'c')); // key 3 retained, second-last reference at 4
    assert_eq!(cache.get(1), Some(&'a')); // second-last reference of key 1 at 3
    cache.put(5, 'e'); // evicts key 4
    assert_eq!(cache.peek(4), None);
    cache.put(6, 'f'); // evicts key 5
    assert_eq!(cache.peek(5), None);
    assert_eq!(cache.get(6), Some(&'f')); // all three retained now
    cache.put(7, 'g'); // evicts key 1: its second-last reference is the oldest
    assert_eq!(cache.peek(1), None);
    assert_eq!(cache.peek(3), Some(&'c'));
    assert_eq!(cache.peek(6), Some(&'f'));
    assert_eq!(cache.peek(7), Some(&'g'));
}

#[test]
fn peek_takes_no_reference() {
    let mut cache = Cache::<u32, 2, 2>::new(0);
    cache.put(1, 10);
    cache.put(2, 20);
    // peeking at key 1 does not save it: it is still the least recent
    assert_eq!(cache.peek(1), Some(&10));
    assert_eq!(cache.peek(1), Some(&10));
    cache.put(3, 30);
    assert_eq!(cache.peek(1), None);
    assert_eq!(cache.peek(2), Some(&20));
}

#[test]
fn get_takes_a_reference() {
    let mut cache = Cache::<u32, 2, 2>::new(0);
    cache.put(1, 10);
    cache.put(2, 20);
    assert_eq!(cache.get(1), Some(&10));
    cache.put(3, 30);
    assert_eq!(cache.peek(1), Some(&10));
    assert_eq!(cache.peek(2), None);
}

#[test]
fn remove_frees_the_slot() {
    let mut cache = Cache::<u32, 2, 2>::new(0);
    cache.put(1, 10);
    cache.put(2, 20);
    assert_eq!(cache.remove(1), Some(10));
    assert_eq!(cache.remove(1), None);
    assert_eq!(cache.len(), 1);
    cache.put(3, 30); // takes the freed slot, nothing is evicted
    assert_eq!(cache.peek(2), Some(&20));
    assert_eq!(cache.peek(3), Some(&30));
    assert_eq!(cache.len(), 2);
}

#[test]
fn removed_key_starts_over() {
    let mut cache = Cache::<u32, 2, 2>::new(0);
    cache.put(1, 10);
    cache.get(1); // retained
    cache.remove(1);
    cache.put(1, 11); // a single reference again
    cache.put(2, 20);
    cache.put(3, 30); // evicts key 1, the least recent with a single reference
    assert_eq!(cache.peek(1), None);
    assert_eq!(cache.peek(2), Some(&20));
}

#[test]
fn capacity_of_one() {
    let mut cache = Cache::<u32, 1, 2>::new(0);
    cache.put(1, 10);
    cache.put(2, 20);
    assert_eq!(cache.peek(1), None);
    assert_eq!(cache.get(2), Some(&20));
    cache.put(3, 30);
    assert_eq!(cache.peek(2), None);
    assert_eq!(cache.peek(3), Some(&30));
    assert_eq!(cache.len(), 1);
}

#[test]
fn correlated_period_delays_promotion() {
    let mut burst = Cache::<(), 2, 2>::new(10);
    let mut plain = Cache::<(), 2, 2>::new(0);
    for cache in [&mut burst, &mut plain] {
        cache.put(1, ());
        cache.get(1);
        cache.get(1);
        cache.put(2, ());
        cache.put(3, ());
    }
    // without a period key 1 is retained and key 2 leaves
    assert!(plain.peek(1).is_some());
    assert!(plain.peek(2).is_none());
    // with a period the burst on key 1 counted once, so key 1 leaves first
    assert!(burst.peek(1).is_none());
    assert!(burst.peek(2).is_some());
}

#[test]
fn access_reports_hits() {
    let mut cache = Cache::<u32, 2, 2>::new(0);
    assert!(!cache.access(1, 10));
    assert!(cache.access(1, 11));
    assert_eq!(cache.peek(1), Some(&10));
    assert!(!cache.access(2, 20));
    assert_eq!(cache.len(), 2);
}

#[test]
fn same_accesses_give_same_hits() {
    let keys = [3u64, 1, 4, 1, 5, 9, 2, 6, 5, 3, 5, 8, 9, 7, 9, 3, 2, 3, 8, 4];
    let mut first = Cache::<(), 4, 2>::new(1);
    let mut second = Cache::<(), 4, 2>::new(1);
    let a: Vec<bool> = keys.iter().map(|key| first.access(*key, ())).collect();
    let b: Vec<bool> = keys.iter().map(|key| second.access(*key, ())).collect();
    assert_eq!(a, b);
    assert_eq!(first.clock(), second.clock());
    for key in 0..10u64 {
        assert_eq!(first.peek(key).is_some(), second.peek(key).is_some());
    }
}

#[test]
fn a_scan_evicts_at_most_one_retained_key() {
    let mut cache = Cache::<(), 4, 2>::new(0);
    for key in 0..4u64 {
        cache.put(key, ());
        cache.get(key);
    }
    // all four keys are retained; key 0 has the oldest second-last reference
    for key in 100..200u64 {
        assert!(!cache.access(key, ()));
    }
    assert!(cache.peek(0).is_none());
    assert!(cache.peek(1).is_some());
    assert!(cache.peek(2).is_some());
    assert!(cache.peek(3).is_some());
    assert!(cache.peek(199).is_some());
    assert_eq!(cache.len(), 4);
}
