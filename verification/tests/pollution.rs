use std::num::NonZeroUsize;

use lru::LruCache;
use lruk::cache::Cache;
use lruk::workload::{access_hot, access_hot_k, scan_cold, scan_cold_k, Lcg, Metrics};

const NUM_HOT_ITEMS: usize = 10_000;
const CACHE_CAPACITY: usize = NUM_HOT_ITEMS;

fn hit_rate(m: &Metrics) -> f64 {
    let t = m.total();
    if t == 0 {
        0.0
    } else {
        m.hits as f64 / t as f64
    }
}

#[test]
fn lru_cache() {
    let mut cache = LruCache::<u64, ()>::new(NonZeroUsize::new(CACHE_CAPACITY).unwrap());
    let mut rng = Lcg::new(42);

    // warm-up cache
    let metrics = access_hot(&mut cache, NUM_HOT_ITEMS, 1_000_000, &mut rng);
    // all hot items are cached, so only first accesses are misses
    assert_eq!(hit_rate(&metrics), 0.99);

    // ensure that all items are cached
    let metrics = access_hot(&mut cache, 10_000, 10_000, &mut rng);
    // all hot items are cached
    assert_eq!(hit_rate(&metrics), 1.);

    // run cold scan, on items outside the hot items range
    let metrics = scan_cold(&mut cache, 10_000, 10_000);
    // none of the items in cache
    assert_eq!(hit_rate(&metrics), 0.);

    // re-try hot items set, cache should be polluted
    let metrics = access_hot(&mut cache, 10_000, 10_000, &mut rng);
    // From 100% hot items being in cache, drop to less than 40% hit rate
    // (effectively meaning that cache gets repopulated with hot items).
    assert!(hit_rate(&metrics) < 0.4);
}

#[test]
fn metrics_count_hits_and_misses() {
    let mut m = Metrics::new();
    assert_eq!((m.hits, m.misses, m.total()), (0, 0, 0));
    assert_eq!(hit_rate(&m), 0.0);
    m.record_hit();
    m.record_hit();
    m.record_hit();
    m.record_miss();
    assert_eq!((m.hits, m.misses, m.total()), (3, 1, 4));
    assert_eq!(hit_rate(&m), 0.75);
}

#[test]
fn generator_follows_its_recurrence() {
    let mut rng = Lcg::new(42);
    assert_eq!(rng.next_u64(), 9039304369631583587);
    assert_eq!(rng.next_u64(), 8647191391818483560);
    assert_eq!(rng.next_u64(), 10334312345110439241);
    assert_eq!(rng.0, 10334312345110439241);

    assert_eq!(Lcg::new(0).next_u64(), 1);
    assert_eq!(Lcg::new(u64::MAX).next_u64(), 12082607849862758612);
}

#[test]
fn gen_range_reduces_the_next_state() {
    let mut rng = Lcg::new(42);
    assert_eq!(rng.gen_range(10), 7);
    assert_eq!(rng.gen_range(10), 0);
    assert_eq!(rng.gen_range(10), 1);
    assert_eq!(rng.gen_range(1), 0);
}

#[test]
fn gen_range_of_zero_draws_nothing() {
    let mut rng = Lcg::new(42);
    assert_eq!(rng.gen_range(0), 0);
    assert_eq!(rng.0, 42);
    assert_eq!(rng.next_u64(), 9039304369631583587);
}

#[test]
fn same_seed_gives_same_run() {
    let mut a = LruCache::<u64, ()>::new(NonZeroUsize::new(16).unwrap());
    let mut b = LruCache::<u64, ()>::new(NonZeroUsize::new(16).unwrap());
    let mut rng_a = Lcg::new(7);
    let mut rng_b = Lcg::new(7);
    for _ in 0..5 {
        let ma = access_hot(&mut a, 40, 100, &mut rng_a);
        let mb = access_hot(&mut b, 40, 100, &mut rng_b);
        assert_eq!((ma.hits, ma.misses), (mb.hits, mb.misses));
        assert_eq!(rng_a.0, rng_b.0);
    }
    let order_a: Vec<u64> = a.iter().map(|(key, _)| *key).collect();
    let order_b: Vec<u64> = b.iter().map(|(key, _)| *key).collect();
    assert_eq!(order_a, order_b);
}

#[test]
fn plain_lru_moves_used_keys_to_the_front() {
    let mut cache = LruCache::<u64, ()>::new(NonZeroUsize::new(3).unwrap());
    // keys 5, 6, 7 then 5 again: one hit, and key 6 becomes the least recent
    let m = scan_cold(&mut cache, 5, 3);
    assert_eq!((m.hits, m.misses), (0, 3));
    let m = scan_cold(&mut cache, 5, 1);
    assert_eq!((m.hits, m.misses), (1, 0));
    let order: Vec<u64> = cache.iter().map(|(key, _)| *key).collect();
    assert_eq!(order, vec![5, 7, 6]);
    // a new key drops the least recent one
    let m = scan_cold(&mut cache, 9, 1);
    assert_eq!((m.hits, m.misses), (0, 1));
    let order: Vec<u64> = cache.iter().map(|(key, _)| *key).collect();
    assert_eq!(order, vec![9, 5, 7]);
}

#[test]
fn hot_accesses_with_one_key_hit_after_the_first() {
    let mut cache = LruCache::<u64, ()>::new(NonZeroUsize::new(2).unwrap());
    let mut rng = Lcg::new(1);
    let m = access_hot(&mut cache, 1, 10, &mut rng);
    assert_eq!((m.hits, m.misses), (9, 1));
    // a hot set of size zero always draws key 0 and leaves the generator alone
    let m = access_hot(&mut cache, 0, 4, &mut rng);
    assert_eq!((m.hits, m.misses), (4, 0));
    let m = access_hot(&mut cache, 1, 0, &mut rng);
    assert_eq!((m.hits, m.misses, m.total()), (0, 0, 0));
}

#[test]
fn scan_resistance_scenario() {
    const CAPACITY: usize = 1024;
    const HOT: usize = 1024;
    let seed = 0xC0FFEE;

    let mut plain = LruCache::<u64, ()>::new(NonZeroUsize::new(CAPACITY).unwrap());
    let mut lruk = Cache::<(), CAPACITY, 2>::new(0);
    let mut rng_plain = Lcg::new(seed);
    let mut rng_lruk = Lcg::new(seed);

    // warm-up: only the first touch of a key misses, with either policy
    let warm_plain = access_hot(&mut plain, HOT, 2 * HOT, &mut rng_plain);
    let warm_lruk = access_hot_k(&mut lruk, HOT, 2 * HOT, &mut rng_lruk);
    assert_eq!(warm_plain.total(), 2048);
    assert_eq!((warm_plain.hits, warm_plain.misses), (warm_lruk.hits, warm_lruk.misses));
    assert_eq!(warm_plain.misses as usize, plain.len());
    assert!(hit_rate(&warm_plain) >= 0.5);
    assert!(hit_rate(&warm_plain) < 0.65);

    // teach both caches the whole hot set
    access_hot(&mut plain, HOT, 20_000, &mut rng_plain);
    access_hot_k(&mut lruk, HOT, 20_000, &mut rng_lruk);
    assert_eq!(plain.len(), HOT);
    assert_eq!(lruk.len(), HOT);

    // a pure hot window hits every time
    let pre_plain = access_hot(&mut plain, HOT, HOT, &mut rng_plain);
    let pre_lruk = access_hot_k(&mut lruk, HOT, HOT, &mut rng_lruk);
    assert_eq!(hit_rate(&pre_plain), 1.0);
    assert_eq!(hit_rate(&pre_lruk), 1.0);

    // a cold scan of never-seen keys misses every time
    let cold_plain = scan_cold(&mut plain, HOT, 50_000);
    let cold_lruk = scan_cold_k(&mut lruk, HOT, 50_000);
    assert_eq!((cold_plain.hits, cold_plain.misses), (0, 50_000));
    assert_eq!((cold_lruk.hits, cold_lruk.misses), (0, 50_000));

    // after the scan plain LRU has lost the hot set; LRU-K lost a single key of it
    let post_plain = access_hot(&mut plain, HOT, HOT, &mut rng_plain);
    let post_lruk = access_hot_k(&mut lruk, HOT, HOT, &mut rng_lruk);
    assert!(hit_rate(&post_plain) < 0.4);
    assert!(hit_rate(&post_lruk) > 0.99);
    assert!(post_lruk.misses <= 2);
    assert!(hit_rate(&post_lruk) > hit_rate(&post_plain) + 0.5);
}

#[test]
fn lruk_runs_are_deterministic() {
    let mut a = Cache::<(), 64, 2>::new(3);
    let mut b = Cache::<(), 64, 2>::new(3);
    let mut rng_a = Lcg::new(99);
    let mut rng_b = Lcg::new(99);
    for round in 0..4 {
        let ma = access_hot_k(&mut a, 100, 500, &mut rng_a);
        let mb = access_hot_k(&mut b, 100, 500, &mut rng_b);
        assert_eq!((ma.hits, ma.misses), (mb.hits, mb.misses));
        let sa = scan_cold_k(&mut a, 1000 * (round + 1), 30);
        let sb = scan_cold_k(&mut b, 1000 * (round + 1), 30);
        assert_eq!((sa.hits, sa.misses), (sb.hits, sb.misses));
        assert_eq!(a.clock(), b.clock());
        assert_eq!(rng_a.0, rng_b.0);
    }
}

#[test]
fn lruk_scan_counts_hits_on_held_keys() {
    let mut cache = Cache::<(), 4, 2>::new(0);
    let m = scan_cold_k(&mut cache, 10, 3);
    assert_eq!((m.hits, m.misses), (0, 3));
    let m = scan_cold_k(&mut cache, 11, 3); // keys 11, 12 held; 13 new
    assert_eq!((m.hits, m.misses), (2, 1));
    assert_eq!(cache.len(), 4);
}
