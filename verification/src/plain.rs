//! The plain LRU cache of the `lru` crate, the baseline that workloads are measured against.
//!
//! The cache itself is not verified here. Its behaviour is taken on trust, as far as the
//! declarations below state it: the order of its keys and the number of keys it may hold.

use crate::list::without;
use lru::LruCache;
use vstd::prelude::*;

verus! {

/// `lru::LruCache`, taken as an opaque value.
#[verifier::external_type_specification]
#[verifier::external_body]
#[verifier::reject_recursive_types(K)]
#[verifier::reject_recursive_types(V)]
#[verifier::reject_recursive_types(S)]
pub struct ExLruCache<K, V, S>(LruCache<K, V, S>);

/// `lru::DefaultHasher`, the hasher that `LruCache<K, V>` is built with, taken as an opaque
/// value.
#[verifier::external_type_specification]
#[verifier::external_body]
pub struct ExDefaultHasher(lru::DefaultHasher);

/// The keys that a plain LRU cache holds, from the most recently used to the least recently
/// used.
pub uninterp spec fn recency(cache: LruCache<u64, ()>) -> Seq<u64>;

/// The number of keys that a plain LRU cache may hold at a time.
pub uninterp spec fn limit(cache: LruCache<u64, ()>) -> nat;

/// The order of the keys of a plain LRU cache after `key` was used: `key` moves to the front;
/// if it is new and the cache is full, the least recently used key leaves.
pub open spec fn used(order: Seq<u64>, limit: nat, key: u64) -> Seq<u64> {
    if order.contains(key) {
        seq![key] + without(order, key)
    } else if order.len() == limit {
        seq![key] + order.drop_last()
    } else {
        seq![key] + order
    }
}

/// `LruCache::get`, without the value: tells whether the cache holds `key`. A key that is held
/// becomes the most recently used; otherwise nothing changes.
#[verifier::external_body]
pub(crate) fn lru_get(cache: &mut LruCache<u64, ()>, key: u64) -> (hit: bool)
    ensures
        hit == recency(*old(cache)).contains(key),
        limit(*final(cache)) == limit(*old(cache)),
        recency(*final(cache)) == (if hit {
            seq![key] + without(recency(*old(cache)), key)
        } else {
            recency(*old(cache))
        }),
{
    cache.get(&key).is_some()
}

/// `LruCache::put`: `key` becomes the most recently used. If the cache did not hold it and was
/// full, the least recently used key is dropped to make room.
#[verifier::external_body]
pub(crate) fn lru_put(cache: &mut LruCache<u64, ()>, key: u64)
    ensures
        limit(*final(cache)) == limit(*old(cache)),
        recency(*final(cache)) == used(recency(*old(cache)), limit(*old(cache)), key),
{
    cache.put(key, ());
}

} // verus!
