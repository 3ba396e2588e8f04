//! Synthetic workloads: a hot set that is used again and again, and a cold scan that passes
//! through once.

use crate::cache::{Cache, CacheView};
use crate::plain::{limit, lru_get, lru_put, recency, used};
use lru::LruCache;
use vstd::prelude::*;

verus! {

/// Hits and misses counted over a run.
#[derive(Clone, Copy)]
pub struct Metrics {
    pub hits: u64,
    pub misses: u64,
}

impl Metrics {
    /// Counters at zero.
    pub fn new() -> (m: Metrics)
        ensures
            m.hits == 0,
            m.misses == 0,
    {
        Metrics { hits: 0, misses: 0 }
    }

    /// Counts one hit.
    pub fn record_hit(&mut self)
        requires
            old(self).hits < u64::MAX,
        ensures
            final(self).hits == old(self).hits + 1,
            final(self).misses == old(self).misses,
    {
        self.hits += 1;
    }

    /// Counts one miss.
    pub fn record_miss(&mut self)
        requires
            old(self).misses < u64::MAX,
        ensures
            final(self).misses == old(self).misses + 1,
            final(self).hits == old(self).hits,
    {
        self.misses += 1;
    }

    /// The number of accesses counted.
    pub fn total(&self) -> (n: u64)
        requires
            self.hits + self.misses <= u64::MAX,
        ensures
            n == self.hits + self.misses,
    {
        self.hits + self.misses
    }
}

/// The multiplier of the generator.
pub const LCG_MULTIPLIER: u64 = 6364136223846793005;

/// The state that follows `state` in the generator's sequence.
pub open spec fn lcg_step(state: u64) -> u64 {
    ((state as int * LCG_MULTIPLIER as int + 1) % 0x1_0000_0000_0000_0000) as u64
}

/// A small linear congruential generator over 64 bits.
pub struct Lcg(pub u64);

impl Lcg {
    /// A generator that starts from `seed`.
    pub fn new(seed: u64) -> (rng: Lcg)
        ensures
            rng.0 == seed,
    {
        Lcg(seed)
    }

    /// Advances the generator and returns its new state.
    pub fn next_u64(&mut self) -> (x: u64)
        ensures
            x == lcg_step(old(self).0),
            final(self).0 == x,
    {
        let product = self.0.wrapping_mul(LCG_MULTIPLIER);
        assert(product as int == (self.0 as int * LCG_MULTIPLIER as int) % 0x1_0000_0000_0000_0000);
        assert(product.wrapping_add(1) == lcg_step(self.0)) by {
            vstd::arithmetic::div_mod::lemma_add_mod_noop(
                self.0 as int * LCG_MULTIPLIER as int,
                1,
                0x1_0000_0000_0000_0000,
            );
            vstd::arithmetic::div_mod::lemma_small_mod(1, 0x1_0000_0000_0000_0000);
            if product == u64::MAX {
            } else {
                vstd::arithmetic::div_mod::lemma_small_mod(
                    (product + 1) as nat,
                    0x1_0000_0000_0000_0000,
                );
            }
        }
        self.0 = product.wrapping_add(1);
        self.0
    }

    /// A number below `n` drawn from the generator, or 0 without drawing when `n` is 0.
    pub fn gen_range(&mut self, n: u64) -> (x: u64)
        ensures
            x == drawn(old(self).0, n).1,
            final(self).0 == drawn(old(self).0, n).0,
            n > 0 ==> x < n,
    {
        if n == 0 {
            0
        } else {
            self.next_u64() % n
        }
    }
}

/// The state of the generator after a draw below `n` from `state`, and the number drawn.
pub open spec fn drawn(state: u64, n: u64) -> (u64, u64) {
    if n == 0 {
        (state, 0)
    } else {
        (lcg_step(state), lcg_step(state) % n)
    }
}

/// A plain LRU cache, a generator and the counters in the course of a run.
pub struct Run {
    pub order: Seq<u64>,
    pub state: u64,
    pub hits: nat,
    pub misses: nat,
}

/// One access of a run: a hit if the cache holds `key`, else a miss after which it is put in.
pub open spec fn accessed(run: Run, limit: nat, key: u64, state: u64) -> Run {
    Run {
        order: used(run.order, limit, key),
        state,
        hits: if run.order.contains(key) {
            run.hits + 1
        } else {
            run.hits
        },
        misses: if run.order.contains(key) {
            run.misses
        } else {
            run.misses + 1
        },
    }
}

/// `ops` accesses with keys drawn below `hot_size`, from a cache whose keys are `order` and a
/// generator at `state`.
pub open spec fn hot_run(order: Seq<u64>, limit: nat, state: u64, hot_size: u64, ops: nat) -> Run
    decreases ops,
{
    if ops == 0 {
        Run { order, state, hits: 0, misses: 0 }
    } else {
        let before = hot_run(order, limit, state, hot_size, (ops - 1) as nat);
        let (next, key) = drawn(before.state, hot_size);
        accessed(before, limit, key, next)
    }
}

/// One access to each of the `scan_size` keys that follow `hot_size`, in rising order.
pub open spec fn cold_run(order: Seq<u64>, limit: nat, hot_size: nat, scan_size: nat) -> Run
    decreases scan_size,
{
    if scan_size == 0 {
        Run { order, state: 0, hits: 0, misses: 0 }
    } else {
        let before = cold_run(order, limit, hot_size, (scan_size - 1) as nat);
        accessed(before, limit, (hot_size + scan_size - 1) as u64, 0)
    }
}

/// Uses `key` once: a hit if the cache holds it, else a miss after which it is put in.
fn access(cache: &mut LruCache<u64, ()>, key: u64, m: &mut Metrics)
    requires
        old(m).hits + old(m).misses < u64::MAX,
    ensures
        limit(*final(cache)) == limit(*old(cache)),
        recency(*final(cache)) == used(recency(*old(cache)), limit(*old(cache)), key),
        final(m).hits == old(m).hits + (if recency(*old(cache)).contains(key) {
            1int
        } else {
            0int
        }),
        final(m).misses == old(m).misses + (if recency(*old(cache)).contains(key) {
            0int
        } else {
            1int
        }),
{
    if lru_get(cache, key) {
        m.record_hit();
    } else {
        m.record_miss();
        lru_put(cache, key);
    }
}

/// Runs `ops` accesses with keys drawn below `hot_size` and counts hits and misses. A key that
/// misses is put into the cache.
pub fn access_hot(cache: &mut LruCache<u64, ()>, hot_size: usize, ops: usize, rng: &mut Lcg) -> (m:
    Metrics)
    ensures
        limit(*final(cache)) == limit(*old(cache)),
        recency(*final(cache)) == hot_run(
            recency(*old(cache)),
            limit(*old(cache)),
            old(rng).0,
            hot_size as u64,
            ops as nat,
        ).order,
        final(rng).0 == hot_run(
            recency(*old(cache)),
            limit(*old(cache)),
            old(rng).0,
            hot_size as u64,
            ops as nat,
        ).state,
        m.hits == hot_run(
            recency(*old(cache)),
            limit(*old(cache)),
            old(rng).0,
            hot_size as u64,
            ops as nat,
        ).hits,
        m.misses == hot_run(
            recency(*old(cache)),
            limit(*old(cache)),
            old(rng).0,
            hot_size as u64,
            ops as nat,
        ).misses,
        m.hits + m.misses == ops,
{
    let mut m = Metrics::new();
    let ghost order0 = recency(*cache);
    let ghost limit0 = limit(*cache);
    let ghost state0 = rng.0;
    let mut i: usize = 0;
    while i < ops
        invariant
            i <= ops,
            limit(*cache) == limit0,
            recency(*cache) == hot_run(order0, limit0, state0, hot_size as u64, i as nat).order,
            rng.0 == hot_run(order0, limit0, state0, hot_size as u64, i as nat).state,
            m.hits == hot_run(order0, limit0, state0, hot_size as u64, i as nat).hits,
            m.misses == hot_run(order0, limit0, state0, hot_size as u64, i as nat).misses,
            m.hits + m.misses == i,
        decreases ops - i,
    {
        let k = rng.gen_range(hot_size as u64);
        access(cache, k, &mut m);
        i += 1;
    }
    m
}

/// Uses each of the `scan_size` keys that follow `hot_size` once, in rising order, and counts
/// hits and misses. A key that misses is put into the cache.
pub fn scan_cold(cache: &mut LruCache<u64, ()>, hot_size: usize, scan_size: usize) -> (m: Metrics)
    requires
        hot_size + scan_size <= usize::MAX,
    ensures
        limit(*final(cache)) == limit(*old(cache)),
        recency(*final(cache)) == cold_run(
            recency(*old(cache)),
            limit(*old(cache)),
            hot_size as nat,
            scan_size as nat,
        ).order,
        m.hits == cold_run(
            recency(*old(cache)),
            limit(*old(cache)),
            hot_size as nat,
            scan_size as nat,
        ).hits,
        m.misses == cold_run(
            recency(*old(cache)),
            limit(*old(cache)),
            hot_size as nat,
            scan_size as nat,
        ).misses,
        m.hits + m.misses == scan_size,
{
    let mut m = Metrics::new();
    let ghost order0 = recency(*cache);
    let ghost limit0 = limit(*cache);
    let mut i: usize = 0;
    while i < scan_size
        invariant
            i <= scan_size,
            hot_size + scan_size <= usize::MAX,
            limit(*cache) == limit0,
            recency(*cache) == cold_run(order0, limit0, hot_size as nat, i as nat).order,
            m.hits == cold_run(order0, limit0, hot_size as nat, i as nat).hits,
            m.misses == cold_run(order0, limit0, hot_size as nat, i as nat).misses,
            m.hits + m.misses == i,
        decreases scan_size - i,
    {
        let k = (hot_size + i) as u64;
        access(cache, k, &mut m);
        i += 1;
    }
    m
}

/// The keys of a plain LRU cache in the course of a scan of new keys: the keys scanned so far
/// stand in front, the newest first, as many as fit; behind them stand keys from before the
/// scan.
proof fn lemma_scan_shape(order: Seq<u64>, limit: nat, hot_size: nat, done: nat)
    requires
        limit >= 1,
        order.len() <= limit,
        forall|i: int| 0 <= i < order.len() ==> (#[trigger] order[i]) < hot_size,
        hot_size + done <= u64::MAX + 1,
    ensures
        cold_run(order, limit, hot_size, done).hits == 0,
        cold_run(order, limit, hot_size, done).misses == done,
        cold_run(order, limit, hot_size, done).order.len() == (if order.len() + done <= limit {
            order.len() + done
        } else {
            limit
        }),
        forall|i: int|
            0 <= i < cold_run(order, limit, hot_size, done).order.len() && i < done
                ==> #[trigger] cold_run(order, limit, hot_size, done).order[i] == hot_size + done
                - 1 - i,
        forall|i: int|
            done <= i < cold_run(order, limit, hot_size, done).order.len() ==> (#[trigger] cold_run(
                order,
                limit,
                hot_size,
                done,
            ).order[i]) < hot_size,
    decreases done,
{
    if done > 0 {
        let before = cold_run(order, limit, hot_size, (done - 1) as nat);
        lemma_scan_shape(order, limit, hot_size, (done - 1) as nat);
        let key = (hot_size + done - 1) as u64;
        let held = before.order;
        if held.contains(key) {
            let at = held.index_of(key);
            if at < done - 1 {
                assert(held[at] == hot_size + (done - 1) - 1 - at);
            } else {
                assert(held[at] < hot_size);
            }
        }
        let after = used(held, limit, key);
        assert(after[0] == key);
        assert forall|i: int| 0 < i < after.len() implies #[trigger] after[i] == held[i - 1] by {}
    }
}

/// Pollution. One pass of a plain LRU cache over new keys, at least as many as the cache may
/// hold, misses every time and leaves none of the keys that the cache held before: the cache
/// ends up full of keys of the scan.
pub proof fn lemma_scan_flushes(order: Seq<u64>, limit: nat, hot_size: nat, scan_size: nat)
    requires
        limit >= 1,
        order.len() <= limit,
        forall|i: int| 0 <= i < order.len() ==> (#[trigger] order[i]) < hot_size,
        hot_size + scan_size <= u64::MAX + 1,
        scan_size >= limit,
    ensures
        cold_run(order, limit, hot_size, scan_size).hits == 0,
        cold_run(order, limit, hot_size, scan_size).misses == scan_size,
        cold_run(order, limit, hot_size, scan_size).order.len() == limit,
        forall|key: u64| #[trigger]
            cold_run(order, limit, hot_size, scan_size).order.contains(key) ==> hot_size <= key
                < hot_size + scan_size,
{
    lemma_scan_shape(order, limit, hot_size, scan_size);
    let after = cold_run(order, limit, hot_size, scan_size).order;
    assert forall|key: u64| #[trigger] after.contains(key) implies hot_size <= key < hot_size
        + scan_size by {
        let at = after.index_of(key);
        assert(after[at] == hot_size + scan_size - 1 - at);
    }
}

/// An LRU-K cache, a generator and the counters in the course of a run.
pub struct Replay {
    pub cache: CacheView<()>,
    pub state: u64,
    pub hits: nat,
    pub misses: nat,
}

/// `ops` accesses to an LRU-K cache with keys drawn below `hot_size`, from a generator at
/// `state`.
pub open spec fn hot_replay(cache: CacheView<()>, state: u64, hot_size: u64, ops: nat) -> Replay
    decreases ops,
{
    if ops == 0 {
        Replay { cache, state, hits: 0, misses: 0 }
    } else {
        let before = hot_replay(cache, state, hot_size, (ops - 1) as nat);
        let (next, key) = drawn(before.state, hot_size);
        Replay {
            cache: before.cache.accessed(key, ()),
            state: next,
            hits: if before.cache.holds(key) {
                before.hits + 1
            } else {
                before.hits
            },
            misses: if before.cache.holds(key) {
                before.misses
            } else {
                before.misses + 1
            },
        }
    }
}

/// The number of hits of one access to each of the `n` keys from `first` on, in rising order.
pub open spec fn scan_hits(cache: CacheView<()>, first: u64, n: nat) -> nat
    decreases n,
{
    if n == 0 {
        0
    } else {
        scan_hits(cache, first, (n - 1) as nat) + (if cache.scanned(
            first,
            (n - 1) as nat,
            (),
        ).holds((first + n - 1) as u64) {
            1nat
        } else {
            0nat
        })
    }
}

/// Runs `ops` accesses to an LRU-K cache with keys drawn below `hot_size` and counts hits and
/// misses. A key that misses is put into the cache.
pub fn access_hot_k<const CAP: usize, const K: usize>(
    cache: &mut Cache<(), CAP, K>,
    hot_size: usize,
    ops: usize,
    rng: &mut Lcg,
) -> (m: Metrics)
    requires
        old(cache).wf(),
    ensures
        final(cache).wf(),
        final(cache)@ == hot_replay(old(cache)@, old(rng).0, hot_size as u64, ops as nat).cache,
        final(rng).0 == hot_replay(old(cache)@, old(rng).0, hot_size as u64, ops as nat).state,
        m.hits == hot_replay(old(cache)@, old(rng).0, hot_size as u64, ops as nat).hits,
        m.misses == hot_replay(old(cache)@, old(rng).0, hot_size as u64, ops as nat).misses,
        m.hits + m.misses == ops,
{
    let mut m = Metrics::new();
    let ghost cache0 = cache@;
    let ghost state0 = rng.0;
    let mut i: usize = 0;
    while i < ops
        invariant
            i <= ops,
            cache.wf(),
            cache@ == hot_replay(cache0, state0, hot_size as u64, i as nat).cache,
            rng.0 == hot_replay(cache0, state0, hot_size as u64, i as nat).state,
            m.hits == hot_replay(cache0, state0, hot_size as u64, i as nat).hits,
            m.misses == hot_replay(cache0, state0, hot_size as u64, i as nat).misses,
            m.hits + m.misses == i,
        decreases ops - i,
    {
        let k = rng.gen_range(hot_size as u64);
        if cache.access(k, ()) {
            m.record_hit();
        } else {
            m.record_miss();
        }
        i += 1;
    }
    m
}

/// Accesses each of the `scan_size` keys that follow `hot_size` once in an LRU-K cache, in
/// rising order, and counts hits and misses. A key that misses is put into the cache.
pub fn scan_cold_k<const CAP: usize, const K: usize>(
    cache: &mut Cache<(), CAP, K>,
    hot_size: usize,
    scan_size: usize,
) -> (m: Metrics)
    requires
        old(cache).wf(),
        hot_size + scan_size <= usize::MAX,
    ensures
        final(cache).wf(),
        final(cache)@ == old(cache)@.scanned(hot_size as u64, scan_size as nat, ()),
        m.hits == scan_hits(old(cache)@, hot_size as u64, scan_size as nat),
        m.hits + m.misses == scan_size,
{
    let mut m = Metrics::new();
    let ghost cache0 = cache@;
    let mut i: usize = 0;
    while i < scan_size
        invariant
            i <= scan_size,
            hot_size + scan_size <= usize::MAX,
            cache.wf(),
            cache@ == cache0.scanned(hot_size as u64, i as nat, ()),
            m.hits == scan_hits(cache0, hot_size as u64, i as nat),
            m.hits + m.misses == i,
        decreases scan_size - i,
    {
        let k = (hot_size + i) as u64;
        if cache.access(k, ()) {
            m.record_hit();
        } else {
            m.record_miss();
        }
        i += 1;
    }
    m
}

} // verus!
