//! The cache: keys and values in a fixed arena of slots, evicted by the LRU-K policy.
//!
//! A cache is modelled by its capacity, the values it holds by key, and the state of the policy
//! over its keys.

use crate::engine::{lemma_without, Engine};
use crate::list::{Id, List};
use crate::policy::Policy;
use crate::rename::{lemma_dropped, lemma_renamed_sound, lemma_touched, linked, renamed};
use std::collections::HashMap;
use vstd::prelude::*;

verus! {

/// What a cache holds.
#[verifier::reject_recursive_types(V)]
pub struct CacheView<V> {
    /// The largest number of entries.
    pub capacity: nat,
    /// The state of the policy over the keys.
    pub engine: Engine<u64>,
    /// The value of each key held.
    pub values: Map<u64, V>,
}

impl<V> CacheView<V> {
    /// A cache that holds nothing.
    pub open spec fn fresh(capacity: nat, k: nat, period: u64) -> CacheView<V> {
        CacheView { capacity, engine: Engine::fresh(k, period), values: Map::empty() }
    }

    /// The number of entries.
    pub open spec fn len(self) -> nat {
        self.engine.len()
    }

    /// Tells whether `key` is held.
    pub open spec fn holds(self, key: u64) -> bool {
        self.engine.resident(key)
    }

    /// The value held for `key`, if any.
    pub open spec fn value(self, key: u64) -> Option<V> {
        if self.holds(key) {
            Some(self.values[key])
        } else {
            None
        }
    }

    /// The cache after a lookup of `key`: a key that is held takes a reference; a lookup that
    /// misses changes nothing.
    pub open spec fn got(self, key: u64) -> CacheView<V> {
        if self.holds(key) {
            CacheView { engine: self.engine.touched(key), ..self }
        } else {
            self
        }
    }

    /// The cache after `value` was put in for `key`. A key that is held gets the new value and
    /// takes a reference. A new key takes its first reference; if the cache is full, the victim
    /// of the policy is evicted first.
    pub open spec fn put(self, key: u64, value: V) -> CacheView<V> {
        if self.holds(key) || self.len() < self.capacity {
            CacheView {
                engine: self.engine.touched(key),
                values: self.values.insert(key, value),
                ..self
            }
        } else {
            CacheView {
                engine: self.engine.evicted().touched(key),
                values: self.values.remove(self.engine.victim()).insert(key, value),
                ..self
            }
        }
    }

    /// The cache after `key` was taken out.
    pub open spec fn removed(self, key: u64) -> CacheView<V> {
        if self.holds(key) {
            CacheView {
                engine: self.engine.dropped(key),
                values: self.values.remove(key),
                ..self
            }
        } else {
            self
        }
    }

    /// The invariant of a cache: the policy's invariant holds, values are held for exactly the
    /// resident keys, and there are no more entries than the capacity, which is not zero.
    pub open spec fn sound(self) -> bool {
        &&& self.engine.sound()
        &&& self.values.dom() =~= self.engine.logs.dom()
        &&& 0 < self.capacity
        &&& self.len() <= self.capacity
    }
}

impl<V> CacheView<V> {
    /// The cache after one access to `key`: a lookup, and after a miss `value` is put in.
    pub open spec fn accessed(self, key: u64, value: V) -> CacheView<V> {
        if self.holds(key) {
            self.got(key)
        } else {
            self.put(key, value)
        }
    }

    /// The cache after one access to each of the `n` keys from `first` on, in rising order.
    pub open spec fn scanned(self, first: u64, n: nat, value: V) -> CacheView<V>
        decreases n,
    {
        if n == 0 {
            self
        } else {
            self.scanned(first, (n - 1) as nat, value).accessed((first + n - 1) as u64, value)
        }
    }

    /// A lookup keeps the invariant of a cache, and keeps every key and value.
    pub proof fn lemma_got_sound(self, key: u64)
        requires
            self.sound(),
        ensures
            self.got(key).sound(),
            self.got(key).len() == self.len(),
            self.got(key).values == self.values,
            forall|other: u64| #[trigger] self.got(key).holds(other) <==> self.holds(other),
    {
        self.engine.lemma_touched_sound(key);
        self.engine.lemma_touched_len(key);
    }

    /// Putting a value in keeps the invariant of a cache: whatever is put in, and however
    /// often, the cache never holds more entries than its capacity. Afterwards the key is held
    /// with the value put in, and every other key that is held was held before.
    pub proof fn lemma_put_sound(self, key: u64, value: V)
        requires
            self.sound(),
        ensures
            self.put(key, value).sound(),
            self.put(key, value).len() <= self.capacity,
            self.put(key, value).value(key) == Some(value),
            forall|other: u64| #[trigger]
                self.put(key, value).holds(other) ==> other == key || (self.holds(other)
                    && self.put(key, value).values[other] == self.values[other]),
    {
        if self.holds(key) || self.len() < self.capacity {
            self.engine.lemma_touched_sound(key);
            self.engine.lemma_touched_len(key);
        } else {
            let victim = self.engine.victim();
            self.engine.lemma_dropped_sound(victim);
            self.engine.lemma_dropped_len(victim);
            self.engine.lemma_victim_resident();
            self.engine.evicted().lemma_touched_sound(key);
            self.engine.evicted().lemma_touched_len(key);
        }
    }

    /// Taking a key out keeps the invariant of a cache.
    pub proof fn lemma_removed_sound(self, key: u64)
        requires
            self.sound(),
        ensures
            self.removed(key).sound(),
            !self.removed(key).holds(key),
    {
        self.engine.lemma_dropped_sound(key);
        self.engine.lemma_dropped_len(key);
    }

    /// Scan resistance. A new key that is put in while some entry has fewer than `k`
    /// references leaves the retained entries alone: room is made among the entries that
    /// have not yet shown sustained interest. Only when every entry is retained and the cache
    /// is full does the new key take the place of the retained entry whose `k`-th most recent
    /// reference lies furthest back.
    pub proof fn lemma_put_spares_retained(self, key: u64, value: V)
        requires
            self.sound(),
            self.engine.k >= 2,
            !self.holds(key),
        ensures
            self.put(key, value).engine.retained == (if self.len() == self.capacity
                && self.engine.correlated.len() == 0 {
                self.engine.retained.drop_last()
            } else {
                self.engine.retained
            }),
            self.put(key, value).engine.correlated.len() > 0,
            self.put(key, value).engine.correlated[0] == key,
    {
        let e = self.engine;
        let base = if self.len() < self.capacity {
            e
        } else {
            e.evicted()
        };
        if self.len() < self.capacity {
        } else {
            let victim = e.victim();
            e.lemma_victim_resident();
            e.lemma_dropped_sound(victim);
            e.lemma_dropped_len(victim);
            lemma_without(e.correlated, victim);
            lemma_without(e.retained, victim);
            if e.correlated.len() > 0 {
                assert(e.correlated.contains(victim));
                assert(!e.retained.contains(victim));
            } else {
                let last = e.retained.len() - 1;
                assert(e.retained[last] == victim);
                assert(e.retained.contains(victim));
                assert(e.retained.index_of(victim) == last);
                assert(e.retained.remove(last) =~= e.retained.drop_last());
            }
        }
        assert(!base.resident(key));
        assert(base.sound());
        assert(!base.retained.contains(key));
        assert(!base.correlated.contains(key));
    }

    /// Scan resistance over a whole scan. One pass over `n` keys that the cache does not hold
    /// evicts at most one retained entry, however long the scan is: the one at the end of the
    /// retained order, and only if the cache was full of retained entries when the scan began.
    pub proof fn lemma_scan_spares_retained(self, first: u64, n: nat, value: V)
        requires
            self.sound(),
            self.engine.k >= 2,
            n >= 1,
            first + n <= u64::MAX + 1,
            forall|key: u64| first <= key < first + n ==> !self.holds(key),
        ensures
            self.scanned(first, n, value).sound(),
            self.scanned(first, n, value).engine.retained == (if self.len() == self.capacity
                && self.engine.correlated.len() == 0 {
                self.engine.retained.drop_last()
            } else {
                self.engine.retained
            }),
            self.scanned(first, n, value).engine.correlated.len() > 0,
            forall|key: u64| #[trigger]
                self.scanned(first, n, value).holds(key) ==> self.holds(key) || first <= key
                    < first + n,
        decreases n,
    {
        let key = (first + n - 1) as u64;
        if n == 1 {
            assert(self.scanned(first, 0, value) == self);
            assert(self.scanned(first, 1, value) == self.accessed(key, value));
            self.lemma_put_sound(key, value);
            self.lemma_put_spares_retained(key, value);
        } else {
            let before = self.scanned(first, (n - 1) as nat, value);
            assert forall|other: u64| first <= other < first + (n - 1) implies !self.holds(
                other,
            ) by {}
            self.lemma_scan_spares_retained(first, (n - 1) as nat, value);
            assert(!before.holds(key));
            before.lemma_put_sound(key, value);
            before.lemma_put_spares_retained(key, value);
        }
    }

    /// The cache after one access to each key of `keys`, in order.
    pub open spec fn replayed(self, keys: Seq<u64>, value: V) -> CacheView<V>
        decreases keys.len(),
    {
        if keys.len() == 0 {
            self
        } else {
            self.replayed(keys.drop_last(), value).accessed(keys.last(), value)
        }
    }

    /// For each key of `keys`, accessed in order, whether the access hit.
    pub open spec fn answers(self, keys: Seq<u64>, value: V) -> Seq<bool>
        decreases keys.len(),
    {
        if keys.len() == 0 {
            Seq::empty()
        } else {
            self.answers(keys.drop_last(), value).push(
                self.replayed(keys.drop_last(), value).holds(keys.last()),
            )
        }
    }

    /// One access answers by what the cache holds and leaves what `accessed` says; so a run of
    /// accesses is `replayed`, and its hits and misses are `answers`.
    pub proof fn lemma_replayed_step(self, keys: Seq<u64>, key: u64, value: V)
        ensures
            self.replayed(keys.push(key), value) == self.replayed(keys, value).accessed(
                key,
                value,
            ),
            self.answers(keys.push(key), value) == self.answers(keys, value).push(
                self.replayed(keys, value).holds(key),
            ),
            self.answers(keys, value).len() == keys.len(),
        decreases keys.len(),
    {
        assert(keys.push(key).drop_last() =~= keys);
        if keys.len() > 0 {
            self.lemma_replayed_step(keys.drop_last(), keys.last(), value);
            assert(keys.drop_last().push(keys.last()) =~= keys);
        }
    }

    /// Determinism. What an access makes of a cache, and whether it hits, depends on nothing
    /// but what the cache held, the key and the value. Two caches with the same capacity,
    /// entries, histories and clock answer the same accesses with the same hits and misses,
    /// and hold the same afterwards.
    pub proof fn lemma_deterministic(self, other: CacheView<V>, keys: Seq<u64>, value: V)
        requires
            self.capacity == other.capacity,
            self.engine == other.engine,
            self.values == other.values,
        ensures
            self.answers(keys, value) == other.answers(keys, value),
            self.replayed(keys, value) == other.replayed(keys, value),
    {
    }
}

/// A cache of at most `CAP` entries under the LRU-K policy with `K` references.
pub struct Cache<V, const CAP: usize, const K: usize> {
    index: HashMap<u64, Id>,
    keys: [u64; CAP],
    values: Vec<Option<V>>,
    free: List<CAP>,
    policy: Policy<CAP, K>,
    count: usize,
}

impl<V, const CAP: usize, const K: usize> Cache<V, CAP, K> {
    /// What the cache holds.
    pub closed spec fn view(&self) -> CacheView<V> {
        CacheView {
            capacity: CAP as nat,
            engine: renamed(self.policy@, self.keys@, self.index@),
            values: Map::new(
                |key: u64| self.index@.dom().contains(key),
                |key: u64| self.values@[self.index@[key] as int]->0,
            ),
        }
    }

    /// The arena, the index, the free list and the policy engine agree: the index leads from
    /// each key held to its slot, a slot holds a value exactly when the policy knows it, and
    /// every other slot is on the free list.
    pub closed spec fn wf(&self) -> bool {
        &&& 0 < CAP <= u32::MAX
        &&& self.policy.wf()
        &&& self.free.wf()
        &&& self.values@.len() == CAP
        &&& linked(self.policy@, self.keys@, self.index@)
        &&& forall|slot: Id|
            (slot as int) < CAP ==> (#[trigger] self.free@.contains(slot)
                <==> !self.policy@.logs.dom().contains(slot))
        &&& forall|slot: Id|
            (slot as int) < CAP ==> ((#[trigger] self.values@[slot as int]) is Some
                <==> self.policy@.logs.dom().contains(slot))
        &&& self.count == self.policy@.len()
        &&& self.free@.len() + self.count == CAP
    }

    /// What a well-formed cache holds meets the invariant of a cache.
    pub proof fn lemma_held(&self)
        requires
            self.wf(),
        ensures
            self@.sound(),
            self@.capacity == CAP,
            self@.engine.k == K,
    {
        self.policy.lemma_held();
        lemma_renamed_sound(self.policy@, self.keys@, self.index@);
    }

    /// An empty cache. A reference no more than `period` ticks of the logical clock after the
    /// last recorded reference to the same key counts as the same use and is not recorded.
    pub fn new(period: u64) -> (cache: Self)
        requires
            0 < CAP <= u32::MAX,
            K >= 1,
        ensures
            cache.wf(),
            cache@ == CacheView::<V>::fresh(CAP as nat, K as nat, period),
    {
        let mut values: Vec<Option<V>> = Vec::new();
        let mut free: List<CAP> = List::new();
        let mut left: usize = CAP;
        while left > 0
            invariant
                left <= CAP <= u32::MAX,
                free.wf(),
                values@.len() == CAP - left,
                free@.len() == CAP - left,
                forall|i: int| 0 <= i < values@.len() ==> (#[trigger] values@[i]) is None,
                forall|slot: Id| #[trigger] free@.contains(slot) <==> left <= slot < CAP,
            decreases left,
        {
            left -= 1;
            let ghost before = free@;
            free.push_front(left as Id);
            values.push(None);
            proof {
                let after = free@;
                assert forall|slot: Id| #[trigger] after.contains(slot) <==> left <= slot
                    < CAP by {
                    if after.contains(slot) {
                        let i = after.index_of(slot);
                        if i > 0 {
                            assert(before[i - 1] == slot);
                            assert(before.contains(slot));
                        }
                    }
                    if left <= slot < CAP {
                        if slot == left {
                            assert(after[0] == slot);
                        } else {
                            assert(before.contains(slot));
                            assert(after[before.index_of(slot) + 1] == slot);
                        }
                    }
                }
            }
        }
        let cache = Cache {
            index: HashMap::new(),
            keys: [0; CAP],
            values,
            free,
            policy: Policy::new(period),
            count: 0,
        };
        proof {
            assert(cache@.engine.logs =~= Map::<u64, Seq<u64>>::empty());
            assert(cache@.engine.correlated =~= Seq::<u64>::empty());
            assert(cache@.engine.retained =~= Seq::<u64>::empty());
            assert(cache@.values =~= Map::<u64, V>::empty());
        }
        cache
    }

    /// The number of entries.
    pub fn len(&self) -> (n: usize)
        requires
            self.wf(),
        ensures
            n == self@.len(),
            n <= CAP,
    {
        proof {
            self.policy.lemma_held();
            lemma_renamed_sound(self.policy@, self.keys@, self.index@);
        }
        self.count
    }

    /// The largest number of entries.
    pub fn capacity(&self) -> (n: usize)
        ensures
            n == CAP,
            n == self@.capacity,
    {
        CAP
    }

    /// Tells whether the cache holds nothing.
    pub fn is_empty(&self) -> (empty: bool)
        requires
            self.wf(),
        ensures
            empty == (self@.len() == 0),
    {
        proof {
            self.policy.lemma_held();
            lemma_renamed_sound(self.policy@, self.keys@, self.index@);
        }
        self.count == 0
    }

    /// The reading of the logical clock: the number of references taken so far.
    pub fn clock(&self) -> (clock: u64)
        ensures
            clock == self@.engine.clock,
    {
        self.policy.clock()
    }

    /// The value held for `key`, without taking a reference.
    pub fn peek(&self, key: u64) -> (value: Option<&V>)
        requires
            self.wf(),
        ensures
            match value {
                Some(v) => self@.value(key) == Some(*v),
                None => self@.value(key) is None,
            },
    {
        match self.index.get(&key) {
            Some(slot) => {
                assert(self.index@.dom().contains(key));
                assert(self.policy@.logs.dom().contains(*slot));
                proof {
                    self.policy.lemma_held();
                }
                self.values[*slot as usize].as_ref()
            },
            None => None,
        }
    }

    /// Looks `key` up. A key that is held takes a reference and its value is returned; a
    /// lookup that misses changes nothing.
    pub fn get(&mut self, key: u64) -> (value: Option<&V>)
        requires
            old(self).wf(),
        ensures
            final(self).wf(),
            final(self)@ == old(self)@.got(key),
            match value {
                Some(v) => old(self)@.value(key) == Some(*v),
                None => old(self)@.value(key) is None,
            },
    {
        let slot = match self.index.get(&key) {
            Some(slot) => *slot,
            None => {
                return None;
            },
        };
        proof {
            assert(self.index@.dom().contains(key));
            assert(self.policy@.logs.dom().contains(slot));
            self.policy.lemma_held();
            self.policy@.lemma_touched_len(slot);
            lemma_touched(self.policy@, self.keys@, self.index@, slot, key);
            assert(self.keys@.update(slot as int, key) =~= self.keys@);
            assert(self.index@.insert(key, slot) =~= self.index@);
        }
        self.policy.reference(slot);
        proof {
            assert(self@.values =~= old(self)@.values);
        }
        self.values[slot as usize].as_ref()
    }

    /// Puts `value` in for `key`. A key that is held gets the new value and takes a
    /// reference. A new key takes its first reference; if the cache is full, the victim of the
    /// policy is evicted first and its slot is taken over.
    pub fn put(&mut self, key: u64, value: V)
        requires
            old(self).wf(),
        ensures
            final(self).wf(),
            final(self)@ == old(self)@.put(key, value),
    {
        proof {
            self.policy.lemma_held();
            lemma_renamed_sound(self.policy@, self.keys@, self.index@);
        }
        let found = match self.index.get(&key) {
            Some(slot) => Some(*slot),
            None => None,
        };
        match found {
            Some(slot) => {
                proof {
                    assert(self.index@.dom().contains(key));
                    assert(self.policy@.logs.dom().contains(slot));
                    self.policy@.lemma_touched_len(slot);
                    lemma_touched(self.policy@, self.keys@, self.index@, slot, key);
                    assert(self.keys@.update(slot as int, key) =~= self.keys@);
                    assert(self.index@.insert(key, slot) =~= self.index@);
                }
                self.values[slot as usize] = Some(value);
                self.policy.reference(slot);
                proof {
                    assert(self@.values =~= old(self)@.values.insert(key, value));
                }
            },
            None => {
                assert(!self.index@.dom().contains(key));
                let slot = match self.free.pop_front() {
                    Some(slot) => {
                        proof {
                            let f = old(self).free@;
                            assert(f[0] == slot);
                            assert(f.contains(slot));
                            old(self).free.lemma_stored();
                            assert forall|s: Id| (s as int) < CAP implies (
                            #[trigger] self.free@.contains(s) <==> !self.policy@.logs.dom().contains(
                                s,
                            ) && s != slot) by {
                                let g = self.free@;
                                if g.contains(s) {
                                    let i = g.index_of(s);
                                    assert(f[i + 1] == s);
                                    assert(f.contains(s));
                                }
                                if f.contains(s) && s != slot {
                                    let i = f.index_of(s);
                                    assert(g[i - 1] == s);
                                }
                            }
                        }
                        slot
                    },
                    None => {
                        let victim = match self.policy.evict() {
                            Some(victim) => victim,
                            None => {
                                assert(false);
                                return ;
                            },
                        };
                        let evicted = self.keys[victim as usize];
                        proof {
                            let e = old(self).policy@;
                            assert(e.resident(victim));
                            e.lemma_dropped_sound(victim);
                            e.lemma_dropped_len(victim);
                            lemma_dropped(e, self.keys@, old(self).index@, victim);
                        }
                        self.index.remove(&evicted);
                        self.values[victim as usize] = None;
                        self.count -= 1;
                        victim
                    },
                };
                let ghost middle = self.policy@;
                let ghost middle_index = self.index@;
                let ghost middle_values = self.values@;
                proof {
                    assert(!middle.resident(slot));
                    assert(!middle_index.dom().contains(key));
                    assert(linked(middle, self.keys@, middle_index));
                    middle.lemma_touched_len(slot);
                    lemma_touched(middle, self.keys@, middle_index, slot, key);
                }
                self.keys[slot as usize] = key;
                self.values[slot as usize] = Some(value);
                self.index.insert(key, slot);
                self.policy.reference(slot);
                self.count += 1;
                proof {
                    let before = old(self)@;
                    if before.len() < before.capacity {
                        assert(self@.values =~= before.values.insert(key, value)) by {
                            assert forall|k: u64| #[trigger]
                                self@.values.dom().contains(k) && k != key implies self@.values[k]
                                == before.values[k] by {
                                assert(old(self).index@.dom().contains(k));
                                assert(old(self).index@[k] != slot);
                            }
                        }
                    } else {
                        let victim_key = before.engine.victim();
                        assert(self@.values =~= before.values.remove(victim_key).insert(
                            key,
                            value,
                        )) by {
                            assert forall|k: u64| #[trigger]
                                self@.values.dom().contains(k) && k != key implies self@.values[k]
                                == before.values[k] by {
                                assert(middle_index.dom().contains(k));
                                assert(old(self).index@.dom().contains(k));
                                assert(middle_index[k] != slot);
                            }
                        }
                    }
                }
            },
        }
    }

    /// Accesses `key` once: a lookup, and after a miss `value` is put in. Tells whether the
    /// lookup hit.
    pub fn access(&mut self, key: u64, value: V) -> (hit: bool)
        requires
            old(self).wf(),
        ensures
            final(self).wf(),
            hit == old(self)@.holds(key),
            final(self)@ == old(self)@.accessed(key, value),
    {
        if self.get(key).is_some() {
            true
        } else {
            self.put(key, value);
            false
        }
    }

    /// Takes `key` out and returns its value; `None` if the key was not held. The slot becomes
    /// free for the next new key.
    pub fn remove(&mut self, key: u64) -> (value: Option<V>)
        requires
            old(self).wf(),
        ensures
            final(self).wf(),
            final(self)@ == old(self)@.removed(key),
            value == old(self)@.value(key),
    {
        proof {
            self.policy.lemma_held();
            lemma_renamed_sound(self.policy@, self.keys@, self.index@);
        }
        let slot = match self.index.get(&key) {
            Some(slot) => *slot,
            None => {
                return None;
            },
        };
        proof {
            let e = self.policy@;
            assert(self.index@.dom().contains(key));
            assert(e.resident(slot));
            e.lemma_dropped_sound(slot);
            e.lemma_dropped_len(slot);
            lemma_dropped(e, self.keys@, self.index@, slot);
        }
        self.index.remove(&key);
        self.policy.forget(slot);
        let value = self.values[slot as usize].take();
        self.free.push_front(slot);
        self.count -= 1;
        proof {
            let f = old(self).free@;
            let g = self.free@;
            assert forall|s: Id| (s as int) < CAP implies (#[trigger] g.contains(s)
                <==> !self.policy@.logs.dom().contains(s)) by {
                if g.contains(s) {
                    let i = g.index_of(s);
                    if i > 0 {
                        assert(f[i - 1] == s);
                        assert(f.contains(s));
                    }
                }
                if f.contains(s) {
                    assert(g[f.index_of(s) + 1] == s);
                }
                if s == slot {
                    assert(g[0] == s);
                }
            }
            assert(self@.values =~= old(self)@.values.remove(key)) by {
                assert forall|k: u64| #[trigger] self@.values.dom().contains(k) implies self@.values[k]
                    == old(self)@.values[k] by {
                    assert(old(self).index@.dom().contains(k));
                    assert(old(self).index@[k] != slot);
                }
            }
        }
        value
    }
}

} // verus!
