//! Reference histories: for every slot, the times of its last `K` references.
//!
//! Times are readings of a logical clock that never runs backwards. A history is modelled by
//! the sequence of the times it holds, oldest first.

use crate::list::{back, front, Id};
use vstd::prelude::*;

verus! {

/// How far back the `K`-th most recent reference of a slot lies.
#[derive(Clone, Copy, Debug, PartialEq, Eq, Structural)]
pub enum Distance {
    /// The slot has `K` references on record; the oldest lies this far back.
    Finite(u64),
    /// The slot has fewer than `K` references on record.
    Infinite,
}

/// The times in `log` after a reference at `now`, where at most `k` times are kept: `now` is
/// appended, and the oldest time is dropped if that makes more than `k`.
pub open spec fn recorded(log: Seq<u64>, k: nat, now: u64) -> Seq<u64> {
    if log.len() + 1 > k {
        log.push(now).drop_first()
    } else {
        log.push(now)
    }
}

/// The distance from `now` back to the oldest time in `log`, counted only when `log` is full.
pub open spec fn distance(log: Seq<u64>, k: nat, now: u64) -> Distance {
    if k > 0 && log.len() == k {
        Distance::Finite((now - log[0]) as u64)
    } else {
        Distance::Infinite
    }
}

/// Each time in `log` is at least the one before it.
pub open spec fn rising(log: Seq<u64>) -> bool {
    forall|i: int, j: int| 0 <= i <= j < log.len() ==> log[i] <= log[j]
}

/// The place in a ring of `k` cells of the `i`-th time, counted from the oldest at `start`.
pub open spec fn cell(start: int, i: int, k: int) -> int {
    if start + i < k {
        start + i
    } else {
        start + i - k
    }
}

/// A ring that holds the last `K` reference times of one slot.
#[derive(Clone, Copy)]
pub struct History<const K: usize> {
    times: [u64; K],
    start: usize,
    len: usize,
    log: Ghost<Seq<u64>>,
}

impl<const K: usize> History<K> {
    /// The times on record, oldest first.
    pub closed spec fn view(&self) -> Seq<u64> {
        self.log@
    }

    /// The ring holds exactly the times of `self@`, at most `K` of them, in rising order.
    pub closed spec fn wf(&self) -> bool {
        &&& self.len == self.log@.len()
        &&& self.len <= K
        &&& (self.start < K || (K == 0 && self.start == 0))
        &&& forall|i: int|
            0 <= i < self.len ==> self.times@[cell(self.start as int, i, K as int)]
                == #[trigger] self.log@[i]
        &&& rising(self.log@)
    }

    /// What a well-formed history holds.
    pub proof fn lemma_held(&self)
        requires
            self.wf(),
        ensures
            self@.len() <= K,
            rising(self@),
    {
    }

    /// A history with nothing on record.
    pub fn new() -> (history: Self)
        ensures
            history.wf(),
            history@ == Seq::<u64>::empty(),
    {
        History { times: [0; K], start: 0, len: 0, log: Ghost(Seq::empty()) }
    }

    /// Forgets every time on record.
    pub fn clear(&mut self)
        ensures
            final(self).wf(),
            final(self)@ == Seq::<u64>::empty(),
    {
        self.start = 0;
        self.len = 0;
        self.log = Ghost(Seq::empty());
    }

    /// The number of times on record.
    pub fn count(&self) -> (n: usize)
        requires
            self.wf(),
        ensures
            n == self@.len(),
            n <= K,
    {
        self.len
    }

    /// The oldest time on record.
    pub fn oldest(&self) -> (time: Option<u64>)
        requires
            self.wf(),
        ensures
            time == front(self@),
    {
        if self.len == 0 {
            None
        } else {
            assert(self.log@[0] == self.times@[cell(self.start as int, 0, K as int)]);
            Some(self.times[self.start])
        }
    }

    /// The most recent time on record.
    pub fn latest(&self) -> (time: Option<u64>)
        requires
            self.wf(),
        ensures
            time == back(self@),
    {
        if self.len == 0 {
            None
        } else {
            let at = self.place(self.len - 1);
            Some(self.times[at])
        }
    }

    /// The cell of the `i`-th time on record.
    fn place(&self, i: usize) -> (at: usize)
        requires
            self.wf(),
            i < K,
        ensures
            at == cell(self.start as int, i as int, K as int),
            at < K,
    {
        if i < K - self.start {
            self.start + i
        } else {
            i - (K - self.start)
        }
    }

    /// Puts a reference at `now` on record. When `K` times are on record already, the oldest
    /// makes room.
    pub fn record(&mut self, now: u64)
        requires
            old(self).wf(),
            old(self)@.len() > 0 ==> old(self)@.last() <= now,
        ensures
            final(self).wf(),
            final(self)@ == recorded(old(self)@, K as nat, now),
    {
        if K == 0 {
            proof {
                assert(self.log@.push(now).drop_first() =~= Seq::<u64>::empty());
                self.log = Ghost(Seq::empty());
            }
            return ;
        }
        let ghost before = self.log@;
        if self.len < K {
            let at = self.place(self.len);
            self.times[at] = now;
            self.len += 1;
            proof {
                self.log = Ghost(before.push(now));
                assert forall|i: int| 0 <= i < self.len implies self.times@[cell(
                    self.start as int,
                    i,
                    K as int,
                )] == #[trigger] self.log@[i] by {
                    if i < before.len() {
                        assert(before[i] == old(self).times@[cell(self.start as int, i, K as int)]);
                    }
                }
            }
        } else {
            self.times[self.start] = now;
            self.start = if self.start + 1 == K {
                0
            } else {
                self.start + 1
            };
            proof {
                let after = before.push(now).drop_first();
                self.log = Ghost(after);
                assert forall|i: int| 0 <= i < self.len implies self.times@[cell(
                    self.start as int,
                    i,
                    K as int,
                )] == #[trigger] self.log@[i] by {
                    if i + 1 < before.len() {
                        assert(before[i + 1] == old(self).times@[cell(
                            old(self).start as int,
                            i + 1,
                            K as int,
                        )]);
                    }
                }
            }
        }
    }

    /// How far back from `now` the `K`-th most recent reference lies.
    pub fn k_backward_distance(&self, now: u64) -> (d: Distance)
        requires
            self.wf(),
            self@.len() > 0 ==> self@.last() <= now,
        ensures
            d == distance(self@, K as nat, now),
    {
        if K > 0 && self.len == K {
            assert(self.log@[0] == self.times@[cell(self.start as int, 0, K as int)]);
            Distance::Finite(now - self.times[self.start])
        } else {
            Distance::Infinite
        }
    }
}

/// The reference histories of the slots `0..CAP`.
#[derive(Clone, Copy)]
pub struct Tracker<const CAP: usize, const K: usize> {
    rings: [History<K>; CAP],
}

impl<const CAP: usize, const K: usize> Tracker<CAP, K> {
    /// The times on record for each slot, oldest first.
    pub closed spec fn view(&self) -> Seq<Seq<u64>> {
        Seq::new(CAP as nat, |slot: int| self.rings@[slot]@)
    }

    /// Every slot's history is well formed.
    pub closed spec fn wf(&self) -> bool {
        forall|slot: int| 0 <= slot < CAP ==> (#[trigger] self.rings@[slot]).wf()
    }

    /// What a well-formed tracker holds.
    pub proof fn lemma_held(&self)
        requires
            self.wf(),
        ensures
            self@.len() == CAP,
            forall|slot: int| 0 <= slot < CAP ==> (#[trigger] self@[slot]).len() <= K,
            forall|slot: int| 0 <= slot < CAP ==> rising(#[trigger] self@[slot]),
    {
        assert forall|slot: int| 0 <= slot < CAP implies (#[trigger] self@[slot]).len() <= K
            && rising(self@[slot]) by {
            assert(self.rings@[slot].wf());
        }
    }

    /// A tracker with nothing on record for any slot.
    pub fn new() -> (tracker: Self)
        ensures
            tracker.wf(),
            tracker@ == Seq::new(CAP as nat, |slot: int| Seq::<u64>::empty()),
    {
        let tracker = Tracker { rings: [History::new(); CAP] };
        assert(tracker@ =~= Seq::new(CAP as nat, |slot: int| Seq::<u64>::empty()));
        tracker
    }

    /// Puts a reference to `slot` at `now` on record.
    pub fn record_reference(&mut self, slot: Id, now: u64)
        requires
            old(self).wf(),
            (slot as int) < CAP,
            old(self)@[slot as int].len() > 0 ==> old(self)@[slot as int].last() <= now,
        ensures
            final(self).wf(),
            final(self)@ == old(self)@.update(
                slot as int,
                recorded(old(self)@[slot as int], K as nat, now),
            ),
    {
        self.rings[slot as usize].record(now);
        assert(self@ =~= old(self)@.update(
            slot as int,
            recorded(old(self)@[slot as int], K as nat, now),
        ));
    }

    /// Forgets every reference to `slot`.
    pub fn clear(&mut self, slot: Id)
        requires
            old(self).wf(),
            (slot as int) < CAP,
        ensures
            final(self).wf(),
            final(self)@ == old(self)@.update(slot as int, Seq::<u64>::empty()),
    {
        self.rings[slot as usize].clear();
        assert(self@ =~= old(self)@.update(slot as int, Seq::<u64>::empty()));
    }

    /// The number of references to `slot` on record.
    pub fn reference_count(&self, slot: Id) -> (n: usize)
        requires
            self.wf(),
            (slot as int) < CAP,
        ensures
            n == self@[slot as int].len(),
            n <= K,
    {
        self.rings[slot as usize].count()
    }

    /// The oldest reference to `slot` on record.
    pub fn oldest(&self, slot: Id) -> (time: Option<u64>)
        requires
            self.wf(),
            (slot as int) < CAP,
        ensures
            time == front(self@[slot as int]),
    {
        self.rings[slot as usize].oldest()
    }

    /// The most recent reference to `slot` on record.
    pub fn latest(&self, slot: Id) -> (time: Option<u64>)
        requires
            self.wf(),
            (slot as int) < CAP,
        ensures
            time == back(self@[slot as int]),
    {
        self.rings[slot as usize].latest()
    }

    /// How far back from `now` the `K`-th most recent reference to `slot` lies.
    pub fn k_backward_distance(&self, slot: Id, now: u64) -> (d: Distance)
        requires
            self.wf(),
            (slot as int) < CAP,
            self@[slot as int].len() > 0 ==> self@[slot as int].last() <= now,
        ensures
            d == distance(self@[slot as int], K as nat, now),
    {
        self.rings[slot as usize].k_backward_distance(now)
    }
}

} // verus!
