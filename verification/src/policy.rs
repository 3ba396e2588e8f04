//! The policy engine: the two orders of the LRU-K policy over the slots of an arena.
//!
//! The engine keeps a history for every slot, a list of the slots with fewer than `K`
//! references and a list of the slots with `K` references, and a logical clock that ticks once
//! for each reference. What it does is stated over the model of [`crate::engine`].

use crate::engine::{lemma_without, placed, rank, Engine};
use crate::history::{recorded, Tracker};
use crate::list::{without, Id, List};
use vstd::prelude::*;

verus! {

/// Where a slot stands with the policy.
#[derive(Clone, Copy, Debug, PartialEq, Eq, Structural)]
pub enum Residence {
    /// The slot holds no entry that the policy knows of.
    Unseen,
    /// The entry has fewer than `K` references on record.
    Correlated,
    /// The entry has `K` references on record.
    Retained,
}

/// The policy engine over the slots `0..CAP`.
#[derive(Clone, Copy)]
pub struct Policy<const CAP: usize, const K: usize> {
    tracker: Tracker<CAP, K>,
    correlated: List<CAP>,
    retained: List<CAP>,
    clock: u64,
    period: u64,
}

/// The histories of a tracker as a map over all slots.
pub open spec fn histories(logs: Seq<Seq<u64>>) -> Map<Id, Seq<u64>> {
    Map::new(|slot: Id| true, |slot: Id| logs[slot as int])
}

/// The rank of a time in an order depends only on the histories of the entries in the order.
proof fn lemma_rank_same<T>(order: Seq<T>, a: Map<T, Seq<u64>>, b: Map<T, Seq<u64>>, time: u64)
    requires
        forall|i: int| 0 <= i < order.len() ==> a[#[trigger] order[i]] == b[order[i]],
    ensures
        rank(order, a, time) == rank(order, b, time),
    decreases order.len(),
{
    if order.len() > 0 {
        assert(a[order[0]] == b[order[0]]);
        let rest = order.drop_first();
        assert forall|i: int| 0 <= i < rest.len() implies a[#[trigger] rest[i]] == b[rest[i]] by {
            assert(rest[i] == order[i + 1]);
        }
        lemma_rank_same(rest, a, b, time);
    }
}

/// The rank of a time is the first position whose entry has no later oldest time.
proof fn lemma_rank_found<T>(order: Seq<T>, logs: Map<T, Seq<u64>>, time: u64, at: int)
    requires
        0 <= at <= order.len(),
        forall|i: int| 0 <= i < at ==> logs[#[trigger] order[i]][0] > time,
        at < order.len() ==> logs[order[at]][0] <= time,
    ensures
        rank(order, logs, time) == at,
    decreases at,
{
    if at > 0 {
        assert(logs[order[0]][0] > time);
        let rest = order.drop_first();
        assert forall|i: int| 0 <= i < at - 1 implies logs[#[trigger] rest[i]][0] > time by {
            assert(rest[i] == order[i + 1]);
        }
        if at < order.len() {
            assert(rest[at - 1] == order[at]);
        }
        lemma_rank_found(rest, logs, time, at - 1);
    }
}

/// Links `slot` into the retained list at the place of its oldest time on record.
fn place<const CAP: usize, const K: usize>(
    retained: &mut List<CAP>,
    tracker: &Tracker<CAP, K>,
    slot: Id,
)
    requires
        old(retained).wf(),
        tracker.wf(),
        (slot as int) < CAP,
        !old(retained)@.contains(slot),
        tracker@[slot as int].len() > 0,
        forall|i: int|
            0 <= i < old(retained)@.len() ==> tracker@[#[trigger] old(retained)@[i] as int].len()
                > 0,
    ensures
        final(retained).wf(),
        final(retained)@ == placed(old(retained)@, histories(tracker@), slot),
{
    let ghost s = retained@;
    let ghost logs = histories(tracker@);
    proof {
        retained.lemma_stored();
        tracker.lemma_held();
    }
    let time = match tracker.oldest(slot) {
        Some(t) => t,
        None => 0,
    };
    let mut prev: Option<Id> = None;
    let mut cur: Option<Id> = retained.head();
    let ghost mut at: int = 0;
    loop
        invariant
            retained.wf(),
            tracker.wf(),
            retained@ == s,
            s.no_duplicates(),
            forall|i: int| 0 <= i < s.len() ==> (#[trigger] s[i] as int) < CAP,
            forall|i: int| 0 <= i < s.len() ==> tracker@[#[trigger] s[i] as int].len() > 0,
            tracker@.len() == CAP,
            logs == histories(tracker@),
            0 <= at <= s.len(),
            cur == (if at < s.len() {
                Some(s[at])
            } else {
                None
            }),
            prev == (if at > 0 {
                Some(s[at - 1])
            } else {
                None
            }),
            forall|i: int| 0 <= i < at ==> logs[#[trigger] s[i]][0] > time,
        ensures
            at < s.len() ==> logs[s[at]][0] <= time,
        decreases s.len() - at,
    {
        match cur {
            None => {
                break ;
            },
            Some(c) => {
                assert(s[at] == c);
                let kth = match tracker.oldest(c) {
                    Some(t) => t,
                    None => 0,
                };
                if kth <= time {
                    break ;
                }
                let links = retained.links(c);
                proof {
                    assert(s.contains(c));
                    assert(s.index_of(c) == at);
                    at = at + 1;
                }
                prev = cur;
                cur = links.next;
            },
        }
    }
    proof {
        lemma_rank_found(s, logs, time, at);
        assert(logs[slot][0] == time);
    }
    match prev {
        None => {
            retained.push_front(slot);
            assert(seq![slot] + s =~= s.insert(0, slot));
        },
        Some(p) => {
            proof {
                assert(s[at - 1] == p);
                assert(s.contains(p));
                assert(s.index_of(p) == at - 1);
            }
            retained.insert_after(p, slot);
        },
    }
}

impl<const CAP: usize, const K: usize> Policy<CAP, K> {
    /// The state of the policy, with the entries named by their slots.
    pub closed spec fn view(&self) -> Engine<Id> {
        Engine {
            k: K as nat,
            period: self.period,
            clock: self.clock,
            logs: Map::new(
                |slot: Id| self.correlated@.contains(slot) || self.retained@.contains(slot),
                |slot: Id| self.tracker@[slot as int],
            ),
            correlated: self.correlated@,
            retained: self.retained@,
        }
    }

    /// The lists and histories are well formed, they meet the invariant of the policy, and a
    /// slot in neither list has no reference on record.
    pub closed spec fn wf(&self) -> bool {
        &&& self.tracker.wf()
        &&& self.correlated.wf()
        &&& self.retained.wf()
        &&& self@.sound()
        &&& forall|slot: Id|
            (slot as int) < CAP && !(#[trigger] self@.logs.dom().contains(slot))
                ==> self.tracker@[slot as int].len() == 0
    }

    /// What a well-formed engine holds: its state meets the invariant of the policy, and every
    /// resident slot is below `CAP`.
    pub proof fn lemma_held(&self)
        requires
            self.wf(),
        ensures
            self@.sound(),
            self@.k == K,
            self@.len() <= CAP,
            forall|slot: Id| #[trigger] self@.resident(slot) ==> (slot as int) < CAP,
    {
        self.correlated.lemma_stored();
        self.retained.lemma_stored();
        assert forall|slot: Id| #[trigger] self@.resident(slot) implies (slot as int) < CAP by {
            if self.correlated@.contains(slot) {
                assert(self.correlated@[self.correlated@.index_of(slot)] == slot);
            } else {
                assert(self.retained@[self.retained@.index_of(slot)] == slot);
            }
        }
        let both = self.correlated@ + self.retained@;
        assert forall|i: int, j: int| 0 <= i < both.len() && 0 <= j < both.len() && i
            != j implies both[i] != both[j] by {
            let n = self.correlated@.len() as int;
            if i < n && j >= n {
                assert(self.correlated@.contains(both[i]));
                assert(self.retained@.contains(both[j]));
            } else if j < n && i >= n {
                assert(self.correlated@.contains(both[j]));
                assert(self.retained@.contains(both[i]));
            }
        }
        crate::list::lemma_distinct_below(both, CAP as nat);
    }

    /// An engine that has seen no reference. A reference no more than `period` ticks after the
    /// last recorded reference to the same slot will not be recorded.
    pub fn new(period: u64) -> (policy: Self)
        requires
            CAP > 0,
            K >= 1,
        ensures
            policy.wf(),
            policy@ == Engine::<Id>::fresh(K as nat, period),
    {
        let policy = Policy {
            tracker: Tracker::new(),
            correlated: List::new(),
            retained: List::new(),
            clock: 0,
            period,
        };
        assert(policy@.logs =~= Map::<Id, Seq<u64>>::empty());
        policy
    }

    /// The reading of the logical clock.
    pub fn clock(&self) -> (clock: u64)
        ensures
            clock == self@.clock,
    {
        self.clock
    }

    /// The length of the correlated reference period.
    pub fn period(&self) -> (period: u64)
        ensures
            period == self@.period,
    {
        self.period
    }

    /// Where `slot` stands.
    pub fn residence(&self, slot: Id) -> (residence: Residence)
        requires
            self.wf(),
        ensures
            residence == (if self@.correlated.contains(slot) {
                Residence::Correlated
            } else if self@.retained.contains(slot) {
                Residence::Retained
            } else {
                Residence::Unseen
            }),
    {
        if self.correlated.contains(slot) {
            Residence::Correlated
        } else if self.retained.contains(slot) {
            Residence::Retained
        } else {
            Residence::Unseen
        }
    }

    /// The slot that the next eviction would take, if any slot is resident.
    pub fn victim(&self) -> (slot: Option<Id>)
        requires
            self.wf(),
        ensures
            slot == (if self@.len() == 0 {
                None
            } else {
                Some(self@.victim())
            }),
    {
        match self.correlated.tail() {
            Some(slot) => Some(slot),
            None => self.retained.tail(),
        }
    }

    /// Takes a reference to `slot`.
    pub fn reference(&mut self, slot: Id)
        requires
            old(self).wf(),
            (slot as int) < CAP,
        ensures
            final(self).wf(),
            final(self)@ == old(self)@.touched(slot),
    {
        let ghost before = self@;
        proof {
            before.lemma_touched_sound(slot);
            self.tracker.lemma_held();
            self.correlated.lemma_stored();
            self.retained.lemma_stored();
        }
        let now = if self.clock < u64::MAX {
            self.clock + 1
        } else {
            self.clock
        };
        let resident = self.correlated.contains(slot) || self.retained.contains(slot);
        assert(resident == before.resident(slot));
        self.clock = now;
        if resident {
            assert(before.logs.dom().contains(slot));
            assert(before.logs[slot] == self.tracker@[slot as int]);
            match self.tracker.latest(slot) {
                Some(last) => {
                    if now - last <= self.period {
                        proof {
                            assert(self@.logs =~= before.logs);
                            assert(forall|s: Id|
                                #[trigger] self@.logs.dom().contains(s)
                                    == before.logs.dom().contains(s));
                        }
                        return ;
                    }
                },
                None => {},
            }
        }
        assert(!before.correlated_with_last(slot));
        let ghost log = recorded(before.log(slot), K as nat, now);
        let ghost logs = before.logs.insert(slot, log);
        assert(before.log(slot) == self.tracker@[slot as int]);
        self.tracker.record_reference(slot, now);
        let full = self.tracker.reference_count(slot) >= K;
        self.correlated.remove(slot);
        if full {
            self.retained.remove(slot);
            proof {
                lemma_without(before.retained, slot);
                let rest = without(before.retained, slot);
                assert forall|i: int| 0 <= i < rest.len() implies self.tracker@[
                    #[trigger] rest[i] as int].len() > 0 by {
                    assert(rest.contains(rest[i]));
                    assert(before.retained.contains(rest[i]));
                    assert(before.logs.dom().contains(rest[i]));
                }
                lemma_rank_same(rest, histories(self.tracker@), logs, log[0]);
            }
            place(&mut self.retained, &self.tracker, slot);
        } else {
            proof {
                lemma_without(before.correlated, slot);
            }
            self.correlated.push_front(slot);
        }
        proof {
            let after = before.touched(slot);
            assert(self@.correlated == after.correlated);
            assert(self@.retained == after.retained);
            assert forall|s: Id| #[trigger]
                self@.logs.dom().contains(s) == after.logs.dom().contains(s) by {
                assert(after.logs.dom().contains(s) <==> (after.correlated.contains(s)
                    || after.retained.contains(s)));
            }
            assert(self@.logs =~= after.logs);
            assert forall|s: Id|
                (s as int) < CAP && !(#[trigger] self@.logs.dom().contains(s))
                    implies self.tracker@[s as int].len() == 0 by {
                assert(!before.logs.dom().contains(s));
            }
        }
    }

    /// Takes `slot` out of the policy and forgets its history. A slot that is not resident
    /// leaves everything as it is.
    pub fn forget(&mut self, slot: Id)
        requires
            old(self).wf(),
        ensures
            final(self).wf(),
            final(self)@ == old(self)@.dropped(slot),
    {
        let ghost before = self@;
        proof {
            before.lemma_dropped_sound(slot);
            self.lemma_held();
        }
        self.correlated.remove(slot);
        self.retained.remove(slot);
        if (slot as usize) < CAP {
            self.tracker.clear(slot);
        }
        proof {
            let after = before.dropped(slot);
            lemma_without(before.correlated, slot);
            lemma_without(before.retained, slot);
            self.tracker.lemma_held();
            old(self).tracker.lemma_held();
            assert forall|s: Id| #[trigger] self@.logs.dom().contains(s) implies self@.logs[s]
                == after.logs[s] && after.logs.dom().contains(s) by {
                assert(before.resident(s));
                assert(s != slot);
            }
            assert(self@.logs =~= after.logs);
            assert forall|s: Id|
                (s as int) < CAP && !(#[trigger] self@.logs.dom().contains(s))
                    implies self.tracker@[s as int].len() == 0 by {
                if s != slot {
                    assert(!before.logs.dom().contains(s));
                }
            }
        }
    }

    /// Evicts the victim: takes it out of the policy, forgets its history and returns its
    /// slot. `None` if no slot is resident.
    pub fn evict(&mut self) -> (slot: Option<Id>)
        requires
            old(self).wf(),
        ensures
            final(self).wf(),
            old(self)@.len() == 0 ==> slot is None && final(self)@ == old(self)@,
            old(self)@.len() > 0 ==> slot == Some(old(self)@.victim()) && final(self)@ == old(
                self,
            )@.evicted() && (old(self)@.victim() as int) < CAP,
    {
        match self.victim() {
            None => None,
            Some(slot) => {
                proof {
                    self.lemma_held();
                    let v = self@.victim();
                    if self@.correlated.len() > 0 {
                        assert(self@.correlated[self@.correlated.len() - 1] == v);
                        assert(self@.correlated.contains(v));
                    } else {
                        assert(self@.retained[self@.retained.len() - 1] == v);
                        assert(self@.retained.contains(v));
                    }
                    assert(self@.resident(v));
                }
                self.forget(slot);
                Some(slot)
            },
        }
    }
}

} // verus!
