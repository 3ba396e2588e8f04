//! The LRU-K replacement policy as a mathematical model.
//!
//! The model speaks of entries by name, whatever the names are: the policy engine names them by
//! slot, the cache by key. An entry with fewer than `k` references on record waits in the
//! correlated order, most recently referenced first. An entry with `k` references is retained,
//! and the retained order runs from the most recent `k`-th reference back to the oldest, so
//! that its last entry is the one whose `k`-th most recent reference lies furthest back.

use crate::history::{recorded, rising};
use crate::list::{lemma_insert_shape, lemma_remove_shape, without};
use vstd::prelude::*;

verus! {

/// The state of the policy over entries named by `T`.
#[verifier::reject_recursive_types(T)]
pub struct Engine<T> {
    /// The number of references that make an entry retained.
    pub k: nat,
    /// A reference this close to the entry's last recorded one is not recorded.
    pub period: u64,
    /// The reading of the logical clock at the last reference.
    pub clock: u64,
    /// The reference times on record for each resident entry, oldest first.
    pub logs: Map<T, Seq<u64>>,
    /// The entries with fewer than `k` references, most recently referenced first.
    pub correlated: Seq<T>,
    /// The entries with `k` references, from the most recent `k`-th reference to the oldest.
    pub retained: Seq<T>,
}

/// The reading of the clock after one more reference. The clock stops at its largest value.
pub open spec fn ticked(clock: u64) -> u64 {
    if clock < u64::MAX {
        (clock + 1) as u64
    } else {
        clock
    }
}

/// The entries of `order` run from the most recent oldest-time-on-record to the least recent.
pub open spec fn ordered<T>(order: Seq<T>, logs: Map<T, Seq<u64>>) -> bool {
    forall|i: int, j: int|
        0 <= i < j < order.len() ==> logs[#[trigger] order[i]][0] >= logs[#[trigger] order[j]][0]
}

/// The entries of `order` run from the most recently referenced to the least recently
/// referenced.
pub open spec fn recent_first<T>(order: Seq<T>, logs: Map<T, Seq<u64>>) -> bool {
    forall|i: int, j: int|
        0 <= i < j < order.len() ==> logs[#[trigger] order[i]].last() >= logs[
            #[trigger] order[j]].last()
}

/// The number of leading entries of `order` whose oldest time on record is later than `time`.
pub open spec fn rank<T>(order: Seq<T>, logs: Map<T, Seq<u64>>, time: u64) -> nat
    decreases order.len(),
{
    if order.len() == 0 || logs[order[0]][0] <= time {
        0
    } else {
        1 + rank(order.drop_first(), logs, time)
    }
}

/// The retained order `order` with `x` put in where its oldest time on record belongs: behind
/// the entries whose oldest time is later, and before the others.
pub open spec fn placed<T>(order: Seq<T>, logs: Map<T, Seq<u64>>, x: T) -> Seq<T> {
    order.insert(rank(order, logs, logs[x][0]) as int, x)
}

impl<T> Engine<T> {
    /// The state before any reference.
    pub open spec fn fresh(k: nat, period: u64) -> Engine<T> {
        Engine {
            k,
            period,
            clock: 0,
            logs: Map::empty(),
            correlated: Seq::empty(),
            retained: Seq::empty(),
        }
    }

    /// Tells whether `x` is resident: in one of the two orders.
    pub open spec fn resident(self, x: T) -> bool {
        self.logs.dom().contains(x)
    }

    /// The number of resident entries.
    pub open spec fn len(self) -> nat {
        self.correlated.len() + self.retained.len()
    }

    /// The times on record for `x`; none for an entry that is not resident.
    pub open spec fn log(self, x: T) -> Seq<u64> {
        if self.resident(x) {
            self.logs[x]
        } else {
            Seq::empty()
        }
    }

    /// Tells whether a reference to `x` now would fall into the correlated reference period of
    /// its last recorded reference, and so would not be recorded.
    pub open spec fn correlated_with_last(self, x: T) -> bool {
        self.resident(x) && ticked(self.clock) - self.logs[x].last() <= self.period
    }

    /// The state after a reference to `x`. The clock ticks. Unless the reference falls into the
    /// correlated reference period of the last one, it is recorded; the entry then moves to the
    /// front of the correlated order, or, with `k` references on record, to its place in the
    /// retained order.
    pub open spec fn touched(self, x: T) -> Engine<T> {
        let now = ticked(self.clock);
        if self.correlated_with_last(x) {
            Engine { clock: now, ..self }
        } else {
            let log = recorded(self.log(x), self.k, now);
            let logs = self.logs.insert(x, log);
            if log.len() >= self.k {
                Engine {
                    clock: now,
                    logs,
                    correlated: without(self.correlated, x),
                    retained: placed(without(self.retained, x), logs, x),
                    ..self
                }
            } else {
                Engine {
                    clock: now,
                    logs,
                    correlated: seq![x] + without(self.correlated, x),
                    ..self
                }
            }
        }
    }

    /// The entry to evict: the last of the correlated order, or, if that order is empty, the
    /// last of the retained order.
    pub open spec fn victim(self) -> T
        recommends
            self.len() > 0,
    {
        if self.correlated.len() > 0 {
            self.correlated.last()
        } else {
            self.retained.last()
        }
    }

    /// The state without the entry `x` and its history.
    pub open spec fn dropped(self, x: T) -> Engine<T> {
        Engine {
            logs: self.logs.remove(x),
            correlated: without(self.correlated, x),
            retained: without(self.retained, x),
            ..self
        }
    }

    /// The state after the eviction of the victim.
    pub open spec fn evicted(self) -> Engine<T> {
        self.dropped(self.victim())
    }

    /// The invariant of the policy: the two orders hold every resident entry once; an entry is
    /// retained exactly when it has `k` references on record; no time on record is later than
    /// the clock; and both orders are sorted as described.
    pub open spec fn sound(self) -> bool {
        &&& self.k >= 1
        &&& self.correlated.no_duplicates()
        &&& self.retained.no_duplicates()
        &&& forall|x: T|
            #![trigger self.logs.dom().contains(x)]
            #![trigger self.correlated.contains(x)]
            #![trigger self.retained.contains(x)]
            self.logs.dom().contains(x) <==> (self.correlated.contains(x)
                || self.retained.contains(x))
        &&& forall|x: T|
            #![trigger self.correlated.contains(x)]
            #![trigger self.retained.contains(x)]
            !(self.correlated.contains(x) && self.retained.contains(x))
        &&& forall|x: T| #[trigger]
            self.correlated.contains(x) ==> 1 <= self.logs[x].len() < self.k
        &&& forall|x: T| #[trigger] self.retained.contains(x) ==> self.logs[x].len() == self.k
        &&& forall|x: T| #[trigger]
            self.logs.dom().contains(x) ==> rising(self.logs[x]) && self.logs[x].last()
                <= self.clock
        &&& ordered(self.retained, self.logs)
        &&& recent_first(self.correlated, self.logs)
    }
}

/// What taking `x` out of a sequence of distinct elements leaves.
pub proof fn lemma_without<T>(s: Seq<T>, x: T)
    requires
        s.no_duplicates(),
    ensures
        without(s, x).no_duplicates(),
        forall|y: T| #[trigger] without(s, x).contains(y) <==> s.contains(y) && y != x,
        without(s, x).len() == (if s.contains(x) {
            s.len() - 1
        } else {
            s.len() as int
        }),
{
    if s.contains(x) {
        lemma_remove_shape(s, s.index_of(x));
    }
}

/// Taking an entry out of an order keeps it sorted, also where the histories of other entries
/// stay and only that of the entry taken out changes.
pub proof fn lemma_without_sorted<T>(
    s: Seq<T>,
    x: T,
    logs: Map<T, Seq<u64>>,
    logs2: Map<T, Seq<u64>>,
)
    requires
        s.no_duplicates(),
        forall|y: T| y != x ==> #[trigger] logs2[y] == logs[y],
    ensures
        ordered(s, logs) ==> ordered(without(s, x), logs2),
        recent_first(s, logs) ==> recent_first(without(s, x), logs2),
{
    let w = without(s, x);
    lemma_without(s, x);
    if s.contains(x) {
        let k = s.index_of(x);
        lemma_remove_shape(s, k);
        assert forall|i: int| 0 <= i < w.len() implies #[trigger] w[i] == s[if i < k {
            i
        } else {
            i + 1
        }] by {}
        if ordered(s, logs) {
            assert forall|i: int, j: int| 0 <= i < j < w.len() implies logs2[#[trigger] w[i]][0]
                >= logs2[#[trigger] w[j]][0] by {
                let i0 = if i < k { i } else { i + 1 };
                let j0 = if j < k { j } else { j + 1 };
                assert(w[i] == s[i0] && w[j] == s[j0]);
                assert(w.contains(w[i]) && w.contains(w[j]));
            }
        }
        if recent_first(s, logs) {
            assert forall|i: int, j: int| 0 <= i < j < w.len() implies logs2[
                #[trigger] w[i]].last() >= logs2[#[trigger] w[j]].last() by {
                let i0 = if i < k { i } else { i + 1 };
                let j0 = if j < k { j } else { j + 1 };
                assert(w[i] == s[i0] && w[j] == s[j0]);
                assert(w.contains(w[i]) && w.contains(w[j]));
            }
        }
    } else {
        if ordered(s, logs) {
            assert forall|i: int, j: int| 0 <= i < j < w.len() implies logs2[#[trigger] w[i]][0]
                >= logs2[#[trigger] w[j]][0] by {
                assert(s.contains(w[i]) && s.contains(w[j]));
            }
        }
        if recent_first(s, logs) {
            assert forall|i: int, j: int| 0 <= i < j < w.len() implies logs2[
                #[trigger] w[i]].last() >= logs2[#[trigger] w[j]].last() by {
                assert(s.contains(w[i]) && s.contains(w[j]));
            }
        }
    }
}

/// In a sorted order, the entries before the rank of `time` have a later oldest time, and the
/// entries from the rank on do not.
pub proof fn lemma_rank<T>(order: Seq<T>, logs: Map<T, Seq<u64>>, time: u64)
    requires
        ordered(order, logs),
    ensures
        rank(order, logs, time) <= order.len(),
        forall|i: int| 0 <= i < rank(order, logs, time) ==> logs[#[trigger] order[i]][0] > time,
        forall|i: int|
            rank(order, logs, time) <= i < order.len() ==> logs[#[trigger] order[i]][0] <= time,
    decreases order.len(),
{
    if order.len() == 0 || logs[order[0]][0] <= time {
        assert forall|i: int| 0 <= i < order.len() implies logs[#[trigger] order[i]][0]
            <= time by {
            if i > 0 {
                assert(logs[order[0]][0] >= logs[order[i]][0]);
            }
        }
    } else {
        let rest = order.drop_first();
        assert forall|i: int, j: int| 0 <= i < j < rest.len() implies logs[
            #[trigger] rest[i]][0] >= logs[#[trigger] rest[j]][0] by {
            assert(rest[i] == order[i + 1] && rest[j] == order[j + 1]);
        }
        lemma_rank(rest, logs, time);
        let r = rank(rest, logs, time);
        assert forall|i: int| 0 <= i < r + 1 implies logs[#[trigger] order[i]][0] > time by {
            if i > 0 {
                assert(rest[i - 1] == order[i]);
            }
        }
        assert forall|i: int| r + 1 <= i < order.len() implies logs[#[trigger] order[i]][0]
            <= time by {
            assert(rest[i - 1] == order[i]);
        }
    }
}

/// Putting an entry into a sorted order at its place keeps the order sorted.
pub proof fn lemma_placed<T>(order: Seq<T>, logs: Map<T, Seq<u64>>, x: T)
    requires
        order.no_duplicates(),
        !order.contains(x),
        ordered(order, logs),
    ensures
        placed(order, logs, x).no_duplicates(),
        placed(order, logs, x).len() == order.len() + 1,
        forall|y: T| #[trigger] placed(order, logs, x).contains(y) <==> y == x || order.contains(y),
        ordered(placed(order, logs, x), logs),
{
    let time = logs[x][0];
    let p = rank(order, logs, time) as int;
    lemma_rank(order, logs, time);
    lemma_insert_shape(order, p, x);
    let t = placed(order, logs, x);
    assert forall|i: int, j: int| 0 <= i < j < t.len() implies logs[#[trigger] t[i]][0] >= logs[
        #[trigger] t[j]][0] by {
        let i0 = if i < p { i } else { i - 1 };
        let j0 = if j < p { j } else { j - 1 };
        if i == p {
            assert(t[j] == order[j0]);
        } else if j == p {
            assert(t[i] == order[i0]);
        } else {
            assert(t[i] == order[i0] && t[j] == order[j0]);
        }
    }
}

impl<T> Engine<T> {
    /// A reference keeps the invariant of the policy.
    pub proof fn lemma_touched_sound(self, x: T)
        requires
            self.sound(),
        ensures
            self.touched(x).sound(),
    {
        let now = ticked(self.clock);
        let after = self.touched(x);
        if self.correlated_with_last(x) {
        } else {
            let log = recorded(self.log(x), self.k, now);
            let logs = self.logs.insert(x, log);
            lemma_without(self.correlated, x);
            lemma_without(self.retained, x);
            lemma_without_sorted(self.correlated, x, self.logs, logs);
            lemma_without_sorted(self.retained, x, self.logs, logs);
            let before = self.log(x);
            assert(rising(log) && log.last() == now) by {
                if self.resident(x) {
                    assert(rising(before) && before.last() <= self.clock);
                }
                let pushed = before.push(now);
                assert forall|i: int, j: int| 0 <= i <= j < pushed.len() implies pushed[i]
                    <= pushed[j] by {
                    if j < before.len() {
                    } else if i < before.len() {
                        assert(before[i] <= before[before.len() - 1]);
                    }
                }
            }
            assert(self.retained.contains(x) ==> log.len() == self.k);
            assert(self.correlated.contains(x) ==> log.len() == before.len() + 1);
            assert(!self.resident(x) ==> log.len() == 1);
            assert forall|y: T| #[trigger]
                after.logs.dom().contains(y) implies rising(after.logs[y]) && after.logs[y].last()
                <= after.clock by {
                if y != x {
                    assert(self.logs.dom().contains(y));
                }
            }
            if log.len() >= self.k {
                let rest = without(self.retained, x);
                lemma_placed(rest, logs, x);
                assert forall|y: T| #[trigger]
                    after.retained.contains(y) implies after.logs[y].len() == after.k by {
                    if y != x {
                        assert(rest.contains(y));
                        assert(self.retained.contains(y));
                    }
                }
                assert forall|y: T| #[trigger]
                    after.correlated.contains(y) implies 1 <= after.logs[y].len() < after.k by {
                    assert(self.correlated.contains(y));
                }
                assert forall|y: T|
                    #![trigger after.logs.dom().contains(y)]
                    #![trigger after.correlated.contains(y)]
                    #![trigger after.retained.contains(y)]
                    (after.logs.dom().contains(y) <==> (after.correlated.contains(y)
                        || after.retained.contains(y))) && !(after.correlated.contains(y)
                        && after.retained.contains(y)) by {
                    if y != x {
                        assert(rest.contains(y) <==> self.retained.contains(y));
                        assert(after.correlated.contains(y) <==> self.correlated.contains(y));
                        assert(self.logs.dom().contains(y) <==> (self.correlated.contains(y)
                            || self.retained.contains(y)));
                    }
                }
            } else {
                assert(!self.retained.contains(x));
                let rest = without(self.correlated, x);
                let front = seq![x] + rest;
                assert(front[0] == x);
                assert forall|i: int| 0 < i < front.len() implies #[trigger] front[i] == rest[i
                    - 1] && rest.contains(front[i]) by {}
                assert forall|y: T| #[trigger] front.contains(y) <==> y == x || rest.contains(
                    y,
                ) by {
                    if rest.contains(y) {
                        assert(front[rest.index_of(y) + 1] == y);
                    }
                }
                assert(front.no_duplicates()) by {
                    assert forall|i: int, j: int|
                        0 <= i < front.len() && 0 <= j < front.len() && i != j implies front[i]
                        != front[j] by {
                        if i > 0 && j > 0 {
                            assert(rest[i - 1] != rest[j - 1]);
                        }
                    }
                }
                assert(without(self.retained, x) == self.retained);
                assert forall|y: T| #[trigger]
                    after.retained.contains(y) implies after.logs[y].len() == after.k by {}
                assert forall|y: T| #[trigger]
                    after.correlated.contains(y) implies 1 <= after.logs[y].len() < after.k by {
                    if y != x {
                        assert(rest.contains(y));
                        assert(self.correlated.contains(y));
                    }
                }
                assert forall|y: T|
                    #![trigger after.logs.dom().contains(y)]
                    #![trigger after.correlated.contains(y)]
                    #![trigger after.retained.contains(y)]
                    (after.logs.dom().contains(y) <==> (after.correlated.contains(y)
                        || after.retained.contains(y))) && !(after.correlated.contains(y)
                        && after.retained.contains(y)) by {
                    if y != x {
                        assert(rest.contains(y) <==> self.correlated.contains(y));
                        assert(self.logs.dom().contains(y) <==> (self.correlated.contains(y)
                            || self.retained.contains(y)));
                    }
                }
                assert forall|i: int, j: int| 0 <= i < j < front.len() implies logs[
                    #[trigger] front[i]].last() >= logs[#[trigger] front[j]].last() by {
                    assert(rest.contains(front[j]));
                    assert(self.logs.dom().contains(front[j]));
                    if i > 0 {
                        assert(front[i] == rest[i - 1] && front[j] == rest[j - 1]);
                    }
                }
            }
        }
    }

    /// Taking an entry out keeps the invariant of the policy.
    pub proof fn lemma_dropped_sound(self, x: T)
        requires
            self.sound(),
        ensures
            self.dropped(x).sound(),
    {
        let after = self.dropped(x);
        lemma_without(self.correlated, x);
        lemma_without(self.retained, x);
        lemma_without_sorted(self.correlated, x, self.logs, after.logs);
        lemma_without_sorted(self.retained, x, self.logs, after.logs);
        assert forall|y: T| #[trigger]
            after.logs.dom().contains(y) implies rising(after.logs[y]) && after.logs[y].last()
            <= after.clock by {
            assert(self.logs.dom().contains(y));
        }
        assert forall|y: T| #[trigger]
            after.retained.contains(y) implies after.logs[y].len() == after.k by {
            assert(self.retained.contains(y));
        }
        assert forall|y: T| #[trigger]
            after.correlated.contains(y) implies 1 <= after.logs[y].len() < after.k by {
            assert(self.correlated.contains(y));
        }
    }
}

impl<T> Engine<T> {
    /// A reference makes the entry resident and leaves every other entry as resident as it
    /// was; the number of resident entries grows by one for a new entry and not at all for a
    /// resident one.
    pub proof fn lemma_touched_len(self, x: T)
        requires
            self.sound(),
        ensures
            self.touched(x).len() == self.len() + (if self.resident(x) {
                0int
            } else {
                1int
            }),
            forall|y: T| #[trigger] self.touched(x).resident(y) <==> self.resident(y) || y == x,
    {
        let now = ticked(self.clock);
        if !self.correlated_with_last(x) {
            let log = recorded(self.log(x), self.k, now);
            let logs = self.logs.insert(x, log);
            lemma_without(self.correlated, x);
            lemma_without(self.retained, x);
            assert(self.retained.contains(x) ==> log.len() == self.k);
            if log.len() >= self.k {
                lemma_without_sorted(self.retained, x, self.logs, logs);
                lemma_placed(without(self.retained, x), logs, x);
            }
        }
    }

    /// Taking an entry out leaves every other entry as resident as it was; the number of
    /// resident entries falls by one if the entry was resident.
    pub proof fn lemma_dropped_len(self, x: T)
        requires
            self.sound(),
        ensures
            self.dropped(x).len() == self.len() - (if self.resident(x) {
                1int
            } else {
                0int
            }),
            forall|y: T| #[trigger] self.dropped(x).resident(y) <==> self.resident(y) && y != x,
    {
        lemma_without(self.correlated, x);
        lemma_without(self.retained, x);
    }
}

impl<T> Engine<T> {
    /// Where any entry is resident, the victim is resident.
    pub proof fn lemma_victim_resident(self)
        requires
            self.sound(),
            self.len() > 0,
        ensures
            self.resident(self.victim()),
            self.correlated.len() > 0 ==> self.correlated.contains(self.victim()),
            self.correlated.len() == 0 ==> self.retained.contains(self.victim()),
    {
        if self.correlated.len() > 0 {
            assert(self.correlated[self.correlated.len() - 1] == self.victim());
        } else {
            assert(self.retained[self.retained.len() - 1] == self.victim());
        }
    }
}

} // verus!
