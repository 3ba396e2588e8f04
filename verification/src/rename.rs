//! From slots to keys: the state of the policy over slots, read over the keys that the slots
//! hold.
//!
//! The policy engine names entries by slot and the cache names them by key. As long as the
//! resident slots and the keys of an index stand in one-to-one correspondence, a step of the
//! policy over slots is the same step over keys.

use crate::engine::{lemma_rank, lemma_without, ordered, rank, ticked, Engine};
use crate::history::recorded;
use crate::list::{without, Id};
use vstd::prelude::*;

verus! {

/// The keys held by the slots of `order`, in the same order.
pub open spec fn named(order: Seq<Id>, keys: Seq<u64>) -> Seq<u64> {
    order.map_values(|slot: Id| keys[slot as int])
}

/// The state `e` with every slot replaced by the key it holds.
pub open spec fn renamed(e: Engine<Id>, keys: Seq<u64>, index: Map<u64, Id>) -> Engine<u64> {
    Engine {
        k: e.k,
        period: e.period,
        clock: e.clock,
        logs: Map::new(|key: u64| index.dom().contains(key), |key: u64| e.logs[index[key]]),
        correlated: named(e.correlated, keys),
        retained: named(e.retained, keys),
    }
}

/// The resident slots of `e` and the keys of `index` correspond one to one: the index leads
/// from the key of each resident slot back to the slot, and each key of the index is held by
/// the resident slot that the index gives for it.
pub open spec fn linked(e: Engine<Id>, keys: Seq<u64>, index: Map<u64, Id>) -> bool {
    &&& forall|slot: Id| #[trigger]
        e.logs.dom().contains(slot) ==> (slot as int) < keys.len() && index.dom().contains(
            keys[slot as int],
        ) && index[keys[slot as int]] == slot
    &&& forall|key: u64| #[trigger]
        index.dom().contains(key) ==> e.logs.dom().contains(index[key]) && keys[index[key] as int]
            == key
}

/// Where the slots of an order hold distinct keys, the keys tell the slots apart.
proof fn lemma_named(order: Seq<Id>, e: Engine<Id>, keys: Seq<u64>, index: Map<u64, Id>)
    requires
        linked(e, keys, index),
        order.no_duplicates(),
        forall|i: int| 0 <= i < order.len() ==> e.logs.dom().contains(#[trigger] order[i]),
    ensures
        named(order, keys).len() == order.len(),
        named(order, keys).no_duplicates(),
        forall|i: int| 0 <= i < order.len() ==> #[trigger] named(order, keys)[i] == keys[order[i] as int],
        forall|i: int| 0 <= i < order.len() ==> index[#[trigger] named(order, keys)[i]] == order[i],
        forall|key: u64| #[trigger]
            named(order, keys).contains(key) <==> index.dom().contains(key) && order.contains(
                index[key],
            ),
        forall|slot: Id|
            e.logs.dom().contains(slot) ==> (#[trigger] order.contains(slot) <==> named(
                order,
                keys,
            ).contains(keys[slot as int])),
{
    let n = named(order, keys);
    assert forall|i: int| 0 <= i < order.len() implies index[#[trigger] n[i]] == order[i] by {
        assert(e.logs.dom().contains(order[i]));
    }
    assert forall|i: int, j: int| 0 <= i < n.len() && 0 <= j < n.len() && i != j implies n[i]
        != n[j] by {
        assert(index[n[i]] == order[i]);
        assert(index[n[j]] == order[j]);
    }
    assert forall|key: u64| #[trigger] n.contains(key) <==> index.dom().contains(key)
        && order.contains(index[key]) by {
        if n.contains(key) {
            let i = n.index_of(key);
            assert(index[n[i]] == order[i]);
            assert(e.logs.dom().contains(order[i]));
        }
        if index.dom().contains(key) && order.contains(index[key]) {
            let i = order.index_of(index[key]);
            assert(n[i] == key);
        }
    }
    assert forall|slot: Id| e.logs.dom().contains(slot) implies (#[trigger] order.contains(slot)
        <==> n.contains(keys[slot as int])) by {
        if order.contains(slot) {
            let i = order.index_of(slot);
            assert(n[i] == keys[slot as int]);
        }
    }
}

/// The keys of an order do not change where the keys of its slots do not change.
proof fn lemma_named_same(order: Seq<Id>, keys: Seq<u64>, keys2: Seq<u64>)
    requires
        forall|i: int| 0 <= i < order.len() ==> keys2[#[trigger] order[i] as int] == keys[order[i] as int],
    ensures
        named(order, keys2) == named(order, keys),
{
    assert(named(order, keys2) =~= named(order, keys));
}

/// Renaming an order and then taking a key out is the same as taking the slot out and then
/// renaming.
proof fn lemma_named_without(
    order: Seq<Id>,
    e: Engine<Id>,
    keys: Seq<u64>,
    index: Map<u64, Id>,
    slot: Id,
)
    requires
        linked(e, keys, index),
        order.no_duplicates(),
        forall|i: int| 0 <= i < order.len() ==> e.logs.dom().contains(#[trigger] order[i]),
        e.logs.dom().contains(slot),
    ensures
        named(without(order, slot), keys) == without(named(order, keys), keys[slot as int]),
{
    let n = named(order, keys);
    let key = keys[slot as int];
    lemma_named(order, e, keys, index);
    if order.contains(slot) {
        let at = order.index_of(slot);
        assert(n[at] == key);
        assert(n.contains(key));
        assert(n.index_of(key) == at);
        assert(named(order.remove(at), keys) =~= n.remove(at));
    }
}

/// The rank of a time in an order is the same over slots and over keys.
proof fn lemma_rank_named(
    order: Seq<Id>,
    keys: Seq<u64>,
    logs: Map<Id, Seq<u64>>,
    key_logs: Map<u64, Seq<u64>>,
    time: u64,
)
    requires
        forall|i: int|
            0 <= i < order.len() ==> key_logs[keys[#[trigger] order[i] as int]] == logs[order[i]],
    ensures
        rank(named(order, keys), key_logs, time) == rank(order, logs, time),
    decreases order.len(),
{
    let n = named(order, keys);
    if order.len() > 0 {
        assert(n[0] == keys[order[0] as int]);
        assert(key_logs[n[0]] == logs[order[0]]);
        let rest = order.drop_first();
        assert(named(rest, keys) =~= n.drop_first());
        assert forall|i: int| 0 <= i < rest.len() implies key_logs[keys[
            #[trigger] rest[i] as int]] == logs[rest[i]] by {
            assert(rest[i] == order[i + 1]);
        }
        lemma_rank_named(rest, keys, logs, key_logs, time);
    }
}

/// The number of resident entries, the victim and the invariant of the policy carry over from
/// slots to keys.
pub proof fn lemma_renamed_sound(e: Engine<Id>, keys: Seq<u64>, index: Map<u64, Id>)
    requires
        e.sound(),
        linked(e, keys, index),
    ensures
        renamed(e, keys, index).sound(),
        renamed(e, keys, index).len() == e.len(),
        e.len() > 0 ==> renamed(e, keys, index).victim() == keys[e.victim() as int]
            && e.resident(e.victim()),
        forall|key: u64| #[trigger]
            renamed(e, keys, index).resident(key) <==> index.dom().contains(key),
{
    let r = renamed(e, keys, index);
    assert forall|i: int| 0 <= i < e.correlated.len() implies e.logs.dom().contains(
        #[trigger] e.correlated[i],
    ) by {
        assert(e.correlated.contains(e.correlated[i]));
    }
    assert forall|i: int| 0 <= i < e.retained.len() implies e.logs.dom().contains(
        #[trigger] e.retained[i],
    ) by {
        assert(e.retained.contains(e.retained[i]));
    }
    lemma_named(e.correlated, e, keys, index);
    lemma_named(e.retained, e, keys, index);
    assert forall|key: u64|
        #![trigger r.logs.dom().contains(key)]
        #![trigger r.correlated.contains(key)]
        #![trigger r.retained.contains(key)]
        (r.logs.dom().contains(key) <==> (r.correlated.contains(key) || r.retained.contains(key)))
            && !(r.correlated.contains(key) && r.retained.contains(key)) by {
        if index.dom().contains(key) {
            let slot = index[key];
            assert(e.logs.dom().contains(slot));
            assert(e.correlated.contains(slot) || e.retained.contains(slot));
        }
    }
    assert forall|key: u64| #[trigger] r.correlated.contains(key) implies 1 <= r.logs[key].len()
        < r.k by {
        assert(e.correlated.contains(index[key]));
    }
    assert forall|key: u64| #[trigger] r.retained.contains(key) implies r.logs[key].len()
        == r.k by {
        assert(e.retained.contains(index[key]));
    }
    assert forall|i: int, j: int| 0 <= i < j < r.retained.len() implies r.logs[
        #[trigger] r.retained[i]][0] >= r.logs[#[trigger] r.retained[j]][0] by {
        assert(index[r.retained[i]] == e.retained[i]);
        assert(index[r.retained[j]] == e.retained[j]);
        assert(r.retained.contains(r.retained[i]) && r.retained.contains(r.retained[j]));
    }
    assert forall|i: int, j: int| 0 <= i < j < r.correlated.len() implies r.logs[
        #[trigger] r.correlated[i]].last() >= r.logs[#[trigger] r.correlated[j]].last() by {
        assert(index[r.correlated[i]] == e.correlated[i]);
        assert(index[r.correlated[j]] == e.correlated[j]);
        assert(r.correlated.contains(r.correlated[i]) && r.correlated.contains(r.correlated[j]));
    }
    if e.len() > 0 {
        let v = e.victim();
        if e.correlated.len() > 0 {
            assert(e.correlated.contains(e.correlated[e.correlated.len() - 1]));
        } else {
            assert(e.retained.contains(e.retained[e.retained.len() - 1]));
        }
    }
}

/// The state over keys does not depend on the keys of slots that are not resident.
proof fn lemma_renamed_same(e: Engine<Id>, keys: Seq<u64>, keys2: Seq<u64>, index: Map<u64, Id>)
    requires
        e.sound(),
        forall|slot: Id| #[trigger]
            e.logs.dom().contains(slot) ==> keys2[slot as int] == keys[slot as int],
    ensures
        renamed(e, keys2, index) == renamed(e, keys, index),
{
    assert forall|i: int| 0 <= i < e.correlated.len() implies keys2[
        #[trigger] e.correlated[i] as int] == keys[e.correlated[i] as int] by {
        assert(e.correlated.contains(e.correlated[i]));
    }
    assert forall|i: int| 0 <= i < e.retained.len() implies keys2[
        #[trigger] e.retained[i] as int] == keys[e.retained[i] as int] by {
        assert(e.retained.contains(e.retained[i]));
    }
    lemma_named_same(e.correlated, keys, keys2);
    lemma_named_same(e.retained, keys, keys2);
}

/// A reference to a slot is, over keys, a reference to the key that the slot holds. The slot
/// is either resident already, or it is a free slot that takes up a key that the index does not
/// have yet.
pub proof fn lemma_touched(
    e: Engine<Id>,
    keys: Seq<u64>,
    index: Map<u64, Id>,
    slot: Id,
    key: u64,
)
    requires
        e.sound(),
        linked(e, keys, index),
        (slot as int) < keys.len(),
        e.resident(slot) ==> keys[slot as int] == key,
        !e.resident(slot) ==> !index.dom().contains(key),
    ensures
        linked(e.touched(slot), keys.update(slot as int, key), index.insert(key, slot)),
        renamed(e.touched(slot), keys.update(slot as int, key), index.insert(key, slot))
            == renamed(e, keys, index).touched(key),
{
    let keys2 = keys.update(slot as int, key);
    let index2 = index.insert(key, slot);
    let after = e.touched(slot);
    let r = renamed(e, keys, index);
    let ra = renamed(after, keys2, index2);
    let now = ticked(e.clock);
    e.lemma_touched_sound(slot);
    lemma_renamed_sound(e, keys, index);
    assert forall|i: int| 0 <= i < e.correlated.len() implies e.logs.dom().contains(
        #[trigger] e.correlated[i],
    ) by {
        assert(e.correlated.contains(e.correlated[i]));
    }
    assert forall|i: int| 0 <= i < e.retained.len() implies e.logs.dom().contains(
        #[trigger] e.retained[i],
    ) by {
        assert(e.retained.contains(e.retained[i]));
    }
    assert(r.resident(key) == e.resident(slot));
    assert(r.log(key) == e.log(slot));
    assert(r.correlated_with_last(key) == e.correlated_with_last(slot));
    // The slots that were resident keep their keys, and the index still leads back to them.
    assert forall|s: Id| #[trigger] e.logs.dom().contains(s) implies keys2[s as int] == keys[s as int]
        && index2[keys[s as int]] == s by {}
    if e.resident(slot) {
        assert(keys2 =~= keys);
        assert(index2 =~= index);
    }
    if e.correlated_with_last(slot) {
        assert(ra.logs =~= r.logs);
    } else {
        let log = recorded(e.log(slot), e.k, now);
        let logs = e.logs.insert(slot, log);
        let key_logs = r.logs.insert(key, log);
        assert(after.logs == logs);
        assert forall|k: u64| #[trigger] index2.dom().contains(k) implies after.logs.dom().contains(
            index2[k],
        ) && keys2[index2[k] as int] == k by {
            if k != key {
                assert(index.dom().contains(k));
                assert(index[k] != slot);
            }
        }
        assert forall|s: Id| #[trigger] after.logs.dom().contains(s) implies (s as int)
            < keys2.len() && index2.dom().contains(keys2[s as int]) && index2[keys2[s as int]]
            == s by {
            if s != slot {
                assert(e.logs.dom().contains(s));
                assert(keys[s as int] != key);
            }
        }
        assert(ra.logs =~= key_logs) by {
            assert forall|k: u64| #[trigger] ra.logs.dom().contains(k) implies ra.logs[k]
                == key_logs[k] by {
                if k != key {
                    assert(index.dom().contains(k));
                    assert(index[k] != slot);
                }
            }
        }
        // The two orders.
        let without_c = without(e.correlated, slot);
        let without_r = without(e.retained, slot);
        lemma_without(e.correlated, slot);
        lemma_without(e.retained, slot);
        assert forall|i: int| 0 <= i < without_c.len() implies e.logs.dom().contains(
            #[trigger] without_c[i],
        ) && without_c[i] != slot by {
            assert(without_c.contains(without_c[i]));
        }
        assert forall|i: int| 0 <= i < without_r.len() implies e.logs.dom().contains(
            #[trigger] without_r[i],
        ) && without_r[i] != slot by {
            assert(without_r.contains(without_r[i]));
        }
        lemma_named_same(without_c, keys, keys2);
        lemma_named_same(without_r, keys, keys2);
        if e.resident(slot) {
            lemma_named_without(e.correlated, e, keys, index, slot);
            lemma_named_without(e.retained, e, keys, index, slot);
        } else {
            lemma_named(e.correlated, e, keys, index);
            lemma_named(e.retained, e, keys, index);
            assert(!e.correlated.contains(slot) && !e.retained.contains(slot));
            assert(!r.correlated.contains(key) && !r.retained.contains(key));
        }
        assert(named(without_c, keys2) == without(r.correlated, key));
        assert(named(without_r, keys2) == without(r.retained, key));
        if log.len() >= e.k {
            let p = rank(without_r, logs, log[0]) as int;
            assert forall|i: int| 0 <= i < without_r.len() implies key_logs[keys2[
                #[trigger] without_r[i] as int]] == logs[without_r[i]] by {
                let s = without_r[i];
                assert(e.logs.dom().contains(s) && s != slot);
                assert(index.dom().contains(keys[s as int]));
                assert(keys[s as int] != key);
            }
            lemma_rank_named(without_r, keys2, logs, key_logs, log[0]);
            assert(ordered(without_r, logs)) by {
                crate::engine::lemma_without_sorted(e.retained, slot, e.logs, logs);
            }
            lemma_rank(without_r, logs, log[0]);
            assert(named(without_r.insert(p, slot), keys2) =~= named(without_r, keys2).insert(
                p,
                key,
            ));
        } else {
            assert(named(seq![slot] + without_c, keys2) =~= seq![key] + named(without_c, keys2));
            lemma_named_same(e.retained, keys, keys2);
        }
    }
}

/// Taking a resident slot out is, over keys, taking out the key that the slot holds.
pub proof fn lemma_dropped(e: Engine<Id>, keys: Seq<u64>, index: Map<u64, Id>, slot: Id)
    requires
        e.sound(),
        linked(e, keys, index),
        e.resident(slot),
    ensures
        linked(e.dropped(slot), keys, index.remove(keys[slot as int])),
        renamed(e.dropped(slot), keys, index.remove(keys[slot as int])) == renamed(
            e,
            keys,
            index,
        ).dropped(keys[slot as int]),
{
    let key = keys[slot as int];
    let index2 = index.remove(key);
    let after = e.dropped(slot);
    let r = renamed(e, keys, index);
    let ra = renamed(after, keys, index2);
    assert forall|i: int| 0 <= i < e.correlated.len() implies e.logs.dom().contains(
        #[trigger] e.correlated[i],
    ) by {
        assert(e.correlated.contains(e.correlated[i]));
    }
    assert forall|i: int| 0 <= i < e.retained.len() implies e.logs.dom().contains(
        #[trigger] e.retained[i],
    ) by {
        assert(e.retained.contains(e.retained[i]));
    }
    lemma_named_without(e.correlated, e, keys, index, slot);
    lemma_named_without(e.retained, e, keys, index, slot);
    assert forall|k: u64| #[trigger] index2.dom().contains(k) implies after.logs.dom().contains(
        index2[k],
    ) && keys[index2[k] as int] == k by {
        assert(index.dom().contains(k));
    }
    assert forall|s: Id| #[trigger] after.logs.dom().contains(s) implies (s as int) < keys.len()
        && index2.dom().contains(keys[s as int]) && index2[keys[s as int]] == s by {
        assert(e.logs.dom().contains(s));
    }
    assert(ra.logs =~= r.logs.remove(key)) by {
        assert forall|k: u64| #[trigger] ra.logs.dom().contains(k) implies ra.logs[k]
            == r.logs.remove(key)[k] by {
            assert(index.dom().contains(k));
        }
    }
}

} // verus!
