//! Index-based doubly linked lists over a fixed id space.
//!
//! A [`List`] orders a subset of the ids `0..CAP`. The neighbours of every id are kept in an
//! array inside the list, so linking and unlinking never allocate. The list is modelled by the
//! sequence of its ids from head to tail.

use vstd::prelude::*;

verus! {

/// Handle of an arena slot.
pub type Id = u32;

/// Reserved handle that never names a slot.
pub const INVALID: Id = 0xFFFF_FFFF;

/// Tells whether `id` is a real handle rather than the reserved one.
pub fn is_valid(id: Id) -> (valid: bool)
    ensures
        valid == (id != INVALID),
{
    id != INVALID
}

/// The sequence `s` with `x` taken out, or `s` itself where `x` does not occur.
pub open spec fn without<T>(s: Seq<T>, x: T) -> Seq<T> {
    if s.contains(x) {
        s.remove(s.index_of(x))
    } else {
        s
    }
}

/// The element that follows `x` in `s`, if `x` occurs and is not the last one.
pub open spec fn successor<T>(s: Seq<T>, x: T) -> Option<T> {
    if s.contains(x) && s.index_of(x) + 1 < s.len() {
        Some(s[s.index_of(x) + 1])
    } else {
        None
    }
}

/// The element that precedes `x` in `s`, if `x` occurs and is not the first one.
pub open spec fn predecessor<T>(s: Seq<T>, x: T) -> Option<T> {
    if s.contains(x) && 0 < s.index_of(x) {
        Some(s[s.index_of(x) - 1])
    } else {
        None
    }
}

/// The first element of `s`, if there is one.
pub open spec fn front<T>(s: Seq<T>) -> Option<T> {
    if s.len() == 0 {
        None
    } else {
        Some(s[0])
    }
}

/// The last element of `s`, if there is one.
pub open spec fn back<T>(s: Seq<T>) -> Option<T> {
    if s.len() == 0 {
        None
    } else {
        Some(s[s.len() - 1])
    }
}

/// The two neighbours of a slot inside one list.
#[derive(Clone, Copy)]
pub struct Links {
    pub next: Option<Id>,
    pub prev: Option<Id>,
}

impl Links {
    /// Links of a slot that sits in no list.
    pub fn new() -> (links: Links)
        ensures
            links == Links::unlinked(),
    {
        Links { next: None, prev: None }
    }

    /// The links of a slot that has no neighbour on either side.
    pub open spec fn unlinked() -> Links {
        Links { next: None, prev: None }
    }
}

/// The links stored for the id at position `i` of `s` name its two neighbours in `s`.
spec fn joined(links: Seq<Links>, s: Seq<Id>, i: int) -> bool {
    &&& links[s[i] as int].prev == (if i == 0 {
        None
    } else {
        Some(s[i - 1])
    })
    &&& links[s[i] as int].next == (if i == s.len() - 1 {
        None
    } else {
        Some(s[i + 1])
    })
}

/// A doubly linked list of ids with a fixed capacity.
#[derive(Clone, Copy)]
pub struct List<const CAP: usize> {
    links: [Links; CAP],
    head: Option<Id>,
    tail: Option<Id>,
    order: Ghost<Seq<Id>>,
}

impl<const CAP: usize> List<CAP> {
    /// The ids of the list from head to tail.
    pub closed spec fn view(&self) -> Seq<Id> {
        self.order@
    }

    /// The stored links of `id`.
    pub closed spec fn links_of(&self, id: Id) -> Links {
        self.links@[id as int]
    }

    /// The stored head.
    pub closed spec fn first(&self) -> Option<Id> {
        self.head
    }

    /// The stored tail.
    pub closed spec fn last(&self) -> Option<Id> {
        self.tail
    }

    /// The stored links, head and tail describe exactly the sequence `self@`: its ids are
    /// distinct and below `CAP`, each is linked to its two neighbours in the sequence, and every
    /// other id has no links.
    pub closed spec fn wf(&self) -> bool {
        let s = self.order@;
        &&& s.no_duplicates()
        &&& forall|i: int| 0 <= i < s.len() ==> (#[trigger] s[i] as int) < CAP
        &&& self.head == front(s)
        &&& self.tail == back(s)
        &&& forall|i: int| 0 <= i < s.len() ==> #[trigger] joined(self.links@, s, i)
        &&& forall|id: Id|
            (id as int) < CAP && !(#[trigger] s.contains(id)) ==> self.links@[id as int]
                == Links::unlinked()
    }

    /// What a well-formed list stores, said over its sequence.
    pub proof fn lemma_stored(&self)
        requires
            self.wf(),
        ensures
            self@.no_duplicates(),
            forall|i: int| 0 <= i < self@.len() ==> (#[trigger] self@[i] as int) < CAP,
            self.first() == front(self@),
            self.last() == back(self@),
            forall|id: Id|
                (id as int) < CAP ==> (#[trigger] self.links_of(id)).next == successor(self@, id),
            forall|id: Id|
                (id as int) < CAP ==> (#[trigger] self.links_of(id)).prev == predecessor(
                    self@,
                    id,
                ),
    {
        let s = self.order@;
        assert forall|id: Id| (id as int) < CAP implies (#[trigger] self.links_of(id)).next
            == successor(s, id) && self.links_of(id).prev == predecessor(s, id) by {
            if s.contains(id) {
                let i = s.index_of(id);
                assert(joined(self.links@, s, i));
            }
        }
    }

    /// The ids met by following `next` from `from`, for at most `steps` steps.
    pub open spec fn forward(&self, from: Option<Id>, steps: nat) -> Seq<Id>
        decreases steps,
    {
        match from {
            Some(id) if steps > 0 => seq![id] + self.forward(
                self.links_of(id).next,
                (steps - 1) as nat,
            ),
            _ => Seq::empty(),
        }
    }

    /// The ids met by following `prev` from `from`, for at most `steps` steps.
    pub open spec fn backward(&self, from: Option<Id>, steps: nat) -> Seq<Id>
        decreases steps,
    {
        match from {
            Some(id) if steps > 0 => seq![id] + self.backward(
                self.links_of(id).prev,
                (steps - 1) as nat,
            ),
            _ => Seq::empty(),
        }
    }

    /// A list never holds more ids than its capacity.
    pub proof fn lemma_len_bounded(&self)
        requires
            self.wf(),
        ensures
            self@.len() <= CAP,
    {
        lemma_distinct_below(self.order@, CAP as nat);
    }

    /// Following `next` from the head visits the ids of the list in order, and following `prev`
    /// from the tail visits the same ids in the opposite order.
    pub proof fn lemma_traversals_agree(&self)
        requires
            self.wf(),
        ensures
            self.forward(self.first(), CAP as nat) == self@,
            self.backward(self.last(), CAP as nat) == self@.reverse(),
            self.backward(self.last(), CAP as nat) == self.forward(
                self.first(),
                CAP as nat,
            ).reverse(),
    {
        let s = self.order@;
        self.lemma_len_bounded();
        self.lemma_forward_from(0, CAP as nat);
        assert(s.subrange(0, s.len() as int) =~= s);
        if s.len() > 0 {
            self.lemma_backward_from(s.len() - 1, CAP as nat);
            assert(s.subrange(0, s.len() as int) =~= s);
        } else {
            assert(s.reverse() =~= Seq::<Id>::empty());
        }
    }

    proof fn lemma_forward_from(&self, i: int, steps: nat)
        requires
            self.wf(),
            0 <= i <= self@.len(),
            steps >= self@.len() - i,
        ensures
            self.forward(front(self.order@.subrange(i, self.order@.len() as int)), steps)
                == self.order@.subrange(i, self.order@.len() as int),
        decreases self.order@.len() - i,
    {
        let s = self.order@;
        let rest = s.subrange(i, s.len() as int);
        if i < s.len() {
            assert(rest[0] == s[i]);
            assert(joined(self.links@, s, i));
            self.lemma_forward_from(i + 1, (steps - 1) as nat);
            let after = s.subrange(i + 1, s.len() as int);
            if i + 1 < s.len() {
                assert(after[0] == s[i + 1]);
            }
            assert(self.links_of(s[i]).next == front(after));
            assert(rest =~= seq![s[i]] + after);
        } else {
            assert(rest =~= Seq::<Id>::empty());
        }
    }

    proof fn lemma_backward_from(&self, i: int, steps: nat)
        requires
            self.wf(),
            0 <= i < self@.len(),
            steps > i,
        ensures
            self.backward(Some(self.order@[i]), steps) == self.order@.subrange(0, i + 1).reverse(),
        decreases i,
    {
        let s = self.order@;
        assert(joined(self.links@, s, i));
        let upto = s.subrange(0, i + 1);
        if i > 0 {
            self.lemma_backward_from(i - 1, (steps - 1) as nat);
            let before = s.subrange(0, i);
            assert(upto.reverse() =~= seq![s[i]] + before.reverse());
        } else {
            assert(self.backward(None, (steps - 1) as nat) =~= Seq::<Id>::empty());
            assert(upto.reverse() =~= seq![s[i]]);
        }
    }

    /// Taking the only id out of a list leaves it empty, with neither head nor tail.
    pub proof fn lemma_remove_only(before: &Self, after: &Self, id: Id)
        requires
            before.wf(),
            after.wf(),
            before@ == seq![id],
            after@ == without(before@, id),
        ensures
            after@.len() == 0,
            after.first() is None,
            after.last() is None,
    {
        let s = before.order@;
        assert(s[0] == id);
        assert(s.contains(id));
        assert(s.index_of(id) == 0);
    }

    /// An empty list. A list of capacity zero is not to be built.
    pub fn new() -> (list: Self)
        requires
            CAP > 0,
        ensures
            list.wf(),
            list@ == Seq::<Id>::empty(),
    {
        List { links: [Links::new(); CAP], head: None, tail: None, order: Ghost(Seq::empty()) }
    }

    /// Tells whether the list holds no id.
    pub fn is_empty(&self) -> (empty: bool)
        requires
            self.wf(),
        ensures
            empty == (self@.len() == 0),
    {
        self.head.is_none()
    }

    /// The id at the head, if the list is not empty.
    pub fn head(&self) -> (id: Option<Id>)
        requires
            self.wf(),
        ensures
            id == front(self@),
            id == self.first(),
    {
        self.head
    }

    /// The id at the tail, if the list is not empty.
    pub fn tail(&self) -> (id: Option<Id>)
        requires
            self.wf(),
        ensures
            id == back(self@),
            id == self.last(),
    {
        self.tail
    }

    /// The neighbours of `id`; an id that is out of range or not linked has none.
    pub fn links(&self, id: Id) -> (links: Links)
        requires
            self.wf(),
        ensures
            links.next == successor(self@, id),
            links.prev == predecessor(self@, id),
            (id as int) < CAP ==> links == self.links_of(id),
    {
        if (id as usize) >= CAP {
            proof {
                if self@.contains(id) {
                    assert(self@[self@.index_of(id)] == id);
                }
            }
            return Links::new();
        }
        proof {
            self.lemma_stored();
        }
        self.links[id as usize]
    }

    /// Tells whether `id` is linked into the list.
    pub fn contains(&self, id: Id) -> (linked: bool)
        requires
            self.wf(),
        ensures
            linked == self@.contains(id),
    {
        if (id as usize) >= CAP {
            proof {
                if self@.contains(id) {
                    assert(self@[self@.index_of(id)] == id);
                }
            }
            return false;
        }
        let link = self.links[id as usize];
        let at_head = match self.head {
            Some(h) => h == id,
            None => false,
        };
        proof {
            let s = self.order@;
            if s.contains(id) {
                let i = s.index_of(id);
                assert(joined(self.links@, s, i));
            } else if at_head {
                assert(s[0] == id);
            }
        }
        at_head || link.prev.is_some() || link.next.is_some()
    }

    /// Links `id` in as the new head.
    pub fn push_front(&mut self, id: Id)
        requires
            old(self).wf(),
            (id as int) < CAP,
            !old(self)@.contains(id),
        ensures
            final(self).wf(),
            final(self)@ == seq![id] + old(self)@,
    {
        let old_head = self.head;
        self.head = Some(id);
        if self.tail.is_none() {
            self.tail = Some(id);
        }
        let link = &mut self.links[id as usize];
        link.prev = None;
        link.next = old_head;
        if let Some(old_head) = old_head {
            self.links[old_head as usize].prev = Some(id);
        }
        proof {
            let s = old(self).order@;
            let t = seq![id] + s;
            self.order = Ghost(t);
            assert forall|i: int| 0 < i < t.len() implies t[i] == s[i - 1] && s.contains(t[i]) by {}
            assert forall|x: Id| !t.contains(x) implies !s.contains(x) && x != id by {
                if s.contains(x) {
                    assert(t[s.index_of(x) + 1] == x);
                } else {
                    assert(t[0] == id);
                }
            }
            assert forall|i: int| 0 <= i < t.len() implies #[trigger] joined(
                self.links@,
                t,
                i,
            ) by {
                if i > 0 {
                    assert(joined(old(self).links@, s, i - 1));
                    assert(s.contains(s[i - 1]));
                    if i > 1 {
                        assert(s[i - 1] != s[0]);
                    }
                }
            }
        }
    }

    /// Links `id` in directly behind `anchor`.
    pub fn insert_after(&mut self, anchor: Id, id: Id)
        requires
            old(self).wf(),
            old(self)@.contains(anchor),
            (id as int) < CAP,
            !old(self)@.contains(id),
        ensures
            final(self).wf(),
            final(self)@ == old(self)@.insert(old(self)@.index_of(anchor) + 1, id),
    {
        let ghost s = self.order@;
        let ghost a = s.index_of(anchor);
        let ghost t = s.insert(a + 1, id);
        proof {
            lemma_insert_shape(s, a + 1, id);
            assert(joined(self.links@, s, a));
            if a + 1 < s.len() {
                assert(joined(self.links@, s, a + 1));
                assert(s.contains(s[a + 1]));
            }
        }
        let next = self.links[anchor as usize].next;
        self.links[id as usize] = Links { next, prev: Some(anchor) };
        self.links[anchor as usize].next = Some(id);
        match next {
            Some(n) => {
                self.links[n as usize].prev = Some(id);
            },
            None => {
                self.tail = Some(id);
            },
        }
        proof {
            self.order = Ghost(t);
            assert forall|i: int| 0 <= i < t.len() implies #[trigger] joined(
                self.links@,
                t,
                i,
            ) by {
                if i != a + 1 {
                    let i0 = if i <= a { i } else { i - 1 };
                    assert(joined(old(self).links@, s, i0));
                    assert(t[i] == s[i0]);
                    assert(s.contains(s[i0]));
                    if i0 != a {
                        assert(s[i0] != s[a]);
                    }
                    if a + 1 < s.len() && i0 != a + 1 {
                        assert(s[i0] != s[a + 1]);
                    }
                }
            }
        }
    }

    /// Unlinks `id`. An id that is out of range or not linked leaves the list as it is.
    pub fn remove(&mut self, id: Id)
        requires
            old(self).wf(),
        ensures
            final(self).wf(),
            final(self)@ == without(old(self)@, id),
            !final(self)@.contains(id),
            (id as int) < CAP ==> final(self).links_of(id) == Links::unlinked(),
    {
        if !self.contains(id) {
            return ;
        }
        let ghost s = self.order@;
        let ghost k = s.index_of(id);
        let ghost t = s.remove(k);
        proof {
            lemma_remove_shape(s, k);
            assert(joined(self.links@, s, k));
            if k > 0 {
                assert(joined(self.links@, s, k - 1));
                assert(s.contains(s[k - 1]));
            }
            if k + 1 < s.len() {
                assert(joined(self.links@, s, k + 1));
                assert(s.contains(s[k + 1]));
            }
        }
        let (next, prev) = {
            let link = &self.links[id as usize];
            (link.next, link.prev)
        };
        if let Some(prev) = prev {
            self.links[prev as usize].next = next;
        } else {
            self.head = next;
        }
        if let Some(next) = next {
            self.links[next as usize].prev = prev;
        } else {
            self.tail = prev;
        }
        self.links[id as usize].next = None;
        self.links[id as usize].prev = None;
        proof {
            self.order = Ghost(t);
            assert forall|i: int| 0 <= i < t.len() implies #[trigger] joined(
                self.links@,
                t,
                i,
            ) by {
                let i0 = if i < k { i } else { i + 1 };
                assert(joined(old(self).links@, s, i0));
                assert(t[i] == s[i0]);
                assert(s[i0] != s[k]);
                if k > 0 && i0 != k - 1 {
                    assert(s[i0] != s[k - 1]);
                }
                if k + 1 < s.len() && i0 != k + 1 {
                    assert(s[i0] != s[k + 1]);
                }
            }
        }
    }

    /// Unlinks the tail and returns it; `None` if the list is empty.
    pub fn pop_back(&mut self) -> (id: Option<Id>)
        requires
            old(self).wf(),
        ensures
            final(self).wf(),
            id == back(old(self)@),
            final(self)@ == (if old(self)@.len() == 0 {
                old(self)@
            } else {
                old(self)@.drop_last()
            }),
    {
        let tail = self.tail;
        if let Some(t) = tail {
            proof {
                let s = self.order@;
                assert(s[s.len() - 1] == t);
                assert(s.remove(s.len() - 1) =~= s.drop_last());
            }
            self.remove(t);
        }
        tail
    }

    /// Unlinks the head and returns it; `None` if the list is empty.
    pub fn pop_front(&mut self) -> (id: Option<Id>)
        requires
            old(self).wf(),
        ensures
            final(self).wf(),
            id == front(old(self)@),
            final(self)@ == (if old(self)@.len() == 0 {
                old(self)@
            } else {
                old(self)@.drop_first()
            }),
    {
        let head = self.head;
        if let Some(head) = head {
            proof {
                let s = self.order@;
                assert(s[0] == head);
                assert(s.remove(0) =~= s.drop_first());
            }
            self.remove(head);
        }
        head
    }
}

/// Where the elements of `s` stand once `x` is inserted at position `p`.
pub proof fn lemma_insert_shape<T>(s: Seq<T>, p: int, x: T)
    requires
        0 <= p <= s.len(),
        s.no_duplicates(),
        !s.contains(x),
    ensures
        s.insert(p, x).len() == s.len() + 1,
        s.insert(p, x)[p] == x,
        forall|i: int| 0 <= i < p ==> #[trigger] s.insert(p, x)[i] == s[i],
        forall|i: int| p < i <= s.len() ==> #[trigger] s.insert(p, x)[i] == s[i - 1],
        s.insert(p, x).no_duplicates(),
        forall|y: T| #[trigger] s.insert(p, x).contains(y) <==> y == x || s.contains(y),
{
    let t = s.insert(p, x);
    assert forall|y: T| #[trigger] t.contains(y) <==> y == x || s.contains(y) by {
        if t.contains(y) {
            let j = t.index_of(y);
            if j < p {
                assert(s[j] == y);
            } else if j > p {
                assert(s[j - 1] == y);
            }
        }
        if s.contains(y) {
            let j = s.index_of(y);
            if j < p {
                assert(t[j] == y);
            } else {
                assert(t[j + 1] == y);
            }
        }
        if y == x {
            assert(t[p] == y);
        }
    }
    assert forall|i: int, j: int| 0 <= i < t.len() && 0 <= j < t.len() && i != j implies t[i]
        != t[j] by {
        let i0 = if i < p { i } else { i - 1 };
        let j0 = if j < p { j } else { j - 1 };
        if i != p && j != p {
            assert(t[i] == s[i0] && t[j] == s[j0]);
        } else if i == p {
            assert(s.contains(s[j0]));
        } else {
            assert(s.contains(s[i0]));
        }
    }
}

/// Where the elements of `s` stand once the one at position `k` is taken out.
pub proof fn lemma_remove_shape<T>(s: Seq<T>, k: int)
    requires
        0 <= k < s.len(),
        s.no_duplicates(),
    ensures
        s.remove(k).len() == s.len() - 1,
        forall|i: int| 0 <= i < k ==> #[trigger] s.remove(k)[i] == s[i],
        forall|i: int| k <= i < s.len() - 1 ==> #[trigger] s.remove(k)[i] == s[i + 1],
        s.remove(k).no_duplicates(),
        forall|y: T| #[trigger] s.remove(k).contains(y) <==> y != s[k] && s.contains(y),
        s.remove(k) == without(s, s[k]),
{
    let t = s.remove(k);
    assert forall|y: T| #[trigger] t.contains(y) <==> y != s[k] && s.contains(y) by {
        if t.contains(y) {
            let j = t.index_of(y);
            if j < k {
                assert(s[j] == y);
            } else {
                assert(s[j + 1] == y);
            }
        }
        if s.contains(y) && y != s[k] {
            let j = s.index_of(y);
            if j < k {
                assert(t[j] == y);
            } else {
                assert(t[j - 1] == y);
            }
        }
    }
    assert forall|i: int, j: int| 0 <= i < t.len() && 0 <= j < t.len() && i != j implies t[i]
        != t[j] by {
        let i0 = if i < k { i } else { i + 1 };
        let j0 = if j < k { j } else { j + 1 };
        assert(t[i] == s[i0] && t[j] == s[j0]);
    }
    assert(s.contains(s[k]));
    assert(s.index_of(s[k]) == k);
}

/// Distinct ids that are all below `bound` are at most `bound` many.
pub proof fn lemma_distinct_below(s: Seq<Id>, bound: nat)
    requires
        s.no_duplicates(),
        forall|i: int| 0 <= i < s.len() ==> (#[trigger] s[i] as int) < bound,
    ensures
        s.len() <= bound,
    decreases bound,
{
    if s.len() == 0 {
    } else if bound == 0 {
        assert((s[0] as int) < bound);
    } else {
        let top = (bound - 1) as Id;
        if s.contains(top) {
            let k = s.index_of(top);
            lemma_remove_shape(s, k);
            let t = s.remove(k);
            assert forall|i: int| 0 <= i < t.len() implies (#[trigger] t[i] as int) < bound - 1 by {
                assert(t.contains(t[i]));
                assert(s.contains(t[i]));
                let j = s.index_of(t[i]);
                assert((s[j] as int) < bound);
            }
            lemma_distinct_below(t, (bound - 1) as nat);
        } else {
            assert forall|i: int| 0 <= i < s.len() implies (#[trigger] s[i] as int) < bound - 1 by {
                assert(s.contains(s[i]));
            }
            lemma_distinct_below(s, (bound - 1) as nat);
        }
    }
}

} // verus!
