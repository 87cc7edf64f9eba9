use vstd::prelude::*;
use vstd::std_specs::cmp::PartialEqSpec;

use crate::equivalence::eq_is_equivalence;

verus! {

/// The status of one entry: absent from the set, or held, with the tickets
/// of the waiters queued for it (the last one is the next to be served).
enum Slot {
    Vacant,
    Held(Vec<u64>),
}

/// What `wait_to_insert` did with the value.
#[derive(Debug, Clone, Copy, PartialEq, Eq, Structural)]
pub enum WaitOutcome {
    /// The value was absent and is now held by the caller.
    Inserted,
    /// The value was held; the caller's ticket now waits on top of its queue.
    Queued,
}

/// What `remove_or_hand_off` did with the value.
#[derive(Debug, Clone, Copy, PartialEq, Eq, Structural)]
pub enum RemoveOutcome {
    /// The value was not held; nothing changed.
    Absent,
    /// The value was held with nobody waiting; it is now absent.
    Vacated,
    /// The value was held and the waiter with this ticket now holds it.
    HandedTo(u64),
}

/// A set of values held in a list of entries that only grows: one entry for
/// each distinct value ever inserted, in the order of their first insertion.
pub struct ExclusionSet<T> {
    /// The value of each entry.
    values: Vec<T>,
    /// The status of each entry, at the same index as its value.
    slots: Vec<Slot>,
    /// The entry most recently removed, where lookups start.
    last_removed: Option<usize>,
}

/// The status of an entry, as the contracts see it.
spec fn slot_state(s: Slot) -> Option<Seq<u64>> {
    match s {
        Slot::Vacant => None,
        Slot::Held(w) => Some(w@),
    }
}

/// Whether the entry's status lists the ticket `t` among its waiters.
spec fn slot_has(s: Slot, t: u64) -> bool {
    match s {
        Slot::Vacant => false,
        Slot::Held(w) => w@.contains(t),
    }
}

/// The status a value has after a removal, given the one it had before.
pub open spec fn state_after_removal(s: Option<Seq<u64>>) -> Option<Seq<u64>> {
    match s {
        None => None,
        Some(q) => if q.len() == 0 {
            None
        } else {
            Some(q.drop_last())
        },
    }
}

/// What a removal reports, given the status the value had before.
pub open spec fn removal_outcome(s: Option<Seq<u64>>) -> RemoveOutcome {
    match s {
        None => RemoveOutcome::Absent,
        Some(q) => if q.len() == 0 {
            RemoveOutcome::Vacated
        } else {
            RemoveOutcome::HandedTo(q.last())
        },
    }
}

impl<T> ExclusionSet<T> {
    /// The values of the entries, in the order they were first inserted:
    /// the oldest first, the newest last.
    pub closed spec fn entries(&self) -> Seq<T> {
        self.values@
    }
}

impl<T: Eq> ExclusionSet<T> {
    /// Create a new, empty, `ExclusionSet`.
    pub fn new() -> (s: Self)
        ensures
            s.wf(),
            s.entries() == Seq::<T>::empty(),
            forall|v: T| !#[trigger] s.ever_inserted(v),
            forall|v: T| #[trigger] s.state_of(v) is None,
    {
        ExclusionSet { values: Vec::new(), slots: Vec::new(), last_removed: None }
    }
}

impl<T: Eq> Default for ExclusionSet<T> {
    fn default() -> (s: Self)
        ensures
            s.wf(),
            s.entries() == Seq::<T>::empty(),
            forall|v: T| !#[trigger] s.ever_inserted(v),
            forall|v: T| #[trigger] s.state_of(v) is None,
    {
        ExclusionSet::new()
    }
}

impl<T: Eq> ExclusionSet<T> {
    /// The invariant: one value and one status per entry, the last removed
    /// entry in range, and no two entries with equal values.
    pub closed spec fn wf(&self) -> bool {
        &&& self.values@.len() == self.slots@.len()
        &&& match self.last_removed {
            Some(k) => k < self.values@.len(),
            None => true,
        }
        &&& forall|i: int, j: int|
            #![trigger self.values@[i], self.values@[j]]
            0 <= i < j < self.values@.len() ==> !self.values@[i].eq_spec(&self.values@[j])
    }

    /// Whether some entry holds a value equal to `v`.
    pub closed spec fn ever_inserted(&self, v: T) -> bool {
        exists|i: int| 0 <= i < self.values@.len() && #[trigger] self.values@[i].eq_spec(&v)
    }

    /// The index of the entry whose value is equal to `v`.
    closed spec fn index_of(&self, v: T) -> int {
        choose|i: int| 0 <= i < self.values@.len() && #[trigger] self.values@[i].eq_spec(&v)
    }

    /// The status of `v`: `None` while it is absent, and while it is held the
    /// tickets of its waiters, the next to be served last.
    pub closed spec fn state_of(&self, v: T) -> Option<Seq<u64>> {
        if self.ever_inserted(v) {
            slot_state(self.slots@[self.index_of(v)])
        } else {
            None
        }
    }

    /// Whether the ticket `t` is among the waiters of `v`.
    pub open spec fn queued_for(&self, v: T, t: u64) -> bool {
        match self.state_of(v) {
            Some(q) => q.contains(t),
            None => false,
        }
    }

    /// Every value not equal to `v` has the same status in `post` as in `self`.
    pub open spec fn unchanged_except(&self, post: Self, v: T) -> bool {
        forall|w: T| !w.eq_spec(&v) ==> #[trigger] post.state_of(w) == self.state_of(w)
    }

    /// `post` keeps the entries of `self` in their order and, if `v` was not
    /// yet known, adds one for `v` as the newest.
    pub open spec fn records(&self, post: Self, v: T) -> bool {
        &&& post.entries() == if self.ever_inserted(v) {
            self.entries()
        } else {
            self.entries().push(v)
        }
        &&& forall|w: T| #[trigger] post.ever_inserted(w) == (self.ever_inserted(w) || w.eq_spec(&v))
    }

    /// `post` has exactly the entries of `self`, in the same order.
    pub open spec fn same_entries(&self, post: Self) -> bool {
        &&& post.entries() == self.entries()
        &&& forall|w: T| #[trigger] post.ever_inserted(w) == self.ever_inserted(w)
    }

    /// `self` and `other` have the same entries in the same order, and every
    /// value has the same status in both.
    pub open spec fn same_model(&self, other: Self) -> bool {
        &&& self.entries() == other.entries()
        &&& forall|v: T| #[trigger] self.state_of(v) == other.state_of(v)
    }

    /// What `try_insert(v)` does, returning `r`, when it takes `self` to `post`.
    pub open spec fn try_insert_spec(&self, v: T, post: Self, r: bool) -> bool {
        &&& r == self.state_of(v) is None
        &&& post.state_of(v) == if r {
            Some(Seq::<u64>::empty())
        } else {
            self.state_of(v)
        }
        &&& self.unchanged_except(post, v)
        &&& self.records(post, v)
    }

    /// What `wait_to_insert(v, t)` does, returning `r`, when it takes `self`
    /// to `post`.
    pub open spec fn wait_to_insert_spec(&self, v: T, t: u64, post: Self, r: WaitOutcome) -> bool {
        &&& match self.state_of(v) {
            None => r == WaitOutcome::Inserted && post.state_of(v) == Some(Seq::<u64>::empty()),
            Some(q) => r == WaitOutcome::Queued && post.state_of(v) == Some(q.push(t)),
        }
        &&& self.unchanged_except(post, v)
        &&& self.records(post, v)
    }

    /// What a removal of `v` does to the statuses when it takes `self` to `post`.
    pub open spec fn remove_spec(&self, v: T, post: Self) -> bool {
        &&& post.state_of(v) == state_after_removal(self.state_of(v))
        &&& self.unchanged_except(post, v)
        &&& self.same_entries(post)
    }

    /// The entry at `i` is the one for `v`.
    proof fn lemma_index(&self, v: T, i: int)
        requires
            self.wf(),
            eq_is_equivalence::<T>(),
            0 <= i < self.values@.len(),
            self.values@[i].eq_spec(&v),
        ensures
            self.ever_inserted(v),
            self.index_of(v) == i,
    {
        let j = self.index_of(v);
        assert(self.values@[j].eq_spec(&v));
        assert(v.eq_spec(&self.values@[j]));
        assert(self.values@[i].eq_spec(&self.values@[j]));
        assert(self.values@[j].eq_spec(&self.values@[i]));
        if i < j {
            assert(!self.values@[i].eq_spec(&self.values@[j]));
        } else if j < i {
            assert(!self.values@[j].eq_spec(&self.values@[i]));
        }
    }

    /// Equal values have the same status and are known alike.
    pub proof fn lemma_state_respects_eq(&self, v: T, w: T)
        requires
            self.wf(),
            eq_is_equivalence::<T>(),
            v.eq_spec(&w),
        ensures
            self.ever_inserted(v) == self.ever_inserted(w),
            self.state_of(v) == self.state_of(w),
    {
        if self.ever_inserted(v) {
            let i = self.index_of(v);
            assert(self.values@[i].eq_spec(&v));
            assert(self.values@[i].eq_spec(&w));
            self.lemma_index(w, i);
        } else if self.ever_inserted(w) {
            let i = self.index_of(w);
            assert(self.values@[i].eq_spec(&w));
            assert(w.eq_spec(&v));
            assert(self.values@[i].eq_spec(&v));
        }
    }

    /// Every value equal to a known one is known.
    proof fn lemma_known(&self, v: T)
        requires
            self.wf(),
            eq_is_equivalence::<T>(),
            self.ever_inserted(v),
        ensures
            forall|w: T| #[trigger] w.eq_spec(&v) ==> self.ever_inserted(w),
    {
        assert forall|w: T| #[trigger] w.eq_spec(&v) implies self.ever_inserted(w) by {
            self.lemma_state_respects_eq(w, v);
        }
    }

    /// Changing the status of entry `k` changes the status of the values equal
    /// to its value, and of no other.
    proof fn lemma_slot_update(pre: Self, post: Self, k: int)
        requires
            pre.wf(),
            eq_is_equivalence::<T>(),
            0 <= k < pre.values@.len(),
            post.values@ == pre.values@,
            post.slots@.len() == pre.slots@.len(),
            forall|i: int| 0 <= i < pre.slots@.len() && i != k ==> post.slots@[i] == pre.slots@[i],
            match post.last_removed {
                Some(x) => x < pre.values@.len(),
                None => true,
            },
        ensures
            post.wf(),
            pre.same_entries(post),
            forall|w: T|
                #[trigger] post.state_of(w) == if pre.values@[k].eq_spec(&w) {
                    slot_state(post.slots@[k])
                } else {
                    pre.state_of(w)
                },
    {
        assert forall|w: T|
            #[trigger] post.state_of(w) == if pre.values@[k].eq_spec(&w) {
                slot_state(post.slots@[k])
            } else {
                pre.state_of(w)
            } by {
            if pre.values@[k].eq_spec(&w) {
                pre.lemma_index(w, k);
                post.lemma_index(w, k);
            } else if pre.ever_inserted(w) {
                let j = pre.index_of(w);
                pre.lemma_index(w, j);
                post.lemma_index(w, j);
            }
        }
    }

    /// Adding an entry for a value not yet known makes the values equal to
    /// it held with nobody waiting, and changes no other status.
    proof fn lemma_push(pre: Self, post: Self, v: T)
        requires
            pre.wf(),
            eq_is_equivalence::<T>(),
            !pre.ever_inserted(v),
            post.values@ == pre.values@.push(v),
            post.slots@.len() == pre.slots@.len() + 1,
            forall|i: int| 0 <= i < pre.slots@.len() ==> post.slots@[i] == pre.slots@[i],
            slot_state(post.slots@[pre.slots@.len() as int]) == Some(Seq::<u64>::empty()),
            post.last_removed == pre.last_removed,
        ensures
            post.wf(),
            pre.records(post, v),
            pre.unchanged_except(post, v),
            post.state_of(v) == Some(Seq::<u64>::empty()),
    {
        let n = pre.values@.len() as int;
        assert(post.values@[n] == v);
        assert forall|i: int, j: int|
            #![trigger post.values@[i], post.values@[j]]
            0 <= i < j < post.values@.len() implies !post.values@[i].eq_spec(&post.values@[j]) by {
            if j < n {
                assert(post.values@[i] == pre.values@[i]);
                assert(post.values@[j] == pre.values@[j]);
            } else {
                assert(post.values@[i] == pre.values@[i]);
                if pre.values@[i].eq_spec(&v) {
                    assert(pre.ever_inserted(v));
                }
            }
        }
        assert(post.wf());
        assert forall|w: T|
            #[trigger] post.ever_inserted(w) == (pre.ever_inserted(w) || w.eq_spec(&v))
            && (!w.eq_spec(&v) ==> post.state_of(w) == pre.state_of(w))
            && (w.eq_spec(&v) ==> post.state_of(w) == Some(Seq::<u64>::empty())) by {
            if w.eq_spec(&v) {
                assert(v.eq_spec(&w));
                post.lemma_index(w, n);
                if pre.ever_inserted(w) {
                    let j = pre.index_of(w);
                    assert(pre.values@[j].eq_spec(&w));
                    assert(pre.values@[j].eq_spec(&v));
                }
            } else {
                if post.ever_inserted(w) {
                    let j = post.index_of(w);
                    if j == n {
                        assert(v.eq_spec(&w));
                        assert(w.eq_spec(&v));
                    }
                    assert(post.values@[j] == pre.values@[j]);
                    assert(pre.ever_inserted(w));
                }
                if pre.ever_inserted(w) {
                    let j = pre.index_of(w);
                    assert(post.values@[j] == pre.values@[j]);
                    post.lemma_index(w, j);
                }
            }
        }
        post.lemma_index(v, n);
    }

    /// A value that is held was inserted.
    pub proof fn lemma_held_was_inserted(&self, v: T)
        ensures
            self.state_of(v) is Some ==> self.ever_inserted(v),
    {
    }

    /// A value is known exactly when some entry holds a value equal to it.
    pub proof fn lemma_known_iff_entry(&self, v: T)
        ensures
            self.ever_inserted(v) <==> exists|i: int|
                0 <= i < self.entries().len() && #[trigger] self.entries()[i].eq_spec(&v),
    {
        if self.ever_inserted(v) {
            let i = choose|i: int| 0 <= i < self.values@.len() && #[trigger] self.values@[i].eq_spec(&v);
            assert(self.entries()[i].eq_spec(&v));
        }
        if exists|i: int| 0 <= i < self.entries().len() && #[trigger] self.entries()[i].eq_spec(&v) {
            let i = choose|i: int| 0 <= i < self.entries().len() && #[trigger] self.entries()[i].eq_spec(&v);
            assert(self.values@[i].eq_spec(&v));
        }
    }

    /// No entry holds a value equal to that of a later entry.
    pub proof fn lemma_entries_distinct(&self)
        requires
            self.wf(),
        ensures
            forall|i: int, j: int|
                #![trigger self.entries()[i], self.entries()[j]]
                0 <= i < j < self.entries().len() ==> !self.entries()[i].eq_spec(&self.entries()[j]),
    {
    }

    /// Sets with the same entries know the same values.
    pub proof fn lemma_entries_determine_known(&self, other: Self)
        requires
            self.entries() == other.entries(),
        ensures
            forall|v: T| #[trigger] self.ever_inserted(v) == other.ever_inserted(v),
    {
    }

    /// The value at entry `k` equals `v`, so it equals no value that differs
    /// from `v`.
    proof fn lemma_entry_differs(&self, k: int, v: T)
        requires
            eq_is_equivalence::<T>(),
            0 <= k < self.values@.len(),
            self.values@[k].eq_spec(&v),
        ensures
            forall|w: T| !w.eq_spec(&v) ==> !#[trigger] self.values@[k].eq_spec(&w),
    {
        assert forall|w: T| !w.eq_spec(&v) implies !#[trigger] self.values@[k].eq_spec(&w) by {
            if self.values@[k].eq_spec(&w) {
                assert(w.eq_spec(&self.values@[k]));
            }
        }
    }
}

impl<T: Eq> ExclusionSet<T> {
    /// Search the entries for one whose value equals `value`: first from the
    /// entry most recently removed back to the oldest, then from the newest
    /// down to the one after the entry most recently removed.  Returns the
    /// entry's index, or, when no entry matches, the number of entries.
    fn find(&self, value: &T) -> (r: Result<usize, usize>)
        requires
            self.wf(),
            eq_is_equivalence::<T>(),
        ensures
            match r {
                Ok(i) => i < self.values@.len() && self.values@[i as int].eq_spec(value),
                Err(n) => n == self.values@.len() && !self.ever_inserted(*value),
            },
    {
        let len = self.values.len();
        let start: usize = match self.last_removed {
            Some(k) => k + 1,
            None => 0,
        };
        let mut i: usize = start;
        while i > 0
            invariant
                self.wf(),
                eq_is_equivalence::<T>(),
                start <= self.values@.len(),
                i <= start,
                forall|j: int| i <= j < start ==> !#[trigger] self.values@[j].eq_spec(value),
            decreases i,
        {
            i = i - 1;
            if self.values[i] == *value {
                return Ok(i);
            }
        }
        let mut j: usize = len;
        while j > start
            invariant
                self.wf(),
                eq_is_equivalence::<T>(),
                len == self.values@.len(),
                start <= j <= len,
                forall|m: int| 0 <= m < start ==> !#[trigger] self.values@[m].eq_spec(value),
                forall|m: int| j <= m < len ==> !#[trigger] self.values@[m].eq_spec(value),
            decreases j,
        {
            j = j - 1;
            if self.values[j] == *value {
                return Ok(j);
            }
        }
        Err(len)
    }

    /// Insert `value` if it is absent.  Returns `Ok` if it was inserted, or
    /// the index of its entry if it was already held.
    fn try_insert_inner(&mut self, value: T) -> (r: Result<(), usize>)
        requires
            old(self).wf(),
            eq_is_equivalence::<T>(),
        ensures
            final(self).wf(),
            old(self).try_insert_spec(value, *final(self), r is Ok),
            match r {
                Ok(_) => true,
                Err(k) => {
                    &&& *final(self) == *old(self)
                    &&& k < old(self).values@.len()
                    &&& old(self).values@[k as int].eq_spec(&value)
                },
            },
    {
        let ghost pre = *self;
        match self.find(&value) {
            Ok(k) => {
                proof {
                    pre.lemma_index(value, k as int);
                    pre.lemma_known(value);
                }
                let vacant = match &self.slots[k] {
                    Slot::Vacant => true,
                    Slot::Held(_) => false,
                };
                if vacant {
                    self.slots.set(k, Slot::Held(Vec::new()));
                    proof {
                        Self::lemma_slot_update(pre, *self, k as int);
                        pre.lemma_entry_differs(k as int, value);
                    }
                    Ok(())
                } else {
                    Err(k)
                }
            },
            Err(_) => {
                self.values.push(value);
                self.slots.push(Slot::Held(Vec::new()));
                proof {
                    Self::lemma_push(pre, *self, value);
                }
                Ok(())
            },
        }
    }

    /// Try to insert a value into the set.  Returns `true` if the value was
    /// inserted or `false` if the value was already considered present.
    pub fn try_insert(&mut self, value: T) -> (r: bool)
        requires
            old(self).wf(),
            eq_is_equivalence::<T>(),
        ensures
            final(self).wf(),
            old(self).try_insert_spec(value, *final(self), r),
    {
        let inserted = self.try_insert_inner(value);
        inserted.is_ok()
    }

    /// If the value provided is not in the set, insert it.  Otherwise queue
    /// `waiter` on top of the value's waiters: it is served by the next
    /// `remove` of the value, before any waiter queued earlier.
    pub fn wait_to_insert(&mut self, value: T, waiter: u64) -> (r: WaitOutcome)
        requires
            old(self).wf(),
            eq_is_equivalence::<T>(),
        ensures
            final(self).wf(),
            old(self).wait_to_insert_spec(value, waiter, *final(self), r),
    {
        let ghost v = value;
        match self.try_insert_inner(value) {
            Ok(()) => WaitOutcome::Inserted,
            Err(k) => {
                let ghost pre = *self;
                proof {
                    pre.lemma_index(v, k as int);
                    pre.lemma_known(v);
                }
                let mut taken = Slot::Vacant;
                std::mem::swap(&mut taken, &mut self.slots[k]);
                let outcome = match taken {
                    Slot::Vacant => {
                        self.slots.set(k, Slot::Held(Vec::new()));
                        WaitOutcome::Inserted
                    },
                    Slot::Held(mut waiters) => {
                        waiters.push(waiter);
                        self.slots.set(k, Slot::Held(waiters));
                        WaitOutcome::Queued
                    },
                };
                proof {
                    Self::lemma_slot_update(pre, *self, k as int);
                    pre.lemma_entry_differs(k as int, v);
                }
                outcome
            },
        }
    }

    /// Mark a value as absent from the set, or, if waiters are queued for it,
    /// hand it to the waiter queued last.  Reports which of these happened,
    /// or that the value was not held.
    pub fn remove_or_hand_off(&mut self, value: &T) -> (r: RemoveOutcome)
        requires
            old(self).wf(),
            eq_is_equivalence::<T>(),
        ensures
            final(self).wf(),
            r == removal_outcome(old(self).state_of(*value)),
            old(self).remove_spec(*value, *final(self)),
    {
        let ghost pre = *self;
        match self.find(value) {
            Err(_) => {
                proof {
                    assert(pre.same_entries(*self));
                }
                RemoveOutcome::Absent
            },
            Ok(k) => {
                proof {
                    pre.lemma_index(*value, k as int);
                }
                let mut taken = Slot::Vacant;
                std::mem::swap(&mut taken, &mut self.slots[k]);
                let outcome = match taken {
                    Slot::Vacant => RemoveOutcome::Absent,
                    Slot::Held(mut waiters) => {
                        let next = match waiters.pop() {
                            None => RemoveOutcome::Vacated,
                            Some(t) => {
                                self.slots.set(k, Slot::Held(waiters));
                                RemoveOutcome::HandedTo(t)
                            },
                        };
                        self.last_removed = Some(k);
                        next
                    },
                };
                proof {
                    Self::lemma_slot_update(pre, *self, k as int);
                    pre.lemma_entry_differs(k as int, *value);
                }
                outcome
            },
        }
    }

    /// Mark a value as absent from the set, or hand it to a waiting caller.
    ///
    /// Returns true if the value was present in the set.
    pub fn remove(&mut self, value: &T) -> (r: bool)
        requires
            old(self).wf(),
            eq_is_equivalence::<T>(),
        ensures
            final(self).wf(),
            r == old(self).state_of(*value) is Some,
            old(self).remove_spec(*value, *final(self)),
    {
        match self.remove_or_hand_off(value) {
            RemoveOutcome::Absent => false,
            _ => true,
        }
    }

    /// Whether `waiter` is queued for some value: it stops being so when a
    /// `remove` of that value hands the value to it.
    pub fn is_waiting(&self, waiter: u64) -> (r: bool)
        requires
            self.wf(),
            eq_is_equivalence::<T>(),
        ensures
            r == exists|v: T|
                self.state_of(v) is Some && #[trigger] self.state_of(v)->0.contains(waiter),
    {
        let len = self.slots.len();
        let mut i: usize = 0;
        while i < len
            invariant
                self.wf(),
                eq_is_equivalence::<T>(),
                len == self.slots@.len(),
                i <= len,
                forall|j: int| 0 <= j < i ==> !#[trigger] slot_has(self.slots@[j], waiter),
            decreases len - i,
        {
            if let Slot::Held(waiters) = &self.slots[i] {
                assert(slot_state(self.slots@[i as int]) == Some(waiters@));
                let mut m: usize = 0;
                while m < waiters.len()
                    invariant
                        self.wf(),
                        eq_is_equivalence::<T>(),
                        i < len,
                        len == self.slots@.len(),
                        slot_state(self.slots@[i as int]) == Some(waiters@),
                        m <= waiters@.len(),
                        forall|j: int| 0 <= j < m ==> waiters@[j] != waiter,
                    decreases waiters@.len() - m,
                {
                    if waiters[m] == waiter {
                        proof {
                            assert(waiters@[m as int] == waiter);
                            let v = self.values@[i as int];
                            self.lemma_index(v, i as int);
                            assert(self.state_of(v)->0.contains(waiter));
                        }
                        return true;
                    }
                    m = m + 1;
                }
                assert(!waiters@.contains(waiter));
            }
            i = i + 1;
        }
        proof {
            assert forall|v: T|
                !(self.state_of(v) is Some && #[trigger] self.state_of(v)->0.contains(waiter)) by {
                if self.ever_inserted(v) {
                    let j = self.index_of(v);
                    assert(!slot_has(self.slots@[j], waiter));
                }
            }
        }
        false
    }
}

} // verus!
