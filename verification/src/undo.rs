//! A bounded undo history: the most recent entries, oldest first.
use std::collections::VecDeque;

use vstd::prelude::*;

verus! {

/// Remembered entries, oldest first, holding at most `capacity` of them (at least one).
pub struct UndoHistory<T> {
    entries: VecDeque<T>,
    capacity: usize,
}

/// The history after remembering `x`: the oldest entry leaves first when the history is full.
pub open spec fn remember_spec<T>(h: Seq<T>, capacity: nat, x: T) -> Seq<T> {
    if h.len() >= capacity && h.len() > 0 {
        h.drop_first().push(x)
    } else {
        h.push(x)
    }
}

/// The largest number of entries a history of this capacity holds.
pub open spec fn bound(capacity: nat) -> nat {
    if capacity == 0 {
        1
    } else {
        capacity
    }
}

impl<T> View for UndoHistory<T> {
    type V = Seq<T>;

    closed spec fn view(&self) -> Seq<T> {
        self.entries@
    }
}

impl<T> UndoHistory<T> {
    /// The capacity the history was made with.
    pub closed spec fn cap(&self) -> nat {
        self.capacity as nat
    }

    /// The history never holds more entries than its bound.
    pub closed spec fn wf(&self) -> bool {
        self.entries@.len() <= bound(self.capacity as nat)
    }

    /// An empty history of the given capacity.
    pub fn new(capacity: usize) -> (res: Self)
        ensures
            res@ == Seq::<T>::empty(),
            res.cap() == capacity,
            res.wf(),
    {
        UndoHistory { entries: VecDeque::with_capacity(capacity), capacity }
    }

    /// Remembers an entry, dropping the oldest when the history is full.
    pub fn remember(&mut self, entry: T)
        requires
            old(self).wf(),
        ensures
            final(self)@ == remember_spec(old(self)@, old(self).cap(), entry),
            final(self).cap() == old(self).cap(),
            final(self).wf(),
    {
        if self.entries.len() >= self.capacity {
            let _ = self.entries.pop_front();
        }
        self.entries.push_back(entry);
    }

    /// The most recent entry.
    pub fn latest(&self) -> (res: Option<&T>)
        ensures
            res matches Some(r) ==> self@.len() > 0 && *r == self@.last(),
            res is None ==> self@.len() == 0,
    {
        let n = self.entries.len();
        if n == 0 {
            None
        } else {
            Some(&self.entries[n - 1])
        }
    }

    /// Forgets the most recent entry.
    pub fn discard_latest(&mut self)
        requires
            old(self).wf(),
        ensures
            final(self)@ == (if old(self)@.len() > 0 {
                old(self)@.drop_last()
            } else {
                old(self)@
            }),
            final(self).cap() == old(self).cap(),
            final(self).wf(),
    {
        let _ = self.entries.pop_back();
    }

    /// Forgets every entry.
    pub fn clear(&mut self)
        ensures
            final(self)@ == Seq::<T>::empty(),
            final(self).cap() == old(self).cap(),
            final(self).wf(),
    {
        self.entries.clear();
    }

    /// The number of entries.
    pub fn len(&self) -> (res: usize)
        ensures
            res == self@.len(),
    {
        self.entries.len()
    }
}

/// Remembering an entry makes it the latest, keeps the history within its bound, and keeps
/// exactly the most recent entries: the history is a suffix of the older history followed by the
/// new entry, of length at most the bound.
pub proof fn law_remember_keeps_most_recent<T>(h: Seq<T>, capacity: nat, x: T)
    requires
        h.len() <= bound(capacity),
    ensures
        remember_spec(h, capacity, x).last() == x,
        remember_spec(h, capacity, x).len() <= bound(capacity),
        remember_spec(h, capacity, x).len() == if h.len() + 1 <= bound(capacity) {
            h.len() + 1int
        } else {
            bound(capacity) as int
        },
        remember_spec(h, capacity, x) == h.push(x).subrange(
            h.push(x).len() - remember_spec(h, capacity, x).len(),
            h.push(x).len() as int,
        ),
{
    let r = remember_spec(h, capacity, x);
    if h.len() >= capacity && h.len() > 0 {
        assert(r =~= h.push(x).subrange(1, h.len() + 1int));
    } else {
        assert(r =~= h.push(x).subrange(0, h.len() + 1int));
    }
}

/// Remembering and then discarding the latest entry undoes the remembering whenever the
/// history was not full.
pub proof fn law_discard_undoes_remember<T>(h: Seq<T>, capacity: nat, x: T)
    requires
        h.len() < capacity,
    ensures
        remember_spec(h, capacity, x).drop_last() == h,
{
    assert(remember_spec(h, capacity, x).drop_last() =~= h);
}

/// The history after remembering `xs`, one after another.
pub open spec fn remember_all<T>(h: Seq<T>, capacity: nat, xs: Seq<T>) -> Seq<T>
    decreases xs.len(),
{
    if xs.len() == 0 {
        h
    } else {
        remember_spec(remember_all(h, capacity, xs.drop_last()), capacity, xs.last())
    }
}

/// How many entries a history of this capacity keeps of `n` remembered ones.
pub open spec fn kept(n: nat, capacity: nat) -> nat {
    if n < bound(capacity) {
        n
    } else {
        bound(capacity)
    }
}

/// Remembering entries one after another into an empty history keeps the most recent of them,
/// oldest first, as many as the capacity allows (one at least): the oldest leave first, and
/// the latest entry is the last one remembered.
pub proof fn law_history_keeps_the_most_recent<T>(capacity: nat, xs: Seq<T>)
    ensures
        remember_all(Seq::<T>::empty(), capacity, xs) == xs.subrange(
            xs.len() - kept(xs.len(), capacity),
            xs.len() as int,
        ),
        remember_all(Seq::<T>::empty(), capacity, xs).len() == kept(xs.len(), capacity),
        xs.len() > 0 ==> remember_all(Seq::<T>::empty(), capacity, xs).last() == xs.last(),
    decreases xs.len(),
{
    if xs.len() > 0 {
        let ys = xs.drop_last();
        law_history_keeps_the_most_recent(capacity, ys);
        let r = remember_all(Seq::<T>::empty(), capacity, ys);
        let n = xs.len() as int;
        let k = kept(ys.len(), capacity) as int;
        assert(r =~= ys.subrange(n - 1 - k, n - 1));
        if r.len() >= capacity && r.len() > 0 {
            assert(r.drop_first().push(xs.last()) =~= xs.subrange(n - kept(xs.len(), capacity), n));
        } else {
            assert(r.push(xs.last()) =~= xs.subrange(n - kept(xs.len(), capacity), n));
        }
    } else {
        assert(xs.subrange(0, 0) =~= Seq::<T>::empty());
    }
}

/// While the history has room, discarding the latest entry gives back the history as it was
/// before that entry was remembered.
pub proof fn law_discard_returns_to_the_history_before<T>(capacity: nat, xs: Seq<T>, x: T)
    requires
        xs.len() < capacity,
    ensures
        remember_all(Seq::<T>::empty(), capacity, xs.push(x)).drop_last() == remember_all(
            Seq::<T>::empty(),
            capacity,
            xs,
        ),
{
    law_history_keeps_the_most_recent(capacity, xs);
    assert(xs.push(x).drop_last() =~= xs);
    law_discard_undoes_remember(remember_all(Seq::<T>::empty(), capacity, xs), capacity, x);
}

/// With room for two entries or more, discarding the latest entry leaves as latest the one
/// remembered before it, however many were remembered (the oldest leave first). With room for
/// one, the earlier entry is already gone.
pub proof fn law_discard_leaves_the_one_before_latest<T>(capacity: nat, xs: Seq<T>, x: T)
    requires
        capacity >= 2,
        xs.len() >= 1,
    ensures
        remember_all(Seq::<T>::empty(), capacity, xs.push(x)).drop_last().len() > 0,
        remember_all(Seq::<T>::empty(), capacity, xs.push(x)).drop_last().last() == xs.last(),
{
    let ys = xs.push(x);
    law_history_keeps_the_most_recent(capacity, ys);
    let n = ys.len() as int;
    let k = kept(ys.len(), capacity) as int;
    assert(k >= 2);
    let r = remember_all(Seq::<T>::empty(), capacity, ys);
    assert(r.drop_last().last() == ys[n - 2]);
    assert(ys[n - 2] == xs.last());
}

} // verus!
