//! An append-only store of owned values. An index returned at insertion
//! stays valid for the arena's lifetime: insertion never invalidates an
//! earlier index, and an already-stored value is never moved or changed by
//! later insertions. A separate allocator hands out the disjoint identity
//! ranges that freshly stored text receives.

use vstd::prelude::*;

verus! {

/// An append-only, ordered container of owned values.
pub struct Arena<T> {
    data: Vec<T>,
}

impl<T> View for Arena<T> {
    type V = Seq<T>;

    closed spec fn view(&self) -> Seq<T> {
        self.data@
    }
}

impl<T> Arena<T> {
    /// An empty arena.
    pub fn new() -> (r: Arena<T>)
        ensures
            r@ == Seq::<T>::empty(),
    {
        Arena { data: Vec::new() }
    }

    /// Takes ownership of `value`, appends it, and returns its 0-based
    /// position. Every previously stored value stays where it was.
    pub fn allocate(&mut self, value: T) -> (index: usize)
        ensures
            final(self)@ == old(self)@.push(value),
            index == old(self)@.len(),
    {
        self.data.push(value);
        self.data.len() - 1
    }

    /// The value stored at `index`, or nothing when `index` was never
    /// returned by `allocate` on this arena.
    pub fn get(&self, index: usize) -> (r: Option<&T>)
        ensures
            index < self@.len() ==> (r matches Some(v) && *v == self@[index as int]),
            index >= self@.len() ==> r is None,
    {
        if index < self.data.len() {
            Some(&self.data[index])
        } else {
            None
        }
    }
}

impl<T> Default for Arena<T> {
    /// An empty arena.
    fn default() -> (r: Arena<T>)
        ensures
            r@ == Seq::<T>::empty(),
    {
        Arena::new()
    }
}

/// The source of character identities: hands out consecutive, pairwise
/// disjoint ranges, one range for each buffer of text as it first enters
/// the system.
pub struct IdAlloc {
    next: usize,
}

impl IdAlloc {
    /// The identity the next handed-out range will start at.
    pub closed spec fn next_id(self) -> usize {
        self.next
    }

    /// An allocator that starts handing out identities at `start`.
    pub fn starting_at(start: usize) -> (r: IdAlloc)
        ensures
            r.next_id() == start,
    {
        IdAlloc { next: start }
    }

    /// Reserves `count` fresh identities and returns the first, or nothing
    /// when that many identities are no longer available. Ranges handed
    /// out by successive calls never overlap.
    pub fn take(&mut self, count: usize) -> (r: Option<usize>)
        ensures
            old(self).next_id() + count <= usize::MAX ==> (r matches Some(base)
                && base == old(self).next_id()
                && final(self).next_id() == old(self).next_id() + count),
            old(self).next_id() + count > usize::MAX ==> (r is None
                && final(self).next_id() == old(self).next_id()),
    {
        if count <= usize::MAX - self.next {
            let base = self.next;
            self.next = self.next + count;
            Some(base)
        } else {
            None
        }
    }
}

} // verus!
