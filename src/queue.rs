use vstd::prelude::*;

use crate::error::StructureError;

verus! {

/// A first-in, first-out queue that holds at most `maxsize` elements.
///
/// Its view lists the elements from the most recently pushed one to the
/// oldest, which is the next to leave.
pub struct Queue<T> {
    maxsize: usize,
    top: usize,
    items: Vec<T>,
}

impl<T> View for Queue<T> {
    type V = Seq<T>;

    closed spec fn view(&self) -> Seq<T> {
        self.items@
    }
}

impl<T> Queue<T> {
    /// The largest number of elements the queue may hold.
    pub closed spec fn capacity(&self) -> nat {
        self.maxsize as nat
    }

    /// The counter of held elements agrees with the storage, which never
    /// outgrows the bound.
    pub closed spec fn well_formed(&self) -> bool {
        &&& self.top == self.items@.len()
        &&& self.items@.len() <= self.maxsize
    }

    /// An empty queue bounded by `maxsize`.
    pub fn new(maxsize: usize) -> (q: Self)
        ensures
            q.well_formed(),
            q@ == Seq::<T>::empty(),
            q.capacity() == maxsize,
    {
        Queue { maxsize, top: 0, items: Vec::with_capacity(maxsize) }
    }

    /// Puts `item` at the back, or reports `CapacityExceeded` when the queue
    /// is full, leaving it unchanged.
    pub fn push(&mut self, item: T) -> (r: Result<(), StructureError>)
        requires
            old(self).well_formed(),
        ensures
            final(self).well_formed(),
            final(self).capacity() == old(self).capacity(),
            old(self)@.len() < old(self).capacity() ==> r == Ok::<(), StructureError>(())
                && final(self)@ == seq![item] + old(self)@,
            old(self)@.len() >= old(self).capacity() ==> r == Err::<(), StructureError>(
                StructureError::CapacityExceeded,
            ) && final(self)@ == old(self)@,
    {
        if self.items.len() == self.maxsize {
            return Err(StructureError::CapacityExceeded);
        }
        self.items.insert(0, item);
        self.top = self.top + 1;
        proof {
            assert(self.items@ =~= seq![item] + old(self)@);
        }
        Ok(())
    }

    /// Takes the oldest element out, or reports `EmptyCollection` when there
    /// is none, leaving the queue unchanged.
    pub fn pop(&mut self) -> (r: Result<T, StructureError>)
        requires
            old(self).well_formed(),
        ensures
            final(self).well_formed(),
            final(self).capacity() == old(self).capacity(),
            old(self)@.len() > 0 ==> r == Ok::<T, StructureError>(old(self)@.last())
                && final(self)@ == old(self)@.drop_last(),
            old(self)@.len() == 0 ==> r == Err::<T, StructureError>(
                StructureError::EmptyCollection,
            ) && final(self)@ == old(self)@,
    {
        if self.top == 0 {
            return Err(StructureError::EmptyCollection);
        }
        let output = self.items.remove(self.top - 1);
        self.top = self.top - 1;
        proof {
            assert(self.items@ =~= old(self)@.drop_last());
        }
        Ok(output)
    }

    /// The number of elements held.
    pub fn top(&self) -> (n: usize)
        requires
            self.well_formed(),
        ensures
            n == self@.len(),
    {
        self.top
    }
}

} // verus!
