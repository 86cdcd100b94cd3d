use vstd::prelude::*;

use crate::error::StructureError;

verus! {

/// A last-in, first-out stack that holds at most `maxsize` elements.
///
/// Its view lists the elements from the most recently pushed one (the top)
/// down to the oldest.
pub struct Stack<T> {
    maxsize: usize,
    top: usize,
    items: Vec<T>,
}

impl<T> View for Stack<T> {
    type V = Seq<T>;

    closed spec fn view(&self) -> Seq<T> {
        self.items@
    }
}

impl<T> Stack<T> {
    /// The largest number of elements the stack may hold.
    pub closed spec fn capacity(&self) -> nat {
        self.maxsize as nat
    }

    /// The counter of held elements agrees with the storage, which never
    /// outgrows the bound.
    pub closed spec fn well_formed(&self) -> bool {
        &&& self.top == self.items@.len()
        &&& self.items@.len() <= self.maxsize
    }

    /// An empty stack bounded by `maxsize`.
    pub fn new(maxsize: usize) -> (s: Self)
        ensures
            s.well_formed(),
            s@ == Seq::<T>::empty(),
            s.capacity() == maxsize,
    {
        Stack { maxsize, top: 0, items: Vec::with_capacity(maxsize) }
    }

    /// Puts `element` on top, or reports `CapacityExceeded` when the stack is
    /// full, leaving it unchanged.
    pub fn push(&mut self, element: T) -> (r: Result<(), StructureError>)
        requires
            old(self).well_formed(),
        ensures
            final(self).well_formed(),
            final(self).capacity() == old(self).capacity(),
            old(self)@.len() < old(self).capacity() ==> r == Ok::<(), StructureError>(())
                && final(self)@ == seq![element] + old(self)@,
            old(self)@.len() >= old(self).capacity() ==> r == Err::<(), StructureError>(
                StructureError::CapacityExceeded,
            ) && final(self)@ == old(self)@,
    {
        if self.items.len() == self.maxsize {
            return Err(StructureError::CapacityExceeded);
        }
        self.items.insert(0, element);
        self.top = self.top + 1;
        proof {
            assert(self.items@ =~= seq![element] + old(self)@);
        }
        Ok(())
    }

    /// Takes the top element off, or reports `EmptyCollection` when there is
    /// none, leaving the stack unchanged.
    pub fn pop(&mut self) -> (r: Result<T, StructureError>)
        requires
            old(self).well_formed(),
        ensures
            final(self).well_formed(),
            final(self).capacity() == old(self).capacity(),
            old(self)@.len() > 0 ==> r == Ok::<T, StructureError>(old(self)@[0])
                && final(self)@ == old(self)@.drop_first(),
            old(self)@.len() == 0 ==> r == Err::<T, StructureError>(
                StructureError::EmptyCollection,
            ) && final(self)@ == old(self)@,
    {
        if self.items.len() == 0 {
            return Err(StructureError::EmptyCollection);
        }
        self.top = self.top - 1;
        let element = self.items.remove(0);
        proof {
            assert(self.items@ =~= old(self)@.drop_first());
        }
        Ok(element)
    }

    /// The number of elements held, as the stack counts them.
    pub fn top(&self) -> (n: usize)
        requires
            self.well_formed(),
        ensures
            n == self@.len(),
    {
        self.top
    }

    /// The number of elements in the storage.
    pub fn len(&self) -> (n: usize)
        ensures
            n == self@.len(),
    {
        self.items.len()
    }
}

} // verus!
