use vstd::prelude::*;

use crate::error::StructureError;

verus! {

/// A node of a singly linked list: a value and a borrowed link to the next
/// node, set at most once.
pub struct LinkedListItem<'a, T> {
    pub value: T,
    pub pointer: Option<&'a LinkedListItem<'a, T>>,
}

impl<'a, T> LinkedListItem<'a, T> {
    /// A node holding `value` with no link.
    pub fn new(value: T) -> (item: Self)
        ensures
            item.value == value,
            item.pointer is None,
    {
        LinkedListItem { value, pointer: None }
    }

    /// Links this node to `pointer`, or reports `DuplicateLink` and changes
    /// nothing when it already has a link.
    pub fn add_link(&mut self, pointer: &'a LinkedListItem<'a, T>) -> (r: Result<(), StructureError>)
        ensures
            final(self).value == old(self).value,
            old(self).pointer is None ==> r == Ok::<(), StructureError>(()) && final(self).pointer
                == Some(pointer),
            old(self).pointer is Some ==> r == Err::<(), StructureError>(
                StructureError::DuplicateLink,
            ) && final(self).pointer == old(self).pointer,
    {
        match self.pointer {
            Some(_) => Err(StructureError::DuplicateLink),
            None => {
                self.pointer = Some(pointer);
                Ok(())
            },
        }
    }
}

} // verus!
