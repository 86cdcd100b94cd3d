use data_structures::error::StructureError;
use data_structures::linked_list::LinkedListItem;

#[allow(non_snake_case)]
#[test]
fn SingleLinkedList_linkedlist() {
    let mut i1 = LinkedListItem::new(5);
    let mut i2 = LinkedListItem::new(12);
    let i3 = LinkedListItem::new(27);
    assert_eq!(i1.add_link(&i2), Ok(()));
    assert_eq!(i2.add_link(&i3), Ok(()));
    assert_eq!(i2.value, 12);
}

#[allow(non_snake_case)]
#[test]
fn main_linkedlist() {
    let mut i1 = LinkedListItem::new(5);
    let mut i2 = LinkedListItem::new(12);
    let i3 = LinkedListItem::new(27);
    assert_eq!(i1.add_link(&i2), Ok(()));
    assert_eq!(i2.add_link(&i3), Ok(()));
    assert_eq!(i2.value, 12);
}

#[test]
fn linked_list_rejects_second_link() {
    let a = LinkedListItem::new(1);
    let b = LinkedListItem::new(2);
    let mut c = LinkedListItem::new(3);
    assert_eq!(c.add_link(&a), Ok(()));
    assert_eq!(c.add_link(&b), Err(StructureError::DuplicateLink));
    assert_eq!(c.pointer.map(|n| n.value), Some(1));
}
