use data_structures::error::StructureError;
use data_structures::stack::Stack;

#[allow(non_snake_case)]
#[test]
fn Stack_stack() {
    let mut s: Stack<u32> = Stack::new(10);
    assert_eq!(s.push(12), Ok(()));
    assert_eq!(s.push(54), Ok(()));
    assert_eq!(s.pop(), Ok(54));
    assert_eq!(s.top(), s.len());
    assert_eq!(s.pop(), Ok(12));
}

#[allow(non_snake_case)]
#[test]
fn main_stack() {
    let mut s: Stack<u32> = Stack::new(10);
    assert_eq!(s.push(12), Ok(()));
    assert_eq!(s.push(54), Ok(()));
    assert_eq!(s.pop(), Ok(54));
    assert_eq!(s.top(), s.len());
    assert_eq!(s.pop(), Ok(12));
}

#[test]
fn stack_rejects_push_when_full() {
    let mut s: Stack<u32> = Stack::new(2);
    assert_eq!(s.push(1), Ok(()));
    assert_eq!(s.push(2), Ok(()));
    assert_eq!(s.push(3), Err(StructureError::CapacityExceeded));
    assert_eq!(s.len(), 2);
    assert_eq!(s.pop(), Ok(2));
}

#[test]
fn stack_rejects_pop_when_empty() {
    let mut s: Stack<u32> = Stack::new(3);
    assert_eq!(s.pop(), Err(StructureError::EmptyCollection));
    assert_eq!(s.top(), 0);
}

#[test]
fn stack_of_capacity_zero_takes_nothing() {
    let mut s: Stack<u32> = Stack::new(0);
    assert_eq!(s.push(7), Err(StructureError::CapacityExceeded));
    assert_eq!(s.pop(), Err(StructureError::EmptyCollection));
}
