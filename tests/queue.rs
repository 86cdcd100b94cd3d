use data_structures::error::StructureError;
use data_structures::queue::Queue;

#[allow(non_snake_case)]
#[test]
fn Queue_queue() {
    let mut q: Queue<u32> = Queue::new(10);
    assert_eq!(q.push(32), Ok(()));
    assert_eq!(1, q.top());
    assert_eq!(q.push(21), Ok(()));
    assert_eq!(q.pop(), Ok(32));
    assert_eq!(q.pop(), Ok(21));
}

#[allow(non_snake_case)]
#[test]
fn main_queue() {
    let mut q: Queue<u32> = Queue::new(10);
    assert_eq!(q.push(32), Ok(()));
    assert_eq!(1, q.top());
    assert_eq!(q.push(21), Ok(()));
    assert_eq!(q.pop(), Ok(32));
    assert_eq!(q.pop(), Ok(21));
}

#[test]
fn queue_rejects_push_when_full() {
    let mut q: Queue<u32> = Queue::new(1);
    assert_eq!(q.push(5), Ok(()));
    assert_eq!(q.push(6), Err(StructureError::CapacityExceeded));
    assert_eq!(q.pop(), Ok(5));
}

#[test]
fn queue_rejects_pop_when_empty() {
    let mut q: Queue<u32> = Queue::new(4);
    assert_eq!(q.pop(), Err(StructureError::EmptyCollection));
    assert_eq!(q.push(1), Ok(()));
    assert_eq!(q.pop(), Ok(1));
    assert_eq!(q.pop(), Err(StructureError::EmptyCollection));
}
