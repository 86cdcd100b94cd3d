use data_structures::error::StructureError;
use data_structures::min_heap::MinHeap;

fn is_heap(v: &[i64]) -> bool {
    (1..v.len()).all(|i| v[(i - 1) / 2] <= v[i])
}

#[allow(non_snake_case)]
#[test]
fn MinHeap_binaryheap() {
    let mut h: MinHeap<u32> = MinHeap::new(20);
    h.insert(1);
    assert_eq!(h.values(), &vec![1]);
    h.insert(3);
    assert_eq!(h.values(), &vec![1, 3]);
    h.insert(4);
    assert_eq!(h.values(), &vec![1, 3, 4]);
    h.insert(6);
    assert_eq!(h.values(), &vec![1, 3, 4, 6]);
    h.insert(0);
    assert_eq!(h.values(), &vec![0, 1, 4, 6, 3]);
    assert_eq!(h.remove(0), Ok(0));
    assert_eq!(h.values(), &vec![1, 3, 4, 6]);
}

#[allow(non_snake_case)]
#[test]
fn main_binaryheap() {
    let mut h: MinHeap<u32> = MinHeap::new(20);
    h.insert(1);
    assert_eq!(h.values(), &vec![1]);
    h.insert(3);
    assert_eq!(h.values(), &vec![1, 3]);
    h.insert(4);
    assert_eq!(h.values(), &vec![1, 3, 4]);
    h.insert(6);
    assert_eq!(h.values(), &vec![1, 3, 4, 6]);
    h.insert(0);
    assert_eq!(h.values(), &vec![0, 1, 4, 6, 3]);
    assert_eq!(h.remove(0), Ok(0));
    assert_eq!(h.values(), &vec![1, 3, 4, 6]);
}

#[test]
fn heap_stays_ordered_after_each_insert() {
    let mut h: MinHeap<i64> = MinHeap::new(0);
    for x in [9, -3, 7, 7, 0, 12, -8, 5, 5, 1, 30, -3] {
        h.insert(x);
        assert!(is_heap(h.values()));
    }
    assert_eq!(h.len(), 12);
    assert_eq!(h.values()[0], -8);
}

#[test]
fn heap_remove_with_two_children_keeps_order() {
    let mut h: MinHeap<i64> = MinHeap::new(8);
    for x in [2, 5, 3, 9, 6, 4, 8] {
        h.insert(x);
    }
    assert_eq!(h.values(), &vec![2, 5, 3, 9, 6, 4, 8]);
    assert_eq!(h.remove(1), Ok(5));
    assert_eq!(h.values(), &vec![2, 6, 3, 9, 8, 4]);
    assert!(is_heap(h.values()));
}

#[test]
fn heap_remove_moves_last_element_up() {
    let mut h: MinHeap<i64> = MinHeap::new(16);
    for x in [0, 10, 1, 11, 12, 2, 3, 13, 14, 15, 16, 4, 5, 6, 7] {
        h.insert(x);
    }
    assert_eq!(h.remove(3), Ok(11));
    assert_eq!(h.values(), &vec![0, 7, 1, 10, 12, 2, 3, 13, 14, 15, 16, 4, 5, 6]);
    assert!(is_heap(h.values()));
}

#[test]
fn heap_remove_of_leaf_and_last() {
    let mut h: MinHeap<u32> = MinHeap::new(4);
    for x in [1, 3, 4, 6] {
        h.insert(x);
    }
    assert_eq!(h.remove(3), Ok(6));
    assert_eq!(h.values(), &vec![1, 3, 4]);
    assert_eq!(h.remove(1), Ok(3));
    assert_eq!(h.values(), &vec![1, 4]);
}

#[test]
fn heap_remove_out_of_range_changes_nothing() {
    let mut h: MinHeap<u32> = MinHeap::new(4);
    assert_eq!(h.remove(0), Err(StructureError::IndexOutOfRange));
    h.insert(5);
    h.insert(2);
    assert_eq!(h.remove(2), Err(StructureError::IndexOutOfRange));
    assert_eq!(h.values(), &vec![2, 5]);
}

#[test]
fn heap_size_after_inserts_and_removals() {
    let mut h: MinHeap<u64> = MinHeap::new(2);
    for x in [8, 6, 7, 5, 3, 0, 9] {
        h.insert(x);
    }
    assert_eq!(h.remove(0), Ok(0));
    assert_eq!(h.remove(2), Ok(7));
    assert_eq!(h.remove(10), Err(StructureError::IndexOutOfRange));
    assert_eq!(h.len(), 7 - 2);
    assert_eq!(h.values(), &vec![3, 5, 9, 8, 6]);
}

#[test]
fn heap_with_equal_elements() {
    let mut h: MinHeap<u32> = MinHeap::new(4);
    for x in [4, 4, 4, 4] {
        h.insert(x);
    }
    assert_eq!(h.remove(0), Ok(4));
    assert_eq!(h.values(), &vec![4, 4, 4]);
}
