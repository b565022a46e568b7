use os_exercises::min_heap::MinHeap;

#[test]
fn heap_pops_in_ascending_order() {
    let mut heap = MinHeap::new();
    for x in [5usize, 3, 8, 1, 9, 2, 7, 3] {
        heap.push(x);
    }
    assert_eq!(heap.len(), 8);
    assert_eq!(heap.peek(), Some(&1));
    let mut out = Vec::new();
    while let Some(x) = heap.pop() {
        out.push(x);
    }
    assert_eq!(out, vec![1, 2, 3, 3, 5, 7, 8, 9]);
    assert_eq!(heap.len(), 0);
    assert_eq!(heap.peek(), None);
    assert_eq!(heap.pop(), None);
}

#[test]
fn heap_from_vec_heapifies() {
    let mut heap = MinHeap::from(vec![9, 4, 7, 1, 0, 6, 3]);
    assert_eq!(heap.len(), 7);
    assert_eq!(heap.peek(), Some(&0));
    let mut out = Vec::new();
    while let Some(x) = heap.pop() {
        out.push(x);
    }
    assert_eq!(out, vec![0, 1, 3, 4, 6, 7, 9]);
}

#[test]
fn heap_from_single_value() {
    let mut heap = MinHeap::from(vec![42]);
    assert_eq!(heap.pop(), Some(42));
    assert_eq!(heap.pop(), None);
}

#[test]
fn heap_push_then_pop_round_trip() {
    let mut heap = MinHeap::new();
    heap.push(17);
    assert_eq!(heap.pop(), Some(17));
    assert_eq!(heap.len(), 0);
}

#[test]
fn heap_index_arithmetic() {
    let heap = MinHeap::new();
    assert_eq!(heap.left(0), 1);
    assert_eq!(heap.right(0), 2);
    assert_eq!(heap.left(3), 7);
    assert_eq!(heap.right(3), 8);
    assert_eq!(heap.parent(0), None);
    assert_eq!(heap.parent(1), Some(0));
    assert_eq!(heap.parent(2), Some(0));
    assert_eq!(heap.parent(8), Some(3));
}

#[test]
fn heap_push_below_minimum_becomes_peek() {
    let mut heap = MinHeap::from(vec![5, 6, 7]);
    heap.push(2);
    assert_eq!(heap.peek(), Some(&2));
    heap.push(9);
    assert_eq!(heap.peek(), Some(&2));
}
