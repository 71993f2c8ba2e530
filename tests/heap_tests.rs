use graph_algos::heap::MinHeap;

#[test]
fn test_heap() {
    let mut min_heap = MinHeap::new();
    let array: Vec<i64> = vec![2, 3, 0, 7, 6, 1, 5];
    let mut heaped_array: Vec<i64> = vec![0, 3, 1, 7, 6, 2, 5];
    for i in 0..array.len() {
        min_heap.insert(i, array[i]);
    }
    for i in 0..array.len() {
        assert_eq!(min_heap.heap[i].prio, heaped_array[i])
    }
    heaped_array = vec![1, 3, 2, 7, 6, 5];
    let min = min_heap.delete_min();
    for i in 0..heaped_array.len() {
        assert_eq!(min_heap.heap[i].prio, heaped_array[i]);
        assert_eq!(min, 2)
    }
    heaped_array = vec![2, 3, 5, 7, 6, 6];
    min_heap.change_prio(5, 6);
    for i in 0..heaped_array.len() {
        assert_eq!(min_heap.heap[i].prio, heaped_array[i]);
    }
}

#[test]
fn heap_round_trip_is_sorted() {
    let prios: Vec<i64> = vec![5, -2, 9, 0, 5, 3, -7, 8];
    let mut h = MinHeap::new();
    for (k, p) in prios.iter().enumerate() {
        h.insert(k, *p);
    }
    let mut out = Vec::new();
    while !h.is_empty() {
        out.push(prios[h.delete_min()]);
    }
    let mut expected = prios.clone();
    expected.sort();
    assert_eq!(out, expected);
}

#[test]
fn heap_change_prio_moves_key_up() {
    let mut h = MinHeap::new();
    h.insert(0, 10);
    h.insert(1, 20);
    h.insert(2, 30);
    h.change_prio(2, 1);
    assert_eq!(h.delete_min(), 2);
    h.clear();
    assert!(h.is_empty());
}

#[test]
fn heap_sparse_keys() {
    let mut h = MinHeap::new();
    h.insert(7, 3);
    h.insert(2, 1);
    assert_eq!(h.delete_min(), 2);
    assert_eq!(h.delete_min(), 7);
    assert!(h.is_empty());
}
