use dsalib::heap::Heap;
use rand::thread_rng;
use rand::Rng;

#[test]
fn test_min_heap() {
    let mut heap = Heap::new();
    let mut test = Vec::new();
    for _ in 0..10000 {
        let n = thread_rng().gen();
        test.push(n);
        heap.push(n);
    }
    let mut heap_vec = Vec::new();
    while let Some(n) = heap.pop() {
        heap_vec.push(n);
    }
    test.sort();
    assert_eq!(heap_vec, test);
}

#[test]
fn test_max_heap() {
    let mut heap = Heap::new();
    heap.set_heap_order_max();
    let mut test = Vec::new();
    for _ in 0..10000 {
        let n = thread_rng().gen();
        test.push(n);
        heap.push(n);
    }
    let mut heap_vec = Vec::new();
    while let Some(n) = heap.pop() {
        heap_vec.push(n);
    }
    test.sort();
    test.reverse();
    assert_eq!(heap_vec, test);
}

#[test]
fn test_heap_order_switch_keeps_elements() {
    let mut heap = Heap::new();
    for n in [4isize, -1, 9, 4, 0] {
        heap.push(n);
    }
    heap.set_heap_order_max();
    assert_eq!(heap.pop(), Some(9));
    heap.set_heap_order_min();
    assert_eq!(heap.pop(), Some(-1));
    assert_eq!(heap.pop(), Some(0));
    assert_eq!(heap.pop(), Some(4));
    assert_eq!(heap.pop(), Some(4));
    assert_eq!(heap.pop(), None);
}
