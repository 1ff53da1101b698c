use concurrent_collections::LockFreeQueue;

#[test]
fn queue_new_is_empty() {
    let q: LockFreeQueue<i32> = LockFreeQueue::new();
    assert!(q.is_empty());
}

#[test]
fn queue_default_is_empty() {
    let q: LockFreeQueue<i32> = Default::default();
    assert!(q.is_empty());
}

#[test]
fn queue_fifo_scenario() {
    let mut q = LockFreeQueue::new();
    q.enqueue(1);
    q.enqueue(2);
    q.enqueue(3);
    assert_eq!(q.dequeue(), Some(1));
    assert_eq!(q.dequeue(), Some(2));
    assert_eq!(q.dequeue(), Some(3));
    assert_eq!(q.dequeue(), None);
}

#[test]
fn queue_is_empty_transitions() {
    let mut q = LockFreeQueue::new();
    assert!(q.is_empty());
    q.enqueue(4);
    assert!(!q.is_empty());
    assert_eq!(q.dequeue(), Some(4));
    assert!(q.is_empty());
}

#[test]
fn queue_peek_is_idempotent() {
    let mut q = LockFreeQueue::new();
    assert_eq!(q.peek(), None);
    q.enqueue(4);
    assert_eq!(q.peek(), Some(&4));
    assert_eq!(q.peek(), Some(&4));
    assert_eq!(q.dequeue(), Some(4));
    assert_eq!(q.peek(), None);
}

#[test]
fn queue_iter_walks_in_order() {
    let mut q = LockFreeQueue::new();
    q.enqueue(5);
    q.enqueue(6);
    q.enqueue(7);
    let mut it = q.iter();
    assert_eq!(it.next(), Some(&5));
    assert_eq!(it.next(), Some(&6));
    assert_eq!(it.next(), Some(&7));
    assert_eq!(it.next(), None);
}

#[test]
fn queue_duplicate_copies_elements_in_order() {
    let mut q = LockFreeQueue::new();
    q.enqueue(1);
    q.enqueue(2);
    q.enqueue(3);
    let mut copy = q.duplicate();
    // the copy delivers the same elements in the same order
    assert_eq!(copy.dequeue(), Some(1));
    assert_eq!(copy.dequeue(), Some(2));
    assert_eq!(copy.dequeue(), Some(3));
    assert_eq!(copy.dequeue(), None);
    // the source is untouched
    assert_eq!(q.dequeue(), Some(1));
    assert_eq!(q.dequeue(), Some(2));
    assert_eq!(q.dequeue(), Some(3));
    assert_eq!(q.dequeue(), None);
}

#[test]
fn queue_long_fifo_order() {
    let mut q = LockFreeQueue::new();
    for i in 0..100 {
        q.enqueue(i);
    }
    for i in 0..100 {
        assert_eq!(q.dequeue(), Some(i));
    }
    assert_eq!(q.dequeue(), None);
}

#[test]
fn queue_interleaved_rounds_conserve_elements() {
    // ten rounds of a thousand distinct values each, removals interleaved
    // with insertions; every inserted value comes back exactly once
    let mut q = LockFreeQueue::new();
    let mut inserted_sum: u64 = 0;
    let mut removed_sum: u64 = 0;
    let mut seen = vec![false; 10_000];
    let mut removed_count = 0u32;
    for round in 0..10u64 {
        for j in 0..1000u64 {
            let v = round * 1000 + j;
            inserted_sum += v;
            q.enqueue(v);
        }
        // drain half after each round
        for _ in 0..500 {
            let v = q.dequeue().expect("value owed");
            assert!(!seen[v as usize], "duplicate observed");
            seen[v as usize] = true;
            removed_sum += v;
            removed_count += 1;
        }
    }
    while let Some(v) = q.dequeue() {
        assert!(!seen[v as usize], "duplicate observed");
        seen[v as usize] = true;
        removed_sum += v;
        removed_count += 1;
    }
    assert_eq!(removed_count, 10_000);
    assert_eq!(inserted_sum, removed_sum);
}
