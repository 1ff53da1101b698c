use concurrent_collections::{BlockingQueue, BlockingStack};

#[test]
fn blocking_queue_new_is_empty() {
    let q: BlockingQueue<i32> = BlockingQueue::new();
    assert!(q.is_empty());
    assert_eq!(q.len(), 0);
    assert!(q.capacity() >= q.len());
}

#[test]
fn blocking_queue_fifo_order() {
    let mut q = BlockingQueue::new();
    q.push(1);
    q.push(2);
    q.push(3);
    assert_eq!(q.pop(), 1);
    assert_eq!(q.pop(), 2);
    assert_eq!(q.pop(), 3);
    assert!(q.is_empty());
}

#[test]
fn blocking_queue_try_pop() {
    let mut q = BlockingQueue::new();
    assert_eq!(q.try_pop(), None);
    q.push(5);
    assert_eq!(q.try_pop(), Some(5));
    assert_eq!(q.try_pop(), None);
}

#[test]
fn blocking_queue_peek_is_idempotent() {
    let mut q = BlockingQueue::new();
    assert_eq!(q.peek(), None);
    q.push(5);
    q.push(6);
    assert_eq!(q.peek(), Some(&5));
    assert_eq!(q.peek(), Some(&5));
}

#[test]
fn blocking_queue_clear_and_len() {
    let mut q = BlockingQueue::new();
    q.push(1);
    q.push(2);
    assert_eq!(q.len(), 2);
    q.clear();
    assert!(q.is_empty());
    assert_eq!(q.len(), 0);
}

#[test]
fn blocking_queue_drain_in_order() {
    let mut q = BlockingQueue::new();
    q.push(1);
    q.push(2);
    q.push(3);
    assert_eq!(q.drain(), vec![1, 2, 3]);
    assert!(q.is_empty());
}

#[test]
fn blocking_queue_contains() {
    let mut q = BlockingQueue::new();
    q.push(1);
    q.push(2);
    assert!(q.contains(&1));
    assert!(q.contains(&2));
    assert!(!q.contains(&3));
}

#[test]
fn blocking_queue_reverse() {
    let mut q = BlockingQueue::new();
    q.push(1);
    q.push(2);
    q.push(3);
    let r = q.reverse();
    let collected: Vec<i32> = r.into_iter().collect();
    assert_eq!(collected, vec![3, 2, 1]);
    // the original is untouched
    assert_eq!(q.pop(), 1);
}

#[test]
fn blocking_queue_with_capacity() {
    let q: BlockingQueue<i32> = BlockingQueue::_with_capacity(16);
    assert!(q.is_empty());
    assert!(q.capacity() >= 16);
}

#[test]
fn blocking_queue_capacity_covers_contents() {
    let mut q = BlockingQueue::new();
    q.push(1);
    q.push(2);
    q.push(3);
    assert!(q.capacity() >= q.len());
}

#[test]
fn blocking_queue_from_vec_keeps_order() {
    let mut q = BlockingQueue::from(vec![1, 2, 3]);
    assert_eq!(q.pop(), 1);
    assert_eq!(q.pop(), 2);
    assert_eq!(q.pop(), 3);
    assert!(q.is_empty());
}

#[test]
fn blocking_queue_default_is_empty() {
    let q: BlockingQueue<i32> = Default::default();
    assert!(q.is_empty());
}

#[test]
fn blocking_stack_new_is_empty() {
    let s: BlockingStack<i32> = BlockingStack::new();
    assert!(s.is_empty());
    assert_eq!(s.len(), 0);
    assert!(s.capacity() >= s.len());
}

#[test]
fn blocking_stack_lifo_order() {
    let mut s = BlockingStack::new();
    s.push(1);
    s.push(2);
    s.push(3);
    assert_eq!(s.pop(), 3);
    assert_eq!(s.pop(), 2);
    assert_eq!(s.pop(), 1);
    assert!(s.is_empty());
}

#[test]
fn blocking_stack_try_pop() {
    let mut s = BlockingStack::new();
    assert_eq!(s.try_pop(), None);
    s.push(5);
    assert_eq!(s.try_pop(), Some(5));
    assert_eq!(s.try_pop(), None);
}

#[test]
fn blocking_stack_peek_is_idempotent() {
    let mut s = BlockingStack::new();
    assert_eq!(s.peek(), None);
    s.push(5);
    s.push(6);
    assert_eq!(s.peek(), Some(&6));
    assert_eq!(s.peek(), Some(&6));
}

#[test]
fn blocking_stack_clear_and_len() {
    let mut s = BlockingStack::new();
    s.push(1);
    s.push(2);
    assert_eq!(s.len(), 2);
    s.clear();
    assert!(s.is_empty());
}

#[test]
fn blocking_stack_drain_in_insertion_order() {
    let mut s = BlockingStack::new();
    s.push(1);
    s.push(2);
    s.push(3);
    assert_eq!(s.drain(), vec![1, 2, 3]);
    assert!(s.is_empty());
}

#[test]
fn blocking_stack_contains() {
    let mut s = BlockingStack::new();
    s.push(1);
    assert!(s.contains(&1));
    assert!(!s.contains(&2));
}

#[test]
fn blocking_stack_reverse() {
    let mut s = BlockingStack::new();
    s.push(1);
    s.push(2);
    s.push(3);
    let r = s.reverse();
    let collected: Vec<i32> = r.into_iter().collect();
    assert_eq!(collected, vec![3, 2, 1]);
    assert_eq!(s.pop(), 3);
}

#[test]
fn blocking_stack_with_capacity() {
    let s: BlockingStack<i32> = BlockingStack::_with_capacity(8);
    assert!(s.is_empty());
    assert!(s.capacity() >= 8);
}

#[test]
fn blocking_stack_capacity_covers_contents() {
    let mut s = BlockingStack::new();
    s.push(1);
    s.push(2);
    assert!(s.capacity() >= s.len());
}

#[test]
fn blocking_stack_from_vec_pops_last_first() {
    let mut s = BlockingStack::from(vec![1, 2, 3]);
    assert_eq!(s.pop(), 3);
    assert_eq!(s.pop(), 2);
    assert_eq!(s.pop(), 1);
    assert!(s.is_empty());
}

#[test]
fn blocking_stack_default_is_empty() {
    let s: BlockingStack<i32> = Default::default();
    assert!(s.is_empty());
}
