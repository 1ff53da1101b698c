use concurrent_collections::LockFreeStack;

#[test]
fn stack_new_is_empty() {
    let s: LockFreeStack<i32> = LockFreeStack::new();
    assert!(s.is_empty());
}

#[test]
fn stack_lifo_scenario() {
    let mut s = LockFreeStack::new();
    s.push(1);
    s.push(2);
    s.push(3);
    assert_eq!(s.try_pop(), Some(3));
    assert_eq!(s.try_pop(), Some(2));
    assert_eq!(s.try_pop(), Some(1));
    assert_eq!(s.try_pop(), None);
}

#[test]
fn stack_peek_is_idempotent() {
    let mut s = LockFreeStack::new();
    assert_eq!(s.try_peek(), None);
    s.push(9);
    assert_eq!(s.try_peek(), Some(&9));
    assert_eq!(s.try_peek(), Some(&9));
    assert_eq!(s.try_pop(), Some(9));
    assert_eq!(s.try_peek(), None);
}

#[test]
fn stack_batch_matches_single_pushes() {
    // push_range([a, b, c]) followed by pops yields the same values, in the
    // same order, as pushing a, b, c one by one
    let mut batch = LockFreeStack::new();
    batch.push_range(vec![1, 2, 3]);
    let mut single = LockFreeStack::new();
    single.push(1);
    single.push(2);
    single.push(3);
    for _ in 0..3 {
        assert_eq!(batch.try_pop(), single.try_pop());
    }
    assert_eq!(batch.try_pop(), None);
    assert_eq!(single.try_pop(), None);
}

#[test]
fn stack_push_range_empty_changes_nothing() {
    let mut s = LockFreeStack::new();
    s.push(1);
    s.push_range(Vec::new());
    assert_eq!(s.try_pop(), Some(1));
    assert_eq!(s.try_pop(), None);
}

#[test]
fn stack_push_range_on_top_of_existing() {
    let mut s = LockFreeStack::new();
    s.push(1);
    s.push_range(vec![2, 3]);
    assert_eq!(s.try_pop(), Some(3));
    assert_eq!(s.try_pop(), Some(2));
    assert_eq!(s.try_pop(), Some(1));
    assert_eq!(s.try_pop(), None);
}

#[test]
fn stack_try_pop_range_takes_newest_first() {
    let mut s = LockFreeStack::new();
    for i in 1..=5 {
        s.push(i);
    }
    assert_eq!(s.try_pop_range(3), vec![5, 4, 3]);
    assert_eq!(s.try_pop(), Some(2));
    assert_eq!(s.try_pop(), Some(1));
    assert_eq!(s.try_pop(), None);
}

#[test]
fn stack_try_pop_range_stops_when_exhausted() {
    let mut s = LockFreeStack::new();
    s.push(1);
    s.push(2);
    assert_eq!(s.try_pop_range(10), vec![2, 1]);
    assert!(s.is_empty());
    assert_eq!(s.try_pop_range(10), Vec::<i32>::new());
}

#[test]
fn stack_try_pop_range_zero_removes_nothing() {
    let mut s = LockFreeStack::new();
    s.push(1);
    assert_eq!(s.try_pop_range(0), Vec::<i32>::new());
    assert!(!s.is_empty());
}

#[test]
fn stack_clear_leaves_empty() {
    let mut s = LockFreeStack::new();
    s.push_range(vec![1, 2, 3]);
    s.clear();
    assert!(s.is_empty());
    assert_eq!(s.try_pop(), None);
}

#[test]
fn stack_to_vec_snapshots_top_first() {
    let mut s = LockFreeStack::new();
    s.push(1);
    s.push(2);
    s.push(3);
    assert_eq!(s.to_vec(), vec![3, 2, 1]);
    // the snapshot does not disturb the contents
    assert_eq!(s.try_pop(), Some(3));
}

#[test]
fn stack_iter_walks_top_first() {
    let mut s = LockFreeStack::new();
    s.push(1);
    s.push(2);
    let mut it = s.iter();
    assert_eq!(it.next(), Some(&2));
    assert_eq!(it.next(), Some(&1));
    assert_eq!(it.next(), None);
}

#[test]
fn stack_long_lifo_order() {
    let mut s = LockFreeStack::new();
    for i in 0..100 {
        s.push(i);
    }
    for i in (0..100).rev() {
        assert_eq!(s.try_pop(), Some(i));
    }
    assert_eq!(s.try_pop(), None);
}

#[test]
fn stack_slot_reuse_keeps_order() {
    // pops recycle arena slots; later pushes must still deliver LIFO
    let mut s = LockFreeStack::new();
    s.push(1);
    s.push(2);
    assert_eq!(s.try_pop(), Some(2));
    s.push(3);
    s.push(4);
    assert_eq!(s.try_pop(), Some(4));
    assert_eq!(s.try_pop(), Some(3));
    assert_eq!(s.try_pop(), Some(1));
    assert_eq!(s.try_pop(), None);
}
