use concurrent_collections::{ConcurrentPool, PoolError};

#[test]
fn pool_new_is_empty() {
    let p: ConcurrentPool<i32> = ConcurrentPool::new();
    assert!(p.is_empty());
    assert_eq!(p.len(), 0);
}

#[test]
fn pool_fifo_scenario() {
    let mut p = ConcurrentPool::new();
    assert!(p.push(1).is_ok());
    assert!(p.push(2).is_ok());
    assert!(p.push(3).is_ok());
    assert_eq!(p.pop(), Ok(1));
    assert_eq!(p.pop(), Ok(2));
    assert_eq!(p.pop(), Ok(3));
    assert_eq!(p.pop(), Err(PoolError::Empty));
}

#[test]
fn pool_pop_on_empty_reports_empty() {
    let mut p: ConcurrentPool<u8> = ConcurrentPool::new();
    assert!(matches!(p.pop(), Err(PoolError::Empty)));
    assert_eq!(p.try_pop(), None);
}

#[test]
fn pool_len_tracks_operations() {
    let mut p = ConcurrentPool::new();
    let _ = p.push(10);
    let _ = p.push(20);
    assert_eq!(p.len(), 2);
    let _ = p.pop();
    assert_eq!(p.len(), 1);
    let _ = p.pop();
    assert_eq!(p.len(), 0);
}

#[test]
fn pool_peek_returns_oldest_and_is_idempotent() {
    let mut p = ConcurrentPool::new();
    assert_eq!(p.peek(), None);
    let _ = p.push(7);
    let _ = p.push(8);
    assert_eq!(p.peek(), Some(&7));
    assert_eq!(p.peek(), Some(&7));
    assert_eq!(p.pop(), Ok(7));
    assert_eq!(p.peek(), Some(&8));
}

#[test]
fn pool_clear_leaves_empty() {
    let mut p = ConcurrentPool::new();
    let _ = p.push(1);
    let _ = p.push(2);
    p.clear();
    assert!(p.is_empty());
    assert_eq!(p.pop(), Err(PoolError::Empty));
}

#[test]
fn pool_push_range_counts_all() {
    let mut p = ConcurrentPool::new();
    let n = p.push_range(vec![1, 2, 3, 4]);
    assert_eq!(n, 4);
    assert_eq!(p.len(), 4);
}

#[test]
fn pool_batch_matches_single_inserts() {
    // insert_range([a, b, c]) followed by three removals yields the same
    // values, in the same order, as three single inserts of a, b, c
    let mut batch = ConcurrentPool::new();
    batch.push_range(vec![1, 2, 3]);
    let mut single = ConcurrentPool::new();
    let _ = single.push(1);
    let _ = single.push(2);
    let _ = single.push(3);
    for _ in 0..3 {
        assert_eq!(batch.pop(), single.pop());
    }
    assert_eq!(batch.pop(), Err(PoolError::Empty));
    assert_eq!(single.pop(), Err(PoolError::Empty));
}

#[test]
fn pool_pop_range_stops_when_exhausted() {
    let mut p = ConcurrentPool::new();
    p.push_range(vec![1, 2, 3]);
    assert_eq!(p.pop_range(2), vec![1, 2]);
    assert_eq!(p.pop_range(5), vec![3]);
    assert_eq!(p.pop_range(5), Vec::<i32>::new());
}

#[test]
fn pool_pop_range_zero_removes_nothing() {
    let mut p = ConcurrentPool::new();
    p.push_range(vec![1, 2]);
    assert_eq!(p.pop_range(0), Vec::<i32>::new());
    assert_eq!(p.len(), 2);
}

#[test]
fn pool_drain_yields_in_order() {
    let mut p = ConcurrentPool::new();
    p.push_range(vec![9, 8, 7]);
    let mut d = p.drain();
    assert!(p.is_empty());
    assert_eq!(d.next(), Some(9));
    assert_eq!(d.next(), Some(8));
    assert_eq!(d.next(), Some(7));
    assert_eq!(d.next(), None);
}

#[test]
fn pool_iter_walks_in_order() {
    let mut p = ConcurrentPool::new();
    p.push_range(vec![5, 6]);
    let mut it = p.iter();
    assert_eq!(it.next(), Some(&5));
    assert_eq!(it.next(), Some(&6));
    assert_eq!(it.next(), None);
}

#[test]
fn pool_slot_reuse_keeps_order() {
    // removals recycle arena slots; later insertions must still deliver FIFO
    let mut p = ConcurrentPool::new();
    p.push_range(vec![1, 2, 3]);
    assert_eq!(p.pop(), Ok(1));
    assert_eq!(p.pop(), Ok(2));
    p.push_range(vec![4, 5, 6]);
    assert_eq!(p.pop(), Ok(3));
    assert_eq!(p.pop(), Ok(4));
    assert_eq!(p.pop(), Ok(5));
    assert_eq!(p.pop(), Ok(6));
    assert!(matches!(p.pop(), Err(PoolError::Empty)));
}
