use priority_queue::{Error, PriorityQueue};

fn assert_next(pq: &PriorityQueue, idx: usize, next: Option<usize>) {
    assert_eq!(pq.next_at(idx), next);
}

fn assert_tail(pq: &PriorityQueue, idx: usize) {
    assert_eq!(pq.tail_ptr(), Some(idx));
    assert_next(pq, idx, None);
}

#[test]
fn new() {
    let pq = PriorityQueue::new(5);
    assert_eq!(pq.head_ptr(), None);
    assert_eq!(pq.free_ptr(), Some(0));
    assert_eq!(pq.min(), None);
}

#[test]
fn cached_min_remains_in_sync() {
    let mut pq = PriorityQueue::new(5);
    assert_eq!(pq.min(), None);

    // Insert a bunch of data...
    pq.insert(2).unwrap();
    assert_eq!(pq.min(), Some(2));

    pq.insert(1).unwrap();
    // Did the global min get updated?
    assert_eq!(pq.min(), Some(1));

    pq.insert(3).unwrap();
    pq.insert(4).unwrap();

    // Is the global min still 1?
    assert_eq!(pq.min(), Some(1));

    pq.insert(0).unwrap();
    // Global min should now reflect new insert
    assert_eq!(pq.min(), Some(0));

    // List is full
    assert!(pq.insert(2).is_err());

    // Now let's pop it
    assert_eq!(pq.pop(), Some(0));
    // New min should be 1 again
    assert_eq!(pq.min(), Some(1));

    assert_eq!(pq.pop(), Some(1));
    assert_eq!(pq.min(), Some(2));

    assert_eq!(pq.pop(), Some(2));
    assert_eq!(pq.min(), Some(3));

    assert_eq!(pq.pop(), Some(3));
    assert_eq!(pq.min(), Some(4));

    assert_eq!(pq.pop(), Some(4));
    assert!(pq.min().is_none());
    assert!(pq.pop().is_none());
}

#[test]
fn pop_length_one_list() {
    let mut pq = PriorityQueue::new(5);

    pq.insert(100).unwrap();
    assert_eq!(pq.head_ptr(), Some(0));
    assert_eq!(pq.tail_ptr(), Some(0));
    assert_eq!(pq.min_ptr(), Some(0));
    assert_eq!(pq.free_ptr(), Some(1));

    let min = pq.min();
    assert_eq!(min, Some(100));

    let popped = pq.pop();
    assert_eq!(popped, Some(100));
    assert_eq!(pq.head_ptr(), None);
    assert_eq!(pq.tail_ptr(), None);
    assert_eq!(pq.min_ptr(), None);
    assert_eq!(pq.free_ptr(), Some(0));
}

#[test]
fn pop_length_two_list_ordered() {
    let mut pq = PriorityQueue::new(5);

    pq.insert(100).unwrap();
    pq.insert(200).unwrap();

    assert_eq!(pq.head_ptr(), Some(0));
    assert_eq!(pq.tail_ptr(), Some(1));
    assert_eq!(pq.min_ptr(), Some(0));
    assert_eq!(pq.free_ptr(), Some(2));

    let min = pq.min();
    assert_eq!(min, Some(100));

    let popped = pq.pop();
    assert_eq!(popped, Some(100));

    let min = pq.min();
    assert_eq!(min, Some(200));

    assert_eq!(pq.head_ptr(), Some(1));
    assert_eq!(pq.min_ptr(), Some(1));
    assert_tail(&pq, 1);
    // Verify edges of free list
    assert_eq!(pq.free_ptr(), Some(0));
    assert_next(&pq, 0, Some(2));
    assert_next(&pq, 4, None);
}

#[test]
fn pop_length_two_list_reverse_ordered() {
    let mut pq = PriorityQueue::new(5);

    pq.insert(200).unwrap();
    pq.insert(100).unwrap();

    assert_eq!(pq.head_ptr(), Some(0));
    assert_eq!(pq.tail_ptr(), Some(1));
    assert_eq!(pq.min_ptr(), Some(1));
    assert_eq!(pq.free_ptr(), Some(2));

    let min = pq.min();
    assert_eq!(min, Some(100));

    let popped = pq.pop();
    assert_eq!(popped, Some(100));

    let min = pq.min();
    assert_eq!(min, Some(200));

    assert_eq!(pq.head_ptr(), Some(0));
    assert_eq!(pq.min_ptr(), Some(0));
    assert_tail(&pq, 0);
    // Verify edges of free list
    assert_eq!(pq.free_ptr(), Some(1));
    assert_next(&pq, 1, Some(2));
    assert_next(&pq, 4, None);
}

#[test]
fn pop_end() {
    let mut pq = PriorityQueue::new(5);

    // Arrange test
    pq.insert(2).unwrap();
    assert_eq!(pq.min(), Some(2));

    pq.insert(1).unwrap();
    // Did the global min get updated?
    assert_eq!(pq.min(), Some(1));

    pq.insert(3).unwrap();

    pq.insert(4).unwrap();
    // Is the global min still 1?
    assert_eq!(pq.min(), Some(1));

    pq.insert(0).unwrap();
    // Global min should now reflect new insert
    assert_eq!(pq.min(), Some(0));

    // List is full
    assert!(pq.insert(2).is_err());

    // Now let's pop it
    assert_eq!(pq.pop(), Some(0));
    assert_eq!(pq.head_ptr(), Some(0));
    assert_eq!(pq.min_ptr(), Some(1));
    assert_tail(&pq, 3);
    // Verify edges of free list
    assert_eq!(pq.free_ptr(), Some(4));
    assert_next(&pq, 4, None);

    // Check other pops for good measure, without checking the internal
    // state. More popping tests await
    assert_eq!(pq.pop(), Some(1));
    assert_eq!(pq.pop(), Some(2));
}

#[test]
fn duplicate_values() {
    let mut pq = PriorityQueue::new(5);

    pq.insert(100).unwrap();
    pq.insert(200).unwrap();
    pq.insert(100).unwrap();

    let min = pq.min();
    assert_eq!(min, Some(100));

    let popped = pq.pop();
    assert_eq!(popped, Some(100));
    assert_eq!(pq.min(), Some(100));

    let popped = pq.pop();
    assert_eq!(popped, Some(100));
    assert_eq!(pq.min(), Some(200));

    let popped = pq.pop();
    assert_eq!(popped, Some(200));
    assert!(pq.min().is_none());
    assert!(pq.pop().is_none());
}

#[test]
fn pop_middle() {
    let mut pq = PriorityQueue::new(7);

    // Arrange test
    pq.insert(1).unwrap();
    assert_eq!(pq.min(), Some(1));

    pq.insert(2).unwrap();
    assert_eq!(pq.min(), Some(1));

    pq.insert(0).unwrap();
    assert_eq!(pq.min(), Some(0));

    pq.insert(4).unwrap();
    // Is the global min still 1?
    assert_eq!(pq.min(), Some(0));

    pq.insert(3).unwrap();
    // Is the global min still 1?
    assert_eq!(pq.min(), Some(0));

    pq.insert(-1).unwrap();
    // Global min should now reflect new insert
    assert_eq!(pq.min(), Some(-1));

    pq.insert(0).unwrap();
    // Global min should now reflect new insert
    assert_eq!(pq.min(), Some(-1));

    // ------

    // Now let's pop it
    let popped = pq.pop();
    assert_eq!(popped, Some(-1));
    assert_eq!(pq.min(), Some(0));

    assert_eq!(pq.head_ptr(), Some(0));
    assert_eq!(pq.min_ptr(), Some(2));
    assert_tail(&pq, 6);
    // Verify edges of free list
    assert_eq!(pq.free_ptr(), Some(5));
    assert_next(&pq, 5, None);

    // ------

    // Check other pops for good measure
    let popped = pq.pop();
    assert_eq!(popped, Some(0));
    assert_eq!(pq.min(), Some(0));

    assert_eq!(pq.head_ptr(), Some(0));
    assert_eq!(pq.min_ptr(), Some(2));
    assert_tail(&pq, 4);
    // Verify edges of free list
    assert_eq!(pq.free_ptr(), Some(6));
    assert_next(&pq, 5, None);

    // ------

    let popped = pq.pop();
    assert_eq!(popped, Some(0));
    assert_eq!(pq.min(), Some(1));

    assert_eq!(pq.head_ptr(), Some(0));
    assert_eq!(pq.min_ptr(), Some(0));
    assert_tail(&pq, 4);
    // Verify edges of free list
    assert_eq!(pq.free_ptr(), Some(2));
    assert_next(&pq, 5, None);

    // ------

    // This here pops the head
    let popped = pq.pop();
    assert_eq!(popped, Some(1));
    assert_eq!(pq.min(), Some(2));

    assert_eq!(pq.head_ptr(), Some(1));
    assert_eq!(pq.min_ptr(), Some(1));
    assert_tail(&pq, 4);
    // Verify edges of free list
    assert_eq!(pq.free_ptr(), Some(0));
    assert_next(&pq, 5, None);
}

#[test]
fn capacity_exhaustion_reports_queue_full() {
    let mut pq = PriorityQueue::new(3);
    assert_eq!(pq.insert(7), Ok(()));
    assert_eq!(pq.insert(5), Ok(()));
    assert_eq!(pq.insert(9), Ok(()));
    // The (N+1)-th insert is refused and observable state is unchanged
    assert_eq!(pq.insert(1), Err(Error::QueueFull));
    assert_eq!(pq.min(), Some(5));
    assert_eq!(pq.insert(1), Err(Error::QueueFull));
    assert_eq!(pq.pop(), Some(5));
    assert_eq!(pq.pop(), Some(7));
    assert_eq!(pq.pop(), Some(9));
}

#[test]
fn emptying_resets_all_pointers() {
    let mut pq = PriorityQueue::new(4);
    pq.insert(3).unwrap();
    pq.insert(1).unwrap();
    assert_eq!(pq.pop(), Some(1));
    assert_eq!(pq.pop(), Some(3));
    // Fully drained: every structural pointer is empty
    assert_eq!(pq.head_ptr(), None);
    assert_eq!(pq.tail_ptr(), None);
    assert_eq!(pq.min_ptr(), None);
    // A further pop returns None without mutating state
    assert_eq!(pq.pop(), None);
    assert_eq!(pq.head_ptr(), None);
    assert_eq!(pq.tail_ptr(), None);
    assert_eq!(pq.min_ptr(), None);
    assert_eq!(pq.min(), None);
}

#[test]
fn reinsertion_after_drain() {
    let mut pq = PriorityQueue::new(3);
    pq.insert(10).unwrap();
    pq.insert(20).unwrap();
    pq.insert(30).unwrap();
    assert_eq!(pq.pop(), Some(10));
    assert_eq!(pq.pop(), Some(20));
    assert_eq!(pq.pop(), Some(30));
    // The free list was rethreaded, not exhausted: a full refill succeeds
    assert_eq!(pq.insert(6), Ok(()));
    assert_eq!(pq.insert(4), Ok(()));
    assert_eq!(pq.insert(8), Ok(()));
    assert_eq!(pq.min(), Some(4));
    assert_eq!(pq.pop(), Some(4));
    assert_eq!(pq.pop(), Some(6));
    assert_eq!(pq.pop(), Some(8));
    assert_eq!(pq.pop(), None);
}

#[test]
fn distinct_values_pop_ascending() {
    let mut pq = PriorityQueue::new(6);
    for v in [13, -2, 40, 7, 0, 22] {
        pq.insert(v).unwrap();
    }
    let mut previous = None;
    for _ in 0..6 {
        let popped = pq.pop().unwrap();
        if let Some(p) = previous {
            assert!(p < popped);
        }
        previous = Some(popped);
    }
    assert_eq!(pq.pop(), None);
}

#[test]
fn zero_capacity_queue_is_always_full() {
    let mut pq = PriorityQueue::new(0);
    assert_eq!(pq.insert(1), Err(Error::QueueFull));
    assert_eq!(pq.pop(), None);
    assert_eq!(pq.min(), None);
}
