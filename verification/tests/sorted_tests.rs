use priority_queue::Sorted;

#[test]
fn test_pop() {
    // The arena state [1 -> 2 -> 3] with an exhausted free list, built by
    // filling a capacity-3 list in order.
    let mut sorted = Sorted::new(3);
    sorted.insert(1).unwrap();
    sorted.insert(2).unwrap();
    sorted.insert(3).unwrap();
    assert_eq!(sorted.head_ptr(), Some(0));
    assert_eq!(sorted.free_ptr(), None);

    assert_eq!(sorted.pop(), Some(1));
    assert_eq!(sorted.pop(), Some(2));
    assert_eq!(sorted.pop(), Some(3));
    assert_eq!(sorted.head_ptr(), None);
    assert_eq!(sorted.free_ptr(), Some(2));
}

#[test]
fn test_insert_first() {
    let mut sorted = Sorted::new(3);
    assert_eq!(sorted.head_ptr(), None);
    assert_eq!(sorted.free_ptr(), Some(0));
    assert_eq!(sorted.peek(), None);

    assert_eq!(sorted.insert(3), Ok(()));
    assert_eq!(sorted.peek(), Some(3));
    assert_eq!(sorted.head_ptr(), Some(0));
    assert_eq!(sorted.free_ptr(), Some(1));

    assert_eq!(sorted.insert(2), Ok(()));
    assert_eq!(sorted.insert(1), Ok(()));
    assert_eq!(sorted.insert(0), Err(()));

    assert_eq!(sorted.pop(), Some(1));
    assert_eq!(sorted.pop(), Some(2));
    assert_eq!(sorted.pop(), Some(3));
    assert_eq!(sorted.head_ptr(), None);
    assert_eq!(sorted.free_ptr(), Some(0));
    assert_eq!(sorted.pop(), None);
}

#[test]
fn test_insert_middle() {
    let mut sorted = Sorted::new(3);

    assert_eq!(sorted.insert(2), Ok(()));
    assert_eq!(sorted.peek(), Some(2));
    assert_eq!(sorted.head_ptr(), Some(0));
    assert_eq!(sorted.free_ptr(), Some(1));

    assert_eq!(sorted.insert(4), Ok(()));
    assert_eq!(sorted.peek(), Some(2));

    assert_eq!(sorted.insert(3), Ok(()));
    assert_eq!(sorted.pop(), Some(2));

    assert_eq!(sorted.pop(), Some(3));

    assert_eq!(sorted.pop(), Some(4));
}

#[test]
fn sorted_duplicates_keep_insertion_stability() {
    let mut sorted = Sorted::new(5);
    sorted.insert(5).unwrap();
    sorted.insert(3).unwrap();
    sorted.insert(5).unwrap();
    sorted.insert(4).unwrap();
    sorted.insert(3).unwrap();
    assert_eq!(sorted.insert(1), Err(()));
    assert_eq!(sorted.pop(), Some(3));
    assert_eq!(sorted.pop(), Some(3));
    assert_eq!(sorted.pop(), Some(4));
    assert_eq!(sorted.pop(), Some(5));
    assert_eq!(sorted.pop(), Some(5));
    assert_eq!(sorted.pop(), None);
}

#[test]
fn sorted_drain_and_refill() {
    let mut sorted = Sorted::new(2);
    sorted.insert(9).unwrap();
    sorted.insert(8).unwrap();
    assert_eq!(sorted.pop(), Some(8));
    assert_eq!(sorted.pop(), Some(9));
    assert_eq!(sorted.pop(), None);
    assert_eq!(sorted.insert(7), Ok(()));
    assert_eq!(sorted.insert(6), Ok(()));
    assert_eq!(sorted.peek(), Some(6));
    assert_eq!(sorted.pop(), Some(6));
    assert_eq!(sorted.pop(), Some(7));
}
