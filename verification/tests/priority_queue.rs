use collections_more::priority_queue::PriorityQueue;

#[test]
fn priority_queue_creates_with_new_factory() {
    let _: PriorityQueue = PriorityQueue::new();
}

#[test]
fn priority_queue_can_create_with_empty_macro() {
    let _: PriorityQueue = PriorityQueue::new();
}

#[test]
fn priority_queue_returns_none_if_empty() {
    let mut pq: PriorityQueue = PriorityQueue::new();
    assert_eq!(None, pq.poll());
    pq.push(4);
    pq.poll();
    assert_eq!(None, pq.poll());
}

#[test]
fn priority_queue_is_empty_with_new_factory() {
    let pq: PriorityQueue = PriorityQueue::new();
    assert!(pq.is_empty());
}

#[test]
fn priority_queue_is_empty_with_macro() {
    let pq: PriorityQueue = PriorityQueue::new();
    assert!(pq.is_empty());
}

#[test]
fn priority_queue_can_insert_with_factory() {
    let mut pq = PriorityQueue::new();
    pq.push(1);
    pq.push(5);
    assert_eq!(2, pq.len());
}

#[test]
fn priority_queue_can_insert_with_macro() {
    let mut pq = PriorityQueue::new();
    pq.push(1);
    pq.push(2);
    pq.push(3);
    assert_eq!(3, pq.len());
}

#[test]
fn priority_queue_can_insert_duplicates() {
    let mut pq = PriorityQueue::new();
    pq.push(1);
    pq.push(1);
    pq.push(1);
    pq.push(1);
    assert_eq!(4, pq.len());
}

#[test]
fn priority_queue_can_be_equated() {
    // the characters 'c', 'd', 'p' as their code points
    let mut pq1 = PriorityQueue::new();
    pq1.push(99);
    pq1.push(100);
    pq1.push(112);
    let mut pq2 = PriorityQueue::new();
    pq2.push(99);
    pq2.push(112);
    pq2.push(100);
    assert_eq!(pq1, pq2);
}

#[test]
fn priority_queue_can_retrieve_largest() {
    let mut pq = PriorityQueue::new();
    pq.push(-4);
    pq.push(5);
    pq.push(-3);
    pq.push(8);
    pq.push(0);
    assert_eq!(&8, pq.peek().unwrap());
}

#[test]
fn priority_queue_can_peek_with_macro() {
    let mut pq1 = PriorityQueue::new();
    pq1.push(1);
    assert_eq!(&1, pq1.peek().unwrap());
    let mut pq2 = PriorityQueue::new();
    pq2.push(-5);
    pq2.push(4);
    pq2.push(3);
    pq2.push(2);
    pq2.push(1);
    assert_eq!(&4, pq2.peek().unwrap());
    // the characters '1' through '8' as their code points
    let mut pq3 = PriorityQueue::new();
    for c in 49..=56 {
        pq3.push(c);
    }
    assert_eq!(&56, pq3.peek().unwrap());
}

#[test]
fn priority_queue_reorders_on_retrival_of_maximum() {
    let mut pq = PriorityQueue::new();
    pq.push(1);
    pq.push(-2);
    pq.push(32);
    pq.push(-4);
    pq.push(5);
    pq.push(6);
    pq.push(-90);
    pq.poll();
    pq.poll();
    pq.poll();
    pq.poll();
    assert_eq!(vec![-2, -4, -90].as_slice(), pq.as_slice());
}

#[test]
fn priority_queue_can_be_iterated_in_order() {
    let mut pq = PriorityQueue::new();
    for x in [1, 6, 2, 8, 4, 3, 2, 10, 7] {
        pq.push(x);
    }
    let mut actual = vec![];
    while let Some(elem) = pq.poll() {
        actual.push(elem);
    }
    let expected = vec![10, 8, 7, 6, 4, 3, 2, 2, 1];
    assert_eq!(expected, actual);
}

#[test]
fn priority_queue_can_be_turned_into_a_slice() {
    let mut pq = PriorityQueue::new();
    for x in [1, 6, 2, 8, 4, 3, 2, 10, 7] {
        pq.push(x);
    }
    let expected = vec![10, 8, 3, 7, 4, 2, 2, 1, 6];
    assert_eq!(expected.as_slice(), pq.as_slice());
}

#[test]
fn priority_queue_works_with_heap_elements() {
    let mut pq = PriorityQueue::new();
    for x in [3, -2, -9, -2, 2, 3, 99, 14, 5] {
        pq.push(x);
    }
    let expected = vec![99, 14, 5, 3, 3, 2, -2, -2, -9];
    let mut actual = Vec::with_capacity(9);
    while let Some(elem) = pq.poll() {
        actual.push(elem);
    }
    assert_eq!(expected, actual);
}

#[test]
fn priority_queue_with_capacity_starts_empty() {
    let mut pq = PriorityQueue::with_capacity(10);
    assert_eq!(0, pq.len());
    for i in 0..10 {
        pq.push(i);
    }
    assert_eq!(10, pq.len());
    pq.push(11);
    assert_eq!(11, pq.len());
}

#[test]
fn priority_queue_poll_returns_maximum_each_time() {
    let mut pq = PriorityQueue::new();
    for x in [4, -55, 9, 0] {
        pq.push(x);
    }
    assert_eq!(4, pq.len());
    assert_eq!(Some(9), pq.poll());
    assert_eq!(3, pq.len());
    let mut sorted = Vec::with_capacity(pq.len());
    while let Some(elem) = pq.poll() {
        sorted.push(elem);
    }
    assert_eq!(vec![4, 0, -55], sorted);
}
