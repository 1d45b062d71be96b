use collections_more::linked_queue::SelkirkLinkedQueue;
use collections_more::trace::run_ops;
use collections_more::trace::QueueOp;

#[test]
fn empty_queue_signals_empty() {
    let mut q: SelkirkLinkedQueue<i64> = SelkirkLinkedQueue::new();
    assert_eq!(Err(()), q.dequeue());
    assert_eq!(0, q.approximate_size());
    assert_eq!(None, q.last());
    let mut it = q.iterate();
    assert_eq!(None, q.iter_next(&mut it));
    q.iter_finish(it);
}

#[test]
fn fifo_scenario() {
    // enqueue 1, 2, 3 from one producer, then drain
    let mut q: SelkirkLinkedQueue<i64> = SelkirkLinkedQueue::new();
    q.enqueue(1);
    q.enqueue(2);
    q.enqueue(3);
    assert_eq!(Ok(1), q.dequeue());
    assert_eq!(Ok(2), q.dequeue());
    assert_eq!(1, q.approximate_size());
    assert_eq!(Ok(3), q.dequeue());
    assert_eq!(Err(()), q.dequeue());
}

#[test]
fn enqueue_some() {
    // two producers' batches, 1..1000 and 1000..2000, interleaved
    let mut q: SelkirkLinkedQueue<i64> = SelkirkLinkedQueue::new();
    assert_eq!(None, q.last());
    for i in 0..999 {
        q.enqueue(1 + i);
        q.enqueue(1000 + i);
    }
    q.enqueue(1999);
    assert_eq!(Some(1999), q.last());
}

#[test]
fn two_producer_batches_all_present_exactly_once() {
    // two disjoint ranges of 1000 integers each, interleaved; every
    // value must be present exactly once afterward
    let mut q: SelkirkLinkedQueue<u32> = SelkirkLinkedQueue::new();
    for i in 0..1000u32 {
        q.enqueue(i);
        q.enqueue(2000 + i);
    }
    assert_eq!(2000, q.approximate_size());
    let mut seen = vec![0u32; 4000];
    let mut it = q.iterate();
    let mut yielded = 0;
    while let Some(x) = q.iter_next(&mut it) {
        seen[x as usize] += 1;
        yielded += 1;
    }
    q.iter_finish(it);
    assert_eq!(2000, yielded);
    for i in 0..1000 {
        assert_eq!(1, seen[i]);
        assert_eq!(1, seen[2000 + i]);
    }
    // each producer's batch keeps its own order in the snapshot
    let snap = q.snapshot();
    let first: Vec<u32> = snap.iter().copied().filter(|x| *x < 1000).collect();
    let second: Vec<u32> = snap.iter().copied().filter(|x| *x >= 2000).collect();
    assert_eq!((0..1000).collect::<Vec<u32>>(), first);
    assert_eq!((2000..3000).collect::<Vec<u32>>(), second);
}

#[test]
fn offer_rejects_absent_elements() {
    // an absent element is a caller error, not a queue state
    let mut q: SelkirkLinkedQueue<i64> = SelkirkLinkedQueue::new();
    assert_eq!(Err(()), q.offer(None));
    assert_eq!(0, q.approximate_size());
    assert_eq!(Ok(()), q.offer(Some(42)));
    assert_eq!(1, q.approximate_size());
    assert_eq!(Ok(42), q.dequeue());
}

#[test]
fn add_is_enqueue() {
    let mut q: SelkirkLinkedQueue<i64> = SelkirkLinkedQueue::new();
    q.add(7);
    q.add(8);
    assert_eq!(2, q.approximate_size());
    assert_eq!(Ok(7), q.dequeue());
    assert_eq!(Ok(8), q.dequeue());
}

#[test]
fn weak_iterator_sees_each_element_once() {
    // an iterator created early observes elements enqueued later, and
    // a concurrent-style dequeue of an already-yielded element does
    // not disturb it: every element is yielded at most once
    let mut q: SelkirkLinkedQueue<i64> = SelkirkLinkedQueue::new();
    q.enqueue(1);
    q.enqueue(2);
    let mut it = q.iterate();
    q.enqueue(3);
    assert_eq!(Some(1), q.iter_next(&mut it));
    assert_eq!(Ok(1), q.dequeue());
    assert_eq!(Some(2), q.iter_next(&mut it));
    assert_eq!(Some(3), q.iter_next(&mut it));
    assert_eq!(None, q.iter_next(&mut it));
    q.iter_finish(it);
    assert_eq!(2, q.approximate_size());
}

#[test]
fn iterator_created_fresh_sees_nothing_then_restarts() {
    // iteration is restartable: a fresh iterator reflects the state
    // at or after its creation
    let mut q: SelkirkLinkedQueue<i64> = SelkirkLinkedQueue::new();
    let mut it1 = q.iterate();
    assert_eq!(None, q.iter_next(&mut it1));
    q.iter_finish(it1);
    q.enqueue(5);
    let mut it2 = q.iterate();
    assert_eq!(Some(5), q.iter_next(&mut it2));
    assert_eq!(None, q.iter_next(&mut it2));
    q.iter_finish(it2);
}

#[test]
fn slots_are_reclaimed_and_reused() {
    // drain with no guard outstanding, then refill: the queue keeps
    // working through reclaimed nodes and stays in order
    let mut q: SelkirkLinkedQueue<i64> = SelkirkLinkedQueue::new();
    for round in 0..3 {
        for i in 0..10 {
            q.enqueue(round * 10 + i);
        }
        assert_eq!(10, q.approximate_size());
        for i in 0..10 {
            assert_eq!(Ok(round * 10 + i), q.dequeue());
        }
        assert_eq!(Err(()), q.dequeue());
    }
}

#[test]
fn tail_stays_usable_after_many_operations() {
    // the lagging tail cursor must keep the end reachable: `last`
    // walks from it after every kind of operation
    let mut q: SelkirkLinkedQueue<i64> = SelkirkLinkedQueue::new();
    for i in 0..50 {
        q.enqueue(i);
        assert_eq!(Some(i), q.last());
    }
    for _ in 0..49 {
        q.dequeue().unwrap();
        assert_eq!(Some(49), q.last());
    }
}

#[test]
fn run_ops_replays_a_trace() {
    let mut q: SelkirkLinkedQueue<i64> = SelkirkLinkedQueue::new();
    let ops = vec![
        QueueOp::Enqueue(1),
        QueueOp::Enqueue(2),
        QueueOp::Dequeue,
        QueueOp::Enqueue(3),
        QueueOp::Dequeue,
        QueueOp::Dequeue,
        QueueOp::Dequeue,
    ];
    let outs = run_ops(&mut q, &ops);
    assert_eq!(vec![1, 2, 3], outs);
    assert_eq!(0, q.approximate_size());
}

#[test]
fn dequeue_hands_back_the_enqueued_payload() {
    // the payload written before an enqueue is read back unchanged by
    // the dequeue that returns it
    let mut q: SelkirkLinkedQueue<(u8, u64)> = SelkirkLinkedQueue::new();
    q.enqueue((7, 1234567890123456789));
    assert_eq!(Ok((7, 1234567890123456789)), q.dequeue());
}
