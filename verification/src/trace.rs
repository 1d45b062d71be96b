//! Traces of queue operations and the laws they obey.
//!
//! A trace is a sequence of `QueueOp` steps applied to a queue state.
//! `run` gives the meaning of a trace over the queue's abstract view;
//! the laws below state, once and for all traces, that the queue loses
//! nothing, duplicates nothing and keeps the enqueue order, and
//! `run_ops` shows that the executable queue follows `run` step by
//! step.

use vstd::prelude::*;
use crate::linked_queue::SelkirkLinkedQueue;

verus! {

/// One step applied to a queue: enqueue the given element, or dequeue.
#[derive(Clone, Copy)]
pub enum QueueOp<T> {
    Enqueue(T),
    Dequeue,
}

/// The elements a trace enqueues, in trace order.
pub open spec fn enqueued_of<T>(ops: Seq<QueueOp<T>>) -> Seq<T>
    decreases ops.len(),
{
    if ops.len() == 0 {
        Seq::empty()
    } else {
        match ops[0] {
            QueueOp::Enqueue(x) => Seq::empty().push(x) + enqueued_of(ops.drop_first()),
            QueueOp::Dequeue => enqueued_of(ops.drop_first()),
        }
    }
}

/// Runs a trace over a queue state: enqueue appends, dequeue removes
/// and outputs the oldest element and does nothing on an empty queue.
/// Returns the final state and the outputs, in output order.
pub open spec fn run<T>(v0: Seq<T>, ops: Seq<QueueOp<T>>) -> (Seq<T>, Seq<T>)
    decreases ops.len(),
{
    if ops.len() == 0 {
        (v0, Seq::empty())
    } else {
        match ops[0] {
            QueueOp::Enqueue(x) => run(v0.push(x), ops.drop_first()),
            QueueOp::Dequeue => {
                if v0.len() == 0 {
                    run(v0, ops.drop_first())
                } else {
                    let rest = run(v0.drop_first(), ops.drop_first());
                    (rest.0, Seq::empty().push(v0[0]) + rest.1)
                }
            },
        }
    }
}

/// No loss, no duplication, first-in-first-out: over any trace, the
/// successful dequeues return exactly the oldest elements — the
/// starting elements followed by the enqueued ones, in order, each
/// position returned at most once — and the elements still held are
/// exactly the rest, in order.
pub proof fn law_fifo_no_loss<T>(v0: Seq<T>, ops: Seq<QueueOp<T>>)
    ensures
        run(v0, ops).1.len() <= (v0 + enqueued_of(ops)).len(),
        run(v0, ops).1 == (v0 + enqueued_of(ops)).take(run(v0, ops).1.len() as int),
        run(v0, ops).0 == (v0 + enqueued_of(ops)).skip(run(v0, ops).1.len() as int),
    decreases ops.len(),
{
    let all = v0 + enqueued_of(ops);
    if ops.len() == 0 {
        assert(run(v0, ops).1 =~= all.take(0));
        assert(run(v0, ops).0 =~= all.skip(0));
    } else {
        let rest_ops = ops.drop_first();
        match ops[0] {
            QueueOp::Enqueue(x) => {
                law_fifo_no_loss(v0.push(x), rest_ops);
                assert(v0.push(x) + enqueued_of(rest_ops) =~= all);
            },
            QueueOp::Dequeue => {
                if v0.len() == 0 {
                    law_fifo_no_loss(v0, rest_ops);
                    assert(v0 + enqueued_of(rest_ops) =~= all);
                } else {
                    law_fifo_no_loss(v0.drop_first(), rest_ops);
                    let all2 = v0.drop_first() + enqueued_of(rest_ops);
                    assert(all2 =~= all.drop_first());
                    let sub = run(v0.drop_first(), rest_ops);
                    let k2 = sub.1.len() as int;
                    let outs = run(v0, ops).1;
                    assert(outs == Seq::empty().push(v0[0]) + sub.1);
                    assert(outs.len() == k2 + 1);
                    assert(outs =~= all.take(k2 + 1)) by {
                        assert forall|i: int| 0 <= i < k2 + 1 implies outs[i] == all.take(
                            k2 + 1,
                        )[i] by {
                            if i == 0 {
                                assert(all[0] == v0[0]);
                            } else {
                                assert(outs[i] == sub.1[i - 1]);
                                assert(sub.1[i - 1] == all2[i - 1]);
                                assert(all2[i - 1] == all[i]);
                            }
                        }
                    }
                    assert(run(v0, ops).0 =~= all.skip(k2 + 1)) by {
                        assert(sub.0 == all2.skip(k2));
                        assert forall|i: int| 0 <= i < sub.0.len() implies sub.0[i] == all.skip(
                            k2 + 1,
                        )[i] by {
                            assert(sub.0[i] == all2[k2 + i]);
                            assert(all2[k2 + i] == all[k2 + 1 + i]);
                        }
                    }
                }
            },
        }
    }
}

/// A queue that nothing is enqueued into stays empty and outputs
/// nothing, however often it is dequeued.
pub proof fn law_empty_start<T>(ops: Seq<QueueOp<T>>)
    requires
        enqueued_of(ops).len() == 0,
    ensures
        run(Seq::<T>::empty(), ops).0.len() == 0,
        run(Seq::<T>::empty(), ops).1.len() == 0,
{
    law_fifo_no_loss(Seq::<T>::empty(), ops);
}

/// First-in-first-out, spelled out on two output positions: the
/// elements returned by any two successful dequeues of a trace stand
/// in the queue's arrival order.
pub proof fn law_fifo_order<T>(v0: Seq<T>, ops: Seq<QueueOp<T>>, i: int, j: int)
    requires
        0 <= i < j < run(v0, ops).1.len(),
    ensures
        run(v0, ops).1[i] == (v0 + enqueued_of(ops))[i],
        run(v0, ops).1[j] == (v0 + enqueued_of(ops))[j],
{
    law_fifo_no_loss(v0, ops);
}

/// Replays a trace against the executable queue: the queue's final
/// elements and the dequeued outputs are exactly what `run` gives.
pub fn run_ops<T: Copy>(q: &mut SelkirkLinkedQueue<T>, ops: &Vec<QueueOp<T>>) -> (outs: Vec<T>)
    requires
        old(q).wf(),
    ensures
        final(q).wf(),
        final(q)@ == run(old(q)@, ops@).0,
        outs@ == run(old(q)@, ops@).1,
{
    let mut outs: Vec<T> = Vec::new();
    let mut i: usize = 0;
    proof {
        assert(ops@.skip(0) =~= ops@);
        assert(Seq::<T>::empty() + run(old(q)@, ops@).1 =~= run(old(q)@, ops@).1);
    }
    while i < ops.len()
        invariant
            q.wf(),
            0 <= i <= ops@.len(),
            run(old(q)@, ops@).0 == run(q@, ops@.skip(i as int)).0,
            run(old(q)@, ops@).1 == outs@ + run(q@, ops@.skip(i as int)).1,
        decreases ops@.len() - i,
    {
        let op = ops[i];
        let ghost pre = q@;
        let ghost rest = ops@.skip(i as int);
        proof {
            assert(rest.len() > 0);
            assert(rest[0] == ops@[i as int]);
            assert(rest.drop_first() =~= ops@.skip(i as int + 1));
        }
        match op {
            QueueOp::Enqueue(x) => {
                q.enqueue(x);
                proof {
                    assert(run(pre, rest) == run(pre.push(x), rest.drop_first()));
                }
            },
            QueueOp::Dequeue => {
                let r = q.dequeue();
                match r {
                    Ok(x) => {
                        let ghost outs0 = outs@;
                        outs.push(x);
                        proof {
                            assert(pre.len() > 0);
                            let sub = run(pre.drop_first(), rest.drop_first());
                            assert(run(pre, rest).0 == sub.0);
                            assert(run(pre, rest).1 == Seq::empty().push(pre[0]) + sub.1);
                            assert(outs0 + run(pre, rest).1 =~= outs@ + sub.1);
                        }
                    },
                    Err(_) => {
                        proof {
                            assert(pre.len() == 0);
                        }
                    },
                }
            },
        }
        i = i + 1;
    }
    proof {
        assert(ops@.skip(ops@.len() as int) =~= Seq::<QueueOp<T>>::empty());
        assert(outs@ + Seq::<T>::empty() =~= outs@);
    }
    outs
}

} // verus!
