//! What holds of any run of queue operations.
//!
//! `apply` is the effect of one operation on the queue's contents, exactly as
//! the contracts of `FAAAQueue::enqueue` and `FAAAQueue::dequeue` state it:
//! an enqueue pushes at the back, a dequeue removes and delivers the front
//! item, or delivers nothing from an empty queue. Under the lock-free
//! protocol each operation takes effect at one instant, so a run of
//! operations from several producers and consumers is one sequence of them.
use vstd::prelude::*;
use vstd::seq_lib::lemma_multiset_commutative;
use vstd::multiset::Multiset;

verus! {

/// One queue operation.
pub enum Op<T> {
    Enqueue(T),
    Dequeue,
}

/// The contents after `op`, and the item it delivered, if any.
pub open spec fn apply<T>(q: Seq<T>, op: Op<T>) -> (Seq<T>, Option<T>) {
    match op {
        Op::Enqueue(v) => (q.push(v), None),
        Op::Dequeue => if q.len() == 0 {
            (q, None)
        } else {
            (q.drop_first(), Some(q[0]))
        },
    }
}

/// The contents after running `ops` from `q`, and the items delivered, in order.
pub open spec fn run<T>(q: Seq<T>, ops: Seq<Op<T>>) -> (Seq<T>, Seq<T>)
    decreases ops.len(),
{
    if ops.len() == 0 {
        (q, Seq::empty())
    } else {
        let (q1, out) = apply(q, ops[0]);
        let (last, delivered) = run(q1, ops.drop_first());
        match out {
            Some(v) => (last, seq![v] + delivered),
            None => (last, delivered),
        }
    }
}

/// The values that `ops` enqueues, in order.
pub open spec fn enqueued<T>(ops: Seq<Op<T>>) -> Seq<T>
    decreases ops.len(),
{
    if ops.len() == 0 {
        Seq::empty()
    } else {
        match ops[0] {
            Op::Enqueue(v) => seq![v] + enqueued(ops.drop_first()),
            Op::Dequeue => enqueued(ops.drop_first()),
        }
    }
}

/// One enqueue of each of `items`, in order.
pub open spec fn enqueue_all<T>(items: Seq<T>) -> Seq<Op<T>> {
    Seq::new(items.len(), |i: int| Op::Enqueue(items[i]))
}

/// `n` dequeues.
pub open spec fn dequeue_n<T>(n: nat) -> Seq<Op<T>> {
    Seq::new(n, |i: int| Op::Dequeue)
}

/// No item is lost or duplicated: what was delivered and what is left
/// together are what was there and what was enqueued, as multisets, for
/// every sequence of operations. When the consumers have drained the queue,
/// the delivered items are exactly the enqueued ones.
pub proof fn law_multiset_conservation<T>(q: Seq<T>, ops: Seq<Op<T>>)
    ensures
        run(q, ops).1.to_multiset().add(run(q, ops).0.to_multiset())
            == q.to_multiset().add(enqueued(ops).to_multiset()),
        q.len() == 0 && run(q, ops).0.len() == 0 ==>
            run(q, ops).1.to_multiset() == enqueued(ops).to_multiset(),
    decreases ops.len(),
{
    broadcast use vstd::multiset::group_multiset_axioms;
    broadcast use vstd::seq_lib::group_to_multiset_ensures;
    let (last, delivered) = run(q, ops);
    if ops.len() == 0 {
        assert(enqueued(ops) == Seq::<T>::empty());
        assert(Seq::<T>::empty().to_multiset() =~= Multiset::<T>::empty());
        assert(delivered.to_multiset().add(last.to_multiset()) =~= q.to_multiset().add(
            enqueued(ops).to_multiset(),
        ));
    } else {
        let rest = ops.drop_first();
        law_multiset_conservation(apply(q, ops[0]).0, rest);
        let (l1, d1) = run(apply(q, ops[0]).0, rest);
        match ops[0] {
            Op::Enqueue(v) => {
                lemma_multiset_commutative(q, seq![v]);
                assert(q.push(v) =~= q + seq![v]);
                lemma_multiset_commutative(seq![v], enqueued(rest));
                assert(delivered.to_multiset().add(last.to_multiset()) =~= q.to_multiset().add(
                    enqueued(ops).to_multiset(),
                ));
            },
            Op::Dequeue => {
                if q.len() > 0 {
                    assert(delivered == seq![q[0]] + d1);
                    assert(last == l1);
                    assert(enqueued(ops) == enqueued(rest));
                    assert(q =~= seq![q[0]] + q.drop_first());
                    lemma_multiset_commutative(seq![q[0]], q.drop_first());
                    lemma_multiset_commutative(seq![q[0]], d1);
                    let m0 = seq![q[0]].to_multiset();
                    assert(apply(q, ops[0]).0 == q.drop_first());
                    assert(d1.to_multiset().add(l1.to_multiset())
                        == q.drop_first().to_multiset().add(enqueued(rest).to_multiset()));
                    assert(delivered.to_multiset() == m0.add(d1.to_multiset()));
                    assert(q.to_multiset() == m0.add(q.drop_first().to_multiset()));
                    assert(m0.add(d1.to_multiset()).add(l1.to_multiset())
                        =~= m0.add(d1.to_multiset().add(l1.to_multiset())));
                    assert(m0.add(q.drop_first().to_multiset()).add(enqueued(rest).to_multiset())
                        =~= m0.add(q.drop_first().to_multiset().add(enqueued(rest).to_multiset())));
                } else {
                    assert(delivered == d1);
                    assert(last == l1);
                    assert(enqueued(ops) == enqueued(rest));
                }
                assert(delivered.to_multiset().add(last.to_multiset()) =~= q.to_multiset().add(
                    enqueued(ops).to_multiset(),
                ));
            },
        }
    }
    if q.len() == 0 && last.len() == 0 {
        assert(q =~= Seq::<T>::empty());
        assert(last =~= Seq::<T>::empty());
        assert(q.to_multiset() =~= Multiset::<T>::empty());
        assert(last.to_multiset() =~= Multiset::<T>::empty());
        assert(delivered.to_multiset() =~= enqueued(ops).to_multiset());
    }
}

/// Enqueueing `items` appends them to the contents before the rest runs.
pub proof fn lemma_run_enqueue_all<T>(q: Seq<T>, items: Seq<T>, rest: Seq<Op<T>>)
    ensures
        run(q, enqueue_all(items) + rest) == run(q + items, rest),
    decreases items.len(),
{
    if items.len() == 0 {
        assert(enqueue_all(items) + rest =~= rest);
        assert(q + items =~= q);
    } else {
        let ops = enqueue_all(items) + rest;
        assert(ops[0] == Op::Enqueue(items[0]));
        assert(ops.drop_first() =~= enqueue_all(items.drop_first()) + rest);
        lemma_run_enqueue_all(q.push(items[0]), items.drop_first(), rest);
        assert(q.push(items[0]) + items.drop_first() =~= q + items);
    }
}

/// As many dequeues as there are items deliver all of them, front first,
/// and leave the queue empty.
pub proof fn lemma_run_dequeue_all<T>(q: Seq<T>)
    ensures
        run(q, dequeue_n(q.len())) == (Seq::<T>::empty(), q),
    decreases q.len(),
{
    let ops = dequeue_n::<T>(q.len());
    if q.len() == 0 {
        assert(q =~= Seq::<T>::empty());
    } else {
        assert(ops[0] == Op::<T>::Dequeue);
        assert(ops.drop_first() =~= dequeue_n::<T>(q.drop_first().len()));
        lemma_run_dequeue_all(q.drop_first());
        assert(seq![q[0]] + q.drop_first() =~= q);
    }
}

/// A single producer that enqueues `items` in order, followed by a single
/// consumer that dequeues as many times, receives exactly `items`, in the
/// same order, and leaves the queue empty.
pub proof fn law_sequential_order<T>(items: Seq<T>)
    ensures
        run(Seq::<T>::empty(), enqueue_all(items) + dequeue_n(items.len())) == (Seq::<T>::empty(), items),
{
    lemma_run_enqueue_all(Seq::<T>::empty(), items, dequeue_n(items.len()));
    assert(Seq::<T>::empty() + items =~= items);
    lemma_run_dequeue_all(items);
}

} // verus!
