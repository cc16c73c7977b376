use vstd::prelude::*;

verus! {

broadcast use vstd::seq_lib::group_to_multiset_ensures;

/// Queue contents, front first, after enqueueing `v`.
pub open spec fn enqueued<T>(s: Seq<T>, v: T) -> Seq<T> {
    s.push(v)
}

/// What a dequeue hands back from contents `s`: the front value, if any.
pub open spec fn dequeued<T>(s: Seq<T>) -> Option<T> {
    if s.len() == 0 {
        None
    } else {
        Some(s[0])
    }
}

/// Queue contents left by a dequeue.
pub open spec fn after_dequeue<T>(s: Seq<T>) -> Seq<T> {
    if s.len() == 0 {
        s
    } else {
        s.drop_first()
    }
}

/// Stack contents, bottom first, after pushing `v`.
pub open spec fn pushed<T>(s: Seq<T>, v: T) -> Seq<T> {
    s.push(v)
}

/// What a pop hands back from contents `s`: the top value, if any.
pub open spec fn popped<T>(s: Seq<T>) -> Option<T> {
    if s.len() == 0 {
        None
    } else {
        Some(s.last())
    }
}

/// Stack contents left by a pop.
pub open spec fn after_pop<T>(s: Seq<T>) -> Seq<T> {
    if s.len() == 0 {
        s
    } else {
        s.drop_last()
    }
}

/// One operation on a queue or a stack: add a value, or take one.
pub enum Op<T> {
    Put(T),
    Take,
}

/// The values added by `ops`, in order.
pub open spec fn put_values<T>(ops: Seq<Op<T>>) -> Seq<T>
    decreases ops.len(),
{
    if ops.len() == 0 {
        Seq::empty()
    } else {
        let rest = put_values(ops.drop_last());
        match ops.last() {
            Op::Put(v) => rest.push(v),
            Op::Take => rest,
        }
    }
}

/// Contents and values taken, in order, after `ops` run on an empty queue.
pub open spec fn run_queue<T>(ops: Seq<Op<T>>) -> (Seq<T>, Seq<T>)
    decreases ops.len(),
{
    if ops.len() == 0 {
        (Seq::empty(), Seq::empty())
    } else {
        let (c, out) = run_queue(ops.drop_last());
        match ops.last() {
            Op::Put(v) => (enqueued(c, v), out),
            Op::Take => (
                after_dequeue(c),
                match dequeued(c) {
                    Some(v) => out.push(v),
                    None => out,
                },
            ),
        }
    }
}

/// Contents and values taken, in order, after `ops` run on an empty stack.
pub open spec fn run_stack<T>(ops: Seq<Op<T>>) -> (Seq<T>, Seq<T>)
    decreases ops.len(),
{
    if ops.len() == 0 {
        (Seq::empty(), Seq::empty())
    } else {
        let (c, out) = run_stack(ops.drop_last());
        match ops.last() {
            Op::Put(v) => (pushed(c, v), out),
            Op::Take => (
                after_pop(c),
                match popped(c) {
                    Some(v) => out.push(v),
                    None => out,
                },
            ),
        }
    }
}

/// Queues are first in, first out, and lose or invent nothing: the values
/// dequeued, followed by those still queued, are exactly the values enqueued,
/// in enqueue order. In particular the values of any one producer come out in
/// the order it put them in.
pub proof fn law_queue_fifo<T>(ops: Seq<Op<T>>)
    ensures
        run_queue(ops).1 + run_queue(ops).0 == put_values(ops),
    decreases ops.len(),
{
    if ops.len() > 0 {
        law_queue_fifo(ops.drop_last());
        let (c, out) = run_queue(ops.drop_last());
        match ops.last() {
            Op::Put(v) => {
                assert(out + c.push(v) =~= (out + c).push(v));
            },
            Op::Take => {
                if c.len() > 0 {
                    assert(out.push(c[0]) + c.drop_first() =~= out + c);
                }
            },
        }
    }
}

/// Stacks lose or invent nothing: the values popped together with those
/// still stacked are, as a multiset, the values pushed.
pub proof fn law_stack_conservation<T>(ops: Seq<Op<T>>)
    ensures
        run_stack(ops).1.to_multiset().add(run_stack(ops).0.to_multiset()) == put_values(ops).to_multiset(),
    decreases ops.len(),
{
    if ops.len() > 0 {
        law_stack_conservation(ops.drop_last());
        let (c, out) = run_stack(ops.drop_last());
        match ops.last() {
            Op::Put(v) => {
                assert(out.to_multiset().add(c.push(v).to_multiset()) =~= out.to_multiset().add(c.to_multiset()).insert(v));
            },
            Op::Take => {
                if c.len() > 0 {
                    let v = c.last();
                    assert(c.drop_last().push(v) == c);
                    assert(out.push(v).to_multiset().add(c.drop_last().to_multiset()) =~= out.to_multiset().add(c.to_multiset()));
                }
            },
        }
    }
}

/// Stacks are last in, first out: a pop hands back the value pushed most
/// recently among those not yet popped, and leaves the stack as it was before
/// that push.
pub proof fn law_stack_lifo<T>(s: Seq<T>, v: T)
    ensures
        popped(pushed(s, v)) == Some(v),
        after_pop(pushed(s, v)) == s,
{
    assert(s.push(v).drop_last() == s);
}

/// On an empty queue, an enqueue followed by a dequeue hands the value back
/// and leaves the queue empty.
pub proof fn law_queue_round_trip<T>(v: T)
    ensures
        dequeued(enqueued(Seq::<T>::empty(), v)) == Some(v),
        after_dequeue(enqueued(Seq::<T>::empty(), v)) == Seq::<T>::empty(),
{
    assert(Seq::<T>::empty().push(v).drop_first() =~= Seq::<T>::empty());
}

} // verus!
