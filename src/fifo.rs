use vstd::prelude::*;
use queues::IsQueue;

verus! {

#[verifier::external_type_specification]
#[verifier::external_body]
#[verifier::reject_recursive_types(T)]
pub struct ExQueue<T: Clone>(queues::Queue<T>);

/// The elements of a queue, oldest first.
pub uninterp spec fn queue_items(q: queues::Queue<usize>) -> Seq<usize>;

/// Relies on `queues::Queue::new`: the new queue holds no element.
#[verifier::external_body]
pub(crate) fn queue_new() -> (r: queues::Queue<usize>)
    ensures
        queue_items(r) == Seq::<usize>::empty(),
{
    queues::Queue::new()
}

/// Relies on `IsQueue::add` of `queues::Queue`: the value goes to the back;
/// this queue has no capacity limit, so the call always succeeds.
#[verifier::external_body]
pub(crate) fn queue_add(q: &mut queues::Queue<usize>, v: usize)
    ensures
        queue_items(*final(q)) == queue_items(*old(q)).push(v),
{
    let _ = q.add(v);
}

/// Relies on `IsQueue::remove` of `queues::Queue`: on a non-empty queue it
/// takes out and returns the oldest element.
#[verifier::external_body]
pub(crate) fn queue_remove(q: &mut queues::Queue<usize>) -> (r: usize)
    requires
        queue_items(*old(q)).len() > 0,
    ensures
        r == queue_items(*old(q))[0],
        queue_items(*final(q)) == queue_items(*old(q)).drop_first(),
{
    match q.remove() {
        Ok(v) => v,
        Err(_) => 0,
    }
}

/// Relies on `IsQueue::size` of `queues::Queue`: the number of elements.
#[verifier::external_body]
pub(crate) fn queue_size(q: &queues::Queue<usize>) -> (r: usize)
    ensures
        r == queue_items(*q).len(),
{
    q.size()
}

} // verus!
