//! The queue of message slots that stands behind each mailbox, from the
//! `concurrent-queue` crate.
use concurrent_queue::ConcurrentQueue;
use vstd::prelude::*;

verus! {

/// The concurrent queue of the `concurrent-queue` crate, taken as an opaque
/// value.
#[verifier::external_type_specification]
#[verifier::external_body]
#[verifier::reject_recursive_types(T)]
pub struct ExConcurrentQueue<T>(concurrent_queue::ConcurrentQueue<T>);

/// The items waiting in the queue, the oldest first.
pub uninterp spec fn queue_items(queue: ConcurrentQueue<usize>) -> Seq<usize>;

/// The most items that the queue can hold at a time; `None` for no limit.
pub uninterp spec fn queue_limit(queue: ConcurrentQueue<usize>) -> Option<usize>;

/// Whether the queue has been closed to further items.
pub uninterp spec fn queue_closed(queue: ConcurrentQueue<usize>) -> bool;

/// Calls `ConcurrentQueue::unbounded`. The new queue holds nothing, has no
/// limit and is open.
#[verifier::external_body]
pub(crate) fn queue_unbounded() -> (queue: ConcurrentQueue<usize>)
    ensures
        queue_items(queue) == Seq::<usize>::empty(),
        queue_limit(queue) is None,
        !queue_closed(queue),
{
    ConcurrentQueue::unbounded()
}

/// Calls `ConcurrentQueue::push` and reports whether it returned `Ok`. An open
/// queue with room takes the item behind all the others; a closed or a full one
/// stays as it was. The caller has the queue to itself, so nothing else is
/// pushed or popped meanwhile.
#[verifier::external_body]
pub(crate) fn queue_push(queue: &mut ConcurrentQueue<usize>, item: usize) -> (pushed: bool)
    ensures
        pushed == (!queue_closed(*old(queue)) && match queue_limit(*old(queue)) {
            Some(limit) => queue_items(*old(queue)).len() < limit,
            None => true,
        }),
        queue_items(*final(queue)) == if pushed {
            queue_items(*old(queue)).push(item)
        } else {
            queue_items(*old(queue))
        },
        queue_limit(*final(queue)) == queue_limit(*old(queue)),
        queue_closed(*final(queue)) == queue_closed(*old(queue)),
{
    queue.push(item).is_ok()
}

/// Calls `ConcurrentQueue::pop`. The oldest item comes out, whether the queue is
/// open or closed; there is none exactly if the queue is empty. The caller has
/// the queue to itself, so nothing else is pushed or popped meanwhile.
#[verifier::external_body]
pub(crate) fn queue_pop(queue: &mut ConcurrentQueue<usize>) -> (item: Option<usize>)
    ensures
        item == if queue_items(*old(queue)).len() == 0 {
            None
        } else {
            Some(queue_items(*old(queue))[0])
        },
        queue_items(*final(queue)) == if queue_items(*old(queue)).len() == 0 {
            queue_items(*old(queue))
        } else {
            queue_items(*old(queue)).drop_first()
        },
        queue_limit(*final(queue)) == queue_limit(*old(queue)),
        queue_closed(*final(queue)) == queue_closed(*old(queue)),
{
    queue.pop().ok()
}

} // verus!
