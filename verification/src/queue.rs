//! Queues of work that other processors add to.
use crossbeam_queue::SegQueue;
use vstd::prelude::*;

verus! {

/// `crossbeam_queue::SegQueue`, an unbounded queue.
#[verifier::external_type_specification]
#[verifier::external_body]
#[verifier::reject_recursive_types(T)]
pub struct ExSegQueue<T>(SegQueue<T>);

/// The numbers in a queue from the head to the tail.
pub uninterp spec fn queued(queue: SegQueue<u64>) -> Seq<u64>;

/// `crossbeam_queue::SegQueue::new`: creates an empty queue.
#[verifier::external_body]
pub(crate) fn new_queue() -> (res: SegQueue<u64>)
    ensures
        queued(res) == Seq::<u64>::empty(),
{
    SegQueue::new()
}

/// `crossbeam_queue::SegQueue::push`: adds a number at the tail.
#[verifier::external_body]
pub(crate) fn push(queue: &mut SegQueue<u64>, value: u64)
    ensures
        queued(*final(queue)) == queued(*old(queue)).push(value),
{
    queue.push(value)
}

/// `crossbeam_queue::SegQueue::pop`: removes the number at the head if there is one.
#[verifier::external_body]
pub(crate) fn pop(queue: &mut SegQueue<u64>) -> (res: Option<u64>)
    ensures
        queued(*old(queue)).len() == 0 ==> res is None && queued(*final(queue)) == queued(
            *old(queue),
        ),
        queued(*old(queue)).len() > 0 ==> res == Some(queued(*old(queue))[0]) && queued(
            *final(queue),
        ) == queued(*old(queue)).skip(1),
{
    queue.pop()
}

} // verus!
