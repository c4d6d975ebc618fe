//! Trusted boundary around the shared work queue.
//!
//! The pool keeps its pending messages in a `crossbeam` segmented queue. The
//! queue itself is outside code; everything the rest of the crate knows about
//! it is stated here, over `seg_items`, the sequence of pending slots in
//! first-in-first-out order. A slot is `Some(ticket)` for one unit of work and
//! `None` for a termination order.
//!
//! Crossbeam lets many threads push and pop through a shared reference; these
//! wrappers deliberately take the queue exclusively instead, so that the
//! first-in-first-out view stated here is the whole story between two calls.
//! An embedding that shares the pool across threads must guard it with a lock
//! of its own, as the thread layer around this crate does.

use vstd::prelude::*;
use crossbeam::queue::SegQueue;

verus! {

#[verifier::external_type_specification]
#[verifier::external_body]
#[verifier::reject_recursive_types(T)]
pub struct ExSegQueue<T>(SegQueue<T>);

/// The pending slots of the shared queue, oldest first.
pub uninterp spec fn seg_items(q: SegQueue<Option<u64>>) -> Seq<Option<u64>>;

/// Relies on crossbeam's `SegQueue::new`: creates a new, empty unbounded queue.
#[verifier::external_body]
pub(crate) fn seg_new() -> (q: SegQueue<Option<u64>>)
    ensures
        seg_items(q) == Seq::<Option<u64>>::empty(),
{
    SegQueue::new()
}

/// Relies on crossbeam's `SegQueue::push`: appends the element at the tail of
/// the queue.
#[verifier::external_body]
pub(crate) fn seg_push(q: &mut SegQueue<Option<u64>>, v: Option<u64>)
    ensures
        seg_items(*final(q)) == seg_items(*old(q)).push(v),
{
    q.push(v)
}

/// Relies on crossbeam's `SegQueue::pop`: removes and returns the head (the
/// oldest element), or returns `None` when the queue is empty.
#[verifier::external_body]
pub(crate) fn seg_pop(q: &mut SegQueue<Option<u64>>) -> (r: Option<Option<u64>>)
    ensures
        seg_items(*old(q)).len() == 0 ==> {
            &&& r is None
            &&& seg_items(*final(q)) == seg_items(*old(q))
        },
        seg_items(*old(q)).len() > 0 ==> {
            &&& r == Some(seg_items(*old(q))[0])
            &&& seg_items(*final(q)) == seg_items(*old(q)).drop_first()
        },
{
    q.pop()
}

/// Relies on crossbeam's `SegQueue::len`: returns the number of pending
/// elements.
#[verifier::external_body]
pub(crate) fn seg_len(q: &SegQueue<Option<u64>>) -> (n: usize)
    ensures
        n == seg_items(*q).len(),
{
    q.len()
}

} // verus!
