//! The two queues of the pipeline, held in `crossbeam_queue::SegQueue`.
//!
//! Nothing in this file is proved: it states what the queue's methods do, for
//! a queue that one owner reaches through `&mut`. What a queue of handles
//! holds and what a queue of envelopes holds have a name each, and each
//! method is stated once for each of the two.

use crossbeam_queue::SegQueue;
use vstd::prelude::*;
use crate::types::{LoadHandle, Processed};

verus! {

/// `crossbeam_queue::SegQueue`, an unbounded queue. Nothing of its inside
/// is known here.
#[verifier::external_type_specification]
#[verifier::external_body]
#[verifier::reject_recursive_types(T)]
pub struct ExSegQueue<T>(SegQueue<T>);

/// The handles that a queue of change signals holds, oldest first.
pub uninterp spec fn changed_items(q: SegQueue<LoadHandle>) -> Seq<LoadHandle>;

/// The envelopes that an ingestion queue holds, oldest first.
pub uninterp spec fn processed_items(q: SegQueue<Processed>) -> Seq<Processed>;

/// `SegQueue::new`: a queue that holds nothing.
#[verifier::external_body]
pub(crate) fn new_changed() -> (q: SegQueue<LoadHandle>)
    ensures
        changed_items(q) == Seq::<LoadHandle>::empty(),
{
    SegQueue::new()
}

/// `SegQueue::push`: the handle is added at the tail; what the queue held
/// stays, in its order.
#[verifier::external_body]
pub(crate) fn push_changed(q: &mut SegQueue<LoadHandle>, handle: LoadHandle)
    ensures
        changed_items(*final(q)) == changed_items(*old(q)).push(handle),
{
    q.push(handle)
}

/// `SegQueue::pop`: `None` from a queue that holds nothing, which it leaves
/// as it is; otherwise the handle at the head, which leaves the queue.
#[verifier::external_body]
pub(crate) fn pop_changed(q: &mut SegQueue<LoadHandle>) -> (head: Option<LoadHandle>)
    ensures
        match head {
            Some(handle) => changed_items(*old(q)).len() > 0 && handle == changed_items(
                *old(q),
            )[0] && changed_items(*final(q)) == changed_items(*old(q)).skip(1),
            None => changed_items(*old(q)).len() == 0 && changed_items(*final(q))
                == changed_items(*old(q)),
        },
{
    q.pop()
}

/// `SegQueue::len`: the number of handles in the queue.
#[verifier::external_body]
pub(crate) fn len_changed(q: &SegQueue<LoadHandle>) -> (n: usize)
    ensures
        n == changed_items(*q).len(),
{
    q.len()
}

/// `SegQueue::new`: a queue that holds nothing.
#[verifier::external_body]
pub(crate) fn new_processed() -> (q: SegQueue<Processed>)
    ensures
        processed_items(q) == Seq::<Processed>::empty(),
{
    SegQueue::new()
}

/// `SegQueue::push`: the envelope is added at the tail; what the queue held
/// stays, in its order.
#[verifier::external_body]
pub(crate) fn push_processed(q: &mut SegQueue<Processed>, item: Processed)
    ensures
        processed_items(*final(q)) == processed_items(*old(q)).push(item),
{
    q.push(item)
}

/// `SegQueue::pop`: `None` from a queue that holds nothing, which it leaves
/// as it is; otherwise the envelope at the head, which leaves the queue.
#[verifier::external_body]
pub(crate) fn pop_processed(q: &mut SegQueue<Processed>) -> (head: Option<Processed>)
    ensures
        match head {
            Some(item) => processed_items(*old(q)).len() > 0 && item == processed_items(
                *old(q),
            )[0] && processed_items(*final(q)) == processed_items(*old(q)).skip(1),
            None => processed_items(*old(q)).len() == 0 && processed_items(*final(q))
                == processed_items(*old(q)),
        },
{
    q.pop()
}

/// `SegQueue::len`: the number of envelopes in the queue.
#[verifier::external_body]
pub(crate) fn len_processed(q: &SegQueue<Processed>) -> (n: usize)
    ensures
        n == processed_items(*q).len(),
{
    q.len()
}

} // verus!
