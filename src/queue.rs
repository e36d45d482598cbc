use vstd::prelude::*;
use priority_queue::PriorityQueue;
use std::cmp::Reverse;

verus! {

#[verifier::external_type_specification]
#[verifier::external_body]
#[verifier::reject_recursive_types(I)]
#[verifier::reject_recursive_types(P)]
#[verifier::reject_recursive_types(H)]
pub struct ExPriorityQueue<I, P, H>(PriorityQueue<I, P, H>);

#[verifier::external_type_specification]
#[verifier::external_body]
#[verifier::reject_recursive_types(T)]
pub struct ExReverse<T>(Reverse<T>);

/// A queue of node ids, the cheapest first.
pub type CostQueue = PriorityQueue<usize, Reverse<u32>>;

/// The frontier's contents: each queued node id with its cost.
pub uninterp spec fn queued(q: CostQueue) -> Map<usize, u32>;

/// Relies on `PriorityQueue::new`: the queue starts empty.
#[verifier::external_body]
pub(crate) fn queue_new() -> (r: CostQueue)
    ensures
        queued(r).dom() == Set::<usize>::empty(),
{
    PriorityQueue::new()
}

/// Relies on `PriorityQueue::push`: the item is queued at the given
/// priority, replacing the priority it had if it was queued already.
#[verifier::external_body]
pub(crate) fn queue_push(q: &mut CostQueue, id: usize, cost: u32)
    ensures
        queued(*final(q)) == queued(*old(q)).insert(id, cost),
{
    q.push(id, Reverse(cost));
}

/// Relies on `PriorityQueue::pop`: it removes an item of greatest priority,
/// which under `Reverse` is an item of least cost, and returns `None` only
/// when the queue is empty.
#[verifier::external_body]
pub(crate) fn queue_pop(q: &mut CostQueue) -> (r: Option<(usize, u32)>)
    ensures
        match r {
            None => queued(*old(q)).dom() == Set::<usize>::empty() && queued(*final(q))
                == queued(*old(q)),
            Some((id, cost)) => {
                &&& queued(*old(q)).contains_key(id)
                &&& queued(*old(q))[id] == cost
                &&& forall|k: usize| #[trigger]
                    queued(*old(q)).contains_key(k) ==> cost <= queued(*old(q))[k]
                &&& queued(*final(q)) == queued(*old(q)).remove(id)
            },
        },
{
    q.pop().map(|(id, cost)| (id, cost.0))
}

/// Relies on `PriorityQueue::remove`: the item leaves the queue, if it was there.
#[verifier::external_body]
pub(crate) fn queue_remove(q: &mut CostQueue, id: usize)
    ensures
        queued(*final(q)) == queued(*old(q)).remove(id),
{
    q.remove(&id);
}

/// Relies on `PriorityQueue::len`: the number of queued items.
#[verifier::external_body]
pub(crate) fn queue_len(q: &CostQueue) -> (r: usize)
    ensures
        r == queued(*q).len(),
{
    q.len()
}

} // verus!
