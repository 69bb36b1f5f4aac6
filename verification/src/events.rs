//! The trusted boundary around the outside priority queue holding the
//! scheduled events.
//!
//! The queue maps an agent id to an urgency key `(negated time, ordering)`;
//! the queue hands back a pair of greatest key first, which is the event
//! firing earliest. Each wrapper states over [`queue_entries`] what the
//! queue's source shows of the call.

use vstd::prelude::*;

use crate::priority::urgency_ge;

verus! {

#[verifier::external_type_specification]
#[verifier::external_body]
#[verifier::reject_recursive_types(I)]
#[verifier::reject_recursive_types(P)]
#[verifier::reject_recursive_types(H)]
pub struct ExPriorityQueue<I: core::hash::Hash + Eq, P: Ord, H>(
    priority_queue::PriorityQueue<I, P, H>,
);

/// The outside queue as the schedule instantiates it: agent ids keyed by
/// the urgency pair.
pub type EventQueue = priority_queue::PriorityQueue<u64, (i64, i64)>;

/// What the queue holds: each scheduled agent id with its urgency key.
pub uninterp spec fn queue_entries(q: EventQueue) -> Map<u64, (i64, i64)>;


/// The contents of a queue holding nothing.
pub open spec fn no_events() -> Map<u64, (i64, i64)> {
    Map::empty()
}

/// Relies on `PriorityQueue::with_capacity`: a queue with nothing in it.
#[verifier::external_body]
pub(crate) fn pq_with_capacity(capacity: usize) -> (r: EventQueue)
    ensures
        queue_entries(r) == no_events(),
{
    priority_queue::PriorityQueue::with_capacity(capacity)
}

/// Relies on `PriorityQueue::len`: the number of item-priority pairs held.
#[verifier::external_body]
pub(crate) fn pq_len(q: &EventQueue) -> (n: usize)
    ensures
        n == queue_entries(*q).dom().len(),
{
    q.len()
}

/// Relies on `PriorityQueue::push`: inserts the pair, or replaces the
/// priority of an item already held and returns the priority it had.
#[verifier::external_body]
pub(crate) fn pq_push(q: &mut EventQueue, id: u64, urgency: (i64, i64)) -> (old_priority: Option<
    (i64, i64),
>)
    ensures
        queue_entries(*final(q)) == queue_entries(*old(q)).insert(id, urgency),
        match old_priority {
            Some(p) => queue_entries(*old(q)).contains_key(id) && p == queue_entries(*old(q))[id],
            None => !queue_entries(*old(q)).contains_key(id),
        },
{
    q.push(id, urgency)
}

/// Relies on `PriorityQueue::peek`: a pair of greatest priority, or nothing
/// exactly when the queue is empty.
#[verifier::external_body]
pub(crate) fn pq_peek(q: &EventQueue) -> (r: Option<(u64, (i64, i64))>)
    ensures
        match r {
            Some(e) => queue_entries(*q).contains_key(e.0) && e.1 == queue_entries(*q)[e.0]
                && forall|k: u64| #[trigger]
                queue_entries(*q).contains_key(k) ==> urgency_ge(e.1, queue_entries(*q)[k]),
            None => queue_entries(*q).dom().len() == 0,
        },
{
    q.peek().map(|e| (*e.0, *e.1))
}

/// Relies on `PriorityQueue::pop`: removes and returns a pair of greatest
/// priority, or nothing exactly when the queue is empty.
#[verifier::external_body]
pub(crate) fn pq_pop(q: &mut EventQueue) -> (r: Option<(u64, (i64, i64))>)
    ensures
        match r {
            Some(e) => queue_entries(*old(q)).contains_key(e.0) && e.1 == queue_entries(*old(q))[e.0]
                && (forall|k: u64| #[trigger]
                queue_entries(*old(q)).contains_key(k) ==> urgency_ge(
                    e.1,
                    queue_entries(*old(q))[k],
                )) && queue_entries(*final(q)) == queue_entries(*old(q)).remove(e.0),
            None => queue_entries(*old(q)).dom().len() == 0 && queue_entries(*final(q))
                == queue_entries(*old(q)),
        },
{
    q.pop()
}

} // verus!
