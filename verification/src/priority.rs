//! The composite key ordering scheduled events.
//!
//! An event fires at a `time`, with ties between equal times broken by the
//! `ordering` field: the event with the greater `ordering` runs first. Times
//! are fixed-point integers; the unit of one tick is `1`.

use vstd::prelude::*;

verus! {

/// The scheduling key of an event: lesser `time` first, ties broken by
/// greater `ordering`.
#[derive(Clone, Copy, Debug, PartialEq, Eq, Structural)]
pub struct Priority {
    pub time: i64,
    pub ordering: i64,
}

impl Priority {
    pub fn new(the_time: i64, the_ordering: i64) -> (p: Priority)
        ensures
            p.time == the_time,
            p.ordering == the_ordering,
    {
        Priority { time: the_time, ordering: the_ordering }
    }
}

/// `a` is scheduled no later than `b`: lesser time first; within one time,
/// greater ordering first.
pub open spec fn fires_no_later(a: Priority, b: Priority) -> bool {
    a.time < b.time || (a.time == b.time && a.ordering >= b.ordering)
}

/// The urgency key as it sits in the event queue: a lexicographically
/// greater pair is dequeued earlier.
pub open spec fn urgency_ge(a: (i64, i64), b: (i64, i64)) -> bool {
    a.0 > b.0 || (a.0 == b.0 && a.1 >= b.1)
}

/// The queue key that makes a max-queue pop events in `fires_no_later` order:
/// the negated time, then the ordering.
pub open spec fn spec_urgency(p: Priority) -> (i64, i64)
    recommends
        p.time > i64::MIN,
{
    ((-p.time) as i64, p.ordering)
}

/// The priority a queue key stands for; inverse of `spec_urgency`.
pub open spec fn spec_priority_of(u: (i64, i64)) -> Priority {
    Priority { time: (-u.0) as i64, ordering: u.1 }
}

/// A greater urgency key means an event that fires no later.
pub proof fn lemma_urgency_order(a: Priority, b: Priority)
    requires
        a.time > i64::MIN,
        b.time > i64::MIN,
    ensures
        urgency_ge(spec_urgency(a), spec_urgency(b)) <==> fires_no_later(a, b),
{
}

} // verus!
