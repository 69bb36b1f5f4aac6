//! The discrete-event loop: a priority queue of agent handles drained in
//! `(time, ordering)` order, one batch per tick.

use vstd::prelude::*;

use crate::agent::Agent;
use crate::agentimpl::AgentImpl;
use crate::events::{
    no_events, pq_len, pq_peek, pq_pop, pq_push, pq_with_capacity, queue_entries, EventQueue,
};
use crate::priority::{fires_no_later, spec_priority_of, urgency_ge, Priority};
use crate::state::State;
use vstd::pervasive::unreached;

verus! {

/// Options for an agent's clone when an agent reproduces.
pub struct ScheduleOptions {
    pub ordering: i64,
    pub repeating: bool,
}

/// An event taken out of the queue: the agent handle and the priority it
/// was due at.
pub struct Pair<A> {
    pub(crate) agentimpl: AgentImpl<A>,
    pub(crate) priority: Priority,
}

impl<A> Pair<A> {
    /// The handle this event carries.
    pub closed spec fn handle(self) -> AgentImpl<A> {
        self.agentimpl
    }

    /// The priority this event was due at.
    pub closed spec fn prio(self) -> Priority {
        self.priority
    }

    fn new(agent: AgentImpl<A>, the_priority: Priority) -> (p: Pair<A>)
        ensures
            p.handle() == agent,
            p.prio() == the_priority,
    {
        Pair { agentimpl: agent, priority: the_priority }
    }
}

/// Whether some event of `batch` carries the handle id `id`.
pub open spec fn batch_has_id<A>(batch: Seq<Pair<A>>, id: u64) -> bool {
    exists|j: int| 0 <= j < batch.len() && (#[trigger] batch[j]).handle().id == id
}

/// The engine's schedule: events keyed by `(time, ordering)`, agents stepped
/// in batches of equal time.
pub struct Schedule<A> {
    /// Ticks completed so far.
    pub step: u64,
    /// The simulation time of the tick being run, in fixed-point units where
    /// one tick is `1`.
    pub time: i64,
    pub events: EventQueue,
    pub agents: Vec<AgentImpl<A>>,
    pub id_counter: u64,
    pub thread_num: usize,
}

impl<A> Schedule<A> {
    /// The queued events: each scheduled handle id with its urgency key.
    pub open spec fn entries(self) -> Map<u64, (i64, i64)> {
        queue_entries(self.events)
    }

    /// The ids with an event queued.
    pub open spec fn event_ids(self) -> Set<u64> {
        self.entries().dom()
    }

    /// The time at which the event of `id` fires.
    pub open spec fn event_time(self, id: u64) -> int {
        -(self.entries()[id].0 as int)
    }

    /// The tie-breaking ordering of the event of `id`.
    pub open spec fn event_ordering(self, id: u64) -> int {
        self.entries()[id].1 as int
    }

    /// The priority of the event of `id`.
    pub open spec fn event_priority(self, id: u64) -> Priority {
        spec_priority_of(self.entries()[id])
    }

    /// Every queued event fires before time `c`.
    pub open spec fn times_below(self, c: int) -> bool {
        forall|id: u64| #[trigger] self.event_ids().contains(id) ==> self.event_time(id) < c
    }

    /// The id the next inserted agent gets from `schedule_repeating`.
    pub open spec fn next_id(self) -> u64 {
        self.id_counter
    }

    /// The width the tick batch is partitioned to.
    pub open spec fn threads(self) -> usize {
        self.thread_num
    }

    /// The stored agent handles.
    pub open spec fn handles(self) -> Seq<AgentImpl<A>> {
        self.agents@
    }

    /// The queue and the handle store describe each other: one stored handle
    /// per queued id, every id below the counter, and every queued key's
    /// negated time in range.
    pub open spec fn wf(self) -> bool {
        &&& self.entries().dom().finite()
        &&& forall|i: int|
            0 <= i < self.agents@.len() ==> self.entries().contains_key(
                (#[trigger] self.agents@[i]).id,
            )
        &&& forall|i: int, j: int|
            0 <= i < j < self.agents@.len() ==> self.agents@[i].id != self.agents@[j].id
        &&& forall|id: u64| #[trigger]
            self.entries().contains_key(id) ==> exists|i: int|
                0 <= i < self.agents@.len() && (#[trigger] self.agents@[i]).id == id
        &&& forall|i: int|
            0 <= i < self.agents@.len() ==> (#[trigger] self.agents@[i]).id < self.id_counter
        &&& forall|id: u64| #[trigger]
            self.entries().contains_key(id) ==> self.entries()[id].0 > i64::MIN
        &&& self.thread_num >= 1
    }

    /// A sequential schedule: a batch width of one.
    pub fn new() -> (s: Schedule<A>)
        ensures
            s.wf(),
            s.step == 0,
            s.time == 0,
            s.entries() == no_events(),
            s.handles() == Seq::<AgentImpl<A>>::empty(),
            s.next_id() == 0,
            s.threads() == 1,
    {
        Schedule {
            step: 0,
            time: 0,
            events: pq_with_capacity(0),
            agents: Vec::new(),
            id_counter: 0,
            thread_num: 1,
        }
    }

    /// A schedule whose tick batches are partitioned `thread_num` ways.
    pub fn with_threads(thread_num: usize) -> (s: Schedule<A>)
        requires
            thread_num >= 1,
        ensures
            s.wf(),
            s.step == 0,
            s.time == 0,
            s.entries() == no_events(),
            s.handles() == Seq::<AgentImpl<A>>::empty(),
            s.next_id() == 0,
            s.threads() == thread_num,
    {
        Schedule {
            step: 0,
            time: 0,
            events: pq_with_capacity(0),
            agents: Vec::new(),
            id_counter: 0,
            thread_num,
        }
    }

    /// Put `a` in the queue at `(the_time, the_ordering)`.
    fn insert_event(&mut self, a: AgentImpl<A>, the_time: i64, the_ordering: i64)
        requires
            old(self).wf(),
            the_time > i64::MIN,
            a.id < u64::MAX,
            !old(self).entries().contains_key(a.id),
        ensures
            final(self).wf(),
            final(self).entries() == old(self).entries().insert(
                a.id,
                (((-the_time) as i64), the_ordering),
            ),
            final(self).handles() == old(self).handles().push(a),
            final(self).next_id() as int == if a.id as int + 1 > old(self).next_id() as int {
                a.id as int + 1
            } else {
                old(self).next_id() as int
            },
            final(self).step == old(self).step,
            final(self).time == old(self).time,
            final(self).threads() == old(self).threads(),
    {
        if a.id >= self.id_counter {
            self.id_counter = a.id + 1;
        }
        let urgency = ((-the_time), the_ordering);
        let ghost pre = *self;
        pq_push(&mut self.events, a.id, urgency);
        self.agents.push(a);
        proof {
            assert(self.entries() =~= pre.entries().insert(a.id, urgency));
            assert(self.entries().dom() =~= pre.entries().dom().insert(a.id));
            assert forall|id: u64| #[trigger] self.entries().contains_key(id) implies exists|i: int|
                0 <= i < self.agents@.len() && (#[trigger] self.agents@[i]).id == id by {
                if id == a.id {
                    assert(self.agents@[self.agents@.len() - 1].id == id);
                } else {
                    let i = choose|i: int|
                        0 <= i < pre.agents@.len() && (#[trigger] pre.agents@[i]).id == id;
                    assert(self.agents@[i].id == id);
                }
            }
        }
    }

    /// Queue the agent behind the handle `agent` at `(the_time,
    /// the_ordering)`; the handle's id must not already be scheduled, and it
    /// keeps the repeating flag it carries.
    pub fn schedule_once(&mut self, agent: AgentImpl<A>, the_time: i64, the_ordering: i64)
        requires
            old(self).wf(),
            the_time > i64::MIN,
            agent.id < u64::MAX,
            !old(self).event_ids().contains(agent.id),
        ensures
            final(self).wf(),
            final(self).entries() == old(self).entries().insert(
                agent.id,
                (((-the_time) as i64), the_ordering),
            ),
            final(self).event_time(agent.id) == the_time as int,
            final(self).event_ordering(agent.id) == the_ordering as int,
            final(self).handles() == old(self).handles().push(agent),
            final(self).step == old(self).step,
            final(self).time == old(self).time,
            final(self).threads() == old(self).threads(),
    {
        self.insert_event(agent, the_time, the_ordering);
    }

    /// Wrap `agent` in a fresh handle, mark it repeating, and queue it at
    /// `(the_time, the_ordering)`.
    pub fn schedule_repeating(&mut self, agent: A, the_time: i64, the_ordering: i64)
        requires
            old(self).wf(),
            the_time > i64::MIN,
            old(self).next_id() < u64::MAX,
        ensures
            final(self).wf(),
            final(self).entries() == old(self).entries().insert(
                old(self).next_id(),
                (((-the_time) as i64), the_ordering),
            ),
            final(self).event_time(old(self).next_id()) == the_time as int,
            final(self).handles() == old(self).handles().push(
                AgentImpl { id: old(self).next_id(), agent, repeating: true },
            ),
            final(self).next_id() == old(self).next_id() + 1,
            final(self).step == old(self).step,
            final(self).time == old(self).time,
            final(self).threads() == old(self).threads(),
    {
        let mut a = AgentImpl::new(agent, self.id_counter);
        a.repeating = true;
        proof {
            if self.entries().contains_key(a.id) {
                let i = choose|i: int|
                    0 <= i < self.agents@.len() && (#[trigger] self.agents@[i]).id == a.id;
                assert(false);
            }
        }
        self.insert_event(a, the_time, the_ordering);
    }

    /// How many events are queued.
    pub fn queue_len(&self) -> (n: usize)
        ensures
            n == self.event_ids().len(),
    {
        pq_len(&self.events)
    }

    /// Take the stored handle carrying `id` out of the handle store.
    fn take_agent(&mut self, id: u64) -> (r: AgentImpl<A>)
        requires
            exists|i: int|
                0 <= i < old(self).agents@.len() && (#[trigger] old(self).agents@[i]).id == id,
            forall|i: int, j: int|
                0 <= i < j < old(self).agents@.len() ==> old(self).agents@[i].id != old(self).agents@[j].id,
        ensures
            r.id == id,
            old(self).agents@.contains(r),
            final(self).agents@.len() == old(self).agents@.len() - 1,
            forall|i: int|
                0 <= i < final(self).agents@.len() ==> old(self).agents@.contains(
                    #[trigger] final(self).agents@[i],
                ) && final(self).agents@[i].id != id,
            forall|x: AgentImpl<A>| #[trigger]
                old(self).agents@.contains(x) && x.id != id ==> final(self).agents@.contains(x),
            forall|i: int, j: int|
                0 <= i < j < final(self).agents@.len() ==> final(self).agents@[i].id != final(self).agents@[j].id,
            final(self).events == old(self).events,
            final(self).step == old(self).step,
            final(self).time == old(self).time,
            final(self).id_counter == old(self).id_counter,
            final(self).thread_num == old(self).thread_num,
    {
        let n = self.agents.len();
        let mut i: usize = 0;
        while i < n
            invariant
                n == self.agents@.len(),
                i <= n,
                forall|j: int| 0 <= j < i ==> (#[trigger] self.agents@[j]).id != id,
                exists|j: int|
                    0 <= j < self.agents@.len() && (#[trigger] self.agents@[j]).id == id,
                forall|a: int, b: int|
                    0 <= a < b < self.agents@.len() ==> self.agents@[a].id != self.agents@[b].id,
                *self == *old(self),
            decreases n - i,
        {
            if self.agents[i].id == id {
                let ghost pre = self.agents@;
                let r = self.agents.swap_remove(i);
                proof {
                    assert(pre == old(self).agents@);
                    assert(pre[i as int].id == id);
                    assert(self.agents@ == pre.update(i as int, pre.last()).drop_last());
                    assert forall|a: int|
                        0 <= a < self.agents@.len() implies pre.contains(
                        #[trigger] self.agents@[a],
                    ) && self.agents@[a].id != id by {
                        if a == i {
                            assert(self.agents@[a] == pre[pre.len() - 1]);
                            assert(pre[a].id != pre[pre.len() - 1].id);
                        } else {
                            assert(self.agents@[a] == pre[a]);
                            if a < i {
                                assert(pre[a].id != pre[i as int].id);
                            } else {
                                assert(pre[i as int].id != pre[a].id);
                            }
                        }
                        assert(pre.contains(pre[if a == i { pre.len() - 1 } else { a }]));
                    }
                    assert forall|x: AgentImpl<A>| #[trigger]
                        pre.contains(x) && x.id != id implies self.agents@.contains(x) by {
                        let xi = choose|xi: int| 0 <= xi < pre.len() && pre[xi] == x;
                        if xi == pre.len() - 1 {
                            assert(xi != i);
                            assert(self.agents@[i as int] == x);
                        } else if xi == i {
                            assert(false);
                        } else {
                            assert(self.agents@[xi] == x);
                        }
                    }
                    assert forall|a: int, b: int|
                        0 <= a < b < self.agents@.len() implies self.agents@[a].id
                        != self.agents@[b].id by {
                        let pa: int = if a == i {
                            pre.len() - 1
                        } else {
                            a
                        };
                        let pb: int = if b == i {
                            pre.len() - 1
                        } else {
                            b
                        };
                        assert(self.agents@[a] == pre[pa]);
                        assert(self.agents@[b] == pre[pb]);
                        if pa < pb {
                            assert(pre[pa].id != pre[pb].id);
                        } else {
                            assert(pre[pb].id != pre[pa].id);
                        }
                    }
                }
                return r;
            }
            i += 1;
        }
        proof {
            let j = choose|j: int|
                0 <= j < self.agents@.len() && (#[trigger] self.agents@[j]).id == id;
            assert(false);
        }
        unreached()
    }

    /// Drain every event due at the head time into a batch, earliest-firing
    /// first: the head's time becomes the schedule's current time, and the
    /// batch comes out sorted so that an event dequeued before another fires
    /// no later than it.
    pub fn drain_due(&mut self) -> (batch: Vec<Pair<A>>)
        requires
            old(self).wf(),
            old(self).event_ids().len() > 0,
        ensures
            final(self).wf(),
            batch@.len() >= 1,
            forall|id: u64| #[trigger]
                old(self).event_ids().contains(id) ==> old(self).event_time(id) >= final(self).time as int,
            forall|j: int|
                0 <= j < batch@.len() ==> old(self).event_ids().contains(
                    (#[trigger] batch@[j]).handle().id,
                ) && batch@[j].prio() == old(self).event_priority(batch@[j].handle().id)
                    && batch@[j].prio().time == final(self).time && old(self).handles().contains(
                    batch@[j].handle(),
                ) && batch@[j].handle().id < old(self).id_counter,
            forall|a: int, b: int|
                0 <= a < b < batch@.len() ==> batch@[a].handle().id != batch@[b].handle().id,
            forall|a: int, b: int|
                0 <= a <= b < batch@.len() ==> fires_no_later(batch@[a].prio(), batch@[b].prio()),
            forall|id: u64| #[trigger]
                final(self).event_ids().contains(id) <==> (old(self).event_ids().contains(id)
                    && !batch_has_id(batch@, id)),
            forall|id: u64| #[trigger]
                final(self).event_ids().contains(id) ==> final(self).entries()[id] == old(self).entries()[id],
            forall|id: u64| #[trigger]
                final(self).event_ids().contains(id) ==> final(self).event_time(id) > final(self).time as int,
            forall|x: AgentImpl<A>| #[trigger]
                old(self).handles().contains(x) && !batch_has_id(batch@, x.id) ==> final(self).handles().contains(x),
            forall|i: int|
                0 <= i < final(self).handles().len() ==> old(self).handles().contains(
                    #[trigger] final(self).handles()[i],
                ),
            final(self).step == old(self).step,
            final(self).id_counter == old(self).id_counter,
            final(self).threads() == old(self).threads(),
    {
        let ghost base = *old(self);
        match pq_peek(&self.events) {
            Some(e) => {
                proof {
                    assert(base.entries().contains_key(e.0));
                }
                self.time = -(e.1.0);
                proof {
                    assert(base.event_ids().contains(e.0) && base.event_time(e.0)
                        == self.time as int);
                    assert forall|id: u64| #[trigger]
                        base.event_ids().contains(id) implies base.event_time(id)
                        >= self.time as int by {
                        assert(urgency_ge(e.1, base.entries()[id]));
                    }
                }
            },
            None => {
                proof {
                    assert(false);
                }
            },
        }
        proof {
            assert(self.events == old(self).events);
            assert(self.agents == old(self).agents);
            assert(self.id_counter == old(self).id_counter);
            assert(self.thread_num == old(self).thread_num);
            assert(self.entries() == old(self).entries());
            assert(self.wf());
        }
        let mut batch: Vec<Pair<A>> = Vec::new();
        let mut done = false;
        while !done
            invariant
                self.wf(),
                self.step == base.step,
                self.id_counter == base.id_counter,
                self.thread_num == base.thread_num,
                forall|id: u64| #[trigger]
                    base.event_ids().contains(id) ==> base.event_time(id) >= self.time as int,
                forall|j: int|
                    0 <= j < batch@.len() ==> base.event_ids().contains(
                        (#[trigger] batch@[j]).handle().id,
                    ) && batch@[j].prio() == base.event_priority(batch@[j].handle().id)
                        && batch@[j].prio().time == self.time && base.handles().contains(
                        batch@[j].handle(),
                    ) && batch@[j].handle().id < base.id_counter,
                forall|a: int, b: int|
                    0 <= a < b < batch@.len() ==> batch@[a].handle().id != batch@[b].handle().id,
                forall|j: int, id: u64|
                    0 <= j < batch@.len() && #[trigger] self.event_ids().contains(id)
                        ==> urgency_ge(
                        crate::priority::spec_urgency((#[trigger] batch@[j]).prio()),
                        self.entries()[id],
                    ),
                forall|a: int, b: int|
                    0 <= a <= b < batch@.len() ==> fires_no_later(
                        batch@[a].prio(),
                        batch@[b].prio(),
                    ),
                forall|id: u64| #[trigger]
                    self.event_ids().contains(id) <==> (base.event_ids().contains(id)
                        && !batch_has_id(batch@, id)),
                forall|id: u64| #[trigger]
                    self.event_ids().contains(id) ==> self.entries()[id] == base.entries()[id],
                forall|x: AgentImpl<A>| #[trigger]
                    base.handles().contains(x) && !batch_has_id(batch@, x.id)
                        ==> self.handles().contains(x),
                forall|i: int|
                    0 <= i < self.handles().len() ==> base.handles().contains(
                        #[trigger] self.handles()[i],
                    ),
                done ==> batch@.len() >= 1,
                done ==> forall|id: u64| #[trigger]
                    self.event_ids().contains(id) ==> self.event_time(id) > self.time as int,
                batch@.len() == 0 ==> self.entries() == base.entries() && exists|id: u64| #[trigger]
                    base.event_ids().contains(id) && base.event_time(id) == self.time as int,
            decreases self.event_ids().len() + (if done {
                0int
            } else {
                1int
            }),
        {
            let ghost entry = *self;
            proof {
                assert forall|i: int|
                    0 <= i < entry.agents@.len() implies base.handles().contains(
                    #[trigger] entry.agents@[i],
                ) by {
                    assert(base.handles().contains(self.handles()[i]));
                }
                assert forall|a: int, b: int|
                    0 <= a < b < entry.agents@.len() implies entry.agents@[a].id
                    != entry.agents@[b].id by {
                    assert(self.agents@[a].id != self.agents@[b].id);
                }
                assert forall|i: int|
                    0 <= i < entry.agents@.len() implies (#[trigger] entry.agents@[i]).id
                    < entry.id_counter by {
                    assert(self.agents@[i].id < self.id_counter);
                }
            }
            let head = pq_peek(&self.events);
            match head {
                Some(e) => {
                    proof {
                        assert(self.entries().contains_key(e.0));
                    }
                    if -(e.1.0) <= self.time {
                        let ghost pre = *self;
                        let popped = pq_pop(&mut self.events);
                        match popped {
                            Some(p) => {
                                proof {
                                    assert(pre.entries().contains_key(p.0));
                                    assert(self.entries() =~= pre.entries().remove(p.0));
                                    assert(self.entries().dom() =~= pre.entries().dom().remove(
                                        p.0,
                                    ));
                                }
                                let ghost pretake = *self;
                                proof {
                                    let wi = choose|wi: int|
                                        0 <= wi < pre.agents@.len() && (#[trigger] pre.agents@[wi]).id
                                            == p.0;
                                    assert(self.agents@[wi].id == p.0);
                                }
                                let handle = self.take_agent(p.0);
                                proof {
                                    assert(pretake.agents@ == entry.agents@);
                                    let hi = choose|hi: int|
                                        0 <= hi < pretake.agents@.len() && pretake.agents@[hi]
                                            == handle;
                                    assert(entry.agents@[hi] == handle);
                                    assert(base.handles().contains(entry.agents@[hi]));
                                    assert(handle.id < base.id_counter) by {
                                        assert(entry.agents@[hi].id < entry.id_counter);
                                    }
                                    assert forall|i: int|
                                        0 <= i < self.handles().len() implies base.handles().contains(
                                        #[trigger] self.handles()[i],
                                    ) by {
                                        assert(pretake.agents@.contains(self.agents@[i]));
                                        let xi = choose|xi: int|
                                            0 <= xi < pretake.agents@.len() && pretake.agents@[xi]
                                                == self.agents@[i];
                                        assert(base.handles().contains(entry.agents@[xi]));
                                    }
                                    assert forall|i: int|
                                        0 <= i < self.agents@.len() implies self.entries().contains_key(
                                        (#[trigger] self.agents@[i]).id,
                                    ) by {
                                        assert(pre.agents@.contains(self.agents@[i]));
                                        let xi = choose|xi: int|
                                            0 <= xi < pre.agents@.len() && pre.agents@[xi]
                                                == self.agents@[i];
                                        assert(pre.entries().contains_key(pre.agents@[xi].id));
                                    }
                                    assert forall|id: u64| #[trigger]
                                        self.entries().contains_key(id) implies exists|i: int|
                                        0 <= i < self.agents@.len() && (#[trigger] self.agents@[i]).id
                                            == id by {
                                        let xi = choose|xi: int|
                                            0 <= xi < pre.agents@.len() && (#[trigger] pre.agents@[xi]).id
                                                == id;
                                        assert(pre.agents@.contains(pre.agents@[xi]));
                                        assert(self.agents@.contains(pre.agents@[xi]));
                                        let yi = choose|yi: int|
                                            0 <= yi < self.agents@.len() && self.agents@[yi]
                                                == pre.agents@[xi];
                                        assert(self.agents@[yi].id == id);
                                    }
                                    assert forall|i: int|
                                        0 <= i < self.agents@.len() implies (
                                    #[trigger] self.agents@[i]).id < self.id_counter by {
                                        assert(pre.agents@.contains(self.agents@[i]));
                                        let xi = choose|xi: int|
                                            0 <= xi < pre.agents@.len() && pre.agents@[xi]
                                                == self.agents@[i];
                                    }
                                }
                                let t = -(p.1.0);
                                let prio = Priority::new(t, p.1.1);
                                let ghost pre_batch = batch@;
                                batch.push(Pair::new(handle, prio));
                                proof {
                                    let ghost np = batch@[batch@.len() - 1];
                                    assert(np.handle() == handle && np.prio() == prio);
                                    assert(base.event_ids().contains(p.0));
                                    assert(base.event_time(p.0) >= self.time as int);
                                    assert(base.entries()[p.0] == pre.entries()[p.0]);
                                    assert(prio.time as int == base.event_time(p.0));
                                    assert(prio.time == self.time);
                                    assert forall|id: u64| #[trigger]
                                        self.event_ids().contains(id) implies (
                                    base.event_ids().contains(id) && !batch_has_id(
                                        batch@,
                                        id,
                                    )) by {
                                        assert(pre.event_ids().contains(id));
                                        if batch_has_id(batch@, id) {
                                            let j = choose|j: int|
                                                0 <= j < batch@.len() && (#[trigger] batch@[j]).handle().id
                                                    == id;
                                            if j < pre_batch.len() {
                                                assert(pre_batch[j].handle().id == id);
                                                assert(!pre.event_ids().contains(id));
                                            } else {
                                                assert(id == p.0);
                                            }
                                            assert(false);
                                        }
                                    }
                                    assert forall|id: u64|
                                        base.event_ids().contains(id) && !batch_has_id(batch@, id)
                                            implies #[trigger] self.event_ids().contains(id) by {
                                        if id != p.0 {
                                            if batch_has_id(pre_batch, id) {
                                                let j = choose|j: int|
                                                    0 <= j < pre_batch.len() && (#[trigger] pre_batch[j]).handle().id
                                                        == id;
                                                assert(batch@[j].handle().id == id);
                                                assert(batch_has_id(batch@, id));
                                            }
                                            assert(!batch_has_id(pre_batch, id));
                                            assert(pre.event_ids().contains(id));
                                        } else {
                                            assert(batch@[batch@.len() - 1].handle().id == p.0);
                                            assert(batch_has_id(batch@, p.0));
                                        }
                                    }
                                    assert forall|x: AgentImpl<A>| #[trigger]
                                        base.handles().contains(x) && !batch_has_id(batch@, x.id)
                                            implies self.handles().contains(x) by {
                                        if batch_has_id(pre_batch, x.id) {
                                            let j = choose|j: int|
                                                0 <= j < pre_batch.len() && (#[trigger] pre_batch[j]).handle().id
                                                    == x.id;
                                            assert(batch@[j].handle().id == x.id);
                                            assert(batch_has_id(batch@, x.id));
                                        }
                                        assert(!batch_has_id(pre_batch, x.id));
                                        if x.id == p.0 {
                                            assert(batch@[batch@.len() - 1].handle().id == p.0);
                                            assert(batch_has_id(batch@, x.id));
                                            assert(false);
                                        }
                                    }
                                    assert forall|j: int, id: u64|
                                        0 <= j < batch@.len() && #[trigger] self.event_ids().contains(
                                            id,
                                        ) implies urgency_ge(
                                        crate::priority::spec_urgency((#[trigger] batch@[j]).prio()),
                                        self.entries()[id],
                                    ) by {
                                        if j < pre_batch.len() {
                                            assert(batch@[j] == pre_batch[j]);
                                            assert(pre.event_ids().contains(id));
                                        } else {
                                            assert(batch@[j] == np);
                                            assert(crate::priority::spec_urgency(np.prio())
                                                == p.1);
                                            assert(pre.event_ids().contains(id));
                                            assert(urgency_ge(p.1, pre.entries()[id]));
                                        }
                                    }
                                    assert forall|a: int, b: int|
                                        0 <= a <= b < batch@.len() implies fires_no_later(
                                        batch@[a].prio(),
                                        batch@[b].prio(),
                                    ) by {
                                        if b < pre_batch.len() {
                                            assert(batch@[a] == pre_batch[a]);
                                            assert(batch@[b] == pre_batch[b]);
                                        } else if a < pre_batch.len() {
                                            assert(batch@[a] == pre_batch[a]);
                                            assert(batch@[b] == np);
                                            assert(urgency_ge(
                                                crate::priority::spec_urgency(pre_batch[a].prio()),
                                                pre.entries()[p.0],
                                            ));
                                            crate::priority::lemma_urgency_order(
                                                pre_batch[a].prio(),
                                                np.prio(),
                                            );
                                        }
                                    }
                                }
                            },
                            None => {
                                proof {
                                    assert(false);
                                }
                            },
                        }
                    } else {
                        done = true;
                        proof {
                            if batch@.len() == 0 {
                                let wid = choose|id: u64| #[trigger]
                                    base.event_ids().contains(id) && base.event_time(id)
                                        == self.time as int;
                                assert(self.event_ids().contains(wid));
                                assert(urgency_ge(e.1, self.entries()[wid]));
                                assert(false);
                            }
                            assert forall|id: u64| #[trigger]
                                self.event_ids().contains(id) implies self.event_time(id)
                                > self.time as int by {
                                assert(urgency_ge(e.1, self.entries()[id]));
                            }
                        }
                    }
                },
                None => {
                    done = true;
                    proof {
                        if batch@.len() == 0 {
                            let wid = choose|id: u64| #[trigger]
                                base.event_ids().contains(id) && base.event_time(id)
                                    == self.time as int;
                            assert(self.event_ids().contains(wid));
                            vstd::set::axiom_set_remove_len(self.event_ids(), wid);
                            assert(false);
                        }
                    }
                },
            }
        }
        batch
    }

    /// Run one tick: call the state's hooks, drain the events due at the
    /// head time, step each drained agent in dequeue order, reschedule
    /// repeating agents and any children one tick later, and end with the
    /// publication barrier `state.update`.
    pub fn step<S: State<A>>(&mut self, state: &mut S) where A: Agent<S>
        requires
            old(self).wf(),
            old(self).step < u64::MAX,
            old(self).times_below(i64::MAX as int),
        ensures
            final(self).wf(),
            final(self).step == old(self).step + 1,
            final(self).threads() == old(self).threads(),
            old(self).event_ids().len() == 0 ==> final(self).entries() == old(self).entries()
                && final(self).time == old(self).time && final(self).handles() == old(self).handles(),
            old(self).event_ids().len() > 0 ==> (exists|id: u64| #[trigger]
                old(self).event_ids().contains(id) && old(self).event_time(id) == final(self).time as int) && (forall|id: u64| #[trigger]
                old(self).event_ids().contains(id) ==> old(self).event_time(id) >= final(self).time as int) && (forall|id: u64| #[trigger]
                final(self).event_ids().contains(id) ==> final(self).event_time(id) > final(self).time as int),
            forall|id: u64| #[trigger]
                old(self).event_ids().contains(id) && old(self).event_time(id) > final(self).time as int ==> final(self).event_ids().contains(id) && final(self).entries()[id]
                    == old(self).entries()[id],
            forall|id: u64| #[trigger]
                final(self).event_ids().contains(id) ==> (old(self).event_ids().contains(id)
                    && old(self).event_time(id) > final(self).time as int && final(self).entries()[id] == old(self).entries()[id]) || final(self).event_time(id)
                    == final(self).time as int + 1,
            forall|c: int| #[trigger]
                old(self).times_below(c) ==> final(self).times_below(c + 1),
    {
        let ghost base = *old(self);
        state.before_step();
        if self.step == 0 {
            state.update(0);
        }
        self.step = self.step + 1;
        if pq_len(&self.events) == 0 {
            state.update(self.step);
            state.after_step();
            proof {
                assert forall|c: int| #[trigger]
                    base.times_below(c) implies self.times_below(c + 1) by {
                    assert forall|id: u64| #[trigger]
                        self.event_ids().contains(id) implies self.event_time(id) < c + 1 by {
                        assert(base.event_ids().contains(id));
                    }
                }
            }
            return ;
        }
        let ghost s1 = self.step;
        proof {
            assert(self.events == old(self).events);
            assert(self.agents == old(self).agents);
            assert(self.id_counter == old(self).id_counter);
            assert(self.wf());
        }
        let drained = self.drain_due();
        let ghost batch0 = drained@;
        let ghost post_drain = *self;
        let ghost t0 = self.time;
        let ghost counter0 = self.id_counter;
        proof {
            assert(base.event_ids().contains(batch0[0].handle().id));
            assert(t0 < i64::MAX) by {
                assert(base.event_time(batch0[0].handle().id) < i64::MAX as int);
            }
            assert forall|j: int| 0 <= j < batch0.len() implies !self.event_ids().contains(
                (#[trigger] batch0[j]).handle().id,
            ) && batch0[j].handle().id < counter0 && batch0[j].prio().time == t0 by {
                assert(batch_has_id(batch0, batch0[j].handle().id));
            }
        }
        let tn = self.thread_num;
        let chunks = partition_round_robin(drained, tn);
        proof {
            assert forall|c: int, k: int|
                #![trigger chunks@[c]@[k]]
                0 <= c < chunks@.len() && 0 <= k < chunks@[c]@.len() implies due_event(
                chunks@[c]@[k],
                t0,
                counter0,
                self.entries(),
            ) by {
                lemma_rr_index_bound(batch0.len() as int, tn as int, c, k);
                assert(chunks@[c]@[k] == batch0[k * tn + c]);
            }
            assert forall|c1: int, k1: int, c2: int, k2: int|
                #![trigger chunks@[c1]@[k1], chunks@[c2]@[k2]]
                0 <= c1 < chunks@.len() && 0 <= k1 < chunks@[c1]@.len() && 0 <= c2 < chunks@.len()
                    && 0 <= k2 < chunks@[c2]@.len() && (c1 != c2 || k1 != k2) implies
                chunks@[c1]@[k1].handle().id != chunks@[c2]@[k2].handle().id by {
                lemma_rr_index_bound(batch0.len() as int, tn as int, c1, k1);
                lemma_rr_index_bound(batch0.len() as int, tn as int, c2, k2);
                assert(chunks@[c1]@[k1] == batch0[k1 * tn + c1]);
                assert(chunks@[c2]@[k2] == batch0[k2 * tn + c2]);
                if k1 * tn + c1 == k2 * tn + c2 {
                    lemma_rr_index_injective(tn as int, c1, k1, c2, k2);
                    assert(false);
                }
                if k1 * tn + c1 < k2 * tn + c2 {
                    assert(batch0[k1 * tn + c1].handle().id != batch0[k2 * tn + c2].handle().id);
                } else {
                    assert(batch0[k2 * tn + c2].handle().id != batch0[k1 * tn + c1].handle().id);
                }
            }
        }
        let mut batch = flatten_chunks(chunks, Ghost(t0), Ghost(counter0), Ghost(self.entries()));
        while batch.len() > 0
            invariant
                self.wf(),
                self.time == t0,
                self.step == s1,
                self.thread_num == base.thread_num,
                t0 < i64::MAX,
                t0 > i64::MIN,
                self.id_counter >= counter0,
                counter0 <= u64::MAX,
                forall|j: int|
                    0 <= j < batch@.len() ==> (#[trigger] batch@[j]).prio().time == t0
                        && !self.event_ids().contains(batch@[j].handle().id)
                        && batch@[j].handle().id < counter0,
                forall|a: int, b: int|
                    0 <= a < b < batch@.len() ==> batch@[a].handle().id != batch@[b].handle().id,
                forall|id: u64| #[trigger]
                    self.event_ids().contains(id) ==> ((post_drain.event_ids().contains(id)
                        && self.entries()[id] == post_drain.entries()[id]) || self.event_time(id)
                        == t0 + 1),
                forall|id: u64| #[trigger]
                    post_drain.event_ids().contains(id) ==> post_drain.event_time(id) > t0,
                forall|id: u64| #[trigger]
                    post_drain.event_ids().contains(id) ==> self.event_ids().contains(id)
                        && self.entries()[id] == post_drain.entries()[id],
                forall|id: u64| #[trigger]
                    post_drain.event_ids().contains(id) ==> base.event_ids().contains(id)
                        && post_drain.entries()[id] == base.entries()[id],
            decreases batch@.len(),
        {
            let item = batch.remove(0);
            let Pair { agentimpl: mut handle, priority } = item;
            handle.agent.step(state);
            let removed = handle.agent.should_remove(state);
            let reproduce = handle.agent.should_reproduce(state);
            let t1 = self.time + 1;
            if handle.repeating && !removed {
                let ord = priority.ordering;
                self.insert_event(handle, t1, ord);
            }
            match reproduce {
                Some(mut children) => {
                    while children.len() > 0
                        invariant
                            self.wf(),
                            t1 as int == t0 + 1,
                            self.time == t0,
                            self.step == s1,
                            self.thread_num == base.thread_num,
                            t0 < i64::MAX,
                            t0 > i64::MIN,
                            self.id_counter >= counter0,
                            counter0 <= u64::MAX,
                            forall|j: int|
                                0 <= j < batch@.len() ==> (#[trigger] batch@[j]).prio().time == t0
                                    && !self.event_ids().contains(batch@[j].handle().id)
                                    && batch@[j].handle().id < counter0,
                            forall|a: int, b: int|
                                0 <= a < b < batch@.len() ==> batch@[a].handle().id
                                    != batch@[b].handle().id,
                            forall|id: u64| #[trigger]
                                self.event_ids().contains(id) ==> ((
                                post_drain.event_ids().contains(id) && self.entries()[id]
                                    == post_drain.entries()[id]) || self.event_time(id) == t0
                                    + 1),
                            forall|id: u64| #[trigger]
                                post_drain.event_ids().contains(id) ==> post_drain.event_time(id)
                                    > t0,
                            forall|id: u64| #[trigger]
                                post_drain.event_ids().contains(id) ==> self.event_ids().contains(
                                    id,
                                ) && self.entries()[id] == post_drain.entries()[id],
                            forall|id: u64| #[trigger]
                                post_drain.event_ids().contains(id) ==> base.event_ids().contains(
                                    id,
                                ) && post_drain.entries()[id] == base.entries()[id],
                        decreases children@.len(),
                    {
                        let pair = children.remove(0);
                        let child = pair.0;
                        let opts = pair.1;
                        if self.id_counter < u64::MAX {
                            let mut ci = AgentImpl::new(child, self.id_counter);
                            ci.repeating = opts.repeating;
                            proof {
                                if self.entries().contains_key(ci.id) {
                                    let i = choose|i: int|
                                        0 <= i < self.agents@.len() && (#[trigger] self.agents@[i]).id
                                            == ci.id;
                                    assert(false);
                                }
                            }
                            let ghost cid = ci.id;
                            let ghost pre_ins = *self;
                            self.insert_event(ci, t1, opts.ordering);
                            proof {
                                assert forall|id: u64| #[trigger]
                                    self.event_ids().contains(id) implies ((
                                post_drain.event_ids().contains(id) && self.entries()[id]
                                    == post_drain.entries()[id]) || self.event_time(id) == t0
                                    + 1) by {
                                    if id == cid {
                                        assert(self.entries()[id] == (((-t1) as i64),
                                        opts.ordering));
                                        assert(self.event_time(id) == t1 as int);
                                    } else {
                                        assert(pre_ins.event_ids().contains(id));
                                        assert(self.entries()[id] == pre_ins.entries()[id]);
                                    }
                                }
                            }
                        }
                    }
                },
                None => {},
            }
        }
        state.update(self.step);
        state.after_step();
        proof {
            let h0 = batch0[0].handle().id;
            assert(base.event_ids().contains(h0));
            assert(base.event_time(h0) == t0 as int);
            assert forall|id: u64| #[trigger]
                self.event_ids().contains(id) implies self.event_time(id) > t0 by {
                if post_drain.event_ids().contains(id) && self.entries()[id]
                    == post_drain.entries()[id] {
                    assert(post_drain.event_time(id) > t0);
                } else {
                    assert(self.event_time(id) == t0 + 1);
                }
            }
            assert forall|id: u64| #[trigger]
                base.event_ids().contains(id) && base.event_time(id) > self.time as int implies
                self.event_ids().contains(id) && self.entries()[id] == base.entries()[id] by {
                if batch_has_id(batch0, id) {
                    let j = choose|j: int|
                        0 <= j < batch0.len() && (#[trigger] batch0[j]).handle().id == id;
                    assert(batch0[j].prio().time == t0);
                    assert(base.event_time(id) == t0 as int);
                    assert(false);
                }
                if post_drain.event_ids().contains(id) {
                } else {
                    assert(false);
                }
            }
            assert forall|c: int| #[trigger]
                base.times_below(c) implies self.times_below(c + 1) by {
                assert(base.event_time(h0) < c);
                assert forall|id: u64| #[trigger]
                    self.event_ids().contains(id) implies self.event_time(id) < c + 1 by {
                    if post_drain.event_ids().contains(id) && self.entries()[id]
                        == post_drain.entries()[id] {
                        assert(base.event_ids().contains(id));
                        assert(base.event_time(id) < c);
                    } else {
                        assert(self.event_time(id) == t0 + 1);
                    }
                }
            }
        }
    }

    /// Run `num_step` ticks in a row.
    pub fn simulate<S: State<A>>(&mut self, state: &mut S, num_step: u128) where A: Agent<S>
        requires
            old(self).wf(),
            old(self).step as int + num_step as int <= u64::MAX as int,
            num_step as int <= i64::MAX as int,
            old(self).times_below(i64::MAX as int - num_step as int),
        ensures
            final(self).wf(),
            final(self).step as int == old(self).step as int + num_step as int,
            final(self).threads() == old(self).threads(),
            old(self).event_ids().len() == 0 ==> final(self).entries() == old(self).entries()
                && final(self).time == old(self).time && final(self).handles() == old(self).handles(),
            forall|c: int| #[trigger]
                old(self).times_below(c) ==> final(self).times_below(c + num_step as int),
    {
        let mut k: u128 = 0;
        while k < num_step
            invariant
                self.wf(),
                k <= num_step,
                num_step as int <= i64::MAX as int,
                self.step as int == old(self).step as int + k as int,
                old(self).step as int + num_step as int <= u64::MAX as int,
                self.times_below(i64::MAX as int - num_step as int + k as int),
                self.thread_num == old(self).thread_num,
                old(self).event_ids().len() == 0 ==> self.entries() == old(self).entries()
                    && self.time == old(self).time && self.handles() == old(self).handles(),
                forall|c: int| #[trigger]
                    old(self).times_below(c) ==> self.times_below(c + k as int),
            decreases num_step - k,
        {
            proof {
                assert forall|id: u64| #[trigger]
                    self.event_ids().contains(id) implies self.event_time(id)
                    < i64::MAX as int by {
                    assert(self.event_time(id) < i64::MAX as int - num_step as int + k as int);
                }
            }
            let ghost pre = *self;
            self.step(state);
            k = k + 1;
            proof {
                assert(pre.times_below(i64::MAX as int - num_step as int + (k - 1) as int));
                assert(self.times_below(i64::MAX as int - num_step as int + (k - 1) as int + 1));
                assert forall|id: u64| #[trigger]
                    self.event_ids().contains(id) implies self.event_time(id)
                    < i64::MAX as int - num_step as int + k as int by {}
                if old(self).event_ids().len() == 0 {
                    assert(pre.event_ids().len() == 0);
                }
                assert forall|c: int| #[trigger]
                    old(self).times_below(c) implies self.times_below(c + k as int) by {
                    assert(pre.times_below(c + (k - 1) as int));
                    assert(self.times_below(c + (k - 1) as int + 1));
                }
            }
        }
    }
}

/// The chunk a batch position lands in under round-robin partitioning.
pub open spec fn rr_chunk(j: int, workers: int) -> int {
    j % workers
}

/// The position within its chunk of a batch position under round-robin
/// partitioning.
pub open spec fn rr_slot(j: int, workers: int) -> int {
    j / workers
}

/// The run-level face of dispatch ordering: within one tick the drained
/// batch comes out sorted (see `drain_due`), and across ticks the tick
/// times strictly increase, since a tick leaves only events that fire
/// strictly after it and the next nonempty tick settles on one of their
/// times. The two schedules are the states after two successive `step`
/// calls, related as `step`'s contract relates them.
pub proof fn law_tick_times_increase<A>(s1: Schedule<A>, s2: Schedule<A>)
    requires
        forall|id: u64| #[trigger]
            s1.event_ids().contains(id) ==> s1.event_time(id) > s1.time as int,
        exists|id: u64| #[trigger] s1.event_ids().contains(id) && s1.event_time(id)
            == s2.time as int,
    ensures
        s2.time > s1.time,
{
    let id = choose|id: u64| #[trigger] s1.event_ids().contains(id) && s1.event_time(id)
        == s2.time as int;
    assert(s1.event_time(id) > s1.time as int);
}

/// Distinct round-robin positions are distinct batch positions.
proof fn lemma_rr_index_injective(w: int, c1: int, k1: int, c2: int, k2: int)
    requires
        1 <= w,
        0 <= c1 < w,
        0 <= c2 < w,
        0 <= k1,
        0 <= k2,
        k1 * w + c1 == k2 * w + c2,
    ensures
        c1 == c2,
        k1 == k2,
{
    vstd::arithmetic::div_mod::lemma_fundamental_div_mod_converse(k1 * w + c1, w, k1, c1);
    vstd::arithmetic::div_mod::lemma_fundamental_div_mod_converse(k2 * w + c2, w, k2, c2);
}

/// A position within a round-robin chunk maps below the batch length.
proof fn lemma_rr_index_bound(n: int, w: int, c: int, k: int)
    requires
        1 <= w,
        0 <= c < w,
        0 <= n,
        0 <= k < (n - c + w - 1) / w,
    ensures
        k * w + c < n,
{
    vstd::arithmetic::div_mod::lemma_fundamental_div_mod(n - c + w - 1, w);
    vstd::arithmetic::div_mod::lemma_mod_bound(n - c + w - 1, w);
    let q = (n - c + w - 1) / w;
    assert(k * w + c < n) by (nonlinear_arith)
        requires
            n - c + w - 1 == w * q + (n - c + w - 1) % w,
            0 <= (n - c + w - 1) % w < w,
            0 <= k <= q - 1,
            0 <= c < w,
            1 <= w,
    ;
}

/// Whether the ids carried across a chunk structure are pairwise distinct.
pub open spec fn chunk_ids_distinct<A>(chunks: Seq<Vec<Pair<A>>>) -> bool {
    forall|c1: int, k1: int, c2: int, k2: int|
        #![trigger chunks[c1]@[k1], chunks[c2]@[k2]]
        0 <= c1 < chunks.len() && 0 <= k1 < chunks[c1]@.len() && 0 <= c2 < chunks.len() && 0 <= k2
            < chunks[c2]@.len() && (c1 != c2 || k1 != k2) ==> chunks[c1]@[k1].handle().id
            != chunks[c2]@[k2].handle().id
}

/// What the tick loop needs of every drained event: due at the tick time,
/// its id out of the queue and below the id counter.
pub open spec fn due_event<A>(p: Pair<A>, t0: i64, counter0: u64, entries0: Map<u64, (i64, i64)>) -> bool {
    &&& p.prio().time == t0
    &&& !entries0.contains_key(p.handle().id)
    &&& p.handle().id < counter0
}

/// Concatenate the chunks back into one processing order, chunk by chunk,
/// carrying each event's dueness and the pairwise distinctness of the ids.
fn flatten_chunks<A>(
    chunks: Vec<Vec<Pair<A>>>,
    t0: Ghost<i64>,
    counter0: Ghost<u64>,
    entries0: Ghost<Map<u64, (i64, i64)>>,
) -> (r: Vec<Pair<A>>)
    requires
        chunk_ids_distinct(chunks@),
        forall|c: int, k: int|
            #![trigger chunks@[c]@[k]]
            0 <= c < chunks@.len() && 0 <= k < chunks@[c]@.len() ==> due_event(
                chunks@[c]@[k],
                t0@,
                counter0@,
                entries0@,
            ),
    ensures
        forall|j: int|
            0 <= j < r@.len() ==> due_event(#[trigger] r@[j], t0@, counter0@, entries0@),
        forall|j1: int, j2: int|
            0 <= j1 < j2 < r@.len() ==> r@[j1].handle().id != r@[j2].handle().id,
{
    let ghost chunks0 = chunks@;
    let mut rest = chunks;
    let total_c = rest.len();
    let mut r: Vec<Pair<A>> = Vec::new();
    let ghost mut src: Seq<(int, int)> = Seq::empty();
    let mut cdone: usize = 0;
    while rest.len() > 0
        invariant
            chunk_ids_distinct(chunks0),
            forall|c: int, k: int|
                #![trigger chunks0[c]@[k]]
                0 <= c < chunks0.len() && 0 <= k < chunks0[c]@.len() ==> due_event(
                    chunks0[c]@[k],
                    t0@,
                    counter0@,
                    entries0@,
                ),
            total_c as int == chunks0.len(),
            cdone + rest@.len() == chunks0.len(),
            forall|c: int| 0 <= c < rest@.len() ==> #[trigger] rest@[c] == chunks0[cdone + c],
            src.len() == r@.len(),
            forall|j: int|
                0 <= j < r@.len() ==> 0 <= (#[trigger] src[j]).0 < chunks0.len() && 0 <= src[j].1
                    < chunks0[src[j].0]@.len() && src[j].0 < cdone && r@[j]
                    == chunks0[src[j].0]@[src[j].1],
            forall|j1: int, j2: int|
                0 <= j1 < j2 < src.len() ==> (#[trigger] src[j1]) != (#[trigger] src[j2]),
        decreases rest@.len(),
    {
        let mut cur = rest.remove(0);
        let ghost crow = cdone as int;
        let total_k = cur.len();
        let mut kdone: usize = 0;
        while cur.len() > 0
            invariant
                chunk_ids_distinct(chunks0),
                forall|c: int, k: int|
                    #![trigger chunks0[c]@[k]]
                    0 <= c < chunks0.len() && 0 <= k < chunks0[c]@.len() ==> due_event(
                        chunks0[c]@[k],
                        t0@,
                        counter0@,
                        entries0@,
                    ),
                0 <= crow < chunks0.len(),
                total_k as int == chunks0[crow]@.len(),
                kdone + cur@.len() == chunks0[crow]@.len(),
                forall|k: int|
                    0 <= k < cur@.len() ==> #[trigger] cur@[k] == chunks0[crow]@[kdone + k],
                src.len() == r@.len(),
                forall|j: int|
                    0 <= j < r@.len() ==> 0 <= (#[trigger] src[j]).0 < chunks0.len() && 0
                        <= src[j].1 < chunks0[src[j].0]@.len() && (src[j].0 < crow || (src[j].0
                        == crow && src[j].1 < kdone)) && r@[j] == chunks0[src[j].0]@[src[j].1],
                forall|j1: int, j2: int|
                    0 <= j1 < j2 < src.len() ==> (#[trigger] src[j1]) != (#[trigger] src[j2]),
            decreases cur@.len(),
        {
            let item = cur.remove(0);
            r.push(item);
            proof {
                src = src.push((crow, kdone as int));
                assert(item == chunks0[crow]@[kdone as int]);
            }
            kdone += 1;
        }
        cdone += 1;
    }
    proof {
        assert forall|j: int|
            0 <= j < r@.len() implies due_event(#[trigger] r@[j], t0@, counter0@, entries0@) by {
            assert(r@[j] == chunks0[src[j].0]@[src[j].1]);
        }
        assert forall|j1: int, j2: int|
            0 <= j1 < j2 < r@.len() implies r@[j1].handle().id != r@[j2].handle().id by {
            let (c1, k1) = src[j1];
            let (c2, k2) = src[j2];
            assert(chunks0[c1]@[k1].handle().id != chunks0[c2]@[k2].handle().id);
        }
    }
    r
}

/// Push `item` onto the chunk at `i`.
fn push_chunk<A>(chunks: &mut Vec<Vec<Pair<A>>>, i: usize, item: Pair<A>)
    requires
        i < old(chunks)@.len(),
    ensures
        final(chunks)@.len() == old(chunks)@.len(),
        final(chunks)@[i as int]@ == old(chunks)@[i as int]@.push(item),
        forall|c: int|
            0 <= c < old(chunks)@.len() && c != i ==> final(chunks)@[c] == old(chunks)@[c],
{
    let v = &mut chunks[i];
    v.push(item);
}

/// Split a drained batch into `workers` chunks, round-robin in dequeue
/// order: the event at batch position `k * workers + c` lands in chunk `c`
/// at position `k`. A parallel driver hands each chunk to one worker and
/// merges the workers' reschedules after they join; the partition itself
/// decides nothing about execution.
pub fn partition_round_robin<A>(batch: Vec<Pair<A>>, workers: usize) -> (chunks: Vec<
    Vec<Pair<A>>,
>)
    requires
        workers >= 1,
    ensures
        chunks@.len() == workers,
        forall|c: int|
            0 <= c < workers ==> (#[trigger] chunks@[c])@.len() == (batch@.len() - c + workers
                - 1) / (workers as int),
        forall|c: int, k: int|
            #![trigger chunks@[c]@[k]]
            0 <= c < workers && 0 <= k < chunks@[c]@.len() ==> chunks@[c]@[k] == batch@[k
                * workers + c],
        forall|j: int|
            0 <= j < batch@.len() ==> 0 <= #[trigger] rr_chunk(j, workers as int) < workers && 0
                <= rr_slot(j, workers as int) < chunks@[rr_chunk(j, workers as int)]@.len()
                && chunks@[rr_chunk(j, workers as int)]@[rr_slot(j, workers as int)] == batch@[j],
{
    let ghost orig = batch@;
    let mut rest = batch;
    let total = rest.len();
    let mut chunks: Vec<Vec<Pair<A>>> = Vec::new();
    let mut c0: usize = 0;
    while c0 < workers
        invariant
            c0 <= workers,
            chunks@.len() == c0,
            forall|c: int| 0 <= c < c0 ==> (#[trigger] chunks@[c])@.len() == 0,
        decreases workers - c0,
    {
        chunks.push(Vec::new());
        c0 += 1;
    }
    let mut ci: usize = 0;
    let mut rounds: usize = 0;
    while rest.len() > 0
        invariant
            workers >= 1,
            chunks@.len() == workers,
            ci < workers,
            orig.len() == total as int,
            rounds * workers + ci == orig.len() - rest@.len(),
            rest@ == orig.skip(orig.len() - rest@.len()),
            forall|c: int|
                0 <= c < ci ==> (#[trigger] chunks@[c])@.len() == rounds + 1,
            forall|c: int|
                ci <= c < workers ==> (#[trigger] chunks@[c])@.len() == rounds,
            forall|c: int, k: int|
                #![trigger chunks@[c]@[k]]
                0 <= c < workers && 0 <= k < chunks@[c]@.len() ==> chunks@[c]@[k] == orig[k
                    * workers + c],
        decreases rest@.len(),
    {
        let ghost done = orig.len() - rest@.len();
        let item = rest.remove(0);
        proof {
            assert(rest@ =~= orig.skip(orig.len() - rest@.len()));
            assert(item == orig[done as int]);
            assert(rounds * workers + ci == done);
            assert(chunks@[ci as int]@.len() == rounds);
        }
        let ghost pre_chunks = chunks@;
        push_chunk(&mut chunks, ci, item);
        proof {
            assert(chunks@[ci as int]@[rounds as int] == orig[rounds as int * workers + ci]);
            assert forall|c: int, k: int|
                #![trigger chunks@[c]@[k]]
                0 <= c < workers && 0 <= k < chunks@[c]@.len() implies chunks@[c]@[k] == orig[k
                * workers + c] by {
                if c == ci && k == rounds {
                    assert(k * workers + c == done);
                    assert(chunks@[c]@[k] == orig[k * workers + c]);
                } else if c == ci {
                    assert(chunks@[c]@[k] == pre_chunks[c]@[k]);
                    assert(pre_chunks[c]@[k] == orig[k * workers + c]);
                } else {
                    assert(chunks@[c] == pre_chunks[c]);
                    assert(pre_chunks[c]@[k] == orig[k * workers + c]);
                }
            }
        }
        ci += 1;
        if ci == workers {
            proof {
                assert((rounds + 1) * workers == rounds * workers + workers) by (nonlinear_arith);
                assert(rounds * workers + workers == orig.len() - rest@.len());
                assert(rounds + 1 <= rounds * workers + workers) by (nonlinear_arith)
                    requires
                        workers >= 1,
                        rounds >= 0,
                ;
                assert(rounds + 1 <= total);
            }
            ci = 0;
            rounds += 1;
        }
    }
    proof {
        let n = orig.len() as int;
        assert forall|c: int| 0 <= c < workers implies (#[trigger] chunks@[c])@.len() == (n - c
            + workers - 1) / (workers as int) by {
            if c < ci {
                assert(chunks@[c]@.len() == rounds + 1);
                assert(n - c + workers - 1 == (rounds + 1) * (workers as int) + (ci - c
                    - 1)) by (nonlinear_arith)
                    requires
                        n == rounds * workers + ci,
                ;
                vstd::arithmetic::div_mod::lemma_fundamental_div_mod_converse(
                    n - c + workers - 1,
                    workers as int,
                    rounds as int + 1,
                    ci - c - 1,
                );
            } else {
                assert(chunks@[c]@.len() == rounds);
                assert(n - c + workers - 1 == rounds * (workers as int) + (ci + workers - c
                    - 1)) by (nonlinear_arith)
                    requires
                        n == rounds * workers + ci,
                ;
                vstd::arithmetic::div_mod::lemma_fundamental_div_mod_converse(
                    n - c + workers - 1,
                    workers as int,
                    rounds as int,
                    ci + workers - c - 1,
                );
            }
        }
        assert(rounds * workers + ci == n);
        assert forall|j: int| 0 <= j < n implies 0 <= #[trigger] rr_chunk(j, workers as int)
            < workers && 0 <= rr_slot(j, workers as int) < chunks@[rr_chunk(
            j,
            workers as int,
        )]@.len() && chunks@[rr_chunk(j, workers as int)]@[rr_slot(j, workers as int)]
            == orig[j] by {
            vstd::arithmetic::div_mod::lemma_fundamental_div_mod(j, workers as int);
            vstd::arithmetic::div_mod::lemma_mod_bound(j, workers as int);
            let c = j % (workers as int);
            let k = j / (workers as int);
            vstd::arithmetic::div_mod::lemma_div_pos_is_pos(j, workers as int);
            assert(j == (workers as int) * k + c);
            assert(k * workers + c == j) by (nonlinear_arith)
                requires
                    j == (workers as int) * k + c,
            ;
            if c < ci {
                assert(chunks@[c]@.len() == rounds + 1);
                assert(k <= rounds) by (nonlinear_arith)
                    requires
                        k * workers + c == j,
                        j < rounds * workers + ci,
                        0 <= c,
                        ci <= workers,
                        0 <= k,
                        workers >= 1,
                ;
            } else {
                assert(chunks@[c]@.len() == rounds);
                assert(k < rounds) by (nonlinear_arith)
                    requires
                        k * workers + c == j,
                        j < rounds * workers + ci,
                        ci <= c < workers,
                        0 <= k,
                        workers >= 1,
                ;
            }
            assert(chunks@[c]@[k] == orig[k * workers + c]);
        }
    }
    chunks
}

} // verus!
