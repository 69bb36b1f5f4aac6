//! The handle wrapping an agent value inside the schedule.

use vstd::prelude::*;

verus! {

/// A scheduled agent: the user's agent value, the engine-assigned id that
/// identifies it in the event queue, and whether its event repeats.
pub struct AgentImpl<A> {
    pub id: u64,
    pub agent: A,
    pub repeating: bool,
}

impl<A> AgentImpl<A> {
    /// Wrap `the_agent` under the id the schedule assigned; the handle does
    /// not repeat until a caller says so.
    pub fn new(the_agent: A, the_id: u64) -> (a: AgentImpl<A>)
        ensures
            a.id == the_id,
            a.agent == the_agent,
            a.repeating == false,
    {
        AgentImpl { id: the_id, agent: the_agent, repeating: false }
    }

    /// The engine-assigned id, taking the handle.
    pub fn id(self) -> (r: u64)
        ensures
            r == self.id,
    {
        self.id
    }
}

} // verus!
