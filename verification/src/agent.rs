//! The contract between the engine and user-written agents.

use vstd::prelude::*;

use crate::schedule::ScheduleOptions;

verus! {

/// A simulated agent, stepped by the schedule against a user state of type
/// `S`.
///
/// The methods run user code the engine knows nothing about; the schedule
/// calls them in a fixed order each tick and promises nothing of what they
/// do to the state.
pub trait Agent<S>: Sized {
    /// One action of the agent: read the state's fields on their read views,
    /// stage writes on their write views. An agent must not publish a field
    /// itself.
    fn step(&mut self, state: &mut S);

    /// Whether the agent leaves the schedule after the current event;
    /// agents stay unless they say otherwise.
    fn should_remove(&mut self, _state: &mut S) -> bool {
        false
    }

    /// Agents to schedule one tick after the current event, each with its
    /// options; none unless the agent says otherwise. A returned agent
    /// must not already sit in the schedule.
    fn should_reproduce(&mut self, _state: &mut S) -> Option<Vec<(Self, ScheduleOptions)>> {
        None
    }

    /// The agent's own identifier, free for user code; the schedule keys
    /// events by the engine-assigned handle id instead.
    fn get_id(&self) -> u64;
}

} // verus!
