//! The contract between the engine and the user-supplied simulation state.

use vstd::prelude::*;

use crate::schedule::Schedule;

verus! {

/// The user state a schedule of `A` agents drives: the owner of every
/// field.
///
/// `update` is the publication barrier: the state must call `update` (or
/// `lazy_update`) on each field it owns, so that every write staged during
/// the tick becomes visible on the read views of the next tick.
pub trait State<A> {
    /// Reinitialize all fields and counters to the pre-init baseline.
    fn reset(&mut self);

    /// Populate the initial agents and field contents. Called by the
    /// driver, before the first tick.
    fn init(&mut self, schedule: &mut Schedule<A>);

    /// Publish every field: promote each field's write view. Called by the
    /// schedule once per tick, after all agents of the tick ran.
    fn update(&mut self, step: u64) {
    }

    /// Housekeeping before the events of a tick are drained. The schedule
    /// is mid-tick here, so the hook sees the state alone; a driver that
    /// wants to reschedule between ticks does so around `step`, or in
    /// `init`.
    fn before_step(&mut self);

    /// Housekeeping after the tick's publication.
    fn after_step(&mut self);
}

} // verus!
