use agent_engine::agent::Agent;
use agent_engine::agentimpl::AgentImpl;
use agent_engine::schedule::{Schedule, ScheduleOptions};
use agent_engine::state::State;

struct CounterState {
    count: u64,
}

impl State<Tick> for CounterState {
    fn reset(&mut self) {
        self.count = 0;
    }
    fn init(&mut self, _schedule: &mut Schedule<Tick>) {}
    fn update(&mut self, _step: u64) {}
    fn before_step(&mut self) {}
    fn after_step(&mut self) {}
}

#[derive(Clone)]
struct Tick;

impl Agent<CounterState> for Tick {
    fn step(&mut self, state: &mut CounterState) {
        state.count += 1;
    }
    fn get_id(&self) -> u64 {
        0
    }
}

#[test]
fn empty_tick_advances_the_step_only() {
    let mut schedule: Schedule<Tick> = Schedule::new();
    let mut state = CounterState { count: 0 };
    schedule.step(&mut state);
    assert_eq!(schedule.step, 1);
    assert_eq!(schedule.queue_len(), 0);
    assert_eq!(state.count, 0);
}

#[test]
fn repeating_agent_fires_every_tick() {
    let mut schedule: Schedule<Tick> = Schedule::new();
    let mut state = CounterState { count: 0 };
    schedule.schedule_repeating(Tick, 0, 0);
    schedule.simulate(&mut state, 10);
    assert_eq!(state.count, 10);
    assert_eq!(schedule.queue_len(), 1);
    // The one remaining event sits at time 10: the queue keys events by
    // the negated time.
    let head = schedule.events.peek().unwrap();
    assert_eq!(-(head.1 .0), 10);
}

struct LogState {
    log: Vec<u64>,
}

impl State<Logger> for LogState {
    fn reset(&mut self) {
        self.log.clear();
    }
    fn init(&mut self, _schedule: &mut Schedule<Logger>) {}
    fn update(&mut self, _step: u64) {}
    fn before_step(&mut self) {}
    fn after_step(&mut self) {}
}

#[derive(Clone)]
struct Logger {
    name: u64,
}

impl Agent<LogState> for Logger {
    fn step(&mut self, state: &mut LogState) {
        state.log.push(self.name);
    }
    fn get_id(&self) -> u64 {
        self.name
    }
}

#[test]
fn higher_ordering_runs_first_within_a_time() {
    let mut schedule: Schedule<Logger> = Schedule::new();
    let mut state = LogState { log: Vec::new() };
    schedule.schedule_repeating(Logger { name: 1 }, 0, 5);
    schedule.schedule_repeating(Logger { name: 2 }, 0, 1);
    schedule.step(&mut state);
    assert_eq!(state.log, vec![1, 2]);
}

#[test]
fn earlier_times_run_before_later_ones() {
    let mut schedule: Schedule<Logger> = Schedule::new();
    let mut state = LogState { log: Vec::new() };
    schedule.schedule_repeating(Logger { name: 1 }, 2, 0);
    schedule.schedule_repeating(Logger { name: 2 }, 0, 0);
    schedule.step(&mut state);
    assert_eq!(state.log, vec![2]);
    assert_eq!(schedule.time, 0);
    schedule.step(&mut state);
    schedule.step(&mut state);
    // At time 2 both are due; ties go to the insertion with the greater
    // ordering, here equal, so both fire.
    assert_eq!(state.log.len(), 4);
    assert_eq!(schedule.time, 2);
}

#[test]
fn one_shot_agents_leave_the_schedule() {
    let mut schedule: Schedule<Logger> = Schedule::new();
    let mut state = LogState { log: Vec::new() };
    let handle = AgentImpl::new(Logger { name: 9 }, 42);
    schedule.schedule_once(handle, 0, 0);
    assert_eq!(schedule.queue_len(), 1);
    schedule.step(&mut state);
    assert_eq!(state.log, vec![9]);
    assert_eq!(schedule.queue_len(), 0);
    schedule.step(&mut state);
    assert_eq!(state.log, vec![9]);
}

struct SpawnState {
    steps_seen: u64,
}

impl State<Spawner> for SpawnState {
    fn reset(&mut self) {
        self.steps_seen = 0;
    }
    fn init(&mut self, _schedule: &mut Schedule<Spawner>) {}
    fn update(&mut self, _step: u64) {}
    fn before_step(&mut self) {}
    fn after_step(&mut self) {}
}

#[derive(Clone)]
struct Spawner {
    generation: u64,
}

impl Agent<SpawnState> for Spawner {
    fn step(&mut self, state: &mut SpawnState) {
        state.steps_seen += 1;
    }
    fn should_remove(&mut self, _state: &mut SpawnState) -> bool {
        true
    }
    fn should_reproduce(
        &mut self,
        _state: &mut SpawnState,
    ) -> Option<Vec<(Spawner, ScheduleOptions)>> {
        if self.generation < 3 {
            Some(vec![(
                Spawner { generation: self.generation + 1 },
                ScheduleOptions { ordering: 0, repeating: false },
            )])
        } else {
            None
        }
    }
    fn get_id(&self) -> u64 {
        self.generation
    }
}

#[test]
fn children_fire_one_tick_after_their_parent() {
    let mut schedule: Schedule<Spawner> = Schedule::new();
    let mut state = SpawnState { steps_seen: 0 };
    let handle = AgentImpl::new(Spawner { generation: 0 }, 0);
    schedule.schedule_once(handle, 0, 0);
    schedule.simulate(&mut state, 4);
    // Generations fire once each at times 0, 1, 2, 3.
    assert_eq!(state.steps_seen, 4);
    assert_eq!(schedule.queue_len(), 0);
}

#[test]
fn drained_batches_split_round_robin() {
    let mut schedule: Schedule<Logger> = Schedule::new();
    for name in 0..5u64 {
        schedule.schedule_repeating(Logger { name }, 0, name as i64);
    }
    let batch = schedule.drain_due();
    assert_eq!(batch.len(), 5);
    assert_eq!(schedule.queue_len(), 0);
    let chunks = agent_engine::schedule::partition_round_robin(batch, 2);
    assert_eq!(chunks.len(), 2);
    assert_eq!(chunks[0].len(), 3);
    assert_eq!(chunks[1].len(), 2);
}

struct SeededState {
    count: u64,
    population: u64,
}

impl State<Counted> for SeededState {
    fn reset(&mut self) {
        self.count = 0;
    }
    fn init(&mut self, schedule: &mut Schedule<Counted>) {
        self.count = 0;
        for ordering in 0..self.population {
            schedule.schedule_repeating(Counted, 0, ordering as i64);
        }
    }
    fn update(&mut self, _step: u64) {}
    fn before_step(&mut self) {}
    fn after_step(&mut self) {}
}

#[derive(Clone)]
struct Counted;

impl Agent<SeededState> for Counted {
    fn step(&mut self, state: &mut SeededState) {
        state.count += 1;
    }
    fn get_id(&self) -> u64 {
        0
    }
}

#[test]
fn a_driver_initializes_through_the_state() {
    let mut schedule: Schedule<Counted> = Schedule::new();
    let mut state = SeededState { count: 0, population: 5 };
    state.init(&mut schedule);
    assert_eq!(schedule.queue_len(), 5);
    schedule.simulate(&mut state, 2);
    assert_eq!(state.count, 10);
}
