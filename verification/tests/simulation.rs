use agent_engine::agent::Agent;
use agent_engine::dbm::DoubleBufferedMap;
use agent_engine::field2d::{Field2D, Int2D};
use agent_engine::schedule::{Schedule, ScheduleOptions};
use agent_engine::state::State;

struct GridState {
    field: Field2D,
}

impl State<Walker> for GridState {
    fn reset(&mut self) {}
    fn init(&mut self, _schedule: &mut Schedule<Walker>) {}
    fn update(&mut self, _step: u64) {
        self.field.update();
    }
    fn before_step(&mut self) {}
    fn after_step(&mut self) {}
}

#[derive(Clone)]
struct Walker {
    id: u64,
}

impl Agent<GridState> for Walker {
    fn step(&mut self, state: &mut GridState) {
        let here = state.field.get_location(self.id).unwrap();
        state
            .field
            .set_object_location(self.id, Int2D { x: here.x + 1, y: here.y });
    }
    fn get_id(&self) -> u64 {
        self.id
    }
}

#[test]
fn walkers_see_their_moves_only_after_the_tick() {
    let mut schedule: Schedule<Walker> = Schedule::new();
    let mut state = GridState { field: Field2D::new(200, 100, 10, false) };
    for i in 0..100u64 {
        state.field.set_object_location(i, Int2D { x: (i % 50) as i64, y: (i / 2) as i64 });
        schedule.schedule_repeating(Walker { id: i }, 0, 0);
    }
    state.field.update();
    schedule.step(&mut state);
    for i in 0..100u64 {
        let p = state.field.get_location(i).unwrap();
        assert_eq!(p.x, (i % 50) as i64 + 1);
        assert_eq!(p.y, (i / 2) as i64);
    }
    schedule.step(&mut state);
    for i in 0..100u64 {
        let p = state.field.get_location(i).unwrap();
        assert_eq!(p.x, (i % 50) as i64 + 2);
    }
}

struct TallyState {
    tally: DoubleBufferedMap<u64>,
}

impl State<Incrementer> for TallyState {
    fn reset(&mut self) {}
    fn init(&mut self, _schedule: &mut Schedule<Incrementer>) {}
    fn update(&mut self, _step: u64) {
        self.tally.update();
    }
    fn before_step(&mut self) {}
    fn after_step(&mut self) {}
}

#[derive(Clone)]
struct Incrementer;

impl Agent<TallyState> for Incrementer {
    fn step(&mut self, state: &mut TallyState) {
        let current = match state.tally.get_write(0) {
            Some(v) => *v,
            None => 0,
        };
        state.tally.insert(0, current + 1);
    }
    fn get_id(&self) -> u64 {
        0
    }
}

fn run_tally(workers: usize, agents: u64, steps: u128) -> u64 {
    let mut schedule: Schedule<Incrementer> = Schedule::with_threads(workers);
    let mut state = TallyState { tally: DoubleBufferedMap::new() };
    for _ in 0..agents {
        schedule.schedule_repeating(Incrementer, 0, 0);
    }
    schedule.simulate(&mut state, steps);
    *state.tally.get(0).unwrap()
}

#[test]
fn commutative_tallies_agree_across_worker_counts() {
    let agents: u64 = 10_000;
    let a = run_tally(1, agents, 1);
    let b = run_tally(4, agents, 1);
    let c = run_tally(16, agents, 1);
    assert_eq!(a, agents);
    assert_eq!(b, agents);
    assert_eq!(c, agents);
}

struct ProbeState {
    field: Field2D,
    seen_mid_tick: Option<Int2D>,
}

impl State<Prober> for ProbeState {
    fn reset(&mut self) {}
    fn init(&mut self, _schedule: &mut Schedule<Prober>) {}
    fn update(&mut self, _step: u64) {
        self.field.update();
    }
    fn before_step(&mut self) {}
    fn after_step(&mut self) {}
}

#[derive(Clone)]
enum Prober {
    Mover,
    Probe,
}

impl Agent<ProbeState> for Prober {
    fn step(&mut self, state: &mut ProbeState) {
        match self {
            Prober::Mover => {
                let here = state.field.get_location(0).unwrap();
                state
                    .field
                    .set_object_location(0, Int2D { x: here.x + 1, y: here.y });
            }
            Prober::Probe => {
                state.seen_mid_tick = state.field.get_location(0);
            }
        }
    }
    fn get_id(&self) -> u64 {
        0
    }
}

#[test]
fn a_probe_in_the_same_tick_still_sees_the_old_position() {
    let mut schedule: Schedule<Prober> = Schedule::new();
    let mut state = ProbeState {
        field: Field2D::new(100, 100, 10, false),
        seen_mid_tick: None,
    };
    state.field.set_object_location(0, Int2D { x: 10, y: 10 });
    state.field.update();
    // The mover runs first (greater ordering), then the probe; the probe
    // still reads the published snapshot of the prior tick.
    schedule.schedule_repeating(Prober::Mover, 0, 5);
    schedule.schedule_repeating(Prober::Probe, 0, 1);
    schedule.step(&mut state);
    assert_eq!(state.seen_mid_tick, Some(Int2D { x: 10, y: 10 }));
    assert_eq!(state.field.get_location(0), Some(Int2D { x: 11, y: 10 }));
}
