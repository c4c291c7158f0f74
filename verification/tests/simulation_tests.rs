use nexus_core::checksum::checksum_for_state;
use nexus_core::intent::{Arg, ArgValue, Intent, IntentError};
use nexus_core::pipeline::Outcome;
use nexus_core::replay::{InputEvent, RecordedFrame};
use nexus_core::simulation::Simulation;
use nexus_core::snapshot::Vec3;
use nexus_core::store::WorldStateStore;

fn v(x: f32, y: f32, z: f32) -> Vec3 {
    Vec3::new(x.to_bits(), y.to_bits(), z.to_bits())
}

fn vector(name: &str, x: f32, y: f32, z: f32) -> Arg {
    Arg { name: name.to_string(), value: ArgValue::Vector(vec![x.to_bits(), y.to_bits(), z.to_bits()]) }
}

fn handle(name: &str, id: u64) -> Arg {
    Arg { name: name.to_string(), value: ArgValue::Handle(id) }
}

fn intent(verb: &str, args: Vec<Arg>) -> Intent {
    Intent { verb: verb.to_string(), args }
}

fn event(tick: u64, action: &str, data: Vec<Arg>) -> InputEvent {
    InputEvent { tick, action: action.to_string(), data }
}

fn spawn_args(x: f32, vx: f32) -> Vec<Arg> {
    vec![vector("pos", x, 0.0, 0.0), vector("vel", vx, 0.0, 0.0), vector("size", 1.0, 1.0, 1.0)]
}

fn sum(a: u32, b: u32) -> u32 {
    (f32::from_bits(a) + f32::from_bits(b)).to_bits()
}

fn advance(p: u32, v: u32, dt: u32) -> u32 {
    (f32::from_bits(p) + f32::from_bits(v) * f32::from_bits(dt)).to_bits()
}

fn script() -> Vec<(Vec<Intent>, Vec<InputEvent>)> {
    vec![
        (vec![intent("Spawn", spawn_args(0.0, 1.0))], vec![]),
        (
            vec![intent("ApplyForce", vec![handle("entity", 1), vector("impulse", 0.0, 10.0, 0.0)])],
            vec![event(2, "Spawn", spawn_args(4.0, 0.0))],
        ),
        (vec![], vec![]),
        (vec![intent("Move", vec![handle("entity", 1)])], vec![event(9, "Despawn", vec![handle("entity", 1)])]),
        (vec![], vec![event(5, "Move", vec![handle("entity", 2), vector("vel", 0.0, 0.0, -2.0)])]),
    ]
}

#[test]
fn a_tick_runs_its_phases_in_order() {
    let mut sim = Simulation::new();
    sim.submit(intent("Spawn", spawn_args(1.0, 2.0)));
    let report = sim.step(
        vec![intent("Move", vec![handle("entity", 1), vector("vel", 4.0, 0.0, 0.0)])],
        vec![event(1, "ApplyForce", vec![handle("entity", 1), vector("impulse", 0.0, 1.0, 0.0)])],
        0.5f32.to_bits(),
        &sum,
        &advance,
    );
    assert_eq!(report.tick, 1);
    assert_eq!(sim.current_tick(), 1);
    assert_eq!(
        report.outcomes,
        vec![Outcome::Spawned(1), Outcome::Moved(1), Outcome::Pushed(1, v(4.0, 1.0, 0.0))]
    );
    assert_eq!(report.frame, None);
    assert!(!report.replay_finished);
    assert_eq!(report.corrected_stamps, 0);
    let e = *report.entities.get(&1).unwrap();
    assert_eq!(e.pos, v(3.0, 0.5, 0.0));
    assert_eq!(e.vel, v(4.0, 1.0, 0.0));
    assert_eq!(sim.current_world().entities().to_hash_map(), report.entities);
}

#[test]
fn a_wrongly_stamped_event_is_counted_and_still_applied() {
    let mut sim = Simulation::record();
    let report = sim.step(vec![], vec![event(7, "Spawn", spawn_args(0.0, 0.0))], 0, &sum, &advance);
    assert_eq!(report.corrected_stamps, 1);
    assert_eq!(report.outcomes, vec![Outcome::Spawned(1)]);
    let frame = report.frame.unwrap();
    assert_eq!(frame.tick, 1);
    assert!(frame.intents.is_empty());
    assert_eq!(frame.input_events, vec![event(1, "Spawn", spawn_args(0.0, 0.0))]);
}

#[test]
fn recording_builds_a_frame_only_where_something_happened() {
    let mut sim = Simulation::record();
    let quiet = sim.step(vec![], vec![], 0.5f32.to_bits(), &sum, &advance);
    assert_eq!(quiet.frame, None);
    let busy = sim.step(vec![intent("Nonsense", vec![])], vec![], 0.5f32.to_bits(), &sum, &advance);
    assert_eq!(busy.outcomes, vec![Outcome::Rejected(IntentError::UnknownVerb)]);
    assert_eq!(
        busy.frame,
        Some(RecordedFrame { tick: 2, intents: vec![intent("Nonsense", vec![])], input_events: vec![] })
    );
}

fn record_run() -> (Vec<RecordedFrame>, Vec<u64>) {
    let mut sim = Simulation::record();
    let mut store = WorldStateStore::new();
    let mut frames = Vec::new();
    let mut checksums = Vec::new();
    for (direct, events) in script() {
        let report = sim.step(direct, events, 0.25f32.to_bits(), &sum, &advance);
        if let Some(frame) = report.frame {
            frames.push(frame);
        }
        store.update(report.entities);
        checksums.push(store.current_checksum());
    }
    (frames, checksums)
}

#[test]
fn a_replay_reproduces_every_checksum_of_the_recorded_run() {
    let (frames, checksums) = record_run();
    assert_eq!(frames.len(), 4);
    let (mut sim, warnings) = Simulation::replay_of(frames);
    assert_eq!(warnings, 0);
    let mut store = WorldStateStore::new();
    let mut finished_at = None;
    for tick in 1..=6u64 {
        let report = sim.step(vec![], vec![], 0.25f32.to_bits(), &sum, &advance);
        store.update(report.entities);
        if tick <= 5 {
            assert_eq!(store.current_checksum(), checksums[tick as usize - 1]);
        }
        if report.replay_finished {
            assert_eq!(finished_at, None);
            finished_at = Some(tick);
        }
    }
    assert_eq!(finished_at, Some(5));
    assert_eq!(sim.current_tick(), 6);
    assert_eq!(
        store.current_checksum(),
        checksum_for_state(6, &sim.current_world().entities().to_vec())
    );
}

#[test]
fn a_replay_of_nothing_ends_at_once() {
    let (mut sim, _) = Simulation::replay_of(vec![]);
    let report = sim.step(vec![], vec![], 0, &sum, &advance);
    assert!(report.replay_finished);
    let again = sim.step(vec![], vec![], 0, &sum, &advance);
    assert!(!again.replay_finished);
}

#[test]
fn overdue_frames_are_fed_back_together() {
    let frames = vec![
        RecordedFrame { tick: 2, intents: vec![intent("Spawn", spawn_args(0.0, 0.0))], input_events: vec![] },
        RecordedFrame { tick: 1, intents: vec![intent("Spawn", spawn_args(1.0, 0.0))], input_events: vec![] },
        RecordedFrame { tick: 4, intents: vec![intent("Despawn", vec![handle("entity", 1)])], input_events: vec![] },
    ];
    let (mut sim, warnings) = Simulation::replay_of(frames);
    assert_eq!(warnings, 1);
    assert!(sim.step(vec![], vec![], 0, &sum, &advance).outcomes.is_empty());
    let second = sim.step(vec![], vec![], 0, &sum, &advance);
    assert_eq!(second.outcomes, vec![Outcome::Spawned(1), Outcome::Spawned(2)]);
    assert!(sim.step(vec![], vec![], 0, &sum, &advance).outcomes.is_empty());
    let fourth = sim.step(vec![], vec![], 0, &sum, &advance);
    assert_eq!(fourth.outcomes, vec![Outcome::Despawned(1)]);
    assert!(fourth.replay_finished);
}

fn fall(position: Vec3, velocity: Vec3, _size: Vec3) -> (Vec3, Vec3) {
    let y = f32::from_bits(velocity.y) - 0.5;
    (position, Vec3::new(velocity.x, y.to_bits(), velocity.z))
}

fn floor(position: Vec3, velocity: Vec3, size: Vec3) -> (Vec3, Vec3) {
    let half = f32::from_bits(size.y) * 0.5;
    if f32::from_bits(position.y) - half < 0.0 {
        (Vec3::new(position.x, half.to_bits(), position.z), Vec3::new(velocity.x, 0.0f32.to_bits(), velocity.z))
    } else {
        (position, velocity)
    }
}

#[test]
fn settling_acts_on_every_entity_and_keeps_handles_and_sizes() {
    let mut sim = Simulation::new();
    sim.step(
        vec![intent("Spawn", spawn_args(0.0, 1.0)), intent("Spawn", spawn_args(3.0, 0.0))],
        vec![],
        0.0f32.to_bits(),
        &sum,
        &advance,
    );
    sim.settle(&fall);
    let after = sim.current_world().entities().to_vec();
    assert_eq!(sim.current_tick(), 1);
    assert_eq!(after.len(), 2);
    assert_eq!(after[0].id, 1);
    assert_eq!(after[0].pos, v(0.0, 0.0, 0.0));
    assert_eq!(after[0].vel, v(1.0, -0.5, 0.0));
    assert_eq!(after[0].size, v(1.0, 1.0, 1.0));
    assert_eq!(after[1].id, 2);
    assert_eq!(after[1].pos, v(3.0, 0.0, 0.0));
    assert_eq!(after[1].vel, v(0.0, -0.5, 0.0));
    sim.settle(&floor);
    let rested = sim.current_world().entities().to_vec();
    assert_eq!(rested[0].pos, v(0.0, 0.5, 0.0));
    assert_eq!(rested[0].vel, v(1.0, 0.0, 0.0));
    assert_eq!(rested[1].pos, v(3.0, 0.5, 0.0));
    assert_eq!(rested[1].vel, v(0.0, 0.0, 0.0));
    let report = sim.step(vec![intent("Spawn", spawn_args(9.0, 0.0))], vec![], 0.0f32.to_bits(), &sum, &advance);
    assert_eq!(report.outcomes, vec![Outcome::Spawned(3)]);
}

#[test]
fn a_replay_with_settling_reproduces_the_recorded_run() {
    let mut recorded = Simulation::record();
    let mut frames = Vec::new();
    let mut checksums = Vec::new();
    for (tick, (direct, events)) in script().into_iter().enumerate() {
        recorded.settle(&fall);
        let report = recorded.step(direct, events, 0.25f32.to_bits(), &sum, &advance);
        recorded.settle(&floor);
        if let Some(frame) = report.frame {
            frames.push(frame);
        }
        let entities = recorded.current_world().entities().to_vec();
        checksums.push(checksum_for_state(tick as u64 + 1, &entities));
    }
    let (mut replay, steps_back) = Simulation::replay_of(frames);
    assert_eq!(steps_back, 0);
    for (tick, expected) in checksums.iter().enumerate() {
        replay.settle(&fall);
        replay.step(vec![], vec![], 0.25f32.to_bits(), &sum, &advance);
        replay.settle(&floor);
        let entities = replay.current_world().entities().to_vec();
        assert_eq!(checksum_for_state(tick as u64 + 1, &entities), *expected);
    }
    assert_eq!(
        replay.current_world().entities().to_vec(),
        recorded.current_world().entities().to_vec()
    );
}
