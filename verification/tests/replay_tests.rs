use nexus_core::checksum::checksum_for_state;
use nexus_core::intent::{Arg, ArgValue, Intent};
use nexus_core::pipeline::{IntentPipeline, World};
use nexus_core::replay::{
    build_frame, inject_frame, position_total, replay_checksum, stamp_events, InputEvent,
    RecordedFrame, ReplayQueue, SimulationMode,
};
use nexus_core::snapshot::Vec3;
use nexus_core::store::WorldStateStore;

fn vector(name: &str, x: f32, y: f32, z: f32) -> Arg {
    Arg { name: name.to_string(), value: ArgValue::Vector(vec![x.to_bits(), y.to_bits(), z.to_bits()]) }
}

fn handle(name: &str, id: u64) -> Arg {
    Arg { name: name.to_string(), value: ArgValue::Handle(id) }
}

fn intent(verb: &str, args: Vec<Arg>) -> Intent {
    Intent { verb: verb.to_string(), args }
}

fn event(tick: u64, action: &str, data: Vec<Arg>) -> InputEvent {
    InputEvent { tick, action: action.to_string(), data }
}

fn spawn_args(x: f32) -> Vec<Arg> {
    vec![vector("pos", x, 0.0, 0.0), vector("vel", 1.0, 0.0, 0.0), vector("size", 1.0, 1.0, 1.0)]
}

fn frame(tick: u64) -> RecordedFrame {
    RecordedFrame { tick, intents: vec![], input_events: vec![] }
}

fn add(a: u32, b: u32) -> u32 {
    (f32::from_bits(a) + f32::from_bits(b)).to_bits()
}

fn advance(p: u32, v: u32, dt: u32) -> u32 {
    (f32::from_bits(p) + f32::from_bits(v) * f32::from_bits(dt)).to_bits()
}

#[test]
fn the_mode_follows_the_paths_given() {
    assert_eq!(SimulationMode::from_paths(None, None), Some(SimulationMode::Normal));
    assert_eq!(
        SimulationMode::from_paths(Some("a.jsonl".to_string()), None),
        Some(SimulationMode::Record { path: "a.jsonl".to_string() })
    );
    assert_eq!(
        SimulationMode::from_paths(None, Some("b.jsonl".to_string())),
        Some(SimulationMode::Replay { path: "b.jsonl".to_string() })
    );
    assert_eq!(SimulationMode::from_paths(Some("a".to_string()), Some("b".to_string())), None);
    assert!(SimulationMode::Record { path: String::new() }.is_record());
    assert!(!SimulationMode::Normal.is_record());
    assert!(SimulationMode::Replay { path: String::new() }.is_replay());
    assert!(!SimulationMode::Normal.is_replay());
}

#[test]
fn an_event_stands_for_an_intent() {
    let e = event(4, "Despawn", vec![handle("entity", 2)]);
    assert_eq!(e.to_intent(), intent("Despawn", vec![handle("entity", 2)]));
    assert!(e.matches(&intent("Despawn", vec![handle("entity", 2)])));
    assert!(!e.matches(&intent("Despawn", vec![handle("entity", 3)])));
    assert!(!e.matches(&intent("Move", vec![handle("entity", 2)])));
}

#[test]
fn a_wrong_stamp_is_corrected_and_counted() {
    let e = event(4, "Despawn", vec![handle("entity", 2)]);
    let (same, mismatch) = e.stamped(4);
    assert_eq!(same, e);
    assert!(!mismatch);
    let (fixed, mismatch) = e.stamped(9);
    assert_eq!(fixed.tick, 9);
    assert_eq!(fixed.to_intent(), e.to_intent());
    assert!(mismatch);
    let events = vec![event(1, "A", vec![]), event(2, "B", vec![]), event(7, "C", vec![])];
    let (stamped, mismatches) = stamp_events(&events, 2);
    assert_eq!(mismatches, 2);
    assert_eq!(stamped.len(), 3);
    assert!(stamped.iter().all(|e| e.tick == 2));
    assert_eq!(stamped[2].action, "C");
}

#[test]
fn a_tick_in_which_nothing_happened_has_no_frame() {
    assert_eq!(build_frame(3, &vec![], &vec![]), None);
}

#[test]
fn a_frame_leaves_out_the_copies_of_its_input_events() {
    let events = vec![event(5, "Spawn", spawn_args(1.0))];
    let intents = vec![
        intent("Despawn", vec![handle("entity", 1)]),
        intent("Spawn", spawn_args(1.0)),
        intent("Spawn", spawn_args(2.0)),
    ];
    let frame = build_frame(5, &intents, &events).unwrap();
    assert_eq!(frame.tick, 5);
    assert_eq!(
        frame.intents,
        vec![intent("Despawn", vec![handle("entity", 1)]), intent("Spawn", spawn_args(2.0))]
    );
    assert_eq!(frame.input_events, events);
    let only_events = build_frame(6, &vec![], &vec![event(2, "Move", vec![])]).unwrap();
    assert!(only_events.intents.is_empty());
    assert_eq!(only_events.input_events, vec![event(6, "Move", vec![])]);
}

#[test]
fn load_keeps_the_order_and_counts_the_steps_back() {
    let (queue, warnings) = ReplayQueue::load(vec![frame(1), frame(3), frame(2), frame(2), frame(1)]);
    assert_eq!(warnings, 2);
    assert_eq!(queue.len(), 5);
    let (empty, none) = ReplayQueue::load(vec![]);
    assert_eq!(none, 0);
    assert_eq!(empty.len(), 0);
    let (one, none) = ReplayQueue::load(vec![frame(9)]);
    assert_eq!(none, 0);
    assert_eq!(one.len(), 1);
}

#[test]
fn pop_due_takes_the_frames_that_are_not_later() {
    let (mut queue, _) = ReplayQueue::load(vec![frame(1), frame(2), frame(2), frame(5)]);
    assert!(queue.pop_due(0).is_empty());
    assert_eq!(queue.pop_due(2), vec![frame(1), frame(2), frame(2)]);
    assert!(queue.pop_due(4).is_empty());
    assert_eq!(queue.len(), 1);
    assert_eq!(queue.pop_due(5), vec![frame(5)]);
    assert_eq!(queue.len(), 0);
}

#[test]
fn pop_due_stops_at_the_first_later_frame() {
    let (mut queue, _) = ReplayQueue::load(vec![frame(1), frame(4), frame(2)]);
    assert_eq!(queue.pop_due(2), vec![frame(1)]);
    assert_eq!(queue.pop_due(4), vec![frame(4), frame(2)]);
}

#[test]
fn the_end_of_a_replay_is_signalled_once() {
    let (mut queue, _) = ReplayQueue::load(vec![frame(1), frame(3)]);
    assert!(!queue.check_complete(1));
    queue.pop_due(1);
    assert!(!queue.check_complete(5));
    queue.pop_due(3);
    assert!(queue.check_complete(3));
    assert!(!queue.check_complete(3));
    assert!(!queue.check_complete(4));
    let (mut early, _) = ReplayQueue::load(vec![frame(5), frame(2)]);
    early.pop_due(5);
    assert!(early.check_complete(2));
    let (mut late, _) = ReplayQueue::load(vec![frame(2), frame(9)]);
    late.pop_due(9);
    assert!(!late.check_complete(8));
    assert!(late.check_complete(9));
    let (mut empty, _) = ReplayQueue::load(vec![]);
    assert!(empty.check_complete(0));
}

#[test]
fn a_frame_is_injected_intents_first() {
    let mut pipeline = IntentPipeline::new();
    pipeline.submit(intent("Despawn", vec![handle("entity", 7)]));
    let recorded = RecordedFrame {
        tick: 1,
        intents: vec![intent("Move", vec![handle("entity", 1), vector("vel", 0.0, 0.0, 0.0)])],
        input_events: vec![event(1, "Spawn", spawn_args(0.0))],
    };
    inject_frame(&mut pipeline, &recorded);
    assert_eq!(pipeline.len(), 3);
    let mut world = World::new();
    let outcomes = pipeline.apply_all(&mut world, &add);
    assert_eq!(outcomes.len(), 3);
    assert_eq!(world.entities().len(), 1);
}

fn run(ticks: &[(Vec<Intent>, Vec<InputEvent>)], record: bool) -> (u64, u64, Vec<RecordedFrame>) {
    let mut world = World::new();
    let mut store = WorldStateStore::new();
    let mut pipeline = IntentPipeline::new();
    let mut frames = Vec::new();
    let dt = 0.25f32.to_bits();
    for (index, (direct, events)) in ticks.iter().enumerate() {
        let tick = index as u64 + 1;
        let mut applied = Vec::new();
        for i in direct {
            pipeline.submit(i.duplicate());
            applied.push(i.duplicate());
        }
        for e in events {
            pipeline.submit(e.to_intent());
            applied.push(e.to_intent());
        }
        pipeline.apply_all(&mut world, &add);
        world.integrate(dt, &advance);
        if record {
            if let Some(f) = build_frame(tick, &applied, events) {
                frames.push(f);
            }
        }
        store.update(world.snapshot_entities());
    }
    let total = position_total(world.entities(), &add);
    (store.current_checksum(), replay_checksum(total), frames)
}

fn replay(frames: Vec<RecordedFrame>, ticks: u64) -> (u64, u64, bool) {
    let mut world = World::new();
    let mut store = WorldStateStore::new();
    let mut pipeline = IntentPipeline::new();
    let (mut queue, _) = ReplayQueue::load(frames);
    let dt = 0.25f32.to_bits();
    let mut done = false;
    for tick in 1..=ticks {
        for f in queue.pop_due(tick) {
            inject_frame(&mut pipeline, &f);
        }
        pipeline.apply_all(&mut world, &add);
        world.integrate(dt, &advance);
        store.update(world.snapshot_entities());
        if queue.check_complete(tick) {
            done = true;
        }
    }
    let total = position_total(world.entities(), &add);
    (store.current_checksum(), replay_checksum(total), done)
}

#[test]
fn a_recorded_run_replays_to_the_same_checksum() {
    let ticks = vec![
        (vec![intent("Spawn", spawn_args(0.0))], vec![event(1, "Spawn", spawn_args(5.0))]),
        (vec![], vec![]),
        (
            vec![intent("ApplyForce", vec![handle("entity", 1), vector("impulse", 0.0, 10.0, 0.0)])],
            vec![event(3, "Move", vec![handle("entity", 2), vector("vel", -1.0, 0.0, 0.5)])],
        ),
        (vec![intent("Bogus", vec![])], vec![event(4, "Despawn", vec![handle("entity", 1)])]),
        (vec![], vec![event(5, "Spawn", spawn_args(9.0))]),
    ];
    let (checksum, total, frames) = run(&ticks, true);
    assert_eq!(frames.len(), 4);
    let (again, total_again, done) = replay(frames, 5);
    assert_eq!(again, checksum);
    assert_eq!(total_again, total);
    assert!(done);
    let (plain, plain_total, _) = run(&ticks, false);
    assert_eq!(plain, checksum);
    assert_eq!(plain_total, total);
}

#[test]
fn a_direct_copy_of_an_input_event_is_lost_on_replay() {
    let ticks = vec![(vec![intent("Spawn", spawn_args(1.0))], vec![event(1, "Spawn", spawn_args(1.0))])];
    let (checksum, _, frames) = run(&ticks, true);
    assert!(frames[0].intents.is_empty());
    let (again, _, _) = replay(frames, 1);
    assert_ne!(again, checksum);
}

#[test]
fn the_position_total_adds_up_in_id_order() {
    let mut world = World::new();
    let mut pipeline = IntentPipeline::new();
    pipeline.submit(intent("Spawn", vec![vector("pos", 1.0, -2.0, 0.0), vector("vel", 0.0, 0.0, 0.0), vector("size", 1.0, 1.0, 1.0)]));
    pipeline.submit(intent("Spawn", vec![vector("pos", 0.5, 0.0, 0.0), vector("vel", 0.0, 0.0, 0.0), vector("size", 1.0, 1.0, 1.0)]));
    pipeline.apply_all(&mut world, &add);
    let total = position_total(world.entities(), &add);
    assert_eq!(total, Vec3::new(1.5f32.to_bits(), (-2.0f32).to_bits(), 0.0f32.to_bits()));
    assert_eq!(replay_checksum(total), 1900326183305686967);
    let empty = position_total(World::new().entities(), &add);
    assert_eq!(empty, Vec3::new(0, 0, 0));
}

#[test]
fn the_state_checksum_is_that_of_the_store() {
    let mut world = World::new();
    let mut pipeline = IntentPipeline::new();
    pipeline.submit(intent("Spawn", spawn_args(1.0)));
    pipeline.apply_all(&mut world, &add);
    let mut store = WorldStateStore::new();
    store.update(world.snapshot_entities());
    assert_eq!(store.current_checksum(), checksum_for_state(1, &world.entities().to_vec()));
}
