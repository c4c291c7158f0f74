use nexus_core::intent::{
    validate_intent, parse_command, same_args, same_text, copy_args, find_arg, read_handle,
    read_vec3, ApplyForceArgs, Arg, ArgValue, Command, DespawnArgs, Intent, IntentError,
    IntentPayload, MoveArgs, SpawnArgs, INTENT_APPLY_FORCE, INTENT_DESPAWN, INTENT_MOVE,
    INTENT_SPAWN,
};
use nexus_core::entity_map::EntityMap;
use nexus_core::pipeline::{IntentPipeline, Outcome, World};
use nexus_core::snapshot::{EntitySnapshot, Vec3};

fn v(x: f32, y: f32, z: f32) -> Vec3 {
    Vec3::new(x.to_bits(), y.to_bits(), z.to_bits())
}

fn vector(name: &str, x: f32, y: f32, z: f32) -> Arg {
    Arg { name: name.to_string(), value: ArgValue::Vector(vec![x.to_bits(), y.to_bits(), z.to_bits()]) }
}

fn handle(name: &str, id: u64) -> Arg {
    Arg { name: name.to_string(), value: ArgValue::Handle(id) }
}

fn other(name: &str) -> Arg {
    Arg { name: name.to_string(), value: ArgValue::Other }
}

fn payload(verb: &str, args: Vec<Arg>) -> IntentPayload {
    IntentPayload { verb: verb.to_string(), args }
}

fn intent(verb: &str, args: Vec<Arg>) -> Intent {
    Intent { verb: verb.to_string(), args }
}

fn spawn_at(x: f32) -> Intent {
    intent("Spawn", vec![vector("pos", x, 0.0, 0.0), vector("vel", 0.0, 0.0, 0.0), vector("size", 1.0, 1.0, 1.0)])
}

fn add(a: u32, b: u32) -> u32 {
    (f32::from_bits(a) + f32::from_bits(b)).to_bits()
}

fn advance(p: u32, v: u32, dt: u32) -> u32 {
    (f32::from_bits(p) + f32::from_bits(v) * f32::from_bits(dt)).to_bits()
}

#[test]
fn the_verbs_are_spelled_as_they_are() {
    assert_eq!(INTENT_SPAWN, "Spawn");
    assert_eq!(INTENT_MOVE, "Move");
    assert_eq!(INTENT_APPLY_FORCE, "ApplyForce");
    assert_eq!(INTENT_DESPAWN, "Despawn");
}

#[test]
fn a_well_formed_spawn_is_admitted_in_schema_order() {
    let given = payload(
        "Spawn",
        vec![vector("size", 1.0, 1.0, 1.0), vector("pos", 1.0, 2.0, 3.0), vector("vel", 0.0, 0.0, 0.0)],
    );
    let admitted = validate_intent(given).unwrap();
    assert_eq!(admitted.verb, "Spawn");
    assert_eq!(
        admitted.args,
        vec![vector("pos", 1.0, 2.0, 3.0), vector("vel", 0.0, 0.0, 0.0), vector("size", 1.0, 1.0, 1.0)]
    );
}

#[test]
fn each_verb_reads_its_own_schema() {
    assert_eq!(
        parse_command("Move", &vec![handle("entity", 4), vector("vel", 1.0, 0.0, 0.0)]),
        Ok(Command::Move(MoveArgs { entity: 4, vel: v(1.0, 0.0, 0.0) }))
    );
    assert_eq!(
        parse_command("ApplyForce", &vec![vector("impulse", 0.0, 10.0, 0.0), handle("entity", 4)]),
        Ok(Command::ApplyForce(ApplyForceArgs { entity: 4, impulse: v(0.0, 10.0, 0.0) }))
    );
    assert_eq!(
        parse_command("Despawn", &vec![handle("entity", 9)]),
        Ok(Command::Despawn(DespawnArgs { entity: 9 }))
    );
    assert_eq!(
        parse_command("Spawn", &spawn_at(2.0).args),
        Ok(Command::Spawn(SpawnArgs { pos: v(2.0, 0.0, 0.0), vel: v(0.0, 0.0, 0.0), size: v(1.0, 1.0, 1.0) }))
    );
}

#[test]
fn an_unknown_verb_is_refused() {
    assert_eq!(validate_intent(payload("Teleport", vec![])), Err(IntentError::UnknownVerb));
    assert_eq!(validate_intent(payload("spawn", spawn_at(0.0).args)), Err(IntentError::UnknownVerb));
    assert_eq!(validate_intent(payload("", vec![])), Err(IntentError::UnknownVerb));
}

#[test]
fn a_malformed_move_is_refused() {
    let given = payload("Move", vec![other("entity")]);
    assert_eq!(validate_intent(given), Err(IntentError::InvalidArguments));
}

#[test]
fn arguments_that_do_not_fit_the_schema_are_refused() {
    let missing = payload("Move", vec![handle("entity", 1)]);
    assert_eq!(validate_intent(missing), Err(IntentError::InvalidArguments));
    let extra = payload(
        "Despawn",
        vec![handle("entity", 1), handle("also", 2)],
    );
    assert_eq!(validate_intent(extra), Err(IntentError::InvalidArguments));
    let twice = payload("Move", vec![handle("entity", 1), handle("entity", 1)]);
    assert_eq!(validate_intent(twice), Err(IntentError::InvalidArguments));
    let short = payload(
        "Move",
        vec![handle("entity", 1), Arg { name: "vel".to_string(), value: ArgValue::Vector(vec![0, 0]) }],
    );
    assert_eq!(validate_intent(short), Err(IntentError::InvalidArguments));
    let wrong_kind = payload("Despawn", vec![vector("entity", 0.0, 0.0, 0.0)]);
    assert_eq!(validate_intent(wrong_kind), Err(IntentError::InvalidArguments));
    let misnamed = payload("Despawn", vec![handle("Entity", 1)]);
    assert_eq!(validate_intent(misnamed), Err(IntentError::InvalidArguments));
}

#[test]
fn intent_errors_have_their_messages() {
    assert_eq!(IntentError::UnknownVerb.message(), "unknown intent verb");
    assert_eq!(IntentError::InvalidArguments.message(), "invalid arguments");
}

#[test]
fn a_command_and_its_envelope_round_trip() {
    let commands = [
        Command::Spawn(SpawnArgs { pos: v(1.0, 2.0, 3.0), vel: v(0.0, 0.0, 0.0), size: v(1.0, 1.0, 1.0) }),
        Command::Move(MoveArgs { entity: 3, vel: v(0.0, -1.0, 0.0) }),
        Command::ApplyForce(ApplyForceArgs { entity: 3, impulse: v(0.0, 10.0, 0.0) }),
        Command::Despawn(DespawnArgs { entity: u64::MAX }),
    ];
    for command in commands {
        let envelope = command.to_intent();
        assert_eq!(parse_command(&envelope.verb, &envelope.args), Ok(command));
    }
}

#[test]
fn arguments_are_found_read_compared_and_copied() {
    let args = vec![handle("entity", 4), vector("vel", 1.0, 0.0, 0.0), handle("entity", 5)];
    assert_eq!(find_arg(&args, "entity"), Some(&ArgValue::Handle(4)));
    assert_eq!(find_arg(&args, "none"), None);
    assert_eq!(read_handle(&args, "entity"), Some(4));
    assert_eq!(read_handle(&args, "vel"), None);
    assert_eq!(read_vec3(&args, "vel"), Some(v(1.0, 0.0, 0.0)));
    assert_eq!(read_vec3(&args, "entity"), None);
    assert!(same_text("abc", "abc"));
    assert!(!same_text("abc", "abd"));
    let copy = copy_args(&args);
    assert_eq!(copy, args);
    assert!(same_args(&copy, &args));
    assert!(!same_args(&copy, &vec![handle("entity", 4)]));
    assert!(!same_args(&vec![handle("entity", 4)], &vec![handle("entity", 5)]));
    assert!(!same_args(&vec![handle("a", 4)], &vec![other("a")]));
    assert!(ArgValue::Other.same_as(&ArgValue::Other));
    let first = intent("Move", args.clone());
    assert!(first.same_as(&first.duplicate()));
    assert!(!first.same_as(&intent("Despawn", args)));
}

#[test]
fn spawn_gives_out_handles_from_one() {
    let mut world = World::new();
    let mut pipeline = IntentPipeline::new();
    pipeline.submit(spawn_at(1.0));
    pipeline.submit(spawn_at(2.0));
    assert_eq!(pipeline.len(), 2);
    let outcomes = pipeline.apply_all(&mut world, &add);
    assert_eq!(outcomes, vec![Outcome::Spawned(1), Outcome::Spawned(2)]);
    assert_eq!(pipeline.len(), 0);
    let listing = world.entities().to_vec();
    assert_eq!(listing.len(), 2);
    assert_eq!(listing[0], EntitySnapshot { id: 1, pos: v(1.0, 0.0, 0.0), vel: v(0.0, 0.0, 0.0), size: v(1.0, 1.0, 1.0) });
    assert_eq!(listing[1].id, 2);
}

#[test]
fn intents_are_applied_first_come_first_served() {
    let mut world = World::new();
    let mut pipeline = IntentPipeline::new();
    pipeline.submit(intent("Move", vec![handle("entity", 1), vector("vel", 5.0, 0.0, 0.0)]));
    pipeline.submit(spawn_at(0.0));
    pipeline.submit(intent("Move", vec![handle("entity", 1), vector("vel", 1.0, 0.0, 0.0)]));
    pipeline.submit(intent("ApplyForce", vec![handle("entity", 1), vector("impulse", 0.0, 10.0, 0.0)]));
    pipeline.submit(intent("ApplyForce", vec![handle("entity", 1), vector("impulse", 0.5, 2.5, 0.0)]));
    let outcomes = pipeline.apply_all(&mut world, &add);
    assert_eq!(
        outcomes,
        vec![
            Outcome::NoSuchEntity(1),
            Outcome::Spawned(1),
            Outcome::Moved(1),
            Outcome::Pushed(1, v(1.0, 10.0, 0.0)),
            Outcome::Pushed(1, v(1.5, 12.5, 0.0)),
        ]
    );
    assert_eq!(world.entities().get(1).unwrap().vel, v(1.5, 12.5, 0.0));
}

#[test]
fn a_malformed_intent_does_not_touch_the_others() {
    let mut world = World::new();
    let mut pipeline = IntentPipeline::new();
    pipeline.submit(spawn_at(0.0));
    pipeline.submit(intent("Move", vec![other("entity")]));
    pipeline.submit(intent("Warp", vec![]));
    pipeline.submit(intent("Move", vec![handle("entity", 1), vector("vel", 2.0, 0.0, 0.0)]));
    let outcomes = pipeline.apply_all(&mut world, &add);
    assert_eq!(
        outcomes,
        vec![
            Outcome::Spawned(1),
            Outcome::Rejected(IntentError::InvalidArguments),
            Outcome::Rejected(IntentError::UnknownVerb),
            Outcome::Moved(1),
        ]
    );
    assert_eq!(world.entities().get(1).unwrap().vel, v(2.0, 0.0, 0.0));
}

#[test]
fn despawn_removes_and_handles_are_not_given_out_again() {
    let mut world = World::new();
    let mut pipeline = IntentPipeline::new();
    pipeline.submit(spawn_at(0.0));
    pipeline.submit(intent("Despawn", vec![handle("entity", 1)]));
    pipeline.submit(intent("Despawn", vec![handle("entity", 1)]));
    pipeline.submit(spawn_at(0.0));
    let outcomes = pipeline.apply_all(&mut world, &add);
    assert_eq!(
        outcomes,
        vec![Outcome::Spawned(1), Outcome::Despawned(1), Outcome::NoSuchEntity(1), Outcome::Spawned(2)]
    );
    assert_eq!(world.snapshot_entities().len(), 1);
}

#[test]
fn integrate_moves_along_the_velocity() {
    let mut world = World::new();
    let spawn = Command::Spawn(SpawnArgs { pos: v(1.0, 2.0, 3.0), vel: v(2.0, 0.0, -4.0), size: v(1.0, 1.0, 1.0) });
    assert_eq!(world.apply(&spawn, &add), Outcome::Spawned(1));
    world.integrate(0.5f32.to_bits(), &advance);
    let e = world.entities().get(1).unwrap();
    assert_eq!(e.pos, v(2.0, 2.0, 1.0));
    assert_eq!(e.vel, v(2.0, 0.0, -4.0));
    assert_eq!(e.size, v(1.0, 1.0, 1.0));
}

#[test]
fn integrate_skips_a_zero_time_step() {
    let mut world = World::new();
    let spawn = Command::Spawn(SpawnArgs { pos: v(1.0, 2.0, 3.0), vel: v(f32::NAN, 0.0, 0.0), size: v(1.0, 1.0, 1.0) });
    world.apply(&spawn, &add);
    let before = world.entities().to_vec();
    world.integrate(0.0f32.to_bits(), &advance);
    assert_eq!(world.entities().to_vec(), before);
    world.integrate((-0.0f32).to_bits(), &advance);
    assert_eq!(world.entities().to_vec(), before);
}

#[test]
fn the_world_hands_its_entities_to_the_store() {
    let mut world = World::new();
    let mut pipeline = IntentPipeline::new();
    pipeline.submit(spawn_at(3.0));
    pipeline.apply_all(&mut world, &add);
    let map = world.snapshot_entities();
    assert_eq!(map.len(), 1);
    assert_eq!(EntityMap::in_id_order(&map).to_vec(), world.entities().to_vec());
    assert_eq!(world.entities().to_hash_map(), map);
}
