//! Intents: the typed commands that change the simulation.
//!
//! An intent travels as an envelope, a verb and a list of named arguments,
//! and is admitted only if its arguments fit the verb's schema exactly: every
//! field of the schema present once with the right kind of value, and nothing
//! else.

use vstd::prelude::*;
use crate::snapshot::Vec3;

verus! {

/// The verb that creates an entity.
pub const INTENT_SPAWN: &'static str = "Spawn";

/// The verb that sets an entity's velocity.
pub const INTENT_MOVE: &'static str = "Move";

/// The verb that adds an impulse to an entity's velocity.
pub const INTENT_APPLY_FORCE: &'static str = "ApplyForce";

/// The verb that removes an entity.
pub const INTENT_DESPAWN: &'static str = "Despawn";

/// The value of one argument, as far as any schema looks at it.
#[derive(Clone, Debug, PartialEq, Eq)]
pub enum ArgValue {
    /// A non-negative whole number that fits in 64 bits.
    Handle(u64),
    /// A list of numbers, each as the bit pattern of a single-precision float.
    Vector(Vec<u32>),
    /// Anything else.
    Other,
}

/// One named argument.
#[derive(Clone, Debug, PartialEq, Eq)]
pub struct Arg {
    pub name: String,
    pub value: ArgValue,
}

/// An intent as it arrives from outside: not yet checked.
#[derive(Clone, Debug, PartialEq, Eq)]
pub struct IntentPayload {
    pub verb: String,
    pub args: Vec<Arg>,
}

/// An intent in the queue: a verb and its arguments.
#[derive(Clone, Debug, PartialEq, Eq)]
pub struct Intent {
    pub verb: String,
    pub args: Vec<Arg>,
}

/// The arguments of `Spawn`.
#[derive(Clone, Copy, Debug, PartialEq, Eq, Structural)]
pub struct SpawnArgs {
    pub pos: Vec3,
    pub vel: Vec3,
    pub size: Vec3,
}

/// The arguments of `Move`.
#[derive(Clone, Copy, Debug, PartialEq, Eq, Structural)]
pub struct MoveArgs {
    pub entity: u64,
    pub vel: Vec3,
}

/// The arguments of `ApplyForce`.
#[derive(Clone, Copy, Debug, PartialEq, Eq, Structural)]
pub struct ApplyForceArgs {
    pub entity: u64,
    pub impulse: Vec3,
}

/// The arguments of `Despawn`.
#[derive(Clone, Copy, Debug, PartialEq, Eq, Structural)]
pub struct DespawnArgs {
    pub entity: u64,
}

/// An intent whose arguments fit its verb's schema.
#[derive(Clone, Copy, Debug, PartialEq, Eq, Structural)]
pub enum Command {
    Spawn(SpawnArgs),
    Move(MoveArgs),
    ApplyForce(ApplyForceArgs),
    Despawn(DespawnArgs),
}

/// Why an intent was turned down.
#[derive(Clone, Copy, Debug, PartialEq, Eq, Structural)]
pub enum IntentError {
    /// The verb is none of the four.
    UnknownVerb,
    /// The arguments do not fit the verb's schema.
    InvalidArguments,
}

/// An argument value as a mathematical value.
pub enum ValueModel {
    Handle(u64),
    Vector(Seq<u32>),
    Other,
}

/// A named argument as a mathematical value.
pub struct ArgModel {
    pub name: Seq<char>,
    pub value: ValueModel,
}

/// An intent as a mathematical value.
pub struct IntentModel {
    pub verb: Seq<char>,
    pub args: Seq<ArgModel>,
}

impl View for ArgValue {
    type V = ValueModel;

    open spec fn view(&self) -> ValueModel {
        match *self {
            ArgValue::Handle(h) => ValueModel::Handle(h),
            ArgValue::Vector(v) => ValueModel::Vector(v@),
            ArgValue::Other => ValueModel::Other,
        }
    }
}

impl View for Arg {
    type V = ArgModel;

    open spec fn view(&self) -> ArgModel {
        ArgModel { name: self.name@, value: self.value@ }
    }
}

/// A list of arguments as mathematical values.
pub open spec fn args_view(args: Seq<Arg>) -> Seq<ArgModel> {
    Seq::new(args.len(), |i: int| args[i]@)
}

impl View for Intent {
    type V = IntentModel;

    open spec fn view(&self) -> IntentModel {
        IntentModel { verb: self.verb@, args: args_view(self.args@) }
    }
}

impl View for IntentPayload {
    type V = IntentModel;

    open spec fn view(&self) -> IntentModel {
        IntentModel { verb: self.verb@, args: args_view(self.args@) }
    }
}

/// `i` is the place of the first argument called `name`.
pub open spec fn is_first_named(args: Seq<ArgModel>, name: Seq<char>, i: int) -> bool {
    &&& 0 <= i < args.len()
    &&& args[i].name == name
    &&& forall|j: int| 0 <= j < i ==> args[j].name != name
}

/// The value of the first argument called `name`, if there is one.
pub open spec fn find(args: Seq<ArgModel>, name: Seq<char>) -> Option<ValueModel> {
    if exists|i: int| is_first_named(args, name, i) {
        Some(args[choose|i: int| is_first_named(args, name, i)].value)
    } else {
        None
    }
}

/// The three-component vector held under `name`, if that is what is there.
pub open spec fn vec3_field(args: Seq<ArgModel>, name: Seq<char>) -> Option<Vec3> {
    match find(args, name) {
        Some(ValueModel::Vector(v)) => if v.len() == 3 {
            Some(Vec3 { x: v[0], y: v[1], z: v[2] })
        } else {
            None
        },
        _ => None,
    }
}

/// The entity handle held under `name`, if that is what is there.
pub open spec fn handle_field(args: Seq<ArgModel>, name: Seq<char>) -> Option<u64> {
    match find(args, name) {
        Some(ValueModel::Handle(h)) => Some(h),
        _ => None,
    }
}

/// The `Spawn` arguments that `args` spell: exactly `pos`, `vel` and `size`,
/// each a three-component vector.
pub open spec fn spawn_args_of(args: Seq<ArgModel>) -> Option<SpawnArgs> {
    if args.len() == 3 && vec3_field(args, "pos"@) is Some && vec3_field(args, "vel"@) is Some
        && vec3_field(args, "size"@) is Some {
        Some(
            SpawnArgs {
                pos: vec3_field(args, "pos"@)->Some_0,
                vel: vec3_field(args, "vel"@)->Some_0,
                size: vec3_field(args, "size"@)->Some_0,
            },
        )
    } else {
        None
    }
}

/// The `Move` arguments that `args` spell: exactly `entity`, a handle, and
/// `vel`, a three-component vector.
pub open spec fn move_args_of(args: Seq<ArgModel>) -> Option<MoveArgs> {
    if args.len() == 2 && handle_field(args, "entity"@) is Some && vec3_field(args, "vel"@)
        is Some {
        Some(
            MoveArgs {
                entity: handle_field(args, "entity"@)->Some_0,
                vel: vec3_field(args, "vel"@)->Some_0,
            },
        )
    } else {
        None
    }
}

/// The `ApplyForce` arguments that `args` spell: exactly `entity`, a handle,
/// and `impulse`, a three-component vector.
pub open spec fn apply_force_args_of(args: Seq<ArgModel>) -> Option<ApplyForceArgs> {
    if args.len() == 2 && handle_field(args, "entity"@) is Some && vec3_field(args, "impulse"@)
        is Some {
        Some(
            ApplyForceArgs {
                entity: handle_field(args, "entity"@)->Some_0,
                impulse: vec3_field(args, "impulse"@)->Some_0,
            },
        )
    } else {
        None
    }
}

/// The `Despawn` arguments that `args` spell: exactly `entity`, a handle.
pub open spec fn despawn_args_of(args: Seq<ArgModel>) -> Option<DespawnArgs> {
    if args.len() == 1 && handle_field(args, "entity"@) is Some {
        Some(DespawnArgs { entity: handle_field(args, "entity"@)->Some_0 })
    } else {
        None
    }
}

/// The command that an envelope spells, or why it spells none.
pub open spec fn command_of(intent: IntentModel) -> Result<Command, IntentError> {
    if intent.verb == "Spawn"@ {
        match spawn_args_of(intent.args) {
            Some(a) => Ok(Command::Spawn(a)),
            None => Err(IntentError::InvalidArguments),
        }
    } else if intent.verb == "Move"@ {
        match move_args_of(intent.args) {
            Some(a) => Ok(Command::Move(a)),
            None => Err(IntentError::InvalidArguments),
        }
    } else if intent.verb == "ApplyForce"@ {
        match apply_force_args_of(intent.args) {
            Some(a) => Ok(Command::ApplyForce(a)),
            None => Err(IntentError::InvalidArguments),
        }
    } else if intent.verb == "Despawn"@ {
        match despawn_args_of(intent.args) {
            Some(a) => Ok(Command::Despawn(a)),
            None => Err(IntentError::InvalidArguments),
        }
    } else {
        Err(IntentError::UnknownVerb)
    }
}

/// A vector argument as a mathematical value.
pub open spec fn vec3_arg(name: Seq<char>, v: Vec3) -> ArgModel {
    ArgModel { name, value: ValueModel::Vector(seq![v.x, v.y, v.z]) }
}

/// A handle argument as a mathematical value.
pub open spec fn handle_arg(name: Seq<char>, h: u64) -> ArgModel {
    ArgModel { name, value: ValueModel::Handle(h) }
}

/// The verb of a command.
pub open spec fn verb_of(c: Command) -> Seq<char> {
    match c {
        Command::Spawn(_) => "Spawn"@,
        Command::Move(_) => "Move"@,
        Command::ApplyForce(_) => "ApplyForce"@,
        Command::Despawn(_) => "Despawn"@,
    }
}

/// The arguments of a command, in the order of its schema.
pub open spec fn args_of(c: Command) -> Seq<ArgModel> {
    match c {
        Command::Spawn(a) => seq![
            vec3_arg("pos"@, a.pos),
            vec3_arg("vel"@, a.vel),
            vec3_arg("size"@, a.size),
        ],
        Command::Move(a) => seq![handle_arg("entity"@, a.entity), vec3_arg("vel"@, a.vel)],
        Command::ApplyForce(a) => seq![
            handle_arg("entity"@, a.entity),
            vec3_arg("impulse"@, a.impulse),
        ],
        Command::Despawn(a) => seq![handle_arg("entity"@, a.entity)],
    }
}

/// The envelope that spells a command.
pub open spec fn envelope_of(c: Command) -> IntentModel {
    IntentModel { verb: verb_of(c), args: args_of(c) }
}

/// Whether two texts are the same.
pub fn same_text(a: &str, b: &str) -> (r: bool)
    ensures
        r == (a@ == b@),
{
    a.to_owned() == b.to_owned()
}

/// The first argument called `name`, if there is one.
pub fn find_arg<'a>(args: &'a Vec<Arg>, name: &str) -> (r: Option<&'a ArgValue>)
    ensures
        match r {
            Some(v) => find(args_view(args@), name@) == Some(v@),
            None => find(args_view(args@), name@) is None,
        },
{
    let ghost models = args_view(args@);
    let mut i: usize = 0;
    while i < args.len()
        invariant
            i <= args.len(),
            models == args_view(args@),
            forall|j: int| 0 <= j < i ==> models[j].name != name@,
        decreases args.len() - i,
    {
        if same_text(args[i].name.as_str(), name) {
            proof {
                assert(models[i as int] == args@[i as int]@);
                assert(is_first_named(models, name@, i as int));
                let chosen = choose|k: int| is_first_named(models, name@, k);
                assert(is_first_named(models, name@, chosen));
                if chosen < i {
                    assert(models[chosen].name != name@);
                }
                if i < chosen {
                    assert(models[i as int].name != name@);
                }
            }
            return Some(&args[i].value);
        }
        proof {
            assert(models[i as int] == args@[i as int]@);
        }
        i += 1;
    }
    proof {
        if exists|k: int| is_first_named(models, name@, k) {
            let k = choose|k: int| is_first_named(models, name@, k);
            assert(models[k].name != name@);
        }
    }
    None
}

/// The three-component vector held under `name`, if that is what is there.
pub fn read_vec3(args: &Vec<Arg>, name: &str) -> (r: Option<Vec3>)
    ensures
        r == vec3_field(args_view(args@), name@),
{
    match find_arg(args, name) {
        Some(ArgValue::Vector(v)) => {
            if v.len() == 3 {
                Some(Vec3 { x: v[0], y: v[1], z: v[2] })
            } else {
                None
            }
        },
        _ => None,
    }
}

/// The entity handle held under `name`, if that is what is there.
pub fn read_handle(args: &Vec<Arg>, name: &str) -> (r: Option<u64>)
    ensures
        r == handle_field(args_view(args@), name@),
{
    match find_arg(args, name) {
        Some(ArgValue::Handle(h)) => Some(*h),
        _ => None,
    }
}

impl SpawnArgs {
    /// Reads `Spawn` arguments against their schema.
    pub fn from_args(args: &Vec<Arg>) -> (r: Option<SpawnArgs>)
        ensures
            r == spawn_args_of(args_view(args@)),
    {
        if args.len() != 3 {
            return None;
        }
        let pos = read_vec3(args, "pos");
        let vel = read_vec3(args, "vel");
        let size = read_vec3(args, "size");
        match (pos, vel, size) {
            (Some(pos), Some(vel), Some(size)) => Some(SpawnArgs { pos, vel, size }),
            _ => None,
        }
    }
}

impl MoveArgs {
    /// Reads `Move` arguments against their schema.
    pub fn from_args(args: &Vec<Arg>) -> (r: Option<MoveArgs>)
        ensures
            r == move_args_of(args_view(args@)),
    {
        if args.len() != 2 {
            return None;
        }
        let entity = read_handle(args, "entity");
        let vel = read_vec3(args, "vel");
        match (entity, vel) {
            (Some(entity), Some(vel)) => Some(MoveArgs { entity, vel }),
            _ => None,
        }
    }
}

impl ApplyForceArgs {
    /// Reads `ApplyForce` arguments against their schema.
    pub fn from_args(args: &Vec<Arg>) -> (r: Option<ApplyForceArgs>)
        ensures
            r == apply_force_args_of(args_view(args@)),
    {
        if args.len() != 2 {
            return None;
        }
        let entity = read_handle(args, "entity");
        let impulse = read_vec3(args, "impulse");
        match (entity, impulse) {
            (Some(entity), Some(impulse)) => Some(ApplyForceArgs { entity, impulse }),
            _ => None,
        }
    }
}

impl DespawnArgs {
    /// Reads `Despawn` arguments against their schema.
    pub fn from_args(args: &Vec<Arg>) -> (r: Option<DespawnArgs>)
        ensures
            r == despawn_args_of(args_view(args@)),
    {
        if args.len() != 1 {
            return None;
        }
        match read_handle(args, "entity") {
            Some(entity) => Some(DespawnArgs { entity }),
            None => None,
        }
    }
}

/// Reads an envelope against the schema of its verb.
pub fn parse_command(verb: &str, args: &Vec<Arg>) -> (r: Result<Command, IntentError>)
    ensures
        r == command_of(IntentModel { verb: verb@, args: args_view(args@) }),
{
    if same_text(verb, INTENT_SPAWN) {
        match SpawnArgs::from_args(args) {
            Some(a) => Ok(Command::Spawn(a)),
            None => Err(IntentError::InvalidArguments),
        }
    } else if same_text(verb, INTENT_MOVE) {
        match MoveArgs::from_args(args) {
            Some(a) => Ok(Command::Move(a)),
            None => Err(IntentError::InvalidArguments),
        }
    } else if same_text(verb, INTENT_APPLY_FORCE) {
        match ApplyForceArgs::from_args(args) {
            Some(a) => Ok(Command::ApplyForce(a)),
            None => Err(IntentError::InvalidArguments),
        }
    } else if same_text(verb, INTENT_DESPAWN) {
        match DespawnArgs::from_args(args) {
            Some(a) => Ok(Command::Despawn(a)),
            None => Err(IntentError::InvalidArguments),
        }
    } else {
        Err(IntentError::UnknownVerb)
    }
}

/// A vector argument.
fn make_vec3_arg(name: &str, v: Vec3) -> (arg: Arg)
    ensures
        arg@ == vec3_arg(name@, v),
{
    let mut parts: Vec<u32> = Vec::new();
    parts.push(v.x);
    parts.push(v.y);
    parts.push(v.z);
    proof {
        assert(parts@ =~= seq![v.x, v.y, v.z]);
    }
    Arg { name: name.to_owned(), value: ArgValue::Vector(parts) }
}

/// A handle argument.
fn make_handle_arg(name: &str, h: u64) -> (arg: Arg)
    ensures
        arg@ == handle_arg(name@, h),
{
    Arg { name: name.to_owned(), value: ArgValue::Handle(h) }
}

impl Command {
    /// The envelope that spells this command: its verb, and its arguments in
    /// the order of the schema.
    pub fn to_intent(&self) -> (intent: Intent)
        ensures
            intent@ == envelope_of(*self),
    {
        let mut args: Vec<Arg> = Vec::new();
        let verb = match self {
            Command::Spawn(a) => {
                args.push(make_vec3_arg("pos", a.pos));
                args.push(make_vec3_arg("vel", a.vel));
                args.push(make_vec3_arg("size", a.size));
                INTENT_SPAWN
            },
            Command::Move(a) => {
                args.push(make_handle_arg("entity", a.entity));
                args.push(make_vec3_arg("vel", a.vel));
                INTENT_MOVE
            },
            Command::ApplyForce(a) => {
                args.push(make_handle_arg("entity", a.entity));
                args.push(make_vec3_arg("impulse", a.impulse));
                INTENT_APPLY_FORCE
            },
            Command::Despawn(a) => {
                args.push(make_handle_arg("entity", a.entity));
                INTENT_DESPAWN
            },
        };
        let intent = Intent { verb: verb.to_owned(), args };
        proof {
            assert(intent@.args =~= args_of(*self));
        }
        intent
    }
}

impl IntentError {
    /// The sentence that tells a client what went wrong.
    pub fn message(&self) -> (text: &'static str)
        ensures
            text@ == (match *self {
                IntentError::UnknownVerb => "unknown intent verb"@,
                IntentError::InvalidArguments => "invalid arguments"@,
            }),
    {
        match self {
            IntentError::UnknownVerb => "unknown intent verb",
            IntentError::InvalidArguments => "invalid arguments",
        }
    }
}

/// Checks an intent that arrived from outside.
///
/// An intent whose verb is known and whose arguments fit the verb's schema is
/// admitted, with its arguments put in the order of the schema. Any other is
/// turned down: `UnknownVerb` for a verb that is none of the four,
/// `InvalidArguments` for arguments that do not fit.
pub fn validate_intent(payload: IntentPayload) -> (r: Result<Intent, IntentError>)
    ensures
        match command_of(payload@) {
            Ok(c) => r is Ok && r->Ok_0@ == envelope_of(c),
            Err(e) => r == Err::<Intent, IntentError>(e),
        },
{
    match parse_command(payload.verb.as_str(), &payload.args) {
        Ok(command) => Ok(command.to_intent()),
        Err(e) => Err(e),
    }
}

/// What the field names and verbs are, letter by letter.
proof fn lemma_names()
    ensures
        "pos"@ != "vel"@,
        "pos"@ != "size"@,
        "vel"@ != "size"@,
        "entity"@ != "vel"@,
        "entity"@ != "impulse"@,
        "Spawn"@ != "Move"@,
        "Spawn"@ != "ApplyForce"@,
        "Spawn"@ != "Despawn"@,
        "Move"@ != "ApplyForce"@,
        "Move"@ != "Despawn"@,
        "ApplyForce"@ != "Despawn"@,
{
    reveal_strlit("pos");
    reveal_strlit("vel");
    reveal_strlit("size");
    reveal_strlit("entity");
    reveal_strlit("impulse");
    reveal_strlit("Spawn");
    reveal_strlit("Move");
    reveal_strlit("ApplyForce");
    reveal_strlit("Despawn");
    assert("pos"@.len() == 3 && "vel"@.len() == 3 && "size"@.len() == 4);
    assert("pos"@[0] != "vel"@[0]);
    assert("entity"@.len() == 6 && "impulse"@.len() == 7);
    assert("Spawn"@.len() == 5 && "Move"@.len() == 4 && "ApplyForce"@.len() == 10
        && "Despawn"@.len() == 7);
}

/// In a list whose names differ from place to place, the argument at place
/// `i` is the one found under its name.
proof fn lemma_find_at(args: Seq<ArgModel>, i: int)
    requires
        0 <= i < args.len(),
        forall|a: int, b: int| 0 <= a < b < args.len() ==> args[a].name != args[b].name,
    ensures
        find(args, args[i].name) == Some(args[i].value),
{
    let name = args[i].name;
    assert(is_first_named(args, name, i));
    let chosen = choose|k: int| is_first_named(args, name, k);
    assert(is_first_named(args, name, chosen));
    if chosen < i {
        assert(args[chosen].name != args[i].name);
    }
    if i < chosen {
        assert(args[i].name != args[chosen].name);
    }
}

/// The envelope that spells a command is read back as that command.
pub proof fn lemma_envelope_round_trip(c: Command)
    ensures
        command_of(envelope_of(c)) == Ok::<Command, IntentError>(c),
{
    lemma_names();
    let args = args_of(c);
    match c {
        Command::Spawn(a) => {
            lemma_find_at(args, 0);
            lemma_find_at(args, 1);
            lemma_find_at(args, 2);
            assert(vec3_field(args, "pos"@) == Some(a.pos));
            assert(vec3_field(args, "vel"@) == Some(a.vel));
            assert(vec3_field(args, "size"@) == Some(a.size));
        },
        Command::Move(a) => {
            lemma_find_at(args, 0);
            lemma_find_at(args, 1);
            assert(handle_field(args, "entity"@) == Some(a.entity));
            assert(vec3_field(args, "vel"@) == Some(a.vel));
        },
        Command::ApplyForce(a) => {
            lemma_find_at(args, 0);
            lemma_find_at(args, 1);
            assert(handle_field(args, "entity"@) == Some(a.entity));
            assert(vec3_field(args, "impulse"@) == Some(a.impulse));
        },
        Command::Despawn(a) => {
            lemma_find_at(args, 0);
            assert(handle_field(args, "entity"@) == Some(a.entity));
        },
    }
}

/// Whether two lists of numbers are the same.
fn same_numbers(a: &Vec<u32>, b: &Vec<u32>) -> (r: bool)
    ensures
        r == (a@ == b@),
{
    if a.len() != b.len() {
        return false;
    }
    let mut i: usize = 0;
    while i < a.len()
        invariant
            i <= a.len(),
            a.len() == b.len(),
            forall|j: int| 0 <= j < i ==> a@[j] == b@[j],
        decreases a.len() - i,
    {
        if a[i] != b[i] {
            return false;
        }
        i += 1;
    }
    proof {
        assert(a@ =~= b@);
    }
    true
}

impl ArgValue {
    /// Whether two values are the same.
    pub fn same_as(&self, other: &ArgValue) -> (r: bool)
        ensures
            r == (self@ == other@),
    {
        match (self, other) {
            (ArgValue::Handle(a), ArgValue::Handle(b)) => *a == *b,
            (ArgValue::Vector(a), ArgValue::Vector(b)) => same_numbers(a, b),
            (ArgValue::Other, ArgValue::Other) => true,
            _ => false,
        }
    }

    /// A copy of the value.
    pub fn duplicate(&self) -> (r: ArgValue)
        ensures
            r@ == self@,
    {
        match self {
            ArgValue::Handle(h) => ArgValue::Handle(*h),
            ArgValue::Vector(v) => {
                let mut out: Vec<u32> = Vec::new();
                let mut i: usize = 0;
                while i < v.len()
                    invariant
                        i <= v.len(),
                        out@ == v@.take(i as int),
                    decreases v.len() - i,
                {
                    out.push(v[i]);
                    proof {
                        assert(v@.take(i + 1) =~= v@.take(i as int).push(v@[i as int]));
                    }
                    i += 1;
                }
                proof {
                    assert(v@.take(i as int) =~= v@);
                }
                ArgValue::Vector(out)
            },
            ArgValue::Other => ArgValue::Other,
        }
    }
}

/// Whether two lists of arguments are the same, place by place.
pub fn same_args(a: &Vec<Arg>, b: &Vec<Arg>) -> (r: bool)
    ensures
        r == (args_view(a@) == args_view(b@)),
{
    if a.len() != b.len() {
        proof {
            assert(args_view(a@).len() != args_view(b@).len());
        }
        return false;
    }
    let mut i: usize = 0;
    while i < a.len()
        invariant
            i <= a.len(),
            a.len() == b.len(),
            forall|j: int| 0 <= j < i ==> a@[j]@ == b@[j]@,
        decreases a.len() - i,
    {
        let same = same_text(a[i].name.as_str(), b[i].name.as_str()) && a[i].value.same_as(
            &b[i].value,
        );
        if !same {
            proof {
                assert(args_view(a@)[i as int] == a@[i as int]@);
                assert(args_view(b@)[i as int] == b@[i as int]@);
            }
            return false;
        }
        i += 1;
    }
    proof {
        assert(args_view(a@) =~= args_view(b@));
    }
    true
}

/// A copy of a list of arguments.
pub fn copy_args(args: &Vec<Arg>) -> (out: Vec<Arg>)
    ensures
        args_view(out@) == args_view(args@),
{
    let mut out: Vec<Arg> = Vec::new();
    let mut i: usize = 0;
    while i < args.len()
        invariant
            i <= args.len(),
            out@.len() == i,
            forall|j: int| 0 <= j < i ==> out@[j]@ == args@[j]@,
        decreases args.len() - i,
    {
        let arg = Arg { name: args[i].name.clone(), value: args[i].value.duplicate() };
        out.push(arg);
        i += 1;
    }
    proof {
        assert(args_view(out@) =~= args_view(args@));
    }
    out
}

impl Intent {
    /// A copy of the intent.
    pub fn duplicate(&self) -> (r: Intent)
        ensures
            r@ == self@,
    {
        Intent { verb: self.verb.clone(), args: copy_args(&self.args) }
    }

    /// Whether two intents are the same: the same verb and the same
    /// arguments, place by place.
    pub fn same_as(&self, other: &Intent) -> (r: bool)
        ensures
            r == (self@ == other@),
    {
        same_text(self.verb.as_str(), other.verb.as_str()) && same_args(&self.args, &other.args)
    }
}

} // verus!
