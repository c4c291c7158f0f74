//! The intent pipeline: a queue of intents, applied to the world in arrival
//! order, and the step that moves every entity along its velocity.
//!
//! The world holds every number as the bit pattern of a float and never
//! computes with one. The two places that need arithmetic, adding an impulse
//! to a velocity and advancing a position, take the operation from the
//! caller; what they did is written into the outcome, so that the world after
//! a tick is a function of the world before it, the intents and the outcomes.

use std::collections::HashMap;
use vstd::prelude::*;
use crate::entity_map::{as_map, ids_increasing, keyed_by_id, lemma_as_map, EntityMap};
use crate::intent::{
    command_of, parse_command, Command, Intent, IntentError, IntentModel,
};
use crate::snapshot::{EntitySnapshot, Vec3};

verus! {

/// What became of one intent.
#[derive(Clone, Copy, Debug, PartialEq, Eq, Structural)]
pub enum Outcome {
    /// An entity was created under this handle.
    Spawned(u64),
    /// The entity's velocity was set.
    Moved(u64),
    /// The entity's velocity became this.
    Pushed(u64, Vec3),
    /// The entity was removed.
    Despawned(u64),
    /// No entity has this handle; nothing was changed.
    NoSuchEntity(u64),
    /// No handle is left to give out; nothing was changed.
    OutOfHandles,
    /// The intent was turned down; nothing was changed.
    Rejected(IntentError),
}

/// The world as a mathematical value.
pub struct WorldModel {
    pub entities: Map<u64, EntitySnapshot>,
    pub next_id: u64,
}

/// The live entities and the next handle to give out.
pub struct World {
    entities: EntityMap,
    next_id: u64,
}

/// `e` with another velocity.
pub open spec fn with_vel(e: EntitySnapshot, vel: Vec3) -> EntitySnapshot {
    EntitySnapshot { id: e.id, pos: e.pos, vel, size: e.size }
}

/// `e` with another position.
pub open spec fn with_pos(e: EntitySnapshot, pos: Vec3) -> EntitySnapshot {
    EntitySnapshot { id: e.id, pos, vel: e.vel, size: e.size }
}

/// `sum` may give `r` for the sum of `a` and `b`, component by component.
pub open spec fn sums<F: Fn(u32, u32) -> u32>(sum: &F, a: Vec3, b: Vec3, r: Vec3) -> bool {
    &&& call_ensures(sum, (a.x, b.x), r.x)
    &&& call_ensures(sum, (a.y, b.y), r.y)
    &&& call_ensures(sum, (a.z, b.z), r.z)
}

/// `advance` may give `r` for the position `p` moved along `v` for `dt`,
/// component by component.
pub open spec fn advances<G: Fn(u32, u32, u32) -> u32>(
    advance: &G,
    p: Vec3,
    v: Vec3,
    dt: u32,
    r: Vec3,
) -> bool {
    &&& call_ensures(advance, (p.x, v.x, dt), r.x)
    &&& call_ensures(advance, (p.y, v.y, dt), r.y)
    &&& call_ensures(advance, (p.z, v.z, dt), r.z)
}

/// The world after a command with a given outcome.
pub open spec fn after_command(w: WorldModel, c: Command, o: Outcome) -> WorldModel {
    match (c, o) {
        (Command::Spawn(a), Outcome::Spawned(id)) => WorldModel {
            entities: w.entities.insert(
                id,
                EntitySnapshot { id, pos: a.pos, vel: a.vel, size: a.size },
            ),
            next_id: (id + 1) as u64,
        },
        (Command::Move(a), Outcome::Moved(id)) => WorldModel {
            entities: w.entities.insert(id, with_vel(w.entities[id], a.vel)),
            next_id: w.next_id,
        },
        (Command::ApplyForce(_), Outcome::Pushed(id, vel)) => WorldModel {
            entities: w.entities.insert(id, with_vel(w.entities[id], vel)),
            next_id: w.next_id,
        },
        (Command::Despawn(_), Outcome::Despawned(id)) => WorldModel {
            entities: w.entities.remove(id),
            next_id: w.next_id,
        },
        _ => w,
    }
}

/// The outcomes that a command may have in a world.
///
/// - `Spawn` creates an entity under the next handle, or is `OutOfHandles`
///   when the last handle is reached.
/// - `Move`, `ApplyForce` and `Despawn` act on the entity they name, or are
///   `NoSuchEntity` when it is not there.
/// - `ApplyForce` leaves the velocity at what `sum` gives for the old
///   velocity and the impulse.
pub open spec fn outcome_allowed<F: Fn(u32, u32) -> u32>(
    w: WorldModel,
    c: Command,
    o: Outcome,
    sum: &F,
) -> bool {
    match c {
        Command::Spawn(_) => if w.next_id < u64::MAX {
            o == Outcome::Spawned(w.next_id)
        } else {
            o == Outcome::OutOfHandles
        },
        Command::Move(a) => if w.entities.contains_key(a.entity) {
            o == Outcome::Moved(a.entity)
        } else {
            o == Outcome::NoSuchEntity(a.entity)
        },
        Command::ApplyForce(a) => if w.entities.contains_key(a.entity) {
            &&& o is Pushed
            &&& o->Pushed_0 == a.entity
            &&& sums(sum, w.entities[a.entity].vel, a.impulse, o->Pushed_1)
        } else {
            o == Outcome::NoSuchEntity(a.entity)
        },
        Command::Despawn(a) => if w.entities.contains_key(a.entity) {
            o == Outcome::Despawned(a.entity)
        } else {
            o == Outcome::NoSuchEntity(a.entity)
        },
    }
}

/// The world after an intent with a given outcome: an intent that spells no
/// command changes nothing.
pub open spec fn after_intent(w: WorldModel, intent: IntentModel, o: Outcome) -> WorldModel {
    match command_of(intent) {
        Ok(c) => after_command(w, c, o),
        Err(_) => w,
    }
}

/// The outcomes that an intent may have in a world: those of the command it
/// spells, or `Rejected` with the reason why it spells none.
pub open spec fn intent_outcome_allowed<F: Fn(u32, u32) -> u32>(
    w: WorldModel,
    intent: IntentModel,
    o: Outcome,
    sum: &F,
) -> bool {
    match command_of(intent) {
        Ok(c) => outcome_allowed(w, c, o, sum),
        Err(e) => o == Outcome::Rejected(e),
    }
}

/// The world after a run of intents with given outcomes, first come first
/// served.
pub open spec fn after_all(
    w: WorldModel,
    intents: Seq<IntentModel>,
    outcomes: Seq<Outcome>,
) -> WorldModel
    decreases intents.len(),
{
    if intents.len() == 0 || outcomes.len() != intents.len() {
        w
    } else {
        after_intent(
            after_all(w, intents.drop_last(), outcomes.drop_last()),
            intents.last(),
            outcomes.last(),
        )
    }
}

/// Every outcome is one that its intent may have in the world that the
/// intents before it left.
pub open spec fn all_allowed<F: Fn(u32, u32) -> u32>(
    w: WorldModel,
    intents: Seq<IntentModel>,
    outcomes: Seq<Outcome>,
    sum: &F,
) -> bool {
    &&& outcomes.len() == intents.len()
    &&& forall|i: int|
        0 <= i < intents.len() ==> intent_outcome_allowed(
            after_all(w, intents.take(i), outcomes.take(i)),
            #[trigger] intents[i],
            outcomes[i],
            sum,
        )
}

/// The bit pattern is that of a zero, of either sign.
pub open spec fn is_zero_bits(bits: u32) -> bool {
    bits & 0x7fff_ffff == 0
}

/// The intents of a queue as mathematical values.
pub open spec fn queue_view(queue: Seq<Intent>) -> Seq<IntentModel> {
    Seq::new(queue.len(), |i: int| queue[i]@)
}

/// `after` is what `kernel` may make of the positions and velocities of
/// `before`, entity by entity; handles and sizes stay as they are.
pub open spec fn settled<K: Fn(Vec3, Vec3, Vec3) -> (Vec3, Vec3)>(
    kernel: &K,
    before: Seq<EntitySnapshot>,
    after: Seq<EntitySnapshot>,
) -> bool {
    &&& after.len() == before.len()
    &&& forall|i: int|
        0 <= i < before.len() ==> {
            &&& (#[trigger] after[i]).id == before[i].id
            &&& after[i].size == before[i].size
            &&& call_ensures(
                kernel,
                (before[i].pos, before[i].vel, before[i].size),
                (after[i].pos, after[i].vel),
            )
        }
}

impl View for World {
    type V = WorldModel;

    open spec fn view(&self) -> WorldModel {
        WorldModel { entities: as_map(self.listing()), next_id: self.next_id() }
    }
}

impl World {
    /// The live entities in id order.
    pub closed spec fn listing(&self) -> Seq<EntitySnapshot> {
        self.entities.listing()
    }

    /// The next handle to give out.
    pub closed spec fn next_id(&self) -> u64 {
        self.next_id
    }

    /// The listing is id-ordered and every handle in use was given out
    /// before the next one.
    pub closed spec fn wf(&self) -> bool {
        &&& self.entities.wf()
        &&& ids_increasing(self.entities.listing())
        &&& forall|i: int|
            0 <= i < self.entities.listing().len() ==> self.entities.listing()[i].id < self.next_id
    }

    /// What `wf` says in terms of the public view.
    pub proof fn lemma_wf(&self)
        requires
            self.wf(),
        ensures
            ids_increasing(self.listing()),
            forall|id: u64| self@.entities.contains_key(id) ==> id < self.next_id(),
            forall|id: u64| self@.entities.contains_key(id) ==> self@.entities[id].id == id,
    {
        lemma_as_map(self.listing());
    }

    /// An empty world; handles are given out from 1.
    pub fn new() -> (w: World)
        ensures
            w.wf(),
            w@.entities == Map::<u64, EntitySnapshot>::empty(),
            w@.next_id == 1,
            w.listing() == Seq::<EntitySnapshot>::empty(),
    {
        let entities = EntityMap::new();
        proof {
            entities.lemma_wf();
        }
        World { entities, next_id: 1 }
    }

    /// The live entities.
    pub fn entities(&self) -> (m: &EntityMap)
        ensures
            m.listing() == self.listing(),
            m@ == self@.entities,
            self.wf() ==> m.wf(),
    {
        &self.entities
    }

    /// A copy of the live entities, each under its own id, as the store takes
    /// them.
    pub fn snapshot_entities(&self) -> (m: HashMap<u64, EntitySnapshot>)
        requires
            self.wf(),
        ensures
            m@ == self@.entities,
            keyed_by_id(m@),
    {
        self.entities.to_hash_map()
    }

    /// Applies one command.
    pub fn apply<F: Fn(u32, u32) -> u32>(&mut self, command: &Command, sum: &F) -> (o: Outcome)
        requires
            old(self).wf(),
            forall|a: u32, b: u32| call_requires(sum, (a, b)),
        ensures
            final(self).wf(),
            outcome_allowed(old(self)@, *command, o, sum),
            final(self)@ == after_command(old(self)@, *command, o),
    {
        proof {
            self.lemma_wf();
            self.entities.lemma_wf();
            lemma_as_map(self.entities.listing());
        }
        match command {
            Command::Spawn(a) => {
                if self.next_id == u64::MAX {
                    return Outcome::OutOfHandles;
                }
                let id = self.next_id;
                let snapshot = EntitySnapshot { id, pos: a.pos, vel: a.vel, size: a.size };
                self.entities.insert(snapshot);
                self.next_id = id + 1;
                proof {
                    self.entities.lemma_wf();
                    lemma_as_map(self.entities.listing());
                    assert forall|i: int| 0 <= i < self.entities.listing().len() implies
                        self.entities.listing()[i].id < self.next_id by {
                        let e = self.entities.listing()[i];
                        assert(self.entities@.contains_key(e.id));
                    }
                }
                Outcome::Spawned(id)
            },
            Command::Move(a) => {
                match self.entities.get(a.entity) {
                    Some(e) => {
                        let moved = EntitySnapshot { id: e.id, pos: e.pos, vel: a.vel, size: e.size };
                        self.entities.insert(moved);
                        proof {
                            self.entities.lemma_wf();
                            lemma_as_map(self.entities.listing());
                            assert forall|i: int|
                                0 <= i < self.entities.listing().len() implies
                                self.entities.listing()[i].id < self.next_id by {
                                let x = self.entities.listing()[i];
                                assert(self.entities@.contains_key(x.id));
                            }
                        }
                        Outcome::Moved(a.entity)
                    },
                    None => Outcome::NoSuchEntity(a.entity),
                }
            },
            Command::ApplyForce(a) => {
                match self.entities.get(a.entity) {
                    Some(e) => {
                        let vel = Vec3 {
                            x: sum(e.vel.x, a.impulse.x),
                            y: sum(e.vel.y, a.impulse.y),
                            z: sum(e.vel.z, a.impulse.z),
                        };
                        let pushed = EntitySnapshot { id: e.id, pos: e.pos, vel, size: e.size };
                        self.entities.insert(pushed);
                        proof {
                            self.entities.lemma_wf();
                            lemma_as_map(self.entities.listing());
                            assert forall|i: int|
                                0 <= i < self.entities.listing().len() implies
                                self.entities.listing()[i].id < self.next_id by {
                                let x = self.entities.listing()[i];
                                assert(self.entities@.contains_key(x.id));
                            }
                        }
                        Outcome::Pushed(a.entity, vel)
                    },
                    None => Outcome::NoSuchEntity(a.entity),
                }
            },
            Command::Despawn(a) => {
                if self.entities.contains(a.entity) {
                    self.entities.remove(a.entity);
                    proof {
                        self.entities.lemma_wf();
                        lemma_as_map(self.entities.listing());
                        assert forall|i: int|
                            0 <= i < self.entities.listing().len() implies
                            self.entities.listing()[i].id < self.next_id by {
                            let x = self.entities.listing()[i];
                            assert(self.entities@.contains_key(x.id));
                        }
                    }
                    Outcome::Despawned(a.entity)
                } else {
                    Outcome::NoSuchEntity(a.entity)
                }
            },
        }
    }

    /// Applies one intent: the command it spells, or nothing if it spells
    /// none.
    pub fn apply_intent<F: Fn(u32, u32) -> u32>(&mut self, intent: &Intent, sum: &F) -> (o:
        Outcome)
        requires
            old(self).wf(),
            forall|a: u32, b: u32| call_requires(sum, (a, b)),
        ensures
            final(self).wf(),
            intent_outcome_allowed(old(self)@, intent@, o, sum),
            final(self)@ == after_intent(old(self)@, intent@, o),
    {
        match parse_command(intent.verb.as_str(), &intent.args) {
            Ok(command) => self.apply(&command, sum),
            Err(e) => Outcome::Rejected(e),
        }
    }

    /// Lets the host's physics act on every entity: the kernel is given an
    /// entity's position, velocity and size and gives back its position and
    /// velocity. Handles and sizes stay as they are, and no entity comes or
    /// goes.
    pub fn settle<K: Fn(Vec3, Vec3, Vec3) -> (Vec3, Vec3)>(&mut self, kernel: &K)
        requires
            old(self).wf(),
            forall|p: Vec3, v: Vec3, s: Vec3| call_requires(kernel, (p, v, s)),
        ensures
            final(self).wf(),
            final(self).next_id() == old(self).next_id(),
            settled(kernel, old(self).listing(), final(self).listing()),
    {
        let n = self.entities.len();
        let mut i: usize = 0;
        while i < n
            invariant
                i <= n,
                n == self.entities.listing().len(),
                n == old(self).entities.listing().len(),
                self.next_id == old(self).next_id,
                self.entities.wf(),
                ids_increasing(self.entities.listing()),
                forall|k: int| 0 <= k < n ==> self.entities.listing()[k].id == old(
                    self,
                ).entities.listing()[k].id,
                forall|k: int| i <= k < n ==> self.entities.listing()[k] == old(
                    self,
                ).entities.listing()[k],
                forall|k: int|
                    0 <= k < i ==> {
                        let before = old(self).entities.listing()[k];
                        let after = #[trigger] self.entities.listing()[k];
                        &&& after.size == before.size
                        &&& call_ensures(
                            kernel,
                            (before.pos, before.vel, before.size),
                            (after.pos, after.vel),
                        )
                    },
                forall|p: Vec3, v: Vec3, s: Vec3| call_requires(kernel, (p, v, s)),
            decreases n - i,
        {
            let e = self.entities.nth(i);
            let (pos, vel) = kernel(e.pos, e.vel, e.size);
            let moved = EntitySnapshot { id: e.id, pos, vel, size: e.size };
            self.entities.replace_nth(i, moved);
            proof {
                self.entities.lemma_wf();
            }
            i += 1;
        }
    }

    /// Moves every entity along its velocity for the time step `dt`.
    ///
    /// A zero time step, of either sign, changes nothing. Otherwise every
    /// entity keeps its handle, velocity and size, and its position becomes
    /// what `advance` gives for the old position, the velocity and `dt`.
    pub fn integrate<G: Fn(u32, u32, u32) -> u32>(&mut self, dt: u32, advance: &G)
        requires
            old(self).wf(),
            forall|p: u32, v: u32, d: u32| call_requires(advance, (p, v, d)),
        ensures
            final(self).wf(),
            final(self).next_id() == old(self).next_id(),
            integrated(advance, old(self).listing(), dt, final(self).listing()),
    {
        if dt & 0x7fff_ffff == 0 {
            return ;
        }
        let n = self.entities.len();
        let mut i: usize = 0;
        while i < n
            invariant
                i <= n,
                n == self.entities.listing().len(),
                n == old(self).entities.listing().len(),
                self.next_id == old(self).next_id,
                self.entities.wf(),
                ids_increasing(self.entities.listing()),
                forall|k: int| 0 <= k < n ==> self.entities.listing()[k].id == old(
                    self,
                ).entities.listing()[k].id,
                forall|k: int| i <= k < n ==> self.entities.listing()[k] == old(
                    self,
                ).entities.listing()[k],
                forall|k: int|
                    0 <= k < i ==> {
                        let before = old(self).entities.listing()[k];
                        let after = #[trigger] self.entities.listing()[k];
                        &&& after == with_pos(before, after.pos)
                        &&& advances(advance, before.pos, before.vel, dt, after.pos)
                    },
                forall|p: u32, v: u32, d: u32| call_requires(advance, (p, v, d)),
            decreases n - i,
        {
            let e = self.entities.nth(i);
            let pos = Vec3 {
                x: advance(e.pos.x, e.vel.x, dt),
                y: advance(e.pos.y, e.vel.y, dt),
                z: advance(e.pos.z, e.vel.z, dt),
            };
            let moved = EntitySnapshot { id: e.id, pos, vel: e.vel, size: e.size };
            self.entities.replace_nth(i, moved);
            proof {
                self.entities.lemma_wf();
            }
            i += 1;
        }
    }
}

/// The intents waiting for the next apply phase, in arrival order.
pub struct IntentPipeline {
    queue: Vec<Intent>,
}

impl IntentPipeline {
    /// The waiting intents, oldest first.
    pub closed spec fn pending(&self) -> Seq<IntentModel> {
        queue_view(self.queue@)
    }

    /// An empty pipeline.
    pub fn new() -> (p: IntentPipeline)
        ensures
            p.pending() == Seq::<IntentModel>::empty(),
    {
        let p = IntentPipeline { queue: Vec::new() };
        proof {
            assert(p.pending() =~= Seq::<IntentModel>::empty());
        }
        p
    }

    /// How many intents are waiting.
    pub fn len(&self) -> (n: usize)
        ensures
            n == self.pending().len(),
    {
        self.queue.len()
    }

    /// A copy of the waiting intents, oldest first.
    pub fn pending_copy(&self) -> (copy: Vec<Intent>)
        ensures
            queue_view(copy@) == self.pending(),
    {
        let mut copy: Vec<Intent> = Vec::new();
        let mut i: usize = 0;
        while i < self.queue.len()
            invariant
                i <= self.queue.len(),
                copy@.len() == i,
                forall|k: int| 0 <= k < i ==> copy@[k]@ == self.queue@[k]@,
            decreases self.queue.len() - i,
        {
            copy.push(self.queue[i].duplicate());
            i += 1;
        }
        proof {
            assert(queue_view(copy@) =~= self.pending());
        }
        copy
    }

    /// Puts an intent at the end of the queue.
    pub fn submit(&mut self, intent: Intent)
        ensures
            final(self).pending() == old(self).pending().push(intent@),
    {
        self.queue.push(intent);
        proof {
            assert(self.pending() =~= old(self).pending().push(intent@));
        }
    }

    /// Applies every waiting intent to the world, oldest first, and empties
    /// the queue. An intent that is turned down changes nothing and does not
    /// keep the ones after it from being applied.
    pub fn apply_all<F: Fn(u32, u32) -> u32>(&mut self, world: &mut World, sum: &F) -> (outcomes:
        Vec<Outcome>)
        requires
            old(world).wf(),
            forall|a: u32, b: u32| call_requires(sum, (a, b)),
        ensures
            final(world).wf(),
            final(self).pending() == Seq::<IntentModel>::empty(),
            all_allowed(old(world)@, old(self).pending(), outcomes@, sum),
            final(world)@ == after_all(old(world)@, old(self).pending(), outcomes@),
    {
        let ghost intents = self.pending();
        let ghost start = world@;
        let mut outcomes: Vec<Outcome> = Vec::new();
        let n = self.queue.len();
        let mut i: usize = 0;
        proof {
            assert(intents.take(0) =~= Seq::<IntentModel>::empty());
        }
        while i < n
            invariant
                i <= n,
                n == self.queue@.len(),
                intents == queue_view(self.queue@),
                intents.len() == n,
                world.wf(),
                outcomes@.len() == i,
                world@ == after_all(start, intents.take(i as int), outcomes@),
                forall|k: int|
                    0 <= k < i ==> intent_outcome_allowed(
                        after_all(start, intents.take(k), outcomes@.take(k)),
                        #[trigger] intents[k],
                        outcomes@[k],
                        sum,
                    ),
                forall|a: u32, b: u32| call_requires(sum, (a, b)),
            decreases n - i,
        {
            let ghost before = world@;
            let ghost done = outcomes@;
            let o = world.apply_intent(&self.queue[i], sum);
            outcomes.push(o);
            proof {
                let more = intents.take(i + 1);
                assert(intents[i as int] == self.queue@[i as int]@);
                assert(more.drop_last() =~= intents.take(i as int));
                assert(outcomes@.drop_last() =~= done);
                assert(more.last() == intents[i as int]);
                assert(outcomes@.take(i as int) =~= done);
                assert forall|k: int| 0 <= k < i + 1 implies intent_outcome_allowed(
                    after_all(start, intents.take(k), outcomes@.take(k)),
                    #[trigger] intents[k],
                    outcomes@[k],
                    sum,
                ) by {
                    if k < i {
                        assert(outcomes@.take(k) =~= done.take(k));
                        assert(outcomes@[k] == done[k]);
                    }
                }
            }
            i += 1;
        }
        proof {
            assert(intents.take(i as int) =~= intents);
        }
        self.queue.clear();
        proof {
            assert(self.pending() =~= Seq::<IntentModel>::empty());
        }
        outcomes
    }
}

/// `kernel` gives one result for each triple of arguments.
pub open spec fn single_valued_kernel<K: Fn(Vec3, Vec3, Vec3) -> (Vec3, Vec3)>(kernel: &K) -> bool {
    forall|p: Vec3, v: Vec3, s: Vec3, r1: (Vec3, Vec3), r2: (Vec3, Vec3)|
        call_ensures(kernel, (p, v, s), r1) && call_ensures(kernel, (p, v, s), r2) ==> r1 == r2
}

/// With a kernel that gives one result for each triple of arguments, the
/// host's physics makes one thing of the same entities.
pub proof fn lemma_one_settling<K: Fn(Vec3, Vec3, Vec3) -> (Vec3, Vec3)>(
    kernel: &K,
    before: Seq<EntitySnapshot>,
    a: Seq<EntitySnapshot>,
    b: Seq<EntitySnapshot>,
)
    requires
        single_valued_kernel(kernel),
        settled(kernel, before, a),
        settled(kernel, before, b),
    ensures
        a == b,
{
    assert forall|i: int| 0 <= i < before.len() implies a[i] == b[i] by {
        let e = before[i];
        assert(a[i].id == e.id && b[i].id == e.id);
        assert(call_ensures(kernel, (e.pos, e.vel, e.size), (a[i].pos, a[i].vel)));
        assert(call_ensures(kernel, (e.pos, e.vel, e.size), (b[i].pos, b[i].vel)));
    }
    assert(a =~= b);
}

/// `sum` gives one result for each pair of arguments.
pub open spec fn single_valued<F: Fn(u32, u32) -> u32>(sum: &F) -> bool {
    forall|a: u32, b: u32, r1: u32, r2: u32|
        call_ensures(sum, (a, b), r1) && call_ensures(sum, (a, b), r2) ==> r1 == r2
}

/// With an `sum` that gives one result for each pair of arguments, an intent
/// has one outcome in a given world.
pub proof fn lemma_one_outcome<F: Fn(u32, u32) -> u32>(
    w: WorldModel,
    intent: IntentModel,
    o1: Outcome,
    o2: Outcome,
    sum: &F,
)
    requires
        single_valued(sum),
        intent_outcome_allowed(w, intent, o1, sum),
        intent_outcome_allowed(w, intent, o2, sum),
    ensures
        o1 == o2,
{
    match command_of(intent) {
        Ok(Command::ApplyForce(a)) => {
            if w.entities.contains_key(a.entity) {
                let v = w.entities[a.entity].vel;
                let r1 = o1->Pushed_1;
                let r2 = o2->Pushed_1;
                assert(call_ensures(sum, (v.x, a.impulse.x), r1.x));
                assert(call_ensures(sum, (v.x, a.impulse.x), r2.x));
                assert(call_ensures(sum, (v.y, a.impulse.y), r1.y));
                assert(call_ensures(sum, (v.y, a.impulse.y), r2.y));
                assert(call_ensures(sum, (v.z, a.impulse.z), r1.z));
                assert(call_ensures(sum, (v.z, a.impulse.z), r2.z));
            }
        },
        _ => {},
    }
}

/// Where every outcome of a run of intents is allowed, so is every outcome
/// of the run without its last intent, and the last outcome is one that the
/// last intent may have in the world that the others left.
proof fn lemma_allowed_prefix<F: Fn(u32, u32) -> u32>(
    w: WorldModel,
    intents: Seq<IntentModel>,
    outcomes: Seq<Outcome>,
    sum: &F,
)
    requires
        all_allowed(w, intents, outcomes, sum),
        intents.len() > 0,
    ensures
        all_allowed(w, intents.drop_last(), outcomes.drop_last(), sum),
        intent_outcome_allowed(
            after_all(w, intents.drop_last(), outcomes.drop_last()),
            intents.last(),
            outcomes.last(),
            sum,
        ),
{
    let head = intents.drop_last();
    let h = outcomes.drop_last();
    let n = head.len() as int;
    assert forall|i: int| 0 <= i < head.len() implies intent_outcome_allowed(
        after_all(w, head.take(i), h.take(i)),
        #[trigger] head[i],
        h[i],
        sum,
    ) by {
        assert(head.take(i) =~= intents.take(i));
        assert(h.take(i) =~= outcomes.take(i));
        assert(intent_outcome_allowed(
            after_all(w, intents.take(i), outcomes.take(i)),
            intents[i],
            outcomes[i],
            sum,
        ));
    }
    assert(intents.take(n) =~= head);
    assert(outcomes.take(n) =~= h);
    assert(intent_outcome_allowed(
        after_all(w, intents.take(n), outcomes.take(n)),
        intents[n],
        outcomes[n],
        sum,
    ));
}

/// With an `sum` that gives one result for each pair of arguments, the same
/// intents applied to the same world have the same outcomes and leave the
/// same world.
pub proof fn lemma_same_intents_same_world<F: Fn(u32, u32) -> u32>(
    w: WorldModel,
    intents: Seq<IntentModel>,
    o1: Seq<Outcome>,
    o2: Seq<Outcome>,
    sum: &F,
)
    requires
        single_valued(sum),
        all_allowed(w, intents, o1, sum),
        all_allowed(w, intents, o2, sum),
    ensures
        o1 == o2,
        after_all(w, intents, o1) == after_all(w, intents, o2),
    decreases intents.len(),
{
    if intents.len() == 0 {
        assert(o1 =~= o2);
    } else {
        let head = intents.drop_last();
        let h1 = o1.drop_last();
        let h2 = o2.drop_last();
        lemma_allowed_prefix(w, intents, o1, sum);
        lemma_allowed_prefix(w, intents, o2, sum);
        lemma_same_intents_same_world(w, head, h1, h2, sum);
        lemma_one_outcome(after_all(w, head, h1), intents.last(), o1.last(), o2.last(), sum);
        assert(o1 =~= h1.push(o1.last()));
        assert(o2 =~= h2.push(o2.last()));
    }
}

/// `advance` gives one result for each triple of arguments.
pub open spec fn single_valued_step<G: Fn(u32, u32, u32) -> u32>(advance: &G) -> bool {
    forall|p: u32, v: u32, d: u32, r1: u32, r2: u32|
        call_ensures(advance, (p, v, d), r1) && call_ensures(advance, (p, v, d), r2) ==> r1 == r2
}

/// `after` is what moving every entity of `before` along its velocity for
/// `dt` may give.
pub open spec fn integrated<G: Fn(u32, u32, u32) -> u32>(
    advance: &G,
    before: Seq<EntitySnapshot>,
    dt: u32,
    after: Seq<EntitySnapshot>,
) -> bool {
    &&& after.len() == before.len()
    &&& is_zero_bits(dt) ==> after == before
    &&& !is_zero_bits(dt) ==> forall|i: int|
        0 <= i < before.len() ==> {
            &&& (#[trigger] after[i]) == with_pos(before[i], after[i].pos)
            &&& advances(advance, before[i].pos, before[i].vel, dt, after[i].pos)
        }
}

/// With an `advance` that gives one result for each triple of arguments,
/// moving the same entities for the same time step gives the same entities.
pub proof fn lemma_one_integration<G: Fn(u32, u32, u32) -> u32>(
    advance: &G,
    before: Seq<EntitySnapshot>,
    dt: u32,
    a: Seq<EntitySnapshot>,
    b: Seq<EntitySnapshot>,
)
    requires
        single_valued_step(advance),
        integrated(advance, before, dt, a),
        integrated(advance, before, dt, b),
    ensures
        a == b,
{
    if !is_zero_bits(dt) {
        assert forall|i: int| 0 <= i < before.len() implies a[i] == b[i] by {
            let e = before[i];
            assert(a[i] == with_pos(e, a[i].pos));
            assert(b[i] == with_pos(e, b[i].pos));
            assert(call_ensures(advance, (e.pos.x, e.vel.x, dt), a[i].pos.x));
            assert(call_ensures(advance, (e.pos.x, e.vel.x, dt), b[i].pos.x));
            assert(call_ensures(advance, (e.pos.y, e.vel.y, dt), a[i].pos.y));
            assert(call_ensures(advance, (e.pos.y, e.vel.y, dt), b[i].pos.y));
            assert(call_ensures(advance, (e.pos.z, e.vel.z, dt), a[i].pos.z));
            assert(call_ensures(advance, (e.pos.z, e.vel.z, dt), b[i].pos.z));
        }
        assert(a =~= b);
    }
}

} // verus!
