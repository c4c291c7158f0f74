//! The simulation clock: one call is one tick, and within a tick the phases
//! run in a fixed order. Frames that are due are fed back in, the intents
//! that were submitted directly and the intents made from input events are
//! queued, the queue is applied, every entity is moved along its velocity,
//! the tick's frame is built, and the end of a replay is signalled.

use std::collections::HashMap;
use vstd::prelude::*;
use crate::checksum::state_checksum;
use crate::entity_map::{as_map, keyed_by_id, lemma_listing_of, listing_of};
use crate::intent::{Intent, IntentModel};
use crate::pipeline::{
    after_all, all_allowed, integrated, lemma_one_integration, lemma_same_intents_same_world,
    queue_view, settled, single_valued, single_valued_step, IntentPipeline, Outcome, World,
    WorldModel,
};
use crate::replay::{
    backward_steps, build_frame, due_count, event_intents, inject_frames, kept_intents, lemma_frame_round_trip,
    replayed, replayed_all, stamp_events, InputEvent, RecordedFrame, ReplayQueue,
};
use crate::snapshot::{EntitySnapshot, Vec3};

verus! {

/// What one tick did.
pub struct TickReport {
    /// The number of the tick.
    pub tick: u64,
    /// What became of each intent of the tick, in arrival order.
    pub outcomes: Vec<Outcome>,
    /// The frame to write down, where one is due.
    pub frame: Option<RecordedFrame>,
    /// Whether the replay ended with this tick.
    pub replay_finished: bool,
    /// How many input events came stamped with another tick.
    pub corrected_stamps: usize,
    /// The entities alive after the tick, for the store.
    pub entities: HashMap<u64, EntitySnapshot>,
}

/// The world, the intent queue and the clock.
pub struct Simulation {
    tick: u64,
    world: World,
    pipeline: IntentPipeline,
    replay: ReplayQueue,
    replaying: bool,
    recording: bool,
}

/// The intents that a tick applies, in arrival order: what was waiting, what
/// the due frames hold, what was submitted directly, and what the input
/// events stand for.
pub open spec fn tick_intents(
    waiting: Seq<IntentModel>,
    frames: Seq<RecordedFrame>,
    tick: u64,
    direct: Seq<Intent>,
    events: Seq<InputEvent>,
) -> Seq<IntentModel> {
    waiting + replayed_all(frames.take(due_count(frames, tick) as int)) + queue_view(direct)
        + event_intents(events)
}

/// One tick takes the world `before` to the world `after`, whose entities in
/// id order are `listing`: the intents are applied one after the other, with
/// the given outcomes, and then every entity is moved along its velocity for
/// `dt`.
pub open spec fn tick_takes<F: Fn(u32, u32) -> u32, G: Fn(u32, u32, u32) -> u32>(
    before: WorldModel,
    intents: Seq<IntentModel>,
    outcomes: Seq<Outcome>,
    dt: u32,
    sum: &F,
    advance: &G,
    listing: Seq<EntitySnapshot>,
    after: WorldModel,
) -> bool {
    &&& all_allowed(before, intents, outcomes, sum)
    &&& after.next_id == after_all(before, intents, outcomes).next_id
    &&& integrated(
        advance,
        listing_of(after_all(before, intents, outcomes).entities),
        dt,
        listing,
    )
    &&& after.entities == as_map(listing)
}

/// `frame` is the frame of a tick in which `applied` were the intents and
/// `events` what the input events stood for: none if nothing happened, else
/// one that holds the input events and the intents that are no copy of one.
pub open spec fn is_frame_of(
    frame: Option<RecordedFrame>,
    tick: u64,
    applied: Seq<IntentModel>,
    events: Seq<IntentModel>,
) -> bool {
    &&& frame is Some <==> applied.len() + events.len() > 0
    &&& frame is Some ==> {
        let f = frame->Some_0;
        &&& f.tick == tick
        &&& queue_view(f.intents@) == kept_intents(applied, events)
        &&& event_intents(f.input_events@) == events
        &&& forall|i: int| 0 <= i < f.input_events@.len() ==> f.input_events@[i].tick == tick
    }
}

impl Simulation {
    /// The intents that the next tick applies, given what is submitted with
    /// it.
    pub open spec fn step_intents(
        &self,
        direct: Seq<Intent>,
        events: Seq<InputEvent>,
    ) -> Seq<IntentModel> {
        tick_intents(self.waiting(), self.frames(), (self.tick() + 1) as u64, direct, events)
    }

    /// The number of the latest tick.
    pub closed spec fn tick(&self) -> u64 {
        self.tick
    }

    /// The world as it is.
    pub closed spec fn world(&self) -> World {
        self.world
    }

    /// The intents that are waiting.
    pub closed spec fn waiting(&self) -> Seq<IntentModel> {
        self.pipeline.pending()
    }

    /// The frames still to be replayed; none unless replaying.
    pub closed spec fn frames(&self) -> Seq<RecordedFrame> {
        self.replay.remaining()
    }

    /// The replay queue.
    pub closed spec fn replay(&self) -> ReplayQueue {
        self.replay
    }

    /// Whether frames are fed back in.
    pub closed spec fn replaying(&self) -> bool {
        self.replaying
    }

    /// Whether frames are built.
    pub closed spec fn recording(&self) -> bool {
        self.recording
    }

    /// The world is well-formed, and frames wait only in a replay.
    pub closed spec fn wf(&self) -> bool {
        &&& self.world.wf()
        &&& !self.replaying ==> self.replay.remaining().len() == 0
    }

    /// A simulation at tick 0 with an empty world, neither recording nor
    /// replaying.
    pub fn new() -> (sim: Simulation)
        ensures
            sim.wf(),
            sim.tick() == 0,
            sim.world()@.entities == Map::<u64, EntitySnapshot>::empty(),
            sim.world()@.next_id == 1,
            sim.waiting() == Seq::<IntentModel>::empty(),
            sim.frames() == Seq::<RecordedFrame>::empty(),
            !sim.recording(),
            !sim.replaying(),
    {
        let (replay, _) = ReplayQueue::load(Vec::new());
        Simulation {
            tick: 0,
            world: World::new(),
            pipeline: IntentPipeline::new(),
            replay,
            replaying: false,
            recording: false,
        }
    }

    /// A simulation at tick 0 with an empty world that builds a frame for
    /// every tick in which anything happens.
    pub fn record() -> (sim: Simulation)
        ensures
            sim.wf(),
            sim.tick() == 0,
            sim.world()@.entities == Map::<u64, EntitySnapshot>::empty(),
            sim.world()@.next_id == 1,
            sim.waiting() == Seq::<IntentModel>::empty(),
            sim.frames() == Seq::<RecordedFrame>::empty(),
            sim.recording(),
            !sim.replaying(),
    {
        let (replay, _) = ReplayQueue::load(Vec::new());
        Simulation {
            tick: 0,
            world: World::new(),
            pipeline: IntentPipeline::new(),
            replay,
            replaying: false,
            recording: true,
        }
    }

    /// A simulation at tick 0 with an empty world that feeds the given frames
    /// back in. The second result counts the places where a frame has an
    /// earlier tick than the frame before it.
    pub fn replay_of(frames: Vec<RecordedFrame>) -> (r: (Simulation, usize))
        ensures
            r.0.wf(),
            r.0.tick() == 0,
            r.0.world()@.entities == Map::<u64, EntitySnapshot>::empty(),
            r.0.world()@.next_id == 1,
            r.0.waiting() == Seq::<IntentModel>::empty(),
            r.0.frames() == frames@,
            !r.0.recording(),
            r.0.replaying(),
            !r.0.replay().finished(),
            r.1 == backward_steps(frames@),
    {
        let (replay, warnings) = ReplayQueue::load(frames);
        (
            Simulation {
                tick: 0,
                world: World::new(),
                pipeline: IntentPipeline::new(),
                replay,
                replaying: true,
                recording: false,
            },
            warnings,
        )
    }

    /// The number of the latest tick.
    pub fn current_tick(&self) -> (t: u64)
        ensures
            t == self.tick(),
    {
        self.tick
    }

    /// The world as it is.
    pub fn current_world(&self) -> (w: &World)
        ensures
            *w == self.world(),
    {
        &self.world
    }

    /// Puts an intent in the queue for the next tick.
    pub fn submit(&mut self, intent: Intent)
        ensures
            final(self).waiting() == old(self).waiting().push(intent@),
            final(self).tick() == old(self).tick(),
            final(self).world() == old(self).world(),
            final(self).replay() == old(self).replay(),
            final(self).recording() == old(self).recording(),
            final(self).replaying() == old(self).replaying(),
            final(self).wf() == old(self).wf(),
    {
        self.pipeline.submit(intent);
    }

    /// Lets the host's physics act on every entity between two ticks. The
    /// clock, the queue and the replay stay as they are.
    pub fn settle<K: Fn(Vec3, Vec3, Vec3) -> (Vec3, Vec3)>(&mut self, kernel: &K)
        requires
            old(self).wf(),
            forall|p: Vec3, v: Vec3, s: Vec3| call_requires(kernel, (p, v, s)),
        ensures
            final(self).wf(),
            final(self).tick() == old(self).tick(),
            final(self).waiting() == old(self).waiting(),
            final(self).replay() == old(self).replay(),
            final(self).recording() == old(self).recording(),
            final(self).replaying() == old(self).replaying(),
            final(self).world().next_id() == old(self).world().next_id(),
            settled(kernel, old(self).world().listing(), final(self).world().listing()),
    {
        self.world.settle(kernel);
    }

    /// Runs one tick.
    ///
    /// The clock advances by one. The frames that are due at the new tick are
    /// taken from the replay queue and what they hold is queued; then the
    /// intents given directly; then the intents that the input events stand
    /// for. The queue is applied first come first served and emptied, and
    /// every entity is moved along its velocity for `dt`. When recording, the
    /// frame of the tick is built. In a replay, its end is signalled once.
    pub fn step<F: Fn(u32, u32) -> u32, G: Fn(u32, u32, u32) -> u32>(
        &mut self,
        direct: Vec<Intent>,
        events: Vec<InputEvent>,
        dt: u32,
        sum: &F,
        advance: &G,
    ) -> (report: TickReport)
        requires
            old(self).wf(),
            old(self).tick() < u64::MAX,
            forall|a: u32, b: u32| call_requires(sum, (a, b)),
            forall|p: u32, v: u32, d: u32| call_requires(advance, (p, v, d)),
        ensures
            final(self).wf(),
            final(self).tick() == old(self).tick() + 1,
            final(self).recording() == old(self).recording(),
            final(self).replaying() == old(self).replaying(),
            final(self).waiting() == Seq::<IntentModel>::empty(),
            final(self).frames() == old(self).frames().skip(
                due_count(old(self).frames(), final(self).tick()) as int,
            ),
            report.tick == final(self).tick(),
            tick_takes(
                old(self).world()@,
                old(self).step_intents(direct@, events@),
                report.outcomes@,
                dt,
                sum,
                advance,
                final(self).world().listing(),
                final(self).world()@,
            ),
            old(self).recording() ==> is_frame_of(
                report.frame,
                report.tick,
                old(self).step_intents(direct@, events@),
                event_intents(events@),
            ),
            !old(self).recording() ==> report.frame is None,
            report.replay_finished == (old(self).replaying() && !old(self).replay().finished()
                && final(self).frames().len() == 0 && final(self).tick() >= old(
                self,
            ).replay().last_tick()),
            final(self).replay().finished() == (old(self).replay().finished()
                || report.replay_finished),
            final(self).replay().last_tick() == old(self).replay().last_tick(),
            report.corrected_stamps == events@.filter(
                |e: InputEvent| e.tick != final(self).tick(),
            ).len(),
            report.entities@ == final(self).world()@.entities,
            keyed_by_id(report.entities@),
    {
        let ghost waiting = self.pipeline.pending();
        let ghost frames = self.replay.remaining();
        let ghost start = self.world@;
        let tick = self.tick + 1;
        self.tick = tick;
        let due = self.replay.pop_due(tick);
        inject_frames(&mut self.pipeline, &due);
        let (stamped, corrected_stamps) = stamp_events(&events, tick);
        let mut i: usize = 0;
        let ghost with_frames = self.pipeline.pending();
        proof {
            assert(with_frames + queue_view(direct@).take(0) =~= with_frames);
        }
        while i < direct.len()
            invariant
                i <= direct.len(),
                self.pipeline.pending() == with_frames + queue_view(direct@).take(i as int),
                self.world == old(self).world,
                self.tick == tick,
                self.replaying == old(self).replaying,
                self.recording == old(self).recording,
                self.replay.remaining() == frames.skip(due_count(frames, tick) as int),
                self.replay.last_tick() == old(self).replay.last_tick(),
                self.replay.finished() == old(self).replay.finished(),
            decreases direct.len() - i,
        {
            self.pipeline.submit(direct[i].duplicate());
            proof {
                let q = queue_view(direct@);
                assert(q[i as int] == direct@[i as int]@);
                assert(with_frames + q.take(i + 1) =~= (with_frames + q.take(i as int)).push(
                    q[i as int],
                ));
            }
            i += 1;
        }
        proof {
            assert(queue_view(direct@).take(i as int) =~= queue_view(direct@));
        }
        let ghost with_direct = self.pipeline.pending();
        let mut k: usize = 0;
        proof {
            assert(with_direct + event_intents(stamped@).take(0) =~= with_direct);
        }
        while k < stamped.len()
            invariant
                k <= stamped.len(),
                self.pipeline.pending() == with_direct + event_intents(stamped@).take(k as int),
                self.world == old(self).world,
                self.tick == tick,
                self.replaying == old(self).replaying,
                self.recording == old(self).recording,
                self.replay.remaining() == frames.skip(due_count(frames, tick) as int),
                self.replay.last_tick() == old(self).replay.last_tick(),
                self.replay.finished() == old(self).replay.finished(),
            decreases stamped.len() - k,
        {
            self.pipeline.submit(stamped[k].to_intent());
            proof {
                let q = event_intents(stamped@);
                assert(q[k as int] == stamped@[k as int].intent());
                assert(with_direct + q.take(k + 1) =~= (with_direct + q.take(k as int)).push(
                    q[k as int],
                ));
            }
            k += 1;
        }
        proof {
            assert(event_intents(stamped@).take(k as int) =~= event_intents(stamped@));
            assert(self.pipeline.pending() == tick_intents(waiting, frames, tick, direct@, events@));
        }
        let applied = if self.recording {
            self.pipeline.pending_copy()
        } else {
            Vec::new()
        };
        let outcomes = self.pipeline.apply_all(&mut self.world, sum);
        proof {
            self.world.lemma_wf();
        }
        let ghost mid = self.world.listing();
        self.world.integrate(dt, advance);
        let frame = if self.recording {
            build_frame(tick, &applied, &stamped)
        } else {
            None
        };
        let replay_finished = if self.replaying {
            self.replay.check_complete(tick)
        } else {
            false
        };
        let entities = self.world.snapshot_entities();
        proof {
            let all = tick_intents(waiting, frames, tick, direct@, events@);
            assert(all == old(self).step_intents(direct@, events@));
            let applied_world = after_all(start, all, outcomes@);
            lemma_listing_of(mid);
            assert(listing_of(applied_world.entities) == mid);
            if old(self).recording {
                assert(queue_view(applied@) == all);
                assert(applied@.len() == all.len());
                assert(stamped@.len() == events@.len());
                assert(is_frame_of(frame, tick, all, event_intents(events@)));
            }
        }
        TickReport { tick, outcomes, frame, replay_finished, corrected_stamps, entities }
    }
}

/// The ticks of a run of frames grow strictly from frame to frame.
pub open spec fn ticks_increasing(frames: Seq<RecordedFrame>) -> bool {
    forall|i: int, j: int| 0 <= i < j < frames.len() ==> frames[i].tick < frames[j].tick
}

/// Where the ticks of the frames grow strictly and no frame is overdue, the
/// frames due at a tick are the one frame of that tick, or none.
pub proof fn lemma_due_is_own_tick(frames: Seq<RecordedFrame>, tick: u64)
    requires
        ticks_increasing(frames),
        frames.len() > 0 ==> frames[0].tick >= tick,
    ensures
        due_count(frames, tick) == (if frames.len() > 0 && frames[0].tick == tick {
            1nat
        } else {
            0nat
        }),
{
    if frames.len() > 0 && frames[0].tick == tick {
        let rest = frames.drop_first();
        if rest.len() > 0 {
            assert(rest[0] == frames[1]);
            assert(frames[0].tick < frames[1].tick);
        }
        assert(due_count(rest, tick) == 0);
    }
}

/// What replaying the frame of a tick submits is what the tick applied,
/// exactly when none of the intents that were submitted directly is a copy of
/// an input event of the tick.
pub proof fn lemma_tick_round_trip(
    direct: Seq<IntentModel>,
    events: Seq<IntentModel>,
    frame: RecordedFrame,
    tick: u64,
)
    requires
        is_frame_of(Some(frame), tick, direct + events, events),
    ensures
        (replayed(frame) == direct + events) <==> (forall|i: int|
            0 <= i < direct.len() ==> !events.contains(#[trigger] direct[i])),
{
    lemma_frame_round_trip(direct, events);
}

/// The frame of `tick` at the head of the frames, if it is there.
pub open spec fn own_frame(frames: Seq<RecordedFrame>, tick: u64) -> Option<RecordedFrame> {
    if frames.len() > 0 && frames[0].tick == tick {
        Some(frames[0])
    } else {
        None
    }
}

/// What replaying the frame of a tick submits; nothing where the tick wrote
/// no frame.
pub open spec fn replayed_frame(frame: Option<RecordedFrame>) -> Seq<IntentModel> {
    match frame {
        Some(f) => replayed(f),
        None => Seq::<IntentModel>::empty(),
    }
}

/// Where the ticks of the frames grow strictly and no frame is overdue, a
/// tick that is given nothing else applies what its own frame holds, if
/// there is one, and nothing otherwise; and the frames that are left are in
/// order and none of them is overdue at the next tick.
pub proof fn lemma_due_replays_own_frame(frames: Seq<RecordedFrame>, tick: u64)
    requires
        ticks_increasing(frames),
        frames.len() > 0 ==> frames[0].tick >= tick,
    ensures
        tick_intents(
            Seq::<IntentModel>::empty(),
            frames,
            tick,
            Seq::<Intent>::empty(),
            Seq::<InputEvent>::empty(),
        ) == replayed_frame(own_frame(frames, tick)),
        ticks_increasing(frames.skip(due_count(frames, tick) as int)),
        frames.skip(due_count(frames, tick) as int).len() > 0 ==> frames.skip(
            due_count(frames, tick) as int,
        )[0].tick > tick,
{
    lemma_due_is_own_tick(frames, tick);
    let due = replayed_all(frames.take(due_count(frames, tick) as int));
    assert(queue_view(Seq::<Intent>::empty()) =~= Seq::<IntentModel>::empty());
    assert(event_intents(Seq::<InputEvent>::empty()) =~= Seq::<IntentModel>::empty());
    assert(Seq::<IntentModel>::empty() + due + Seq::<IntentModel>::empty() + Seq::<
        IntentModel,
    >::empty() =~= due);
    if frames.len() > 0 && frames[0].tick == tick {
        let one = frames.take(1);
        assert(one.drop_last() =~= Seq::<RecordedFrame>::empty());
        assert(one.last() == frames[0]);
        assert(replayed_all(one.drop_last()) =~= Seq::<IntentModel>::empty());
        assert(replayed_all(one) =~= replayed(frames[0]));
        let rest = frames.skip(1);
        if rest.len() > 0 {
            assert(rest[0] == frames[1]);
        }
        assert forall|i: int, j: int| 0 <= i < j < rest.len() implies rest[i].tick
            < rest[j].tick by {
            assert(rest[i] == frames[i + 1]);
            assert(rest[j] == frames[j + 1]);
        }
    } else {
        assert(frames.take(0) =~= Seq::<RecordedFrame>::empty());
        assert(frames.skip(0) =~= frames);
    }
}

/// A tick and its replay leave the same world behind, with the same checksum:
/// where the tick started from the world `w`, applied `direct` and then
/// `events`, none of `direct` being a copy of one of `events`, and the replay
/// starts from `w` too and applies what the tick's frame holds, with the same
/// time step and with operations that give one result for each input.
pub proof fn lemma_replayed_tick_same_world<F: Fn(u32, u32) -> u32, G: Fn(u32, u32, u32) -> u32>(
    w: WorldModel,
    direct: Seq<IntentModel>,
    events: Seq<IntentModel>,
    frame: Option<RecordedFrame>,
    tick: u64,
    dt: u32,
    sum: &F,
    advance: &G,
    first_outcomes: Seq<Outcome>,
    first_listing: Seq<EntitySnapshot>,
    first_after: WorldModel,
    second_outcomes: Seq<Outcome>,
    second_listing: Seq<EntitySnapshot>,
    second_after: WorldModel,
)
    requires
        single_valued(sum),
        single_valued_step(advance),
        is_frame_of(frame, tick, direct + events, events),
        forall|i: int| 0 <= i < direct.len() ==> !events.contains(#[trigger] direct[i]),
        tick_takes(w, direct + events, first_outcomes, dt, sum, advance, first_listing, first_after),
        tick_takes(
            w,
            replayed_frame(frame),
            second_outcomes,
            dt,
            sum,
            advance,
            second_listing,
            second_after,
        ),
    ensures
        first_outcomes == second_outcomes,
        first_listing == second_listing,
        first_after == second_after,
        state_checksum(tick, first_listing) == state_checksum(tick, second_listing),
{
    if frame is Some {
        lemma_tick_round_trip(direct, events, frame->Some_0, tick);
    } else {
        assert(direct + events =~= Seq::<IntentModel>::empty());
    }
    lemma_same_intents_same_world(w, direct + events, first_outcomes, second_outcomes, sum);
    lemma_one_integration(
        advance,
        listing_of(after_all(w, direct + events, first_outcomes).entities),
        dt,
        first_listing,
        second_listing,
    );
}

/// What one tick of a run was given and what it gave.
pub struct TickTrace {
    /// The intents that were submitted directly.
    pub direct: Seq<IntentModel>,
    /// What the input events of the tick stood for.
    pub events: Seq<IntentModel>,
    /// The time step.
    pub dt: u32,
    /// The frame that was written down, where one was due.
    pub frame: Option<RecordedFrame>,
    /// What became of each intent.
    pub outcomes: Seq<Outcome>,
    /// The entities after the tick, in id order.
    pub listing: Seq<EntitySnapshot>,
    /// The world after the tick.
    pub after: WorldModel,
}

/// The world before tick `i` of a run that started from `start`.
pub open spec fn world_before(start: WorldModel, run: Seq<TickTrace>, i: int) -> WorldModel {
    if i == 0 {
        start
    } else {
        run[i - 1].after
    }
}

/// `run` is a recorded run of ticks from the world `start`, the first of them
/// numbered `first_tick`: each tick applies what it was given, none of its
/// direct intents being a copy of one of its input events, and writes down
/// its frame.
pub open spec fn is_recorded_run<F: Fn(u32, u32) -> u32, G: Fn(u32, u32, u32) -> u32>(
    start: WorldModel,
    first_tick: u64,
    run: Seq<TickTrace>,
    sum: &F,
    advance: &G,
) -> bool {
    &&& first_tick + run.len() <= u64::MAX + 1
    &&& forall|i: int|
        0 <= i < run.len() ==> {
            let t = #[trigger] run[i];
            &&& is_frame_of(t.frame, (first_tick + i) as u64, t.direct + t.events, t.events)
            &&& forall|k: int| 0 <= k < t.direct.len() ==> !t.events.contains(#[trigger] t.direct[k])
            &&& tick_takes(
                world_before(start, run, i),
                t.direct + t.events,
                t.outcomes,
                t.dt,
                sum,
                advance,
                t.listing,
                t.after,
            )
        }
}

/// `replay` is a replay of the recorded run `run` from the world `start`:
/// each tick applies what the frame of the same tick of `run` holds, and
/// nothing where there is no frame, with the time step of that tick.
pub open spec fn is_replay_of<F: Fn(u32, u32) -> u32, G: Fn(u32, u32, u32) -> u32>(
    start: WorldModel,
    run: Seq<TickTrace>,
    replay: Seq<TickTrace>,
    sum: &F,
    advance: &G,
) -> bool {
    &&& replay.len() == run.len()
    &&& forall|i: int|
        0 <= i < replay.len() ==> {
            let t = #[trigger] replay[i];
            &&& t.dt == run[i].dt
            &&& tick_takes(
                world_before(start, replay, i),
                replayed_frame(run[i].frame),
                t.outcomes,
                t.dt,
                sum,
                advance,
                t.listing,
                t.after,
            )
        }
}

/// Tick `i` of a recorded run and of its replay give the same outcomes and
/// leave the same world behind.
proof fn lemma_replayed_run_agrees_at<F: Fn(u32, u32) -> u32, G: Fn(u32, u32, u32) -> u32>(
    start: WorldModel,
    first_tick: u64,
    run: Seq<TickTrace>,
    replay: Seq<TickTrace>,
    sum: &F,
    advance: &G,
    i: int,
)
    requires
        single_valued(sum),
        single_valued_step(advance),
        is_recorded_run(start, first_tick, run, sum, advance),
        is_replay_of(start, run, replay, sum, advance),
        0 <= i < run.len(),
    ensures
        replay[i].outcomes == run[i].outcomes,
        replay[i].listing == run[i].listing,
        replay[i].after == run[i].after,
    decreases i,
{
    if i > 0 {
        lemma_replayed_run_agrees_at(start, first_tick, run, replay, sum, advance, i - 1);
    }
    let a = run[i];
    let b = replay[i];
    lemma_replayed_tick_same_world(
        world_before(start, run, i),
        a.direct,
        a.events,
        a.frame,
        (first_tick + i) as u64,
        a.dt,
        sum,
        advance,
        a.outcomes,
        a.listing,
        a.after,
        b.outcomes,
        b.listing,
        b.after,
    );
}

/// A recorded run of any number of ticks and its replay go through the same
/// worlds: after every tick the two hold the same entities, have given the
/// same outcomes and have the same checksum, and so at the end. Both start
/// from the same world and use operations that give one result for each
/// input.
pub proof fn lemma_replayed_run_same_worlds<F: Fn(u32, u32) -> u32, G: Fn(u32, u32, u32) -> u32>(
    start: WorldModel,
    first_tick: u64,
    run: Seq<TickTrace>,
    replay: Seq<TickTrace>,
    sum: &F,
    advance: &G,
)
    requires
        single_valued(sum),
        single_valued_step(advance),
        is_recorded_run(start, first_tick, run, sum, advance),
        is_replay_of(start, run, replay, sum, advance),
    ensures
        forall|i: int|
            0 <= i < run.len() ==> {
                &&& (#[trigger] replay[i]).outcomes == run[i].outcomes
                &&& replay[i].listing == run[i].listing
                &&& replay[i].after == run[i].after
                &&& state_checksum((first_tick + i) as u64, replay[i].listing) == state_checksum(
                    (first_tick + i) as u64,
                    run[i].listing,
                )
            },
{
    assert forall|i: int| 0 <= i < run.len() implies {
        &&& (#[trigger] replay[i]).outcomes == run[i].outcomes
        &&& replay[i].listing == run[i].listing
        &&& replay[i].after == run[i].after
    } by {
        lemma_replayed_run_agrees_at(start, first_tick, run, replay, sum, advance, i);
    }
}

} // verus!
