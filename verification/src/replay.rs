//! Record and replay: every tick's intents and input events can be written
//! down as a frame, and a run of frames can be fed back tick by tick.
//!
//! Within a tick the intents that were submitted directly come first and the
//! intents made from input events come after them. A frame keeps the input
//! events whole and, of the tick's intents, only those that are not a copy of
//! one of its input events; replay submits the frame's intents, then the
//! intents made from its input events.

use std::collections::VecDeque;
use vstd::prelude::*;
use crate::checksum::{
    lemma_mix_all_empty, lemma_mix_all_push, mix_all, mix_word, vec3_words, Checksum, DIGEST_SEED,
};
use crate::entity_map::EntityMap;
use crate::intent::{args_view, copy_args, same_args, same_text, Arg, Intent, IntentModel};
use crate::pipeline::{queue_view, sums, IntentPipeline};
use crate::snapshot::{EntitySnapshot, Vec3};

verus! {

/// What the simulation does with its intents, chosen once at start.
#[derive(Clone, Debug, PartialEq, Eq)]
pub enum SimulationMode {
    /// Neither record nor replay.
    Normal,
    /// Write every tick's frame to this path.
    Record { path: String },
    /// Feed the frames read from this path back in.
    Replay { path: String },
}

/// A raw input, stamped with the tick it belongs to.
#[derive(Clone, Debug, PartialEq, Eq)]
pub struct InputEvent {
    pub tick: u64,
    pub action: String,
    pub data: Vec<Arg>,
}

/// What happened in one tick.
#[derive(Clone, Debug, PartialEq, Eq)]
pub struct RecordedFrame {
    pub tick: u64,
    pub intents: Vec<Intent>,
    pub input_events: Vec<InputEvent>,
}

impl SimulationMode {
    /// The mode that the two optional paths ask for: none of them is
    /// `Normal`, one of them is `Record` or `Replay`, both are refused.
    pub fn from_paths(record: Option<String>, replay: Option<String>) -> (mode: Option<
        SimulationMode,
    >)
        ensures
            match (record, replay) {
                (None, None) => mode == Some(SimulationMode::Normal),
                (Some(path), None) => mode == Some(SimulationMode::Record { path }),
                (None, Some(path)) => mode == Some(SimulationMode::Replay { path }),
                (Some(_), Some(_)) => mode is None,
            },
    {
        match (record, replay) {
            (None, None) => Some(SimulationMode::Normal),
            (Some(path), None) => Some(SimulationMode::Record { path }),
            (None, Some(path)) => Some(SimulationMode::Replay { path }),
            (Some(_), Some(_)) => None,
        }
    }

    /// Whether frames are to be written.
    pub fn is_record(&self) -> (b: bool)
        ensures
            b == (*self is Record),
    {
        match self {
            SimulationMode::Record { .. } => true,
            _ => false,
        }
    }

    /// Whether frames are to be fed back in.
    pub fn is_replay(&self) -> (b: bool)
        ensures
            b == (*self is Replay),
    {
        match self {
            SimulationMode::Replay { .. } => true,
            _ => false,
        }
    }
}

impl InputEvent {
    /// The intent that the event stands for: its action as the verb, its data
    /// as the arguments.
    pub open spec fn intent(&self) -> IntentModel {
        IntentModel { verb: self.action@, args: args_view(self.data@) }
    }

    /// The intent that the event stands for.
    pub fn to_intent(&self) -> (intent: Intent)
        ensures
            intent@ == self.intent(),
    {
        Intent { verb: self.action.clone(), args: copy_args(&self.data) }
    }

    /// Whether an intent is a copy of this event: the same verb as its
    /// action, the same arguments as its data.
    pub fn matches(&self, intent: &Intent) -> (b: bool)
        ensures
            b == (intent@ == self.intent()),
    {
        same_text(intent.verb.as_str(), self.action.as_str()) && same_args(
            &intent.args,
            &self.data,
        )
    }

    /// The event with the tick it is processed on. The stamp it came with is
    /// not trusted: where it differs, the second result says so.
    pub fn stamped(&self, tick: u64) -> (r: (InputEvent, bool))
        ensures
            r.0.tick == tick,
            r.0.intent() == self.intent(),
            r.1 == (self.tick != tick),
    {
        let event = InputEvent { tick, action: self.action.clone(), data: copy_args(&self.data) };
        (event, self.tick != tick)
    }
}

/// The intents that a run of events stands for.
pub open spec fn event_intents(events: Seq<InputEvent>) -> Seq<IntentModel> {
    Seq::new(events.len(), |i: int| events[i].intent())
}

/// The intents of a tick that a frame keeps: those that are no copy of an
/// input event of the tick.
pub open spec fn kept_intents(
    intents: Seq<IntentModel>,
    events: Seq<IntentModel>,
) -> Seq<IntentModel> {
    intents.filter(|i: IntentModel| !events.contains(i))
}

/// What replaying a frame submits: its intents, then the intents made from
/// its input events.
pub open spec fn replayed(frame: RecordedFrame) -> Seq<IntentModel> {
    queue_view(frame.intents@) + event_intents(frame.input_events@)
}

/// Whether some event of the run is a copy of the intent.
fn is_copy_of_event(intent: &Intent, events: &Vec<InputEvent>) -> (b: bool)
    ensures
        b == event_intents(events@).contains(intent@),
{
    let ghost models = event_intents(events@);
    let mut k: usize = 0;
    while k < events.len()
        invariant
            k <= events.len(),
            models == event_intents(events@),
            forall|j: int| 0 <= j < k ==> models[j] != intent@,
        decreases events.len() - k,
    {
        if events[k].matches(intent) {
            proof {
                assert(models[k as int] == intent@);
            }
            return true;
        }
        proof {
            assert(models[k as int] == events@[k as int].intent());
        }
        k += 1;
    }
    false
}

/// A copy of a run of input events, each with the tick it is processed on.
/// The second result counts the events whose stamp was another tick.
pub fn stamp_events(events: &Vec<InputEvent>, tick: u64) -> (r: (Vec<InputEvent>, usize))
    ensures
        r.0@.len() == events@.len(),
        event_intents(r.0@) == event_intents(events@),
        forall|i: int| 0 <= i < r.0@.len() ==> r.0@[i].tick == tick,
        r.1 == events@.filter(|e: InputEvent| e.tick != tick).len(),
{
    let ghost wrong = |e: InputEvent| e.tick != tick;
    let mut out: Vec<InputEvent> = Vec::new();
    let mut mismatches: usize = 0;
    let mut i: usize = 0;
    proof {
        assert(events@.take(0) =~= Seq::<InputEvent>::empty());
        assert(events@.take(0).filter(wrong).len() == 0);
    }
    while i < events.len()
        invariant
            i <= events.len(),
            out@.len() == i,
            wrong == (|e: InputEvent| e.tick != tick),
            forall|j: int| 0 <= j < i ==> out@[j].intent() == events@[j].intent(),
            forall|j: int| 0 <= j < i ==> out@[j].tick == tick,
            mismatches == events@.take(i as int).filter(wrong).len(),
            mismatches <= i,
        decreases events.len() - i,
    {
        let (event, mismatch) = events[i].stamped(tick);
        proof {
            assert(events@.take(i + 1) =~= events@.take(i as int).push(events@[i as int]));
            events@.take(i as int).lemma_filter_push(events@[i as int], wrong);
        }
        if mismatch {
            mismatches += 1;
        }
        out.push(event);
        i += 1;
    }
    proof {
        assert(events@.take(i as int) =~= events@);
        assert(event_intents(out@) =~= event_intents(events@));
    }
    (out, mismatches)
}

/// The frame of a tick, if anything happened in it.
///
/// `intents` are all the intents of the tick, in arrival order, those made
/// from the input events included. A tick without intents and without input
/// events has no frame. Otherwise the frame holds the input events, and the
/// intents that are no copy of one of them.
pub fn build_frame(tick: u64, intents: &Vec<Intent>, input_events: &Vec<InputEvent>) -> (frame:
    Option<RecordedFrame>)
    ensures
        frame is Some <==> intents@.len() + input_events@.len() > 0,
        frame is Some ==> {
            let f = frame->Some_0;
            &&& f.tick == tick
            &&& queue_view(f.intents@) == kept_intents(
                queue_view(intents@),
                event_intents(input_events@),
            )
            &&& event_intents(f.input_events@) == event_intents(input_events@)
            &&& forall|i: int| 0 <= i < f.input_events@.len() ==> f.input_events@[i].tick == tick
        },
{
    if intents.len() == 0 && input_events.len() == 0 {
        return None;
    }
    let ghost all = queue_view(intents@);
    let ghost events = event_intents(input_events@);
    let ghost keep = |i: IntentModel| !events.contains(i);
    let mut kept: Vec<Intent> = Vec::new();
    let mut i: usize = 0;
    proof {
        assert(all.take(0) =~= Seq::<IntentModel>::empty());
        assert(all.take(0).filter(keep) =~= Seq::<IntentModel>::empty());
        assert(queue_view(kept@) =~= Seq::<IntentModel>::empty());
    }
    while i < intents.len()
        invariant
            i <= intents.len(),
            all == queue_view(intents@),
            events == event_intents(input_events@),
            keep == (|i: IntentModel| !events.contains(i)),
            queue_view(kept@) == all.take(i as int).filter(keep),
        decreases intents.len() - i,
    {
        let ghost before = queue_view(kept@);
        proof {
            assert(all[i as int] == intents@[i as int]@);
            assert(all.take(i + 1) =~= all.take(i as int).push(all[i as int]));
            all.take(i as int).lemma_filter_push(all[i as int], keep);
        }
        if !is_copy_of_event(&intents[i], input_events) {
            kept.push(intents[i].duplicate());
            proof {
                assert(queue_view(kept@) =~= before.push(all[i as int]));
            }
        }
        i += 1;
    }
    proof {
        assert(all.take(i as int) =~= all);
    }
    let (stamped, _) = stamp_events(input_events, tick);
    Some(RecordedFrame { tick, intents: kept, input_events: stamped })
}

/// A frame gives back the tick's intents in their order exactly when none of
/// the intents that were submitted directly is a copy of an input event of
/// the tick.
pub proof fn lemma_frame_round_trip(
    direct: Seq<IntentModel>,
    events: Seq<IntentModel>,
)
    ensures
        (kept_intents(direct + events, events) + events == direct + events) <==> (forall|i: int|
            0 <= i < direct.len() ==> !events.contains(#[trigger] direct[i])),
{
    let keep = |i: IntentModel| !events.contains(i);
    Seq::filter_distributes_over_add(direct, events, keep);
    lemma_filter_none(events, events);
    assert(events.filter(keep) =~= Seq::<IntentModel>::empty());
    assert(kept_intents(direct + events, events) =~= direct.filter(keep));
    lemma_filter_all(direct, keep);
    if direct.filter(keep) + events == direct + events {
        assert(direct.filter(keep).len() == direct.len()) by {
            assert((direct.filter(keep) + events).len() == (direct + events).len());
        }
    }
    if direct.filter(keep) == direct {
        assert(direct.filter(keep) + events =~= direct + events);
    }
}

/// No element of `s` that occurs in `events` passes the filter that keeps
/// what does not occur in `events`.
proof fn lemma_filter_none(s: Seq<IntentModel>, events: Seq<IntentModel>)
    requires
        forall|i: int| 0 <= i < s.len() ==> events.contains(#[trigger] s[i]),
    ensures
        s.filter(|i: IntentModel| !events.contains(i)).len() == 0,
    decreases s.len(),
{
    let keep = |i: IntentModel| !events.contains(i);
    reveal(Seq::filter);
    if s.len() > 0 {
        lemma_filter_none(s.drop_last(), events);
        assert(events.contains(s[s.len() - 1]));
    }
}

/// A filter keeps a whole sequence exactly when every element passes, and it
/// keeps as many elements as there are only then.
proof fn lemma_filter_all(s: Seq<IntentModel>, keep: spec_fn(IntentModel) -> bool)
    ensures
        s.filter(keep).len() <= s.len(),
        (s.filter(keep).len() == s.len()) <==> (forall|i: int|
            0 <= i < s.len() ==> keep(#[trigger] s[i])),
        (s.filter(keep) == s) <==> (forall|i: int| 0 <= i < s.len() ==> keep(#[trigger] s[i])),
    decreases s.len(),
{
    reveal(Seq::filter);
    if s.len() > 0 {
        let head = s.drop_last();
        lemma_filter_all(head, keep);
        if forall|i: int| 0 <= i < s.len() ==> keep(#[trigger] s[i]) {
            assert forall|i: int| 0 <= i < head.len() implies keep(#[trigger] head[i]) by {
                assert(keep(s[i]));
            }
            assert(keep(s[s.len() - 1]));
            assert(s.filter(keep) =~= head.push(s.last()));
            assert(head.push(s.last()) =~= s);
        }
        if s.filter(keep).len() == s.len() {
            assert(keep(s.last()));
            assert forall|i: int| 0 <= i < s.len() implies keep(#[trigger] s[i]) by {
                if i < head.len() {
                    assert(keep(head[i]));
                }
            }
        }
    } else {
        assert(s.filter(keep) =~= s);
    }
}

/// How many neighbours in a run of frames go back in time.
pub open spec fn backward_steps(frames: Seq<RecordedFrame>) -> nat
    decreases frames.len(),
{
    if frames.len() < 2 {
        0
    } else {
        backward_steps(frames.drop_last()) + (if frames[frames.len() - 2].tick
            > frames.last().tick {
            1nat
        } else {
            0nat
        })
    }
}

/// How many frames at the front of a run are due at `tick`: those whose tick
/// is not after `tick`, up to the first frame that is later.
pub open spec fn due_count(frames: Seq<RecordedFrame>, tick: u64) -> nat
    decreases frames.len(),
{
    if frames.len() == 0 || frames[0].tick > tick {
        0
    } else {
        1 + due_count(frames.drop_first(), tick)
    }
}

/// What replaying a run of frames submits, frame after frame.
pub open spec fn replayed_all(frames: Seq<RecordedFrame>) -> Seq<IntentModel>
    decreases frames.len(),
{
    if frames.len() == 0 {
        Seq::<IntentModel>::empty()
    } else {
        replayed_all(frames.drop_last()) + replayed(frames.last())
    }
}

/// The frames still to be replayed, in the order they were read.
pub struct ReplayQueue {
    frames: VecDeque<RecordedFrame>,
    last_tick: u64,
    finished: bool,
}

impl ReplayQueue {
    /// The frames still to be replayed, oldest first.
    pub closed spec fn remaining(&self) -> Seq<RecordedFrame> {
        self.frames@
    }

    /// The tick of the last frame that was loaded, or 0 if none was.
    pub closed spec fn last_tick(&self) -> u64 {
        self.last_tick
    }

    /// Whether the end of the replay has been signalled.
    pub closed spec fn finished(&self) -> bool {
        self.finished
    }

    /// Takes the frames of a recording, in the order they were read. The
    /// order is kept as it is; the second result counts the places where a
    /// frame has an earlier tick than the frame before it.
    pub fn load(frames: Vec<RecordedFrame>) -> (r: (ReplayQueue, usize))
        ensures
            r.0.remaining() == frames@,
            !r.0.finished(),
            r.0.last_tick() == (if frames@.len() == 0 {
                0
            } else {
                frames@.last().tick
            }),
            r.1 == backward_steps(frames@),
    {
        if frames.len() == 0 {
            return (ReplayQueue { frames: VecDeque::new(), last_tick: 0, finished: false }, 0);
        }
        let mut warnings: usize = 0;
        let mut i: usize = 1;
        while i < frames.len()
            invariant
                1 <= i <= frames.len(),
                warnings == backward_steps(frames@.take(i as int)),
                warnings < i,
            decreases frames.len() - i,
        {
            proof {
                let more = frames@.take(i + 1);
                assert(more.drop_last() =~= frames@.take(i as int));
                assert(more[more.len() - 2] == frames@[i - 1]);
                assert(more.last() == frames@[i as int]);
            }
            if frames[i - 1].tick > frames[i].tick {
                warnings += 1;
            }
            i += 1;
        }
        proof {
            assert(frames@.take(i as int) =~= frames@);
        }
        let last_tick = frames[frames.len() - 1].tick;
        let mut queue: VecDeque<RecordedFrame> = VecDeque::new();
        let mut rest = frames;
        let ghost all = rest@;
        while rest.len() > 0
            invariant
                queue@.len() + rest@.len() == all.len(),
                forall|j: int| 0 <= j < rest@.len() ==> rest@[j] == all[j],
                forall|j: int| 0 <= j < queue@.len() ==> queue@[j] == all[all.len() - 1 - j],
            decreases rest@.len(),
        {
            let frame = rest.pop();
            match frame {
                Some(f) => {
                    queue.push_back(f);
                },
                None => {},
            }
        }
        let mut ordered: VecDeque<RecordedFrame> = VecDeque::new();
        while queue.len() > 0
            invariant
                ordered@.len() + queue@.len() == all.len(),
                forall|j: int| 0 <= j < queue@.len() ==> queue@[j] == all[all.len() - 1 - j],
                forall|j: int| 0 <= j < ordered@.len() ==> ordered@[j] == all[j],
            decreases queue@.len(),
        {
            let frame = queue.pop_back();
            match frame {
                Some(f) => {
                    ordered.push_back(f);
                },
                None => {},
            }
        }
        proof {
            assert(ordered@ =~= all);
        }
        (ReplayQueue { frames: ordered, last_tick, finished: false }, warnings)
    }

    /// How many frames are still to be replayed.
    pub fn len(&self) -> (n: usize)
        ensures
            n == self.remaining().len(),
    {
        self.frames.len()
    }

    /// Takes from the front every frame that is due at `tick`: the frames at
    /// the front whose tick is not after `tick`, up to the first frame that is
    /// later.
    pub fn pop_due(&mut self, tick: u64) -> (due: Vec<RecordedFrame>)
        ensures
            due@ == old(self).remaining().take(due_count(old(self).remaining(), tick) as int),
            final(self).remaining() == old(self).remaining().skip(
                due_count(old(self).remaining(), tick) as int,
            ),
            due_count(old(self).remaining(), tick) <= old(self).remaining().len(),
            forall|i: int| 0 <= i < due@.len() ==> due@[i].tick <= tick,
            final(self).remaining().len() > 0 ==> final(self).remaining()[0].tick > tick,
            final(self).last_tick() == old(self).last_tick(),
            final(self).finished() == old(self).finished(),
    {
        let mut due: Vec<RecordedFrame> = Vec::new();
        let ghost all = self.frames@;
        proof {
            assert(all.take(0) =~= due@);
            assert(all.skip(0) =~= self.frames@);
        }
        while self.frames.len() > 0 && self.frames[0].tick <= tick
            invariant
                all == old(self).frames@,
                due@.len() <= all.len(),
                due@ == all.take(due@.len() as int),
                self.frames@ == all.skip(due@.len() as int),
                due_count(all, tick) == due@.len() + due_count(self.frames@, tick),
                forall|i: int| 0 <= i < due@.len() ==> due@[i].tick <= tick,
                self.last_tick == old(self).last_tick,
                self.finished == old(self).finished,
            decreases self.frames@.len(),
        {
            let ghost before = self.frames@;
            let ghost taken = due@;
            let frame = self.frames.pop_front();
            match frame {
                Some(f) => {
                    due.push(f);
                    proof {
                        assert(self.frames@ =~= before.drop_first());
                        assert(due@ =~= all.take(due@.len() as int));
                        assert(self.frames@ =~= all.skip(due@.len() as int));
                    }
                },
                None => {},
            }
        }
        due
    }

    /// Whether the replay is over at `tick`: no frame is left and `tick` has
    /// reached the tick of the last frame.
    pub open spec fn over_at(&self, tick: u64) -> bool {
        self.remaining().len() == 0 && tick >= self.last_tick()
    }

    /// Signals the end of the replay, once: true the first time that the
    /// replay is over, false before that and ever after.
    pub fn check_complete(&mut self, tick: u64) -> (done: bool)
        ensures
            done == (!old(self).finished() && old(self).over_at(tick)),
            final(self).finished() == (old(self).finished() || done),
            final(self).remaining() == old(self).remaining(),
            final(self).last_tick() == old(self).last_tick(),
    {
        if !self.finished && self.frames.len() == 0 && tick >= self.last_tick {
            self.finished = true;
            true
        } else {
            false
        }
    }
}

/// Submits what a frame holds: its intents first, then the intents made from
/// its input events.
pub fn inject_frame(pipeline: &mut IntentPipeline, frame: &RecordedFrame)
    ensures
        final(pipeline).pending() == old(pipeline).pending() + replayed(*frame),
{
    let ghost start = pipeline.pending();
    let ghost direct = queue_view(frame.intents@);
    let ghost made = event_intents(frame.input_events@);
    let mut i: usize = 0;
    proof {
        assert(start + direct.take(0) =~= start);
    }
    while i < frame.intents.len()
        invariant
            i <= frame.intents.len(),
            direct == queue_view(frame.intents@),
            pipeline.pending() == start + direct.take(i as int),
        decreases frame.intents.len() - i,
    {
        pipeline.submit(frame.intents[i].duplicate());
        proof {
            assert(direct[i as int] == frame.intents@[i as int]@);
            assert(start + direct.take(i + 1) =~= (start + direct.take(i as int)).push(
                direct[i as int],
            ));
        }
        i += 1;
    }
    proof {
        assert(direct.take(i as int) =~= direct);
        assert(start + direct + made.take(0) =~= start + direct);
    }
    let mut k: usize = 0;
    while k < frame.input_events.len()
        invariant
            k <= frame.input_events.len(),
            made == event_intents(frame.input_events@),
            pipeline.pending() == start + direct + made.take(k as int),
        decreases frame.input_events.len() - k,
    {
        pipeline.submit(frame.input_events[k].to_intent());
        proof {
            assert(made[k as int] == frame.input_events@[k as int].intent());
            assert(start + direct + made.take(k + 1) =~= (start + direct + made.take(
                k as int,
            )).push(made[k as int]));
        }
        k += 1;
    }
    proof {
        assert(made.take(k as int) =~= made);
        assert(start + direct + made =~= start + (direct + made));
    }
}

/// Submits what a run of frames holds, frame after frame.
pub fn inject_frames(pipeline: &mut IntentPipeline, frames: &Vec<RecordedFrame>)
    ensures
        final(pipeline).pending() == old(pipeline).pending() + replayed_all(frames@),
{
    let ghost start = pipeline.pending();
    let mut i: usize = 0;
    proof {
        assert(start + replayed_all(frames@.take(0)) =~= start);
    }
    while i < frames.len()
        invariant
            i <= frames.len(),
            pipeline.pending() == start + replayed_all(frames@.take(i as int)),
        decreases frames.len() - i,
    {
        inject_frame(pipeline, &frames[i]);
        proof {
            let more = frames@.take(i + 1);
            assert(more.drop_last() =~= frames@.take(i as int));
            assert(more.last() == frames@[i as int]);
            assert(start + replayed_all(more) =~= start + replayed_all(frames@.take(i as int))
                + replayed(frames@[i as int]));
        }
        i += 1;
    }
    proof {
        assert(frames@.take(i as int) =~= frames@);
    }
}

/// `partials` are the running totals of the positions of `entities`, added
/// up from the left by `sum`, starting from zero.
pub open spec fn totals_follow<F: Fn(u32, u32) -> u32>(
    sum: &F,
    entities: Seq<EntitySnapshot>,
    partials: Seq<Vec3>,
) -> bool {
    &&& partials.len() == entities.len() + 1
    &&& partials[0] == (Vec3 { x: 0, y: 0, z: 0 })
    &&& forall|i: int|
        0 <= i < entities.len() ==> sums(sum, partials[i], entities[i].pos, #[trigger] partials[i
            + 1])
}

/// `total` is what `sum` may give for the positions of `entities`, added up
/// from the left, starting from zero.
pub open spec fn may_total<F: Fn(u32, u32) -> u32>(
    sum: &F,
    entities: Seq<EntitySnapshot>,
    total: Vec3,
) -> bool {
    exists|partials: Seq<Vec3>| #[trigger]
        totals_follow(sum, entities, partials) && partials.last() == total
}

/// The positions of all entities added up in id order, starting from zero.
pub fn position_total<F: Fn(u32, u32) -> u32>(entities: &EntityMap, sum: &F) -> (total: Vec3)
    requires
        forall|a: u32, b: u32| call_requires(sum, (a, b)),
    ensures
        may_total(sum, entities.listing(), total),
{
    let mut total = Vec3 { x: 0, y: 0, z: 0 };
    let ghost mut partials: Seq<Vec3> = Seq::<Vec3>::empty().push(total);
    let n = entities.len();
    let mut i: usize = 0;
    while i < n
        invariant
            i <= n,
            n == entities.listing().len(),
            partials.len() == i + 1,
            partials[0] == (Vec3 { x: 0, y: 0, z: 0 }),
            partials.last() == total,
            forall|k: int|
                0 <= k < i ==> sums(
                    sum,
                    partials[k],
                    entities.listing()[k].pos,
                    #[trigger] partials[k + 1],
                ),
            forall|a: u32, b: u32| call_requires(sum, (a, b)),
        decreases n - i,
    {
        let e = entities.nth(i);
        let ghost before = partials;
        total =
        Vec3 { x: sum(total.x, e.pos.x), y: sum(total.y, e.pos.y), z: sum(total.z, e.pos.z) };
        proof {
            partials = before.push(total);
            assert forall|k: int| 0 <= k < i + 1 implies sums(
                sum,
                partials[k],
                entities.listing()[k].pos,
                #[trigger] partials[k + 1],
            ) by {
                if k < i {
                    assert(partials[k] == before[k]);
                    assert(partials[k + 1] == before[k + 1]);
                }
            }
        }
        i += 1;
    }
    proof {
        assert(totals_follow(sum, entities.listing(), partials) && partials.last() == total);
    }
    total
}

/// The checksum that a replay prints when it ends: the digest of the three
/// words of the position total.
pub open spec fn total_digest(total: Vec3) -> Checksum {
    mix_all(DIGEST_SEED, vec3_words(total))
}

/// The checksum that a replay prints when it ends.
pub fn replay_checksum(total: Vec3) -> (c: Checksum)
    ensures
        c == total_digest(total),
{
    let h1 = mix_word(DIGEST_SEED, total.x as u64);
    let h2 = mix_word(h1, total.y as u64);
    let h3 = mix_word(h2, total.z as u64);
    proof {
        let none = Seq::<u64>::empty();
        lemma_mix_all_empty(DIGEST_SEED);
        lemma_mix_all_push(DIGEST_SEED, none, total.x as u64);
        lemma_mix_all_push(DIGEST_SEED, none.push(total.x as u64), total.y as u64);
        lemma_mix_all_push(
            DIGEST_SEED,
            none.push(total.x as u64).push(total.y as u64),
            total.z as u64,
        );
        assert(vec3_words(total) =~= none.push(total.x as u64).push(total.y as u64).push(
            total.z as u64,
        ));
    }
    h3
}

} // verus!
