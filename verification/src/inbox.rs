//! The way in for intents that come from another thread: a channel that is
//! emptied once per tick.
//!
//! What the channel hands over is not for this library to know; what is done
//! with each thing it hands over is. So the decisions stand in `Inbox`, which
//! is told one result at a time, and `pump_intents` only asks the channel and
//! tells the inbox until the inbox has had enough.

use vstd::prelude::*;
use crate::intent::{Intent, IntentModel};
use crate::pipeline::queue_view;

verus! {

/// The receiving end of a channel.
#[verifier::external_type_specification]
#[verifier::external_body]
#[verifier::reject_recursive_types(T)]
pub struct ExReceiver<T>(crossbeam_channel::Receiver<T>);

/// What one look into the channel found.
pub enum Received {
    /// A message was waiting.
    Intent(Intent),
    /// Nothing was waiting.
    Empty,
    /// Nothing was waiting and nobody can send any more.
    Disconnected,
}

/// `crossbeam_channel::Receiver::try_recv`: takes a message from the channel
/// if one is waiting, without blocking. Nothing is claimed of which of the
/// three results comes back: that lies with the sending side.
#[verifier::external_body]
fn try_receive(receiver: &crossbeam_channel::Receiver<Intent>) -> (r: Received) {
    match receiver.try_recv() {
        Ok(intent) => Received::Intent(intent),
        Err(crossbeam_channel::TryRecvError::Empty) => Received::Empty,
        Err(crossbeam_channel::TryRecvError::Disconnected) => Received::Disconnected,
    }
}

/// `crossbeam_channel::Receiver::len`: the number of messages in the channel
/// at the moment of the call. Nothing is claimed of the number.
#[verifier::external_body]
fn waiting_count(receiver: &crossbeam_channel::Receiver<Intent>) -> (n: usize) {
    receiver.len()
}

/// What was taken from the channel in one tick.
pub struct Inbox {
    intents: Vec<Intent>,
    disconnected: bool,
    budget: usize,
    stopped: bool,
}

impl Inbox {
    /// How many more looks into the channel the inbox allows.
    pub closed spec fn budget(&self) -> nat {
        self.budget as nat
    }

    /// Whether a look found nothing waiting.
    pub closed spec fn stopped(&self) -> bool {
        self.stopped
    }

    /// The intents taken, in the order they came.
    pub closed spec fn taken(&self) -> Seq<IntentModel> {
        queue_view(self.intents@)
    }

    /// Whether the channel was found disconnected.
    pub closed spec fn disconnected(&self) -> bool {
        self.disconnected
    }

    /// Whether the channel was found disconnected.
    pub fn is_disconnected(&self) -> (b: bool)
        ensures
            b == self.disconnected(),
    {
        self.disconnected
    }

    /// The intents taken, in the order they came.
    pub fn into_intents(self) -> (intents: Vec<Intent>)
        ensures
            queue_view(intents@) == self.taken(),
    {
        self.intents
    }

    /// An empty inbox that allows `budget` looks into the channel.
    pub fn with_budget(budget: usize) -> (inbox: Inbox)
        ensures
            inbox.taken() == Seq::<IntentModel>::empty(),
            !inbox.disconnected(),
            !inbox.stopped(),
            inbox.budget() == budget,
    {
        let inbox = Inbox { intents: Vec::new(), disconnected: false, budget, stopped: false };
        proof {
            assert(inbox.taken() =~= Seq::<IntentModel>::empty());
        }
        inbox
    }

    /// Whether the channel is to be looked into once more: not after a look
    /// that found nothing, and not once the budget is used up.
    pub fn wants_more(&self) -> (more: bool)
        ensures
            more == (!self.stopped() && self.budget() > 0),
    {
        !self.stopped && self.budget > 0
    }

    /// Takes in what one look into the channel found. An intent is kept, in
    /// order. An empty channel ends the tick's intake; so does a disconnected
    /// one, which is also noted. Each look uses up one of the budget.
    pub fn accept(&mut self, received: Received)
        requires
            old(self).budget() > 0,
        ensures
            final(self).budget() == old(self).budget() - 1,
            match received {
                Received::Intent(intent) => {
                    &&& final(self).taken() == old(self).taken().push(intent@)
                    &&& final(self).disconnected() == old(self).disconnected()
                    &&& final(self).stopped() == old(self).stopped()
                },
                Received::Empty => {
                    &&& final(self).taken() == old(self).taken()
                    &&& final(self).disconnected() == old(self).disconnected()
                    &&& final(self).stopped()
                },
                Received::Disconnected => {
                    &&& final(self).taken() == old(self).taken()
                    &&& final(self).disconnected()
                    &&& final(self).stopped()
                },
            },
    {
        self.budget = self.budget - 1;
        match received {
            Received::Intent(intent) => {
                self.intents.push(intent);
                proof {
                    assert(self.taken() =~= old(self).taken().push(intent@));
                }
            },
            Received::Empty => {
                self.stopped = true;
            },
            Received::Disconnected => {
                self.disconnected = true;
                self.stopped = true;
            },
        }
    }
}

/// Empties the channel for one tick: takes the intents that are waiting, in
/// order, until the channel is found empty or disconnected, and at most one
/// more than were waiting when the tick began. The channel is looked into at
/// least once, so an intake that was not stopped has taken something.
pub fn pump_intents(receiver: &crossbeam_channel::Receiver<Intent>) -> (inbox: Inbox)
    ensures
        inbox.stopped() || inbox.budget() == 0,
        inbox.disconnected() ==> inbox.stopped(),
        !inbox.stopped() ==> inbox.taken().len() > 0,
{
    let waiting = waiting_count(receiver);
    let budget = if waiting < usize::MAX {
        waiting + 1
    } else {
        waiting
    };
    let mut inbox = Inbox::with_budget(budget);
    while inbox.wants_more()
        invariant
            budget > 0,
            inbox.disconnected() ==> inbox.stopped(),
            !inbox.stopped() ==> inbox.taken().len() + inbox.budget() == budget,
        decreases inbox.budget(),
    {
        let received = try_receive(receiver);
        inbox.accept(received);
    }
    inbox
}

} // verus!
