use crossbeam_channel::unbounded;
use nexus_core::inbox::{pump_intents, Inbox, Received};
use nexus_core::intent::{Arg, ArgValue, Intent};

fn despawn(id: u64) -> Intent {
    Intent {
        verb: "Despawn".to_string(),
        args: vec![Arg { name: "entity".to_string(), value: ArgValue::Handle(id) }],
    }
}

#[test]
fn the_pump_takes_what_is_waiting_in_order() {
    let (sender, receiver) = unbounded();
    sender.send(despawn(1)).unwrap();
    sender.send(despawn(2)).unwrap();
    sender.send(despawn(3)).unwrap();
    let inbox = pump_intents(&receiver);
    assert!(!inbox.is_disconnected());
    assert_eq!(inbox.into_intents(), vec![despawn(1), despawn(2), despawn(3)]);
    let again = pump_intents(&receiver);
    assert!(!again.is_disconnected());
    assert!(again.into_intents().is_empty());
}

#[test]
fn the_pump_notes_a_disconnected_channel() {
    let (sender, receiver) = unbounded();
    sender.send(despawn(7)).unwrap();
    drop(sender);
    let inbox = pump_intents(&receiver);
    assert!(inbox.is_disconnected());
    assert_eq!(inbox.into_intents(), vec![despawn(7)]);
    let again = pump_intents(&receiver);
    assert!(again.is_disconnected());
    assert!(again.into_intents().is_empty());
}

#[test]
fn an_inbox_stops_at_the_first_empty_look() {
    let mut inbox = Inbox::with_budget(5);
    assert!(inbox.wants_more());
    inbox.accept(Received::Intent(despawn(1)));
    assert!(inbox.wants_more());
    inbox.accept(Received::Empty);
    assert!(!inbox.wants_more());
    assert!(!inbox.is_disconnected());
    assert_eq!(inbox.into_intents(), vec![despawn(1)]);
}

#[test]
fn an_inbox_stops_when_its_budget_is_used_up() {
    let mut inbox = Inbox::with_budget(2);
    inbox.accept(Received::Intent(despawn(1)));
    inbox.accept(Received::Intent(despawn(2)));
    assert!(!inbox.wants_more());
    assert_eq!(inbox.into_intents(), vec![despawn(1), despawn(2)]);
    let mut closed = Inbox::with_budget(3);
    closed.accept(Received::Disconnected);
    assert!(closed.is_disconnected());
    assert!(!closed.wants_more());
    assert!(!Inbox::with_budget(0).wants_more());
}
