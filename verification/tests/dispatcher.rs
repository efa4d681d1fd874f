use dispatch::dispatcher::sequencer;
use dispatch::id_counter::next_id;
use dispatch::{Dispatcher, Event, IdCounter, SequenceEvent};
use std::sync::Arc;

#[derive(Clone, Copy, Debug, PartialEq, Eq)]
struct Tick {
    n: u32,
}

impl Event for Tick {}

#[test]
fn identities_are_unique_and_monotonic() {
    let mut ids = IdCounter::new();
    let first = next_id(&mut ids);
    let second = next_id(&mut ids);
    let third = next_id(&mut ids);
    assert_eq!(first, 0);
    assert_eq!(second, 1);
    assert_eq!(third, 2);
}

#[test]
fn announcement_carries_the_dispatcher_id() {
    let e = SequenceEvent::new(42);
    assert_eq!(e.dispatcher_id(), 42);
}

#[test]
fn dispatcher_ids_are_stable() {
    let mut ids = IdCounter::new();
    let seq = Arc::new(sequencer(&mut ids));
    let a: Dispatcher<Tick> = Dispatcher::new(&mut ids, seq.clone());
    assert_eq!(seq.id(), 0);
    assert_eq!(a.id(), 1);
    assert_eq!(a.id(), 1);
}

#[test]
fn broadcast_reaches_every_registered_consumer() {
    let mut ids = IdCounter::new();
    let seq = Arc::new(sequencer(&mut ids));
    let a: Dispatcher<Tick> = Dispatcher::new(&mut ids, seq.clone());

    let c1 = next_id(&mut ids);
    let c2 = next_id(&mut ids);
    a.register(c1).unwrap();
    a.register(c2).unwrap();
    assert!(a.register(c2).is_err());

    a.broadcast(Tick { n: 7 });
    a.broadcast(Tick { n: 8 });

    assert_eq!(a.receive(c1), Some(Tick { n: 7 }));
    assert_eq!(a.receive(c2), Some(Tick { n: 7 }));
    assert_eq!(a.receive(c1), Some(Tick { n: 8 }));
    assert_eq!(a.receive(c2), Some(Tick { n: 8 }));
    assert_eq!(a.receive(c1), None);
    assert_eq!(a.receive(c2), None);
}

#[test]
fn announcements_order_channels_sharing_a_sequencer() {
    let mut ids = IdCounter::new();
    let seq = Arc::new(sequencer(&mut ids));
    let a: Dispatcher<Tick> = Dispatcher::new(&mut ids, seq.clone());
    let b: Dispatcher<Tick> = Dispatcher::new(&mut ids, seq.clone());

    let consumer = next_id(&mut ids);
    seq.register(consumer).unwrap();
    a.register(consumer).unwrap();
    b.register(consumer).unwrap();

    a.broadcast(Tick { n: 1 });
    b.broadcast(Tick { n: 2 });

    // The consumer sees the announcement for a before the one for b, and
    // by the time each announcement is visible, the named channel's payload
    // is already retrievable: never None.
    let first = seq.receive(consumer).unwrap();
    assert_eq!(first.dispatcher_id(), a.id());
    assert_eq!(a.receive(consumer), Some(Tick { n: 1 }));

    let second = seq.receive(consumer).unwrap();
    assert_eq!(second.dispatcher_id(), b.id());
    assert_eq!(b.receive(consumer), Some(Tick { n: 2 }));

    assert!(seq.receive(consumer).is_none());
    assert!(a.receive(consumer).is_none());
    assert!(b.receive(consumer).is_none());
}

#[test]
fn a_sequencer_is_itself_a_usable_channel() {
    let mut ids = IdCounter::new();
    let seq = sequencer(&mut ids);
    let consumer = next_id(&mut ids);
    seq.register(consumer).unwrap();
    seq.broadcast(SequenceEvent::new(5));
    let got = seq.receive(consumer).unwrap();
    assert_eq!(got.dispatcher_id(), 5);
    assert!(seq.receive(consumer).is_none());
}
