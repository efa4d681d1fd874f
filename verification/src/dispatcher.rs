//! Broadcast channels ("dispatchers") and the sequencer.
//!
//! A dispatcher owns one lock-guarded multi-consumer queue of its event
//! kind and, optionally, a shared reference to a sequencer: a parentless
//! dispatcher of announcement events. Whenever a dispatcher broadcasts a
//! payload, it then broadcasts on the sequencer an announcement naming
//! itself, so every consumer registered on the sequencer sees one totally
//! ordered feed of "something happened on channel X" across all channels
//! sharing that sequencer. The two pushes are not atomic, but the payload
//! is always pushed before its announcement, so a consumer that sees the
//! announcement can retrieve the payload at once.

use crate::event::Event;
use crate::id_counter::{next_id, IdCounter};
use crate::queue_map::{DuplicateKey, QueueMap};
use std::sync::Arc;
use vstd::prelude::*;
use vstd::rwlock::RwLock;

verus! {

/// The announcement carried by a sequencer: the identity of the dispatcher
/// on which a payload was just broadcast.
#[derive(Clone, Copy, Debug)]
pub struct SequenceEvent {
    dispatcher_id: usize,
}

impl SequenceEvent {
    /// The identity carried by this announcement.
    pub closed spec fn spec_dispatcher_id(self) -> usize {
        self.dispatcher_id
    }

    /// An announcement naming the dispatcher with identity `dispatcher_id`.
    pub fn new(dispatcher_id: usize) -> (e: SequenceEvent)
        ensures
            e.spec_dispatcher_id() == dispatcher_id,
    {
        SequenceEvent { dispatcher_id }
    }

    /// The identity of the dispatcher this announcement is about: the key
    /// under which a consumer looks up the channel that has new data.
    pub fn dispatcher_id(&self) -> (id: usize)
        ensures
            id == self.spec_dispatcher_id(),
    {
        self.dispatcher_id
    }
}

impl Event for SequenceEvent {
}

/// The lock invariant every dispatcher maintains on its queue.
pub open spec fn queue_inv<E: Event>() -> spec_fn(QueueMap<E>) -> bool {
    |q: QueueMap<E>| q.wf()
}

/// A sequencer: a dispatcher of announcement events with no sequencer of
/// its own.
pub type Sequencer = Dispatcher<SequenceEvent>;

/// A typed broadcast endpoint: one identity, one lock-guarded
/// multi-consumer queue of events, and optionally one shared sequencer on
/// which every broadcast is announced.
#[verifier::reject_recursive_types(E)]
pub struct Dispatcher<E: Event> {
    id: usize,
    queue: RwLock<QueueMap<E>, spec_fn(QueueMap<E>) -> bool>,
    sequencer: Option<Arc<Dispatcher<SequenceEvent>>>,
}

impl<E: Event> Dispatcher<E> {
    /// The dispatcher's identity.
    pub closed spec fn spec_id(self) -> usize {
        self.id
    }

    /// Whether this dispatcher's own queue keeps its invariant behind its
    /// lock.
    pub closed spec fn lock_ok(self) -> bool {
        self.queue.pred() == queue_inv::<E>()
    }

    /// A root dispatcher: well formed, with no sequencer of its own. Every
    /// sequencer is such a root, so announcing never announces in turn.
    pub closed spec fn is_root(self) -> bool {
        &&& self.lock_ok()
        &&& self.sequencer is None
    }

    /// Well formed: the queue keeps its invariant, and the sequencer, if
    /// one is configured, is a root.
    pub closed spec fn wf(self) -> bool {
        &&& self.lock_ok()
        &&& match self.sequencer {
            None => true,
            Some(s) => (*s).is_root(),
        }
    }

    /// How many dispatchers a broadcast can reach beyond this one: 1 when
    /// an announcement will follow on a sequencer, 0 when not.
    pub closed spec fn depth(self) -> int {
        if self.sequencer is Some {
            1int
        } else {
            0int
        }
    }

    /// The sequencer this dispatcher announces its broadcasts on, if one is
    /// configured.
    pub closed spec fn spec_sequencer(self) -> Option<Dispatcher<SequenceEvent>> {
        match self.sequencer {
            None => None,
            Some(s) => Some(*s),
        }
    }

    /// A dispatcher with a fresh identity, announcing every broadcast on
    /// the given sequencer.
    pub fn new(ids: &mut IdCounter, sequencer: Arc<Sequencer>) -> (d: Dispatcher<E>)
        requires
            old(ids)@ < usize::MAX,
            (*sequencer).is_root(),
        ensures
            d.wf(),
            d.spec_id() == old(ids)@,
            d.spec_sequencer() == Some(*sequencer),
            final(ids)@ == old(ids)@ + 1,
    {
        let dispatcher_id = next_id(ids);
        Dispatcher {
            id: dispatcher_id,
            sequencer: Some(sequencer),
            queue: RwLock::new(QueueMap::new(), Ghost(queue_inv::<E>())),
        }
    }

    /// The dispatcher's identity: stable for its lifetime, carried by its
    /// announcements, and the key under which consumers route announcements
    /// back to it.
    pub fn id(&self) -> (id: usize)
        ensures
            id == self.spec_id(),
    {
        self.id
    }

    /// Registers a consumer on this channel: the consumer will receive
    /// every event broadcast from now on, and none broadcast before.
    /// Registering the same consumer twice fails without changing anything.
    pub fn register(&self, listener_id: usize) -> (r: Result<(), DuplicateKey>)
        requires
            self.wf(),
    {
        let (mut queue, handle) = self.queue.acquire_write();
        let r = queue.add(listener_id);
        handle.release_write(queue);
        r
    }

    /// Takes the next unread event for this consumer, if one is available.
    /// Non-blocking: absence of data is a normal `None`, never an error.
    pub fn receive(&self, listener_id: usize) -> (r: Option<E>)
        requires
            self.wf(),
    {
        let (mut queue, handle) = self.queue.acquire_write();
        let r = queue.pop(listener_id);
        handle.release_write(queue);
        r
    }

    /// Broadcasts an event: pushes it into this channel's queue and then,
    /// if a sequencer is configured, broadcasts on it an announcement
    /// naming this channel. The payload's lock is released before the
    /// sequencer's is taken, so no two channel locks are ever held at once;
    /// the payload is always pushed before its announcement.
    pub fn broadcast(&self, event: E)
        requires
            self.wf(),
        decreases self.depth(),
    {
        {
            let (mut queue, handle) = self.queue.acquire_write();
            queue.push(event);
            handle.release_write(queue);
        }
        match &self.sequencer {
            None => (),
            Some(sequencer) => {
                sequencer.broadcast(SequenceEvent::new(self.id));
            },
        }
    }
}

/// A fresh root sequencer: a dispatcher of announcement events that does
/// not announce its own broadcasts anywhere.
pub fn sequencer(ids: &mut IdCounter) -> (s: Sequencer)
    requires
        old(ids)@ < usize::MAX,
    ensures
        s.is_root(),
        s.wf(),
        s.spec_id() == old(ids)@,
        s.spec_sequencer() is None,
        final(ids)@ == old(ids)@ + 1,
{
    let sequencer_id = next_id(ids);
    Dispatcher {
        id: sequencer_id,
        sequencer: None,
        queue: RwLock::new(QueueMap::new(), Ghost(queue_inv::<SequenceEvent>())),
    }
}

/// The capability to hand out the dispatcher for one event kind, so generic
/// registration code can attach consumers without knowing the concrete
/// application structure.
pub trait HasDispatcher<E: Event> {
    /// The dispatcher carrying events of kind `E`.
    fn dispatcher(&self) -> Arc<Dispatcher<E>>;
}

} // verus!
