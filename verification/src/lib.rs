//! An in-process publish/subscribe core: broadcast channels ("dispatchers")
//! backed by a shared multi-consumer queue, plus a meta-channel (the
//! "sequencer") that gives every consumer one totally ordered feed of
//! "something happened on channel X" announcements across all channels that
//! share it.

pub mod application;
pub mod dispatcher;
pub mod event;
pub mod id_counter;
pub mod laws;
pub mod queue_map;

pub use application::Application;
pub use dispatcher::{Dispatcher, HasDispatcher, SequenceEvent, Sequencer};
pub use event::Event;
pub use id_counter::IdCounter;
pub use queue_map::{DuplicateKey, QueueMap};
