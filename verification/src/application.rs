//! The capability an application exposes to the wiring around this core.

use crate::dispatcher::{HasDispatcher, SequenceEvent, Sequencer};
use std::sync::Arc;
use vstd::prelude::*;

verus! {

/// An application: something that owns a sequencer (exposed as its
/// dispatcher of announcement events) and can be shared across the threads
/// that poll it.
pub trait Application: HasDispatcher<SequenceEvent> + Sync {
    /// The sequencer every channel of this application announces on.
    fn sequencer(&self) -> Arc<Sequencer> {
        self.dispatcher()
    }
}

} // verus!
