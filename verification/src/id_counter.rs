//! Allocation of process-unique identities for channels and consumers.
//!
//! Identities come from one monotonically increasing counter. The counter is
//! owned by whoever composes the application and is handed to the
//! constructors that need a fresh identity, so tests can isolate or reset it.

use vstd::prelude::*;

verus! {

/// A monotonically increasing allocator of unique identities.
///
/// Its view is the next identity it will hand out; every identity already
/// handed out is strictly below it, so no identity is ever produced twice.
pub struct IdCounter {
    next: usize,
}

impl View for IdCounter {
    type V = nat;

    closed spec fn view(&self) -> nat {
        self.next as nat
    }
}

impl IdCounter {
    /// A fresh counter, starting at identity 0.
    pub fn new() -> (c: IdCounter)
        ensures
            c@ == 0,
    {
        IdCounter { next: 0 }
    }
}

/// Hands out the counter's next identity and advances it, so the same
/// identity is never returned twice from one counter.
pub fn next_id(counter: &mut IdCounter) -> (id: usize)
    requires
        old(counter)@ < usize::MAX,
    ensures
        id == old(counter)@,
        final(counter)@ == old(counter)@ + 1,
{
    let id = counter.next;
    counter.next = counter.next + 1;
    id
}

} // verus!
