//! The kind of value a channel carries.

use vstd::prelude::*;

verus! {

/// An event that can be broadcast on a channel. Events are handed to every
/// registered consumer independently, so they must be `Copy`.
pub trait Event: Copy {
}

} // verus!
