//! Deferred keyed dispatch.
//!
//! Producers enqueue requests that name a key, carry an opaque payload, and
//! may be delayed by a number of ticks or by an amount of elapsed time. Once
//! per tick the delay resolver promotes expired requests into a ready
//! channel, and the router then hands each ready request to the first
//! registered binding whose key matches, in arrival order. Ready requests
//! that no binding claims stay in the ready channel for later ticks.

pub mod channel;
pub mod combination;
pub mod events;
pub mod laws;
pub mod prelude;
pub mod router;
