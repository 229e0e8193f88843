//! The two per-combination buffers.
//!
//! A [`RequestChannel`] holds pending requests until the delay resolver
//! drains it once per tick; a [`ReadyChannel`] holds promoted requests until
//! the router drains it, also once per tick. Both record insertion order:
//! producers only append, and draining empties the buffer in one shot.

use vstd::prelude::*;
use crate::events::ReadySpawnEvent;
use crate::events::SpawnEvent;

verus! {

/// The append-only buffer of pending requests for one combination of key
/// type `T` and payload type `D`.
pub struct RequestChannel<T, D = ()> {
    items: Vec<SpawnEvent<T, D>>,
}

impl<T, D> View for RequestChannel<T, D> {
    type V = Seq<SpawnEvent<T, D>>;

    closed spec fn view(&self) -> Seq<SpawnEvent<T, D>> {
        self.items@
    }
}

impl<T, D> RequestChannel<T, D> {
    /// An empty channel: declaring a combination allocates one.
    pub fn new() -> (c: RequestChannel<T, D>)
        ensures
            c@ == Seq::<SpawnEvent<T, D>>::empty(),
    {
        RequestChannel { items: Vec::new() }
    }

    /// Append one request. Never blocks, never rejects: a request whose key
    /// is not yet bound to any handler simply waits.
    pub fn enqueue(&mut self, request: SpawnEvent<T, D>)
        ensures
            final(self)@ == old(self)@.push(request),
    {
        self.items.push(request);
    }

    /// Empty the channel and hand back its previous contents in insertion
    /// order. Used exactly once per tick by the delay resolver.
    pub fn drain_all(&mut self) -> (drained: Vec<SpawnEvent<T, D>>)
        ensures
            drained@ == old(self)@,
            final(self)@ == Seq::<SpawnEvent<T, D>>::empty(),
    {
        let mut drained: Vec<SpawnEvent<T, D>> = Vec::new();
        core::mem::swap(&mut drained, &mut self.items);
        drained
    }

    /// How many requests are pending.
    pub fn len(&self) -> (n: usize)
        ensures
            n == self@.len(),
    {
        self.items.len()
    }
}

/// The buffer of promoted requests for one combination, drained by the
/// router once per tick. Requests that no binding claims are put back and
/// stay here for later ticks.
pub struct ReadyChannel<T, D = ()> {
    items: Vec<ReadySpawnEvent<T, D>>,
}

impl<T, D> View for ReadyChannel<T, D> {
    type V = Seq<ReadySpawnEvent<T, D>>;

    closed spec fn view(&self) -> Seq<ReadySpawnEvent<T, D>> {
        self.items@
    }
}

impl<T, D> ReadyChannel<T, D> {
    /// An empty channel: declaring a combination allocates one.
    pub fn new() -> (c: ReadyChannel<T, D>)
        ensures
            c@ == Seq::<ReadySpawnEvent<T, D>>::empty(),
    {
        ReadyChannel { items: Vec::new() }
    }

    /// Append one promoted request.
    pub fn enqueue(&mut self, event: ReadySpawnEvent<T, D>)
        ensures
            final(self)@ == old(self)@.push(event),
    {
        self.items.push(event);
    }

    /// Empty the channel and hand back its previous contents in insertion
    /// order.
    pub fn drain_all(&mut self) -> (drained: Vec<ReadySpawnEvent<T, D>>)
        ensures
            drained@ == old(self)@,
            final(self)@ == Seq::<ReadySpawnEvent<T, D>>::empty(),
    {
        let mut drained: Vec<ReadySpawnEvent<T, D>> = Vec::new();
        core::mem::swap(&mut drained, &mut self.items);
        drained
    }

    /// How many promoted requests are waiting.
    pub fn len(&self) -> (n: usize)
        ensures
            n == self@.len(),
    {
        self.items.len()
    }
}

} // verus!
