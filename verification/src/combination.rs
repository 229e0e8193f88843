//! One declared combination of a key type and a payload type.
//!
//! Each combination owns an independent pair of channels and its own
//! registry of bindings; requests of one combination can never interfere
//! with another's. The host declares a combination before submitting or
//! registering against it, and then drives it exactly once per tick.

use vstd::prelude::*;
use vstd::std_specs::cmp::PartialEqSpec;
use crate::channel::ReadyChannel;
use crate::channel::RequestChannel;
use crate::events::ReadySpawnEvent;
use crate::events::SpawnEvent;
use crate::events::delay_spawn_events;
use crate::events::resolve_kept;
use crate::events::resolve_promoted;
use crate::router::Dispatch;
use crate::router::Registry;
use crate::router::route;
use crate::router::schedule_from;
use crate::router::survivors_from;

verus! {

/// The pending requests, ready requests and handler bindings for one
/// combination of key type `T` and payload type `D`.
pub struct Combination<T, D = ()> {
    pending: RequestChannel<T, D>,
    ready: ReadyChannel<T, D>,
    registry: Registry<T>,
}

impl<T, D> Combination<T, D> {
    /// The pending requests, in submission order.
    pub closed spec fn pending(&self) -> Seq<SpawnEvent<T, D>> {
        self.pending@
    }

    /// The promoted requests no binding has claimed yet, in arrival order.
    pub closed spec fn ready(&self) -> Seq<ReadySpawnEvent<T, D>> {
        self.ready@
    }

    /// The keys of the registered bindings, in registration order.
    pub closed spec fn bindings(&self) -> Seq<T> {
        self.registry@
    }

    /// Declare the combination: allocate its channels and registry, all
    /// empty. No submission or registration may target a combination that
    /// was not declared first.
    pub fn new() -> (c: Combination<T, D>)
        ensures
            c.pending() == Seq::<SpawnEvent<T, D>>::empty(),
            c.ready() == Seq::<ReadySpawnEvent<T, D>>::empty(),
            c.bindings() == Seq::<T>::empty(),
    {
        Combination { pending: RequestChannel::new(), ready: ReadyChannel::new(), registry: Registry::new() }
    }

    /// The submission call: append one request to the pending channel. It
    /// never blocks and never rejects; a request whose key no binding
    /// matches simply waits.
    pub fn enqueue(&mut self, request: SpawnEvent<T, D>)
        ensures
            final(self).pending() == old(self).pending().push(request),
            final(self).ready() == old(self).ready(),
            final(self).bindings() == old(self).bindings(),
    {
        self.pending.enqueue(request);
    }

    /// The registration call: bind a handler to a key value. The returned
    /// index identifies the handler in every dispatch schedule; the host
    /// keeps the handler callback under the same index.
    pub fn register(&mut self, key: T) -> (binding: usize)
        ensures
            final(self).bindings() == old(self).bindings().push(key),
            binding == old(self).bindings().len(),
            final(self).pending() == old(self).pending(),
            final(self).ready() == old(self).ready(),
    {
        self.registry.register(key)
    }

    /// How many requests are pending.
    pub fn pending_len(&self) -> (n: usize)
        ensures
            n == self.pending().len(),
    {
        self.pending.len()
    }

    /// How many promoted requests no binding has claimed yet.
    pub fn ready_len(&self) -> (n: usize)
        ensures
            n == self.ready().len(),
    {
        self.ready.len()
    }

    /// How many bindings are registered.
    pub fn bindings_len(&self) -> (n: usize)
        ensures
            n == self.bindings().len(),
    {
        self.registry.len()
    }
}

impl<T: Eq, D> Combination<T, D> {
    /// The per-tick drive call, run by the host exactly once per tick with
    /// the tick's elapsed time: first the delay resolver promotes every
    /// pending request whose delay has run out, then the router claims the
    /// ready requests for the bindings in registration order. The returned
    /// schedule lists the handler invocations the host must now perform, in
    /// order; ready requests that no binding claims stay for later ticks.
    pub fn tick(&mut self, delta_micros: u64) -> (schedule: Vec<Dispatch<T, D>>)
        requires
            T::obeys_eq_spec(),
        ensures
            final(self).pending() == resolve_kept(old(self).pending(), delta_micros),
            final(self).ready() == survivors_from(
                old(self).ready() + resolve_promoted(old(self).pending()),
                old(self).bindings(),
                0,
            ),
            final(self).bindings() == old(self).bindings(),
            schedule@ == schedule_from(
                old(self).ready() + resolve_promoted(old(self).pending()),
                old(self).bindings(),
                0,
            ),
    {
        delay_spawn_events(delta_micros, &mut self.pending, &mut self.ready);
        route(&self.registry, &mut self.ready)
    }
}

} // verus!
