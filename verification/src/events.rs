//! Requests and their delays.
//!
//! A [`SpawnEvent`] asks for an object identified by a key of type `T` to be
//! materialized by a matching handler, together with a payload of type `D`.
//! Its [`Delay`] says how many resolver passes, or how much elapsed time,
//! must go by before the request becomes ready.

use vstd::prelude::*;
use vstd::std_specs::cmp::PartialEqSpec;
use crate::channel::ReadyChannel;
use crate::channel::RequestChannel;

verus! {

/// Number of microseconds in one second.
pub const MICROS_PER_SECOND: u64 = 1000000;

/// A time delay of at most this many microseconds counts as expired.
/// The slack absorbs rounding in the host's conversion of elapsed time.
pub const EPSILON_MICROS: u64 = 10;

/// How long a request waits before it becomes ready. The default is no
/// delay, which makes the request ready on the very next resolver pass.
#[derive(Clone, Copy, Debug, PartialEq, Eq, Structural)]
pub enum Delay {
    /// Wait for this many further resolver passes.
    Frames(usize),
    /// Wait until this many microseconds of tick time have elapsed.
    Micros(u64),
}

impl Default for Delay {
    /// No delay: ready on the next resolver pass.
    fn default() -> (d: Delay)
        ensures
            d == Delay::Frames(0usize),
    {
        Delay::Frames(0)
    }
}

/// An expired delay: the next resolver pass promotes the request.
pub open spec fn is_expired(d: Delay) -> bool {
    match d {
        Delay::Frames(n) => n == 0,
        Delay::Micros(t) => t <= EPSILON_MICROS,
    }
}

/// What one resolver pass leaves of an unexpired delay: a frame count goes
/// down by one, a time delay by the tick's elapsed time (never below zero).
pub open spec fn advanced(d: Delay, delta_micros: u64) -> Delay
    recommends
        !is_expired(d),
{
    match d {
        Delay::Frames(n) => Delay::Frames((n - 1) as usize),
        Delay::Micros(t) => Delay::Micros(if t >= delta_micros {
            (t - delta_micros) as u64
        } else {
            0u64
        }),
    }
}

/// A request that an object identified by the key `object` be materialized,
/// carrying the payload `data`, once `delay` has run out.
#[derive(Clone)]
pub struct SpawnEvent<T, D = ()> {
    /// The key naming the object to materialize.
    pub object: T,
    /// The payload handed to the handler that claims the request.
    pub data: D,
    /// How long the request waits before it becomes ready.
    pub delay: Delay,
}

impl<T, D: Default> SpawnEvent<T, D> {
    /// A request with the given key, the payload's default value, and no
    /// delay.
    pub fn new(object: T) -> (e: SpawnEvent<T, D>)
        ensures
            e.object == object,
            e.delay == Delay::Frames(0usize),
            call_ensures(D::default, (), e.data),
    {
        SpawnEvent { object, data: D::default(), delay: Delay::Frames(0) }
    }
}

impl<T, D> SpawnEvent<T, D> {
    /// A request with the given key and payload and no delay.
    pub fn with_data(object: T, data: D) -> (e: SpawnEvent<T, D>)
        ensures
            e.object == object,
            e.data == data,
            e.delay == Delay::Frames(0usize),
    {
        SpawnEvent { object, data, delay: Delay::Frames(0) }
    }

    /// Delay the request by a number of resolver passes. A count of zero is
    /// the default behaviour: ready on the next pass.
    pub fn delay_frames(self, delay: usize) -> (e: SpawnEvent<T, D>)
        ensures
            e.object == self.object,
            e.data == self.data,
            e.delay == Delay::Frames(delay),
    {
        SpawnEvent { delay: Delay::Frames(delay), ..self }
    }

    /// Delay the request until the given number of microseconds of tick time
    /// have elapsed.
    pub fn delay_micros(self, delay: u64) -> (e: SpawnEvent<T, D>)
        ensures
            e.object == self.object,
            e.data == self.data,
            e.delay == Delay::Micros(delay),
    {
        SpawnEvent { delay: Delay::Micros(delay), ..self }
    }

    /// Delay the request until the given number of whole seconds of tick
    /// time have elapsed.
    pub fn delay_seconds(self, delay: u32) -> (e: SpawnEvent<T, D>)
        ensures
            e.object == self.object,
            e.data == self.data,
            e.delay == Delay::Micros((delay * MICROS_PER_SECOND) as u64),
    {
        SpawnEvent { delay: Delay::Micros(delay as u64 * MICROS_PER_SECOND), ..self }
    }

    /// Replace the payload. Useful after [`SpawnEvent::new`], which fills
    /// the payload with its default value.
    pub fn data(self, data: D) -> (e: SpawnEvent<T, D>)
        ensures
            e.object == self.object,
            e.data == data,
            e.delay == self.delay,
    {
        SpawnEvent { data, ..self }
    }
}

impl<T: PartialEq, D: PartialEq> vstd::std_specs::cmp::PartialEqSpecImpl for SpawnEvent<T, D> {
    open spec fn obeys_eq_spec() -> bool {
        T::obeys_eq_spec() && D::obeys_eq_spec()
    }

    open spec fn eq_spec(&self, other: &SpawnEvent<T, D>) -> bool {
        self.object.eq_spec(&other.object) && self.data.eq_spec(&other.data) && self.delay
            == other.delay
    }
}

impl<T: PartialEq, D: PartialEq> PartialEq for SpawnEvent<T, D> {
    /// Two requests are equal when key, payload and delay all are.
    fn eq(&self, other: &SpawnEvent<T, D>) -> (r: bool) {
        self.object == other.object && self.data == other.data && self.delay == other.delay
    }
}

impl<T: Default, D: Default> Default for SpawnEvent<T, D> {
    /// A request for the key's default value, with the payload's default
    /// value and no delay.
    fn default() -> (e: SpawnEvent<T, D>)
        ensures
            call_ensures(T::default, (), e.object),
            call_ensures(D::default, (), e.data),
            e.delay == Delay::Frames(0usize),
    {
        SpawnEvent { object: T::default(), data: D::default(), delay: Delay::Frames(0) }
    }
}

/// A request whose delay has run out: only the key and the payload remain.
/// It is consumed by the first matching binding to claim it in a tick, or
/// put back into the ready channel untouched if none matches.
pub struct ReadySpawnEvent<T, D = ()> {
    /// The key naming the object to materialize.
    pub object: T,
    /// The payload handed to the handler that claims the request.
    pub data: D,
}

/// The ready request that promoting a pending request produces: the delay
/// field is dropped, key and payload move over unchanged.
pub open spec fn ready_of<T, D>(e: SpawnEvent<T, D>) -> ReadySpawnEvent<T, D> {
    ReadySpawnEvent { object: e.object, data: e.data }
}

impl<T, D> vstd::std_specs::convert::FromSpecImpl<SpawnEvent<T, D>> for ReadySpawnEvent<T, D> {
    open spec fn obeys_from_spec() -> bool {
        true
    }

    open spec fn from_spec(event: SpawnEvent<T, D>) -> ReadySpawnEvent<T, D> {
        ready_of(event)
    }
}

impl<T, D> From<SpawnEvent<T, D>> for ReadySpawnEvent<T, D> {
    fn from(event: SpawnEvent<T, D>) -> (r: ReadySpawnEvent<T, D>)
        ensures
            r == ready_of(event),
    {
        ReadySpawnEvent { object: event.object, data: event.data }
    }
}

/// What one resolver pass does to a single pending request: an expired one
/// leaves the pending channel (`None`), any other stays with its delay
/// advanced by the tick's elapsed time.
pub open spec fn keep_advanced<T, D>(e: SpawnEvent<T, D>, delta_micros: u64) -> Option<
    SpawnEvent<T, D>,
> {
    if is_expired(e.delay) {
        None
    } else {
        Some(SpawnEvent { delay: advanced(e.delay, delta_micros), ..e })
    }
}

/// The ready request that one resolver pass produces from a single pending
/// request: `Some` exactly for the expired ones.
pub open spec fn promote_expired<T, D>(e: SpawnEvent<T, D>) -> Option<ReadySpawnEvent<T, D>> {
    if is_expired(e.delay) {
        Some(ready_of(e))
    } else {
        None
    }
}

/// What stays pending after one resolver pass, in order: every unexpired
/// request, its delay advanced by the tick's elapsed time.
pub open spec fn resolve_kept<T, D>(pending: Seq<SpawnEvent<T, D>>, delta_micros: u64) -> Seq<
    SpawnEvent<T, D>,
>
    decreases pending.len(),
{
    if pending.len() == 0 {
        Seq::empty()
    } else {
        let rest = resolve_kept(pending.drop_last(), delta_micros);
        match keep_advanced(pending.last(), delta_micros) {
            Some(kept) => rest.push(kept),
            None => rest,
        }
    }
}

/// What one resolver pass promotes, in order: every expired request, with
/// its delay dropped.
pub open spec fn resolve_promoted<T, D>(pending: Seq<SpawnEvent<T, D>>) -> Seq<
    ReadySpawnEvent<T, D>,
>
    decreases pending.len(),
{
    if pending.len() == 0 {
        Seq::empty()
    } else {
        let rest = resolve_promoted(pending.drop_last());
        match promote_expired(pending.last()) {
            Some(ready) => rest.push(ready),
            None => rest,
        }
    }
}

/// Appending one request to the resolver's input appends its outcome — one
/// kept request or one promoted request — to the matching output.
pub proof fn lemma_resolve_push<T, D>(s: Seq<SpawnEvent<T, D>>, e: SpawnEvent<T, D>, delta: u64)
    ensures
        !is_expired(e.delay) ==> resolve_kept(s.push(e), delta) == resolve_kept(s, delta).push(
            SpawnEvent { delay: advanced(e.delay, delta), ..e },
        ),
        is_expired(e.delay) ==> resolve_kept(s.push(e), delta) == resolve_kept(s, delta),
        is_expired(e.delay) ==> resolve_promoted(s.push(e)) == resolve_promoted(s).push(
            ready_of(e),
        ),
        !is_expired(e.delay) ==> resolve_promoted(s.push(e)) == resolve_promoted(s),
{
    assert(s.push(e).drop_last() =~= s);
    assert(s.push(e).last() == e);
}

/// The delay resolver: runs once per tick for one combination, before the
/// router. It drains the request channel, promotes every request whose
/// delay has expired into the ready channel, and re-enqueues the rest with
/// their delays advanced by `delta_micros`, the tick's elapsed time. Both
/// the promoted and the re-enqueued requests keep their relative order.
pub fn delay_spawn_events<T, D>(
    delta_micros: u64,
    delayed_spawn_events: &mut RequestChannel<T, D>,
    spawn_event_writer: &mut ReadyChannel<T, D>,
)
    ensures
        final(delayed_spawn_events)@ == resolve_kept(old(delayed_spawn_events)@, delta_micros),
        final(spawn_event_writer)@ == old(spawn_event_writer)@ + resolve_promoted(
            old(delayed_spawn_events)@,
        ),
{
    let ghost orig: Seq<SpawnEvent<T, D>> = delayed_spawn_events@;
    let ghost orig_ready: Seq<ReadySpawnEvent<T, D>> = spawn_event_writer@;
    let mut drained: Vec<SpawnEvent<T, D>> = delayed_spawn_events.drain_all();
    let mut advanced_events: Vec<SpawnEvent<T, D>> = Vec::new();
    let ghost mut done: Seq<SpawnEvent<T, D>> = Seq::empty();
    while drained.len() > 0
        invariant
            orig == done + drained@,
            advanced_events@ == resolve_kept(done, delta_micros),
            spawn_event_writer@ == orig_ready + resolve_promoted(done),
        decreases drained.len(),
    {
        let ghost before: Seq<SpawnEvent<T, D>> = drained@;
        let event = drained.remove(0);
        proof {
            assert(done + before =~= done.push(event) + drained@);
            lemma_resolve_push(done, event, delta_micros);
            done = done.push(event);
        }
        match event.delay {
            Delay::Frames(delay) => {
                if delay == 0 {
                    spawn_event_writer.enqueue(ReadySpawnEvent::from(event));
                } else {
                    advanced_events.push(SpawnEvent { delay: Delay::Frames(delay - 1), ..event });
                }
            },
            Delay::Micros(delay) => {
                if delay <= EPSILON_MICROS {
                    spawn_event_writer.enqueue(ReadySpawnEvent::from(event));
                } else {
                    let remaining: u64 = if delay >= delta_micros {
                        delay - delta_micros
                    } else {
                        0
                    };
                    advanced_events.push(SpawnEvent { delay: Delay::Micros(remaining), ..event });
                }
            },
        }
    }
    proof {
        assert(done =~= orig);
    }
    while advanced_events.len() > 0
        invariant
            delayed_spawn_events@ + advanced_events@ == resolve_kept(orig, delta_micros),
        decreases advanced_events.len(),
    {
        let ghost before: Seq<SpawnEvent<T, D>> = advanced_events@;
        let event = advanced_events.remove(0);
        proof {
            assert(delayed_spawn_events@ + before =~= delayed_spawn_events@.push(event)
                + advanced_events@);
        }
        delayed_spawn_events.enqueue(event);
    }
    proof {
        assert(advanced_events@ =~= Seq::<SpawnEvent<T, D>>::empty());
    }
}

} // verus!
