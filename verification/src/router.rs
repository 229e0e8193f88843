//! The router and its registry of handler bindings.
//!
//! A binding associates a key value with one registered handler; the handler
//! itself lives with the host and is identified here by the index the
//! registration call returned. Once per tick, after the delay resolver, the
//! router takes each binding in registration order, claims every ready
//! request whose key matches it and has not been claimed by an earlier
//! binding, and puts the rest back for the next binding — and, after the
//! last binding, back into the ready channel for later ticks. The router
//! returns the dispatch schedule: which binding handles which request, in
//! invocation order. The host performs the handler calls in exactly that
//! order.

use vstd::prelude::*;
use vstd::std_specs::cmp::PartialEqSpec;
use crate::channel::ReadyChannel;
use crate::events::ReadySpawnEvent;

verus! {

/// Whether a ready request's key equals a binding's key, as the key type's
/// own equality sees it.
pub open spec fn key_matches<T: PartialEq, D>(event: ReadySpawnEvent<T, D>, key: T) -> bool {
    event.object.eq_spec(&key)
}

/// The requests of `events` that a binding with key `key` claims: exactly
/// the matching ones, in arrival order.
pub open spec fn claimed<T: PartialEq, D>(events: Seq<ReadySpawnEvent<T, D>>, key: T) -> Seq<
    ReadySpawnEvent<T, D>,
>
    decreases events.len(),
{
    if events.len() == 0 {
        Seq::empty()
    } else {
        let rest = claimed(events.drop_last(), key);
        if key_matches(events.last(), key) {
            rest.push(events.last())
        } else {
            rest
        }
    }
}

/// The requests of `events` that a binding with key `key` leaves behind:
/// exactly the non-matching ones, untouched and in arrival order.
pub open spec fn leftover<T: PartialEq, D>(events: Seq<ReadySpawnEvent<T, D>>, key: T) -> Seq<
    ReadySpawnEvent<T, D>,
>
    decreases events.len(),
{
    if events.len() == 0 {
        Seq::empty()
    } else {
        let rest = leftover(events.drop_last(), key);
        if key_matches(events.last(), key) {
            rest
        } else {
            rest.push(events.last())
        }
    }
}

/// One entry of the dispatch schedule: the binding at index `binding` in
/// the registry handles `event`.
pub struct Dispatch<T, D = ()> {
    /// The index that registering the claiming binding returned.
    pub binding: usize,
    /// The claimed request, handed to the binding's handler.
    pub event: ReadySpawnEvent<T, D>,
}

/// The schedule entries that hand `events`, in order, to the binding at
/// index `binding`.
pub open spec fn dispatches<T, D>(events: Seq<ReadySpawnEvent<T, D>>, binding: usize) -> Seq<
    Dispatch<T, D>,
>
    decreases events.len(),
{
    if events.len() == 0 {
        Seq::empty()
    } else {
        dispatches(events.drop_last(), binding).push(
            Dispatch { binding, event: events.last() },
        )
    }
}

/// The dispatch schedule that one router pass produces from the ready
/// requests `events` when the bindings at indices `b`, `b + 1`, ... of
/// `keys` are still to run: each binding in turn claims its matching
/// requests in arrival order and leaves the rest to the bindings after it.
pub open spec fn schedule_from<T: PartialEq, D>(
    events: Seq<ReadySpawnEvent<T, D>>,
    keys: Seq<T>,
    b: int,
) -> Seq<Dispatch<T, D>>
    decreases keys.len() - b,
{
    if b < 0 || b >= keys.len() {
        Seq::empty()
    } else {
        dispatches(claimed(events, keys[b]), b as usize) + schedule_from(
            leftover(events, keys[b]),
            keys,
            b + 1,
        )
    }
}

/// The ready requests that survive one router pass, in order: those of
/// `events` that none of the bindings at indices `b`, `b + 1`, ... of
/// `keys` claims. They stay in the ready channel for later ticks.
pub open spec fn survivors_from<T: PartialEq, D>(
    events: Seq<ReadySpawnEvent<T, D>>,
    keys: Seq<T>,
    b: int,
) -> Seq<ReadySpawnEvent<T, D>>
    decreases keys.len() - b,
{
    if b < 0 || b >= keys.len() {
        events
    } else {
        survivors_from(leftover(events, keys[b]), keys, b + 1)
    }
}

/// Appending one ready request to a partition's input appends it to the
/// claimed side when it matches, to the leftover side when it does not.
pub proof fn lemma_partition_push<T: PartialEq, D>(
    events: Seq<ReadySpawnEvent<T, D>>,
    event: ReadySpawnEvent<T, D>,
    key: T,
)
    ensures
        key_matches(event, key) ==> claimed(events.push(event), key) == claimed(events, key).push(
            event,
        ),
        key_matches(event, key) ==> leftover(events.push(event), key) == leftover(events, key),
        !key_matches(event, key) ==> claimed(events.push(event), key) == claimed(events, key),
        !key_matches(event, key) ==> leftover(events.push(event), key) == leftover(events, key).push(
            event,
        ),
{
    assert(events.push(event).drop_last() =~= events);
    assert(events.push(event).last() == event);
}

/// The schedule entries of one binding, taken from the front: the first
/// claimed request is dispatched first.
pub proof fn lemma_dispatches_drop_first<T, D>(events: Seq<ReadySpawnEvent<T, D>>, binding: usize)
    requires
        events.len() > 0,
    ensures
        dispatches(events, binding) == seq![
            Dispatch { binding, event: events.first() },
        ] + dispatches(events.drop_first(), binding),
    decreases events.len(),
{
    if events.len() == 1 {
        assert(events.drop_last().len() == 0);
        assert(dispatches(events.drop_last(), binding) == Seq::<Dispatch<T, D>>::empty());
        assert(dispatches(events.drop_first(), binding) == Seq::<Dispatch<T, D>>::empty());
        assert(events.first() == events.last());
        assert(dispatches(events, binding) =~= seq![
            Dispatch { binding, event: events.first() },
        ] + dispatches(events.drop_first(), binding));
    } else {
        lemma_dispatches_drop_first(events.drop_last(), binding);
        assert(events.drop_last().drop_first() =~= events.drop_first().drop_last());
        assert(events.drop_first().last() == events.last());
        assert(dispatches(events, binding) =~= seq![
            Dispatch { binding, event: events.first() },
        ] + dispatches(events.drop_first(), binding));
    }
}

/// The ordered list of registered handler bindings for one combination of
/// key type `T` and payload type `D`. Registration order decides which
/// binding claims a request both bindings match, and the order in which the
/// host runs the handlers within one tick.
pub struct Registry<T> {
    keys: Vec<T>,
}

impl<T> View for Registry<T> {
    type V = Seq<T>;

    closed spec fn view(&self) -> Seq<T> {
        self.keys@
    }
}

impl<T> Registry<T> {
    /// An empty registry: declaring a combination allocates one.
    pub fn new() -> (r: Registry<T>)
        ensures
            r@ == Seq::<T>::empty(),
    {
        Registry { keys: Vec::new() }
    }

    /// Bind a handler to a key value. The returned index identifies the
    /// handler in the dispatch schedule; the host keeps the handler itself
    /// under the same index. Several bindings may share one key: the one
    /// registered first claims the matching requests of a tick.
    pub fn register(&mut self, key: T) -> (binding: usize)
        ensures
            final(self)@ == old(self)@.push(key),
            binding == old(self)@.len(),
    {
        let binding = self.keys.len();
        self.keys.push(key);
        binding
    }

    /// How many bindings are registered.
    pub fn len(&self) -> (n: usize)
        ensures
            n == self@.len(),
    {
        self.keys.len()
    }

    /// The key of the binding at the given index.
    pub fn key(&self, binding: usize) -> (key: &T)
        requires
            binding < self@.len(),
        ensures
            *key == self@[binding as int],
    {
        &self.keys[binding]
    }
}

/// One binding's share of the router pass, as the host may also run it on
/// its own: drain the ready channel, claim every request whose key equals
/// `object`, and put the rest back, untouched and in order, for the next
/// binding or the next tick. The claimed requests come back in arrival
/// order; the host invokes the binding's handler once per entry.
pub fn route_binding<T: Eq, D>(spawn_events: &mut ReadyChannel<T, D>, object: &T) -> (handled: Vec<
    ReadySpawnEvent<T, D>,
>)
    requires
        T::obeys_eq_spec(),
    ensures
        handled@ == claimed(old(spawn_events)@, *object),
        final(spawn_events)@ == leftover(old(spawn_events)@, *object),
{
    let ghost orig: Seq<ReadySpawnEvent<T, D>> = spawn_events@;
    let mut drained: Vec<ReadySpawnEvent<T, D>> = spawn_events.drain_all();
    let mut handled_events: Vec<ReadySpawnEvent<T, D>> = Vec::new();
    let ghost mut done: Seq<ReadySpawnEvent<T, D>> = Seq::empty();
    while drained.len() > 0
        invariant
            T::obeys_eq_spec(),
            orig == done + drained@,
            handled_events@ == claimed(done, *object),
            spawn_events@ == leftover(done, *object),
        decreases drained.len(),
    {
        let ghost before: Seq<ReadySpawnEvent<T, D>> = drained@;
        let event = drained.remove(0);
        proof {
            assert(done + before =~= done.push(event) + drained@);
            lemma_partition_push(done, event, *object);
            done = done.push(event);
        }
        if event.object == *object {
            handled_events.push(event);
        } else {
            spawn_events.enqueue(event);
        }
    }
    proof {
        assert(done =~= orig);
    }
    handled_events
}

/// The full router pass for one combination: runs each registered binding
/// in registration order over the ready channel and returns the dispatch
/// schedule. Every ready request is claimed by the first binding whose key
/// matches it, or stays in the ready channel when no binding's key does.
pub fn route<T: Eq, D>(registry: &Registry<T>, spawn_events: &mut ReadyChannel<T, D>) -> (schedule:
    Vec<Dispatch<T, D>>)
    requires
        T::obeys_eq_spec(),
    ensures
        schedule@ == schedule_from(old(spawn_events)@, registry@, 0),
        final(spawn_events)@ == survivors_from(old(spawn_events)@, registry@, 0),
{
    let ghost orig: Seq<ReadySpawnEvent<T, D>> = spawn_events@;
    let mut schedule: Vec<Dispatch<T, D>> = Vec::new();
    let mut b: usize = 0;
    while b < registry.len()
        invariant
            T::obeys_eq_spec(),
            b <= registry@.len(),
            schedule@ + schedule_from(spawn_events@, registry@, b as int) == schedule_from(
                orig,
                registry@,
                0,
            ),
            survivors_from(spawn_events@, registry@, b as int) == survivors_from(
                orig,
                registry@,
                0,
            ),
        decreases registry@.len() - b,
    {
        let ghost ready_before: Seq<ReadySpawnEvent<T, D>> = spawn_events@;
        let key = registry.key(b);
        let mut handled = route_binding(spawn_events, key);
        let ghost sched_before: Seq<Dispatch<T, D>> = schedule@;
        let ghost claimed_all: Seq<ReadySpawnEvent<T, D>> = handled@;
        while handled.len() > 0
            invariant
                schedule@ + dispatches(handled@, b) == sched_before + dispatches(claimed_all, b),
            decreases handled.len(),
        {
            let ghost before: Seq<ReadySpawnEvent<T, D>> = handled@;
            let event = handled.remove(0);
            proof {
                lemma_dispatches_drop_first(before, b);
                assert(before.drop_first() =~= handled@);
                assert(schedule@.push(Dispatch { binding: b, event }) + dispatches(handled@, b)
                    =~= schedule@ + dispatches(before, b));
            }
            schedule.push(Dispatch { binding: b, event });
        }
        proof {
            assert(dispatches(handled@, b) =~= Seq::<Dispatch<T, D>>::empty());
            assert(schedule@ =~= sched_before + dispatches(claimed_all, b));
            let ghost bk = registry@[b as int];
            assert(schedule_from(ready_before, registry@, b as int) == dispatches(
                claimed(ready_before, bk),
                b,
            ) + schedule_from(leftover(ready_before, bk), registry@, b as int + 1));
            assert(schedule@ + schedule_from(spawn_events@, registry@, b as int + 1)
                =~= sched_before + schedule_from(ready_before, registry@, b as int));
            assert(survivors_from(ready_before, registry@, b as int) == survivors_from(
                leftover(ready_before, bk),
                registry@,
                b as int + 1,
            ));
        }
        b = b + 1;
    }
    proof {
        assert(schedule_from(spawn_events@, registry@, b as int) =~= Seq::<Dispatch<T, D>>::empty());
        assert(schedule@ + Seq::<Dispatch<T, D>>::empty() =~= schedule@);
    }
    schedule
}

} // verus!
