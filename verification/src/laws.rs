//! The guarantees of the dispatch mechanism, stated and proved.
//!
//! [`Combination::tick`](crate::combination::Combination::tick) relates one
//! tick to the spec functions `resolve_kept`, `resolve_promoted`,
//! `schedule_from` and `survivors_from`. The spec functions here iterate
//! that relation over a whole run of ticks — `deltas[k]` being the elapsed
//! time the host reports for the `k`-th tick after submission — and the
//! proof functions state what the mechanism guarantees across such a run:
//! delay arithmetic, time-delay convergence, partition correctness,
//! dispatch ordering, the idempotence of a tick on empty channels, and the
//! indefinite persistence of ready requests that no binding claims.

use vstd::prelude::*;
use vstd::multiset::Multiset;
use crate::events::Delay;
use crate::events::EPSILON_MICROS;
use crate::events::ReadySpawnEvent;
use crate::events::SpawnEvent;
use crate::events::advanced;
use crate::events::is_expired;
use crate::events::lemma_resolve_push;
use crate::events::ready_of;
use crate::events::resolve_kept;
use crate::events::resolve_promoted;
use crate::router::Dispatch;
use crate::router::claimed;
use crate::router::dispatches;
use crate::router::leftover;
use crate::router::key_matches;
use crate::router::lemma_partition_push;
use crate::router::schedule_from;
use crate::router::survivors_from;

verus! {

/// Total elapsed time of a run of ticks, in microseconds.
pub open spec fn cum(deltas: Seq<u64>) -> int
    decreases deltas.len(),
{
    if deltas.len() == 0 {
        0
    } else {
        cum(deltas.drop_last()) + deltas.last()
    }
}

/// The pending channel after a run of ticks with elapsed times `deltas`,
/// starting from `pending`, with no new submissions in between.
pub open spec fn pending_after<T, D>(pending: Seq<SpawnEvent<T, D>>, deltas: Seq<u64>) -> Seq<
    SpawnEvent<T, D>,
>
    decreases deltas.len(),
{
    if deltas.len() == 0 {
        pending
    } else {
        resolve_kept(pending_after(pending, deltas.drop_last()), deltas.last())
    }
}

/// The ready channel after a run of ticks with elapsed times `deltas`,
/// starting from `pending` and `ready`, with the bindings `keys` registered
/// throughout and no new submissions in between.
pub open spec fn ready_after<T: PartialEq, D>(
    pending: Seq<SpawnEvent<T, D>>,
    ready: Seq<ReadySpawnEvent<T, D>>,
    keys: Seq<T>,
    deltas: Seq<u64>,
) -> Seq<ReadySpawnEvent<T, D>>
    decreases deltas.len(),
{
    if deltas.len() == 0 {
        ready
    } else {
        survivors_from(
            ready_after(pending, ready, keys, deltas.drop_last()) + resolve_promoted(
                pending_after(pending, deltas.drop_last()),
            ),
            keys,
            0,
        )
    }
}

/// The dispatch schedule that the last tick of the run produces, or an
/// empty schedule when no tick ran.
pub open spec fn last_schedule<T: PartialEq, D>(
    pending: Seq<SpawnEvent<T, D>>,
    ready: Seq<ReadySpawnEvent<T, D>>,
    keys: Seq<T>,
    deltas: Seq<u64>,
) -> Seq<Dispatch<T, D>> {
    if deltas.len() == 0 {
        Seq::empty()
    } else {
        schedule_from(
            ready_after(pending, ready, keys, deltas.drop_last()) + resolve_promoted(
                pending_after(pending, deltas.drop_last()),
            ),
            keys,
            0,
        )
    }
}

/// The index of the first binding at `b` or later whose key matches the
/// request, or `keys.len()` when none does.
pub open spec fn first_match<T: PartialEq, D>(
    event: ReadySpawnEvent<T, D>,
    keys: Seq<T>,
    b: int,
) -> int
    decreases keys.len() - b,
{
    if b < 0 || b >= keys.len() {
        keys.len() as int
    } else if key_matches(event, keys[b]) {
        b
    } else {
        first_match(event, keys, b + 1)
    }
}

/// `first_match` yields the index of a binding at `b` or later, or exactly
/// `keys.len()` when no binding matches — never more.
pub proof fn lemma_first_match_range<T: PartialEq, D>(
    event: ReadySpawnEvent<T, D>,
    keys: Seq<T>,
    b: int,
)
    ensures
        first_match(event, keys, b) <= keys.len(),
        first_match(event, keys, b) < keys.len() ==> b <= first_match(event, keys, b),
        first_match(event, keys, b) < keys.len() ==> key_matches(
            event,
            keys[first_match(event, keys, b)],
        ),
    decreases keys.len() - b,
{
    if b < 0 || b >= keys.len() {
    } else if !key_matches(event, keys[b]) {
        lemma_first_match_range(event, keys, b + 1);
    }
}

/// Routing an empty ready channel dispatches nothing and leaves nothing,
/// whichever bindings are registered.
pub proof fn lemma_route_empty<T: PartialEq, D>(keys: Seq<T>, b: int)
    ensures
        schedule_from(Seq::<ReadySpawnEvent<T, D>>::empty(), keys, b) == Seq::<
            Dispatch<T, D>,
        >::empty(),
        survivors_from(Seq::<ReadySpawnEvent<T, D>>::empty(), keys, b) == Seq::<
            ReadySpawnEvent<T, D>,
        >::empty(),
    decreases keys.len() - b,
{
    let es = Seq::<ReadySpawnEvent<T, D>>::empty();
    if b < 0 || b >= keys.len() {
    } else {
        assert(claimed(es, keys[b]) == es);
        assert(leftover(es, keys[b]) == es);
        assert(dispatches(claimed(es, keys[b]), b as usize) == Seq::<Dispatch<T, D>>::empty());
        lemma_route_empty::<T, D>(keys, b + 1);
        assert(schedule_from(es, keys, b) =~= Seq::<Dispatch<T, D>>::empty());
    }
}

/// Idempotence of a no-op tick: a tick that starts with no pending and no
/// ready requests promotes nothing, dispatches nothing, and leaves every
/// channel empty, whatever the bindings and the tick's elapsed time. The
/// expressions below are exactly what one `tick` call makes of a
/// combination with empty channels.
pub proof fn lemma_noop_tick<T: PartialEq, D>(keys: Seq<T>, delta_micros: u64)
    ensures
        resolve_kept(Seq::<SpawnEvent<T, D>>::empty(), delta_micros) == Seq::<
            SpawnEvent<T, D>,
        >::empty(),
        resolve_promoted(Seq::<SpawnEvent<T, D>>::empty()) == Seq::<
            ReadySpawnEvent<T, D>,
        >::empty(),
        schedule_from(
            Seq::<ReadySpawnEvent<T, D>>::empty() + resolve_promoted(
                Seq::<SpawnEvent<T, D>>::empty(),
            ),
            keys,
            0,
        ) == Seq::<Dispatch<T, D>>::empty(),
        survivors_from(
            Seq::<ReadySpawnEvent<T, D>>::empty() + resolve_promoted(
                Seq::<SpawnEvent<T, D>>::empty(),
            ),
            keys,
            0,
        ) == Seq::<ReadySpawnEvent<T, D>>::empty(),
{
    assert(Seq::<ReadySpawnEvent<T, D>>::empty() + resolve_promoted(
        Seq::<SpawnEvent<T, D>>::empty(),
    ) =~= Seq::<ReadySpawnEvent<T, D>>::empty());
    lemma_route_empty::<T, D>(keys, 0);
}

/// Once both channels are empty they stay empty: every later tick
/// dispatches nothing. Together with the promotion laws this means a
/// request is handled exactly once: after its dispatch nothing of it
/// remains.
pub proof fn lemma_empty_run<T: PartialEq, D>(keys: Seq<T>, deltas: Seq<u64>)
    ensures
        pending_after(Seq::<SpawnEvent<T, D>>::empty(), deltas) == Seq::<
            SpawnEvent<T, D>,
        >::empty(),
        ready_after(
            Seq::<SpawnEvent<T, D>>::empty(),
            Seq::<ReadySpawnEvent<T, D>>::empty(),
            keys,
            deltas,
        ) == Seq::<ReadySpawnEvent<T, D>>::empty(),
        last_schedule(
            Seq::<SpawnEvent<T, D>>::empty(),
            Seq::<ReadySpawnEvent<T, D>>::empty(),
            keys,
            deltas,
        ) == Seq::<Dispatch<T, D>>::empty(),
    decreases deltas.len(),
{
    if deltas.len() > 0 {
        lemma_empty_run::<T, D>(keys, deltas.drop_last());
        lemma_noop_tick::<T, D>(keys, deltas.last());
    }
}

/// A promoted request that no binding's key matches is not dropped: it
/// stays in the ready channel through every later tick, which dispatches
/// nothing, until a binding that matches it is registered — the
/// infinite-retry reading of an unclaimed ready request, chosen here on
/// purpose. A host that never registers a matching binding keeps the
/// request forever.
pub proof fn lemma_unclaimed_persists<T: PartialEq, D>(
    e: ReadySpawnEvent<T, D>,
    keys: Seq<T>,
    deltas: Seq<u64>,
)
    requires
        first_match(e, keys, 0) == keys.len(),
    ensures
        pending_after(Seq::<SpawnEvent<T, D>>::empty(), deltas) == Seq::<
            SpawnEvent<T, D>,
        >::empty(),
        ready_after(Seq::<SpawnEvent<T, D>>::empty(), seq![e], keys, deltas) == seq![e],
        last_schedule(Seq::<SpawnEvent<T, D>>::empty(), seq![e], keys, deltas) == Seq::<
            Dispatch<T, D>,
        >::empty(),
    decreases deltas.len(),
{
    if deltas.len() > 0 {
        lemma_unclaimed_persists(e, keys, deltas.drop_last());
        lemma_noop_tick::<T, D>(keys, deltas.last());
        assert(ready_after(Seq::<SpawnEvent<T, D>>::empty(), seq![e], keys, deltas.drop_last())
            + resolve_promoted(pending_after(Seq::<SpawnEvent<T, D>>::empty(), deltas.drop_last()))
            =~= seq![e]);
        lemma_route_singleton(e, keys, 0);
    }
}

/// One resolver pass on a single pending request: promoted when its delay
/// has expired, kept with the delay advanced otherwise.
pub proof fn lemma_resolve_singleton<T, D>(e: SpawnEvent<T, D>, delta: u64)
    ensures
        is_expired(e.delay) ==> resolve_kept(seq![e], delta) == Seq::<SpawnEvent<T, D>>::empty(),
        is_expired(e.delay) ==> resolve_promoted(seq![e]) == seq![ready_of(e)],
        !is_expired(e.delay) ==> resolve_kept(seq![e], delta) == seq![
            (SpawnEvent { delay: advanced(e.delay, delta), ..e }),
        ],
        !is_expired(e.delay) ==> resolve_promoted(seq![e]) == Seq::<
            ReadySpawnEvent<T, D>,
        >::empty(),
{
    let es = Seq::<SpawnEvent<T, D>>::empty();
    assert(resolve_kept(es, delta) == es);
    assert(resolve_promoted(es) == Seq::<ReadySpawnEvent<T, D>>::empty());
    lemma_resolve_push(es, e, delta);
    assert(seq![e] =~= es.push(e));
}

/// Routing a single ready request: the first binding whose key matches
/// claims it and it is dispatched exactly once, to that binding; when no
/// binding's key matches it stays in the ready channel, untouched.
pub proof fn lemma_route_singleton<T: PartialEq, D>(e: ReadySpawnEvent<T, D>, keys: Seq<T>, b: int)
    ensures
        first_match(e, keys, b) < keys.len() ==> schedule_from(seq![e], keys, b) == seq![
            (Dispatch { binding: first_match(e, keys, b) as usize, event: e }),
        ],
        first_match(e, keys, b) < keys.len() ==> survivors_from(seq![e], keys, b) == Seq::<
            ReadySpawnEvent<T, D>,
        >::empty(),
        first_match(e, keys, b) == keys.len() ==> schedule_from(seq![e], keys, b) == Seq::<
            Dispatch<T, D>,
        >::empty(),
        first_match(e, keys, b) == keys.len() ==> survivors_from(seq![e], keys, b) == seq![e],
    decreases keys.len() - b,
{
    let single = seq![e];
    let es = Seq::<ReadySpawnEvent<T, D>>::empty();
    if b < 0 || b >= keys.len() {
    } else {
        assert(single.drop_last() =~= es);
        assert(single.last() == e);
        assert(claimed(es, keys[b]) == es);
        assert(leftover(es, keys[b]) == es);
        if key_matches(e, keys[b]) {
            assert(claimed(single, keys[b]) =~= single);
            assert(leftover(single, keys[b]) =~= es);
            assert(dispatches(es, b as usize) == Seq::<Dispatch<T, D>>::empty());
            assert(dispatches(single, b as usize) =~= seq![
                (Dispatch { binding: b as usize, event: e }),
            ]);
            lemma_route_empty::<T, D>(keys, b + 1);
            assert(schedule_from(single, keys, b) =~= seq![
                (Dispatch { binding: b as usize, event: e }),
            ]);
        } else {
            assert(claimed(single, keys[b]) =~= es);
            assert(leftover(single, keys[b]) =~= single);
            assert(dispatches(es, b as usize) == Seq::<Dispatch<T, D>>::empty());
            lemma_route_singleton(e, keys, b + 1);
            assert(schedule_from(single, keys, b) =~= schedule_from(single, keys, b + 1));
        }
    }
}

/// Delay arithmetic: a request with a tick delay of `n`, alone in a fresh
/// combination, survives every run of at most `n` ticks with its counter
/// decremented once per tick and nothing dispatched — so it is never
/// dispatched earlier than the tick `n + 1` after submission. The run of
/// `n + 1` ticks promotes it, and that same tick's router pass dispatches
/// it to the first binding whose key matches — or leaves it in the ready
/// channel when none does.
pub proof fn lemma_tick_delay<T: PartialEq, D>(
    e: SpawnEvent<T, D>,
    n: usize,
    keys: Seq<T>,
    deltas: Seq<u64>,
)
    requires
        e.delay == Delay::Frames(n),
    ensures
        deltas.len() <= n ==> pending_after(seq![e], deltas) == seq![
            (SpawnEvent { delay: Delay::Frames((n - deltas.len()) as usize), ..e }),
        ],
        deltas.len() <= n ==> ready_after(
            seq![e],
            Seq::<ReadySpawnEvent<T, D>>::empty(),
            keys,
            deltas,
        ) == Seq::<ReadySpawnEvent<T, D>>::empty(),
        deltas.len() <= n ==> last_schedule(
            seq![e],
            Seq::<ReadySpawnEvent<T, D>>::empty(),
            keys,
            deltas,
        ) == Seq::<Dispatch<T, D>>::empty(),
        deltas.len() == n + 1 ==> pending_after(seq![e], deltas) == Seq::<
            SpawnEvent<T, D>,
        >::empty(),
        deltas.len() == n + 1 ==> last_schedule(
            seq![e],
            Seq::<ReadySpawnEvent<T, D>>::empty(),
            keys,
            deltas,
        ) == (if first_match(ready_of(e), keys, 0) < keys.len() {
            seq![
                (Dispatch { binding: first_match(ready_of(e), keys, 0) as usize, event: ready_of(e) }),
            ]
        } else {
            Seq::<Dispatch<T, D>>::empty()
        }),
        deltas.len() == n + 1 ==> ready_after(
            seq![e],
            Seq::<ReadySpawnEvent<T, D>>::empty(),
            keys,
            deltas,
        ) == (if first_match(ready_of(e), keys, 0) < keys.len() {
            Seq::<ReadySpawnEvent<T, D>>::empty()
        } else {
            seq![ready_of(e)]
        }),
    decreases deltas.len(),
{
    let r0 = Seq::<ReadySpawnEvent<T, D>>::empty();
    if deltas.len() == 0 {
        assert(seq![(SpawnEvent { delay: Delay::Frames((n - 0) as usize), ..e })] =~= seq![e]);
    } else {
        let prev = deltas.drop_last();
        lemma_tick_delay(e, n, keys, prev);
        if deltas.len() <= n {
            let ep = SpawnEvent { delay: Delay::Frames((n - prev.len()) as usize), ..e };
            assert(!is_expired(ep.delay));
            lemma_resolve_singleton(ep, deltas.last());
            assert(advanced(ep.delay, deltas.last()) == Delay::Frames((n - deltas.len()) as usize));
            assert(seq![(SpawnEvent { delay: advanced(ep.delay, deltas.last()), ..ep })] =~= seq![
                (SpawnEvent { delay: Delay::Frames((n - deltas.len()) as usize), ..e }),
            ]);
            assert(r0 + resolve_promoted(pending_after(seq![e], prev)) =~= r0);
            lemma_route_empty::<T, D>(keys, 0);
        } else if deltas.len() == n + 1 {
            let ep = SpawnEvent { delay: Delay::Frames(0usize), ..e };
            assert(pending_after(seq![e], prev) =~= seq![ep]) by {
                assert((n - prev.len()) as usize == 0usize);
            }
            assert(is_expired(ep.delay));
            lemma_resolve_singleton(ep, deltas.last());
            assert(ready_of(ep) == ready_of(e));
            assert(r0 + resolve_promoted(pending_after(seq![e], prev)) =~= seq![ready_of(e)]);
            lemma_first_match_range(ready_of(e), keys, 0);
            lemma_route_singleton(ready_of(e), keys, 0);
        }
    }
}

/// Elapsed time never sums to less than nothing.
pub proof fn lemma_cum_nonneg(deltas: Seq<u64>)
    ensures
        cum(deltas) >= 0,
    decreases deltas.len(),
{
    if deltas.len() > 0 {
        lemma_cum_nonneg(deltas.drop_last());
    }
}

/// The microseconds a time delay of `m` has left after `c` microseconds of
/// tick time have elapsed: never below zero.
pub open spec fn remaining_micros(m: u64, c: int) -> u64 {
    if c >= m {
        0u64
    } else {
        (m - c) as u64
    }
}

/// Time-delay convergence: a request with a time delay of `m` microseconds,
/// alone in a fresh combination, stays pending — with `m` minus the elapsed
/// time stored, and nothing dispatched — as long as the cumulative elapsed
/// time before each resolver pass stays under `m` less the epsilon
/// tolerance. The first tick before which the cumulative elapsed time
/// reaches `m` minus epsilon promotes the request, and that tick's router
/// pass dispatches it to the first binding whose key matches — or leaves it
/// in the ready channel when none does.
pub proof fn lemma_time_delay<T: PartialEq, D>(
    e: SpawnEvent<T, D>,
    m: u64,
    keys: Seq<T>,
    deltas: Seq<u64>,
)
    requires
        e.delay == Delay::Micros(m),
    ensures
        (forall|k: int|
            0 <= k < deltas.len() ==> cum(#[trigger] deltas.take(k)) + EPSILON_MICROS < m)
            ==> pending_after(seq![e], deltas) == seq![
            (SpawnEvent { delay: Delay::Micros(remaining_micros(m, cum(deltas))), ..e }),
        ],
        (forall|k: int|
            0 <= k < deltas.len() ==> cum(#[trigger] deltas.take(k)) + EPSILON_MICROS < m)
            ==> ready_after(seq![e], Seq::<ReadySpawnEvent<T, D>>::empty(), keys, deltas) == Seq::<
            ReadySpawnEvent<T, D>,
        >::empty(),
        (forall|k: int|
            0 <= k < deltas.len() ==> cum(#[trigger] deltas.take(k)) + EPSILON_MICROS < m)
            ==> last_schedule(seq![e], Seq::<ReadySpawnEvent<T, D>>::empty(), keys, deltas)
            == Seq::<Dispatch<T, D>>::empty(),
        (deltas.len() > 0 && (forall|k: int|
            0 <= k < deltas.len() - 1 ==> cum(#[trigger] deltas.take(k)) + EPSILON_MICROS < m)
            && cum(deltas.take(deltas.len() - 1)) + EPSILON_MICROS >= m) ==> pending_after(
            seq![e],
            deltas,
        ) == Seq::<SpawnEvent<T, D>>::empty(),
        (deltas.len() > 0 && (forall|k: int|
            0 <= k < deltas.len() - 1 ==> cum(#[trigger] deltas.take(k)) + EPSILON_MICROS < m)
            && cum(deltas.take(deltas.len() - 1)) + EPSILON_MICROS >= m) ==> last_schedule(
            seq![e],
            Seq::<ReadySpawnEvent<T, D>>::empty(),
            keys,
            deltas,
        ) == (if first_match(ready_of(e), keys, 0) < keys.len() {
            seq![
                (Dispatch { binding: first_match(ready_of(e), keys, 0) as usize, event: ready_of(e) }),
            ]
        } else {
            Seq::<Dispatch<T, D>>::empty()
        }),
        (deltas.len() > 0 && (forall|k: int|
            0 <= k < deltas.len() - 1 ==> cum(#[trigger] deltas.take(k)) + EPSILON_MICROS < m)
            && cum(deltas.take(deltas.len() - 1)) + EPSILON_MICROS >= m) ==> ready_after(
            seq![e],
            Seq::<ReadySpawnEvent<T, D>>::empty(),
            keys,
            deltas,
        ) == (if first_match(ready_of(e), keys, 0) < keys.len() {
            Seq::<ReadySpawnEvent<T, D>>::empty()
        } else {
            seq![ready_of(e)]
        }),
    decreases deltas.len(),
{
    let r0 = Seq::<ReadySpawnEvent<T, D>>::empty();
    if deltas.len() == 0 {
        assert(cum(deltas) == 0);
        assert(seq![(SpawnEvent { delay: Delay::Micros(remaining_micros(m, 0)), ..e })] =~= seq![
            e,
        ]);
    } else {
        let prev = deltas.drop_last();
        let d = deltas.last();
        lemma_time_delay(e, m, keys, prev);
        lemma_cum_nonneg(prev);
        assert(deltas.take(prev.len() as int) =~= prev);
        if forall|k: int|
            0 <= k < deltas.len() ==> cum(#[trigger] deltas.take(k)) + EPSILON_MICROS < m {
            assert forall|k: int|
                0 <= k < prev.len() implies cum(#[trigger] prev.take(k)) + EPSILON_MICROS
                < m by {
                assert(prev.take(k) =~= deltas.take(k));
                assert(cum(deltas.take(k)) + EPSILON_MICROS < m);
            }
            assert(cum(deltas.take(prev.len() as int)) + EPSILON_MICROS < m);
            assert(cum(prev) + EPSILON_MICROS < m);
            let ep = SpawnEvent { delay: Delay::Micros(remaining_micros(m, cum(prev))), ..e };
            assert(pending_after(seq![e], prev) == seq![ep]);
            assert(remaining_micros(m, cum(prev)) > EPSILON_MICROS);
            assert(!is_expired(ep.delay));
            lemma_resolve_singleton(ep, d);
            assert(cum(deltas) == cum(prev) + d);
            assert(advanced(ep.delay, d) == Delay::Micros(remaining_micros(m, cum(deltas))));
            assert(seq![(SpawnEvent { delay: advanced(ep.delay, d), ..ep })] =~= seq![
                (SpawnEvent { delay: Delay::Micros(remaining_micros(m, cum(deltas))), ..e }),
            ]);
            assert(r0 + resolve_promoted(pending_after(seq![e], prev)) =~= r0);
            lemma_route_empty::<T, D>(keys, 0);
        }
        if deltas.len() > 0 && (forall|k: int|
            0 <= k < deltas.len() - 1 ==> cum(#[trigger] deltas.take(k)) + EPSILON_MICROS < m)
            && cum(deltas.take(deltas.len() - 1)) + EPSILON_MICROS >= m {
            assert forall|k: int|
                0 <= k < prev.len() implies cum(#[trigger] prev.take(k)) + EPSILON_MICROS
                < m by {
                assert(prev.take(k) =~= deltas.take(k));
                assert(cum(deltas.take(k)) + EPSILON_MICROS < m);
            }
            assert(cum(prev) + EPSILON_MICROS >= m);
            let ep = SpawnEvent { delay: Delay::Micros(remaining_micros(m, cum(prev))), ..e };
            assert(pending_after(seq![e], prev) == seq![ep]);
            assert(ready_after(seq![e], r0, keys, prev) == r0);
            assert(remaining_micros(m, cum(prev)) <= EPSILON_MICROS);
            assert(is_expired(ep.delay));
            lemma_resolve_singleton(ep, d);
            assert(ready_of(ep) == ready_of(e));
            assert(r0 + resolve_promoted(pending_after(seq![e], prev)) =~= seq![ready_of(e)]);
            lemma_first_match_range(ready_of(e), keys, 0);
            lemma_route_singleton(ready_of(e), keys, 0);
        }
    }
}

/// Zero-delay default: a request submitted with no explicit delay — the
/// default `Frames(0)` that `SpawnEvent::new`, `SpawnEvent::with_data` and
/// `Delay::default` give — is dispatched by the first tick after its
/// submission, never within the tick of submission: before a tick runs, no
/// schedule exists at all.
pub proof fn lemma_zero_delay_default<T: PartialEq, D>(
    e: SpawnEvent<T, D>,
    keys: Seq<T>,
    deltas: Seq<u64>,
)
    requires
        e.delay == Delay::Frames(0usize),
        deltas.len() == 1,
    ensures
        pending_after(seq![e], deltas) == Seq::<SpawnEvent<T, D>>::empty(),
        last_schedule(seq![e], Seq::<ReadySpawnEvent<T, D>>::empty(), keys, deltas) == (
        if first_match(ready_of(e), keys, 0) < keys.len() {
            seq![
                (Dispatch { binding: first_match(ready_of(e), keys, 0) as usize, event: ready_of(e) }),
            ]
        } else {
            Seq::<Dispatch<T, D>>::empty()
        }),
{
    lemma_tick_delay(e, 0, keys, deltas);
}

/// The schedule entries of one binding list its claimed requests one to
/// one, in order.
pub proof fn lemma_dispatches_index<T, D>(events: Seq<ReadySpawnEvent<T, D>>, binding: usize)
    ensures
        dispatches(events, binding).len() == events.len(),
        forall|i: int|
            0 <= i < events.len() ==> #[trigger] dispatches(events, binding)[i] == (Dispatch {
                binding,
                event: events[i],
            }),
    decreases events.len(),
{
    if events.len() > 0 {
        lemma_dispatches_index(events.drop_last(), binding);
    }
}

/// Every claimed request matches the binding's key and comes from the
/// drained ready channel.
pub proof fn lemma_claimed_props<T: PartialEq, D>(events: Seq<ReadySpawnEvent<T, D>>, key: T)
    ensures
        forall|i: int|
            0 <= i < claimed(events, key).len() ==> key_matches(
                #[trigger] claimed(events, key)[i],
                key,
            ),
        forall|i: int|
            0 <= i < claimed(events, key).len() ==> events.contains(
                #[trigger] claimed(events, key)[i],
            ),
    decreases events.len(),
{
    if events.len() > 0 {
        let rest = events.drop_last();
        lemma_claimed_props(rest, key);
        assert forall|i: int| 0 <= i < claimed(events, key).len() implies events.contains(
            #[trigger] claimed(events, key)[i],
        ) by {
            if i < claimed(rest, key).len() {
                assert(rest.contains(claimed(rest, key)[i]));
                let j = choose|j: int| 0 <= j < rest.len() && rest[j] == claimed(rest, key)[i];
                assert(events[j] == claimed(events, key)[i]);
            } else {
                assert(claimed(events, key)[i] == events.last());
                assert(events[events.len() - 1] == events.last());
            }
        }
    }
}

/// Every left-over request fails the binding's key and comes from the
/// drained ready channel, unaltered.
pub proof fn lemma_leftover_props<T: PartialEq, D>(events: Seq<ReadySpawnEvent<T, D>>, key: T)
    ensures
        forall|i: int|
            0 <= i < leftover(events, key).len() ==> !key_matches(
                #[trigger] leftover(events, key)[i],
                key,
            ),
        forall|i: int|
            0 <= i < leftover(events, key).len() ==> events.contains(
                #[trigger] leftover(events, key)[i],
            ),
    decreases events.len(),
{
    if events.len() > 0 {
        let rest = events.drop_last();
        lemma_leftover_props(rest, key);
        assert forall|i: int| 0 <= i < leftover(events, key).len() implies events.contains(
            #[trigger] leftover(events, key)[i],
        ) by {
            if i < leftover(rest, key).len() {
                assert(rest.contains(leftover(rest, key)[i]));
                let j = choose|j: int| 0 <= j < rest.len() && rest[j] == leftover(rest, key)[i];
                assert(events[j] == leftover(events, key)[i]);
            } else {
                assert(leftover(events, key)[i] == events.last());
                assert(events[events.len() - 1] == events.last());
            }
        }
    }
}

/// `first_match` pinned down: a binding index that matches, before which
/// nothing matches, is the first match; and when nothing matches at all the
/// first match is `keys.len()`.
pub proof fn lemma_first_match_at<T: PartialEq, D>(
    event: ReadySpawnEvent<T, D>,
    keys: Seq<T>,
    lo: int,
    b: int,
)
    requires
        0 <= lo <= b <= keys.len(),
        b < keys.len() ==> key_matches(event, keys[b]),
        forall|b2: int| lo <= b2 < b ==> !key_matches(event, #[trigger] keys[b2]),
    ensures
        first_match(event, keys, lo) == b,
    decreases b - lo,
{
    if lo < b {
        lemma_first_match_at(event, keys, lo + 1, b);
    }
}

/// Every schedule entry of one router pass claims a request from the ready
/// channel for the first binding whose key matches it.
pub proof fn lemma_schedule_entries<T: PartialEq, D>(
    events: Seq<ReadySpawnEvent<T, D>>,
    keys: Seq<T>,
    b: int,
)
    requires
        keys.len() <= usize::MAX,
    ensures
        forall|i: int|
            0 <= i < schedule_from(events, keys, b).len() ==> b <= (#[trigger] schedule_from(
                events,
                keys,
                b,
            )[i]).binding as int,
        forall|i: int|
            0 <= i < schedule_from(events, keys, b).len() ==> ((#[trigger] schedule_from(
                events,
                keys,
                b,
            )[i]).binding as int) < keys.len(),
        forall|i: int|
            0 <= i < schedule_from(events, keys, b).len() ==> key_matches(
                (#[trigger] schedule_from(events, keys, b)[i]).event,
                keys[schedule_from(events, keys, b)[i].binding as int],
            ),
        forall|i: int, b2: int|
            0 <= i < schedule_from(events, keys, b).len() && b <= b2 < (#[trigger] schedule_from(
                events,
                keys,
                b,
            )[i]).binding as int ==> !key_matches(
                schedule_from(events, keys, b)[i].event,
                #[trigger] keys[b2],
            ),
        forall|i: int|
            0 <= i < schedule_from(events, keys, b).len() ==> events.contains(
                (#[trigger] schedule_from(events, keys, b)[i]).event,
            ),
    decreases keys.len() - b,
{
    if b < 0 || b >= keys.len() {
    } else {
        let kb = keys[b];
        let cl = claimed(events, kb);
        let lf = leftover(events, kb);
        let rest = schedule_from(lf, keys, b + 1);
        lemma_claimed_props(events, kb);
        lemma_leftover_props(events, kb);
        lemma_dispatches_index(cl, b as usize);
        lemma_schedule_entries(lf, keys, b + 1);
        assert forall|i: int| 0 <= i < schedule_from(events, keys, b).len() implies {
            let dd = #[trigger] schedule_from(events, keys, b)[i];
            &&& b <= dd.binding as int
            &&& (dd.binding as int) < keys.len()
            &&& key_matches(dd.event, keys[dd.binding as int])
            &&& events.contains(dd.event)
            &&& forall|b2: int|
                b <= b2 < dd.binding as int ==> !key_matches(dd.event, #[trigger] keys[b2])
        } by {
            let dd = schedule_from(events, keys, b)[i];
            if i < cl.len() {
                assert(dd == (Dispatch { binding: b as usize, event: cl[i] }));
                assert(dd.binding as int == b);
            } else {
                let i2 = i - cl.len();
                assert(dd == rest[i2]);
                assert((rest[i2]).binding as int >= b + 1);
                assert(lf.contains(rest[i2].event));
                let j = choose|j: int| 0 <= j < lf.len() && lf[j] == dd.event;
                assert(!key_matches(dd.event, kb));
                assert(events.contains(lf[j]));
                assert forall|b2: int| b <= b2 < dd.binding as int implies !key_matches(
                    dd.event,
                    #[trigger] keys[b2],
                ) by {
                    if b2 > b {
                        assert(!key_matches(rest[i2].event, keys[b2]));
                    }
                }
            }
        }
    }
}

/// Every surviving ready request comes from the drained ready channel,
/// unaltered, and matches none of the bindings that ran.
pub proof fn lemma_survivors_props<T: PartialEq, D>(
    events: Seq<ReadySpawnEvent<T, D>>,
    keys: Seq<T>,
    b: int,
)
    requires
        0 <= b,
    ensures
        forall|i: int|
            0 <= i < survivors_from(events, keys, b).len() ==> events.contains(
                #[trigger] survivors_from(events, keys, b)[i],
            ),
        forall|i: int, b2: int|
            0 <= i < survivors_from(events, keys, b).len() && b <= b2 < keys.len()
                ==> !key_matches(
                #[trigger] survivors_from(events, keys, b)[i],
                #[trigger] keys[b2],
            ),
    decreases keys.len() - b,
{
    if b < 0 || b >= keys.len() {
        assert forall|i: int| 0 <= i < survivors_from(events, keys, b).len() implies
            events.contains(#[trigger] survivors_from(events, keys, b)[i]) by {
            assert(events[i] == survivors_from(events, keys, b)[i]);
        }
    } else {
        let kb = keys[b];
        let lf = leftover(events, kb);
        lemma_leftover_props(events, kb);
        lemma_survivors_props(lf, keys, b + 1);
        assert(survivors_from(events, keys, b) == survivors_from(lf, keys, b + 1));
        assert forall|i: int| 0 <= i < survivors_from(events, keys, b).len() implies
            events.contains(#[trigger] survivors_from(events, keys, b)[i]) by {
            assert(lf.contains(survivors_from(lf, keys, b + 1)[i]));
            let j = choose|j: int| 0 <= j < lf.len() && lf[j] == survivors_from(events, keys, b)[i];
            assert(events.contains(lf[j]));
        }
        assert forall|i: int, b2: int|
            0 <= i < survivors_from(events, keys, b).len() && b <= b2 < keys.len() implies
            !key_matches(
                #[trigger] survivors_from(events, keys, b)[i],
                #[trigger] keys[b2],
            ) by {
            assert(lf.contains(survivors_from(lf, keys, b + 1)[i]));
            let j = choose|j: int| 0 <= j < lf.len() && lf[j] == survivors_from(events, keys, b)[i];
            if b2 == b {
                assert(!key_matches(lf[j], kb));
            } else {
                assert(!key_matches(survivors_from(lf, keys, b + 1)[i], keys[b2]));
            }
        }
    }
}

/// Concatenating sequences adds their multisets.
pub proof fn lemma_to_multiset_concat<A>(a: Seq<A>, b: Seq<A>)
    ensures
        (a + b).to_multiset() == a.to_multiset().add(b.to_multiset()),
    decreases b.len(),
{
    broadcast use vstd::seq_lib::group_to_multiset_ensures;
    broadcast use vstd::multiset::group_multiset_axioms;

    if b.len() == 0 {
        assert(a + b =~= a);
        assert(b.to_multiset() =~= Multiset::<A>::empty());
        assert(a.to_multiset().add(b.to_multiset()) =~= a.to_multiset());
    } else {
        lemma_to_multiset_concat(a, b.drop_last());
        assert(a + b =~= (a + b.drop_last()).push(b.last()));
        assert(b =~= b.drop_last().push(b.last()));
        assert((a + b).to_multiset() =~= a.to_multiset().add(b.to_multiset()));
    }
}

/// One binding's partition neither drops, duplicates nor alters a request:
/// claimed and left-over together are the drained ready channel.
pub proof fn lemma_partition_multiset<T: PartialEq, D>(events: Seq<ReadySpawnEvent<T, D>>, key: T)
    ensures
        claimed(events, key).to_multiset().add(leftover(events, key).to_multiset())
            == events.to_multiset(),
    decreases events.len(),
{
    broadcast use vstd::seq_lib::group_to_multiset_ensures;
    broadcast use vstd::multiset::group_multiset_axioms;

    if events.len() == 0 {
        assert(claimed(events, key).to_multiset().add(leftover(events, key).to_multiset())
            =~= events.to_multiset());
    } else {
        let rest = events.drop_last();
        lemma_partition_multiset(rest, key);
        assert(events =~= rest.push(events.last()));
        assert(claimed(events, key).to_multiset().add(leftover(events, key).to_multiset())
            =~= events.to_multiset());
    }
}

/// The requests a schedule hands out, in invocation order.
pub open spec fn dispatched_events<T, D>(schedule: Seq<Dispatch<T, D>>) -> Seq<
    ReadySpawnEvent<T, D>,
>
    decreases schedule.len(),
{
    if schedule.len() == 0 {
        Seq::empty()
    } else {
        dispatched_events(schedule.drop_last()).push(schedule.last().event)
    }
}

/// `dispatched_events` reads the schedule entry by entry.
pub proof fn lemma_dispatched_events_index<T, D>(schedule: Seq<Dispatch<T, D>>)
    ensures
        dispatched_events(schedule).len() == schedule.len(),
        forall|i: int|
            0 <= i < schedule.len() ==> #[trigger] dispatched_events(schedule)[i]
                == schedule[i].event,
    decreases schedule.len(),
{
    if schedule.len() > 0 {
        lemma_dispatched_events_index(schedule.drop_last());
    }
}

/// One router pass neither drops, duplicates nor alters a request: the
/// dispatched requests and the surviving ones together are exactly the
/// drained ready channel.
pub proof fn lemma_schedule_conservation<T: PartialEq, D>(
    events: Seq<ReadySpawnEvent<T, D>>,
    keys: Seq<T>,
    b: int,
)
    ensures
        dispatched_events(schedule_from(events, keys, b)).to_multiset().add(
            survivors_from(events, keys, b).to_multiset(),
        ) == events.to_multiset(),
    decreases keys.len() - b,
{
    broadcast use vstd::seq_lib::group_to_multiset_ensures;
    broadcast use vstd::multiset::group_multiset_axioms;

    if b < 0 || b >= keys.len() {
        assert(dispatched_events(schedule_from(events, keys, b)) =~= Seq::<
            ReadySpawnEvent<T, D>,
        >::empty());
        assert(dispatched_events(schedule_from(events, keys, b)).to_multiset() =~= Multiset::<
            ReadySpawnEvent<T, D>,
        >::empty());
        assert(dispatched_events(schedule_from(events, keys, b)).to_multiset().add(
            survivors_from(events, keys, b).to_multiset(),
        ) =~= events.to_multiset());
    } else {
        let kb = keys[b];
        let cl = claimed(events, kb);
        let lf = leftover(events, kb);
        let rest = schedule_from(lf, keys, b + 1);
        lemma_schedule_conservation(lf, keys, b + 1);
        lemma_partition_multiset(events, kb);
        lemma_dispatches_index(cl, b as usize);
        lemma_dispatched_events_index(dispatches(cl, b as usize));
        lemma_dispatched_events_index(rest);
        lemma_dispatched_events_index(schedule_from(events, keys, b));
        assert(dispatched_events(schedule_from(events, keys, b)) =~= cl + dispatched_events(rest));
        lemma_to_multiset_concat(cl, dispatched_events(rest));
        assert(dispatched_events(schedule_from(events, keys, b)).to_multiset().add(
            survivors_from(events, keys, b).to_multiset(),
        ) =~= events.to_multiset());
    }
}

/// The requests of `events` that no binding at index `b` or later matches,
/// in arrival order.
pub open spec fn unmatched_from<T: PartialEq, D>(
    events: Seq<ReadySpawnEvent<T, D>>,
    keys: Seq<T>,
    b: int,
) -> Seq<ReadySpawnEvent<T, D>>
    decreases events.len(),
{
    if events.len() == 0 {
        Seq::empty()
    } else {
        let rest = unmatched_from(events.drop_last(), keys, b);
        if first_match(events.last(), keys, b) == keys.len() {
            rest.push(events.last())
        } else {
            rest
        }
    }
}

/// One binding's partition drops exactly its matches from the unmatched
/// view: what later bindings leave of its leftover is what all bindings
/// from this one on leave of the full input.
pub proof fn lemma_unmatched_leftover<T: PartialEq, D>(
    events: Seq<ReadySpawnEvent<T, D>>,
    keys: Seq<T>,
    b: int,
)
    requires
        0 <= b < keys.len(),
    ensures
        unmatched_from(leftover(events, keys[b]), keys, b + 1) == unmatched_from(events, keys, b),
    decreases events.len(),
{
    if events.len() == 0 {
    } else {
        let rest = events.drop_last();
        let e = events.last();
        lemma_unmatched_leftover(rest, keys, b);
        lemma_partition_push(rest, e, keys[b]);
        assert(events =~= rest.push(e));
        if key_matches(e, keys[b]) {
            assert(leftover(events, keys[b]) == leftover(rest, keys[b]));
            assert(first_match(e, keys, b) == b);
        } else {
            assert(leftover(events, keys[b]) == leftover(rest, keys[b]).push(e));
            assert(leftover(rest, keys[b]).push(e).drop_last() =~= leftover(rest, keys[b]));
            assert(first_match(e, keys, b) == first_match(e, keys, b + 1));
        }
    }
}

/// Past the last binding nothing matches, so nothing is dropped.
pub proof fn lemma_unmatched_beyond<T: PartialEq, D>(
    events: Seq<ReadySpawnEvent<T, D>>,
    keys: Seq<T>,
    b: int,
)
    requires
        b >= keys.len(),
    ensures
        unmatched_from(events, keys, b) == events,
    decreases events.len(),
{
    if events.len() > 0 {
        lemma_unmatched_beyond(events.drop_last(), keys, b);
        assert(first_match(events.last(), keys, b) == keys.len());
        assert(unmatched_from(events, keys, b) =~= events);
    } else {
        assert(unmatched_from(events, keys, b) =~= events);
    }
}

/// The survivors of one router pass are exactly the requests that none of
/// the bindings matches, unaltered and in arrival order.
pub proof fn lemma_survivors_exact<T: PartialEq, D>(
    events: Seq<ReadySpawnEvent<T, D>>,
    keys: Seq<T>,
    b: int,
)
    requires
        0 <= b,
    ensures
        survivors_from(events, keys, b) == unmatched_from(events, keys, b),
    decreases keys.len() - b,
{
    if b >= keys.len() {
        lemma_unmatched_beyond(events, keys, b);
    } else {
        lemma_survivors_exact(leftover(events, keys[b]), keys, b + 1);
        lemma_unmatched_leftover(events, keys, b);
    }
}

/// Partition correctness, for one router pass over any ready requests and
/// any registered bindings: every request is dispatched to the first
/// binding whose key matches it, requests that no binding's key matches
/// survive in the ready channel unaltered, and taken together the
/// dispatched and the surviving requests are exactly the drained ones —
/// each delivered to exactly one handler or kept, never dropped, duplicated
/// or changed.
pub proof fn lemma_partition_correctness<T: PartialEq, D>(
    events: Seq<ReadySpawnEvent<T, D>>,
    keys: Seq<T>,
)
    requires
        keys.len() <= usize::MAX,
    ensures
        forall|i: int|
            0 <= i < schedule_from(events, keys, 0).len() ==> (#[trigger] schedule_from(
                events,
                keys,
                0,
            )[i]).binding as int == first_match(schedule_from(events, keys, 0)[i].event, keys, 0),
        forall|i: int|
            0 <= i < schedule_from(events, keys, 0).len() ==> key_matches(
                (#[trigger] schedule_from(events, keys, 0)[i]).event,
                keys[schedule_from(events, keys, 0)[i].binding as int],
            ),
        forall|i: int|
            0 <= i < schedule_from(events, keys, 0).len() ==> events.contains(
                (#[trigger] schedule_from(events, keys, 0)[i]).event,
            ),
        forall|i: int|
            0 <= i < survivors_from(events, keys, 0).len() ==> first_match(
                #[trigger] survivors_from(events, keys, 0)[i],
                keys,
                0,
            ) == keys.len(),
        forall|i: int|
            0 <= i < survivors_from(events, keys, 0).len() ==> events.contains(
                #[trigger] survivors_from(events, keys, 0)[i],
            ),
        survivors_from(events, keys, 0) == unmatched_from(events, keys, 0),
        dispatched_events(schedule_from(events, keys, 0)).to_multiset().add(
            survivors_from(events, keys, 0).to_multiset(),
        ) == events.to_multiset(),
{
    lemma_schedule_entries(events, keys, 0);
    lemma_survivors_props(events, keys, 0);
    lemma_survivors_exact(events, keys, 0);
    lemma_schedule_conservation(events, keys, 0);
    assert forall|i: int| 0 <= i < schedule_from(events, keys, 0).len() implies (
    #[trigger] schedule_from(events, keys, 0)[i]).binding as int == first_match(
        schedule_from(events, keys, 0)[i].event,
        keys,
        0,
    ) by {
        let dd = schedule_from(events, keys, 0)[i];
        lemma_first_match_at(dd.event, keys, 0, dd.binding as int);
    }
    assert forall|i: int| 0 <= i < survivors_from(events, keys, 0).len() implies first_match(
        #[trigger] survivors_from(events, keys, 0)[i],
        keys,
        0,
    ) == keys.len() by {
        lemma_first_match_at(survivors_from(events, keys, 0)[i], keys, 0, keys.len() as int);
    }
}

/// A binding's partition splits a concatenation piecewise.
pub proof fn lemma_partition_concat<T: PartialEq, D>(
    a: Seq<ReadySpawnEvent<T, D>>,
    b: Seq<ReadySpawnEvent<T, D>>,
    key: T,
)
    ensures
        claimed(a + b, key) == claimed(a, key) + claimed(b, key),
        leftover(a + b, key) == leftover(a, key) + leftover(b, key),
    decreases b.len(),
{
    if b.len() == 0 {
        assert(a + b =~= a);
        assert(claimed(b, key) == Seq::<ReadySpawnEvent<T, D>>::empty());
        assert(leftover(b, key) == Seq::<ReadySpawnEvent<T, D>>::empty());
        assert(claimed(a, key) + claimed(b, key) =~= claimed(a, key));
        assert(leftover(a, key) + leftover(b, key) =~= leftover(a, key));
    } else {
        lemma_partition_concat(a, b.drop_last(), key);
        assert((a + b).drop_last() =~= a + b.drop_last());
        assert((a + b).last() == b.last());
        assert(claimed(a + b, key) =~= claimed(a, key) + claimed(b, key));
        assert(leftover(a + b, key) =~= leftover(a, key) + leftover(b, key));
    }
}

/// Where a matching request stands among the claimed ones: right after the
/// matching requests that arrived before it.
pub proof fn lemma_claimed_position<T: PartialEq, D>(
    s: Seq<ReadySpawnEvent<T, D>>,
    key: T,
    i: int,
)
    requires
        0 <= i < s.len(),
        key_matches(s[i], key),
    ensures
        claimed(s.take(i), key).len() < claimed(s, key).len(),
        claimed(s, key)[claimed(s.take(i), key).len() as int] == s[i],
        claimed(s.take(i + 1), key).len() == claimed(s.take(i), key).len() + 1,
{
    let es = Seq::<ReadySpawnEvent<T, D>>::empty();
    assert(s =~= s.take(i) + s.skip(i));
    lemma_partition_concat(s.take(i), s.skip(i), key);
    assert(s.skip(i) =~= seq![s[i]] + s.skip(i + 1));
    lemma_partition_concat(seq![s[i]], s.skip(i + 1), key);
    assert(seq![s[i]].drop_last() =~= es);
    assert(claimed(es, key) == es);
    assert(claimed(seq![s[i]], key) =~= seq![s[i]]);
    assert(claimed(s.skip(i), key)[0] == s[i]);
    assert(claimed(s, key)[claimed(s.take(i), key).len() as int] == s[i]);
    assert(s.take(i + 1) =~= s.take(i) + seq![s[i]]);
    lemma_partition_concat(s.take(i), seq![s[i]], key);
}

/// Two matching requests keep their arrival order among the claimed ones.
pub proof fn lemma_claimed_pair<T: PartialEq, D>(
    s: Seq<ReadySpawnEvent<T, D>>,
    key: T,
    i: int,
    j: int,
)
    requires
        0 <= i < j < s.len(),
        key_matches(s[i], key),
        key_matches(s[j], key),
    ensures
        claimed(s.take(i), key).len() < claimed(s.take(j), key).len() < claimed(s, key).len(),
        claimed(s, key)[claimed(s.take(i), key).len() as int] == s[i],
        claimed(s, key)[claimed(s.take(j), key).len() as int] == s[j],
{
    lemma_claimed_position(s, key, i);
    lemma_claimed_position(s, key, j);
    assert(s.take(j) =~= s.take(i + 1) + s.subrange(i + 1, j));
    lemma_partition_concat(s.take(i + 1), s.subrange(i + 1, j), key);
}

/// Where a non-matching request stands among the left-over ones: right
/// after the non-matching requests that arrived before it.
pub proof fn lemma_leftover_position<T: PartialEq, D>(
    s: Seq<ReadySpawnEvent<T, D>>,
    key: T,
    i: int,
)
    requires
        0 <= i < s.len(),
        !key_matches(s[i], key),
    ensures
        leftover(s.take(i), key).len() < leftover(s, key).len(),
        leftover(s, key)[leftover(s.take(i), key).len() as int] == s[i],
        leftover(s.take(i + 1), key).len() == leftover(s.take(i), key).len() + 1,
{
    let es = Seq::<ReadySpawnEvent<T, D>>::empty();
    assert(s =~= s.take(i) + s.skip(i));
    lemma_partition_concat(s.take(i), s.skip(i), key);
    assert(s.skip(i) =~= seq![s[i]] + s.skip(i + 1));
    lemma_partition_concat(seq![s[i]], s.skip(i + 1), key);
    assert(seq![s[i]].drop_last() =~= es);
    assert(leftover(es, key) == es);
    assert(leftover(seq![s[i]], key) =~= seq![s[i]]);
    assert(leftover(s.skip(i), key)[0] == s[i]);
    assert(leftover(s, key)[leftover(s.take(i), key).len() as int] == s[i]);
    assert(s.take(i + 1) =~= s.take(i) + seq![s[i]]);
    lemma_partition_concat(s.take(i), seq![s[i]], key);
}

/// Two non-matching requests keep their arrival order among the left-over
/// ones.
pub proof fn lemma_leftover_pair<T: PartialEq, D>(
    s: Seq<ReadySpawnEvent<T, D>>,
    key: T,
    i: int,
    j: int,
)
    requires
        0 <= i < j < s.len(),
        !key_matches(s[i], key),
        !key_matches(s[j], key),
    ensures
        leftover(s.take(i), key).len() < leftover(s.take(j), key).len() < leftover(s, key).len(),
        leftover(s, key)[leftover(s.take(i), key).len() as int] == s[i],
        leftover(s, key)[leftover(s.take(j), key).len() as int] == s[j],
{
    lemma_leftover_position(s, key, i);
    lemma_leftover_position(s, key, j);
    assert(s.take(j) =~= s.take(i + 1) + s.subrange(i + 1, j));
    lemma_partition_concat(s.take(i + 1), s.subrange(i + 1, j), key);
}

/// The ready requests still unclaimed when the binding at index `b` runs:
/// what the bindings before it left over.
pub open spec fn remaining_at<T: PartialEq, D>(
    events: Seq<ReadySpawnEvent<T, D>>,
    keys: Seq<T>,
    b: int,
) -> Seq<ReadySpawnEvent<T, D>>
    decreases b,
{
    if b <= 0 {
        events
    } else {
        leftover(remaining_at(events, keys, b - 1), keys[b - 1])
    }
}

/// The schedule entries of the bindings before index `b`, in invocation
/// order.
pub open spec fn schedule_upto<T: PartialEq, D>(
    events: Seq<ReadySpawnEvent<T, D>>,
    keys: Seq<T>,
    b: int,
) -> Seq<Dispatch<T, D>>
    decreases b,
{
    if b <= 0 {
        Seq::empty()
    } else {
        schedule_upto(events, keys, b - 1) + dispatches(
            claimed(remaining_at(events, keys, b - 1), keys[b - 1]),
            (b - 1) as usize,
        )
    }
}

/// The router pass splits at any binding: the full schedule is what the
/// earlier bindings dispatched followed by what the rest make of the
/// requests the earlier ones left.
pub proof fn lemma_schedule_split<T: PartialEq, D>(
    events: Seq<ReadySpawnEvent<T, D>>,
    keys: Seq<T>,
    b: int,
)
    requires
        0 <= b <= keys.len(),
    ensures
        schedule_from(events, keys, 0) == schedule_upto(events, keys, b) + schedule_from(
            remaining_at(events, keys, b),
            keys,
            b,
        ),
    decreases b,
{
    if b == 0 {
        assert(schedule_upto(events, keys, 0) + schedule_from(remaining_at(events, keys, 0), keys, 0)
            =~= schedule_from(events, keys, 0));
    } else {
        lemma_schedule_split(events, keys, b - 1);
        let r = remaining_at(events, keys, b - 1);
        assert(schedule_from(r, keys, b - 1) == dispatches(claimed(r, keys[b - 1]), (b - 1) as usize)
            + schedule_from(leftover(r, keys[b - 1]), keys, b));
        assert(schedule_upto(events, keys, b) + schedule_from(remaining_at(events, keys, b), keys, b)
            =~= schedule_upto(events, keys, b - 1) + schedule_from(r, keys, b - 1));
    }
}

/// Two requests that the same earlier bindings ignore keep their arrival
/// order among the requests that binding `b` sees.
pub proof fn lemma_remaining_pair<T: PartialEq, D>(
    events: Seq<ReadySpawnEvent<T, D>>,
    keys: Seq<T>,
    b: int,
    i: int,
    j: int,
)
    requires
        0 <= b <= keys.len(),
        0 <= i < j < events.len(),
        forall|b2: int| 0 <= b2 < b ==> !key_matches(events[i], #[trigger] keys[b2]),
        forall|b2: int| 0 <= b2 < b ==> !key_matches(events[j], #[trigger] keys[b2]),
    ensures
        exists|i2: int, j2: int|
            0 <= i2 < j2 < remaining_at(events, keys, b).len() && #[trigger] remaining_at(
                events,
                keys,
                b,
            )[i2] == events[i] && #[trigger] remaining_at(events, keys, b)[j2] == events[j],
    decreases b,
{
    if b == 0 {
        assert(remaining_at(events, keys, 0)[i] == events[i]);
        assert(remaining_at(events, keys, 0)[j] == events[j]);
    } else {
        lemma_remaining_pair(events, keys, b - 1, i, j);
        let r = remaining_at(events, keys, b - 1);
        let (i2, j2) = choose|i2: int, j2: int|
            0 <= i2 < j2 < r.len() && #[trigger] r[i2] == events[i] && #[trigger] r[j2]
                == events[j];
        assert(!key_matches(r[i2], keys[b - 1]));
        assert(!key_matches(r[j2], keys[b - 1]));
        lemma_leftover_pair(r, keys[b - 1], i2, j2);
        let lf = leftover(r, keys[b - 1]);
        let pi = leftover(r.take(i2), keys[b - 1]).len() as int;
        let pj = leftover(r.take(j2), keys[b - 1]).len() as int;
        assert(remaining_at(events, keys, b) == lf);
        assert(remaining_at(events, keys, b)[pi] == events[i]);
        assert(remaining_at(events, keys, b)[pj] == events[j]);
    }
}

/// Ordering: two ready requests with the same key, arriving in order A then
/// B and claimed by the same binding — the first whose key matches them —
/// are dispatched in that order: A's handler invocation comes before B's in
/// the schedule of the pass.
pub proof fn lemma_ordering<T: PartialEq, D>(
    events: Seq<ReadySpawnEvent<T, D>>,
    keys: Seq<T>,
    i: int,
    j: int,
    b: int,
)
    requires
        keys.len() <= usize::MAX,
        0 <= i < j < events.len(),
        0 <= b < keys.len(),
        key_matches(events[i], keys[b]),
        key_matches(events[j], keys[b]),
        forall|b2: int| 0 <= b2 < b ==> !key_matches(events[i], #[trigger] keys[b2]),
        forall|b2: int| 0 <= b2 < b ==> !key_matches(events[j], #[trigger] keys[b2]),
    ensures
        exists|si: int, sj: int|
            0 <= si < sj < schedule_from(events, keys, 0).len() && #[trigger] schedule_from(
                events,
                keys,
                0,
            )[si] == (Dispatch { binding: b as usize, event: events[i] })
                && #[trigger] schedule_from(events, keys, 0)[sj] == (Dispatch {
                binding: b as usize,
                event: events[j],
            }),
{
    lemma_remaining_pair(events, keys, b, i, j);
    let r = remaining_at(events, keys, b);
    let (i2, j2) = choose|i2: int, j2: int|
        0 <= i2 < j2 < r.len() && #[trigger] r[i2] == events[i] && #[trigger] r[j2] == events[j];
    lemma_claimed_pair(r, keys[b], i2, j2);
    let cl = claimed(r, keys[b]);
    let pi = claimed(r.take(i2), keys[b]).len() as int;
    let pj = claimed(r.take(j2), keys[b]).len() as int;
    lemma_schedule_split(events, keys, b);
    lemma_dispatches_index(cl, b as usize);
    assert(schedule_from(r, keys, b) == dispatches(cl, b as usize) + schedule_from(
        leftover(r, keys[b]),
        keys,
        b + 1,
    ));
    let off = schedule_upto(events, keys, b).len() as int;
    assert(schedule_from(events, keys, 0)[off + pi] == dispatches(cl, b as usize)[pi]);
    assert(schedule_from(events, keys, 0)[off + pj] == dispatches(cl, b as usize)[pj]);
    assert(schedule_from(events, keys, 0)[off + pi] == (Dispatch {
        binding: b as usize,
        event: events[i],
    }));
    assert(schedule_from(events, keys, 0)[off + pj] == (Dispatch {
        binding: b as usize,
        event: events[j],
    }));
    assert(off + pj < schedule_from(events, keys, 0).len());
}

/// One resolver pass splits a concatenation piecewise.
pub proof fn lemma_resolve_concat<T, D>(
    a: Seq<SpawnEvent<T, D>>,
    b: Seq<SpawnEvent<T, D>>,
    delta: u64,
)
    ensures
        resolve_kept(a + b, delta) == resolve_kept(a, delta) + resolve_kept(b, delta),
        resolve_promoted(a + b) == resolve_promoted(a) + resolve_promoted(b),
    decreases b.len(),
{
    if b.len() == 0 {
        assert(a + b =~= a);
        assert(resolve_kept(b, delta) == Seq::<SpawnEvent<T, D>>::empty());
        assert(resolve_promoted(b) == Seq::<ReadySpawnEvent<T, D>>::empty());
        assert(resolve_kept(a, delta) + resolve_kept(b, delta) =~= resolve_kept(a, delta));
        assert(resolve_promoted(a) + resolve_promoted(b) =~= resolve_promoted(a));
    } else {
        lemma_resolve_concat(a, b.drop_last(), delta);
        assert((a + b).drop_last() =~= a + b.drop_last());
        assert((a + b).last() == b.last());
        assert(resolve_kept(a + b, delta) =~= resolve_kept(a, delta) + resolve_kept(b, delta));
        assert(resolve_promoted(a + b) =~= resolve_promoted(a) + resolve_promoted(b));
    }
}

/// Where an expired request stands among the promoted ones: right after the
/// expired requests submitted before it.
pub proof fn lemma_promoted_position<T, D>(s: Seq<SpawnEvent<T, D>>, i: int)
    requires
        0 <= i < s.len(),
        is_expired(s[i].delay),
    ensures
        resolve_promoted(s.take(i)).len() < resolve_promoted(s).len(),
        resolve_promoted(s)[resolve_promoted(s.take(i)).len() as int] == ready_of(s[i]),
        resolve_promoted(s.take(i + 1)).len() == resolve_promoted(s.take(i)).len() + 1,
{
    assert(s =~= s.take(i) + s.skip(i));
    lemma_resolve_concat(s.take(i), s.skip(i), 0);
    assert(s.skip(i) =~= seq![s[i]] + s.skip(i + 1));
    lemma_resolve_concat(seq![s[i]], s.skip(i + 1), 0);
    lemma_resolve_singleton(s[i], 0);
    assert(resolve_promoted(s.skip(i))[0] == ready_of(s[i]));
    assert(resolve_promoted(s)[resolve_promoted(s.take(i)).len() as int] == ready_of(s[i]));
    assert(s.take(i + 1) =~= s.take(i) + seq![s[i]]);
    lemma_resolve_concat(s.take(i), seq![s[i]], 0);
}

/// Promotion keeps submission order: two requests whose delays expire in
/// the same resolver pass enter the ready channel in the order they were
/// submitted.
pub proof fn lemma_promotion_order<T, D>(s: Seq<SpawnEvent<T, D>>, i: int, j: int)
    requires
        0 <= i < j < s.len(),
        is_expired(s[i].delay),
        is_expired(s[j].delay),
    ensures
        resolve_promoted(s.take(i)).len() < resolve_promoted(s.take(j)).len() < resolve_promoted(
            s,
        ).len(),
        resolve_promoted(s)[resolve_promoted(s.take(i)).len() as int] == ready_of(s[i]),
        resolve_promoted(s)[resolve_promoted(s.take(j)).len() as int] == ready_of(s[j]),
{
    lemma_promoted_position(s, i);
    lemma_promoted_position(s, j);
    assert(s.take(j) =~= s.take(i + 1) + s.subrange(i + 1, j));
    lemma_resolve_concat(s.take(i + 1), s.subrange(i + 1, j), 0);
}

/// Re-enqueueing keeps submission order and creates no inversions: two
/// requests that both stay pending through one resolver pass come back, each
/// with its delay advanced, in the order they were submitted.
pub proof fn lemma_requeue_order<T, D>(s: Seq<SpawnEvent<T, D>>, delta: u64, i: int, j: int)
    requires
        0 <= i < j < s.len(),
        !is_expired(s[i].delay),
        !is_expired(s[j].delay),
    ensures
        resolve_kept(s.take(i), delta).len() < resolve_kept(s.take(j), delta).len() < resolve_kept(
            s,
            delta,
        ).len(),
        resolve_kept(s, delta)[resolve_kept(s.take(i), delta).len() as int] == (SpawnEvent {
            delay: advanced(s[i].delay, delta),
            ..s[i]
        }),
        resolve_kept(s, delta)[resolve_kept(s.take(j), delta).len() as int] == (SpawnEvent {
            delay: advanced(s[j].delay, delta),
            ..s[j]
        }),
{
    lemma_kept_position(s, delta, i);
    lemma_kept_position(s, delta, j);
    assert(s.take(j) =~= s.take(i + 1) + s.subrange(i + 1, j));
    lemma_resolve_concat(s.take(i + 1), s.subrange(i + 1, j), delta);
}

/// Where an unexpired request stands among the re-enqueued ones: right
/// after the unexpired requests submitted before it.
pub proof fn lemma_kept_position<T, D>(s: Seq<SpawnEvent<T, D>>, delta: u64, i: int)
    requires
        0 <= i < s.len(),
        !is_expired(s[i].delay),
    ensures
        resolve_kept(s.take(i), delta).len() < resolve_kept(s, delta).len(),
        resolve_kept(s, delta)[resolve_kept(s.take(i), delta).len() as int] == (SpawnEvent {
            delay: advanced(s[i].delay, delta),
            ..s[i]
        }),
        resolve_kept(s.take(i + 1), delta).len() == resolve_kept(s.take(i), delta).len() + 1,
{
    assert(s =~= s.take(i) + s.skip(i));
    lemma_resolve_concat(s.take(i), s.skip(i), delta);
    assert(s.skip(i) =~= seq![s[i]] + s.skip(i + 1));
    lemma_resolve_concat(seq![s[i]], s.skip(i + 1), delta);
    lemma_resolve_singleton(s[i], delta);
    assert(resolve_kept(s.skip(i), delta)[0] == (SpawnEvent {
        delay: advanced(s[i].delay, delta),
        ..s[i]
    }));
    assert(resolve_kept(s, delta)[resolve_kept(s.take(i), delta).len() as int] == (SpawnEvent {
        delay: advanced(s[i].delay, delta),
        ..s[i]
    }));
    assert(s.take(i + 1) =~= s.take(i) + seq![s[i]]);
    lemma_resolve_concat(s.take(i), seq![s[i]], delta);
}

/// Ordering from submission to dispatch: two requests with the same key and
/// the same delay, submitted in order A then B, are promoted by the same
/// resolver pass in that order, and in that tick's router pass A's handler
/// invocation precedes B's — both at the first binding whose key matches.
pub proof fn lemma_submission_order<T: PartialEq, D>(
    pending: Seq<SpawnEvent<T, D>>,
    ready: Seq<ReadySpawnEvent<T, D>>,
    keys: Seq<T>,
    i: int,
    j: int,
    b: int,
)
    requires
        keys.len() <= usize::MAX,
        0 <= i < j < pending.len(),
        pending[i].object == pending[j].object,
        pending[i].delay == pending[j].delay,
        is_expired(pending[i].delay),
        0 <= b < keys.len(),
        key_matches(ready_of(pending[i]), keys[b]),
        forall|b2: int| 0 <= b2 < b ==> !key_matches(ready_of(pending[i]), #[trigger] keys[b2]),
    ensures
        exists|si: int, sj: int|
            0 <= si < sj < schedule_from(ready + resolve_promoted(pending), keys, 0).len()
                && #[trigger] schedule_from(ready + resolve_promoted(pending), keys, 0)[si] == (
            Dispatch { binding: b as usize, event: ready_of(pending[i]) })
                && #[trigger] schedule_from(ready + resolve_promoted(pending), keys, 0)[sj] == (
            Dispatch { binding: b as usize, event: ready_of(pending[j]) }),
{
    lemma_promotion_order(pending, i, j);
    let input = ready + resolve_promoted(pending);
    let pi = ready.len() + resolve_promoted(pending.take(i)).len();
    let pj = ready.len() + resolve_promoted(pending.take(j)).len();
    assert(input[pi as int] == ready_of(pending[i]));
    assert(input[pj as int] == ready_of(pending[j]));
    assert(ready_of(pending[j]).object == ready_of(pending[i]).object);
    assert(key_matches(ready_of(pending[j]), keys[b]));
    assert forall|b2: int| 0 <= b2 < b implies !key_matches(
        ready_of(pending[j]),
        #[trigger] keys[b2],
    ) by {
        assert(!key_matches(ready_of(pending[i]), keys[b2]));
    }
    lemma_ordering(input, keys, pi as int, pj as int, b);
}

} // verus!
