//! End-to-end scenarios: submissions, ticks, and dispatch schedules.

use spew::combination::Combination;
use spew::events::SpawnEvent;

#[derive(Debug, Clone, PartialEq, Eq)]
enum Object {
    Cube,
    Triangle,
    Sphere,
}

#[test]
fn cube_with_one_frame_delay_dispatches_on_second_tick() {
    let mut combo: Combination<Object, String> = Combination::new();
    let cube = combo.register(Object::Cube);
    assert_eq!(cube, 0);
    combo.enqueue(SpawnEvent::with_data(Object::Cube, String::from("payload")).delay_frames(1));
    let first = combo.tick(16000);
    assert!(first.is_empty());
    assert_eq!(combo.pending_len(), 1);
    let second = combo.tick(16000);
    assert_eq!(second.len(), 1);
    assert_eq!(second[0].binding, 0);
    assert_eq!(second[0].event.object, Object::Cube);
    assert_eq!(second[0].event.data, "payload");
    assert_eq!(combo.pending_len(), 0);
    assert_eq!(combo.ready_len(), 0);
    let third = combo.tick(16000);
    assert!(third.is_empty());
}

#[test]
fn zero_delay_default_dispatches_on_next_tick_not_the_same() {
    let mut combo: Combination<Object, u32> = Combination::new();
    combo.register(Object::Cube);
    combo.enqueue(SpawnEvent::with_data(Object::Cube, 7));
    assert_eq!(combo.pending_len(), 1);
    assert_eq!(combo.ready_len(), 0);
    let first = combo.tick(16000);
    assert_eq!(first.len(), 1);
    assert_eq!(first[0].event.data, 7);
}

#[test]
fn tick_delay_n_dispatches_on_tick_n_plus_one() {
    for n in [0usize, 1, 3, 7] {
        let mut combo: Combination<Object, u32> = Combination::new();
        combo.register(Object::Triangle);
        combo.enqueue(SpawnEvent::with_data(Object::Triangle, 42).delay_frames(n));
        let mut dispatched_at = 0usize;
        for tick in 1..=(n + 2) {
            let schedule = combo.tick(16000);
            if !schedule.is_empty() {
                assert_eq!(schedule.len(), 1);
                dispatched_at = tick;
                break;
            }
        }
        assert_eq!(dispatched_at, n + 1);
    }
}

#[test]
fn time_delay_crossing_epsilon_dispatches_the_tick_after() {
    let mut combo: Combination<Object, String> = Combination::new();
    combo.register(Object::Cube);
    combo.enqueue(
        SpawnEvent::with_data(Object::Cube, String::from("timed")).delay_micros(500_000),
    );
    let first = combo.tick(300_000);
    assert!(first.is_empty());
    assert_eq!(combo.pending_len(), 1);
    let second = combo.tick(300_000);
    assert!(second.is_empty());
    assert_eq!(combo.pending_len(), 1);
    let third = combo.tick(300_000);
    assert_eq!(third.len(), 1);
    assert_eq!(third[0].event.data, "timed");
    assert_eq!(combo.pending_len(), 0);
}

#[test]
fn time_delay_within_epsilon_counts_as_expired() {
    let mut combo: Combination<Object, u32> = Combination::new();
    combo.register(Object::Cube);
    combo.enqueue(SpawnEvent::with_data(Object::Cube, 1).delay_micros(10));
    let first = combo.tick(16000);
    assert_eq!(first.len(), 1);

    let mut combo2: Combination<Object, u32> = Combination::new();
    combo2.register(Object::Cube);
    combo2.enqueue(SpawnEvent::with_data(Object::Cube, 2).delay_micros(11));
    assert!(combo2.tick(1).is_empty());
    let second = combo2.tick(1);
    assert_eq!(second.len(), 1);
}

#[test]
fn whole_second_delay_converges_under_fractional_ticks() {
    let mut combo: Combination<Object, u32> = Combination::new();
    combo.register(Object::Sphere);
    combo.enqueue(SpawnEvent::with_data(Object::Sphere, 9).delay_seconds(1));
    assert!(combo.tick(600_000).is_empty());
    assert!(combo.tick(600_000).is_empty());
    let third = combo.tick(600_000);
    assert_eq!(third.len(), 1);
    assert_eq!(third[0].event.object, Object::Sphere);
}

#[test]
fn partition_delivers_each_event_to_first_matching_binding() {
    let mut combo: Combination<Object, u32> = Combination::new();
    let cube_first = combo.register(Object::Cube);
    let triangle = combo.register(Object::Triangle);
    let cube_second = combo.register(Object::Cube);
    combo.enqueue(SpawnEvent::with_data(Object::Cube, 1));
    combo.enqueue(SpawnEvent::with_data(Object::Triangle, 2));
    combo.enqueue(SpawnEvent::with_data(Object::Sphere, 3));
    combo.enqueue(SpawnEvent::with_data(Object::Cube, 4));
    let schedule = combo.tick(16000);
    assert_eq!(schedule.len(), 3);
    assert_eq!(schedule[0].binding, cube_first);
    assert_eq!(schedule[0].event.data, 1);
    assert_eq!(schedule[1].binding, cube_first);
    assert_eq!(schedule[1].event.data, 4);
    assert_eq!(schedule[2].binding, triangle);
    assert_eq!(schedule[2].event.data, 2);
    assert!(schedule.iter().all(|d| d.binding != cube_second));
    assert_eq!(combo.ready_len(), 1);
}

#[test]
fn unclaimed_ready_event_persists_across_ticks() {
    let mut combo: Combination<Object, u32> = Combination::new();
    combo.register(Object::Cube);
    combo.enqueue(SpawnEvent::with_data(Object::Sphere, 5));
    assert!(combo.tick(16000).is_empty());
    assert_eq!(combo.ready_len(), 1);
    assert!(combo.tick(16000).is_empty());
    assert_eq!(combo.ready_len(), 1);
    let late = combo.register(Object::Sphere);
    let schedule = combo.tick(16000);
    assert_eq!(schedule.len(), 1);
    assert_eq!(schedule[0].binding, late);
    assert_eq!(schedule[0].event.data, 5);
    assert_eq!(combo.ready_len(), 0);
}

#[test]
fn same_key_same_delay_dispatch_in_submission_order() {
    let mut combo: Combination<Object, &'static str> = Combination::new();
    combo.register(Object::Cube);
    combo.enqueue(SpawnEvent::with_data(Object::Cube, "first").delay_frames(2));
    combo.enqueue(SpawnEvent::with_data(Object::Cube, "second").delay_frames(2));
    assert!(combo.tick(16000).is_empty());
    assert!(combo.tick(16000).is_empty());
    let schedule = combo.tick(16000);
    assert_eq!(schedule.len(), 2);
    assert_eq!(schedule[0].event.data, "first");
    assert_eq!(schedule[1].event.data, "second");
}

#[test]
fn noop_tick_leaves_everything_empty_and_dispatches_nothing() {
    let mut combo: Combination<Object, u32> = Combination::new();
    combo.register(Object::Cube);
    combo.register(Object::Triangle);
    let schedule = combo.tick(16000);
    assert!(schedule.is_empty());
    assert_eq!(combo.pending_len(), 0);
    assert_eq!(combo.ready_len(), 0);
    assert_eq!(combo.bindings_len(), 2);
}

#[test]
fn separate_combinations_do_not_interfere() {
    let mut with_data: Combination<Object, u32> = Combination::new();
    let mut without_data: Combination<Object, ()> = Combination::new();
    with_data.register(Object::Cube);
    without_data.register(Object::Cube);
    with_data.enqueue(SpawnEvent::with_data(Object::Cube, 11));
    let schedule = with_data.tick(16000);
    assert_eq!(schedule.len(), 1);
    let other = without_data.tick(16000);
    assert!(other.is_empty());
}

#[test]
fn zero_elapsed_time_never_advances_a_time_delay() {
    let mut combo: Combination<Object, u32> = Combination::new();
    combo.register(Object::Cube);
    combo.enqueue(SpawnEvent::with_data(Object::Cube, 3).delay_micros(100));
    for _ in 0..5 {
        assert!(combo.tick(0).is_empty());
        assert_eq!(combo.pending_len(), 1);
    }
    assert!(combo.tick(100).is_empty());
    let last = combo.tick(0);
    assert_eq!(last.len(), 1);
}
