//! The request builders and the channel and registry primitives.

use spew::channel::ReadyChannel;
use spew::channel::RequestChannel;
use spew::events::delay_spawn_events;
use spew::events::Delay;
use spew::events::ReadySpawnEvent;
use spew::events::SpawnEvent;
use spew::router::route_binding;
use spew::router::Registry;

#[derive(Debug, Clone, PartialEq, Eq)]
enum Object {
    Cube,
    Triangle,
}

#[test]
fn new_fills_default_data_and_no_delay() {
    let event: SpawnEvent<Object, u32> = SpawnEvent::new(Object::Cube);
    assert_eq!(event.object, Object::Cube);
    assert_eq!(event.data, 0);
    assert_eq!(event.delay, Delay::Frames(0));
}

#[test]
fn with_data_keeps_key_and_payload() {
    let event = SpawnEvent::with_data(Object::Cube, String::from("Dirt Block"));
    assert_eq!(event.object, Object::Cube);
    assert_eq!(event.data, "Dirt Block");
    assert_eq!(event.delay, Delay::Frames(0));
}

#[test]
fn data_replaces_the_payload_only() {
    let event: SpawnEvent<Object, String> =
        SpawnEvent::new(Object::Cube).delay_frames(4).data(String::from("Dirt Block"));
    assert_eq!(event.object, Object::Cube);
    assert_eq!(event.data, "Dirt Block");
    assert_eq!(event.delay, Delay::Frames(4));
}

#[test]
fn delay_builders_set_the_variants() {
    let framed: SpawnEvent<Object> = SpawnEvent::new(Object::Cube).delay_frames(10);
    assert_eq!(framed.delay, Delay::Frames(10));
    let timed: SpawnEvent<Object> = SpawnEvent::new(Object::Cube).delay_micros(250);
    assert_eq!(timed.delay, Delay::Micros(250));
    let seconds: SpawnEvent<Object> = SpawnEvent::new(Object::Cube).delay_seconds(2);
    assert_eq!(seconds.delay, Delay::Micros(2_000_000));
}

#[test]
fn default_delay_is_no_delay() {
    assert_eq!(Delay::default(), Delay::Frames(0));
    let event: SpawnEvent<u32, u32> = SpawnEvent::default();
    assert_eq!(event.object, 0);
    assert_eq!(event.data, 0);
    assert_eq!(event.delay, Delay::Frames(0));
}

#[test]
fn spawn_events_compare_by_key_payload_and_delay() {
    let a = SpawnEvent::with_data(Object::Cube, 1).delay_frames(2);
    let b = SpawnEvent::with_data(Object::Cube, 1).delay_frames(2);
    let c = SpawnEvent::with_data(Object::Cube, 1).delay_frames(3);
    let d = SpawnEvent::with_data(Object::Triangle, 1).delay_frames(2);
    assert!(a == b);
    assert!(a != c);
    assert!(a != d);
    let cloned = a.clone();
    assert!(a == cloned);
}

#[test]
fn ready_event_from_spawn_event_drops_the_delay() {
    let event = SpawnEvent::with_data(Object::Cube, 8).delay_frames(3);
    let ready = ReadySpawnEvent::from(event);
    assert_eq!(ready.object, Object::Cube);
    assert_eq!(ready.data, 8);
}

#[test]
fn request_channel_drains_in_insertion_order() {
    let mut channel: RequestChannel<Object, u32> = RequestChannel::new();
    channel.enqueue(SpawnEvent::with_data(Object::Cube, 1));
    channel.enqueue(SpawnEvent::with_data(Object::Triangle, 2));
    assert_eq!(channel.len(), 2);
    let drained = channel.drain_all();
    assert_eq!(channel.len(), 0);
    assert_eq!(drained.len(), 2);
    assert_eq!(drained[0].data, 1);
    assert_eq!(drained[1].data, 2);
}

#[test]
fn resolver_promotes_expired_and_advances_the_rest() {
    let mut pending: RequestChannel<Object, u32> = RequestChannel::new();
    let mut ready: ReadyChannel<Object, u32> = ReadyChannel::new();
    pending.enqueue(SpawnEvent::with_data(Object::Cube, 1));
    pending.enqueue(SpawnEvent::with_data(Object::Cube, 2).delay_frames(2));
    pending.enqueue(SpawnEvent::with_data(Object::Cube, 3).delay_micros(50));
    pending.enqueue(SpawnEvent::with_data(Object::Cube, 4).delay_micros(5));
    delay_spawn_events(30, &mut pending, &mut ready);
    assert_eq!(ready.len(), 2);
    let promoted = ready.drain_all();
    assert_eq!(promoted[0].data, 1);
    assert_eq!(promoted[1].data, 4);
    let kept = pending.drain_all();
    assert_eq!(kept.len(), 2);
    assert_eq!(kept[0].data, 2);
    assert_eq!(kept[0].delay, Delay::Frames(1));
    assert_eq!(kept[1].data, 3);
    assert_eq!(kept[1].delay, Delay::Micros(20));
}

#[test]
fn resolver_saturates_a_time_delay_at_zero() {
    let mut pending: RequestChannel<Object, u32> = RequestChannel::new();
    let mut ready: ReadyChannel<Object, u32> = ReadyChannel::new();
    pending.enqueue(SpawnEvent::with_data(Object::Cube, 1).delay_micros(100));
    delay_spawn_events(10_000, &mut pending, &mut ready);
    assert_eq!(ready.len(), 0);
    let kept = pending.drain_all();
    assert_eq!(kept[0].delay, Delay::Micros(0));
}

#[test]
fn route_binding_claims_matching_events_in_arrival_order() {
    let mut ready: ReadyChannel<Object, u32> = ReadyChannel::new();
    ready.enqueue(ReadySpawnEvent { object: Object::Cube, data: 1 });
    ready.enqueue(ReadySpawnEvent { object: Object::Triangle, data: 2 });
    ready.enqueue(ReadySpawnEvent { object: Object::Cube, data: 3 });
    let handled = route_binding(&mut ready, &Object::Cube);
    assert_eq!(handled.len(), 2);
    assert_eq!(handled[0].data, 1);
    assert_eq!(handled[1].data, 3);
    assert_eq!(ready.len(), 1);
    let rest = ready.drain_all();
    assert_eq!(rest[0].data, 2);
}

#[test]
fn registry_hands_out_indices_in_registration_order() {
    let mut registry: Registry<Object> = Registry::new();
    assert_eq!(registry.len(), 0);
    assert_eq!(registry.register(Object::Cube), 0);
    assert_eq!(registry.register(Object::Triangle), 1);
    assert_eq!(registry.register(Object::Cube), 2);
    assert_eq!(registry.len(), 3);
    assert_eq!(*registry.key(1), Object::Triangle);
}
