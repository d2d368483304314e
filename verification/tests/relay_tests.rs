//! Relay behavior: in-order fan-out to every current subscriber, and no
//! replay for late subscribers.

use chat_core::relay::EventBus;

fn bv(s: &str) -> Vec<u8> {
    s.as_bytes().to_vec()
}

#[test]
fn subscriber_receives_frames_in_publish_order() {
    let mut bus = EventBus::new();
    let h = bus.subscribe();
    bus.publish(&bv("one"));
    bus.publish(&bv("two"));
    bus.publish(&bv("three"));
    let frames = bus.drain(h).unwrap();
    assert_eq!(frames, vec![bv("one"), bv("two"), bv("three")]);
}

#[test]
fn drain_empties_the_queue() {
    let mut bus = EventBus::new();
    let h = bus.subscribe();
    bus.publish(&bv("one"));
    assert_eq!(bus.drain(h).unwrap(), vec![bv("one")]);
    assert_eq!(bus.drain(h).unwrap(), Vec::<Vec<u8>>::new());
}

#[test]
fn late_subscriber_never_sees_earlier_frames() {
    let mut bus = EventBus::new();
    let first = bus.subscribe();
    bus.publish(&bv("early"));
    let second = bus.subscribe();
    bus.publish(&bv("late"));
    assert_eq!(bus.drain(first).unwrap(), vec![bv("early"), bv("late")]);
    assert_eq!(bus.drain(second).unwrap(), vec![bv("late")]);
}

#[test]
fn every_subscriber_gets_every_frame() {
    let mut bus = EventBus::new();
    let a = bus.subscribe();
    let b = bus.subscribe();
    assert_ne!(a, b);
    bus.publish(&bv("x"));
    bus.publish(&bv("y"));
    assert_eq!(bus.drain(a).unwrap(), vec![bv("x"), bv("y")]);
    assert_eq!(bus.drain(b).unwrap(), vec![bv("x"), bv("y")]);
}

#[test]
fn unknown_handle_drains_nothing() {
    let mut bus = EventBus::new();
    let h = bus.subscribe();
    bus.publish(&bv("x"));
    assert_eq!(bus.drain(h + 1), None);
    assert_eq!(bus.drain(h).unwrap(), vec![bv("x")]);
}

#[test]
fn unsubscribed_consumer_gets_nothing_more() {
    let mut bus = EventBus::new();
    let a = bus.subscribe();
    let b = bus.subscribe();
    bus.publish(&bv("x"));
    assert!(bus.unsubscribe(a));
    assert!(!bus.unsubscribe(a));
    assert_eq!(bus.drain(a), None);
    bus.publish(&bv("y"));
    assert_eq!(bus.drain(b).unwrap(), vec![bv("x"), bv("y")]);
}

#[test]
fn publish_with_no_subscribers_is_dropped() {
    let mut bus = EventBus::new();
    bus.publish(&bv("lost"));
    let h = bus.subscribe();
    assert_eq!(bus.drain(h).unwrap(), Vec::<Vec<u8>>::new());
}
