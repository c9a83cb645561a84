use live_backend::fanout::{Broadcaster, Delivery};

fn drain(b: &mut Broadcaster<u32>, h: u64) -> Vec<Delivery<u32>> {
    let mut out = Vec::new();
    loop {
        match b.recv(h) {
            Delivery::Empty | Delivery::Closed => return out,
            d => out.push(d),
        }
    }
}

#[test]
fn every_subscriber_sees_every_event_in_order() {
    let mut b: Broadcaster<u32> = Broadcaster::new(16);
    let handles: Vec<u64> = (0..4).map(|_| b.subscribe().unwrap()).collect();
    for e in 1..=10u32 {
        assert_eq!(b.publish(e), 4);
    }
    let expected: Vec<Delivery<u32>> = (1..=10u32).map(Delivery::Event).collect();
    for h in handles {
        assert_eq!(drain(&mut b, h), expected);
    }
}

#[test]
fn handles_are_given_out_in_order() {
    let mut b: Broadcaster<u32> = Broadcaster::new(1);
    assert_eq!(b.subscribe(), Some(0));
    assert_eq!(b.subscribe(), Some(1));
    assert!(b.unsubscribe(0));
    assert_eq!(b.subscribe(), Some(2));
    assert_eq!(b.subscriber_count(), 2);
    assert!(!b.is_subscribed(0));
    assert!(b.is_subscribed(1));
    assert!(b.is_subscribed(2));
}

#[test]
fn subscriber_sees_only_what_is_published_after_it_joined() {
    let mut b: Broadcaster<u32> = Broadcaster::new(8);
    let early = b.subscribe().unwrap();
    assert_eq!(b.publish(1), 1);
    let late = b.subscribe().unwrap();
    assert_eq!(b.publish(2), 2);
    assert_eq!(drain(&mut b, early), vec![Delivery::Event(1), Delivery::Event(2)]);
    assert_eq!(drain(&mut b, late), vec![Delivery::Event(2)]);
}

#[test]
fn slow_subscriber_loses_the_oldest_and_is_told() {
    let mut b: Broadcaster<u32> = Broadcaster::new(2);
    let slow = b.subscribe().unwrap();
    let fast = b.subscribe().unwrap();
    let mut seen_by_fast = Vec::new();
    for e in 1..=5u32 {
        b.publish(e);
        seen_by_fast.push(b.recv(fast));
    }
    assert_eq!(seen_by_fast, (1..=5u32).map(Delivery::Event).collect::<Vec<_>>());
    assert_eq!(
        drain(&mut b, slow),
        vec![Delivery::Gap(3), Delivery::Event(4), Delivery::Event(5)]
    );
    // The gap is reported once.
    b.publish(6);
    assert_eq!(drain(&mut b, slow), vec![Delivery::Event(6)]);
}

#[test]
fn depth_zero_keeps_nothing_and_counts_everything() {
    let mut b: Broadcaster<u32> = Broadcaster::new(0);
    let h = b.subscribe().unwrap();
    b.publish(1);
    b.publish(2);
    assert_eq!(b.recv(h), Delivery::Gap(2));
    assert_eq!(b.recv(h), Delivery::Empty);
}

#[test]
fn leaving_does_not_disturb_the_others() {
    let mut b: Broadcaster<u32> = Broadcaster::new(32);
    let a = b.subscribe().unwrap();
    let gone = b.subscribe().unwrap();
    let c = b.subscribe().unwrap();
    let d = b.subscribe().unwrap();
    for e in 1..=3u32 {
        assert_eq!(b.publish(e), 4);
    }
    assert_eq!(b.recv(a), Delivery::Event(1));
    assert!(b.unsubscribe(gone));
    for e in 4..=6u32 {
        assert_eq!(b.publish(e), 3);
    }
    assert_eq!(drain(&mut b, a), (2..=6u32).map(Delivery::Event).collect::<Vec<_>>());
    assert_eq!(drain(&mut b, c), (1..=6u32).map(Delivery::Event).collect::<Vec<_>>());
    assert_eq!(drain(&mut b, d), (1..=6u32).map(Delivery::Event).collect::<Vec<_>>());
    assert_eq!(b.recv(gone), Delivery::Closed);
}

#[test]
fn unsubscribe_twice_changes_nothing() {
    let mut b: Broadcaster<u32> = Broadcaster::new(4);
    let a = b.subscribe().unwrap();
    let other = b.subscribe().unwrap();
    b.publish(9);
    assert!(b.unsubscribe(a));
    assert!(!b.unsubscribe(a));
    assert!(!b.unsubscribe(77));
    assert_eq!(b.subscriber_count(), 1);
    assert_eq!(drain(&mut b, other), vec![Delivery::Event(9)]);
}

#[test]
fn publish_without_subscribers_reaches_nobody() {
    let mut b: Broadcaster<u32> = Broadcaster::new(4);
    assert_eq!(b.publish(1), 0);
    let h = b.subscribe().unwrap();
    assert_eq!(b.recv(h), Delivery::Empty);
    assert_eq!(b.recv(h + 1), Delivery::Closed);
}

#[test]
fn receiving_touches_one_inbox_only() {
    let mut b: Broadcaster<u32> = Broadcaster::new(4);
    let a = b.subscribe().unwrap();
    let c = b.subscribe().unwrap();
    b.publish(1);
    b.publish(2);
    assert_eq!(b.recv(a), Delivery::Event(1));
    assert_eq!(b.recv(a), Delivery::Event(2));
    assert_eq!(b.recv(a), Delivery::Empty);
    assert_eq!(drain(&mut b, c), vec![Delivery::Event(1), Delivery::Event(2)]);
}
