use auth_session::bus::{NotifyPass, SubscriptionBus};

#[test]
fn three_subscribers_one_leaves_two_notified() {
    let mut bus = SubscriptionBus::new();
    let a = bus.subscribe().unwrap();
    let b = bus.subscribe().unwrap();
    let c = bus.subscribe().unwrap();
    assert!(bus.unsubscribe(b));
    let mut pass = NotifyPass::begin(&bus);
    let mut delivered = Vec::new();
    while let Some(h) = pass.next_recipient(&bus) {
        delivered.push(h);
    }
    assert_eq!(delivered, vec![a, c]);
}

#[test]
fn handles_are_fresh_and_ordered() {
    let mut bus = SubscriptionBus::new();
    let a = bus.subscribe().unwrap();
    let b = bus.subscribe().unwrap();
    assert_ne!(a, b);
    assert!(bus.unsubscribe(a));
    let c = bus.subscribe().unwrap();
    assert_ne!(c, a);
    assert_ne!(c, b);
    assert_eq!(bus.subscriber_count(), 2);
}

#[test]
fn unsubscribing_unknown_handle_reports_false() {
    let mut bus = SubscriptionBus::new();
    let a = bus.subscribe().unwrap();
    assert!(!bus.unsubscribe(a + 17));
    assert!(bus.is_subscribed(a));
    assert_eq!(bus.subscriber_count(), 1);
}

#[test]
fn unsubscribe_during_own_notification_keeps_rest() {
    // the middle subscriber deregisters itself inside its own
    // callback: the pass goes on and the last subscriber still hears
    let mut bus = SubscriptionBus::new();
    let a = bus.subscribe().unwrap();
    let b = bus.subscribe().unwrap();
    let c = bus.subscribe().unwrap();
    let mut pass = NotifyPass::begin(&bus);
    let mut delivered = Vec::new();
    while let Some(h) = pass.next_recipient(&bus) {
        delivered.push(h);
        if h == b {
            // what subscriber b's sink does when the event arrives
            bus.unsubscribe(b);
        }
    }
    assert_eq!(delivered, vec![a, b, c]);
    assert!(!bus.is_subscribed(b));
    assert!(bus.is_subscribed(a));
    assert!(bus.is_subscribed(c));
}

#[test]
fn unsubscribe_ahead_of_cursor_skips_only_that_one() {
    let mut bus = SubscriptionBus::new();
    let a = bus.subscribe().unwrap();
    let b = bus.subscribe().unwrap();
    let c = bus.subscribe().unwrap();
    let mut pass = NotifyPass::begin(&bus);
    let mut delivered = Vec::new();
    while let Some(h) = pass.next_recipient(&bus) {
        delivered.push(h);
        if h == a {
            // the first subscriber's callback deregisters the second
            bus.unsubscribe(b);
        }
    }
    assert_eq!(delivered, vec![a, c]);
}

#[test]
fn late_subscriber_misses_running_pass() {
    let mut bus = SubscriptionBus::new();
    let a = bus.subscribe().unwrap();
    let mut pass = NotifyPass::begin(&bus);
    let b = bus.subscribe().unwrap();
    let mut delivered = Vec::new();
    while let Some(h) = pass.next_recipient(&bus) {
        delivered.push(h);
    }
    assert_eq!(delivered, vec![a]);
    assert!(bus.is_subscribed(b));
}
