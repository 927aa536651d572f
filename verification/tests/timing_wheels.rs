use timer_registry::timing_wheels::Registry;

#[test]
fn simple_timing_wheels() {
    // One timer due in a second, one due in three: the wheel's hand
    // reaches their buckets at those ticks.
    let mut registry = Registry::new();
    let h1 = registry.start_timer(1);
    let h3 = registry.start_timer(3);
    let _ = (&h1, &h3);

    let fired = registry.expire_timers();
    assert_eq!(fired.len(), 1);
    assert!(registry.expire_timers().is_empty());
    let fired = registry.expire_timers();
    assert_eq!(fired.len(), 1);
}

#[test]
fn fires_each_id_once() {
    // Two timers in the same bucket fire together, each exactly once.
    let mut registry = Registry::new();
    let a = registry.start_timer(2);
    let b = registry.start_timer(2);
    let _ = (&a, &b);
    assert!(registry.expire_timers().is_empty());
    let fired = registry.expire_timers();
    assert_eq!(fired.len(), 2);
    assert_ne!(fired[0], fired[1]);
    assert!(registry.expire_timers().is_empty());
}

#[test]
fn cancellation_by_handle() {
    // A cancelled timer does not fire when its bucket comes up.
    let mut registry = Registry::new();
    let h = registry.start_timer(2);
    registry.stop_timer(&h);
    for _ in 0..5 {
        assert!(registry.expire_timers().is_empty());
    }
}

#[test]
fn cancel_one_of_two_in_bucket() {
    // Cancelling one handle leaves the other timer in the bucket.
    let mut registry = Registry::new();
    let a = registry.start_timer(1);
    let b = registry.start_timer(1);
    let _ = &b;
    registry.stop_timer(&a);
    let fired = registry.expire_timers();
    assert_eq!(fired.len(), 1);
}

#[test]
fn stale_handle_is_no_op() {
    // Cancelling after the timer has fired changes nothing.
    let mut registry = Registry::new();
    let h = registry.start_timer(1);
    assert_eq!(registry.expire_timers().len(), 1);
    registry.stop_timer(&h);
    assert!(registry.expire_timers().is_empty());
}

#[test]
fn delay_beyond_wheel_wraps() {
    // A delay of a full revolution lands in the bucket under the hand: it
    // fires only when the wheel comes all the way around, observable here
    // through the bucket it was filed in.
    let mut registry = Registry::new();
    let h = registry.start_timer(100000);
    let _ = &h;
    assert_eq!(registry.bucket_len(0), 1);
    assert!(registry.expire_timers().is_empty());
    assert_eq!(registry.bucket_len(0), 1);
}

#[test]
fn thousand_timers_fire_once_wheel() {
    // A thousand one-second timers share a bucket and all fire on the
    // first tick, each exactly once.
    let mut registry = Registry::new();
    for _ in 0..1000 {
        let h = registry.start_timer(1);
        let _ = &h;
    }
    let fired = registry.expire_timers();
    assert_eq!(fired.len(), 1000);
    let mut seen = vec![false; 1000];
    for id in fired {
        assert!(!seen[id]);
        seen[id] = true;
    }
    assert!(seen.iter().all(|s| *s));
    assert!(registry.expire_timers().is_empty());
}
