use timer_registry::hashed_wheel::{highest_24_bits, lowest_8_bits, Registry};

#[test]
fn simple_hashed_wheel() {
    // Two one-second timers and a three-second one: the first tick fires
    // both short ones, the third tick the long one.
    let mut registry = Registry::new();
    let a = registry.start_timer(1);
    let c = registry.start_timer(3);
    let b = registry.start_timer(1);
    let _ = (&a, &b, &c);

    let fired = registry.expire_timers();
    assert_eq!(fired.len(), 2);
    assert!(registry.expire_timers().is_empty());
    assert_eq!(registry.expire_timers().len(), 1);
}

#[test]
fn bit_split_exact_values() {
    // The delay splits into a slot offset and a round counter.
    assert_eq!(lowest_8_bits(257), 1);
    assert_eq!(highest_24_bits(257), 256);
    assert_eq!(lowest_8_bits(0x12345678), 0x78);
    assert_eq!(highest_24_bits(0x12345678), 0x12345600);
    assert_eq!(lowest_8_bits(255), 255);
    assert_eq!(highest_24_bits(255), 0);
}

#[test]
fn hashed_wheel_wrap() {
    // A delay of 257 seconds shares a bucket with a one-second delay but
    // waits a full revolution: nothing at tick 256, fired at tick 257.
    let mut registry = Registry::new();
    let h = registry.start_timer(257);
    let _ = &h;
    for _ in 0..256 {
        assert!(registry.expire_timers().is_empty());
    }
    assert_eq!(registry.expire_timers().len(), 1);
}

#[test]
fn bucket_keeps_round_counter_order() {
    // Three delays with the same low bits land in one bucket, kept in
    // non-decreasing round-counter order whatever the insertion order.
    let mut registry = Registry::new();
    let a = registry.start_timer(513);
    let b = registry.start_timer(1);
    let c = registry.start_timer(257);
    let _ = (&a, &b, &c);
    assert_eq!(registry.bucket_len(1), 3);
    assert_eq!(registry.bucket_round_at(1, 0), 0);
    assert_eq!(registry.bucket_round_at(1, 1), 256);
    assert_eq!(registry.bucket_round_at(1, 2), 512);
}

#[test]
fn expiration_takes_only_matching_prefix() {
    // When the hand reaches a bucket, only the timers of the current round
    // fire; the rest of the bucket stays for a later revolution.
    let mut registry = Registry::new();
    let a = registry.start_timer(1);
    let b = registry.start_timer(257);
    let _ = (&a, &b);
    assert_eq!(registry.bucket_len(1), 2);
    let fired = registry.expire_timers();
    assert_eq!(fired.len(), 1);
    assert_eq!(registry.bucket_len(1), 1);
}

#[test]
fn cancellation_before_fire_hashed() {
    // A cancelled timer does not fire; its bucket mate still does.
    let mut registry = Registry::new();
    let a = registry.start_timer(1);
    let b = registry.start_timer(1);
    let _ = &b;
    registry.stop_timer(&a);
    assert_eq!(registry.bucket_len(1), 1);
    assert_eq!(registry.expire_timers().len(), 1);
    assert!(registry.expire_timers().is_empty());
}

#[test]
fn start_then_stop_round_trip_hashed() {
    // Registering and cancelling within the same tick leaves the bucket as
    // it was.
    let mut registry = Registry::new();
    let keep = registry.start_timer(1);
    let _ = &keep;
    let gone = registry.start_timer(257);
    registry.stop_timer(&gone);
    assert_eq!(registry.bucket_len(1), 1);
    assert_eq!(registry.bucket_round_at(1, 0), 0);
    assert_eq!(registry.expire_timers().len(), 1);
}

#[test]
fn thousand_timers_fire_once_hashed() {
    // A thousand one-second timers share a bucket and a round counter;
    // the first tick fires them all, each exactly once.
    let mut registry = Registry::new();
    for _ in 0..1000 {
        let h = registry.start_timer(1);
        let _ = &h;
    }
    assert_eq!(registry.bucket_len(1), 1000);
    let fired = registry.expire_timers();
    assert_eq!(fired.len(), 1000);
    let mut seen = vec![false; 1000];
    for id in fired {
        assert!(!seen[id]);
        seen[id] = true;
    }
    assert!(seen.iter().all(|s| *s));
    assert_eq!(registry.bucket_len(1), 0);
}
