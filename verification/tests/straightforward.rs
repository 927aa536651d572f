use timer_registry::straightforward::Registry;

#[test]
fn simple_straightforward() {
    // One timer due in a second, one due in three: ticking the clock fires
    // them at those times and in that order.
    let mut registry = Registry::new();
    registry.start_timer(0, 1);
    registry.start_timer(1, 3);

    let fired = registry.expire_timers();
    assert_eq!(fired, vec![0]);
    let fired = registry.expire_timers();
    assert!(fired.is_empty());
    let fired = registry.expire_timers();
    assert_eq!(fired, vec![1]);
    assert_eq!(registry.pending_count(), 0);
}

#[test]
fn two_short_timers() {
    // Two one-second timers and a three-second one: after the first tick
    // exactly the short ones have fired; after the third, the long one too.
    let mut registry = Registry::new();
    registry.start_timer(10, 1);
    registry.start_timer(11, 1);
    registry.start_timer(12, 3);

    let fired = registry.expire_timers();
    assert_eq!(fired, vec![10, 11]);
    assert!(registry.expire_timers().is_empty());
    let fired = registry.expire_timers();
    assert_eq!(fired, vec![12]);
}

#[test]
fn cancellation_before_fire() {
    // A cancelled timer does not fire, however long the clock runs.
    let mut registry = Registry::new();
    registry.start_timer(7, 1);
    registry.stop_timer(7);
    for _ in 0..5 {
        assert!(registry.expire_timers().is_empty());
    }
}

#[test]
fn no_early_no_late_fire() {
    // A five-second timer fires on the fifth tick, not before and not
    // after.
    let mut registry = Registry::new();
    registry.start_timer(3, 5);
    for _ in 0..4 {
        assert!(registry.expire_timers().is_empty());
    }
    assert_eq!(registry.expire_timers(), vec![3]);
    assert!(registry.expire_timers().is_empty());
}

#[test]
fn start_then_stop_round_trip() {
    // Registering and cancelling within the same tick leaves the registry
    // as it was.
    let mut registry = Registry::new();
    registry.start_timer(1, 2);
    registry.start_timer(2, 4);
    let before = registry.pending_count();
    registry.start_timer(99, 1);
    registry.stop_timer(99);
    assert_eq!(registry.pending_count(), before);
    assert!(registry.expire_timers().is_empty());
}

#[test]
fn stop_removes_first_matching_only() {
    // Cancellation removes one pending timer per call, the earliest
    // registered under the identifier.
    let mut registry = Registry::new();
    registry.start_timer(5, 1);
    registry.start_timer(5, 2);
    registry.stop_timer(5);
    assert_eq!(registry.pending_count(), 1);
    assert!(registry.expire_timers().is_empty());
    assert_eq!(registry.expire_timers(), vec![5]);
}

#[test]
fn thousand_timers_fire_once() {
    // A thousand one-second timers all fire on the first tick, each
    // exactly once.
    let mut registry = Registry::new();
    for id in 0..1000u64 {
        registry.start_timer(id, 1);
    }
    let fired = registry.expire_timers();
    assert_eq!(fired.len(), 1000);
    let mut seen = vec![false; 1000];
    for id in fired {
        assert!(!seen[id as usize]);
        seen[id as usize] = true;
    }
    assert!(seen.iter().all(|s| *s));
    assert_eq!(registry.pending_count(), 0);
    assert!(registry.expire_timers().is_empty());
}

#[test]
fn zero_interval_fires_next_tick() {
    // A zero-second registration is already due: the next tick fires it.
    let mut registry = Registry::new();
    registry.start_timer(4, 0);
    assert_eq!(registry.expire_timers(), vec![4]);
}
