use timer_registry::priority_queue::Registry;

#[test]
fn simple_priority_queue() {
    // One timer due at second one, one at second three: each tick pops
    // exactly what has come due.
    let mut registry = Registry::new();
    registry.start_timer(0, 1);
    registry.start_timer(1, 3);

    assert_eq!(registry.expire_timers(1), vec![0]);
    assert!(registry.expire_timers(2).is_empty());
    assert_eq!(registry.expire_timers(3), vec![1]);
    assert_eq!(registry.pending_count(), 0);
}

#[test]
fn fires_in_deadline_order() {
    // Registration order does not matter: firing follows the deadlines.
    let mut registry = Registry::new();
    registry.start_timer(30, 3);
    registry.start_timer(10, 1);
    registry.start_timer(20, 2);
    assert_eq!(registry.expire_timers(3), vec![10, 20, 30]);
}

#[test]
fn no_early_fire_at_boundary() {
    // A deadline equal to the tick's time fires; a later one does not.
    let mut registry = Registry::new();
    registry.start_timer(1, 5);
    assert!(registry.expire_timers(4).is_empty());
    assert_eq!(registry.expire_timers(5), vec![1]);
}

#[test]
fn cancellation_before_fire_queue() {
    // A cancelled timer does not fire; cancellation removes every pending
    // timer under the identifier.
    let mut registry = Registry::new();
    registry.start_timer(7, 1);
    registry.start_timer(7, 2);
    registry.start_timer(8, 2);
    registry.stop_timer(7);
    assert_eq!(registry.pending_count(), 1);
    assert!(registry.expire_timers(1).is_empty());
    assert_eq!(registry.expire_timers(2), vec![8]);
}

#[test]
fn equal_deadlines_keep_arrival_order() {
    // Timers due at the same second fire in the order they were
    // registered.
    let mut registry = Registry::new();
    registry.start_timer(1, 2);
    registry.start_timer(2, 2);
    registry.start_timer(3, 2);
    assert_eq!(registry.expire_timers(2), vec![1, 2, 3]);
}

#[test]
fn start_then_stop_round_trip_queue() {
    // Registering and cancelling within the same tick leaves the registry
    // as it was.
    let mut registry = Registry::new();
    registry.start_timer(1, 4);
    let before = registry.pending_count();
    registry.start_timer(99, 2);
    registry.stop_timer(99);
    assert_eq!(registry.pending_count(), before);
    assert!(registry.expire_timers(3).is_empty());
    assert_eq!(registry.expire_timers(4), vec![1]);
}
