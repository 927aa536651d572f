use timer_registry::hierarchical::{time_components, Registry};

#[test]
fn simple_hierarchical() {
    // Two one-second timers, a three-second one and a 61-second one. The
    // first tick drains the bucket under the seconds hand, so a delay of d
    // seconds fires on tick d + 1.
    let mut registry = Registry::new();
    let a = registry.start_timer(1);
    let b = registry.start_timer(3);
    let c = registry.start_timer(1);
    let d = registry.start_timer(61);
    let _ = (&a, &b, &c, &d);

    let mut fired_at = Vec::new();
    for tick in 1..=62 {
        for _ in registry.expire_timers() {
            fired_at.push(tick);
        }
    }
    assert_eq!(fired_at, vec![2, 2, 4, 62]);
}

#[test]
fn time_components_exact_values() {
    assert_eq!(time_components(0), (0, 0, 0));
    assert_eq!(time_components(61), (1, 1, 0));
    assert_eq!(time_components(3661), (1, 1, 1));
    assert_eq!(time_components(86399), (59, 59, 23));
    assert_eq!(time_components(119), (59, 1, 0));
}

#[test]
fn hierarchical_cascade() {
    // A 61-second timer waits in the minutes wheel; when the minutes hand
    // advances it is demoted into the seconds bucket its residual names,
    // and fires from there.
    let mut registry = Registry::new();
    let h = registry.start_timer(61);
    let _ = &h;
    assert_eq!(registry.minutes_bucket_len(1), 1);

    for _ in 0..59 {
        assert!(registry.expire_timers().is_empty());
    }
    // The 60th tick wraps the seconds hand and drains the minutes bucket.
    assert!(registry.expire_timers().is_empty());
    assert_eq!(registry.minutes_bucket_len(1), 0);
    assert_eq!(registry.seconds_bucket_len(1), 1);

    assert!(registry.expire_timers().is_empty());
    assert_eq!(registry.expire_timers().len(), 1);
    assert_eq!(registry.seconds_bucket_len(1), 0);
}

#[test]
fn hour_cascade_demotes_through_minutes() {
    // A timer an hour, a minute and a second out is demoted twice: from
    // the hours wheel into the minutes wheel, then into the seconds wheel,
    // and fires from there.
    let mut registry = Registry::new();
    let h = registry.start_timer(3661);
    let _ = &h;
    assert_eq!(registry.hours_bucket_len(1), 1);

    for _ in 0..3600 {
        assert!(registry.expire_timers().is_empty());
    }
    assert_eq!(registry.hours_bucket_len(1), 0);
    assert_eq!(registry.minutes_bucket_len(1), 1);

    for _ in 0..60 {
        assert!(registry.expire_timers().is_empty());
    }
    assert_eq!(registry.minutes_bucket_len(1), 0);
    assert_eq!(registry.seconds_bucket_len(1), 1);

    assert!(registry.expire_timers().is_empty());
    assert_eq!(registry.expire_timers().len(), 1);
}

#[test]
fn cancellation_before_fire_hierarchical() {
    // A cancelled timer does not fire, through cascades included.
    let mut registry = Registry::new();
    let h = registry.start_timer(61);
    registry.stop_timer(&h);
    assert_eq!(registry.minutes_bucket_len(1), 0);
    for _ in 0..70 {
        assert!(registry.expire_timers().is_empty());
    }
}

#[test]
fn cancellation_after_demotion() {
    // A handle stays good across demotion: the cancel looks down the
    // demotion path and finds the timer in the seconds wheel.
    let mut registry = Registry::new();
    let h = registry.start_timer(61);
    for _ in 0..60 {
        assert!(registry.expire_timers().is_empty());
    }
    assert_eq!(registry.seconds_bucket_len(1), 1);
    registry.stop_timer(&h);
    assert_eq!(registry.seconds_bucket_len(1), 0);
    for _ in 0..10 {
        assert!(registry.expire_timers().is_empty());
    }
}

#[test]
fn stale_handle_is_no_op_hierarchical() {
    // Cancelling after the timer has fired changes nothing.
    let mut registry = Registry::new();
    let h = registry.start_timer(1);
    assert!(registry.expire_timers().is_empty());
    assert_eq!(registry.expire_timers().len(), 1);
    registry.stop_timer(&h);
    for _ in 0..5 {
        assert!(registry.expire_timers().is_empty());
    }
}
