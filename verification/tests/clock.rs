use trading_core::clock::{ClockError, TestClock};

#[test]
fn test_new_clock() {
    let clock = TestClock::new();
    assert_eq!(clock.get_time_ns(), 0);
    assert_eq!(clock.timer_count(), 0);
    assert!(clock.timer_names().is_empty());
}

#[test]
fn test_set_time_and_units() {
    let mut clock = TestClock::new();
    clock.set_time(3_500_000_123);
    assert_eq!(clock.get_time_ns(), 3_500_000_123);
    assert_eq!(clock.get_time_us(), 3_500_000);
    assert_eq!(clock.get_time_ms(), 3_500);
}

#[test]
fn test_clock_determinism() {
    let mut clock = TestClock::new();
    clock.set_timer_ns("T1", 10, 0, None, Some(1)).unwrap();
    clock.set_time_alert_ns("A", 25, Some(2)).unwrap();

    let events = clock.advance_time(30, true);
    let summary: Vec<(&str, u64)> = events
        .iter()
        .map(|e| (e.name.as_str(), e.ts_event))
        .collect();
    assert_eq!(summary, vec![("T1", 10), ("T1", 20), ("A", 25), ("T1", 30)]);
    assert_eq!(clock.get_time_ns(), 30);

    // no event at or before 30 fires again
    let events = clock.advance_time(40, true);
    let summary: Vec<(&str, u64)> = events
        .iter()
        .map(|e| (e.name.as_str(), e.ts_event))
        .collect();
    assert_eq!(summary, vec![("T1", 40)]);
    assert_eq!(clock.get_time_ns(), 40);
}

#[test]
fn test_alert_fires_once() {
    let mut clock = TestClock::new();
    clock.set_time_alert_ns("A", 15, Some(7)).unwrap();
    assert_eq!(clock.timer_count(), 1);

    let events = clock.advance_time(20, true);
    assert_eq!(events.len(), 1);
    assert_eq!(events[0].name, "A");
    assert_eq!(events[0].ts_event, 15);
    assert_eq!(events[0].callback, 7);
    assert_eq!(clock.timer_count(), 0);

    let events = clock.advance_time(100, true);
    assert!(events.is_empty());
}

#[test]
fn test_timer_stop_time() {
    let mut clock = TestClock::new();
    clock.set_timer_ns("t", 10, 0, Some(20), Some(1)).unwrap();
    let events = clock.advance_time(50, true);
    let times: Vec<u64> = events.iter().map(|e| e.ts_event).collect();
    assert_eq!(times, vec![10, 20]);
    assert_eq!(clock.timer_count(), 0);
}

#[test]
fn test_advance_without_commit() {
    let mut clock = TestClock::new();
    clock.set_timer_ns("t", 10, 0, None, Some(1)).unwrap();
    let events = clock.advance_time(25, false);
    assert_eq!(events.len(), 2);
    assert_eq!(clock.get_time_ns(), 0);
}

#[test]
fn test_next_time_ns() {
    let mut clock = TestClock::new();
    assert_eq!(clock.next_time_ns("t"), 0);
    clock.set_timer_ns("t", 10, 5, None, Some(1)).unwrap();
    assert_eq!(clock.next_time_ns("t"), 15);
    assert_eq!(clock.next_time_ns("other"), 0);
}

#[test]
fn test_cancel_timer() {
    let mut clock = TestClock::new();
    clock.set_timer_ns("a", 10, 0, None, Some(1)).unwrap();
    clock.set_timer_ns("b", 10, 0, None, Some(1)).unwrap();
    clock.cancel_timer("a");
    assert_eq!(clock.timer_count(), 1);
    assert_eq!(clock.timer_names(), vec!["b".to_string()]);
    let events = clock.advance_time(10, true);
    assert_eq!(events.len(), 1);
    assert_eq!(events[0].name, "b");
}

#[test]
fn test_cancel_timers() {
    let mut clock = TestClock::new();
    clock.set_timer_ns("a", 10, 0, None, Some(1)).unwrap();
    clock.set_timer_ns("b", 10, 0, None, Some(1)).unwrap();
    clock.cancel_timers();
    assert_eq!(clock.timer_count(), 0);
    assert!(clock.advance_time(100, true).is_empty());
}

#[test]
fn test_replace_timer_with_same_name() {
    let mut clock = TestClock::new();
    clock.set_timer_ns("t", 10, 0, None, Some(1)).unwrap();
    clock.set_timer_ns("t", 7, 0, None, Some(2)).unwrap();
    assert_eq!(clock.timer_count(), 1);
    assert_eq!(clock.next_time_ns("t"), 7);
    let events = clock.advance_time(7, true);
    assert_eq!(events.len(), 1);
    assert_eq!(events[0].callback, 2);
}

#[test]
fn test_missing_callback_is_config_error() {
    let mut clock = TestClock::new();
    assert_eq!(
        clock.set_timer_ns("t", 10, 0, None, None),
        Err(ClockError::MissingCallback)
    );
    assert_eq!(
        clock.set_time_alert_ns("a", 5, None),
        Err(ClockError::MissingCallback)
    );
    assert_eq!(clock.timer_count(), 0);
}

#[test]
fn test_default_handler_resolves_events() {
    let mut clock = TestClock::new();
    clock.register_default_handler(42);
    clock.set_timer_ns("t", 10, 0, None, None).unwrap();
    let events = clock.advance_time(10, true);
    assert_eq!(events.len(), 1);
    assert_eq!(events[0].callback, 42);
}

#[test]
fn test_zero_interval_is_config_error() {
    let mut clock = TestClock::new();
    assert_eq!(
        clock.set_timer_ns("t", 0, 0, None, Some(1)),
        Err(ClockError::InvalidInterval)
    );
}

#[test]
fn test_stop_before_first_fire_is_config_error() {
    let mut clock = TestClock::new();
    assert_eq!(
        clock.set_timer_ns("t", 10, 0, Some(5), Some(1)),
        Err(ClockError::InvalidStop)
    );
}

#[test]
fn test_tie_broken_by_registration_order() {
    let mut clock = TestClock::new();
    clock.set_timer_ns("b", 10, 0, None, Some(1)).unwrap();
    clock.set_timer_ns("a", 10, 0, None, Some(2)).unwrap();
    let events = clock.advance_time(10, true);
    let names: Vec<&str> = events.iter().map(|e| e.name.as_str()).collect();
    assert_eq!(names, vec!["b", "a"]);
}

#[test]
fn test_get_timers() {
    let mut clock = TestClock::new();
    clock.set_timer_ns("t", 10, 5, Some(100), Some(3)).unwrap();
    let timers = clock.get_timers();
    assert_eq!(timers.len(), 1);
    assert_eq!(timers[0].name, "t");
    assert_eq!(timers[0].interval_ns, 10);
    assert_eq!(timers[0].next_time_ns, 15);
    assert_eq!(timers[0].stop_time_ns, Some(100));
    assert_eq!(timers[0].callback, Some(3));
}
