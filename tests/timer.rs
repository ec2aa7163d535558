use columns::timer::Timer;

#[test]
fn test_timer() {
    let mut timer = Timer::from_millis(1000);
    assert!(!timer.ready());
    timer.update(500);
    assert!(!timer.ready());
    timer.update(501);
    assert!(timer.ready());
    timer.reset();
    assert!(!timer.ready());
    timer.finish();
    assert!(timer.ready());
}

#[test]
fn timer_ready_exactly_at_period() {
    let mut timer = Timer::from_millis(1000);
    assert!(!timer.update(999));
    assert_eq!(timer.remaining, 1);
    assert!(timer.update(1));
    assert_eq!(timer.remaining, 0);
}

#[test]
fn timer_update_saturates_at_zero() {
    let mut timer = Timer::from_millis(10);
    assert!(timer.update(u64::MAX));
    assert_eq!(timer.remaining, 0);
    timer.reset();
    assert_eq!(timer.remaining, 10);
    assert!(!timer.ready());
}

#[test]
fn timer_zero_period_is_not_ready_until_updated() {
    let mut timer = Timer::from_millis(0);
    assert!(!timer.ready());
    assert!(timer.update(0));
}
