use rscheduler::timing::TaskClock;

#[test]
fn sleep_is_gap_to_cumulative_target() {
    let mut c = TaskClock::new(100);
    c.record_invocation(true);
    assert_eq!(c.sleep_ms(30), 70);
    assert_eq!(c.sleep_ms(100), 0);
    c.record_invocation(true);
    assert_eq!(c.sleep_ms(130), 70);
}

#[test]
fn overrun_clamps_to_zero_without_catch_up() {
    let mut c = TaskClock::new(50);
    c.record_invocation(true);
    assert_eq!(c.sleep_ms(80), 0);
    c.record_invocation(true);
    assert_eq!(c.sleep_ms(80), 20);
}

#[test]
fn drift_does_not_compound_over_ten_cycles() {
    let mut c = TaskClock::new(100);
    let mut elapsed: u64 = 0;
    for n in 1..=10u64 {
        assert_eq!(elapsed, 100 * (n - 1));
        c.record_invocation(true);
        elapsed += c.sleep_ms(elapsed);
    }
    assert_eq!(elapsed, 1000);
}

#[test]
fn failure_does_not_change_cadence() {
    let mut after_success = TaskClock::new(100);
    let mut after_failure = TaskClock::new(100);
    after_success.record_invocation(true);
    after_failure.record_invocation(false);
    assert_eq!(after_success.completions, after_failure.completions);
    assert_eq!(after_success.sleep_ms(25), after_failure.sleep_ms(25));
    assert_eq!(after_failure.sleep_ms(25), 75);
}

#[test]
fn sleep_saturates_at_u64_max() {
    let mut c = TaskClock::new(u64::MAX);
    c.record_invocation(true);
    c.record_invocation(true);
    assert_eq!(c.sleep_ms(0), u64::MAX);
}
