use kitaebot::duty::schedule::{
    is_interval_readable, parse_daily, parse_every, read_interval, read_time, time_fault,
    IntervalFault, Schedule, DAY,
};

#[test]
fn parse_every_accepts_each_unit() {
    assert_eq!(parse_every("90s").unwrap(), 90);
    assert_eq!(parse_every("30m").unwrap(), 1_800);
    assert_eq!(parse_every("1h").unwrap(), 3_600);
    assert_eq!(parse_every("1d").unwrap(), DAY);
}

#[test]
fn parse_every_rejects_garbage() {
    for s in ["", "m", "10", "10x", "-5m", "0h"] {
        assert!(is_interval_readable(s));
        assert!(parse_every(s).is_err(), "{s:?} must be rejected");
    }
}

#[test]
fn an_interval_with_a_wide_unit_is_rejected() {
    assert!(is_interval_readable("5µ"));
    assert!(parse_every("5µ").is_err());
}

#[test]
fn parse_daily_accepts_hh_mm() {
    assert_eq!(parse_daily("00:00").unwrap(), 0);
    assert_eq!(parse_daily("06:00").unwrap(), 6 * 3_600);
    assert_eq!(parse_daily("23:59").unwrap(), 23 * 3_600 + 59 * 60);
}

#[test]
fn parse_daily_rejects_garbage() {
    for s in ["", "6:00", "06:0", "24:00", "12:60", "noon", "06-00"] {
        assert!(parse_daily(s).is_err(), "{s:?} must be rejected");
    }
}

#[test]
fn no_recorded_run_is_due_now() {
    assert_eq!(Schedule::Every(3_600).next_due(None, 1_000), 1_000);
    assert_eq!(Schedule::Daily(0).next_due(None, 1_000), 1_000);
}

#[test]
fn every_is_due_one_period_after_last_run() {
    let s = Schedule::Every(1_800);
    assert_eq!(s.next_due(Some(10_000), 10_100), 11_800);
}

#[test]
fn daily_is_due_at_next_occurrence_after_last_run() {
    let six = Schedule::Daily(6 * 3_600);
    // Ran at 03:00; due today at 06:00.
    let last = 10 * DAY + 3 * 3_600;
    assert_eq!(six.next_due(Some(last), last), 10 * DAY + 6 * 3_600);
    // Ran at 06:00 exactly; due tomorrow, not again today.
    let last = 10 * DAY + 6 * 3_600;
    assert_eq!(six.next_due(Some(last), last), 11 * DAY + 6 * 3_600);
    // Ran at 09:00; due tomorrow at 06:00.
    let last = 10 * DAY + 9 * 3_600;
    assert_eq!(six.next_due(Some(last), last), 11 * DAY + 6 * 3_600);
}

#[test]
fn restart_preserves_phase() {
    let six = Schedule::Daily(6 * 3_600);
    let last = 10 * DAY + 6 * 3_600;
    let restart_now = 10 * DAY + 14 * 3_600;
    let due = six.next_due(Some(last), restart_now);
    assert_eq!(due, 11 * DAY + 6 * 3_600);
    assert!(due > restart_now, "must not fire at restart");
}

#[test]
fn overdue_by_many_periods_is_one_catch_up() {
    let six = Schedule::Daily(6 * 3_600);
    let last = 10 * DAY + 6 * 3_600;
    let now = 13 * DAY + 12 * 3_600;
    assert!(six.next_due(Some(last), now) <= now, "must be due");
    let after_run = six.next_due(Some(now), now);
    assert_eq!(after_run, 14 * DAY + 6 * 3_600);
}

#[test]
fn clock_backward_is_not_due() {
    let s = Schedule::Every(3_600);
    // now < last_run: next_due is in the (apparent) future.
    assert!(s.next_due(Some(10_000), 8_000) > 8_000);
}

#[test]
fn interval_faults_are_told_apart() {
    assert_eq!(read_interval("m"), Err(IntervalFault::Number));
    assert_eq!(read_interval("10x"), Err(IntervalFault::Unit));
    assert_eq!(read_interval("0h"), Err(IntervalFault::Zero));
    assert_eq!(
        parse_every("10x").unwrap_err(),
        "invalid interval unit in \"10x\": expected s|m|h|d"
    );
    assert_eq!(
        IntervalFault::Number.message("\"m\""),
        "invalid interval \"m\": expected <number><s|m|h|d>"
    );
    assert_eq!(IntervalFault::Zero.message("\"0h\""), "interval \"0h\" must be positive");
}

#[test]
fn an_interval_past_the_range_is_not_readable() {
    assert!(!is_interval_readable("18446744073709551615d"));
    assert!(is_interval_readable("18446744073709551615s"));
}

#[test]
fn times_are_read_to_the_minute() {
    assert_eq!(read_time("01:02"), Some(3_720));
    assert_eq!(read_time("1:02"), None);
    for s in ["+6:00", "06:+5", "-6:00", "0６:00", "24:00", "06:60"] {
        assert_eq!(read_time(s), None, "{s:?}");
    }
    assert!(parse_daily("noon").unwrap_err().contains("\"noon\""));
    assert!(time_fault("\"noon\"").contains("\"noon\""));
}

#[test]
fn a_due_time_past_the_clock_is_not_reachable() {
    assert!(Schedule::Every(u64::MAX).is_reachable(None, 5));
    assert!(Schedule::Every(u64::MAX - 10).is_reachable(Some(10), 20));
    assert!(!Schedule::Every(u64::MAX - 10).is_reachable(Some(11), 20));
    assert!(Schedule::Daily(60).is_reachable(Some(1_000_000), 20));
    assert!(!Schedule::Daily(60).is_reachable(Some(u64::MAX), 20));
}
