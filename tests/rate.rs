use ustc_swap::math::{Decimal, DECIMAL_FRACTIONAL};
use ustc_swap::rate::{RateSchedule, ScheduleError};

const START: u64 = 1_571_797_419;

fn dec(numerator: u128, denominator: u128) -> Decimal {
    Decimal::checked_from_ratio(numerator, denominator).unwrap()
}

fn schedule(start_time: u64) -> RateSchedule {
    RateSchedule::new(start_time, 8_640_000, dec(15, 10), dec(25, 10)).unwrap()
}

#[test]
fn test_rate_calculation() {
    let start_time = START;
    let config = schedule(start_time);

    // At start
    let rate = config.current_rate(start_time);
    assert_eq!(rate, dec(15, 10)); // 1.5

    // At 50% (day 50)
    let rate = config.current_rate(start_time + 4_320_000);
    assert_eq!(rate, dec(20, 10)); // 2.0

    // At end
    let rate = config.current_rate(start_time + 8_640_000);
    assert_eq!(rate, dec(25, 10)); // 2.5
}

#[test]
fn rate_is_exact_at_both_ends_and_clamped_outside() {
    let s = RateSchedule::new(1000, 7, dec(1, 3), dec(17, 7)).unwrap();
    assert_eq!(s.current_rate(1000), dec(1, 3));
    assert_eq!(s.current_rate(1007), dec(17, 7));
    assert_eq!(s.current_rate(0), dec(1, 3));
    assert_eq!(s.current_rate(999), dec(1, 3));
    assert_eq!(s.current_rate(u64::MAX), dec(17, 7));
}

#[test]
fn rate_never_decreases_when_rising() {
    let s = schedule(START);
    let mut last = s.current_rate(START - 10).atomics;
    let mut t = START - 10;
    while t <= START + 8_640_000 + 10 {
        let r = s.current_rate(t).atomics;
        assert!(r >= last);
        last = r;
        t += 97_003;
    }
}

#[test]
fn rate_falls_when_end_below_start() {
    let s = RateSchedule::new(0, 100, dec(3, 1), dec(1, 1)).unwrap();
    assert_eq!(s.current_rate(0), dec(3, 1));
    assert_eq!(s.current_rate(50), dec(2, 1));
    assert_eq!(s.current_rate(100), dec(1, 1));
}

#[test]
fn rate_rounds_progress_down() {
    // One third of the way from 0 to 1: progress is 0.333...333 (18 places).
    let s = RateSchedule::new(0, 3, Decimal::raw(0), Decimal::raw(DECIMAL_FRACTIONAL)).unwrap();
    assert_eq!(s.current_rate(1).atomics, 333_333_333_333_333_333);
    assert_eq!(s.current_rate(2).atomics, 666_666_666_666_666_666);
}

#[test]
fn schedule_rejects_empty_or_overflowing_window() {
    assert_eq!(
        RateSchedule::new(5, 0, dec(1, 1), dec(2, 1)),
        Err(ScheduleError::ZeroDuration)
    );
    assert_eq!(
        RateSchedule::new(u64::MAX - 1, 2, dec(1, 1), dec(2, 1)),
        Err(ScheduleError::EndTimeOverflow)
    );
    let s = RateSchedule::new(10, 20, dec(1, 1), dec(2, 1)).unwrap();
    assert_eq!(s.end_time, 30);
    assert_eq!(s.total_seconds(), 20);
    assert_eq!(s.elapsed_seconds(5), 0);
    assert_eq!(s.elapsed_seconds(15), 5);
    assert_eq!(s.elapsed_seconds(99), 20);
}

#[test]
fn decimal_helpers() {
    assert_eq!(dec(3, 2).atomics, 1_500_000_000_000_000_000);
    assert_eq!(Decimal::checked_from_ratio(1, 0), None);
    assert_eq!(Decimal::checked_from_ratio(u128::MAX, 1), None);
    assert_eq!(dec(3, 2).checked_mul(dec(1, 2)), Some(dec(3, 4)));
    assert_eq!(Decimal::raw(u128::MAX).checked_mul(dec(2, 1)), None);
}
