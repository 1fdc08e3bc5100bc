use grid_replay::number::{parse_number, Number};
use grid_replay::time::{magnitude_span, offset_of_millis, Offset, Span, NANOS_PER_MILLI, NANOS_PER_SEC, SPAN_LIMIT};
use std::time::Duration;

fn number(s: &str) -> Number {
    parse_number(&s.chars().collect()).unwrap()
}

fn due_nanos(millis: &str) -> Option<u128> {
    match offset_of_millis(&number(millis)) {
        Offset::At(span) => Some(span.as_nanos()),
        Offset::Unreachable => None,
    }
}

#[test]
fn units() {
    assert_eq!(NANOS_PER_SEC, 1_000_000_000);
    assert_eq!(NANOS_PER_MILLI, 1_000_000);
    assert_eq!(SPAN_LIMIT, (u64::MAX as u128 + 1) * 1_000_000_000);
}

#[test]
fn spans_from_parts() {
    let s = Span::from_parts(3, 250_000_000).unwrap();
    assert_eq!(s.as_nanos(), 3_250_000_000);
    assert_eq!(s.secs(), 3);
    assert_eq!(s.subsec_nanos(), 250_000_000);
    assert_eq!(Span::from_parts(0, 0), Some(Span::zero()));
    assert_eq!(Span::from_parts(0, 1_000_000_000), None);
    assert_eq!(Span::from_parts(7, u32::MAX), None);
    let longest = Span::from_parts(u64::MAX, 999_999_999).unwrap();
    assert_eq!(longest.as_nanos(), SPAN_LIMIT - 1);
    assert_eq!(longest.secs(), u64::MAX);
    assert_eq!(longest.subsec_nanos(), 999_999_999);
}

#[test]
fn spans_from_nanos() {
    assert_eq!(Span::from_nanos(0), Some(Span::zero()));
    assert_eq!(Span::from_nanos(1_500_000_000), Span::from_parts(1, 500_000_000));
    assert!(Span::from_nanos(SPAN_LIMIT - 1).is_some());
    assert_eq!(Span::from_nanos(SPAN_LIMIT), None);
    assert_eq!(Span::from_nanos(u128::MAX), None);
}

#[test]
fn spans_agree_with_durations() {
    for (secs, nanos) in [(0u64, 0u32), (1, 1), (4, 100_000_000), (u64::MAX, 999_999_999)] {
        let d = Duration::new(secs, nanos);
        let s = Span::from_parts(d.as_secs(), d.subsec_nanos()).unwrap();
        assert_eq!(s.as_nanos(), d.as_nanos());
        assert_eq!(Duration::new(s.secs(), s.subsec_nanos()), d);
    }
}

#[test]
fn what_remains_of_a_span() {
    let target = Span::from_nanos(2_500_000_000).unwrap();
    assert_eq!(target.remaining(Span::zero()), Some(target));
    assert_eq!(target.remaining(Span::from_nanos(1_000_000_000).unwrap()), Span::from_nanos(1_500_000_000));
    assert_eq!(target.remaining(Span::from_nanos(2_499_999_999).unwrap()), Span::from_nanos(1));
    assert_eq!(target.remaining(target), None);
    assert_eq!(target.remaining(Span::from_nanos(9_000_000_000).unwrap()), None);
    assert_eq!(Span::zero().remaining(Span::zero()), None);
}

#[test]
fn milliseconds_are_a_thousandth_of_a_second() {
    assert_eq!(due_nanos("0"), Some(0));
    assert_eq!(due_nanos("1000"), Some(1_000_000_000));
    assert_eq!(due_nanos("2500"), Some(2_500_000_000));
    assert_eq!(due_nanos("100"), Some(100_000_000));
    assert_eq!(due_nanos("33.3"), Some(33_300_000));
    assert_eq!(due_nanos("0.000001"), Some(1));
    assert_eq!(due_nanos("1e-6"), Some(1));
    assert_eq!(due_nanos("1.5e3"), Some(1_500_000_000));
    assert_eq!(due_nanos("+12.25"), Some(12_250_000));
}

#[test]
fn milliseconds_round_to_the_nearest_nanosecond() {
    assert_eq!(due_nanos("0.0000004"), Some(0));
    assert_eq!(due_nanos("0.0000005"), Some(1));
    assert_eq!(due_nanos("0.00000049999999999999999999"), Some(0));
    assert_eq!(due_nanos("0.0000015"), Some(2));
    assert_eq!(due_nanos("0.0000025"), Some(3));
    assert_eq!(due_nanos("7.0000014"), Some(7_000_001));
    assert_eq!(due_nanos("1e-400"), Some(0));
}

#[test]
fn times_that_no_clock_reaches() {
    assert_eq!(due_nanos("-1"), None);
    assert_eq!(due_nanos("-0.0000001"), None);
    assert_eq!(due_nanos("-1e-400"), None);
    assert_eq!(due_nanos("nan"), None);
    assert_eq!(due_nanos("inf"), None);
    assert_eq!(due_nanos("-inf"), None);
    assert_eq!(due_nanos("1e400"), None);
    assert_eq!(due_nanos("1e30"), None);
    assert_eq!(due_nanos("-0"), Some(0));
    assert_eq!(due_nanos("-0.000e7"), Some(0));
}

#[test]
fn the_longest_time_is_just_below_two_to_the_64_seconds() {
    assert_eq!(due_nanos("18446744073709551615999.999999"), Some(SPAN_LIMIT - 1));
    assert_eq!(due_nanos("18446744073709551615999.9999994"), Some(SPAN_LIMIT - 1));
    assert_eq!(due_nanos("18446744073709551615999.9999995"), None);
    assert_eq!(due_nanos("18446744073709551616000"), None);
    assert_eq!(due_nanos("18446744073709551616e3"), None);
    assert_eq!(due_nanos("18446744073709551615e3"), Some(SPAN_LIMIT - 1_000_000_000));
}

#[test]
fn milliseconds_agree_with_float_durations() {
    for n in 0..20_000u64 {
        let text = format!("{}.{:03}", n / 8, (n % 8) * 125);
        let millis: f64 = text.parse().unwrap();
        let expected = Duration::try_from_secs_f64(millis / 1000.0).unwrap();
        assert_eq!(due_nanos(&text), Some(expected.as_nanos()), "{}", text);
    }
    for text in ["100", "2500", "33.3", "16.67", "999999.999", "0.1", "1234567.891", "86400000"] {
        let millis: f64 = text.parse().unwrap();
        let expected = Duration::try_from_secs_f64(millis / 1000.0).unwrap();
        assert_eq!(due_nanos(text), Some(expected.as_nanos()), "{}", text);
    }
    for text in ["-1", "nan", "inf", "1e400", "1e30"] {
        let millis: f64 = text.parse().unwrap();
        assert!(Duration::try_from_secs_f64(millis / 1000.0).is_err());
        assert_eq!(due_nanos(text), None);
    }
}

#[test]
fn magnitudes_leave_the_sign_out() {
    let d = match number("-1.5") {
        Number::Finite(d) => d,
        _ => unreachable!(),
    };
    assert_eq!(magnitude_span(&d, NANOS_PER_SEC), Span::from_nanos(1_500_000_000));
    assert_eq!(magnitude_span(&d, 1), Span::from_nanos(2));
    assert_eq!(magnitude_span(&d, 0), Some(Span::zero()));
}
