use grid_replay::delay::{default_delay, read_custom_delay, read_preset, CustomDelay, Preset, DEFAULT_DELAY_NANOS};
use grid_replay::time::Span;
use std::time::Duration;

fn accepted(nanos: u128) -> CustomDelay {
    CustomDelay::Accepted(Span::from_nanos(nanos).unwrap())
}

#[test]
fn the_default_delay_is_4_1_seconds() {
    assert_eq!(DEFAULT_DELAY_NANOS, 4_100_000_000);
    assert_eq!(default_delay().as_nanos(), 4_100_000_000);
    assert_eq!(default_delay().as_nanos(), Duration::from_secs_f64(4.1).as_nanos());
    assert_eq!(default_delay().secs(), 4);
    assert_eq!(default_delay().subsec_nanos(), 100_000_000);
}

#[test]
fn presets() {
    assert_eq!(read_preset("1"), Preset::Default);
    assert_eq!(read_preset("1\n"), Preset::Default);
    assert_eq!(read_preset("  1\r\n"), Preset::Default);
    assert_eq!(read_preset("2"), Preset::Custom);
    assert_eq!(read_preset("\t2 \n"), Preset::Custom);
    for answer in ["", "\n", "3", "0", "12", "21", "1 1", "one", "1.", "+1", "２", "11", "22"] {
        assert_eq!(read_preset(answer), Preset::Unrecognized, "{:?}", answer);
    }
}

#[test]
fn custom_delays_in_seconds() {
    assert_eq!(read_custom_delay("3.5\n"), accepted(3_500_000_000));
    assert_eq!(read_custom_delay("0"), accepted(0));
    assert_eq!(read_custom_delay(" 10 "), accepted(10_000_000_000));
    assert_eq!(read_custom_delay("1e-9"), accepted(1));
    assert_eq!(read_custom_delay("0.0000000004"), accepted(0));
    assert_eq!(read_custom_delay("0.0000000005"), accepted(1));
    assert_eq!(read_custom_delay("-0\n"), accepted(0));
    assert_eq!(read_custom_delay("+.25"), accepted(250_000_000));
    assert_eq!(read_custom_delay("18446744073709551615.999999999"), accepted((u64::MAX as u128 + 1) * 1_000_000_000 - 1));
}

#[test]
fn custom_delays_that_fall_back_to_the_default() {
    for answer in ["", "\n", "abc", "3,5", "3.5s", "-1", "-0.001", "nan", "NaN", "-inf", "1 2", "--1", "1e"] {
        assert_eq!(read_custom_delay(answer), CustomDelay::Rejected, "{:?}", answer);
    }
}

#[test]
fn custom_delays_that_are_no_spans() {
    for answer in ["inf", "+Infinity", "1e30", "1e400", "18446744073709551616", "18446744073709551615.9999999995"] {
        assert_eq!(read_custom_delay(answer), CustomDelay::OutOfRange, "{:?}", answer);
    }
}

#[test]
fn custom_delays_agree_with_float_durations() {
    for n in 0..5000u32 {
        let text = format!("{}.{:02}\n", n / 100, n % 100);
        let seconds: f64 = text.trim().parse().unwrap();
        let expected = Duration::from_secs_f64(seconds);
        assert_eq!(read_custom_delay(&text), accepted(expected.as_nanos()), "{:?}", text);
    }
    for text in ["abc", "-1", "nan", "inf", "1e30", "-0", "", "7"] {
        let ours = read_custom_delay(text);
        match text.trim().parse::<f64>() {
            Ok(seconds) if seconds >= 0.0 => match Duration::try_from_secs_f64(seconds) {
                Ok(d) => assert_eq!(ours, accepted(d.as_nanos()), "{:?}", text),
                Err(_) => assert_eq!(ours, CustomDelay::OutOfRange, "{:?}", text),
            },
            _ => assert_eq!(ours, CustomDelay::Rejected, "{:?}", text),
        }
    }
}
