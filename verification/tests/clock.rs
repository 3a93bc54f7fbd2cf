use transcript::clock::{format_clock_value, format_srt_value, ClockScale};
use transcript::decimal::{decimal_width, digit_of, push_decimal, push_zero_padded, value_of_digit};

fn ms_of(stamp: &str) -> u64 {
    let (clock, ms) = stamp.split_once(',').unwrap();
    let mut parts = clock.split(':');
    let h: u64 = parts.next().unwrap().parse().unwrap();
    let m: u64 = parts.next().unwrap().parse().unwrap();
    let s: u64 = parts.next().unwrap().parse().unwrap();
    assert!(parts.next().is_none());
    ((h * 60 + m) * 60 + s) * 1000 + ms.parse::<u64>().unwrap()
}

#[test]
fn clock_values_at_every_scale() {
    assert_eq!(format_clock_value(10, None), "0:00.01");
    assert_eq!(format_clock_value(10, Some(ClockScale::Seconds)), "0.01");
    assert_eq!(format_clock_value(10, Some(ClockScale::Minutes)), "0:00.01");
    assert_eq!(format_clock_value(10, Some(ClockScale::Hours)), "0:00:00.01");
    assert_eq!(format_clock_value(1000, None), "0:01.00");
    assert_eq!(format_clock_value(1000, Some(ClockScale::Seconds)), "1.00");
    assert_eq!(format_clock_value(1000, Some(ClockScale::Hours)), "0:00:01.00");
    assert_eq!(format_clock_value(60_000, None), "1:00.00");
    assert_eq!(format_clock_value(60_000, Some(ClockScale::Seconds)), "60.00");
    assert_eq!(format_clock_value(60_000, Some(ClockScale::Hours)), "0:01:00.00");
    assert_eq!(format_clock_value(3_600_000, Some(ClockScale::Seconds)), "3600.00");
    assert_eq!(format_clock_value(3_600_000, Some(ClockScale::Minutes)), "60:00.00");
    assert_eq!(format_clock_value(3_600_000, Some(ClockScale::Hours)), "1:00:00.00");
}

#[test]
fn clock_values_without_a_scale_are_in_minutes() {
    assert_eq!(format_clock_value(3_600_000, None), "60:00.00");
    assert_eq!(format_clock_value(3_661_250, None), "61:01.25");
}

#[test]
fn clock_values_cut_the_odd_milliseconds_off() {
    assert_eq!(format_clock_value(1999, Some(ClockScale::Seconds)), "1.99");
    assert_eq!(format_clock_value(9, Some(ClockScale::Seconds)), "0.00");
    assert_eq!(format_clock_value(u32::MAX, Some(ClockScale::Hours)), "1193:02:47.29");
}

#[test]
fn srt_timestamps_are_padded() {
    assert_eq!(format_srt_value(0), "00:00:00,000");
    assert_eq!(format_srt_value(3_661_250), "01:01:01,250");
    assert_eq!(format_srt_value(3_662_000), "01:01:02,000");
    assert_eq!(format_srt_value(7), "00:00:00,007");
    assert_eq!(format_srt_value(359_999_999), "99:59:59,999");
    assert_eq!(format_srt_value(360_000_000), "100:00:00,000");
    assert_eq!(format_srt_value(u32::MAX), "1193:02:47,295");
}

#[test]
fn srt_timestamps_read_back_as_what_was_written() {
    let samples = [
        0u32, 1, 9, 10, 99, 100, 999, 1000, 1001, 59_999, 60_000, 3_599_999, 3_600_000,
        3_661_250, 86_399_999, 359_999_999, 360_000_000, 1_234_567_890, u32::MAX - 1, u32::MAX,
    ];
    for ms in samples {
        assert_eq!(ms_of(&format_srt_value(ms)), ms as u64);
    }
    let mut ms: u32 = 0;
    while ms < 4_000_000_000 {
        assert_eq!(ms_of(&format_srt_value(ms)), ms as u64);
        ms += 7_654_321;
    }
}

#[test]
fn decimal_notation_of_numbers() {
    let mut out = String::from("n=");
    push_decimal(&mut out, 0);
    assert_eq!(out, "n=0");
    push_decimal(&mut out, 1234567890);
    assert_eq!(out, "n=01234567890");
    let mut big = String::new();
    push_decimal(&mut big, u64::MAX);
    assert_eq!(big, "18446744073709551615");
    assert_eq!(decimal_width(0), 1);
    assert_eq!(decimal_width(9), 1);
    assert_eq!(decimal_width(10), 2);
    assert_eq!(decimal_width(u64::MAX), 20);
}

#[test]
fn zero_padding_fills_up_and_never_cuts() {
    let mut out = String::new();
    push_zero_padded(&mut out, 7, 3);
    assert_eq!(out, "007");
    push_zero_padded(&mut out, 1234, 2);
    assert_eq!(out, "0071234");
    push_zero_padded(&mut out, 0, 0);
    assert_eq!(out, "00712340");
}

#[test]
fn digits_and_their_values() {
    for d in 0u8..10 {
        let c = digit_of(d);
        assert_eq!(c, char::from_digit(d as u32, 10).unwrap());
        assert_eq!(value_of_digit(c), Some(d));
    }
    assert_eq!(value_of_digit('a'), None);
    assert_eq!(value_of_digit('/'), None);
    assert_eq!(value_of_digit(':'), None);
    assert_eq!(value_of_digit('٣'), None);
}
