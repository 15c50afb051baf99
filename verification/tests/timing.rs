use probe::timing::{format_duration, render_duration};
use std::time::Duration;

#[test]
fn seconds_have_two_decimals() {
    assert_eq!(format_duration(Duration::from_millis(1500)), "1.50s");
}

#[test]
fn the_rendering_is_chosen_by_the_milliseconds() {
    assert_eq!(render_duration(0, "x".to_string()), "0ms");
    assert_eq!(render_duration(999, "0.99s".to_string()), "999ms");
    assert_eq!(render_duration(1000, "1.00s".to_string()), "1.00s");
    assert_eq!(render_duration(u128::MAX, "long".to_string()), "long");
}

#[test]
fn a_second_or_more_never_reads_as_milliseconds() {
    for d in [Duration::ZERO, Duration::from_millis(999), Duration::from_secs(1), Duration::MAX] {
        let text = format_duration(d);
        assert!(text.is_ascii() && text.as_bytes()[0].is_ascii_digit(), "{}", text);
        assert_eq!(text.ends_with("ms"), d < Duration::from_secs(1), "{}", text);
        assert!(text.ends_with('s'));
    }
    assert_eq!(format_duration(Duration::MAX), "18446744073709551616.00s");
}
