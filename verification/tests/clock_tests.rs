use tramtrack::clock::{current_time_of_day, parse_clock_text, time_plus_offset, SECONDS_PER_DAY};

#[test]
fn seconds_per_day_value() {
    assert_eq!(SECONDS_PER_DAY, 86400);
}

#[test]
fn parse_clock_text_accepts_valid_times() {
    assert_eq!(parse_clock_text("08:00"), Some(28800));
    assert_eq!(parse_clock_text("00:00"), Some(0));
    assert_eq!(parse_clock_text("23:59"), Some(86340));
    assert_eq!(parse_clock_text("12:34"), Some(45240));
}

#[test]
fn parse_clock_text_rejects_bad_shapes() {
    assert_eq!(parse_clock_text(""), None);
    assert_eq!(parse_clock_text("8:00"), None);
    assert_eq!(parse_clock_text("08:0"), None);
    assert_eq!(parse_clock_text("08:001"), None);
    assert_eq!(parse_clock_text("0800"), None);
    assert_eq!(parse_clock_text("08-00"), None);
    assert_eq!(parse_clock_text("ab:cd"), None);
}

#[test]
fn parse_clock_text_rejects_out_of_range_fields() {
    assert_eq!(parse_clock_text("24:00"), None);
    assert_eq!(parse_clock_text("08:60"), None);
    assert_eq!(parse_clock_text("99:99"), None);
}

#[test]
fn time_plus_offset_adds_within_day() {
    assert_eq!(time_plus_offset(28800, 120), 28920);
    assert_eq!(time_plus_offset(28800, -120), 28680);
    assert_eq!(time_plus_offset(0, 0), 0);
}

#[test]
fn time_plus_offset_wraps_around_midnight() {
    assert_eq!(time_plus_offset(86390, 20), 10);
    assert_eq!(time_plus_offset(10, -30), 86380);
    assert_eq!(time_plus_offset(0, -86400), 0);
}

#[test]
fn time_plus_offset_handles_extreme_offsets() {
    assert_eq!(time_plus_offset(0, i32::MIN), 74752);
    assert_eq!(time_plus_offset(86399, i32::MAX), 11646);
}

#[test]
fn current_time_of_day_is_a_time_of_day() {
    let t = current_time_of_day();
    assert!(t < SECONDS_PER_DAY);
}
