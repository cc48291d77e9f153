use srt_merge::time::{
    convert_line_to_times, convert_time_to_struct, empty_time, format_timestamp,
    has_overlap_times, get_min_max_times, milliseconds_to_time, time_to_milliseconds, Time,
};

fn t(hours: i32, minutes: i32, seconds: i32, milliseconds: i32) -> Time {
    Time { hours, minutes, seconds, milliseconds }
}

#[test]
fn milliseconds_round_trip() {
    for m in [0, 1, 999, 1000, 59999, 3600000, 3661001, 86400000, 2147483647] {
        let time = milliseconds_to_time(m);
        assert_eq!(time_to_milliseconds(time), m);
    }
}

#[test]
fn milliseconds_to_time_fields() {
    assert_eq!(milliseconds_to_time(3661001), t(1, 1, 1, 1));
    assert_eq!(milliseconds_to_time(0), t(0, 0, 0, 0));
    assert_eq!(milliseconds_to_time(999), t(0, 0, 0, 999));
    assert_eq!(milliseconds_to_time(60000), t(0, 1, 0, 0));
}

#[test]
fn time_to_milliseconds_formula() {
    assert_eq!(time_to_milliseconds(t(1, 2, 3, 4)), 3723004);
    assert_eq!(time_to_milliseconds(t(0, 0, 0, 0)), 0);
}

#[test]
fn parse_timestamp_ok() {
    assert_eq!(convert_time_to_struct(String::from("01:02:03,004")), Ok(t(1, 2, 3, 4)));
    assert_eq!(convert_time_to_struct(String::from("00:00:00,000")), Ok(t(0, 0, 0, 0)));
    // Denormalized and wide fields are kept as written.
    assert_eq!(convert_time_to_struct(String::from("00:90:00,000")), Ok(t(0, 90, 0, 0)));
    assert_eq!(convert_time_to_struct(String::from("123:00:00,007")), Ok(t(123, 0, 0, 7)));
    // Extra fields beyond the first three colons or second comma are ignored.
    assert_eq!(convert_time_to_struct(String::from("01:02:03:09,004")), Ok(t(1, 2, 3, 4)));
    assert_eq!(convert_time_to_struct(String::from("01:02:03,004,777")), Ok(t(1, 2, 3, 4)));
}

#[test]
fn parse_timestamp_errors() {
    // Missing millisecond field.
    assert!(convert_time_to_struct(String::from("01:02:03")).is_err());
    // Fewer than three colon-separated fields.
    assert!(convert_time_to_struct(String::from("01:02,004")).is_err());
    // Non-digit field.
    assert!(convert_time_to_struct(String::from("01:02:xx,004")).is_err());
    assert!(convert_time_to_struct(String::from("-1:02:03,004")).is_err());
    assert!(convert_time_to_struct(String::from("01:02:03,abc")).is_err());
    // Empty field.
    assert!(convert_time_to_struct(String::from(":02:03,004")).is_err());
    assert!(convert_time_to_struct(String::from("01:02:03,")).is_err());
    // Value beyond the millisecond range of the model.
    assert!(convert_time_to_struct(String::from("9999999:00:00,000")).is_err());
}

#[test]
fn format_timestamp_padding() {
    assert_eq!(format_timestamp(&t(1, 2, 3, 4)), "01:02:03,004");
    assert_eq!(format_timestamp(&t(0, 0, 0, 0)), "00:00:00,000");
    assert_eq!(format_timestamp(&t(123, 0, 0, 7)), "123:00:00,007");
    assert_eq!(format_timestamp(&t(10, 59, 59, 999)), "10:59:59,999");
}

#[test]
fn format_then_parse_is_identity() {
    for time in [t(0, 0, 0, 0), t(1, 2, 3, 4), t(595, 59, 59, 999)] {
        let text = format_timestamp(&time);
        assert_eq!(convert_time_to_struct(text), Ok(time));
    }
}

#[test]
fn parse_span_ok() {
    let r = convert_line_to_times(String::from("00:00:01,000 --> 00:00:02,500"));
    assert_eq!(r, Ok((t(0, 0, 1, 0), t(0, 0, 2, 500))));
}

#[test]
fn parse_span_errors() {
    // Separator absent.
    assert!(convert_line_to_times(String::from("00:00:01,000 - 00:00:02,500")).is_err());
    // More than two tokens.
    assert!(
        convert_line_to_times(String::from("00:00:01,000 --> 00:00:02,500 --> 00:00:03,000"))
            .is_err()
    );
    // A malformed timestamp on either side.
    assert!(convert_line_to_times(String::from("bad --> 00:00:02,500")).is_err());
    assert!(convert_line_to_times(String::from("00:00:01,000 --> bad")).is_err());
}

#[test]
fn empty_time_is_zero() {
    let (a, b) = empty_time();
    assert_eq!(a, t(0, 0, 0, 0));
    assert_eq!(b, t(0, 0, 0, 0));
}

#[test]
fn overlap_at_shared_boundary() {
    // Touching endpoints count as overlap.
    let a = (t(0, 0, 0, 0), t(0, 0, 5, 0));
    let b = (t(0, 0, 5, 0), t(0, 0, 10, 0));
    assert!(has_overlap_times(a, b));
    let merged = get_min_max_times(a, b);
    assert_eq!(merged.0, t(0, 0, 0, 0));
    assert_eq!(merged.1, t(0, 0, 10, 0));
}

#[test]
fn no_overlap_when_disjoint() {
    let a = (t(0, 0, 0, 0), t(0, 0, 2, 0));
    let b = (t(0, 0, 3, 0), t(0, 0, 5, 0));
    assert!(!has_overlap_times(a, b));
}

#[test]
fn overlap_contained_span() {
    let a = (t(0, 0, 0, 0), t(0, 0, 10, 0));
    let b = (t(0, 0, 2, 0), t(0, 0, 3, 0));
    assert!(has_overlap_times(a, b));
}

#[test]
fn min_max_times_normalizes() {
    let a = (t(0, 0, 1, 0), t(0, 90, 0, 0));
    let b = (t(0, 0, 0, 500), t(0, 61, 0, 0));
    let merged = get_min_max_times(a, b);
    assert_eq!(merged.0, t(0, 0, 0, 500));
    assert_eq!(merged.1, t(1, 30, 0, 0));
}
