use srt_merge::text::{format_number, parse_digits, str_remove_all, str_split_lines, str_split_str};

#[test]
fn format_number_pads_to_width() {
    assert_eq!(format_number(5, 2), "05");
    assert_eq!(format_number(0, 3), "000");
    assert_eq!(format_number(123, 2), "123");
    assert_eq!(format_number(7, 0), "7");
    assert_eq!(format_number(2147483647, 2), "2147483647");
}

#[test]
fn parse_digits_reads_values() {
    assert_eq!(parse_digits("0"), Some(0));
    assert_eq!(parse_digits("007"), Some(7));
    assert_eq!(parse_digits("2147483647"), Some(2147483647));
}

#[test]
fn parse_digits_rejects_bad_fields() {
    assert_eq!(parse_digits(""), None);
    assert_eq!(parse_digits("12a"), None);
    assert_eq!(parse_digits("-5"), None);
    assert_eq!(parse_digits("+5"), None);
    // One past the largest representable value.
    assert_eq!(parse_digits("2147483648"), None);
    assert_eq!(parse_digits("99999999999999999999999999"), None);
}

#[test]
fn remove_all_scans_left_to_right() {
    assert_eq!(str_remove_all("abcabc", "abc"), "");
    assert_eq!(str_remove_all("xabcy", "abc"), "xy");
    assert_eq!(str_remove_all("aaa", "aa"), "a");
    assert_eq!(str_remove_all("none", "abc"), "none");
}

#[test]
fn split_lines_drops_only_trailing_newline() {
    assert_eq!(str_split_lines(""), Vec::<String>::new());
    assert_eq!(str_split_lines("a\nb\n"), vec!["a", "b"]);
    assert_eq!(str_split_lines("a\nb"), vec!["a", "b"]);
    assert_eq!(str_split_lines("a\n\nb\n"), vec!["a", "", "b"]);
    assert_eq!(str_split_lines("\n"), vec![""]);
}

#[test]
fn split_str_keeps_empty_fields() {
    assert_eq!(str_split_str("a --> b", " --> "), vec!["a", "b"]);
    assert_eq!(str_split_str("a --> b --> c", " --> "), vec!["a", "b", "c"]);
    assert_eq!(str_split_str("no separator", " --> "), vec!["no separator"]);
    assert_eq!(str_split_str(" --> ", " --> "), vec!["", ""]);
}
