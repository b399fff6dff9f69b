use gambit::clock_text::{format_clock_timestamp, is_move_number_token, is_result_token, parse_clk_comment, parse_clock_timestamp};

#[test]
fn timestamps_format_as_hours_minutes_seconds() {
    assert_eq!(format_clock_timestamp(179_000), "0:02:59");
    assert_eq!(format_clock_timestamp(3_723_999), "1:02:03");
    assert_eq!(format_clock_timestamp(-5), "0:00:00");
}

#[test]
fn timestamps_parse_back() {
    assert_eq!(parse_clock_timestamp("0:02:59"), Some(179_000));
    assert_eq!(parse_clock_timestamp("1:02:03.5"), Some(3_723_500));
    assert_eq!(parse_clock_timestamp("0:02"), None);
    assert_eq!(parse_clock_timestamp("0:02:59:1"), None);
    assert_eq!(parse_clock_timestamp("a:02:59"), None);
}

#[test]
fn clk_comments_are_found_inside_other_text() {
    assert_eq!(parse_clk_comment("[%clk 0:02:50]"), Some(170_000));
    assert_eq!(parse_clk_comment("good move [%clk   0:00:07.1] maybe"), Some(7_100));
    assert_eq!(parse_clk_comment("no clock"), None);
}

#[test]
fn move_numbers_and_results_are_recognized() {
    assert!(is_move_number_token("1."));
    assert!(is_move_number_token("12..."));
    assert!(!is_move_number_token("1"));
    assert!(!is_move_number_token(".1"));
    assert!(!is_move_number_token("e4"));
    assert!(is_result_token("1-0"));
    assert!(is_result_token("1/2-1/2"));
    assert!(is_result_token("*"));
    assert!(!is_result_token("1-1"));
}
