use alarm_timer::duration::{duration_to_string, parse_duration_string, ParseError};

fn invalid(token: &str) -> Result<u64, ParseError> {
    Err(ParseError::InvalidNumber { token: token.to_string() })
}

#[test]
fn plain_number_counts_minutes() {
    assert_eq!(parse_duration_string("5"), Ok(300));
    assert_eq!(parse_duration_string("0"), Ok(0));
    assert_eq!(parse_duration_string("+5"), Ok(300));
}

#[test]
fn hours_minutes_seconds() {
    assert_eq!(parse_duration_string("1:30:10"), Ok(5410));
    assert_eq!(parse_duration_string("2:05"), Ok(125));
    assert_eq!(parse_duration_string(":5"), invalid(""));
}

#[test]
fn over_range_fields_are_summed() {
    assert_eq!(parse_duration_string("1:76:99"), Ok(8259));
    assert_eq!(parse_duration_string("0:0:3600"), Ok(3600));
}

#[test]
fn fields_before_hours_are_ignored() {
    assert_eq!(parse_duration_string("2:3:4:5"), Ok(11045));
    assert_eq!(parse_duration_string("x:1:2:3"), Ok(3723));
}

#[test]
fn invalid_tokens_are_reported() {
    assert_eq!(parse_duration_string("abc"), invalid("abc"));
    assert_eq!(parse_duration_string("1:abc"), invalid("abc"));
    assert_eq!(parse_duration_string("a:b:c"), invalid("a"));
    assert_eq!(parse_duration_string("1:b:c"), invalid("b"));
    assert_eq!(parse_duration_string("-5"), invalid("-5"));
    assert_eq!(parse_duration_string("1.5"), invalid("1.5"));
}

#[test]
fn empty_fields_are_invalid() {
    assert_eq!(parse_duration_string(""), invalid(""));
    assert_eq!(parse_duration_string("1:"), invalid(""));
    assert_eq!(parse_duration_string("+"), invalid("+"));
}

#[test]
fn too_large_durations() {
    assert_eq!(parse_duration_string("18446744073709551615"), Err(ParseError::TooLarge));
    assert_eq!(parse_duration_string("5124095576030432:0:0"), Err(ParseError::TooLarge));
    assert_eq!(parse_duration_string("5124095576030431:0:15"), Ok(18446744073709551615));
    assert_eq!(parse_duration_string("5124095576030431:0:16"), Err(ParseError::TooLarge));
    assert_eq!(parse_duration_string("99999999999999999999"), invalid("99999999999999999999"));
}

#[test]
fn format_pads_to_two_digits() {
    assert_eq!(duration_to_string(0), "00:00:00");
    assert_eq!(duration_to_string(3661), "01:01:01");
    assert_eq!(duration_to_string(59), "00:00:59");
    assert_eq!(duration_to_string(3599), "00:59:59");
}

#[test]
fn format_hours_are_unbounded() {
    assert_eq!(duration_to_string(360000), "100:00:00");
    assert_eq!(duration_to_string(86400), "24:00:00");
    assert_eq!(duration_to_string(18446744073709551615), "5124095576030431:00:15");
}

#[test]
fn formatted_duration_parses_back() {
    for secs in [0u64, 1, 59, 60, 3599, 3600, 5410, 8259, 360000, 18446744073709551615] {
        assert_eq!(parse_duration_string(&duration_to_string(secs)), Ok(secs));
    }
}
