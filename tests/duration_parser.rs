use timer_ship::duration::{duration_from_parts, parse_duration, parse_normalized, ParseError};

#[test]
fn test_parse_milliseconds() {
    assert_eq!(parse_duration("100ms").unwrap(), 100);
    assert_eq!(parse_duration("1ms").unwrap(), 1);
}

#[test]
fn test_parse_seconds() {
    assert_eq!(parse_duration("1s").unwrap(), 1000);
    assert_eq!(parse_duration("2.5s").unwrap(), 2500);
}

#[test]
fn test_parse_minutes() {
    assert_eq!(parse_duration("1m").unwrap(), 60000);
    assert_eq!(parse_duration("1.5m").unwrap(), 90000);
}

#[test]
fn test_parse_hours() {
    assert_eq!(parse_duration("1h").unwrap(), 3600000);
    assert_eq!(parse_duration("1hr").unwrap(), 3600000);
    assert_eq!(parse_duration("1.5hr").unwrap(), 5400000);
}

#[test]
fn parse_listed_examples() {
    assert_eq!(parse_duration("100ms").unwrap(), 100);
    assert_eq!(parse_duration("2.5s").unwrap(), 2500);
    assert_eq!(parse_duration("1m").unwrap(), 60000);
    assert_eq!(parse_duration("1.5hr").unwrap(), 5400000);
    assert_eq!(parse_duration("500ms").unwrap(), 500);
    assert_eq!(parse_duration("5s").unwrap(), 5000);
    assert_eq!(parse_duration("2.5m").unwrap(), 150000);
    assert_eq!(parse_duration("0.5h").unwrap(), 1800000);
}

#[test]
fn parse_is_exact_on_decimals() {
    assert_eq!(parse_duration("2.3s").unwrap(), 2300);
    assert_eq!(parse_duration("0.1s").unwrap(), 100);
    assert_eq!(parse_duration("0.0001s").unwrap(), 0);
    assert_eq!(parse_duration("1.9999ms").unwrap(), 1);
    assert_eq!(parse_duration("0.0000166666666666666666667m").unwrap(), 1);
    assert_eq!(parse_duration("0.0000166666666666666666666m").unwrap(), 0);
}

#[test]
fn parse_numeral_forms() {
    assert_eq!(parse_duration(".5s").unwrap(), 500);
    assert_eq!(parse_duration("5.s").unwrap(), 5000);
    assert_eq!(parse_duration("+5s").unwrap(), 5000);
    assert_eq!(parse_duration("-0s").unwrap(), 0);
    assert_eq!(parse_duration("007ms").unwrap(), 7);
}

#[test]
fn parse_ignores_case_and_surrounding_space() {
    assert_eq!(parse_duration("  1.5HR \n").unwrap(), 5400000);
    assert_eq!(parse_duration("\t10S").unwrap(), 10000);
    assert_eq!(parse_duration("3Ms").unwrap(), 3);
}

#[test]
fn parse_saturates_at_the_largest_value() {
    assert_eq!(parse_duration("18446744073709551615ms").unwrap(), u64::MAX);
    assert_eq!(parse_duration("18446744073709551616ms").unwrap(), u64::MAX);
    assert_eq!(parse_duration("99999999999999999999999999h").unwrap(), u64::MAX);
    assert_eq!(parse_duration("5124095576030h").unwrap(), 18446744073708000000);
    assert_eq!(parse_duration("5124095576031h").unwrap(), u64::MAX);
}

#[test]
fn parse_rejects_malformed_texts() {
    assert!(matches!(parse_duration(""), Err(ParseError::InvalidFormat(_))));
    assert!(matches!(parse_duration("   "), Err(ParseError::InvalidFormat(_))));
    assert!(matches!(parse_duration("abc"), Err(ParseError::InvalidNumber(_))));
    assert!(matches!(parse_duration("100"), Err(ParseError::InvalidFormat(_))));
    assert!(matches!(parse_duration("10xyz"), Err(ParseError::UnknownUnit(_))));
    assert!(matches!(parse_duration("-5s"), Err(ParseError::InvalidNumber(_))));
}

#[test]
fn parse_error_details() {
    match parse_duration("") {
        Err(ParseError::InvalidFormat(m)) => assert_eq!(m, "Empty duration string"),
        other => panic!("unexpected {:?}", other),
    }
    match parse_duration("42") {
        Err(ParseError::InvalidFormat(m)) => assert_eq!(m, "No unit specified"),
        other => panic!("unexpected {:?}", other),
    }
    match parse_duration("ms") {
        Err(ParseError::InvalidNumber(m)) => assert_eq!(m, ""),
        other => panic!("unexpected {:?}", other),
    }
    match parse_duration("10XYZ") {
        Err(ParseError::UnknownUnit(m)) => assert_eq!(m, "xyz"),
        other => panic!("unexpected {:?}", other),
    }
    match parse_duration("-5s") {
        Err(ParseError::InvalidNumber(m)) => assert_eq!(m, "Duration cannot be negative"),
        other => panic!("unexpected {:?}", other),
    }
    match parse_duration("1.2.3s") {
        Err(ParseError::InvalidNumber(m)) => assert_eq!(m, "1.2.3"),
        other => panic!("unexpected {:?}", other),
    }
    match parse_duration("5 s") {
        Err(ParseError::InvalidNumber(m)) => assert_eq!(m, "5 "),
        other => panic!("unexpected {:?}", other),
    }
}

#[test]
fn parse_checks_the_number_before_the_unit() {
    assert!(matches!(parse_duration("-5xyz"), Err(ParseError::InvalidNumber(_))));
    assert!(matches!(parse_duration(".s"), Err(ParseError::InvalidNumber(_))));
    assert!(matches!(parse_duration("+ms"), Err(ParseError::InvalidNumber(_))));
}

#[test]
fn parts_are_read_exactly() {
    assert_eq!(duration_from_parts("2.5", "s").unwrap(), 2500);
    assert_eq!(duration_from_parts("1.5", "hr").unwrap(), 5400000);
    assert!(matches!(duration_from_parts("1", "sec"), Err(ParseError::UnknownUnit(_))));
    assert!(matches!(duration_from_parts("", "s"), Err(ParseError::InvalidNumber(_))));
    assert!(matches!(duration_from_parts("-1", "ms"), Err(ParseError::InvalidNumber(_))));
}

#[test]
fn normalized_text_is_not_lowered_again() {
    assert_eq!(parse_normalized("250ms").unwrap(), 250);
    assert!(matches!(parse_normalized("250MS"), Err(ParseError::UnknownUnit(_))));
    assert!(matches!(parse_normalized(" 1s"), Err(ParseError::InvalidNumber(_))));
    assert!(matches!(parse_normalized("s"), Err(ParseError::InvalidNumber(_))));
}

#[test]
fn parse_trims_unicode_white_space_only() {
    assert_eq!(parse_duration("\u{3000}5s\u{a0}").unwrap(), 5000);
    assert_eq!(parse_duration("\u{2028}\u{85}7ms\u{2009}").unwrap(), 7);
    assert!(matches!(parse_duration("\u{200b}5s"), Err(ParseError::InvalidNumber(_))));
}
