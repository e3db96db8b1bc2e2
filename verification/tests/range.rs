use logprep_core::filter::range::{is_finite_numeric_boundary, parse_int_range, parse_string_range};

#[test]
fn test_parse_int_range_valid() {
    assert_eq!(parse_int_range("0", "10"), Some((0, 10)));
    assert_eq!(parse_int_range("-10", "-1"), Some((-10, -1)));
}

#[test]
fn test_parse_int_range_invalid() {
    assert_eq!(parse_int_range("abc", "10"), None);
    assert_eq!(parse_int_range("0", "xyz"), None);
}

#[test]
fn test_is_finite_numeric_boundary() {
    assert!(is_finite_numeric_boundary("42"));
    assert!(is_finite_numeric_boundary("3.14"));
    assert!(!is_finite_numeric_boundary("nan"));
    assert!(!is_finite_numeric_boundary("inf"));
    assert!(!is_finite_numeric_boundary("abc"));
}

#[test]
fn test_parse_string_range_valid() {
    assert_eq!(parse_string_range("alpha", "zulu"), Some(("alpha".to_string(), "zulu".to_string())));
}

#[test]
fn test_parse_string_range_with_star() {
    assert_eq!(parse_string_range("*", "zulu"), None);
    assert_eq!(parse_string_range("alpha", "*"), None);
}

#[test]
fn test_parse_string_range_with_numeric() {
    assert_eq!(parse_string_range("42", "zulu"), None);
    assert_eq!(parse_string_range("alpha", "10"), None);
}

#[test]
fn finite_boundary_edge_texts() {
    // the largest finite binary64 value, and one just past it
    assert!(is_finite_numeric_boundary("1.7976931348623157e308"));
    assert!(!is_finite_numeric_boundary("1.8e308"));
    assert!(is_finite_numeric_boundary("-0"));
    assert!(is_finite_numeric_boundary("  1.5") == "  1.5".parse::<f64>().is_ok());
    assert!(is_finite_numeric_boundary("+.5e-3"));
    assert!(!is_finite_numeric_boundary("infinity"));
    assert!(!is_finite_numeric_boundary(""));
}

#[test]
fn int_range_rejects_values_beyond_i64() {
    assert_eq!(parse_int_range("0", "9223372036854775808"), None);
    assert_eq!(parse_int_range("-9223372036854775808", "9223372036854775807"), Some((i64::MIN, i64::MAX)));
}
