use musickbeets::validation::{
    is_valid_float, is_valid_float_input, is_valid_uint_input, parse_or_zero_usize,
};

#[test]
fn test_valid_float() {
    assert!(is_valid_float("123"));
    assert!(is_valid_float("-1.5"));
    assert!(is_valid_float(""));
    assert!(!is_valid_float("abc"));
}

#[test]
fn float_input_accepts_partial_numbers() {
    assert!(is_valid_float_input(""));
    assert!(is_valid_float_input("-"));
    assert!(is_valid_float_input("12"));
    assert!(is_valid_float_input("-1."));
    assert!(is_valid_float_input("0.5"));
    assert!(is_valid_float_input("1234567.890"));
}

#[test]
fn float_input_rejects_malformed_text() {
    assert!(!is_valid_float_input(".5"));
    assert!(!is_valid_float_input("-.5"));
    assert!(!is_valid_float_input("1.2.3"));
    assert!(!is_valid_float_input("--1"));
    assert!(!is_valid_float_input("1e5"));
    assert!(!is_valid_float_input(" 1"));
}

#[test]
fn uint_input_digits_only() {
    assert!(is_valid_uint_input(""));
    assert!(is_valid_uint_input("0042"));
    assert!(!is_valid_uint_input("-1"));
    assert!(!is_valid_uint_input("4.2"));
    assert!(!is_valid_uint_input("+3"));
}

#[test]
fn parse_or_zero_usize_values() {
    assert_eq!(parse_or_zero_usize(""), 0);
    assert_eq!(parse_or_zero_usize("42"), 42);
    assert_eq!(parse_or_zero_usize("+7"), 7);
    assert_eq!(parse_or_zero_usize("007"), 7);
    assert_eq!(parse_or_zero_usize("+"), 0);
    assert_eq!(parse_or_zero_usize("-1"), 0);
    assert_eq!(parse_or_zero_usize("12a"), 0);
    assert_eq!(parse_or_zero_usize(" 12"), 0);
    let max = usize::MAX.to_string();
    assert_eq!(parse_or_zero_usize(&max), usize::MAX);
    assert_eq!(parse_or_zero_usize("99999999999999999999999"), 0);
}
