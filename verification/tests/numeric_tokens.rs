use oxdna_trajectory_reader::tokens::check_float_token;
use oxdna_trajectory_reader::tokens::parse_u64_token;

#[test]
fn float_tokens_accepted() {
    for s in [
        "0", "1", "-1", "+1", "1.", ".5", "-.5", "1.25", "1e5", "1E5", "1.5e-7", "+2.E+3", "inf",
        "-inf", "Infinity", "INF", "nan", "NaN", "-NAN", "12345678901234567890",
    ] {
        assert!(check_float_token(s.as_bytes()), "{} should be accepted", s);
    }
}

#[test]
fn float_tokens_rejected() {
    for s in [
        "", ".", "-", "+", "1..2", "1.2.3", "e5", "1e", "1e+", "--1", "1x", "in", "infinit",
        "nans", "1 2", " 1", "1 ", "1,5", "=", "1e5.5",
    ] {
        assert!(!check_float_token(s.as_bytes()), "{} should be rejected", s);
    }
}

#[test]
fn u64_tokens() {
    assert_eq!(parse_u64_token(b"0"), Some(0));
    assert_eq!(parse_u64_token(b"+7"), Some(7));
    assert_eq!(parse_u64_token(b"000123"), Some(123));
    assert_eq!(parse_u64_token(b"18446744073709551615"), Some(u64::MAX));
    assert_eq!(parse_u64_token(b"18446744073709551616"), None);
    assert_eq!(parse_u64_token(b"99999999999999999999999"), None);
    assert_eq!(parse_u64_token(b""), None);
    assert_eq!(parse_u64_token(b"+"), None);
    assert_eq!(parse_u64_token(b"-1"), None);
    assert_eq!(parse_u64_token(b"1a"), None);
    assert_eq!(parse_u64_token(b"1 "), None);
}
