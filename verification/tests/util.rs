use chaff::util::{parse_age, parse_age_overflows, parse_size};
use std::time::Duration;

#[test]
fn parses_common_units() {
    assert_eq!(parse_age("30d").map(Duration::from_secs), Some(Duration::from_secs(30 * 86_400)));
    assert_eq!(parse_age("2w").map(Duration::from_secs), Some(Duration::from_secs(14 * 86_400)));
    assert_eq!(parse_age("6mo").map(Duration::from_secs), Some(Duration::from_secs(180 * 86_400)));
    assert_eq!(parse_age("12h").map(Duration::from_secs), Some(Duration::from_secs(12 * 3_600)));
}

#[test]
fn rejects_garbage() {
    assert_eq!(parse_age("30"), None);
    assert_eq!(parse_age("d"), None);
    assert_eq!(parse_age("abc"), None);
    assert_eq!(parse_age("30x"), None);
}

#[test]
fn parses_sizes() {
    assert_eq!(parse_size("100M"), Some(100_000_000));
    assert_eq!(parse_size("1.5G"), Some(1_500_000_000));
    assert_eq!(parse_size("500k"), Some(500_000));
    assert_eq!(parse_size("2GB"), Some(2_000_000_000));
    assert_eq!(parse_size("1024"), Some(1024));
}

#[test]
fn rejects_bad_sizes() {
    assert_eq!(parse_size("10x"), None);
    assert_eq!(parse_size("abc"), None);
    assert_eq!(parse_size(""), None);
}

#[test]
fn age_accepts_years_and_spaces() {
    assert_eq!(parse_age("1y"), Some(365 * 86_400));
    assert_eq!(parse_age("  3 d "), Some(3 * 86_400));
    assert_eq!(parse_age("0h"), Some(0));
    assert_eq!(parse_age("5D"), None);
    assert_eq!(parse_age("-3d"), None);
}

#[test]
fn age_overflow_is_detected() {
    assert!(parse_age_overflows("18446744073709551615y"));
    assert!(!parse_age_overflows("30d"));
    assert!(!parse_age_overflows("abc"));
}

#[test]
fn sizes_with_units_and_fractions() {
    assert_eq!(parse_size("2tb"), Some(2_000_000_000_000));
    assert_eq!(parse_size("0.5k"), Some(500));
    assert_eq!(parse_size(" 7 B "), Some(7));
    assert_eq!(parse_size("1.0005k"), Some(1000));
    assert_eq!(parse_size("-1M"), None);
    assert_eq!(parse_size("1e3"), None);
}
