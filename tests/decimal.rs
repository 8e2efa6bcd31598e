use loki_federation::decimal::{i64_text, nat_text, parse_i64};

#[test]
fn decimal_text_of_integers() {
    assert_eq!(i64_text(0), "0");
    assert_eq!(i64_text(42), "42");
    assert_eq!(i64_text(-7), "-7");
    assert_eq!(i64_text(i64::MAX), "9223372036854775807");
    assert_eq!(i64_text(i64::MIN), "-9223372036854775808");
    assert_eq!(nat_text(1234567890123456789012345678), "1234567890123456789012345678");
}

#[test]
fn decimal_reading_follows_from_str() {
    for s in ["0", "17", "-17", "+17", "007", "9223372036854775807", "-9223372036854775808", "", "-", "+", "1a", " 1", "9223372036854775808", "-9223372036854775809", "99999999999999999999"] {
        assert_eq!(parse_i64(s), s.parse::<i64>().ok(), "{}", s);
    }
}

#[test]
fn decimal_text_reads_back() {
    for n in [0i64, 1, -1, 1_700_000_000_000_000_000, i64::MIN, i64::MAX] {
        assert_eq!(parse_i64(&i64_text(n)), Some(n));
    }
}
