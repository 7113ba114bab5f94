use reactive_core::decimal::parse_int;
use reactive_core::decimal::render_int;

#[test]
fn parses_plain_and_negative_integers() {
    assert_eq!(parse_int("42"), Some(42));
    assert_eq!(parse_int("-7"), Some(-7));
    assert_eq!(parse_int("0"), Some(0));
    assert_eq!(parse_int("042"), Some(42));
}

#[test]
fn rejects_malformed_integers() {
    assert_eq!(parse_int(""), None);
    assert_eq!(parse_int("-"), None);
    assert_eq!(parse_int("abc"), None);
    assert_eq!(parse_int("4x2"), None);
    assert_eq!(parse_int("--4"), None);
}

#[test]
fn respects_the_i64_range() {
    assert_eq!(parse_int("9223372036854775807"), Some(i64::MAX));
    assert_eq!(parse_int("9223372036854775808"), None);
    assert_eq!(parse_int("-9223372036854775808"), Some(i64::MIN));
    assert_eq!(parse_int("-9223372036854775809"), None);
    assert_eq!(parse_int("99999999999999999999999999"), None);
}

#[test]
fn renders_canonical_decimal() {
    assert_eq!(render_int(0), "0");
    assert_eq!(render_int(-5), "-5");
    assert_eq!(render_int(1234), "1234");
    assert_eq!(render_int(i64::MIN), "-9223372036854775808");
    assert_eq!(render_int(i64::MAX), "9223372036854775807");
}

#[test]
fn parse_inverts_render() {
    for v in [0i64, 1, -1, 99, -100, i64::MIN, i64::MAX] {
        assert_eq!(parse_int(&render_int(v)), Some(v));
    }
}
