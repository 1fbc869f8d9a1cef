use pick9::codec::{u128_to_dec_string, parse_dec_u128};

#[test]
fn encodes_zero_as_single_digit() {
    assert_eq!(u128_to_dec_string(0), "0");
}

#[test]
fn encodes_large_values_without_precision_loss() {
    assert_eq!(u128_to_dec_string(9), "9");
    assert_eq!(u128_to_dec_string(10), "10");
    assert_eq!(u128_to_dec_string(1234567890), "1234567890");
    assert_eq!(
        u128_to_dec_string(u128::MAX),
        "340282366920938463463374607431768211455"
    );
}

#[test]
fn parses_digit_strings() {
    assert_eq!(parse_dec_u128("0"), Some(0));
    assert_eq!(parse_dec_u128("007"), Some(7));
    assert_eq!(
        parse_dec_u128("340282366920938463463374607431768211455"),
        Some(u128::MAX)
    );
}

#[test]
fn rejects_non_digit_strings() {
    assert_eq!(parse_dec_u128(""), None);
    assert_eq!(parse_dec_u128("12a"), None);
    assert_eq!(parse_dec_u128("-1"), None);
    assert_eq!(parse_dec_u128("+1"), None);
    assert_eq!(parse_dec_u128(" 1"), None);
}

#[test]
fn rejects_values_beyond_the_counter_width() {
    assert_eq!(parse_dec_u128("340282366920938463463374607431768211456"), None);
    assert_eq!(parse_dec_u128("9999999999999999999999999999999999999999"), None);
}

#[test]
fn number_round_trip() {
    for n in [0u128, 1, 9, 10, 99, 670, u64::MAX as u128, u128::MAX] {
        assert_eq!(parse_dec_u128(&u128_to_dec_string(n)), Some(n));
    }
}
