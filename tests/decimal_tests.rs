use amortization::decimal::{parse_decimal, parse_whole};

#[test]
fn decimal_with_fraction() {
    assert_eq!(parse_decimal(b"3.5", 4, 0, 1_000_000), Some(35_000));
    assert_eq!(parse_decimal(b"200000", 6, 0, i64::MAX), Some(200_000_000_000));
    assert_eq!(parse_decimal(b".5", 4, 0, 1_000_000), Some(5_000));
    assert_eq!(parse_decimal(b"7.", 4, 0, 1_000_000), Some(70_000));
    assert_eq!(parse_decimal(b"0", 4, 0, 1_000_000), Some(0));
}

#[test]
fn decimal_extra_fraction_digits_dropped() {
    assert_eq!(parse_decimal(b"3.14159", 4, 0, 1_000_000), Some(31_415));
    assert_eq!(parse_decimal(b"2.5", 0, 0, 10), Some(2));
}

#[test]
fn decimal_malformed_refused() {
    assert_eq!(parse_decimal(b"", 4, 0, 1_000_000), None);
    assert_eq!(parse_decimal(b".", 4, 0, 1_000_000), None);
    assert_eq!(parse_decimal(b"abc", 4, 0, 1_000_000), None);
    assert_eq!(parse_decimal(b"1.2.3", 4, 0, 1_000_000), None);
    assert_eq!(parse_decimal(b"--5", 4, 0, 1_000_000), None);
    assert_eq!(parse_decimal(b"1e5", 4, 0, 1_000_000), None);
    assert_eq!(parse_decimal(b"3.9x", 0, 0, 1_000_000), None);
}

#[test]
fn decimal_above_max_refused() {
    assert_eq!(parse_decimal(b"100", 4, 0, 1_000_000), Some(1_000_000));
    assert_eq!(parse_decimal(b"100.0001", 4, 0, 1_000_000), None);
    assert_eq!(parse_decimal(b"99999999999999999999999", 0, 0, i64::MAX), None);
    assert_eq!(parse_decimal(b"9223372036854775807", 0, 0, i64::MAX), Some(i64::MAX));
    assert_eq!(parse_decimal(b"9223372036854775808", 0, 0, i64::MAX), None);
}

#[test]
fn whole_numbers() {
    assert_eq!(parse_whole(b"30", 1000), Some(30));
    assert_eq!(parse_whole(b"1000", 1000), Some(1000));
    assert_eq!(parse_whole(b"1001", 1000), None);
    assert_eq!(parse_whole(b"3.0", 1000), None);
    assert_eq!(parse_whole(b"", 1000), None);
    assert_eq!(parse_whole(b"12a", 1000), None);
}

#[test]
fn decimal_signs() {
    assert_eq!(parse_decimal(b"-200000", 6, i64::MIN, i64::MAX), Some(-200_000_000_000));
    assert_eq!(parse_decimal(b"+3.5", 4, 0, 1_000_000), Some(35_000));
    assert_eq!(parse_decimal(b"-0", 4, 0, 1_000_000), Some(0));
    assert_eq!(parse_decimal(b"-1", 4, 0, 1_000_000), None);
    assert_eq!(parse_decimal(b"-9223372036854775808", 0, i64::MIN, i64::MAX), Some(i64::MIN));
    assert_eq!(parse_decimal(b"-9223372036854775809", 0, i64::MIN, i64::MAX), None);
    assert_eq!(parse_decimal(b"-", 0, i64::MIN, i64::MAX), None);
    assert_eq!(parse_whole(b"+30", 1000), Some(30));
    assert_eq!(parse_whole(b"-30", 1000), None);
    assert_eq!(parse_whole(b"+", 1000), None);
}
