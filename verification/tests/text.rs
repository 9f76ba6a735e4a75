use gps_average::text::{parse_decimal, parse_signed_decimal};

#[test]
fn decimals_are_counted_in_the_units_asked_for() {
    let text = b"12.345";
    assert_eq!(parse_decimal(text, 0, text.len(), 0, u32::MAX), Some(12));
    assert_eq!(parse_decimal(text, 0, text.len(), 1, u32::MAX), Some(123));
    assert_eq!(parse_decimal(text, 0, text.len(), 3, u32::MAX), Some(12_345));
    assert_eq!(parse_decimal(text, 0, text.len(), 5, u32::MAX), Some(1_234_500));
    assert_eq!(parse_decimal(text, 0, text.len(), 8, u32::MAX), Some(1_234_500_000));
    assert_eq!(parse_decimal(text, 0, text.len(), 9, u32::MAX), None);
}

#[test]
fn only_the_bytes_between_the_bounds_are_read() {
    let text = b"ab12.5cd";
    assert_eq!(parse_decimal(text, 2, 6, 2, 10_000), Some(1_250));
    assert_eq!(parse_decimal(text, 2, 4, 2, 10_000), Some(1_200));
    assert_eq!(parse_decimal(text, 2, 5, 2, 10_000), Some(1_200));
    assert_eq!(parse_decimal(text, 1, 6, 2, 10_000), None);
    assert_eq!(parse_decimal(text, 2, 7, 2, 10_000), None);
    assert_eq!(parse_decimal(text, 2, 2, 2, 10_000), None);
    assert_eq!(parse_decimal(text, 4, 6, 2, 10_000), None);
}

#[test]
fn the_limit_is_the_largest_count_given() {
    let text = b"42.95";
    assert_eq!(parse_decimal(text, 0, 5, 2, 4_295), Some(4_295));
    assert_eq!(parse_decimal(text, 0, 5, 2, 4_294), None);
    assert_eq!(parse_decimal(text, 0, 5, 1, 429), Some(429));
    assert_eq!(parse_decimal(b"4294967295", 0, 10, 0, u32::MAX), Some(4_294_967_295));
    assert_eq!(parse_decimal(b"4294967296", 0, 10, 0, u32::MAX), None);
    assert_eq!(parse_decimal(b"99999999999999999999999999", 0, 26, 9, u32::MAX), None);
    assert_eq!(parse_decimal(b"0000000000000000000000007", 0, 25, 2, 700), Some(700));
}

#[test]
fn signs_are_read_in_front_only() {
    assert_eq!(parse_signed_decimal(b"-12.5", 0, 5, 3, 100_000), Some(-12_500));
    assert_eq!(parse_signed_decimal(b"+12.5", 0, 5, 3, 100_000), Some(12_500));
    assert_eq!(parse_signed_decimal(b"12.5", 0, 4, 3, 100_000), Some(12_500));
    assert_eq!(parse_signed_decimal(b"-100.001", 0, 8, 3, 100_000), None);
    assert_eq!(parse_signed_decimal(b"-100.0009", 0, 9, 3, 100_000), Some(-100_000));
    assert_eq!(parse_signed_decimal(b"1-2", 0, 3, 3, 100_000), None);
    assert_eq!(parse_signed_decimal(b"-", 0, 1, 3, 100_000), None);
    assert_eq!(parse_signed_decimal(b"", 0, 0, 3, 100_000), None);
    assert_eq!(parse_signed_decimal(b"+-1", 0, 3, 3, 100_000), None);
}
