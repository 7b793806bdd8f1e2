use laim::dec::{parse_or, parse_u128, parse_u32};
use laim::history::GridConfig;

#[test]
fn parse_u32_reads_decimal_text() {
    assert_eq!(parse_u32(b"0"), Some(0));
    assert_eq!(parse_u32(b"12"), Some(12));
    assert_eq!(parse_u32(b"007"), Some(7));
    assert_eq!(parse_u32(b"4294967295"), Some(u32::MAX));
}

#[test]
fn parse_u32_rejects_bad_text() {
    assert_eq!(parse_u32(b""), None);
    assert_eq!(parse_u32(b"-1"), None);
    assert_eq!(parse_u32(b"1x"), None);
    assert_eq!(parse_u32(b" 3"), None);
    assert_eq!(parse_u32(b"4294967296"), None);
}

#[test]
fn parse_u128_reads_wide_values() {
    assert_eq!(parse_u128(b"340282366920938463463374607431768211455"), Some(u128::MAX));
    assert_eq!(parse_u128(b"340282366920938463463374607431768211456"), None);
    assert_eq!(parse_u128(b"98765432109876543210"), Some(98765432109876543210));
}

#[test]
fn stored_values_fall_back_on_garbage() {
    assert_eq!(parse_or(b"5", 3), 5);
    assert_eq!(parse_or(b"", 3), 3);
    assert_eq!(parse_or(b"five", 3), 3);
    assert_eq!(parse_or(b"12.5", 2), 2);
}

#[test]
fn sanitize_raises_values_to_their_minimums() {
    let c = GridConfig::sanitize(0, 1, 0);
    assert_eq!((c.rows, c.columns, c.active), (2, 2, 1));
    let c2 = GridConfig::sanitize(7, 4, 3);
    assert_eq!((c2.rows, c2.columns, c2.active), (7, 4, 3));
}
