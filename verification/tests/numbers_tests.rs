use wikiscraper::numbers::parse_u32;
use wikiscraper::numbers::to_decimal;
use wikiscraper::numbers::validate_u32;

#[test]
fn parse_plain_number() {
    assert_eq!(parse_u32("123"), Some(123));
    assert_eq!(parse_u32("0"), Some(0));
}

#[test]
fn parse_with_leading_plus() {
    assert_eq!(parse_u32("+7"), Some(7));
}

#[test]
fn parse_rejects_non_numerals() {
    assert_eq!(parse_u32(""), None);
    assert_eq!(parse_u32("+"), None);
    assert_eq!(parse_u32("12a"), None);
    assert_eq!(parse_u32("-3"), None);
    assert_eq!(parse_u32("1 2"), None);
}

#[test]
fn parse_respects_the_32_bit_bound() {
    assert_eq!(parse_u32("4294967295"), Some(u32::MAX));
    assert_eq!(parse_u32("4294967296"), None);
    assert_eq!(parse_u32("99999999999999999999"), None);
}

#[test]
fn validate_accepts_and_rejects() {
    assert_eq!(validate_u32("17".to_string()), Ok(()));
    assert_eq!(
        validate_u32("seventeen".to_string()),
        Err("not a positive integer".to_string())
    );
}

#[test]
fn decimal_rendering() {
    assert_eq!(to_decimal(0), "0");
    assert_eq!(to_decimal(7), "7");
    assert_eq!(to_decimal(507), "507");
    assert_eq!(to_decimal(4294967295), "4294967295");
}
