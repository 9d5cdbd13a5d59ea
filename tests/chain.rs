use cometbft_playground::chain::BlockHeight;
use cometbft_playground::common::DateTimeUtc;

#[test]
fn block_height_parse() {
    assert_eq!(BlockHeight::from_str("42"), Some(BlockHeight(42)));
    assert_eq!(BlockHeight::from_str("+7"), Some(BlockHeight(7)));
    assert_eq!(BlockHeight::from_str("18446744073709551615"), Some(BlockHeight(u64::MAX)));
    assert_eq!(BlockHeight::from_str("18446744073709551616"), None);
    assert_eq!(BlockHeight::from_str("-1"), None);
    assert_eq!(BlockHeight::from_str(""), None);
    assert_eq!(BlockHeight::from_str("+"), None);
    assert_eq!(BlockHeight::from_str(" 1"), None);
}

#[test]
fn block_height_default_and_into() {
    assert_eq!(BlockHeight::default(), BlockHeight(u64::MAX));
    assert_eq!(u64::from(BlockHeight(5)), 5);
    assert!(BlockHeight(1) < BlockHeight(2));
}

#[test]
fn year_zero_and_year_9999_texts() {
    let first = DateTimeUtc::new(-62_167_219_200, 0).unwrap();
    assert_eq!(first.to_rfc3339(), "0000-01-01T00:00:00.000000000+00:00");
    let last = DateTimeUtc::new(253_402_300_799, 999_999_999).unwrap();
    assert_eq!(last.to_rfc3339(), "9999-12-31T23:59:59.999999999+00:00");
    assert_eq!(DateTimeUtc::from_rfc3339(&last.to_rfc3339()), Some(last));
    assert_eq!(DateTimeUtc::from_rfc3339(&first.to_rfc3339()), Some(first));
}
