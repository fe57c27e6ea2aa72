use bitcoin_quantity::{BitcoinQuantity, Error};

#[test]
fn satoshi_round_trips_through_the_constructor() {
    assert_eq!(BitcoinQuantity::from_satoshi(0).satoshi(), 0);
    assert_eq!(BitcoinQuantity::from_satoshi(1).satoshi(), 1);
    assert_eq!(
        BitcoinQuantity::from_satoshi(100_000_000).satoshi(),
        100_000_000
    );
    assert_eq!(BitcoinQuantity::from_satoshi(u64::MAX).satoshi(), u64::MAX);
}

#[test]
fn a_bitcoin_as_string_is_a_hundred_million_and_one_sats() {
    let q = BitcoinQuantity::from_str("1.00000001").unwrap();
    assert_eq!(q.satoshi(), 100_000_001);
}

#[test]
fn bitcoin_with_small_fraction_format() {
    assert_eq!(
        BitcoinQuantity::from_str("1234.00000100").unwrap().to_string(),
        "1234.000001 BTC"
    )
}

#[test]
fn one_hundred_bitcoin_format() {
    assert_eq!(
        BitcoinQuantity::from_str("100").unwrap().to_string(),
        "100 BTC"
    )
}

#[test]
fn two_hundred_million_sats_format_as_two_bitcoin() {
    assert_eq!(
        BitcoinQuantity::from_satoshi(200_000_000).to_string(),
        "2 BTC"
    );
}

#[test]
fn one_sat_formats_with_eight_places() {
    assert_eq!(BitcoinQuantity::from_satoshi(1).to_string(), "0.00000001 BTC");
}

#[test]
fn zero_formats_without_a_point() {
    assert_eq!(BitcoinQuantity::from_satoshi(0).to_string(), "0 BTC");
}

#[test]
fn bitcoin_with_more_than_seven_decimal_places_is_rounded_on_the_ninth() {
    assert_eq!(BitcoinQuantity::from_str("0.000000495").unwrap().satoshi(), 50);
    assert_eq!(BitcoinQuantity::from_str("0.000000494").unwrap().satoshi(), 49);
    assert_eq!(BitcoinQuantity::from_str("0.0000000050").unwrap().satoshi(), 1);
    assert_eq!(BitcoinQuantity::from_str("0.0000000049").unwrap().satoshi(), 0);
}

#[test]
fn parse_accepts_bare_and_signed_decimals() {
    assert_eq!(BitcoinQuantity::from_str("100").unwrap().satoshi(), 10_000_000_000);
    assert_eq!(BitcoinQuantity::from_str("+2").unwrap().satoshi(), 200_000_000);
    assert_eq!(BitcoinQuantity::from_str("5.").unwrap().satoshi(), 500_000_000);
    assert_eq!(BitcoinQuantity::from_str(".5").unwrap().satoshi(), 50_000_000);
    assert_eq!(BitcoinQuantity::from_str("0").unwrap().satoshi(), 0);
}

#[test]
fn parse_saturates_negative_amounts_to_zero() {
    assert_eq!(BitcoinQuantity::from_str("-1.5").unwrap().satoshi(), 0);
    assert_eq!(BitcoinQuantity::from_str("-0").unwrap().satoshi(), 0);
}

#[test]
fn parse_saturates_oversized_amounts() {
    assert_eq!(
        BitcoinQuantity::from_str("999999999999999999999").unwrap().satoshi(),
        u64::MAX
    );
}

#[test]
fn parse_rejects_text_that_is_not_a_decimal() {
    assert_eq!(
        BitcoinQuantity::from_str("abc"),
        Err(Error::InvalidDecimalFormat)
    );
    assert_eq!(BitcoinQuantity::from_str(""), Err(Error::InvalidDecimalFormat));
    assert_eq!(BitcoinQuantity::from_str("."), Err(Error::InvalidDecimalFormat));
    assert_eq!(BitcoinQuantity::from_str("+"), Err(Error::InvalidDecimalFormat));
    assert_eq!(
        BitcoinQuantity::from_str("1.2.3"),
        Err(Error::InvalidDecimalFormat)
    );
    assert_eq!(
        BitcoinQuantity::from_str("1,5"),
        Err(Error::InvalidDecimalFormat)
    );
}

#[test]
fn satoshi_string_round_trip() {
    let q = BitcoinQuantity::from_satoshi(100_000_000);
    assert_eq!(q.to_satoshi_string(), "100000000");
    assert_eq!(
        BitcoinQuantity::from_satoshi_string("100000000"),
        Ok(BitcoinQuantity::from_satoshi(100_000_000))
    );
}

#[test]
fn satoshi_string_accepts_the_full_unsigned_range() {
    assert_eq!(
        BitcoinQuantity::from_satoshi_string("18446744073709551615"),
        Ok(BitcoinQuantity::from_satoshi(u64::MAX))
    );
    assert_eq!(BitcoinQuantity::from_satoshi(u64::MAX).to_satoshi_string(), "18446744073709551615");
    assert_eq!(
        BitcoinQuantity::from_satoshi_string("+5"),
        Ok(BitcoinQuantity::from_satoshi(5))
    );
}

#[test]
fn satoshi_string_rejects_non_integers() {
    assert_eq!(
        BitcoinQuantity::from_satoshi_string("abc"),
        Err(Error::InvalidSmallestUnitFormat)
    );
    assert_eq!(
        BitcoinQuantity::from_satoshi_string("1.0"),
        Err(Error::InvalidSmallestUnitFormat)
    );
    assert_eq!(
        BitcoinQuantity::from_satoshi_string("-1"),
        Err(Error::InvalidSmallestUnitFormat)
    );
    assert_eq!(
        BitcoinQuantity::from_satoshi_string(""),
        Err(Error::InvalidSmallestUnitFormat)
    );
    assert_eq!(
        BitcoinQuantity::from_satoshi_string("18446744073709551616"),
        Err(Error::InvalidSmallestUnitFormat)
    );
}

#[test]
fn add_then_sub_returns_the_original_amount() {
    let a = BitcoinQuantity::from_satoshi(700);
    let b = BitcoinQuantity::from_satoshi(42);
    assert_eq!(a.add(b).sub(b), a);
    assert_eq!(a.add(b).satoshi(), 742);
    assert_eq!(a.sub(b).satoshi(), 658);
}

#[test]
fn amounts_are_ordered_by_their_satoshi_count() {
    let one = BitcoinQuantity::from_satoshi(1);
    let two = BitcoinQuantity::from_satoshi(2);
    assert!(one < two);
    assert!(two > one);
    assert!(one <= BitcoinQuantity::from_satoshi(1));
    assert_eq!(one, BitcoinQuantity::from_satoshi(1));
    assert_ne!(one, two);
}

#[test]
fn parse_then_format_drops_trailing_zeros() {
    assert_eq!(
        BitcoinQuantity::from_str("0.10000000").unwrap().to_string(),
        "0.1 BTC"
    );
    assert_eq!(
        BitcoinQuantity::from_str("21000000").unwrap().to_string(),
        "21000000 BTC"
    );
}
