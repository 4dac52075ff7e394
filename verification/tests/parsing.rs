//! The record grammar: one comma-separated line of `type, client, tx,
//! amount`, whitespace trimmed, amounts with up to four fractional digits.

use athanasia::models::parse::{parse_amount, parse_record, parse_uint, serialize_amount, trim_bytes};
use athanasia::models::transaction::TransactionType;

#[test]
fn parses_a_deposit_record() {
    let t = parse_record(b"deposit,1,1,1.0").unwrap();
    assert!(matches!(t.transaction_type(), TransactionType::Deposit));
    assert_eq!(t.client(), 1);
    assert_eq!(t.tx(), 1);
    assert_eq!(t.amount(), Some(10_000));
}

#[test]
fn parses_a_padded_withdrawal_record() {
    let t = parse_record(b"  withdrawal ,\t2 , 7 , 0.5  ").unwrap();
    assert!(matches!(t.transaction_type(), TransactionType::Withdrawal));
    assert_eq!(t.client(), 2);
    assert_eq!(t.tx(), 7);
    assert_eq!(t.amount(), Some(5_000));
}

#[test]
fn parses_dispute_with_blank_or_missing_amount() {
    let t = parse_record(b"dispute,1,4,").unwrap();
    assert!(matches!(t.transaction_type(), TransactionType::Dispute));
    assert_eq!(t.amount(), None);
    let t = parse_record(b"resolve,1,4").unwrap();
    assert!(matches!(t.transaction_type(), TransactionType::Resolve));
    assert_eq!(t.amount(), None);
    let t = parse_record(b"chargeback,1,4").unwrap();
    assert!(matches!(t.transaction_type(), TransactionType::Chargeback));
}

#[test]
fn header_line_does_not_parse() {
    assert!(parse_record(b"type,client,tx,amount").is_err());
}

#[test]
fn bad_records_do_not_parse() {
    assert!(parse_record(b"").is_err());
    assert!(parse_record(b"deposit,1").is_err());
    assert!(parse_record(b"gift,1,1,1.0").is_err());
    assert!(parse_record(b"Deposit,1,1,1.0").is_err());
    assert!(parse_record(b"deposit,70000,1,1.0").is_err());
    assert!(parse_record(b"deposit,1,4294967296,1.0").is_err());
    assert!(parse_record(b"deposit,1,1,").is_err());
    assert!(parse_record(b"deposit,1,1").is_err());
    assert!(parse_record(b"deposit,1,1,1.0,extra").is_err());
    assert!(parse_record(b"dispute,1,1,3.0").is_err());
}

#[test]
fn amounts_with_more_than_four_fraction_digits_do_not_parse() {
    assert!(parse_record(b"deposit,1,1,1.00000").is_err());
}

#[test]
fn negative_amounts_do_not_parse() {
    assert!(parse_record(b"deposit,1,1,-1.0").is_err());
}

#[test]
fn amount_values_are_scaled_to_ten_thousandths() {
    assert_eq!(parse_amount(b"1"), Some(10_000));
    assert_eq!(parse_amount(b"0.0001"), Some(1));
    assert_eq!(parse_amount(b"2.5"), Some(25_000));
    assert_eq!(parse_amount(b"12345.6789"), Some(123_456_789));
    assert_eq!(parse_amount(b"0"), Some(0));
    assert_eq!(parse_amount(b""), None);
    assert_eq!(parse_amount(b"1.2.3"), None);
    assert_eq!(parse_amount(b".5"), None);
    assert_eq!(parse_amount(b"1."), None);
    assert_eq!(parse_amount(b"922337203685477.5807"), Some(i64::MAX));
    assert_eq!(parse_amount(b"922337203685477.5808"), None);
}

#[test]
fn uint_fields_respect_their_bound() {
    assert_eq!(parse_uint(b"007", 65_535), Some(7));
    assert_eq!(parse_uint(b"65535", 65_535), Some(65_535));
    assert_eq!(parse_uint(b"65536", 65_535), None);
    assert_eq!(parse_uint(b"12a", 65_535), None);
    assert_eq!(parse_uint(b"", 65_535), None);
}

#[test]
fn trimming_strips_only_the_edges() {
    assert_eq!(trim_bytes(b"  a b\t"), b"a b".to_vec());
    assert_eq!(trim_bytes(b" \t\r "), Vec::<u8>::new());
    assert_eq!(trim_bytes(b"x"), b"x".to_vec());
}

#[test]
fn amounts_format_with_four_fraction_digits() {
    assert_eq!(serialize_amount(5_000), b"0.5000".to_vec());
    assert_eq!(serialize_amount(10_000), b"1.0000".to_vec());
    assert_eq!(serialize_amount(0), b"0.0000".to_vec());
    assert_eq!(serialize_amount(-5_000), b"-0.5000".to_vec());
    assert_eq!(serialize_amount(123_456_789), b"12345.6789".to_vec());
    assert_eq!(serialize_amount(1), b"0.0001".to_vec());
}

#[test]
fn parsing_a_formatted_amount_gives_the_value_back() {
    for v in [0i64, 1, 5_000, 10_000, 123_456_789, i64::MAX] {
        let shown = serialize_amount(v);
        assert_eq!(parse_amount(&shown), Some(v));
    }
}
