use transaction_manager::transaction_parser::parse_amount;
use transaction_manager::writer::split_amount;

#[test]
fn parses_whole_and_fractional_amounts() {
    assert_eq!(parse_amount(b"1.0"), Some(10000));
    assert_eq!(parse_amount(b"3"), Some(30000));
    assert_eq!(parse_amount(b"2.5"), Some(25000));
    assert_eq!(parse_amount(b"0.0001"), Some(1));
    assert_eq!(parse_amount(b"12.3456"), Some(123456));
    assert_eq!(parse_amount(b".5"), Some(5000));
    assert_eq!(parse_amount(b"7."), Some(70000));
    assert_eq!(parse_amount(b"007.10"), Some(71000));
}

#[test]
fn rejects_malformed_amounts() {
    assert_eq!(parse_amount(b""), None);
    assert_eq!(parse_amount(b"."), None);
    assert_eq!(parse_amount(b"1.23456"), None);
    assert_eq!(parse_amount(b"1,5"), None);
    assert_eq!(parse_amount(b"-1.0"), None);
    assert_eq!(parse_amount(b"1.2.3"), None);
    assert_eq!(parse_amount(b"abc"), None);
}

#[test]
fn amount_range_edges() {
    assert_eq!(parse_amount(b"922337203685477.5807"), Some(i64::MAX));
    assert_eq!(parse_amount(b"922337203685477.5808"), None);
    assert_eq!(parse_amount(b"99999999999999999999999999999999"), None);
    assert_eq!(parse_amount(b"00000000000000000000000000000001"), Some(10000));
}

#[test]
fn splits_amounts_into_digits() {
    let d = split_amount(123456);
    assert!(!d.negative);
    assert_eq!((d.whole, d.fraction), (12, 3456));
    let d = split_amount(-27500);
    assert!(d.negative);
    assert_eq!((d.whole, d.fraction), (2, 7500));
    let d = split_amount(i64::MIN);
    assert!(d.negative);
    assert_eq!((d.whole, d.fraction), (922337203685477, 5808));
    let d = split_amount(0);
    assert!(!d.negative);
    assert_eq!((d.whole, d.fraction), (0, 0));
}
