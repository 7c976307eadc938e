use payments_engine::domain::{Amount, ParseAmountError};
use payments_engine::infrastructure::csv::parse::{format_amount, parse_amount, parse_kind};
use payments_engine::domain::TransactionKind;

#[test]
fn checked_arithmetic_reports_overflow() {
    let max = Amount::from_scaled(i64::MAX);
    let one = Amount::from_scaled(1);
    assert_eq!(max.checked_add(one), None);
    assert_eq!(one.checked_add(one), Some(Amount::from_scaled(2)));
    assert_eq!(Amount::from_scaled(i64::MIN).checked_sub(one), None);
    assert_eq!(one.checked_sub(max), Some(Amount::from_scaled(1 - i64::MAX)));
    assert_eq!(Amount::from_scaled(-5).as_scaled(), -5);
}

#[test]
fn format_then_parse_gives_the_amount_back() {
    for v in [0, 1, -1, 9_999, 10_000, -10_001, 123_456_789, i64::MAX, i64::MIN + 1] {
        let text = format_amount(v);
        assert_eq!(parse_amount(&text), Some(v), "{text}");
        assert_eq!(Amount::from_scaled(v).to_string(), text);
    }
}

#[test]
fn smallest_amount_does_not_round_trip() {
    assert_eq!(format_amount(i64::MIN), "-922337203685477.5808");
    assert_eq!(parse_amount("-922337203685477.5808"), None);
}

#[test]
fn amount_syntax_edge_cases() {
    assert_eq!(parse_amount(" 1.5 "), Some(15_000));
    assert_eq!(parse_amount("\t2\n"), Some(20_000));
    assert_eq!(parse_amount("1."), Some(10_000));
    assert_eq!(parse_amount("007.25"), Some(72_500));
    assert_eq!(parse_amount("--1.0"), Some(-10_000));
    assert_eq!(parse_amount("922337203685477.5807"), Some(i64::MAX));
    assert_eq!(parse_amount("922337203685477.5808"), None);
    assert_eq!(parse_amount("99999999999999999999"), None);
    assert_eq!(parse_amount(".5"), None);
    assert_eq!(parse_amount("+1"), None);
    assert_eq!(parse_amount("1.2.3"), None);
    assert_eq!(parse_amount("1,0"), None);
    assert_eq!(parse_amount("-"), None);
    assert_eq!(parse_amount("   "), None);
    assert_eq!(parse_amount("١"), None);
}

#[test]
fn amount_from_str_rejects_bad_text() {
    assert_eq!("abc".parse::<Amount>(), Err(ParseAmountError));
    assert_eq!(Amount::parse("12.0001"), Ok(Amount::from_scaled(120_001)));
}

#[test]
fn kinds_are_matched_after_trimming() {
    assert_eq!(parse_kind(" deposit "), Some(TransactionKind::Deposit));
    assert_eq!(parse_kind("withdrawal"), Some(TransactionKind::Withdrawal));
    assert_eq!(parse_kind("dispute"), Some(TransactionKind::Dispute));
    assert_eq!(parse_kind("resolve"), Some(TransactionKind::Resolve));
    assert_eq!(parse_kind("chargeback"), Some(TransactionKind::Chargeback));
    assert_eq!(parse_kind("Deposit"), None);
    assert_eq!(parse_kind(""), None);
}

#[test]
fn amount_accepts_one_leading_minus_only() {
    assert_eq!(Amount::parse("-1.0"), Ok(Amount::from_scaled(-10_000)));
    assert_eq!(" -2.5 ".parse::<Amount>(), Ok(Amount::from_scaled(-25_000)));
    assert_eq!(Amount::parse("--1.0"), Err(ParseAmountError));
    assert_eq!("---3".parse::<Amount>(), Err(ParseAmountError));
    assert_eq!(Amount::parse("-"), Err(ParseAmountError));
    assert_eq!(Amount::parse("-.5"), Err(ParseAmountError));
}

#[test]
fn amounts_add_and_subtract() {
    let a = Amount::from_scaled(12_345);
    let b = Amount::from_scaled(-2_345);
    assert_eq!(a + b, Amount::from_scaled(10_000));
    assert_eq!(a - b, Amount::from_scaled(14_690));
    assert_eq!(Amount::default(), Amount::from_scaled(0));
}
