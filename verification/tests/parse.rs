use payments_engine::domain::{Amount, Transaction, TransactionKind};
use payments_engine::infrastructure::csv::parse::{format_amount, parse_amount, parse_transaction_row};
use payments_engine::infrastructure::csv::CsvTransactionReader;

fn parse_row(line: &str) -> Option<Transaction> {
    let mut reader = csv::ReaderBuilder::new().trim(csv::Trim::All).from_reader(line.as_bytes());
    let headers: Vec<String> = reader.headers().ok()?.iter().map(String::from).collect();
    let record: Vec<String> = reader.records().next()?.ok()?.iter().map(String::from).collect();
    parse_transaction_row(&headers, &record)
}

fn parse_csv(input: &str) -> Vec<Transaction> {
    let mut reader = CsvTransactionReader::new(input.as_bytes()).expect("valid csv");
    reader.transactions().collect()
}

#[test]
fn parse_whitespace_tolerant_fields() {
    let tx = parse_row("type,client,tx,amount\n deposit , 1 , 1 , 1.0 ").expect("parsed");
    assert_eq!(tx.kind, TransactionKind::Deposit);
    assert_eq!(tx.client, 1);
    assert_eq!(tx.tx, 1);
    assert_eq!(tx.amount, Some(Amount::from_scaled(10_000)));
}

#[test]
fn parse_one_point_zero_and_one_point_zero_zero_zero_zero_parse_equally() {
    let one = parse_row("type,client,tx,amount\ndeposit,1,1,1.0").expect("parsed 1.0");
    let four = parse_row("type,client,tx,amount\ndeposit,1,1,1.0000").expect("parsed 1.0000");
    assert_eq!(one.amount, Some(Amount::from_scaled(10_000)));
    assert_eq!(four.amount, Some(Amount::from_scaled(10_000)));
}

#[test]
fn parse_invalid_type_is_skipped() {
    assert!(parse_row("type,client,tx,amount\nfoo,1,1,1.0").is_none());
}

#[test]
fn parse_bad_client_is_skipped() {
    assert!(parse_row("type,client,tx,amount\ndeposit,abc,1,1.0").is_none());
}

#[test]
fn parse_bad_deposit_amounts_are_skipped() {
    for line in [
        "type,client,tx,amount\ndeposit,1,1,",
        "type,client,tx,amount\ndeposit,1,1,abc",
        "type,client,tx,amount\ndeposit,1,1,1.12345",
    ] {
        assert!(parse_row(line).is_none(), "expected skip for {line}");
    }
}

#[test]
fn parse_bad_withdrawal_amounts_are_skipped() {
    for line in [
        "type,client,tx,amount\nwithdrawal,1,2,",
        "type,client,tx,amount\nwithdrawal,1,2,abc",
        "type,client,tx,amount\nwithdrawal,1,2,1.12345",
    ] {
        assert!(parse_row(line).is_none(), "expected skip for {line}");
    }
}

#[test]
fn parse_deposit_without_parseable_amount_is_skipped() {
    let csv = "type,client,tx,amount\n\
               deposit,1,1,\n\
               deposit,2,2,abc\n\
               deposit,3,3,1.0\n";
    let transactions = parse_csv(csv);
    assert_eq!(transactions.len(), 1);
    assert_eq!(transactions[0].client, 3);
    assert_eq!(transactions[0].amount, Some(Amount::from_scaled(10_000)));
}

#[test]
fn parse_withdrawal_without_parseable_amount_is_skipped() {
    let csv = "type,client,tx,amount\n\
               withdrawal,1,1,\n\
               withdrawal,2,2,abc\n\
               withdrawal,3,3,1.0\n";
    let transactions = parse_csv(csv);
    assert_eq!(transactions.len(), 1);
    assert_eq!(transactions[0].client, 3);
    assert_eq!(transactions[0].amount, Some(Amount::from_scaled(10_000)));
}

#[test]
fn parse_partner_transaction_without_amount_is_parsed() {
    for (kind_str, kind) in [
        ("dispute", TransactionKind::Dispute),
        ("resolve", TransactionKind::Resolve),
        ("chargeback", TransactionKind::Chargeback),
    ] {
        let line = format!("type,client,tx,amount\n{kind_str},1,1,");
        let tx = parse_row(&line).unwrap_or_else(|| panic!("expected {kind_str} to parse"));
        assert_eq!(tx.kind, kind, "{kind_str}");
        assert_eq!(tx.amount, None, "{kind_str}");
    }
}

#[test]
fn negative_amounts_parse_correctly() {
    assert_eq!(parse_amount("-1.2345"), Some(-12_345));
    assert_eq!(parse_amount("-0.0001"), Some(-1));
}

#[test]
fn format_amount_zero() {
    assert_eq!(format_amount(0), "0.0000");
}

#[test]
fn format_amount_whole_number() {
    assert_eq!(format_amount(10_000), "1.0000");
}

#[test]
fn format_amount_fractional() {
    assert_eq!(format_amount(12_3450), "12.3450");
}

#[test]
fn format_amount_negative() {
    assert_eq!(format_amount(-12_345), "-1.2345");
}

#[test]
fn format_amount_zero_pads_fraction() {
    assert_eq!(format_amount(100_0000), "100.0000");
}
