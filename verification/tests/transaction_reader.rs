use payments_engine::domain::{Amount, Transaction, TransactionKind};
use payments_engine::infrastructure::csv::parse::parse_transaction_row;
use payments_engine::infrastructure::csv::CsvTransactionReader;

fn parse_row(line: &str) -> Option<Transaction> {
    let mut reader = csv::ReaderBuilder::new().trim(csv::Trim::All).from_reader(line.as_bytes());
    let headers: Vec<String> = reader.headers().ok()?.iter().map(String::from).collect();
    let record: Vec<String> = reader.records().next()?.ok()?.iter().map(String::from).collect();
    parse_transaction_row(&headers, &record)
}

fn parse_csv(input: &str) -> Vec<Transaction> {
    let mut reader = CsvTransactionReader::new(input.as_bytes()).expect("valid csv");
    reader.transactions().collect()
}

#[test]
fn transaction_reader_whitespace_tolerant_fields() {
    let tx = parse_row("type,client,tx,amount\n deposit , 1 , 1 , 1.0 ").expect("parsed");
    assert_eq!(tx.kind, TransactionKind::Deposit);
    assert_eq!(tx.client, 1);
    assert_eq!(tx.tx, 1);
    assert_eq!(tx.amount, Some(Amount::from_scaled(10_000)));
}

#[test]
fn transaction_reader_one_point_zero_and_one_point_zero_zero_zero_zero_parse_equally() {
    let one = parse_row("type,client,tx,amount\ndeposit,1,1,1.0").expect("parsed 1.0");
    let four = parse_row("type,client,tx,amount\ndeposit,1,1,1.0000").expect("parsed 1.0000");
    assert_eq!(one.amount, Some(Amount::from_scaled(10_000)));
    assert_eq!(four.amount, Some(Amount::from_scaled(10_000)));
}

#[test]
fn transaction_reader_invalid_type_is_skipped() {
    assert!(parse_row("type,client,tx,amount\nfoo,1,1,1.0").is_none());
}

#[test]
fn transaction_reader_bad_client_is_skipped() {
    assert!(parse_row("type,client,tx,amount\ndeposit,abc,1,1.0").is_none());
}

#[test]
fn transaction_reader_bad_deposit_amounts_are_skipped() {
    for line in [
        "type,client,tx,amount\ndeposit,1,1,",
        "type,client,tx,amount\ndeposit,1,1,abc",
        "type,client,tx,amount\ndeposit,1,1,1.12345",
    ] {
        assert!(parse_row(line).is_none(), "expected skip for {line}");
    }
}

#[test]
fn transaction_reader_bad_withdrawal_amounts_are_skipped() {
    for line in [
        "type,client,tx,amount\nwithdrawal,1,2,",
        "type,client,tx,amount\nwithdrawal,1,2,abc",
        "type,client,tx,amount\nwithdrawal,1,2,1.12345",
    ] {
        assert!(parse_row(line).is_none(), "expected skip for {line}");
    }
}

#[test]
fn transaction_reader_deposit_without_parseable_amount_is_skipped() {
    let csv = "type,client,tx,amount\n\
               deposit,1,1,\n\
               deposit,2,2,abc\n\
               deposit,3,3,1.0\n";
    let transactions = parse_csv(csv);
    assert_eq!(transactions.len(), 1);
    assert_eq!(transactions[0].client, 3);
    assert_eq!(transactions[0].amount, Some(Amount::from_scaled(10_000)));
}

#[test]
fn transaction_reader_withdrawal_without_parseable_amount_is_skipped() {
    let csv = "type,client,tx,amount\n\
               withdrawal,1,1,\n\
               withdrawal,2,2,abc\n\
               withdrawal,3,3,1.0\n";
    let transactions = parse_csv(csv);
    assert_eq!(transactions.len(), 1);
    assert_eq!(transactions[0].client, 3);
    assert_eq!(transactions[0].amount, Some(Amount::from_scaled(10_000)));
}

#[test]
fn transaction_reader_partner_transaction_without_amount_is_parsed() {
    for (kind_str, kind) in [
        ("dispute", TransactionKind::Dispute),
        ("resolve", TransactionKind::Resolve),
        ("chargeback", TransactionKind::Chargeback),
    ] {
        let line = format!("type,client,tx,amount\n{kind_str},1,1,");
        let tx = parse_row(&line).unwrap_or_else(|| panic!("expected {kind_str} to parse"));
        assert_eq!(tx.kind, kind, "{kind_str}");
        assert_eq!(tx.amount, None, "{kind_str}");
    }
}

#[test]
fn amount_parsing_supports_negatives() {
    assert_eq!("-1.2345".parse::<Amount>().ok(), Some(Amount::from_scaled(-12_345)));
    assert_eq!("-0.0001".parse::<Amount>().ok(), Some(Amount::from_scaled(-1)));
}

#[test]
fn amount_display_formats_zero() {
    assert_eq!(Amount::zero().to_string(), "0.0000");
}

#[test]
fn amount_display_formats_whole_number() {
    assert_eq!(Amount::from_scaled(10_000).to_string(), "1.0000");
}

#[test]
fn amount_display_formats_fractional() {
    assert_eq!(Amount::from_scaled(12_3450).to_string(), "12.3450");
}

#[test]
fn amount_display_formats_negative() {
    assert_eq!(Amount::from_scaled(-12_345).to_string(), "-1.2345");
}

#[test]
fn amount_display_zero_pads_fraction() {
    assert_eq!(Amount::from_scaled(100_0000).to_string(), "100.0000");
}

#[test]
fn reader_from_fields_skips_bad_rows_and_stops_at_unreadable_ones() {
    let strings = |fs: &[&str]| fs.iter().map(|f| f.to_string()).collect::<Vec<String>>();
    let headers = strings(&["type", "client", "tx", "amount"]);
    let records = vec![
        Some(strings(&["deposit", "1", "1", "1.5"])),
        Some(strings(&["bogus", "1", "2", "1.0"])),
        Some(strings(&["withdrawal", "1", "3", "0.5"])),
        None,
        Some(strings(&["deposit", "2", "4", "9.0"])),
    ];
    let mut reader = CsvTransactionReader::from_fields(headers, records);
    let transactions = reader.transactions().collect();
    assert_eq!(transactions.len(), 2);
    assert_eq!(transactions[0].kind, TransactionKind::Deposit);
    assert_eq!(transactions[0].amount, Some(Amount::from_scaled(15_000)));
    assert_eq!(transactions[1].kind, TransactionKind::Withdrawal);
    assert_eq!(transactions[1].tx, 3);
}
