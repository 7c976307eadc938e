use payments_engine::domain::{Amount, Transaction, TransactionKind};
use payments_engine::infrastructure::csv::parse::{parse_transaction_row, TransactionRow};
use payments_engine::infrastructure::csv::CsvTransactionReader;

fn strings(fields: &[&str]) -> Vec<String> {
    fields.iter().map(|f| f.to_string()).collect()
}

fn row(headers: &[&str], record: &[&str]) -> Option<Transaction> {
    parse_transaction_row(&strings(headers), &strings(record))
}

#[test]
fn columns_are_found_by_name_in_any_order() {
    let t = row(&["amount", "tx", "extra", "client", "type"], &["2.5", "7", "x", "3", "deposit"]).unwrap();
    assert_eq!(t, Transaction { kind: TransactionKind::Deposit, client: 3, tx: 7, amount: Some(Amount::from_scaled(25_000)) });
}

#[test]
fn integer_fields_take_hex_and_plus() {
    let t = row(&["type", "client", "tx", "amount"], &["dispute", "0x10", "+5", ""]).unwrap();
    assert_eq!((t.client, t.tx, t.amount), (16, 5, None));
    assert!(row(&["type", "client", "tx", "amount"], &["dispute", "70000", "1", ""]).is_none());
    assert!(row(&["type", "client", "tx", "amount"], &["dispute", "-1", "1", ""]).is_none());
    assert!(row(&["type", "client", "tx", "amount"], &["dispute", "0x", "1", ""]).is_none());
    assert!(row(&["type", "client", "tx", "amount"], &["dispute", "1", "4294967296", ""]).is_none());
}

#[test]
fn duplicate_or_missing_columns_reject_the_row() {
    assert!(row(&["type", "client", "tx", "type"], &["deposit", "1", "1", "deposit"]).is_none());
    assert!(row(&["type", "client", "amount", "amount"], &["dispute", "1", "", ""]).is_none());
    assert!(row(&["type", "client", "amount"], &["dispute", "1", ""]).is_none());
}

#[test]
fn amount_column_may_be_absent_or_past_the_record() {
    let t = row(&["type", "client", "tx"], &["dispute", "1", "2"]).unwrap();
    assert_eq!(t.amount, None);
    let t = row(&["type", "client", "tx", "amount"], &["resolve", "1", "2"]).unwrap();
    assert_eq!(t.amount, None);
    assert!(row(&["type", "client", "tx", "amount"], &["deposit", "1", "2"]).is_none());
    assert!(row(&["type", "client", "tx", "other"], &["dispute", "1"]).is_none());
}

#[test]
fn partner_rows_keep_a_parsable_amount() {
    let t = row(&["type", "client", "tx", "amount"], &["dispute", "1", "2", "3.0"]).unwrap();
    assert_eq!(t.amount, Some(Amount::from_scaled(30_000)));
    let t = row(&["type", "client", "tx", "amount"], &["dispute", "1", "2", "bad"]).unwrap();
    assert_eq!(t.amount, None);
}

#[test]
fn decoded_row_carries_raw_fields() {
    let r = TransactionRow::decode(&strings(&["type", "client", "tx", "amount"]), &strings(&["withdrawal", "4", "9", "1.25"])).unwrap();
    assert_eq!((r.kind.as_str(), r.client, r.tx, r.amount.as_deref()), ("withdrawal", 4, 9, Some("1.25")));
}

#[test]
fn reader_stops_at_the_first_malformed_record() {
    let input = "type,client,tx,amount\ndeposit,1,1,1.0\ndeposit,2\ndeposit,3,3,1.0\n";
    let mut reader = CsvTransactionReader::new(input.as_bytes()).expect("valid csv");
    let transactions = reader.transactions().collect();
    assert_eq!(transactions.len(), 1);
    assert_eq!(transactions[0].client, 1);
}

#[test]
fn reader_trims_fields_and_headers() {
    let input = " type , client , tx , amount \n  withdrawal ,  2 , 3 , 0.5 \n";
    let mut reader = CsvTransactionReader::new(input.as_bytes()).expect("valid csv");
    let mut stream = reader.transactions();
    let t = stream.next().expect("one transaction");
    assert_eq!(t, Transaction { kind: TransactionKind::Withdrawal, client: 2, tx: 3, amount: Some(Amount::from_scaled(5_000)) });
    assert!(stream.next().is_none());
}

#[test]
fn reader_rejects_unreadable_header_row() {
    let input: &[u8] = b"type,\xff\xfe\n";
    assert!(CsvTransactionReader::new(input).is_err());
}

#[test]
fn empty_input_has_no_transactions() {
    let mut reader = CsvTransactionReader::new(b"").expect("empty csv");
    assert!(reader.transactions().collect().is_empty());
}
