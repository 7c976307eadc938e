use payments_engine::domain::{Account, Amount};
use payments_engine::infrastructure::accounts::{AccountSink, CsvAccountWriter};

#[test]
fn writes_four_decimal_amounts() {
    let mut output = Vec::new();
    let account = Account {
        client: 1,
        available: Amount::from_scaled(10_000),
        held: Amount::from_scaled(2345),
        locked: false,
    };

    CsvAccountWriter::new(&mut output).write_accounts(vec![account]).expect("write succeeds");

    let mut reader = csv::Reader::from_reader(output.as_slice());
    let headers = reader.headers().expect("headers").clone();
    assert_eq!(headers.iter().collect::<Vec<_>>(), ["client", "available", "held", "total", "locked"]);

    let row = reader.records().next().expect("data row").expect("valid row");
    assert_eq!(row.get(0).unwrap(), "1");
    assert_eq!(row.get(1).unwrap(), "1.0000");
    assert_eq!(row.get(2).unwrap(), "0.2345");
    assert_eq!(row.get(3).unwrap(), "1.2345");
    assert_eq!(row.get(4).unwrap(), "false");
}

#[test]
fn writes_negative_held_and_exposes_bytes() {
    let mut output = Vec::new();
    let account = Account {
        client: 7,
        available: Amount::from_scaled(30_000),
        held: Amount::from_scaled(-5_000),
        locked: true,
    };
    let mut writer = CsvAccountWriter::new(&mut output);
    writer.write_accounts(vec![account]).expect("write succeeds");
    let expected = "client,available,held,total,locked\n7,3.0000,-0.5000,2.5000,true\n";
    assert_eq!(std::str::from_utf8(writer.bytes()).unwrap(), expected);
    assert_eq!(std::str::from_utf8(&output).unwrap(), expected);
}
