use payments_engine::application::process_transactions::{
    exit_code, run, AppError, CsvFailure, IoErrorKind, IoFailure,
};
use payments_engine::domain::{Account, Transaction};
use payments_engine::infrastructure::accounts::{AccountSink, CsvAccountWriter};
use payments_engine::infrastructure::transactions::{CsvTransactionReader, TransactionSource};

#[test]
fn broken_pipe_maps_to_success_exit_code() {
    let error = AppError::Io(IoFailure { kind: IoErrorKind::BrokenPipe, message: "broken pipe".to_string() });
    assert_eq!(exit_code(&error), 0);
}

#[test]
fn other_errors_map_to_failure_exit_code() {
    let error = AppError::Io(IoFailure { kind: IoErrorKind::Other, message: "other".to_string() });
    assert_eq!(exit_code(&error), 1);
    let error = AppError::Csv(CsvFailure { io_kind: None, message: "bad".to_string() });
    assert_eq!(exit_code(&error), 1);
}

#[test]
fn csv_error_over_broken_pipe_is_recognized() {
    let error = AppError::Csv(CsvFailure { io_kind: Some(IoErrorKind::BrokenPipe), message: "x".to_string() });
    assert!(error.is_broken_pipe());
    let error = AppError::Csv(CsvFailure { io_kind: Some(IoErrorKind::Other), message: "x".to_string() });
    assert!(!error.is_broken_pipe());
}

#[test]
fn error_messages() {
    let io = AppError::Io(IoFailure { kind: IoErrorKind::Other, message: "no such file".to_string() });
    assert_eq!(io.message(), "no such file");
    let csv = AppError::Csv(CsvFailure { io_kind: None, message: "bad row".to_string() });
    assert_eq!(csv.message(), "csv error: bad row");
}

struct FailingSource;

impl TransactionSource for FailingSource {
    type Error = AppError;

    fn to_come(&self) -> vstd::seq::Seq<Transaction> {
        unreachable!()
    }

    fn fails(&self) -> bool {
        true
    }

    fn failure(&self) -> AppError {
        AppError::Csv(CsvFailure { io_kind: None, message: "unreadable".to_string() })
    }

    fn next_transaction(&mut self) -> Option<Result<Transaction, AppError>> {
        Some(Err(AppError::Csv(CsvFailure { io_kind: None, message: "unreadable".to_string() })))
    }
}

struct CountingSink(usize);

impl AccountSink for CountingSink {
    type Error = AppError;

    fn wrote(&self, _before: &Self, _accounts: vstd::seq::Seq<Account>) -> bool {
        unreachable!()
    }

    fn refuses(&self, _accounts: vstd::seq::Seq<Account>) -> bool {
        false
    }

    fn refusal(&self, _accounts: vstd::seq::Seq<Account>) -> AppError {
        unreachable!()
    }

    fn write_accounts(&mut self, accounts: Vec<Account>) -> Result<(), AppError> {
        self.0 = accounts.len();
        Ok(())
    }
}

#[test]
fn source_failure_stops_the_run() {
    let mut sink = CountingSink(usize::MAX);
    let error = run(&mut FailingSource, &mut sink).expect_err("source fails");
    assert_eq!(error.message(), "csv error: unreadable");
    assert_eq!(sink.0, usize::MAX);
}

#[test]
fn sample_scenario_matches_expected_accounts() {
    let input = "type, client, tx, amount\n\
                 deposit, 1, 1, 1.0\n\
                 deposit, 2, 2, 2.0\n\
                 deposit, 1, 3, 2.0\n\
                 withdrawal, 1, 4, 1.5\n\
                 withdrawal, 2, 5, 3.0\n\
                 dispute, 1, 1,\n\
                 resolve, 1, 1,\n\
                 deposit, 3, 6, 5.0\n\
                 dispute, 3, 6,\n\
                 chargeback, 3, 6,\n\
                 deposit, 3, 7, 1.0\n\
                 bogus, 1, 8, 1.0\n\
                 deposit, x, 9, 1.0\n\
                 deposit, 2, 10, 1.23456\n";
    let mut source = CsvTransactionReader::new(input.as_bytes()).expect("valid csv");
    let mut output = Vec::new();
    let mut sink = CsvAccountWriter::new(&mut output);
    run(&mut source, &mut sink).expect("run succeeds");
    let expected = "client,available,held,total,locked\n\
                    1,1.5000,0.0000,1.5000,false\n\
                    2,2.0000,0.0000,2.0000,false\n\
                    3,0.0000,0.0000,0.0000,true\n";
    assert_eq!(std::str::from_utf8(&output).unwrap(), expected);
}

#[test]
fn writer_sorts_by_client_and_formats_negatives() {
    let mut output = Vec::new();
    let accounts = vec![
        Account { client: 20, available: payments_engine::domain::Amount::from_scaled(-5), held: payments_engine::domain::Amount::from_scaled(5), locked: true },
        Account::new(3),
    ];
    CsvAccountWriter::new(&mut output).write_accounts(accounts).expect("write succeeds");
    assert_eq!(
        std::str::from_utf8(&output).unwrap(),
        "client,available,held,total,locked\n3,0.0000,0.0000,0.0000,false\n20,-0.0005,0.0005,0.0000,true\n"
    );
}
