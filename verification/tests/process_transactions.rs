use payments_engine::application::process_transactions::{run, AppError, IoErrorKind, IoFailure};
use payments_engine::domain::Account;
use payments_engine::infrastructure::accounts::{AccountSink, CsvAccountWriter};
use payments_engine::infrastructure::transactions::CsvTransactionReader;

/// A sink whose output pipe is closed.
struct BrokenPipeWriter;

impl AccountSink for BrokenPipeWriter {
    type Error = AppError;

    fn wrote(&self, _before: &Self, _accounts: vstd::seq::Seq<Account>) -> bool {
        unreachable!()
    }

    fn refuses(&self, _accounts: vstd::seq::Seq<Account>) -> bool {
        true
    }

    fn refusal(&self, _accounts: vstd::seq::Seq<Account>) -> AppError {
        AppError::Io(IoFailure { kind: IoErrorKind::BrokenPipe, message: "broken pipe".to_string() })
    }

    fn write_accounts(&mut self, _accounts: Vec<Account>) -> Result<(), AppError> {
        Err(AppError::Io(IoFailure { kind: IoErrorKind::BrokenPipe, message: "broken pipe".to_string() }))
    }
}

#[test]
fn broken_pipe_on_output_write_is_recognized() {
    let input = b"type,client,tx,amount\ndeposit,1,1,1.0\n";
    let mut source = CsvTransactionReader::new(input.as_slice()).expect("valid csv");
    let error = run(&mut source, &mut BrokenPipeWriter).expect_err("broken pipe fails write");

    assert!(error.is_broken_pipe());
    assert_eq!(error.message(), "broken pipe");
}

#[test]
fn non_broken_pipe_io_error_is_not_recognized() {
    let error = AppError::Io(IoFailure { kind: IoErrorKind::Other, message: "other".to_string() });

    assert!(!error.is_broken_pipe());
}

#[test]
fn run_processes_in_memory_csv() {
    let input = b"type,client,tx,amount\n\
                  deposit,1,1,10.0000\n\
                  withdrawal,1,2,3.5000\n\
                  dispute,2,10,\n";
    let mut output = Vec::new();

    let mut source = CsvTransactionReader::new(input.as_slice()).expect("valid csv");
    let mut sink = CsvAccountWriter::new(&mut output);
    run(&mut source, &mut sink).expect("run succeeds");

    let expected = "client,available,held,total,locked\n\
                    1,6.5000,0.0000,6.5000,false\n";
    assert_eq!(std::str::from_utf8(&output).unwrap(), expected);
}
