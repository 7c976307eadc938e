pub mod account_writer;
pub mod parse;
pub mod transaction_reader;

pub use account_writer::CsvAccountWriter;
pub use transaction_reader::{CsvTransactionReader, Transactions};
