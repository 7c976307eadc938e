pub mod process_transactions;
