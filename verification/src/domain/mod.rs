pub mod account;
pub mod ledger;
pub mod stored_transaction;
pub mod transaction;

pub use account::Account;
pub use ledger::Ledger;
pub use stored_transaction::StoredTransaction;
pub use transaction::{Amount, DisputeState, ParseAmountError, Transaction, TransactionKind};
