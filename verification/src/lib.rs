//! A payments engine: a ledger of client accounts that applies deposits,
//! withdrawals, disputes, resolutions and chargebacks read from CSV, and
//! reports the resulting balances as CSV.

pub mod application;
pub mod domain;
pub mod infrastructure;
pub mod text;
