pub mod accounts;
pub mod csv;
pub mod transactions;
