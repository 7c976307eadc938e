use vstd::prelude::*;

use crate::domain::account::Account;
use crate::domain::transaction::fits_i64;

pub use super::csv::CsvAccountWriter;

verus! {

/// Where the final account balances go.
pub trait AccountSink {
    type Error;

    /// `self` is the sink `before` once `accounts` have been written to it.
    spec fn wrote(&self, before: &Self, accounts: Seq<Account>) -> bool;

    /// Whether the sink fails to take `accounts`.
    spec fn refuses(&self, accounts: Seq<Account>) -> bool;

    /// The error the sink reports when it refuses `accounts`.
    spec fn refusal(&self, accounts: Seq<Account>) -> Self::Error;

    /// Writes every account; each one has a representable total. Fails,
    /// with the sink's refusal, exactly when the sink refuses the accounts.
    fn write_accounts(&mut self, accounts: Vec<Account>) -> (r: Result<(), Self::Error>)
        requires
            forall|i: int| 0 <= i < accounts.len() ==> fits_i64((#[trigger] accounts@[i]).total_value()),
        ensures
            r is Ok <==> !old(self).refuses(accounts@),
            r is Ok ==> final(self).wrote(&*old(self), accounts@),
            r matches Err(e) ==> e == old(self).refusal(accounts@),
    ;
}

} // verus!
