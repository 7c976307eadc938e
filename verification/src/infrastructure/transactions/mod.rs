use vstd::prelude::*;

use crate::domain::transaction::Transaction;

pub use super::csv::CsvTransactionReader;

verus! {

/// Where transactions come from, one at a time, until `None` or an error.
pub trait TransactionSource {
    type Error;

    /// The transactions the source has still to yield.
    spec fn to_come(&self) -> Seq<Transaction>;

    /// Whether, once the transactions to come are yielded, the source reports
    /// an error rather than its end.
    spec fn fails(&self) -> bool;

    /// The error the source reports when it fails.
    spec fn failure(&self) -> Self::Error;

    /// Yields the next transaction to come; once none is left, the error the
    /// source fails with, or `None` when it does not fail.
    fn next_transaction(&mut self) -> (r: Option<Result<Transaction, Self::Error>>)
        ensures
            match r {
                Some(Ok(t)) => old(self).to_come() == seq![t] + final(self).to_come()
                    && final(self).fails() == old(self).fails() && final(self).failure() == old(
                    self,
                ).failure(),
                Some(Err(e)) => old(self).fails() && e == old(self).failure() && old(self).to_come()
                    == Seq::<Transaction>::empty(),
                None => !old(self).fails() && old(self).to_come() == Seq::<Transaction>::empty()
                    && final(self).to_come() == Seq::<Transaction>::empty(),
            },
    ;
}

} // verus!
