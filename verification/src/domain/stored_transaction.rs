use vstd::prelude::*;

use super::transaction::{Amount, DisputeState};

verus! {

/// A deposit as the ledger keeps it, for later disputes.
#[derive(Debug, Clone, Copy, PartialEq, Eq, Structural)]
pub struct StoredTransaction {
    pub client: u16,
    pub amount: Amount,
    pub dispute_state: DisputeState,
}

} // verus!
