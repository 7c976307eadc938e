use vstd::prelude::*;

use super::transaction::{fits_i64, Amount};

verus! {

/// A client's balances.
#[derive(Debug, Clone, Copy, PartialEq, Eq, Structural)]
pub struct Account {
    pub client: u16,
    pub available: Amount,
    pub held: Amount,
    pub locked: bool,
}

impl Account {
    /// A fresh, unlocked account with nothing available and nothing held.
    pub open spec fn blank(client: u16) -> Account {
        Account {
            client,
            available: Amount::of_scaled(0),
            held: Amount::of_scaled(0),
            locked: false,
        }
    }

    pub fn new(client: u16) -> (r: Account)
        ensures
            r == Account::blank(client),
    {
        proof {
            Amount::lemma_of_scaled(0);
        }
        let zero = Amount::zero();
        assert(zero == Amount::of_scaled(0)) by {
            Amount::lemma_scaled(zero, Amount::of_scaled(0));
        }
        Account { client, available: zero, held: zero, locked: false }
    }

    /// `available + held`, as a mathematical integer.
    pub open spec fn total_value(self) -> int {
        self.available.scaled() + self.held.scaled()
    }

    /// Nothing negative is held and the total is representable.
    pub open spec fn consistent(self) -> bool {
        &&& self.held.scaled() >= 0
        &&& fits_i64(self.total_value())
    }

    /// Returns `available + held`, or `None` if the sum would overflow `Amount`.
    pub fn total(&self) -> (r: Option<Amount>)
        ensures
            match r {
                Some(t) => t.scaled() == self.total_value(),
                None => !fits_i64(self.total_value()),
            },
    {
        self.available.checked_add(self.held)
    }
}

} // verus!
