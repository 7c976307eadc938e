use std::collections::HashMap;

use vstd::prelude::*;

use super::account::Account;
use super::stored_transaction::StoredTransaction;
use super::transaction::{fits_i64, Amount, DisputeState, Transaction, TransactionKind};

verus! {

broadcast use {vstd::std_specs::hash::group_hash_axioms, Amount::lemma_scaled_roundtrip, Amount::lemma_of_scaled, Amount::lemma_scaled_fits};

/// What a ledger holds: the accounts by client, and the deposits by
/// transaction id.
pub struct LedgerModel {
    pub accounts: Map<u16, Account>,
    pub deposits: Map<u32, StoredTransaction>,
}

/// Every account is filed under its own client and is consistent; every
/// deposit is non-negative and belongs to a client that has an account.
pub open spec fn ledger_wf(m: LedgerModel) -> bool {
    &&& forall|c: u16| #[trigger]
        m.accounts.contains_key(c) ==> m.accounts[c].client == c && m.accounts[c].consistent()
    &&& forall|id: u32| #[trigger]
        m.deposits.contains_key(id) ==> m.deposits[id].amount.scaled() >= 0
            && m.accounts.contains_key(m.deposits[id].client)
}

/// The account of `client`, or a blank one when it has none yet.
pub open spec fn account_or_blank(m: LedgerModel, client: u16) -> Account {
    if m.accounts.contains_key(client) {
        m.accounts[client]
    } else {
        Account::blank(client)
    }
}

/// `acct` with new balances.
pub open spec fn with_balances(acct: Account, available: int, held: int) -> Account {
    Account {
        available: Amount::of_scaled(available),
        held: Amount::of_scaled(held),
        ..acct
    }
}

/// A deposit credits `available`. It is refused (the ledger is unchanged) when
/// it has no amount, a negative amount, a transaction id already used by a
/// deposit, a locked account, or a balance that would overflow.
pub open spec fn deposit_spec(m: LedgerModel, client: u16, tx: u32, amount: Option<Amount>) -> LedgerModel {
    match amount {
        None => m,
        Some(a) => {
            let acct = account_or_blank(m, client);
            let available = acct.available.scaled() + a.scaled();
            if a.scaled() < 0 || m.deposits.contains_key(tx) || acct.locked || !fits_i64(available)
                || !fits_i64(available + acct.held.scaled()) {
                m
            } else {
                LedgerModel {
                    accounts: m.accounts.insert(
                        client,
                        with_balances(acct, available, acct.held.scaled()),
                    ),
                    deposits: m.deposits.insert(
                        tx,
                        StoredTransaction {
                            client,
                            amount: a,
                            dispute_state: DisputeState::NotDisputed,
                        },
                    ),
                }
            }
        },
    }
}

/// A withdrawal debits `available`. It is refused when it has no amount, a
/// negative amount, no account, a locked account, or more than is available.
pub open spec fn withdrawal_spec(m: LedgerModel, client: u16, amount: Option<Amount>) -> LedgerModel {
    match amount {
        None => m,
        Some(a) => {
            if a.scaled() < 0 || !m.accounts.contains_key(client) {
                m
            } else {
                let acct = m.accounts[client];
                if acct.locked || acct.available.scaled() < a.scaled() {
                    m
                } else {
                    LedgerModel {
                        accounts: m.accounts.insert(
                            client,
                            with_balances(
                                acct,
                                acct.available.scaled() - a.scaled(),
                                acct.held.scaled(),
                            ),
                        ),
                        ..m
                    }
                }
            }
        },
    }
}

/// The deposit `tx` of `client`, when the ledger has it, its account is
/// present and unlocked, and it stands in dispute state `state`.
pub open spec fn partner_target(m: LedgerModel, client: u16, tx: u32, state: DisputeState) -> bool {
    &&& m.deposits.contains_key(tx)
    &&& m.deposits[tx].client == client
    &&& m.deposits[tx].dispute_state == state
    &&& m.accounts.contains_key(client)
    &&& !m.accounts[client].locked
}

/// `m` with the account of `client` and the dispute state of deposit `tx` replaced.
pub open spec fn with_partner_update(
    m: LedgerModel,
    client: u16,
    tx: u32,
    acct: Account,
    state: DisputeState,
) -> LedgerModel {
    LedgerModel {
        accounts: m.accounts.insert(client, acct),
        deposits: m.deposits.insert(tx, StoredTransaction { dispute_state: state, ..m.deposits[tx] }),
    }
}

/// A dispute moves an undisputed deposit's amount from `available` to `held`.
/// Any other dispute is ignored.
pub open spec fn dispute_spec(m: LedgerModel, client: u16, tx: u32) -> LedgerModel {
    if !partner_target(m, client, tx, DisputeState::NotDisputed) {
        m
    } else {
        let acct = m.accounts[client];
        let amt = m.deposits[tx].amount.scaled();
        let available = acct.available.scaled() - amt;
        let held = acct.held.scaled() + amt;
        if !fits_i64(available) || !fits_i64(held) {
            m
        } else {
            with_partner_update(
                m,
                client,
                tx,
                with_balances(acct, available, held),
                DisputeState::Disputed,
            )
        }
    }
}

/// A resolve moves a disputed deposit's amount from `held` back to
/// `available`. Any other resolve is ignored.
pub open spec fn resolve_spec(m: LedgerModel, client: u16, tx: u32) -> LedgerModel {
    if !partner_target(m, client, tx, DisputeState::Disputed) {
        m
    } else {
        let acct = m.accounts[client];
        let amt = m.deposits[tx].amount.scaled();
        let available = acct.available.scaled() + amt;
        let held = acct.held.scaled() - amt;
        if held < 0 || !fits_i64(available) {
            m
        } else {
            with_partner_update(
                m,
                client,
                tx,
                with_balances(acct, available, held),
                DisputeState::Resolved,
            )
        }
    }
}

/// A chargeback removes a disputed deposit's amount from `held` and locks the
/// account. Any other chargeback is ignored.
pub open spec fn chargeback_spec(m: LedgerModel, client: u16, tx: u32) -> LedgerModel {
    if !partner_target(m, client, tx, DisputeState::Disputed) {
        m
    } else {
        let acct = m.accounts[client];
        let amt = m.deposits[tx].amount.scaled();
        let held = acct.held.scaled() - amt;
        if held < 0 {
            m
        } else {
            with_partner_update(
                m,
                client,
                tx,
                Account { locked: true, ..with_balances(acct, acct.available.scaled(), held) },
                DisputeState::ChargedBack,
            )
        }
    }
}

/// The ledger after applying `t` to `m`.
pub open spec fn apply_spec(m: LedgerModel, t: Transaction) -> LedgerModel {
    match t.kind {
        TransactionKind::Deposit => deposit_spec(m, t.client, t.tx, t.amount),
        TransactionKind::Withdrawal => withdrawal_spec(m, t.client, t.amount),
        TransactionKind::Dispute => dispute_spec(m, t.client, t.tx),
        TransactionKind::Resolve => resolve_spec(m, t.client, t.tx),
        TransactionKind::Chargeback => chargeback_spec(m, t.client, t.tx),
    }
}

/// The ledger after applying every transaction of `ts` in order.
pub open spec fn replay(m: LedgerModel, ts: Seq<Transaction>) -> LedgerModel
    decreases ts.len(),
{
    if ts.len() == 0 {
        m
    } else {
        apply_spec(replay(m, ts.drop_last()), ts.last())
    }
}

/// The accounts of clients below `n`, in increasing client order.
pub open spec fn ordered_accounts(accounts: Map<u16, Account>, n: int) -> Seq<Account>
    decreases n,
{
    if n <= 0 {
        Seq::empty()
    } else {
        let rest = ordered_accounts(accounts, n - 1);
        if accounts.contains_key((n - 1) as u16) {
            rest.push(accounts[(n - 1) as u16])
        } else {
            rest
        }
    }
}

/// The client accounts, and the deposits that disputes may refer to.
pub struct Ledger {
    accounts: HashMap<u16, Account>,
    deposits: HashMap<u32, StoredTransaction>,
}

impl View for Ledger {
    type V = LedgerModel;

    closed spec fn view(&self) -> LedgerModel {
        LedgerModel { accounts: self.accounts@, deposits: self.deposits@ }
    }
}

impl Default for Ledger {
    /// An empty ledger, as `Ledger::new` gives.
    fn default() -> (r: Ledger)
        ensures
            r@ == empty_ledger(),
    {
        Ledger::new()
    }
}

impl Ledger {
    /// Every ledger is well formed; `use_type_invariant` on a ledger gives
    /// `ledger_wf` of its view, which the laws below take as their premise.
    #[verifier::type_invariant]
    pub open spec fn well_formed(self) -> bool {
        ledger_wf(self@)
    }

    /// An empty ledger.
    pub fn new() -> (r: Ledger)
        ensures
            r@.accounts == Map::<u16, Account>::empty(),
            r@.deposits == Map::<u32, StoredTransaction>::empty(),
    {
        Ledger { accounts: HashMap::new(), deposits: HashMap::new() }
    }

    /// Applies every transaction of `transactions`, in order.
    pub fn apply_all(&mut self, transactions: &Vec<Transaction>)
        ensures
            final(self)@ == replay(old(self)@, transactions@),
    {
        let mut i: usize = 0;
        while i < transactions.len()
            invariant
                i <= transactions.len(),
                self@ == replay(old(self)@, transactions@.take(i as int)),
            decreases transactions.len() - i,
        {
            self.apply(&transactions[i]);
            assert(transactions@.take(i + 1).drop_last() == transactions@.take(i as int));
            i = i + 1;
        }
        assert(transactions@.take(transactions.len() as int) == transactions@);
    }

    /// Moves both maps out, leaving the ledger empty.
    fn take_maps(&mut self) -> (r: (HashMap<u16, Account>, HashMap<u32, StoredTransaction>))
        ensures
            r.0@ == old(self)@.accounts,
            r.1@ == old(self)@.deposits,
    {
        let mut taken = Ledger::new();
        std::mem::swap(&mut taken, self);
        (taken.accounts, taken.deposits)
    }

    /// Puts well-formed maps back into the ledger.
    fn put_maps(
        &mut self,
        accounts: HashMap<u16, Account>,
        deposits: HashMap<u32, StoredTransaction>,
    )
        requires
            ledger_wf(LedgerModel { accounts: accounts@, deposits: deposits@ }),
        ensures
            final(self)@ == (LedgerModel { accounts: accounts@, deposits: deposits@ }),
    {
        *self = Ledger { accounts, deposits };
    }

    /// The accounts, in increasing client order.
    pub fn accounts(&self) -> (r: Vec<Account>)
        ensures
            r@ == ordered_accounts(self@.accounts, 0x10000),
            forall|i: int| 0 <= i < r.len() ==> (#[trigger] r@[i]).consistent(),
    {
        proof {
            use_type_invariant(self);
            lemma_accounts_listing(self@);
        }
        let mut r: Vec<Account> = Vec::new();
        let mut c: u32 = 0;
        while c < 0x10000
            invariant
                c <= 0x10000,
                r@ == ordered_accounts(self@.accounts, c as int),
            decreases 0x10000 - c,
        {
            let client = c as u16;
            assert(client == (c + 1 - 1) as u16);
            match self.accounts.get(&client) {
                Some(a) => {
                    r.push(*a);
                },
                None => {},
            }
            c = c + 1;
        }
        assert forall|i: int| 0 <= i < r.len() implies (#[trigger] r@[i]).consistent() by {
            assert(self@.accounts.contains_key(r@[i].client));
        }
        r
    }

    /// Applies one transaction, following the rules of `apply_spec`.
    pub fn apply(&mut self, transaction: &Transaction)
        ensures
            final(self)@ == apply_spec(old(self)@, *transaction),
    {
        match transaction.kind {
            TransactionKind::Deposit => self.apply_deposit(
                transaction.client,
                transaction.tx,
                transaction.amount,
            ),
            TransactionKind::Withdrawal => self.apply_withdrawal(
                transaction.client,
                transaction.amount,
            ),
            TransactionKind::Dispute => self.apply_dispute(transaction.client, transaction.tx),
            TransactionKind::Resolve => self.apply_resolve(transaction.client, transaction.tx),
            TransactionKind::Chargeback => self.apply_chargeback(
                transaction.client,
                transaction.tx,
            ),
        }
    }

    fn apply_deposit(&mut self, client: u16, tx: u32, amount: Option<Amount>)
        ensures
            final(self)@ == deposit_spec(old(self)@, client, tx, amount),
    {
        proof {
            use_type_invariant(&*self);
        }
        let a = match amount {
            Some(a) => a,
            None => return ,
        };
        if a.as_scaled() < 0 || self.deposits.contains_key(&tx) {
            return ;
        }
        let acct = match self.accounts.get(&client) {
            Some(x) => *x,
            None => Account::new(client),
        };
        assert(acct == account_or_blank(self@, client));
        if acct.locked {
            return ;
        }
        let available = match acct.available.checked_add(a) {
            Some(v) => v,
            None => return ,
        };
        let total = match available.checked_add(acct.held) {
            Some(v) => v,
            None => return ,
        };
        let updated = Account { available, ..acct };
        assert(updated == with_balances(acct, available.scaled(), acct.held.scaled()));
        let (mut accounts, mut deposits) = self.take_maps();
        accounts.insert(client, updated);
        deposits.insert(
            tx,
            StoredTransaction { client, amount: a, dispute_state: DisputeState::NotDisputed },
        );
        self.put_maps(accounts, deposits);
    }

    fn apply_withdrawal(&mut self, client: u16, amount: Option<Amount>)
        ensures
            final(self)@ == withdrawal_spec(old(self)@, client, amount),
    {
        proof {
            use_type_invariant(&*self);
        }
        let a = match amount {
            Some(a) => a,
            None => return ,
        };
        if a.as_scaled() < 0 {
            return ;
        }
        let acct = match self.accounts.get(&client) {
            Some(x) => *x,
            None => return ,
        };
        if acct.locked || acct.available.as_scaled() < a.as_scaled() {
            return ;
        }
        let available = Amount::from_scaled(acct.available.as_scaled() - a.as_scaled());
        let updated = Account { available, ..acct };
        assert(updated == with_balances(acct, available.scaled(), acct.held.scaled()));
        let (mut accounts, deposits) = self.take_maps();
        accounts.insert(client, updated);
        self.put_maps(accounts, deposits);
    }

    /// The deposit `tx` and the account of `client`, when `partner_target` holds.
    fn partner(&self, client: u16, tx: u32, state: DisputeState) -> (r: Option<(StoredTransaction, Account)>)
        ensures
            match r {
                Some((d, acct)) => partner_target(self@, client, tx, state) && d == self@.deposits[tx]
                    && acct == self@.accounts[client],
                None => !partner_target(self@, client, tx, state),
            },
    {
        let d = match self.deposits.get(&tx) {
            Some(d) => *d,
            None => return None,
        };
        if d.client != client || d.dispute_state != state {
            return None;
        }
        let acct = match self.accounts.get(&client) {
            Some(x) => *x,
            None => return None,
        };
        if acct.locked {
            return None;
        }
        Some((d, acct))
    }

    fn apply_dispute(&mut self, client: u16, tx: u32)
        ensures
            final(self)@ == dispute_spec(old(self)@, client, tx),
    {
        proof {
            use_type_invariant(&*self);
        }
        let (d, acct) = match self.partner(client, tx, DisputeState::NotDisputed) {
            Some(p) => p,
            None => return ,
        };
        let available = match acct.available.checked_sub(d.amount) {
            Some(v) => v,
            None => return ,
        };
        let held = match acct.held.checked_add(d.amount) {
            Some(v) => v,
            None => return ,
        };
        let updated = Account { available, held, ..acct };
        assert(updated == with_balances(acct, available.scaled(), held.scaled()));
        let (mut accounts, mut deposits) = self.take_maps();
        accounts.insert(client, updated);
        deposits.insert(tx, StoredTransaction { dispute_state: DisputeState::Disputed, ..d });
        self.put_maps(accounts, deposits);
    }

    fn apply_resolve(&mut self, client: u16, tx: u32)
        ensures
            final(self)@ == resolve_spec(old(self)@, client, tx),
    {
        proof {
            use_type_invariant(&*self);
        }
        let (d, acct) = match self.partner(client, tx, DisputeState::Disputed) {
            Some(p) => p,
            None => return ,
        };
        if acct.held.as_scaled() < d.amount.as_scaled() {
            return ;
        }
        let available = match acct.available.checked_add(d.amount) {
            Some(v) => v,
            None => return ,
        };
        let held = Amount::from_scaled(acct.held.as_scaled() - d.amount.as_scaled());
        let updated = Account { available, held, ..acct };
        assert(updated == with_balances(acct, available.scaled(), held.scaled()));
        let (mut accounts, mut deposits) = self.take_maps();
        accounts.insert(client, updated);
        deposits.insert(tx, StoredTransaction { dispute_state: DisputeState::Resolved, ..d });
        self.put_maps(accounts, deposits);
    }

    fn apply_chargeback(&mut self, client: u16, tx: u32)
        ensures
            final(self)@ == chargeback_spec(old(self)@, client, tx),
    {
        proof {
            use_type_invariant(&*self);
        }
        let (d, acct) = match self.partner(client, tx, DisputeState::Disputed) {
            Some(p) => p,
            None => return ,
        };
        if acct.held.as_scaled() < d.amount.as_scaled() {
            return ;
        }
        let held = Amount::from_scaled(acct.held.as_scaled() - d.amount.as_scaled());
        let updated = Account { held, locked: true, ..acct };
        assert(updated == Account {
            locked: true,
            ..with_balances(acct, acct.available.scaled(), held.scaled())
        });
        let (mut accounts, mut deposits) = self.take_maps();
        accounts.insert(client, updated);
        deposits.insert(tx, StoredTransaction { dispute_state: DisputeState::ChargedBack, ..d });
        self.put_maps(accounts, deposits);
    }
}


/// Applying any transaction keeps a well-formed ledger well formed: no
/// account ever holds a negative amount or has a total outside `i64`.
pub proof fn lemma_apply_preserves_wf(m: LedgerModel, t: Transaction)
    requires
        ledger_wf(m),
    ensures
        ledger_wf(apply_spec(m, t)),
{
    let r = apply_spec(m, t);
    assert forall|c: u16| #[trigger] r.accounts.contains_key(c) implies r.accounts[c].client == c
        && r.accounts[c].consistent() by {
        if m.accounts.contains_key(c) {
            let d = m.accounts[c];
            assert(d.client == c && d.consistent());
        }
    }
    assert forall|id: u32| #[trigger] r.deposits.contains_key(id) implies r.deposits[id].amount.scaled()
        >= 0 && r.accounts.contains_key(r.deposits[id].client) by {
        if m.deposits.contains_key(id) {
            assert(m.deposits[id].amount.scaled() >= 0);
            assert(m.accounts.contains_key(m.deposits[id].client));
        }
    }
}

/// Replaying any sequence of transactions keeps a well-formed ledger well formed.
pub proof fn lemma_replay_preserves_wf(m: LedgerModel, ts: Seq<Transaction>)
    requires
        ledger_wf(m),
    ensures
        ledger_wf(replay(m, ts)),
    decreases ts.len(),
{
    if ts.len() > 0 {
        lemma_replay_preserves_wf(m, ts.drop_last());
        lemma_apply_preserves_wf(replay(m, ts.drop_last()), ts.last());
    }
}

/// Once an account is locked, no transaction changes it.
pub proof fn lemma_locked_account_is_frozen(m: LedgerModel, t: Transaction, c: u16)
    requires
        m.accounts.contains_key(c),
        m.accounts[c].locked,
    ensures
        apply_spec(m, t).accounts.contains_key(c),
        apply_spec(m, t).accounts[c] == m.accounts[c],
{
}

/// A transaction leaves every other client's account as it was, present or
/// absent.
pub proof fn lemma_other_clients_unaffected(m: LedgerModel, t: Transaction, c: u16)
    requires
        c != t.client,
    ensures
        apply_spec(m, t).accounts.contains_key(c) == m.accounts.contains_key(c),
        m.accounts.contains_key(c) ==> apply_spec(m, t).accounts[c] == m.accounts[c],
{
}

/// Only a deposit opens an account: any other transaction leaves the set of
/// clients unchanged.
pub proof fn lemma_only_deposits_open_accounts(m: LedgerModel, t: Transaction)
    requires
        t.kind != TransactionKind::Deposit,
        ledger_wf(m),
    ensures
        apply_spec(m, t).accounts.dom() == m.accounts.dom(),
{
    let r = apply_spec(m, t);
    assert(r.accounts.dom() =~= m.accounts.dom());
}

/// An accepted deposit credits its amount to `available` and leaves `held`
/// and the lock unchanged.
pub proof fn lemma_deposit_credits(m: LedgerModel, t: Transaction)
    requires
        t.kind == TransactionKind::Deposit,
        apply_spec(m, t) != m,
    ensures
        t.amount is Some,
        apply_spec(m, t).accounts.contains_key(t.client),
        apply_spec(m, t).accounts[t.client].available.scaled() == account_or_blank(
            m,
            t.client,
        ).available.scaled() + t.amount->0.scaled(),
        apply_spec(m, t).accounts[t.client].held == account_or_blank(m, t.client).held,
        !apply_spec(m, t).accounts[t.client].locked,
        apply_spec(m, t).deposits[t.tx] == (StoredTransaction {
            client: t.client,
            amount: t.amount->0,
            dispute_state: DisputeState::NotDisputed,
        }),
{
    broadcast use Amount::lemma_of_scaled;

}

/// A withdrawal never overdraws: when the account exists, is unlocked and has
/// at least the (non-negative) amount available, it debits `available`, which
/// stays non-negative; otherwise the ledger is unchanged.
pub proof fn lemma_withdrawal_never_overdraws(m: LedgerModel, t: Transaction)
    requires
        t.kind == TransactionKind::Withdrawal,
        ledger_wf(m),
    ensures
        ({
            let r = apply_spec(m, t);
            if t.amount is Some && t.amount->0.scaled() >= 0 && m.accounts.contains_key(t.client)
                && !m.accounts[t.client].locked && m.accounts[t.client].available.scaled()
                >= t.amount->0.scaled() {
                &&& r.accounts[t.client].available.scaled() == m.accounts[t.client].available.scaled()
                    - t.amount->0.scaled()
                &&& r.accounts[t.client].available.scaled() >= 0
                &&& r.accounts[t.client].held == m.accounts[t.client].held
                &&& !r.accounts[t.client].locked
                &&& r.deposits == m.deposits
            } else {
                r == m
            }
        }),
{
    broadcast use Amount::lemma_of_scaled, Amount::lemma_scaled_fits, Amount::lemma_scaled_roundtrip;

}

/// Disputes and resolves move money between `available` and `held` without
/// changing any account's total.
pub proof fn lemma_disputes_keep_totals(m: LedgerModel, t: Transaction, c: u16)
    requires
        t.kind == TransactionKind::Dispute || t.kind == TransactionKind::Resolve,
        ledger_wf(m),
        m.accounts.contains_key(c),
    ensures
        apply_spec(m, t).accounts.contains_key(c),
        apply_spec(m, t).accounts[c].total_value() == m.accounts[c].total_value(),
        apply_spec(m, t).accounts[c].locked == m.accounts[c].locked,
{
    broadcast use Amount::lemma_of_scaled, Amount::lemma_scaled_fits;

    if m.deposits.contains_key(t.tx) {
        assert(m.deposits[t.tx].amount.scaled() >= 0);
    }
}

/// A dispute that takes effect followed by a resolve of the same deposit
/// gives the client back exactly the balances from before the dispute, and
/// marks the deposit resolved.
pub proof fn lemma_dispute_then_resolve_restores(m: LedgerModel, client: u16, tx: u32, a1: Option<Amount>, a2: Option<Amount>)
    requires
        ledger_wf(m),
        apply_spec(m, Transaction { kind: TransactionKind::Dispute, client, tx, amount: a1 }) != m,
    ensures
        ({
            let m1 = apply_spec(m, Transaction { kind: TransactionKind::Dispute, client, tx, amount: a1 });
            let m2 = apply_spec(m1, Transaction { kind: TransactionKind::Resolve, client, tx, amount: a2 });
            &&& m1.deposits[tx].dispute_state == DisputeState::Disputed
            &&& m2.accounts == m.accounts
            &&& m2.deposits == m.deposits.insert(
                tx,
                StoredTransaction { dispute_state: DisputeState::Resolved, ..m.deposits[tx] },
            )
        }),
{
    broadcast use Amount::lemma_of_scaled, Amount::lemma_scaled_fits, Amount::lemma_scaled_roundtrip;

    let m1 = apply_spec(m, Transaction { kind: TransactionKind::Dispute, client, tx, amount: a1 });
    let m2 = apply_spec(m1, Transaction { kind: TransactionKind::Resolve, client, tx, amount: a2 });
    assert(partner_target(m, client, tx, DisputeState::NotDisputed));
    let acct = m.accounts[client];
    let amt = m.deposits[tx].amount.scaled();
    assert(m.deposits[tx].amount.scaled() >= 0);
    assert(partner_target(m1, client, tx, DisputeState::Disputed));
    assert(m2.accounts[client] == acct);
    assert(m2.accounts =~= m.accounts);
    assert(m2.deposits =~= m.deposits.insert(
        tx,
        StoredTransaction { dispute_state: DisputeState::Resolved, ..m.deposits[tx] },
    ));
}

/// A chargeback that takes effect removes the disputed amount from `held`
/// and from the total, keeps `available`, and locks the account.
pub proof fn lemma_chargeback_locks(m: LedgerModel, t: Transaction)
    requires
        t.kind == TransactionKind::Chargeback,
        ledger_wf(m),
        apply_spec(m, t) != m,
    ensures
        m.deposits.contains_key(t.tx),
        m.deposits[t.tx].dispute_state == DisputeState::Disputed,
        m.accounts.contains_key(t.client),
        apply_spec(m, t).accounts[t.client].locked,
        apply_spec(m, t).accounts[t.client].available == m.accounts[t.client].available,
        apply_spec(m, t).accounts[t.client].total_value() == m.accounts[t.client].total_value()
            - m.deposits[t.tx].amount.scaled(),
        apply_spec(m, t).deposits[t.tx].dispute_state == DisputeState::ChargedBack,
{
    broadcast use Amount::lemma_of_scaled, Amount::lemma_scaled_fits, Amount::lemma_scaled_roundtrip;

    assert(m.deposits[t.tx].amount.scaled() >= 0);
}

/// A deposit of a non-negative amount under an unused transaction id, to a
/// client without an account or with an unlocked one, always takes effect
/// when the new `available` and the new total fit an `i64`, whatever the
/// account holds: `available` grows by the amount, `held` and the lock stay,
/// and the deposit is recorded, undisputed, for that client.
pub proof fn lemma_deposit_takes_effect(m: LedgerModel, t: Transaction)
    requires
        t.kind == TransactionKind::Deposit,
        t.amount is Some,
        t.amount->0.scaled() >= 0,
        !m.deposits.contains_key(t.tx),
        m.accounts.contains_key(t.client) ==> !m.accounts[t.client].locked,
        fits_i64(account_or_blank(m, t.client).available.scaled() + t.amount->0.scaled()),
        fits_i64(account_or_blank(m, t.client).total_value() + t.amount->0.scaled()),
    ensures
        ({
            let r = apply_spec(m, t);
            let before = account_or_blank(m, t.client);
            &&& r.accounts.contains_key(t.client)
            &&& r.accounts[t.client].client == before.client
            &&& r.accounts[t.client].available.scaled() == before.available.scaled()
                + t.amount->0.scaled()
            &&& r.accounts[t.client].held == before.held
            &&& r.accounts[t.client].locked == before.locked
            &&& r.deposits.contains_key(t.tx)
            &&& r.deposits[t.tx] == (StoredTransaction {
                client: t.client,
                amount: t.amount->0,
                dispute_state: DisputeState::NotDisputed,
            })
            &&& forall|id: u32| id != t.tx && #[trigger] m.deposits.contains_key(id)
                ==> r.deposits.contains_key(id) && r.deposits[id] == m.deposits[id]
        }),
{
    broadcast use Amount::lemma_of_scaled;

}

/// A dispute of an undisputed deposit of the same client, whose account is
/// unlocked, always takes effect when the new balances fit an `i64`,
/// whatever the account already holds: the deposit's amount moves from
/// `available` to `held`, and the deposit becomes disputed.
pub proof fn lemma_dispute_takes_effect(m: LedgerModel, t: Transaction)
    requires
        t.kind == TransactionKind::Dispute,
        m.deposits.contains_key(t.tx),
        m.deposits[t.tx].client == t.client,
        m.deposits[t.tx].dispute_state == DisputeState::NotDisputed,
        m.accounts.contains_key(t.client),
        !m.accounts[t.client].locked,
        fits_i64(m.accounts[t.client].available.scaled() - m.deposits[t.tx].amount.scaled()),
        fits_i64(m.accounts[t.client].held.scaled() + m.deposits[t.tx].amount.scaled()),
    ensures
        ({
            let r = apply_spec(m, t);
            let before = m.accounts[t.client];
            let amt = m.deposits[t.tx].amount.scaled();
            &&& r.accounts.contains_key(t.client)
            &&& r.accounts[t.client].client == before.client
            &&& r.accounts[t.client].available.scaled() == before.available.scaled() - amt
            &&& r.accounts[t.client].held.scaled() == before.held.scaled() + amt
            &&& !r.accounts[t.client].locked
            &&& r.deposits.contains_key(t.tx)
            &&& r.deposits[t.tx] == (StoredTransaction {
                dispute_state: DisputeState::Disputed,
                ..m.deposits[t.tx]
            })
            &&& forall|id: u32| id != t.tx && #[trigger] m.deposits.contains_key(id)
                ==> r.deposits.contains_key(id) && r.deposits[id] == m.deposits[id]
        }),
{
    broadcast use Amount::lemma_of_scaled;

}

/// Disputing two different undisputed deposits of one unlocked client, one
/// after the other, holds both amounts: `held` grows by their sum and
/// `available` shrinks by it, when every balance on the way fits an `i64`.
pub proof fn lemma_two_disputes_hold_both(m: LedgerModel, client: u16, tx1: u32, tx2: u32, a1: Option<Amount>, a2: Option<Amount>)
    requires
        tx1 != tx2,
        m.deposits.contains_key(tx1),
        m.deposits.contains_key(tx2),
        m.deposits[tx1].client == client,
        m.deposits[tx2].client == client,
        m.deposits[tx1].dispute_state == DisputeState::NotDisputed,
        m.deposits[tx2].dispute_state == DisputeState::NotDisputed,
        m.accounts.contains_key(client),
        !m.accounts[client].locked,
        fits_i64(m.accounts[client].available.scaled() - m.deposits[tx1].amount.scaled()),
        fits_i64(m.accounts[client].available.scaled() - m.deposits[tx1].amount.scaled()
            - m.deposits[tx2].amount.scaled()),
        fits_i64(m.accounts[client].held.scaled() + m.deposits[tx1].amount.scaled()),
        fits_i64(m.accounts[client].held.scaled() + m.deposits[tx1].amount.scaled()
            + m.deposits[tx2].amount.scaled()),
    ensures
        ({
            let m1 = apply_spec(m, Transaction { kind: TransactionKind::Dispute, client, tx: tx1, amount: a1 });
            let m2 = apply_spec(m1, Transaction { kind: TransactionKind::Dispute, client, tx: tx2, amount: a2 });
            let sum = m.deposits[tx1].amount.scaled() + m.deposits[tx2].amount.scaled();
            &&& m2.accounts[client].held.scaled() == m.accounts[client].held.scaled() + sum
            &&& m2.accounts[client].available.scaled() == m.accounts[client].available.scaled() - sum
            &&& m2.deposits[tx1].dispute_state == DisputeState::Disputed
            &&& m2.deposits[tx2].dispute_state == DisputeState::Disputed
        }),
{
    let t1 = Transaction { kind: TransactionKind::Dispute, client, tx: tx1, amount: a1 };
    let t2 = Transaction { kind: TransactionKind::Dispute, client, tx: tx2, amount: a2 };
    lemma_dispute_takes_effect(m, t1);
    let m1 = apply_spec(m, t1);
    assert(m1.deposits[tx2] == m.deposits[tx2]);
    lemma_dispute_takes_effect(m1, t2);
}

/// A resolve of a disputed deposit of the same, unlocked client whose `held`
/// covers the amount always takes effect when the new `available` fits an
/// `i64`: the amount moves back from `held` to `available`, and the deposit
/// becomes resolved.
pub proof fn lemma_resolve_takes_effect(m: LedgerModel, t: Transaction)
    requires
        ledger_wf(m),
        t.kind == TransactionKind::Resolve,
        m.deposits.contains_key(t.tx),
        m.deposits[t.tx].client == t.client,
        m.deposits[t.tx].dispute_state == DisputeState::Disputed,
        m.accounts.contains_key(t.client),
        !m.accounts[t.client].locked,
        m.accounts[t.client].held.scaled() >= m.deposits[t.tx].amount.scaled(),
        fits_i64(m.accounts[t.client].available.scaled() + m.deposits[t.tx].amount.scaled()),
    ensures
        ({
            let r = apply_spec(m, t);
            let before = m.accounts[t.client];
            let amt = m.deposits[t.tx].amount.scaled();
            &&& r.accounts.contains_key(t.client)
            &&& r.accounts[t.client].client == before.client
            &&& r.accounts[t.client].available.scaled() == before.available.scaled() + amt
            &&& r.accounts[t.client].held.scaled() == before.held.scaled() - amt
            &&& !r.accounts[t.client].locked
            &&& r.deposits[t.tx] == (StoredTransaction {
                dispute_state: DisputeState::Resolved,
                ..m.deposits[t.tx]
            })
        }),
{
    broadcast use Amount::lemma_of_scaled, Amount::lemma_scaled_fits;

    assert(m.deposits[t.tx].amount.scaled() >= 0);

}

/// A chargeback of a disputed deposit of the same, unlocked client whose
/// `held` covers the amount always takes effect, whatever the sign of
/// `available`: the amount leaves `held`, `available` stays, the account is
/// locked and the deposit becomes charged back.
pub proof fn lemma_chargeback_takes_effect(m: LedgerModel, t: Transaction)
    requires
        ledger_wf(m),
        t.kind == TransactionKind::Chargeback,
        m.deposits.contains_key(t.tx),
        m.deposits[t.tx].client == t.client,
        m.deposits[t.tx].dispute_state == DisputeState::Disputed,
        m.accounts.contains_key(t.client),
        !m.accounts[t.client].locked,
        m.accounts[t.client].held.scaled() >= m.deposits[t.tx].amount.scaled(),
    ensures
        ({
            let r = apply_spec(m, t);
            let before = m.accounts[t.client];
            let amt = m.deposits[t.tx].amount.scaled();
            &&& r != m
            &&& r.accounts.contains_key(t.client)
            &&& r.accounts[t.client].client == before.client
            &&& r.accounts[t.client].available == before.available
            &&& r.accounts[t.client].held.scaled() == before.held.scaled() - amt
            &&& r.accounts[t.client].locked
            &&& r.deposits[t.tx] == (StoredTransaction {
                dispute_state: DisputeState::ChargedBack,
                ..m.deposits[t.tx]
            })
        }),
{
    broadcast use Amount::lemma_of_scaled, Amount::lemma_scaled_fits;

    assert(m.deposits[t.tx].amount.scaled() >= 0);
    assert(apply_spec(m, t).accounts[t.client].locked);
    assert(apply_spec(m, t).accounts[t.client] != m.accounts[t.client]);
}

/// A deposit without an amount, under a transaction id a deposit already
/// used, or to a locked account changes nothing.
pub proof fn lemma_deposit_refused(m: LedgerModel, t: Transaction)
    requires
        t.kind == TransactionKind::Deposit,
        t.amount is None || m.deposits.contains_key(t.tx) || (m.accounts.contains_key(t.client)
            && m.accounts[t.client].locked),
    ensures
        apply_spec(m, t) == m,
{
}

/// A dispute, resolve or chargeback changes nothing unless it names a stored
/// deposit of its own client, whose account is unlocked, in the state it
/// acts on: undisputed for a dispute, disputed for a resolve or chargeback.
pub proof fn lemma_partner_row_without_target_is_ignored(m: LedgerModel, t: Transaction)
    requires
        t.kind == TransactionKind::Dispute || t.kind == TransactionKind::Resolve || t.kind
            == TransactionKind::Chargeback,
        !m.deposits.contains_key(t.tx) || m.deposits[t.tx].client != t.client
            || !m.accounts.contains_key(t.client) || m.accounts[t.client].locked || (t.kind
            == TransactionKind::Dispute && m.deposits[t.tx].dispute_state != DisputeState::NotDisputed)
            || (t.kind != TransactionKind::Dispute && m.deposits[t.tx].dispute_state
            != DisputeState::Disputed),
    ensures
        apply_spec(m, t) == m,
{
}

/// A deposit that was resolved or charged back can never be disputed again.
pub proof fn lemma_settled_deposits_stay_settled(m: LedgerModel, t: Transaction)
    requires
        m.deposits.contains_key(t.tx),
        m.deposits[t.tx].dispute_state == DisputeState::Resolved
            || m.deposits[t.tx].dispute_state == DisputeState::ChargedBack,
        ledger_wf(m),
    ensures
        apply_spec(m, t).deposits[t.tx] == m.deposits[t.tx],
{
}


/// The accounts listing holds exactly the ledger's accounts, each once, in
/// strictly increasing client order.
pub proof fn lemma_accounts_listing(m: LedgerModel)
    requires
        ledger_wf(m),
    ensures
        ({
            let s = ordered_accounts(m.accounts, 0x10000);
            &&& forall|i: int| 0 <= i < s.len() ==> m.accounts.contains_key(#[trigger] s[i].client)
                && m.accounts[s[i].client] == s[i] && s[i].consistent()
            &&& forall|i: int, j: int| 0 <= i < j < s.len() ==> #[trigger] s[i].client < #[trigger] s[j].client
            &&& forall|c: u16| m.accounts.contains_key(c) ==> s.contains(#[trigger] m.accounts[c])
        }),
{
    lemma_ordered_accounts(m, 0x10000);
}

proof fn lemma_ordered_accounts(m: LedgerModel, n: int)
    requires
        ledger_wf(m),
        0 <= n <= 0x10000,
    ensures
        ({
            let s = ordered_accounts(m.accounts, n);
            &&& forall|i: int| 0 <= i < s.len() ==> m.accounts.contains_key(#[trigger] s[i].client)
                && m.accounts[s[i].client] == s[i] && s[i].consistent() && s[i].client < n
            &&& forall|i: int, j: int| 0 <= i < j < s.len() ==> #[trigger] s[i].client < #[trigger] s[j].client
            &&& forall|c: u16| m.accounts.contains_key(c) && c < n ==> s.contains(#[trigger] m.accounts[c])
        }),
    decreases n,
{
    if n > 0 {
        lemma_ordered_accounts(m, n - 1);
        let rest = ordered_accounts(m.accounts, n - 1);
        let s = ordered_accounts(m.accounts, n);
        let c = (n - 1) as u16;
        assert(c == n - 1);
        if m.accounts.contains_key(c) {
            assert(s == rest.push(m.accounts[c]));
            assert(m.accounts[c].client == c);
            assert forall|i: int| 0 <= i < s.len() implies m.accounts.contains_key(#[trigger] s[i].client)
                && m.accounts[s[i].client] == s[i] && s[i].consistent() && s[i].client < n by {
                if i < rest.len() {
                    assert(s[i] == rest[i]);
                }
            }
            assert forall|i: int, j: int| 0 <= i < j < s.len() implies #[trigger] s[i].client < #[trigger] s[j].client by {
                assert(s[i] == rest[i]);
                if j < rest.len() {
                    assert(s[j] == rest[j]);
                }
            }
            assert forall|d: u16| m.accounts.contains_key(d) && d < n implies s.contains(#[trigger] m.accounts[d]) by {
                if d < n - 1 {
                    assert(rest.contains(m.accounts[d]));
                    let k = choose|k: int| 0 <= k < rest.len() && rest[k] == m.accounts[d];
                    assert(s[k] == rest[k]);
                } else {
                    assert(d == c);
                    assert(s[s.len() - 1] == m.accounts[c]);
                }
            }
        } else {
            assert(s == rest);
            assert forall|d: u16| m.accounts.contains_key(d) && d < n implies s.contains(#[trigger] m.accounts[d]) by {
                if d == n - 1 {
                    assert(d == c);
                }
            }
        }
    }
}


/// The empty ledger.
pub open spec fn empty_ledger() -> LedgerModel {
    LedgerModel { accounts: Map::empty(), deposits: Map::empty() }
}

/// The accounts, by client, after applying `transactions` to an empty ledger.
pub fn accounts_after(transactions: &Vec<Transaction>) -> (r: Vec<Account>)
    ensures
        r@ == ordered_accounts(replay(empty_ledger(), transactions@).accounts, 0x10000),
{
    let mut ledger = Ledger::new();
    assert(ledger@ == empty_ledger());
    ledger.apply_all(transactions);
    ledger.accounts()
}

/// Applying transactions in two runs is applying them all in one.
pub proof fn lemma_replay_concat(m: LedgerModel, a: Seq<Transaction>, b: Seq<Transaction>)
    ensures
        replay(m, a + b) == replay(replay(m, a), b),
    decreases b.len(),
{
    if b.len() == 0 {
        assert(a + b == a);
    } else {
        lemma_replay_concat(m, a, b.drop_last());
        assert((a + b).drop_last() == a + b.drop_last());
        assert((a + b).last() == b.last());
    }
}


/// Disputes, resolves and chargebacks take their amount from the stored
/// deposit: the amount on the row itself changes nothing.
pub proof fn lemma_partner_rows_ignore_their_amount(m: LedgerModel, t: Transaction, amount: Option<Amount>)
    requires
        t.kind == TransactionKind::Dispute || t.kind == TransactionKind::Resolve || t.kind
            == TransactionKind::Chargeback,
    ensures
        apply_spec(m, Transaction { amount, ..t }) == apply_spec(m, t),
{
}

/// Deposits and withdrawals of a negative amount are refused: the ledger is
/// unchanged.
pub proof fn lemma_negative_amounts_refused(m: LedgerModel, t: Transaction)
    requires
        t.kind == TransactionKind::Deposit || t.kind == TransactionKind::Withdrawal,
        t.amount is Some,
        t.amount->0.scaled() < 0,
    ensures
        apply_spec(m, t) == m,
{
}

} // verus!
