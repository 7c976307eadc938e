use payments_engine::domain::{Account, Amount, Ledger, Transaction, TransactionKind};

fn tx(kind: TransactionKind, client: u16, id: u32, amount: Option<i64>) -> Transaction {
    Transaction { kind, client, tx: id, amount: amount.map(Amount::from_scaled) }
}

fn deposit(client: u16, id: u32, amount: i64) -> Transaction {
    tx(TransactionKind::Deposit, client, id, Some(amount))
}

fn withdrawal(client: u16, id: u32, amount: i64) -> Transaction {
    tx(TransactionKind::Withdrawal, client, id, Some(amount))
}

fn dispute(client: u16, id: u32) -> Transaction {
    tx(TransactionKind::Dispute, client, id, None)
}

fn resolve(client: u16, id: u32) -> Transaction {
    tx(TransactionKind::Resolve, client, id, None)
}

fn chargeback(client: u16, id: u32) -> Transaction {
    tx(TransactionKind::Chargeback, client, id, None)
}

fn ledger_after(transactions: &[Transaction]) -> Ledger {
    let mut ledger = Ledger::new();
    for t in transactions {
        ledger.apply(t);
    }
    ledger
}

fn account(client: u16, available: i64, held: i64, locked: bool) -> Account {
    Account {
        client,
        available: Amount::from_scaled(available),
        held: Amount::from_scaled(held),
        locked,
    }
}

#[test]
fn deposit_opens_and_credits_account() {
    let ledger = ledger_after(&[deposit(1, 1, 10_000), deposit(1, 2, 5_000)]);
    assert_eq!(ledger.accounts(), vec![account(1, 15_000, 0, false)]);
}

#[test]
fn withdrawal_beyond_available_is_ignored() {
    let ledger = ledger_after(&[deposit(1, 1, 10_000), withdrawal(1, 2, 10_001)]);
    assert_eq!(ledger.accounts(), vec![account(1, 10_000, 0, false)]);
}

#[test]
fn withdrawal_of_everything_leaves_zero() {
    let ledger = ledger_after(&[deposit(1, 1, 10_000), withdrawal(1, 2, 10_000)]);
    assert_eq!(ledger.accounts(), vec![account(1, 0, 0, false)]);
}

#[test]
fn withdrawal_for_unknown_client_opens_no_account() {
    let ledger = ledger_after(&[withdrawal(7, 1, 0)]);
    assert!(ledger.accounts().is_empty());
}

#[test]
fn partner_rows_for_unknown_transactions_are_ignored() {
    let ledger = ledger_after(&[dispute(2, 10), resolve(2, 10), chargeback(2, 10)]);
    assert!(ledger.accounts().is_empty());
}

#[test]
fn dispute_moves_funds_to_held() {
    let ledger = ledger_after(&[deposit(1, 1, 10_000), deposit(1, 2, 2_000), dispute(1, 1)]);
    assert_eq!(ledger.accounts(), vec![account(1, 2_000, 10_000, false)]);
}

#[test]
fn dispute_then_resolve_restores_balances() {
    let ledger = ledger_after(&[deposit(1, 1, 10_000), dispute(1, 1), resolve(1, 1)]);
    assert_eq!(ledger.accounts(), vec![account(1, 10_000, 0, false)]);
}

#[test]
fn resolved_deposit_cannot_be_disputed_again() {
    let ledger =
        ledger_after(&[deposit(1, 1, 10_000), dispute(1, 1), resolve(1, 1), dispute(1, 1)]);
    assert_eq!(ledger.accounts(), vec![account(1, 10_000, 0, false)]);
}

#[test]
fn resolve_without_dispute_is_ignored() {
    let ledger = ledger_after(&[deposit(1, 1, 10_000), resolve(1, 1), chargeback(1, 1)]);
    assert_eq!(ledger.accounts(), vec![account(1, 10_000, 0, false)]);
}

#[test]
fn chargeback_removes_funds_and_locks() {
    let ledger = ledger_after(&[deposit(1, 1, 10_000), deposit(1, 2, 3_000), dispute(1, 1), chargeback(1, 1)]);
    assert_eq!(ledger.accounts(), vec![account(1, 3_000, 0, true)]);
}

#[test]
fn locked_account_ignores_later_rows() {
    let ledger = ledger_after(&[
        deposit(1, 1, 10_000),
        deposit(1, 2, 5_000),
        dispute(1, 1),
        chargeback(1, 1),
        deposit(1, 3, 1_000),
        withdrawal(1, 4, 1_000),
        dispute(1, 2),
    ]);
    assert_eq!(ledger.accounts(), vec![account(1, 5_000, 0, true)]);
}

#[test]
fn dispute_of_another_clients_deposit_is_ignored() {
    let ledger = ledger_after(&[deposit(1, 1, 10_000), deposit(2, 2, 1_000), dispute(2, 1)]);
    assert_eq!(ledger.accounts(), vec![account(1, 10_000, 0, false), account(2, 1_000, 0, false)]);
}

#[test]
fn duplicate_deposit_id_is_ignored() {
    let ledger = ledger_after(&[deposit(1, 1, 10_000), deposit(1, 1, 10_000)]);
    assert_eq!(ledger.accounts(), vec![account(1, 10_000, 0, false)]);
}

#[test]
fn negative_deposit_and_withdrawal_are_ignored() {
    let ledger = ledger_after(&[deposit(1, 1, 10_000), deposit(1, 2, -5_000), withdrawal(1, 3, -5_000)]);
    assert_eq!(ledger.accounts(), vec![account(1, 10_000, 0, false)]);
}

#[test]
fn deposit_without_amount_is_ignored() {
    let ledger = ledger_after(&[tx(TransactionKind::Deposit, 1, 1, None)]);
    assert!(ledger.accounts().is_empty());
}

#[test]
fn dispute_after_withdrawal_can_make_available_negative() {
    let ledger = ledger_after(&[deposit(1, 1, 10_000), withdrawal(1, 2, 8_000), dispute(1, 1)]);
    assert_eq!(ledger.accounts(), vec![account(1, -8_000, 10_000, false)]);
}

#[test]
fn deposit_that_would_overflow_is_ignored() {
    let ledger = ledger_after(&[deposit(1, 1, i64::MAX), deposit(1, 2, 1)]);
    assert_eq!(ledger.accounts(), vec![account(1, i64::MAX, 0, false)]);
}

#[test]
fn clients_are_independent_and_listed_in_order() {
    let ledger = ledger_after(&[
        deposit(3, 1, 30_000),
        deposit(1, 2, 10_000),
        deposit(2, 3, 20_000),
        withdrawal(1, 4, 5_000),
        dispute(3, 1),
    ]);
    assert_eq!(
        ledger.accounts(),
        vec![account(1, 5_000, 0, false), account(2, 20_000, 0, false), account(3, 0, 30_000, false)]
    );
}

#[test]
fn account_total_is_available_plus_held() {
    assert_eq!(account(1, 5_000, 2_000, false).total(), Some(Amount::from_scaled(7_000)));
    assert_eq!(account(1, i64::MAX, 1, false).total(), None);
    assert_eq!(Account::new(9), account(9, 0, 0, false));
}

#[test]
fn apply_all_matches_one_by_one_and_accounts_after() {
    let transactions = vec![
        deposit(2, 1, 40_000),
        deposit(1, 2, 10_000),
        dispute(2, 1),
        withdrawal(1, 3, 2_500),
        chargeback(2, 1),
    ];
    let mut ledger = Ledger::new();
    ledger.apply_all(&transactions);
    let expected = vec![account(1, 7_500, 0, false), account(2, 0, 0, true)];
    assert_eq!(ledger.accounts(), expected);
    assert_eq!(ledger_after(&transactions).accounts(), expected);
    assert_eq!(payments_engine::domain::ledger::accounts_after(&transactions), expected);

    let mut split = Ledger::new();
    split.apply_all(&transactions[..2].to_vec());
    split.apply_all(&transactions[2..].to_vec());
    assert_eq!(split.accounts(), expected);
}

#[test]
fn default_ledger_is_empty() {
    let ledger = Ledger::default();
    assert!(ledger.accounts().is_empty());
}
