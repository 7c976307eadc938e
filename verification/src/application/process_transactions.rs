use vstd::prelude::*;

use crate::domain::ledger::{empty_ledger, ordered_accounts, replay, Ledger};
use crate::domain::account::Account;
use crate::domain::transaction::Transaction;
use crate::infrastructure::accounts::AccountSink;
use crate::infrastructure::transactions::TransactionSource;

verus! {

/// The kind of an I/O failure, as far as the engine tells kinds apart.
#[derive(Debug, Clone, Copy, PartialEq, Eq, Structural)]
pub enum IoErrorKind {
    BrokenPipe,
    Other,
}

/// An I/O failure: its kind and its message.
#[derive(Debug, Clone)]
pub struct IoFailure {
    pub kind: IoErrorKind,
    pub message: String,
}

/// A CSV failure: the kind of the I/O failure behind it, if any, and its message.
#[derive(Debug, Clone)]
pub struct CsvFailure {
    pub io_kind: Option<IoErrorKind>,
    pub message: String,
}

/// Why processing failed.
#[derive(Debug, Clone)]
pub enum AppError {
    Io(IoFailure),
    Csv(CsvFailure),
}

/// The failure comes from writing to a closed pipe, directly or under a CSV error.
pub open spec fn broken_pipe(e: AppError) -> bool {
    match e {
        AppError::Io(f) => f.kind == IoErrorKind::BrokenPipe,
        AppError::Csv(f) => f.io_kind == Some(IoErrorKind::BrokenPipe),
    }
}

impl AppError {
    pub fn is_broken_pipe(&self) -> (r: bool)
        ensures
            r == broken_pipe(*self),
    {
        match self {
            AppError::Io(f) => f.kind == IoErrorKind::BrokenPipe,
            AppError::Csv(f) => match f.io_kind {
                Some(k) => k == IoErrorKind::BrokenPipe,
                None => false,
            },
        }
    }

    /// The error's text: an I/O error's message, or `csv error: ` and a CSV
    /// error's message.
    pub fn message(&self) -> (r: String)
        ensures
            r@ == match *self {
                AppError::Io(f) => f.message@,
                AppError::Csv(f) => "csv error: "@ + f.message@,
            },
    {
        match self {
            AppError::Io(f) => f.message.clone(),
            AppError::Csv(f) => {
                let mut text = String::from_str("csv error: ");
                text.append(f.message.as_str());
                text
            },
        }
    }
}

/// The process exit status for a failed run: a closed output pipe counts as
/// success (0), anything else as failure (1).
pub fn exit_code(error: &AppError) -> (r: u8)
    ensures
        r == (if broken_pipe(*error) {
            0u8
        } else {
            1u8
        }),
{
    if error.is_broken_pipe() {
        0
    } else {
        1
    }
}

/// The accounts, by client, of a fresh ledger once `ts` are applied in order.
pub open spec fn final_accounts(ts: Seq<Transaction>) -> Seq<Account> {
    ordered_accounts(replay(empty_ledger(), ts).accounts, 0x10000)
}

/// Applies every transaction of `source` to a fresh ledger, in order, then
/// writes the ledger's accounts, by client, to `sink`. A failure of the
/// source or of the sink is returned as it is; a failing source leaves the
/// sink untouched.
pub fn run<S, K>(source: &mut S, sink: &mut K) -> (r: Result<(), AppError>) where
    S: TransactionSource<Error = AppError>,
    K: AccountSink<Error = AppError>,
    ensures
        r is Ok <==> !old(source).fails() && !old(sink).refuses(final_accounts(old(source).to_come())),
        r is Ok ==> final(source).to_come() == Seq::<Transaction>::empty() && final(sink).wrote(
            &*old(sink),
            final_accounts(old(source).to_come()),
        ),
        r matches Err(e) ==> e == if old(source).fails() {
            old(source).failure()
        } else {
            old(sink).refusal(final_accounts(old(source).to_come()))
        },
        old(source).fails() ==> *final(sink) == *old(sink),
{
    let mut ledger = Ledger::new();
    assert(ledger@ == empty_ledger());
    let ghost all = source.to_come();
    let ghost mut done: Seq<Transaction> = Seq::empty();
    loop
        invariant_except_break
            all == old(source).to_come(),
            done + source.to_come() == all,
            ledger@ == replay(empty_ledger(), done),
            source.fails() == old(source).fails(),
            source.failure() == old(source).failure(),
            *sink == *old(sink),
        ensures
            all == old(source).to_come(),
            source.to_come() == Seq::<Transaction>::empty(),
            ledger@ == replay(empty_ledger(), all),
            !old(source).fails(),
            *sink == *old(sink),
        decreases source.to_come().len(),
    {
        let ghost before = source.to_come();
        match source.next_transaction() {
            None => {
                assert(done == all);
                break;
            },
            Some(Err(e)) => return Err(e),
            Some(Ok(t)) => {
                ledger.apply(&t);
                proof {
                    assert(done.push(t) + source.to_come() == all) by {
                        assert(before == seq![t] + source.to_come());
                        assert(done.push(t) + source.to_come() =~= done + before);
                    }
                    assert(done.push(t).drop_last() == done);
                    done = done.push(t);
                }
            },
        }
    }
    let accounts = ledger.accounts();
    sink.write_accounts(accounts)
}

} // verus!
