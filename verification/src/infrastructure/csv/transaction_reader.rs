use vstd::prelude::*;

use crate::application::process_transactions::{AppError, CsvFailure};
use crate::domain::transaction::Transaction;
use crate::infrastructure::transactions::TransactionSource;

use super::parse::{parse_transaction_row, row_transaction};

verus! {

/// The header row that the `csv` crate reads from `input` with every field
/// trimmed, or `None` when it reports an error.
pub uninterp spec fn csv_header_fields(input: Seq<u8>) -> Option<Seq<Seq<char>>>;

/// The rows after the header row that the `csv` crate reads from `input` with
/// every field trimmed, in order; `None` for a row it reports an error for.
pub uninterp spec fn csv_record_fields(input: Seq<u8>) -> Seq<Option<Seq<Seq<char>>>>;

/// `csv::ReaderBuilder` with `Trim::All`, then `Reader::headers`: the trimmed
/// header fields of `input`, as a function of `input` alone. Reading from a
/// byte slice performs no I/O, so a failure is never an I/O failure; what the
/// error message says is left unstated.
#[verifier::external_body]
fn read_csv_headers(input: &[u8]) -> (r: Result<Vec<String>, CsvFailure>)
    ensures
        match r {
            Ok(h) => csv_header_fields(input@) == Some(h.deep_view()),
            Err(f) => csv_header_fields(input@) is None && f.io_kind is None,
        },
{
    let mut reader = csv::ReaderBuilder::new().trim(csv::Trim::All).from_reader(input);
    match reader.headers() {
        Ok(headers) => Ok(headers.iter().map(String::from).collect()),
        Err(error) => Err(CsvFailure { io_kind: None, message: error.to_string() }),
    }
}

/// `csv::ReaderBuilder` with `Trim::All`, then `Reader::records`: every row
/// after the header row, trimmed, as a function of `input` alone.
#[verifier::external_body]
fn read_csv_records(input: &[u8]) -> (r: Vec<Option<Vec<String>>>)
    ensures
        r.deep_view() == csv_record_fields(input@),
{
    let mut reader = csv::ReaderBuilder::new().trim(csv::Trim::All).from_reader(input);
    reader.records().map(|record| record.ok().map(|r| r.iter().map(String::from).collect())).collect()
}

/// The transactions that rows stand for, in order: rows that do not decode to
/// a transaction are skipped, and the first row the CSV reader failed on ends
/// the stream.
pub open spec fn decoded_stream(hs: Seq<Seq<char>>, recs: Seq<Option<Seq<Seq<char>>>>) -> Seq<Transaction>
    decreases recs.len(),
{
    if recs.len() == 0 {
        Seq::empty()
    } else {
        match recs[0] {
            None => Seq::empty(),
            Some(rec) => {
                let rest = decoded_stream(hs, recs.drop_first());
                match row_transaction(hs, rec) {
                    Some(t) => seq![t] + rest,
                    None => rest,
                }
            },
        }
    }
}

/// Reads transactions from CSV text with a header row (see `row_transaction`).
pub struct CsvTransactionReader {
    headers: Vec<String>,
    records: Vec<Option<Vec<String>>>,
    next: usize,
}

impl CsvTransactionReader {
    #[verifier::type_invariant]
    spec fn inv(self) -> bool {
        self.next <= self.records.len()
    }

    /// The header fields.
    pub closed spec fn header_fields(&self) -> Seq<Seq<char>> {
        self.headers.deep_view()
    }

    /// The rows not read yet.
    pub closed spec fn pending(&self) -> Seq<Option<Seq<Seq<char>>>> {
        self.records.deep_view().skip(self.next as int)
    }

    /// The transactions still to come.
    pub open spec fn remaining(&self) -> Seq<Transaction> {
        decoded_stream(self.header_fields(), self.pending())
    }

    /// A reader over `input`; fails when the CSV reader cannot read the header row.
    pub fn new(input: &[u8]) -> (r: Result<CsvTransactionReader, AppError>)
        ensures
            match r {
                Ok(reader) => csv_header_fields(input@) == Some(reader.header_fields())
                    && reader.pending() == csv_record_fields(input@),
                Err(e) => csv_header_fields(input@) is None && e is Csv,
            },
    {
        let headers = match read_csv_headers(input) {
            Ok(h) => h,
            Err(f) => return Err(AppError::Csv(f)),
        };
        let records = read_csv_records(input);
        Ok(CsvTransactionReader::from_fields(headers, records))
    }

    /// A reader over rows that are already split into trimmed fields: the
    /// header fields, then each row after the header, `None` for a row that
    /// could not be read.
    pub fn from_fields(headers: Vec<String>, records: Vec<Option<Vec<String>>>) -> (r: CsvTransactionReader)
        ensures
            r.header_fields() == headers.deep_view(),
            r.pending() == records.deep_view(),
    {
        let reader = CsvTransactionReader { headers, records, next: 0 };
        assert(reader.records.deep_view().skip(0) == reader.records.deep_view());
        reader
    }

    /// The stream of remaining transactions.
    pub fn transactions(&mut self) -> (r: Transactions<'_>)
        ensures
            r.remaining() == old(self).remaining(),
    {
        Transactions { reader: self }
    }
}

/// The transactions of a reader, one at a time.
pub struct Transactions<'r> {
    reader: &'r mut CsvTransactionReader,
}

impl<'r> Transactions<'r> {
    /// The transactions still to come.
    pub closed spec fn remaining(&self) -> Seq<Transaction> {
        self.reader.remaining()
    }

    /// How many rows are still unread.
    pub closed spec fn rows_left(&self) -> nat {
        self.reader.pending().len()
    }

    /// The next transaction, or `None` when the stream has ended.
    pub fn next(&mut self) -> (r: Option<Transaction>)
        ensures
            match r {
                Some(t) => old(self).remaining() == seq![t] + final(self).remaining()
                    && final(self).rows_left() < old(self).rows_left(),
                None => old(self).remaining() == Seq::<Transaction>::empty()
                    && final(self).remaining() == Seq::<Transaction>::empty(),
            },
    {
        match self.reader.next_transaction() {
            Some(Ok(t)) => Some(t),
            _ => None,
        }
    }

    /// Every remaining transaction, in order.
    pub fn collect(self) -> (r: Vec<Transaction>)
        ensures
            r@ == self.remaining(),
    {
        let mut stream = self;
        let mut out: Vec<Transaction> = Vec::new();
        loop
            invariant
                out@ + stream.remaining() == self.remaining(),
            decreases stream.rows_left(),
        {
            match stream.next() {
                Some(t) => out.push(t),
                None => {
                    return out;
                },
            }
        }
    }
}

impl TransactionSource for CsvTransactionReader {
    type Error = AppError;

    open spec fn to_come(&self) -> Seq<Transaction> {
        self.remaining()
    }

    /// A row the CSV reader fails on ends the transactions; it is no error.
    open spec fn fails(&self) -> bool {
        false
    }

    /// Never reported, as the reader never fails.
    open spec fn failure(&self) -> AppError {
        arbitrary()
    }

    fn next_transaction(&mut self) -> (r: Option<Result<Transaction, AppError>>)
        ensures
            final(self).header_fields() == old(self).header_fields(),
            match r {
                Some(Ok(t)) => old(self).remaining() == seq![t] + final(self).remaining()
                    && final(self).pending().len() < old(self).pending().len(),
                Some(Err(_)) => false,
                None => old(self).remaining() == Seq::<Transaction>::empty()
                    && final(self).remaining() == Seq::<Transaction>::empty(),
            },
    {
        proof {
            use_type_invariant(&*self);
        }
        let ghost hs = self.header_fields();
        while self.next < self.records.len()
            invariant
                self.next <= self.records.len(),
                self.header_fields() == hs,
                hs == old(self).header_fields(),
                self.remaining() == old(self).remaining(),
                self.pending().len() <= old(self).pending().len(),
            decreases self.records.len() - self.next,
        {
            let ghost p = self.pending();
            assert(p[0] == self.records.deep_view()[self.next as int]);
            assert(p.drop_first() == self.records.deep_view().skip(self.next + 1));
            match &self.records[self.next] {
                None => {
                    self.next = self.records.len();
                    assert(self.pending() == Seq::<Option<Seq<Seq<char>>>>::empty());
                    return None;
                },
                Some(fields) => {
                    let t = parse_transaction_row(&self.headers, fields);
                    self.next = self.next + 1;
                    match t {
                        Some(t) => {
                            return Some(Ok(t));
                        },
                        None => {},
                    }
                },
            }
        }
        assert(self.pending() == Seq::<Option<Seq<Seq<char>>>>::empty());
        None
    }
}

} // verus!
