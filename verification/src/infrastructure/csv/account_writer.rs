use vstd::prelude::*;

use crate::application::process_transactions::{AppError, CsvFailure};
use crate::domain::account::Account;
use crate::domain::transaction::{amount_text, fits_i64, Amount};
use crate::infrastructure::accounts::AccountSink;
use crate::text::{decimal, decimal_chars, string_of};

verus! {

broadcast use {Amount::lemma_scaled_fits, Amount::lemma_scaled_roundtrip};

/// An ASCII character that never needs quoting in a CSV field.
pub open spec fn plain_char(c: char) -> bool {
    &&& (c as int) < 128
    &&& c != ','
    &&& c != '"'
    &&& c != '\n'
    &&& c != '\r'
}

/// Every character of every field is plain.
pub open spec fn plain_fields(fs: Seq<Seq<char>>) -> bool {
    forall|i: int, j: int| 0 <= i < fs.len() && 0 <= j < fs[i].len() ==> plain_char(#[trigger] fs[i][j])
}

/// The fields joined by commas.
pub open spec fn join_fields(fs: Seq<Seq<char>>) -> Seq<char>
    decreases fs.len(),
{
    if fs.len() == 0 {
        Seq::empty()
    } else if fs.len() == 1 {
        fs[0]
    } else {
        join_fields(fs.drop_last()) + seq![','] + fs.last()
    }
}

/// A CSV line: the fields joined by commas, then a newline.
pub open spec fn csv_line(fs: Seq<Seq<char>>) -> Seq<char> {
    join_fields(fs).push('\n')
}

/// The bytes of ASCII text.
pub open spec fn ascii_bytes(s: Seq<char>) -> Seq<u8> {
    s.map_values(|c: char| c as u8)
}

/// `csv::Writer::from_writer` over an empty `Vec<u8>`, `Writer::write_record`,
/// then `Writer::into_inner`: the bytes of one CSV record. A fresh writer has
/// no field count to hold a record to, and writing or flushing into a vector
/// cannot fail, so the result is always `Ok`. With the crate's defaults (comma
/// delimiter, `\n` terminator, quoting only when necessary), fields whose
/// characters are all plain ASCII are written as they are, joined by commas,
/// with a newline; an empty line would be written as `""`, so that case is
/// left unstated.
#[verifier::external_body]
fn encode_csv_record(fields: &Vec<String>) -> (r: Result<Vec<u8>, CsvFailure>)
    ensures
        r is Ok,
        match r {
            Ok(b) => plain_fields(fields.deep_view()) && join_fields(fields.deep_view()).len() > 0
                ==> b@ == ascii_bytes(csv_line(fields.deep_view())),
            Err(_) => true,
        },
{
    let mut writer = csv::Writer::from_writer(Vec::new());
    if let Err(error) = writer.write_record(fields) {
        return Err(CsvFailure { io_kind: None, message: error.to_string() });
    }
    match writer.into_inner() {
        Ok(bytes) => Ok(bytes),
        Err(error) => Err(CsvFailure { io_kind: None, message: error.to_string() }),
    }
}

/// The text of a flag: `true` or `false`.
pub open spec fn bool_text(b: bool) -> Seq<char> {
    if b {
        seq!['t', 'r', 'u', 'e']
    } else {
        seq!['f', 'a', 'l', 's', 'e']
    }
}

/// The header record of the accounts CSV.
pub open spec fn account_header() -> Seq<Seq<char>> {
    seq![
        seq!['c', 'l', 'i', 'e', 'n', 't'],
        seq!['a', 'v', 'a', 'i', 'l', 'a', 'b', 'l', 'e'],
        seq!['h', 'e', 'l', 'd'],
        seq!['t', 'o', 't', 'a', 'l'],
        seq!['l', 'o', 'c', 'k', 'e', 'd'],
    ]
}

/// The record of an account: client, available, held, total, locked.
pub open spec fn account_fields(a: Account) -> Seq<Seq<char>> {
    seq![
        decimal(a.client as nat),
        amount_text(a.available.scaled()),
        amount_text(a.held.scaled()),
        amount_text(a.total_value()),
        bool_text(a.locked),
    ]
}

/// The accounts of `s` whose client is `c`, in their order in `s`.
pub open spec fn with_client(s: Seq<Account>, c: int) -> Seq<Account>
    decreases s.len(),
{
    if s.len() == 0 {
        Seq::empty()
    } else {
        with_client(s.drop_last(), c) + if s.last().client == c {
            seq![s.last()]
        } else {
            Seq::empty()
        }
    }
}

/// The accounts of `s` whose client is below `n`, by increasing client;
/// accounts of one client keep their order in `s`.
pub open spec fn clients_below(s: Seq<Account>, n: int) -> Seq<Account>
    decreases n,
{
    if n <= 0 {
        Seq::empty()
    } else {
        clients_below(s, n - 1) + with_client(s, n - 1)
    }
}

/// `s` sorted by client, stably.
pub open spec fn by_client(s: Seq<Account>) -> Seq<Account> {
    clients_below(s, 0x10000)
}

/// The CSV lines of the accounts, in order.
pub open spec fn account_lines(s: Seq<Account>) -> Seq<u8>
    decreases s.len(),
{
    if s.len() == 0 {
        Seq::empty()
    } else {
        account_lines(s.drop_last()) + ascii_bytes(csv_line(account_fields(s.last())))
    }
}

/// The accounts CSV: the header line, then one line per account by client.
pub open spec fn accounts_csv(s: Seq<Account>) -> Seq<u8> {
    ascii_bytes(csv_line(account_header())) + account_lines(by_client(s))
}

proof fn lemma_with_client_members(s: Seq<Account>, c: int)
    ensures
        forall|i: int| 0 <= i < with_client(s, c).len() ==> s.contains(#[trigger] with_client(s, c)[i]),
    decreases s.len(),
{
    if s.len() > 0 {
        lemma_with_client_members(s.drop_last(), c);
        let w = with_client(s, c);
        let p = with_client(s.drop_last(), c);
        assert forall|i: int| 0 <= i < w.len() implies s.contains(#[trigger] w[i]) by {
            if i < p.len() {
                assert(w[i] == p[i]);
                let k = choose|k: int| 0 <= k < s.drop_last().len() && s.drop_last()[k] == p[i];
                assert(s[k] == p[i]);
            } else {
                assert(w[i] == s.last());
                assert(s[s.len() - 1] == s.last());
            }
        }
    }
}

/// Sorting by client keeps only accounts of the input.
pub proof fn lemma_clients_below_members(s: Seq<Account>, n: int)
    ensures
        forall|i: int| 0 <= i < clients_below(s, n).len() ==> s.contains(#[trigger] clients_below(s, n)[i]),
    decreases n,
{
    if n > 0 {
        lemma_clients_below_members(s, n - 1);
        lemma_with_client_members(s, n - 1);
        let r = clients_below(s, n);
        let p = clients_below(s, n - 1);
        let w = with_client(s, n - 1);
        assert forall|i: int| 0 <= i < r.len() implies s.contains(#[trigger] r[i]) by {
            if i < p.len() {
                assert(r[i] == p[i]);
            } else {
                assert(r[i] == w[i - p.len()]);
            }
        }
    }
}

proof fn lemma_with_client_clients(s: Seq<Account>, c: int)
    ensures
        forall|i: int| 0 <= i < with_client(s, c).len() ==> (#[trigger] with_client(s, c)[i]).client == c,
    decreases s.len(),
{
    if s.len() > 0 {
        lemma_with_client_clients(s.drop_last(), c);
        let w = with_client(s, c);
        let p = with_client(s.drop_last(), c);
        assert forall|i: int| 0 <= i < w.len() implies (#[trigger] w[i]).client == c by {
            if i < p.len() {
                assert(w[i] == p[i]);
            }
        }
    }
}

proof fn lemma_clients_below_sorted(s: Seq<Account>, n: int)
    ensures
        forall|i: int| 0 <= i < clients_below(s, n).len() ==> (#[trigger] clients_below(s, n)[i]).client < n,
        forall|i: int, j: int| 0 <= i < j < clients_below(s, n).len() ==> (#[trigger] clients_below(s, n)[i]).client
            <= (#[trigger] clients_below(s, n)[j]).client,
    decreases n,
{
    if n > 0 {
        lemma_clients_below_sorted(s, n - 1);
        lemma_with_client_clients(s, n - 1);
        let r = clients_below(s, n);
        let p = clients_below(s, n - 1);
        let w = with_client(s, n - 1);
        assert forall|i: int| 0 <= i < r.len() implies (#[trigger] r[i]).client < n by {
            if i < p.len() {
                assert(r[i] == p[i]);
            } else {
                assert(r[i] == w[i - p.len()]);
            }
        }
        assert forall|i: int, j: int| 0 <= i < j < r.len() implies (#[trigger] r[i]).client <= (#[trigger] r[j]).client by {
            if j < p.len() {
                assert(r[i] == p[i] && r[j] == p[j]);
            } else if i < p.len() {
                assert(r[i] == p[i] && r[j] == w[j - p.len()]);
            } else {
                assert(r[i] == w[i - p.len()] && r[j] == w[j - p.len()]);
            }
        }
    }
}

proof fn lemma_clients_below_push_len(s: Seq<Account>, a: Account, n: int)
    ensures
        clients_below(s.push(a), n).len() == clients_below(s, n).len() + if 0 <= a.client < n {
            1int
        } else {
            0int
        },
    decreases n,
{
    if n > 0 {
        lemma_clients_below_push_len(s, a, n - 1);
        assert(s.push(a).drop_last() == s);
    }
}

proof fn lemma_clients_below_len(s: Seq<Account>)
    ensures
        clients_below(s, 0x10000).len() == s.len(),
    decreases s.len(),
{
    if s.len() == 0 {
        lemma_clients_below_empty(s, 0x10000);
    } else {
        lemma_clients_below_len(s.drop_last());
        assert(s.drop_last().push(s.last()) == s);
        lemma_clients_below_push_len(s.drop_last(), s.last(), 0x10000);
    }
}

proof fn lemma_clients_below_empty(s: Seq<Account>, n: int)
    requires
        s.len() == 0,
    ensures
        clients_below(s, n).len() == 0,
    decreases n,
{
    if n > 0 {
        lemma_clients_below_empty(s, n - 1);
    }
}

/// Sorting by client gives as many accounts as it was given, each one of the
/// given accounts, in non-decreasing client order.
pub proof fn lemma_by_client_sorts(s: Seq<Account>)
    ensures
        by_client(s).len() == s.len(),
        forall|i: int| 0 <= i < by_client(s).len() ==> s.contains(#[trigger] by_client(s)[i]),
        forall|i: int, j: int| 0 <= i < j < by_client(s).len() ==> (#[trigger] by_client(s)[i]).client
            <= (#[trigger] by_client(s)[j]).client,
{
    lemma_clients_below_len(s);
    lemma_clients_below_members(s, 0x10000);
    lemma_clients_below_sorted(s, 0x10000);
}

/// The accounts sorted by client, stably.
pub fn sort_by_client(accounts: &Vec<Account>) -> (r: Vec<Account>)
    ensures
        r@ == by_client(accounts@),
{
    let mut buckets: Vec<Vec<Account>> = Vec::new();
    let mut c: usize = 0;
    while c < 0x10000
        invariant
            c <= 0x10000,
            buckets.len() == c,
            forall|j: int| 0 <= j < c ==> (#[trigger] buckets@[j])@ == Seq::<Account>::empty(),
        decreases 0x10000 - c,
    {
        buckets.push(Vec::new());
        c = c + 1;
    }
    let mut i: usize = 0;
    while i < accounts.len()
        invariant
            i <= accounts.len(),
            buckets.len() == 0x10000,
            forall|j: int| 0 <= j < 0x10000 ==> (#[trigger] buckets@[j])@ == with_client(
                accounts@.take(i as int),
                j,
            ),
        decreases accounts.len() - i,
    {
        let a = accounts[i];
        let k = a.client as usize;
        let ghost before = buckets@;
        buckets[k].push(a);
        proof {
            let t = accounts@.take(i + 1);
            assert(t.drop_last() == accounts@.take(i as int));
            assert(t.last() == a);
            assert forall|j: int| 0 <= j < 0x10000 implies (#[trigger] buckets@[j])@ == with_client(t, j) by {
                if j != k {
                    assert(buckets@[j] == before[j]);
                }
            }
        }
        i = i + 1;
    }
    assert(accounts@.take(accounts.len() as int) == accounts@);
    let mut out: Vec<Account> = Vec::new();
    let mut c: usize = 0;
    while c < 0x10000
        invariant
            c <= 0x10000,
            buckets.len() == 0x10000,
            forall|j: int| 0 <= j < 0x10000 ==> (#[trigger] buckets@[j])@ == with_client(accounts@, j),
            out@ == clients_below(accounts@, c as int),
        decreases 0x10000 - c,
    {
        let b = &buckets[c];
        let mut k: usize = 0;
        while k < b.len()
            invariant
                k <= b.len(),
                out@ == clients_below(accounts@, c as int) + b@.take(k as int),
            decreases b.len() - k,
        {
            out.push(b[k]);
            assert(b@.take(k + 1) == b@.take(k as int).push(b@[k as int]));
            k = k + 1;
        }
        assert(b@.take(b.len() as int) == b@);
        c = c + 1;
    }
    out
}

/// Text made of the characters `cs`.
fn text(cs: &[char]) -> (r: String)
    ensures
        r@ == cs@,
{
    let mut v: Vec<char> = Vec::new();
    let mut i: usize = 0;
    while i < cs.len()
        invariant
            i <= cs.len(),
            v@ == cs@.take(i as int),
        decreases cs.len() - i,
    {
        v.push(cs[i]);
        assert(cs@.take(i + 1) == cs@.take(i as int).push(cs@[i as int]));
        i = i + 1;
    }
    assert(cs@.take(cs.len() as int) == cs@);
    string_of(&v)
}

/// The header record of the accounts CSV.
fn header_record() -> (r: Vec<String>)
    ensures
        r.deep_view() == account_header(),
{
    let mut r: Vec<String> = Vec::new();
    r.push(text(&['c', 'l', 'i', 'e', 'n', 't']));
    r.push(text(&['a', 'v', 'a', 'i', 'l', 'a', 'b', 'l', 'e']));
    r.push(text(&['h', 'e', 'l', 'd']));
    r.push(text(&['t', 'o', 't', 'a', 'l']));
    r.push(text(&['l', 'o', 'c', 'k', 'e', 'd']));
    assert(r.deep_view() =~= account_header());
    r
}

/// The record of an account whose total is representable.
fn account_record(a: &Account) -> (r: Vec<String>)
    requires
        fits_i64(a.total_value()),
    ensures
        r.deep_view() == account_fields(*a),
{
    let total = match a.total() {
        Some(t) => t,
        None => {
            assert(false);
            a.available
        },
    };
    let mut r: Vec<String> = Vec::new();
    r.push(string_of(&decimal_chars(a.client as u64)));
    r.push(a.available.to_string());
    r.push(a.held.to_string());
    r.push(total.to_string());
    if a.locked {
        r.push(text(&['t', 'r', 'u', 'e']));
    } else {
        r.push(text(&['f', 'a', 'l', 's', 'e']));
    }
    assert(r.deep_view() =~= account_fields(*a));
    r
}

proof fn lemma_amount_text_plain(v: int)
    ensures
        forall|j: int| 0 <= j < amount_text(v).len() ==> plain_char(#[trigger] amount_text(v)[j]),
{
    let a: nat = if v < 0 {
        (-v) as nat
    } else {
        v as nat
    };
    crate::text::lemma_decimal(a / 10000);
    crate::text::lemma_four_digits(a % 10000);
    let w = decimal(a / 10000);
    let f = crate::text::four_digits(a % 10000);
    let sign = if v < 0 {
        seq!['-']
    } else {
        Seq::<char>::empty()
    };
    let t = amount_text(v);
    assert(t == sign + w + seq!['.'] + f);
    assert forall|j: int| 0 <= j < t.len() implies plain_char(#[trigger] t[j]) by {
        if j < sign.len() {
            assert(t[j] == '-');
        } else if j < sign.len() + w.len() {
            assert(t[j] == w[j - sign.len()]);
            assert(crate::text::is_digit(w[j - sign.len()]));
        } else if j == sign.len() + w.len() {
            assert(t[j] == '.');
        } else {
            assert(t[j] == f[j - sign.len() - w.len() - 1]);
            assert(crate::text::is_digit(f[j - sign.len() - w.len() - 1]));
        }
    }
}

proof fn lemma_account_fields_plain(a: Account)
    ensures
        plain_fields(account_fields(a)),
        join_fields(account_fields(a)).len() > 0,
{
    let fs = account_fields(a);
    crate::text::lemma_decimal(a.client as nat);
    lemma_amount_text_plain(a.available.scaled());
    lemma_amount_text_plain(a.held.scaled());
    lemma_amount_text_plain(a.total_value());
    assert forall|i: int, j: int| 0 <= i < fs.len() && 0 <= j < fs[i].len() implies plain_char(#[trigger] fs[i][j]) by {
        if i == 0 {
            assert(crate::text::is_digit(fs[0][j]));
        }
    }
    lemma_join_fields_len(fs);
}

proof fn lemma_join_fields_len(fs: Seq<Seq<char>>)
    requires
        fs.len() >= 1,
    ensures
        join_fields(fs).len() >= fs[0].len(),
    decreases fs.len(),
{
    if fs.len() > 1 {
        lemma_join_fields_len(fs.drop_last());
        assert(fs.drop_last()[0] == fs[0]);
    }
}

proof fn lemma_header_plain()
    ensures
        plain_fields(account_header()),
        join_fields(account_header()).len() > 0,
{
    let fs = account_header();
    assert forall|i: int, j: int| 0 <= i < fs.len() && 0 <= j < fs[i].len() implies plain_char(#[trigger] fs[i][j]) by {
    }
    lemma_join_fields_len(fs);
}

/// Writes account balances as CSV into a byte buffer.
pub struct CsvAccountWriter<'a> {
    output: &'a mut Vec<u8>,
}

impl<'a> CsvAccountWriter<'a> {
    /// The bytes written so far.
    pub closed spec fn written(&self) -> Seq<u8> {
        self.output@
    }

    pub fn new(output: &'a mut Vec<u8>) -> (r: CsvAccountWriter<'a>)
        ensures
            r.written() == old(output)@,
    {
        CsvAccountWriter { output }
    }

    /// The bytes written so far.
    pub fn bytes(&self) -> (r: &Vec<u8>)
        ensures
            r@ == self.written(),
    {
        &*self.output
    }

    /// Appends one CSV record.
    fn write_record(&mut self, fields: &Vec<String>) -> (r: Result<(), AppError>)
        ensures
            r is Ok,
            plain_fields(fields.deep_view()) && join_fields(fields.deep_view()).len() > 0
                ==> final(self).written() == old(self).written() + ascii_bytes(csv_line(fields.deep_view())),
    {
        match encode_csv_record(fields) {
            Ok(bytes) => {
                let mut bytes = bytes;
                self.output.append(&mut bytes);
                Ok(())
            },
            Err(f) => Err(AppError::Csv(f)),
        }
    }
}

impl<'a> AccountSink for CsvAccountWriter<'a> {
    type Error = AppError;

    open spec fn wrote(&self, before: &Self, accounts: Seq<Account>) -> bool {
        self.written() == before.written() + accounts_csv(accounts)
    }

    /// Writing into a byte buffer never fails.
    open spec fn refuses(&self, accounts: Seq<Account>) -> bool {
        false
    }

    /// Never reported, as the writer never refuses.
    open spec fn refusal(&self, accounts: Seq<Account>) -> AppError {
        arbitrary()
    }

    /// Writes the header line, then one line per account in increasing client
    /// order (accounts of one client in their given order).
    fn write_accounts(&mut self, accounts: Vec<Account>) -> (r: Result<(), AppError>)
        ensures
            r is Ok,
            final(self).written() == old(self).written() + accounts_csv(accounts@),
    {
        let header = header_record();
        proof {
            lemma_header_plain();
        }
        self.write_record(&header)?;
        let rows = sort_by_client(&accounts);
        proof {
            lemma_clients_below_members(accounts@, 0x10000);
        }
        let ghost start = self.written();
        assert(start == old(self).written() + ascii_bytes(csv_line(account_header())));
        let mut i: usize = 0;
        while i < rows.len()
            invariant
                start == old(self).written() + ascii_bytes(csv_line(account_header())),
                i <= rows.len(),
                rows@ == by_client(accounts@),
                forall|k: int| 0 <= k < accounts.len() ==> fits_i64((#[trigger] accounts@[k]).total_value()),
                forall|k: int| 0 <= k < rows.len() ==> accounts@.contains(#[trigger] rows@[k]),
                self.written() == start + account_lines(rows@.take(i as int)),
            decreases rows.len() - i,
        {
            let a = rows[i];
            assert(accounts@.contains(rows@[i as int]));
            let fields = account_record(&a);
            proof {
                lemma_account_fields_plain(a);
                assert(rows@.take(i + 1).drop_last() == rows@.take(i as int));
            }
            self.write_record(&fields)?;
            i = i + 1;
        }
        assert(rows@.take(rows.len() as int) == rows@);
        assert(self.written() == old(self).written() + accounts_csv(accounts@));
        assert(self.wrote(&*old(self), accounts@));
        Ok(())
    }
}

} // verus!
