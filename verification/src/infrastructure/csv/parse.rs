//! The transaction CSV schema: a header row naming the columns `type`,
//! `client`, `tx` and `amount` (in any order, other columns ignored), then
//! one row per transaction; and the decimal amount format.
use vstd::prelude::*;

use crate::domain::transaction::{amount_text, amount_value, lenient_amount_value, Amount, Transaction, TransactionKind};
use crate::text::{all_digits, chars_of, same_chars, string_of, trim, trim_chars, unsigned_value};

verus! {

broadcast use {Amount::lemma_scaled_roundtrip, Amount::lemma_of_scaled, Amount::lemma_scaled_fits};

/// What a header names.
#[derive(Debug, Clone, Copy, PartialEq, Eq, Structural)]
pub enum Column {
    Type,
    Client,
    Tx,
    Amount,
    Other,
}

/// The column that header text `h` names; names match exactly.
pub open spec fn column_of(h: Seq<char>) -> Column {
    if h == seq!['t', 'y', 'p', 'e'] {
        Column::Type
    } else if h == seq!['c', 'l', 'i', 'e', 'n', 't'] {
        Column::Client
    } else if h == seq!['t', 'x'] {
        Column::Tx
    } else if h == seq!['a', 'm', 'o', 'u', 'n', 't'] {
        Column::Amount
    } else {
        Column::Other
    }
}

/// Header `j` is the one and only header naming `col`.
pub open spec fn unique_column(hs: Seq<Seq<char>>, col: Column, j: int) -> bool {
    &&& 0 <= j < hs.len()
    &&& column_of(hs[j]) == col
    &&& forall|k: int| 0 <= k < hs.len() && k != j ==> column_of(#[trigger] hs[k]) != col
}

/// No header names `col`.
pub open spec fn no_column(hs: Seq<Seq<char>>, col: Column) -> bool {
    forall|k: int| 0 <= k < hs.len() ==> column_of(#[trigger] hs[k]) != col
}

/// The index of the header naming `col`, when exactly one does.
pub open spec fn column_at(hs: Seq<Seq<char>>, col: Column) -> int {
    choose|j: int| unique_column(hs, col, j)
}

/// The headers fit a record of `len` fields: `type`, `client` and `tx` are
/// each named exactly once, `amount` at most once, and every header past the
/// record's last field is `amount`.
pub open spec fn row_shape_ok(hs: Seq<Seq<char>>, len: int) -> bool {
    &&& exists|j: int| unique_column(hs, Column::Type, j)
    &&& exists|j: int| unique_column(hs, Column::Client, j)
    &&& exists|j: int| unique_column(hs, Column::Tx, j)
    &&& no_column(hs, Column::Amount) || exists|j: int| unique_column(hs, Column::Amount, j)
    &&& forall|i: int| len <= i < hs.len() ==> column_of(#[trigger] hs[i]) == Column::Amount
}

/// An integer field: `0x` followed by hexadecimal digits, or decimal digits;
/// an optional `+` either way; at most `max`.
pub open spec fn field_uint(s: Seq<char>, max: int) -> Option<int> {
    if s.len() >= 2 && s[0] == '0' && s[1] == 'x' {
        unsigned_value(s.skip(2), 16, max)
    } else {
        unsigned_value(s, 10, max)
    }
}

/// The `amount` field, when there is a non-empty one.
pub open spec fn amount_field(hs: Seq<Seq<char>>, rec: Seq<Seq<char>>) -> Option<Seq<char>> {
    if no_column(hs, Column::Amount) {
        None
    } else {
        let j = column_at(hs, Column::Amount);
        if j < rec.len() && rec[j].len() > 0 {
            Some(rec[j])
        } else {
            None
        }
    }
}

/// A record decoded by its headers: the `type` text, the `client` and `tx`
/// numbers, and the `amount` text if any.
pub open spec fn decode_row(hs: Seq<Seq<char>>, rec: Seq<Seq<char>>) -> Option<
    (Seq<char>, int, int, Option<Seq<char>>),
> {
    if !row_shape_ok(hs, rec.len() as int) {
        None
    } else {
        let client = field_uint(rec[column_at(hs, Column::Client)], 0xFFFF);
        let tx = field_uint(rec[column_at(hs, Column::Tx)], 0xFFFF_FFFF);
        if client is None || tx is None {
            None
        } else {
            Some((rec[column_at(hs, Column::Type)], client->0, tx->0, amount_field(hs, rec)))
        }
    }
}

/// Decimal digits are base-ten digits with the value they spell.
proof fn lemma_radix_ten(s: Seq<char>)
    requires
        all_digits(s),
    ensures
        crate::text::all_radix_digits(s, 10),
        crate::text::radix_value(s, 10) == crate::text::digits_value(s),
    decreases s.len(),
{
    assert forall|i: int| 0 <= i < s.len() implies #[trigger] crate::text::radix_digit(s[i], 10) is Some by {
        assert(crate::text::is_digit(s[i]));
    }
    if s.len() > 0 {
        let t = s.drop_last();
        assert(all_digits(t)) by {
            assert forall|i: int| 0 <= i < t.len() implies crate::text::is_digit(#[trigger] t[i]) by {
                assert(t[i] == s[i]);
            }
        }
        lemma_radix_ten(t);
        assert(crate::text::is_digit(s[s.len() - 1]));
    }
}

/// A field of decimal digits spells their value, when it is at most `max`,
/// and is refused when it is larger.
pub proof fn lemma_decimal_field(s: Seq<char>, max: int)
    requires
        s.len() > 0,
        all_digits(s),
    ensures
        field_uint(s, max) == if crate::text::digits_value(s) <= max {
            Some(crate::text::digits_value(s))
        } else {
            None::<int>
        },
{
    lemma_radix_ten(s);
    assert(crate::text::is_digit(s[0]));
    if s.len() >= 2 {
        assert(crate::text::is_digit(s[1]));
    }
}

/// A record whose `client` and `tx` fields are decimal digits decodes to the
/// numbers they spell, for every client up to 65535 and every transaction id
/// up to 4294967295; a larger number makes the record undecodable.
pub proof fn lemma_decode_row_numbers(hs: Seq<Seq<char>>, rec: Seq<Seq<char>>, jk: int, jc: int, jt: int)
    requires
        row_shape_ok(hs, rec.len() as int),
        unique_column(hs, Column::Type, jk),
        unique_column(hs, Column::Client, jc),
        unique_column(hs, Column::Tx, jt),
        rec[jc].len() > 0,
        all_digits(rec[jc]),
        rec[jt].len() > 0,
        all_digits(rec[jt]),
    ensures
        decode_row(hs, rec) == if crate::text::digits_value(rec[jc]) <= 0xFFFF
            && crate::text::digits_value(rec[jt]) <= 0xFFFF_FFFF {
            Some((rec[jk], crate::text::digits_value(rec[jc]), crate::text::digits_value(rec[jt]), amount_field(hs, rec)))
        } else {
            None
        },
{
    lemma_unique_column_at(hs, Column::Type, jk);
    lemma_unique_column_at(hs, Column::Client, jc);
    lemma_unique_column_at(hs, Column::Tx, jt);
    lemma_decimal_field(rec[jc], 0xFFFF);
    lemma_decimal_field(rec[jt], 0xFFFF_FFFF);
}

/// The header that alone names `col` is the one `column_at` picks.
proof fn lemma_unique_column_at(hs: Seq<Seq<char>>, col: Column, j: int)
    requires
        unique_column(hs, col, j),
    ensures
        column_at(hs, col) == j,
{
    let k = column_at(hs, col);
    assert(unique_column(hs, col, k));
    if k != j {
        assert(column_of(hs[j]) != col);
    }
}

/// The kind that a `type` field names, once trimmed.
pub open spec fn kind_of(s: Seq<char>) -> Option<TransactionKind> {
    let t = trim(s);
    if t == seq!['d', 'e', 'p', 'o', 's', 'i', 't'] {
        Some(TransactionKind::Deposit)
    } else if t == seq!['w', 'i', 't', 'h', 'd', 'r', 'a', 'w', 'a', 'l'] {
        Some(TransactionKind::Withdrawal)
    } else if t == seq!['d', 'i', 's', 'p', 'u', 't', 'e'] {
        Some(TransactionKind::Dispute)
    } else if t == seq!['r', 'e', 's', 'o', 'l', 'v', 'e'] {
        Some(TransactionKind::Resolve)
    } else if t == seq!['c', 'h', 'a', 'r', 'g', 'e', 'b', 'a', 'c', 'k'] {
        Some(TransactionKind::Chargeback)
    } else {
        None
    }
}

/// The transaction that a record stands for: its row must decode and its
/// type be known; deposits and withdrawals need an amount that parses, other
/// kinds keep theirs only when it parses.
pub open spec fn row_transaction(hs: Seq<Seq<char>>, rec: Seq<Seq<char>>) -> Option<Transaction> {
    match decode_row(hs, rec) {
        None => None,
        Some((k, client, tx, amount)) => match kind_of(k) {
            None => None,
            Some(kind) => {
                let parsed = match amount {
                    Some(s) => amount_value(s),
                    None => None,
                };
                if (kind == TransactionKind::Deposit || kind == TransactionKind::Withdrawal)
                    && parsed is None {
                    None
                } else {
                    Some(
                        Transaction {
                            kind,
                            client: client as u16,
                            tx: tx as u32,
                            amount: match parsed {
                                Some(v) => Some(Amount::of_scaled(v)),
                                None => None,
                            },
                        },
                    )
                }
            },
        },
    }
}

/// Surrounding whitespace never changes the kind a `type` field names.
pub proof fn lemma_kind_ignores_whitespace(s: Seq<char>)
    ensures
        kind_of(trim(s)) == kind_of(s),
{
    crate::text::lemma_trim_idempotent(s);
}

/// The column that a header names.
pub fn column_of_header(h: &String) -> (r: Column)
    ensures
        r == column_of(h@),
{
    let v = chars_of(h.as_str());
    if same_chars(&v, &['t', 'y', 'p', 'e']) {
        Column::Type
    } else if same_chars(&v, &['c', 'l', 'i', 'e', 'n', 't']) {
        Column::Client
    } else if same_chars(&v, &['t', 'x']) {
        Column::Tx
    } else if same_chars(&v, &['a', 'm', 'o', 'u', 'n', 't']) {
        Column::Amount
    } else {
        Column::Other
    }
}

/// Parses the kind named by a `type` field.
pub fn parse_kind(raw: &str) -> (r: Option<TransactionKind>)
    ensures
        r == kind_of(raw@),
{
    let t = trim_chars(&chars_of(raw));
    if same_chars(&t, &['d', 'e', 'p', 'o', 's', 'i', 't']) {
        Some(TransactionKind::Deposit)
    } else if same_chars(&t, &['w', 'i', 't', 'h', 'd', 'r', 'a', 'w', 'a', 'l']) {
        Some(TransactionKind::Withdrawal)
    } else if same_chars(&t, &['d', 'i', 's', 'p', 'u', 't', 'e']) {
        Some(TransactionKind::Dispute)
    } else if same_chars(&t, &['r', 'e', 's', 'o', 'l', 'v', 'e']) {
        Some(TransactionKind::Resolve)
    } else if same_chars(&t, &['c', 'h', 'a', 'r', 'g', 'e', 'b', 'a', 'c', 'k']) {
        Some(TransactionKind::Chargeback)
    } else {
        None
    }
}

/// Parses an amount into its value scaled by 10⁴ (see
/// `lenient_amount_value`: any number of leading `-` signs make it negative).
pub fn parse_amount(raw: &str) -> (r: Option<i64>)
    ensures
        match r {
            Some(v) => lenient_amount_value(raw@) == Some(v as int),
            None => lenient_amount_value(raw@) is None,
        },
{
    crate::domain::transaction::scaled_from_chars(&chars_of(raw))
}

/// Formats a value scaled by 10⁴ with four decimal places (see `amount_text`).
pub fn format_amount(amount: i64) -> (r: String)
    ensures
        r@ == amount_text(amount as int),
{
    crate::domain::transaction::text_of_scaled(amount)
}

/// A record's fields, taken by the header that names them.
pub struct TransactionRow {
    pub kind: String,
    pub client: u16,
    pub tx: u32,
    pub amount: Option<String>,
}

/// The view of an optional string.
pub open spec fn opt_chars(o: Option<String>) -> Option<Seq<char>> {
    match o {
        Some(s) => Some(s@),
        None => None,
    }
}

impl TransactionRow {
    /// Decodes `record` by `headers` (see `decode_row`).
    pub fn decode(headers: &Vec<String>, record: &Vec<String>) -> (r: Option<TransactionRow>)
        ensures
            match r {
                Some(row) => decode_row(headers.deep_view(), record.deep_view()) == Some(
                    (row.kind@, row.client as int, row.tx as int, opt_chars(row.amount)),
                ),
                None => decode_row(headers.deep_view(), record.deep_view()) is None,
            },
    {
        let ghost hs = headers.deep_view();
        let ghost rec = record.deep_view();
        let mut type_at: Option<usize> = None;
        let mut client_at: Option<usize> = None;
        let mut tx_at: Option<usize> = None;
        let mut amount_at: Option<usize> = None;
        let mut i: usize = 0;
        while i < headers.len()
            invariant
                hs == headers.deep_view(),
                rec == record.deep_view(),
                i <= headers.len(),
                seen(hs, Column::Type, i as int, type_at),
                seen(hs, Column::Client, i as int, client_at),
                seen(hs, Column::Tx, i as int, tx_at),
                seen(hs, Column::Amount, i as int, amount_at),
                forall|j: int| rec.len() <= j < i ==> column_of(#[trigger] hs[j]) == Column::Amount,
            decreases headers.len() - i,
        {
            let col = column_of_header(&headers[i]);
            assert(hs[i as int] == headers@[i as int]@);
            if i >= record.len() && col != Column::Amount {
                assert(!row_shape_ok(hs, rec.len() as int));
                return None;
            }
            if col == Column::Type {
                if type_at.is_some() {
                    proof { lemma_duplicate(hs, Column::Type, type_at->0 as int, i as int); }
                    return None;
                }
                type_at = Some(i);
            } else if col == Column::Client {
                if client_at.is_some() {
                    proof { lemma_duplicate(hs, Column::Client, client_at->0 as int, i as int); }
                    return None;
                }
                client_at = Some(i);
            } else if col == Column::Tx {
                if tx_at.is_some() {
                    proof { lemma_duplicate(hs, Column::Tx, tx_at->0 as int, i as int); }
                    return None;
                }
                tx_at = Some(i);
            } else if col == Column::Amount {
                if amount_at.is_some() {
                    proof { lemma_duplicate(hs, Column::Amount, amount_at->0 as int, i as int); }
                    return None;
                }
                amount_at = Some(i);
            }
            i = i + 1;
        }
        proof {
            lemma_seen_all(hs, Column::Type, type_at);
            lemma_seen_all(hs, Column::Client, client_at);
            lemma_seen_all(hs, Column::Tx, tx_at);
            lemma_seen_all(hs, Column::Amount, amount_at);
        }
        let (ti, ci, xi) = match (type_at, client_at, tx_at) {
            (Some(a), Some(b), Some(c)) => (a, b, c),
            _ => {
                return None;
            },
        };
        assert(row_shape_ok(hs, rec.len() as int));
        assert(ti < record.len() && ci < record.len() && xi < record.len());
        let client = match field_uint_exec(&record[ci], 0xFFFF) {
            Some(v) => v as u16,
            None => {
                assert(rec[ci as int] == record@[ci as int]@);
                return None;
            },
        };
        let tx = match field_uint_exec(&record[xi], 0xFFFF_FFFF) {
            Some(v) => v as u32,
            None => {
                assert(rec[xi as int] == record@[xi as int]@);
                return None;
            },
        };
        let amount = match amount_at {
            Some(a) => {
                if a < record.len() && chars_of(record[a].as_str()).len() > 0 {
                    Some(record[a].clone())
                } else {
                    None
                }
            },
            None => None,
        };
        assert(rec[ci as int] == record@[ci as int]@);
        assert(rec[xi as int] == record@[xi as int]@);
        assert(rec[ti as int] == record@[ti as int]@);
        proof {
            if amount_at is Some {
                let a = amount_at->0;
                if a < record.len() {
                    assert(rec[a as int] == record@[a as int]@);
                }
            }
        }
        Some(TransactionRow { kind: record[ti].clone(), client, tx, amount })
    }
}

/// The number that an integer field spells (see `field_uint`).
pub fn field_uint_exec(field: &String, max: u64) -> (r: Option<u64>)
    ensures
        match r {
            Some(v) => field_uint(field@, max as int) == Some(v as int) && v <= max,
            None => field_uint(field@, max as int) is None,
        },
{
    let v = chars_of(field.as_str());
    if v.len() >= 2 && v[0] == '0' && v[1] == 'x' {
        let digits = crate::text::sub_chars(&v, 2, v.len());
        assert(digits@ == v@.skip(2));
        crate::text::unsigned_from_chars(&digits, 16, max)
    } else {
        crate::text::unsigned_from_chars(&v, 10, max)
    }
}

/// Once every header is seen, `at` is the unique header naming `col`, or
/// none names it.
proof fn lemma_seen_all(hs: Seq<Seq<char>>, col: Column, at: Option<usize>)
    requires
        seen(hs, col, hs.len() as int, at),
    ensures
        match at {
            Some(j) => unique_column(hs, col, j as int) && column_at(hs, col) == j,
            None => no_column(hs, col) && forall|k: int| !unique_column(hs, col, k),
        },
{
    match at {
        Some(j) => {
            assert(unique_column(hs, col, j as int));
            let c = column_at(hs, col);
            assert(unique_column(hs, col, c));
            if c != j {
                assert(column_of(hs[j as int]) != col);
            }
        },
        None => {
            assert forall|k: int| !unique_column(hs, col, k) by {
                if unique_column(hs, col, k) {
                    assert(column_of(hs[k]) != col);
                }
            }
        },
    }
}

/// Among the first `n` headers, `at` is the one naming `col`, or none does.
pub open spec fn seen(hs: Seq<Seq<char>>, col: Column, n: int, at: Option<usize>) -> bool {
    match at {
        Some(j) => 0 <= j < n && column_of(hs[j as int]) == col && forall|k: int|
            0 <= k < n && k != j ==> column_of(#[trigger] hs[k]) != col,
        None => forall|k: int| 0 <= k < n ==> column_of(#[trigger] hs[k]) != col,
    }
}

/// Two headers naming `col` rule out a unique one.
proof fn lemma_duplicate(hs: Seq<Seq<char>>, col: Column, j: int, i: int)
    requires
        0 <= j < i < hs.len(),
        column_of(hs[j]) == col,
        column_of(hs[i]) == col,
    ensures
        forall|k: int| !unique_column(hs, col, k),
        !no_column(hs, col),
{
    assert forall|k: int| !unique_column(hs, col, k) by {
        if unique_column(hs, col, k) {
            if k != j {
                assert(column_of(hs[j]) != col);
            } else {
                assert(column_of(hs[i]) != col);
            }
        }
    }
}

/// The transaction that a record stands for (see `row_transaction`).
pub fn parse_transaction_row(headers: &Vec<String>, record: &Vec<String>) -> (r: Option<Transaction>)
    ensures
        r == row_transaction(headers.deep_view(), record.deep_view()),
{
    let row = match TransactionRow::decode(headers, record) {
        Some(row) => row,
        None => return None,
    };
    let kind = match parse_kind(row.kind.as_str()) {
        Some(k) => k,
        None => return None,
    };
    let parsed = match &row.amount {
        Some(raw) => match Amount::parse(raw.as_str()) {
            Ok(a) => Some(a),
            Err(_) => None,
        },
        None => None,
    };
    let needs_amount = kind == TransactionKind::Deposit || kind == TransactionKind::Withdrawal;
    if needs_amount && parsed.is_none() {
        return None;
    }
    Some(Transaction { kind, client: row.client, tx: row.tx, amount: parsed })
}

} // verus!
