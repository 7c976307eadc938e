use vstd::prelude::*;

verus! {

/// Fixed-point money scaled ×10⁴ (four decimal places).
#[derive(Debug, Clone, Copy, PartialEq, Eq, Structural, PartialOrd, Ord, Hash)]
pub struct Amount(i64);

impl Amount {
    /// The amount zero.
    pub fn zero() -> (r: Amount)
        ensures
            r.scaled() == 0,
    {
        Amount(0)
    }

    /// The scaled integer this amount stands for.
    pub closed spec fn scaled(self) -> int {
        self.0 as int
    }

    /// An amount is determined by its scaled integer, which lies in the `i64` range.
    pub broadcast proof fn lemma_scaled(a: Amount, b: Amount)
        ensures
            #[trigger] a.scaled() == #[trigger] b.scaled() <==> a == b,
            fits_i64(a.scaled()),
    {
    }

    /// The amount whose scaled integer is `v`.
    pub closed spec fn of_scaled(v: int) -> Amount
        recommends
            fits_i64(v),
    {
        Amount(v as i64)
    }

    /// The scaled integer of an amount lies in the `i64` range.
    pub broadcast proof fn lemma_scaled_fits(a: Amount)
        ensures
            fits_i64(#[trigger] a.scaled()),
    {
    }

    /// An amount is the amount of its own scaled integer.
    pub broadcast proof fn lemma_scaled_roundtrip(a: Amount)
        ensures
            #[trigger] Amount::of_scaled(a.scaled()) == a,
            fits_i64(a.scaled()),
    {
    }

    /// The amount of a representable integer has that integer as its scaled value.
    pub broadcast proof fn lemma_of_scaled(v: int)
        requires
            fits_i64(v),
        ensures
            #[trigger] Amount::of_scaled(v).scaled() == v,
    {
    }

    pub fn from_scaled(value: i64) -> (r: Amount)
        ensures
            r.scaled() == value,
    {
        Amount(value)
    }

    pub fn as_scaled(self) -> (r: i64)
        ensures
            r == self.scaled(),
    {
        self.0
    }

    /// `Some` of the sum, or `None` when it leaves the `i64` range.
    pub fn checked_add(self, other: Amount) -> (r: Option<Amount>)
        ensures
            match r {
                Some(sum) => sum.scaled() == self.scaled() + other.scaled(),
                None => !fits_i64(self.scaled() + other.scaled()),
            },
    {
        match self.0.checked_add(other.0) {
            Some(v) => Some(Amount(v)),
            None => None,
        }
    }

    /// `Some` of the difference, or `None` when it leaves the `i64` range.
    pub fn checked_sub(self, other: Amount) -> (r: Option<Amount>)
        ensures
            match r {
                Some(diff) => diff.scaled() == self.scaled() - other.scaled(),
                None => !fits_i64(self.scaled() - other.scaled()),
            },
    {
        match self.0.checked_sub(other.0) {
            Some(v) => Some(Amount(v)),
            None => None,
        }
    }
}

/// Whether an integer is representable as an `i64`.
pub open spec fn fits_i64(v: int) -> bool {
    i64::MIN <= v <= i64::MAX
}


/// A raw amount that does not follow the decimal amount syntax.
#[derive(Debug, Clone, Copy, PartialEq, Eq, Structural)]
pub struct ParseAmountError;

/// Where a stored deposit stands in the dispute lifecycle.
#[derive(Debug, Clone, Copy, PartialEq, Eq, Structural)]
pub enum DisputeState {
    NotDisputed,
    Disputed,
    Resolved,
    ChargedBack,
}

#[derive(Debug, Clone, Copy, PartialEq, Eq, Structural)]
pub enum TransactionKind {
    Deposit,
    Withdrawal,
    Dispute,
    Resolve,
    Chargeback,
}

#[derive(Debug, Clone, PartialEq, Eq, Structural)]
pub struct Transaction {
    pub kind: TransactionKind,
    pub client: u16,
    pub tx: u32,
    pub amount: Option<Amount>,
}


/// Drops every leading `-`, as `str::trim_start_matches('-')` does.
pub open spec fn strip_dashes(s: Seq<char>) -> Seq<char>
    decreases s.len(),
{
    if s.len() > 0 && s[0] == '-' {
        strip_dashes(s.drop_first())
    } else {
        s
    }
}

/// The index of the first `.` in `s`, or `s.len()` when there is none.
pub open spec fn dot_index(s: Seq<char>) -> int
    decreases s.len(),
{
    if s.len() == 0 {
        0
    } else if s[0] == '.' {
        0
    } else {
        1 + dot_index(s.drop_first())
    }
}

/// The digits before the first `.`.
pub open spec fn whole_part(d: Seq<char>) -> Seq<char> {
    d.take(dot_index(d))
}

/// The digits after the first `.`, empty when there is no `.`.
pub open spec fn fraction_part(d: Seq<char>) -> Seq<char> {
    if dot_index(d) < d.len() {
        d.skip(dot_index(d) + 1)
    } else {
        Seq::<char>::empty()
    }
}

/// The factor that right-pads a fraction of `len` digits to four digits.
pub open spec fn fraction_scale(len: int) -> int {
    if len == 0 {
        10000
    } else if len == 1 {
        1000
    } else if len == 2 {
        100
    } else if len == 3 {
        10
    } else {
        1
    }
}

/// The magnitude, scaled by 10⁴, that whole digits `w` and fraction digits `f`
/// spell: `w` is one or more digits, `f` at most four digits, and the result
/// must fit an `i64`.
pub open spec fn parts_value(w: Seq<char>, f: Seq<char>) -> Option<int> {
    if w.len() == 0 || f.len() > 4 || !crate::text::all_digits(w) || !crate::text::all_digits(f) {
        None
    } else {
        let v = crate::text::digits_value(w) * 10000 + crate::text::digits_value(f)
            * fraction_scale(f.len() as int);
        if v > i64::MAX {
            None
        } else {
            Some(v)
        }
    }
}

/// The text with one leading `-`, if there is one, dropped.
pub open spec fn unsigned_text(t: Seq<char>) -> Seq<char> {
    if t.len() > 0 && t[0] == '-' {
        t.drop_first()
    } else {
        t
    }
}

/// The scaled value that the text `s` spells as an amount, or `None` when it is
/// not one: surrounding whitespace is ignored; an optional `-` makes the
/// amount negative; then come one or more digits, optionally followed by `.` and
/// at most four digits; the magnitude, scaled by 10⁴, must fit an `i64`.
pub open spec fn amount_value(s: Seq<char>) -> Option<int> {
    let t = crate::text::trim(s);
    let d = unsigned_text(t);
    match parts_value(whole_part(d), fraction_part(d)) {
        Some(v) => Some(if t[0] == '-' { -v } else { v }),
        None => None,
    }
}

/// As `amount_value`, but any number of leading `-` signs stand for one.
pub open spec fn lenient_amount_value(s: Seq<char>) -> Option<int> {
    let t = crate::text::trim(s);
    if t.len() == 0 {
        None
    } else {
        let d = strip_dashes(t);
        match parts_value(whole_part(d), fraction_part(d)) {
            Some(v) => Some(if t[0] == '-' { -v } else { v }),
            None => None,
        }
    }
}

/// Trimmed text that starts with two `-` signs.
pub open spec fn double_dashed(t: Seq<char>) -> bool {
    t.len() >= 2 && t[0] == '-' && t[1] == '-'
}

proof fn lemma_dot_index_bounds(s: Seq<char>)
    ensures
        0 <= dot_index(s) <= s.len(),
    decreases s.len(),
{
    if s.len() > 0 && s[0] != '.' {
        lemma_dot_index_bounds(s.drop_first());
    }
}

/// The strict and the lenient reading agree unless the text starts with two
/// `-` signs, which only the lenient one accepts.
pub proof fn lemma_amount_value_lenient(s: Seq<char>)
    ensures
        !double_dashed(crate::text::trim(s)) ==> amount_value(s) == lenient_amount_value(s),
        double_dashed(crate::text::trim(s)) ==> amount_value(s) is None,
{
    let t = crate::text::trim(s);
    let d = unsigned_text(t);
    if t.len() == 0 {
        assert(dot_index(d) == 0);
        assert(whole_part(d).len() == 0);
    } else if t[0] != '-' {
        assert(strip_dashes(t) == t);
    } else if double_dashed(t) {
        let r = d.drop_first();
        lemma_dot_index_bounds(r);
        assert(d[0] == '-');
        assert(dot_index(d) == 1 + dot_index(r));
        let w = whole_part(d);
        assert(w[0] == '-');
        assert(!crate::text::is_digit(w[0]));
    } else {
        assert(strip_dashes(d) == d);
        assert(strip_dashes(t) == strip_dashes(d));
    }
}

/// The text of a scaled amount: an optional `-`, the whole units in decimal,
/// a `.`, and exactly four fraction digits.
pub open spec fn amount_text(v: int) -> Seq<char> {
    let a: nat = if v < 0 {
        (-v) as nat
    } else {
        v as nat
    };
    let sign = if v < 0 {
        seq!['-']
    } else {
        Seq::<char>::empty()
    };
    sign + crate::text::decimal(a / 10000) + seq!['.'] + crate::text::four_digits(a % 10000)
}

proof fn lemma_strip_dashes_from(s: Seq<char>, i: int)
    requires
        0 <= i <= s.len(),
        forall|j: int| 0 <= j < i ==> #[trigger] s[j] == '-',
    ensures
        strip_dashes(s) == strip_dashes(s.subrange(i, s.len() as int)),
    decreases i,
{
    if i > 0 {
        lemma_strip_dashes_from(s, i - 1);
        let t = s.subrange(i - 1, s.len() as int);
        assert(t[0] == s[i - 1]);
        assert(t.drop_first() == s.subrange(i, s.len() as int));
    } else {
        assert(s.subrange(0, s.len() as int) == s);
    }
}

proof fn lemma_dot_index(s: Seq<char>, k: int)
    requires
        0 <= k <= s.len(),
        forall|j: int| 0 <= j < k ==> #[trigger] s[j] != '.',
        k < s.len() ==> s[k] == '.',
    ensures
        dot_index(s) == k,
    decreases k,
{
    if k > 0 {
        let t = s.drop_first();
        assert forall|j: int| 0 <= j < k - 1 implies #[trigger] t[j] != '.' by {
            assert(t[j] == s[j + 1]);
        }
        if k < s.len() {
            assert(t[k - 1] == s[k]);
        }
        lemma_dot_index(t, k - 1);
        assert(s[0] != '.');
    }
}

/// The number that the decimal digits `w` spell, when they are all digits and
/// the number fits an `i64`.
pub fn digits_to_i64(w: &Vec<char>) -> (r: Option<i64>)
    ensures
        match r {
            Some(x) => crate::text::all_digits(w@) && x == crate::text::digits_value(w@),
            None => !crate::text::all_digits(w@) || crate::text::digits_value(w@) > i64::MAX,
        },
{
    let mut wv: i64 = 0;
    let mut p: usize = 0;
    while p < w.len()
        invariant
            p <= w.len(),
            0 <= wv,
            crate::text::all_digits(w@.take(p as int)),
            wv == crate::text::digits_value(w@.take(p as int)),
        decreases w.len() - p,
    {
        let c = w[p];
        if !('0' <= c && c <= '9') {
            assert(!crate::text::is_digit(w@[p as int]));
            return None;
        }
        let dv = (c as u32 - '0' as u32) as i64;
        proof {
            assert(w@.take(p + 1).drop_last() == w@.take(p as int));
            assert(w@.take(p + 1).last() == c);
            assert(crate::text::all_digits(w@.take(p + 1))) by {
                assert forall|j: int| 0 <= j < p + 1 implies crate::text::is_digit(
                    #[trigger] w@.take(p + 1)[j],
                ) by {
                    if j < p {
                        assert(w@.take(p + 1)[j] == w@.take(p as int)[j]);
                    }
                }
            }
        }
        let next = match wv.checked_mul(10) {
            Some(x) => x.checked_add(dv),
            None => None,
        };
        match next {
            Some(x) => {
                wv = x;
            },
            None => {
                proof {
                    if crate::text::all_digits(w@) {
                        crate::text::lemma_digits_value_prefix(w@, p + 1);
                    }
                }
                return None;
            },
        }
        p = p + 1;
    }
    assert(w@.take(w.len() as int) == w@);
    Some(wv)
}

/// The scaled value that the characters `v` spell as an amount, leading `-`
/// signs read as one.
pub fn scaled_from_chars(v: &Vec<char>) -> (r: Option<i64>)
    ensures
        match r {
            Some(x) => lenient_amount_value(v@) == Some(x as int),
            None => lenient_amount_value(v@) is None,
        },
{
    let t = crate::text::trim_chars(v);
    if t.len() == 0 {
        return None;
    }
    let negative = t[0] == '-';
    let (whole, fraction) = split_unsigned(&t);
    match value_from_parts(&whole, &fraction) {
        Some(x) => {
            if negative {
                Some(-x)
            } else {
                Some(x)
            }
        },
        None => None,
    }
}

/// The whole and fraction digits of `t` once its leading `-` signs are dropped.
fn split_unsigned(t: &Vec<char>) -> (r: (Vec<char>, Vec<char>))
    ensures
        r.0@ == whole_part(strip_dashes(t@)),
        r.1@ == fraction_part(strip_dashes(t@)),
{
    let n = t.len();
    let mut i: usize = 0;
    while i < n && t[i] == '-'
        invariant
            i <= n == t.len(),
            forall|j: int| 0 <= j < i ==> #[trigger] t@[j] == '-',
        decreases n - i,
    {
        i = i + 1;
    }
    proof {
        lemma_strip_dashes_from(t@, i as int);
        let rest = t@.subrange(i as int, n as int);
        if rest.len() > 0 {
            assert(rest[0] == t@[i as int]);
        }
        assert(strip_dashes(rest) == rest);
    }
    let d = crate::text::sub_chars(t, i, n);
    let m = d.len();
    let mut k: usize = 0;
    while k < m && d[k] != '.'
        invariant
            k <= m == d.len(),
            forall|j: int| 0 <= j < k ==> #[trigger] d@[j] != '.',
        decreases m - k,
    {
        k = k + 1;
    }
    proof {
        lemma_dot_index(d@, k as int);
    }
    let whole = crate::text::sub_chars(&d, 0, k);
    let fraction = if k < m {
        crate::text::sub_chars(&d, k + 1, m)
    } else {
        Vec::new()
    };
    assert(whole@ == whole_part(d@));
    assert(fraction@ == fraction_part(d@));
    (whole, fraction)
}

/// The scaled magnitude that whole digits `whole` and fraction digits
/// `fraction` spell.
fn value_from_parts(whole: &Vec<char>, fraction: &Vec<char>) -> (r: Option<i64>)
    ensures
        match r {
            Some(x) => parts_value(whole@, fraction@) == Some(x as int) && x >= 0,
            None => parts_value(whole@, fraction@) is None,
        },
{
    if whole.len() == 0 || fraction.len() > 4 {
        return None;
    }
    let fv = match digits_to_i64(fraction) {
        Some(x) => x,
        None => {
            proof {
                if crate::text::all_digits(fraction@) {
                    lemma_small_digits(fraction@);
                }
            }
            return None;
        },
    };
    proof {
        lemma_small_digits(fraction@);
    }
    let wv = match digits_to_i64(whole) {
        Some(x) => x,
        None => {
            return None;
        },
    };
    let scale: i64 = if fraction.len() == 0 {
        10000
    } else if fraction.len() == 1 {
        1000
    } else if fraction.len() == 2 {
        100
    } else if fraction.len() == 3 {
        10
    } else {
        1
    };
    assert(fv * scale < 10000);
    assert(scale == fraction_scale(fraction.len() as int));
    assert(0 <= fv * scale) by (nonlinear_arith)
        requires
            0 <= fv,
            0 < scale,
    ;
    assert(crate::text::digits_value(fraction@) * fraction_scale(fraction.len() as int) == fv
        * scale);
    let fs = fv * scale;
    proof {
        crate::text::lemma_digits_value_nonneg(whole@);
    }
    match wv.checked_mul(10000) {
        Some(x) => {
            assert(x == wv * 10000);
            match x.checked_add(fs) {
                Some(y) => {
                    assert(y == crate::text::digits_value(whole@) * 10000
                        + crate::text::digits_value(fraction@) * fraction_scale(fraction.len() as int));
                    assert(parts_value(whole@, fraction@) == Some(y as int));
                    Some(y)
                },
                None => None,
            }
        },
        None => None,
    }
}

/// The text of a scaled amount, as `amount_text` describes it.
pub fn text_of_scaled(v: i64) -> (r: String)
    ensures
        r@ == amount_text(v as int),
{
    let negative = v < 0;
    let abs: u64 = if negative {
        (-(v as i128)) as u64
    } else {
        v as u64
    };
    let whole = abs / 10000;
    let fraction = abs % 10000;
    let mut out: Vec<char> = Vec::new();
    if negative {
        out.push('-');
    }
    let mut digits = crate::text::decimal_chars(whole);
    out.append(&mut digits);
    out.push('.');
    out.push(crate::text::char_of_digit((fraction / 1000 % 10) as u32));
    out.push(crate::text::char_of_digit((fraction / 100 % 10) as u32));
    out.push(crate::text::char_of_digit((fraction / 10 % 10) as u32));
    out.push(crate::text::char_of_digit((fraction % 10) as u32));
    let ghost sign = if negative {
        seq!['-']
    } else {
        Seq::<char>::empty()
    };
    assert(out@ == sign + crate::text::decimal(whole as nat) + seq!['.']
        + crate::text::four_digits(fraction as nat));
    crate::text::string_of(&out)
}

/// Appending a zero digit to a fraction of fewer than four digits never
/// changes the amount: a fraction counts as right-padded with zeros to four
/// digits, so `1.125` and `1.1250` are the same amount.
pub proof fn lemma_fraction_zero_padding(w: Seq<char>, f: Seq<char>)
    requires
        f.len() < 4,
    ensures
        parts_value(w, f.push('0')) == parts_value(w, f),
{
    let g = f.push('0');
    assert(g.drop_last() == f);
    assert(g.last() == '0');
    assert(crate::text::digits_value(g) == crate::text::digits_value(f) * 10);
    assert(crate::text::all_digits(g) == crate::text::all_digits(f)) by {
        if crate::text::all_digits(f) {
            assert forall|i: int| 0 <= i < g.len() implies crate::text::is_digit(#[trigger] g[i]) by {
                if i < f.len() {
                    assert(g[i] == f[i]);
                }
            }
        }
        if crate::text::all_digits(g) {
            assert forall|i: int| 0 <= i < f.len() implies crate::text::is_digit(#[trigger] f[i]) by {
                assert(g[i] == f[i]);
            }
        }
    }
    assert(fraction_scale(g.len() as int) * 10 == fraction_scale(f.len() as int));
    assert(crate::text::digits_value(g) * fraction_scale(g.len() as int) == crate::text::digits_value(f)
        * fraction_scale(f.len() as int)) by (nonlinear_arith)
        requires
            crate::text::digits_value(g) == crate::text::digits_value(f) * 10,
            fraction_scale(g.len() as int) * 10 == fraction_scale(f.len() as int),
    ;
}

/// Whole digits `w` and exactly four fraction digits `f` spell
/// `w * 10000 + f` in units of 10⁻⁴, when that fits an `i64`.
pub proof fn lemma_four_digit_fraction(w: Seq<char>, f: Seq<char>)
    requires
        w.len() > 0,
        crate::text::all_digits(w),
        f.len() == 4,
        crate::text::all_digits(f),
        crate::text::digits_value(w) * 10000 + crate::text::digits_value(f) <= i64::MAX,
    ensures
        parts_value(w, f) == Some(crate::text::digits_value(w) * 10000 + crate::text::digits_value(f)),
{
}

/// Formatting then parsing gives the amount back, for every amount but
/// `i64::MIN`, whose magnitude has no `i64`.
pub proof fn lemma_amount_text_roundtrip(v: int)
    requires
        i64::MIN < v <= i64::MAX,
    ensures
        amount_value(amount_text(v)) == Some(v),
{
    let a: nat = if v < 0 {
        (-v) as nat
    } else {
        v as nat
    };
    let w = crate::text::decimal(a / 10000);
    let f = crate::text::four_digits(a % 10000);
    crate::text::lemma_decimal(a / 10000);
    crate::text::lemma_four_digits(a % 10000);
    let d = w + seq!['.'] + f;
    let s = amount_text(v);
    assert(s == if v < 0 { seq!['-'] + d } else { d });
    assert(!crate::text::is_whitespace(s[0])) by {
        if v >= 0 {
            assert(s[0] == w[0]);
            assert(crate::text::is_digit(w[0]));
        }
    }
    assert(crate::text::is_digit(s.last())) by {
        assert(s.last() == f[3]);
    }
    assert(crate::text::trim_start(s) == s);
    assert(crate::text::trim_end(s) == s);
    assert(crate::text::trim(s) == s);
    assert(d[0] == w[0]);
    assert(crate::text::is_digit(w[0]));
    if v < 0 {
        assert((seq!['-'] + d).drop_first() == d);
    }
    assert(unsigned_text(s) == d);
    assert forall|j: int| 0 <= j < w.len() implies #[trigger] d[j] != '.' by {
        assert(d[j] == w[j]);
        assert(crate::text::is_digit(w[j]));
    }
    assert(d[w.len() as int] == '.');
    lemma_dot_index(d, w.len() as int);
    assert(whole_part(d) == w);
    assert(fraction_part(d) == f);
    assert(a / 10000 * 10000 + a % 10000 == a);
    assert(parts_value(w, f) == Some(a as int));
}

/// Surrounding whitespace never changes what a text parses to.
pub proof fn lemma_amount_value_ignores_whitespace(s: Seq<char>)
    ensures
        amount_value(crate::text::trim(s)) == amount_value(s),
{
    crate::text::lemma_trim_idempotent(s);
}

/// At most four digits spell a number that, padded to four digits, stays below 10⁴.
proof fn lemma_small_digits(f: Seq<char>)
    requires
        f.len() <= 4,
        crate::text::all_digits(f),
    ensures
        0 <= crate::text::digits_value(f),
        crate::text::digits_value(f) * fraction_scale(f.len() as int) < 10000,
    decreases f.len(),
{
    crate::text::lemma_digits_value_nonneg(f);
    if f.len() > 0 {
        let g = f.drop_last();
        assert(crate::text::all_digits(g)) by {
            assert forall|j: int| 0 <= j < g.len() implies crate::text::is_digit(#[trigger] g[j]) by {
                assert(g[j] == f[j]);
            }
        }
        lemma_small_digits(g);
        assert(crate::text::is_digit(f[f.len() - 1]));
        let dg = crate::text::digits_value(g);
        let lv = crate::text::digit_value(f.last());
        assert(0 <= lv <= 9);
        assert(crate::text::digits_value(f) == dg * 10 + lv);
        if f.len() == 1 {
            assert(dg == 0);
        } else if f.len() == 2 {
            assert(dg < 10);
        } else if f.len() == 3 {
            assert(dg < 100);
        } else {
            assert(dg < 1000);
        }
    }
}


impl Amount {
    /// Parses the decimal text of an amount (see `amount_value`); negative
    /// amounts, with one leading `-`, parse too.
    pub fn parse(raw: &str) -> (r: Result<Amount, ParseAmountError>)
        ensures
            match r {
                Ok(a) => amount_value(raw@) == Some(a.scaled()),
                Err(_) => amount_value(raw@) is None,
            },
    {
        let chars = crate::text::chars_of(raw);
        let t = crate::text::trim_chars(&chars);
        proof {
            lemma_amount_value_lenient(raw@);
        }
        if t.len() >= 2 && t[0] == '-' && t[1] == '-' {
            return Err(ParseAmountError);
        }
        match scaled_from_chars(&chars) {
            Some(v) => Ok(Amount(v)),
            None => Err(ParseAmountError),
        }
    }

    /// The amount as text: an optional `-`, the whole units, `.`, and four
    /// fraction digits.
    pub fn to_string(&self) -> (r: String)
        ensures
            r@ == amount_text(self.scaled()),
    {
        text_of_scaled(self.0)
    }
}

impl std::str::FromStr for Amount {
    type Err = ParseAmountError;

    /// Parses as `Amount::parse` does.
    fn from_str(raw: &str) -> (r: Result<Amount, ParseAmountError>)
        ensures
            match r {
                Ok(a) => amount_value(raw@) == Some(a.scaled()),
                Err(_) => amount_value(raw@) is None,
            },
    {
        Amount::parse(raw)
    }
}

impl std::ops::Add for Amount {
    type Output = Amount;

    /// The sum; it must stay in the `i64` range.
    fn add(self, rhs: Amount) -> (r: Amount)
        ensures
            r.scaled() == self.scaled() + rhs.scaled(),
    {
        Amount(self.0 + rhs.0)
    }
}

impl vstd::std_specs::ops::AddSpecImpl for Amount {
    open spec fn obeys_add_spec() -> bool {
        true
    }

    open spec fn add_req(self, rhs: Amount) -> bool {
        fits_i64(self.scaled() + rhs.scaled())
    }

    open spec fn add_spec(self, rhs: Amount) -> Amount {
        Amount::of_scaled(self.scaled() + rhs.scaled())
    }
}

impl std::ops::Sub for Amount {
    type Output = Amount;

    /// The difference; it must stay in the `i64` range.
    fn sub(self, rhs: Amount) -> (r: Amount)
        ensures
            r.scaled() == self.scaled() - rhs.scaled(),
    {
        Amount(self.0 - rhs.0)
    }
}

impl vstd::std_specs::ops::SubSpecImpl for Amount {
    open spec fn obeys_sub_spec() -> bool {
        true
    }

    open spec fn sub_req(self, rhs: Amount) -> bool {
        fits_i64(self.scaled() - rhs.scaled())
    }

    open spec fn sub_spec(self, rhs: Amount) -> Amount {
        Amount::of_scaled(self.scaled() - rhs.scaled())
    }
}

impl Default for Amount {
    /// The amount zero.
    fn default() -> (r: Amount)
        ensures
            r.scaled() == 0,
    {
        Amount(0)
    }
}

} // verus!
