//! Character-level helpers shared by the parsers and formatters.
use vstd::prelude::*;

verus! {

broadcast use vstd::string::group_string_axioms;

/// `char::is_whitespace`: the Unicode `White_Space` property.
pub open spec fn is_whitespace(c: char) -> bool {
    let u = c as int;
    ||| 0x09 <= u <= 0x0D
    ||| u == 0x20
    ||| u == 0x85
    ||| u == 0xA0
    ||| u == 0x1680
    ||| 0x2000 <= u <= 0x200A
    ||| u == 0x2028
    ||| u == 0x2029
    ||| u == 0x202F
    ||| u == 0x205F
    ||| u == 0x3000
}

pub fn char_is_whitespace(c: char) -> (r: bool)
    ensures
        r == is_whitespace(c),
{
    let u = c as u32;
    (0x09 <= u && u <= 0x0D) || u == 0x20 || u == 0x85 || u == 0xA0 || u == 0x1680 || (0x2000
        <= u && u <= 0x200A) || u == 0x2028 || u == 0x2029 || u == 0x202F || u == 0x205F || u
        == 0x3000
}

/// The characters of a string, in order.
pub fn chars_of(s: &str) -> (r: Vec<char>)
    ensures
        r@ == s@,
{
    let mut r: Vec<char> = Vec::new();
    for c in it: s.chars()
        invariant
            r@ == it.seq().take(it.index() as int),
    {
        r.push(c);
    }
    r
}


/// The characters of `v`, as a string.
pub fn string_of(v: &Vec<char>) -> (r: String)
    ensures
        r@ == v@,
{
    let mut r = String::new();
    let mut i: usize = 0;
    while i < v.len()
        invariant
            i <= v.len(),
            r@ == v@.take(i as int),
        decreases v.len() - i,
    {
        push_char(&mut r, v[i]);
        assert(v@.take(i + 1) == v@.take(i as int).push(v@[i as int]));
        i = i + 1;
    }
    assert(v@.take(v.len() as int) == v@);
    r
}

/// `String::push`: appends one character to the end of the string.
#[verifier::external_body]
fn push_char(s: &mut String, c: char)
    ensures
        final(s)@ == old(s)@.push(c),
{
    s.push(c)
}

/// The elements of `v` from index `from` up to, not including, `to`.
pub fn sub_chars(v: &Vec<char>, from: usize, to: usize) -> (r: Vec<char>)
    requires
        from <= to <= v.len(),
    ensures
        r@ == v@.subrange(from as int, to as int),
{
    let mut r: Vec<char> = Vec::new();
    let mut i = from;
    while i < to
        invariant
            from <= i <= to <= v.len(),
            r@ == v@.subrange(from as int, i as int),
        decreases to - i,
    {
        r.push(v[i]);
        i = i + 1;
    }
    r
}

/// `str::trim_start`: drops the leading whitespace.
pub open spec fn trim_start(s: Seq<char>) -> Seq<char>
    decreases s.len(),
{
    if s.len() > 0 && is_whitespace(s[0]) {
        trim_start(s.drop_first())
    } else {
        s
    }
}

/// `str::trim_end`: drops the trailing whitespace.
pub open spec fn trim_end(s: Seq<char>) -> Seq<char>
    decreases s.len(),
{
    if s.len() > 0 && is_whitespace(s.last()) {
        trim_end(s.drop_last())
    } else {
        s
    }
}

/// `str::trim`: drops leading and trailing whitespace.
pub open spec fn trim(s: Seq<char>) -> Seq<char> {
    trim_end(trim_start(s))
}

proof fn lemma_trim_start_from(s: Seq<char>, i: int)
    requires
        0 <= i <= s.len(),
        forall|j: int| 0 <= j < i ==> is_whitespace(#[trigger] s[j]),
    ensures
        trim_start(s) == trim_start(s.subrange(i, s.len() as int)),
    decreases i,
{
    if i > 0 {
        lemma_trim_start_from(s, i - 1);
        let t = s.subrange(i - 1, s.len() as int);
        assert(is_whitespace(s[i - 1]));
        assert(t[0] == s[i - 1]);
        assert(t.drop_first() == s.subrange(i, s.len() as int));
    } else {
        assert(s.subrange(0, s.len() as int) == s);
    }
}

proof fn lemma_trim_end_to(s: Seq<char>, j: int)
    requires
        0 <= j <= s.len(),
        forall|k: int| j <= k < s.len() ==> is_whitespace(#[trigger] s[k]),
    ensures
        trim_end(s) == trim_end(s.subrange(0, j)),
    decreases s.len() - j,
{
    if j < s.len() {
        lemma_trim_end_to(s, j + 1);
        let t = s.subrange(0, j + 1);
        assert(t.drop_last() == s.subrange(0, j));
    } else {
        assert(s.subrange(0, j) == s);
    }
}

proof fn lemma_trim_start_idempotent(s: Seq<char>)
    ensures
        trim_start(trim_start(s)) == trim_start(s),
        trim_start(s).len() == 0 || !is_whitespace(trim_start(s)[0]),
    decreases s.len(),
{
    if s.len() > 0 && is_whitespace(s[0]) {
        lemma_trim_start_idempotent(s.drop_first());
    }
}

proof fn lemma_trim_end_idempotent(s: Seq<char>)
    ensures
        trim_end(trim_end(s)) == trim_end(s),
        trim_end(s).len() > 0 ==> trim_end(s)[0] == s[0],
    decreases s.len(),
{
    if s.len() > 0 && is_whitespace(s.last()) {
        lemma_trim_end_idempotent(s.drop_last());
        if trim_end(s).len() > 0 {
            assert(s.drop_last()[0] == s[0]);
        }
    }
}

/// Trimming twice is trimming once.
pub proof fn lemma_trim_idempotent(s: Seq<char>)
    ensures
        trim(trim(s)) == trim(s),
{
    let ts = trim_start(s);
    lemma_trim_start_idempotent(s);
    lemma_trim_end_idempotent(ts);
    let te = trim_end(ts);
    assert(trim_start(te) == te);
}

/// The characters of `v` with leading and trailing whitespace removed.
pub fn trim_chars(v: &Vec<char>) -> (r: Vec<char>)
    ensures
        r@ == trim(v@),
{
    let n = v.len();
    let mut i: usize = 0;
    while i < n && char_is_whitespace(v[i])
        invariant
            i <= n == v.len(),
            forall|j: int| 0 <= j < i ==> is_whitespace(#[trigger] v@[j]),
        decreases n - i,
    {
        i = i + 1;
    }
    proof {
        lemma_trim_start_from(v@, i as int);
    }
    let ghost rest = v@.subrange(i as int, n as int);
    assert(trim_start(rest) == rest);
    let mut j: usize = n;
    while j > i && char_is_whitespace(v[j - 1])
        invariant
            i <= j <= n == v.len(),
            forall|k: int| j <= k < n ==> is_whitespace(#[trigger] v@[k]),
        decreases j,
    {
        j = j - 1;
    }
    proof {
        assert forall|k: int| j - i <= k < rest.len() implies is_whitespace(#[trigger] rest[k]) by {
            assert(rest[k] == v@[i + k]);
        }
        lemma_trim_end_to(rest, j - i);
        let core = rest.subrange(0, j - i);
        assert(core == v@.subrange(i as int, j as int));
        if core.len() > 0 {
            assert(core.last() == v@[j - 1]);
        }
    }
    sub_chars(v, i, j)
}

/// An ASCII decimal digit.
pub open spec fn is_digit(c: char) -> bool {
    '0' <= c <= '9'
}

pub open spec fn all_digits(s: Seq<char>) -> bool {
    forall|i: int| 0 <= i < s.len() ==> is_digit(#[trigger] s[i])
}

pub open spec fn digit_value(c: char) -> int {
    c as int - '0' as int
}

/// The number that a string of decimal digits spells, most significant first.
pub open spec fn digits_value(s: Seq<char>) -> int
    decreases s.len(),
{
    if s.len() == 0 {
        0
    } else {
        digits_value(s.drop_last()) * 10 + digit_value(s.last())
    }
}

pub proof fn lemma_digits_value_nonneg(s: Seq<char>)
    requires
        all_digits(s),
    ensures
        digits_value(s) >= 0,
    decreases s.len(),
{
    if s.len() > 0 {
        lemma_digits_value_nonneg(s.drop_last());
    }
}

/// A prefix of a digit string spells no more than the whole string.
pub proof fn lemma_digits_value_prefix(s: Seq<char>, i: int)
    requires
        all_digits(s),
        0 <= i <= s.len(),
    ensures
        digits_value(s.take(i)) <= digits_value(s),
    decreases s.len() - i,
{
    if i < s.len() {
        lemma_digits_value_prefix(s, i + 1);
        let t = s.take(i + 1);
        assert(t.drop_last() == s.take(i));
        lemma_digits_value_nonneg(s.take(i));
    } else {
        assert(s.take(i) == s);
    }
}

/// The digit character of `d`, for `0 <= d < 10`.
pub open spec fn digit_char(d: int) -> char {
    if d == 0 {
        '0'
    } else if d == 1 {
        '1'
    } else if d == 2 {
        '2'
    } else if d == 3 {
        '3'
    } else if d == 4 {
        '4'
    } else if d == 5 {
        '5'
    } else if d == 6 {
        '6'
    } else if d == 7 {
        '7'
    } else if d == 8 {
        '8'
    } else {
        '9'
    }
}

/// The shortest decimal spelling of `n`.
pub open spec fn decimal(n: nat) -> Seq<char>
    decreases n,
{
    if n < 10 {
        seq![digit_char(n as int)]
    } else {
        decimal(n / 10).push(digit_char((n % 10) as int))
    }
}

/// `n` spelled with exactly four digits, zero-padded on the left, for `n < 10000`.
pub open spec fn four_digits(n: nat) -> Seq<char> {
    seq![
        digit_char((n / 1000 % 10) as int),
        digit_char((n / 100 % 10) as int),
        digit_char((n / 10 % 10) as int),
        digit_char((n % 10) as int),
    ]
}

pub proof fn lemma_digit_char(d: int)
    requires
        0 <= d < 10,
    ensures
        is_digit(digit_char(d)),
        digit_value(digit_char(d)) == d,
{
}

pub proof fn lemma_decimal(n: nat)
    ensures
        all_digits(decimal(n)),
        decimal(n).len() >= 1,
        digits_value(decimal(n)) == n,
    decreases n,
{
    lemma_digit_char((n % 10) as int);
    if n >= 10 {
        lemma_decimal(n / 10);
        let s = decimal(n);
        assert(s.drop_last() == decimal(n / 10));
        assert(s.last() == digit_char((n % 10) as int));
        assert(digits_value(s) == digits_value(decimal(n / 10)) * 10 + digit_value(s.last()));
        assert(digit_value(s.last()) == n % 10);
        assert((n / 10) * 10 + n % 10 == n);
        assert(all_digits(s)) by {
            assert forall|i: int| 0 <= i < s.len() implies is_digit(#[trigger] s[i]) by {
                if i < s.len() - 1 {
                    assert(s[i] == decimal(n / 10)[i]);
                }
            }
        }
    } else {
        let s = decimal(n);
        assert(s.drop_last() == Seq::<char>::empty());
        assert(digits_value(s) == digits_value(s.drop_last()) * 10 + digit_value(s.last()));
        assert(s.last() == digit_char(n as int));
    }
}

pub proof fn lemma_four_digits(n: nat)
    requires
        n < 10000,
    ensures
        all_digits(four_digits(n)),
        four_digits(n).len() == 4,
        digits_value(four_digits(n)) == n,
{
    let s = four_digits(n);
    lemma_digit_char((n / 1000 % 10) as int);
    lemma_digit_char((n / 100 % 10) as int);
    lemma_digit_char((n / 10 % 10) as int);
    lemma_digit_char((n % 10) as int);
    assert(s.drop_last().drop_last().drop_last().drop_last() == Seq::<char>::empty());
    assert(digits_value(s) == (((n / 1000 % 10) * 10 + n / 100 % 10) * 10 + (n / 10 % 10)) * 10
        + n % 10) by {
        reveal_with_fuel(digits_value, 5);
        assert(s.drop_last() == seq![s[0], s[1], s[2]]);
        assert(s.drop_last().drop_last() == seq![s[0], s[1]]);
        assert(s.drop_last().drop_last().drop_last() == seq![s[0]]);
    }
    assert((((n / 1000 % 10) * 10 + n / 100 % 10) * 10 + (n / 10 % 10)) * 10 + n % 10 == n)
        by (nonlinear_arith)
        requires
            n < 10000,
    ;
}

/// The decimal digits of `n`.
pub fn decimal_chars(n: u64) -> (r: Vec<char>)
    ensures
        r@ == decimal(n as nat),
{
    let mut q: u64 = n;
    let mut acc: Vec<char> = Vec::new();
    while q >= 10
        invariant
            decimal(n as nat) == decimal(q as nat) + acc@,
        decreases q,
    {
        let d = (q % 10) as u32;
        let c = char_of_digit(d);
        proof {
            assert(decimal(q as nat) == decimal((q / 10) as nat).push(digit_char((q % 10) as int)));
            assert(decimal(q as nat) + acc@ == decimal((q / 10) as nat) + (seq![c] + acc@));
        }
        acc.insert(0, c);
        q = q / 10;
    }
    let c = char_of_digit(q as u32);
    acc.insert(0, c);
    acc
}

/// The character of a decimal digit.
pub fn char_of_digit(d: u32) -> (c: char)
    requires
        d < 10,
    ensures
        c == digit_char(d as int),
{
    if d == 0 { '0' }
    else if d == 1 { '1' }
    else if d == 2 { '2' }
    else if d == 3 { '3' }
    else if d == 4 { '4' }
    else if d == 5 { '5' }
    else if d == 6 { '6' }
    else if d == 7 { '7' }
    else if d == 8 { '8' }
    else { '9' }
}


/// Whether `v` holds exactly the characters of `w`.
pub fn same_chars(v: &Vec<char>, w: &[char]) -> (r: bool)
    ensures
        r == (v@ == w@),
{
    if v.len() != w.len() {
        return false;
    }
    let mut i: usize = 0;
    while i < v.len()
        invariant
            i <= v.len() == w@.len(),
            forall|j: int| 0 <= j < i ==> v@[j] == w@[j],
        decreases v.len() - i,
    {
        if v[i] != w[i] {
            return false;
        }
        i = i + 1;
    }
    assert(v@ == w@);
    true
}

/// The value of a digit in base `radix` (10 or 16), if `c` is one.
pub open spec fn radix_digit(c: char, radix: int) -> Option<int> {
    if '0' <= c <= '9' {
        Some(c as int - '0' as int)
    } else if radix == 16 && 'a' <= c <= 'f' {
        Some(c as int - 'a' as int + 10)
    } else if radix == 16 && 'A' <= c <= 'F' {
        Some(c as int - 'A' as int + 10)
    } else {
        None
    }
}

pub open spec fn all_radix_digits(s: Seq<char>, radix: int) -> bool {
    forall|i: int| 0 <= i < s.len() ==> #[trigger] radix_digit(s[i], radix) is Some
}

/// The number that the base-`radix` digits `s` spell, most significant first.
pub open spec fn radix_value(s: Seq<char>, radix: int) -> int
    decreases s.len(),
{
    if s.len() == 0 {
        0
    } else {
        radix_value(s.drop_last(), radix) * radix + radix_digit(s.last(), radix)->0
    }
}

/// `from_str_radix` for an unsigned type whose largest value is `max`: an
/// optional `+`, then one or more base-`radix` digits spelling at most `max`.
pub open spec fn unsigned_value(s: Seq<char>, radix: int, max: int) -> Option<int> {
    let body = if s.len() > 0 && s[0] == '+' {
        s.drop_first()
    } else {
        s
    };
    if body.len() == 0 || !all_radix_digits(body, radix) || radix_value(body, radix) > max {
        None
    } else {
        Some(radix_value(body, radix))
    }
}

proof fn lemma_radix_value_prefix(s: Seq<char>, radix: int, i: int)
    requires
        all_radix_digits(s, radix),
        radix == 10 || radix == 16,
        0 <= i <= s.len(),
    ensures
        0 <= radix_value(s.take(i), radix) <= radix_value(s, radix),
    decreases s.len() - i,
{
    if i < s.len() {
        lemma_radix_value_prefix(s, radix, i + 1);
        let t = s.take(i + 1);
        assert(t.drop_last() == s.take(i));
        assert(radix_digit(s[i], radix) is Some);
        assert(t.last() == s[i]);
        assert(radix_value(t, radix) == radix_value(s.take(i), radix) * radix + radix_digit(s[i], radix)->0);
        assert(radix_value(s.take(i), radix) <= radix_value(s.take(i), radix) * radix) by (nonlinear_arith)
            requires
                radix_value(s.take(i), radix) >= 0,
                radix >= 10,
        ;
    } else {
        assert(s.take(i) == s);
        lemma_radix_value_nonneg(s, radix);
    }
}

proof fn lemma_radix_value_nonneg(s: Seq<char>, radix: int)
    requires
        all_radix_digits(s, radix),
        radix == 10 || radix == 16,
    ensures
        radix_value(s, radix) >= 0,
    decreases s.len(),
{
    if s.len() > 0 {
        let t = s.drop_last();
        assert forall|i: int| 0 <= i < t.len() implies #[trigger] radix_digit(t[i], radix) is Some by {
            assert(t[i] == s[i]);
        }
        lemma_radix_value_nonneg(t, radix);
        assert(radix_digit(s[s.len() - 1], radix) is Some);
        assert(radix_value(t, radix) * radix >= 0) by (nonlinear_arith)
            requires
                radix_value(t, radix) >= 0,
                radix >= 10,
        ;
    }
}

fn radix_digit_exec(c: char, radix: u64) -> (r: Option<u64>)
    requires
        radix == 10 || radix == 16,
    ensures
        match r {
            Some(d) => radix_digit(c, radix as int) == Some(d as int) && d < radix,
            None => radix_digit(c, radix as int) is None,
        },
{
    if '0' <= c && c <= '9' {
        Some((c as u32 - '0' as u32) as u64)
    } else if radix == 16 && 'a' <= c && c <= 'f' {
        Some((c as u32 - 'a' as u32 + 10) as u64)
    } else if radix == 16 && 'A' <= c && c <= 'F' {
        Some((c as u32 - 'A' as u32 + 10) as u64)
    } else {
        None
    }
}

/// `from_str_radix` for an unsigned type whose largest value is `max`.
pub fn unsigned_from_chars(s: &Vec<char>, radix: u64, max: u64) -> (r: Option<u64>)
    requires
        radix == 10 || radix == 16,
    ensures
        match r {
            Some(v) => unsigned_value(s@, radix as int, max as int) == Some(v as int),
            None => unsigned_value(s@, radix as int, max as int) is None,
        },
{
    let start: usize = if s.len() > 0 && s[0] == '+' {
        1
    } else {
        0
    };
    let ghost body = if s@.len() > 0 && s@[0] == '+' {
        s@.drop_first()
    } else {
        s@
    };
    assert(body == s@.subrange(start as int, s@.len() as int));
    if start >= s.len() {
        return None;
    }
    let mut acc: u64 = 0;
    let mut i: usize = start;
    while i < s.len()
        invariant
            radix == 10 || radix == 16,
            start <= i <= s.len(),
            body == s@.subrange(start as int, s@.len() as int),
            body == (if s@.len() > 0 && s@[0] == '+' {
                s@.drop_first()
            } else {
                s@
            }),
            all_radix_digits(body.take(i - start), radix as int),
            acc == radix_value(body.take(i - start), radix as int),
            acc <= max,
        decreases s.len() - i,
    {
        let d = match radix_digit_exec(s[i], radix) {
            Some(d) => d,
            None => {
                assert(body[i - start] == s@[i as int]);
                return None;
            },
        };
        let ghost k = i - start;
        proof {
            assert(body[k] == s@[i as int]);
            assert(body.take(k + 1).drop_last() == body.take(k));
            assert(body.take(k + 1).last() == body[k]);
            assert forall|j: int| 0 <= j < k + 1 implies #[trigger] radix_digit(body.take(k + 1)[j], radix as int) is Some by {
                if j < k {
                    assert(body.take(k + 1)[j] == body.take(k)[j]);
                }
            }
        }
        if d > max {
            proof {
                if all_radix_digits(body, radix as int) {
                    lemma_radix_value_prefix(body, radix as int, k + 1);
                    lemma_radix_value_nonneg(body.take(k), radix as int);
                    assert(acc * radix >= 0) by (nonlinear_arith)
                        requires
                            acc >= 0,
                            radix > 0,
                    ;
                }
            }
            return None;
        }
        let lim = (max - d) / radix;
        if acc > lim {
            proof {
                let x = (max - d) as int;
                let rr = radix as int;
                assert(x == rr * (x / rr) + x % rr && 0 <= x % rr < rr) by {
                    vstd::arithmetic::div_mod::lemma_fundamental_div_mod(x, rr);
                    vstd::arithmetic::div_mod::lemma_mod_bound(x, rr);
                }
                assert(acc * radix + d > max) by (nonlinear_arith)
                    requires
                        acc >= lim + 1,
                        lim == x / rr,
                        x == rr * (x / rr) + x % rr,
                        x % rr < rr,
                        rr == radix,
                        x == max - d,
                        radix > 0,
                ;
                if all_radix_digits(body, radix as int) {
                    lemma_radix_value_prefix(body, radix as int, k + 1);
                }
            }
            return None;
        }
        proof {
            let x = (max - d) as int;
            let rr = radix as int;
            assert(x == rr * (x / rr) + x % rr && 0 <= x % rr < rr) by {
                vstd::arithmetic::div_mod::lemma_fundamental_div_mod(x, rr);
                vstd::arithmetic::div_mod::lemma_mod_bound(x, rr);
            }
            assert(acc * radix + d <= max) by (nonlinear_arith)
                requires
                    acc <= lim,
                    lim == x / rr,
                    x == rr * (x / rr) + x % rr,
                    0 <= x % rr,
                    rr == radix,
                    x == max - d,
                    radix > 0,
                    acc >= 0,
            ;
        }
        acc = acc * radix + d;
        i = i + 1;
    }
    assert(body.take(s.len() - start) == body);
    Some(acc)
}

} // verus!
