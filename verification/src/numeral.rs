//! Numeric literal syntax: integers (`-42`), fractions (`3/4`) and decimal
//! or scientific literals (`0.25`, `1,5e3`), all read as exact values.
//!
//! Literals are read exactly whatever their size. The one resource limit is
//! on a scientific literal's exponent: a syntactically valid literal beyond
//! it is reported as too large rather than re-read as a symbol or
//! approximated.
use vstd::prelude::*;
use crate::bignum::{BigInt, BigNat};


verus! {

/// Largest exponent a scientific literal may spell.
pub open spec fn exponent_limit() -> nat {
    10_000
}

pub open spec fn is_digit(c: char) -> bool {
    '0' <= c <= '9'
}

pub open spec fn digit_value(c: char) -> nat {
    (c as u32 - '0' as u32) as nat
}

/// The value of a string of decimal digits.
pub open spec fn digits_value(ds: Seq<char>) -> nat
    decreases ds.len(),
{
    if ds.len() == 0 {
        0
    } else {
        digits_value(ds.drop_last()) * 10 + digit_value(ds.last())
    }
}

pub open spec fn all_digits(ds: Seq<char>) -> bool {
    forall|i: int| 0 <= i < ds.len() ==> is_digit(#[trigger] ds[i])
}

pub open spec fn pow10(k: nat) -> nat
    decreases k,
{
    if k == 0 {
        1
    } else {
        10 * pow10((k - 1) as nat)
    }
}

/// Outcome of reading a numeric lexeme.
pub enum Numeral {
    /// Not this kind of literal.
    Invalid,
    /// A valid scientific literal whose exponent exceeds the reader's limit.
    TooLarge,
    /// The exact value `numerator / denominator` (denominator positive).
    Value(BigInt, BigNat),
}

/// Specification-side outcome of reading a numeric lexeme.
pub enum NumeralSpec {
    Invalid,
    TooLarge,
    Value(int, int),
}

impl Numeral {
    pub open spec fn view(&self) -> NumeralSpec {
        match self {
            Numeral::Invalid => NumeralSpec::Invalid,
            Numeral::TooLarge => NumeralSpec::TooLarge,
            Numeral::Value(n, d) => NumeralSpec::Value(n@, d@ as int),
        }
    }
}

/// Length of an optional leading sign.
pub open spec fn sign_len(t: Seq<char>) -> int {
    if t.len() > 0 && (t[0] == '+' || t[0] == '-') {
        1
    } else {
        0
    }
}

/// Index of the first non-digit at or after `from`.
pub open spec fn digits_end(t: Seq<char>, from: int) -> int
    decreases t.len() - from,
{
    if 0 <= from < t.len() && is_digit(t[from]) {
        digits_end(t, from + 1)
    } else {
        from
    }
}

pub open spec fn signed(negative: bool, v: int) -> int {
    if negative {
        -v
    } else {
        v
    }
}

/// An integer literal: an optional sign followed by one or more digits.
pub open spec fn integer_numeral(t: Seq<char>) -> NumeralSpec {
    let s = sign_len(t);
    let ds = t.subrange(s, t.len() as int);
    if ds.len() == 0 || !all_digits(ds) {
        NumeralSpec::Invalid
    } else {
        NumeralSpec::Value(signed(s == 1 && t[0] == '-', digits_value(ds) as int), 1)
    }
}

/// Where the mantissa of a decimal literal ends (after any fraction).
pub open spec fn mantissa_end(t: Seq<char>) -> int {
    let i_end = digits_end(t, sign_len(t));
    if i_end < t.len() && t[i_end] == '.' {
        digits_end(t, i_end + 1)
    } else {
        i_end
    }
}

/// The digits of the mantissa (integer part followed by fraction part).
pub open spec fn mantissa_digits(t: Seq<char>) -> Seq<char> {
    let s = sign_len(t);
    let i_end = digits_end(t, s);
    let m_end = mantissa_end(t);
    if m_end > i_end {
        t.subrange(s, i_end) + t.subrange(i_end + 1, m_end)
    } else {
        t.subrange(s, i_end)
    }
}

/// Number of fraction digits.
pub open spec fn fraction_len(t: Seq<char>) -> int {
    let i_end = digits_end(t, sign_len(t));
    let m_end = mantissa_end(t);
    if m_end > i_end {
        m_end - i_end - 1
    } else {
        0
    }
}

/// Whether the exponent part (from the mantissa end) is well formed.
pub open spec fn exponent_ok(t: Seq<char>) -> bool {
    let m = mantissa_end(t);
    m == t.len() || (t[m] == 'e' || t[m] == 'E') && {
        let s = m + 1 + sign_len(t.subrange(m + 1, t.len() as int));
        s < t.len() && digits_end(t, s) == t.len()
    }
}

pub open spec fn exponent_digits(t: Seq<char>) -> Seq<char> {
    let m = mantissa_end(t);
    if m == t.len() {
        Seq::empty()
    } else {
        let s = m + 1 + sign_len(t.subrange(m + 1, t.len() as int));
        t.subrange(s, t.len() as int)
    }
}

pub open spec fn exponent_negative(t: Seq<char>) -> bool {
    let m = mantissa_end(t);
    m + 1 < t.len() && t[m + 1] == '-'
}

/// A decimal or scientific literal: `[sign] digits [. digits] [e [sign] digits]`
/// with at least one mantissa digit; its exact value is
/// `mantissa * 10^(exponent - fraction digits)`.
pub open spec fn decimal_numeral(t: Seq<char>) -> NumeralSpec {
    let m = mantissa_digits(t);
    if m.len() == 0 || !exponent_ok(t) {
        NumeralSpec::Invalid
    } else {
        let mv = digits_value(m);
        let ev = digits_value(exponent_digits(t));
        let negative = sign_len(t) == 1 && t[0] == '-';
        if ev > exponent_limit() {
            NumeralSpec::TooLarge
        } else if mv == 0 {
            NumeralSpec::Value(0, 1)
        } else {
            let k = signed(exponent_negative(t), ev as int) - fraction_len(t);
            if k >= 0 {
                NumeralSpec::Value(signed(negative, (mv * pow10(k as nat)) as int), 1)
            } else {
                NumeralSpec::Value(signed(negative, mv as int), pow10((-k) as nat) as int)
            }
        }
    }
}

pub proof fn lemma_digits_end_bounds(t: Seq<char>, from: int)
    requires
        0 <= from <= t.len(),
    ensures
        from <= digits_end(t, from) <= t.len(),
        forall|i: int| from <= i < digits_end(t, from) ==> is_digit(#[trigger] t[i]),
        digits_end(t, from) < t.len() ==> !is_digit(t[digits_end(t, from)]),
    decreases t.len() - from,
{
    if from < t.len() && is_digit(t[from]) {
        lemma_digits_end_bounds(t, from + 1);
    }
}

pub proof fn lemma_digits_value_push(s: Seq<char>, c: char)
    ensures
        digits_value(s.push(c)) == digits_value(s) * 10 + digit_value(c),
{
    assert(s.push(c).drop_last() =~= s);
}

pub proof fn lemma_digits_value_prefix(s: Seq<char>, i: int)
    requires
        0 <= i <= s.len(),
    ensures
        digits_value(s.take(i)) <= digits_value(s),
    decreases s.len() - i,
{
    if i < s.len() {
        lemma_digits_value_prefix(s, i + 1);
        assert(s.take(i + 1) =~= s.take(i).push(s[i]));
        lemma_digits_value_push(s.take(i), s[i]);
    } else {
        assert(s.take(i) =~= s);
    }
}

pub(crate) fn is_digit_exec(c: char) -> (b: bool)
    ensures
        b == is_digit(c),
{
    '0' <= c && c <= '9'
}

/// Index of the first non-digit of `t` at or after `from`.
pub(crate) fn digits_end_exec(t: &Vec<char>, from: usize) -> (e: usize)
    requires
        from <= t@.len(),
    ensures
        e == digits_end(t@, from as int),
{
    proof {
        lemma_digits_end_bounds(t@, from as int);
    }
    let mut i = from;
    while i < t.len() && is_digit_exec(t[i])
        invariant
            from <= i <= t@.len(),
            digits_end(t@, i as int) == digits_end(t@, from as int),
        decreases t.len() - i,
    {
        i += 1;
    }
    i
}

/// The value of `t[from..to]` (all digits) when it is at most `limit`.
pub(crate) fn digits_value_bounded(t: &Vec<char>, from: usize, to: usize, limit: u128) -> (r: Option<u128>)
    requires
        from <= to <= t@.len(),
        all_digits(t@.subrange(from as int, to as int)),
        limit <= 10_000_000_000_000_000_000u128,
    ensures
        r is Some <==> digits_value(t@.subrange(from as int, to as int)) <= limit,
        r matches Some(v) ==> v == digits_value(t@.subrange(from as int, to as int)),
{
    let ghost ds = t@.subrange(from as int, to as int);
    let mut acc: u128 = 0;
    let mut i = from;
    while i < to
        invariant
            from <= i <= to <= t@.len(),
            ds == t@.subrange(from as int, to as int),
            all_digits(ds),
            limit <= 10_000_000_000_000_000_000u128,
            acc == digits_value(ds.take(i - from)),
            acc <= limit,
        decreases to - i,
    {
        let c = t[i];
        assert(ds[i - from] == c);
        let d = (c as u32 - '0' as u32) as u128;
        proof {
            assert(ds.take(i - from + 1) =~= ds.take(i - from).push(c));
            lemma_digits_value_push(ds.take(i - from), c);
        }
        let next = acc * 10 + d;
        if next > limit {
            proof {
                lemma_digits_value_prefix(ds, i - from + 1);
            }
            return None;
        }
        acc = next;
        i += 1;
    }
    proof {
        assert(ds.take(to - from) =~= ds);
    }
    Some(acc)
}

pub proof fn lemma_all_digits_range(t: Seq<char>, from: int, to: int)
    requires
        0 <= from <= to <= t.len(),
        forall|i: int| from <= i < to ==> is_digit(#[trigger] t[i]),
    ensures
        all_digits(t.subrange(from, to)),
{
    assert forall|i: int| 0 <= i < t.subrange(from, to).len() implies is_digit(
        #[trigger] t.subrange(from, to)[i],
    ) by {
        assert(t.subrange(from, to)[i] == t[from + i]);
    }
}

fn sign_len_exec(t: &Vec<char>) -> (s: usize)
    ensures
        s == sign_len(t@),
{
    if t.len() > 0 && (t[0] == '+' || t[0] == '-') {
        1
    } else {
        0
    }
}

/// Reads an integer literal.
pub fn read_integer(t: &Vec<char>) -> (r: Numeral)
    ensures
        r@ == integer_numeral(t@),
        r matches Numeral::Value(_, d) ==> d@ == 1,
{
    let s = sign_len_exec(t);
    let ghost ds = t@.subrange(s as int, t@.len() as int);
    if s == t.len() {
        return Numeral::Invalid;
    }
    let e = digits_end_exec(t, s);
    proof {
        lemma_digits_end_bounds(t@, s as int);
    }
    if e != t.len() {
        proof {
            assert(!is_digit(ds[e - s]));
        }
        return Numeral::Invalid;
    }
    proof {
        lemma_all_digits_range(t@, s as int, e as int);
    }
    let v = BigNat::from_digits(t, s, e);
    let negative = s == 1 && t[0] == '-';
    Numeral::Value(BigInt::from_nat(negative, v), BigNat::from_u64(1))
}
proof fn lemma_pow10_positive(a: nat)
    ensures
        pow10(a) >= 1,
    decreases a,
{
    if a > 0 {
        lemma_pow10_positive((a - 1) as nat);
    }
}

/// The spans of a decimal literal's parts: sign end, integer-part end,
/// mantissa end, exponent-digits start and whether the exponent is negative.
fn decimal_shape(t: &Vec<char>) -> (r: Option<(usize, usize, usize, usize, bool)>)
    ensures
        r is Some <==> (mantissa_digits(t@).len() > 0 && exponent_ok(t@)),
        r matches Some((s, i_end, m_end, e_start, neg)) ==> {
            &&& s == sign_len(t@)
            &&& i_end == digits_end(t@, s as int)
            &&& m_end == mantissa_end(t@)
            &&& s <= i_end <= m_end <= e_start <= t@.len()
            &&& t@.subrange(e_start as int, t@.len() as int) == exponent_digits(t@)
            &&& all_digits(exponent_digits(t@))
            &&& neg == exponent_negative(t@)
        },
{
    let s = sign_len_exec(t);
    proof {
        lemma_digits_end_bounds(t@, s as int);
    }
    let i_end = digits_end_exec(t, s);
    let mut m_end = i_end;
    if i_end < t.len() && t[i_end] == '.' {
        proof {
            lemma_digits_end_bounds(t@, i_end + 1);
        }
        m_end = digits_end_exec(t, i_end + 1);
    }
    assert(m_end == mantissa_end(t@));
    let int_len = i_end - s;
    let frac_len: usize = if m_end > i_end { m_end - i_end - 1 } else { 0 };
    assert(mantissa_digits(t@).len() == int_len + frac_len);
    if int_len + frac_len == 0 {
        return None;
    }
    let mut exp_start = m_end;
    let mut exp_negative = false;
    if m_end < t.len() {
        if t[m_end] != 'e' && t[m_end] != 'E' {
            return None;
        }
        let mut p = m_end + 1;
        if p < t.len() && (t[p] == '+' || t[p] == '-') {
            exp_negative = t[p] == '-';
            p = p + 1;
        }
        proof {
            assert(t@.subrange(m_end + 1, t@.len() as int).len() > 0 ==> t@.subrange(
                m_end + 1,
                t@.len() as int,
            )[0] == t@[m_end + 1]);
            lemma_digits_end_bounds(t@, p as int);
        }
        if p >= t.len() {
            return None;
        }
        let e_end = digits_end_exec(t, p);
        if e_end != t.len() {
            return None;
        }
        exp_start = p;
    }
    proof {
        lemma_digits_end_bounds(t@, exp_start as int);
        lemma_all_digits_range(t@, exp_start as int, t@.len() as int);
        assert(t@.subrange(exp_start as int, t@.len() as int) =~= exponent_digits(t@));
    }
    Some((s, i_end, m_end, exp_start, exp_negative))
}

/// The digits of the mantissa, integer part then fraction part.
fn mantissa_chars(t: &Vec<char>, s: usize, i_end: usize, m_end: usize) -> (r: Vec<char>)
    requires
        s == sign_len(t@),
        i_end == digits_end(t@, s as int),
        m_end == mantissa_end(t@),
        s <= i_end <= m_end <= t@.len(),
    ensures
        r@ == mantissa_digits(t@),
        all_digits(r@),
{
    proof {
        lemma_digits_end_bounds(t@, s as int);
    }
    let mut out: Vec<char> = Vec::new();
    let mut i = s;
    while i < i_end
        invariant
            s <= i <= i_end <= t@.len(),
            out@ == t@.subrange(s as int, i as int),
        decreases i_end - i,
    {
        out.push(t[i]);
        proof {
            assert(t@.subrange(s as int, i + 1) =~= t@.subrange(s as int, i as int).push(t@[i as int]));
        }
        i += 1;
    }
    if m_end > i_end {
        proof {
            lemma_digits_end_bounds(t@, i_end + 1);
        }
        let ghost ip = out@;
        let mut j = i_end + 1;
        proof {
            assert(ip + t@.subrange(i_end + 1, j as int) =~= ip);
        }
        while j < m_end
            invariant
                i_end < j <= m_end <= t@.len(),
                out@ == ip + t@.subrange(i_end + 1, j as int),
            decreases m_end - j,
        {
            out.push(t[j]);
            proof {
                assert(ip + t@.subrange(i_end + 1, j + 1) =~= (ip + t@.subrange(i_end + 1, j as int)).push(
                    t@[j as int],
                ));
            }
            j += 1;
        }
        proof {
            assert forall|k: int| 0 <= k < out@.len() implies is_digit(#[trigger] out@[k]) by {
                if k < ip.len() {
                    assert(out@[k] == t@[s + k]);
                } else {
                    assert(out@[k] == t@[i_end + 1 + k - ip.len()]);
                }
            }
        }
    } else {
        proof {
            assert forall|k: int| 0 <= k < out@.len() implies is_digit(#[trigger] out@[k]) by {
                assert(out@[k] == t@[s + k]);
            }
        }
    }
    out
}

pub proof fn lemma_pow10_add(a: nat, b: nat)
    ensures
        pow10(a + b) == pow10(a) * pow10(b),
    decreases a,
{
    if a == 0 {
        assert(pow10(0) == 1);
        assert(a + b == b);
    } else {
        lemma_pow10_add((a - 1) as nat, b);
        assert(pow10(a + b) == 10 * pow10((a - 1 + b) as nat));
        assert(pow10(a) == 10 * pow10((a - 1) as nat));
        assert(10 * (pow10((a - 1) as nat) * pow10(b)) == (10 * pow10((a - 1) as nat)) * pow10(b))
            by (nonlinear_arith);
    }
}

/// Reads a decimal or scientific literal, the decimal point being a `.`.
pub fn read_decimal(t: &Vec<char>) -> (r: Numeral)
    ensures
        r@ == decimal_numeral(t@),
        r matches Numeral::Value(_, d) ==> d@ > 0,
{
    let (s, i_end, m_end, exp_start, exp_negative) = match decimal_shape(t) {
        None => return Numeral::Invalid,
        Some(shape) => shape,
    };
    let frac_len: usize = if m_end > i_end { m_end - i_end - 1 } else { 0 };
    assert(frac_len == fraction_len(t@));
    let ev = match digits_value_bounded(t, exp_start, t.len(), 10_000u128) {
        None => return Numeral::TooLarge,
        Some(v) => v,
    };
    let mchars = mantissa_chars(t, s, i_end, m_end);
    let mv = BigNat::from_digits(&mchars, 0, mchars.len());
    proof {
        assert(mchars@.subrange(0, mchars@.len() as int) =~= mchars@);
    }
    let negative = s == 1 && t[0] == '-';
    if mv.is_zero() {
        return Numeral::Value(BigInt::from_i64(0), BigNat::from_u64(1));
    }
    let e = ev as u64;
    let f = frac_len as u64;
    let ghost m = mantissa_digits(t@);
    let ghost k = signed(exponent_negative(t@), ev as int) - fraction_len(t@);
    assert(mv@ == digits_value(m));
    assert(ev == digits_value(exponent_digits(t@)));
    assert(negative == (sign_len(t@) == 1 && t@[0] == '-'));
    if !exp_negative && e >= f {
        let p = BigNat::pow10(e - f);
        proof {
            assert(k == e - f);
        }
        Numeral::Value(BigInt::from_nat(negative, mv.mul(&p)), BigNat::from_u64(1))
    } else if !exp_negative {
        let p = BigNat::pow10(f - e);
        proof {
            assert(k == e - f);
            lemma_pow10_positive((f - e) as nat);
        }
        Numeral::Value(BigInt::from_nat(negative, mv), p)
    } else {
        let p1 = BigNat::pow10(e);
        let p2 = BigNat::pow10(f);
        proof {
            lemma_pow10_add(e as nat, f as nat);
            lemma_pow10_positive((e + f) as nat);
            assert(k == -(e as int) - f);
            if e == 0 && f == 0 {
                assert(pow10(0) == 1);
                assert(mv@ * 1 == mv@);
            }
        }
        Numeral::Value(BigInt::from_nat(negative, mv), p1.mul(&p2))
    }
}

} // verus!
