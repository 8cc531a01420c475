//! Unbounded natural numbers held as little-endian binary digits.
//!
//! A `BigNat` keeps no high zero digit, so two values are equal exactly
//! when their digit vectors are. Every operation is exact: there is no
//! ceiling short of available memory.
use vstd::prelude::*;
use vstd::arithmetic::div_mod::*;

verus! {

/// `t` when `b` holds, zero otherwise.
pub open spec fn scaled(b: bool, t: nat) -> nat {
    if b {
        t
    } else {
        0
    }
}

pub open spec fn two_to(k: nat) -> nat
    decreases k,
{
    if k == 0 {
        1
    } else {
        2 * two_to((k - 1) as nat)
    }
}

/// The number spelled by little-endian binary digits.
pub open spec fn bits_value(s: Seq<bool>) -> nat
    decreases s.len(),
{
    if s.len() == 0 {
        0
    } else {
        bits_value(s.drop_last()) + scaled(s.last(), two_to((s.len() - 1) as nat))
    }
}

/// No high zero digit.
pub open spec fn trimmed(s: Seq<bool>) -> bool {
    s.len() == 0 || s.last()
}

pub proof fn lemma_two_to_positive(k: nat)
    ensures
        two_to(k) >= 1,
    decreases k,
{
    if k > 0 {
        lemma_two_to_positive((k - 1) as nat);
    }
}

pub proof fn lemma_two_to_monotone(a: nat, b: nat)
    requires
        a <= b,
    ensures
        two_to(a) <= two_to(b),
    decreases b - a,
{
    if a < b {
        lemma_two_to_monotone(a, (b - 1) as nat);
        lemma_two_to_positive((b - 1) as nat);
    }
}

proof fn lemma_push_value(s: Seq<bool>, b: bool)
    ensures
        bits_value(s.push(b)) == bits_value(s) + scaled(b, two_to(s.len())),
{
    assert(s.push(b).drop_last() =~= s);
}

proof fn lemma_take_step(s: Seq<bool>, i: int)
    requires
        0 <= i < s.len(),
    ensures
        bits_value(s.take(i + 1)) == bits_value(s.take(i)) + scaled(s[i], two_to(i as nat)),
{
    assert(s.take(i + 1) =~= s.take(i).push(s[i]));
    lemma_push_value(s.take(i), s[i]);
}

pub proof fn lemma_value_bound(s: Seq<bool>)
    ensures
        bits_value(s) < two_to(s.len()),
    decreases s.len(),
{
    if s.len() > 0 {
        lemma_value_bound(s.drop_last());
    }
}

pub proof fn lemma_trimmed_lower(s: Seq<bool>)
    requires
        trimmed(s),
        s.len() > 0,
    ensures
        bits_value(s) >= two_to((s.len() - 1) as nat),
{
}

proof fn lemma_trimmed_zero(s: Seq<bool>)
    requires
        trimmed(s),
    ensures
        (bits_value(s) == 0) <==> (s.len() == 0),
{
    if s.len() > 0 {
        lemma_trimmed_lower(s);
        lemma_two_to_positive((s.len() - 1) as nat);
    }
}

/// Prepending a digit doubles the value and adds the digit.
pub proof fn lemma_value_cons(b: bool, s: Seq<bool>)
    ensures
        bits_value(seq![b] + s) == scaled(b, 1) + 2 * bits_value(s),
    decreases s.len(),
{
    let t = seq![b] + s;
    if s.len() == 0 {
        assert(t.drop_last() =~= Seq::<bool>::empty());
        assert(two_to(0) == 1);
        assert(bits_value(t) == bits_value(t.drop_last()) + scaled(t.last(), two_to(0)));
    } else {
        assert(t.drop_last() =~= seq![b] + s.drop_last());
        lemma_value_cons(b, s.drop_last());
        assert(t.last() == s.last());
        let x = two_to((s.len() - 1) as nat);
        assert(two_to((t.len() - 1) as nat) == 2 * x);
        assert(scaled(s.last(), 2 * x) == 2 * scaled(s.last(), x));
        assert(bits_value(t) == bits_value(t.drop_last()) + scaled(t.last(), 2 * x));
        assert(bits_value(s) == bits_value(s.drop_last()) + scaled(s.last(), x));
    }
}

proof fn lemma_skip_cons(s: Seq<bool>, i: int)
    requires
        0 <= i < s.len(),
    ensures
        bits_value(s.skip(i)) == scaled(s[i], 1) + 2 * bits_value(s.skip(i + 1)),
{
    assert(s.skip(i) =~= seq![s[i]] + s.skip(i + 1));
    lemma_value_cons(s[i], s.skip(i + 1));
}

/// `a` with zero digits appended up to length `n`.
fn padded(a: &Vec<bool>, n: usize) -> (r: Vec<bool>)
    requires
        a@.len() <= n,
    ensures
        r@.len() == n,
        bits_value(r@) == bits_value(a@),
{
    let mut r: Vec<bool> = Vec::new();
    let mut i: usize = 0;
    while i < a.len()
        invariant
            i <= a@.len(),
            r@ == a@.take(i as int),
        decreases a@.len() - i,
    {
        r.push(a[i]);
        proof {
            assert(a@.take(i + 1) =~= a@.take(i as int).push(a@[i as int]));
        }
        i += 1;
    }
    proof {
        assert(a@.take(a@.len() as int) =~= a@);
    }
    while r.len() < n
        invariant
            a@.len() <= r@.len() <= n,
            bits_value(r@) == bits_value(a@),
        decreases n - r@.len(),
    {
        proof {
            lemma_push_value(r@, false);
        }
        r.push(false);
    }
    r
}

/// Drops high zero digits.
fn trim(v: &mut Vec<bool>)
    ensures
        bits_value(final(v)@) == bits_value(old(v)@),
        trimmed(final(v)@),
{
    while v.len() > 0 && !v[v.len() - 1]
        invariant
            bits_value(v@) == bits_value(old(v)@),
        decreases v@.len(),
    {
        let ghost before = v@;
        v.pop();
        proof {
            assert(before.drop_last() =~= v@);
        }
    }
}

fn max_len(a: usize, b: usize) -> (r: usize)
    ensures
        r >= a,
        r >= b,
        r == a || r == b,
{
    if a < b {
        b
    } else {
        a
    }
}

/// Exact sum of two digit vectors.
fn add_bits(a: &Vec<bool>, b: &Vec<bool>) -> (r: Vec<bool>)
    ensures
        bits_value(r@) == bits_value(a@) + bits_value(b@),
        trimmed(r@),
{
    let n = max_len(a.len(), b.len());
    let pa = padded(a, n);
    let pb = padded(b, n);
    let mut out: Vec<bool> = Vec::new();
    let mut carry = false;
    let mut i: usize = 0;
    proof {
        assert(pa@.take(0) =~= Seq::<bool>::empty());
        assert(pb@.take(0) =~= Seq::<bool>::empty());
    }
    while i < n
        invariant
            i <= n,
            pa@.len() == n,
            pb@.len() == n,
            out@.len() == i,
            bits_value(out@) + scaled(carry, two_to(i as nat)) == bits_value(pa@.take(i as int))
                + bits_value(pb@.take(i as int)),
        decreases n - i,
    {
        let x = pa[i];
        let y = pb[i];
        let count: u8 = (if x { 1u8 } else { 0u8 }) + (if y { 1u8 } else { 0u8 }) + (if carry {
            1u8
        } else {
            0u8
        });
        let digit = count == 1 || count == 3;
        proof {
            lemma_take_step(pa@, i as int);
            lemma_take_step(pb@, i as int);
            lemma_push_value(out@, digit);
        }
        out.push(digit);
        carry = count >= 2;
        i += 1;
    }
    proof {
        assert(pa@.take(n as int) =~= pa@);
        assert(pb@.take(n as int) =~= pb@);
    }
    if carry {
        proof {
            lemma_push_value(out@, true);
        }
        out.push(true);
    }
    trim(&mut out);
    out
}

/// `a - b` and whether it borrowed (`a < b`); the difference is exact
/// when there is no borrow.
fn sub_bits(a: &Vec<bool>, b: &Vec<bool>) -> (r: (Vec<bool>, bool))
    ensures
        r.1 == (bits_value(a@) < bits_value(b@)),
        !r.1 ==> bits_value(r.0@) == bits_value(a@) - bits_value(b@),
        trimmed(r.0@),
{
    let n = max_len(a.len(), b.len());
    let pa = padded(a, n);
    let pb = padded(b, n);
    let mut out: Vec<bool> = Vec::new();
    let mut borrow = false;
    let mut i: usize = 0;
    proof {
        assert(pa@.take(0) =~= Seq::<bool>::empty());
        assert(pb@.take(0) =~= Seq::<bool>::empty());
    }
    while i < n
        invariant
            i <= n,
            pa@.len() == n,
            pb@.len() == n,
            out@.len() == i,
            bits_value(out@) - scaled(borrow, two_to(i as nat)) == bits_value(pa@.take(i as int))
                - bits_value(pb@.take(i as int)),
        decreases n - i,
    {
        let x = pa[i];
        let y = pb[i];
        let d: i8 = (if x { 1i8 } else { 0i8 }) - (if y { 1i8 } else { 0i8 }) - (if borrow {
            1i8
        } else {
            0i8
        });
        let digit = d == 1 || d == -1;
        proof {
            lemma_take_step(pa@, i as int);
            lemma_take_step(pb@, i as int);
            lemma_push_value(out@, digit);
        }
        out.push(digit);
        borrow = d < 0;
        i += 1;
    }
    proof {
        assert(pa@.take(n as int) =~= pa@);
        assert(pb@.take(n as int) =~= pb@);
        lemma_value_bound(out@);
    }
    trim(&mut out);
    (out, borrow)
}

/// `[b] ++ r`, the value `2 * r + b`; kept free of high zero digits.
fn shift_in(r: &Vec<bool>, b: bool) -> (out: Vec<bool>)
    requires
        trimmed(r@),
    ensures
        bits_value(out@) == scaled(b, 1) + 2 * bits_value(r@),
        trimmed(out@),
{
    if r.len() == 0 && !b {
        proof {
            assert(bits_value(r@) == 0);
        }
        return Vec::new();
    }
    let mut out: Vec<bool> = Vec::new();
    out.push(b);
    let mut i: usize = 0;
    proof {
        assert(out@ =~= seq![b] + r@.take(0));
    }
    while i < r.len()
        invariant
            i <= r@.len(),
            out@ == seq![b] + r@.take(i as int),
        decreases r@.len() - i,
    {
        out.push(r[i]);
        proof {
            assert(seq![b] + r@.take(i + 1) =~= (seq![b] + r@.take(i as int)).push(r@[i as int]));
        }
        i += 1;
    }
    proof {
        assert(r@.take(r@.len() as int) =~= r@);
        lemma_value_cons(b, r@);
    }
    out
}

/// Exact product of two digit vectors.
fn mul_bits(a: &Vec<bool>, b: &Vec<bool>) -> (r: Vec<bool>)
    ensures
        bits_value(r@) == bits_value(a@) * bits_value(b@),
        trimmed(r@),
{
    let mut sh = padded(a, a.len());
    trim(&mut sh);
    let mut res: Vec<bool> = Vec::new();
    let mut i: usize = 0;
    proof {
        assert(b@.take(0) =~= Seq::<bool>::empty());
        assert(bits_value(Seq::<bool>::empty()) == 0);
        assert(two_to(0) == 1);
    }
    while i < b.len()
        invariant
            i <= b@.len(),
            bits_value(res@) == bits_value(a@) * bits_value(b@.take(i as int)),
            bits_value(sh@) == bits_value(a@) * two_to(i as nat),
            trimmed(sh@),
            trimmed(res@),
        decreases b@.len() - i,
    {
        let ghost av = bits_value(a@);
        let ghost bt = bits_value(b@.take(i as int));
        let ghost p = two_to(i as nat);
        proof {
            lemma_take_step(b@, i as int);
        }
        if b[i] {
            res = add_bits(&res, &sh);
            assert(av * bt + av * p == av * (bt + p)) by (nonlinear_arith);
        } else {
            assert(bits_value(b@.take(i + 1)) == bt);
        }
        sh = shift_in(&sh, false);
        assert(2 * (av * p) == av * (2 * p)) by (nonlinear_arith);
        i += 1;
    }
    proof {
        assert(b@.take(b@.len() as int) =~= b@);
    }
    res
}

/// Long division: quotient and remainder of `a` by a positive `d`.
fn divmod_bits(a: &Vec<bool>, d: &Vec<bool>) -> (r: (Vec<bool>, Vec<bool>))
    requires
        bits_value(d@) > 0,
    ensures
        bits_value(r.0@) * bits_value(d@) + bits_value(r.1@) == bits_value(a@),
        bits_value(r.1@) < bits_value(d@),
        trimmed(r.0@),
        trimmed(r.1@),
{
    let mut q: Vec<bool> = Vec::new();
    while q.len() < a.len()
        invariant
            q@.len() <= a@.len(),
            forall|j: int| 0 <= j < q@.len() ==> !q@[j],
        decreases a@.len() - q@.len(),
    {
        q.push(false);
    }
    let mut rem: Vec<bool> = Vec::new();
    let mut i: usize = a.len();
    proof {
        assert(q@.skip(i as int) =~= Seq::<bool>::empty());
        assert(a@.skip(i as int) =~= Seq::<bool>::empty());
        assert(bits_value(Seq::<bool>::empty()) == 0);
        assert(0 * bits_value(d@) == 0);
    }
    while i > 0
        invariant
            i <= a@.len(),
            q@.len() == a@.len(),
            forall|j: int| 0 <= j < i ==> !q@[j],
            bits_value(q@.skip(i as int)) * bits_value(d@) + bits_value(rem@) == bits_value(
                a@.skip(i as int),
            ),
            bits_value(rem@) < bits_value(d@),
            trimmed(rem@),
        decreases i,
    {
        i -= 1;
        let ghost qv = bits_value(q@.skip(i + 1));
        let ghost dv = bits_value(d@);
        let ghost rv = bits_value(rem@);
        proof {
            lemma_skip_cons(a@, i as int);
        }
        let r1 = shift_in(&rem, a[i]);
        let (diff, borrow) = sub_bits(&r1, d);
        if borrow {
            rem = r1;
            proof {
                lemma_skip_cons(q@, i as int);
                assert(2 * (qv * dv) == (2 * qv) * dv) by (nonlinear_arith);
            }
        } else {
            rem = diff;
            let ghost before = q@;
            q.set(i, true);
            proof {
                assert(q@.skip(i + 1) =~= before.skip(i + 1));
                lemma_skip_cons(q@, i as int);
                assert(2 * (qv * dv) + dv == (2 * qv + 1) * dv) by (nonlinear_arith);
            }
        }
    }
    proof {
        assert(q@.skip(0) =~= q@);
        assert(a@.skip(0) =~= a@);
    }
    trim(&mut q);
    (q, rem)
}

/// The binary digits of `x`.
fn bits_of_u64(x: u64) -> (r: Vec<bool>)
    ensures
        bits_value(r@) == x,
        trimmed(r@),
{
    let mut out: Vec<bool> = Vec::new();
    let mut y = x;
    proof {
        assert(two_to(0) == 1);
        assert(bits_value(out@) == 0);
    }
    while y > 0
        invariant
            bits_value(out@) + two_to(out@.len()) * y == x,
        decreases y,
    {
        let ghost t = two_to(out@.len());
        let b = y % 2 == 1;
        proof {
            lemma_push_value(out@, b);
            assert(t * y == scaled(b, t) + (2 * t) * (y / 2)) by (nonlinear_arith)
                requires
                    y == 2 * (y / 2) + y % 2,
                    b == (y % 2 == 1),
                    y % 2 < 2,
            ;
        }
        out.push(b);
        y = y / 2;
    }
    trim(&mut out);
    out
}

proof fn lemma_two_to_64()
    ensures
        two_to(64) == 0x1_0000_0000_0000_0000,
{
    reveal_with_fuel(two_to, 65);
}

/// The value of `s` when it is below 2^64.
fn u64_of_bits(s: &Vec<bool>) -> (r: Option<u64>)
    requires
        trimmed(s@),
    ensures
        r is Some <==> bits_value(s@) < 0x1_0000_0000_0000_0000,
        r matches Some(v) ==> v == bits_value(s@),
{
    proof {
        lemma_two_to_64();
    }
    if s.len() > 64 {
        proof {
            lemma_trimmed_lower(s@);
            lemma_two_to_monotone(64, (s@.len() - 1) as nat);
        }
        return None;
    }
    let mut acc: u64 = 0;
    let mut i: usize = s.len();
    proof {
        assert(s@.skip(i as int) =~= Seq::<bool>::empty());
    }
    while i > 0
        invariant
            i <= s@.len() <= 64,
            acc == bits_value(s@.skip(i as int)),
        decreases i,
    {
        i -= 1;
        proof {
            lemma_two_to_64();
            lemma_skip_cons(s@, i as int);
            lemma_value_bound(s@.skip(i + 1));
            assert(s@.skip(i + 1).len() == s@.len() - i - 1);
            lemma_two_to_monotone((s@.len() - i - 1) as nat, 63);
            assert(two_to(64) == 2 * two_to(63));
            assert(acc < 0x8000_0000_0000_0000);
        }
        acc = 2 * acc + (if s[i] { 1u64 } else { 0u64 });
    }
    proof {
        assert(s@.skip(0) =~= s@);
    }
    Some(acc)
}

/// An unbounded natural number.
#[derive(Debug, PartialEq, Eq)]
pub struct BigNat {
    bits: Vec<bool>,
}

impl BigNat {
    #[verifier::type_invariant]
    spec fn well_formed(self) -> bool {
        trimmed(self.bits@)
    }

    /// The number this value denotes.
    pub closed spec fn view(&self) -> nat {
        bits_value(self.bits@)
    }

    fn from_bits(bits: Vec<bool>) -> (r: BigNat)
        requires
            trimmed(bits@),
        ensures
            r@ == bits_value(bits@),
    {
        BigNat { bits }
    }

    pub fn zero() -> (r: BigNat)
        ensures
            r@ == 0,
    {
        proof {
            assert(bits_value(Seq::<bool>::empty()) == 0);
        }
        BigNat { bits: Vec::new() }
    }

    pub fn from_u64(x: u64) -> (r: BigNat)
        ensures
            r@ == x,
    {
        BigNat::from_bits(bits_of_u64(x))
    }

    /// An equal copy.
    pub fn duplicate(&self) -> (r: BigNat)
        ensures
            r@ == self@,
    {
        proof {
            use_type_invariant(self);
        }
        let b = padded(&self.bits, self.bits.len());
        let mut b2 = b;
        trim(&mut b2);
        BigNat::from_bits(b2)
    }

    pub fn is_zero(&self) -> (b: bool)
        ensures
            b == (self@ == 0),
    {
        proof {
            use_type_invariant(self);
            lemma_trimmed_zero(self.bits@);
        }
        self.bits.len() == 0
    }

    pub fn add(&self, other: &BigNat) -> (r: BigNat)
        ensures
            r@ == self@ + other@,
    {
        BigNat::from_bits(add_bits(&self.bits, &other.bits))
    }

    /// `self - other` when `other <= self`.
    pub fn sub(&self, other: &BigNat) -> (r: BigNat)
        requires
            other@ <= self@,
        ensures
            r@ == self@ - other@,
    {
        let (d, _) = sub_bits(&self.bits, &other.bits);
        BigNat::from_bits(d)
    }

    pub fn less_than(&self, other: &BigNat) -> (b: bool)
        ensures
            b == (self@ < other@),
    {
        let (_, borrow) = sub_bits(&self.bits, &other.bits);
        borrow
    }

    pub fn mul(&self, other: &BigNat) -> (r: BigNat)
        ensures
            r@ == self@ * other@,
    {
        BigNat::from_bits(mul_bits(&self.bits, &other.bits))
    }

    /// Quotient and remainder by a positive divisor.
    pub fn div_rem(&self, divisor: &BigNat) -> (r: (BigNat, BigNat))
        requires
            divisor@ > 0,
        ensures
            r.0@ == self@ / divisor@,
            r.1@ == self@ % divisor@,
    {
        let (q, m) = divmod_bits(&self.bits, &divisor.bits);
        proof {
            lemma_fundamental_div_mod_converse(
                self@ as int,
                divisor@ as int,
                bits_value(q@) as int,
                bits_value(m@) as int,
            );
        }
        (BigNat::from_bits(q), BigNat::from_bits(m))
    }

    /// The value when it is below 2^64.
    pub fn to_u64(&self) -> (r: Option<u64>)
        ensures
            r is Some <==> self@ < 0x1_0000_0000_0000_0000,
            r matches Some(v) ==> v == self@,
    {
        proof {
            use_type_invariant(self);
        }
        u64_of_bits(&self.bits)
    }

    /// Greatest common divisor by Euclid's algorithm.
    pub fn gcd(&self, other: &BigNat) -> (r: BigNat)
        ensures
            r@ == crate::rational::gcd(self@, other@),
    {
        let mut x = self.duplicate();
        let mut y = other.duplicate();
        while !y.is_zero()
            invariant
                crate::rational::gcd(x@, y@) == crate::rational::gcd(self@, other@),
            decreases y@,
        {
            let (_, r) = x.div_rem(&y);
            x = y;
            y = r;
        }
        x
    }

    /// Appends the decimal spelling of the value to `out`.
    pub fn push_decimal(&self, out: &mut String)
        ensures
            final(out)@ == old(out)@ + crate::text::decimal_digits(self@),
        decreases self@,
    {
        let ten = BigNat::from_u64(10);
        if self.less_than(&ten) {
            let d = match self.to_u64() {
                Some(v) => v,
                None => 0,
            };
            crate::text::push_char(out, crate::text::digit_char_exec(d));
            proof {
                assert(old(out)@.push(crate::text::digit_char(self@)) =~= old(out)@ + seq![
                    crate::text::digit_char(self@),
                ]);
            }
        } else {
            let (q, r) = self.div_rem(&ten);
            q.push_decimal(out);
            let d = match r.to_u64() {
                Some(v) => v,
                None => 0,
            };
            crate::text::push_char(out, crate::text::digit_char_exec(d));
            proof {
                assert((old(out)@ + crate::text::decimal_digits(q@)).push(
                    crate::text::digit_char(r@),
                ) =~= old(out)@ + crate::text::decimal_digits(self@));
            }
        }
    }

    /// The value of the decimal digits `t[from..to]`.
    pub fn from_digits(t: &Vec<char>, from: usize, to: usize) -> (r: BigNat)
        requires
            from <= to <= t@.len(),
            crate::numeral::all_digits(t@.subrange(from as int, to as int)),
        ensures
            r@ == crate::numeral::digits_value(t@.subrange(from as int, to as int)),
    {
        let ghost ds = t@.subrange(from as int, to as int);
        let ten = BigNat::from_u64(10);
        let mut acc = BigNat::zero();
        let mut i = from;
        proof {
            assert(ds.take(0) =~= Seq::<char>::empty());
        }
        while i < to
            invariant
                from <= i <= to <= t@.len(),
                ds == t@.subrange(from as int, to as int),
                crate::numeral::all_digits(ds),
                ten@ == 10,
                acc@ == crate::numeral::digits_value(ds.take(i - from)),
            decreases to - i,
        {
            let c = t[i];
            assert(ds[i - from] == c);
            assert(crate::numeral::is_digit(ds[i - from]));
            let d = (c as u32 - '0' as u32) as u64;
            proof {
                assert(ds.take(i - from + 1) =~= ds.take(i - from).push(c));
                crate::numeral::lemma_digits_value_push(ds.take(i - from), c);
            }
            let scaled_acc = acc.mul(&ten);
            acc = scaled_acc.add(&BigNat::from_u64(d));
            i += 1;
        }
        proof {
            assert(ds.take(to - from) =~= ds);
        }
        acc
    }

    /// Ten to the power `k`.
    pub fn pow10(k: u64) -> (r: BigNat)
        ensures
            r@ == crate::numeral::pow10(k as nat),
    {
        let ten = BigNat::from_u64(10);
        let mut p = BigNat::from_u64(1);
        let mut i: u64 = 0;
        while i < k
            invariant
                i <= k,
                ten@ == 10,
                p@ == crate::numeral::pow10(i as nat),
            decreases k - i,
        {
            p = p.mul(&ten);
            assert(p@ == crate::numeral::pow10((i + 1) as nat));
            i += 1;
        }
        p
    }
}

/// An unbounded integer: a sign and a magnitude, zero never negative.
#[derive(Debug, PartialEq, Eq)]
pub struct BigInt {
    negative: bool,
    magnitude: BigNat,
}

pub open spec fn signed_value(negative: bool, m: nat) -> int {
    if negative {
        -(m as int)
    } else {
        m as int
    }
}

impl BigInt {
    #[verifier::type_invariant]
    spec fn well_formed(self) -> bool {
        self.negative ==> self.magnitude@ > 0
    }

    /// The number this value denotes.
    pub closed spec fn view(&self) -> int {
        signed_value(self.negative, self.magnitude@)
    }

    /// `-m` when `negative`, `m` otherwise.
    pub fn from_nat(negative: bool, magnitude: BigNat) -> (r: BigInt)
        ensures
            r@ == signed_value(negative, magnitude@),
    {
        let negative = negative && !magnitude.is_zero();
        BigInt { negative, magnitude }
    }

    pub fn from_i64(x: i64) -> (r: BigInt)
        ensures
            r@ == x,
    {
        let m: u64 = if x >= 0 {
            x as u64
        } else if x == i64::MIN {
            9223372036854775808u64
        } else {
            (-x) as u64
        };
        BigInt::from_nat(x < 0, BigNat::from_u64(m))
    }

    pub fn duplicate(&self) -> (r: BigInt)
        ensures
            r@ == self@,
    {
        BigInt::from_nat(self.negative, self.magnitude.duplicate())
    }

    /// The absolute value.
    pub fn magnitude(&self) -> (r: BigNat)
        ensures
            r@ == crate::rational::abs(self@),
    {
        proof {
            use_type_invariant(self);
        }
        self.magnitude.duplicate()
    }

    pub fn is_negative(&self) -> (b: bool)
        ensures
            b == (self@ < 0),
    {
        proof {
            use_type_invariant(self);
        }
        self.negative
    }

    pub fn is_zero(&self) -> (b: bool)
        ensures
            b == (self@ == 0),
    {
        self.magnitude.is_zero()
    }

    pub fn neg(&self) -> (r: BigInt)
        ensures
            r@ == -self@,
    {
        BigInt::from_nat(!self.negative, self.magnitude.duplicate())
    }

    pub fn add(&self, other: &BigInt) -> (r: BigInt)
        ensures
            r@ == self@ + other@,
    {
        if self.negative == other.negative {
            BigInt::from_nat(self.negative, self.magnitude.add(&other.magnitude))
        } else if self.magnitude.less_than(&other.magnitude) {
            BigInt::from_nat(other.negative, other.magnitude.sub(&self.magnitude))
        } else {
            BigInt::from_nat(self.negative, self.magnitude.sub(&other.magnitude))
        }
    }

    pub fn sub(&self, other: &BigInt) -> (r: BigInt)
        ensures
            r@ == self@ - other@,
    {
        self.add(&other.neg())
    }

    pub fn mul(&self, other: &BigInt) -> (r: BigInt)
        ensures
            r@ == self@ * other@,
    {
        let m = self.magnitude.mul(&other.magnitude);
        let ghost x = self.magnitude@ as int;
        let ghost y = other.magnitude@ as int;
        proof {
            assert((-x) * (-y) == x * y) by (nonlinear_arith);
            assert((-x) * y == -(x * y)) by (nonlinear_arith);
            assert(x * (-y) == -(x * y)) by (nonlinear_arith);
        }
        BigInt::from_nat(self.negative != other.negative, m)
    }
}

} // verus!
