//! Exact reduced fractions.
//!
//! A `Rational` is always stored in lowest terms with a positive
//! denominator, so two rationals are equal exactly when their fields are.
//! Numerator and denominator are unbounded: arithmetic is exact, with no
//! ceiling short of available memory.
use vstd::prelude::*;
use vstd::arithmetic::div_mod::*;
use crate::bignum::{BigInt, BigNat};

verus! {

/// Greatest common divisor by Euclid's recursion.
pub open spec fn gcd(a: nat, b: nat) -> nat
    decreases b,
{
    if b == 0 {
        a
    } else {
        gcd(b, a % b)
    }
}

pub open spec fn abs(x: int) -> nat {
    if x < 0 {
        (-x) as nat
    } else {
        x as nat
    }
}

/// The lowest-terms form of `a / b` with a positive denominator.
pub open spec fn reduce(a: int, b: int) -> (int, int) {
    let g = gcd(abs(a), abs(b));
    let n = abs(a) / g;
    let d = abs(b) / g;
    if (a < 0) != (b < 0) {
        (-n, d as int)
    } else {
        (n as int, d as int)
    }
}

/// Whether `p` is a fraction in lowest terms with a positive denominator.
pub open spec fn is_canonical(p: (int, int)) -> bool {
    p.1 > 0 && gcd(abs(p.0), p.1 as nat) == 1
}

proof fn lemma_mod_of_multiple(q: int, g: int)
    requires
        g > 0,
    ensures
        (q * g) % g == 0,
{
    lemma_mod_multiples_basic(q, g);
}

pub proof fn lemma_gcd_divides(a: nat, b: nat)
    requires
        a > 0 || b > 0,
    ensures
        gcd(a, b) > 0,
        a % gcd(a, b) == 0,
        b % gcd(a, b) == 0,
    decreases b,
{
    if b == 0 {
        lemma_mod_self_0(a as int);
        lemma_small_mod(0, a);
    } else {
        let r = a % b;
        lemma_gcd_divides(b, r);
        let g = gcd(b, r);
        assert(gcd(a, b) == g);
        lemma_fundamental_div_mod(a as int, b as int);
        lemma_fundamental_div_mod(b as int, g as int);
        lemma_fundamental_div_mod(r as int, g as int);
        let q = a as int / b as int;
        let kb = b as int / g as int;
        let kr = r as int / g as int;
        assert(a as int == b * q + r);
        assert(b as int == g * kb);
        assert(r as int == g * kr);
        assert(a as int == (q * kb + kr) * g) by (nonlinear_arith)
            requires
                a as int == b * q + r,
                b as int == g * kb,
                r as int == g * kr,
        ;
        lemma_mod_of_multiple(q * kb + kr, g as int);
    }
}

proof fn lemma_gcd_scale(k: nat, a: nat, b: nat)
    requires
        k > 0,
    ensures
        gcd(k * a, k * b) == k * gcd(a, b),
    decreases b,
{
    if b == 0 {
        assert(k * b == 0) by (nonlinear_arith)
            requires
                b == 0,
        ;
    } else {
        let q = a as int / b as int;
        let r = a as int % b as int;
        lemma_fundamental_div_mod(a as int, b as int);
        lemma_mod_pos_bound(a as int, b as int);
        assert(k * b > 0) by (nonlinear_arith)
            requires
                k > 0,
                b > 0,
        ;
        assert((k * a) as int == q * (k * b) + k * r && 0 <= k * r < k * b) by (nonlinear_arith)
            requires
                a as int == b * q + r,
                0 <= r < b,
                k > 0,
        ;
        lemma_fundamental_div_mod_converse((k * a) as int, (k * b) as int, q, k * r);
        assert((k * a) % (k * b) == k * (a % b));
        lemma_gcd_scale(k, b, a % b);
    }
}

proof fn lemma_gcd_of_quotients(a: nat, b: nat)
    requires
        a > 0 || b > 0,
    ensures
        gcd(a / gcd(a, b), b / gcd(a, b)) == 1,
{
    lemma_gcd_divides(a, b);
    let g = gcd(a, b);
    let x = a / g;
    let y = b / g;
    lemma_fundamental_div_mod(a as int, g as int);
    lemma_fundamental_div_mod(b as int, g as int);
    assert(a == g * x);
    assert(b == g * y);
    lemma_gcd_scale(g, x, y);
    assert(g * gcd(x, y) == g * 1);
    assert(gcd(x, y) == 1) by (nonlinear_arith)
        requires
            g * gcd(x, y) == g * 1,
            g > 0,
    ;
}

/// Law: `reduce` yields lowest terms with a positive denominator.
pub proof fn lemma_reduce_canonical(a: int, b: int)
    requires
        b != 0,
    ensures
        is_canonical(reduce(a, b)),
{
    let g = gcd(abs(a), abs(b));
    lemma_gcd_divides(abs(a), abs(b));
    lemma_gcd_of_quotients(abs(a), abs(b));
    lemma_fundamental_div_mod(abs(b) as int, g as int);
    let d = abs(b) / g;
    assert(d > 0) by (nonlinear_arith)
        requires
            abs(b) as int == g * d + abs(b) % g,
            abs(b) % g == 0,
            abs(b) > 0,
            g > 0,
    ;
    let n = abs(a) / g;
    assert(abs(-(n as int)) == n);
}

/// Law: `reduce(a, b)` denotes the same number as `a / b`.
pub proof fn lemma_reduce_value(a: int, b: int)
    requires
        b != 0,
    ensures
        reduce(a, b).0 * b == a * reduce(a, b).1,
{
    let g = gcd(abs(a), abs(b));
    lemma_gcd_divides(abs(a), abs(b));
    lemma_fundamental_div_mod(abs(a) as int, g as int);
    lemma_fundamental_div_mod(abs(b) as int, g as int);
    let n = (abs(a) / g) as int;
    let d = (abs(b) / g) as int;
    assert(abs(a) as int == g * n);
    assert(abs(b) as int == g * d);
    assert(n * abs(b) == abs(a) * d) by (nonlinear_arith)
        requires
            abs(a) as int == g * n,
            abs(b) as int == g * d,
    ;
    if a < 0 && b < 0 {
        assert(n * b == a * d) by (nonlinear_arith)
            requires
                n * abs(b) == abs(a) * d,
                abs(a) == -a,
                abs(b) == -b,
        ;
    } else if a < 0 {
        assert((-n) * b == a * d) by (nonlinear_arith)
            requires
                n * abs(b) == abs(a) * d,
                abs(a) == -a,
                abs(b) == b,
        ;
    } else if b < 0 {
        assert((-n) * b == a * d) by (nonlinear_arith)
            requires
                n * abs(b) == abs(a) * d,
                abs(a) == a,
                abs(b) == -b,
        ;
    } else {
        assert(n * b == a * d);
    }
}

proof fn lemma_gcd_one_right(a: nat)
    ensures
        gcd(a, 1) == 1,
{
    assert(a % 1 == 0);
    assert(gcd(1, 0) == 1);
}

pub proof fn lemma_reduce_integer(a: int)
    ensures
        reduce(a, 1) == (a, 1int),
{
    lemma_gcd_one_right(abs(a));
    assert(abs(1) == 1);
}

/// An exact fraction in lowest terms.
#[derive(Debug, PartialEq, Eq)]
pub struct Rational {
    numerator: BigInt,
    denominator: BigNat,
}

impl Rational {
    #[verifier::type_invariant]
    spec fn well_formed(self) -> bool {
        is_canonical(self.view())
    }

    /// The (numerator, denominator) pair this value denotes.
    pub closed spec fn view(self) -> (int, int) {
        (self.numerator@, self.denominator@ as int)
    }

    /// The lowest-terms form of `n / d`; `None` when `d` is zero.
    pub fn from_big(n: BigInt, d: BigInt) -> (r: Option<Rational>)
        ensures
            r is Some <==> d@ != 0,
            r matches Some(v) ==> v.view() == reduce(n@, d@) && is_canonical(v.view()),
    {
        if d.is_zero() {
            return None;
        }
        let a = n.magnitude();
        let b = d.magnitude();
        let g = a.gcd(&b);
        proof {
            lemma_gcd_divides(abs(n@), abs(d@));
            lemma_reduce_canonical(n@, d@);
        }
        let (qa, _) = a.div_rem(&g);
        let (qb, _) = b.div_rem(&g);
        let negative = n.is_negative() != d.is_negative();
        let numerator = BigInt::from_nat(negative, qa);
        Some(Rational { numerator, denominator: qb })
    }

    /// `numerator / denominator` in lowest terms; `None` for a zero
    /// denominator.
    pub fn new(numerator: i64, denominator: i64) -> (r: Option<Rational>)
        ensures
            r is Some <==> denominator != 0,
            r matches Some(v) ==> v.view() == reduce(numerator as int, denominator as int),
    {
        Rational::from_big(BigInt::from_i64(numerator), BigInt::from_i64(denominator))
    }

    /// The fraction spelled by two integer literals (each an optional sign
    /// and decimal digits, of any length), in lowest terms; `None` when
    /// either is not such a literal or the denominator is zero.
    pub fn from_literal(numerator: &str, denominator: &str) -> (r: Option<Rational>)
        ensures
            r is Some <==> literal_fraction(numerator@, denominator@) is Some,
            r matches Some(v) ==> Some(v.view()) == literal_fraction(numerator@, denominator@),
    {
        let n = crate::numeral::read_integer(&crate::text::chars_of(numerator));
        let d = crate::numeral::read_integer(&crate::text::chars_of(denominator));
        match (n, d) {
            (crate::numeral::Numeral::Value(a, _), crate::numeral::Numeral::Value(b, _)) => {
                Rational::from_big(a, b)
            },
            _ => None,
        }
    }

    /// The lowest-terms form of `n / d` for a positive `d`.
    pub fn from_parts(n: BigInt, d: BigNat) -> (r: Rational)
        requires
            d@ > 0,
        ensures
            r.view() == reduce(n@, d@ as int),
    {
        match Rational::from_big(n, BigInt::from_nat(false, d)) {
            Some(v) => v,
            None => Rational::integer(0),
        }
    }

    /// The whole number `value`.
    pub fn integer(value: i64) -> (r: Rational)
        ensures
            r.view() == (value as int, 1int),
            is_canonical(r.view()),
    {
        proof {
            lemma_gcd_one_right(abs(value as int));
        }
        Rational { numerator: BigInt::from_i64(value), denominator: BigNat::from_u64(1) }
    }

    /// An equal copy.
    pub fn duplicate(&self) -> (r: Rational)
        ensures
            r.view() == self.view(),
            is_canonical(r.view()),
    {
        proof {
            use_type_invariant(self);
        }
        Rational { numerator: self.numerator.duplicate(), denominator: self.denominator.duplicate() }
    }

    /// Exact sum; always present.
    pub fn checked_add(self, other: Rational) -> (r: Option<Rational>)
        ensures
            r is Some,
            r matches Some(v) ==> v.view() == reduce(
                self.view().0 * other.view().1 + other.view().0 * self.view().1,
                self.view().1 * other.view().1,
            ),
    {
        proof {
            use_type_invariant(&self);
            use_type_invariant(&other);
            lemma_positive_product(self.view().1, other.view().1);
        }
        let sd = BigInt::from_nat(false, self.denominator.duplicate());
        let od = BigInt::from_nat(false, other.denominator.duplicate());
        let numerator = self.numerator.mul(&od).add(&other.numerator.mul(&sd));
        Rational::from_big(numerator, sd.mul(&od))
    }

    /// Exact difference; always present.
    pub fn checked_sub(self, other: Rational) -> (r: Option<Rational>)
        ensures
            r is Some,
            r matches Some(v) ==> v.view() == reduce(
                self.view().0 * other.view().1 - other.view().0 * self.view().1,
                self.view().1 * other.view().1,
            ),
    {
        proof {
            use_type_invariant(&self);
            use_type_invariant(&other);
            lemma_positive_product(self.view().1, other.view().1);
        }
        let sd = BigInt::from_nat(false, self.denominator.duplicate());
        let od = BigInt::from_nat(false, other.denominator.duplicate());
        let numerator = self.numerator.mul(&od).sub(&other.numerator.mul(&sd));
        Rational::from_big(numerator, sd.mul(&od))
    }

    /// Exact product; always present.
    pub fn checked_mul(self, other: Rational) -> (r: Option<Rational>)
        ensures
            r is Some,
            r matches Some(v) ==> v.view() == reduce(
                self.view().0 * other.view().0,
                self.view().1 * other.view().1,
            ),
    {
        proof {
            use_type_invariant(&self);
            use_type_invariant(&other);
            lemma_positive_product(self.view().1, other.view().1);
        }
        let sd = BigInt::from_nat(false, self.denominator.duplicate());
        let od = BigInt::from_nat(false, other.denominator.duplicate());
        Rational::from_big(self.numerator.mul(&other.numerator), sd.mul(&od))
    }

    /// Exact quotient; `None` exactly when dividing by zero.
    pub fn checked_div(self, divisor: Rational) -> (r: Option<Rational>)
        ensures
            r is Some <==> divisor.view().0 != 0,
            r matches Some(v) ==> v.view() == reduce(
                self.view().0 * divisor.view().1,
                self.view().1 * divisor.view().0,
            ),
    {
        proof {
            use_type_invariant(&self);
            use_type_invariant(&divisor);
        }
        if divisor.numerator.is_zero() {
            return None;
        }
        proof {
            lemma_nonzero_product(self.view().1, divisor.view().0);
        }
        let sd = BigInt::from_nat(false, self.denominator.duplicate());
        let dd = BigInt::from_nat(false, divisor.denominator.duplicate());
        Rational::from_big(self.numerator.mul(&dd), sd.mul(&divisor.numerator))
    }

    /// Exact negation; always present.
    pub fn checked_neg(self) -> (r: Option<Rational>)
        ensures
            r is Some,
            r matches Some(v) ==> v.view() == (-self.view().0, self.view().1),
    {
        proof {
            use_type_invariant(&self);
            assert(abs(-self.view().0) == abs(self.view().0));
        }
        Some(Rational { numerator: self.numerator.neg(), denominator: self.denominator })
    }

    /// Whether the value is a whole number.
    pub fn is_integer(&self) -> (b: bool)
        ensures
            b == (self.view().1 == 1),
    {
        match self.denominator.to_u64() {
            Some(d) => d == 1,
            None => false,
        }
    }

    /// The value as an integer when it is whole and within the range that a
    /// 64-bit float represents exactly (±2^53).
    pub fn as_precise_i64(&self) -> (r: Option<i64>)
        ensures
            r is Some <==> (self.view().1 == 1 && -9007199254740992 <= self.view().0
                <= 9007199254740992),
            r matches Some(v) ==> v == self.view().0,
    {
        if !self.is_integer() {
            return None;
        }
        let m = match self.numerator.magnitude().to_u64() {
            Some(m) => m,
            None => return None,
        };
        if m > 9007199254740992 {
            return None;
        }
        if self.numerator.is_negative() {
            Some(-(m as i64))
        } else {
            Some(m as i64)
        }
    }

    /// Whether the magnitude is below `bound`.
    pub fn magnitude_below(&self, bound: &BigNat) -> (b: bool)
        ensures
            b == (abs(self.view().0) < bound@ * self.view().1),
    {
        let scaled = bound.mul(&self.denominator);
        self.numerator.magnitude().less_than(&scaled)
    }

    /// Whether `self < other` as numbers.
    pub fn less_than(&self, other: &Rational) -> (b: bool)
        ensures
            b == (self.view().0 * other.view().1 < other.view().0 * self.view().1),
    {
        let sd = BigInt::from_nat(false, self.denominator.duplicate());
        let od = BigInt::from_nat(false, other.denominator.duplicate());
        self.numerator.mul(&od).sub(&other.numerator.mul(&sd)).is_negative()
    }

    /// The canonical spelling: `n` for whole numbers, `n/d` otherwise.
    pub fn to_text(&self) -> (s: String)
        ensures
            s@ == rational_text(self.view()),
    {
        let mut out = String::new();
        if self.numerator.is_negative() {
            crate::text::push_char(&mut out, '-');
        }
        self.numerator.magnitude().push_decimal(&mut out);
        proof {
            if self.view().0 < 0 {
                assert(seq!['-'] + crate::text::decimal_digits(abs(self.view().0)) =~= Seq::<
                    char,
                >::empty().push('-') + crate::text::decimal_digits(abs(self.view().0)));
            } else {
                assert(Seq::<char>::empty() + crate::text::decimal_digits(abs(self.view().0))
                    =~= crate::text::decimal_digits(abs(self.view().0)));
            }
        }
        if !self.is_integer() {
            crate::text::push_char(&mut out, '/');
            self.denominator.push_decimal(&mut out);
        }
        out
    }
}

/// The reduced fraction two integer literals spell, when both are integer
/// literals and the denominator is not zero.
pub open spec fn literal_fraction(n: Seq<char>, d: Seq<char>) -> Option<(int, int)> {
    match (crate::numeral::integer_numeral(n), crate::numeral::integer_numeral(d)) {
        (crate::numeral::NumeralSpec::Value(a, _), crate::numeral::NumeralSpec::Value(b, _)) => {
            if b != 0 {
                Some(reduce(a, b))
            } else {
                None
            }
        },
        _ => None,
    }
}

/// The canonical text of a fraction.
pub open spec fn rational_text(p: (int, int)) -> Seq<char> {
    if p.1 == 1 {
        crate::text::signed_digits(p.0)
    } else {
        crate::text::signed_digits(p.0).push('/') + crate::text::signed_digits(p.1)
    }
}

/// Two fractions in lowest terms with positive denominators that denote the
/// same number are the same pair.
pub proof fn lemma_canonical_unique(p: (int, int), q: (int, int))
    requires
        is_canonical(p),
        is_canonical(q),
        p.0 * q.1 == q.0 * p.1,
    ensures
        p == q,
{
    let a = abs(p.0);
    let b = abs(q.0);
    let d1 = p.1 as nat;
    let d2 = q.1 as nat;
    assert(a * d2 == b * d1) by (nonlinear_arith)
        requires
            p.0 * q.1 == q.0 * p.1,
            p.1 > 0,
            q.1 > 0,
            a == abs(p.0),
            b == abs(q.0),
            d1 == p.1,
            d2 == q.1,
    ;
    lemma_gcd_scale(d2, a, d1);
    lemma_gcd_scale(d1, b, d2);
    assert(d2 * a == d1 * b) by (nonlinear_arith)
        requires
            a * d2 == b * d1,
    ;
    assert(d2 * d1 == d1 * d2) by (nonlinear_arith);
    assert(d2 * gcd(a, d1) == d1 * gcd(b, d2));
    assert(d1 == d2);
    assert(p.0 == q.0) by (nonlinear_arith)
        requires
            p.0 * q.1 == q.0 * p.1,
            p.1 == q.1,
            p.1 > 0,
    ;
}

/// The lowest-terms form of a fraction equal in value to a canonical `p`
/// is `p`.
pub proof fn lemma_reduce_to_canonical(p: (int, int), a: int, b: int)
    requires
        is_canonical(p),
        b != 0,
        p.0 * b == a * p.1,
    ensures
        reduce(a, b) == p,
{
    lemma_reduce_canonical(a, b);
    lemma_reduce_value(a, b);
    let r = reduce(a, b);
    assert(r.0 * p.1 == p.0 * r.1) by (nonlinear_arith)
        requires
            r.0 * b == a * r.1,
            p.0 * b == a * p.1,
            b != 0,
    ;
    lemma_canonical_unique(r, p);
}

/// Law: subtracting `b` from the sum `a + b` gives back `a`.
pub proof fn law_sub_undoes_add(a: (int, int), b: (int, int))
    requires
        is_canonical(a),
        is_canonical(b),
    ensures
        ({
            let s = reduce(a.0 * b.1 + b.0 * a.1, a.1 * b.1);
            reduce(s.0 * b.1 - b.0 * s.1, s.1 * b.1) == a
        }),
{
    lemma_positive_product(a.1, b.1);
    let s = reduce(a.0 * b.1 + b.0 * a.1, a.1 * b.1);
    lemma_reduce_canonical(a.0 * b.1 + b.0 * a.1, a.1 * b.1);
    lemma_reduce_value(a.0 * b.1 + b.0 * a.1, a.1 * b.1);
    lemma_positive_product(s.1, b.1);
    let (a0, a1, b0, b1, s0, s1) = (a.0, a.1, b.0, b.1, s.0, s.1);
    assert((a0 * b1 + b0 * a1) * s1 == a0 * b1 * s1 + b0 * a1 * s1) by (nonlinear_arith);
    assert(s0 * (a1 * b1) == (s0 * b1) * a1) by (nonlinear_arith);
    assert((s0 * b1 - b0 * s1) * a1 == (s0 * b1) * a1 - (b0 * s1) * a1) by (nonlinear_arith);
    assert((b0 * s1) * a1 == b0 * a1 * s1) by (nonlinear_arith);
    assert(a0 * (s1 * b1) == a0 * b1 * s1) by (nonlinear_arith);
    assert(a.0 * (s.1 * b.1) == (s.0 * b.1 - b.0 * s.1) * a.1);
    lemma_reduce_to_canonical(a, s.0 * b.1 - b.0 * s.1, s.1 * b.1);
}

/// Law: multiplying the quotient `a / b` by a nonzero `b` gives back `a`.
pub proof fn law_mul_undoes_div(a: (int, int), b: (int, int))
    requires
        is_canonical(a),
        is_canonical(b),
        b.0 != 0,
    ensures
        ({
            let q = reduce(a.0 * b.1, a.1 * b.0);
            reduce(q.0 * b.0, q.1 * b.1) == a
        }),
{
    lemma_nonzero_product(a.1, b.0);
    let q = reduce(a.0 * b.1, a.1 * b.0);
    lemma_reduce_canonical(a.0 * b.1, a.1 * b.0);
    lemma_reduce_value(a.0 * b.1, a.1 * b.0);
    lemma_positive_product(q.1, b.1);
    assert(a.0 * (q.1 * b.1) == (q.0 * b.0) * a.1) by (nonlinear_arith)
        requires
            q.0 * (a.1 * b.0) == (a.0 * b.1) * q.1,
    ;
    lemma_reduce_to_canonical(a, q.0 * b.0, q.1 * b.1);
}

proof fn lemma_integer_text(n: int)
    ensures
        crate::numeral::integer_numeral(crate::text::signed_digits(n))
            == crate::numeral::NumeralSpec::Value(n, 1),
{
    let m = abs(n);
    let ds = crate::text::decimal_digits(m);
    crate::transport::lemma_decimal_digits_value(m);
    let t = crate::text::signed_digits(n);
    if n < 0 {
        assert(t == seq!['-'] + ds);
        assert(t[0] == '-');
        assert(crate::numeral::sign_len(t) == 1);
        assert(t.subrange(1, t.len() as int) =~= ds);
    } else {
        assert(t == ds);
        assert(crate::numeral::is_digit(ds[0]));
        assert(crate::numeral::sign_len(t) == 0);
        assert(t.subrange(0, t.len() as int) =~= ds);
    }
}

/// Law: the numerator and denominator of a fraction's text read back as
/// that fraction.
pub proof fn law_text_reads_back(p: (int, int))
    requires
        is_canonical(p),
    ensures
        literal_fraction(crate::text::signed_digits(p.0), crate::text::signed_digits(p.1)) == Some(p),
{
    lemma_integer_text(p.0);
    lemma_integer_text(p.1);
    assert(p.0 * p.1 == p.0 * p.1);
    lemma_reduce_to_canonical(p, p.0, p.1);
}

proof fn lemma_positive_product(x: int, y: int)
    requires
        x > 0,
        y > 0,
    ensures
        x * y > 0,
{
    assert(x * y > 0) by (nonlinear_arith)
        requires
            x > 0,
            y > 0,
    ;
}

proof fn lemma_nonzero_product(x: int, y: int)
    requires
        x > 0,
        y != 0,
    ensures
        x * y != 0,
{
    assert(x * y != 0) by (nonlinear_arith)
        requires
            x > 0,
            y != 0,
    ;
}

} // verus!
