//! Integers and rationals of any size, held as base 2^32 digits; the arithmetic is
//! `num-bigint`'s and `num-rational`'s.

use num_bigint::{BigInt, Sign};
use num_integer::Integer;
use num_rational::BigRational;
use num_traits::ToPrimitive;
use vstd::prelude::*;

verus! {

/// `2^32`, the base of the digits.
pub open spec fn base() -> nat {
    0x1_0000_0000
}

/// The value of digits in base 2^32, least significant first.
pub open spec fn digits_value(d: Seq<u32>) -> nat
    decreases d.len(),
{
    if d.len() == 0 {
        0
    } else {
        d[0] as nat + base() * digits_value(d.drop_first())
    }
}

/// `|a|`.
pub open spec fn abs(a: int) -> nat {
    if a < 0 {
        (-a) as nat
    } else {
        a as nat
    }
}

/// The greatest common divisor, `gcd(a, 0) = a`.
pub open spec fn gcd_nat(a: nat, b: nat) -> nat
    decreases b,
{
    if b == 0 {
        a
    } else {
        gcd_nat(b, a % b)
    }
}

/// The least common multiple, `0` when either is `0`.
pub open spec fn lcm_nat(a: nat, b: nat) -> nat {
    if a == 0 || b == 0 {
        0
    } else {
        (a * b / gcd_nat(a, b)) as nat
    }
}

/// `a / b` rounded toward zero.
pub open spec fn trunc_div(a: int, b: int) -> int {
    let q = (abs(a) / abs(b)) as int;
    if (a < 0) != (b < 0) {
        -q
    } else {
        q
    }
}

/// An integer: a sign and magnitude digits in base 2^32, least significant first.
#[derive(Debug)]
pub struct Int {
    pub neg: bool,
    pub mag: Vec<u32>,
}

impl Int {
    /// The integer this stands for.
    pub open spec fn value(&self) -> int {
        if self.neg {
            -(digits_value(self.mag@) as int)
        } else {
            digits_value(self.mag@) as int
        }
    }

    /// `0`.
    pub fn zero() -> (r: Int)
        ensures
            r.value() == 0,
    {
        Int { neg: false, mag: Vec::new() }
    }

    /// `v`.
    pub fn from_u64(v: u64) -> (r: Int)
        ensures
            r.value() == v,
    {
        let lw: u64 = v & 0xffff_ffffu64;
        let hw: u64 = v >> 32u64;
        proof {
            assert(lw < 0x1_0000_0000 && hw < 0x1_0000_0000 && v == lw + 0x1_0000_0000 * hw) by (bit_vector)
                requires
                    lw == v & 0xffff_ffffu64,
                    hw == v >> 32u64,
            ;
        }
        let lo = lw as u32;
        let hi = hw as u32;
        let mag = vec![lo, hi];
        proof {
            let rest = mag@.drop_first();
            assert(rest.drop_first() =~= Seq::<u32>::empty());
            assert(digits_value(rest.drop_first()) == 0);
            assert(digits_value(rest) == hi as nat + base() * digits_value(rest.drop_first()));
            assert(digits_value(mag@) == lo as nat + base() * digits_value(rest));
        }
        Int { neg: false, mag }
    }

    /// A copy.
    pub fn copy(&self) -> (r: Int)
        ensures
            r.value() == self.value(),
            r.neg == self.neg,
            r.mag@ == self.mag@,
    {
        let mut mag: Vec<u32> = Vec::new();
        let mut i: usize = 0;
        while i < self.mag.len()
            invariant
                i <= self.mag@.len(),
                mag@ == self.mag@.subrange(0, i as int),
            decreases self.mag@.len() - i,
        {
            mag.push(self.mag[i]);
            i += 1;
            assert(mag@ =~= self.mag@.subrange(0, i as int));
        }
        assert(self.mag@.subrange(0, self.mag@.len() as int) =~= self.mag@);
        Int { neg: self.neg, mag }
    }

    /// `|self|`.
    pub fn abs(&self) -> (r: Int)
        ensures
            r.value() == abs(self.value()),
    {
        let c = self.copy();
        Int { neg: false, mag: c.mag }
    }
}

/// `a + b` by `BigInt`'s `+`.
#[verifier::external_body]
pub fn int_add(a: &Int, b: &Int) -> (r: Int)
    ensures
        r.value() == a.value() + b.value(),
{
    let x = BigInt::from_slice(if a.neg { Sign::Minus } else { Sign::Plus }, &a.mag);
    let y = BigInt::from_slice(if b.neg { Sign::Minus } else { Sign::Plus }, &b.mag);
    let (s, mag) = (x + y).to_u32_digits();
    Int { neg: s == Sign::Minus, mag }
}

/// `a - b` by `BigInt`'s `-`.
#[verifier::external_body]
pub fn int_sub(a: &Int, b: &Int) -> (r: Int)
    ensures
        r.value() == a.value() - b.value(),
{
    let x = BigInt::from_slice(if a.neg { Sign::Minus } else { Sign::Plus }, &a.mag);
    let y = BigInt::from_slice(if b.neg { Sign::Minus } else { Sign::Plus }, &b.mag);
    let (s, mag) = (x - y).to_u32_digits();
    Int { neg: s == Sign::Minus, mag }
}

/// `a * b` by `BigInt`'s `*`.
#[verifier::external_body]
pub fn int_mul(a: &Int, b: &Int) -> (r: Int)
    ensures
        r.value() == a.value() * b.value(),
{
    let x = BigInt::from_slice(if a.neg { Sign::Minus } else { Sign::Plus }, &a.mag);
    let y = BigInt::from_slice(if b.neg { Sign::Minus } else { Sign::Plus }, &b.mag);
    let (s, mag) = (x * y).to_u32_digits();
    Int { neg: s == Sign::Minus, mag }
}

/// `a / b` rounded toward zero, by `BigInt`'s `/`, which panics on a zero divisor.
#[verifier::external_body]
pub fn int_div(a: &Int, b: &Int) -> (r: Int)
    requires
        b.value() != 0,
    ensures
        r.value() == trunc_div(a.value(), b.value()),
{
    let x = BigInt::from_slice(if a.neg { Sign::Minus } else { Sign::Plus }, &a.mag);
    let y = BigInt::from_slice(if b.neg { Sign::Minus } else { Sign::Plus }, &b.mag);
    let (s, mag) = (x / y).to_u32_digits();
    Int { neg: s == Sign::Minus, mag }
}

/// `a mod p` in `0..p`, by `Integer::mod_floor`, which rounds the quotient down.
#[verifier::external_body]
pub fn int_residue(a: &Int, p: u64) -> (r: u64)
    requires
        p > 0,
    ensures
        r == a.value() % (p as int),
{
    let x = BigInt::from_slice(if a.neg { Sign::Minus } else { Sign::Plus }, &a.mag);
    x.mod_floor(&BigInt::from(p)).to_u64().unwrap()
}

/// `a > b` by `BigInt`'s ordering.
#[verifier::external_body]
pub fn int_gt(a: &Int, b: &Int) -> (r: bool)
    ensures
        r == (a.value() > b.value()),
{
    let x = BigInt::from_slice(if a.neg { Sign::Minus } else { Sign::Plus }, &a.mag);
    let y = BigInt::from_slice(if b.neg { Sign::Minus } else { Sign::Plus }, &b.mag);
    x > y
}

/// `a == b` by `BigInt`'s equality.
#[verifier::external_body]
pub fn int_eq(a: &Int, b: &Int) -> (r: bool)
    ensures
        r == (a.value() == b.value()),
{
    let x = BigInt::from_slice(if a.neg { Sign::Minus } else { Sign::Plus }, &a.mag);
    let y = BigInt::from_slice(if b.neg { Sign::Minus } else { Sign::Plus }, &b.mag);
    x == y
}

/// The greatest common divisor by `Integer::gcd`, never negative.
#[verifier::external_body]
pub fn int_gcd(a: &Int, b: &Int) -> (r: Int)
    ensures
        r.value() == gcd_nat(abs(a.value()), abs(b.value())),
{
    let x = BigInt::from_slice(if a.neg { Sign::Minus } else { Sign::Plus }, &a.mag);
    let y = BigInt::from_slice(if b.neg { Sign::Minus } else { Sign::Plus }, &b.mag);
    let (s, mag) = x.gcd(&y).to_u32_digits();
    Int { neg: s == Sign::Minus, mag }
}

/// The least common multiple by `Integer::lcm`, never negative and `0` when either is `0`.
#[verifier::external_body]
pub fn int_lcm(a: &Int, b: &Int) -> (r: Int)
    ensures
        r.value() == lcm_nat(abs(a.value()), abs(b.value())),
{
    let x = BigInt::from_slice(if a.neg { Sign::Minus } else { Sign::Plus }, &a.mag);
    let y = BigInt::from_slice(if b.neg { Sign::Minus } else { Sign::Plus }, &b.mag);
    let (s, mag) = x.lcm(&y).to_u32_digits();
    Int { neg: s == Sign::Minus, mag }
}

/// The integer square root by `BigInt::sqrt`, which rounds down and panics on a negative.
#[verifier::external_body]
pub fn int_sqrt(a: &Int) -> (r: Int)
    requires
        a.value() >= 0,
    ensures
        r.value() >= 0,
        r.value() * r.value() <= a.value() < (r.value() + 1) * (r.value() + 1),
{
    let x = BigInt::from_slice(if a.neg { Sign::Minus } else { Sign::Plus }, &a.mag);
    let (s, mag) = x.sqrt().to_u32_digits();
    Int { neg: s == Sign::Minus, mag }
}

/// The rational `num / den`.
#[derive(Debug)]
pub struct Rat {
    pub num: Int,
    pub den: Int,
}

impl Rat {
    /// In lowest terms with a positive denominator.
    pub open spec fn reduced(&self) -> bool {
        &&& self.den.value() > 0
        &&& gcd_nat(abs(self.num.value()), abs(self.den.value())) == 1
    }

    /// `self` and `other` are the same rational, their denominators being nonzero.
    pub open spec fn same(&self, other: Rat) -> bool {
        self.num.value() * other.den.value() == other.num.value() * self.den.value()
    }

    /// A copy.
    pub fn copy(&self) -> (r: Rat)
        ensures
            r.num.value() == self.num.value(),
            r.den.value() == self.den.value(),
    {
        Rat { num: self.num.copy(), den: self.den.copy() }
    }
}

/// `a / b` in lowest terms by `BigRational::new`, which panics on a zero denominator.
#[verifier::external_body]
pub fn rat_new(a: &Int, b: &Int) -> (r: Rat)
    requires
        b.value() != 0,
    ensures
        r.reduced(),
        r.num.value() * b.value() == a.value() * r.den.value(),
{
    let x = BigInt::from_slice(if a.neg { Sign::Minus } else { Sign::Plus }, &a.mag);
    let y = BigInt::from_slice(if b.neg { Sign::Minus } else { Sign::Plus }, &b.mag);
    let q = BigRational::new(x, y);
    let (s, mag) = q.numer().to_u32_digits();
    let (t, dig) = q.denom().to_u32_digits();
    Rat { num: Int { neg: s == Sign::Minus, mag }, den: Int { neg: t == Sign::Minus, mag: dig } }
}

/// `a * b` in lowest terms.
pub fn rat_mul(a: &Rat, b: &Rat) -> (r: Rat)
    requires
        a.den.value() != 0,
        b.den.value() != 0,
    ensures
        r.reduced(),
        r.num.value() * (a.den.value() * b.den.value()) == a.num.value() * b.num.value() * r.den.value(),
{
    let n = int_mul(&a.num, &b.num);
    let d = int_mul(&a.den, &b.den);
    proof {
        assert(d.value() != 0) by (nonlinear_arith)
            requires
                d.value() == a.den.value() * b.den.value(),
                a.den.value() != 0,
                b.den.value() != 0,
        ;
    }
    rat_new(&n, &d)
}


/// `a` divides `b`, `a` being positive.
pub open spec fn divides(a: int, b: int) -> bool {
    a > 0 && b % a == 0
}

/// A multiple of `a` is divisible by `a`.
pub proof fn lemma_divides_times(a: int, k: int)
    requires
        a > 0,
    ensures
        divides(a, k * a),
{
    vstd::arithmetic::div_mod::lemma_mod_multiples_basic(k, a);
}

/// A multiple is its quotient times the divisor.
pub proof fn lemma_divides_quotient(a: int, b: int)
    requires
        divides(a, b),
    ensures
        b == (b / a) * a,
{
    vstd::arithmetic::div_mod::lemma_fundamental_div_mod(b, a);
    vstd::arithmetic::mul::lemma_mul_is_commutative(a, b / a);
}

/// Divisibility is transitive.
pub proof fn lemma_divides_trans(a: int, b: int, c: int)
    requires
        divides(a, b),
        divides(b, c),
    ensures
        divides(a, c),
{
    lemma_divides_quotient(a, b);
    lemma_divides_quotient(b, c);
    let (x, y) = (b / a, c / b);
    assert(c == (y * x) * a) by (nonlinear_arith)
        requires
            b == x * a,
            c == y * b,
    ;
    lemma_divides_times(a, y * x);
}

/// The greatest common divisor divides both arguments.
pub proof fn lemma_gcd_divides(a: nat, b: nat)
    requires
        a > 0 || b > 0,
    ensures
        divides(gcd_nat(a, b) as int, a as int),
        divides(gcd_nat(a, b) as int, b as int),
    decreases b,
{
    if b == 0 {
        lemma_divides_times(a as int, 1);
        lemma_divides_times(a as int, 0);
    } else {
        lemma_gcd_divides(b, a % b);
        let g = gcd_nat(b, a % b) as int;
        lemma_divides_quotient(g, b as int);
        lemma_divides_quotient(g, (a % b) as int);
        vstd::arithmetic::div_mod::lemma_fundamental_div_mod(a as int, b as int);
        let (x, y, z) = ((b as int) / g, ((a % b) as int) / g, (a as int) / (b as int));
        assert(a == (z * x + y) * g) by (nonlinear_arith)
            requires
                a == b * z + (a % b),
                b == x * g,
                (a % b) as int == y * g,
        ;
        lemma_divides_times(g, z * x + y);
    }
}

/// The least common multiple of positives is a multiple of both.
pub proof fn lemma_lcm_multiple(a: nat, b: nat)
    requires
        a > 0,
        b > 0,
    ensures
        divides(a as int, lcm_nat(a, b) as int),
        divides(b as int, lcm_nat(a, b) as int),
{
    lemma_gcd_divides(a, b);
    let g = gcd_nat(a, b) as int;
    lemma_divides_quotient(g, a as int);
    lemma_divides_quotient(g, b as int);
    let (x, y) = ((a as int) / g, (b as int) / g);
    assert((a * b) as int == g * (x * b)) by (nonlinear_arith)
        requires
            a == x * g,
    ;
    vstd::arithmetic::div_mod::lemma_div_multiples_vanish(x * b, g);
    assert(lcm_nat(a, b) == x * b);
    lemma_divides_times(b as int, x);
    assert(x * b == (x * y) * g && a * y == (x * y) * g) by (nonlinear_arith)
        requires
            a == x * g,
            b == y * g,
    ;
    assert(x * b == y * a) by (nonlinear_arith)
        requires
            a == x * g,
            b == y * g,
    ;
    lemma_divides_times(a as int, y);
}

} // verus!
