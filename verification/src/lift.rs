//! Rational functions over Q from black boxes modulo word-sized primes.
//!
//! Each prime gives every component as a rational function over GF(p) with a monic denominator.
//! Images with one support are combined coefficientwise by Chinese remaindering, and Wang's
//! rational number reconstruction turns the residues into fractions. A candidate is accepted
//! once a further prime agrees with it. An image with fewer terms than the others came from an
//! unlucky prime and is skipped. Only the first prime pays for reconstruction: later ones fit
//! coefficients to the support already known, from as many samples as the largest component
//! has terms.

use crate::arith::prime;
use crate::bigint::{abs, gcd_nat, lcm_nat, trunc_div, int_add, int_div, int_eq, int_gcd, int_gt, int_lcm, int_mul, int_residue, int_sqrt, int_sub, rat_mul, rat_new, Int, Rat};
use crate::modp::{inv, modulus};
use crate::poly::Exps;
use crate::univariate::residues;
use vstd::arithmetic::div_mod::lemma_fundamental_div_mod;
use vstd::prelude::*;

verus! {

/// Garner's step: residues modulo `m` and `values` modulo `p` to residues modulo `m * p`. Each
/// residue moves by a multiple of `m` below `m * p`; when `p` is prime and does not divide `m`,
/// the new residue is `values[i]` modulo `p`.
fn garner(xs: &mut Vec<Int>, m: &mut Int, values: &[u64], p: u64)
    requires
        modulus(p),
        residues(values@, p),
        old(m).value() > 0,
    ensures
        final(m).value() == old(m).value() * p,
        final(xs)@.len() == old(xs)@.len(),
        forall|i: int|
            0 <= i < old(xs)@.len() ==> {
                let x = old(xs)@[i].value();
                let y = (#[trigger] final(xs)@[i]).value();
                &&& i < values@.len() ==> moved_by(x, y, old(m).value(), p)
                &&& i >= values@.len() ==> y == x
                &&& i < values@.len() && prime(p as int) && old(m).value() % (p as int) != 0 ==> y % (p as int)
                    == values@[i] as int
            },
{
    let mp = int_residue(m, p);
    let minv = inv(mp, p);
    let ghost mv = m.value();
    let ghost xs0 = xs@;
    let mut i: usize = 0;
    while i < xs.len()
        invariant
            modulus(p),
            residues(values@, p),
            mv == m.value(),
            mv > 0,
            mp == mv % (p as int),
            minv < p,
            prime(p as int) && mp as int % (p as int) != 0 ==> (mp * minv) % (p as int) == 1,
            xs@.len() == xs0.len(),
            i <= xs@.len(),
            forall|j: int| i <= j < xs@.len() ==> xs@[j] == xs0[j],
            forall|j: int|
                0 <= j < i ==> {
                    let x = xs0[j].value();
                    let y = (#[trigger] xs@[j]).value();
                    &&& j < values@.len() ==> moved_by(x, y, mv, p)
                    &&& j >= values@.len() ==> y == x
                    &&& j < values@.len() && prime(p as int) && mv % (p as int) != 0 ==> y % (p as int)
                        == values@[j] as int
                },
        decreases xs@.len() - i,
    {
        if i < values.len() {
            let x = &xs[i];
            let r = int_residue(x, p);
            let d = crate::modp::sub(values[i], r, p);
            let t = crate::modp::mul(d, minv, p);
            let step = int_mul(m, &Int::from_u64(t));
            let y = int_add(x, &step);
            proof {
                let xv = xs0[i as int].value();
                let pi = p as int;
                assert(y.value() == xv + mv * t);
                lemma_moved_by(xv, mv, t as int, p);
                if prime(pi) && mv % pi != 0 {
                    vstd::arithmetic::div_mod::lemma_small_mod(mp as nat, p as nat);
                    lemma_garner_step(xv, mv, values@[i as int] as int, pi, r as int, minv as int, t as int);
                }
            }
            let ghost before = xs@;
            xs.set(i, y);
            proof {
                assert forall|j: int| 0 <= j < i + 1 implies {
                    let x = xs0[j].value();
                    let y = (#[trigger] xs@[j]).value();
                    &&& j < values@.len() ==> moved_by(x, y, mv, p)
                    &&& j >= values@.len() ==> y == x
                    &&& j < values@.len() && prime(p as int) && mv % (p as int) != 0 ==> y % (p as int)
                        == values@[j] as int
                } by {
                    if j < i {
                        assert(xs@[j] == before[j]);
                    } else {
                        assert(xs@[j].value() == xs0[j].value() + mv * t);
                    }
                }
            }
        }
        i += 1;
    }
    let next = int_mul(m, &Int::from_u64(p));
    *m = next;
}

/// `y` is `x` plus a multiple `m * t` of `m` with `0 <= t < p`.
pub open spec fn moved_by(x: int, y: int, m: int, p: u64) -> bool {
    &&& (y - x) % m == 0
    &&& x <= y
    &&& y <= x + m * (p - 1)
}

proof fn lemma_moved_by(x: int, m: int, t: int, p: u64)
    requires
        m > 0,
        0 <= t < p,
    ensures
        moved_by(x, x + m * t, m, p),
{
    vstd::arithmetic::div_mod::lemma_mod_multiples_basic(t, m);
    assert(m * t == t * m) by (nonlinear_arith);
    assert(0 <= m * t <= m * (p - 1)) by (nonlinear_arith)
        requires
            m > 0,
            0 <= t < p,
    ;
}

/// The arithmetic of one step of Garner's algorithm: `x + m * ((v - x) / m mod p)` is `v` mod `p`.
proof fn lemma_garner_step(x: int, m: int, v: int, p: int, r: int, minv: int, t: int)
    requires
        p > 1,
        0 <= v < p,
        r == x % p,
        (m % p) * minv % p == 1,
        t == ((v - r) % p) * minv % p,
    ensures
        (x + m * t) % p == v,
{
    let mp = m % p;
    assert((x + m * t) % p == (r + mp * t) % p) by {
        vstd::arithmetic::div_mod::lemma_add_mod_noop(x, m * t, p);
        vstd::arithmetic::div_mod::lemma_mul_mod_noop_left(m, t, p);
        vstd::arithmetic::div_mod::lemma_add_mod_noop(r, mp * t, p);
        vstd::arithmetic::div_mod::lemma_mod_twice(x, p);
    }
    assert(mp * t % p == (v - r) % p) by {
        let d = (v - r) % p;
        assert(t == (d * minv) % p);
        vstd::arithmetic::div_mod::lemma_mul_mod_noop_right(mp, d * minv, p);
        assert(mp * t % p == (mp * (d * minv)) % p);
        assert(mp * (d * minv) == d * (mp * minv)) by (nonlinear_arith);
        vstd::arithmetic::div_mod::lemma_mul_mod_noop_right(d, mp * minv, p);
        assert((d * (mp * minv)) % p == (d * 1) % p);
        assert(d * 1 == d);
        vstd::arithmetic::div_mod::lemma_mod_twice(v - r, p);
    }
    vstd::arithmetic::div_mod::lemma_add_mod_noop(r, mp * t, p);
    vstd::arithmetic::div_mod::lemma_add_mod_noop(r, v - r, p);
    vstd::arithmetic::div_mod::lemma_mod_twice(r, p);
    vstd::arithmetic::div_mod::lemma_mod_twice(v - r, p);
    vstd::arithmetic::div_mod::lemma_small_mod(v as nat, p as nat);
}

/// `q` modulo `p`: `None` when `p` divides the denominator, else the numerator's residue times
/// the inverse of the denominator's.
pub open spec fn residue_of(q: Rat, p: u64) -> Option<u64> {
    let d = q.den.value() % (p as int);
    if d == 0 {
        None
    } else {
        Some((((q.num.value() % (p as int)) * crate::modp::inv_spec(d, p as int)) % (p as int)) as u64)
    }
}

/// `q` modulo `p`, or `None` when `p` divides its denominator.
fn reduce(q: &Rat, p: u64) -> (r: Option<u64>)
    requires
        modulus(p),
    ensures
        r == residue_of(*q, p),
        r is None <==> q.den.value() % (p as int) == 0,
        r matches Some(v) ==> v < p && (prime(p as int) ==> (v * q.den.value()) % (p as int) == q.num.value() % (p as int)),
{
    let s = int_residue(&q.den, p);
    if s == 0 {
        return None;
    }
    let a = int_residue(&q.num, p);
    let l = inv(s, p);
    let v = crate::modp::mul(a, l, p);
    proof {
        let pi = p as int;
        if prime(pi) {
            vstd::arithmetic::div_mod::lemma_small_mod(s as nat, p as nat);
            lemma_divide_back(q.num.value(), q.den.value(), pi, a as int, s as int, l as int, v as int);
        }
    }
    Some(v)
}

/// `(n mod p) / (d mod p)` times `d` is `n` modulo `p`.
proof fn lemma_divide_back(n: int, d: int, p: int, a: int, s: int, l: int, v: int)
    requires
        p > 1,
        a == n % p,
        s == d % p,
        (s * l) % p == 1,
        v == (a * l) % p,
    ensures
        (v * d) % p == n % p,
{
    vstd::arithmetic::div_mod::lemma_mul_mod_noop_left(a * l, d, p);
    assert((v * d) % p == (a * l * d) % p);
    assert(a * l * d == a * (l * d)) by (nonlinear_arith);
    vstd::arithmetic::div_mod::lemma_mul_mod_noop_right(a, l * d, p);
    vstd::arithmetic::div_mod::lemma_mul_mod_noop_right(l, d, p);
    assert(l * s == s * l) by (nonlinear_arith);
    assert((l * d) % p == (l * s) % p);
    vstd::arithmetic::div_mod::lemma_mul_mod_noop_right(a, l * s, p);
    assert((a * (l * d)) % p == (a * ((l * d) % p)) % p);
    assert((a * ((l * d) % p)) % p == (a * 1) % p);
    assert(a * 1 == a);
    vstd::arithmetic::div_mod::lemma_mod_twice(n, p);
}

/// `r / s` witnesses `wang`: `r` is `s * x` modulo `m`, and both are at most `b`, the integer
/// square root of `m / 2`.
pub open spec fn wang_witness(x: int, m: int, q: Rat, r: int, s: int, b: int) -> bool {
    &&& b >= 0
    &&& b * b <= m / 2 < (b + 1) * (b + 1)
    &&& abs(r) <= b
    &&& s != 0
    &&& abs(s) <= b
    &&& (r - s * x) % m == 0
    &&& q.num.value() * s == r * q.den.value()
}

/// The fraction `r / s` congruent to `x` modulo `m` with `|r|, |s| <= sqrt(m / 2)`, found by
/// stopping the extended Euclidean algorithm halfway; `None` unless `s` is nonzero and within
/// the bound and `r`, `s` are coprime.
#[verifier::spinoff_prover]
fn wang(x: &Int, m: &Int) -> (r: Option<Rat>)
    requires
        m.value() > 0,
        x.value() >= 0,
    ensures
        r matches Some(q) ==> q.reduced() && exists|rr: int, ss: int, b: int| #[trigger] wang_witness(x.value(), m.value(), q, rr, ss, b),
{
    let two = Int::from_u64(2);
    let half = int_div(m, &two);
    proof {
        assert(half.value() == m.value() / 2);
    }
    let bound = int_sqrt(&half);
    let mut r0 = m.copy();
    let mut r1 = x.copy();
    let mut s0 = Int::zero();
    let mut s1 = Int::from_u64(1);
    let ghost mut k0: int = 1;
    let ghost mut k1: int = 0;
    proof {
        assert(r0.value() - s0.value() * x.value() == k0 * m.value());
        assert(r1.value() - s1.value() * x.value() == k1 * m.value());
    }
    while int_gt(&r1, &bound)
        invariant
            m.value() > 0,
            bound.value() >= 0,
            bound.value() * bound.value() <= m.value() / 2 < (bound.value() + 1) * (bound.value() + 1),
            r0.value() > 0,
            r1.value() >= 0,
            r0.value() - s0.value() * x.value() == k0 * m.value(),
            r1.value() - s1.value() * x.value() == k1 * m.value(),
        decreases r1.value(),
    {
        let q = int_div(&r0, &r1);
        let qr = int_mul(&q, &r1);
        let r = int_sub(&r0, &qr);
        let qs = int_mul(&q, &s1);
        let s = int_sub(&s0, &qs);
        proof {
            let a = r0.value();
            let b = r1.value();
            let qq = q.value();
            let mm = m.value();
            let xx = x.value();
            lemma_fundamental_div_mod(a, b);
            assert(qq == a / b);
            assert(qq * b == b * (a / b)) by (nonlinear_arith)
                requires
                    qq == a / b,
            ;
            assert(r.value() == a % b);
            let kn = k0 - qq * k1;
            assert(qq * (b - s1.value() * xx) == qq * b - (qq * s1.value()) * xx) by (nonlinear_arith);
            assert(qq * (k1 * mm) == (qq * k1) * mm) by (nonlinear_arith);
            assert(kn * mm == k0 * mm - (qq * k1) * mm) by (nonlinear_arith)
                requires
                    kn == k0 - qq * k1,
            ;
            assert(r.value() - s.value() * xx == (a - s0.value() * xx) - qq * (b - s1.value() * xx)) by (nonlinear_arith)
                requires
                    r.value() == a - qq * b,
                    s.value() == s0.value() - qq * s1.value(),
            ;
            assert(r.value() - s.value() * xx == kn * mm);
            k0 = k1;
            k1 = kn;
        }
        r0 = r1;
        r1 = r;
        s0 = s1;
        s1 = s;
    }
    let zero = Int::zero();
    let one = Int::from_u64(1);
    if int_eq(&s1, &zero) {
        return None;
    }
    if int_gt(&s1.abs(), &bound) {
        return None;
    }
    let g = int_gcd(&r1, &s1);
    if !int_eq(&g, &one) {
        return None;
    }
    let q = rat_new(&r1, &s1);
    proof {
        assert((r1.value() - s1.value() * x.value()) % m.value() == 0) by {
            vstd::arithmetic::div_mod::lemma_mod_multiples_basic(k1, m.value());
            assert(k1 * m.value() == r1.value() - s1.value() * x.value());
        }
        assert(abs(s1.value()) <= bound.value());
        assert(abs(r1.value()) <= bound.value());
        assert(wang_witness(x.value(), m.value(), q, r1.value(), s1.value(), bound.value()));
    }
    Some(q)
}

/// The supports of every component: numerator exponents, then denominator exponents.
pub type Shape = Vec<(Vec<Exps>, Vec<Exps>)>;

/// Exponent vectors as sequences.
pub open spec fn exps_view(v: Seq<Exps>) -> Seq<Seq<u32>> {
    v.map_values(|e: Exps| e@)
}

/// A shape as sequences.
pub open spec fn shape_view(s: Seq<(Vec<Exps>, Vec<Exps>)>) -> Seq<(Seq<Seq<u32>>, Seq<Seq<u32>>)> {
    s.map_values(|c: (Vec<Exps>, Vec<Exps>)| (exps_view(c.0@), exps_view(c.1@)))
}

/// The number of coefficients of the first `k` components.
pub open spec fn shape_terms(s: Seq<(Seq<Seq<u32>>, Seq<Seq<u32>>)>, k: nat) -> nat
    decreases k,
{
    if k == 0 {
        0
    } else {
        shape_terms(s, (k - 1) as nat) + s[k - 1].0.len() + s[k - 1].1.len()
    }
}

/// Where component `i`'s denominator starts: its leading coefficient.
pub open spec fn lead_slot(s: Seq<(Seq<Seq<u32>>, Seq<Seq<u32>>)>, i: int) -> int {
    (shape_terms(s, i as nat) + s[i].0.len()) as int
}

/// An earlier component's slots all come before a later one's.
proof fn lemma_lead_slot_below(s: Seq<(Seq<Seq<u32>>, Seq<Seq<u32>>)>, i: int, j: int)
    requires
        0 <= i < j <= s.len(),
        forall|k: int| 0 <= k < s.len() ==> (#[trigger] s[k]).1.len() > 0,
    ensures
        lead_slot(s, i) < shape_terms(s, j as nat),
    decreases j - i,
{
    if j > i + 1 {
        lemma_lead_slot_below(s, i, j - 1);
    }
    assert(s[i].1.len() > 0);
}

/// The number of coefficients of every component.
pub open spec fn total_terms(s: Seq<(Seq<Seq<u32>>, Seq<Seq<u32>>)>) -> nat {
    shape_terms(s, s.len())
}

/// Every component has a denominator term.
pub open spec fn shape_ok(s: Seq<(Seq<Seq<u32>>, Seq<Seq<u32>>)>) -> bool {
    forall|i: int| 0 <= i < s.len() ==> (#[trigger] s[i]).1.len() > 0
}

/// A copy of a list of exponent vectors.
fn copy_exps(v: &Vec<Exps>) -> (r: Vec<Exps>)
    ensures
        exps_view(r@) == exps_view(v@),
{
    let mut r: Vec<Exps> = Vec::new();
    let mut i: usize = 0;
    while i < v.len()
        invariant
            i <= v@.len(),
            r@.len() == i,
            forall|t: int| 0 <= t < i ==> (#[trigger] r@[t])@ == v@[t]@,
        decreases v@.len() - i,
    {
        r.push(v[i].clone());
        i += 1;
    }
    assert(exps_view(r@) =~= exps_view(v@));
    r
}

/// A copy of a shape.
fn copy_shape(s: &Shape) -> (r: Shape)
    ensures
        shape_view(r@) == shape_view(s@),
{
    let mut r: Shape = Vec::new();
    let mut i: usize = 0;
    while i < s.len()
        invariant
            i <= s@.len(),
            r@.len() == i,
            forall|t: int| 0 <= t < i ==> exps_view((#[trigger] r@[t]).0@) == exps_view(s@[t].0@) && exps_view(r@[t].1@)
                == exps_view(s@[t].1@),
        decreases s@.len() - i,
    {
        let a = copy_exps(&s[i].0);
        let b = copy_exps(&s[i].1);
        r.push((a, b));
        i += 1;
    }
    assert(shape_view(r@) =~= shape_view(s@));
    r
}

/// Whether two lists of exponent vectors are equal.
fn same_exps(a: &Vec<Exps>, b: &Vec<Exps>) -> (r: bool)
    ensures
        r == (exps_view(a@) == exps_view(b@)),
{
    if a.len() != b.len() {
        assert(exps_view(a@).len() != exps_view(b@).len());
        return false;
    }
    let mut i: usize = 0;
    while i < a.len()
        invariant
            i <= a@.len(),
            a@.len() == b@.len(),
            forall|t: int| 0 <= t < i ==> (#[trigger] a@[t])@ == b@[t]@,
        decreases a@.len() - i,
    {
        if !crate::poly::exps_eq(&a[i], &b[i]) {
            assert(exps_view(a@)[i as int] != exps_view(b@)[i as int]);
            return false;
        }
        i += 1;
    }
    assert(exps_view(a@) =~= exps_view(b@));
    true
}

/// Whether two shapes are equal.
fn same_shape(a: &Shape, b: &Shape) -> (r: bool)
    ensures
        r == (shape_view(a@) == shape_view(b@)),
{
    if a.len() != b.len() {
        assert(shape_view(a@).len() != shape_view(b@).len());
        return false;
    }
    let mut i: usize = 0;
    while i < a.len()
        invariant
            i <= a@.len(),
            a@.len() == b@.len(),
            forall|t: int| 0 <= t < i ==> #[trigger] shape_view(a@)[t] == shape_view(b@)[t],
        decreases a@.len() - i,
    {
        let x = same_exps(&a[i].0, &b[i].0);
        let y = same_exps(&a[i].1, &b[i].1);
        if !(x && y) {
            assert(shape_view(a@)[i as int] != shape_view(b@)[i as int]);
            return false;
        }
        i += 1;
    }
    assert(shape_view(a@) =~= shape_view(b@));
    true
}

/// The number of coefficients of a shape, saturating at `u128::MAX`.
fn terms(shape: &Shape) -> (t: u128)
    ensures
        t == vstd::math::min(total_terms(shape_view(shape@)) as int, u128::MAX as int),
{
    let ghost v = shape_view(shape@);
    let mut t: u128 = 0;
    let mut i: usize = 0;
    while i < shape.len()
        invariant
            i <= shape@.len(),
            v == shape_view(shape@),
            t == vstd::math::min(shape_terms(v, i as nat) as int, u128::MAX as int),
        decreases shape@.len() - i,
    {
        let a = shape[i].0.len() as u128;
        let b = shape[i].1.len() as u128;
        proof {
            assert(v[i as int].0.len() == a);
            assert(v[i as int].1.len() == b);
        }
        t = t.saturating_add(a).saturating_add(b);
        i += 1;
    }
    t
}

/// Every row has `m + 1` residue entries: `m` coefficients and the right-hand side.
pub open spec fn augmented(a: Seq<Vec<u64>>, m: nat, p: u64) -> bool {
    forall|i: int| 0 <= i < a.len() ==> (#[trigger] a[i])@.len() == m + 1 && residues(a[i]@, p)
}

/// `row - k * pivot`, entry by entry modulo `p`.
fn eliminate(row: &Vec<u64>, pivot: &Vec<u64>, k: u64, p: u64) -> (r: Vec<u64>)
    requires
        modulus(p),
        residues(row@, p),
        row@.len() == pivot@.len(),
        k < p,
    ensures
        r@.len() == row@.len(),
        residues(r@, p),
        forall|j: int| 0 <= j < r@.len() ==> #[trigger] r@[j] == (row@[j] - (k * pivot@[j]) % (p as int)) % (p as int),
{
    let mut r: Vec<u64> = Vec::new();
    let mut j: usize = 0;
    while j < row.len()
        invariant
            j <= row@.len(),
            row@.len() == pivot@.len(),
            modulus(p),
            residues(row@, p),
            k < p,
            r@.len() == j,
            residues(r@, p),
            forall|t: int| 0 <= t < j ==> #[trigger] r@[t] == (row@[t] - (k * pivot@[t]) % (p as int)) % (p as int),
        decreases row@.len() - j,
    {
        let v = crate::modp::sub(row[j], crate::modp::mul(k, pivot[j], p), p);
        r.push(v);
        j += 1;
    }
    r
}

/// `row * l`, entry by entry modulo `p`.
fn scale_row(row: &Vec<u64>, l: u64, p: u64) -> (r: Vec<u64>)
    requires
        modulus(p),
    ensures
        r@.len() == row@.len(),
        residues(r@, p),
        forall|j: int| 0 <= j < r@.len() ==> #[trigger] r@[j] == (row@[j] * l) % (p as int),
{
    let mut r: Vec<u64> = Vec::new();
    let mut j: usize = 0;
    while j < row.len()
        invariant
            j <= row@.len(),
            modulus(p),
            r@.len() == j,
            residues(r@, p),
            forall|t: int| 0 <= t < j ==> #[trigger] r@[t] == (row@[t] * l) % (p as int),
        decreases row@.len() - j,
    {
        r.push(crate::modp::mul(row[j], l, p));
        j += 1;
    }
    r
}

/// `sum_(j < k) row[j] * x[j]` over the integers.
pub open spec fn dot(row: Seq<u64>, x: Seq<u64>, k: nat) -> int
    decreases k,
{
    if k == 0 {
        0
    } else {
        dot(row, x, (k - 1) as nat) + row[k - 1] * x[k - 1]
    }
}

/// `x` satisfies the augmented row: `sum_(j < m) row[j] x[j] = row[m]` modulo `p`.
pub open spec fn satisfies(row: Seq<u64>, x: Seq<u64>, m: nat, p: u64) -> bool {
    (dot(row, x, m) - row[m as int]) % (p as int) == 0
}

/// `x` satisfies every row of `a`.
pub open spec fn solves(a: Seq<Vec<u64>>, x: Seq<u64>, m: nat, p: u64) -> bool {
    forall|i: int| 0 <= i < a.len() ==> satisfies((#[trigger] a[i])@, x, m, p)
}

/// `y` solves the homogeneous system of the first `m` columns of every row.
pub open spec fn kernel(a: Seq<Vec<u64>>, y: Seq<u64>, m: nat, p: u64) -> bool {
    forall|i: int| 0 <= i < a.len() ==> dot((#[trigger] a[i])@, y, m) % (p as int) == 0
}

/// `y` is a nonzero vector of `m` entries that the homogeneous system sends to zero: the
/// system is singular.
pub open spec fn null_vector(a: Seq<Vec<u64>>, y: Seq<u64>, m: nat, p: u64) -> bool {
    &&& y.len() == m
    &&& exists|j: int| 0 <= j < m && #[trigger] y[j] == 1
    &&& kernel(a, y, m, p)
}

/// The first `k` columns of `a` are those of the identity.
pub open spec fn unit_columns(a: Seq<Vec<u64>>, k: int) -> bool {
    forall|i: int, j: int| 0 <= i < a.len() && 0 <= j < k ==> #[trigger] a[i]@[j] == (if i == j { 1u64 } else { 0u64 })
}

/// With columns `0..c` those of the identity and column `c` zero from row `c` down, the vector
/// that is 1 at `c` and cancels the pivots' entries there is a nonzero solution of the
/// homogeneous system.
proof fn lemma_null_vector(orig: Seq<Vec<u64>>, a: Seq<Vec<u64>>, c: int, m: nat, p: u64)
    requires
        modulus(p),
        0 <= c < m,
        a.len() == m,
        augmented(a, m, p),
        unit_columns(a, c),
        forall|r2: int| c <= r2 < m ==> #[trigger] a[r2]@[c] == 0,
        forall|y: Seq<u64>| #[trigger] kernel(a, y, m, p) ==> kernel(orig, y, m, p),
    ensures
        exists|y: Seq<u64>| #[trigger] null_vector(orig, y, m, p),
{
    let pi = p as int;
    let y = Seq::new(
        m,
        |j: int|
            if j == c {
                1u64
            } else if 0 <= j < c {
                ((pi - a[j]@[c]) % pi) as u64
            } else {
                0u64
            },
    );
    vstd::arithmetic::div_mod::lemma_small_mod(0, p as nat);
    assert forall|i: int| 0 <= i < a.len() implies dot((#[trigger] a[i])@, y, m) % pi == 0 by {
        let row = a[i]@;
        let yc = y[c];
        assert(yc == 1);
        if i < c {
            assert forall|j: int| 0 <= j < m && j != i && j != c implies #[trigger] (row[j] * y[j]) == 0 by {
                if 0 <= j < c {
                    assert(row[j] == (if i == j { 1u64 } else { 0u64 }));
                }
                assert(row[j] == 0 || y[j] == 0);
            }
            crate::linzip::lemma_dot_pair(row, y, m, i, c);
            assert(row[i] == 1);
            let v = row[c] as int;
            assert(v < pi);
            vstd::arithmetic::div_mod::lemma_mod_self_0(pi);
            if v == 0 {
                assert(y[i] == 0);
                assert(row[i] * y[i] == 0);
                assert(row[c] * yc == 0) by (nonlinear_arith)
                    requires
                        v == row[c],
                        v == 0,
                ;
            } else {
                vstd::arithmetic::div_mod::lemma_small_mod((pi - v) as nat, p as nat);
                assert(y[i] == pi - v);
                assert(row[i] * y[i] == pi - v) by {
                    assert(row[i] == 1);
                }
                assert(row[c] * yc == v) by (nonlinear_arith)
                    requires
                        yc == 1,
                        v == row[c],
                ;
            }
        } else {
            assert forall|j: int| 0 <= j < m && j != m as int && j != m as int + 1 implies #[trigger] (row[j] * y[j]) == 0 by {
                if 0 <= j < c {
                    assert(row[j] == (if i == j { 1u64 } else { 0u64 }));
                }
                if j == c {
                    assert(row[j] == 0);
                }
                assert(row[j] == 0 || y[j] == 0);
            }
            crate::linzip::lemma_dot_pair(row, y, m, m as int, m as int + 1);
        }
    }
    assert(kernel(a, y, m, p));
    assert(kernel(orig, y, m, p));
    assert(y[c] == 1);
    assert(null_vector(orig, y, m, p));
}

/// Scaling a row scales its dot product.
pub(crate) proof fn lemma_dot_scale(old: Seq<u64>, new: Seq<u64>, x: Seq<u64>, l: int, p: int, k: nat)
    requires
        p > 0,
        k <= old.len(),
        k <= new.len(),
        forall|j: int| 0 <= j < k ==> #[trigger] new[j] == (old[j] * l) % p,
    ensures
        dot(new, x, k) % p == (l * dot(old, x, k)) % p,
    decreases k,
{
    if k > 0 {
        let k1 = (k - 1) as nat;
        lemma_dot_scale(old, new, x, l, p, k1);
        let a = dot(new, x, k1);
        let b = dot(old, x, k1);
        let t = new[k1 as int] * x[k1 as int];
        let u = old[k1 as int] * l * x[k1 as int];
        assert(t % p == u % p) by {
            vstd::arithmetic::div_mod::lemma_mod_twice(old[k1 as int] * l, p);
            crate::arith::lemma_mul_mod_both(new[k1 as int] as int, x[k1 as int] as int, old[k1 as int] * l, x[k1 as int] as int, p);
        }
        crate::arith::lemma_add_mod_both(a, t, l * b, u, p);
        assert(l * b + u == l * (b + old[k1 as int] * x[k1 as int])) by (nonlinear_arith)
            requires
                u == old[k1 as int] * l * x[k1 as int],
        ;
    }
}

/// Subtracting a multiple of the pivot subtracts a multiple of its dot product.
pub(crate) proof fn lemma_dot_elim(old: Seq<u64>, piv: Seq<u64>, new: Seq<u64>, x: Seq<u64>, kk: int, p: int, k: nat)
    requires
        p > 0,
        k <= old.len(),
        k <= new.len(),
        k <= piv.len(),
        forall|j: int| 0 <= j < k ==> #[trigger] new[j] == (old[j] - (kk * piv[j]) % p) % p,
    ensures
        dot(new, x, k) % p == (dot(old, x, k) - kk * dot(piv, x, k)) % p,
    decreases k,
{
    if k > 0 {
        let k1 = (k - 1) as nat;
        lemma_dot_elim(old, piv, new, x, kk, p, k1);
        let j = k1 as int;
        let a = dot(new, x, k1);
        let b = dot(old, x, k1) - kk * dot(piv, x, k1);
        let t = new[j] * x[j];
        let u = (old[j] - kk * piv[j]) * x[j];
        assert((new[j] as int) % p == (old[j] - kk * piv[j]) % p) by {
            vstd::arithmetic::div_mod::lemma_mod_twice(old[j] - (kk * piv[j]) % p, p);
            vstd::arithmetic::div_mod::lemma_sub_mod_noop_right(old[j] as int, kk * piv[j], p);
        }
        assert(t % p == u % p) by {
            crate::arith::lemma_mul_mod_both(new[j] as int, x[j] as int, old[j] - kk * piv[j], x[j] as int, p);
        }
        crate::arith::lemma_add_mod_both(a, t, b, u, p);
        assert(b + u == (dot(old, x, k1) + old[j] * x[j]) - kk * (dot(piv, x, k1) + piv[j] * x[j])) by (nonlinear_arith)
            requires
                b == dot(old, x, k1) - kk * dot(piv, x, k1),
                u == (old[j] - kk * piv[j]) * x[j],
        ;
    }
}

/// A row scaled by an invertible `l` has the solutions of the row.
proof fn lemma_satisfies_scaled(old: Seq<u64>, new: Seq<u64>, x: Seq<u64>, m: nat, l: int, v: int, p: u64)
    requires
        prime(p as int),
        m < old.len(),
        old.len() == new.len(),
        forall|j: int| 0 <= j < new.len() ==> #[trigger] new[j] == (old[j] * l) % (p as int),
        (v * l) % (p as int) == 1,
        satisfies(new, x, m, p),
    ensures
        satisfies(old, x, m, p),
{
    let pi = p as int;
    lemma_dot_scale(old, new, x, l, pi, m);
    let d = dot(old, x, m) - old[m as int];
    assert((l * d) % pi == 0) by {
        vstd::arithmetic::div_mod::lemma_mod_twice(old[m as int] * l, pi);
        crate::arith::lemma_sub_mod_both(dot(new, x, m), new[m as int] as int, l * dot(old, x, m), old[m as int] * l, pi);
        assert(l * dot(old, x, m) - old[m as int] * l == l * d) by (nonlinear_arith)
            requires
                d == dot(old, x, m) - old[m as int],
        ;
    }
    assert(d % pi == 0) by {
        vstd::arithmetic::div_mod::lemma_small_mod(1, p as nat);
        crate::arith::lemma_mul_mod_both(v, l * d, v, 0, pi);
        assert(v * (l * d) == (v * l) * d) by (nonlinear_arith);
        crate::arith::lemma_mul_mod_both(v * l, d, 1, d, pi);
        assert(v * 0 == 0);
        assert(1 * d == d);
    }
}

/// A row minus a multiple of a satisfied pivot has the solutions of the row.
proof fn lemma_satisfies_elim(old: Seq<u64>, piv: Seq<u64>, new: Seq<u64>, x: Seq<u64>, m: nat, kk: int, p: u64)
    requires
        p > 1,
        m < old.len(),
        old.len() == new.len(),
        old.len() == piv.len(),
        forall|j: int| 0 <= j < new.len() ==> #[trigger] new[j] == (old[j] - (kk * piv[j]) % (p as int)) % (p as int),
        satisfies(new, x, m, p),
        satisfies(piv, x, m, p),
    ensures
        satisfies(old, x, m, p),
{
    let pi = p as int;
    lemma_dot_elim(old, piv, new, x, kk, pi, m);
    let dn = dot(new, x, m) - new[m as int];
    let dp = dot(piv, x, m) - piv[m as int];
    let d = dot(old, x, m) - old[m as int];
    assert(dn % pi == (d - kk * dp) % pi) by {
        assert((new[m as int] as int) % pi == (old[m as int] - kk * piv[m as int]) % pi) by {
            vstd::arithmetic::div_mod::lemma_mod_twice(old[m as int] - (kk * piv[m as int]) % pi, pi);
            vstd::arithmetic::div_mod::lemma_sub_mod_noop_right(old[m as int] as int, kk * piv[m as int], pi);
        }
        crate::arith::lemma_sub_mod_both(dot(new, x, m), new[m as int] as int, dot(old, x, m) - kk * dot(piv, x, m), old[m as int] - kk
            * piv[m as int], pi);
        assert((dot(old, x, m) - kk * dot(piv, x, m)) - (old[m as int] - kk * piv[m as int]) == d - kk * dp) by (nonlinear_arith)
            requires
                d == dot(old, x, m) - old[m as int],
                dp == dot(piv, x, m) - piv[m as int],
        ;
    }
    assert(d % pi == 0) by {
        crate::arith::lemma_mul_mod_both(kk, dp, kk, 0, pi);
        assert(kk * 0 == 0);
        crate::arith::lemma_add_mod_both(d - kk * dp, kk * dp, 0, 0, pi);
    }
}

/// A unit row picks out one entry of `x`.
proof fn lemma_dot_unit(row: Seq<u64>, x: Seq<u64>, i: int, k: nat)
    requires
        k <= row.len(),
        k <= x.len(),
        forall|j: int| 0 <= j < k ==> #[trigger] row[j] == (if i == j { 1u64 } else { 0u64 }),
    ensures
        dot(row, x, k) == (if 0 <= i < k { x[i] as int } else { 0 }),
    decreases k,
{
    if k > 0 {
        lemma_dot_unit(row, x, i, (k - 1) as nat);
        let j = k - 1;
        if i == j {
            assert(row[j] == 1u64);
            assert(row[j] * x[j] == x[j] as int);
        } else {
            assert(row[j] == 0u64);
            assert(row[j] * x[j] == 0);
        }
    }
}

/// Gauss-Jordan on the augmented square system `a`, or `None` if a column has no pivot. Over
/// a prime field the result solves every row of `a`.
fn solve(system: Vec<Vec<u64>>, p: u64) -> (r: Option<Vec<u64>>)
    requires
        modulus(p),
        augmented(system@, system@.len(), p),
    ensures
        r matches Some(x) ==> {
            &&& x@.len() == system@.len()
            &&& residues(x@, p)
            &&& prime(p as int) ==> solves(system@, x@, system@.len(), p)
        },
        r is None ==> prime(p as int) ==> exists|y: Seq<u64>| #[trigger] null_vector(system@, y, system@.len(), p),
{
    let m = system.len();
    let ghost orig = system@;
    let mut a = system;
    let mut c: usize = 0;
    while c < m
        invariant
            m == a@.len(),
            orig.len() == m,
            c <= m,
            modulus(p),
            augmented(a@, m as nat, p),
            prime(p as int) ==> unit_columns(a@, c as int),
            prime(p as int) ==> forall|x: Seq<u64>| #[trigger] solves(a@, x, m as nat, p) ==> solves(orig, x, m as nat, p),
            prime(p as int) ==> forall|y: Seq<u64>| #[trigger] kernel(a@, y, m as nat, p) ==> kernel(orig, y, m as nat, p),
            orig == system@,
        decreases m - c,
    {
        let mut r = c;
        while r < m && a[r][c] == 0
            invariant
                c <= r <= m,
                m == a@.len(),
                c < m,
                augmented(a@, m as nat, p),
                forall|r2: int| c <= r2 < r ==> #[trigger] a@[r2]@[c as int] == 0,
            decreases m - r,
        {
            r += 1;
        }
        if r == m {
            proof {
                if prime(p as int) {
                    lemma_null_vector(orig, a@, c as int, m as nat, p);
                    let y = choose|y: Seq<u64>| #[trigger] null_vector(orig, y, m as nat, p);
                    assert(null_vector(orig, y, orig.len(), p));
                }
            }
            return None;
        }
        let ghost a0 = a@;
        let row_r = a[r].clone();
        let row_c = a[c].clone();
        a.set(c, row_r);
        a.set(r, row_c);
        let ghost a1 = a@;
        proof {
            assert(a1[c as int]@ == a0[r as int]@ && a1[r as int]@ == a0[c as int]@);
            assert forall|i: int| 0 <= i < m && i != c && i != r implies a1[i] == a0[i] by {}
            if prime(p as int) {
                assert forall|i: int, j: int| 0 <= i < a1.len() && 0 <= j < c implies #[trigger] a1[i]@[j] == (if i == j { 1u64 } else { 0u64 }) by {
                    if i == c {
                        assert(a0[r as int]@[j] == 0u64);
                    } else if i == r {
                        assert(a0[c as int]@[j] == 0u64);
                    } else {
                        assert(a1[i] == a0[i]);
                    }
                }
                assert forall|y: Seq<u64>| #[trigger] kernel(a1, y, m as nat, p) implies kernel(orig, y, m as nat, p) by {
                    assert forall|i: int| 0 <= i < a0.len() implies dot((#[trigger] a0[i])@, y, m as nat) % (p as int) == 0 by {
                        if i == c {
                            assert(a0[i]@ == a1[r as int]@);
                        } else if i == r {
                            assert(a0[i]@ == a1[c as int]@);
                        } else {
                            assert(a1[i] == a0[i]);
                        }
                    }
                    assert(kernel(a0, y, m as nat, p));
                }
                assert forall|x: Seq<u64>| #[trigger] solves(a1, x, m as nat, p) implies solves(orig, x, m as nat, p) by {
                    assert forall|i: int| 0 <= i < a0.len() implies satisfies((#[trigger] a0[i])@, x, m as nat, p) by {
                        if i == c {
                            assert(satisfies(a1[r as int]@, x, m as nat, p));
                        } else if i == r {
                            assert(satisfies(a1[c as int]@, x, m as nat, p));
                        } else {
                            assert(a1[i] == a0[i]);
                            assert(satisfies(a1[i]@, x, m as nat, p));
                        }
                    }
                    assert(solves(a0, x, m as nat, p));
                }
            }
        }
        let v = a[c][c];
        let l = inv(v, p);
        let pivot = scale_row(&a[c], l, p);
        a.set(c, scale_row(&a[c], l, p));
        let ghost a2 = a@;
        proof {
            if prime(p as int) {
                vstd::arithmetic::div_mod::lemma_small_mod(v as nat, p as nat);
                assert((v * l) % (p as int) == 1);
                assert(pivot@ == a2[c as int]@);
                assert(pivot@[c as int] == 1) by {
                    assert(pivot@[c as int] == (a1[c as int]@[c as int] * l) % (p as int));
                }
                assert forall|j: int| 0 <= j < c implies #[trigger] pivot@[j] == 0u64 by {
                    assert(a1[c as int]@[j] == 0u64);
                    assert(pivot@[j] == (0 * l) % (p as int));
                }
                assert forall|y: Seq<u64>| #[trigger] kernel(a2, y, m as nat, p) implies kernel(orig, y, m as nat, p) by {
                    assert forall|i: int| 0 <= i < a1.len() implies dot((#[trigger] a1[i])@, y, m as nat) % (p as int) == 0 by {
                        assert(dot(a2[i]@, y, m as nat) % (p as int) == 0);
                        if i == c {
                            lemma_dot_scale(a1[c as int]@, a2[c as int]@, y, l as int, p as int, m as nat);
                            crate::linzip::lemma_cancel_unit(dot(a1[c as int]@, y, m as nat), l as int, v as int, p as int);
                        } else {
                            assert(a2[i] == a1[i]);
                        }
                    }
                    assert(kernel(a1, y, m as nat, p));
                }
                assert forall|x: Seq<u64>| #[trigger] solves(a2, x, m as nat, p) implies solves(orig, x, m as nat, p) by {
                    assert forall|i: int| 0 <= i < a1.len() implies satisfies((#[trigger] a1[i])@, x, m as nat, p) by {
                        assert(satisfies(a2[i]@, x, m as nat, p));
                        if i == c {
                            lemma_satisfies_scaled(a1[c as int]@, a2[c as int]@, x, m as nat, l as int, v as int, p);
                        } else {
                            assert(a2[i] == a1[i]);
                        }
                    }
                    assert(solves(a1, x, m as nat, p));
                }
            }
        }
        let mut i: usize = 0;
        while i < m
            invariant
                m == a@.len(),
                a2.len() == m,
                orig.len() == m,
                c < m,
                i <= m,
                modulus(p),
                augmented(a@, m as nat, p),
                pivot@.len() == m + 1,
                residues(pivot@, p),
                a@[c as int]@ == pivot@,
                prime(p as int) ==> pivot@[c as int] == 1,
                prime(p as int) ==> forall|j: int| 0 <= j < c ==> #[trigger] pivot@[j] == 0u64,
                prime(p as int) ==> unit_columns(a@, c as int),
                prime(p as int) ==> forall|t: int| 0 <= t < i && t != c ==> #[trigger] a@[t]@[c as int] == 0u64,
                prime(p as int) ==> forall|x: Seq<u64>| #[trigger] solves(a2, x, m as nat, p) ==> solves(orig, x, m as nat, p),
                prime(p as int) ==> forall|x: Seq<u64>| #[trigger] solves(a@, x, m as nat, p) ==> solves(a2, x, m as nat, p),
                prime(p as int) ==> forall|y: Seq<u64>| #[trigger] kernel(a2, y, m as nat, p) ==> kernel(orig, y, m as nat, p),
                prime(p as int) ==> forall|y: Seq<u64>| #[trigger] kernel(a@, y, m as nat, p) ==> kernel(a2, y, m as nat, p),
            decreases m - i,
        {
            if i != c {
                let k = a[i][c];
                if k != 0 {
                    let ghost a3 = a@;
                    let row = eliminate(&a[i], &pivot, k, p);
                    a.set(i, row);
                    proof {
                        let a4 = a@;
                        if prime(p as int) {
                            let pi = p as int;
                            assert forall|t: int, j: int| 0 <= t < a4.len() && 0 <= j < c implies #[trigger] a4[t]@[j] == (if t == j { 1u64 } else { 0u64 }) by {
                                if t == i {
                                    let e = a3[i as int]@[j];
                                    assert(e == (if t == j { 1u64 } else { 0u64 }));
                                    assert(pivot@[j] == 0u64);
                                    vstd::arithmetic::div_mod::lemma_small_mod(0, p as nat);
                                    assert(k * 0 == 0);
                                    assert((k * 0) % pi == 0);
                                    vstd::arithmetic::div_mod::lemma_small_mod(e as nat, p as nat);
                                } else {
                                    assert(a4[t] == a3[t]);
                                }
                            }
                            assert(a4[i as int]@[c as int] == 0u64) by {
                                assert((k * 1) % pi == k) by {
                                    vstd::arithmetic::div_mod::lemma_small_mod(k as nat, p as nat);
                                }
                                assert(a4[i as int]@[c as int] == (k - k) % pi);
                            }
                            assert forall|t: int| 0 <= t < i + 1 && t != c implies #[trigger] a4[t]@[c as int] == 0u64 by {
                                if t != i {
                                    assert(a4[t] == a3[t]);
                                }
                            }
                            assert forall|y: Seq<u64>| #[trigger] kernel(a4, y, m as nat, p) implies kernel(a2, y, m as nat, p) by {
                                assert forall|t: int| 0 <= t < a3.len() implies dot((#[trigger] a3[t])@, y, m as nat) % pi == 0 by {
                                    assert(dot(a4[t]@, y, m as nat) % pi == 0);
                                    if t == i {
                                        assert(dot(a4[c as int]@, y, m as nat) % pi == 0);
                                        lemma_dot_elim(a3[i as int]@, pivot@, a4[i as int]@, y, k as int, pi, m as nat);
                                        crate::linzip::lemma_cancel_multiple(
                                            dot(a3[i as int]@, y, m as nat),
                                            k as int,
                                            dot(pivot@, y, m as nat),
                                            pi,
                                        );
                                    } else {
                                        assert(a4[t] == a3[t]);
                                    }
                                }
                                assert(kernel(a3, y, m as nat, p));
                            }
                            assert forall|x: Seq<u64>| #[trigger] solves(a4, x, m as nat, p) implies solves(a2, x, m as nat, p) by {
                                assert forall|t: int| 0 <= t < a3.len() implies satisfies((#[trigger] a3[t])@, x, m as nat, p) by {
                                    assert(satisfies(a4[t]@, x, m as nat, p));
                                    if t == i {
                                        assert(satisfies(a4[c as int]@, x, m as nat, p));
                                        lemma_satisfies_elim(a3[i as int]@, pivot@, a4[i as int]@, x, m as nat, k as int, p);
                                    } else {
                                        assert(a4[t] == a3[t]);
                                    }
                                }
                                assert(solves(a3, x, m as nat, p));
                            }
                        }
                    }
                }
            }
            i += 1;
        }
        proof {
            if prime(p as int) {
                assert forall|t: int, j: int| 0 <= t < a@.len() && 0 <= j < c + 1 implies #[trigger] a@[t]@[j] == (if t == j { 1u64 } else { 0u64 }) by {
                    if j == c {
                        if t == c {
                            assert(a@[c as int]@ == pivot@);
                        } else {
                            assert(a@[t]@[c as int] == 0u64);
                        }
                    }
                }
                assert forall|x: Seq<u64>| #[trigger] solves(a@, x, m as nat, p) implies solves(orig, x, m as nat, p) by {
                    assert(solves(a2, x, m as nat, p));
                }
                assert forall|y: Seq<u64>| #[trigger] kernel(a@, y, m as nat, p) implies kernel(orig, y, m as nat, p) by {
                    assert(kernel(a2, y, m as nat, p));
                }
            }
        }
        c += 1;
    }
    let mut x: Vec<u64> = Vec::new();
    let mut i: usize = 0;
    while i < m
        invariant
            m == a@.len(),
            orig.len() == m,
            i <= m,
            augmented(a@, m as nat, p),
            x@.len() == i,
            residues(x@, p),
            forall|t: int| 0 <= t < i ==> #[trigger] x@[t] == a@[t]@[m as int],
            prime(p as int) ==> unit_columns(a@, m as int),
            prime(p as int) ==> forall|y: Seq<u64>| #[trigger] solves(a@, y, m as nat, p) ==> solves(orig, y, m as nat, p),
        decreases m - i,
    {
        x.push(a[i][m]);
        i += 1;
    }
    proof {
        if prime(p as int) {
            assert forall|t: int| 0 <= t < a@.len() implies satisfies((#[trigger] a@[t])@, x@, m as nat, p) by {
                assert forall|j: int| 0 <= j < m implies #[trigger] a@[t]@[j] == (if t == j { 1u64 } else { 0u64 }) by {}
                lemma_dot_unit(a@[t]@, x@, t, m as nat);
                assert(dot(a@[t]@, x@, m as nat) == x@[t]);
                assert(x@[t] == a@[t]@[m as int]);
                vstd::arithmetic::div_mod::lemma_small_mod(0, p as nat);
                assert((x@[t] - a@[t]@[m as int]) % (p as int) == 0);
            }
            assert(solves(a@, x@, m as nat, p));
            assert(solves(orig, x@, m as nat, p));
        }
    }
    Some(x)
}

/// `sum_(j < k) v[off + j] * ms[j](x)` over the integers.
pub open spec fn part_value(ms: Seq<Seq<u32>>, v: Seq<u64>, off: int, x: Seq<u64>, k: nat) -> int
    decreases k,
{
    if k == 0 {
        0
    } else {
        part_value(ms, v, off, x, (k - 1) as nat) + v[off + k - 1] * crate::poly::mono_at(ms[k - 1], x)
    }
}

/// Component `i` of `v`, its numerator coefficients then its denominator's, meets
/// `num(x) = y den(x)` modulo `p`.
pub open spec fn fits_at(sv: Seq<(Seq<Seq<u32>>, Seq<Seq<u32>>)>, v: Seq<u64>, i: int, x: Seq<u64>, y: u64, p: u64) -> bool {
    let base = shape_terms(sv, i as nat) as int;
    let a = sv[i].0.len();
    (part_value(sv[i].0, v, base, x, a) - y * part_value(sv[i].1, v, base + a, x, sv[i].1.len())) % (p as int) == 0
}

/// The equation of one sample with the leading denominator coefficient fixed to 1: the
/// numerator's monomials, `-y` times the other denominator monomials, and `y` times the
/// leading one on the right.
pub open spec fn sample_row(nums: Seq<Seq<u32>>, dens: Seq<Seq<u32>>, x: Seq<u64>, y: u64, p: u64) -> Seq<u64> {
    let m = p as int;
    let a = nums.len() as int;
    let b = dens.len() as int;
    Seq::new(
        (a + b) as nat,
        |j: int|
            if j < a {
                (crate::poly::mono_at(nums[j], x) % m) as u64
            } else if j < a + b - 1 {
                ((((0 - y) % m) * (crate::poly::mono_at(dens[j - a + 1], x) % m)) % m) as u64
            } else {
                ((y * (crate::poly::mono_at(dens[0], x) % m)) % m) as u64
            },
    )
}

/// `v` holds, from `base`, the unknowns `c` around a leading denominator coefficient 1.
pub open spec fn laid_out(v: Seq<u64>, base: int, a: int, b: int, c: Seq<u64>) -> bool {
    &&& forall|j: int| 0 <= j < a ==> #[trigger] v[base + j] == c[j]
    &&& v[base + a] == 1
    &&& forall|j: int| 1 <= j < b ==> #[trigger] v[base + a + j] == c[a + j - 1]
}

proof fn lemma_cong_add(a: int, b: int, c: int, d: int, m: int)
    requires
        m > 0,
        a % m == b % m,
        c % m == d % m,
    ensures
        (a + c) % m == (b + d) % m,
{
    vstd::arithmetic::div_mod::lemma_add_mod_noop(a, c, m);
    vstd::arithmetic::div_mod::lemma_add_mod_noop(b, d, m);
}

proof fn lemma_cong_mul(a: int, b: int, c: int, m: int)
    requires
        m > 0,
        a % m == b % m,
    ensures
        (a * c) % m == (b * c) % m,
{
    vstd::arithmetic::div_mod::lemma_mul_mod_noop_left(a, c, m);
    vstd::arithmetic::div_mod::lemma_mul_mod_noop_left(b, c, m);
}

/// A solution of a sample's row, laid out with the leading denominator coefficient 1, meets
/// the sample's equation.
proof fn lemma_row_fits(nums: Seq<Seq<u32>>, dens: Seq<Seq<u32>>, x: Seq<u64>, y: u64, p: u64, c: Seq<u64>, v: Seq<u64>, base: int)
    requires
        modulus(p),
        dens.len() >= 1,
        c.len() == nums.len() + dens.len() - 1,
        laid_out(v, base, nums.len() as int, dens.len() as int, c),
        satisfies(sample_row(nums, dens, x, y, p), c, (nums.len() + dens.len() - 1) as nat, p),
    ensures
        (part_value(nums, v, base, x, nums.len()) - y * part_value(dens, v, base + nums.len(), x, dens.len())) % (p as int) == 0,
{
    let m = p as int;
    let a = nums.len();
    let b = dens.len();
    let row = sample_row(nums, dens, x, y, p);
    let u = (a + b - 1) as nat;
    lemma_row_fits_head(nums, dens, x, y, p, c, v, base, a);
    lemma_row_fits_tail(nums, dens, x, y, p, c, v, base, (b - 1) as nat);
    let d0 = crate::poly::mono_at(dens[0], x);
    let pn = part_value(nums, v, base, x, a);
    let pd = part_value(dens, v, base + a, x, b);
    let da = dot(row, c, a);
    let du = dot(row, c, u);
    // du + y pd == da + y d0 == pn + y d0, and row[u] == y d0.
    assert(row[u as int] == ((y * (d0 % m)) % m) as u64);
    vstd::arithmetic::div_mod::lemma_mul_mod_noop_right(y as int, d0, m);
    assert((row[u as int] as int) % m == (y * d0) % m) by {
        vstd::arithmetic::div_mod::lemma_mod_twice(y * d0, m);
    }
    lemma_cong_add(da, pn, y * d0, y * d0, m);
    assert((du + y * pd) % m == (pn + y * d0) % m);
    let ru = row[u as int] as int;
    assert((du - ru) % m == 0);
    lemma_cong_add(pn + y * d0, du + y * pd, -(y * d0 + y * pd), -(y * d0 + y * pd), m);
    assert(pn + y * d0 + -(y * d0 + y * pd) == pn - y * pd);
    assert(du + y * pd + -(y * d0 + y * pd) == du - y * d0);
    lemma_cong_mul(y * d0, ru, -1, m);
    assert((y * d0) * -1 == -(y * d0)) by (nonlinear_arith);
    assert(ru * -1 == -ru) by (nonlinear_arith);
    lemma_cong_add(du, du, -(y * d0), -ru, m);
    assert(du + -(y * d0) == du - y * d0);
    assert(du + -ru == du - ru);
}

/// The numerator part of a sample's row gives the numerator's value.
proof fn lemma_row_fits_head(nums: Seq<Seq<u32>>, dens: Seq<Seq<u32>>, x: Seq<u64>, y: u64, p: u64, c: Seq<u64>, v: Seq<u64>, base: int, k: nat)
    requires
        modulus(p),
        dens.len() >= 1,
        c.len() == nums.len() + dens.len() - 1,
        k <= nums.len(),
        laid_out(v, base, nums.len() as int, dens.len() as int, c),
    ensures
        dot(sample_row(nums, dens, x, y, p), c, k) % (p as int) == part_value(nums, v, base, x, k) % (p as int),
    decreases k,
{
    if k > 0 {
        let m = p as int;
        let j = (k - 1) as int;
        lemma_row_fits_head(nums, dens, x, y, p, c, v, base, (k - 1) as nat);
        let row = sample_row(nums, dens, x, y, p);
        let mo = crate::poly::mono_at(nums[j], x);
        assert(row[j] == (mo % m) as u64);
        assert(v[base + j] == c[j]);
        vstd::arithmetic::div_mod::lemma_mul_mod_noop_left(mo, c[j] as int, m);
        assert(mo * c[j] == c[j] * mo) by (nonlinear_arith);
        assert((row[j] * c[j]) % m == (v[base + j] * mo) % m);
        lemma_cong_add(dot(row, c, (k - 1) as nat), part_value(nums, v, base, x, (k - 1) as nat), row[j] * c[j], v[base + j] * mo, m);
    }
}

/// The denominator part of a sample's row gives `-y` times the denominator's value but its
/// leading term.
proof fn lemma_row_fits_tail(nums: Seq<Seq<u32>>, dens: Seq<Seq<u32>>, x: Seq<u64>, y: u64, p: u64, c: Seq<u64>, v: Seq<u64>, base: int, k: nat)
    requires
        modulus(p),
        dens.len() >= 1,
        c.len() == nums.len() + dens.len() - 1,
        k <= dens.len() - 1,
        laid_out(v, base, nums.len() as int, dens.len() as int, c),
    ensures
        (dot(sample_row(nums, dens, x, y, p), c, nums.len() + k) + y * part_value(dens, v, base + nums.len(), x, k + 1)) % (p as int)
            == (dot(sample_row(nums, dens, x, y, p), c, nums.len()) + y * crate::poly::mono_at(dens[0], x)) % (p as int),
    decreases k,
{
    let m = p as int;
    let a = nums.len();
    let row = sample_row(nums, dens, x, y, p);
    if k == 0 {
        reveal_with_fuel(part_value, 2);
        assert(part_value(dens, v, base + a, x, 1) == v[base + a] * crate::poly::mono_at(dens[0], x));
        assert(v[base + a] == 1);
    } else {
        lemma_row_fits_tail(nums, dens, x, y, p, c, v, base, (k - 1) as nat);
        let j = a + k - 1;
        let mm = crate::poly::mono_at(dens[k as int], x);
        let cc = c[j] as int;
        assert(v[base + a + k] == c[j]);
        let ny = (0 - y) % m;
        assert(row[j] == ((ny * (mm % m)) % m) as u64);
        // row[j] * cc is congruent to -y mm cc
        vstd::arithmetic::div_mod::lemma_mul_mod_noop_right(ny, mm, m);
        assert((row[j] as int) % m == (ny * mm) % m) by {
            vstd::arithmetic::div_mod::lemma_mod_twice(ny * mm, m);
        }
        vstd::arithmetic::div_mod::lemma_mul_mod_noop_left(0 - y, mm, m);
        assert((row[j] as int) % m == ((0 - y) * mm) % m);
        lemma_cong_mul(row[j] as int, (0 - y) * mm, cc, m);
        let prev = dot(row, c, (a + k - 1) as nat) + y * part_value(dens, v, base + a, x, k);
        let inc = row[j] * cc + y * (cc * mm);
        assert(dot(row, c, (a + k) as nat) + y * part_value(dens, v, base + a, x, k + 1) == prev + inc) by (nonlinear_arith)
            requires
                dot(row, c, (a + k) as nat) == dot(row, c, (a + k - 1) as nat) + row[j] * c[j],
                part_value(dens, v, base + a, x, k + 1) == part_value(dens, v, base + a, x, k) + v[base + a + k] * mm,
                v[base + a + k] == c[j],
                cc == c[j],
                prev == dot(row, c, (a + k - 1) as nat) + y * part_value(dens, v, base + a, x, k),
                inc == row[j] * cc + y * (cc * mm),
        ;
        assert(((0 - y) * mm) * cc + y * (cc * mm) == 0) by (nonlinear_arith);
        lemma_cong_add(row[j] * cc, ((0 - y) * mm) * cc, y * (cc * mm), y * (cc * mm), m);
        assert(inc % m == 0) by {
            vstd::arithmetic::div_mod::lemma_small_mod(0, p as nat);
        }
        lemma_cong_add(prev, prev, inc, 0, m);
    }
}

/// `f` answered `y` at the point `x` modulo `p`.
pub open spec fn sampled<F: Fn(&[u64], u64) -> Option<Vec<u64>>>(f: F, x: Seq<u64>, p: u64, y: Seq<u64>) -> bool {
    exists|xs: &[u64], r: Vec<u64>| xs@ == x && r@ == y && #[trigger] call_ensures(f, (xs, p), Some(r))
}

/// Each pair of `pts` is an answer of `f`, and component `i` of `v` meets its equation there.
pub open spec fn fits_samples<F: Fn(&[u64], u64) -> Option<Vec<u64>>>(
    f: F,
    sv: Seq<(Seq<Seq<u32>>, Seq<Seq<u32>>)>,
    v: Seq<u64>,
    i: int,
    p: u64,
    pts: Seq<(Seq<u64>, Seq<u64>)>,
) -> bool {
    forall|t: int|
        0 <= t < pts.len() ==> {
            &&& sampled(f, (#[trigger] pts[t]).0, p, pts[t].1)
            &&& i < pts[t].1.len()
            &&& fits_at(sv, v, i, pts[t].0, pts[t].1[i] % p, p)
        }
}

/// Component `i` of `v` meets the equations of `k` answers of `f`.
pub open spec fn fitted<F: Fn(&[u64], u64) -> Option<Vec<u64>>>(
    f: F,
    sv: Seq<(Seq<Seq<u32>>, Seq<Seq<u32>>)>,
    v: Seq<u64>,
    i: int,
    p: u64,
    k: nat,
) -> bool {
    exists|pts: Seq<(Seq<u64>, Seq<u64>)>| pts.len() == k && #[trigger] fits_samples(f, sv, v, i, p, pts)
}

/// The number of coefficients of component `i`.
pub open spec fn width(sv: Seq<(Seq<Seq<u32>>, Seq<Seq<u32>>)>, i: int) -> nat {
    sv[i].0.len() + sv[i].1.len()
}

proof fn lemma_part_value_agree(ms: Seq<Seq<u32>>, v: Seq<u64>, w: Seq<u64>, off: int, x: Seq<u64>, k: nat)
    requires
        forall|u: int| off <= u < off + k ==> v[u] == w[u],
    ensures
        part_value(ms, v, off, x, k) == part_value(ms, w, off, x, k),
    decreases k,
{
    if k > 0 {
        lemma_part_value_agree(ms, v, w, off, x, (k - 1) as nat);
        assert(v[off + k - 1] == w[off + k - 1]);
    }
}

/// Whether component `i` fits reads `v` only on its own slots.
proof fn lemma_fitted_agree<F: Fn(&[u64], u64) -> Option<Vec<u64>>>(
    f: F,
    sv: Seq<(Seq<Seq<u32>>, Seq<Seq<u32>>)>,
    v: Seq<u64>,
    w: Seq<u64>,
    i: int,
    p: u64,
    k: nat,
)
    requires
        0 <= i < sv.len(),
        forall|u: int| shape_terms(sv, i as nat) <= u < shape_terms(sv, (i + 1) as nat) ==> v[u] == w[u],
        fitted(f, sv, v, i, p, k),
    ensures
        fitted(f, sv, w, i, p, k),
{
    let pts = choose|pts: Seq<(Seq<u64>, Seq<u64>)>| pts.len() == k && #[trigger] fits_samples(f, sv, v, i, p, pts);
    let base = shape_terms(sv, i as nat) as int;
    let a = sv[i].0.len();
    let b = sv[i].1.len();
    assert(shape_terms(sv, (i + 1) as nat) == base + a + b);
    assert forall|t: int| 0 <= t < pts.len() implies fits_at(sv, w, i, (#[trigger] pts[t]).0, pts[t].1[i] % p, p) by {
        let x = pts[t].0;
        lemma_part_value_agree(sv[i].0, v, w, base, x, a);
        lemma_part_value_agree(sv[i].1, v, w, base + a, x, b);
        assert(fits_at(sv, v, i, x, pts[t].1[i] % p, p));
    }
    assert(fits_samples(f, sv, w, i, p, pts));
}

/// Component `i` laid out from a solution `c` meets the equation of every answer in `pts`
/// whose row `c` satisfies.
proof fn lemma_component_fits<F: Fn(&[u64], u64) -> Option<Vec<u64>>>(
    f: F,
    sv: Seq<(Seq<Seq<u32>>, Seq<Seq<u32>>)>,
    i: int,
    p: u64,
    values: Seq<u64>,
    c: Seq<u64>,
    pts: Seq<(Seq<u64>, Seq<u64>)>,
)
    requires
        modulus(p),
        0 <= i < sv.len(),
        sv[i].1.len() >= 1,
        c.len() == width(sv, i) - 1,
        laid_out(values, shape_terms(sv, i as nat) as int, sv[i].0.len() as int, sv[i].1.len() as int, c),
        forall|t: int|
            0 <= t < pts.len() ==> {
                &&& sampled(f, (#[trigger] pts[t]).0, p, pts[t].1)
                &&& i < pts[t].1.len()
                &&& satisfies(sample_row(sv[i].0, sv[i].1, pts[t].0, pts[t].1[i] % p, p), c, (width(sv, i) - 1) as nat, p)
            },
    ensures
        fitted(f, sv, values, i, p, pts.len()),
{
    assert forall|t: int| 0 <= t < pts.len() implies fits_at(sv, values, i, (#[trigger] pts[t]).0, pts[t].1[i] % p, p) by {
        lemma_row_fits(sv[i].0, sv[i].1, pts[t].0, pts[t].1[i] % p, p, c, values, shape_terms(sv, i as nat) as int);
    }
    assert(fits_samples(f, sv, values, i, p, pts));
}

proof fn lemma_mod_eq_sub(a: int, b: int, m: int)
    requires
        m > 0,
        a % m == b,
        0 <= b < m,
    ensures
        (a - b) % m == 0,
{
    vstd::arithmetic::div_mod::lemma_sub_mod_noop(a, b, m);
    vstd::arithmetic::div_mod::lemma_small_mod(b as nat, m as nat);
    vstd::arithmetic::div_mod::lemma_small_mod(0, m as nat);
}

/// The coefficients on a known support modulo `p`, one linear solve per component through
/// samples at points named by `seed`. Per component, its numerator coefficients, then `1` for
/// the leading coefficient of its denominator, then the rest of the denominator. `None` if a
/// sample lacks a component, too few points are accepted, a solve is singular or a check point
/// disagrees.
fn fit<F: Fn(&[u64], u64) -> Option<Vec<u64>>>(f: &F, shape: &Shape, n: usize, p: u64, seed: u64) -> (r: Option<
    Vec<u64>,
>)
    requires
        modulus(p),
        shape_ok(shape_view(shape@)),
        forall|x: &[u64], q: u64| call_requires(*f, (x, q)),
    ensures
        r matches Some(v) ==> v@.len() == total_terms(shape_view(shape@)) && residues(v@, p),
        r matches Some(v) ==> forall|i: int| 0 <= i < shape@.len() ==> v@[#[trigger] lead_slot(shape_view(shape@), i)] == 1,
        r matches Some(v) ==> forall|i: int| 0 <= i < shape@.len() ==> #[trigger] fitted(*f, shape_view(shape@), v@, i, p, 1),
        r matches Some(v) ==> prime(p as int) ==> forall|i: int|
            0 <= i < shape@.len() ==> #[trigger] fitted(*f, shape_view(shape@), v@, i, p, width(shape_view(shape@), i)),
{
    let ghost sv = shape_view(shape@);
    if shape.len() == 0 {
        return None;
    }
    let mut need: usize = 0;
    let mut i: usize = 0;
    while i < shape.len()
        invariant
            i <= shape@.len(),
        decreases shape@.len() - i,
    {
        let a = shape[i].0.len();
        let b = shape[i].1.len();
        if a > usize::MAX - b {
            return None;
        }
        if a + b > need {
            need = a + b;
        }
        i += 1;
    }
    let count = (need as u128) + (need as u128) / 8 + 2;
    let mut samples: Vec<(Vec<u64>, Vec<u64>)> = Vec::new();
    let mut k: u128 = 0;
    while k < count
        invariant
            modulus(p),
            forall|x: &[u64], q: u64| call_requires(*f, (x, q)),
            forall|t: int| 0 <= t < samples@.len() ==> residues((#[trigger] samples@[t]).0@, p),
            forall|t: int| 0 <= t < samples@.len() ==> sampled(*f, (#[trigger] samples@[t]).0@, p, samples@[t].1@),
        decreases count - k,
    {
        let mut x: Vec<u64> = Vec::new();
        let mut j: usize = 0;
        while j < n
            invariant
                j <= n,
                modulus(p),
                x@.len() == j,
                residues(x@, p),
            decreases n - j,
        {
            let key = [seed, 6, k as u64, j as u64];
            x.push(crate::modp::point(&key, p));
            j += 1;
        }
        let xs = x.as_slice();
        match f(xs, p) {
            Some(y) => {
                proof {
                    assert(sampled(*f, x@, p, y@));
                }
                samples.push((x, y));
            },
            None => {},
        }
        k += 1;
    }
    let mut values: Vec<u64> = Vec::new();
    let mut i: usize = 0;
    while i < shape.len()
        invariant
            i <= shape@.len(),
            sv == shape_view(shape@),
            shape_ok(sv),
            modulus(p),
            values@.len() == shape_terms(sv, i as nat),
            residues(values@, p),
            forall|t: int| 0 <= t < samples@.len() ==> residues((#[trigger] samples@[t]).0@, p),
            forall|i2: int| 0 <= i2 < i ==> values@[#[trigger] lead_slot(sv, i2)] == 1,
            forall|t: int| 0 <= t < samples@.len() ==> sampled(*f, (#[trigger] samples@[t]).0@, p, samples@[t].1@),
            forall|i2: int| 0 <= i2 < i ==> #[trigger] fitted(*f, sv, values@, i2, p, 1),
            prime(p as int) ==> forall|i2: int| 0 <= i2 < i ==> #[trigger] fitted(*f, sv, values@, i2, p, width(sv, i2)),
        decreases shape@.len() - i,
    {
        let ghost vs0 = values@;
        let num = &shape[i].0;
        let den = &shape[i].1;
        assert(sv[i as int].1.len() > 0);
        assert(sv[i as int].0.len() == num@.len() && sv[i as int].1.len() == den@.len());
        if num.len() > usize::MAX - den.len() {
            return None;
        }
        let unknowns = num.len() + den.len() - 1;
        let ghost nv = sv[i as int].0;
        let ghost dv = sv[i as int].1;
        assert(nv == exps_view(num@) && dv == exps_view(den@));
        let mut rows: Vec<Vec<u64>> = Vec::new();
        let mut t: usize = 0;
        while t < samples.len() && t <= unknowns
            invariant
                t <= samples@.len(),
                modulus(p),
                unknowns + 1 == num@.len() + den@.len(),
                den@.len() > 0,
                augmented(rows@, unknowns as nat, p),
                rows@.len() == t,
                nv == exps_view(num@),
                dv == exps_view(den@),
                forall|u: int|
                    0 <= u < t ==> i < (#[trigger] samples@[u]).1@.len() && rows@[u]@ == sample_row(
                        nv,
                        dv,
                        samples@[u].0@,
                        samples@[u].1@[i as int] % p,
                        p,
                    ),
            decreases samples@.len() - t,
        {
            let x = &samples[t].0;
            let y = &samples[t].1;
            if i >= y.len() {
                return None;
            }
            let yi = y[i] % p;
            let ghost sr = sample_row(nv, dv, x@, yi, p);
            let mut row: Vec<u64> = Vec::new();
            let mut j: usize = 0;
            while j < num.len()
                invariant
                    j <= num@.len(),
                    modulus(p),
                    row@.len() == j,
                    residues(row@, p),
                    nv == exps_view(num@),
                    dv == exps_view(den@),
                    sr == sample_row(nv, dv, x@, yi, p),
                    forall|jj: int| 0 <= jj < j ==> row@[jj] == #[trigger] sr[jj],
                decreases num@.len() - j,
            {
                row.push(crate::zippel::monomial_value(&num[j], x, p));
                proof {
                    assert(nv[j as int] == num@[j as int]@);
                }
                j += 1;
            }
            let minus = crate::modp::sub(0, yi, p);
            let mut j: usize = 1;
            while j < den.len()
                invariant
                    1 <= j <= den@.len(),
                    modulus(p),
                    row@.len() == num@.len() + j - 1,
                    residues(row@, p),
                    minus < p,
                    minus == (0 - yi) % (p as int),
                    nv == exps_view(num@),
                    dv == exps_view(den@),
                    sr == sample_row(nv, dv, x@, yi, p),
                    forall|jj: int| 0 <= jj < row@.len() ==> row@[jj] == #[trigger] sr[jj],
                decreases den@.len() - j,
            {
                row.push(crate::modp::mul(minus, crate::zippel::monomial_value(&den[j], x, p), p));
                proof {
                    assert(dv[j as int] == den@[j as int]@);
                }
                j += 1;
            }
            row.push(crate::modp::mul(yi, crate::zippel::monomial_value(&den[0], x, p), p));
            proof {
                assert(dv[0] == den@[0]@);
                assert(row@ =~= sr);
            }
            let ghost before = rows@;
            rows.push(row);
            proof {
                assert forall|u: int| 0 <= u < rows@.len() implies (#[trigger] rows@[u])@.len() == unknowns + 1
                    && residues(rows@[u]@, p) by {
                    if u < before.len() {
                        assert(rows@[u] == before[u]);
                    }
                }
                assert forall|u: int| 0 <= u < t + 1 implies i < (#[trigger] samples@[u]).1@.len() && rows@[u]@
                    == sample_row(nv, dv, samples@[u].0@, samples@[u].1@[i as int] % p, p) by {
                    if u < before.len() {
                        assert(rows@[u] == before[u]);
                    }
                }
            }
            t += 1;
        }
        if rows.len() != unknowns + 1 {
            return None;
        }
        let ghost full = rows@;
        let check = match rows.pop() {
            Some(c) => c,
            None => return None,
        };
        let ghost rs = rows@;
        assert(check == full[unknowns as int] && rs == full.subrange(0, unknowns as int));
        assert(check@.len() == unknowns + 1);
        assert(augmented(rows@, unknowns as nat, p)) by {
            assert forall|u: int| 0 <= u < rows@.len() implies (#[trigger] rows@[u])@.len() == unknowns + 1
                && residues(rows@[u]@, p) by {
                assert(rows@[u]@.len() == unknowns + 1);
            }
        }
        let c = match solve(rows, p) {
            Some(c) => c,
            None => return None,
        };
        let mut lhs: u64 = 0;
        let mut j: usize = 0;
        while j < c.len()
            invariant
                j <= c@.len(),
                c@.len() == unknowns,
                check@.len() == unknowns + 1,
                residues(c@, p),
                residues(check@, p),
                modulus(p),
                lhs < p,
                lhs == dot(check@, c@, j as nat) % (p as int),
            decreases c@.len() - j,
        {
            let ghost d = dot(check@, c@, j as nat);
            lhs = crate::modp::add(lhs, crate::modp::mul(c[j], check[j], p), p);
            proof {
                let m = p as int;
                assert(c[j as int] * check[j as int] == check[j as int] * c[j as int]) by (nonlinear_arith);
                vstd::arithmetic::div_mod::lemma_add_mod_noop(d, check[j as int] * c[j as int], m);
                vstd::arithmetic::div_mod::lemma_mod_twice(d, m);
                assert(dot(check@, c@, (j + 1) as nat) == d + check[j as int] * c[j as int]);
            }
            j += 1;
        }
        if lhs != check[unknowns] {
            return None;
        }
        proof {
            lemma_mod_eq_sub(dot(check@, c@, unknowns as nat), check@[unknowns as int] as int, p as int);
            assert(satisfies(check@, c@, unknowns as nat, p));
        }
        let ghost before = values@.len();
        let mut j: usize = 0;
        while j < num.len()
            invariant
                j <= num@.len(),
                num@.len() <= c@.len(),
                residues(c@, p),
                residues(values@, p),
                values@.len() == before + j,
                modulus(p),
                vs0.len() == before,
                forall|u: int| 0 <= u < before ==> values@[u] == vs0[u],
                forall|u: int| 0 <= u < j ==> values@[before + u] == c@[u],
            decreases num@.len() - j,
        {
            values.push(c[j]);
            j += 1;
        }
        values.push(1);
        let ghost vs1 = values@;
        assert(forall|u: int| 0 <= u < before ==> vs1[u] == vs0[u]);
        let mut j: usize = num.len();
        while j < c.len()
            invariant
                num@.len() <= j <= c@.len(),
                residues(c@, p),
                residues(values@, p),
                values@.len() == before + 1 + j,
                modulus(p),
                vs1.len() == before + num@.len() + 1,
                forall|u: int| 0 <= u < vs1.len() ==> values@[u] == vs1[u],
                forall|u: int| num@.len() <= u < j ==> values@[before + 1 + u] == c@[u],
            decreases c@.len() - j,
        {
            values.push(c[j]);
            j += 1;
        }
        proof {
            let a = num@.len() as int;
            let b = den@.len() as int;
            assert(shape_terms(sv, i as nat) == before);
            assert(laid_out(values@, before as int, a, b, c@)) by {
                assert forall|j2: int| 0 <= j2 < a implies #[trigger] values@[before + j2] == c@[j2] by {
                    assert(values@[before + j2] == vs1[before + j2]);
                }
                assert(values@[before + a] == vs1[before + a]);
                assert forall|j2: int| 1 <= j2 < b implies #[trigger] values@[before + a + j2] == c@[a + j2 - 1] by {
                    assert(values@[before + 1 + (a + j2 - 1)] == c@[a + j2 - 1]);
                }
            }
            let last = samples@[unknowns as int];
            let one = seq![(last.0@, last.1@)];
            assert(full[unknowns as int]@ == sample_row(nv, dv, last.0@, last.1@[i as int] % p, p));
            assert(one[0] == (last.0@, last.1@));
            lemma_component_fits(*f, sv, i as int, p, values@, c@, one);
            if prime(p as int) {
                let all = Seq::new((unknowns + 1) as nat, |t: int| (samples@[t].0@, samples@[t].1@));
                assert forall|t: int| 0 <= t < all.len() implies {
                    &&& sampled(*f, (#[trigger] all[t]).0, p, all[t].1)
                    &&& i < all[t].1.len()
                    &&& satisfies(sample_row(nv, dv, all[t].0, all[t].1[i as int] % p, p), c@, (width(sv, i as int) - 1) as nat, p)
                } by {
                    assert(all[t] == (samples@[t].0@, samples@[t].1@));
                    assert(full[t]@ == sample_row(nv, dv, samples@[t].0@, samples@[t].1@[i as int] % p, p));
                    if t < unknowns {
                        assert(rs[t] == full[t]);
                        assert(satisfies(rs[t]@, c@, unknowns as nat, p));
                    }
                }
                lemma_component_fits(*f, sv, i as int, p, values@, c@, all);
                assert(width(sv, i as int) == all.len());
                assert(fitted(*f, sv, values@, i as int, p, width(sv, i as int)));
            }
            assert forall|i2: int| 0 <= i2 < i implies #[trigger] fitted(*f, sv, values@, i2, p, 1)
                && (prime(p as int) ==> fitted(*f, sv, values@, i2, p, width(sv, i2))) by {
                lemma_shape_terms_mono(sv, (i2 + 1) as nat, i as nat);
                assert forall|u: int| shape_terms(sv, i2 as nat) <= u < shape_terms(sv, (i2 + 1) as nat) implies vs0[u]
                    == values@[u] by {
                    assert(values@[u] == vs1[u]);
                }
                lemma_fitted_agree(*f, sv, vs0, values@, i2, p, 1);
                if prime(p as int) {
                    lemma_fitted_agree(*f, sv, vs0, values@, i2, p, width(sv, i2));
                }
            }
            if prime(p as int) {
                assert forall|i2: int| 0 <= i2 < i + 1 implies #[trigger] fitted(*f, sv, values@, i2, p, width(sv, i2)) by {
                    if i2 < i {
                        assert(fitted(*f, sv, values@, i2, p, 1));
                    }
                }
            }
            assert(values@.len() == before + num@.len() + den@.len());
            assert(shape_terms(sv, (i + 1) as nat) == shape_terms(sv, i as nat) + sv[i as int].0.len() + sv[i as int].1.len());
            assert(values@[lead_slot(sv, i as int)] == 1) by {
                assert(vs1[before + num@.len() as int] == 1);
            }
            assert forall|i2: int| 0 <= i2 < i + 1 implies values@[#[trigger] lead_slot(sv, i2)] == 1 by {
                if i2 < i {
                    lemma_lead_slot_below(sv, i2, i as int);
                    assert(vs0[lead_slot(sv, i2)] == 1);
                    assert(vs1[lead_slot(sv, i2)] == 1);
                    assert(values@[lead_slot(sv, i2)] == vs1[lead_slot(sv, i2)]);
                }
            }
        }
        i += 1;
    }
    Some(values)
}

/// Component `i` of a vector black box.
struct Component<'a, F: Fn(&[u64], u64) -> Option<Vec<u64>>> {
    f: &'a F,
    i: usize,
}

impl<'a, F: Fn(&[u64], u64) -> Option<Vec<u64>>> Component<'a, F> {
    #[verifier::type_invariant]
    spec fn callable(self) -> bool {
        forall|x: &[u64], q: u64| call_requires(*self.f, (x, q))
    }
}

/// Entry `i` of a vector answer, `None` if the answer is `None` or too short.
pub open spec fn entry(r: Option<Vec<u64>>, i: int) -> Option<u64> {
    match r {
        Some(y) => if 0 <= i < y@.len() {
            Some(y@[i])
        } else {
            None
        },
        None => None,
    }
}

impl<'a, F: Fn(&[u64], u64) -> Option<Vec<u64>>> crate::zippel::BlackBox for Component<'a, F> {
    /// Entry `i` of what the closure returns at `x`.
    closed spec fn answers(&self, x: Seq<u64>, p: u64, y: Option<u64>) -> bool {
        exists|xs: &[u64], r: Option<Vec<u64>>|
            xs@ == x && #[trigger] call_ensures(*self.f, (xs, p), r) && y == entry(r, self.i as int)
    }

    fn eval(&self, x: &[u64], p: u64) -> (y: Option<u64>) {
        proof {
            use_type_invariant(self);
        }
        let r = (self.f)(x, p);
        let y = match &r {
            Some(v) => {
                if self.i < v.len() {
                    Some(v[self.i])
                } else {
                    None
                }
            },
            None => None,
        };
        proof {
            assert(y == entry(r, self.i as int));
        }
        y
    }
}

/// Every component modulo `p` from Thiele and Zippel: its shape, and per component the
/// numerator coefficients then the denominator coefficients. The number of components is
/// read from the first of 16 points named by `seed` that `f` accepts.
fn image<F: Fn(&[u64], u64) -> Option<Vec<u64>>>(f: &F, n: usize, p: u64, seed: u64) -> (r: Option<(Shape, Vec<u64>)>)
    requires
        modulus(p),
        forall|x: &[u64], q: u64| call_requires(*f, (x, q)),
    ensures
        r matches Some(sv) ==> {
            &&& shape_ok(shape_view(sv.0@))
            &&& sv.1@.len() == total_terms(shape_view(sv.0@))
            &&& residues(sv.1@, p)
        },
{
    let mut len: Option<usize> = None;
    let mut k: u64 = 0;
    while k < 16
        invariant
            modulus(p),
            forall|x: &[u64], q: u64| call_requires(*f, (x, q)),
        decreases 16 - k,
    {
        let mut x: Vec<u64> = Vec::new();
        let mut j: usize = 0;
        while j < n
            invariant
                j <= n,
                modulus(p),
                x@.len() == j,
            decreases n - j,
        {
            let key = [seed, 5, k, j as u64];
            x.push(crate::modp::point(&key, p));
            j += 1;
        }
        match f(x.as_slice(), p) {
            Some(y) => {
                len = Some(y.len());
                break;
            },
            None => {},
        }
        k += 1;
    }
    let len = match len {
        Some(l) => l,
        None => return None,
    };
    let mut shape: Shape = Vec::new();
    let mut values: Vec<u64> = Vec::new();
    let mut i: usize = 0;
    while i < len
        invariant
            i <= len,
            modulus(p),
            forall|x: &[u64], q: u64| call_requires(*f, (x, q)),
            shape_ok(shape_view(shape@)),
            values@.len() == total_terms(shape_view(shape@)),
            residues(values@, p),
        decreases len - i,
    {
        let part = Component { f, i };
        let q = match crate::rational::reconstruct(&part, n, p, seed) {
            Some(q) => q,
            None => return None,
        };
        let ghost before = values@.len();
        let mut t: usize = 0;
        while t < q.num.terms.len()
            invariant
                t <= q.num.terms@.len(),
                q.num.shaped(p),
                residues(values@, p),
                values@.len() == before + t,
            decreases q.num.terms@.len() - t,
        {
            values.push(q.num.terms[t].1);
            t += 1;
        }
        let mut t: usize = 0;
        while t < q.den.terms.len()
            invariant
                t <= q.den.terms@.len(),
                q.den.shaped(p),
                residues(values@, p),
                values@.len() == before + q.num.terms@.len() + t,
            decreases q.den.terms@.len() - t,
        {
            values.push(q.den.terms[t].1);
            t += 1;
        }
        let ghost s0 = shape@;
        shape.push((q.num.support(), q.den.support()));
        proof {
            let v0 = shape_view(s0);
            let v1 = shape_view(shape@);
            assert(v1.drop_last() =~= v0);
            assert forall|k: nat| k <= v0.len() implies shape_terms(v1, k) == shape_terms(v0, k) by {
                lemma_shape_terms_prefix(v0, v1, k);
            }
            assert(shape_terms(v1, v1.len()) == shape_terms(v1, v0.len()) + v1[v0.len() as int].0.len() + v1[v0.len() as int].1.len());
            assert forall|j: int| 0 <= j < v1.len() implies (#[trigger] v1[j]).1.len() > 0 by {
                if j < v0.len() {
                    assert(v1[j] == v0[j]);
                }
            }
        }
        i += 1;
    }
    Some((shape, values))
}

/// Components before `k` count the same in a shape and in one that extends it.
proof fn lemma_shape_terms_prefix(a: Seq<(Seq<Seq<u32>>, Seq<Seq<u32>>)>, b: Seq<(Seq<Seq<u32>>, Seq<Seq<u32>>)>, k: nat)
    requires
        k <= a.len(),
        a.len() <= b.len(),
        forall|j: int| 0 <= j < a.len() ==> a[j] == b[j],
    ensures
        shape_terms(a, k) == shape_terms(b, k),
    decreases k,
{
    if k > 0 {
        lemma_shape_terms_prefix(a, b, (k - 1) as nat);
        assert(a[k - 1] == b[k - 1]);
    }
}

/// Residues of every coefficient of one shape modulo `m`, the product of the primes so far.
struct Residues {
    shape: Shape,
    xs: Vec<Int>,
    m: Int,
}

impl Residues {
    spec fn wf(&self) -> bool {
        &&& self.m.value() > 0
        &&& shape_ok(shape_view(self.shape@))
        &&& self.xs@.len() == total_terms(shape_view(self.shape@))
        &&& forall|i: int| 0 <= i < self.xs@.len() ==> 0 <= (#[trigger] self.xs@[i]).value() < self.m.value()
    }

    /// The image modulo `p` of one shape.
    fn new(shape: Shape, values: &[u64], p: u64) -> (r: Residues)
        requires
            modulus(p),
            residues(values@, p),
            shape_ok(shape_view(shape@)),
            values@.len() == total_terms(shape_view(shape@)),
        ensures
            r.wf(),
            shape_view(r.shape@) == shape_view(shape@),
            r.m.value() == p,
            forall|i: int| 0 <= i < r.xs@.len() ==> (#[trigger] r.xs@[i]).value() == values@[i],
    {
        let mut xs: Vec<Int> = Vec::new();
        let mut i: usize = 0;
        while i < values.len()
            invariant
                i <= values@.len(),
                residues(values@, p),
                xs@.len() == i,
                forall|t: int| 0 <= t < i ==> (#[trigger] xs@[t]).value() == values@[t],
            decreases values@.len() - i,
        {
            xs.push(Int::from_u64(values[i]));
            i += 1;
        }
        Residues { shape, xs, m: Int::from_u64(p) }
    }

    /// Every coefficient by Wang's reconstruction, or `None` if one has no small fraction yet.
    #[verifier::spinoff_prover]
    fn rationals(&self) -> (r: Option<Vec<Rat>>)
        requires
            self.wf(),
        ensures
            r matches Some(q) ==> q@.len() == self.xs@.len() && forall|i: int|
                0 <= i < q@.len() ==> (#[trigger] q@[i]).reduced() && exists|rr: int, ss: int, b: int|
                    #[trigger] wang_witness(self.xs@[i].value(), self.m.value(), q@[i], rr, ss, b),
    {
        let mut out: Vec<Rat> = Vec::new();
        let mut i: usize = 0;
        while i < self.xs.len()
            invariant
                self.wf(),
                i <= self.xs@.len(),
                out@.len() == i,
                forall|t: int|
                    0 <= t < i ==> (#[trigger] out@[t]).reduced() && exists|rr: int, ss: int, b: int|
                        #[trigger] wang_witness(self.xs@[t].value(), self.m.value(), out@[t], rr, ss, b),
            decreases self.xs@.len() - i,
        {
            match wang(&self.xs[i], &self.m) {
                Some(q) => out.push(q),
                None => return None,
            }
            i += 1;
        }
        Some(out)
    }
}

/// A polynomial with rational coefficients in `n` variables: its nonzero terms, in order.
#[derive(Debug)]
pub struct RatPoly {
    pub n: usize,
    pub terms: Vec<(Exps, Rat)>,
}

/// `num / den` in lowest terms over Z: coprime integer coefficients, `den` leading positive.
#[derive(Debug)]
pub struct Fraction {
    pub num: RatPoly,
    pub den: RatPoly,
}

/// Every coefficient has a positive denominator.
pub open spec fn dens_positive(ts: Seq<(Exps, Rat)>) -> bool {
    forall|t: int| 0 <= t < ts.len() ==> (#[trigger] ts[t]).1.den.value() > 0
}

/// The terms `es[j]` with coefficients `q[k + j]`, zeros left out.
fn poly_from(es: &Vec<Exps>, q: &Vec<Rat>, k: usize, n: usize) -> (r: RatPoly)
    requires
        k + es@.len() <= q@.len(),
        forall|i: int| 0 <= i < q@.len() ==> (#[trigger] q@[i]).den.value() > 0,
    ensures
        r.n == n,
        dens_positive(r.terms@),
        forall|t: int| 0 <= t < r.terms@.len() ==> (#[trigger] r.terms@[t]).1.num.value() != 0,
{
    let zero = Int::zero();
    let ql = q.len();
    let mut terms: Vec<(Exps, Rat)> = Vec::new();
    let mut j: usize = 0;
    while j < es.len()
        invariant
            ql == q@.len(),
            j <= es@.len(),
            k + es@.len() <= q@.len(),
            forall|i: int| 0 <= i < q@.len() ==> (#[trigger] q@[i]).den.value() > 0,
            zero.value() == 0,
            dens_positive(terms@),
            forall|t: int| 0 <= t < terms@.len() ==> (#[trigger] terms@[t]).1.num.value() != 0,
        decreases es@.len() - j,
    {
        assert(k + j < q@.len());
        let c = &q[k + j];
        if !int_eq(&c.num, &zero) {
            let ghost before = terms@;
            terms.push((es[j].clone(), c.copy()));
            proof {
                assert forall|t: int| 0 <= t < terms@.len() implies (#[trigger] terms@[t]).1.den.value() > 0
                    && terms@[t].1.num.value() != 0 by {
                    if t < before.len() {
                        assert(terms@[t] == before[t]);
                    }
                }
            }
        }
        j += 1;
    }
    RatPoly { n, terms }
}

/// The least common multiple of the first `i` denominators.
pub open spec fn den_lcm(cs: Seq<Rat>, i: nat) -> nat
    decreases i,
{
    if i == 0 {
        1
    } else {
        lcm_nat(den_lcm(cs, (i - 1) as nat), abs(cs[i - 1].den.value()))
    }
}

/// The greatest common divisor of the first `i` coefficients times `l`.
pub open spec fn num_gcd(cs: Seq<Rat>, l: int, i: nat) -> nat
    decreases i,
{
    if i == 0 {
        0
    } else {
        gcd_nat(num_gcd(cs, l, (i - 1) as nat), abs(cs[i - 1].num.value() * trunc_div(l, cs[i - 1].den.value())))
    }
}

/// The coefficients of the numerator, then of the denominator.
pub open spec fn coefficients(num: Seq<(Exps, Rat)>, den: Seq<(Exps, Rat)>) -> Seq<Rat> {
    num.map_values(|t: (Exps, Rat)| t.1) + den.map_values(|t: (Exps, Rat)| t.1)
}

/// Every coefficient times `k`, the exponents kept.
fn scale(f: &RatPoly, k: &Rat) -> (r: RatPoly)
    requires
        dens_positive(f.terms@),
        k.den.value() > 0,
    ensures
        r.n == f.n,
        r.terms@.len() == f.terms@.len(),
        dens_positive(r.terms@),
        forall|t: int|
            0 <= t < r.terms@.len() ==> {
                &&& (#[trigger] r.terms@[t]).0@ == f.terms@[t].0@
                &&& r.terms@[t].1.reduced()
                &&& r.terms@[t].1.num.value() * (f.terms@[t].1.den.value() * k.den.value()) == f.terms@[t].1.num.value()
                    * k.num.value() * r.terms@[t].1.den.value()
            },
{
    let mut terms: Vec<(Exps, Rat)> = Vec::new();
    let mut t: usize = 0;
    while t < f.terms.len()
        invariant
            t <= f.terms@.len(),
            dens_positive(f.terms@),
            k.den.value() > 0,
            terms@.len() == t,
            forall|u: int|
                0 <= u < t ==> {
                    &&& (#[trigger] terms@[u]).0@ == f.terms@[u].0@
                    &&& terms@[u].1.reduced()
                    &&& terms@[u].1.num.value() * (f.terms@[u].1.den.value() * k.den.value()) == f.terms@[u].1.num.value()
                        * k.num.value() * terms@[u].1.den.value()
                },
        decreases f.terms@.len() - t,
    {
        let c = rat_mul(&f.terms[t].1, k);
        terms.push((f.terms[t].0.clone(), c));
        t += 1;
    }
    RatPoly { n: f.n, terms }
}

/// Scales `num / den` by `l / g`, where `l` is the least common multiple of the denominators
/// of all coefficients and `g` the greatest common divisor of the numerators over `l`: the
/// same fraction with coprime integer coefficients. Left alone if every coefficient is zero.
fn integral(num: &RatPoly, den: &RatPoly) -> (r: Fraction)
    requires
        dens_positive(num.terms@),
        dens_positive(den.terms@),
    ensures
        r.num.n == num.n,
        r.den.n == den.n,
        r.num.terms@.len() == num.terms@.len(),
        r.den.terms@.len() == den.terms@.len(),
        ({
            let cs = coefficients(num.terms@, den.terms@);
            let l = den_lcm(cs, cs.len());
            let g = num_gcd(cs, l as int, cs.len());
            g != 0 ==> exists|k: Rat| #[trigger] k.reduced() && k.num.value() * g == l * k.den.value() && scaled_by(
                num.terms@,
                r.num.terms@,
                k,
            ) && scaled_by(den.terms@, r.den.terms@, k)
        }),
{
    let ghost cs = coefficients(num.terms@, den.terms@);
    let ghost nn = num.terms@.len();
    let mut l = Int::from_u64(1);
    let mut i: usize = 0;
    while i < num.terms.len()
        invariant
            i <= nn,
            nn == num.terms@.len(),
            cs == coefficients(num.terms@, den.terms@),
            cs.len() == num.terms@.len() + den.terms@.len(),
            dens_positive(num.terms@),
            l.value() == den_lcm(cs, i as nat),
        decreases nn - i,
    {
        assert(num.terms@[i as int].1 == cs[i as int]);
        l = int_lcm(&l, &num.terms[i].1.den);
        i += 1;
    }
    let mut j: usize = 0;
    while j < den.terms.len()
        invariant
            j <= den.terms@.len(),
            nn == num.terms@.len(),
            cs == coefficients(num.terms@, den.terms@),
            cs.len() == num.terms@.len() + den.terms@.len(),
            dens_positive(den.terms@),
            l.value() == den_lcm(cs, (nn + j) as nat),
        decreases den.terms@.len() - j,
    {
        assert(den.terms@[j as int].1 == cs[nn + j]);
        l = int_lcm(&l, &den.terms[j].1.den);
        j += 1;
    }
    let mut g = Int::zero();
    let mut i: usize = 0;
    while i < num.terms.len()
        invariant
            i <= nn,
            nn == num.terms@.len(),
            cs == coefficients(num.terms@, den.terms@),
            cs.len() == num.terms@.len() + den.terms@.len(),
            dens_positive(num.terms@),
            l.value() == den_lcm(cs, cs.len()),
            g.value() == num_gcd(cs, l.value(), i as nat),
        decreases nn - i,
    {
        assert(num.terms@[i as int].1 == cs[i as int]);
        let c = &num.terms[i].1;
        let w = int_mul(&c.num, &int_div(&l, &c.den));
        g = int_gcd(&g, &w);
        i += 1;
    }
    let mut j: usize = 0;
    while j < den.terms.len()
        invariant
            j <= den.terms@.len(),
            nn == num.terms@.len(),
            cs == coefficients(num.terms@, den.terms@),
            cs.len() == num.terms@.len() + den.terms@.len(),
            dens_positive(den.terms@),
            l.value() == den_lcm(cs, cs.len()),
            g.value() == num_gcd(cs, l.value(), (nn + j) as nat),
        decreases den.terms@.len() - j,
    {
        assert(den.terms@[j as int].1 == cs[nn + j]);
        let c = &den.terms[j].1;
        let w = int_mul(&c.num, &int_div(&l, &c.den));
        g = int_gcd(&g, &w);
        j += 1;
    }
    let zero = Int::zero();
    if int_eq(&g, &zero) {
        return Fraction { num: scale(num, &Rat { num: Int::from_u64(1), den: Int::from_u64(1) }), den: scale(den, &Rat { num: Int::from_u64(1), den: Int::from_u64(1) }) };
    }
    let k = rat_new(&l, &g);
    let a = scale(num, &k);
    let b = scale(den, &k);
    proof {
        assert(scaled_by(num.terms@, a.terms@, k));
        assert(scaled_by(den.terms@, b.terms@, k));
    }
    Fraction { num: a, den: b }
}

/// `after` is `before` with every coefficient multiplied by `k`, in lowest terms.
pub open spec fn scaled_by(before: Seq<(Exps, Rat)>, after: Seq<(Exps, Rat)>, k: Rat) -> bool {
    &&& after.len() == before.len()
    &&& forall|t: int|
        0 <= t < after.len() ==> {
            &&& (#[trigger] after[t]).0@ == before[t].0@
            &&& after[t].1.reduced()
            &&& after[t].1.num.value() * (before[t].1.den.value() * k.den.value()) == before[t].1.num.value() * k.num.value()
                * after[t].1.den.value()
        }
}

/// Counting fewer components never counts more coefficients.
proof fn lemma_shape_terms_mono(s: Seq<(Seq<Seq<u32>>, Seq<Seq<u32>>)>, a: nat, b: nat)
    requires
        a <= b <= s.len(),
    ensures
        shape_terms(s, a) <= shape_terms(s, b),
    decreases b,
{
    if a < b {
        lemma_shape_terms_mono(s, a, (b - 1) as nat);
    }
}

/// The fractions of every component: the coefficients `q` in shape order, numerator terms
/// then denominator terms, each component scaled to coprime integers.
fn fractions(n: usize, shape: &Shape, q: &Vec<Rat>) -> (r: Vec<Fraction>)
    requires
        q@.len() == total_terms(shape_view(shape@)),
        forall|i: int| 0 <= i < q@.len() ==> (#[trigger] q@[i]).den.value() > 0,
    ensures
        r@.len() == shape@.len(),
        forall|i: int| 0 <= i < r@.len() ==> (#[trigger] r@[i]).num.n == n && r@[i].den.n == n,
{
    let ghost sv = shape_view(shape@);
    let ql = q.len();
    let mut out: Vec<Fraction> = Vec::new();
    let mut k: usize = 0;
    let mut i: usize = 0;
    while i < shape.len()
        invariant
            ql == q@.len(),
            i <= shape@.len(),
            sv == shape_view(shape@),
            q@.len() == total_terms(sv),
            forall|t: int| 0 <= t < q@.len() ==> (#[trigger] q@[t]).den.value() > 0,
            k == shape_terms(sv, i as nat),
            out@.len() == i,
            forall|t: int| 0 <= t < i ==> (#[trigger] out@[t]).num.n == n && out@[t].den.n == n,
        decreases shape@.len() - i,
    {
        let ne = &shape[i].0;
        let de = &shape[i].1;
        proof {
            lemma_shape_terms_mono(sv, (i + 1) as nat, sv.len());
            assert(sv[i as int].0.len() == ne@.len() && sv[i as int].1.len() == de@.len());
            assert(shape_terms(sv, (i + 1) as nat) == k + ne@.len() + de@.len());
        }
        let num = poly_from(ne, q, k, n);
        k = k + ne.len();
        let den = poly_from(de, q, k, n);
        k = k + de.len();
        out.push(integral(&num, &den));
        i += 1;
    }
    out
}

/// At most this many primes are tried.
pub const MAX_PRIMES: usize = 64;

/// Whether every rational reduces modulo `p` to the value beside it.
fn agrees(q: &Vec<Rat>, values: &Vec<u64>, p: u64) -> (r: bool)
    requires
        modulus(p),
    ensures
        r == forall|i: int| 0 <= i < q@.len() && i < values@.len() ==> #[trigger] residue_of(q@[i], p) == Some(values@[i]),
{
    let mut i: usize = 0;
    while i < q.len() && i < values.len()
        invariant
            modulus(p),
            i <= q@.len(),
            forall|j: int| 0 <= j < i ==> #[trigger] residue_of(q@[j], p) == Some(values@[j]),
        decreases q@.len() - i,
    {
        match reduce(&q[i], p) {
            Some(v) => {
                if v != values[i] {
                    return false;
                }
            },
            None => return false,
        }
        i += 1;
    }
    true
}

/// Every component of the vector black box `f` in `n` variables as a fraction over Q. `f` must
/// work modulo any prime it is given and may refuse points. Monte Carlo, like
/// [`crate::rational::reconstruct`]: a candidate is accepted when one more prime agrees.
pub fn lift<F: Fn(&[u64], u64) -> Option<Vec<u64>>>(f: F, n: usize, seed: u64) -> (r: Option<Vec<Fraction>>)
    requires
        forall|x: &[u64], q: u64| call_requires(f, (x, q)),
    ensures
        r matches Some(fs) ==> forall|i: int| 0 <= i < fs@.len() ==> (#[trigger] fs@[i]).num.n == n && fs@[i].den.n == n,
{
    let mut acc: Option<Residues> = None;
    let mut candidate: Option<Vec<Rat>> = None;
    let mut primes = crate::modp::Primes::new();
    let mut tried: usize = 0;
    while tried < MAX_PRIMES
        invariant
            forall|x: &[u64], q: u64| call_requires(f, (x, q)),
            primes.bound() <= 0x4000_0000_0000_0000u64,
            acc matches Some(a) ==> a.wf(),
            candidate matches Some(q) ==> acc matches Some(a) && q@.len() == a.xs@.len() && forall|i: int|
                0 <= i < q@.len() ==> (#[trigger] q@[i]).reduced(),
        decreases MAX_PRIMES - tried,
    {
        let p = match primes.next() {
            Some(p) => p,
            None => return None,
        };
        tried += 1;
        let fitted = match &acc {
            Some(a) => match fit(&f, &a.shape, n, p, seed) {
                Some(v) => Some((copy_shape(&a.shape), v)),
                None => None,
            },
            None => None,
        };
        let (shape, values) = match fitted {
            Some(sv) => sv,
            None => match image(&f, n, p, seed) {
                Some(sv) => sv,
                None => continue,
            },
        };
        let mut done = false;
        match (&acc, &candidate) {
            (Some(a), Some(q)) => {
                if same_shape(&a.shape, &shape) && agrees(q, &values, p) {
                    done = true;
                }
            },
            _ => {},
        }
        if done {
            match candidate {
                Some(q) => {
                    assert(forall|i: int| 0 <= i < q@.len() ==> (#[trigger] q@[i]).den.value() > 0);
                    return Some(fractions(n, &shape, &q));
                },
                None => return None,
            }
        }
        let decision: u8 = match &acc {
            Some(a) => {
                if same_shape(&a.shape, &shape) {
                    0
                } else if terms(&a.shape) > terms(&shape) {
                    1
                } else {
                    2
                }
            },
            None => 2,
        };
        if decision == 1 {
            continue;
        }
        if decision == 0 {
            match acc {
                Some(mut a) => {
                    let ghost xs0 = a.xs@;
                    let ghost m0 = a.m.value();
                    garner(&mut a.xs, &mut a.m, &values, p);
                    proof {
                        assert(m0 * (p - 1) + m0 == m0 * p) by (nonlinear_arith);
                        assert(m0 <= m0 * p) by (nonlinear_arith)
                            requires
                                m0 > 0,
                                p >= 1,
                        ;
                        assert forall|i: int| 0 <= i < a.xs@.len() implies 0 <= (#[trigger] a.xs@[i]).value() < a.m.value() by {
                            let x = xs0[i].value();
                            assert(0 <= x < m0);
                            if i < values@.len() {
                                assert(moved_by(x, a.xs@[i].value(), m0, p));
                            }
                        }
                        assert(a.wf());
                    }
                    acc = Some(a);
                },
                None => {},
            }
        } else {
            acc = Some(Residues::new(shape, &values, p));
        }
        candidate = match &acc {
            Some(a) => a.rationals(),
            None => None,
        };
    }
    None
}

} // verus!
