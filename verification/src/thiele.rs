//! Univariate rational interpolation by Thiele's continued fraction.
//!
//! The fraction `c_0 + (t - t_0) / (c_1 + (t - t_1) / (c_2 + ...))` grows one point at a time
//! until it predicts the next one, so no degree bounds are needed.

use crate::modp::{inv_spec, modulus};
use crate::arith::prime;
use crate::univariate::{self as uni, Dense, peval, residues};
use vstd::prelude::*;

verus! {

/// The points tried before giving up.
pub const MAX_POINTS: u64 = 4096;

/// One level of the fraction: `c + (t - t_i) / v` below, a pole where `v` vanishes.
pub open spec fn thiele_step(v: Option<u64>, t: u64, ti: u64, ci: u64, p: u64) -> Option<u64> {
    match v {
        None => Some(ci),
        Some(x) => if x == 0 {
            None
        } else {
            Some(((ci + ((t - ti) % (p as int)) * inv_spec(x as int, p as int) % (p as int))
                % (p as int)) as u64)
        },
    }
}

/// The fraction at `t` from level `i` down, evaluated from the innermost level out.
pub open spec fn thiele_eval(ts: Seq<u64>, cs: Seq<u64>, t: u64, p: u64, i: int) -> Option<u64>
    decreases cs.len() - i,
{
    if i >= cs.len() || i < 0 {
        None
    } else {
        thiele_step(thiele_eval(ts, cs, t, p, i + 1), t, ts[i], cs[i], p)
    }
}

/// The inverted difference of `(t, y)` through the first `i` levels, `None` on a breakdown.
pub open spec fn inverted(ts: Seq<u64>, cs: Seq<u64>, t: u64, y: u64, p: u64, i: nat) -> Option<u64>
    decreases i,
{
    if i == 0 {
        Some(y)
    } else {
        match inverted(ts, cs, t, y, p, (i - 1) as nat) {
            None => None,
            Some(v) => if v == cs[i - 1] {
                None
            } else {
                Some(
                    ((((t - ts[i - 1]) % (p as int)) * inv_spec(
                        (v - cs[i - 1]) % (p as int),
                        p as int,
                    )) % (p as int)) as u64,
                )
            },
        }
    }
}

/// Levels `i..` of the fraction at `t` collapsed to a numerator and a denominator over the
/// integers: the last level is `c / 1`, and level `i` is `(c_i N + (t - t_i) D) / N` where
/// `N / D` is level `i + 1`.
pub open spec fn collapsed(ts: Seq<u64>, cs: Seq<u64>, t: int, i: int) -> (int, int)
    decreases cs.len() - i,
{
    if i + 1 >= cs.len() {
        (cs[i] as int, 1)
    } else {
        let nd = collapsed(ts, cs, t, i + 1);
        (cs[i] * nd.0 + (t - ts[i]) * nd.1, nd.0)
    }
}

/// `num / den` is the fraction at every residue `t` that is no abscissa and no pole: the
/// denominator does not vanish there and the quotient is the fraction's value.
pub open spec fn represents(ts: Seq<u64>, cs: Seq<u64>, num: Seq<u64>, den: Seq<u64>, p: u64) -> bool {
    forall|t: u64|
        t < p && !ts.contains(t) ==> (#[trigger] thiele_eval(ts, cs, t, p, 0) matches Some(v) ==> {
            &&& peval(den, t as int) % (p as int) != 0
            &&& (peval(num, t as int) - v * peval(den, t as int)) % (p as int) == 0
        })
}

proof fn lemma_mod_zero_mul(a: int, b: int, m: int)
    requires
        m > 0,
        a % m == 0,
    ensures
        (a * b) % m == 0,
        (b * a) % m == 0,
{
    vstd::arithmetic::div_mod::lemma_mul_mod_noop_left(a, b, m);
    vstd::arithmetic::div_mod::lemma_small_mod(0, m as nat);
    assert(0 * b == 0);
    assert(b * a == a * b) by (nonlinear_arith);
}

/// The collapsed pair is the fraction: at a residue that is no abscissa from level `i` on,
/// a finite value `v` has `N = v D` with `D` nonzero, and a pole has `D = 0` with `N` nonzero.
proof fn lemma_collapsed(ts: Seq<u64>, cs: Seq<u64>, t: u64, p: u64, i: int)
    requires
        prime(p as int),
        0 <= i < cs.len(),
        ts.len() == cs.len(),
        residues(ts, p),
        residues(cs, p),
        t < p,
        forall|k: int| i <= k < ts.len() ==> ts[k] != t,
    ensures
        thiele_eval(ts, cs, t, p, i) matches Some(v) ==> {
            &&& v < p
            &&& collapsed(ts, cs, t as int, i).1 % (p as int) != 0
            &&& (collapsed(ts, cs, t as int, i).0 - v * collapsed(ts, cs, t as int, i).1) % (p as int) == 0
        },
        thiele_eval(ts, cs, t, p, i) is None ==> {
            &&& collapsed(ts, cs, t as int, i).1 % (p as int) == 0
            &&& collapsed(ts, cs, t as int, i).0 % (p as int) != 0
        },
    decreases cs.len() - i,
{
    let m = p as int;
    let c = cs[i] as int;
    assert(c < m);
    if i + 1 >= cs.len() {
        assert(thiele_eval(ts, cs, t, p, i + 1) is None);
        vstd::arithmetic::div_mod::lemma_small_mod(1, m as nat);
        vstd::arithmetic::div_mod::lemma_small_mod(0, m as nat);
        assert(c - c * 1 == 0);
    } else {
        lemma_collapsed(ts, cs, t, p, i + 1);
        let n1 = collapsed(ts, cs, t as int, i + 1).0;
        let d1 = collapsed(ts, cs, t as int, i + 1).1;
        let dt = t - ts[i];
        let nn = collapsed(ts, cs, t as int, i).0;
        let dd = collapsed(ts, cs, t as int, i).1;
        assert(nn == c * n1 + dt * d1 && dd == n1);
        assert(dt % m != 0) by {
            assert(ts[i] != t && ts[i] < p);
            if dt > 0 {
                vstd::arithmetic::div_mod::lemma_small_mod(dt as nat, m as nat);
            } else {
                vstd::arithmetic::div_mod::lemma_small_mod((dt + m) as nat, m as nat);
                vstd::arithmetic::div_mod::lemma_mod_add_multiples_vanish(dt, m);
            }
        }
        match thiele_eval(ts, cs, t, p, i + 1) {
            None => {
                assert(thiele_eval(ts, cs, t, p, i) == Some(cs[i]));
                lemma_mod_zero_mul(d1, dt, m);
                assert(nn - c * dd == dt * d1);
            },
            Some(x) => {
                assert(x < p);
                if x == 0 {
                    assert(thiele_eval(ts, cs, t, p, i) is None);
                    assert(n1 - 0 * d1 == n1);
                    lemma_mod_zero_mul(n1, c, m);
                    vstd::arithmetic::div_mod::lemma_add_mod_noop(c * n1, dt * d1, m);
                    vstd::arithmetic::div_mod::lemma_mod_twice(dt * d1, m);
                    vstd::arithmetic::div_mod::lemma_small_mod(0, m as nat);
                    if (dt * d1) % m == 0 {
                        crate::arith::lemma_euclid(dt, d1, m);
                    }
                } else {
                    let w = inv_spec(x as int, m);
                    let v = ((c + (dt % m) * w % m) % m) as u64;
                    assert(thiele_eval(ts, cs, t, p, i) == Some(v));
                    vstd::arithmetic::div_mod::lemma_small_mod(x as nat, m as nat);
                    crate::arith::lemma_fermat_inverse(x as nat, p as nat);
                    vstd::arithmetic::div_mod::lemma_mul_mod_noop_right(x as int, crate::arith::power(x as int, (p - 2) as nat), m);
                    assert((x * w) % m == 1);
                    // n1 = x d1 + k1, w x = 1 + k2, v = c + dt w + k3, each k a multiple of m
                    let k1 = n1 - x * d1;
                    let k2 = w * x - 1;
                    let k3 = v - (c + dt * w);
                    assert(k1 % m == 0);
                    assert(k2 % m == 0) by {
                        assert(w * x == x * w) by (nonlinear_arith);
                        vstd::arithmetic::div_mod::lemma_sub_mod_noop(w * x, 1, m);
                        vstd::arithmetic::div_mod::lemma_small_mod(1, m as nat);
                        vstd::arithmetic::div_mod::lemma_small_mod(0, m as nat);
                    }
                    assert(k3 % m == 0) by {
                        vstd::arithmetic::div_mod::lemma_mul_mod_noop_left(dt, w, m);
                        vstd::arithmetic::div_mod::lemma_add_mod_noop(c, dt * w, m);
                        vstd::arithmetic::div_mod::lemma_add_mod_noop(c, (dt % m) * w % m, m);
                        vstd::arithmetic::div_mod::lemma_mod_twice((dt % m) * w, m);
                        vstd::arithmetic::div_mod::lemma_mod_twice(c + (dt % m) * w % m, m);
                        vstd::arithmetic::div_mod::lemma_sub_mod_noop(v as int, c + dt * w, m);
                        vstd::arithmetic::div_mod::lemma_small_mod(0, m as nat);
                    }
                    vstd::arithmetic::div_mod::lemma_fundamental_div_mod(k1, m);
                    vstd::arithmetic::div_mod::lemma_fundamental_div_mod(k2, m);
                    vstd::arithmetic::div_mod::lemma_fundamental_div_mod(k3, m);
                    let q1 = k1 / m;
                    let q2 = k2 / m;
                    let q3 = k3 / m;
                    let e = -(dt * d1 * q2) - dt * w * q1 - q3 * n1;
                    assert(v * dd == c * n1 + dt * w * n1 + k3 * n1) by (nonlinear_arith)
                        requires
                            dd == n1,
                            v == c + dt * w + k3,
                    ;
                    assert(dt * w * n1 == dt * d1 * (w * x) + dt * w * k1) by (nonlinear_arith)
                        requires
                            n1 == x * d1 + k1,
                    ;
                    assert(dt * d1 * (w * x) == dt * d1 + dt * d1 * k2) by (nonlinear_arith)
                        requires
                            w * x == 1 + k2,
                    ;
                    assert(dt * d1 * k2 == m * (dt * d1 * q2)) by (nonlinear_arith)
                        requires
                            k2 == m * q2,
                    ;
                    assert(dt * w * k1 == m * (dt * w * q1)) by (nonlinear_arith)
                        requires
                            k1 == m * q1,
                    ;
                    assert(k3 * n1 == m * (q3 * n1)) by (nonlinear_arith)
                        requires
                            k3 == m * q3,
                    ;
                    assert(m * e == -(m * (dt * d1 * q2)) - m * (dt * w * q1) - m * (q3 * n1)) by (nonlinear_arith)
                        requires
                            e == -(dt * d1 * q2) - dt * w * q1 - q3 * n1,
                    ;
                    assert(nn - v * dd == m * e);
                    vstd::arithmetic::div_mod::lemma_mod_multiples_basic(e, m);
                    assert(m * e == e * m) by (nonlinear_arith);
                    // the denominator n1 = x d1 + k1 is nonzero
                    if n1 % m == 0 {
                        vstd::arithmetic::div_mod::lemma_sub_mod_noop(n1, k1, m);
                        assert(n1 - k1 == x * d1);
                        vstd::arithmetic::div_mod::lemma_small_mod(0, m as nat);
                        crate::arith::lemma_euclid(x as int, d1, m);
                    }
                    vstd::arithmetic::div_mod::lemma_mod_bound(c + (dt % m) * w % m, m);
                }
            },
        }
    }
}

/// A constant polynomial's value.
proof fn lemma_peval_single(a: Seq<u64>, x: int)
    requires
        a.len() == 1,
    ensures
        peval(a, x) == a[0],
{
    assert(crate::arith::power(x, 0) == 1);
    assert(uni::ev(uni::coef(a), 1, x) == uni::ev(uni::coef(a), 0, x) + uni::coef(a)(0) * crate::arith::power(x, 0));
}

/// A polynomial with only zero coefficients is zero.
proof fn lemma_peval_zeros(a: Seq<u64>, x: int)
    requires
        forall|i: int| 0 <= i < a.len() ==> a[i] == 0,
    ensures
        peval(a, x) == 0,
{
    assert forall|i: int| 0 <= i < a.len() implies #[trigger] uni::coef(a)(i) == 0 by {
        assert(a[i] == 0);
    }
    uni::lemma_ev_zero_tail(uni::coef(a), 0, a.len(), x);
}

/// Zeros appended to `a` leave its value.
proof fn lemma_peval_pad(a: Seq<u64>, b: Seq<u64>, x: int)
    requires
        a.len() <= b.len(),
        forall|i: int| 0 <= i < a.len() ==> b[i] == a[i],
        forall|i: int| a.len() <= i < b.len() ==> b[i] == 0,
    ensures
        peval(b, x) == peval(a, x),
{
    assert forall|i: int| a.len() <= i < b.len() implies #[trigger] uni::coef(b)(i) == 0 by {
        assert(b[i] == 0);
    }
    uni::lemma_ev_zero_tail(uni::coef(b), a.len(), b.len(), x);
    assert forall|i: int| 0 <= i < a.len() implies #[trigger] uni::coef(b)(i) == uni::coef(a)(i) by {
        assert(b[i] == a[i]);
    }
    uni::lemma_ev_ext(uni::coef(b), uni::coef(a), a.len(), x);
}

/// `c = a + k b` coefficientwise modulo `m` gives `c(x) = a(x) + k b(x)` modulo `m`.
proof fn lemma_peval_axpy(a: Seq<u64>, b: Seq<u64>, c: Seq<u64>, k: int, x: int, m: int)
    requires
        m > 0,
        b.len() <= a.len(),
        c.len() == a.len(),
        forall|j: int| 0 <= j < b.len() ==> #[trigger] c[j] as int == (a[j] + k * b[j]) % m,
        forall|j: int| b.len() <= j < a.len() ==> #[trigger] c[j] == a[j],
    ensures
        peval(c, x) % m == (peval(a, x) + k * peval(b, x)) % m,
{
    let n = a.len();
    let ca = uni::coef(a);
    let cb = uni::coef(b);
    let sb = |j: int| k * cb(j);
    let sum = |j: int| ca(j) + sb(j);
    assert forall|j: int| 0 <= j < n implies #[trigger] uni::coef(c)(j) % m == sum(j) % m by {
        if j < b.len() {
            vstd::arithmetic::div_mod::lemma_mod_twice(a[j] + k * b[j], m);
        } else {
            assert(cb(j) == 0);
            assert(k * 0 == 0);
        }
    }
    uni::lemma_ev_mod(uni::coef(c), sum, n, x, m);
    uni::lemma_ev_add(ca, sb, n, x);
    uni::lemma_ev_ext(sum, |j: int| ca(j) + sb(j), n, x);
    uni::lemma_ev_scale(k, cb, n, x);
    uni::lemma_ev_ext(sb, |j: int| k * cb(j), n, x);
    assert forall|j: int| b.len() <= j < n implies #[trigger] cb(j) == 0 by {}
    uni::lemma_ev_zero_tail(cb, b.len(), n, x);
}

/// Pairs whose values are the collapsed fraction's represent it.
proof fn lemma_represents(ts: Seq<u64>, cs: Seq<u64>, num: Seq<u64>, den: Seq<u64>, p: u64)
    requires
        prime(p as int),
        cs.len() > 0,
        ts.len() == cs.len(),
        residues(ts, p),
        residues(cs, p),
        forall|x: int| #[trigger] peval(num, x) % (p as int) == collapsed(ts, cs, x, 0).0 % (p as int),
        forall|x: int| #[trigger] peval(den, x) % (p as int) == collapsed(ts, cs, x, 0).1 % (p as int),
    ensures
        represents(ts, cs, num, den, p),
{
    let m = p as int;
    assert forall|t: u64| t < p && !ts.contains(t) implies (#[trigger] thiele_eval(ts, cs, t, p, 0) matches Some(v) ==> {
        &&& peval(den, t as int) % m != 0
        &&& (peval(num, t as int) - v * peval(den, t as int)) % m == 0
    }) by {
        assert forall|k: int| 0 <= k < ts.len() implies ts[k] != t by {
            if ts[k] == t {
                assert(ts.contains(t));
            }
        }
        lemma_collapsed(ts, cs, t, p, 0);
        if let Some(v) = thiele_eval(ts, cs, t, p, 0) {
            let nd = collapsed(ts, cs, t as int, 0);
            assert(peval(num, t as int) % m == nd.0 % m);
            assert(peval(den, t as int) % m == nd.1 % m);
            crate::arith::lemma_mul_mod_both(v as int, peval(den, t as int), v as int, nd.1, m);
            crate::arith::lemma_sub_mod_both(peval(num, t as int), v * peval(den, t as int), nd.0, v * nd.1, m);
        }
    }
}

/// Dividing both sides of a representing pair by a common factor keeps it representing.
proof fn lemma_represents_quotient(ts: Seq<u64>, cs: Seq<u64>, num: Seq<u64>, den: Seq<u64>, qn: Seq<u64>, qd: Seq<u64>, g: Seq<u64>, p: u64)
    requires
        prime(p as int),
        represents(ts, cs, num, den, p),
        forall|x: int| #[trigger] peval(num, x) % (p as int) == (peval(qn, x) * peval(g, x)) % (p as int),
        forall|x: int| #[trigger] peval(den, x) % (p as int) == (peval(qd, x) * peval(g, x)) % (p as int),
    ensures
        represents(ts, cs, qn, qd, p),
{
    let m = p as int;
    assert forall|t: u64| t < p && !ts.contains(t) implies (#[trigger] thiele_eval(ts, cs, t, p, 0) matches Some(v) ==> {
        &&& peval(qd, t as int) % m != 0
        &&& (peval(qn, t as int) - v * peval(qd, t as int)) % m == 0
    }) by {
        if let Some(v) = thiele_eval(ts, cs, t, p, 0) {
            let x = t as int;
            let nn = peval(num, x);
            let dd = peval(den, x);
            let a = peval(qn, x);
            let b = peval(qd, x);
            let c = peval(g, x);
            assert(dd % m != 0 && (nn - v * dd) % m == 0);
            assert(dd % m == (b * c) % m);
            if c % m == 0 {
                lemma_mod_zero_mul(c, b, m);
            }
            if b % m == 0 {
                lemma_mod_zero_mul(b, c, m);
            }
            crate::arith::lemma_mul_mod_both(v as int, dd, v as int, b * c, m);
            crate::arith::lemma_sub_mod_both(nn, v * dd, a * c, v * (b * c), m);
            assert(a * c - v * (b * c) == c * (a - v * b)) by (nonlinear_arith);
            crate::arith::lemma_euclid(c, a - v * b, m);
        }
    }
}

/// Whether every coefficient is zero.
fn all_zero(a: &Dense) -> (b: bool)
    ensures
        b ==> forall|i: int| 0 <= i < a@.len() ==> a@[i] == 0,
{
    let mut i: usize = 0;
    while i < a.len()
        invariant
            i <= a@.len(),
            forall|j: int| 0 <= j < i ==> a@[j] == 0,
        decreases a@.len() - i,
    {
        if a[i] != 0 {
            return false;
        }
        i += 1;
    }
    true
}

#[derive(Clone, Debug)]
pub struct Thiele {
    ts: Vec<u64>,
    cs: Vec<u64>,
}

impl Default for Thiele {
    fn default() -> (r: Self)
        ensures
            r.ts() == Seq::<u64>::empty(),
            r.cs() == Seq::<u64>::empty(),
    {
        Thiele { ts: Vec::new(), cs: Vec::new() }
    }
}

impl Thiele {
    /// The abscissae so far.
    pub closed spec fn ts(&self) -> Seq<u64> {
        self.ts@
    }

    /// The continued fraction's coefficients, one per abscissa.
    pub closed spec fn cs(&self) -> Seq<u64> {
        self.cs@
    }

    /// One coefficient per point, all residues.
    pub open spec fn wf(&self, p: u64) -> bool {
        &&& self.ts().len() == self.cs().len()
        &&& residues(self.ts(), p)
        &&& residues(self.cs(), p)
    }

    /// The fraction at `t`, or `None` at a pole (and before the first point).
    pub fn eval(&self, t: u64, p: u64) -> (r: Option<u64>)
        requires
            self.wf(p),
            t < p,
            modulus(p),
        ensures
            r == thiele_eval(self.ts(), self.cs(), t, p, 0),
            r matches Some(v) ==> v < p,
    {
        let mut v: Option<u64> = None;
        let mut i = self.cs.len();
        while i > 0
            invariant
                i <= self.cs@.len(),
                self.wf(p),
                t < p,
                modulus(p),
                v == thiele_eval(self.ts@, self.cs@, t, p, i as int),
                v matches Some(x) ==> x < p,
            decreases i,
        {
            i -= 1;
            let ti = self.ts[i];
            let ci = self.cs[i];
            assert(self.ts@[i as int] < p && self.cs@[i as int] < p);
            v = match v {
                None => Some(ci),
                Some(x) => {
                    if x == 0 {
                        None
                    } else {
                        let d = crate::modp::sub(t, ti, p);
                        let xi = crate::modp::inv(x, p);
                        let q = crate::modp::mul(d, xi, p);
                        Some(crate::modp::add(ci, q, p))
                    }
                },
            };
        }
        v
    }

    /// Adds `(t, y)` by inverted differences, returning `false` if they break down there.
    pub fn add(&mut self, t: u64, y: u64, p: u64) -> (added: bool)
        requires
            old(self).wf(p),
            t < p,
            y < p,
            modulus(p),
        ensures
            final(self).wf(p),
            added == inverted(old(self).ts(), old(self).cs(), t, y, p, old(self).cs().len()) is Some,
            added ==> final(self).ts() == old(self).ts().push(t) && final(self).cs() == old(
                self,
            ).cs().push(inverted(old(self).ts(), old(self).cs(), t, y, p, old(self).cs().len())->0),
            !added ==> final(self).ts() == old(self).ts() && final(self).cs() == old(self).cs(),
            added && prime(p as int) && !old(self).ts().contains(t) ==> thiele_eval(final(self).ts(), final(self).cs(), t, p, 0)
                == Some(y),
    {
        let mut v = y;
        let mut i: usize = 0;
        while i < self.ts.len()
            invariant
                i <= self.ts@.len(),
                self.wf(p),
                self.ts@ == old(self).ts@,
                self.cs@ == old(self).cs@,
                t < p,
                modulus(p),
                v < p,
                inverted(self.ts@, self.cs@, t, y, p, i as nat) == Some(v),
            decreases self.ts@.len() - i,
        {
            let ti = self.ts[i];
            let ci = self.cs[i];
            assert(self.ts@[i as int] < p && self.cs@[i as int] < p);
            if v == ci {
                proof {
                    lemma_inverted_stuck(self.ts@, self.cs@, t, y, p, (i + 1) as nat, self.cs@.len());
                }
                return false;
            }
            let d = crate::modp::sub(t, ti, p);
            let e = crate::modp::sub(v, ci, p);
            let ei = crate::modp::inv(e, p);
            v = crate::modp::mul(d, ei, p);
            i += 1;
        }
        let ghost ts0 = self.ts@;
        let ghost cs0 = self.cs@;
        self.ts.push(t);
        self.cs.push(v);
        proof {
            if prime(p as int) && !ts0.contains(t) {
                lemma_thiele_through(ts0, cs0, t, y, p, 0);
            }
        }
        true
    }
}

impl Thiele {
    /// Collapses the fraction to `num / den`, each divided by their monic gcd (left undivided
    /// if either division leaves a remainder). Over a prime
    /// field the pair is the fraction at every residue that is no abscissa and no pole.
    pub fn rational(&self, p: u64) -> (r: (Dense, Dense))
        requires
            self.wf(p),
            self.cs().len() > 0,
            self.cs().len() + 2 <= usize::MAX,
            modulus(p),
        ensures
            residues(r.0@, p),
            residues(r.1@, p),
            prime(p as int) ==> represents(self.ts(), self.cs(), r.0@, r.1@, p),
    {
        let n = self.cs.len();
        let ghost m = p as int;
        assert(self.cs@[n - 1] < p);
        let mut num: Dense = vec![self.cs[n - 1]];
        let mut den: Dense = vec![1];
        proof {
            assert(residues(num@, p));
            assert(residues(den@, p));
            assert forall|x: int| #[trigger] peval(num@, x) % m == collapsed(self.ts@, self.cs@, x, n - 1).0 % m by {
                lemma_peval_single(num@, x);
            }
            assert forall|x: int| #[trigger] peval(den@, x) % m == collapsed(self.ts@, self.cs@, x, n - 1).1 % m by {
                lemma_peval_single(den@, x);
            }
        }
        let mut i = n - 1;
        while i > 0
            invariant
                i < n,
                n == self.cs@.len(),
                n + 2 <= usize::MAX,
                self.wf(p),
                modulus(p),
                m == p as int,
                residues(num@, p),
                residues(den@, p),
                num@.len() <= n - i,
                den@.len() <= n - i,
                forall|x: int| #[trigger] peval(num@, x) % m == collapsed(self.ts@, self.cs@, x, i as int).0 % m,
                forall|x: int| #[trigger] peval(den@, x) % m == collapsed(self.ts@, self.cs@, x, i as int).1 % m,
            decreases i,
        {
            i -= 1;
            let ti = self.ts[i];
            let ci = self.cs[i];
            assert(self.ts@[i as int] < p && self.cs@[i as int] < p);
            let nt = crate::modp::sub(0, ti, p);
            let lin: [u64; 2] = [nt, 1];
            proof {
                assert(residues(lin@, p));
            }
            let mut next = uni::mul_poly(&den, &lin, p);
            let ghost prod = next@;
            if next.len() < num.len() {
                let ghost before = next@;
                next.resize(num.len(), 0);
                proof {
                    assert forall|j: int| 0 <= j < next@.len() implies #[trigger] next@[j] < p by {
                        if j < before.len() {
                            assert(next@.subrange(0, before.len() as int)[j] == before[j]);
                        } else {
                            assert(cloned::<u64>(0u64, next@[j]));
                        }
                    }
                    assert forall|j: int| 0 <= j < before.len() implies next@[j] == before[j] by {
                        assert(next@.subrange(0, before.len() as int)[j] == before[j]);
                    }
                    assert forall|j: int| before.len() <= j < next@.len() implies next@[j] == 0 by {
                        assert(cloned::<u64>(0u64, next@[j]));
                    }
                }
            }
            proof {
                assert forall|x: int| #[trigger] peval(next@, x) == peval(prod, x) by {
                    if next@.len() > prod.len() {
                        lemma_peval_pad(prod, next@, x);
                    } else {
                        assert(next@ == prod);
                    }
                }
            }
            assert(next@.len() <= den@.len() + 1 || next@.len() == num@.len());
            let ghost nl = next@.len();
            let ghost next0 = next@;
            let mut j: usize = 0;
            while j < num.len()
                invariant
                    j <= num@.len(),
                    next@.len() == nl,
                    nl == next0.len(),
                    num@.len() <= next@.len(),
                    residues(num@, p),
                    residues(next@, p),
                    ci < p,
                    modulus(p),
                    m == p as int,
                    forall|k: int| 0 <= k < j ==> #[trigger] next@[k] as int == (next0[k] + ci * num@[k]) % m,
                    forall|k: int| j <= k < nl ==> #[trigger] next@[k] == next0[k],
                decreases num@.len() - j,
            {
                let t = crate::modp::mul(ci, num[j], p);
                let v = crate::modp::add(next[j], t, p);
                proof {
                    vstd::arithmetic::div_mod::lemma_add_mod_noop(next0[j as int] as int, ci * num@[j as int], m);
                    vstd::arithmetic::div_mod::lemma_mod_twice(next0[j as int] as int, m);
                    vstd::arithmetic::div_mod::lemma_small_mod(next0[j as int] as nat, m as nat);
                }
                next.set(j, v);
                j += 1;
            }
            let ghost untrimmed = next@;
            uni::trim(&mut next);
            proof {
                uni::lemma_trim_eval(untrimmed, 0);
                assert forall|j: int| 0 <= j < next@.len() implies #[trigger] next@[j] < p by {
                    assert(next@[j] == untrimmed[j]);
                }
                assert forall|x: int| #[trigger] peval(next@, x) % m == collapsed(self.ts@, self.cs@, x, i as int).0 % m by {
                    uni::lemma_trim_eval(untrimmed, x);
                    lemma_peval_axpy(next0, num@, untrimmed, ci as int, x, m);
                    let n1 = collapsed(self.ts@, self.cs@, x, i + 1).0;
                    let d1 = collapsed(self.ts@, self.cs@, x, i + 1).1;
                    assert(peval(num@, x) % m == n1 % m);
                    assert(peval(den@, x) % m == d1 % m);
                    uni::lemma_peval_linear(lin@, ti as int, x, m);
                    assert(peval(prod, x) % m == (peval(den@, x) * peval(lin@, x)) % m);
                    crate::arith::lemma_mul_mod_both(peval(den@, x), peval(lin@, x), d1, x - ti, m);
                    crate::arith::lemma_mul_mod_both(ci as int, peval(num@, x), ci as int, n1, m);
                    crate::arith::lemma_add_mod_both(peval(next0, x), ci * peval(num@, x), d1 * (x - ti), ci * n1, m);
                    assert(d1 * (x - ti) + ci * n1 == ci * n1 + (x - ti) * d1) by (nonlinear_arith);
                    assert(collapsed(self.ts@, self.cs@, x, i as int).0 == self.cs@[i as int] * n1 + (x - self.ts@[i as int]) * d1);
                }
                assert forall|x: int| #[trigger] peval(num@, x) % m == collapsed(self.ts@, self.cs@, x, i as int).1 % m by {
                    assert(peval(num@, x) % m == collapsed(self.ts@, self.cs@, x, i + 1).0 % m);
                }
            }
            den = num;
            num = next;
        }
        let mut tn = vstd::slice::slice_to_vec(&num);
        uni::trim(&mut tn);
        let mut td = vstd::slice::slice_to_vec(&den);
        uni::trim(&mut td);
        proof {
            uni::lemma_trim_eval(num@, 0);
            uni::lemma_trim_eval(den@, 0);
            assert forall|j: int| 0 <= j < tn@.len() implies #[trigger] tn@[j] < p by {
                assert(tn@[j] == num@[j]);
            }
            assert forall|j: int| 0 <= j < td@.len() implies #[trigger] td@[j] < p by {
                assert(td@[j] == den@[j]);
            }
            if prime(p as int) {
                lemma_represents(self.ts@, self.cs@, num@, den@, p);
            }
        }
        let g = uni::gcd(&tn, &td, p);
        if g.len() == 0 {
            return (num, den);
        }
        let (qn, rn) = uni::div_rem(&num, &g, p);
        let (qd, rd) = uni::div_rem(&den, &g, p);
        if !all_zero(&rn) || !all_zero(&rd) {
            return (num, den);
        }
        proof {
            assert forall|x: int| #[trigger] peval(num@, x) % m == (peval(qn@, x) * peval(g@, x)) % m by {
                lemma_peval_zeros(rn@, x);
            }
            assert forall|x: int| #[trigger] peval(den@, x) % m == (peval(qd@, x) * peval(g@, x)) % m by {
                lemma_peval_zeros(rd@, x);
            }
            if prime(p as int) {
                lemma_represents_quotient(self.ts@, self.cs@, num@, den@, qn@, qd@, g@, p);
            }
        }
        (qn, qd)
    }
}

/// The rational function behind `g`, from points named by `seed`. `g` may refuse points.
pub fn reconstruct(g: impl Fn(u64) -> Option<u64>, p: u64, seed: u64) -> (r: Option<(Dense, Dense)>)
    requires
        modulus(p),
        forall|t: u64| t < p ==> call_requires(g, (t,)),
    ensures
        r matches Some(nd) ==> residues(nd.0@, p) && residues(nd.1@, p),
        r matches Some(nd) ==> prime(p as int) ==> exists|t: u64, y: u64|
            t < p && #[trigger] call_ensures(g, (t,), Some(y)) && peval(nd.1@, t as int) % (p as int) != 0
                && (peval(nd.0@, t as int) - (y % p) * peval(nd.1@, t as int)) % (p as int) == 0,
{
    let mut th = Thiele::default();
    let mut i: u64 = 0;
    while i < MAX_POINTS
        invariant
            i <= MAX_POINTS,
            th.wf(p),
            th.cs().len() <= i,
            modulus(p),
            forall|t: u64| t < p ==> call_requires(g, (t,)),
        decreases MAX_POINTS - i,
    {
        let t = crate::modp::point(&[seed, i], p);
        i += 1;
        if th.contains(t) {
            continue;
        }
        let y = match g(t) {
            Some(v) => v % p,
            None => continue,
        };
        let e = th.eval(t, p);
        if e == Some(y) {
            let nd = th.rational(p);
            proof {
                if prime(p as int) {
                    assert(thiele_eval(th.ts(), th.cs(), t, p, 0) == Some(y));
                }
            }
            return Some(nd);
        }
        th.add(t, y, p);
    }
    None
}

impl Thiele {
    /// Whether `t` is already an abscissa.
    pub fn contains(&self, t: u64) -> (b: bool)
        ensures
            b == self.ts().contains(t),
    {
        let mut i: usize = 0;
        while i < self.ts.len()
            invariant
                i <= self.ts@.len(),
                forall|j: int| 0 <= j < i ==> self.ts@[j] != t,
            decreases self.ts@.len() - i,
        {
            if self.ts[i] == t {
                return true;
            }
            i += 1;
        }
        false
    }
}

/// `a * inv(a) = 1` for a nonzero residue `a` modulo a prime.
proof fn lemma_inv_unit(a: int, p: int)
    requires
        prime(p),
        0 < a < p,
    ensures
        (a * inv_spec(a, p)) % p == 1,
        0 < inv_spec(a, p) < p,
{
    vstd::arithmetic::div_mod::lemma_small_mod(a as nat, p as nat);
    crate::arith::lemma_fermat_inverse(a as nat, p as nat);
    vstd::arithmetic::div_mod::lemma_mul_mod_noop_right(a, crate::arith::power(a, (p - 2) as nat), p);
    vstd::arithmetic::div_mod::lemma_mod_bound(crate::arith::power(a, (p - 2) as nat), p);
    if inv_spec(a, p) == 0 {
        assert(a * 0 == 0);
        vstd::arithmetic::div_mod::lemma_small_mod(0, p as nat);
    }
}

/// Undoing one inverted difference: `c + d / ((d / e) mod p) = c + e` modulo a prime.
proof fn lemma_undo_difference(c: int, d: int, e: int, p: int)
    requires
        prime(p),
        0 < d < p,
        0 < e < p,
    ensures
        ({
            let v1 = (d * inv_spec(e, p)) % p;
            &&& 0 < v1 < p
            &&& (d * inv_spec(v1, p)) % p == e
        }),
{
    let w = inv_spec(e, p);
    lemma_inv_unit(e, p);
    let v1 = (d * w) % p;
    vstd::arithmetic::div_mod::lemma_mod_bound(d * w, p);
    if v1 == 0 {
        crate::arith::lemma_euclid(d, w, p);
        vstd::arithmetic::div_mod::lemma_small_mod(d as nat, p as nat);
        vstd::arithmetic::div_mod::lemma_small_mod(w as nat, p as nat);
    }
    let u = inv_spec(v1, p);
    lemma_inv_unit(v1, p);
    // e = e (v1 u) = (e w) d u = d u, all modulo p
    vstd::arithmetic::div_mod::lemma_mul_mod_noop_left(d * w, u, p);
    assert((d * w * u) % p == 1);
    vstd::arithmetic::div_mod::lemma_small_mod(1, p as nat);
    crate::arith::lemma_mul_mod_both(e, d * w * u, e, 1, p);
    assert((e * (d * w * u)) == (e * w) * (d * u)) by (nonlinear_arith);
    crate::arith::lemma_mul_mod_both(e * w, d * u, 1, d * u, p);
    vstd::arithmetic::div_mod::lemma_small_mod(e as nat, p as nat);
    assert(e * 1 == e);
    assert(1 * (d * u) == d * u);
}

/// Added at a new abscissa, the point is on the fraction: level `i` evaluates there to the
/// `i`-th inverted difference.
proof fn lemma_thiele_through(ts: Seq<u64>, cs: Seq<u64>, t: u64, y: u64, p: u64, i: nat)
    requires
        prime(p as int),
        ts.len() == cs.len(),
        residues(ts, p),
        residues(cs, p),
        t < p,
        y < p,
        !ts.contains(t),
        inverted(ts, cs, t, y, p, cs.len()) is Some,
        i <= cs.len(),
    ensures
        thiele_eval(ts.push(t), cs.push(inverted(ts, cs, t, y, p, cs.len())->0), t, p, i as int)
            == inverted(ts, cs, t, y, p, i),
        inverted(ts, cs, t, y, p, i) matches Some(v) ==> v < p,
    decreases cs.len() - i,
{
    let n = cs.len();
    let m = p as int;
    let ts2 = ts.push(t);
    let cs2 = cs.push(inverted(ts, cs, t, y, p, n)->0);
    if inverted(ts, cs, t, y, p, i) is None {
        lemma_inverted_stuck(ts, cs, t, y, p, i, n);
    }
    if i == n {
        assert(thiele_eval(ts2, cs2, t, p, (n + 1) as int) is None);
    } else {
        lemma_thiele_through(ts, cs, t, y, p, i + 1);
        if inverted(ts, cs, t, y, p, i + 1) is None {
            lemma_inverted_stuck(ts, cs, t, y, p, i + 1, n);
        }
        assert(inverted(ts, cs, t, y, p, i + 1) is Some);
        let v = inverted(ts, cs, t, y, p, i)->0;
        let c = cs[i as int] as int;
        let ti = ts[i as int] as int;
        assert(cs2[i as int] == cs[i as int] && ts2[i as int] == ts[i as int]);
        assert(v != c);
        assert(c < m && ti < m);
        assert(ti != t) by {
            if ti == t {
                assert(ts.contains(t));
            }
        }
        let d = (t - ti) % m;
        let e = (v - c) % m;
        assert(0 < d < m) by {
            if t > ti {
                vstd::arithmetic::div_mod::lemma_small_mod((t - ti) as nat, m as nat);
            } else {
                vstd::arithmetic::div_mod::lemma_mod_add_multiples_vanish(t - ti, m);
                vstd::arithmetic::div_mod::lemma_small_mod((t - ti + m) as nat, m as nat);
            }
        }
        assert(0 < e < m) by {
            if v > c {
                vstd::arithmetic::div_mod::lemma_small_mod((v - c) as nat, m as nat);
            } else {
                vstd::arithmetic::div_mod::lemma_mod_add_multiples_vanish(v - c, m);
                vstd::arithmetic::div_mod::lemma_small_mod((v - c + m) as nat, m as nat);
            }
        }
        lemma_undo_difference(c, d, e, m);
        let v1 = (d * inv_spec(e, m)) % m;
        assert(inverted(ts, cs, t, y, p, i + 1) == Some(v1 as u64));
        // c + e = v modulo p
        vstd::arithmetic::div_mod::lemma_add_mod_noop(c, v - c, m);
        vstd::arithmetic::div_mod::lemma_mod_twice(v - c, m);
        vstd::arithmetic::div_mod::lemma_add_mod_noop(c, e, m);
        vstd::arithmetic::div_mod::lemma_small_mod(v as nat, m as nat);
        vstd::arithmetic::div_mod::lemma_small_mod(c as nat, m as nat);
        vstd::arithmetic::div_mod::lemma_small_mod(e as nat, m as nat);
        assert((c + e) % m == v);
    }
}

/// Once the differences break down they stay broken.
proof fn lemma_inverted_stuck(ts: Seq<u64>, cs: Seq<u64>, t: u64, y: u64, p: u64, i: nat, j: nat)
    requires
        i <= j,
        inverted(ts, cs, t, y, p, i) is None,
    ensures
        inverted(ts, cs, t, y, p, j) is None,
    decreases j - i,
{
    if i < j {
        lemma_inverted_stuck(ts, cs, t, y, p, i, (j - 1) as nat);
    }
}

} // verus!
