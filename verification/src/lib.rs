//! Sparse polynomial interpolation over word-sized prime fields.
//!
//! Polynomials are recovered from evaluations alone: Zippel's variable-by-variable lifting,
//! Ben-Or/Tiwari's early-terminating interpolation, Thiele's continued fractions for rational
//! functions, Laporta's elimination of sparse linear systems learned once and replayed, lifting
//! to Q by Chinese remaindering, and the gcd of polynomials over Q by modular interpolation.

pub mod arith;
pub mod modp;
pub mod univariate;
pub mod vandermonde;
pub mod poly;
pub mod benor;
pub mod laporta;
pub mod text;
pub mod linzip;
pub mod pgcd;
pub mod ibp;
pub mod rational;
pub mod zippel;
pub mod thiele;
pub mod bigint;
pub mod lift;
pub mod intpoly;
pub mod gcd;

pub use crate::modp::{Primes, Rng};
pub use crate::poly::{Exps, ModPoly};
pub use crate::rational::{RatFunc, reconstruct};
pub use crate::zippel::{BlackBox, FnBox, interpolate};

use crate::bigint::{int_div, int_gt, int_lcm, int_mul, rat_mul, rat_new, Int, Rat};
use crate::intpoly::IntPoly;
use crate::lift::{dens_positive, RatPoly};
use vstd::prelude::*;

verus! {

/// `d` is positive and every denominator of the terms divides it.
pub open spec fn clears(ts: Seq<(Exps, Rat)>, d: int) -> bool {
    &&& d > 0
    &&& forall|t: int| 0 <= t < ts.len() ==> crate::bigint::divides((#[trigger] ts[t]).1.den.value(), d)
}

/// `d` times the coefficient of `x` among the first `k` terms, for a `d` that clears them.
pub open spec fn scaled_upto(ts: Seq<(Exps, Rat)>, x: Seq<u32>, d: int, k: nat) -> int
    decreases k,
{
    if k == 0 {
        0
    } else {
        scaled_upto(ts, x, d, (k - 1) as nat) + (if ts[k - 1].0@ == x {
            ts[k - 1].1.num.value() * (d / ts[k - 1].1.den.value())
        } else {
            0
        })
    }
}

/// `d` times the coefficient of `x`.
pub open spec fn scaled_coef(ts: Seq<(Exps, Rat)>, x: Seq<u32>, d: int) -> int {
    scaled_upto(ts, x, d, ts.len())
}

/// The terms are those of `c` divided by `d`, one for one.
pub open spec fn over(ts: Seq<(Exps, Rat)>, c: Seq<(Exps, Int)>, d: int) -> bool {
    &&& ts.len() == c.len()
    &&& forall|t: int|
        0 <= t < ts.len() ==> (#[trigger] ts[t]).0@ == c[t].0@ && ts[t].1.num.value() * d == c[t].1.value() * ts[t].1.den.value()
}

/// The numerators of the terms.
pub open spec fn numerators(ts: Seq<(Exps, Rat)>) -> Seq<(Exps, Int)> {
    ts.map_values(|t: (Exps, Rat)| (t.0, t.1.num))
}

/// Every coefficient is an integer: its denominator is one.
pub open spec fn integer_poly(h: RatPoly) -> bool {
    forall|t: int| 0 <= t < h.terms@.len() ==> (#[trigger] h.terms@[t]).1.den.value() == 1
}

/// `q * h == f` over Q, for `h` with integer coefficients: `q` is `c / d` for an integer
/// polynomial `c` and a positive `d` that clears `f`, and `c * h` is `d * f`.
pub open spec fn quotient_of(q: RatPoly, h: RatPoly, f: RatPoly) -> bool {
    exists|c: Seq<(Exps, Int)>, d: int|
        #![trigger over(q.terms@, c, d)]
        clears(f.terms@, d) && over(q.terms@, c, d) && forall|x: Seq<u32>|
            #[trigger] crate::intpoly::product_coef(c, numerators(h.terms@), x) == scaled_coef(f.terms@, x, d)
}

/// Integer terms that are the scaled rational ones, one for one, have the scaled coefficients.
proof fn lemma_scaled(f: Seq<(Exps, Rat)>, ts: Seq<(Exps, Int)>, x: Seq<u32>, d: int, k: nat)
    requires
        k <= f.len(),
        k <= ts.len(),
        forall|u: int| 0 <= u < k ==> (#[trigger] ts[u]).0@ == f[u].0@ && ts[u].1.value() == f[u].1.num.value() * (d
            / f[u].1.den.value()),
    ensures
        crate::intpoly::coef_upto(ts, x, k) == scaled_upto(f, x, d, k),
    decreases k,
{
    if k > 0 {
        lemma_scaled(f, ts, x, d, (k - 1) as nat);
        assert(ts[k - 1].0@ == f[k - 1].0@);
    }
}

/// A reduced fraction equal to an integer has denominator one.
proof fn lemma_unit_den(q: Rat, c: int)
    requires
        q.reduced(),
        q.num.value() == c * q.den.value(),
    ensures
        q.den.value() == 1,
        q.num.value() == c,
{
    let den = q.den.value();
    let a = crate::bigint::abs(q.num.value());
    assert(a == crate::bigint::abs(c) * den) by (nonlinear_arith)
        requires
            q.num.value() == c * den,
            den > 0,
            a == crate::bigint::abs(q.num.value()),
    ;
    vstd::arithmetic::div_mod::lemma_mod_multiples_basic(crate::bigint::abs(c) as int, den);
    reveal_with_fuel(crate::bigint::gcd_nat, 2);
    assert(crate::bigint::gcd_nat(a, den as nat) == den);
    assert(q.num.value() == c) by (nonlinear_arith)
        requires
            q.num.value() == c * den,
            den == 1,
    ;
}

/// `f = F / d` with `F` integral: `d` the least common multiple of the denominators.
fn integral(f: &RatPoly) -> (r: (IntPoly, Int))
    requires
        dens_positive(f.terms@),
        forall|t: int| 0 <= t < f.terms@.len() ==> (#[trigger] f.terms@[t]).0@.len() == f.n,
    ensures
        r.0.n == f.n,
        r.0.canonical(),
        clears(f.terms@, r.1.value()),
        forall|x: Seq<u32>| #[trigger] crate::intpoly::coef(r.0.terms@, x) == scaled_coef(f.terms@, x, r.1.value()),
        f.terms@.len() == 0 ==> r.0.terms@.len() == 0,
{
    let mut d = Int::from_u64(1);
    let mut t: usize = 0;
    while t < f.terms.len()
        invariant
            t <= f.terms@.len(),
            dens_positive(f.terms@),
            d.value() > 0,
            forall|u: int| 0 <= u < t ==> crate::bigint::divides((#[trigger] f.terms@[u]).1.den.value(), d.value()),
        decreases f.terms@.len() - t,
    {
        let c = &f.terms[t].1;
        let ghost d0 = d.value();
        d = int_lcm(&d, &c.den);
        proof {
            crate::intpoly::lemma_lcm_pos(d0, c.den.value());
            crate::bigint::lemma_lcm_multiple(crate::bigint::abs(d0), crate::bigint::abs(c.den.value()));
            assert forall|u: int| 0 <= u < t + 1 implies crate::bigint::divides((#[trigger] f.terms@[u]).1.den.value(), d.value()) by {
                if u < t {
                    crate::bigint::lemma_divides_trans(f.terms@[u].1.den.value(), d0, d.value());
                }
            }
        }
        t += 1;
    }
    let mut terms: Vec<(Exps, Int)> = Vec::new();
    let mut t: usize = 0;
    while t < f.terms.len()
        invariant
            t <= f.terms@.len(),
            dens_positive(f.terms@),
            d.value() > 0,
            forall|u: int| 0 <= u < f.terms@.len() ==> (#[trigger] f.terms@[u]).0@.len() == f.n,
            terms@.len() == t,
            forall|u: int| 0 <= u < t ==> (#[trigger] terms@[u]).0@ == f.terms@[u].0@ && terms@[u].1.value()
                == f.terms@[u].1.num.value() * (d.value() / f.terms@[u].1.den.value()),
        decreases f.terms@.len() - t,
    {
        let c = &f.terms[t].1;
        let k = int_div(&d, &c.den);
        terms.push((f.terms[t].0.clone(), int_mul(&c.num, &k)));
        t += 1;
    }
    proof {
        assert forall|u: int| 0 <= u < terms@.len() implies (#[trigger] terms@[u]).0@.len() == f.n by {
            assert(terms@[u].0@ == f.terms@[u].0@);
        }
    }
    let r = IntPoly::new(f.n, terms);
    proof {
        assert forall|x: Seq<u32>| #[trigger] crate::intpoly::coef(r.terms@, x) == scaled_coef(f.terms@, x, d.value()) by {
            lemma_scaled(f.terms@, terms@, x, d.value(), f.terms@.len());
        }
        if f.terms@.len() == 0 && r.terms@.len() > 0 {
            crate::intpoly::lemma_coef_at(r.terms@, 0);
            assert(crate::intpoly::coef(r.terms@, r.terms@[0].0@) == scaled_coef(f.terms@, r.terms@[0].0@, d.value()));
        }
    }
    (r, d)
}

/// `h / d` with rational coefficients in lowest terms.
fn rational(h: &IntPoly, d: &Int) -> (r: RatPoly)
    requires
        d.value() != 0,
    ensures
        r.n == h.n,
        dens_positive(r.terms@),
        r.terms@.len() == h.terms@.len(),
        forall|t: int| 0 <= t < r.terms@.len() ==> (#[trigger] r.terms@[t]).0@ == h.terms@[t].0@,
        forall|t: int| 0 <= t < r.terms@.len() ==> (#[trigger] r.terms@[t]).1.reduced(),
        over(r.terms@, h.terms@, d.value()),
{
    let mut terms: Vec<(Exps, Rat)> = Vec::new();
    let mut t: usize = 0;
    while t < h.terms.len()
        invariant
            t <= h.terms@.len(),
            d.value() != 0,
            terms@.len() == t,
            dens_positive(terms@),
            forall|u: int| 0 <= u < t ==> (#[trigger] terms@[u]).0@ == h.terms@[u].0@,
            forall|u: int| 0 <= u < t ==> (#[trigger] terms@[u]).1.reduced() && terms@[u].1.num.value() * d.value()
                == h.terms@[u].1.value() * terms@[u].1.den.value(),
        decreases h.terms@.len() - t,
    {
        let q = rat_new(&h.terms[t].1, d);
        terms.push((h.terms[t].0.clone(), q));
        t += 1;
    }
    RatPoly { n: h.n, terms }
}

/// `s` is nonzero and `s` times the coefficients of `r` are those of `h`.
pub open spec fn scales(r: Seq<(Exps, Int)>, h: Seq<(Exps, Int)>, s: int) -> bool {
    &&& s != 0
    &&& forall|x: Seq<u32>| #[trigger] crate::intpoly::coef(r, x) * s == crate::intpoly::coef(h, x)
}

/// Primitive over Z with a positive leading coefficient, as an integer polynomial.
fn normalized_int(h: &IntPoly) -> (r: IntPoly)
    requires
        h.canonical(),
    ensures
        r.n == h.n,
        r.canonical(),
        r.terms@.len() == 0 <==> h.terms@.len() == 0,
        r.terms@.len() > 0 ==> r.terms@[0].1.value() > 0,
        exists|s: int| #[trigger] scales(r.terms@, h.terms@, s),
{
    let p = if h.is_zero() {
        h.copy()
    } else {
        h.primitive()
    };
    let ghost s: int = if h.terms@.len() == 0 {
        1
    } else {
        crate::intpoly::signed_content(h.terms@)
    };
    proof {
        if h.terms@.len() == 0 {
            assert forall|x: Seq<u32>| #[trigger] crate::intpoly::coef(p.terms@, x) * s == crate::intpoly::coef(h.terms@, x) by {
                assert(crate::intpoly::coef(p.terms@, x) == 0);
            }
        }
        assert(scales(p.terms@, h.terms@, s));
    }
    if p.terms.len() > 0 && int_gt(&Int::zero(), &p.terms[0].1) {
        let r = p.negated();
        proof {
            assert forall|x: Seq<u32>| #[trigger] crate::intpoly::coef(r.terms@, x) * (-s) == crate::intpoly::coef(h.terms@, x) by {
                lemma_negated_coef(r.terms@, p.terms@, x, r.terms@.len());
                assert(crate::intpoly::coef(p.terms@, x) * s == crate::intpoly::coef(h.terms@, x));
                assert(crate::intpoly::coef(r.terms@, x) * (-s) == crate::intpoly::coef(p.terms@, x) * s) by (nonlinear_arith)
                    requires
                        crate::intpoly::coef(r.terms@, x) == -crate::intpoly::coef(p.terms@, x),
                ;
            }
            assert(scales(r.terms@, h.terms@, -s));
        }
        r
    } else {
        p
    }
}

/// Negated terms, one for one, have negated coefficients.
proof fn lemma_negated_coef(a: Seq<(Exps, Int)>, b: Seq<(Exps, Int)>, x: Seq<u32>, k: nat)
    requires
        k <= a.len(),
        k <= b.len(),
        forall|u: int| 0 <= u < k ==> (#[trigger] a[u]).0@ == b[u].0@ && a[u].1.value() == -b[u].1.value(),
    ensures
        crate::intpoly::coef_upto(a, x, k) == -crate::intpoly::coef_upto(b, x, k),
    decreases k,
{
    if k > 0 {
        lemma_negated_coef(a, b, x, (k - 1) as nat);
        assert(a[k - 1].0@ == b[k - 1].0@);
    }
}

/// An integer polynomial as one over Q: each coefficient over one.
fn over_one(h: &IntPoly) -> (r: RatPoly)
    requires
        h.canonical(),
    ensures
        r.n == h.n,
        rat_ok(r),
        integer_poly(r),
        r.terms@.len() == h.terms@.len(),
        forall|t: int| 0 <= t < r.terms@.len() ==> (#[trigger] numerators(r.terms@)[t]).0@ == h.terms@[t].0@
            && numerators(r.terms@)[t].1.value() == h.terms@[t].1.value(),
{
    let one = Int::from_u64(1);
    let r = rational(h, &one);
    proof {
        assert forall|t: int| 0 <= t < r.terms@.len() implies (#[trigger] r.terms@[t]).1.den.value() == 1 && r.terms@[t].1.num.value()
            == h.terms@[t].1.value() && r.terms@[t].0@.len() == r.n by {
            lemma_unit_den(r.terms@[t].1, h.terms@[t].1.value());
        }
    }
    r
}

/// Primitive over Z with a positive leading coefficient.
fn normalized(h: &IntPoly) -> (r: RatPoly)
    requires
        h.canonical(),
    ensures
        r.n == h.n,
        rat_ok(r),
        integer_poly(r),
        r.terms@.len() == 0 <==> h.terms@.len() == 0,
        r.terms@.len() > 0 ==> r.terms@[0].1.num.value() > 0,
        exists|s: int| #[trigger] scales(numerators(r.terms@), h.terms@, s),
{
    let p = normalized_int(h);
    let r = over_one(&p);
    proof {
        let s = choose|s: int| #[trigger] scales(p.terms@, h.terms@, s);
        assert forall|x: Seq<u32>| #[trigger] crate::intpoly::coef(numerators(r.terms@), x) * s == crate::intpoly::coef(h.terms@, x) by {
            crate::intpoly::lemma_coef_prefix(numerators(r.terms@), p.terms@, x, p.terms@.len());
            assert(crate::intpoly::coef(p.terms@, x) * s == crate::intpoly::coef(h.terms@, x));
        }
        assert(scales(numerators(r.terms@), h.terms@, s));
        if r.terms@.len() > 0 {
            assert(numerators(r.terms@)[0].1.value() == p.terms@[0].1.value());
        }
    }
    r
}

/// The witnesses of `multiple_of`: `s * l` is `big_f * c`, where `big_f` is `d * f` for a `d`
/// that clears `f`, `c` has integer coefficients and `s` is a nonzero integer.
pub open spec fn multiple_by(l: RatPoly, f: RatPoly, big_f: Seq<(Exps, Int)>, c: Seq<(Exps, Int)>, d: int, s: int) -> bool {
    &&& s != 0
    &&& clears(f.terms@, d)
    &&& forall|x: Seq<u32>| #[trigger] crate::intpoly::coef(big_f, x) == scaled_coef(f.terms@, x, d)
    &&& forall|x: Seq<u32>| #[trigger]
        crate::intpoly::coef(numerators(l.terms@), x) * s == crate::intpoly::product_coef(big_f, c, x)
}

/// The integer polynomial `l` is a multiple of `f` over Q: `l = f * (d * c / s)`.
pub open spec fn multiple_of(l: RatPoly, f: RatPoly) -> bool {
    exists|big_f: Seq<(Exps, Int)>, c: Seq<(Exps, Int)>, d: int, s: int| #[trigger] multiple_by(l, f, big_f, c, d, s)
}

/// `h * s` is `d * f` for a nonzero `s` and a `d` that clears `f`.
pub open spec fn proportional_by(h: Seq<(Exps, Int)>, f: Seq<(Exps, Rat)>, d: int, s: int) -> bool {
    &&& s != 0
    &&& clears(f, d)
    &&& forall|x: Seq<u32>| #[trigger] crate::intpoly::coef(h, x) * s == scaled_coef(f, x, d)
}

/// The integer polynomial `h` is `f` times a nonzero rational.
pub open spec fn proportional(h: RatPoly, f: RatPoly) -> bool {
    exists|d: int, s: int| #[trigger] proportional_by(numerators(h.terms@), f.terms@, d, s)
}

/// The gcd of `a` and zero is `a` up to a nonzero factor.
proof fn lemma_gcd_with_zero(a: IntPoly, h: IntPoly, f: RatPoly, d: int)
    requires
        clears(f.terms@, d),
        forall|x: Seq<u32>| #[trigger] crate::intpoly::coef(a.terms@, x) == scaled_coef(f.terms@, x, d),
        a.terms@.len() > 0 ==> forall|x: Seq<u32>| #[trigger]
            crate::intpoly::coef(h.terms@, x) * crate::intpoly::signed_content(a.terms@) == crate::intpoly::coef(a.terms@, x),
        a.terms@.len() > 0 ==> crate::intpoly::signed_content(a.terms@) != 0,
        a.terms@.len() == 0 ==> h.terms@.len() == 0,
    ensures
        exists|d2: int, s: int| #[trigger] proportional_by(h.terms@, f.terms@, d2, s),
{
    if a.terms@.len() > 0 {
        assert(proportional_by(h.terms@, f.terms@, d, crate::intpoly::signed_content(a.terms@)));
    } else {
        assert forall|x: Seq<u32>| #[trigger] crate::intpoly::coef(h.terms@, x) * 1 == scaled_coef(f.terms@, x, d) by {
            assert(crate::intpoly::coef(a.terms@, x) == 0);
            assert(crate::intpoly::coef(h.terms@, x) == 0);
        }
        assert(proportional_by(h.terms@, f.terms@, d, 1));
    }
}

/// The gcd over Z of the integral parts of `f` and `g`.
fn gcd_int(f: &RatPoly, g: &RatPoly) -> (r: Option<IntPoly>)
    requires
        f.n == g.n,
        dens_positive(f.terms@),
        dens_positive(g.terms@),
        forall|t: int| 0 <= t < f.terms@.len() ==> (#[trigger] f.terms@[t]).0@.len() == f.n,
        forall|t: int| 0 <= t < g.terms@.len() ==> (#[trigger] g.terms@[t]).0@.len() == g.n,
    ensures
        r matches Some(h) ==> h.n == f.n && h.canonical(),
        f.terms@.len() == 0 && g.terms@.len() == 0 ==> (r matches Some(h) && h.terms@.len() == 0),
        f.terms@.len() == 0 || g.terms@.len() == 0 ==> r is Some,
        g.terms@.len() == 0 ==> (r matches Some(h) && exists|d: int, s: int| #[trigger] proportional_by(h.terms@, f.terms@, d, s)),
        f.terms@.len() == 0 ==> (r matches Some(h) && exists|d: int, s: int| #[trigger] proportional_by(h.terms@, g.terms@, d, s)),
{
    let (a, da) = integral(f);
    let (b, db) = integral(g);
    let depth = if f.n < usize::MAX {
        f.n + 1
    } else {
        f.n
    };
    let r = gcd::gcd_z(&a, &b, depth);
    proof {
        if g.terms@.len() == 0 {
            let h = r->0;
            lemma_gcd_with_zero(a, h, *f, da.value());
        }
        if f.terms@.len() == 0 {
            let h = r->0;
            lemma_gcd_with_zero(b, h, *g, db.value());
        }
    }
    r
}

/// The terms of `f` have `n` entries and positive denominators.
pub open spec fn rat_ok(f: RatPoly) -> bool {
    &&& dens_positive(f.terms@)
    &&& forall|t: int| 0 <= t < f.terms@.len() ==> (#[trigger] f.terms@[t]).0@.len() == f.n
}

/// The greatest common divisor, as a primitive integer polynomial with positive leading
/// coefficient. `gcd(0, 0) = 0`. `None` if the word-sized primes run out or an exponent would
/// leave `u32`.
pub fn gcd(f: &RatPoly, g: &RatPoly) -> (r: Option<RatPoly>)
    requires
        f.n == g.n,
        rat_ok(*f),
        rat_ok(*g),
    ensures
        r matches Some(h) ==> h.n == f.n && rat_ok(h) && integer_poly(h),
        r matches Some(h) ==> h.terms@.len() > 0 ==> h.terms@[0].1.num.value() > 0,
        f.terms@.len() == 0 && g.terms@.len() == 0 ==> (r matches Some(h) && h.terms@.len() == 0),
        f.terms@.len() == 0 || g.terms@.len() == 0 ==> r is Some,
        g.terms@.len() == 0 ==> (r matches Some(h) && proportional(h, *f)),
        f.terms@.len() == 0 ==> (r matches Some(h) && proportional(h, *g)),
{
    match gcd_int(f, g) {
        Some(h) => {
            let n = normalized(&h);
            proof {
                let s2 = choose|s2: int| #[trigger] scales(numerators(n.terms@), h.terms@, s2);
                if g.terms@.len() == 0 {
                    let (d, s) = choose|d: int, s: int| #[trigger] proportional_by(h.terms@, f.terms@, d, s);
                    lemma_rescale(numerators(n.terms@), h.terms@, f.terms@, d, s, s2);
                }
                if f.terms@.len() == 0 {
                    let (d, s) = choose|d: int, s: int| #[trigger] proportional_by(h.terms@, g.terms@, d, s);
                    lemma_rescale(numerators(n.terms@), h.terms@, g.terms@, d, s, s2);
                }
            }
            Some(n)
        },
        None => None,
    }
}

/// A rescaled `h` stays proportional to `f`.
proof fn lemma_rescale(k: Seq<(Exps, Int)>, h: Seq<(Exps, Int)>, f: Seq<(Exps, Rat)>, d: int, s: int, s2: int)
    requires
        proportional_by(h, f, d, s),
        scales(k, h, s2),
    ensures
        proportional_by(k, f, d, s2 * s),
{
    assert forall|x: Seq<u32>| #[trigger] crate::intpoly::coef(k, x) * (s2 * s) == scaled_coef(f, x, d) by {
        let c = crate::intpoly::coef(k, x);
        assert(c * s2 == crate::intpoly::coef(h, x));
        assert(c * (s2 * s) == (c * s2) * s) by (nonlinear_arith);
    }
    assert(s2 * s != 0) by (nonlinear_arith)
        requires
            s2 != 0,
            s != 0,
    ;
}

/// `(h, f / h, g / h)` where `h = gcd(f, g)`; three zeros if both are zero. Each quotient times
/// `h` gives its argument back.
pub fn cofactors(f: &RatPoly, g: &RatPoly) -> (r: Option<(RatPoly, RatPoly, RatPoly)>)
    requires
        f.n == g.n,
        rat_ok(*f),
        rat_ok(*g),
    ensures
        r matches Some(t) ==> t.0.n == f.n && t.1.n == f.n && t.2.n == f.n,
        r matches Some(t) ==> integer_poly(t.0) && rat_ok(t.0) && rat_ok(t.1) && rat_ok(t.2),
        r matches Some(t) ==> t.0.terms@.len() > 0 ==> quotient_of(t.1, t.0, *f) && quotient_of(t.2, t.0, *g),
        r matches Some(t) ==> t.0.terms@.len() == 0 ==> t.1.terms@.len() == 0 && t.2.terms@.len() == 0,
        f.terms@.len() == 0 && g.terms@.len() == 0 ==> (r matches Some(t) && t.0.terms@.len() == 0),
{
    let h = match gcd_int(f, g) {
        Some(h) => h,
        None => return None,
    };
    if h.is_zero() {
        let z = RatPoly { n: f.n, terms: Vec::new() };
        return Some((RatPoly { n: f.n, terms: Vec::new() }, RatPoly { n: f.n, terms: Vec::new() }, z));
    }
    let hi = normalized_int(&h);
    let hr = over_one(&hi);
    let (hf, df) = integral(f);
    let (hg, dg) = integral(g);
    let qf = match hf.div_exact(&hi) {
        Some(q) => q,
        None => return None,
    };
    let qg = match hg.div_exact(&hi) {
        Some(q) => q,
        None => return None,
    };
    let cf = rational(&qf, &df);
    let cg = rational(&qg, &dg);
    proof {
        assert forall|x: Seq<u32>| #[trigger]
            crate::intpoly::product_coef(qf.terms@, numerators(hr.terms@), x) == scaled_coef(f.terms@, x, df.value()) by {
            crate::intpoly::lemma_prod_same_b(qf.terms@, numerators(hr.terms@), hi.terms@, x, qf.terms@.len());
            assert(crate::intpoly::coef(hf.terms@, x) == scaled_coef(f.terms@, x, df.value()));
            assert(crate::intpoly::product_coef(qf.terms@, hi.terms@, x) == crate::intpoly::coef(hf.terms@, x));
            assert(crate::intpoly::product_coef(qf.terms@, hi.terms@, x) == crate::intpoly::product_coef(qf.terms@, numerators(hr.terms@), x));
        }
        assert(over(cf.terms@, qf.terms@, df.value()));
        assert forall|x: Seq<u32>| #[trigger]
            crate::intpoly::product_coef(qg.terms@, numerators(hr.terms@), x) == scaled_coef(g.terms@, x, dg.value()) by {
            crate::intpoly::lemma_prod_same_b(qg.terms@, numerators(hr.terms@), hi.terms@, x, qg.terms@.len());
            assert(crate::intpoly::coef(hg.terms@, x) == scaled_coef(g.terms@, x, dg.value()));
            assert(crate::intpoly::product_coef(qg.terms@, hi.terms@, x) == crate::intpoly::coef(hg.terms@, x));
            assert(crate::intpoly::product_coef(qg.terms@, hi.terms@, x) == crate::intpoly::product_coef(qg.terms@, numerators(hr.terms@), x));
        }
        assert(over(cg.terms@, qg.terms@, dg.value()));
        assert forall|u: int| 0 <= u < cf.terms@.len() implies (#[trigger] cf.terms@[u]).0@.len() == f.n by {
            assert(cf.terms@[u].0@ == qf.terms@[u].0@);
        }
        assert forall|u: int| 0 <= u < cg.terms@.len() implies (#[trigger] cg.terms@[u]).0@.len() == f.n by {
            assert(cg.terms@[u].0@ == qg.terms@[u].0@);
        }
    }
    Some((hr, cf, cg))
}

/// `f` is the zero polynomial: some `d` that clears it scales every coefficient to zero.
pub open spec fn rat_zero(f: RatPoly) -> bool {
    exists|d: int| #![trigger clears(f.terms@, d)] clears(f.terms@, d) && forall|x: Seq<u32>| #[trigger] scaled_coef(f.terms@, x, d) == 0
}

/// A polynomial without terms is zero.
proof fn lemma_empty_zero(f: RatPoly)
    requires
        f.terms@.len() == 0,
    ensures
        rat_zero(f),
{
    assert(clears(f.terms@, 1));
    assert forall|x: Seq<u32>| #[trigger] scaled_coef(f.terms@, x, 1) == 0 by {}
}

/// An integral part without terms belongs to the zero polynomial.
proof fn lemma_integral_empty(f: RatPoly, hf: IntPoly, d: int)
    requires
        clears(f.terms@, d),
        forall|x: Seq<u32>| #[trigger] crate::intpoly::coef(hf.terms@, x) == scaled_coef(f.terms@, x, d),
        hf.terms@.len() == 0,
    ensures
        rat_zero(f),
{
    assert forall|x: Seq<u32>| #[trigger] scaled_coef(f.terms@, x, d) == 0 by {
        assert(crate::intpoly::coef(hf.terms@, x) == 0);
    }
}

/// The least common multiple, normalized like [`gcd`]. `lcm(f, 0) = 0`.
pub fn lcm(f: &RatPoly, g: &RatPoly) -> (r: Option<RatPoly>)
    requires
        f.n == g.n,
        rat_ok(*f),
        rat_ok(*g),
    ensures
        r matches Some(l) ==> l.n == f.n && rat_ok(l) && integer_poly(l),
        r matches Some(l) ==> l.terms@.len() > 0 ==> l.terms@[0].1.num.value() > 0,
        f.terms@.len() == 0 || g.terms@.len() == 0 ==> (r matches Some(l) && l.terms@.len() == 0),
        r matches Some(l) ==> l.terms@.len() == 0 || multiple_of(l, *f),
        !rat_zero(*f) && !rat_zero(*g) ==> (r matches Some(l) ==> l.terms@.len() > 0),
{
    let h = match gcd_int(f, g) {
        Some(h) => h,
        None => return None,
    };
    if f.terms.len() == 0 || g.terms.len() == 0 {
        proof {
            if f.terms@.len() == 0 {
                lemma_empty_zero(*f);
            }
            if g.terms@.len() == 0 {
                lemma_empty_zero(*g);
            }
        }
        return Some(RatPoly { n: f.n, terms: Vec::new() });
    }
    let (hg, dg) = integral(g);
    let (hf, df) = integral(f);
    proof {
        if hg.terms@.len() == 0 {
            lemma_integral_empty(*g, hg, dg.value());
        }
        if hf.terms@.len() == 0 {
            lemma_integral_empty(*f, hf, df.value());
        }
    }
    if h.terms.len() == 0 {
        return None;
    }
    let q = match hg.div_exact(&h) {
        Some(q) => q,
        None => return None,
    };
    if !gcd::products_fit(&hf, &q) {
        return None;
    }
    let m = hf.mul(&q);
    let l = normalized(&m);
    proof {
        let s = choose|s: int| #[trigger] scales(numerators(l.terms@), m.terms@, s);
        assert forall|x: Seq<u32>| #[trigger] crate::intpoly::coef(numerators(l.terms@), x) * s
            == crate::intpoly::product_coef(hf.terms@, q.terms@, x) by {
            assert(crate::intpoly::coef(numerators(l.terms@), x) * s == crate::intpoly::coef(m.terms@, x));
        }
        assert(multiple_by(l, *f, hf.terms@, q.terms@, df.value(), s));
    }
    Some(l)
}

} // verus!
