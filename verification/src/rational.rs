//! Rational functions from a black box, after Klappert and Lange's `FireFly` (2019).
//!
//! Along the ray `x = t*z + s`, with `z_0 = 1` and a fixed random shift `s`, the black box is a
//! univariate rational function of `t`. Thiele recovers it, scaled so the denominator is 1 at
//! `t = 0`, which is `D(s)` and therefore the same scale on every ray. The coefficient of `t^r` is
//! then the degree `r` homogeneous part of `N` (or `D`) at `z`, plus spill from the higher parts
//! through the shift. Recovering parts from the top down, that spill is already known, so each
//! part is a sparse polynomial for Zippel.

use crate::arith::prime;
use crate::modp::{modulus, point_spec};
use crate::poly::{Exps, ModPoly, descending, sort_terms};
use crate::thiele;
use crate::univariate::{Dense, residues};
use crate::zippel::{BlackBox, interpolate, sample, sparse};
use vstd::arithmetic::div_mod::lemma_small_mod;
use vstd::prelude::*;

verus! {

/// `num / den`, each a sparse polynomial over GF(p).
#[derive(Clone, Debug, PartialEq, Eq)]
pub struct RatFunc {
    pub num: ModPoly,
    pub den: ModPoly,
}

/// Both sides in `n` variables with residue coefficients, terms in descending order, and a
/// denominator with at least one term.
pub open spec fn rat_shape(q: RatFunc, n: nat, p: u64) -> bool {
    &&& q.num.n == n
    &&& q.den.n == n
    &&& q.num.shaped(p)
    &&& q.den.shaped(p)
    &&& descending(q.num.terms@)
    &&& descending(q.den.terms@)
    &&& q.den.terms@.len() > 0
}

/// The form `reconstruct` promises over a field: `rat_shape`, and the leading coefficient of
/// the denominator 1.
pub open spec fn normalized(q: RatFunc, n: nat, p: u64) -> bool {
    &&& rat_shape(q, n, p)
    &&& q.den.terms@[0].1 == 1
}

/// The sum of the exponents of a monomial.
pub open spec fn total_degree(e: Seq<u32>) -> int
    decreases e.len(),
{
    if e.len() == 0 {
        0
    } else {
        total_degree(e.drop_last()) + e.last()
    }
}

proof fn lemma_total_degree_nonneg(e: Seq<u32>)
    ensures
        total_degree(e) >= 0,
    decreases e.len(),
{
    if e.len() > 0 {
        lemma_total_degree_nonneg(e.drop_last());
    }
}

proof fn lemma_total_degree_prepend(d: u32, e: Seq<u32>)
    ensures
        total_degree(seq![d] + e) == d + total_degree(e),
    decreases e.len(),
{
    let de = seq![d] + e;
    if e.len() > 0 {
        lemma_total_degree_prepend(d, e.drop_last());
        assert(de.drop_last() =~= seq![d] + e.drop_last());
        assert(de.last() == e.last());
        assert(total_degree(de) == total_degree(de.drop_last()) + de.last());
    } else {
        assert(de.drop_last() =~= Seq::<u32>::empty());
        assert(de.last() == d);
        assert(total_degree(de) == total_degree(de.drop_last()) + de.last());
        assert(total_degree(Seq::<u32>::empty()) == 0);
    }
}

/// The check point of the attempt named by `s`: coordinate `i` is the point `(s, 4, i)`.
pub open spec fn check_point(s: u64, n: nat, p: u64) -> Seq<u64> {
    Seq::new(n, |i: int| point_spec(seq![s, 4u64, i as u64], p))
}

/// At the check point of attempt `a`, `f` answered a value that times the denominator gives
/// the numerator.
pub open spec fn confirmed<F: BlackBox>(f: &F, q: RatFunc, n: nat, p: u64, seed: u64, a: u64) -> bool {
    let x = check_point(crate::benor::attempt_seed(seed, a), n, p);
    exists|y: u64|
        #[trigger] f.answers(x, p, Some(y)) && (y * (q.den.value(x) % (p as int))) % (p as int) == q.num.value(x) % (
        p as int)
}

/// The rational function in `n` variables behind `f`, in lowest terms with the leading
/// coefficient of the denominator 1. Monte Carlo, like [`interpolate`]: each of three attempts
/// is checked at one more point before it is accepted.
pub fn reconstruct<F: BlackBox>(f: &F, n: usize, p: u64, seed: u64) -> (r: Option<RatFunc>)
    requires
        modulus(p),
    ensures
        r matches Some(q) ==> rat_shape(q, n as nat, p) && (prime(p as int) ==> normalized(q, n as nat, p)),
        r matches Some(q) ==> confirmed(f, q, n as nat, p, seed, 0) || confirmed(f, q, n as nat, p, seed, 1)
            || confirmed(f, q, n as nat, p, seed, 2),
{
    let mut attempt: u64 = 0;
    while attempt < 3
        invariant
            modulus(p),
        decreases 3 - attempt,
    {
        let s = crate::modp::hash(&[seed, attempt]);
        let ghost a = attempt;
        assert(s == crate::benor::attempt_seed(seed, a));
        attempt += 1;
        let r = if n == 0 {
            match sample(f, &[], p) {
                Some(c) => RatFunc { num: constant(0, c), den: constant(0, 1) },
                None => continue,
            }
        } else {
            match shifted(f, n, p, s) {
                Some(r) => r,
                None => continue,
            }
        };
        let mut x: Vec<u64> = Vec::new();
        let mut i: usize = 0;
        while i < n
            invariant
                i <= n,
                x@.len() == i,
                modulus(p),
                forall|u: int| 0 <= u < i ==> #[trigger] x@[u] == point_spec(seq![s, 4u64, u as u64], p),
            decreases n - i,
        {
            let key = [s, 4, i as u64];
            assert(key@ == seq![s, 4u64, i as u64]);
            x.push(crate::modp::point(&key, p));
            i += 1;
        }
        assert(x@ =~= check_point(s, n as nat, p));
        let y = match f.eval(&x, p) {
            Some(v) => v,
            None => continue,
        };
        if crate::modp::mul(y, r.den.eval(&x, p), p) == r.num.eval(&x, p) {
            assert(f.answers(x@, p, Some(y)));
            assert(confirmed(f, r, n as nat, p, seed, a));
            assert(a < 3);
            return Some(r);
        }
    }
    None
}

/// `c` as a polynomial in `n` variables.
fn constant(n: usize, c: u64) -> (r: ModPoly)
    ensures
        r.n == n,
        c == 0 ==> r.terms@.len() == 0,
        c != 0 ==> r.terms@.len() == 1 && r.terms@[0].1 == c && r.terms@[0].0@.len() == n,
{
    if c == 0 {
        ModPoly { n, terms: Vec::new() }
    } else {
        let mut terms: Vec<(Exps, u64)> = Vec::new();
        terms.push((vec![0u32; n], c));
        ModPoly { n, terms }
    }
}

/// The direction `(1, y)`.
fn ray_dir(y: &[u64]) -> (z: Vec<u64>)
    ensures
        z@ == seq![1u64] + y@,
{
    let mut z: Vec<u64> = Vec::new();
    z.push(1);
    let mut i: usize = 0;
    while i < y.len()
        invariant
            i <= y@.len(),
            z@ == seq![1u64] + y@.subrange(0, i as int),
        decreases y@.len() - i,
    {
        z.push(y[i]);
        i += 1;
        assert(z@ =~= seq![1u64] + y@.subrange(0, i as int));
    }
    assert(y@.subrange(0, y@.len() as int) =~= y@);
    z
}

/// Every coefficient of `a` times `c`.
fn scaled(a: &[u64], c: u64, p: u64) -> (r: Dense)
    requires
        p > 0,
    ensures
        r@.len() == a@.len(),
        residues(r@, p),
        forall|i: int| 0 <= i < a@.len() ==> #[trigger] r@[i] == (a@[i] * c) % (p as int),
{
    let mut r: Dense = Vec::new();
    let mut i: usize = 0;
    while i < a.len()
        invariant
            p > 0,
            i <= a@.len(),
            r@.len() == i,
            forall|j: int| 0 <= j < i ==> #[trigger] r@[j] == (a@[j] * c) % (p as int) && r@[j] < p,
        decreases a@.len() - i,
    {
        r.push(crate::modp::mul(a[i], c, p));
        i += 1;
    }
    r
}

/// `f(t*z + s)` for `z = (1, y)` as `num / den` with `den(0) = 1`.
fn ray<F: BlackBox>(f: &F, s: &Vec<u64>, seed: u64, y: &[u64], p: u64) -> (r: Option<(Dense, Dense)>)
    requires
        modulus(p),
        s@.len() == y@.len() + 1,
        residues(s@, p),
    ensures
        r matches Some(nd) ==> {
            &&& residues(nd.0@, p)
            &&& residues(nd.1@, p)
            &&& nd.1@.len() > 0
            &&& prime(p as int) ==> nd.1@[0] == 1
        },
{
    let z = ray_dir(y);
    let n = s.len();
    let g = |t: u64| -> (v: Option<u64>)
        requires
            z@.len() == n,
            s@.len() == n,
            residues(s@, p),
            modulus(p),
        {
            let mut x: Vec<u64> = Vec::new();
            let mut i: usize = 0;
            while i < n
                invariant
                    i <= n,
                    z@.len() == n,
                    s@.len() == n,
                    residues(s@, p),
                    modulus(p),
                decreases n - i,
            {
                x.push(crate::modp::add(crate::modp::mul(t, z[i], p), s[i], p));
                i += 1;
            }
            f.eval(&x, p)
        };
    match thiele::reconstruct(g, p, crate::modp::hash(&[seed, 2])) {
        None => None,
        Some((num, den)) => {
            if den.len() == 0 || den[0] == 0 {
                return None;
            }
            let l = crate::modp::inv(den[0], p);
            proof {
                lemma_small_mod(den@[0] as nat, p as nat);
            }
            let num = scaled(&num, l, p);
            let den = scaled(&den, l, p);
            Some((num, den))
        },
    }
}

/// The parts below degree `r` of one side, seen through the rays: the black box of
/// [`interpolate`] for the degree `r` part once the parts above it are `known`.
struct Part<'a, F> {
    f: &'a F,
    s: &'a Vec<u64>,
    seed: u64,
    p: u64,
    known: &'a ModPoly,
    r: usize,
    shape: (usize, usize),
    numerator: bool,
}

impl<'a, F> Part<'a, F> {
    #[verifier::type_invariant]
    spec fn well_formed(self) -> bool {
        &&& modulus(self.p)
        &&& self.s@.len() >= 1
        &&& residues(self.s@, self.p)
        &&& self.known.shaped(self.p)
        &&& self.known.n == self.s@.len()
        &&& spill_ready(*self.known)
        &&& self.r < (if self.numerator { self.shape.0 } else { self.shape.1 })
    }
}

impl<'a, F: BlackBox> BlackBox for Part<'a, F> {
    fn eval(&self, y: &[u64], p: u64) -> Option<u64> {
        proof {
            use_type_invariant(self);
        }
        if p != self.p || y.len() != self.s.len() - 1 {
            return None;
        }
        let (a, b) = match ray(self.f, self.s, self.seed, y, p) {
            Some(nd) => nd,
            None => return None,
        };
        if a.len() != self.shape.0 || b.len() != self.shape.1 {
            return None;
        }
        let z = ray_dir(y);
        let spill = spill(self.known, &z, self.s, p);
        let v = if self.numerator {
            a[self.r]
        } else {
            b[self.r]
        };
        let w = if self.r < spill.len() {
            spill[self.r]
        } else {
            0
        };
        Some(crate::modp::sub(v, w, p))
    }
}

/// Every term has a total degree that a dense polynomial can hold.
pub open spec fn spill_ready(g: ModPoly) -> bool {
    forall|t: int| 0 <= t < g.terms@.len() ==> total_degree(#[trigger] g.terms@[t].0@) < usize::MAX - 1
}

/// `g(t*z + s)` as a polynomial in `t`.
fn spill(g: &ModPoly, z: &[u64], s: &[u64], p: u64) -> (out: Dense)
    requires
        modulus(p),
        g.shaped(p),
        spill_ready(*g),
        z@.len() == g.n,
        s@.len() == g.n,
        residues(s@, p),
    ensures
        residues(out@, p),
{
    let mut out: Dense = Vec::new();
    let mut k: usize = 0;
    while k < g.terms.len()
        invariant
            k <= g.terms@.len(),
            modulus(p),
            g.shaped(p),
            spill_ready(*g),
            z@.len() == g.n,
            s@.len() == g.n,
            residues(s@, p),
            residues(out@, p),
        decreases g.terms@.len() - k,
    {
        let e = &g.terms[k].0;
        let mut term: Dense = Vec::new();
        term.push(g.terms[k].1);
        let mut i: usize = 0;
        assert(e@.subrange(0, 0) =~= Seq::<u32>::empty());
        while i < e.len()
            invariant
                i <= e@.len(),
                e@.len() == g.n,
                z@.len() == g.n,
                s@.len() == g.n,
                modulus(p),
                residues(s@, p),
                residues(term@, p),
                term@.len() == 1 + total_degree(e@.subrange(0, i as int)),
                total_degree(e@) < usize::MAX - 1,
            decreases e@.len() - i,
        {
            proof {
                lemma_total_degree_prefix(e@, i as int + 1);
                assert(e@.subrange(0, i as int + 1).drop_last() =~= e@.subrange(0, i as int));
            }
            proof {
                lemma_total_degree_nonneg(e@.subrange(0, i as int));
            }
            let lin: Dense = vec![s[i], z[i] % p];
            let d = e[i];
            let mut j: u32 = 0;
            while j < d
                invariant
                    j <= d,
                    i < e@.len(),
                    modulus(p),
                    residues(lin@, p),
                    lin@.len() == 2,
                    residues(term@, p),
                    term@.len() == 1 + total_degree(e@.subrange(0, i as int)) + j,
                    total_degree(e@.subrange(0, i as int)) >= 0,
                    total_degree(e@.subrange(0, i as int)) + d <= total_degree(e@),
                    total_degree(e@) < usize::MAX - 1,
                decreases d - j,
            {
                term = crate::univariate::mul_poly(&term, &lin, p);
                j += 1;
            }
            i += 1;
        }
        if out.len() < term.len() {
            let ghost o0 = out@;
            out.resize(term.len(), 0);
            assert forall|j: int| 0 <= j < out@.len() implies #[trigger] out@[j] < p by {
                if j >= o0.len() {
                    assert(out@[j] == 0);
                } else {
                    assert(out@[j] == o0[j]);
                }
            }
        }
        let mut i: usize = 0;
        while i < term.len()
            invariant
                i <= term@.len(),
                term@.len() <= out@.len(),
                modulus(p),
                residues(term@, p),
                residues(out@, p),
            decreases term@.len() - i,
        {
            let v = crate::modp::add(out[i], term[i], p);
            out.set(i, v);
            i += 1;
        }
        k += 1;
    }
    out
}

/// A prefix has no more total degree than the whole.
proof fn lemma_total_degree_prefix(e: Seq<u32>, i: int)
    requires
        0 <= i <= e.len(),
    ensures
        total_degree(e.subrange(0, i)) <= total_degree(e),
    decreases e.len() - i,
{
    if i < e.len() {
        lemma_total_degree_prefix(e, i + 1);
        assert(e.subrange(0, i + 1).drop_last() =~= e.subrange(0, i));
    } else {
        assert(e.subrange(0, i) =~= e);
    }
}

/// Numerator or denominator, one homogeneous part at a time from the top degree down.
fn side<F: BlackBox>(f: &F, s: &Vec<u64>, seed: u64, p: u64, first: &(Dense, Dense), numerator: bool) -> (r: Option<ModPoly>)
    requires
        modulus(p),
        s@.len() >= 1,
        residues(s@, p),
    ensures
        r matches Some(h) ==> {
            &&& h.n == s@.len()
            &&& h.shaped(p)
            &&& descending(h.terms@)
            &&& forall|t: int| 0 <= t < h.terms@.len() ==> (#[trigger] h.terms@[t]).1 != 0
        },
{
    let n = s.len();
    let shape = (first.0.len(), first.1.len());
    let top = if numerator {
        first.0.len()
    } else {
        first.1.len()
    };
    if top == usize::MAX {
        return None;
    }
    let mut known = constant(n, 0);
    let mut r = top;
    while r > 0
        invariant
            r <= top,
            top < usize::MAX,
            top == (if numerator { shape.0 } else { shape.1 }),
            n == s@.len(),
            modulus(p),
            s@.len() >= 1,
            residues(s@, p),
            known.n == n,
            known.shaped(p),
            forall|t: int| 0 <= t < known.terms@.len() ==> (#[trigger] known.terms@[t]).1 != 0,
            forall|t: int| 0 <= t < known.terms@.len() ==> total_degree(#[trigger] known.terms@[t].0@) < top,
        decreases r,
    {
        r -= 1;
        let h = {
            let part = Part { f, s, seed, p, known: &known, r, shape, numerator };
            match interpolate(&part, n - 1, p, crate::modp::hash(&[seed, 3])) {
                Some(h) => h,
                None => return None,
            }
        };
        let mut i: usize = 0;
        while i < h.terms.len()
            invariant
                i <= h.terms@.len(),
                sparse(h, (n - 1) as nat, p),
                r < top,
                top < usize::MAX,
                n == s@.len(),
                n >= 1,
                known.n == n,
                known.shaped(p),
                forall|t: int| 0 <= t < known.terms@.len() ==> (#[trigger] known.terms@[t]).1 != 0,
                forall|t: int| 0 <= t < known.terms@.len() ==> total_degree(#[trigger] known.terms@[t].0@) < top,
            decreases h.terms@.len() - i,
        {
            let e = &h.terms[i].0;
            let c = h.terms[i].1;
            let mut sum: usize = 0;
            let mut j: usize = 0;
            assert(e@.subrange(0, 0) =~= Seq::<u32>::empty());
            while j < e.len()
                invariant
                    j <= e@.len(),
                    sum == total_degree(e@.subrange(0, j as int)),
                    sum <= r,
                decreases e@.len() - j,
            {
                assert(e@.subrange(0, j as int + 1).drop_last() =~= e@.subrange(0, j as int));
                let x = e[j] as usize;
                if x > r - sum {
                    return None;
                }
                sum = sum + x;
                j += 1;
            }
            assert(e@.subrange(0, e@.len() as int) =~= e@);
            let d = r - sum;
            if d > u32::MAX as usize {
                return None;
            }
            let mut x: Exps = Vec::new();
            x.push(d as u32);
            let mut j: usize = 0;
            while j < e.len()
                invariant
                    j <= e@.len(),
                    x@ == seq![d as u32] + e@.subrange(0, j as int),
                decreases e@.len() - j,
            {
                x.push(e[j]);
                j += 1;
                assert(x@ =~= seq![d as u32] + e@.subrange(0, j as int));
            }
            proof {
                assert(e@.subrange(0, e@.len() as int) =~= e@);
                lemma_total_degree_prepend(d as u32, e@);
            }
            let ghost before = known.terms@;
            known.terms.push((x, c));
            proof {
                assert forall|t: int| 0 <= t < known.terms@.len() implies total_degree(#[trigger] known.terms@[t].0@) < top by {
                    if t < before.len() {
                        assert(known.terms@[t] == before[t]);
                    }
                }
            }
            i += 1;
        }
    }
    let ghost old_terms = known.terms@;
    let terms = sort_terms(known.terms);
    proof {
        assert forall|t: int| 0 <= t < terms@.len() implies (#[trigger] terms@[t]).0@.len() == n
            && terms@[t].1 < p && terms@[t].1 != 0 by {
            broadcast use vstd::seq_lib::group_to_multiset_ensures;
            assert(terms@.contains(terms@[t]));
            assert(terms@.to_multiset().count(terms@[t]) > 0);
            assert(old_terms.contains(terms@[t]));
        }
    }
    Some(ModPoly { n, terms })
}

/// The whole reconstruction for `n >= 1` variables, from the shift named by `seed`.
fn shifted<F: BlackBox>(f: &F, n: usize, p: u64, seed: u64) -> (r: Option<RatFunc>)
    requires
        modulus(p),
        n >= 1,
    ensures
        r matches Some(q) ==> rat_shape(q, n as nat, p) && (prime(p as int) ==> normalized(q, n as nat, p)),
{
    let mut s: Vec<u64> = Vec::new();
    let mut i: usize = 0;
    while i < n
        invariant
            i <= n,
            s@.len() == i,
            residues(s@, p),
            modulus(p),
        decreases n - i,
    {
        s.push(crate::modp::point(&[seed, 0, i as u64], p));
        i += 1;
    }
    let mut y: Vec<u64> = Vec::new();
    let mut i: usize = 1;
    while i < n
        invariant
            1 <= i <= n,
            y@.len() == i - 1,
            modulus(p),
        decreases n - i,
    {
        y.push(crate::modp::point(&[seed, 1, i as u64], p));
        i += 1;
    }
    let first = match ray(f, &s, seed, &y, p) {
        Some(r) => r,
        None => return None,
    };
    let mut num = match side(f, &s, seed, p, &first, true) {
        Some(h) => h,
        None => return None,
    };
    let mut den = match side(f, &s, seed, p, &first, false) {
        Some(h) => h,
        None => return None,
    };
    if den.terms.len() == 0 {
        return None;
    }
    let lead = den.terms[0].1;
    let l = crate::modp::inv(lead, p);
    let ghost n0 = num.terms@;
    let ghost d0 = den.terms@;
    num.scale(l, p);
    den.scale(l, p);
    proof {
        lemma_small_mod(lead as nat, p as nat);
        assert forall|s: int, t: int| 0 <= s < t < num.terms@.len() implies !crate::poly::lex_gt(
            #[trigger] num.terms@[t].0@,
            #[trigger] num.terms@[s].0@,
        ) by {
            assert(num.terms@[t].0@ == n0[t].0@ && num.terms@[s].0@ == n0[s].0@);
        }
        assert forall|s: int, t: int| 0 <= s < t < den.terms@.len() implies !crate::poly::lex_gt(
            #[trigger] den.terms@[t].0@,
            #[trigger] den.terms@[s].0@,
        ) by {
            assert(den.terms@[t].0@ == d0[t].0@ && den.terms@[s].0@ == d0[s].0@);
        }
    }
    Some(RatFunc { num, den })
}

} // verus!
