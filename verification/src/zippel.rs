//! Zippel's sparse interpolation of a black box polynomial, one variable at a time.
//!
//! Stage `k` knows `f(x_0..x_(k-1), a_k..)` at a random anchor `a` and lifts it to `x_k`. For each
//! fresh value `b` of `x_k` the known support is the skeleton, so evaluating `x_0..x_(k-1)` at the
//! powers `r^j` leaves a transposed Vandermonde system for the coefficients. Newton interpolation
//! in `x_k` stops at the first value it already predicts, so no degree bounds are needed.
//!
//! Every point is named by `(seed, stage, index)` rather than drawn from a stream, so two
//! interpolations with one seed ask the same questions for as long as their shapes agree.

use crate::arith::{lemma_mul_mod_both, power};
use crate::modp::modulus;
use crate::poly::{Exps, ModPoly, mono, mono_at};
use crate::univariate::{Dense, Newton, residues};
use crate::vandermonde;
use vstd::arithmetic::div_mod::{lemma_mod_twice, lemma_small_mod};
use vstd::prelude::*;

verus! {

/// A polynomial known only through evaluation modulo `p`. `None` marks a point where the
/// evaluation broke down (a vanishing pivot, say) and should be avoided.
pub trait BlackBox {
    /// `y` is an answer the box may give at `x` modulo `p`; a box that says nothing of its
    /// answers may give any.
    open spec fn answers(&self, x: Seq<u64>, p: u64, y: Option<u64>) -> bool {
        true
    }

    fn eval(&self, x: &[u64], p: u64) -> (y: Option<u64>)
        ensures
            self.answers(x@, p, y),
    ;

    /// Evaluations at several points, in order; by default one at a time.
    fn eval_many(&self, xs: &[Vec<u64>], p: u64) -> (out: Vec<Option<u64>>)
        ensures
            out@.len() == xs@.len(),
            forall|i: int| 0 <= i < xs@.len() ==> self.answers(xs@[i]@, p, #[trigger] out@[i]),
    {
        let mut out: Vec<Option<u64>> = Vec::new();
        let mut i: usize = 0;
        while i < xs.len()
            invariant
                i <= xs.len(),
                out@.len() == i,
                forall|j: int| 0 <= j < i ==> self.answers(xs@[j]@, p, #[trigger] out@[j]),
            decreases xs.len() - i,
        {
            out.push(self.eval(xs[i].as_slice(), p));
            i += 1;
        }
        out
    }
}

/// A closure as a black box: its answers are what it returns.
pub struct FnBox<F: Fn(&[u64], u64) -> Option<u64>> {
    f: F,
}

impl<F: Fn(&[u64], u64) -> Option<u64>> FnBox<F> {
    #[verifier::type_invariant]
    spec fn callable(self) -> bool {
        forall|x: &[u64], q: u64| call_requires(self.f, (x, q))
    }

    /// The closure inside.
    pub closed spec fn closure(&self) -> F {
        self.f
    }

    /// Wraps a closure that takes every point.
    pub fn new(f: F) -> (b: Self)
        requires
            forall|x: &[u64], q: u64| call_requires(f, (x, q)),
        ensures
            b.closure() == f,
    {
        FnBox { f }
    }
}

impl<F: Fn(&[u64], u64) -> Option<u64>> BlackBox for FnBox<F> {
    /// What the closure returns at `x`.
    open spec fn answers(&self, x: Seq<u64>, p: u64, y: Option<u64>) -> bool {
        exists|xs: &[u64]| xs@ == x && #[trigger] call_ensures(self.closure(), (xs, p), y)
    }

    fn eval(&self, x: &[u64], p: u64) -> (y: Option<u64>) {
        proof {
            use_type_invariant(self);
        }
        let y = (self.f)(x, p);
        proof {
            assert(call_ensures(self.closure(), (x, p), y));
        }
        y
    }
}

/// A value of `f` at `x`, taken modulo `p`.
pub fn sample<F: BlackBox>(f: &F, x: &[u64], p: u64) -> (y: Option<u64>)
    requires
        p > 0,
    ensures
        y matches Some(v) ==> v < p && exists|w: u64| #[trigger] f.answers(x@, p, Some(w)) && v == w % p,
        y is None ==> f.answers(x@, p, None),
{
    match f.eval(x, p) {
        Some(v) => Some(v % p),
        None => None,
    }
}

/// Points tried per variable before giving up on a degree.
pub const MAX_POINTS: u64 = 4096;

/// A polynomial in `n` variables with residue coefficients, none zero.
pub open spec fn sparse(h: ModPoly, n: nat, p: u64) -> bool {
    &&& h.n == n
    &&& h.shaped(p)
    &&& forall|t: int| 0 <= t < h.terms@.len() ==> (#[trigger] h.terms@[t]).1 != 0
}

/// The terms as exponent vectors and coefficients.
pub open spec fn term_views(ts: Seq<(Exps, u64)>) -> Seq<(Seq<u32>, u64)> {
    ts.map_values(|t: (Exps, u64)| (t.0@, t.1))
}

/// The nonzero coefficients of `d` from index `j` up, highest power first, as terms with
/// exponents `e` but for the power `x_k`.
pub open spec fn dense_tail(e: Seq<u32>, k: int, d: Seq<u64>, j: int) -> Seq<(Seq<u32>, u64)>
    decreases d.len() - j,
{
    if j >= d.len() || j < 0 {
        seq![]
    } else {
        dense_tail(e, k, d, j + 1) + (if d[j] != 0 {
            seq![(e.update(k, j as u32), d[j])]
        } else {
            seq![]
        })
    }
}

/// The dense polynomial `d` in `x_k` as the terms of a sparse one, highest power first, with
/// every other exponent taken from `e`.
fn push_dense(terms: &mut Vec<(Exps, u64)>, e: &Exps, k: usize, d: &Dense)
    requires
        k < e@.len(),
        d@.len() <= u32::MAX + 1,
    ensures
        term_views(final(terms)@) == term_views(old(terms)@) + dense_tail(e@, k as int, d@, 0),
        final(terms)@.len() >= old(terms)@.len(),
        forall|t: int| 0 <= t < old(terms)@.len() ==> #[trigger] final(terms)@[t] == old(terms)@[t],
        forall|t: int|
            old(terms)@.len() <= t < final(terms)@.len() ==> (#[trigger] final(terms)@[t]).0@.len()
                == e@.len() && final(terms)@[t].1 != 0 && exists|i: int|
                0 <= i < d@.len() && final(terms)@[t].1 == d@[i],
{
    let mut i = d.len();
    proof {
        assert(term_views(terms@) =~= term_views(old(terms)@) + dense_tail(e@, k as int, d@, d@.len() as int));
    }
    while i > 0
        invariant
            i <= d@.len(),
            d@.len() <= u32::MAX + 1,
            k < e@.len(),
            term_views(terms@) == term_views(old(terms)@) + dense_tail(e@, k as int, d@, i as int),
            terms@.len() >= old(terms)@.len(),
            forall|t: int| 0 <= t < old(terms)@.len() ==> #[trigger] terms@[t] == old(terms)@[t],
            forall|t: int|
                old(terms)@.len() <= t < terms@.len() ==> (#[trigger] terms@[t]).0@.len() == e@.len()
                    && terms@[t].1 != 0 && exists|j: int| 0 <= j < d@.len() && terms@[t].1 == d@[j],
        decreases i,
    {
        i -= 1;
        let c = d[i];
        let ghost tv0 = term_views(terms@);
        if c != 0 {
            let mut x = e.clone();
            x.set(k, i as u32);
            let ghost before = terms@;
            terms.push((x, c));
            proof {
                assert(x@ == e@.update(k as int, i as u32));
                assert(term_views(terms@) =~= tv0.push((e@.update(k as int, i as u32), c)));
            }
            proof {
                assert forall|t: int|
                    old(terms)@.len() <= t < terms@.len() implies (#[trigger] terms@[t]).0@.len()
                        == e@.len() && terms@[t].1 != 0 && exists|j: int|
                        0 <= j < d@.len() && terms@[t].1 == d@[j] by {
                    if t < before.len() {
                        assert(terms@[t] == before[t]);
                    } else {
                        assert(terms@[t].1 == d@[i as int]);
                    }
                }
            }
        }
    }
}

/// The polynomial in `n` variables behind `f`, or `None` if it looks like no polynomial of
/// degree below `MAX_POINTS` in each variable. Monte Carlo, with error probability about
/// `deg / p` per step.
pub fn interpolate<F: BlackBox>(f: &F, n: usize, p: u64, seed: u64) -> (r: Option<ModPoly>)
    requires
        modulus(p),
    ensures
        r matches Some(h) ==> sparse(h, n as nat, p),
        n == 0 ==> (r matches Some(h) ==> answered_constant(f, h, p)),
        n == 0 ==> (r is None ==> f.answers(Seq::empty(), p, None)),
{
    let mut attempt: u64 = 0;
    while attempt < 3
        invariant
            modulus(p),
            n == 0 && attempt > 0 ==> f.answers(Seq::empty(), p, None),
        decreases 3 - attempt,
    {
        let s = crate::modp::hash(&[seed, attempt]);
        let mut anchor: Vec<u64> = Vec::new();
        let mut i: usize = 0;
        while i < n
            invariant
                i <= n,
                anchor@.len() == i,
                residues(anchor@, p),
                modulus(p),
            decreases n - i,
        {
            anchor.push(crate::modp::point(&[s, 0, i as u64], p));
            i += 1;
        }
        if let Some(h0) = first(f, &anchor, p, s) {
            let mut h = h0;
            let mut k: usize = 1;
            let mut ok = true;
            while k < n
                invariant
                    anchor@.len() == n,
                    residues(anchor@, p),
                    modulus(p),
                    sparse(h, n as nat, p),
                    n == 0 ==> answered_constant(f, h, p),
                    n == 0 ==> ok,
                decreases n - k,
            {
                match lift(f, &h, k, &anchor, p, s) {
                    Some(h2) => {
                        h = h2;
                    },
                    None => {
                        ok = false;
                        break;
                    },
                }
                k += 1;
            }
            if ok {
                return Some(h);
            }
        }
        attempt += 1;
    }
    None
}

/// `h`, in no variables, is the constant that `f` answered at the empty point.
pub open spec fn answered_constant<F: BlackBox>(f: &F, h: ModPoly, p: u64) -> bool {
    exists|w: u64|
        #[trigger] f.answers(Seq::empty(), p, Some(w)) && (if w % p == 0 {
            h.terms@.len() == 0
        } else {
            h.terms@.len() == 1 && h.terms@[0].1 == w % p
        })
}

/// Dense interpolation in `x_0` with every other variable at the anchor.
fn first<F: BlackBox>(f: &F, anchor: &[u64], p: u64, seed: u64) -> (r: Option<ModPoly>)
    requires
        modulus(p),
        residues(anchor@, p),
    ensures
        r matches Some(h) ==> sparse(h, anchor@.len(), p),
        anchor@.len() == 0 ==> (r matches Some(h) ==> answered_constant(f, h, p)),
        anchor@.len() == 0 ==> (r is None ==> f.answers(Seq::empty(), p, None)),
{
    let mut x = vstd::slice::slice_to_vec(anchor);
    if x.len() == 0 {
        let mut terms: Vec<(Exps, u64)> = Vec::new();
        assert(x@ =~= Seq::<u64>::empty());
        match sample(f, &x, p) {
            Some(c) => {
                if c != 0 {
                    terms.push((Vec::new(), c));
                }
                let h = ModPoly { n: 0, terms };
                proof {
                    let w = choose|w: u64| #[trigger] f.answers(x@, p, Some(w)) && c == w % p;
                    assert(f.answers(Seq::empty(), p, Some(w)));
                }
                return Some(h);
            },
            None => {
                return None;
            },
        }
    }
    let mut newton = Newton::default();
    let mut i: u64 = 0;
    while i < MAX_POINTS
        invariant
            x@.len() == anchor@.len(),
            x@.len() > 0,
            modulus(p),
            newton.wf(p),
            newton.xs().len() <= i,
            i <= MAX_POINTS,
        decreases MAX_POINTS - i,
    {
        let t = crate::modp::point(&[seed, 1, i], p);
        x.set(0, t);
        i += 1;
        let y = match sample(f, &x, p) {
            Some(y) => y,
            None => continue,
        };
        if newton.contains(t) {
            continue;
        }
        if !newton.add(t, y, p) && newton.len() > 1 {
            let d = newton.poly(p);
            let mut terms: Vec<(Exps, u64)> = Vec::new();
            let mut zero: Exps = Vec::new();
            let mut j: usize = 0;
            while j < anchor.len()
                invariant
                    j <= anchor@.len(),
                    zero@.len() == j,
                decreases anchor@.len() - j,
            {
                zero.push(0);
                j += 1;
            }
            push_dense(&mut terms, &zero, 0, &d);
            let h = ModPoly { n: anchor.len(), terms };
            proof {
                assert forall|s: int| 0 <= s < h.terms@.len() implies {
                    &&& (#[trigger] h.terms@[s]).0@.len() == h.n
                    &&& h.terms@[s].1 < p
                } by {
                    let j = choose|j: int| 0 <= j < d@.len() && h.terms@[s].1 == d@[j];
                    assert(d@[j] < p);
                }
            }
            return Some(h);
        }
    }
    None
}

/// Random `r` at which the skeleton's monomials take distinct values, so the system is solvable.
fn distinct_values(skeleton: &Vec<Exps>, k: usize, p: u64, seed: u64) -> (r: Option<(Vec<u64>, Vec<u64>)>)
    requires
        modulus(p),
    ensures
        r matches Some(rv) ==> {
            &&& rv.0@.len() == k
            &&& rv.1@.len() == skeleton@.len()
            &&& residues(rv.0@, p)
            &&& residues(rv.1@, p)
            &&& forall|l: int| 0 <= l < skeleton@.len() ==> #[trigger] rv.1@[l] == mono_at(skeleton@[l]@, rv.0@) % (p as int)
            &&& forall|a: int, b: int| 0 <= a < b < rv.1@.len() ==> #[trigger] rv.1@[a] != #[trigger] rv.1@[b]
        },
{
    let mut a: u64 = 0;
    while a < 3
        invariant
            modulus(p),
        decreases 3 - a,
    {
        let mut r: Vec<u64> = Vec::new();
        let mut i: usize = 0;
        while i < k
            invariant
                i <= k,
                r@.len() == i,
                residues(r@, p),
                modulus(p),
            decreases k - i,
        {
            r.push(crate::modp::point(&[seed, 3, k as u64, a, i as u64], p));
            i += 1;
        }
        let mut vals: Vec<u64> = Vec::new();
        let mut l: usize = 0;
        while l < skeleton.len()
            invariant
                l <= skeleton@.len(),
                vals@.len() == l,
                r@.len() == k,
                residues(r@, p),
                residues(vals@, p),
                modulus(p),
                forall|j: int| 0 <= j < l ==> #[trigger] vals@[j] == mono_at(skeleton@[j]@, r@) % (p as int),
            decreases skeleton@.len() - l,
        {
            let v = monomial_value(&skeleton[l], &r, p);
            vals.push(v);
            l += 1;
        }
        if all_distinct(&vals) {
            return Some((r, vals));
        }
        a += 1;
    }
    None
}

/// `prod_i x_i^(e_i) mod p` over the variables that both name.
pub fn monomial_value(e: &[u32], x: &[u64], p: u64) -> (v: u64)
    requires
        modulus(p),
    ensures
        v == mono_at(e@, x@) % (p as int),
        v < p,
{
    let ghost m = p as int;
    let len = if e.len() < x.len() {
        e.len()
    } else {
        x.len()
    };
    let mut v: u64 = 1;
    let mut i: usize = 0;
    proof {
        lemma_small_mod(1, p as nat);
    }
    while i < len
        invariant
            i <= len,
            len <= e@.len(),
            len <= x@.len(),
            modulus(p),
            m == p as int,
            v < p,
            v == mono(e@, x@, i as nat) % m,
        decreases len - i,
    {
        let w = crate::modp::pow(x[i], e[i] as u64, p);
        let ghost v0 = v;
        v = crate::modp::mul(v, w, p);
        proof {
            let xi = power(x@[i as int] as int, e@[i as int] as nat);
            if e@[i as int] == 0 {
                assert(xi == 1);
                lemma_small_mod(1, p as nat);
            }
            lemma_mod_twice(xi, m);
            lemma_mod_twice(mono(e@, x@, i as nat), m);
            lemma_mul_mod_both(v0 as int, w as int, mono(e@, x@, i as nat), xi, m);
        }
        i += 1;
    }
    v
}

/// Whether no value occurs twice.
pub fn all_distinct(v: &[u64]) -> (b: bool)
    ensures
        b == forall|i: int, j: int| 0 <= i < j < v@.len() ==> #[trigger] v@[i] != #[trigger] v@[j],
{
    let mut i: usize = 0;
    while i < v.len()
        invariant
            i <= v@.len(),
            forall|a: int, b: int| 0 <= a < b < v@.len() && a < i ==> #[trigger] v@[a] != #[trigger] v@[b],
        decreases v@.len() - i,
    {
        let mut j = i + 1;
        while j < v.len()
            invariant
                i < j <= v@.len(),
                forall|a: int, b: int| 0 <= a < b < v@.len() && a < i ==> #[trigger] v@[a] != #[trigger] v@[b],
                forall|b: int| i < b < j ==> v@[i as int] != #[trigger] v@[b],
            decreases v@.len() - j,
        {
            if v[i] == v[j] {
                return false;
            }
            j += 1;
        }
        i += 1;
    }
    true
}

/// The dense polynomials of `newton` in `x_k`, spread over the skeleton's monomials.
fn assemble(n: usize, k: usize, skeleton: &Vec<Exps>, newton: &Vec<Newton>, p: u64) -> (r: ModPoly)
    requires
        modulus(p),
        k < n,
        skeleton@.len() == newton@.len(),
        forall|l: int| 0 <= l < skeleton@.len() ==> (#[trigger] skeleton@[l])@.len() == n,
        forall|l: int|
            0 <= l < newton@.len() ==> (#[trigger] newton@[l]).wf(p) && newton@[l].xs().len()
                <= MAX_POINTS + 1,
    ensures
        sparse(r, n as nat, p),
{
    let mut terms: Vec<(Exps, u64)> = Vec::new();
    let mut l: usize = 0;
    while l < skeleton.len()
        invariant
            l <= skeleton@.len(),
            skeleton@.len() == newton@.len(),
            k < n,
            modulus(p),
            forall|j: int| 0 <= j < skeleton@.len() ==> (#[trigger] skeleton@[j])@.len() == n,
            forall|j: int|
                0 <= j < newton@.len() ==> (#[trigger] newton@[j]).wf(p) && newton@[j].xs().len()
                    <= MAX_POINTS + 1,
            forall|t: int|
                0 <= t < terms@.len() ==> (#[trigger] terms@[t]).0@.len() == n && terms@[t].1 != 0
                    && terms@[t].1 < p,
        decreases skeleton@.len() - l,
    {
        let d = newton[l].poly(p);
        let ghost before = terms@;
        push_dense(&mut terms, &skeleton[l], k, &d);
        proof {
            assert forall|t: int| 0 <= t < terms@.len() implies (#[trigger] terms@[t]).0@.len() == n
                && terms@[t].1 != 0 && terms@[t].1 < p by {
                if t < before.len() {
                    assert(terms@[t] == before[t]);
                } else {
                    let j = choose|j: int| 0 <= j < d@.len() && terms@[t].1 == d@[j];
                    assert(d@[j] < p);
                }
            }
        }
        l += 1;
    }
    ModPoly { n, terms }
}

/// Lift `h = f(x_0..x_(k-1), a_k..)` to `f(x_0..x_k, a_(k+1)..)`.
fn lift<F: BlackBox>(f: &F, h: &ModPoly, k: usize, anchor: &[u64], p: u64, seed: u64) -> (r: Option<ModPoly>)
    requires
        modulus(p),
        residues(anchor@, p),
        k < anchor@.len(),
        sparse(*h, anchor@.len(), p),
    ensures
        r matches Some(g) ==> sparse(g, anchor@.len(), p),
{
    let skeleton = h.support();
    let t = skeleton.len();
    if t == 0 {
        return Some(h.clone_poly());
    }
    let (r, vals) = match distinct_values(&skeleton, k, p, seed) {
        Some(rv) => rv,
        None => {
            return None;
        },
    };
    assert(vals@.len() == h.terms@.len());
    if vals.len() > usize::MAX - 2 {
        return None;
    }
    let master = vandermonde::master(&vals, p);
    let mut newton: Vec<Newton> = Vec::new();
    let ak = anchor[k];
    assert(anchor@[k as int] < p);
    let mut j: usize = 0;
    while j < t
        invariant
            j <= t,
            t == h.terms@.len(),
            newton@.len() == j,
            ak < p,
            modulus(p),
            sparse(*h, anchor@.len(), p),
            forall|l: int|
                0 <= l < newton@.len() ==> (#[trigger] newton@[l]).wf(p) && newton@[l].xs().len()
                    <= 1,
        decreases t - j,
    {
        let mut nw = Newton::default();
        assert(h.terms@[j as int].1 < p);
        nw.add(ak, h.terms[j].1, p);
        newton.push(nw);
        j += 1;
    }
    let mut x = vstd::slice::slice_to_vec(anchor);
    let mut i: u64 = 0;
    while i < MAX_POINTS
        invariant
            i <= MAX_POINTS,
            x@.len() == anchor@.len(),
            k < x@.len(),
            r@.len() == k,
            residues(r@, p),
            residues(x@, p),
            residues(vals@, p),
            residues(master@, p),
            vals@.len() == t,
            t == skeleton@.len(),
            t > 0,
            t + 2 <= usize::MAX,
            h.n == anchor@.len(),
            newton@.len() == t,
            modulus(p),
            forall|l: int| 0 <= l < skeleton@.len() ==> (#[trigger] skeleton@[l])@.len() == anchor@.len(),
            forall|l: int|
                0 <= l < newton@.len() ==> (#[trigger] newton@[l]).wf(p) && newton@[l].xs().len()
                    <= i + 1,
        decreases MAX_POINTS - i,
    {
        let xk = crate::modp::point(&[seed, 2, k as u64, i], p);
        x.set(k, xk);
        i += 1;
        if newton[0].contains(xk) {
            continue;
        }
        let mut l: usize = 0;
        while l < k
            invariant
                l <= k,
                k < x@.len(),
                x@.len() == anchor@.len(),
                residues(x@, p),
                modulus(p),
            decreases k - l,
        {
            x.set(l, 1);
            l += 1;
        }
        let mut w: Vec<u64> = Vec::new();
        let mut s: usize = 0;
        while s <= t
            invariant
                s <= t + 1,
                t + 2 <= usize::MAX,
                w@.len() <= s,
                x@.len() == anchor@.len(),
                k < x@.len(),
                r@.len() == k,
                residues(r@, p),
                residues(x@, p),
                residues(w@, p),
                modulus(p),
            decreases t + 1 - s,
        {
            let mut l: usize = 0;
            while l < k
                invariant
                    l <= k,
                    k < x@.len(),
                    x@.len() == anchor@.len(),
                    r@.len() == k,
                    residues(x@, p),
                    modulus(p),
                decreases k - l,
            {
                let v = crate::modp::mul(x[l], r[l], p);
                x.set(l, v);
                l += 1;
            }
            match sample(f, &x, p) {
                Some(y) => w.push(y),
                None => break,
            }
            s += 1;
        }
        if w.len() <= t {
            continue;
        }
        let mut head: Vec<u64> = Vec::new();
        let mut l: usize = 0;
        while l < t
            invariant
                l <= t,
                t < w@.len(),
                head@.len() == l,
                residues(w@, p),
                residues(head@, p),
            decreases t - l,
        {
            head.push(w[l]);
            l += 1;
        }
        let c = vandermonde::solve(&vals, &master, &head, p);
        let e = (t as u64) + 1;
        let mut check: u64 = 0;
        let mut l: usize = 0;
        while l < t
            invariant
                l <= t,
                c@.len() == t,
                vals@.len() == t,
                residues(c@, p),
                residues(vals@, p),
                modulus(p),
                check < p,
            decreases t - l,
        {
            let pw = crate::modp::pow(vals[l], e, p);
            let term = crate::modp::mul(c[l], pw, p);
            check = crate::modp::add(check, term, p);
            l += 1;
        }
        if check != w[t] {
            return None;
        }
        let mut changed = false;
        let mut l: usize = 0;
        while l < t
            invariant
                l <= t,
                c@.len() == t,
                newton@.len() == t,
                residues(c@, p),
                xk < p,
                modulus(p),
                i <= MAX_POINTS,
                forall|j: int|
                    0 <= j < l ==> (#[trigger] newton@[j]).wf(p) && newton@[j].xs().len() <= i + 1,
                forall|j: int|
                    l <= j < t ==> (#[trigger] newton@[j]).wf(p) && newton@[j].xs().len() <= i,
            decreases t - l,
        {
            assert(c@[l as int] < p);
            let mut nw = newton.remove(l);
            let ch = nw.add(xk, c[l], p);
            newton.insert(l, nw);
            changed = changed || ch;
            l += 1;
        }
        if !changed {
            return Some(assemble(h.n, k, &skeleton, &newton, p));
        }
    }
    None
}

} // verus!
