//! Sparse polynomials over GF(p) in lex order (variable 0 most significant), terms descending.

use crate::arith::{lemma_add_mod_both, lemma_mul_mod_both, power, prime};
use crate::modp::{inv_spec, modulus};
use crate::univariate::{self as uni, Dense, peval, residues, trimmed};
use vstd::arithmetic::div_mod::{lemma_mod_twice, lemma_small_mod};
use vstd::multiset::Multiset;
use vstd::prelude::*;

verus! {

/// Exponents of a monomial, one per variable.
pub type Exps = Vec<u32>;

#[derive(Clone, Debug, PartialEq, Eq)]
pub struct ModPoly {
    pub n: usize,
    pub terms: Vec<(Exps, u64)>,
}

/// `a > b` in lex order, the first variable most significant; a shorter prefix is smaller.
pub open spec fn lex_gt(a: Seq<u32>, b: Seq<u32>) -> bool
    decreases a.len(),
{
    if a.len() == 0 {
        false
    } else if b.len() == 0 {
        true
    } else if a[0] != b[0] {
        a[0] > b[0]
    } else {
        lex_gt(a.drop_first(), b.drop_first())
    }
}

/// `prod_(i < j) x_i^(e_i)` over the integers.
pub open spec fn mono(e: Seq<u32>, x: Seq<u64>, j: nat) -> int
    decreases j,
{
    if j == 0 {
        1
    } else {
        mono(e, x, (j - 1) as nat) * power(x[j - 1] as int, e[j - 1] as nat)
    }
}

/// The monomial `e` at the point `x`, over the variables that both name.
pub open spec fn mono_at(e: Seq<u32>, x: Seq<u64>) -> int {
    mono(e, x, vstd::math::min(e.len() as int, x.len() as int) as nat)
}

/// `sum_(t < j) c_t m_t(x)` over the integers.
pub open spec fn terms_eval(ts: Seq<(Exps, u64)>, x: Seq<u64>, j: nat) -> int
    decreases j,
{
    if j == 0 {
        0
    } else {
        terms_eval(ts, x, (j - 1) as nat) + ts[j - 1].1 * mono_at(ts[j - 1].0@, x)
    }
}

impl ModPoly {
    /// The value at `x` over the integers.
    pub open spec fn value(&self, x: Seq<u64>) -> int {
        terms_eval(self.terms@, x, self.terms@.len())
    }

    /// Every term has one exponent per variable and a residue coefficient.
    pub open spec fn shaped(&self, p: u64) -> bool {
        forall|t: int|
            0 <= t < self.terms@.len() ==> {
                &&& (#[trigger] self.terms@[t]).0@.len() == self.n
                &&& self.terms@[t].1 < p
            }
    }

    /// Shaped, with nonzero coefficients and strictly descending monomials.
    pub open spec fn wf(&self, p: u64) -> bool {
        &&& self.shaped(p)
        &&& forall|t: int| 0 <= t < self.terms@.len() ==> (#[trigger] self.terms@[t]).1 != 0
        &&& forall|s: int, t: int|
            0 <= s < t < self.terms@.len() ==> lex_gt(
                #[trigger] self.terms@[s].0@,
                #[trigger] self.terms@[t].0@,
            )
    }

    /// The leading monomial.
    pub fn lm(&self) -> (e: &[u32])
        requires
            self.terms.len() > 0,
        ensures
            e@ == self.terms@[0].0@,
    {
        self.terms[0].0.as_slice()
    }

    /// Every coefficient times `c`.
    pub fn scale(&mut self, c: u64, p: u64)
        requires
            p > 0,
        ensures
            final(self).n == old(self).n,
            final(self).terms@.len() == old(self).terms@.len(),
            forall|t: int|
                0 <= t < old(self).terms@.len() ==> {
                    &&& (#[trigger] final(self).terms@[t]).0@ == old(self).terms@[t].0@
                    &&& final(self).terms@[t].1 == (old(self).terms@[t].1 * c) % (p as int)
                },
    {
        let ghost t0 = self.terms@;
        let mut i: usize = 0;
        while i < self.terms.len()
            invariant
                p > 0,
                self.terms@.len() == t0.len(),
                self.n == old(self).n,
                t0 == old(self).terms@,
                i <= t0.len(),
                forall|t: int|
                    0 <= t < t0.len() ==> (#[trigger] self.terms@[t]).0@ == t0[t].0@,
                forall|t: int|
                    0 <= t < i ==> (#[trigger] self.terms@[t]).1 == (t0[t].1 * c) % (p as int),
                forall|t: int| i <= t < t0.len() ==> (#[trigger] self.terms@[t]).1 == t0[t].1,
            decreases t0.len() - i,
        {
            let v = crate::modp::mul(self.terms[i].1, c, p);
            let e = self.terms[i].0.clone();
            self.terms.set(i, (e, v));
            i += 1;
        }
    }

    /// The monomials, in order.
    pub fn support(&self) -> (s: Vec<Exps>)
        ensures
            s@.len() == self.terms@.len(),
            forall|t: int| 0 <= t < s@.len() ==> (#[trigger] s@[t])@ == self.terms@[t].0@,
    {
        let mut out: Vec<Exps> = Vec::new();
        let mut i: usize = 0;
        while i < self.terms.len()
            invariant
                i <= self.terms@.len(),
                out@.len() == i,
                forall|t: int| 0 <= t < i ==> (#[trigger] out@[t])@ == self.terms@[t].0@,
            decreases self.terms@.len() - i,
        {
            out.push(self.terms[i].0.clone());
            i += 1;
        }
        out
    }

    /// The highest power of `x_k`, 0 for the zero polynomial.
    pub fn degree(&self, k: usize) -> (d: usize)
        requires
            forall|t: int| 0 <= t < self.terms@.len() ==> k < (#[trigger] self.terms@[t]).0@.len(),
        ensures
            forall|t: int| 0 <= t < self.terms@.len() ==> (#[trigger] self.terms@[t]).0@[k as int] <= d,
            self.terms@.len() == 0 ==> d == 0,
            self.terms@.len() > 0 ==> exists|t: int|
                0 <= t < self.terms@.len() && (#[trigger] self.terms@[t]).0@[k as int] == d,
    {
        let mut d: usize = 0;
        let mut i: usize = 0;
        while i < self.terms.len()
            invariant
                i <= self.terms@.len(),
                forall|t: int| 0 <= t < self.terms@.len() ==> k < (#[trigger] self.terms@[t]).0@.len(),
                forall|t: int| 0 <= t < i ==> (#[trigger] self.terms@[t]).0@[k as int] <= d,
                i > 0 ==> exists|t: int| 0 <= t < i && (#[trigger] self.terms@[t]).0@[k as int] == d,
                i == 0 ==> d == 0,
            decreases self.terms@.len() - i,
        {
            let x = self.terms[i].0[k] as usize;
            if i == 0 || x > d {
                d = x;
                assert(self.terms@[i as int].0@[k as int] == d);
            } else {
                let ghost w = choose|t: int| 0 <= t < i && (#[trigger] self.terms@[t]).0@[k as int] == d;
                assert(0 <= w < i + 1 && self.terms@[w].0@[k as int] == d);
            }
            i += 1;
        }
        d
    }

    /// The value at `x` modulo `p`; variables beyond `x` count as absent.
    pub fn eval(&self, x: &[u64], p: u64) -> (r: u64)
        requires
            self.shaped(p),
            modulus(p),
        ensures
            r == self.value(x@) % (p as int),
            r < p,
    {
        let ghost m = p as int;
        let mut acc: u64 = 0;
        let mut t: usize = 0;
        proof {
            lemma_small_mod(0, p as nat);
        }
        while t < self.terms.len()
            invariant
                t <= self.terms@.len(),
                self.shaped(p),
                modulus(p),
                m == p as int,
                acc < p,
                acc == terms_eval(self.terms@, x@, t as nat) % m,
            decreases self.terms@.len() - t,
        {
            let e = &self.terms[t].0;
            let c = self.terms[t].1;
            let len = if e.len() < x.len() {
                e.len()
            } else {
                x.len()
            };
            let mut v = c;
            let mut i: usize = 0;
            proof {
                assert(c < p);
                lemma_small_mod(c as nat, p as nat);
            }
            while i < len
                invariant
                    i <= len,
                    len <= e@.len(),
                    len <= x@.len(),
                    modulus(p),
                    m == p as int,
                    v < p,
                    v == (c * mono(e@, x@, i as nat)) % m,
                decreases len - i,
            {
                let w = crate::modp::pow(x[i], e[i] as u64, p);
                let ghost v0 = v;
                v = crate::modp::mul(v, w, p);
                proof {
                    let xi = power(x@[i as int] as int, e@[i as int] as nat);
                    let mo = mono(e@, x@, i as nat);
                    if e@[i as int] == 0 {
                        assert(xi == 1);
                        lemma_small_mod(1, p as nat);
                    }
                    lemma_mod_twice(xi, m);
                    lemma_mod_twice(c * mo, m);
                    lemma_mul_mod_both(v0 as int, w as int, c * mo, xi, m);
                    assert((c * mo) * xi == c * (mo * xi)) by (nonlinear_arith);
                }
                i += 1;
            }
            let ghost acc0 = acc;
            acc = crate::modp::add(acc, v, p);
            proof {
                let tv = terms_eval(self.terms@, x@, t as nat);
                let term = c * mono_at(e@, x@);
                assert(len == vstd::math::min(e@.len() as int, x@.len() as int));
                lemma_mod_twice(tv, m);
                lemma_mod_twice(term, m);
                lemma_add_mod_both(acc0 as int, v as int, tv, term, m);
            }
            t += 1;
        }
        acc
    }

    /// Scaled to leading coefficient 1.
    pub fn monic(self, p: u64) -> (r: Self)
        requires
            self.terms.len() > 0,
            self.shaped(p),
            modulus(p),
        ensures
            r.n == self.n,
            r.terms@.len() == self.terms@.len(),
            forall|t: int|
                0 <= t < self.terms@.len() ==> {
                    &&& (#[trigger] r.terms@[t]).0@ == self.terms@[t].0@
                    &&& r.terms@[t].1 == (self.terms@[t].1 * inv_spec(
                        self.terms@[0].1 as int,
                        p as int,
                    )) % (p as int)
                },
            prime(p as int) && self.terms@[0].1 != 0 ==> r.terms@[0].1 == 1,
    {
        let mut s = self;
        let lead = s.terms[0].1;
        let l = crate::modp::inv(lead, p);
        s.scale(l, p);
        proof {
            if prime(p as int) && lead != 0 {
                lemma_small_mod(lead as nat, p as nat);
                lemma_small_mod(1, p as nat);
            }
        }
        s
    }
}

/// `e` with the exponent of `x_k` set to 0.
pub open spec fn key_of(e: Seq<u32>, k: int) -> Seq<u32> {
    e.update(k, 0)
}

/// `d` with coefficient `i` set to `c`, padded with zeros if it was shorter.
pub open spec fn place(d: Seq<u64>, i: int, c: u64) -> Seq<u64> {
    (if d.len() <= i {
        d + Seq::new((i + 1 - d.len()) as nat, |j: int| 0u64)
    } else {
        d
    }).update(i, c)
}

/// The first `j` terms grouped by consecutive runs of equal monomials in all but `x_k`, each run
/// collected as a dense polynomial in `x_k`.
pub open spec fn groups_spec(ts: Seq<(Exps, u64)>, k: int, j: nat) -> Seq<(Seq<u32>, Seq<u64>)>
    decreases j,
{
    if j == 0 {
        seq![]
    } else {
        let g = groups_spec(ts, k, (j - 1) as nat);
        let e = ts[j - 1].0@;
        let key = key_of(e, k);
        if g.len() > 0 && g.last().0 == key {
            g.update(g.len() - 1, (key, place(g.last().1, e[k] as int, ts[j - 1].1)))
        } else {
            g.push((key, place(seq![], e[k] as int, ts[j - 1].1)))
        }
    }
}

/// Whether two exponent vectors are equal.
pub fn exps_eq(a: &[u32], b: &[u32]) -> (r: bool)
    ensures
        r == (a@ == b@),
{
    if a.len() != b.len() {
        return false;
    }
    let mut i: usize = 0;
    while i < a.len()
        invariant
            a.len() == b.len(),
            i <= a.len(),
            forall|j: int| 0 <= j < i ==> a@[j] == b@[j],
        decreases a.len() - i,
    {
        if a[i] != b[i] {
            return false;
        }
        i += 1;
    }
    assert(a@ =~= b@);
    true
}

fn place_exec(d: &mut Dense, i: usize, c: u64)
    requires
        i < usize::MAX,
    ensures
        final(d)@ == place(old(d)@, i as int, c),
{
    if d.len() <= i {
        let ghost d0 = d@;
        d.resize(i + 1, 0);
        assert(d@ =~= d0 + Seq::new((i + 1 - d0.len()) as nat, |j: int| 0u64));
    }
    d.set(i, c);
}

impl ModPoly {
    /// Coefficients in `x_k` of each monomial in `x_0..x_(k-1)`, assuming later variables are gone.
    pub fn groups(&self, k: usize) -> (out: Vec<(Exps, Dense)>)
        requires
            forall|t: int| 0 <= t < self.terms@.len() ==> k < (#[trigger] self.terms@[t]).0@.len(),
            forall|t: int| 0 <= t < self.terms@.len() ==> (#[trigger] self.terms@[t]).0@[k as int] < usize::MAX,
        ensures
            out@.len() == groups_spec(self.terms@, k as int, self.terms@.len()).len(),
            forall|g: int|
                0 <= g < out@.len() ==> ((#[trigger] out@[g]).0@, out@[g].1@) == groups_spec(
                    self.terms@,
                    k as int,
                    self.terms@.len(),
                )[g],
    {
        let mut out: Vec<(Exps, Dense)> = Vec::new();
        let mut t: usize = 0;
        while t < self.terms.len()
            invariant
                t <= self.terms@.len(),
                forall|s: int| 0 <= s < self.terms@.len() ==> k < (#[trigger] self.terms@[s]).0@.len(),
                forall|s: int| 0 <= s < self.terms@.len() ==> (#[trigger] self.terms@[s]).0@[k as int] < usize::MAX,
                out@.len() == groups_spec(self.terms@, k as int, t as nat).len(),
                forall|g: int|
                    0 <= g < out@.len() ==> ((#[trigger] out@[g]).0@, out@[g].1@) == groups_spec(
                        self.terms@,
                        k as int,
                        t as nat,
                    )[g],
            decreases self.terms@.len() - t,
        {
            let e = &self.terms[t].0;
            let c = self.terms[t].1;
            let mut key = e.clone();
            key.set(k, 0);
            assert(key@ =~= key_of(e@, k as int));
            let ghost g0 = groups_spec(self.terms@, k as int, t as nat);
            let fresh = if out.len() == 0 {
                true
            } else {
                !exps_eq(&out[out.len() - 1].0, &key)
            };
            let i = e[k] as usize;
            if fresh {
                let mut d: Dense = Vec::new();
                place_exec(&mut d, i, c);
                out.push((key, d));
            } else {
                let (lk, mut d) = out.pop().unwrap();
                place_exec(&mut d, i, c);
                out.push((lk, d));
            }
            proof {
                let g1 = groups_spec(self.terms@, k as int, (t + 1) as nat);
                assert(out@.len() == g1.len());
                assert forall|g: int| 0 <= g < out@.len() implies ((#[trigger] out@[g]).0@, out@[g].1@) == g1[g] by {
                    if g < out@.len() - 1 {
                    }
                }
            }
            t += 1;
        }
        out
    }
}

/// The terms of one group: `key` with `x_k^i` for each nonzero `d_i`, highest power first.
pub open spec fn expand_group(key: Seq<u32>, d: Seq<u64>, k: int, i: nat) -> Seq<(Seq<u32>, u64)>
    decreases i,
{
    if i == 0 {
        seq![]
    } else if d[i - 1] != 0 {
        seq![(key.update(k, (i - 1) as u32), d[i - 1])] + expand_group(key, d, k, (i - 1) as nat)
    } else {
        expand_group(key, d, k, (i - 1) as nat)
    }
}

/// The terms of the first `g` groups, in order.
pub open spec fn expand_groups(gs: Seq<(Exps, Dense)>, k: int, g: nat) -> Seq<(Seq<u32>, u64)>
    decreases g,
{
    if g == 0 {
        seq![]
    } else {
        expand_groups(gs, k, (g - 1) as nat) + expand_group(
            gs[g - 1].0@,
            gs[g - 1].1@,
            k,
            gs[g - 1].1@.len(),
        )
    }
}

/// The terms of a polynomial as exponent sequences.
pub open spec fn term_seq(ts: Seq<(Exps, u64)>) -> Seq<(Seq<u32>, u64)> {
    ts.map_values(|t: (Exps, u64)| (t.0@, t.1))
}

/// Every exponent is below `u32::MAX`, so one more still fits.
pub open spec fn small_exps(h: ModPoly) -> bool {
    forall|t: int, i: int|
        0 <= t < h.terms@.len() && 0 <= i < h.terms@[t].0@.len() ==> #[trigger] h.terms@[t].0@[i]
            < u32::MAX
}

/// Every exponent past variable `low` is zero.
pub open spec fn only_low(h: ModPoly, low: nat) -> bool {
    forall|t: int, i: int|
        0 <= t < h.terms@.len() && low < i < h.terms@[t].0@.len() ==> #[trigger] h.terms@[t].0@[i] == 0
}

/// Exponent vectors of length `n`, each below `u32::MAX`, zero past `low`.
pub open spec fn exps_ok(e: Seq<u32>, n: nat, low: nat) -> bool {
    &&& e.len() == n
    &&& forall|i: int| 0 <= i < e.len() ==> #[trigger] e[i] < u32::MAX
    &&& forall|i: int| low < i < e.len() ==> #[trigger] e[i] == 0
}

/// Groups with keys of `exps_ok` shape and dense residue polynomials short enough that every
/// power stays below `u32::MAX`.
pub open spec fn groups_ok(gs: Seq<(Exps, Dense)>, n: nat, low: nat, p: u64) -> bool {
    forall|g: int|
        0 <= g < gs.len() ==> exps_ok((#[trigger] gs[g]).0@, n, low) && residues(gs[g].1@, p)
            && gs[g].1@.len() <= u32::MAX
}

/// A polynomial all of whose terms come from `groups_ok` groups in `x_k` is sparse, with small
/// exponents, zero past `low`.
pub proof fn lemma_from_groups_shape(r: ModPoly, gs: Seq<(Exps, Dense)>, k: int, n: nat, low: nat, p: u64)
    requires
        r.n == n,
        0 <= k <= low,
        k < n,
        groups_ok(gs, n, low, p),
        forall|t: int| 0 <= t < r.terms@.len() ==> term_from(gs, k, gs.len() as int, (#[trigger] r.terms@[t]).0@, r.terms@[t].1),
    ensures
        r.shaped(p),
        forall|t: int| 0 <= t < r.terms@.len() ==> (#[trigger] r.terms@[t]).1 != 0,
        small_exps(r),
        only_low(r, low),
        forall|t: int| 0 <= t < r.terms@.len() ==> exps_ok((#[trigger] r.terms@[t]).0@, n, low),
{
    assert forall|t: int| 0 <= t < r.terms@.len() implies exps_ok((#[trigger] r.terms@[t]).0@, n, low)
        && r.terms@[t].1 < p && r.terms@[t].1 != 0 by {
        let e = r.terms@[t].0@;
        let c = r.terms@[t].1;
        assert(term_from(gs, k, gs.len() as int, e, c));
        let (g, i) = choose|g: int, i: int| g < gs.len() as int && #[trigger] term_from_at(gs, k, e, c, g, i);
        assert(term_from_at(gs, k, e, c, g, i));
        assert(exps_ok(gs[g].0@, n, low));
        assert(gs[g].1@[i] < p);
        assert forall|j: int| 0 <= j < e.len() implies #[trigger] e[j] < u32::MAX by {
            if j != k {
                assert(e[j] == gs[g].0@[j]);
            }
        }
        assert forall|j: int| low < j < e.len() implies #[trigger] e[j] == 0 by {
            assert(e[j] == gs[g].0@[j]);
        }
    }
    assert forall|t: int, i: int|
        0 <= t < r.terms@.len() && 0 <= i < r.terms@[t].0@.len() implies #[trigger] r.terms@[t].0@[i] < u32::MAX by {
        assert(exps_ok(r.terms@[t].0@, n, low));
    }
    assert forall|t: int, i: int|
        0 <= t < r.terms@.len() && low < i < r.terms@[t].0@.len() implies #[trigger] r.terms@[t].0@[i] == 0 by {
        assert(exps_ok(r.terms@[t].0@, n, low));
    }
}

/// The groups of terms with `exps_ok` exponents have `exps_ok` keys, with `x_k` cleared, and
/// dense polynomials short enough.
pub proof fn lemma_groups_keys(ts: Seq<(Exps, u64)>, k: int, j: nat, n: nat, low: nat)
    requires
        j <= ts.len(),
        0 <= k < n,
        forall|t: int| 0 <= t < ts.len() ==> exps_ok((#[trigger] ts[t]).0@, n, low),
    ensures
        forall|g: int|
            0 <= g < groups_spec(ts, k, j).len() ==> exps_ok((#[trigger] groups_spec(ts, k, j)[g]).0, n, low)
                && groups_spec(ts, k, j)[g].0[k] == 0 && groups_spec(ts, k, j)[g].1.len() <= u32::MAX,
    decreases j,
{
    if j > 0 {
        lemma_groups_keys(ts, k, (j - 1) as nat, n, low);
        let e = ts[j - 1].0@;
        assert(exps_ok(e, n, low));
        let key = key_of(e, k);
        assert(e[k] < u32::MAX);
        assert forall|i: int| 0 <= i < key.len() implies #[trigger] key[i] < u32::MAX by {
            if i != k {
                assert(key[i] == e[i]);
            }
        }
        assert forall|i: int| low < i < key.len() implies #[trigger] key[i] == 0 by {
            if i != k {
                assert(key[i] == e[i]);
            }
        }
        let c = ts[j - 1].1;
        let gprev = groups_spec(ts, k, (j - 1) as nat);
        let gnow = groups_spec(ts, k, j);
        assert(exps_ok(key, n, low));
        assert(key[k] == 0);
        if gprev.len() > 0 && gprev.last().0 == key {
            let d = place(gprev.last().1, e[k] as int, c);
            assert(gnow == gprev.update(gprev.len() - 1, (key, d)));
            assert(d.len() <= u32::MAX);
            assert forall|g: int| 0 <= g < gnow.len() implies exps_ok((#[trigger] gnow[g]).0, n, low)
                && gnow[g].0[k] == 0 && gnow[g].1.len() <= u32::MAX by {
                if g < gnow.len() - 1 {
                    assert(gnow[g] == gprev[g]);
                }
            }
        } else {
            let d = place(seq![], e[k] as int, c);
            assert(gnow == gprev.push((key, d)));
            assert(d.len() <= u32::MAX);
            assert forall|g: int| 0 <= g < gnow.len() implies exps_ok((#[trigger] gnow[g]).0, n, low)
                && gnow[g].0[k] == 0 && gnow[g].1.len() <= u32::MAX by {
                if g < gnow.len() - 1 {
                    assert(gnow[g] == gprev[g]);
                }
            }
        }
    }
}

/// Every group key is the monomial of one of the terms with `x_k` cleared.
pub proof fn lemma_groups_key_source(ts: Seq<(Exps, u64)>, k: int, j: nat)
    requires
        j <= ts.len(),
    ensures
        forall|g: int|
            0 <= g < groups_spec(ts, k, j).len() ==> exists|s: int|
                0 <= s < j && (#[trigger] groups_spec(ts, k, j)[g]).0 == key_of(ts[s].0@, k),
    decreases j,
{
    if j > 0 {
        lemma_groups_key_source(ts, k, (j - 1) as nat);
        let e = ts[j - 1].0@;
        let key = key_of(e, k);
        let c = ts[j - 1].1;
        let gprev = groups_spec(ts, k, (j - 1) as nat);
        let gnow = groups_spec(ts, k, j);
        if gprev.len() > 0 && gprev.last().0 == key {
            assert(gnow == gprev.update(gprev.len() - 1, (key, place(gprev.last().1, e[k] as int, c))));
        } else {
            assert(gnow == gprev.push((key, place(seq![], e[k] as int, c))));
        }
        assert forall|g: int| 0 <= g < gnow.len() implies exists|s: int|
            0 <= s < j && (#[trigger] gnow[g]).0 == key_of(ts[s].0@, k) by {
            if g < gprev.len() && !(gprev.len() > 0 && gprev.last().0 == key && g == gprev.len() - 1) {
                assert(gnow[g] == gprev[g]);
                let s = choose|s: int| 0 <= s < j - 1 && (#[trigger] gprev[g]).0 == key_of(ts[s].0@, k);
                assert(0 <= s < j);
            } else {
                assert(gnow[g].0 == key_of(ts[j - 1].0@, k));
            }
        }
    }
}

/// `e` is the monomial of one of the terms `ts` with the power of `x_k` changed to one below
/// `u32::MAX`.
pub open spec fn same_but(e: Seq<u32>, ts: Seq<(Exps, u64)>, k: int) -> bool {
    exists|s: int, i: u32| 0 <= s < ts.len() && i < u32::MAX && e == #[trigger] ts[s].0@.update(k, i)
}

/// The groups evaluated at a point keep the keys of the groups, with nonzero residues.
pub proof fn lemma_eval_groups_entries(gs: Seq<(Seq<u32>, Seq<u64>)>, a: u64, p: u64, g: nat)
    requires
        g <= gs.len(),
        p > 0,
    ensures
        forall|t: int|
            0 <= t < eval_groups(gs, a, p, g).len() ==> exists|h: int|
                0 <= h < g && (#[trigger] eval_groups(gs, a, p, g)[t]).0 == gs[h].0
                    && eval_groups(gs, a, p, g)[t].1 < p && eval_groups(gs, a, p, g)[t].1 != 0,
    decreases g,
{
    if g > 0 {
        lemma_eval_groups_entries(gs, a, p, (g - 1) as nat);
        let prev = eval_groups(gs, a, p, (g - 1) as nat);
        let v = (peval(gs[g - 1].1, a as int) % (p as int)) as u64;
        assert forall|t: int|
            0 <= t < eval_groups(gs, a, p, g).len() implies exists|h: int|
                0 <= h < g && (#[trigger] eval_groups(gs, a, p, g)[t]).0 == gs[h].0
                    && eval_groups(gs, a, p, g)[t].1 < p && eval_groups(gs, a, p, g)[t].1 != 0 by {
            if t < prev.len() {
                assert(eval_groups(gs, a, p, g)[t] == prev[t]);
                let h = choose|h: int| 0 <= h < g - 1 && (#[trigger] prev[t]).0 == gs[h].0 && prev[t].1 < p && prev[t].1 != 0;
                assert(0 <= h < g);
            } else {
                assert(eval_groups(gs, a, p, g)[t] == (gs[g - 1].0, v));
                assert(0 <= g - 1 < g);
            }
        }
    }
}

/// `(e, c)` is entry `i` of group `g`: the group's key with `x_k^i`, and a nonzero coefficient.
pub open spec fn term_from_at(gs: Seq<(Exps, Dense)>, k: int, e: Seq<u32>, c: u64, g: int, i: int) -> bool {
    &&& 0 <= g < gs.len()
    &&& 0 <= i < gs[g].1@.len()
    &&& e == gs[g].0@.update(k, i as u32)
    &&& c == gs[g].1@[i]
    &&& c != 0
}

/// `(e, c)` is a nonzero entry of one of the first `lim` groups.
pub open spec fn term_from(gs: Seq<(Exps, Dense)>, k: int, lim: int, e: Seq<u32>, c: u64) -> bool {
    exists|g: int, i: int| g < lim && #[trigger] term_from_at(gs, k, e, c, g, i)
}

proof fn lemma_term_from_grow(gs: Seq<(Exps, Dense)>, k: int, a: int, b: int, e: Seq<u32>, c: u64)
    requires
        a <= b,
        term_from(gs, k, a, e, c),
    ensures
        term_from(gs, k, b, e, c),
{
    let (g, i) = choose|g: int, i: int| g < a && #[trigger] term_from_at(gs, k, e, c, g, i);
    assert(term_from_at(gs, k, e, c, g, i));
}

impl ModPoly {
    /// The polynomial whose groups in `x_k` are `groups`.
    pub fn from_groups(n: usize, k: usize, groups: Vec<(Exps, Dense)>) -> (r: Self)
        requires
            forall|g: int| 0 <= g < groups@.len() ==> k < (#[trigger] groups@[g]).0@.len(),
            forall|g: int| 0 <= g < groups@.len() ==> (#[trigger] groups@[g]).1@.len() <= u32::MAX + 1,
        ensures
            r.n == n,
            term_seq(r.terms@) == expand_groups(groups@, k as int, groups@.len()),
            forall|t: int| 0 <= t < r.terms@.len() ==> term_from(groups@, k as int, groups@.len() as int, (#[trigger] r.terms@[t]).0@, r.terms@[t].1),
    {
        let mut terms: Vec<(Exps, u64)> = Vec::new();
        let mut g: usize = 0;
        while g < groups.len()
            invariant
                g <= groups@.len(),
                forall|h: int| 0 <= h < groups@.len() ==> k < (#[trigger] groups@[h]).0@.len(),
                forall|h: int| 0 <= h < groups@.len() ==> (#[trigger] groups@[h]).1@.len() <= u32::MAX + 1,
                term_seq(terms@) == expand_groups(groups@, k as int, g as nat),
                forall|t: int| 0 <= t < terms@.len() ==> term_from(groups@, k as int, g as int, (#[trigger] terms@[t]).0@, terms@[t].1),
            decreases groups@.len() - g,
        {
            let key = &groups[g].0;
            let d = &groups[g].1;
            let ghost before = term_seq(terms@);
            proof {
                assert forall|t: int| 0 <= t < terms@.len() implies term_from(groups@, k as int, g + 1, (#[trigger] terms@[t]).0@, terms@[t].1) by {
                    lemma_term_from_grow(groups@, k as int, g as int, g + 1, terms@[t].0@, terms@[t].1);
                }
            }
            let mut i = d.len();
            while i > 0
                invariant
                    i <= d@.len(),
                    d@.len() <= u32::MAX + 1,
                    k < key@.len(),
                    term_seq(terms@) + expand_group(key@, d@, k as int, i as nat) == before
                        + expand_group(key@, d@, k as int, d@.len()),
                    g < groups@.len(),
                    key@ == groups@[g as int].0@,
                    d@ == groups@[g as int].1@,
                    forall|t: int| 0 <= t < terms@.len() ==> term_from(groups@, k as int, g + 1, (#[trigger] terms@[t]).0@, terms@[t].1),
                decreases i,
            {
                i -= 1;
                let c = d[i];
                let ghost t0 = term_seq(terms@);
                if c != 0 {
                    let mut e = key.clone();
                    e.set(k, i as u32);
                    let ghost tt = terms@;
                    terms.push((e, c));
                    proof {
                        assert forall|t: int| 0 <= t < terms@.len() implies term_from(groups@, k as int, g + 1, (#[trigger] terms@[t]).0@, terms@[t].1) by {
                            if t < tt.len() {
                                assert(terms@[t] == tt[t]);
                            } else {
                                assert(terms@[t].0@ == groups@[g as int].0@.update(k as int, i as u32));
                                assert(term_from_at(groups@, k as int, terms@[t].0@, terms@[t].1, g as int, i as int));
                            }
                        }
                        assert(term_seq(terms@) =~= t0.push((key@.update(k as int, i as u32), c)));
                        assert(expand_group(key@, d@, k as int, (i + 1) as nat) =~= seq![(key@.update(k as int, i as u32), c)] + expand_group(key@, d@, k as int, i as nat));
                        assert(t0.push((key@.update(k as int, i as u32), c)) + expand_group(key@, d@, k as int, i as nat) =~= t0 + expand_group(key@, d@, k as int, (i + 1) as nat));
                    }
                }
            }
            proof {
                assert(expand_group(key@, d@, k as int, 0) =~= seq![]);
                assert(term_seq(terms@) =~= before + expand_group(key@, d@, k as int, d@.len()));
            }
            g += 1;
        }
        ModPoly { n, terms }
    }
}

/// Every dense polynomial of a grouping of residues holds residues.
pub proof fn lemma_groups_residues(ts: Seq<(Exps, u64)>, k: int, j: nat, p: u64)
    requires
        j <= ts.len(),
        0 <= k,
        forall|t: int| 0 <= t < ts.len() ==> (#[trigger] ts[t]).1 < p,
        forall|t: int| 0 <= t < ts.len() ==> k < (#[trigger] ts[t]).0@.len(),
    ensures
        forall|g: int|
            0 <= g < groups_spec(ts, k, j).len() ==> residues(#[trigger] groups_spec(ts, k, j)[g].1, p),
        forall|g: int|
            0 <= g < groups_spec(ts, k, j).len() ==> k < (#[trigger] groups_spec(ts, k, j)[g]).0.len()
                && groups_spec(ts, k, j)[g].1.len() <= u32::MAX + 1,
    decreases j,
{
    if j > 0 {
        lemma_groups_residues(ts, k, (j - 1) as nat, p);
        let gs = groups_spec(ts, k, (j - 1) as nat);
        let e = ts[j - 1].0@;
        assert(ts[j - 1].1 < p);
        assert(k < e.len());
        let i = e[k] as int;
        assert forall|d: Seq<u64>| d.len() <= u32::MAX + 1 implies (#[trigger] place(d, i, ts[j - 1].1)).len() <= u32::MAX + 1 by {}
        assert forall|d: Seq<u64>| residues(d, p) implies residues(#[trigger] place(d, i, ts[j - 1].1), p) by {
            let pd = place(d, i, ts[j - 1].1);
            assert forall|l: int| 0 <= l < pd.len() implies #[trigger] pd[l] < p by {
                if l != i && l < d.len() {
                }
            }
        }
        assert(residues(Seq::<u64>::empty(), p));
    }
}

/// The groups evaluated at `x_k = a`, dropping those that vanish.
pub open spec fn eval_groups(gs: Seq<(Seq<u32>, Seq<u64>)>, a: u64, p: u64, g: nat) -> Seq<(Seq<u32>, u64)>
    decreases g,
{
    if g == 0 {
        seq![]
    } else {
        let prev = eval_groups(gs, a, p, (g - 1) as nat);
        let v = (peval(gs[g - 1].1, a as int) % (p as int)) as u64;
        if v != 0 {
            prev.push((gs[g - 1].0, v))
        } else {
            prev
        }
    }
}

/// `prod_(i < j, i != k) x_i^(e_i)` over the integers.
pub open spec fn mono_except(e: Seq<u32>, x: Seq<u64>, k: int, j: nat) -> int
    decreases j,
{
    if j == 0 {
        1
    } else if j - 1 == k {
        mono_except(e, x, k, (j - 1) as nat)
    } else {
        mono_except(e, x, k, (j - 1) as nat) * power(x[j - 1] as int, e[j - 1] as nat)
    }
}

/// Coefficient of `x_k^j` after substituting `x` for the other variables in the first `u` terms.
pub open spec fn except_coef(ts: Seq<(Exps, u64)>, k: int, x: Seq<u64>, j: int, u: nat) -> int
    decreases u,
{
    if u == 0 {
        0
    } else {
        except_coef(ts, k, x, j, (u - 1) as nat) + (if ts[u - 1].0@[k] == j {
            ts[u - 1].1 * mono_except(ts[u - 1].0@, x, k, ts[u - 1].0@.len())
        } else {
            0
        })
    }
}

impl ModPoly {
    /// `x_k = a`, with the other variables kept.
    pub fn eval_var(&self, k: usize, a: u64, p: u64) -> (r: Self)
        requires
            self.shaped(p),
            modulus(p),
            k < self.n,
            forall|t: int| 0 <= t < self.terms@.len() ==> (#[trigger] self.terms@[t]).0@[k as int] < usize::MAX,
        ensures
            r.n == self.n,
            term_seq(r.terms@) == eval_groups(
                groups_spec(self.terms@, k as int, self.terms@.len()),
                a,
                p,
                groups_spec(self.terms@, k as int, self.terms@.len()).len(),
            ),
            forall|t: int| 0 <= t < r.terms@.len() ==> (#[trigger] r.terms@[t]).1 < p && r.terms@[t].1 != 0
                && exists|s: int| 0 <= s < self.terms@.len() && r.terms@[t].0@ == key_of(self.terms@[s].0@, k as int),
    {
        let gs = self.groups(k);
        let ghost spec_gs = groups_spec(self.terms@, k as int, self.terms@.len());
        proof {
            lemma_groups_residues(self.terms@, k as int, self.terms@.len(), p);
        }
        let mut terms: Vec<(Exps, u64)> = Vec::new();
        let mut g: usize = 0;
        while g < gs.len()
            invariant
                g <= gs@.len(),
                gs@.len() == spec_gs.len(),
                forall|h: int| 0 <= h < gs@.len() ==> ((#[trigger] gs@[h]).0@, gs@[h].1@) == spec_gs[h],
                forall|h: int| 0 <= h < spec_gs.len() ==> residues(#[trigger] spec_gs[h].1, p),
                modulus(p),
                term_seq(terms@) == eval_groups(spec_gs, a, p, g as nat),
            decreases gs@.len() - g,
        {
            assert(gs@[g as int].1@ == spec_gs[g as int].1);
            let v = uni::eval(&gs[g].1, a, p);
            if v != 0 {
                let ghost t0 = term_seq(terms@);
                terms.push((gs[g].0.clone(), v));
                assert(term_seq(terms@) =~= t0.push((spec_gs[g as int].0, v)));
            }
            g += 1;
        }
        let r = ModPoly { n: self.n, terms };
        proof {
            lemma_eval_groups_entries(spec_gs, a, p, spec_gs.len());
            lemma_groups_key_source(self.terms@, k as int, self.terms@.len());
            let ev = eval_groups(spec_gs, a, p, spec_gs.len());
            assert forall|t: int| 0 <= t < r.terms@.len() implies (#[trigger] r.terms@[t]).1 < p && r.terms@[t].1 != 0
                && exists|s: int| 0 <= s < self.terms@.len() && r.terms@[t].0@ == key_of(self.terms@[s].0@, k as int) by {
                assert(term_seq(r.terms@)[t] == (r.terms@[t].0@, r.terms@[t].1));
                assert(ev[t] == (r.terms@[t].0@, r.terms@[t].1));
                let h = choose|h: int| 0 <= h < spec_gs.len() && (#[trigger] ev[t]).0 == spec_gs[h].0 && ev[t].1 < p && ev[t].1 != 0;
                let s = choose|s: int| 0 <= s < self.terms@.len() && (#[trigger] spec_gs[h]).0 == key_of(self.terms@[s].0@, k as int);
                assert(r.terms@[t].0@ == key_of(self.terms@[s].0@, k as int));
            }
        }
        r
    }

    /// Substitute `point[i]` for every `x_i` with `i != k`, leaving a dense polynomial in `x_k`.
    pub fn eval_except(&self, k: usize, point: &[u64], p: u64) -> (d: Dense)
        requires
            self.shaped(p),
            modulus(p),
            forall|t: int| 0 <= t < self.terms@.len() ==> k < (#[trigger] self.terms@[t]).0@.len(),
            forall|t: int| 0 <= t < self.terms@.len() ==> (#[trigger] self.terms@[t]).0@[k as int] < usize::MAX,
            forall|t: int, i: int|
                0 <= t < self.terms@.len() && 0 <= i < self.terms@[t].0@.len() && i != k
                    && #[trigger] self.terms@[t].0@[i] != 0 ==> i < point@.len(),
        ensures
            residues(d@, p),
            trimmed(d@),
            forall|j: int| 0 <= j < d@.len() ==> #[trigger] d@[j] == except_coef(self.terms@, k as int, point@, j, self.terms@.len()) % (p as int),
            forall|j: int| j >= d@.len() ==> #[trigger] except_coef(self.terms@, k as int, point@, j, self.terms@.len()) % (p as int) == 0,
            forall|z: int| #[trigger] peval(d@, z) % (p as int) == except_value(self.terms@, k as int, point@, z, self.terms@.len()) % (p as int),
    {
        let ghost m = p as int;
        let ghost ts = self.terms@;
        let top = self.degree(k);
        let len = top + 1;
        let mut d: Dense = vec![0; len];
        let mut t: usize = 0;
        proof {
            lemma_small_mod(0, p as nat);
        }
        while t < self.terms.len()
            invariant
                ts == self.terms@,
                t <= ts.len(),
                d@.len() == len,
                self.shaped(p),
                modulus(p),
                m == p as int,
                residues(d@, p),
                forall|s: int| 0 <= s < ts.len() ==> k < (#[trigger] ts[s]).0@.len(),
                forall|s: int| 0 <= s < ts.len() ==> (#[trigger] ts[s]).0@[k as int] < len,
                forall|s: int, i: int|
                    0 <= s < ts.len() && 0 <= i < ts[s].0@.len() && i != k && #[trigger] ts[s].0@[i] != 0 ==> i < point@.len(),
                forall|j: int| 0 <= j < len ==> #[trigger] d@[j] == except_coef(ts, k as int, point@, j, t as nat) % m,
            decreases ts.len() - t,
        {
            let e = &self.terms[t].0;
            let c = self.terms[t].1;
            assert(c < p);
            let mut v = c;
            let mut i: usize = 0;
            proof {
                lemma_small_mod(c as nat, p as nat);
            }
            while i < e.len()
                invariant
                    i <= e@.len(),
                    e@ == ts[t as int].0@,
                    k < e@.len(),
                    modulus(p),
                    m == p as int,
                    v < p,
                    forall|l: int| 0 <= l < e@.len() && l != k && #[trigger] e@[l] != 0 ==> l < point@.len(),
                    v == (c * mono_except(e@, point@, k as int, i as nat)) % m,
                decreases e@.len() - i,
            {
                let ghost v0 = v;
                let ghost mo = mono_except(e@, point@, k as int, i as nat);
                if i != k && e[i] != 0 {
                    let w = crate::modp::pow(point[i], e[i] as u64, p);
                    v = crate::modp::mul(v, w, p);
                    proof {
                        let xi = power(point@[i as int] as int, e@[i as int] as nat);
                        lemma_mod_twice(xi, m);
                        lemma_mod_twice(c * mo, m);
                        lemma_mul_mod_both(v0 as int, w as int, c * mo, xi, m);
                        assert((c * mo) * xi == c * (mo * xi)) by (nonlinear_arith);
                    }
                } else {
                    proof {
                        if i != k {
                            assert(power(point@[i as int] as int, 0) == 1);
                            assert(mo * 1 == mo);
                        }
                    }
                }
                i += 1;
            }
            let j = e[k] as usize;
            let ghost d0 = d@;
            let s = crate::modp::add(d[j], v, p);
            d.set(j, s);
            proof {
                let term = c * mono_except(e@, point@, k as int, e@.len());
                assert forall|jj: int| 0 <= jj < len implies #[trigger] d@[jj] == except_coef(ts, k as int, point@, jj, (t + 1) as nat) % m by {
                    if jj == j {
                        let prev = except_coef(ts, k as int, point@, jj, t as nat);
                        lemma_mod_twice(prev, m);
                        lemma_mod_twice(term, m);
                        lemma_add_mod_both(d0[jj] as int, v as int, prev, term, m);
                    } else {
                        assert(d@[jj] == d0[jj]);
                    }
                }
            }
            t += 1;
        }
        let ghost untrimmed = d@;
        uni::trim(&mut d);
        proof {
            uni::lemma_trim_eval(untrimmed, 0);
            assert forall|jj: int| jj >= d@.len() implies #[trigger] except_coef(ts, k as int, point@, jj, ts.len()) % m == 0 by {
                if jj < len {
                    assert(untrimmed[jj] == 0);
                } else {
                    lemma_except_coef_high(ts, k as int, point@, jj, ts.len(), len as int);
                    lemma_small_mod(0, p as nat);
                }
            }
            assert forall|jj: int| 0 <= jj < d@.len() implies #[trigger] d@[jj] < p by {
                assert(d@[jj] == untrimmed[jj]);
            }
            assert forall|z: int| #[trigger] peval(d@, z) % m == except_value(ts, k as int, point@, z, ts.len()) % m by {
                let l = len as nat;
                let f = |j: int| except_coef(ts, k as int, point@, j, ts.len());
                assert forall|j: int| d@.len() <= j < l implies #[trigger] uni::coef(d@)(j) == 0 by {}
                uni::lemma_ev_zero_tail(uni::coef(d@), d@.len(), l, z);
                assert forall|j: int| 0 <= j < l implies #[trigger] uni::coef(d@)(j) % m == f(j) % m by {
                    if j < d@.len() {
                        lemma_mod_twice(except_coef(ts, k as int, point@, j, ts.len()), m);
                    } else {
                        lemma_small_mod(0, p as nat);
                    }
                }
                uni::lemma_ev_mod(uni::coef(d@), f, l, z, m);
                lemma_except_sum(ts, k as int, point@, z, ts.len(), l);
                uni::lemma_ev_ext(f, |j: int| except_coef(ts, k as int, point@, j, ts.len()), l, z);
            }
        }
        d
    }
}

/// The first `u` terms at `x` with `z` for `x_k`, over the integers.
pub open spec fn except_value(ts: Seq<(Exps, u64)>, k: int, x: Seq<u64>, z: int, u: nat) -> int
    decreases u,
{
    if u == 0 {
        0
    } else {
        except_value(ts, k, x, z, (u - 1) as nat) + ts[u - 1].1 * mono_except(ts[u - 1].0@, x, k, ts[u - 1].0@.len())
            * power(z, ts[u - 1].0@[k] as nat)
    }
}

/// A single term `w x^a` summed over `x^0 .. x^(l-1)`.
proof fn lemma_ev_single(a: int, w: int, l: nat, z: int)
    requires
        0 <= a < l,
    ensures
        uni::ev(|j: int| if j == a { w } else { 0 }, l, z) == w * power(z, a as nat),
    decreases l,
{
    let f = |j: int| if j == a { w } else { 0 };
    if l == a + 1 {
        assert forall|j: int| 0 <= j < a implies #[trigger] f(j) == 0 by {}
        uni::lemma_ev_zero_tail(f, 0, a as nat, z);
    } else {
        lemma_ev_single(a, w, (l - 1) as nat, z);
        assert(f(l - 1) == 0);
        assert(0 * power(z, (l - 1) as nat) == 0);
    }
}

/// Summing the coefficients of `x_k` against its powers gives the substituted value.
proof fn lemma_except_sum(ts: Seq<(Exps, u64)>, k: int, x: Seq<u64>, z: int, u: nat, l: nat)
    requires
        u <= ts.len(),
        forall|s: int| 0 <= s < ts.len() ==> (#[trigger] ts[s]).0@[k] < l,
    ensures
        uni::ev(|j: int| except_coef(ts, k, x, j, u), l, z) == except_value(ts, k, x, z, u),
    decreases u,
{
    let f = |j: int| except_coef(ts, k, x, j, u);
    if u == 0 {
        assert forall|j: int| 0 <= j < l implies #[trigger] f(j) == 0 by {}
        uni::lemma_ev_zero_tail(f, 0, l, z);
    } else {
        lemma_except_sum(ts, k, x, z, (u - 1) as nat, l);
        let a = ts[u - 1].0@[k] as int;
        let w = ts[u - 1].1 * mono_except(ts[u - 1].0@, x, k, ts[u - 1].0@.len());
        let g = |j: int| except_coef(ts, k, x, j, (u - 1) as nat);
        let h = |j: int| if j == a { w } else { 0 };
        assert(a < l);
        uni::lemma_ev_ext(f, |j: int| g(j) + h(j), l, z);
        uni::lemma_ev_add(g, h, l, z);
        lemma_ev_single(a, w, l, z);
        uni::lemma_ev_ext(g, |j: int| except_coef(ts, k, x, j, (u - 1) as nat), l, z);
    }
}

/// No term reaches a power of `x_k` at or above `len`.
proof fn lemma_except_coef_high(ts: Seq<(Exps, u64)>, k: int, x: Seq<u64>, j: int, u: nat, len: int)
    requires
        u <= ts.len(),
        j >= len,
        forall|s: int| 0 <= s < ts.len() ==> (#[trigger] ts[s]).0@[k] < len,
    ensures
        except_coef(ts, k, x, j, u) == 0,
    decreases u,
{
    if u > 0 {
        lemma_except_coef_high(ts, k, x, j, (u - 1) as nat, len);
        assert(ts[u - 1].0@[k] < len);
    }
}

/// With nonzero coefficients every group's dense polynomial has a nonzero leading coefficient.
pub proof fn lemma_groups_trimmed(ts: Seq<(Exps, u64)>, k: int, j: nat)
    requires
        j <= ts.len(),
        0 <= k,
        forall|t: int| 0 <= t < ts.len() ==> (#[trigger] ts[t]).1 != 0,
        forall|t: int| 0 <= t < ts.len() ==> k < (#[trigger] ts[t]).0@.len(),
    ensures
        forall|g: int|
            0 <= g < groups_spec(ts, k, j).len() ==> (#[trigger] groups_spec(ts, k, j)[g]).1.len()
                > 0 && groups_spec(ts, k, j)[g].1.last() != 0,
    decreases j,
{
    if j > 0 {
        lemma_groups_trimmed(ts, k, (j - 1) as nat);
        let e = ts[j - 1].0@;
        let c = ts[j - 1].1;
        assert(c != 0);
        assert(k < e.len());
        let i = e[k] as int;
        assert forall|d: Seq<u64>| (d.len() == 0 || d.last() != 0) implies (#[trigger] place(d, i, c)).len() > 0 && place(d, i, c).last() != 0 by {
            let pd = place(d, i, c);
            if d.len() <= i {
                assert(pd.len() == i + 1);
            } else {
                assert(pd.len() == d.len());
                if i != d.len() - 1 {
                    assert(pd[d.len() - 1] == d[d.len() - 1]);
                }
            }
        }
        let g0 = groups_spec(ts, k, (j - 1) as nat);
        let g1 = groups_spec(ts, k, j);
        let key = key_of(e, k);
        assert(Seq::<u64>::empty().len() == 0);
        if g0.len() > 0 && g0.last().0 == key {
            assert(g1 == g0.update(g0.len() - 1, (key, place(g0.last().1, i, c))));
            assert forall|g: int| 0 <= g < g1.len() implies (#[trigger] g1[g]).1.len() > 0 && g1[g].1.last() != 0 by {
                if g < g0.len() - 1 {
                    assert(g1[g] == g0[g]);
                } else {
                    assert(g0[g0.len() - 1].1.len() > 0 && g0[g0.len() - 1].1.last() != 0);
                }
            }
        } else {
            assert(g1 == g0.push((key, place(seq![], i, c))));
            assert forall|g: int| 0 <= g < g1.len() implies (#[trigger] g1[g]).1.len() > 0 && g1[g].1.last() != 0 by {
                if g < g0.len() {
                    assert(g1[g] == g0[g]);
                }
            }
        }
    }
}

/// `q` is a quotient of `a` by `b`: `a = q b + r` with `r` below `b`'s degree.
pub open spec fn quotient_of(a: Seq<u64>, b: Seq<u64>, q: Seq<u64>, p: u64) -> bool {
    exists|r: Seq<u64>| r.len() < b.len() && #[trigger] uni::divides_with(a, b, q, r, p as int)
}

impl ModPoly {
    /// Content in `GF(p)[x_k]` and the primitive part.
    pub fn primitive(&self, k: usize, p: u64) -> (r: (Dense, Self))
        requires
            self.shaped(p),
            forall|t: int| 0 <= t < self.terms@.len() ==> (#[trigger] self.terms@[t]).1 != 0,
            modulus(p),
            k < self.n,
            forall|t: int| 0 <= t < self.terms@.len() ==> (#[trigger] self.terms@[t]).0@[k as int] < usize::MAX,
        ensures
            residues(r.0@, p),
            trimmed(r.0@),
            prime(p as int) && r.0@.len() > 0 ==> r.0@.last() == 1,
            prime(p as int) ==> (r.0@.len() == 0 <==> self.terms@.len() == 0),
            r.1.n == self.n,
            r.0@.len() <= 1 ==> term_seq(r.1.terms@) == term_seq(self.terms@),
            prime(p as int) && r.0@.len() != 1 ==> exists|qs: Seq<(Exps, Dense)>| {
                &&& qs.len() == groups_spec(self.terms@, k as int, self.terms@.len()).len()
                &&& forall|g: int| 0 <= g < qs.len() ==> {
                    &&& (#[trigger] qs[g]).0@ == groups_spec(self.terms@, k as int, self.terms@.len())[g].0
                    &&& quotient_of(groups_spec(self.terms@, k as int, self.terms@.len())[g].1, r.0@, qs[g].1@, p)
                }
                &&& term_seq(r.1.terms@) == expand_groups(qs, k as int, qs.len())
            },
            small_exps(*self) && (forall|t: int| 0 <= t < self.terms@.len() ==> (#[trigger] self.terms@[t]).0@.len() == self.n) ==> {
                &&& r.1.shaped(p)
                &&& forall|t: int| 0 <= t < r.1.terms@.len() ==> (#[trigger] r.1.terms@[t]).1 != 0
                &&& small_exps(r.1)
                &&& forall|t: int| 0 <= t < r.1.terms@.len() ==> same_but((#[trigger] r.1.terms@[t]).0@, self.terms@, k as int)
            },
    {
        let gs = self.groups(k);
        let ghost spec_gs = groups_spec(self.terms@, k as int, self.terms@.len());
        proof {
            lemma_groups_residues(self.terms@, k as int, self.terms@.len(), p);
            lemma_groups_trimmed(self.terms@, k as int, self.terms@.len());
        }
        let mut c: Dense = Vec::new();
        let mut g: usize = 0;
        while g < gs.len()
            invariant
                g <= gs@.len(),
                gs@.len() == spec_gs.len(),
                forall|h: int| 0 <= h < gs@.len() ==> ((#[trigger] gs@[h]).0@, gs@[h].1@) == spec_gs[h],
                forall|h: int| 0 <= h < spec_gs.len() ==> residues(#[trigger] spec_gs[h].1, p),
                forall|h: int| 0 <= h < spec_gs.len() ==> (#[trigger] spec_gs[h]).1.len() > 0 && spec_gs[h].1.last() != 0,
                modulus(p),
                residues(c@, p),
                trimmed(c@),
                prime(p as int) && c@.len() > 0 ==> c@.last() == 1,
                g == 0 ==> c@.len() == 0,
                prime(p as int) ==> (c@.len() == 0 <==> g == 0),
            decreases gs@.len() - g,
        {
            assert(gs@[g as int].1@ == spec_gs[g as int].1);
            c = uni::gcd(&c, &gs[g].1, p);
            let ghost untrimmed = c@;
            uni::trim(&mut c);
            proof {
                uni::lemma_trim_eval(untrimmed, 0);
                assert forall|j: int| 0 <= j < c@.len() implies #[trigger] c@[j] < p by {
                    assert(c@[j] == untrimmed[j]);
                }
                if prime(p as int) {
                    assert(c@ == untrimmed);
                }
            }
            g += 1;
        }
        proof {
            if self.terms@.len() > 0 {
                assert(spec_gs.len() > 0) by {
                    lemma_groups_nonempty(self.terms@, k as int, self.terms@.len());
                }
            } else {
                assert(spec_gs.len() == 0);
            }
        }
        if c.len() <= 1 {
            let h = self.clone_poly();
            proof {
                if prime(p as int) && c@.len() == 0 {
                    let qs = Seq::<(Exps, Dense)>::empty();
                    assert(spec_gs.len() == 0);
                    assert(term_seq(h.terms@) =~= expand_groups(qs, k as int, 0));
                    assert(term_seq(h.terms@) == expand_groups(qs, k as int, qs.len()));
                }
                if small_exps(*self) && (forall|t: int| 0 <= t < self.terms@.len() ==> (#[trigger] self.terms@[t]).0@.len() == self.n) {
                    assert forall|t: int| 0 <= t < h.terms@.len() implies same_but((#[trigger] h.terms@[t]).0@, self.terms@, k as int) by {
                        let e = self.terms@[t].0@;
                        assert(e.len() == self.n);
                        assert(e[k as int] < u32::MAX);
                        assert(e.update(k as int, e[k as int]) =~= e);
                        assert(h.terms@[t].0@ == self.terms@[t].0@.update(k as int, e[k as int]));
                    }
                }
                if small_exps(*self) {
                    assert forall|t: int, i: int| 0 <= t < h.terms@.len() && 0 <= i < h.terms@[t].0@.len() implies #[trigger] h.terms@[t].0@[i] < u32::MAX by {
                        assert(h.terms@[t].0@ == self.terms@[t].0@);
                    }
                }
            }
            return (c, h);
        }
        let mut qs: Vec<(Exps, Dense)> = Vec::new();
        let mut g: usize = 0;
        while g < gs.len()
            invariant
                g <= gs@.len(),
                gs@.len() == spec_gs.len(),
                forall|h: int| 0 <= h < gs@.len() ==> ((#[trigger] gs@[h]).0@, gs@[h].1@) == spec_gs[h],
                forall|h: int| 0 <= h < spec_gs.len() ==> residues(#[trigger] spec_gs[h].1, p),
                forall|h: int| 0 <= h < spec_gs.len() ==> k < (#[trigger] spec_gs[h]).0.len()
                    && spec_gs[h].1.len() <= u32::MAX + 1,
                modulus(p),
                residues(c@, p),
                prime(p as int) && c@.len() > 0 ==> c@.last() == 1,
                c@.len() > 1 || (c@.len() == 0 && gs@.len() == 0),
                qs@.len() == g,
                forall|h: int| 0 <= h < g ==> {
                    &&& (#[trigger] qs@[h]).0@ == spec_gs[h].0
                    &&& prime(p as int) ==> quotient_of(spec_gs[h].1, c@, qs@[h].1@, p)
                    &&& qs@[h].1@.len() <= spec_gs[h].1.len()
                    &&& residues(qs@[h].1@, p)
                },
            decreases gs@.len() - g,
        {
            assert(gs@[g as int].1@ == spec_gs[g as int].1);
            let (q, rem) = uni::div_rem(&gs[g].1, &c, p);
            assert(uni::divides_with(spec_gs[g as int].1, c@, q@, rem@, p as int));
            proof {
                if prime(p as int) {
                    assert(rem@.len() < c@.len());
                }
            }
            let key = gs[g].0.clone();
            let ghost q0 = qs@;
            qs.push((key, q));
            proof {
                assert forall|h: int| 0 <= h < g + 1 implies {
                    &&& (#[trigger] qs@[h]).0@ == spec_gs[h].0
                    &&& prime(p as int) ==> quotient_of(spec_gs[h].1, c@, qs@[h].1@, p)
                    &&& qs@[h].1@.len() <= spec_gs[h].1.len()
                    &&& residues(qs@[h].1@, p)
                } by {
                    if h < g {
                        assert(qs@[h] == q0[h]);
                    }
                }
            }
            g += 1;
        }
        let ghost qv = qs@;
        let h = ModPoly::from_groups(self.n, k, qs);
        proof {
            if small_exps(*self) && (forall|t: int| 0 <= t < self.terms@.len() ==> (#[trigger] self.terms@[t]).0@.len() == self.n) {
                let n = self.n as nat;
                let low = (self.n - 1) as nat;
                assert forall|t: int| 0 <= t < self.terms@.len() implies exps_ok((#[trigger] self.terms@[t]).0@, n, low) by {
                    assert forall|i: int| 0 <= i < self.terms@[t].0@.len() implies #[trigger] self.terms@[t].0@[i] < u32::MAX by {}
                }
                lemma_groups_keys(self.terms@, k as int, self.terms@.len(), n, low);
                lemma_groups_key_source(self.terms@, k as int, self.terms@.len());
                assert(groups_ok(qv, n, low, p)) by {
                    assert forall|g: int| 0 <= g < qv.len() implies exps_ok((#[trigger] qv[g]).0@, n, low)
                        && residues(qv[g].1@, p) && qv[g].1@.len() <= u32::MAX by {
                        assert(qv[g].0@ == spec_gs[g].0);
                    }
                }
                lemma_from_groups_shape(h, qv, k as int, n, low, p);
                assert forall|t: int| 0 <= t < h.terms@.len() implies same_but((#[trigger] h.terms@[t]).0@, self.terms@, k as int) by {
                    let e = h.terms@[t].0@;
                    let cc = h.terms@[t].1;
                    assert(term_from(qv, k as int, qv.len() as int, e, cc));
                    let (g, i) = choose|g: int, i: int| g < qv.len() as int && #[trigger] term_from_at(qv, k as int, e, cc, g, i);
                    assert(term_from_at(qv, k as int, e, cc, g, i));
                    assert(qv[g].0@ == spec_gs[g].0);
                    let s = choose|s: int| 0 <= s < self.terms@.len() && (#[trigger] spec_gs[g]).0 == key_of(self.terms@[s].0@, k as int);
                    assert(spec_gs[g].0 == key_of(self.terms@[s].0@, k as int));
                    assert(i < u32::MAX);
                    assert(e =~= self.terms@[s].0@.update(k as int, i as u32));
                }
            }
        }
        (c, h)
    }

    /// A copy of the polynomial, term by term.
    pub fn clone_poly(&self) -> (r: Self)
        ensures
            r.n == self.n,
            term_seq(r.terms@) == term_seq(self.terms@),
            r.terms@.len() == self.terms@.len(),
            forall|t: int| 0 <= t < self.terms@.len() ==> (#[trigger] r.terms@[t]).0@ == self.terms@[t].0@ && r.terms@[t].1 == self.terms@[t].1,
    {
        let mut terms: Vec<(Exps, u64)> = Vec::new();
        let mut i: usize = 0;
        while i < self.terms.len()
            invariant
                i <= self.terms@.len(),
                terms@.len() == i,
                forall|t: int| 0 <= t < i ==> (#[trigger] terms@[t]).0@ == self.terms@[t].0@ && terms@[t].1 == self.terms@[t].1,
            decreases self.terms@.len() - i,
        {
            let e = self.terms[i].0.clone();
            proof {
                assert(e@ =~= self.terms@[i as int].0@);
            }
            terms.push((e, self.terms[i].1));
            i += 1;
        }
        proof {
            assert(term_seq(terms@) =~= term_seq(self.terms@));
        }
        ModPoly { n: self.n, terms }
    }
}

/// `lex_gt` never holds of a monomial and itself.
pub proof fn lemma_lex_gt_irreflexive(a: Seq<u32>)
    ensures
        !lex_gt(a, a),
    decreases a.len(),
{
    if a.len() > 0 {
        lemma_lex_gt_irreflexive(a.drop_first());
    }
}

/// `lex_gt` is transitive.
pub proof fn lemma_lex_gt_transitive(a: Seq<u32>, b: Seq<u32>, c: Seq<u32>)
    requires
        lex_gt(a, b),
        lex_gt(b, c),
    ensures
        lex_gt(a, c),
    decreases a.len(),
{
    if a.len() > 0 && b.len() > 0 && c.len() > 0 && a[0] == b[0] && b[0] == c[0] {
        lemma_lex_gt_transitive(a.drop_first(), b.drop_first(), c.drop_first());
    }
}

/// `lex_gt` is asymmetric.
pub proof fn lemma_lex_gt_asymmetric(a: Seq<u32>, b: Seq<u32>)
    requires
        lex_gt(a, b),
    ensures
        !lex_gt(b, a),
{
    if lex_gt(b, a) {
        lemma_lex_gt_transitive(a, b, a);
        lemma_lex_gt_irreflexive(a);
    }
}

/// Lex order is total.
pub proof fn lemma_lex_total(a: Seq<u32>, b: Seq<u32>)
    ensures
        a == b || lex_gt(a, b) || lex_gt(b, a),
    decreases a.len(),
{
    if a.len() == 0 && b.len() == 0 {
        assert(a =~= b);
    } else if a.len() > 0 && b.len() > 0 && a[0] == b[0] {
        lemma_lex_total(a.drop_first(), b.drop_first());
        let da = a.drop_first();
        let db = b.drop_first();
        if da == db {
            assert(a.len() == da.len() + 1 && b.len() == db.len() + 1);
            assert forall|i: int| 0 <= i < a.len() implies a[i] == b[i] by {
                if i > 0 {
                    assert(a[i] == da[i - 1]);
                    assert(b[i] == db[i - 1]);
                }
            }
            assert(a =~= b);
        }
    }
}

/// Whether `a > b` in lex order.
pub fn lex_greater(a: &[u32], b: &[u32]) -> (r: bool)
    ensures
        r == lex_gt(a@, b@),
{
    let mut i: usize = 0;
    assert(a@.subrange(0, a@.len() as int) =~= a@ && b@.subrange(0, b@.len() as int) =~= b@);
    while i < a.len() && i < b.len()
        invariant
            i <= a@.len(),
            i <= b@.len(),
            lex_gt(a@, b@) == lex_gt(a@.subrange(i as int, a@.len() as int), b@.subrange(i as int, b@.len() as int)),
        decreases a@.len() - i,
    {
        let ghost sa = a@.subrange(i as int, a@.len() as int);
        let ghost sb = b@.subrange(i as int, b@.len() as int);
        if a[i] != b[i] {
            assert(sa[0] == a@[i as int] && sb[0] == b@[i as int]);
            return a[i] > b[i];
        }
        assert(sa.drop_first() =~= a@.subrange(i as int + 1, a@.len() as int));
        assert(sb.drop_first() =~= b@.subrange(i as int + 1, b@.len() as int));
        i += 1;
    }
    let ghost sa = a@.subrange(i as int, a@.len() as int);
    let ghost sb = b@.subrange(i as int, b@.len() as int);
    assert(sa.len() == 0 || sb.len() == 0);
    i < a.len()
}

/// Terms in descending lex order of their monomials, equal monomials in either order.
pub open spec fn descending(ts: Seq<(Exps, u64)>) -> bool {
    forall|s: int, t: int| 0 <= s < t < ts.len() ==> !lex_gt(#[trigger] ts[t].0@, #[trigger] ts[s].0@)
}

/// The same terms in descending lex order, by insertion.
pub fn sort_terms(terms: Vec<(Exps, u64)>) -> (out: Vec<(Exps, u64)>)
    ensures
        out@.to_multiset() == terms@.to_multiset(),
        descending(out@),
{
    broadcast use vstd::seq_lib::group_to_multiset_ensures;
    broadcast use vstd::multiset::group_multiset_axioms;

    let mut rest = terms;
    let mut out: Vec<(Exps, u64)> = Vec::new();
    while rest.len() > 0
        invariant
            out@.to_multiset().add(rest@.to_multiset()) == terms@.to_multiset(),
            descending(out@),
        decreases rest@.len(),
    {
        let ghost r0 = rest@;
        let item = rest.pop().unwrap();
        assert(r0 =~= rest@.push(item));
        let mut j: usize = 0;
        while j < out.len() && !lex_greater(&item.0, &out[j].0)
            invariant
                j <= out@.len(),
                forall|i: int| 0 <= i < j ==> !lex_gt(item.0@, #[trigger] out@[i].0@),
            decreases out@.len() - j,
        {
            j += 1;
        }
        let ghost o0 = out@;
        out.insert(j, item);
        proof {
            assert forall|s: int, t: int| 0 <= s < t < out@.len() implies !lex_gt(
                #[trigger] out@[t].0@,
                #[trigger] out@[s].0@,
            ) by {
                if t < j {
                    assert(out@[t] == o0[t] && out@[s] == o0[s]);
                } else if t == j {
                    assert(out@[s] == o0[s]);
                } else if s > j {
                    assert(out@[t] == o0[t - 1] && out@[s] == o0[s - 1]);
                } else if s == j {
                    assert(out@[t] == o0[t - 1]);
                    assert(lex_gt(item.0@, o0[j as int].0@));
                    if t - 1 == j {
                        lemma_lex_gt_asymmetric(item.0@, o0[j as int].0@);
                    } else {
                        assert(!lex_gt(o0[t - 1].0@, o0[j as int].0@));
                        if lex_gt(o0[t - 1].0@, item.0@) {
                            lemma_lex_gt_transitive(o0[t - 1].0@, item.0@, o0[j as int].0@);
                        }
                    }
                } else {
                    assert(out@[t] == o0[t - 1] && out@[s] == o0[s]);
                }
            }
            assert(out@ == o0.insert(j as int, item));
            vstd::seq_lib::to_multiset_insert(o0, j as int, item);
            assert(r0.to_multiset() == rest@.push(item).to_multiset());
            vstd::seq_lib::to_multiset_build(rest@, item);
            assert(out@.to_multiset().add(rest@.to_multiset()) =~= o0.to_multiset().add(r0.to_multiset()));
        }
    }
    assert(rest@.to_multiset() =~= Multiset::empty());
    out
}

/// An element of one sequence occurs in any sequence with the same multiset.
pub proof fn lemma_multiset_member<A>(a: Seq<A>, b: Seq<A>, t: int)
    requires
        a.to_multiset() == b.to_multiset(),
        0 <= t < a.len(),
    ensures
        exists|s: int| 0 <= s < b.len() && b[s] == a[t],
{
    broadcast use vstd::seq_lib::group_to_multiset_ensures;

    assert(a.contains(a[t]));
    assert(a.to_multiset().count(a[t]) > 0);
    assert(b.contains(a[t]));
}

/// A monomial over the first `j` variables depends only on the first `j` exponents.
pub proof fn lemma_mono_prefix(e1: Seq<u32>, e2: Seq<u32>, x: Seq<u64>, j: nat)
    requires
        j <= e1.len(),
        j <= e2.len(),
        forall|i: int| 0 <= i < j ==> e1[i] == e2[i],
    ensures
        mono(e1, x, j) == mono(e2, x, j),
    decreases j,
{
    if j > 0 {
        lemma_mono_prefix(e1, e2, x, (j - 1) as nat);
    }
}

/// A nonempty list of terms makes at least one group.
proof fn lemma_groups_nonempty(ts: Seq<(Exps, u64)>, k: int, j: nat)
    requires
        0 < j <= ts.len(),
    ensures
        groups_spec(ts, k, j).len() > 0,
    decreases j,
{
}

} // verus!
