//! Sparse integer polynomials in the same lex layout as `ModPoly`: terms strictly descending,
//! coefficients nonzero.

use crate::bigint::{abs, int_add, int_div, int_eq, int_gcd, int_gt, int_mul, int_residue, int_sub, Int};
use crate::modp::modulus;
use crate::poly::{lex_greater, lex_gt, Exps, ModPoly};
use vstd::prelude::*;

verus! {

/// A polynomial in `n` variables with integer coefficients.
#[derive(Debug)]
pub struct IntPoly {
    pub n: usize,
    pub terms: Vec<(Exps, Int)>,
}

/// Strictly descending in lex order.
pub open spec fn strictly_descending(ts: Seq<(Exps, Int)>) -> bool {
    forall|s: int, t: int| 0 <= s < t < ts.len() ==> lex_gt(#[trigger] ts[s].0@, #[trigger] ts[t].0@)
}

/// Every exponent vector has `n` entries.
pub open spec fn arity(ts: Seq<(Exps, Int)>, n: nat) -> bool {
    forall|t: int| 0 <= t < ts.len() ==> (#[trigger] ts[t]).0@.len() == n
}

/// No coefficient is zero.
pub open spec fn nonzero(ts: Seq<(Exps, Int)>) -> bool {
    forall|t: int| 0 <= t < ts.len() ==> (#[trigger] ts[t]).1.value() != 0
}

impl IntPoly {
    /// The form every operation keeps: `n` entries per exponent, strictly descending terms,
    /// nonzero coefficients.
    pub open spec fn canonical(&self) -> bool {
        &&& arity(self.terms@, self.n as nat)
        &&& strictly_descending(self.terms@)
        &&& nonzero(self.terms@)
    }
}

/// The residues of the coefficients of the first `k` terms, zero ones left out.
pub open spec fn reduced_terms(ts: Seq<(Exps, Int)>, p: u64, k: nat) -> Seq<(Seq<u32>, u64)>
    decreases k,
{
    if k == 0 {
        seq![]
    } else {
        let prev = reduced_terms(ts, p, (k - 1) as nat);
        let r = ts[k - 1].1.value() % (p as int);
        if r != 0 {
            prev.push((ts[k - 1].0@, r as u64))
        } else {
            prev
        }
    }
}

/// `a + b` entry by entry, as far as both go.
pub fn add_exps(a: &[u32], b: &[u32]) -> (r: Exps)
    requires
        forall|i: int| 0 <= i < a@.len() && i < b@.len() ==> a@[i] + b@[i] <= u32::MAX,
    ensures
        r@.len() == vstd::math::min(a@.len() as int, b@.len() as int),
        forall|i: int| 0 <= i < r@.len() ==> #[trigger] r@[i] == a@[i] + b@[i],
{
    let n = if a.len() < b.len() {
        a.len()
    } else {
        b.len()
    };
    let mut r: Exps = Vec::new();
    let mut i: usize = 0;
    while i < n
        invariant
            i <= n,
            n <= a@.len(),
            n <= b@.len(),
            forall|j: int| 0 <= j < a@.len() && j < b@.len() ==> a@[j] + b@[j] <= u32::MAX,
            r@.len() == i,
            forall|j: int| 0 <= j < i ==> #[trigger] r@[j] == a@[j] + b@[j],
        decreases n - i,
    {
        r.push(a[i] + b[i]);
        i += 1;
    }
    r
}

impl IntPoly {
    /// The residues modulo `p`, terms whose coefficient `p` divides left out.
    pub fn reduce(&self, p: u64) -> (r: ModPoly)
        requires
            modulus(p),
        ensures
            r.n == self.n,
            crate::poly::term_seq(r.terms@) == reduced_terms(self.terms@, p, self.terms@.len()),
            r.shaped(p) <== arity(self.terms@, self.n as nat),
            forall|t: int| 0 <= t < r.terms@.len() ==> (#[trigger] r.terms@[t]).1 != 0,
    {
        let mut terms: Vec<(Exps, u64)> = Vec::new();
        let mut i: usize = 0;
        while i < self.terms.len()
            invariant
                i <= self.terms@.len(),
                modulus(p),
                crate::poly::term_seq(terms@) == reduced_terms(self.terms@, p, i as nat),
                forall|t: int| 0 <= t < terms@.len() ==> (#[trigger] terms@[t]).1 < p && terms@[t].1 != 0,
                arity(self.terms@, self.n as nat) ==> forall|t: int| 0 <= t < terms@.len() ==> (#[trigger] terms@[t]).0@.len() == self.n,
            decreases self.terms@.len() - i,
        {
            let r = int_residue(&self.terms[i].1, p);
            if r != 0 {
                let ghost before = terms@;
                terms.push((self.terms[i].0.clone(), r));
                proof {
                    assert(crate::poly::term_seq(terms@) =~= crate::poly::term_seq(before).push((self.terms@[i as int].0@, r)));
                    assert forall|t: int| 0 <= t < terms@.len() implies (#[trigger] terms@[t]).1 < p && terms@[t].1 != 0 by {
                        if t < before.len() {
                            assert(terms@[t] == before[t]);
                        }
                    }
                    if arity(self.terms@, self.n as nat) {
                        assert forall|t: int| 0 <= t < terms@.len() implies (#[trigger] terms@[t]).0@.len() == self.n by {
                            if t < before.len() {
                                assert(terms@[t] == before[t]);
                            }
                        }
                    }
                }
            }
            i += 1;
        }
        ModPoly { n: self.n, terms }
    }

    /// The constant `1` in `n` variables.
    pub fn one(n: usize) -> (r: IntPoly)
        ensures
            r.canonical(),
            r.n == n,
            r.terms@.len() == 1,
            r.terms@[0].1.value() == 1,
            forall|i: int| 0 <= i < n ==> r.terms@[0].0@[i] == 0,
    {
        let e: Exps = vec![0; n];
        IntPoly { n, terms: vec![(e, Int::from_u64(1))] }
    }

    /// Whether it has no terms.
    pub fn is_zero(&self) -> (b: bool)
        ensures
            b == (self.terms@.len() == 0),
    {
        self.terms.len() == 0
    }

    /// Whether it is one term without variables.
    pub fn is_constant(&self) -> (b: bool)
        ensures
            b == (self.terms@.len() == 1 && forall|i: int| 0 <= i < self.terms@[0].0@.len() ==> self.terms@[0].0@[i] == 0),
    {
        if self.terms.len() != 1 {
            return false;
        }
        let e = &self.terms[0].0;
        let mut i: usize = 0;
        while i < e.len()
            invariant
                e@ == self.terms@[0].0@,
                i <= e@.len(),
                forall|j: int| 0 <= j < i ==> e@[j] == 0,
            decreases e@.len() - i,
        {
            if e[i] != 0 {
                assert(self.terms@[0].0@[i as int] != 0);
                return false;
            }
            i += 1;
        }
        true
    }

    /// The highest power of `x_k`, 0 for the zero polynomial.
    pub fn degree(&self, k: usize) -> (d: u32)
        requires
            forall|t: int| 0 <= t < self.terms@.len() ==> k < (#[trigger] self.terms@[t]).0@.len(),
        ensures
            forall|t: int| 0 <= t < self.terms@.len() ==> (#[trigger] self.terms@[t]).0@[k as int] <= d,
            self.terms@.len() == 0 ==> d == 0,
            self.terms@.len() > 0 ==> exists|t: int| 0 <= t < self.terms@.len() && (#[trigger] self.terms@[t]).0@[k as int] == d,
    {
        let mut d: u32 = 0;
        let mut i: usize = 0;
        while i < self.terms.len()
            invariant
                i <= self.terms@.len(),
                forall|t: int| 0 <= t < self.terms@.len() ==> k < (#[trigger] self.terms@[t]).0@.len(),
                forall|t: int| 0 <= t < i ==> (#[trigger] self.terms@[t]).0@[k as int] <= d,
                i > 0 ==> exists|t: int| 0 <= t < i && (#[trigger] self.terms@[t]).0@[k as int] == d,
                i == 0 ==> d == 0,
            decreases self.terms@.len() - i,
        {
            let x = self.terms[i].0[k];
            if i == 0 || x > d {
                d = x;
                assert(self.terms@[i as int].0@[k as int] == d);
            } else {
                let ghost w = choose|t: int| 0 <= t < i && (#[trigger] self.terms@[t]).0@[k as int] == d;
                assert(0 <= w < i + 1 && self.terms@[w].0@[k as int] == d);
            }
            i += 1;
        }
        d
    }

    /// The greatest common divisor of the coefficients, `0` for the zero polynomial.
    pub fn content(&self) -> (c: Int)
        ensures
            c.value() == content_of(self.terms@, self.terms@.len()),
    {
        let mut c = Int::zero();
        let mut i: usize = 0;
        while i < self.terms.len()
            invariant
                i <= self.terms@.len(),
                c.value() == content_of(self.terms@, i as nat),
            decreases self.terms@.len() - i,
        {
            c = int_gcd(&c, &self.terms[i].1);
            i += 1;
        }
        c
    }

    /// The lowest power of every variable, all 0 for the zero polynomial.
    pub fn min_exps(&self) -> (m: Exps)
        requires
            arity(self.terms@, self.n as nat),
        ensures
            m@.len() == self.n,
            forall|k: int, t: int| 0 <= k < self.n && 0 <= t < self.terms@.len() ==> m@[k] <= #[trigger] self.terms@[t].0@[k],
    {
        let mut m: Exps = Vec::new();
        let mut k: usize = 0;
        while k < self.n
            invariant
                k <= self.n,
                arity(self.terms@, self.n as nat),
                m@.len() == k,
                forall|j: int, t: int| 0 <= j < k && 0 <= t < self.terms@.len() ==> m@[j] <= #[trigger] self.terms@[t].0@[j],
            decreases self.n - k,
        {
            let mut v: u32 = 0;
            let mut i: usize = 0;
            while i < self.terms.len()
                invariant
                    i <= self.terms@.len(),
                    k < self.n,
                    arity(self.terms@, self.n as nat),
                    forall|t: int| 0 <= t < i ==> v <= #[trigger] self.terms@[t].0@[k as int],
                decreases self.terms@.len() - i,
            {
                let x = self.terms[i].0[k];
                if i == 0 || x < v {
                    v = x;
                }
                i += 1;
            }
            let ghost before = m@;
            m.push(v);
            proof {
                assert forall|j: int, t: int| 0 <= j < k + 1 && 0 <= t < self.terms@.len() implies m@[j] <= #[trigger] self.terms@[t].0@[j] by {
                    if j < k {
                        assert(m@[j] == before[j]);
                    }
                }
            }
            k += 1;
        }
        m
    }
}

/// The greatest common divisor of the first `k` coefficients.
pub open spec fn content_of(ts: Seq<(Exps, Int)>, k: nat) -> nat
    decreases k,
{
    if k == 0 {
        0
    } else {
        crate::bigint::gcd_nat(content_of(ts, (k - 1) as nat), abs(ts[k - 1].1.value()))
    }
}

/// `e` is the exponent vector of one of the terms.
pub open spec fn has_exps(ts: Seq<(Exps, Int)>, e: Seq<u32>) -> bool {
    exists|s: int| 0 <= s < ts.len() && (#[trigger] ts[s]).0@ == e
}

/// What the term `x` adds to the coefficient of `e`.
pub open spec fn share_of(x: (Exps, Int), e: Seq<u32>) -> int {
    if x.0@ == e {
        x.1.value()
    } else {
        0
    }
}

/// The coefficient of `e` among the first `k` terms: the sum over those with exponents `e`.
pub open spec fn coef_upto(ts: Seq<(Exps, Int)>, e: Seq<u32>, k: nat) -> int
    decreases k,
{
    if k == 0 {
        0
    } else {
        coef_upto(ts, e, (k - 1) as nat) + share_of(ts[k - 1], e)
    }
}

/// A monomial that no term has has coefficient zero.
proof fn lemma_coef_absent(ts: Seq<(Exps, Int)>, e: Seq<u32>, k: nat)
    requires
        k <= ts.len(),
        forall|t: int| 0 <= t < ts.len() ==> (#[trigger] ts[t]).0@ != e,
    ensures
        coef_upto(ts, e, k) == 0,
    decreases k,
{
    if k > 0 {
        lemma_coef_absent(ts, e, (k - 1) as nat);
        assert(ts[k - 1].0@ != e);
    }
}

/// The coefficient of `e` in the sum of the terms.
pub open spec fn coef(ts: Seq<(Exps, Int)>, e: Seq<u32>) -> int {
    coef_upto(ts, e, ts.len())
}

/// Terms that agree on their first `k` entries agree on their partial coefficients.
pub proof fn lemma_coef_prefix(a: Seq<(Exps, Int)>, b: Seq<(Exps, Int)>, e: Seq<u32>, k: nat)
    requires
        k <= a.len(),
        k <= b.len(),
        forall|j: int| 0 <= j < k ==> (#[trigger] a[j]).0@ == b[j].0@ && a[j].1.value() == b[j].1.value(),
    ensures
        coef_upto(a, e, k) == coef_upto(b, e, k),
    decreases k,
{
    if k > 0 {
        lemma_coef_prefix(a, b, e, (k - 1) as nat);
        assert(a[k - 1].0@ == b[k - 1].0@);
    }
}

/// The last term adds its share.
pub proof fn lemma_coef_last(a: Seq<(Exps, Int)>, e: Seq<u32>)
    requires
        a.len() > 0,
    ensures
        coef(a, e) == coef(a.drop_last(), e) + share_of(a.last(), e),
{
    lemma_coef_prefix(a, a.drop_last(), e, (a.len() - 1) as nat);
}

/// A term inserted anywhere adds its share.
pub proof fn lemma_coef_insert(a: Seq<(Exps, Int)>, j: int, x: (Exps, Int), e: Seq<u32>)
    requires
        0 <= j <= a.len(),
    ensures
        coef(a.insert(j, x), e) == coef(a, e) + share_of(x, e),
    decreases a.len(),
{
    let b = a.insert(j, x);
    lemma_coef_last(b, e);
    if j == a.len() {
        assert(b.drop_last() =~= a);
    } else {
        lemma_coef_last(a, e);
        assert(b.drop_last() =~= a.drop_last().insert(j, x));
        assert(b.last() == a.last());
        lemma_coef_insert(a.drop_last(), j, x, e);
    }
}

/// A term taken out removes its share.
pub proof fn lemma_coef_remove(a: Seq<(Exps, Int)>, j: int, e: Seq<u32>)
    requires
        0 <= j < a.len(),
    ensures
        coef(a.remove(j), e) == coef(a, e) - share_of(a[j], e),
{
    let r = a.remove(j);
    lemma_coef_insert(r, j, a[j], e);
    assert(r.insert(j, a[j]) =~= a);
}

/// A term replaced swaps its share.
pub proof fn lemma_coef_update(a: Seq<(Exps, Int)>, j: int, x: (Exps, Int), e: Seq<u32>)
    requires
        0 <= j < a.len(),
    ensures
        coef(a.update(j, x), e) == coef(a, e) - share_of(a[j], e) + share_of(x, e),
{
    lemma_coef_remove(a, j, e);
    lemma_coef_insert(a.remove(j), j, x, e);
    assert(a.remove(j).insert(j, x) =~= a.update(j, x));
}

/// `u + v == e` entry by entry, all of one length.
pub open spec fn sums_to(u: Seq<u32>, v: Seq<u32>, e: Seq<u32>) -> bool {
    &&& u.len() == e.len()
    &&& v.len() == e.len()
    &&& forall|i: int| 0 <= i < e.len() ==> #[trigger] e[i] == u[i] + v[i]
}

/// What the term `x` times the first `k` terms of `b` adds to the coefficient of `e`.
pub open spec fn row_coef(x: (Exps, Int), b: Seq<(Exps, Int)>, e: Seq<u32>, k: nat) -> int
    decreases k,
{
    if k == 0 {
        0
    } else {
        row_coef(x, b, e, (k - 1) as nat) + (if sums_to(x.0@, b[k - 1].0@, e) {
            x.1.value() * b[k - 1].1.value()
        } else {
            0
        })
    }
}

/// The coefficient of `e` in the product of the first `k` terms of `a` with `b`.
pub open spec fn prod_coef(a: Seq<(Exps, Int)>, b: Seq<(Exps, Int)>, e: Seq<u32>, k: nat) -> int
    decreases k,
{
    if k == 0 {
        0
    } else {
        prod_coef(a, b, e, (k - 1) as nat) + row_coef(a[k - 1], b, e, b.len())
    }
}

/// The coefficient of `e` in the product of `a` and `b`.
pub open spec fn product_coef(a: Seq<(Exps, Int)>, b: Seq<(Exps, Int)>, e: Seq<u32>) -> int {
    prod_coef(a, b, e, a.len())
}

/// A vector that is `u + v` entry by entry equals `e` just when `u + v == e`.
pub(crate) proof fn lemma_sums_to(u: Seq<u32>, v: Seq<u32>, w: Seq<u32>, e: Seq<u32>)
    requires
        u.len() == w.len(),
        v.len() == w.len(),
        forall|i: int| 0 <= i < w.len() ==> #[trigger] w[i] == u[i] + v[i],
    ensures
        (w == e) == sums_to(u, v, e),
{
    if sums_to(u, v, e) {
        assert(w =~= e);
    }
}

/// Partial products agree on prefixes of `a`.
proof fn lemma_prod_prefix(a: Seq<(Exps, Int)>, a2: Seq<(Exps, Int)>, b: Seq<(Exps, Int)>, e: Seq<u32>, k: nat)
    requires
        k <= a.len(),
        k <= a2.len(),
        forall|j: int| 0 <= j < k ==> a[j] == a2[j],
    ensures
        prod_coef(a, b, e, k) == prod_coef(a2, b, e, k),
    decreases k,
{
    if k > 0 {
        lemma_prod_prefix(a, a2, b, e, (k - 1) as nat);
    }
}

/// A term that agrees on exponents and value contributes the same row.
proof fn lemma_row_same(x: (Exps, Int), y: (Exps, Int), b: Seq<(Exps, Int)>, e: Seq<u32>, k: nat)
    requires
        x.0@ == y.0@,
        x.1.value() == y.1.value(),
        k <= b.len(),
    ensures
        row_coef(x, b, e, k) == row_coef(y, b, e, k),
    decreases k,
{
    if k > 0 {
        lemma_row_same(x, y, b, e, (k - 1) as nat);
    }
}

/// A row depends on `b` only through its exponents and values.
proof fn lemma_row_same_b(x: (Exps, Int), b: Seq<(Exps, Int)>, b2: Seq<(Exps, Int)>, e: Seq<u32>, k: nat)
    requires
        k <= b.len(),
        k <= b2.len(),
        forall|j: int| 0 <= j < k ==> (#[trigger] b[j]).0@ == b2[j].0@ && b[j].1.value() == b2[j].1.value(),
    ensures
        row_coef(x, b, e, k) == row_coef(x, b2, e, k),
    decreases k,
{
    if k > 0 {
        lemma_row_same_b(x, b, b2, e, (k - 1) as nat);
        assert(b[k - 1].0@ == b2[k - 1].0@);
    }
}

/// A product depends on its second factor only through exponents and values.
pub proof fn lemma_prod_same_b(a: Seq<(Exps, Int)>, b: Seq<(Exps, Int)>, b2: Seq<(Exps, Int)>, e: Seq<u32>, k: nat)
    requires
        k <= a.len(),
        b.len() == b2.len(),
        forall|j: int| 0 <= j < b.len() ==> (#[trigger] b[j]).0@ == b2[j].0@ && b[j].1.value() == b2[j].1.value(),
    ensures
        prod_coef(a, b, e, k) == prod_coef(a, b2, e, k),
    decreases k,
{
    if k > 0 {
        lemma_prod_same_b(a, b, b2, e, (k - 1) as nat);
        lemma_row_same_b(a[k - 1], b, b2, e, b.len());
    }
}

impl IntPoly {
    /// Sums the coefficients of equal monomials, sorts descending and leaves out zeros.
    pub fn new(n: usize, terms: Vec<(Exps, Int)>) -> (r: IntPoly)
        ensures
            r.n == n,
            strictly_descending(r.terms@),
            nonzero(r.terms@),
            arity(terms@, n as nat) ==> arity(r.terms@, n as nat),
            forall|t: int| 0 <= t < r.terms@.len() ==> has_exps(terms@, (#[trigger] r.terms@[t]).0@),
            forall|e: Seq<u32>| #[trigger] coef(r.terms@, e) == coef(terms@, e),
    {
        let mut acc: Vec<(Exps, Int)> = Vec::new();
        let mut i: usize = 0;
        while i < terms.len()
            invariant
                i <= terms@.len(),
                forall|e: Seq<u32>| #[trigger] coef(acc@, e) == coef_upto(terms@, e, i as nat),
                strictly_descending(acc@),
                arity(terms@, n as nat) ==> arity(acc@, n as nat),
                forall|t: int| 0 <= t < acc@.len() ==> has_exps(terms@, (#[trigger] acc@[t]).0@),
            decreases terms@.len() - i,
        {
            let e = &terms[i].0;
            let c = &terms[i].1;
            let mut j: usize = 0;
            while j < acc.len() && lex_greater(&acc[j].0, e)
                invariant
                    j <= acc@.len(),
                    forall|t: int| 0 <= t < j ==> lex_gt((#[trigger] acc@[t]).0@, e@),
                decreases acc@.len() - j,
            {
                j += 1;
            }
            proof {
                assert(terms@[i as int].0@ == e@);
                assert(has_exps(terms@, e@));
            }
            if j < acc.len() && crate::poly::exps_eq(&acc[j].0, e) {
                let sum = int_add(&acc[j].1, c);
                let key = acc[j].0.clone();
                let ghost a0 = acc@;
                acc.set(j, (key, sum));
                proof {
                    assert forall|x: Seq<u32>| #[trigger] coef(acc@, x) == coef_upto(terms@, x, (i + 1) as nat) by {
                        lemma_coef_update(a0, j as int, acc@[j as int], x);
                        assert(a0[j as int].0@ == e@);
                    }
                    assert forall|s: int, t: int| 0 <= s < t < acc@.len() implies lex_gt(#[trigger] acc@[s].0@, #[trigger] acc@[t].0@) by {
                        assert(acc@[s].0@ == a0[s].0@ && acc@[t].0@ == a0[t].0@);
                    }
                    assert forall|t: int| 0 <= t < acc@.len() implies has_exps(terms@, (#[trigger] acc@[t]).0@) by {
                        assert(acc@[t].0@ == a0[t].0@);
                    }
                    if arity(terms@, n as nat) {
                        assert forall|t: int| 0 <= t < acc@.len() implies (#[trigger] acc@[t]).0@.len() == n by {
                            assert(acc@[t].0@ == a0[t].0@);
                        }
                    }
                }
            } else {
                let ghost a0 = acc@;
                proof {
                    if j < a0.len() {
                        crate::poly::lemma_lex_total(a0[j as int].0@, e@);
                    }
                }
                acc.insert(j, (e.clone(), c.copy()));
                proof {
                    assert forall|x: Seq<u32>| #[trigger] coef(acc@, x) == coef_upto(terms@, x, (i + 1) as nat) by {
                        lemma_coef_insert(a0, j as int, acc@[j as int], x);
                        assert(a0.insert(j as int, acc@[j as int]) =~= acc@);
                    }
                    assert forall|s: int, t: int| 0 <= s < t < acc@.len() implies lex_gt(#[trigger] acc@[s].0@, #[trigger] acc@[t].0@) by {
                        if t < j {
                            assert(acc@[s] == a0[s] && acc@[t] == a0[t]);
                        } else if t == j {
                            assert(acc@[s] == a0[s]);
                        } else if s == j {
                            assert(acc@[t] == a0[t - 1]);
                            if t - 1 > j {
                                crate::poly::lemma_lex_gt_transitive(e@, a0[j as int].0@, a0[t - 1].0@);
                            }
                        } else if s < j {
                            assert(acc@[s] == a0[s] && acc@[t] == a0[t - 1]);
                        } else {
                            assert(acc@[s] == a0[s - 1] && acc@[t] == a0[t - 1]);
                        }
                    }
                    assert forall|t: int| 0 <= t < acc@.len() implies has_exps(terms@, (#[trigger] acc@[t]).0@) by {
                        if t < j {
                            assert(acc@[t] == a0[t]);
                        } else if t > j {
                            assert(acc@[t] == a0[t - 1]);
                        }
                    }
                    if arity(terms@, n as nat) {
                        assert forall|t: int| 0 <= t < acc@.len() implies (#[trigger] acc@[t]).0@.len() == n by {
                            if t < j {
                                assert(acc@[t] == a0[t]);
                            } else if t > j {
                                assert(acc@[t] == a0[t - 1]);
                            } else {
                                assert(terms@[i as int].0@.len() == n);
                            }
                        }
                    }
                }
            }
            i += 1;
        }
        let zero = Int::zero();
        let mut out: Vec<(Exps, Int)> = Vec::new();
        let mut k: usize = 0;
        proof {
            assert forall|x: Seq<u32>| #[trigger] coef(acc@, x) == coef(terms@, x) by {}
        }
        while k < acc.len()
            invariant
                k <= acc@.len(),
                zero.value() == 0,
                forall|x: Seq<u32>| #[trigger] coef(acc@, x) == coef(terms@, x),
                forall|x: Seq<u32>| #[trigger] coef(out@, x) == coef_upto(acc@, x, k as nat),
                strictly_descending(acc@),
                strictly_descending(out@),
                nonzero(out@),
                forall|t: int| 0 <= t < out@.len() ==> exists|s: int| 0 <= s < k && (#[trigger] out@[t]).0@ == (#[trigger] acc@[s]).0@,
                arity(terms@, n as nat) ==> arity(acc@, n as nat),
                arity(terms@, n as nat) ==> arity(out@, n as nat),
                forall|t: int| 0 <= t < acc@.len() ==> has_exps(terms@, (#[trigger] acc@[t]).0@),
                forall|t: int| 0 <= t < out@.len() ==> has_exps(terms@, (#[trigger] out@[t]).0@),
            decreases acc@.len() - k,
        {
            if !int_eq(&acc[k].1, &zero) {
                let ghost o0 = out@;
                out.push((acc[k].0.clone(), acc[k].1.copy()));
                proof {
                    assert forall|x: Seq<u32>| #[trigger] coef(out@, x) == coef_upto(acc@, x, (k + 1) as nat) by {
                        lemma_coef_last(out@, x);
                        assert(out@.drop_last() =~= o0);
                    }
                    assert forall|s: int, t: int| 0 <= s < t < out@.len() implies lex_gt(#[trigger] out@[s].0@, #[trigger] out@[t].0@) by {
                        if t == o0.len() {
                            let w = choose|w: int| 0 <= w < k && (#[trigger] o0[s]).0@ == (#[trigger] acc@[w]).0@;
                            assert(out@[s] == o0[s]);
                            assert(lex_gt(acc@[w].0@, acc@[k as int].0@));
                        } else {
                            assert(out@[s] == o0[s] && out@[t] == o0[t]);
                        }
                    }
                    assert forall|t: int| 0 <= t < out@.len() implies exists|s: int| 0 <= s < k + 1 && (#[trigger] out@[t]).0@ == (#[trigger] acc@[s]).0@ by {
                        if t < o0.len() {
                            assert(out@[t] == o0[t]);
                            let w = choose|w: int| 0 <= w < k && (#[trigger] o0[t]).0@ == (#[trigger] acc@[w]).0@;
                            assert(out@[t].0@ == acc@[w].0@);
                        } else {
                            assert(out@[t].0@ == acc@[k as int].0@);
                        }
                    }
                    assert forall|t: int| 0 <= t < out@.len() implies (#[trigger] out@[t]).1.value() != 0 by {
                        if t < o0.len() {
                            assert(out@[t] == o0[t]);
                        }
                    }
                    assert forall|t: int| 0 <= t < out@.len() implies has_exps(terms@, (#[trigger] out@[t]).0@) by {
                        if t < o0.len() {
                            assert(out@[t] == o0[t]);
                        } else {
                            assert(has_exps(terms@, acc@[k as int].0@));
                        }
                    }
                    if arity(terms@, n as nat) {
                        assert forall|t: int| 0 <= t < out@.len() implies (#[trigger] out@[t]).0@.len() == n by {
                            if t < o0.len() {
                                assert(out@[t] == o0[t]);
                            } else {
                                assert(acc@[k as int].0@.len() == n);
                            }
                        }
                    }
                }
            }
            k += 1;
        }
        proof {
            assert forall|x: Seq<u32>| #[trigger] coef(out@, x) == coef(terms@, x) by {
                assert(coef(out@, x) == coef_upto(acc@, x, k as nat));
                assert(coef(acc@, x) == coef(terms@, x));
            }
        }
        IntPoly { n, terms: out }
    }
}

/// A positive number has a positive greatest common divisor with anything.
pub proof fn lemma_gcd_pos(a: nat, b: nat)
    requires
        a > 0 || b > 0,
    ensures
        crate::bigint::gcd_nat(a, b) > 0,
    decreases b,
{
    if b > 0 {
        lemma_gcd_pos(b, a % b);
    }
}

/// The content of nonzero coefficients is positive.
proof fn lemma_content_pos(ts: Seq<(Exps, Int)>, k: nat)
    requires
        0 < k <= ts.len(),
        nonzero(ts),
    ensures
        content_of(ts, k) > 0,
    decreases k,
{
    assert(ts[k - 1].1.value() != 0);
    lemma_gcd_pos(content_of(ts, (k - 1) as nat), abs(ts[k - 1].1.value()));
}

/// The content with the sign of the leading coefficient: what `primitive` divides by.
pub open spec fn signed_content(ts: Seq<(Exps, Int)>) -> int {
    if ts[0].1.value() < 0 {
        -(content_of(ts, ts.len()) as int)
    } else {
        content_of(ts, ts.len()) as int
    }
}

/// The content of the first `k` coefficients divides each of them.
proof fn lemma_content_divides(ts: Seq<(Exps, Int)>, k: nat, j: int)
    requires
        nonzero(ts),
        0 <= j < k <= ts.len(),
    ensures
        crate::bigint::divides(content_of(ts, k) as int, abs(ts[j].1.value()) as int),
    decreases k,
{
    let prev = content_of(ts, (k - 1) as nat);
    assert(ts[k - 1].1.value() != 0);
    crate::bigint::lemma_gcd_divides(prev, abs(ts[k - 1].1.value()));
    if j < k - 1 {
        lemma_content_divides(ts, (k - 1) as nat, j);
        crate::bigint::lemma_divides_trans(content_of(ts, k) as int, prev as int, abs(ts[j].1.value()) as int);
    }
}

/// Truncated division by a divisor of the magnitude is exact.
proof fn lemma_trunc_exact(v: int, c: int)
    requires
        c != 0,
        crate::bigint::divides(abs(c) as int, abs(v) as int),
    ensures
        crate::bigint::trunc_div(v, c) * c == v,
{
    crate::bigint::lemma_divides_quotient(abs(c) as int, abs(v) as int);
    let k = (abs(v) as int) / (abs(c) as int);
    assert(abs(v) / abs(c) == k);
    if v < 0 {
        if c < 0 {
            assert(k * c == v) by (nonlinear_arith)
                requires
                    -v == k * (-c),
            ;
        } else {
            assert((-k) * c == v) by (nonlinear_arith)
                requires
                    -v == k * c,
            ;
        }
    } else {
        if c < 0 {
            assert((-k) * c == v) by (nonlinear_arith)
                requires
                    v == k * (-c),
            ;
        } else {
            assert(k * c == v);
        }
    }
}

/// Values that are `c` times others, term by term, give `c` times the coefficients.
proof fn lemma_coef_scaled(a: Seq<(Exps, Int)>, b: Seq<(Exps, Int)>, x: Seq<u32>, c: int, k: nat)
    requires
        k <= a.len(),
        k <= b.len(),
        forall|u: int| 0 <= u < k ==> (#[trigger] a[u]).0@ == b[u].0@ && a[u].1.value() * c == b[u].1.value(),
    ensures
        coef_upto(a, x, k) * c == coef_upto(b, x, k),
    decreases k,
{
    if k > 0 {
        lemma_coef_scaled(a, b, x, c, (k - 1) as nat);
        assert(a[k - 1].0@ == b[k - 1].0@);
        let (p, s) = (coef_upto(a, x, (k - 1) as nat), share_of(a[k - 1], x));
        assert((p + s) * c == p * c + s * c) by (nonlinear_arith);
    }
}

/// The partial coefficient at the exponents of term `j` of strictly descending terms.
proof fn lemma_coef_at_upto(ts: Seq<(Exps, Int)>, j: int, k: nat)
    requires
        strictly_descending(ts),
        0 <= j < ts.len(),
        k <= ts.len(),
    ensures
        coef_upto(ts, ts[j].0@, k) == (if j < k { ts[j].1.value() } else { 0 }),
    decreases k,
{
    if k > 0 {
        lemma_coef_at_upto(ts, j, (k - 1) as nat);
        let u = k - 1;
        if u < j {
            assert(lex_gt(ts[u].0@, ts[j].0@));
            crate::poly::lemma_lex_gt_irreflexive(ts[j].0@);
        } else if u > j {
            assert(lex_gt(ts[j].0@, ts[u].0@));
            crate::poly::lemma_lex_gt_irreflexive(ts[j].0@);
        }
    }
}

/// In strictly descending terms the coefficient at a term's exponents is its value.
pub proof fn lemma_coef_at(ts: Seq<(Exps, Int)>, j: int)
    requires
        strictly_descending(ts),
        0 <= j < ts.len(),
    ensures
        coef(ts, ts[j].0@) == ts[j].1.value(),
{
    lemma_coef_at_upto(ts, j, ts.len());
}

impl IntPoly {
    /// The leading coefficient.
    pub fn lc(&self) -> (c: &Int)
        requires
            self.terms@.len() > 0,
        ensures
            c.value() == self.terms@[0].1.value(),
    {
        &self.terms[0].1
    }

    /// Divided by the integer content, the leading coefficient made positive.
    pub fn primitive(&self) -> (r: IntPoly)
        requires
            self.terms@.len() > 0,
            nonzero(self.terms@),
        ensures
            r.n == self.n,
            strictly_descending(r.terms@),
            nonzero(r.terms@),
            arity(self.terms@, self.n as nat) ==> arity(r.terms@, self.n as nat),
            forall|t: int| 0 <= t < r.terms@.len() ==> has_exps(self.terms@, (#[trigger] r.terms@[t]).0@),
            signed_content(self.terms@) != 0,
            forall|x: Seq<u32>| #[trigger] coef(r.terms@, x) * signed_content(self.terms@) == coef(self.terms@, x),
            strictly_descending(self.terms@) ==> r.terms@.len() > 0,
            strictly_descending(self.terms@) ==> r.terms@[0].0@ == self.terms@[0].0@ && r.terms@[0].1.value() > 0,
    {
        let mut c = self.content();
        proof {
            lemma_content_pos(self.terms@, self.terms@.len());
        }
        let zero = Int::zero();
        if int_gt(&zero, self.lc()) {
            c = int_sub(&zero, &c);
        }
        let mut terms: Vec<(Exps, Int)> = Vec::new();
        let mut i: usize = 0;
        while i < self.terms.len()
            invariant
                i <= self.terms@.len(),
                nonzero(self.terms@),
                c.value() == signed_content(self.terms@),
                c.value() != 0,
                terms@.len() == i,
                forall|t: int| 0 <= t < i ==> (#[trigger] terms@[t]).0@ == self.terms@[t].0@ && terms@[t].1.value() * c.value()
                    == self.terms@[t].1.value(),
            decreases self.terms@.len() - i,
        {
            proof {
                lemma_content_divides(self.terms@, self.terms@.len(), i as int);
                assert(abs(c.value()) == content_of(self.terms@, self.terms@.len()));
                lemma_trunc_exact(self.terms@[i as int].1.value(), c.value());
            }
            terms.push((self.terms[i].0.clone(), int_div(&self.terms[i].1, &c)));
            i += 1;
        }
        proof {
            if arity(self.terms@, self.n as nat) {
                assert forall|t: int| 0 <= t < terms@.len() implies (#[trigger] terms@[t]).0@.len() == self.n by {
                    assert(terms@[t].0@ == self.terms@[t].0@);
                }
            }
        }
        let r = IntPoly::new(self.n, terms);
        proof {
            assert forall|t: int| 0 <= t < r.terms@.len() implies has_exps(self.terms@, (#[trigger] r.terms@[t]).0@) by {
                assert(has_exps(terms@, r.terms@[t].0@));
                let s = choose|s: int| 0 <= s < terms@.len() && (#[trigger] terms@[s]).0@ == r.terms@[t].0@;
                assert(terms@[s].0@ == self.terms@[s].0@);
            }
            assert forall|x: Seq<u32>| #[trigger] coef(r.terms@, x) * signed_content(self.terms@) == coef(self.terms@, x) by {
                lemma_coef_scaled(terms@, self.terms@, x, c.value(), terms@.len());
            }
            if strictly_descending(self.terms@) {
                let e0 = self.terms@[0].0@;
                lemma_coef_at(self.terms@, 0);
                assert(coef(r.terms@, e0) * signed_content(self.terms@) == coef(self.terms@, e0));
                if r.terms@.len() == 0 {
                    assert(coef(r.terms@, e0) == 0);
                }
                let e1 = r.terms@[0].0@;
                let s1 = choose|s: int| 0 <= s < self.terms@.len() && (#[trigger] self.terms@[s]).0@ == e1;
                if e1 != e0 {
                    assert(s1 != 0);
                    assert(lex_gt(e0, e1));
                    assert forall|t: int| 0 <= t < r.terms@.len() implies (#[trigger] r.terms@[t]).0@ != e0 by {
                        if t == 0 {
                        } else {
                            assert(lex_gt(e1, r.terms@[t].0@));
                            crate::poly::lemma_lex_gt_transitive(e0, e1, r.terms@[t].0@);
                            if r.terms@[t].0@ == e0 {
                                crate::poly::lemma_lex_gt_irreflexive(e0);
                            }
                        }
                    }
                    lemma_coef_absent(r.terms@, e0, r.terms@.len());
                    assert(coef(r.terms@, e0) == 0);
                    assert(0 * signed_content(self.terms@) == 0);
                    assert(self.terms@[0].1.value() != 0);
                    assert(false);
                }
                lemma_coef_at(r.terms@, 0);
                lemma_content_pos(self.terms@, self.terms@.len());
                let x = r.terms@[0].1.value();
                let cv = signed_content(self.terms@);
                let lead = self.terms@[0].1.value();
                assert(x * cv == lead);
                assert(x > 0) by (nonlinear_arith)
                    requires
                        x * cv == lead,
                        lead != 0,
                        lead < 0 ==> cv < 0,
                        lead > 0 ==> cv > 0,
                ;
            }
        }
        r
    }

    /// The product.
    pub fn mul(&self, other: &IntPoly) -> (r: IntPoly)
        requires
            self.n == other.n,
            arity(self.terms@, self.n as nat),
            arity(other.terms@, other.n as nat),
            forall|s: int, t: int, i: int|
                0 <= s < self.terms@.len() && 0 <= t < other.terms@.len() && 0 <= i < self.n ==> #[trigger] self.terms@[s].0@[i]
                    + #[trigger] other.terms@[t].0@[i] <= u32::MAX,
        ensures
            r.n == self.n,
            strictly_descending(r.terms@),
            nonzero(r.terms@),
            arity(r.terms@, self.n as nat),
            forall|e: Seq<u32>| #[trigger] coef(r.terms@, e) == product_coef(self.terms@, other.terms@, e),
            self.canonical() && other.canonical() && self.terms@.len() > 0 && other.terms@.len() > 0 ==> r.terms@.len() > 0,
    {
        let mut terms: Vec<(Exps, Int)> = Vec::new();
        let mut s: usize = 0;
        while s < self.terms.len()
            invariant
                s <= self.terms@.len(),
                forall|e: Seq<u32>| #[trigger] coef(terms@, e) == prod_coef(self.terms@, other.terms@, e, s as nat),
                self.n == other.n,
                arity(self.terms@, self.n as nat),
                arity(other.terms@, other.n as nat),
                forall|s: int, t: int, i: int|
                    0 <= s < self.terms@.len() && 0 <= t < other.terms@.len() && 0 <= i < self.n ==> #[trigger] self.terms@[s].0@[i]
                        + #[trigger] other.terms@[t].0@[i] <= u32::MAX,
                arity(terms@, self.n as nat),
            decreases self.terms@.len() - s,
        {
            let mut t: usize = 0;
            while t < other.terms.len()
                invariant
                    s < self.terms@.len(),
                    t <= other.terms@.len(),
                    forall|e: Seq<u32>| #[trigger] coef(terms@, e) == prod_coef(self.terms@, other.terms@, e, s as nat) + row_coef(
                        self.terms@[s as int],
                        other.terms@,
                        e,
                        t as nat,
                    ),
                    self.n == other.n,
                    arity(self.terms@, self.n as nat),
                    arity(other.terms@, other.n as nat),
                    forall|s: int, t: int, i: int|
                        0 <= s < self.terms@.len() && 0 <= t < other.terms@.len() && 0 <= i < self.n ==> #[trigger] self.terms@[s].0@[i]
                            + #[trigger] other.terms@[t].0@[i] <= u32::MAX,
                    arity(terms@, self.n as nat),
                decreases other.terms@.len() - t,
            {
                let a = &self.terms[s].0;
                let b = &other.terms[t].0;
                proof {
                    assert forall|i: int| 0 <= i < a@.len() && i < b@.len() implies a@[i] + b@[i] <= u32::MAX by {
                        assert(self.terms@[s as int].0@[i] + other.terms@[t as int].0@[i] <= u32::MAX);
                    }
                }
                let e = add_exps(a, b);
                let ghost before = terms@;
                terms.push((e, int_mul(&self.terms[s].1, &other.terms[t].1)));
                proof {
                    assert forall|x: Seq<u32>| #[trigger] coef(terms@, x) == prod_coef(self.terms@, other.terms@, x, s as nat) + row_coef(
                        self.terms@[s as int],
                        other.terms@,
                        x,
                        (t + 1) as nat,
                    ) by {
                        lemma_coef_last(terms@, x);
                        assert(terms@.drop_last() =~= before);
                        lemma_sums_to(a@, b@, terms@.last().0@, x);
                    }
                    assert forall|u: int| 0 <= u < terms@.len() implies (#[trigger] terms@[u]).0@.len() == self.n by {
                        if u < before.len() {
                            assert(terms@[u] == before[u]);
                        }
                    }
                }
                t += 1;
            }
            s += 1;
        }
        let r = IntPoly::new(self.n, terms);
        proof {
            assert forall|x: Seq<u32>| #[trigger] coef(r.terms@, x) == product_coef(self.terms@, other.terms@, x) by {
                assert(coef(terms@, x) == prod_coef(self.terms@, other.terms@, x, self.terms@.len()));
            }
            if self.canonical() && other.canonical() && self.terms@.len() > 0 && other.terms@.len() > 0 {
                lemma_product_nonzero(self.terms@, other.terms@, self.n as nat);
                if r.terms@.len() == 0 {
                    let l = lead_sum(self.terms@, other.terms@, self.n as nat);
                    assert(coef(r.terms@, l) == product_coef(self.terms@, other.terms@, l));
                    assert(false);
                }
            }
        }
        r
    }

    /// Variable `i` of the result is variable `perm[i]` of `self`.
    pub fn permute(&self, perm: &[usize]) -> (r: IntPoly)
        requires
            perm@.len() == self.n,
            forall|i: int| 0 <= i < perm@.len() ==> #[trigger] perm@[i] < self.n,
            arity(self.terms@, self.n as nat),
        ensures
            r.n == self.n,
            strictly_descending(r.terms@),
            nonzero(r.terms@),
            arity(r.terms@, self.n as nat),
    {
        let mut terms: Vec<(Exps, Int)> = Vec::new();
        let mut t: usize = 0;
        while t < self.terms.len()
            invariant
                t <= self.terms@.len(),
                perm@.len() == self.n,
                forall|i: int| 0 <= i < perm@.len() ==> #[trigger] perm@[i] < self.n,
                arity(self.terms@, self.n as nat),
                arity(terms@, self.n as nat),
            decreases self.terms@.len() - t,
        {
            let e = &self.terms[t].0;
            let mut f: Exps = Vec::new();
            let mut i: usize = 0;
            while i < perm.len()
                invariant
                    i <= perm@.len(),
                    perm@.len() == self.n,
                    e@.len() == self.n,
                    forall|i: int| 0 <= i < perm@.len() ==> #[trigger] perm@[i] < self.n,
                    f@.len() == i,
                decreases perm@.len() - i,
            {
                f.push(e[perm[i]]);
                i += 1;
            }
            let ghost before = terms@;
            terms.push((f, self.terms[t].1.copy()));
            proof {
                assert forall|u: int| 0 <= u < terms@.len() implies (#[trigger] terms@[u]).0@.len() == self.n by {
                    if u < before.len() {
                        assert(terms@[u] == before[u]);
                    }
                }
            }
            t += 1;
        }
        IntPoly::new(self.n, terms)
    }
}

/// Zeroing the first entry keeps the order of vectors that agree there.
proof fn lemma_lex_zero_first(a: Seq<u32>, b: Seq<u32>)
    requires
        a.len() > 0,
        b.len() > 0,
        a[0] == b[0],
        lex_gt(a, b),
    ensures
        lex_gt(a.update(0, 0), b.update(0, 0)),
{
    assert(a.update(0, 0).drop_first() =~= a.drop_first());
    assert(b.update(0, 0).drop_first() =~= b.drop_first());
}

/// Lex order sees the first entry first.
proof fn lemma_lex_first(a: Seq<u32>, b: Seq<u32>)
    requires
        a.len() > 0,
        b.len() > 0,
        lex_gt(a, b),
    ensures
        a[0] >= b[0],
{
}

impl IntPoly {
    /// The coefficients of `x_0^i` as polynomials in the other variables, `i` ascending.
    pub fn coefficients_in_x0(&self) -> (r: Vec<IntPoly>)
        requires
            self.n >= 1,
            arity(self.terms@, self.n as nat),
            strictly_descending(self.terms@),
            nonzero(self.terms@),
        ensures
            self.terms@.len() > 0 ==> r@.len() > 0,
            forall|g: int|
                0 <= g < r@.len() ==> {
                    &&& (#[trigger] r@[g]).n == self.n
                    &&& r@[g].terms@.len() > 0
                    &&& arity(r@[g].terms@, self.n as nat)
                    &&& strictly_descending(r@[g].terms@)
                    &&& nonzero(r@[g].terms@)
                    &&& forall|t: int| 0 <= t < r@[g].terms@.len() ==> (#[trigger] r@[g].terms@[t]).0@[0] == 0
                },
    {
        let mut groups: Vec<Vec<(Exps, Int)>> = Vec::new();
        let mut keys: Vec<u32> = Vec::new();
        let mut i: usize = 0;
        while i < self.terms.len()
            invariant
                i <= self.terms@.len(),
                self.n >= 1,
                arity(self.terms@, self.n as nat),
                strictly_descending(self.terms@),
                nonzero(self.terms@),
                groups@.len() == keys@.len(),
                i > 0 ==> groups@.len() > 0 && keys@.last() == self.terms@[i - 1].0@[0],
                forall|g: int|
                    0 <= g < groups@.len() ==> {
                        &&& (#[trigger] groups@[g])@.len() > 0
                        &&& arity(groups@[g]@, self.n as nat)
                        &&& strictly_descending(groups@[g]@)
                        &&& nonzero(groups@[g]@)
                        &&& forall|t: int| 0 <= t < groups@[g]@.len() ==> (#[trigger] groups@[g]@[t]).0@[0] == 0
                    },
                groups@.len() > 0 ==> forall|t: int|
                    0 <= t < groups@.last()@.len() ==> exists|s: int|
                        0 <= s < i && #[trigger] groups@.last()@[t].0@ == self.terms@[s].0@.update(0, 0) && self.terms@[s].0@[0]
                            == keys@.last(),
            decreases self.terms@.len() - i,
        {
            let e = &self.terms[i].0;
            let mut k = e.clone();
            k.set(0, 0);
            let c = self.terms[i].1.copy();
            let ghost g0 = groups@;
            if i > 0 && keys[keys.len() - 1] == e[0] {
                let last = groups.len() - 1;
                let mut grp = groups.pop().unwrap();
                let ghost gl = grp@;
                proof {
                    assert(gl == g0.last()@);
                    assert(keys@.last() == e@[0]);
                    assert(k@ == self.terms@[i as int].0@.update(0, 0));
                }
                grp.push((k, c));
                proof {
                    assert forall|s: int, t: int| 0 <= s < t < grp@.len() implies lex_gt(#[trigger] grp@[s].0@, #[trigger] grp@[t].0@) by {
                        if t < gl.len() {
                            assert(grp@[s] == gl[s] && grp@[t] == gl[t]);
                        } else {
                            assert(grp@[s] == gl[s]);
                            let w = choose|w: int| 0 <= w < i && #[trigger] gl[s].0@ == self.terms@[w].0@.update(0, 0)
                                && self.terms@[w].0@[0] == keys@.last();
                            assert(lex_gt(self.terms@[w].0@, self.terms@[i as int].0@));
                            lemma_lex_zero_first(self.terms@[w].0@, self.terms@[i as int].0@);
                        }
                    }
                    assert forall|t: int| 0 <= t < grp@.len() implies (#[trigger] grp@[t]).1.value() != 0 && grp@[t].0@.len() == self.n
                        && grp@[t].0@[0] == 0 by {
                        if t < gl.len() {
                            assert(grp@[t] == gl[t]);
                        }
                    }
                    assert forall|t: int| 0 <= t < grp@.len() implies exists|s: int|
                        0 <= s < i + 1 && #[trigger] grp@[t].0@ == self.terms@[s].0@.update(0, 0) && self.terms@[s].0@[0] == keys@.last() by {
                        if t < gl.len() {
                            assert(grp@[t] == gl[t]);
                            let w = choose|w: int| 0 <= w < i && #[trigger] gl[t].0@ == self.terms@[w].0@.update(0, 0)
                                && self.terms@[w].0@[0] == keys@.last();
                            assert(grp@[t].0@ == self.terms@[w].0@.update(0, 0));
                        } else {
                            assert(grp@[t].0@ == self.terms@[i as int].0@.update(0, 0));
                        }
                    }
                }
                groups.push(grp);
                proof {
                    assert forall|g: int| 0 <= g < groups@.len() implies {
                        &&& (#[trigger] groups@[g])@.len() > 0
                        &&& arity(groups@[g]@, self.n as nat)
                        &&& strictly_descending(groups@[g]@)
                        &&& nonzero(groups@[g]@)
                        &&& forall|t: int| 0 <= t < groups@[g]@.len() ==> (#[trigger] groups@[g]@[t]).0@[0] == 0
                    } by {
                        if g < last {
                            assert(groups@[g] == g0[g]);
                        }
                    }
                }
            } else {
                let mut grp: Vec<(Exps, Int)> = Vec::new();
                grp.push((k, c));
                groups.push(grp);
                keys.push(e[0]);
                proof {
                    assert forall|g: int| 0 <= g < groups@.len() implies {
                        &&& (#[trigger] groups@[g])@.len() > 0
                        &&& arity(groups@[g]@, self.n as nat)
                        &&& strictly_descending(groups@[g]@)
                        &&& nonzero(groups@[g]@)
                        &&& forall|t: int| 0 <= t < groups@[g]@.len() ==> (#[trigger] groups@[g]@[t]).0@[0] == 0
                    } by {
                        if g < g0.len() {
                            assert(groups@[g] == g0[g]);
                        }
                    }
                    let lg = groups@.last();
                    assert forall|t: int| 0 <= t < lg@.len() implies exists|s: int|
                        0 <= s < i + 1 && #[trigger] lg@[t].0@ == self.terms@[s].0@.update(0, 0) && self.terms@[s].0@[0] == keys@.last() by {
                        assert(t == 0);
                        assert(lg@[0].0@ == self.terms@[i as int].0@.update(0, 0));
                    }
                }
            }
            i += 1;
        }
        let mut out: Vec<IntPoly> = Vec::new();
        while groups.len() > 0
            invariant
                forall|g: int|
                    0 <= g < groups@.len() ==> {
                        &&& (#[trigger] groups@[g])@.len() > 0
                        &&& arity(groups@[g]@, self.n as nat)
                        &&& strictly_descending(groups@[g]@)
                        &&& nonzero(groups@[g]@)
                        &&& forall|t: int| 0 <= t < groups@[g]@.len() ==> (#[trigger] groups@[g]@[t]).0@[0] == 0
                    },
                forall|g: int|
                    0 <= g < out@.len() ==> {
                        &&& (#[trigger] out@[g]).n == self.n
                        &&& out@[g].terms@.len() > 0
                        &&& arity(out@[g].terms@, self.n as nat)
                        &&& strictly_descending(out@[g].terms@)
                        &&& nonzero(out@[g].terms@)
                        &&& forall|t: int| 0 <= t < out@[g].terms@.len() ==> (#[trigger] out@[g].terms@[t]).0@[0] == 0
                    },
                self.terms@.len() > 0 ==> groups@.len() + out@.len() > 0,
            decreases groups@.len(),
        {
            let ghost g0 = groups@;
            let grp = groups.pop().unwrap();
            assert(grp@ == g0.last()@);
            let ghost o0 = out@;
            out.push(IntPoly { n: self.n, terms: grp });
            proof {
                assert forall|g: int| 0 <= g < groups@.len() implies {
                    &&& (#[trigger] groups@[g])@.len() > 0
                    &&& arity(groups@[g]@, self.n as nat)
                    &&& strictly_descending(groups@[g]@)
                    &&& nonzero(groups@[g]@)
                    &&& forall|t: int| 0 <= t < groups@[g]@.len() ==> (#[trigger] groups@[g]@[t]).0@[0] == 0
                } by {
                    assert(groups@[g] == g0[g]);
                }
                assert forall|g: int| 0 <= g < out@.len() implies {
                    &&& (#[trigger] out@[g]).n == self.n
                    &&& out@[g].terms@.len() > 0
                    &&& arity(out@[g].terms@, self.n as nat)
                    &&& strictly_descending(out@[g].terms@)
                    &&& nonzero(out@[g].terms@)
                    &&& forall|t: int| 0 <= t < out@[g].terms@.len() ==> (#[trigger] out@[g].terms@[t]).0@[0] == 0
                } by {
                    if g < o0.len() {
                        assert(out@[g] == o0[g]);
                    }
                }
            }
        }
        out
    }
}

/// `e` read as a number in base `2^32`, the first entry most significant: for vectors of one
/// length, lex order is the order of these numbers.
pub open spec fn rank(e: Seq<u32>) -> nat
    decreases e.len(),
{
    if e.len() == 0 {
        0
    } else {
        (e[0] * crate::arith::power(0x1_0000_0000, (e.len() - 1) as nat) + rank(e.drop_first())) as nat
    }
}

proof fn lemma_power_pos(k: nat)
    ensures
        crate::arith::power(0x1_0000_0000, k) > 0,
    decreases k,
{
    if k > 0 {
        lemma_power_pos((k - 1) as nat);
        let q = crate::arith::power(0x1_0000_0000, (k - 1) as nat);
        assert(0x1_0000_0000 * q > 0) by (nonlinear_arith)
            requires
                q > 0,
        ;
    }
}

/// A rank is below `2^(32 len)`.
proof fn lemma_rank_bound(e: Seq<u32>)
    ensures
        rank(e) < crate::arith::power(0x1_0000_0000, e.len()),
    decreases e.len(),
{
    if e.len() > 0 {
        let k = (e.len() - 1) as nat;
        lemma_rank_bound(e.drop_first());
        lemma_power_pos(k);
        let q = crate::arith::power(0x1_0000_0000, k);
        assert(e[0] * q + rank(e.drop_first()) < 0x1_0000_0000 * q) by (nonlinear_arith)
            requires
                e[0] <= 0xffff_ffff,
                rank(e.drop_first()) < q,
                q > 0,
        ;
    }
}

/// Lex order on vectors of one length is the order of their ranks.
proof fn lemma_rank_lex(a: Seq<u32>, b: Seq<u32>)
    requires
        a.len() == b.len(),
        lex_gt(a, b),
    ensures
        rank(a) > rank(b),
    decreases a.len(),
{
    let k = (a.len() - 1) as nat;
    lemma_power_pos(k);
    let q = crate::arith::power(0x1_0000_0000, k);
    if a[0] != b[0] {
        lemma_rank_bound(b.drop_first());
        assert(a[0] * q + rank(a.drop_first()) > b[0] * q + rank(b.drop_first())) by (nonlinear_arith)
            requires
                a[0] > b[0],
                rank(b.drop_first()) < q,
                rank(a.drop_first()) >= 0,
                q > 0,
        ;
    } else {
        lemma_rank_lex(a.drop_first(), b.drop_first());
    }
}

/// Adding the same vector keeps lex order.
proof fn lemma_lex_add(a: Seq<u32>, b: Seq<u32>, x: Seq<u32>, y: Seq<u32>, e: Seq<u32>)
    requires
        a.len() == b.len(),
        x.len() == a.len(),
        y.len() == a.len(),
        e.len() == a.len(),
        forall|i: int| 0 <= i < a.len() ==> #[trigger] x[i] == e[i] + a[i],
        forall|i: int| 0 <= i < a.len() ==> #[trigger] y[i] == e[i] + b[i],
        lex_gt(a, b),
    ensures
        lex_gt(x, y),
    decreases a.len(),
{
    if a[0] == b[0] {
        assert(x[0] == y[0]);
        lemma_lex_add(a.drop_first(), b.drop_first(), x.drop_first(), y.drop_first(), e.drop_first());
    } else {
        assert(x[0] > y[0]);
    }
}

/// Subtracting the same vector keeps lex order.
proof fn lemma_lex_sub(a: Seq<u32>, b: Seq<u32>, x: Seq<u32>, y: Seq<u32>, d: Seq<u32>)
    requires
        a.len() == b.len(),
        x.len() == a.len(),
        y.len() == a.len(),
        d.len() == a.len(),
        forall|i: int| 0 <= i < a.len() ==> #[trigger] x[i] + d[i] == a[i],
        forall|i: int| 0 <= i < a.len() ==> #[trigger] y[i] + d[i] == b[i],
        lex_gt(a, b),
    ensures
        lex_gt(x, y),
    decreases a.len(),
{
    if a[0] == b[0] {
        assert(x[0] == y[0]);
        lemma_lex_sub(a.drop_first(), b.drop_first(), x.drop_first(), y.drop_first(), d.drop_first());
    } else {
        assert(x[0] > y[0]);
    }
}

/// Every key is below `m` in lex order.
pub open spec fn all_below(ts: Seq<(Exps, Int)>, m: Seq<u32>) -> bool {
    forall|t: int| 0 <= t < ts.len() ==> lex_gt(m, (#[trigger] ts[t]).0@)
}

/// `q` times `d` is `t`: `q` is canonical in `n` variables and no exponent sum of a term of `q`
/// and a term of `d` leaves `u32`.
pub open spec fn divides_by(q: Seq<(Exps, Int)>, d: Seq<(Exps, Int)>, t: Seq<(Exps, Int)>, n: nat) -> bool {
    &&& strictly_descending(q)
    &&& nonzero(q)
    &&& arity(q, n)
    &&& forall|s: int, u: int, i: int|
        0 <= s < q.len() && 0 <= u < d.len() && 0 <= i < n ==> #[trigger] q[s].0@[i] + #[trigger] d[u].0@[i] <= u32::MAX
    &&& forall|x: Seq<u32>| #[trigger] product_coef(q, d, x) == coef(t, x)
}

/// The exponent sum of the leading terms of `q` and `d`.
pub open spec fn lead_sum(q: Seq<(Exps, Int)>, d: Seq<(Exps, Int)>, n: nat) -> Seq<u32> {
    Seq::new(n, |i: int| (q[0].0@[i] + d[0].0@[i]) as u32)
}

/// A row with no exponent sum equal to `x` adds nothing at `x`.
proof fn lemma_row_zero(xt: (Exps, Int), b: Seq<(Exps, Int)>, x: Seq<u32>, k: nat)
    requires
        k <= b.len(),
        forall|t: int| 0 <= t < k ==> !sums_to(xt.0@, (#[trigger] b[t]).0@, x),
    ensures
        row_coef(xt, b, x, k) == 0,
    decreases k,
{
    if k > 0 {
        lemma_row_zero(xt, b, x, (k - 1) as nat);
        assert(!sums_to(xt.0@, b[k - 1].0@, x));
    }
}

/// A product with no exponent sum equal to `x` has coefficient zero there.
proof fn lemma_prod_zero(a: Seq<(Exps, Int)>, b: Seq<(Exps, Int)>, x: Seq<u32>, k: nat)
    requires
        k <= a.len(),
        forall|s: int, t: int| 0 <= s < k && 0 <= t < b.len() ==> !sums_to((#[trigger] a[s]).0@, (#[trigger] b[t]).0@, x),
    ensures
        prod_coef(a, b, x, k) == 0,
    decreases k,
{
    if k > 0 {
        lemma_prod_zero(a, b, x, (k - 1) as nat);
        assert forall|t: int| 0 <= t < b.len() implies !sums_to(a[k - 1].0@, (#[trigger] b[t]).0@, x) by {
            assert(!sums_to(a[k - 1].0@, b[t].0@, x));
        }
        lemma_row_zero(a[k - 1], b, x, b.len());
    }
}

/// A row whose only exponent sum equal to `x` is with the first term of `b`.
proof fn lemma_row_first(xt: (Exps, Int), b: Seq<(Exps, Int)>, x: Seq<u32>, k: nat)
    requires
        1 <= k <= b.len(),
        sums_to(xt.0@, b[0].0@, x),
        forall|t: int| 1 <= t < k ==> !sums_to(xt.0@, (#[trigger] b[t]).0@, x),
    ensures
        row_coef(xt, b, x, k) == xt.1.value() * b[0].1.value(),
    decreases k,
{
    if k > 1 {
        lemma_row_first(xt, b, x, (k - 1) as nat);
        assert(!sums_to(xt.0@, b[k - 1].0@, x));
    } else {
        assert(row_coef(xt, b, x, 0) == 0);
    }
}

/// A product whose only exponent sum equal to `x` is of the two first terms.
proof fn lemma_prod_first(a: Seq<(Exps, Int)>, b: Seq<(Exps, Int)>, x: Seq<u32>, k: nat)
    requires
        1 <= k <= a.len(),
        b.len() >= 1,
        sums_to(a[0].0@, b[0].0@, x),
        forall|s: int, t: int|
            0 <= s < k && 0 <= t < b.len() && (s != 0 || t != 0) ==> !sums_to((#[trigger] a[s]).0@, (#[trigger] b[t]).0@, x),
    ensures
        prod_coef(a, b, x, k) == a[0].1.value() * b[0].1.value(),
    decreases k,
{
    if k > 1 {
        lemma_prod_first(a, b, x, (k - 1) as nat);
        assert forall|t: int| 0 <= t < b.len() implies !sums_to(a[k - 1].0@, (#[trigger] b[t]).0@, x) by {
            assert(!sums_to(a[k - 1].0@, b[t].0@, x));
        }
        lemma_row_zero(a[k - 1], b, x, b.len());
    } else {
        assert forall|t: int| 1 <= t < b.len() implies !sums_to(a[0].0@, (#[trigger] b[t]).0@, x) by {
            assert(!sums_to(a[0].0@, b[t].0@, x));
        }
        lemma_row_first(a[0], b, x, b.len());
        assert(prod_coef(a, b, x, 0) == 0);
    }
}

/// Rows agree for terms with the same exponents and value.
proof fn lemma_row_same_x(x1: (Exps, Int), x2: (Exps, Int), b: Seq<(Exps, Int)>, e: Seq<u32>, k: nat)
    requires
        k <= b.len(),
        x1.0@ == x2.0@,
        x1.1.value() == x2.1.value(),
    ensures
        row_coef(x1, b, e, k) == row_coef(x2, b, e, k),
    decreases k,
{
    if k > 0 {
        lemma_row_same_x(x1, x2, b, e, (k - 1) as nat);
    }
}

/// A product splits into its first row and the product of the rest.
proof fn lemma_prod_split_first(a: Seq<(Exps, Int)>, b: Seq<(Exps, Int)>, x: Seq<u32>, k: nat)
    requires
        1 <= k <= a.len(),
    ensures
        prod_coef(a, b, x, k) == row_coef(a[0], b, x, b.len()) + prod_coef(a.drop_first(), b, x, (k - 1) as nat),
    decreases k,
{
    if k > 1 {
        lemma_prod_split_first(a, b, x, (k - 1) as nat);
        assert(a.drop_first()[k - 2] == a[k - 1]);
    } else {
        assert(prod_coef(a, b, x, 0) == 0);
        assert(prod_coef(a.drop_first(), b, x, 0) == 0);
    }
}

/// Every exponent sum of a term of `q` and a term of `d` but the first is below theirs.
proof fn lemma_pair_below(q: Seq<(Exps, Int)>, d: Seq<(Exps, Int)>, n: nat, s: int, t: int, x: Seq<u32>)
    requires
        strictly_descending(q),
        strictly_descending(d),
        arity(q, n),
        arity(d, n),
        forall|s2: int, u: int, i: int|
            0 <= s2 < q.len() && 0 <= u < d.len() && 0 <= i < n ==> #[trigger] q[s2].0@[i] + #[trigger] d[u].0@[i] <= u32::MAX,
        0 <= s < q.len(),
        0 <= t < d.len(),
        s != 0 || t != 0,
        sums_to(q[s].0@, d[t].0@, x),
    ensures
        lex_gt(lead_sum(q, d, n), x),
{
    let l = lead_sum(q, d, n);
    let qs = q[s].0@;
    let z = Seq::new(n, |i: int| (qs[i] + d[0].0@[i]) as u32);
    assert forall|i: int| 0 <= i < n implies #[trigger] z[i] == qs[i] + d[0].0@[i] by {
        assert(q[s].0@[i] + d[0].0@[i] <= u32::MAX);
    }
    assert forall|i: int| 0 <= i < n implies #[trigger] l[i] == d[0].0@[i] + q[0].0@[i] by {
        assert(q[0].0@[i] + d[0].0@[i] <= u32::MAX);
    }
    if t > 0 {
        assert(lex_gt(d[0].0@, d[t].0@));
        lemma_lex_add(d[0].0@, d[t].0@, z, x, qs);
    } else {
        assert(z =~= x);
    }
    if s > 0 {
        assert(lex_gt(q[0].0@, qs));
        assert forall|i: int| 0 <= i < n implies #[trigger] z[i] == d[0].0@[i] + qs[i] by {}
        lemma_lex_add(q[0].0@, qs, l, z, d[0].0@);
        if t > 0 {
            crate::poly::lemma_lex_gt_transitive(l, z, x);
        }
    } else {
        assert(l =~= z);
    }
}

/// The leading term of a product is the product of the leading terms.
proof fn lemma_lead_of_product(r: Seq<(Exps, Int)>, d: Seq<(Exps, Int)>, t: Seq<(Exps, Int)>, n: nat)
    requires
        divides_by(r, d, t, n),
        strictly_descending(d),
        nonzero(d),
        arity(d, n),
        d.len() > 0,
        strictly_descending(t),
        nonzero(t),
        arity(t, n),
        t.len() > 0,
    ensures
        r.len() > 0,
        t[0].0@ == lead_sum(r, d, n),
        t[0].1.value() == r[0].1.value() * d[0].1.value(),
{
    let t0 = t[0].0@;
    lemma_coef_at(t, 0);
    if r.len() == 0 {
        assert(product_coef(r, d, t0) == 0);
        assert(false);
    }
    let l = lead_sum(r, d, n);
    assert forall|i: int| 0 <= i < n implies #[trigger] l[i] == r[0].0@[i] + d[0].0@[i] by {
        assert(r[0].0@[i] + d[0].0@[i] <= u32::MAX);
    }
    assert(sums_to(r[0].0@, d[0].0@, l));
    assert forall|s: int, u: int|
        0 <= s < r.len() && 0 <= u < d.len() && (s != 0 || u != 0) implies !sums_to((#[trigger] r[s]).0@, (#[trigger] d[u]).0@, l) by {
        if sums_to(r[s].0@, d[u].0@, l) {
            lemma_pair_below(r, d, n, s, u, l);
            crate::poly::lemma_lex_gt_irreflexive(l);
        }
    }
    lemma_prod_first(r, d, l, r.len());
    let c = r[0].1.value() * d[0].1.value();
    assert(c != 0) by (nonlinear_arith)
        requires
            c == r[0].1.value() * d[0].1.value(),
            r[0].1.value() != 0,
            d[0].1.value() != 0,
    ;
    assert(product_coef(r, d, l) == c);
    assert(coef(t, l) == c);
    crate::poly::lemma_lex_total(t0, l);
    if lex_gt(l, t0) {
        assert forall|k: int| 0 <= k < t.len() implies (#[trigger] t[k]).0@ != l by {
            if k > 0 {
                assert(lex_gt(t0, t[k].0@));
                crate::poly::lemma_lex_gt_transitive(l, t0, t[k].0@);
                if t[k].0@ == l {
                    crate::poly::lemma_lex_gt_irreflexive(l);
                }
            } else {
                crate::poly::lemma_lex_gt_irreflexive(l);
            }
        }
        lemma_coef_absent(t, l, t.len());
        assert(false);
    } else if lex_gt(t0, l) {
        assert forall|s: int, u: int| 0 <= s < r.len() && 0 <= u < d.len() implies !sums_to(
            (#[trigger] r[s]).0@,
            (#[trigger] d[u]).0@,
            t0,
        ) by {
            if sums_to(r[s].0@, d[u].0@, t0) {
                if s == 0 && u == 0 {
                    assert(t0 =~= l);
                    crate::poly::lemma_lex_gt_irreflexive(l);
                } else {
                    lemma_pair_below(r, d, n, s, u, t0);
                    crate::poly::lemma_lex_gt_asymmetric(t0, l);
                }
            }
        }
        lemma_prod_zero(r, d, t0, r.len());
        assert(product_coef(r, d, t0) == 0);
        assert(coef(t, t0) == t[0].1.value());
        assert(false);
    }
}

/// The product of two nonzero canonical polynomials is nonzero at the sum of the leading
/// exponents.
proof fn lemma_product_nonzero(a: Seq<(Exps, Int)>, b: Seq<(Exps, Int)>, n: nat)
    requires
        strictly_descending(a),
        nonzero(a),
        arity(a, n),
        strictly_descending(b),
        nonzero(b),
        arity(b, n),
        a.len() > 0,
        b.len() > 0,
        forall|s: int, u: int, i: int|
            0 <= s < a.len() && 0 <= u < b.len() && 0 <= i < n ==> #[trigger] a[s].0@[i] + #[trigger] b[u].0@[i] <= u32::MAX,
    ensures
        product_coef(a, b, lead_sum(a, b, n)) != 0,
{
    let l = lead_sum(a, b, n);
    assert forall|i: int| 0 <= i < n implies #[trigger] l[i] == a[0].0@[i] + b[0].0@[i] by {
        assert(a[0].0@[i] + b[0].0@[i] <= u32::MAX);
    }
    assert(sums_to(a[0].0@, b[0].0@, l));
    assert forall|s: int, u: int|
        0 <= s < a.len() && 0 <= u < b.len() && (s != 0 || u != 0) implies !sums_to((#[trigger] a[s]).0@, (#[trigger] b[u]).0@, l) by {
        if sums_to(a[s].0@, b[u].0@, l) {
            lemma_pair_below(a, b, n, s, u, l);
            crate::poly::lemma_lex_gt_irreflexive(l);
        }
    }
    lemma_prod_first(a, b, l, a.len());
    assert(a[0].1.value() * b[0].1.value() != 0) by (nonlinear_arith)
        requires
            a[0].1.value() != 0,
            b[0].1.value() != 0,
    ;
}

/// What is left when the leading row is taken off a product.
proof fn lemma_divides_rest(r: Seq<(Exps, Int)>, d: Seq<(Exps, Int)>, t: Seq<(Exps, Int)>, t2: Seq<(Exps, Int)>, xt: (Exps, Int), n: nat)
    requires
        divides_by(r, d, t, n),
        r.len() > 0,
        xt.0@ == r[0].0@,
        xt.1.value() == r[0].1.value(),
        forall|x: Seq<u32>| #[trigger] coef(t2, x) + row_coef(xt, d, x, d.len()) == coef(t, x),
    ensures
        divides_by(r.drop_first(), d, t2, n),
{
    let r2 = r.drop_first();
    assert forall|x: Seq<u32>| #[trigger] product_coef(r2, d, x) == coef(t2, x) by {
        lemma_prod_split_first(r, d, x, r.len());
        lemma_row_same_x(xt, r[0], d, x, d.len());
        assert(product_coef(r, d, x) == coef(t, x));
    }
    assert forall|s: int, u: int, i: int|
        0 <= s < r2.len() && 0 <= u < d.len() && 0 <= i < n implies #[trigger] r2[s].0@[i] + #[trigger] d[u].0@[i] <= u32::MAX by {
        assert(r2[s] == r[s + 1]);
        assert(r[s + 1].0@[i] + d[u].0@[i] <= u32::MAX);
    }
    assert forall|s: int, u: int| 0 <= s < u < r2.len() implies lex_gt(#[trigger] r2[s].0@, #[trigger] r2[u].0@) by {
        assert(r2[s] == r[s + 1] && r2[u] == r[u + 1]);
    }
    assert forall|s: int| 0 <= s < r2.len() implies (#[trigger] r2[s]).1.value() != 0 by {
        assert(r2[s] == r[s + 1]);
    }
    assert forall|s: int| 0 <= s < r2.len() implies (#[trigger] r2[s]).0@.len() == n by {
        assert(r2[s] == r[s + 1]);
    }
}

/// The termination measure of exact division: one more than the rank of the largest key.
pub open spec fn top_rank(ts: Seq<(Exps, Int)>) -> nat {
    if ts.len() == 0 {
        0
    } else {
        rank(ts[0].0@) + 1
    }
}

/// Adds `-prod` to the coefficient of `key`, keeping the terms canonical.
fn sub_term(rem: &mut Vec<(Exps, Int)>, key: Exps, prod: &Int, Ghost(n): Ghost<nat>, Ghost(m): Ghost<Seq<u32>>)
    requires
        strictly_descending(old(rem)@),
        nonzero(old(rem)@),
        arity(old(rem)@, n),
        key@.len() == n,
        all_below(old(rem)@, m),
        lex_gt(m, key@),
    ensures
        strictly_descending(final(rem)@),
        nonzero(final(rem)@),
        arity(final(rem)@, n),
        all_below(final(rem)@, m),
        forall|x: Seq<u32>| #[trigger] coef(final(rem)@, x) == coef(old(rem)@, x) - (if key@ == x { prod.value() } else { 0 }),
{
    let zero = Int::zero();
    let mut j: usize = 0;
    while j < rem.len() && lex_greater(&rem[j].0, &key)
        invariant
            j <= rem@.len(),
            forall|t: int| 0 <= t < j ==> lex_gt((#[trigger] rem@[t]).0@, key@),
        decreases rem@.len() - j,
    {
        j += 1;
    }
    let ghost r0 = rem@;
    if j < rem.len() && crate::poly::exps_eq(&rem[j].0, &key) {
        let v = int_sub(&rem[j].1, prod);
        if int_eq(&v, &zero) {
            rem.remove(j);
            proof {
                assert forall|x: Seq<u32>| #[trigger] coef(rem@, x) == coef(r0, x) - (if key@ == x { prod.value() } else { 0 }) by {
                    lemma_coef_remove(r0, j as int, x);
                    assert(r0.remove(j as int) =~= rem@);
                }
                assert forall|s: int, t: int| 0 <= s < t < rem@.len() implies lex_gt(#[trigger] rem@[s].0@, #[trigger] rem@[t].0@) by {
                    if s < j {
                        if t < j {
                            assert(rem@[s] == r0[s] && rem@[t] == r0[t]);
                        } else {
                            assert(rem@[s] == r0[s] && rem@[t] == r0[t + 1]);
                        }
                    } else {
                        assert(rem@[s] == r0[s + 1] && rem@[t] == r0[t + 1]);
                    }
                }
                assert forall|t: int| 0 <= t < rem@.len() implies (#[trigger] rem@[t]).1.value() != 0 && rem@[t].0@.len() == n
                    && lex_gt(m, rem@[t].0@) by {
                    if t < j {
                        assert(rem@[t] == r0[t]);
                    } else {
                        assert(rem@[t] == r0[t + 1]);
                    }
                }
            }
        } else {
            let k2 = rem[j].0.clone();
            rem.set(j, (k2, v));
            proof {
                assert forall|x: Seq<u32>| #[trigger] coef(rem@, x) == coef(r0, x) - (if key@ == x { prod.value() } else { 0 }) by {
                    lemma_coef_update(r0, j as int, rem@[j as int], x);
                }
                assert forall|s: int, t: int| 0 <= s < t < rem@.len() implies lex_gt(#[trigger] rem@[s].0@, #[trigger] rem@[t].0@) by {
                    assert(rem@[s].0@ == r0[s].0@ && rem@[t].0@ == r0[t].0@);
                }
                assert forall|t: int| 0 <= t < rem@.len() implies (#[trigger] rem@[t]).1.value() != 0 && rem@[t].0@.len() == n
                    && lex_gt(m, rem@[t].0@) by {
                    if t != j {
                        assert(rem@[t] == r0[t]);
                    }
                }
            }
        }
    } else if !int_eq(prod, &zero) {
        proof {
            if j < r0.len() {
                crate::poly::lemma_lex_total(r0[j as int].0@, key@);
            }
        }
        let neg = int_sub(&zero, prod);
        let ghost kv = key@;
        rem.insert(j, (key, neg));
        proof {
            assert forall|x: Seq<u32>| #[trigger] coef(rem@, x) == coef(r0, x) - (if kv == x { prod.value() } else { 0 }) by {
                lemma_coef_insert(r0, j as int, rem@[j as int], x);
                assert(r0.insert(j as int, rem@[j as int]) =~= rem@);
            }
            assert forall|s: int, t: int| 0 <= s < t < rem@.len() implies lex_gt(#[trigger] rem@[s].0@, #[trigger] rem@[t].0@) by {
                if t < j {
                    assert(rem@[s] == r0[s] && rem@[t] == r0[t]);
                } else if t == j {
                    assert(rem@[s] == r0[s]);
                } else if s == j {
                    assert(rem@[t] == r0[t - 1]);
                    if t - 1 > j {
                        crate::poly::lemma_lex_gt_transitive(key@, r0[j as int].0@, r0[t - 1].0@);
                    }
                } else if s < j {
                    assert(rem@[s] == r0[s] && rem@[t] == r0[t - 1]);
                } else {
                    assert(rem@[s] == r0[s - 1] && rem@[t] == r0[t - 1]);
                }
            }
            assert forall|t: int| 0 <= t < rem@.len() implies (#[trigger] rem@[t]).1.value() != 0 && rem@[t].0@.len() == n
                && lex_gt(m, rem@[t].0@) by {
                if t < j {
                    assert(rem@[t] == r0[t]);
                } else if t > j {
                    assert(rem@[t] == r0[t - 1]);
                }
            }
        }
    }
}

impl IntPoly {
    /// `self / d` when `d` divides `self` exactly, by long division from the top term down.
    /// `None` as soon as a leading term does not divide, or an exponent would leave `u32`.
    pub fn div_exact(&self, d: &IntPoly) -> (r: Option<IntPoly>)
        requires
            self.canonical(),
            d.canonical(),
            d.n == self.n,
            d.terms@.len() > 0,
        ensures
            r matches Some(q) ==> q.n == self.n && q.canonical() && (self.terms@.len() > 0 ==> q.terms@.len() > 0),
            r matches Some(q) ==> forall|x: Seq<u32>| #[trigger] product_coef(q.terms@, d.terms@, x) == coef(self.terms@, x),
            (exists|q: Seq<(Exps, Int)>| #[trigger] divides_by(q, d.terms@, self.terms@, self.n as nat)) ==> r is Some,
    {
        let ghost n = self.n as nat;
        let dm = &d.terms[0].0;
        let dc = &d.terms[0].1;
        let zero = Int::zero();
        let mut rem: Vec<(Exps, Int)> = Vec::new();
        let mut i: usize = 0;
        while i < self.terms.len()
            invariant
                i <= self.terms@.len(),
                self.canonical(),
                n == self.n,
                rem@.len() == i,
                forall|t: int| 0 <= t < i ==> (#[trigger] rem@[t]).0@ == self.terms@[t].0@ && rem@[t].1.value() == self.terms@[t].1.value(),
            decreases self.terms@.len() - i,
        {
            rem.push((self.terms[i].0.clone(), self.terms[i].1.copy()));
            i += 1;
        }
        proof {
            assert forall|s: int, t: int| 0 <= s < t < rem@.len() implies lex_gt(#[trigger] rem@[s].0@, #[trigger] rem@[t].0@) by {
                assert(rem@[s].0@ == self.terms@[s].0@ && rem@[t].0@ == self.terms@[t].0@);
            }
            assert forall|x: Seq<u32>| #[trigger] coef(rem@, x) == coef(self.terms@, x) by {
                lemma_coef_prefix(rem@, self.terms@, x, rem@.len());
            }
        }
        let mut q: Vec<(Exps, Int)> = Vec::new();
        let ghost mut last: Seq<u32> = Seq::empty();
        let ghost dv = exists|q2: Seq<(Exps, Int)>| #[trigger] divides_by(q2, d.terms@, self.terms@, n);
        proof {
            if dv {
                let q2 = choose|q2: Seq<(Exps, Int)>| #[trigger] divides_by(q2, d.terms@, self.terms@, n);
                assert(divides_by(q2, d.terms@, rem@, n));
            }
        }
        while rem.len() > 0
            invariant
                d.canonical(),
                d.n == n,
                d.terms@.len() > 0,
                dm@ == d.terms@[0].0@,
                dc.value() == d.terms@[0].1.value(),
                zero.value() == 0,
                strictly_descending(rem@),
                nonzero(rem@),
                arity(rem@, n),
                strictly_descending(q@),
                nonzero(q@),
                arity(q@, n),
                q@.len() > 0 ==> last.len() == n && forall|k: int| 0 <= k < n ==> #[trigger] q@.last().0@[k] + dm@[k] == last[k],
                q@.len() > 0 ==> all_below(rem@, last),
                q@.len() > 0 || rem@.len() > 0 || self.terms@.len() == 0,
                forall|x: Seq<u32>| #[trigger] coef(rem@, x) + product_coef(q@, d.terms@, x) == coef(self.terms@, x),
                dv == (exists|q2: Seq<(Exps, Int)>| #[trigger] divides_by(q2, d.terms@, self.terms@, n)),
                n == self.n as nat,
                dv ==> exists|q2: Seq<(Exps, Int)>| #[trigger] divides_by(q2, d.terms@, rem@, n),
            decreases top_rank(rem@),
        {
            let ghost before = rem@;
            let ghost big_r = choose|q2: Seq<(Exps, Int)>| #[trigger] divides_by(q2, d.terms@, before, n);
            proof {
                if dv {
                    lemma_lead_of_product(big_r, d.terms@, before, n);
                }
            }
            let (m, c) = rem.remove(0);
            let ghost r0 = rem@;
            proof {
                assert forall|x: Seq<u32>| #[trigger] coef(r0, x) == coef(before, x) - share_of(before[0], x) by {
                    lemma_coef_remove(before, 0, x);
                    assert(before.remove(0) =~= r0);
                }
                assert(m@ == before[0].0@ && c.value() == before[0].1.value());
                assert(m@.len() == n);
                assert forall|t: int| 0 <= t < rem@.len() implies lex_gt(m@, (#[trigger] rem@[t]).0@) by {
                    assert(rem@[t] == before[t + 1]);
                }
                if q@.len() > 0 {
                    assert(lex_gt(last, before[0].0@));
                }
            }
            let mut e: Exps = Vec::new();
            let mut k: usize = 0;
            while k < m.len()
                invariant
                    k <= m@.len(),
                    m@.len() == n,
                    dm@.len() == n,
                    e@.len() == k,
                    forall|j: int| 0 <= j < k ==> #[trigger] e@[j] + dm@[j] == m@[j],
                    dm@ == d.terms@[0].0@,
                    d.terms@.len() > 0,
                    dv ==> divides_by(big_r, d.terms@, before, n) && big_r.len() > 0,
                    dv ==> m@ == lead_sum(big_r, d.terms@, n),
                    dv == (exists|q2: Seq<(Exps, Int)>| #[trigger] divides_by(q2, d.terms@, self.terms@, n)),
                n == self.n as nat,
                decreases m@.len() - k,
            {
                proof {
                    if dv {
                        assert(big_r[0].0@[k as int] + d.terms@[0].0@[k as int] <= u32::MAX);
                    }
                }
                if m[k] < dm[k] {
                    return None;
                }
                e.push(m[k] - dm[k]);
                k += 1;
            }
            proof {
                if dv {
                    assert forall|j: int| 0 <= j < n implies #[trigger] e@[j] == big_r[0].0@[j] by {
                        assert(big_r[0].0@[j] + d.terms@[0].0@[j] <= u32::MAX);
                    }
                    assert(e@ =~= big_r[0].0@);
                }
            }
            let qc = int_div(&c, dc);
            let back = int_mul(&qc, dc);
            let rr = int_sub(&c, &back);
            proof {
                if dv {
                    let a = big_r[0].1.value();
                    let b = dc.value();
                    assert(c.value() == a * b);
                    assert(abs(c.value()) == abs(a) * abs(b)) by (nonlinear_arith)
                        requires
                            c.value() == a * b,
                    ;
                    crate::bigint::lemma_divides_times(abs(b) as int, abs(a) as int);
                    lemma_trunc_exact(c.value(), b);
                    assert(rr.value() == 0);
                    assert(qc.value() == a) by (nonlinear_arith)
                        requires
                            qc.value() * b == a * b,
                            b != 0,
                    ;
                }
            }
            if !int_eq(&rr, &zero) {
                return None;
            }
            proof {
                assert(c.value() == qc.value() * dc.value());
                assert(qc.value() != 0) by {
                    if qc.value() == 0 {
                        assert(qc.value() * dc.value() == 0);
                    }
                }
            }
            let ghost xt: (Exps, Int) = (e, qc);
            let mut t: usize = 1;
            while t < d.terms.len()
                invariant
                    1 <= t <= d.terms@.len(),
                    xt.0@ == e@,
                    xt.1.value() == qc.value(),
                    forall|x: Seq<u32>| #[trigger] coef(rem@, x) == coef(r0, x) - (row_coef(xt, d.terms@, x, t as nat)
                        - row_coef(xt, d.terms@, x, 1)),
                    d.canonical(),
                    d.n == n,
                    dm@ == d.terms@[0].0@,
                    e@.len() == n,
                    m@.len() == n,
                    forall|j: int| 0 <= j < n ==> #[trigger] e@[j] + dm@[j] == m@[j],
                    strictly_descending(rem@),
                    nonzero(rem@),
                    arity(rem@, n),
                    all_below(rem@, m@),
                    dv ==> divides_by(big_r, d.terms@, before, n) && big_r.len() > 0 && e@ == big_r[0].0@,
                    dv == (exists|q2: Seq<(Exps, Int)>| #[trigger] divides_by(q2, d.terms@, self.terms@, n)),
                n == self.n as nat,
                decreases d.terms@.len() - t,
            {
                let tm = &d.terms[t].0;
                let mut ok = true;
                let mut j: usize = 0;
                while j < e.len()
                    invariant
                        j <= e@.len(),
                        e@.len() == n,
                        tm@.len() == n,
                        ok ==> forall|i: int| 0 <= i < j ==> e@[i] + tm@[i] <= u32::MAX,
                        t < d.terms@.len(),
                        tm@ == d.terms@[t as int].0@,
                        dv ==> divides_by(big_r, d.terms@, before, n) && big_r.len() > 0 && e@ == big_r[0].0@,
                        dv ==> ok,
                    decreases e@.len() - j,
                {
                    proof {
                        if dv {
                            assert(big_r[0].0@[j as int] + d.terms@[t as int].0@[j as int] <= u32::MAX);
                        }
                    }
                    if e[j] > u32::MAX - tm[j] {
                        ok = false;
                    }
                    j += 1;
                }
                if !ok {
                    return None;
                }
                let key = add_exps(&e, tm);
                proof {
                    assert(lex_gt(d.terms@[0].0@, d.terms@[t as int].0@));
                    lemma_lex_add(dm@, tm@, m@, key@, e@);
                }
                let prod = int_mul(&qc, &d.terms[t].1);
                let ghost kv = key@;
                let ghost r1 = rem@;
                sub_term(&mut rem, key, &prod, Ghost(n), Ghost(m@));
                proof {
                    assert forall|x: Seq<u32>| #[trigger] coef(rem@, x) == coef(r0, x) - (row_coef(xt, d.terms@, x, (t + 1) as nat)
                        - row_coef(xt, d.terms@, x, 1)) by {
                        lemma_sums_to(e@, tm@, kv, x);
                        assert(coef(r1, x) == coef(r0, x) - (row_coef(xt, d.terms@, x, t as nat) - row_coef(xt, d.terms@, x, 1)));
                    }
                }
                t += 1;
            }
            proof {
                assert forall|x: Seq<u32>| #[trigger] coef(rem@, x) + row_coef(xt, d.terms@, x, d.terms@.len()) == coef(before, x) by {
                    lemma_sums_to(e@, dm@, m@, x);
                    assert(coef(r0, x) == coef(before, x) - share_of(before[0], x));
                    assert(row_coef(xt, d.terms@, x, 0) == 0);
                }
                if dv {
                    lemma_divides_rest(big_r, d.terms@, before, rem@, xt, n);
                    assert(divides_by(big_r.drop_first(), d.terms@, rem@, n));
                }
            }
            let ghost q0 = q@;
            proof {
                if q0.len() > 0 {
                    lemma_lex_sub(last, m@, q0.last().0@, e@, dm@);
                }
            }
            q.push((e, qc));
            proof {
                assert forall|s: int, t: int| 0 <= s < t < q@.len() implies lex_gt(#[trigger] q@[s].0@, #[trigger] q@[t].0@) by {
                    if t < q0.len() {
                        assert(q@[s] == q0[s] && q@[t] == q0[t]);
                    } else if s + 1 < q0.len() {
                        assert(q@[s] == q0[s]);
                        crate::poly::lemma_lex_gt_transitive(q0[s].0@, q0.last().0@, q@[t].0@);
                    } else {
                        assert(q@[s] == q0[s]);
                    }
                }
                assert forall|t: int| 0 <= t < q@.len() implies (#[trigger] q@[t]).1.value() != 0 && q@[t].0@.len() == n by {
                    if t < q0.len() {
                        assert(q@[t] == q0[t]);
                    }
                }
                last = m@;
                assert forall|k: int| 0 <= k < n implies #[trigger] q@.last().0@[k] + dm@[k] == last[k] by {
                    assert(q@.last().0@ == e@);
                }
                if rem@.len() > 0 {
                    assert(lex_gt(m@, rem@[0].0@));
                    lemma_rank_lex(m@, rem@[0].0@);
                }
                assert forall|x: Seq<u32>| #[trigger] coef(rem@, x) + product_coef(q@, d.terms@, x) == coef(self.terms@, x) by {
                    lemma_prod_prefix(q@, q0, d.terms@, x, q0.len());
                    assert(q@[q0.len() as int] == xt);
                    assert(coef(rem@, x) + row_coef(xt, d.terms@, x, d.terms@.len()) == coef(before, x));
                    assert(coef(before, x) + product_coef(q0, d.terms@, x) == coef(self.terms@, x));
                }
            }
        }
        proof {
            assert forall|x: Seq<u32>| #[trigger] product_coef(q@, d.terms@, x) == coef(self.terms@, x) by {
                assert(coef(rem@, x) + product_coef(q@, d.terms@, x) == coef(self.terms@, x));
            }
        }
        Some(IntPoly { n: self.n, terms: q })
    }
}

/// `q * h == f`, coefficient by coefficient.
pub open spec fn quotient_by(q: Seq<(Exps, Int)>, h: Seq<(Exps, Int)>, f: Seq<(Exps, Int)>) -> bool {
    forall|x: Seq<u32>| #[trigger] product_coef(q, h, x) == coef(f, x)
}

/// `h` divides `f` over Z: some integer polynomial times `h` is `f`.
pub open spec fn divisor_of(h: Seq<(Exps, Int)>, f: Seq<(Exps, Int)>) -> bool {
    exists|q: Seq<(Exps, Int)>| #[trigger] quotient_by(q, h, f)
}

/// A single term with zero exponents and value one.
pub open spec fn is_unit_poly(u: Seq<(Exps, Int)>, n: nat) -> bool {
    &&& u.len() == 1
    &&& u[0].1.value() == 1
    &&& u[0].0@.len() == n
    &&& forall|i: int| 0 <= i < n ==> u[0].0@[i] == 0
}

/// Multiplying by one changes nothing.
proof fn lemma_times_one(f: Seq<(Exps, Int)>, u: Seq<(Exps, Int)>, n: nat, x: Seq<u32>, k: nat)
    requires
        arity(f, n),
        is_unit_poly(u, n),
        k <= f.len(),
    ensures
        prod_coef(f, u, x, k) == coef_upto(f, x, k),
    decreases k,
{
    if k > 0 {
        lemma_times_one(f, u, n, x, (k - 1) as nat);
        let e = f[k - 1].0@;
        assert forall|i: int| 0 <= i < e.len() implies #[trigger] e[i] == e[i] + u[0].0@[i] by {}
        lemma_sums_to(e, u[0].0@, e, x);
        assert(row_coef(f[k - 1], u, x, 0) == 0);
    }
}

/// Every polynomial is divided by one.
pub proof fn lemma_one_divides(f: Seq<(Exps, Int)>, u: Seq<(Exps, Int)>, n: nat)
    requires
        arity(f, n),
        is_unit_poly(u, n),
    ensures
        divisor_of(u, f),
{
    assert forall|x: Seq<u32>| #[trigger] product_coef(f, u, x) == coef(f, x) by {
        lemma_times_one(f, u, n, x, f.len());
    }
    assert(quotient_by(f, u, f));
}

impl IntPoly {
    /// The negation, term by term.
    pub fn negated(&self) -> (r: IntPoly)
        requires
            self.canonical(),
        ensures
            r.n == self.n,
            r.canonical(),
            r.terms@.len() == self.terms@.len(),
            forall|t: int| 0 <= t < r.terms@.len() ==> (#[trigger] r.terms@[t]).0@ == self.terms@[t].0@ && r.terms@[t].1.value()
                == -self.terms@[t].1.value(),
    {
        let zero = Int::zero();
        let mut terms: Vec<(Exps, Int)> = Vec::new();
        let mut t: usize = 0;
        while t < self.terms.len()
            invariant
                t <= self.terms@.len(),
                zero.value() == 0,
                terms@.len() == t,
                forall|u: int| 0 <= u < t ==> (#[trigger] terms@[u]).0@ == self.terms@[u].0@ && terms@[u].1.value()
                    == -self.terms@[u].1.value(),
            decreases self.terms@.len() - t,
        {
            terms.push((self.terms[t].0.clone(), int_sub(&zero, &self.terms[t].1)));
            t += 1;
        }
        proof {
            assert forall|s: int, t: int| 0 <= s < t < terms@.len() implies lex_gt(#[trigger] terms@[s].0@, #[trigger] terms@[t].0@) by {
                assert(terms@[s].0@ == self.terms@[s].0@ && terms@[t].0@ == self.terms@[t].0@);
            }
            assert forall|t: int| 0 <= t < terms@.len() implies (#[trigger] terms@[t]).1.value() != 0 && terms@[t].0@.len() == self.n by {
                assert(terms@[t].0@ == self.terms@[t].0@);
            }
        }
        IntPoly { n: self.n, terms }
    }

    /// A copy, term by term.
    pub fn copy(&self) -> (r: IntPoly)
        ensures
            r.n == self.n,
            r.terms@.len() == self.terms@.len(),
            forall|t: int| 0 <= t < r.terms@.len() ==> (#[trigger] r.terms@[t]).0@ == self.terms@[t].0@ && r.terms@[t].1.value()
                == self.terms@[t].1.value(),
            self.canonical() ==> r.canonical(),
    {
        let mut terms: Vec<(Exps, Int)> = Vec::new();
        let mut t: usize = 0;
        while t < self.terms.len()
            invariant
                t <= self.terms@.len(),
                terms@.len() == t,
                forall|u: int| 0 <= u < t ==> (#[trigger] terms@[u]).0@ == self.terms@[u].0@ && terms@[u].1.value()
                    == self.terms@[u].1.value(),
            decreases self.terms@.len() - t,
        {
            terms.push((self.terms[t].0.clone(), self.terms[t].1.copy()));
            t += 1;
        }
        let r = IntPoly { n: self.n, terms };
        proof {
            if self.canonical() {
                assert forall|s: int, u: int| 0 <= s < u < r.terms@.len() implies lex_gt(#[trigger] r.terms@[s].0@, #[trigger] r.terms@[u].0@) by {
                    assert(r.terms@[s].0@ == self.terms@[s].0@ && r.terms@[u].0@ == self.terms@[u].0@);
                }
            }
        }
        r
    }
}

/// The greatest common divisor is at most a positive second argument.
proof fn lemma_gcd_le(a: nat, b: nat)
    requires
        b > 0,
    ensures
        crate::bigint::gcd_nat(a, b) <= b,
    decreases b,
{
    if a % b > 0 {
        lemma_gcd_le(b, a % b);
    } else {
        assert(crate::bigint::gcd_nat(b, 0) == b);
    }
}

/// The least common multiple of two positives is positive.
pub proof fn lemma_lcm_pos(a: int, b: int)
    requires
        a > 0,
        b > 0,
    ensures
        crate::bigint::lcm_nat(abs(a), abs(b)) > 0,
{
    let (x, y) = (abs(a), abs(b));
    lemma_gcd_pos(x, y);
    lemma_gcd_le(x, y);
    let g = crate::bigint::gcd_nat(x, y);
    assert(x * y / g >= 1) by (nonlinear_arith)
        requires
            x >= 1,
            y >= 1,
            1 <= g <= y,
    {
        assert(x * y >= y);
        vstd::arithmetic::div_mod::lemma_div_is_ordered(g as int, (x * y) as int, g as int);
        vstd::arithmetic::div_mod::lemma_div_by_self(g as int);
    }
}

} // verus!
