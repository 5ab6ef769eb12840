//! Ben-Or and Tiwari's interpolation from about `2t` evaluations for `t` terms, with no degree
//! bounds.
//!
//! At `x_i = s_i q_i^j`, with `q_i` the `i`-th prime, a term `c m` contributes `c m(s) m(q)^j`, so
//! the values form a sum of geometric sequences. Berlekamp-Massey finds the polynomial whose roots
//! are the ratios `m(q)`, and factoring each ratio over the `q_i` reads off the exponents. That
//! only works while `m(q) < p`, so it suits very sparse polynomials of modest total degree, where
//! Zippel would spend `t` points per degree of every variable.

use crate::arith::{power, prime};
use crate::modp::{hash_spec, modulus, point_spec};
use crate::poly::{Exps, ModPoly, descending, mono, mono_at, sort_terms};
use crate::univariate::{self as uni, Dense, lemma_trim_eval, residues, trimmed};
use crate::vandermonde;
use crate::zippel::{BlackBox, sparse};

use vstd::prelude::*;

verus! {

/// Terms beyond which the recurrence is not sought.
pub const MAX_TERMS: usize = 4096;

/// Points asked of the black box at once.
pub const BATCH: usize = 8;

/// Consecutive values the recurrence must predict before it is trusted.
pub const MARGIN: usize = 2;

/// Random shifts tried when splitting a polynomial into factors.
pub const MAX_SPLITS: u64 = 64;

/// The longest polynomial whose roots are sought.
pub const MAX_LEN: usize = 0x1_0000;

/// The polynomial in `n` variables behind `f`, or `None` if its terms are too many or of too
/// high a degree. Monte Carlo, like [`crate::zippel::interpolate`]: each of three attempts is
/// checked at a fresh point before it is accepted.
pub fn interpolate<F: BlackBox>(f: &F, n: usize, p: u64, seed: u64) -> (r: Option<ModPoly>)
    requires
        modulus(p),
    ensures
        r matches Some(g) ==> sparse(g, n as nat, p) && descending(g.terms@),
        r matches Some(g) ==> exists|a: u64| a < 3 && #[trigger] confirmed(f, g, n as nat, p, attempt_seed(seed, a)),
{
    let mut attempt: u64 = 0;
    while attempt < 3
        invariant
            modulus(p),
        decreases 3 - attempt,
    {
        let s = crate::modp::hash(&[seed, attempt]);
        if let Some(g) = attempt_once(f, n, p, s) {
            proof {
                assert(s == attempt_seed(seed, attempt));
            }
            return Some(g);
        }
        attempt += 1;
    }
    None
}

/// `s_i q_i^j` for every variable `i`.
fn sample_point(s: &Vec<u64>, q: &Vec<u64>, j: usize, p: u64) -> (x: Vec<u64>)
    requires
        s@.len() == q@.len(),
        modulus(p),
    ensures
        x@.len() == s@.len(),
{
    let mut x: Vec<u64> = Vec::new();
    let mut i: usize = 0;
    while i < s.len()
        invariant
            i <= s@.len(),
            s@.len() == q@.len(),
            x@.len() == i,
            modulus(p),
        decreases s@.len() - i,
    {
        x.push(crate::modp::mul(s[i], crate::modp::pow(q[i], j as u64, p), p));
        i += 1;
    }
    x
}

/// The seed of attempt `a`.
pub open spec fn attempt_seed(seed: u64, a: u64) -> u64 {
    hash_spec(seq![seed, a])
}

/// Check point `i` of the attempt named by `seed`: coordinate `j` is the point `(seed, 1, i, j)`.
pub open spec fn check_point(seed: u64, i: u64, n: nat, p: u64) -> Seq<u64> {
    Seq::new(n, |j: int| point_spec(seq![seed, 1u64, i, j as u64], p))
}

/// Of the check points named by `seed`, the first `i` were refused by `f`, and at point `i` it
/// answered the value of `g`.
pub open spec fn confirmed_at<F: BlackBox>(f: &F, g: ModPoly, n: nat, p: u64, seed: u64, i: u64) -> bool {
    &&& i < 8
    &&& forall|j: u64| j < i ==> #[trigger] f.answers(check_point(seed, j, n, p), p, None)
    &&& f.answers(check_point(seed, i, n, p), p, Some((g.value(check_point(seed, i, n, p)) % (p as int)) as u64))
}

/// `f` confirmed `g` at the first check point it answered of the attempt named by `seed`.
pub open spec fn confirmed<F: BlackBox>(f: &F, g: ModPoly, n: nat, p: u64, seed: u64) -> bool {
    exists|i: u64| #[trigger] confirmed_at(f, g, n, p, seed, i)
}

/// One attempt from the shift named by `seed`.
fn attempt_once<F: BlackBox>(f: &F, n: usize, p: u64, seed: u64) -> (r: Option<ModPoly>)
    requires
        modulus(p),
    ensures
        r matches Some(g) ==> sparse(g, n as nat, p) && descending(g.terms@),
        r matches Some(g) ==> confirmed(f, g, n as nat, p, seed),
{
    let q = small_primes(n);
    if q.len() < n {
        return None;
    }
    let mut s: Vec<u64> = Vec::new();
    let mut i: usize = 0;
    while i < n
        invariant
            i <= n,
            s@.len() == i,
            residues(s@, p),
            modulus(p),
        decreases n - i,
    {
        s.push(crate::modp::point(&[seed, 0, i as u64], p));
        i += 1;
    }
    let mut bm = Massey::new();
    let mut a: Vec<u64> = Vec::new();
    while !bm.settled(a.len())
        invariant
            bm.wf(p, a@.len()),
            prime(p as int) ==> bm.generates(a@, p),
            residues(a@, p),
            a@.len() <= 2 * MAX_TERMS + BATCH,
            q@.len() == n,
            s@.len() == n,
            residues(s@, p),
            modulus(p),
        decreases 2 * MAX_TERMS + BATCH - a@.len(),
    {
        if a.len() > 2 * MAX_TERMS {
            return None;
        }
        let mut xs: Vec<Vec<u64>> = Vec::new();
        let mut j = a.len();
        while j < a.len() + BATCH
            invariant
                a@.len() <= 2 * MAX_TERMS,
                a@.len() <= j <= a@.len() + BATCH,
                q@.len() == n,
                s@.len() == n,
                modulus(p),
            decreases a@.len() + BATCH - j,
        {
            xs.push(sample_point(&s, &q, j, p));
            j += 1;
        }
        let ys = f.eval_many(&xs, p);
        if ys.len() == 0 {
            return None;
        }
        let ghost a0 = a@.len();
        let mut i: usize = 0;
        while i < ys.len()
            invariant
                i <= ys@.len(),
                a@.len() == a0 + i,
                a@.len() <= 2 * MAX_TERMS + BATCH,
                bm.wf(p, a@.len()),
                prime(p as int) ==> bm.generates(a@, p),
                residues(a@, p),
                modulus(p),
            decreases ys@.len() - i,
        {
            if a.len() >= 2 * MAX_TERMS + BATCH {
                return None;
            }
            match ys[i] {
                Some(v) => {
                    let ghost a0 = a@;
                    a.push(v % p);
                    assert(a@.drop_last() =~= a0);
                    bm.push(&a, p);
                },
                None => {
                    return None;
                },
            }
            i += 1;
        }
    }
    let lambda = bm.generator();
    proof {
        assert forall|j: int| 0 <= j < lambda@.len() implies #[trigger] lambda@[j] < p by {
            if bm.l - j < bm.c@.len() {
                assert(bm.c@[bm.l - j] < p);
            }
        }
        assert forall|j: int| 0 <= j < q@.len() implies #[trigger] q@[j] >= 2 by {
            assert(prime(q@[j] as int));
        }
    }
    let x1: Dense = vec![0, 1];
    let (_, z) = uni::div_rem(&x1, &lambda, p);
    // Modulo a prime the remainder is shorter than `lambda`; another modulus ends here.
    if z.len() >= lambda.len() {
        return None;
    }
    let w = powmod(&z, p, &lambda, p);
    if !same(&w, &z) {
        return None;
    }
    let ratios = roots(&lambda, p, seed);
    let mut exps: Vec<Exps> = Vec::new();
    let mut t: usize = 0;
    while t < ratios.len()
        invariant
            t <= ratios@.len(),
            exps@.len() == t,
            forall|u: int| 0 <= u < t ==> (#[trigger] exps@[u])@.len() == n,
            q@.len() == n,
            forall|i: int| 0 <= i < q@.len() ==> #[trigger] q@[i] >= 2,
            forall|i: int| 0 <= i < q@.len() ==> prime(#[trigger] q@[i] as int),
            forall|s: int, t2: int| 0 <= s < t2 < q@.len() ==> #[trigger] q@[s] < #[trigger] q@[t2],
        decreases ratios@.len() - t,
    {
        match exponents(ratios[t], &q) {
            Some(e) => exps.push(e),
            None => {
                return None;
            },
        }
        t += 1;
    }
    let k = ratios.len();
    let mut wv: Vec<u64> = Vec::new();
    let mut i: usize = 1;
    while i <= k
        invariant
            1 <= i <= k + 1,
            k + 1 <= a@.len(),
            a@.len() <= 2 * MAX_TERMS + BATCH,
            wv@.len() == i - 1,
            residues(a@, p),
            residues(wv@, p),
        decreases k + 1 - i,
    {
        wv.push(a[i]);
        i += 1;
    }
    let scaled = vandermonde::solve(&ratios, &lambda, &wv, p);
    let mut terms: Vec<(Exps, u64)> = Vec::new();
    let mut t: usize = 0;
    while t < k
        invariant
            t <= k,
            k == ratios@.len(),
            scaled@.len() == k,
            exps@.len() == k,
            forall|u: int| 0 <= u < k ==> (#[trigger] exps@[u])@.len() == n,
            s@.len() == n,
            modulus(p),
            forall|u: int|
                0 <= u < terms@.len() ==> (#[trigger] terms@[u]).0@.len() == n && terms@[u].1 < p
                    && terms@[u].1 != 0,
        decreases k - t,
    {
        let e = &exps[t];
        let mut shift: u64 = 1;
        let mut i: usize = 0;
        while i < n
            invariant
                i <= n,
                e@.len() == n,
                s@.len() == n,
                modulus(p),
            decreases n - i,
        {
            shift = crate::modp::mul(shift, crate::modp::pow(s[i], e[i] as u64, p), p);
            i += 1;
        }
        let c = crate::modp::mul(scaled[t], crate::modp::inv(shift, p), p);
        if c != 0 {
            terms.push((e.clone(), c));
        }
        t += 1;
    }
    let ghost unsorted = terms@;
    let terms = sort_terms(terms);
    proof {
        assert forall|u: int| 0 <= u < terms@.len() implies (#[trigger] terms@[u]).0@.len() == n
            && terms@[u].1 < p && terms@[u].1 != 0 by {
            crate::poly::lemma_multiset_member(terms@, unsorted, u);
            let w = choose|w: int| 0 <= w < unsorted.len() && unsorted[w] == terms@[u];
            assert(unsorted[w] == terms@[u]);
        }
    }
    let g = ModPoly { n, terms };
    let mut i: u64 = 0;
    while i < 8
        invariant
            sparse(g, n as nat, p),
            descending(g.terms@),
            modulus(p),
            i <= 8,
            forall|j: u64| j < i ==> #[trigger] f.answers(check_point(seed, j, n as nat, p), p, None),
        decreases 8 - i,
    {
        let mut x: Vec<u64> = Vec::new();
        let mut j: usize = 0;
        while j < n
            invariant
                j <= n,
                x@.len() == j,
                modulus(p),
                forall|u: int| 0 <= u < j ==> #[trigger] x@[u] == point_spec(seq![seed, 1u64, i, u as u64], p),
            decreases n - j,
        {
            let key = [seed, 1, i, j as u64];
            assert(key@ == seq![seed, 1u64, i, j as u64]);
            x.push(crate::modp::point(&key, p));
            j += 1;
        }
        assert(x@ =~= check_point(seed, i, n as nat, p));
        let answer = f.eval(&x, p);
        if let Some(y) = answer {
            if y == g.eval(&x, p) {
                assert(f.answers(x@, p, Some((g.value(x@) % (p as int)) as u64)));
                assert(confirmed_at(f, g, n as nat, p, seed, i));
                return Some(g);
            } else {
                return None;
            }
        }
        i += 1;
    }
    None
}

/// Whether two dense polynomials have the same coefficients.
fn same(a: &[u64], b: &[u64]) -> (r: bool)
    ensures
        r == (a@ == b@),
{
    if a.len() != b.len() {
        return false;
    }
    let mut i: usize = 0;
    while i < a.len()
        invariant
            i <= a@.len(),
            a@.len() == b@.len(),
            forall|j: int| 0 <= j < i ==> a@[j] == b@[j],
        decreases a@.len() - i,
    {
        if a[i] != b[i] {
            return false;
        }
        i += 1;
    }
    assert(a@ =~= b@);
    true
}

/// `sum_(i < j) f(i) a_(k - i)`.
pub open spec fn conv_upto(f: spec_fn(int) -> int, a: Seq<u64>, k: int, j: nat) -> int
    decreases j,
{
    if j == 0 {
        0
    } else {
        conv_upto(f, a, k, (j - 1) as nat) + f(j - 1) * (a[k - (j - 1)] as int)
    }
}

/// What the recurrence `c` leaves at position `k` of `a`: `sum_(i <= k) c_i a_(k - i)`, zero
/// before the start.
pub open spec fn disc(c: Seq<u64>, a: Seq<u64>, k: int) -> int {
    if k < 0 {
        0
    } else {
        conv_upto(uni::coef(c), a, k, (k + 1) as nat)
    }
}

/// Only the values up to position `k` count.
proof fn lemma_conv_prefix(f: spec_fn(int) -> int, a: Seq<u64>, a2: Seq<u64>, k: int, j: nat)
    requires
        j <= k + 1,
        k < a.len(),
        k < a2.len(),
        forall|i: int| 0 <= i <= k ==> a[i] == a2[i],
    ensures
        conv_upto(f, a, k, j) == conv_upto(f, a2, k, j),
    decreases j,
{
    if j > 0 {
        lemma_conv_prefix(f, a, a2, k, (j - 1) as nat);
        assert(a[k - (j - 1)] == a2[k - (j - 1)]);
    }
}

/// Congruent recurrences leave congruent sums.
proof fn lemma_conv_mod(f: spec_fn(int) -> int, g: spec_fn(int) -> int, a: Seq<u64>, k: int, j: nat, m: int)
    requires
        m > 0,
        forall|i: int| 0 <= i < j ==> #[trigger] f(i) % m == g(i) % m,
    ensures
        conv_upto(f, a, k, j) % m == conv_upto(g, a, k, j) % m,
    decreases j,
{
    if j > 0 {
        let i = j - 1;
        lemma_conv_mod(f, g, a, k, i as nat, m);
        let x = a[k - i] as int;
        crate::arith::lemma_mul_mod_both(f(i), x, g(i), x, m);
        crate::arith::lemma_add_mod_both(conv_upto(f, a, k, i as nat), f(i) * x, conv_upto(g, a, k, i as nat), g(i) * x, m);
    }
}

/// The sums are linear in the recurrence.
proof fn lemma_conv_lin(f: spec_fn(int) -> int, g: spec_fn(int) -> int, h: spec_fn(int) -> int, r: int, a: Seq<u64>, k: int, j: nat)
    requires
        forall|i: int| 0 <= i < j ==> #[trigger] h(i) == f(i) - r * g(i),
    ensures
        conv_upto(h, a, k, j) == conv_upto(f, a, k, j) - r * conv_upto(g, a, k, j),
    decreases j,
{
    if j > 0 {
        let i = j - 1;
        lemma_conv_lin(f, g, h, r, a, k, i as nat);
        let x = a[k - i] as int;
        let (cf, cg) = (conv_upto(f, a, k, i as nat), conv_upto(g, a, k, i as nat));
        assert(h(i) * x == f(i) * x - r * (g(i) * x)) by (nonlinear_arith)
            requires
                h(i) == f(i) - r * g(i),
        ;
        assert(cf - r * cg + (f(i) * x - r * (g(i) * x)) == (cf + f(i) * x) - r * (cg + g(i) * x)) by (nonlinear_arith);
    }
}

/// A recurrence moved up by `s` places is the original `s` positions earlier.
proof fn lemma_conv_shift(g: spec_fn(int) -> int, h: spec_fn(int) -> int, s: nat, a: Seq<u64>, k: int, j: nat)
    requires
        forall|i: int| 0 <= i < j ==> #[trigger] h(i) == (if i >= s { g(i - s) } else { 0 }),
    ensures
        conv_upto(h, a, k, j) == (if j <= s { 0 } else { conv_upto(g, a, k - s, (j - s) as nat) }),
    decreases j,
{
    if j > 0 {
        lemma_conv_shift(g, h, s, a, k, (j - 1) as nat);
        let i = j - 1;
        if i >= s {
            let t = (j - s) as nat;
            assert(h(i) == g(i - s));
            assert(k - i == (k - s) - (t - 1));
            assert(conv_upto(g, a, k - s, t) == conv_upto(g, a, k - s, (t - 1) as nat) + g(t - 1) * (a[(k - s) - (t - 1)] as int));
            if i == s {
                assert(conv_upto(g, a, k - s, 0) == 0);
            }
        } else {
            assert(h(i) == 0);
        }
    }
}

/// Terms past the support add nothing.
proof fn lemma_conv_tail(f: spec_fn(int) -> int, a: Seq<u64>, k: int, j: nat, j2: nat)
    requires
        j2 <= j,
        forall|i: int| j2 <= i < j ==> #[trigger] f(i) == 0,
    ensures
        conv_upto(f, a, k, j) == conv_upto(f, a, k, j2),
    decreases j,
{
    if j > j2 {
        lemma_conv_tail(f, a, k, (j - 1) as nat, j2);
        assert(f(j - 1) == 0);
    }
}

/// The sums over a prefix of the values are those over the values.
proof fn lemma_disc_prefix(c: Seq<u64>, a: Seq<u64>, a0: Seq<u64>, k: int)
    requires
        k < a0.len(),
        a0.len() <= a.len(),
        forall|i: int| 0 <= i < a0.len() ==> a0[i] == a[i],
    ensures
        disc(c, a, k) == disc(c, a0, k),
{
    if k >= 0 {
        lemma_conv_prefix(uni::coef(c), a, a0, k, (k + 1) as nat);
    }
}

/// `c2 = c - r z^shift b` modulo `m` leaves `c`'s sum less `r` times `b`'s `shift` earlier.
proof fn lemma_disc_update(c: Seq<u64>, b: Seq<u64>, c2: Seq<u64>, a: Seq<u64>, shift: nat, r: int, m: int, k: int)
    requires
        m > 0,
        0 <= k < a.len(),
        forall|i: int| 0 <= i ==> #[trigger] uni::coef(c2)(i) % m == (uni::coef(c)(i) - r * (if i >= shift {
            uni::coef(b)(i - shift)
        } else {
            0
        })) % m,
    ensures
        disc(c2, a, k) % m == (disc(c, a, k) - r * disc(b, a, k - shift)) % m,
{
    let f = uni::coef(c);
    let g = uni::coef(b);
    let sh = |i: int| if i >= shift { g(i - shift) } else { 0 };
    let e = |i: int| f(i) - r * sh(i);
    let j = (k + 1) as nat;
    assert forall|i: int| 0 <= i < j implies #[trigger] uni::coef(c2)(i) % m == e(i) % m by {}
    lemma_conv_mod(uni::coef(c2), e, a, k, j, m);
    lemma_conv_lin(f, sh, e, r, a, k, j);
    lemma_conv_shift(g, sh, shift, a, k, j);
}

/// Berlekamp-Massey, one value at a time: the shortest recurrence `c` generating the sequence.
#[derive(Debug)]
struct Massey {
    c: Dense,
    b: Dense,
    l: usize,
    shift: usize,
    last: u64,
    zeros: usize,
}

impl Massey {
    /// The state after `seen` values: `c` starts with 1, and every length stays within what
    /// `seen` values can produce.
    spec fn wf(&self, p: u64, seen: nat) -> bool {
        &&& modulus(p)
        &&& self.c@.len() >= 1
        &&& self.c@[0] == 1
        &&& residues(self.c@, p)
        &&& self.b@.len() >= 1
        &&& residues(self.b@, p)
        &&& self.shift >= 1
        &&& self.last < p
        &&& self.last != 0
        &&& self.c@.len() <= seen + 1
        &&& self.b@.len() + self.shift <= seen + 2
        &&& self.zeros <= seen
        &&& self.l <= seen
    }

    /// The values from position `l` on follow the recurrence `c`, which has no coefficient past
    /// `l`. The recurrence `b` that `c` had before its length last changed followed them before
    /// position `seen - shift`, from its own length on, and missed the one there by `last`.
    spec fn generates(&self, a: Seq<u64>, p: u64) -> bool {
        let s = a.len() as int;
        let lb = s + 1 - self.l - self.shift;
        &&& forall|k: int| self.l <= k < s ==> #[trigger] disc(self.c@, a, k) % (p as int) == 0
        &&& forall|i: int| self.l < i < self.c@.len() ==> #[trigger] self.c@[i] == 0
        &&& forall|k: int| lb <= k < s - self.shift ==> #[trigger] disc(self.b@, a, k) % (p as int) == 0
        &&& forall|i: int| lb < i < self.b@.len() ==> #[trigger] self.b@[i] == 0
        &&& self.shift <= s ==> disc(self.b@, a, s - self.shift) % (p as int) == self.last
        &&& self.shift > s ==> self.l == 0 && self.shift == s + 1
    }

    fn new() -> (m: Self)
        ensures
            forall|p: u64| modulus(p) ==> #[trigger] m.wf(p, 0),
            forall|p: u64| #[trigger] m.generates(Seq::empty(), p),
            m.l == 0,
    {
        let c: Dense = vec![1];
        let b: Dense = vec![1];
        Massey { c, b, l: 0, shift: 1, last: 1, zeros: 0 }
    }

    /// Takes in `a.last()`, the newest of the values `a`.
    #[verifier::spinoff_prover]
    fn push(&mut self, a: &[u64], p: u64)
        requires
            a@.len() >= 1,
            a@.len() <= 2 * MAX_TERMS + BATCH,
            old(self).wf(p, (a@.len() - 1) as nat),
            residues(a@, p),
        ensures
            final(self).wf(p, a@.len()),
            prime(p as int) && old(self).generates(a@.drop_last(), p) ==> final(self).generates(a@, p),
    {
        let k = a.len() - 1;
        let ghost a0 = a@.drop_last();
        let ghost m = p as int;
        let mut d: u64 = 0;
        let mut i: usize = 0;
        proof {
            vstd::arithmetic::div_mod::lemma_small_mod(0, p as nat);
            assert(conv_upto(uni::coef(self.c@), a@, k as int, 0) == 0);
        }
        while i < self.c.len() && i < a.len()
            invariant
                i <= a@.len(),
                i <= self.c@.len(),
                k == a@.len() - 1,
                modulus(p),
                residues(a@, p),
                residues(self.c@, p),
                d < p,
                m == p as int,
                d == conv_upto(uni::coef(self.c@), a@, k as int, i as nat) % m,
                *self == *old(self),
            decreases a@.len() - i,
        {
            let ghost before = conv_upto(uni::coef(self.c@), a@, k as int, i as nat);
            let t = crate::modp::mul(self.c[i], a[k - i], p);
            proof {
                vstd::arithmetic::div_mod::lemma_add_mod_noop(before, self.c@[i as int] * a@[k - i], m);
                vstd::arithmetic::div_mod::lemma_mod_twice(before, m);
                vstd::arithmetic::div_mod::lemma_mod_twice(self.c@[i as int] * a@[k - i], m);
            }
            d = crate::modp::add(d, t, p);
            proof {
                vstd::arithmetic::div_mod::lemma_add_mod_noop(before % m, (self.c@[i as int] * a@[k - i]) % m, m);
            }
            i += 1;
        }
        proof {
            lemma_conv_tail(uni::coef(self.c@), a@, k as int, (k + 1) as nat, i as nat);
            assert(d == disc(self.c@, a@, k as int) % m);
            assert forall|j: int| 0 <= j < a0.len() implies a0[j] == a@[j] by {}
        }
        if d == 0 {
            proof {
                if old(self).generates(a0, p) {
                    assert forall|j: int| self.l <= j < a@.len() implies #[trigger] disc(self.c@, a@, j) % m == 0 by {
                        if j < a0.len() {
                            lemma_disc_prefix(self.c@, a@, a0, j);
                        }
                    }
                    let lb = a@.len() + 1 - self.l - (self.shift + 1);
                    assert forall|j: int| lb <= j < a@.len() - (self.shift + 1) implies #[trigger] disc(self.b@, a@, j) % m == 0 by {
                        lemma_disc_prefix(self.b@, a@, a0, j);
                    }
                    if self.shift + 1 <= a@.len() {
                        lemma_disc_prefix(self.b@, a@, a0, a@.len() - (self.shift + 1));
                    }
                }
            }
            self.shift += 1;
            self.zeros += 1;
            return;
        }
        let li = crate::modp::inv(self.last, p);
        let r = crate::modp::mul(d, li, p);
        proof {
            if prime(p as int) {
                vstd::arithmetic::div_mod::lemma_small_mod(self.last as nat, p as nat);
                assert((self.last * li) % m == 1);
                assert((r * self.last) % m == d) by {
                    vstd::arithmetic::div_mod::lemma_mul_mod_noop_left(d * li, self.last as int, m);
                    assert((d * li) * self.last == d * (li * self.last)) by (nonlinear_arith);
                    vstd::arithmetic::div_mod::lemma_mul_mod_noop_right(d as int, li * self.last, m);
                    assert(li * self.last == self.last * li) by (nonlinear_arith);
                    assert(d * 1 == d) by (nonlinear_arith);
                    vstd::arithmetic::div_mod::lemma_small_mod(d as nat, p as nat);
                }
            }
        }
        let mut c = self.c.clone();
        assert(c@ =~= self.c@);
        let need = self.b.len() + self.shift;
        if c.len() < need {
            let ghost c1 = c@;
            c.resize(need, 0);
            assert forall|j: int| 0 <= j < c@.len() implies #[trigger] c@[j] < p by {
                if j >= c1.len() {
                    assert(c@[j] == 0);
                } else {
                    assert(c@.subrange(0, c1.len() as int)[j] == c1[j]);
                }
            }
            assert(c@[0] == c@.subrange(0, c1.len() as int)[0]);
            assert forall|j: int| 0 <= j < c@.len() implies #[trigger] c@[j] == uni::coef(self.c@)(j) by {
                if j < c1.len() {
                    assert(c@.subrange(0, c1.len() as int)[j] == c1[j]);
                }
            }
        }
        let ghost c0 = c@;
        let mut i: usize = 0;
        while i < self.b.len()
            invariant
                *self == *old(self),
                c@.len() <= a@.len() + 1,
                a@.len() <= 2 * MAX_TERMS + BATCH,
                i <= self.b@.len(),
                self.b@.len() + self.shift <= c@.len(),
                self.shift >= 1,
                c@.len() >= 1,
                c@[0] == 1,
                residues(c@, p),
                residues(self.b@, p),
                modulus(p),
                r < p,
                m == p as int,
                c@.len() == c0.len(),
                self.c@.len() <= c0.len(),
                forall|j: int| 0 <= j < c0.len() ==> #[trigger] c0[j] == uni::coef(self.c@)(j),
                forall|j: int|
                    0 <= j < c@.len() ==> #[trigger] c@[j] == (if self.shift <= j < self.shift + i {
                        (c0[j] - (r * self.b@[j - self.shift]) % m) % m
                    } else {
                        c0[j] as int
                    }),
            decreases self.b@.len() - i,
        {
            let ghost cb = c@;
            let v = crate::modp::sub(c[i + self.shift], crate::modp::mul(r, self.b[i], p), p);
            c.set(i + self.shift, v);
            proof {
                assert forall|j: int| 0 <= j < c@.len() implies #[trigger] c@[j] == (if self.shift <= j < self.shift + i + 1 {
                    (c0[j] - (r * self.b@[j - self.shift]) % m) % m
                } else {
                    c0[j] as int
                }) by {
                    if j != i + self.shift {
                        assert(c@[j] == cb[j]);
                    } else {
                        assert(cb[j] == c0[j]);
                    }
                }
            }
            i += 1;
        }
        proof {
            if prime(p as int) && old(self).generates(a0, p) {
                self.lemma_push_update(a@, c@, c0, d, r, p);
            }
        }
        self.zeros = 0;
        if self.l <= k / 2 {
            self.l = k + 1 - self.l;
            std::mem::swap(&mut self.c, &mut c);
            self.b = c;
            self.last = d;
            self.shift = 1;
        } else {
            self.c = c;
            self.shift += 1;
        }
    }

    /// The update of `push` that changes `c`: with `c2 = c - r z^shift b`, where `r` times the
    /// miss of `b` is the miss `d` of `c`, the new state follows the values.
    #[verifier::spinoff_prover]
    proof fn lemma_push_update(&self, a: Seq<u64>, c2: Seq<u64>, c0: Seq<u64>, d: u64, r: u64, p: u64)
        requires
            prime(p as int),
            modulus(p),
            a.len() >= 1,
            self.wf(p, (a.len() - 1) as nat),
            self.generates(a.drop_last(), p),
            residues(a, p),
            d != 0,
            d < p,
            d == disc(self.c@, a, a.len() - 1) % (p as int),
            (r * self.last) % (p as int) == d,
            c2.len() == c0.len(),
            self.c@.len() <= c0.len(),
            self.b@.len() + self.shift <= c0.len(),
            forall|j: int| 0 <= j < c0.len() ==> #[trigger] c0[j] == uni::coef(self.c@)(j),
            forall|j: int|
                0 <= j < c2.len() ==> #[trigger] c2[j] == (if self.shift <= j < self.shift + self.b@.len() {
                    (c0[j] - (r * self.b@[j - self.shift]) % (p as int)) % (p as int)
                } else {
                    c0[j] as int
                }),
        ensures
            ({
                let s = a.len() - 1;
                let swap = self.l <= s / 2;
                let l2 = if swap { s + 1 - self.l } else { self.l as int };
                let shift2 = if swap { 1 } else { self.shift + 1 };
                let b2 = if swap { self.c@ } else { self.b@ };
                let last2 = if swap { d } else { self.last };
                let lb2 = a.len() + 1 - l2 - shift2;
                &&& forall|k: int| l2 <= k < a.len() ==> #[trigger] disc(c2, a, k) % (p as int) == 0
                &&& forall|i: int| l2 < i < c2.len() ==> #[trigger] c2[i] == 0
                &&& swap ==> forall|k: int| lb2 <= k < a.len() - shift2 ==> #[trigger] disc(self.c@, a, k) % (p as int) == 0
                &&& !swap ==> forall|k: int| lb2 <= k < a.len() - shift2 ==> #[trigger] disc(self.b@, a, k) % (p as int) == 0
                &&& swap ==> forall|i: int| lb2 < i < self.c@.len() ==> #[trigger] self.c@[i] == 0
                &&& !swap ==> forall|i: int| lb2 < i < self.b@.len() ==> #[trigger] self.b@[i] == 0
                &&& shift2 <= a.len() ==> disc(b2, a, a.len() - shift2) % (p as int) == last2
                &&& shift2 > a.len() ==> l2 == 0 && shift2 == a.len() + 1
            }),
    {
        let m = p as int;
        let s = a.len() - 1;
        let a0 = a.drop_last();
        let l = self.l as int;
        let shift = self.shift as int;
        let lb = s + 1 - l - shift;
        let swap = self.l <= s / 2;
        let l2 = if swap { s + 1 - l } else { l };
        assert forall|j: int| 0 <= j < a0.len() implies a0[j] == a[j] by {}
        assert forall|i: int| 0 <= i implies #[trigger] uni::coef(c2)(i) % m == (uni::coef(self.c@)(i) - r * (if i >= shift {
            uni::coef(self.b@)(i - shift)
        } else {
            0
        })) % m by {
            if i < c2.len() {
                if shift <= i < shift + self.b@.len() {
                    let x = r * self.b@[i - shift];
                    vstd::arithmetic::div_mod::lemma_mod_twice(x, m);
                    crate::arith::lemma_sub_mod_both(c0[i] as int, x % m, c0[i] as int, x, m);
                    vstd::arithmetic::div_mod::lemma_mod_twice(c0[i] - x % m, m);
                    assert(uni::coef(c2)(i) == (c0[i] - x % m) % m);
                    assert(uni::coef(self.c@)(i) == c0[i]);
                    assert(uni::coef(self.b@)(i - shift) == self.b@[i - shift]);
                } else {
                    assert(uni::coef(self.c@)(i) == c0[i]);
                    if i >= shift {
                        assert(uni::coef(self.b@)(i - shift) == 0);
                    }
                    assert(r * 0 == 0) by (nonlinear_arith);
                    vstd::arithmetic::div_mod::lemma_mod_twice(c0[i] as int, m);
                }
            } else {
                assert(uni::coef(self.c@)(i) == 0);
                if i >= shift {
                    assert(uni::coef(self.b@)(i - shift) == 0);
                }
                assert(r * 0 == 0) by (nonlinear_arith);
            }
        }
        // The new recurrence at each position.
        assert forall|k: int| l2 <= k < a.len() implies #[trigger] disc(c2, a, k) % m == 0 by {
            lemma_disc_update(self.c@, self.b@, c2, a, shift as nat, r as int, m, k);
            if k < s {
                lemma_disc_prefix(self.c@, a, a0, k);
                assert(disc(self.c@, a, k) % m == 0);
                if k - shift >= 0 {
                    lemma_disc_prefix(self.b@, a, a0, k - shift);
                    assert(lb <= k - shift < s - shift);
                    assert(disc(self.b@, a0, k - shift) % m == 0);
                } else {
                    vstd::arithmetic::div_mod::lemma_small_mod(0, p as nat);
                }
                assert(disc(self.b@, a, k - shift) % m == 0);
                vstd::arithmetic::div_mod::lemma_mul_mod_noop_right(r as int, disc(self.b@, a, k - shift), m);
                assert(r * (disc(self.b@, a, k - shift) % m) == 0) by (nonlinear_arith)
                    requires
                        disc(self.b@, a, k - shift) % m == 0,
                ;
                vstd::arithmetic::div_mod::lemma_small_mod(0, p as nat);
                crate::arith::lemma_sub_mod_both(disc(self.c@, a, k), r * disc(self.b@, a, k - shift), 0, 0, m);
            } else {
                assert(shift <= s);
                lemma_disc_prefix(self.b@, a, a0, s - shift);
                vstd::arithmetic::div_mod::lemma_mul_mod_noop_right(r as int, disc(self.b@, a, s - shift), m);
                vstd::arithmetic::div_mod::lemma_small_mod(d as nat, p as nat);
                assert(disc(self.b@, a, s - shift) % m == self.last);
                assert((r * disc(self.b@, a, k - shift)) % m == (d as int) % m);
                assert(disc(self.c@, a, k) % m == (d as int) % m);
                crate::arith::lemma_sub_mod_both(disc(self.c@, a, k), r * disc(self.b@, a, k - shift), d as int, d as int, m);
                assert(d - d == 0);
                vstd::arithmetic::div_mod::lemma_small_mod(0, p as nat);
            }
        }
        assert forall|i: int| l2 < i < c2.len() implies #[trigger] c2[i] == 0 by {
            if i < self.c@.len() {
                assert(self.c@[i] == 0);
            }
            assert(c0[i] == 0);
            if shift <= i < shift + self.b@.len() {
                assert(lb < i - shift);
                assert(self.b@[i - shift] == 0);
                assert(r * 0 == 0) by (nonlinear_arith);
                vstd::arithmetic::div_mod::lemma_small_mod(0, p as nat);
                assert(c2[i] == (0 - (r * 0) % m) % m);
            }
        }
        if swap {
            assert forall|k: int| l <= k < a.len() - 1 implies #[trigger] disc(self.c@, a, k) % m == 0 by {
                lemma_disc_prefix(self.c@, a, a0, k);
            }
        } else {
            assert forall|k: int| lb <= k < a.len() - (shift + 1) implies #[trigger] disc(self.b@, a, k) % m == 0 by {
                lemma_disc_prefix(self.b@, a, a0, k);
            }
            lemma_disc_prefix(self.b@, a, a0, s - shift);
        }
    }

    /// Whether the recurrence has predicted enough values in a row to be trusted.
    fn settled(&self, len: usize) -> (r: bool)
        ensures
            r == (self.zeros >= MARGIN && len >= 2 * self.l + MARGIN),
    {
        self.zeros >= MARGIN && (len as u128) >= 2 * (self.l as u128) + (MARGIN as u128)
    }

    /// `prod (z - r)` over the ratios `r`: the recurrence reversed.
    fn generator(&self) -> (g: Dense)
        requires
            self.c@.len() >= 1,
            self.c@[0] == 1,
            self.l < usize::MAX,
        ensures
            g@.len() == self.l + 1,
            g@.last() == 1,
            forall|i: int|
                0 <= i <= self.l ==> #[trigger] g@[i] == (if self.l - i < self.c@.len() {
                    self.c@[self.l - i]
                } else {
                    0
                }),
    {
        let mut g: Dense = Vec::new();
        let mut i: usize = 0;
        while i <= self.l
            invariant
                i <= self.l + 1,
                self.l < usize::MAX,
                g@.len() == i,
                forall|j: int|
                    0 <= j < i ==> #[trigger] g@[j] == (if self.l - j < self.c@.len() {
                        self.c@[self.l - j]
                    } else {
                        0
                    }),
            decreases self.l + 1 - i,
        {
            let j = self.l - i;
            if j < self.c.len() {
                g.push(self.c[j]);
            } else {
                g.push(0);
            }
            i += 1;
        }
        g
    }
}

/// `a^e` modulo `f`.
fn powmod(a: &[u64], e: u64, f: &[u64], p: u64) -> (r: Dense)
    requires
        residues(a@, p),
        residues(f@, p),
        f@.len() > 0,
        f@.last() != 0,
        f@.len() <= MAX_LEN,
        a@.len() < f@.len(),
        modulus(p),
    ensures
        residues(r@, p),
        r@.len() < f@.len(),
{
    let one: Dense = vec![1];
    let (_, mut r) = uni::div_rem(&one, f, p);
    // Modulo a prime every remainder is shorter than `f`; another modulus ends here.
    if r.len() >= f.len() {
        return Vec::new();
    }
    let mut a = vstd::slice::slice_to_vec(a);
    let mut e = e;
    while e > 0
        invariant
            residues(r@, p),
            residues(a@, p),
            r@.len() < f@.len(),
            a@.len() < f@.len(),
            residues(f@, p),
            f@.len() > 0,
            f@.last() != 0,
            f@.len() <= MAX_LEN,
            modulus(p),
        decreases e,
    {
        if e % 2 == 1 {
            let ra = uni::mul_poly(&r, &a, p);
            r = uni::div_rem(&ra, f, p).1;
            if r.len() >= f.len() {
                return Vec::new();
            }
        }
        let aa = uni::mul_poly(&a, &a, p);
        a = uni::div_rem(&aa, f, p).1;
        if a.len() >= f.len() {
            return Vec::new();
        }
        e = e / 2;
    }
    r
}

/// The roots of a monic `f` with distinct roots, all in GF(p), by Cantor-Zassenhaus: a random
/// shift of `z^((p-1)/2) - 1` catches about half of them. After `MAX_SPLITS` shifts that all
/// fail to split `f`, no roots are reported.
fn roots(f: &[u64], p: u64, seed: u64) -> (out: Vec<u64>)
    requires
        residues(f@, p),
        trimmed(f@),
        f@.len() <= MAX_LEN,
        modulus(p),
    ensures
        residues(out@, p),
        out@.len() + 1 <= f@.len() || out@.len() == 0,
    decreases f@.len(),
{
    if f.len() <= 2 {
        if f.len() == 2 {
            return vec![crate::modp::sub(0, f[0], p)];
        }
        return Vec::new();
    }
    let mut i: u64 = 0;
    while i < MAX_SPLITS
        invariant
            residues(f@, p),
            trimmed(f@),
            f@.len() > 2,
            f@.len() <= MAX_LEN,
            modulus(p),
        decreases MAX_SPLITS - i,
    {
        let lin: Dense = vec![crate::modp::point(&[seed, 2, i], p), 1];
        let mut g = powmod(&lin, (p - 1) / 2, f, p);
        if g.len() == 0 {
            g.push(0);
        }
        let g0 = crate::modp::sub(g[0], 1, p);
        g.set(0, g0);
        let ghost before = g@;
        uni::trim(&mut g);
        proof {
            lemma_trim_eval(before, 0);
            assert forall|j: int| 0 <= j < g@.len() implies #[trigger] g@[j] < p by {
                assert(g@[j] == before[j]);
            }
        }
        let mut g = uni::gcd(&g, f, p);
        let ghost g0 = g@;
        uni::trim(&mut g);
        proof {
            lemma_trim_eval(g0, 0);
            assert forall|j: int| 0 <= j < g@.len() implies #[trigger] g@[j] < p by {
                assert(g@[j] == g0[j]);
            }
        }
        if g.len() > 1 && g.len() < f.len() {
            let (mut h, _) = uni::div_rem(f, &g, p);
            let ghost before = h@;
            uni::trim(&mut h);
            proof {
                lemma_trim_eval(before, 0);
                assert forall|j: int| 0 <= j < h@.len() implies #[trigger] h@[j] < p by {
                    assert(h@[j] == before[j]);
                }
            }
            let mut out = roots(&g, p, crate::modp::hash(&[seed, i, 0]));
            let mut rest = roots(&h, p, crate::modp::hash(&[seed, i, 1]));
            let ghost o1 = out@;
            let ghost o2 = rest@;
            out.append(&mut rest);
            proof {
                assert(out@ == o1 + o2);
                assert forall|j: int| 0 <= j < out@.len() implies #[trigger] out@[j] < p by {
                    if j < o1.len() {
                        assert(out@[j] == o1[j]);
                    } else {
                        assert(out@[j] == o2[j - o1.len()]);
                    }
                }
            }
            return out;
        }
        i += 1;
    }
    Vec::new()
}

/// `prod_(j >= i) q_j^(e_j)` over the integers.
pub open spec fn tail_prod(e: Seq<u32>, q: Seq<u64>, i: nat) -> int
    decreases q.len() - i,
{
    if i >= q.len() {
        1
    } else {
        power(q[i as int] as int, e[i as int] as nat) * tail_prod(e, q, i + 1)
    }
}

proof fn lemma_mono_tail(e: Seq<u32>, q: Seq<u64>, i: nat)
    requires
        i <= q.len(),
    ensures
        mono(e, q, q.len()) == mono(e, q, i) * tail_prod(e, q, i),
    decreases q.len() - i,
{
    if i < q.len() {
        lemma_mono_tail(e, q, i + 1);
        let a = mono(e, q, i);
        let b = power(q[i as int] as int, e[i as int] as nat);
        let c = tail_prod(e, q, i + 1);
        assert(mono(e, q, i + 1) == a * b);
        assert((a * b) * c == a * (b * c)) by (nonlinear_arith);
    }
}

/// A prime `a` that does not divide `b` divides no power of `b`.
proof fn lemma_power_not_divisible(a: int, b: int, k: nat)
    requires
        prime(a),
        b % a != 0,
    ensures
        power(b, k) % a != 0,
    decreases k,
{
    if k == 0 {
        vstd::arithmetic::div_mod::lemma_small_mod(1, a as nat);
    } else {
        lemma_power_not_divisible(a, b, (k - 1) as nat);
        assert(power(b, k) == b * power(b, (k - 1) as nat));
        if power(b, k) % a == 0 {
            crate::arith::lemma_euclid(b, power(b, (k - 1) as nat), a);
        }
    }
}

/// A smaller prime of an ascending list of primes divides no product of the later ones.
proof fn lemma_tail_not_divisible(e: Seq<u32>, q: Seq<u64>, j: int, i: nat)
    requires
        0 <= j < i,
        j < q.len(),
        forall|t: int| 0 <= t < q.len() ==> prime(#[trigger] q[t] as int),
        forall|s: int, t: int| 0 <= s < t < q.len() ==> #[trigger] q[s] < #[trigger] q[t],
    ensures
        tail_prod(e, q, i) % (q[j] as int) != 0,
    decreases q.len() - i,
{
    let a = q[j] as int;
    assert(prime(a));
    if i >= q.len() {
        vstd::arithmetic::div_mod::lemma_small_mod(1, a as nat);
    } else {
        lemma_tail_not_divisible(e, q, j, i + 1);
        let b = q[i as int] as int;
        assert(prime(b) && a < b);
        assert(b % a != 0);
        lemma_power_not_divisible(a, b, e[i as int] as nat);
        if tail_prod(e, q, i) % a == 0 {
            crate::arith::lemma_euclid(power(b, e[i as int] as nat), tail_prod(e, q, i + 1), a);
        }
    }
}

/// A larger base gives a larger power.
proof fn lemma_power_base_mono(a: int, b: int, k: nat)
    requires
        0 <= a <= b,
    ensures
        0 <= power(a, k) <= power(b, k),
    decreases k,
{
    if k > 0 {
        lemma_power_base_mono(a, b, (k - 1) as nat);
        let x = power(a, (k - 1) as nat);
        let y = power(b, (k - 1) as nat);
        assert(a * x <= b * y) by (nonlinear_arith)
            requires
                0 <= a <= b,
                0 <= x <= y,
        ;
        assert(0 <= a * x) by (nonlinear_arith)
            requires
                0 <= a,
                0 <= x,
        ;
    }
}

/// `2^64`, past every `u64`.
proof fn lemma_power_two_64()
    ensures
        power(2, 64) == 0x1_0000_0000_0000_0000,
{
    assert(power(2, 1) == 2 * power(2, 0));
    assert(power(2, 1) == 2);
    crate::arith::lemma_power_adds(2, 1, 1);
    assert(power(2, 2) == 4);
    crate::arith::lemma_power_adds(2, 2, 2);
    assert(power(2, 4) == 16);
    crate::arith::lemma_power_adds(2, 4, 4);
    assert(power(2, 8) == 256);
    crate::arith::lemma_power_adds(2, 8, 8);
    assert(power(2, 16) == 0x1_0000);
    crate::arith::lemma_power_adds(2, 16, 16);
    assert(power(2, 32) == 0x1_0000_0000);
    crate::arith::lemma_power_adds(2, 32, 32);
    assert(power(2, 64) == 0x1_0000_0000 * 0x1_0000_0000);
}

/// A product of powers of positive bases is positive.
proof fn lemma_tail_pos(e: Seq<u32>, q: Seq<u64>, i: nat)
    requires
        forall|t: int| 0 <= t < q.len() ==> #[trigger] q[t] >= 1,
    ensures
        tail_prod(e, q, i) >= 1,
    decreases q.len() - i,
{
    if i < q.len() {
        lemma_tail_pos(e, q, i + 1);
        crate::arith::lemma_power_one(e[i as int] as nat);
        lemma_power_base_mono(1, q[i as int] as int, e[i as int] as nat);
        let a = power(q[i as int] as int, e[i as int] as nat);
        let b = tail_prod(e, q, i + 1);
        assert(a * b >= 1) by (nonlinear_arith)
            requires
                a >= 1,
                b >= 1,
        ;
    }
}

/// The exponents `e` with `r = prod q_i^(e_i)`, or `None` if `r` has another factor. For
/// ascending primes `q` the exponents exist exactly when `Some` comes back.
fn exponents(r: u64, q: &[u64]) -> (out: Option<Exps>)
    requires
        forall|i: int| 0 <= i < q@.len() ==> prime(#[trigger] q@[i] as int),
        forall|s: int, t: int| 0 <= s < t < q@.len() ==> #[trigger] q@[s] < #[trigger] q@[t],
    ensures
        r == 0 ==> out is None,
        out matches Some(e) ==> e@.len() == q@.len() && mono_at(e@, q@) == r,
        out is None ==> !exists|es: Seq<u32>| es.len() == q@.len() && #[trigger] mono_at(es, q@) == r,
{
    let ghost has = exists|es: Seq<u32>| es.len() == q@.len() && #[trigger] mono_at(es, q@) == r;
    let ghost es = choose|es: Seq<u32>| es.len() == q@.len() && #[trigger] mono_at(es, q@) == r;
    proof {
        assert forall|j: int| 0 <= j < q@.len() implies #[trigger] q@[j] >= 2 by {
            assert(prime(q@[j] as int));
        }
        if has {
            assert(mono_at(es, q@) == mono(es, q@, q@.len()));
            lemma_mono_tail(es, q@, 0);
            assert(mono(es, q@, 0) == 1);
            lemma_tail_pos(es, q@, 0);
        }
    }
    if r == 0 {
        return None;
    }
    let mut rem = r;
    let mut e: Exps = Vec::new();
    let mut i: usize = 0;
    while i < q.len()
        invariant
            i <= q@.len(),
            e@.len() == i,
            rem >= 1,
            rem * mono(e@, q@, i as nat) == r,
            forall|j: int| 0 <= j < q@.len() ==> #[trigger] q@[j] >= 2,
            forall|j: int| 0 <= j < q@.len() ==> prime(#[trigger] q@[j] as int),
            forall|s: int, t: int| 0 <= s < t < q@.len() ==> #[trigger] q@[s] < #[trigger] q@[t],
            has ==> es.len() == q@.len(),
            has ==> forall|j: int| 0 <= j < i ==> e@[j] == es[j],
            has ==> rem == tail_prod(es, q@, i as nat),
        decreases q@.len() - i,
    {
        let qi = q[i];
        let ghost start = rem;
        let ghost ei = es[i as int] as int;
        let ghost t1 = tail_prod(es, q@, (i + 1) as nat);
        proof {
            if has {
                lemma_tail_not_divisible(es, q@, i as int, (i + 1) as nat);
                assert(rem == power(qi as int, (ei - 0) as nat) * t1);
            }
        }
        let mut k: u32 = 0;
        while rem % qi == 0
            invariant
                qi >= 2,
                rem >= 1,
                rem * power(qi as int, k as nat) == start,
                start < 0x1_0000_0000_0000_0000,
                k <= 64,
                has ==> k <= ei && rem == power(qi as int, (ei - k) as nat) * t1,
                has ==> t1 % (qi as int) != 0,
            decreases rem,
        {
            if k == 64 {
                proof {
                    lemma_power_base_mono(2, qi as int, 64);
                    lemma_power_two_64();
                    let pk = power(qi as int, 64);
                    assert(rem * pk >= pk) by (nonlinear_arith)
                        requires
                            rem >= 1,
                            pk >= 0,
                    ;
                }
                return None;
            }
            let ghost r0 = rem;
            rem = rem / qi;
            proof {
                assert(r0 == rem * qi) by (nonlinear_arith)
                    requires
                        (r0 as int) % (qi as int) == 0,
                        rem == (r0 as int) / (qi as int),
                        qi >= 2,
                ;
                let pk = power(qi as int, k as nat);
                assert(power(qi as int, (k + 1) as nat) == qi * pk);
                assert(rem * (qi * pk) == (rem * qi) * pk) by (nonlinear_arith);
                assert(rem >= 1) by (nonlinear_arith)
                    requires
                        r0 == rem * qi,
                        r0 >= 1,
                        qi >= 2,
                        rem >= 0,
                ;
                assert(rem < r0) by (nonlinear_arith)
                    requires
                        r0 == rem * qi,
                        rem >= 1,
                        qi >= 2,
                ;
                if has {
                    if k == ei {
                        assert(power(qi as int, 0) == 1);
                        assert(r0 == t1);
                        assert(false);
                    }
                    let x = power(qi as int, (ei - k - 1) as nat) * t1;
                    assert(power(qi as int, (ei - k) as nat) == qi * power(qi as int, (ei - k - 1) as nat));
                    assert(r0 == qi * x) by (nonlinear_arith)
                        requires
                            r0 == power(qi as int, (ei - k) as nat) * t1,
                            power(qi as int, (ei - k) as nat) == qi * power(qi as int, (ei - k - 1) as nat),
                            x == power(qi as int, (ei - k - 1) as nat) * t1,
                    ;
                    assert(rem == x) by (nonlinear_arith)
                        requires
                            r0 == rem * qi,
                            r0 == qi * x,
                            qi >= 2,
                    ;
                }
            }
            k += 1;
        }
        proof {
            if has && k < ei {
                let x = power(qi as int, (ei - k - 1) as nat) * t1;
                assert(power(qi as int, (ei - k) as nat) == qi * power(qi as int, (ei - k - 1) as nat));
                assert(rem == x * qi) by (nonlinear_arith)
                    requires
                        rem == power(qi as int, (ei - k) as nat) * t1,
                        power(qi as int, (ei - k) as nat) == qi * power(qi as int, (ei - k - 1) as nat),
                        x == power(qi as int, (ei - k - 1) as nat) * t1,
                ;
                vstd::arithmetic::div_mod::lemma_mod_multiples_basic(x, qi as int);
            }
            if has {
                assert(k == ei);
                assert(power(qi as int, 0) == 1);
            }
        }
        let ghost e0 = e@;
        e.push(k);
        proof {
            crate::poly::lemma_mono_prefix(e0, e@, q@, i as nat);
            let m0 = mono(e0, q@, i as nat);
            let pk = power(qi as int, k as nat);
            assert(mono(e@, q@, (i + 1) as nat) == m0 * pk);
            assert(rem * (m0 * pk) == (rem * pk) * m0) by (nonlinear_arith);
        }
        i += 1;
    }
    if rem == 1 {
        assert(e@.len() == q@.len());
        Some(e)
    } else {
        None
    }
}

/// Whether `k >= 2` has no divisor `d` with `d * d <= k`, which makes it prime.
fn no_small_divisor(k: u64) -> (r: bool)
    requires
        k >= 2,
    ensures
        r == prime(k as int),
{
    let mut d: u64 = 2;
    assert((2 as int) * (2 as int) <= u128::MAX);
    while (d as u128) * (d as u128) <= (k as u128)
        invariant
            2 <= d <= k,
            (d as int) * (d as int) <= u128::MAX,
            forall|e: int| 2 <= e < d ==> #[trigger] ((k as int) % e) != 0,
        decreases k - d,
    {
        assert(d < k) by (nonlinear_arith)
            requires
                (d as int) * (d as int) <= k,
                d >= 2,
        ;
        if k % d == 0 {
            return false;
        }
        assert(((d + 1) as int) * ((d + 1) as int) <= u128::MAX) by (nonlinear_arith)
            requires
                d < k,
                k <= u64::MAX,
        ;
        d += 1;
    }
    proof {
        assert forall|e: int| 2 <= e < k implies #[trigger] ((k as int) % e) != 0 by {
            if e >= d && (k as int) % e == 0 {
                let f = (k as int) / e;
                assert(k == e * f) by (nonlinear_arith)
                    requires
                        (k as int) % e == 0,
                        f == (k as int) / e,
                        e >= 2,
                ;
                assert(f >= 2 && f < d) by (nonlinear_arith)
                    requires
                        k == e * f,
                        e < k,
                        e >= d,
                        d * d > k,
                        d >= 2,
                ;
                assert((k as int) % f == 0) by (nonlinear_arith)
                    requires
                        k == e * f,
                        f >= 2,
                ;
            }
        }
    }
    true
}

/// The first `n` primes in increasing order (fewer only if they do not all fit in a `u64`).
fn small_primes(n: usize) -> (q: Vec<u64>)
    ensures
        q@.len() <= n,
        forall|i: int| 0 <= i < q@.len() ==> prime(#[trigger] q@[i] as int),
        forall|i: int, j: int| 0 <= i < j < q@.len() ==> #[trigger] q@[i] < #[trigger] q@[j],
        forall|m: int|
            q@.len() > 0 && 2 <= m < q@.last() && prime(m) ==> exists|i: int|
                0 <= i < q@.len() && #[trigger] q@[i] == m,
        q@.len() < n ==> forall|m: int|
            2 <= m < u64::MAX && prime(m) ==> exists|i: int| 0 <= i < q@.len() && #[trigger] q@[i] == m,
{
    let mut q: Vec<u64> = Vec::new();
    let mut k: u64 = 2;
    while q.len() < n && k < u64::MAX
        invariant
            q@.len() <= n,
            k >= 2,
            forall|i: int| 0 <= i < q@.len() ==> prime(#[trigger] q@[i] as int),
            forall|i: int| 0 <= i < q@.len() ==> #[trigger] q@[i] < k,
            forall|i: int, j: int| 0 <= i < j < q@.len() ==> #[trigger] q@[i] < #[trigger] q@[j],
            forall|m: int|
                2 <= m < k && prime(m) ==> exists|i: int| 0 <= i < q@.len() && #[trigger] q@[i] == m,
        decreases u64::MAX - k,
    {
        if no_small_divisor(k) {
            let ghost q0 = q@;
            q.push(k);
            proof {
                assert forall|m: int| 2 <= m < k + 1 && prime(m) implies exists|i: int|
                    0 <= i < q@.len() && #[trigger] q@[i] == m by {
                    if m == k {
                        assert(q@[q0.len() as int] == m);
                    } else {
                        let i = choose|i: int| 0 <= i < q0.len() && #[trigger] q0[i] == m;
                        assert(q@[i] == m);
                    }
                }
            }
        }
        k += 1;
    }
    q
}

} // verus!
