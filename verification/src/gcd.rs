//! Gcd over Z: strip contents, then join Zippel images modulo word-sized primes by CRT.

use crate::bigint::{int_add, int_div, int_eq, int_gcd, int_gt, int_mul, int_residue, int_sub, Int};
use crate::intpoly::{arity, coef, divisor_of, lemma_one_divides, nonzero, quotient_by, signed_content, strictly_descending, IntPoly};
use crate::linzip::{linzip, skeleton_ok};
use crate::modp::{inv, modulus, Primes, Rng};
use crate::pgcd::{gcd_input, pgcd, reshape};
use crate::poly::{exps_eq, Exps, ModPoly};
use crate::univariate as uni;
use vstd::prelude::*;

verus! {

/// Every exponent is below `u32::MAX`.
pub open spec fn small(f: IntPoly) -> bool {
    forall|t: int, i: int| 0 <= t < f.terms@.len() && 0 <= i < f.terms@[t].0@.len() ==> #[trigger] f.terms@[t].0@[i] < u32::MAX
}

/// Whether every exponent is below `u32::MAX`.
fn is_small(f: &IntPoly) -> (b: bool)
    ensures
        b == small(*f),
{
    let mut t: usize = 0;
    while t < f.terms.len()
        invariant
            t <= f.terms@.len(),
            forall|s: int, i: int| 0 <= s < t && 0 <= i < f.terms@[s].0@.len() ==> #[trigger] f.terms@[s].0@[i] < u32::MAX,
        decreases f.terms@.len() - t,
    {
        let e = &f.terms[t].0;
        let mut i: usize = 0;
        while i < e.len()
            invariant
                t < f.terms@.len(),
                i <= e@.len(),
                e@ == f.terms@[t as int].0@,
                forall|j: int| 0 <= j < i ==> e@[j] < u32::MAX,
            decreases e@.len() - i,
        {
            if e[i] == u32::MAX {
                assert(f.terms@[t as int].0@[i as int] == u32::MAX);
                return false;
            }
            i += 1;
        }
        t += 1;
    }
    true
}

/// Whether `s` has the shape `linzip` takes for `n` variables: nonempty, `n` entries each, no
/// power of `x_0` above the first.
fn skeleton_fits(s: &Vec<Exps>, n: usize) -> (b: bool)
    requires
        n >= 1,
    ensures
        b == skeleton_ok(s@, n as nat, (n - 1) as nat),
{
    if s.len() == 0 || s[0].len() != n {
        return false;
    }
    let mut i: usize = 0;
    while i < s.len()
        invariant
            i <= s@.len(),
            s@.len() > 0,
            s@[0]@.len() == n,
            n >= 1,
            forall|j: int| 0 <= j < i ==> (#[trigger] s@[j])@.len() == n && s@[j]@[0] <= s@[0]@[0],
        decreases s@.len() - i,
    {
        if s[i].len() != n || s[i][0] > s[0][0] {
            assert(!skeleton_ok(s@, n as nat, (n - 1) as nat)) by {
                assert(s@[i as int]@.len() != n || s@[i as int]@[0] > s@[0]@[0]);
            }
            return false;
        }
        i += 1;
    }
    true
}

/// The reduction of `f` modulo `p` as `pgcd` takes it.
proof fn lemma_reduced_input(f: IntPoly, h: ModPoly, p: u64)
    requires
        f.n >= 1,
        arity(f.terms@, f.n as nat),
        small(f),
        h.n == f.n,
        h.shaped(p),
        forall|t: int| 0 <= t < h.terms@.len() ==> (#[trigger] h.terms@[t]).1 != 0,
        crate::poly::term_seq(h.terms@) == crate::intpoly::reduced_terms(f.terms@, p, f.terms@.len()),
    ensures
        gcd_input(h, (f.n - 1) as nat, p),
        crate::poly::small_exps(h),
{
    lemma_reduced_small(f.terms@, p, f.terms@.len());
    assert forall|t: int| 0 <= t < h.terms@.len() implies crate::poly::exps_ok((#[trigger] h.terms@[t]).0@, h.n as nat, (f.n - 1) as nat) by {
        let v = crate::poly::term_seq(h.terms@);
        assert(v[t].0 == h.terms@[t].0@);
        assert(small_seq(v[t].0));
    }
    assert forall|t: int, i: int| 0 <= t < h.terms@.len() && 0 <= i < h.terms@[t].0@.len() implies #[trigger] h.terms@[t].0@[i] < u32::MAX by {
        let v = crate::poly::term_seq(h.terms@);
        assert(v[t].0 == h.terms@[t].0@);
        assert(small_seq(v[t].0));
    }
}

/// Every entry is below `u32::MAX`.
pub open spec fn small_seq(e: Seq<u32>) -> bool {
    forall|i: int| 0 <= i < e.len() ==> #[trigger] e[i] < u32::MAX
}

proof fn lemma_reduced_small(ts: Seq<(Exps, Int)>, p: u64, k: nat)
    requires
        k <= ts.len(),
        forall|t: int, i: int| 0 <= t < ts.len() && 0 <= i < ts[t].0@.len() ==> #[trigger] ts[t].0@[i] < u32::MAX,
    ensures
        forall|t: int| 0 <= t < crate::intpoly::reduced_terms(ts, p, k).len() ==> small_seq(
            #[trigger] crate::intpoly::reduced_terms(ts, p, k)[t].0,
        ),
    decreases k,
{
    if k > 0 {
        lemma_reduced_small(ts, p, (k - 1) as nat);
        let prev = crate::intpoly::reduced_terms(ts, p, (k - 1) as nat);
        let cur = crate::intpoly::reduced_terms(ts, p, k);
        assert forall|t: int| 0 <= t < cur.len() implies small_seq(#[trigger] cur[t].0) by {
            if t < prev.len() {
                assert(cur[t] == prev[t]);
            } else {
                assert(cur[t].0 == ts[k - 1].0@);
                assert forall|i: int| 0 <= i < cur[t].0.len() implies #[trigger] cur[t].0[i] < u32::MAX by {
                    assert(ts[k - 1].0@[i] < u32::MAX);
                }
            }
        }
    }
}

/// With `x_0`-degrees preserved, a constant univariate image proves `gcd = 1`, because the gcd
/// is primitive in `x_0`.
fn coprime(f: &ModPoly, g: &ModPoly, p: u64, rng: &mut Rng) -> (b: bool)
    requires
        f.shaped(p),
        g.shaped(p),
        f.n == g.n,
        f.n >= 1,
        crate::poly::small_exps(*f),
        crate::poly::small_exps(*g),
        modulus(p),
{
    let mut point: Vec<u64> = Vec::new();
    while point.len() < f.n
        invariant
            point@.len() <= f.n,
            modulus(p),
        decreases f.n - point@.len(),
    {
        point.push(rng.nonzero(p));
    }
    proof {
        assert forall|t: int| 0 <= t < f.terms@.len() implies (#[trigger] f.terms@[t]).0@[0] < usize::MAX by {
            assert(f.terms@[t].0@.len() == f.n);
        }
        assert forall|t: int| 0 <= t < g.terms@.len() implies (#[trigger] g.terms@[t]).0@[0] < usize::MAX by {
            assert(g.terms@[t].0@.len() == g.n);
        }
    }
    let uf = f.eval_except(0, &point, p);
    let ug = g.eval_except(0, &point, p);
    uni::deg(&uf) == f.degree(0) && uni::deg(&ug) == g.degree(0) && uni::gcd(&uf, &ug, p).len() == 1
}

/// The coefficient of `e` in `h`, 0 if it has none.
fn coefficient(h: &ModPoly, e: &Exps) -> (c: u64)
    ensures
        c == 0 || exists|t: int| 0 <= t < h.terms@.len() && (#[trigger] h.terms@[t]).1 == c,
        (forall|t: int| 0 <= t < h.terms@.len() ==> (#[trigger] h.terms@[t]).0@ != e@) ==> c == 0,
        forall|t: int|
            0 <= t < h.terms@.len() && (#[trigger] h.terms@[t]).0@ == e@ && (forall|u: int| 0 <= u < t ==> h.terms@[u].0@ != e@)
                ==> c == h.terms@[t].1,
{
    let mut t: usize = 0;
    while t < h.terms.len()
        invariant
            t <= h.terms@.len(),
            forall|u: int| 0 <= u < t ==> (#[trigger] h.terms@[u]).0@ != e@,
        decreases h.terms@.len() - t,
    {
        if exps_eq(&h.terms[t].0, e) {
            assert(h.terms@[t as int].1 == h.terms[t as int].1);
            return h.terms[t].1;
        }
        t += 1;
    }
    0
}

/// Whether two integer polynomials are the same.
fn same_poly(a: &IntPoly, b: &IntPoly) -> (r: bool)
    ensures
        r == (a.n == b.n && a.terms@.len() == b.terms@.len() && forall|t: int|
            0 <= t < a.terms@.len() ==> (#[trigger] a.terms@[t]).0@ == b.terms@[t].0@ && a.terms@[t].1.value()
                == b.terms@[t].1.value()),
{
    if a.n != b.n || a.terms.len() != b.terms.len() {
        return false;
    }
    let mut t: usize = 0;
    while t < a.terms.len()
        invariant
            t <= a.terms@.len(),
            a.terms@.len() == b.terms@.len(),
            forall|u: int| 0 <= u < t ==> (#[trigger] a.terms@[u]).0@ == b.terms@[u].0@ && a.terms@[u].1.value()
                == b.terms@[u].1.value(),
        decreases a.terms@.len() - t,
    {
        if !exps_eq(&a.terms[t].0, &b.terms[t].0) || !int_eq(&a.terms[t].1, &b.terms[t].1) {
            return false;
        }
        t += 1;
    }
    true
}

/// Images are scaled so their leading coefficient is `gcd(lc f, lc g)`, which makes them agree
/// across primes. A candidate that divides both inputs is the gcd, since its leading monomial is
/// no smaller than the true one. `None` if the primes below 2^62 run out, or an exponent is
/// `u32::MAX`.
fn modular(f: &IntPoly, g: &IntPoly) -> (r: Option<IntPoly>)
    requires
        f.canonical(),
        g.canonical(),
        f.n == g.n,
        f.n >= 1,
        f.terms@.len() > 0,
        g.terms@.len() > 0,
    ensures
        r matches Some(h) ==> h.n == f.n && h.canonical() && h.terms@.len() > 0,
        r matches Some(h) ==> divisor_of(h.terms@, f.terms@) && divisor_of(h.terms@, g.terms@),
        r matches Some(h) ==> h.terms@[0].1.value() > 0,
{
    let n = f.n;
    if !is_small(f) || !is_small(g) {
        return None;
    }
    let mut rng = Rng::new(0x5eed);
    let gamma = int_gcd(f.lc(), g.lc());
    let mut skeleton: Option<Vec<Exps>> = None;
    let mut acc: Vec<Int> = Vec::new();
    let mut big_m = Int::from_u64(1);
    let mut last: Option<IntPoly> = None;
    let mut primes = Primes::new();
    loop
        invariant
            f.canonical(),
            g.canonical(),
            f.n == n,
            g.n == n,
            n >= 1,
            f.terms@.len() > 0,
            g.terms@.len() > 0,
            small(*f),
            small(*g),
            primes.bound() <= 0x4000_0000_0000_0000u64,
            big_m.value() > 0,
            skeleton matches Some(s) ==> s@.len() == acc@.len() && s@.len() > 0 && forall|i: int| 0 <= i < s@.len() ==> (#[trigger] s@[i])@.len() == n,
        decreases primes.bound(),
    {
        let p = match primes.next() {
            Some(p) => p,
            None => return None,
        };
        let gp_ = int_residue(&gamma, p);
        let fp = f.reduce(p);
        let gp = g.reduce(p);
        if gp_ == 0 || fp.terms.len() == 0 || gp.terms.len() == 0 {
            continue;
        }
        if !exps_eq(fp.lm(), &f.terms[0].0) || !exps_eq(gp.lm(), &g.terms[0].0) {
            continue;
        }
        proof {
            lemma_reduced_input(*f, fp, p);
            lemma_reduced_input(*g, gp, p);
        }
        if skeleton.is_none() && coprime(&fp, &gp, p, &mut rng) {
            let one = IntPoly::one(n);
            proof {
                lemma_one_divides(f.terms@, one.terms@, n as nat);
                lemma_one_divides(g.terms@, one.terms@, n as nat);
            }
            return Some(one);
        }
        let mut sparse: Option<ModPoly> = None;
        match &skeleton {
            Some(s) => {
                if n >= 2 && skeleton_fits(s, n) {
                    sparse = linzip(&fp, &gp, s, n - 1, p, &mut rng);
                }
            },
            None => {},
        }
        let found = match sparse {
            Some(h) => h,
            None => match pgcd(&fp, &gp, n - 1, p, &mut rng) {
                Some(h) => h,
                None => continue,
            },
        };
        if found.terms.len() == 0 {
            continue;
        }
        let mut h = found.monic(p);
        h.scale(gp_, p);
        let shape = match &skeleton {
            Some(s) => reshape(Some(s), &h),
            None => reshape(None, &h),
        };
        match shape {
            None => continue,
            Some(true) => {
                let s = h.support();
                let mut zeros: Vec<Int> = Vec::new();
                while zeros.len() < s.len()
                    invariant
                        zeros@.len() <= s@.len(),
                    decreases s@.len() - zeros@.len(),
                {
                    zeros.push(Int::zero());
                }
                skeleton = Some(s);
                acc = zeros;
                big_m = Int::from_u64(1);
                last = None;
            },
            Some(false) => {},
        }
        let s = match &skeleton {
            Some(s) => s,
            None => continue,
        };
        let m_inv = inv(int_residue(&big_m, p), p);
        let mut i: usize = 0;
        while i < s.len()
            invariant
                i <= s@.len(),
                s@.len() == acc@.len(),
                modulus(p),
                m_inv < p,
                h.shaped(p),
            decreases s@.len() - i,
        {
            let r = coefficient(&h, &s[i]);
            let a = int_residue(&acc[i], p);
            let t = crate::modp::mul(crate::modp::sub(r, a, p), m_inv, p);
            let step = int_mul(&big_m, &Int::from_u64(t));
            let next = int_add(&acc[i], &step);
            acc.set(i, next);
            i += 1;
        }
        let ghost m0 = big_m.value();
        big_m = int_mul(&big_m, &Int::from_u64(p));
        proof {
            assert(big_m.value() > 0) by (nonlinear_arith)
                requires
                    big_m.value() == m0 * p,
                    m0 > 0,
                    p > 0,
            ;
        }
        let half = int_div(&big_m, &Int::from_u64(2));
        let mut terms: Vec<(Exps, Int)> = Vec::new();
        let mut i: usize = 0;
        while i < s.len()
            invariant
                i <= s@.len(),
                s@.len() == acc@.len(),
                forall|j: int| 0 <= j < s@.len() ==> (#[trigger] s@[j])@.len() == n,
                arity(terms@, n as nat),
            decreases s@.len() - i,
        {
            let c = if int_gt(&acc[i], &half) {
                int_sub(&acc[i], &big_m)
            } else {
                acc[i].copy()
            };
            let ghost before = terms@;
            terms.push((s[i].clone(), c));
            proof {
                assert forall|t: int| 0 <= t < terms@.len() implies (#[trigger] terms@[t]).0@.len() == n by {
                    if t < before.len() {
                        assert(terms@[t] == before[t]);
                    }
                }
            }
            i += 1;
        }
        let candidate = IntPoly::new(n, terms);
        let agreed = match &last {
            Some(l) => same_poly(l, &candidate),
            None => false,
        };
        if agreed && candidate.terms.len() > 0 {
            let h = candidate.primitive();
            if h.terms.len() > 0 {
                let fq = f.div_exact(&h);
                let gq = g.div_exact(&h);
                if fq.is_some() && gq.is_some() {
                    proof {
                        assert(quotient_by(fq->0.terms@, h.terms@, f.terms@));
                        assert(quotient_by(gq->0.terms@, h.terms@, g.terms@));
                    }
                    return Some(h);
                }
            }
        }
        last = Some(candidate);
    }
}

/// Whether every exponent sum of a term of `a` and a term of `b` stays within `u32`.
pub(crate) fn products_fit(a: &IntPoly, b: &IntPoly) -> (r: bool)
    requires
        arity(a.terms@, a.n as nat),
        arity(b.terms@, b.n as nat),
        a.n == b.n,
    ensures
        r == forall|s: int, t: int, i: int|
            0 <= s < a.terms@.len() && 0 <= t < b.terms@.len() && 0 <= i < a.n ==> #[trigger] a.terms@[s].0@[i]
                + #[trigger] b.terms@[t].0@[i] <= u32::MAX,
{
    let mut s: usize = 0;
    while s < a.terms.len()
        invariant
            s <= a.terms@.len(),
            arity(a.terms@, a.n as nat),
            arity(b.terms@, b.n as nat),
            a.n == b.n,
            forall|s2: int, t: int, i: int|
                0 <= s2 < s && 0 <= t < b.terms@.len() && 0 <= i < a.n ==> #[trigger] a.terms@[s2].0@[i]
                    + #[trigger] b.terms@[t].0@[i] <= u32::MAX,
        decreases a.terms@.len() - s,
    {
        let mut t: usize = 0;
        while t < b.terms.len()
            invariant
                s < a.terms@.len(),
                t <= b.terms@.len(),
                arity(a.terms@, a.n as nat),
                arity(b.terms@, b.n as nat),
                a.n == b.n,
                forall|s2: int, t2: int, i: int|
                    0 <= s2 < s && 0 <= t2 < b.terms@.len() && 0 <= i < a.n ==> #[trigger] a.terms@[s2].0@[i]
                        + #[trigger] b.terms@[t2].0@[i] <= u32::MAX,
                forall|t2: int, i: int|
                    0 <= t2 < t && 0 <= i < a.n ==> #[trigger] a.terms@[s as int].0@[i] + #[trigger] b.terms@[t2].0@[i] <= u32::MAX,
            decreases b.terms@.len() - t,
        {
            let mut i: usize = 0;
            while i < a.n
                invariant
                    s < a.terms@.len(),
                    t < b.terms@.len(),
                    i <= a.n,
                    arity(a.terms@, a.n as nat),
                    arity(b.terms@, b.n as nat),
                    a.n == b.n,
                    forall|j: int| 0 <= j < i ==> a.terms@[s as int].0@[j] + b.terms@[t as int].0@[j] <= u32::MAX,
                decreases a.n - i,
            {
                if a.terms[s].0[i] > u32::MAX - b.terms[t].0[i] {
                    assert(a.terms@[s as int].0@[i as int] + b.terms@[t as int].0@[i as int] > u32::MAX);
                    return false;
                }
                i += 1;
            }
            t += 1;
        }
        s += 1;
    }
    true
}

/// `h` made primitive, every exponent lowered by `s`.
fn shifted(h: &IntPoly, s: &Exps) -> (r: IntPoly)
    requires
        h.canonical(),
        h.terms@.len() > 0,
        s@.len() == h.n,
        forall|k: int, t: int| 0 <= k < h.n && 0 <= t < h.terms@.len() ==> s@[k] <= #[trigger] h.terms@[t].0@[k],
    ensures
        r.n == h.n,
        r.canonical(),
{
    let q = h.primitive();
    let mut terms: Vec<(Exps, Int)> = Vec::new();
    let mut t: usize = 0;
    while t < q.terms.len()
        invariant
            t <= q.terms@.len(),
            q.n == h.n,
            s@.len() == h.n,
            arity(q.terms@, h.n as nat),
            forall|u: int| 0 <= u < q.terms@.len() ==> crate::intpoly::has_exps(h.terms@, (#[trigger] q.terms@[u]).0@),
            forall|k: int, u: int| 0 <= k < h.n && 0 <= u < h.terms@.len() ==> s@[k] <= #[trigger] h.terms@[u].0@[k],
            arity(terms@, h.n as nat),
        decreases q.terms@.len() - t,
    {
        let e = &q.terms[t].0;
        proof {
            let w = choose|w: int| 0 <= w < h.terms@.len() && (#[trigger] h.terms@[w]).0@ == e@;
            assert forall|k: int| 0 <= k < h.n implies s@[k] <= e@[k] by {
                assert(s@[k] <= h.terms@[w].0@[k]);
            }
        }
        let mut f: Exps = Vec::new();
        let mut k: usize = 0;
        while k < e.len()
            invariant
                k <= e@.len(),
                e@.len() == h.n,
                s@.len() == h.n,
                forall|j: int| 0 <= j < h.n ==> s@[j] <= e@[j],
                f@.len() == k,
            decreases e@.len() - k,
        {
            f.push(e[k] - s[k]);
            k += 1;
        }
        let ghost before = terms@;
        terms.push((f, q.terms[t].1.copy()));
        proof {
            assert forall|u: int| 0 <= u < terms@.len() implies (#[trigger] terms@[u]).0@.len() == h.n by {
                if u < before.len() {
                    assert(terms@[u] == before[u]);
                }
            }
        }
        t += 1;
    }
    IntPoly::new(h.n, terms)
}

/// `h` times `c`, every exponent raised by `m`; `None` if an exponent would leave `u32`.
/// Terms that are those of `h` moved up by `m` and scaled by `c`, one for one, have the
/// coefficients of `h` times the single term `c x^m`.
proof fn lemma_unshift_coef(h: Seq<(Exps, Int)>, ts: Seq<(Exps, Int)>, m: Exps, c: Int, x: Seq<u32>, k: nat)
    requires
        k <= h.len(),
        k <= ts.len(),
        forall|u: int| 0 <= u < k ==> (#[trigger] h[u]).0@.len() == m@.len() && ts[u].0@.len() == m@.len(),
        forall|u: int, i: int| 0 <= u < k && 0 <= i < m@.len() ==> #[trigger] ts[u].0@[i] == h[u].0@[i] + m@[i],
        forall|u: int| 0 <= u < k ==> (#[trigger] ts[u]).1.value() == h[u].1.value() * c.value(),
    ensures
        crate::intpoly::coef_upto(ts, x, k) == crate::intpoly::prod_coef(h, seq![(m, c)], x, k),
    decreases k,
{
    if k > 0 {
        let u = k - 1;
        lemma_unshift_coef(h, ts, m, c, x, (k - 1) as nat);
        assert forall|i: int| 0 <= i < m@.len() implies #[trigger] ts[u].0@[i] == h[u].0@[i] + m@[i] by {}
        crate::intpoly::lemma_sums_to(h[u].0@, m@, ts[u].0@, x);
        let one = seq![(m, c)];
        assert(crate::intpoly::row_coef(h[u], one, x, 0) == 0);
        assert(one[0] == (m, c));
    }
}

fn unshifted(h: &IntPoly, m: &Exps, c: &Int) -> (r: Option<IntPoly>)
    requires
        arity(h.terms@, h.n as nat),
        m@.len() == h.n,
    ensures
        r matches Some(q) ==> q.n == h.n && q.canonical(),
        r is None <==> exists|t: int, i: int|
            0 <= t < h.terms@.len() && 0 <= i < h.n && #[trigger] h.terms@[t].0@[i] + m@[i] > u32::MAX,
        r matches Some(q) ==> forall|x: Seq<u32>|
            #[trigger] crate::intpoly::coef(q.terms@, x) == crate::intpoly::product_coef(h.terms@, seq![(*m, *c)], x),
{
    let mut terms: Vec<(Exps, Int)> = Vec::new();
    let mut t: usize = 0;
    while t < h.terms.len()
        invariant
            t <= h.terms@.len(),
            arity(h.terms@, h.n as nat),
            m@.len() == h.n,
            arity(terms@, h.n as nat),
            terms@.len() == t,
            forall|s: int, i: int| 0 <= s < t && 0 <= i < h.n ==> #[trigger] h.terms@[s].0@[i] + m@[i] <= u32::MAX,
            forall|u: int, i: int| 0 <= u < t && 0 <= i < m@.len() ==> #[trigger] terms@[u].0@[i] == h.terms@[u].0@[i] + m@[i],
            forall|u: int| 0 <= u < t ==> (#[trigger] terms@[u]).1.value() == h.terms@[u].1.value() * c.value(),
        decreases h.terms@.len() - t,
    {
        let e = &h.terms[t].0;
        let mut i: usize = 0;
        while i < e.len()
            invariant
                i <= e@.len(),
                e@.len() == m@.len(),
                m@.len() == h.n,
                t < h.terms@.len(),
                e@ == h.terms@[t as int].0@,
                forall|j: int| 0 <= j < i ==> e@[j] + m@[j] <= u32::MAX,
            decreases e@.len() - i,
        {
            if e[i] > u32::MAX - m[i] {
                assert(h.terms@[t as int].0@[i as int] + m@[i as int] > u32::MAX);
                return None;
            }
            i += 1;
        }
        let f = crate::intpoly::add_exps(e, m);
        let ghost before = terms@;
        terms.push((f, int_mul(&h.terms[t].1, c)));
        proof {
            assert forall|u: int| 0 <= u < terms@.len() implies (#[trigger] terms@[u]).0@.len() == h.n by {
                if u < before.len() {
                    assert(terms@[u] == before[u]);
                }
            }
            assert forall|u: int, i: int| 0 <= u < t + 1 && 0 <= i < m@.len() implies #[trigger] terms@[u].0@[i] == h.terms@[u].0@[i]
                + m@[i] by {
                if u < before.len() {
                    assert(terms@[u] == before[u]);
                }
            }
            assert forall|u: int| 0 <= u < t + 1 implies (#[trigger] terms@[u]).1.value() == h.terms@[u].1.value() * c.value() by {
                if u < before.len() {
                    assert(terms@[u] == before[u]);
                }
            }
            assert forall|s: int, i: int| 0 <= s < t + 1 && 0 <= i < h.n implies #[trigger] h.terms@[s].0@[i] + m@[i] <= u32::MAX by {
                if s == t {
                    assert(e@[i] + m@[i] <= u32::MAX);
                }
            }
        }
        t += 1;
    }
    let q = IntPoly::new(h.n, terms);
    proof {
        assert forall|x: Seq<u32>| #[trigger] crate::intpoly::coef(q.terms@, x) == crate::intpoly::product_coef(h.terms@, seq![(*m, *c)], x) by {
            lemma_unshift_coef(h.terms@, terms@, *m, *c, x, h.terms@.len());
        }
    }
    Some(q)
}

/// `gcd(f, g)` up to sign. `None` if the primes run out, an exponent would leave `u32`, or
/// the recursion goes deeper than `depth` variables.
pub fn gcd_z(f: &IntPoly, g: &IntPoly, depth: usize) -> (r: Option<IntPoly>)
    requires
        f.canonical(),
        g.canonical(),
        f.n == g.n,
    ensures
        r matches Some(h) ==> h.n == f.n && h.canonical(),
        f.terms@.len() == 0 && g.terms@.len() == 0 ==> (r matches Some(h) && h.terms@.len() == 0),
        f.terms@.len() == 0 || g.terms@.len() == 0 ==> r is Some,
        g.terms@.len() == 0 && f.terms@.len() > 0 ==> (r matches Some(h) && signed_content(f.terms@) != 0
            && forall|x: Seq<u32>| #[trigger] coef(h.terms@, x) * signed_content(f.terms@) == coef(f.terms@, x)),
        f.terms@.len() == 0 && g.terms@.len() > 0 ==> (r matches Some(h) && signed_content(g.terms@) != 0
            && forall|x: Seq<u32>| #[trigger] coef(h.terms@, x) * signed_content(g.terms@) == coef(g.terms@, x)),
    decreases depth, 2nat,
{
    if f.is_zero() || g.is_zero() {
        let h = if f.is_zero() {
            g
        } else {
            f
        };
        if h.is_zero() {
            return Some(h.copy());
        }
        let q = h.primitive();
        return Some(q);
    }
    let c = int_gcd(&f.content(), &g.content());
    let mf = f.min_exps();
    let mg = g.min_exps();
    let mut m: Exps = Vec::new();
    let mut k: usize = 0;
    while k < f.n
        invariant
            k <= f.n,
            mf@.len() == f.n,
            mg@.len() == f.n,
            m@.len() == k,
        decreases f.n - k,
    {
        m.push(if mf[k] < mg[k] {
            mf[k]
        } else {
            mg[k]
        });
        k += 1;
    }
    let sf = shifted(f, &mf);
    let sg = shifted(g, &mg);
    let h = match gcd_shifted(&sf, &sg, depth) {
        Some(h) => h,
        None => return None,
    };
    unshifted(&h, &m, &c)
}

/// Variable `k` occurs in at most one of `f` and `g`.
pub open spec fn unshared(f: IntPoly, g: IntPoly, k: int) -> bool {
    (forall|s: int| 0 <= s < f.terms@.len() ==> #[trigger] f.terms@[s].0@[k] == 0) || (forall|t: int|
        0 <= t < g.terms@.len() ==> #[trigger] g.terms@[t].0@[k] == 0)
}

/// Main variable is the shared one of largest degree; its content comes from recursion on the
/// coefficients, leaving the modular stage a gcd that is primitive in `x_0`.
fn gcd_shifted(f: &IntPoly, g: &IntPoly, depth: usize) -> (r: Option<IntPoly>)
    requires
        f.canonical(),
        g.canonical(),
        f.n == g.n,
    ensures
        r matches Some(h) ==> h.n == f.n && h.canonical(),
        (forall|k: int| 0 <= k < f.n ==> #[trigger] unshared(*f, *g, k)) ==> (r matches Some(h) && h.terms@.len() == 1
            && h.terms@[0].1.value() == 1 && forall|i: int| 0 <= i < f.n ==> h.terms@[0].0@[i] == 0),
    decreases depth, 1nat,
{
    let n = f.n;
    let mut best: Option<(usize, u32)> = None;
    let mut k: usize = 0;
    while k < n
        invariant
            k <= n,
            n == f.n,
            f.canonical(),
            g.canonical(),
            f.n == g.n,
            best matches Some(b) ==> b.0 < n && f.terms@.len() > 0 && g.terms@.len() > 0,
            best is None <==> forall|k2: int| 0 <= k2 < k ==> #[trigger] unshared(*f, *g, k2),
        decreases n - k,
    {
        let df = f.degree(k);
        let dg = g.degree(k);
        proof {
            if df == 0 {
                assert forall|s: int| 0 <= s < f.terms@.len() implies #[trigger] f.terms@[s].0@[k as int] == 0 by {}
            }
            if dg == 0 {
                assert forall|t: int| 0 <= t < g.terms@.len() implies #[trigger] g.terms@[t].0@[k as int] == 0 by {}
            }
            if df > 0 && dg > 0 {
                let s0 = choose|s: int| 0 <= s < f.terms@.len() && (#[trigger] f.terms@[s]).0@[k as int] == df;
                let t0 = choose|t: int| 0 <= t < g.terms@.len() && (#[trigger] g.terms@[t]).0@[k as int] == dg;
                assert(!unshared(*f, *g, k as int));
            } else {
                assert(unshared(*f, *g, k as int));
            }
        }
        if df > 0 && dg > 0 {
            let key = if df < dg {
                df
            } else {
                dg
            };
            let take = match best {
                Some((_, b)) => key >= b,
                None => true,
            };
            if take {
                best = Some((k, key));
            }
        }
        k += 1;
    }
    let x0 = match best {
        Some((x, _)) => x,
        None => return Some(IntPoly::one(n)),
    };
    if depth == 0 {
        return None;
    }
    let mut perm: Vec<usize> = Vec::new();
    perm.push(x0);
    let mut k: usize = 0;
    while k < n
        invariant
            k <= n,
            x0 < n,
            perm@.len() == (if k > x0 { k as int } else { k + 1 }),
            forall|i: int| 0 <= i < perm@.len() ==> #[trigger] perm@[i] < n,
        decreases n - k,
    {
        if k != x0 {
            perm.push(k);
        }
        k += 1;
    }
    let mut back: Vec<usize> = vec![0; n];
    let mut i: usize = 0;
    while i < n
        invariant
            i <= n,
            perm@.len() == n,
            back@.len() == n,
            forall|j: int| 0 <= j < perm@.len() ==> #[trigger] perm@[j] < n,
            forall|j: int| 0 <= j < back@.len() ==> #[trigger] back@[j] < n,
        decreases n - i,
    {
        back.set(perm[i], i);
        i += 1;
    }
    let pf = f.permute(&perm);
    let pg = g.permute(&perm);
    if pf.terms.len() == 0 || pg.terms.len() == 0 {
        return None;
    }
    let cf = match content_x0(&pf, depth) {
        Some(c) => c,
        None => return None,
    };
    let cg = match content_x0(&pg, depth) {
        Some(c) => c,
        None => return None,
    };
    let cont = match gcd_z(&cf, &cg, depth - 1) {
        Some(c) => c,
        None => return None,
    };
    let qf = match pf.div_exact(&cf) {
        Some(q) => q,
        None => return None,
    };
    let qg = match pg.div_exact(&cg) {
        Some(q) => q,
        None => return None,
    };
    let h = match modular(&qf, &qg) {
        Some(h) => h,
        None => return None,
    };
    if !products_fit(&h, &cont) {
        return None;
    }
    let prod = h.mul(&cont);
    Some(prod.permute(&back))
}

/// The gcd of the coefficients of `x_0^i`, stopping at a constant.
fn content_x0(f: &IntPoly, depth: usize) -> (r: Option<IntPoly>)
    requires
        f.canonical(),
        f.n >= 1,
        f.terms@.len() > 0,
        depth >= 1,
    ensures
        r matches Some(h) ==> h.n == f.n && h.canonical() && h.terms@.len() > 0,
    decreases depth, 0nat,
{
    let coeffs = f.coefficients_in_x0();
    let mut acc = coeffs[0].copy();
    let mut i: usize = 1;
    while i < coeffs.len()
        invariant
            1 <= i <= coeffs@.len(),
            f.n >= 1,
            depth >= 1,
            acc.n == f.n,
            acc.canonical(),
            acc.terms@.len() > 0,
            forall|g: int|
                0 <= g < coeffs@.len() ==> {
                    &&& (#[trigger] coeffs@[g]).n == f.n
                    &&& coeffs@[g].terms@.len() > 0
                    &&& arity(coeffs@[g].terms@, f.n as nat)
                    &&& strictly_descending(coeffs@[g].terms@)
                    &&& nonzero(coeffs@[g].terms@)
                },
        decreases coeffs@.len() - i,
    {
        let h = match gcd_z(&acc, &coeffs[i], depth - 1) {
            Some(h) => h,
            None => return None,
        };
        if h.is_constant() {
            return Some(IntPoly::one(f.n));
        }
        if h.terms.len() == 0 {
            return None;
        }
        acc = h;
        i += 1;
    }
    Some(acc)
}

} // verus!
