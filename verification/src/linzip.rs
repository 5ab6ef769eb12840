//! Sparse interpolation of `gcd(f, g)` in `x_0..x_m` from a known skeleton.
//!
//! Evaluating `x_1..x_m` at the powers `b, b^2, ..` turns every monomial `M` into a geometric
//! sequence `M(b)^j`, so each `x_0` coefficient of the gcd solves a transposed Vandermonde system.
//! Univariate gcd images are only known up to a scalar `m_j`; those unknowns are recovered
//! alongside the coefficients (de Kleine, Monagan, Wittkopf 2005).

use crate::arith::{power, prime};
use crate::modp::{Rng, inv_spec, modulus};
use crate::poly::{Exps, ModPoly, small_exps};
use crate::univariate::{self as uni, Dense, residues, trimmed};
use crate::vandermonde;
use crate::zippel::{all_distinct, sparse};
use vstd::arithmetic::div_mod::lemma_small_mod;
use vstd::prelude::*;

verus! {

/// The monomials of the gcd with one power of `x_0`, their values at `b`, and the polynomial
/// vanishing at those values.
struct Block {
    e0: u32,
    monos: Vec<Exps>,
    vals: Vec<u64>,
    master: Dense,
}

/// A failed attempt: worth retrying at other points, or not.
enum Failure {
    Retry,
    Abort,
}

/// The skeleton the sparse stage starts from: monomials in `n` variables, the power of `x_0`
/// of the first one the largest.
pub open spec fn skeleton_ok(sk: Seq<Exps>, n: nat, m: nat) -> bool {
    &&& sk.len() > 0
    &&& m < n
    &&& forall|s: int| 0 <= s < sk.len() ==> (#[trigger] sk[s])@.len() == n
    &&& forall|s: int| 0 <= s < sk.len() ==> (#[trigger] sk[s])@[0] <= sk[0]@[0]
}

/// `e` is a monomial of the skeleton.
pub open spec fn in_skeleton(e: Seq<u32>, sk: Seq<Exps>) -> bool {
    exists|s: int| 0 <= s < sk.len() && e == (#[trigger] sk[s])@
}

/// Every monomial of `monos` is one of the skeleton's.
pub open spec fn from_skeleton(monos: Seq<Exps>, sk: Seq<Exps>) -> bool {
    forall|j: int| 0 <= j < monos.len() ==> in_skeleton((#[trigger] monos[j])@, sk)
}

/// The monomials of a skeleton.
pub open spec fn monos_view(sk: Seq<Exps>) -> Seq<Seq<u32>> {
    sk.map_values(|e: Exps| e@)
}

/// `idx` places each term's monomial in `ms`, in increasing positions.
pub open spec fn indexes(idx: Seq<int>, ts: Seq<(Exps, u64)>, ms: Seq<Seq<u32>>) -> bool {
    &&& idx.len() == ts.len()
    &&& forall|a: int, b: int| 0 <= a < b < idx.len() ==> #[trigger] idx[a] < #[trigger] idx[b]
    &&& forall|t: int| 0 <= t < idx.len() ==> 0 <= #[trigger] idx[t] < ms.len() && ts[t].0@ == ms[idx[t]]
}

/// The monomials of `ts` are those of `ms` at increasing positions: the terms keep the order of `ms`.
pub open spec fn follows(ts: Seq<(Exps, u64)>, ms: Seq<Seq<u32>>) -> bool {
    exists|idx: Seq<int>| #[trigger] indexes(idx, ts, ms)
}

/// The monomials of a skeleton strictly descend in lex order.
pub open spec fn skeleton_descending(sk: Seq<Exps>) -> bool {
    forall|i: int, j: int| 0 <= i < j < sk.len() ==> crate::poly::lex_gt(#[trigger] sk[i]@, #[trigger] sk[j]@)
}

/// Terms that follow a strictly descending skeleton strictly descend too.
pub proof fn lemma_follows_descending(ts: Seq<(Exps, u64)>, sk: Seq<Exps>)
    requires
        follows(ts, monos_view(sk)),
        skeleton_descending(sk),
    ensures
        forall|s: int, t: int| 0 <= s < t < ts.len() ==> crate::poly::lex_gt(#[trigger] ts[s].0@, #[trigger] ts[t].0@),
{
    let idx = choose|idx: Seq<int>| #[trigger] indexes(idx, ts, monos_view(sk));
    assert forall|s: int, t: int| 0 <= s < t < ts.len() implies crate::poly::lex_gt(#[trigger] ts[s].0@, #[trigger] ts[t].0@) by {
        assert(idx[s] < idx[t]);
        assert(ts[s].0@ == monos_view(sk)[idx[s]]);
        assert(ts[t].0@ == monos_view(sk)[idx[t]]);
        assert(crate::poly::lex_gt(sk[idx[s]]@, sk[idx[t]]@));
    }
}

/// The monomials of the blocks, block after block.
spec fn flat(bs: Seq<Block>) -> Seq<Seq<u32>>
    decreases bs.len(),
{
    if bs.len() == 0 {
        seq![]
    } else {
        flat(bs.drop_last()) + monos_view(bs.last().monos@)
    }
}

/// Block `i`'s monomials follow those of the blocks before it.
proof fn lemma_flat_take(bs: Seq<Block>, i: int)
    requires
        0 <= i < bs.len(),
    ensures
        flat(bs.take(i + 1)) == flat(bs.take(i)) + monos_view(bs[i].monos@),
{
    assert(bs.take(i + 1).drop_last() =~= bs.take(i));
}

/// Monomial `l` of block `i` sits in the flattened blocks right after the blocks before `i`.
proof fn lemma_flat_at(bs: Seq<Block>, i: int, l: int)
    requires
        0 <= i < bs.len(),
        0 <= l < bs[i].monos@.len(),
    ensures
        flat(bs.take(i)).len() + l < flat(bs).len(),
        flat(bs)[flat(bs.take(i)).len() + l] == bs[i].monos@[l]@,
    decreases bs.len(),
{
    if i == bs.len() - 1 {
        assert(bs.take(i) =~= bs.drop_last());
    } else {
        lemma_flat_at(bs.drop_last(), i, l);
        assert(bs.drop_last().take(i) =~= bs.take(i));
    }
}

/// A block whose monomials have `n` exponents, the first `e0`, and distinct values.
spec fn block_ok(bl: Block, n: nat, top: u32, p: u64) -> bool {
    &&& bl.monos@.len() >= 1
    &&& bl.vals@.len() == bl.monos@.len()
    &&& residues(bl.vals@, p)
    &&& forall|i: int, j: int| 0 <= i < j < bl.vals@.len() ==> #[trigger] bl.vals@[i] != #[trigger] bl.vals@[j]
    &&& residues(bl.master@, p)
    &&& bl.master@.len() == bl.vals@.len() + 1
    &&& bl.e0 <= top
    &&& forall|j: int| 0 <= j < bl.monos@.len() ==> (#[trigger] bl.monos@[j])@.len() == n
        && bl.monos@[j]@[0] == bl.e0
}

/// `prod_(1 <= j <= i) b_j^(e_j)` modulo `p`, multiplied in from `j = 1`.
pub open spec fn value_upto(b: Seq<u64>, e: Seq<u32>, i: nat, p: u64) -> int
    decreases i,
{
    if i == 0 {
        1
    } else {
        let f = if e[i as int] == 0 { 1 } else { power(b[i as int] as int, e[i as int] as nat) % (p as int) };
        (value_upto(b, e, (i - 1) as nat, p) * f) % (p as int)
    }
}

/// `prod_(1 <= i <= m) b_i^(e_i)`.
fn value(b: &Vec<u64>, m: usize, e: &Exps, p: u64) -> (v: u64)
    requires
        m < b@.len(),
        m < e@.len(),
        modulus(p),
    ensures
        v < p,
        v == value_upto(b@, e@, m as nat, p),
{
    let mut acc: u64 = 1;
    let mut i: usize = 0;
    while i < m
        invariant
            i <= m,
            m < b@.len(),
            m < e@.len(),
            modulus(p),
            acc < p,
            acc == value_upto(b@, e@, i as nat, p),
        decreases m - i,
    {
        i += 1;
        acc = crate::modp::mul(acc, crate::modp::pow(b[i], e[i] as u64, p), p);
    }
    acc
}

/// The skeleton cut into runs of equal power of `x_0`, with each run's values at `b`.
fn blocks(skeleton: &Vec<Exps>, b: &Vec<u64>, m: usize, p: u64) -> (r: Result<Vec<Block>, Failure>)
    requires
        skeleton_ok(skeleton@, skeleton@[0]@.len(), m as nat),
        m < b@.len(),
        modulus(p),
    ensures
        r matches Ok(bs) ==> {
            &&& bs@.len() >= 1
            &&& bs@[0].e0 == skeleton@[0]@[0]
            &&& forall|i: int| 0 <= i < bs@.len() ==> block_ok(#[trigger] bs@[i], skeleton@[0]@.len(), skeleton@[0]@[0], p)
            &&& forall|i: int| 0 <= i < bs@.len() ==> (#[trigger] bs@[i]).monos@.len() <= skeleton@.len()
            &&& forall|i: int| 0 <= i < bs@.len() ==> from_skeleton((#[trigger] bs@[i]).monos@, skeleton@)
            &&& flat(bs@) == monos_view(skeleton@)
        },
{
    let ghost n = skeleton@[0]@.len();
    let top = skeleton[0][0];
    let mut out: Vec<Block> = Vec::new();
    let mut j: usize = 0;
    while j < skeleton.len()
        invariant
            j <= skeleton@.len(),
            n == skeleton@[0]@.len(),
            top == skeleton@[0]@[0],
            skeleton_ok(skeleton@, n, m as nat),
            m < b@.len(),
            modulus(p),
            j > 0 ==> out@.len() >= 1,
            j == 0 ==> out@.len() == 0,
            flat(out@) == monos_view(skeleton@.take(j as int)),
            out@.len() > 0 ==> out@[0].e0 == top,
            forall|i: int| 0 <= i < out@.len() ==> from_skeleton((#[trigger] out@[i]).monos@, skeleton@),
            forall|i: int| 0 <= i < out@.len() ==> {
                &&& (#[trigger] out@[i]).monos@.len() >= 1
                &&& out@[i].vals@.len() == out@[i].monos@.len()
                &&& out@[i].monos@.len() <= j
                &&& residues(out@[i].vals@, p)
                &&& out@[i].e0 <= top
                &&& forall|u: int| 0 <= u < out@[i].monos@.len() ==> (#[trigger] out@[i].monos@[u])@.len() == n
                    && out@[i].monos@[u]@[0] == out@[i].e0
            },
        decreases skeleton@.len() - j,
    {
        let e = &skeleton[j];
        assert(e@.len() == n);
        let fresh = if out.len() == 0 {
            true
        } else {
            out[out.len() - 1].e0 != e[0]
        };
        let ghost before = out@;
        if fresh {
            let one: Dense = vec![1];
            out.push(Block { e0: e[0], monos: Vec::new(), vals: Vec::new(), master: one });
            proof {
                assert(out@.drop_last() =~= before);
                assert(monos_view(out@.last().monos@) =~= seq![]);
                assert(flat(out@) =~= flat(before));
            }
        }
        let ghost o0 = out@;
        let mut bl = out.pop().unwrap();
        let ec = e.clone();
        assert(ec@ == e@);
        bl.monos.push(ec);
        let v = value(b, m, e, p);
        bl.vals.push(v);
        out.push(bl);
        proof {
            assert(out@.drop_last() =~= o0.drop_last());
            assert(monos_view(out@.last().monos@) =~= monos_view(o0.last().monos@).push(e@));
            assert(skeleton@.take(j + 1) =~= skeleton@.take(j as int).push(skeleton@[j as int]));
            assert(monos_view(skeleton@.take(j + 1)) =~= monos_view(skeleton@.take(j as int)).push(e@));
            assert(flat(out@) =~= flat(o0).push(e@));
            assert forall|i: int| 0 <= i < out@.len() implies from_skeleton((#[trigger] out@[i]).monos@, skeleton@) by {
                if i < out@.len() - 1 {
                    assert(out@[i] == o0[i]);
                } else {
                    let last = out@[i];
                    assert forall|u: int| 0 <= u < last.monos@.len() implies in_skeleton((#[trigger] last.monos@[u])@, skeleton@) by {
                        if u < last.monos@.len() - 1 {
                            assert(last.monos@[u] == o0[i].monos@[u]);
                        } else {
                            assert(last.monos@[u]@ == skeleton@[j as int]@);
                        }
                    }
                }
            }
            assert forall|i: int| 0 <= i < out@.len() implies {
                &&& (#[trigger] out@[i]).monos@.len() >= 1
                &&& out@[i].vals@.len() == out@[i].monos@.len()
                &&& out@[i].monos@.len() <= j + 1
                &&& residues(out@[i].vals@, p)
                &&& out@[i].e0 <= top
                &&& forall|u: int| 0 <= u < out@[i].monos@.len() ==> (#[trigger] out@[i].monos@[u])@.len() == n
                    && out@[i].monos@[u]@[0] == out@[i].e0
            } by {
                if i < out@.len() - 1 {
                    assert(out@[i] == o0[i]);
                } else {
                    let last = out@[i];
                    assert forall|u: int| 0 <= u < last.monos@.len() implies (#[trigger] last.monos@[u])@.len() == n
                        && last.monos@[u]@[0] == last.e0 by {
                        if u < last.monos@.len() - 1 {
                            assert(last.monos@[u] == o0[i].monos@[u]);
                        }
                    }
                }
            }
        }
        j += 1;
    }
    let ghost orig = out@;
    proof {
        assert(skeleton@.take(skeleton@.len() as int) =~= skeleton@);
    }
    let mut done: Vec<Block> = Vec::new();
    while out.len() > 0
        invariant
            flat(orig) == monos_view(skeleton@),
            flat(done@) == flat(orig.take(done@.len() as int)),
            orig.len() >= 1,
            done@.len() + out@.len() == orig.len(),
            out@ == orig.subrange(done@.len() as int, orig.len() as int),
            n == skeleton@[0]@.len(),
            top == skeleton@[0]@[0],
            modulus(p),
            orig[0].e0 == top,
            forall|u: int| 0 <= u < orig.len() ==> from_skeleton((#[trigger] orig[u]).monos@, skeleton@),
            forall|u: int| 0 <= u < done@.len() ==> from_skeleton((#[trigger] done@[u]).monos@, skeleton@),
            forall|u: int| 0 <= u < orig.len() ==> {
                &&& (#[trigger] orig[u]).monos@.len() >= 1
                &&& orig[u].vals@.len() == orig[u].monos@.len()
                &&& orig[u].monos@.len() <= skeleton@.len()
                &&& residues(orig[u].vals@, p)
                &&& orig[u].e0 <= top
                &&& forall|w: int| 0 <= w < orig[u].monos@.len() ==> (#[trigger] orig[u].monos@[w])@.len() == n
                    && orig[u].monos@[w]@[0] == orig[u].e0
            },
            forall|u: int| 0 <= u < done@.len() ==> block_ok(#[trigger] done@[u], n, top, p),
            forall|u: int| 0 <= u < done@.len() ==> (#[trigger] done@[u]).monos@.len() <= skeleton@.len(),
            done@.len() > 0 ==> done@[0].e0 == top,
        decreases out@.len(),
    {
        let ghost k = done@.len() as int;
        let bl = out.remove(0);
        assert(bl == orig[k]);
        assert(out@ =~= orig.subrange(k + 1, orig.len() as int));
        if !all_distinct(&bl.vals) {
            return Err(Failure::Retry);
        }
        if bl.vals.len() > usize::MAX - 2 {
            return Err(Failure::Abort);
        }
        let master = vandermonde::master(&bl.vals, p);
        let ghost d0 = done@;
        done.push(Block { e0: bl.e0, monos: bl.monos, vals: bl.vals, master });
        proof {
            assert(done@.drop_last() =~= d0);
            lemma_flat_take(orig, k);
        }
    }
    proof {
        assert(orig.take(orig.len() as int) =~= orig);
    }
    Ok(done)
}

/// The sum, modulo `p`, of the coefficients of the first `k` terms with power `i` of `x_0`.
pub open spec fn power_sum(ts: Seq<(usize, u64, u64)>, i: int, k: nat, p: u64) -> int
    decreases k,
{
    if k == 0 {
        0
    } else {
        (power_sum(ts, i, (k - 1) as nat, p) + (if ts[k - 1].0 == i { ts[k - 1].1 as int } else { 0 })) % (p as int)
    }
}

/// The sum only reads the first `k` terms.
proof fn lemma_power_sum_prefix(a: Seq<(usize, u64, u64)>, b: Seq<(usize, u64, u64)>, i: int, k: nat, p: u64)
    requires
        k <= a.len(),
        k <= b.len(),
        forall|w: int| 0 <= w < k ==> #[trigger] a[w] == b[w],
    ensures
        power_sum(a, i, k, p) == power_sum(b, i, k, p),
    decreases k,
{
    if k > 0 {
        lemma_power_sum_prefix(a, b, i, (k - 1) as nat, p);
        assert(a[k - 1] == b[k - 1]);
    }
}

/// Univariate images `gcd(f, g)(x_0, b^j)` for `j = 1, 2, ..`, made monic.
struct Images {
    f: Vec<(usize, u64, u64)>,
    g: Vec<(usize, u64, u64)>,
    df: usize,
    dg: usize,
    p: u64,
}

/// Terms `(power of x_0, coefficient, value of the rest)`, powers at most `d`.
spec fn prepared(ts: Seq<(usize, u64, u64)>, d: usize, p: u64) -> bool {
    forall|t: int| 0 <= t < ts.len() ==> (#[trigger] ts[t]).0 <= d && ts[t].1 < p && ts[t].2 < p
}

/// The terms of `h` with their values at `b`.
fn prep(h: &ModPoly, b: &Vec<u64>, m: usize, p: u64) -> (r: Vec<(usize, u64, u64)>)
    requires
        h.shaped(p),
        m < h.n,
        m < b@.len(),
        modulus(p),
    ensures
        r@.len() == h.terms@.len(),
        forall|t: int| 0 <= t < r@.len() ==> (#[trigger] r@[t]).0 == h.terms@[t].0@[0] && r@[t].1 == h.terms@[t].1 && r@[t].2 < p,
{
    let mut r: Vec<(usize, u64, u64)> = Vec::new();
    let mut t: usize = 0;
    while t < h.terms.len()
        invariant
            t <= h.terms@.len(),
            h.shaped(p),
            m < h.n,
            m < b@.len(),
            modulus(p),
            r@.len() == t,
            forall|u: int| 0 <= u < t ==> (#[trigger] r@[u]).0 == h.terms@[u].0@[0] && r@[u].1 == h.terms@[u].1 && r@[u].2 < p,
        decreases h.terms@.len() - t,
    {
        let e = &h.terms[t].0;
        let v = value(b, m, e, p);
        r.push((e[0] as usize, h.terms[t].1, v));
        t += 1;
    }
    r
}

impl Images {
    spec fn wf(&self) -> bool {
        &&& modulus(self.p)
        &&& self.df < usize::MAX
        &&& self.dg < usize::MAX
        &&& prepared(self.f@, self.df, self.p)
        &&& prepared(self.g@, self.dg, self.p)
    }

    fn new(f: &ModPoly, g: &ModPoly, b: &Vec<u64>, m: usize, p: u64) -> (im: Self)
        requires
            f.shaped(p),
            g.shaped(p),
            small_exps(*f),
            small_exps(*g),
            m < f.n,
            m < g.n,
            m < b@.len(),
            modulus(p),
        ensures
            im.wf(),
            im.p == p,
    {
        let pf = prep(f, b, m, p);
        let pg = prep(g, b, m, p);
        let df = f.degree(0);
        let dg = g.degree(0);
        proof {
            if f.terms@.len() > 0 {
                let t = choose|t: int| 0 <= t < f.terms@.len() && (#[trigger] f.terms@[t]).0@[0] == df;
                assert(f.terms@[t].0@[0] < u32::MAX);
            }
            if g.terms@.len() > 0 {
                let t = choose|t: int| 0 <= t < g.terms@.len() && (#[trigger] g.terms@[t]).0@[0] == dg;
                assert(g.terms@[t].0@[0] < u32::MAX);
            }
        }
        Images { f: pf, g: pg, df, dg, p }
    }

    /// The next image of one side: every coefficient times its value once more.
    fn step(terms: &mut Vec<(usize, u64, u64)>, d: usize, p: u64) -> (r: Option<Dense>)
        requires
            prepared(old(terms)@, d, p),
            d < usize::MAX,
            modulus(p),
        ensures
            prepared(final(terms)@, d, p),
            r matches Some(u) ==> residues(u@, p) && trimmed(u@) && u@.len() == d + 1,
            final(terms)@.len() == old(terms)@.len(),
            forall|t: int|
                0 <= t < final(terms)@.len() ==> (#[trigger] final(terms)@[t]).0 == old(terms)@[t].0 && final(terms)@[t].2
                    == old(terms)@[t].2 && final(terms)@[t].1 == (old(terms)@[t].1 * old(terms)@[t].2) % (p as int),
            r is None <==> power_sum(final(terms)@, d as int, final(terms)@.len(), p) == 0,
            r matches Some(u) ==> forall|i: int| 0 <= i <= d ==> #[trigger] u@[i] == power_sum(final(terms)@, i, final(terms)@.len(), p),
    {
        let mut u: Dense = vec![0u64; d + 1];
        let mut t: usize = 0;
        while t < terms.len()
            invariant
                t <= terms@.len(),
                prepared(terms@, d, p),
                u@.len() == d + 1,
                residues(u@, p),
                modulus(p),
                terms@.len() == old(terms)@.len(),
                forall|w: int| t <= w < terms@.len() ==> #[trigger] terms@[w] == old(terms)@[w],
                forall|w: int|
                    0 <= w < t ==> (#[trigger] terms@[w]).0 == old(terms)@[w].0 && terms@[w].2 == old(terms)@[w].2
                        && terms@[w].1 == (old(terms)@[w].1 * old(terms)@[w].2) % (p as int),
                forall|i: int| 0 <= i <= d ==> #[trigger] u@[i] == power_sum(terms@, i, t as nat, p),
            decreases terms@.len() - t,
        {
            let (e, c, v) = terms[t];
            let c2 = crate::modp::mul(c, v, p);
            let ghost t0 = terms@;
            terms.set(t, (e, c2, v));
            let a = crate::modp::add(u[e], c2, p);
            proof {
                assert forall|i: int| 0 <= i <= d implies power_sum(terms@, i, t as nat, p) == power_sum(t0, i, t as nat, p) by {
                    lemma_power_sum_prefix(terms@, t0, i, t as nat, p);
                }
            }
            let ghost ub = u@;
            u.set(e, a);
            proof {
                assert(terms@[t as int] == (e, c2, v));
                assert forall|i: int| 0 <= i <= d implies #[trigger] u@[i] == power_sum(terms@, i, (t + 1) as nat, p) by {
                    let prev = power_sum(terms@, i, t as nat, p);
                    assert(ub[i] == prev);
                    assert(0 <= prev < p);
                    vstd::arithmetic::div_mod::lemma_small_mod(prev as nat, p as nat);
                }
            }
            t += 1;
        }
        let ghost u0 = u@;
        uni::trim(&mut u);
        proof {
            uni::lemma_trim_eval(u0, 0);
            assert forall|i: int| 0 <= i < u@.len() implies #[trigger] u@[i] < p by {
                assert(u@[i] == u0[i]);
            }
            if u0[d as int] != 0 {
                assert(uni::trim_spec(u0) == u0);
            } else {
                assert(u@.len() <= d);
            }
        }
        if uni::deg(&u) == d && u.len() > 0 {
            proof {
                assert(u@.len() == d + 1);
                assert forall|i: int| 0 <= i <= d implies #[trigger] u@[i] == power_sum(terms@, i, terms@.len(), p) by {
                    assert(u@[i] == u0[i]);
                }
            }
            Some(u)
        } else {
            None
        }
    }

    /// The next univariate gcd image, monic.
    fn next(&mut self) -> (r: Option<Dense>)
        requires
            old(self).wf(),
        ensures
            final(self).wf(),
            final(self).p == old(self).p,
            r matches Some(h) ==> residues(h@, final(self).p) && trimmed(h@),
            r is None <==> (power_sum(final(self).f@, final(self).df as int, final(self).f@.len(), final(self).p) == 0 || power_sum(
                final(self).g@,
                final(self).dg as int,
                final(self).g@.len(),
                final(self).p,
            ) == 0),
    {
        let p = self.p;
        let uf = match Self::step(&mut self.f, self.df, p) {
            Some(u) => u,
            None => {
                return None;
            },
        };
        let ug = match Self::step(&mut self.g, self.dg, p) {
            Some(u) => u,
            None => {
                return None;
            },
        };
        let mut h = uni::gcd(&uf, &ug, p);
        let ghost untrimmed = h@;
        uni::trim(&mut h);
        proof {
            uni::lemma_trim_eval(untrimmed, 0);
            assert forall|j: int| 0 <= j < h@.len() implies #[trigger] h@[j] < p by {
                assert(h@[j] == untrimmed[j]);
            }
        }
        Some(h)
    }
}

/// A block with a single monomial `c M` fixes every scale: `m_j = M(b)^j / h_j`.
fn anchored_scales(bl: &Block, a: usize, coeffs: &Vec<Vec<u64>>, p: u64) -> (r: Option<Vec<u64>>)
    requires
        bl.vals@.len() >= 1,
        residues(bl.vals@, p),
        forall|j: int| 0 <= j < coeffs@.len() ==> a < (#[trigger] coeffs@[j])@.len() && residues(coeffs@[j]@, p),
        modulus(p),
    ensures
        r is None <==> exists|j: int| 0 <= j < coeffs@.len() && (#[trigger] coeffs@[j])@[a as int] == 0,
        r matches Some(sc) ==> {
            &&& sc@.len() == coeffs@.len()
            &&& residues(sc@, p)
            &&& forall|j: int| 0 <= j < sc@.len() ==> #[trigger] sc@[j] == (power(bl.vals@[0] as int, (j + 1) as nat) % (p as int)
                * inv_spec(coeffs@[j]@[a as int] as int, p as int)) % (p as int)
        },
{
    let v = bl.vals[0];
    let mut vj: u64 = 1;
    let mut out: Vec<u64> = Vec::new();
    let mut j: usize = 0;
    proof {
        lemma_small_mod(1, p as nat);
    }
    while j < coeffs.len()
        invariant
            j <= coeffs@.len(),
            v == bl.vals@[0],
            v < p,
            modulus(p),
            forall|u: int| 0 <= u < coeffs@.len() ==> a < (#[trigger] coeffs@[u])@.len() && residues(coeffs@[u]@, p),
            vj == power(v as int, j as nat) % (p as int),
            out@.len() == j,
            residues(out@, p),
            forall|u: int| 0 <= u < j ==> (#[trigger] coeffs@[u])@[a as int] != 0,
            forall|u: int| 0 <= u < j ==> #[trigger] out@[u] == (power(v as int, (u + 1) as nat) % (p as int)
                * inv_spec(coeffs@[u]@[a as int] as int, p as int)) % (p as int),
        decreases coeffs@.len() - j,
    {
        let ghost vj0 = vj;
        vj = crate::modp::mul(vj, v, p);
        proof {
            let pw = power(v as int, j as nat);
            crate::arith::lemma_power_nonneg(v as int, j as nat);
            vstd::arithmetic::div_mod::lemma_mul_mod_noop_left(pw, v as int, p as int);
            assert(power(v as int, (j + 1) as nat) == v * pw);
            assert(pw * v == v * pw) by (nonlinear_arith);
        }
        let h = coeffs[j][a];
        if h == 0 {
            return None;
        }
        out.push(crate::modp::mul(vj, crate::modp::inv(h, p), p));
        j += 1;
    }
    Some(out)
}

/// The scales, or why there are none: the system contradicts itself, or leaves them free.
enum Scales {
    Solved(Vec<u64>),
    Inconsistent,
    Deficient,
}

/// Every row has `s` residues.
spec fn matrix(rows: Seq<Vec<u64>>, s: nat, p: u64) -> bool {
    forall|r: int| 0 <= r < rows.len() ==> (#[trigger] rows[r])@.len() == s && residues(rows[r]@, p)
}

/// Row `r` with every entry times `l`.
fn scale_row(row: &Vec<u64>, l: u64, p: u64) -> (out: Vec<u64>)
    requires
        modulus(p),
    ensures
        out@.len() == row@.len(),
        residues(out@, p),
        forall|j: int| 0 <= j < out@.len() ==> #[trigger] out@[j] == (row@[j] * l) % (p as int),
{
    let mut out: Vec<u64> = Vec::new();
    let mut x: usize = 0;
    while x < row.len()
        invariant
            x <= row@.len(),
            out@.len() == x,
            residues(out@, p),
            modulus(p),
            forall|j: int| 0 <= j < x ==> #[trigger] out@[j] == (row@[j] * l) % (p as int),
        decreases row@.len() - x,
    {
        out.push(crate::modp::mul(row[x], l, p));
        x += 1;
    }
    out
}

/// `row - c * pr`, entry by entry.
fn subtract_row(row: &Vec<u64>, c: u64, pr: &Vec<u64>, p: u64) -> (out: Vec<u64>)
    requires
        row@.len() == pr@.len(),
        residues(row@, p),
        modulus(p),
    ensures
        out@.len() == row@.len(),
        residues(out@, p),
        forall|j: int| 0 <= j < out@.len() ==> #[trigger] out@[j] == (row@[j] - (c * pr@[j]) % (p as int)) % (p as int),
{
    let mut out: Vec<u64> = Vec::new();
    let mut x: usize = 0;
    while x < row.len()
        invariant
            x <= row@.len(),
            row@.len() == pr@.len(),
            residues(row@, p),
            out@.len() == x,
            residues(out@, p),
            modulus(p),
            forall|j: int| 0 <= j < x ==> #[trigger] out@[j] == (row@[j] - (c * pr@[j]) % (p as int)) % (p as int),
        decreases row@.len() - x,
    {
        out.push(crate::modp::sub(row[x], crate::modp::mul(c, pr[x], p), p));
        x += 1;
    }
    out
}

/// Row `shift` of block `i` in the system for the scales: the master polynomial's coefficients
/// times the block's values at the points `shift, shift + 1, ..`, zero elsewhere.
spec fn block_row(blocks: Seq<Block>, coeffs: Seq<Vec<u64>>, i: int, shift: int, p: u64) -> Seq<u64> {
    let master = blocks[i].master@;
    Seq::new(
        coeffs.len(),
        |j: int|
            if shift <= j < shift + master.len() {
                ((master[j - shift] * coeffs[j]@[i]) % (p as int)) as u64
            } else {
                0u64
            },
    )
}

/// `x` solves the homogeneous equation `row` modulo `p`.
spec fn annuls(row: Seq<u64>, x: Seq<u64>, p: u64) -> bool {
    crate::lift::dot(row, x, row.len()) % (p as int) == 0
}

/// `x` solves every row.
spec fn annuls_all(rows: Seq<Vec<u64>>, x: Seq<u64>, p: u64) -> bool {
    forall|r: int| 0 <= r < rows.len() ==> annuls(#[trigger] rows[r]@, x, p)
}

/// `x` solves every row of every block.
spec fn solves_blocks(blocks: Seq<Block>, coeffs: Seq<Vec<u64>>, x: Seq<u64>, p: u64) -> bool {
    forall|i: int, sh: int|
        0 <= i < blocks.len() && 0 <= sh < coeffs.len() - blocks[i].monos@.len() ==> annuls(
            #[trigger] block_row(blocks, coeffs, i, sh, p),
            x,
            p,
        )
}

/// `y` solves the blocks, leaves the first scale alone and moves another: added to a solution
/// with `m_1 = 1` it gives a different one.
spec fn free_direction(blocks: Seq<Block>, coeffs: Seq<Vec<u64>>, y: Seq<u64>, p: u64) -> bool {
    &&& y.len() == coeffs.len()
    &&& y[0] == 0
    &&& exists|c: int| 1 <= c < y.len() && #[trigger] y[c] == 1
    &&& solves_blocks(blocks, coeffs, y, p)
}

/// The dot product of vectors whose products vanish but at `a` and `b`.
pub(crate) proof fn lemma_dot_pair(row: Seq<u64>, y: Seq<u64>, k: nat, a: int, b: int)
    requires
        a != b,
        forall|j: int| 0 <= j < k && j != a && j != b ==> #[trigger] (row[j] * y[j]) == 0,
    ensures
        crate::lift::dot(row, y, k) == (if 0 <= a < k { row[a] * y[a] } else { 0 }) + (if 0 <= b < k {
            row[b] * y[b]
        } else {
            0
        }),
    decreases k,
{
    if k > 0 {
        lemma_dot_pair(row, y, (k - 1) as nat, a, b);
        let j = k - 1;
        if j != a && j != b {
            assert(row[j as int] * y[j as int] == 0);
        }
    }
}

/// `row` is a row of some block.
spec fn is_block_row(blocks: Seq<Block>, coeffs: Seq<Vec<u64>>, row: Seq<u64>, p: u64) -> bool {
    exists|i: int, sh: int|
        0 <= i < blocks.len() && 0 <= sh < coeffs.len() - blocks[i].monos@.len() && row == #[trigger] block_row(
            blocks,
            coeffs,
            i,
            sh,
            p,
        )
}

/// `row` is one of `rows`.
spec fn in_rows(rows: Seq<Vec<u64>>, row: Seq<u64>) -> bool {
    exists|r: int| 0 <= r < rows.len() && #[trigger] rows[r]@ == row
}

/// Columns `1..col` are reduced: row `c - 1` holds the unit in column `c`, every other row a zero.
spec fn reduced(rows: Seq<Vec<u64>>, col: int) -> bool {
    &&& forall|k: int, c: int| 0 <= k < rows.len() && 1 <= c < col && k != c - 1 ==> #[trigger] rows[k]@[c] == 0
    &&& forall|c: int| 1 <= c < col ==> #[trigger] rows[c - 1]@[c] == 1
}

pub(crate) proof fn lemma_cancel_unit(d: int, l: int, a: int, p: int)
    requires
        p > 0,
        (l * d) % p == 0,
        (a * l) % p == 1,
    ensures
        d % p == 0,
{
    vstd::arithmetic::div_mod::lemma_mul_mod_noop_left(a * l, d, p);
    vstd::arithmetic::div_mod::lemma_mul_mod_noop_right(a, l * d, p);
    assert((a * l) * d == a * (l * d)) by (nonlinear_arith);
    assert(1 * d == d);
    assert(a * 0 == 0);
    assert(0int % p == 0) by {
        lemma_small_mod(0, p as nat);
    }
}

pub(crate) proof fn lemma_cancel_multiple(d: int, c: int, q: int, p: int)
    requires
        p > 0,
        (d - c * q) % p == 0,
        q % p == 0,
    ensures
        d % p == 0,
{
    vstd::arithmetic::div_mod::lemma_mul_mod_noop_right(c, q, p);
    vstd::arithmetic::div_mod::lemma_add_mod_noop(d - c * q, c * q, p);
    assert(c * 0 == 0);
    assert(0int % p == 0) by {
        lemma_small_mod(0, p as nat);
    }
    assert(d - c * q + c * q == d);
}

proof fn lemma_times_multiple(d: int, l: int, p: int)
    requires
        p > 0,
        d % p == 0,
    ensures
        (l * d) % p == 0,
{
    vstd::arithmetic::div_mod::lemma_mul_mod_noop_right(l, d, p);
    assert(l * 0 == 0);
    lemma_small_mod(0, p as nat);
}

proof fn lemma_minus_multiple(d: int, c: int, q: int, p: int)
    requires
        p > 0,
        d % p == 0,
        q % p == 0,
    ensures
        (d - c * q) % p == 0,
{
    lemma_times_multiple(q, c, p);
    vstd::arithmetic::div_mod::lemma_sub_mod_noop(d, c * q, p);
    lemma_small_mod(0, p as nat);
}

/// A row that is zero in columns `1..k` but for column `c` has the dot product of its entries
/// `0` and `c` alone.
proof fn lemma_dot_sparse(row: Seq<u64>, x: Seq<u64>, k: nat, c: int)
    requires
        k >= 1,
        c >= 1,
        forall|j: int| 1 <= j < k && j != c ==> #[trigger] row[j] == 0,
    ensures
        crate::lift::dot(row, x, k) == row[0] * x[0] + (if c < k { row[c] * x[c] } else { 0 }),
    decreases k,
{
    if k > 1 {
        lemma_dot_sparse(row, x, (k - 1) as nat, c);
        let j = k - 1;
        if j != c {
            assert(row[j as int] == 0);
            assert(row[j as int] * x[j as int] == 0);
        }
    } else {
        assert(crate::lift::dot(row, x, 0) == 0);
    }
}

/// Each block's master polynomial annihilates its Vandermonde columns, which leaves a linear
/// system in the scales alone. `m_1 = 1` fixes the overall normalization.
fn solve_scales(blocks: &Vec<Block>, coeffs: &Vec<Vec<u64>>, p: u64) -> (r: Scales)
    requires
        forall|i: int| 0 <= i < blocks@.len() ==> (#[trigger] blocks@[i]).monos@.len() < coeffs@.len()
            && blocks@[i].master@.len() == blocks@[i].monos@.len() + 1 && residues(blocks@[i].master@, p),
        forall|j: int| 0 <= j < coeffs@.len() ==> (#[trigger] coeffs@[j])@.len() == blocks@.len() && residues(coeffs@[j]@, p),
        modulus(p),
    ensures
        r matches Scales::Solved(m) ==> m@.len() == coeffs@.len() && residues(m@, p) && (m@.len() > 0 ==> m@[0] == 1),
        r matches Scales::Solved(m) ==> prime(p as int) ==> solves_blocks(blocks@, coeffs@, m@, p),
        r is Inconsistent ==> prime(p as int) ==> forall|x: Seq<u64>|
            x.len() == coeffs@.len() && x[0] == 1 ==> !#[trigger] solves_blocks(blocks@, coeffs@, x, p),
        r is Deficient ==> prime(p as int) ==> exists|y: Seq<u64>| #[trigger] free_direction(blocks@, coeffs@, y, p),
{
    let s = coeffs.len();
    let mut rows: Vec<Vec<u64>> = Vec::new();
    let mut i: usize = 0;
    while i < blocks.len()
        invariant
            i <= blocks@.len(),
            s == coeffs@.len(),
            matrix(rows@, s as nat, p),
            forall|u: int| 0 <= u < blocks@.len() ==> (#[trigger] blocks@[u]).monos@.len() < coeffs@.len()
                && blocks@[u].master@.len() == blocks@[u].monos@.len() + 1 && residues(blocks@[u].master@, p),
            forall|j: int| 0 <= j < coeffs@.len() ==> (#[trigger] coeffs@[j])@.len() == blocks@.len() && residues(coeffs@[j]@, p),
            modulus(p),
            forall|i2: int, sh: int| 0 <= i2 < i && 0 <= sh < s - blocks@[i2].monos@.len() ==> in_rows(
                rows@,
                #[trigger] block_row(blocks@, coeffs@, i2, sh, p),
            ),
            forall|r: int| 0 <= r < rows@.len() ==> is_block_row(blocks@, coeffs@, #[trigger] rows@[r]@, p),
        decreases blocks@.len() - i,
    {
        let bl = &blocks[i];
        let n = bl.monos.len();
        let mut shift: usize = 0;
        while shift < s - n
            invariant
                shift <= s - n,
                n < s,
                i < blocks@.len(),
                *bl == blocks@[i as int],
                n == bl.monos@.len(),
                s == coeffs@.len(),
                bl.master@.len() == n + 1,
                residues(bl.master@, p),
                matrix(rows@, s as nat, p),
                forall|j: int| 0 <= j < coeffs@.len() ==> (#[trigger] coeffs@[j])@.len() == blocks@.len() && residues(coeffs@[j]@, p),
                modulus(p),
                forall|i2: int, sh: int| 0 <= i2 < i && 0 <= sh < s - blocks@[i2].monos@.len() ==> in_rows(
                    rows@,
                    #[trigger] block_row(blocks@, coeffs@, i2, sh, p),
                ),
                forall|sh: int| 0 <= sh < shift ==> in_rows(rows@, #[trigger] block_row(blocks@, coeffs@, i as int, sh, p)),
                forall|r: int| 0 <= r < rows@.len() ==> is_block_row(blocks@, coeffs@, #[trigger] rows@[r]@, p),
            decreases s - n - shift,
        {
            let mut row: Vec<u64> = vec![0u64; s];
            let mut t: usize = 0;
            while t < bl.master.len()
                invariant
                    t <= bl.master@.len(),
                    bl.master@.len() == n + 1,
                    shift < s - n,
                    row@.len() == s,
                    residues(row@, p),
                    i < blocks@.len(),
                    s == coeffs@.len(),
                    forall|j: int| 0 <= j < coeffs@.len() ==> (#[trigger] coeffs@[j])@.len() == blocks@.len() && residues(coeffs@[j]@, p),
                    modulus(p),
                    forall|j: int| 0 <= j < s ==> #[trigger] row@[j] == (if shift <= j < shift + t {
                        ((bl.master@[j - shift] * coeffs@[j]@[i as int]) % (p as int)) as u64
                    } else {
                        0u64
                    }),
                decreases bl.master@.len() - t,
            {
                let v = crate::modp::mul(bl.master[t], coeffs[shift + t][i], p);
                row.set(shift + t, v);
                t += 1;
            }
            proof {
                assert(row@ =~= block_row(blocks@, coeffs@, i as int, shift as int, p));
            }
            let ghost before = rows@;
            rows.push(row);
            proof {
                assert(rows@[before.len() as int]@ == block_row(blocks@, coeffs@, i as int, shift as int, p));
                assert forall|r: int| 0 <= r < rows@.len() implies is_block_row(blocks@, coeffs@, #[trigger] rows@[r]@, p) by {
                    if r < before.len() {
                        assert(rows@[r] == before[r]);
                    } else {
                        assert(rows@[r]@ == block_row(blocks@, coeffs@, i as int, shift as int, p));
                    }
                }
                assert forall|i2: int, sh: int| 0 <= i2 < i && 0 <= sh < s - blocks@[i2].monos@.len() implies in_rows(
                    rows@,
                    #[trigger] block_row(blocks@, coeffs@, i2, sh, p),
                ) by {
                    lemma_in_rows_push(before, rows@, block_row(blocks@, coeffs@, i2, sh, p));
                }
                assert forall|sh: int| 0 <= sh < shift + 1 implies in_rows(
                    rows@,
                    #[trigger] block_row(blocks@, coeffs@, i as int, sh, p),
                ) by {
                    if sh < shift {
                        lemma_in_rows_push(before, rows@, block_row(blocks@, coeffs@, i as int, sh, p));
                    }
                }
            }
            shift += 1;
        }
        i += 1;
    }
    let ghost orig = rows@;
    proof {
        assert forall|x: Seq<u64>| #[trigger] solves_blocks(blocks@, coeffs@, x, p) implies annuls_all(orig, x, p) by {
            assert forall|r: int| 0 <= r < orig.len() implies annuls(#[trigger] orig[r]@, x, p) by {
                assert(is_block_row(blocks@, coeffs@, orig[r]@, p));
                let (i2, sh) = choose|i2: int, sh: int|
                    0 <= i2 < blocks@.len() && 0 <= sh < coeffs@.len() - blocks@[i2].monos@.len() && orig[r]@
                        == #[trigger] block_row(blocks@, coeffs@, i2, sh, p);
                assert(annuls(block_row(blocks@, coeffs@, i2, sh, p), x, p));
            }
        }
    }
    let mut pivot_row: usize = 0;
    let mut col: usize = 1;
    while col < s
        invariant
            1 <= col,
            s == coeffs@.len(),
            s >= 1 ==> col <= s,
            pivot_row == col - 1,
            pivot_row <= rows@.len(),
            matrix(rows@, s as nat, p),
            modulus(p),
            prime(p as int) ==> forall|x: Seq<u64>| #[trigger] annuls_all(rows@, x, p) ==> annuls_all(orig, x, p),
            prime(p as int) ==> reduced(rows@, col as int),
            forall|x: Seq<u64>| annuls_all(orig, x, p) ==> #[trigger] annuls_all(rows@, x, p),
            forall|i2: int, sh: int| 0 <= i2 < blocks@.len() && 0 <= sh < s - blocks@[i2].monos@.len() ==> in_rows(
                orig,
                #[trigger] block_row(blocks@, coeffs@, i2, sh, p),
            ),
        decreases s - col,
    {
        let mut r = pivot_row;
        while r < rows.len() && rows[r][col] == 0
            invariant
                pivot_row <= r <= rows@.len(),
                col < s,
                matrix(rows@, s as nat, p),
                forall|r2: int| pivot_row <= r2 < r ==> #[trigger] rows@[r2]@[col as int] == 0,
            decreases rows@.len() - r,
        {
            r += 1;
        }
        if r == rows.len() {
            proof {
                if prime(p as int) {
                    lemma_free_direction(blocks@, coeffs@, orig, rows@, col as int, p);
                }
            }
            return Scales::Deficient;
        }
        let ghost old0 = rows@;
        let a = rows[pivot_row].clone();
        let b = rows[r].clone();
        assert(a@ == rows@[pivot_row as int]@ && b@ == rows@[r as int]@);
        rows.set(pivot_row, b);
        rows.set(r, a);
        proof {
            assert forall|x: Seq<u64>| annuls_all(orig, x, p) implies #[trigger] annuls_all(rows@, x, p) by {
                assert(annuls_all(old0, x, p));
                assert forall|k: int| 0 <= k < rows@.len() implies annuls(#[trigger] rows@[k]@, x, p) by {
                    if k == pivot_row {
                        assert(rows@[k]@ == old0[r as int]@);
                    } else if k == r {
                        assert(rows@[k]@ == old0[pivot_row as int]@);
                    } else {
                        assert(rows@[k]@ == old0[k]@);
                    }
                }
            }
            if prime(p as int) {
                assert forall|x: Seq<u64>| #[trigger] annuls_all(rows@, x, p) implies annuls_all(old0, x, p) by {
                    assert forall|k: int| 0 <= k < old0.len() implies annuls(#[trigger] old0[k]@, x, p) by {
                        if k == pivot_row {
                            assert(old0[k]@ == rows@[r as int]@);
                        } else if k == r {
                            assert(old0[k]@ == rows@[pivot_row as int]@);
                        } else {
                            assert(old0[k]@ == rows@[k]@);
                        }
                    }
                }
            }
        }
        let ghost old1 = rows@;
        let ghost a0 = rows@[pivot_row as int]@[col as int];
        let l = crate::modp::inv(rows[pivot_row][col], p);
        let scaled = scale_row(&rows[pivot_row], l, p);
        rows.set(pivot_row, scaled);
        proof {
            assert forall|x: Seq<u64>| annuls_all(orig, x, p) implies #[trigger] annuls_all(rows@, x, p) by {
                assert(annuls_all(old1, x, p));
                assert forall|k: int| 0 <= k < rows@.len() implies annuls(#[trigger] rows@[k]@, x, p) by {
                    if k == pivot_row {
                        assert(annuls(old1[k]@, x, p));
                        crate::lift::lemma_dot_scale(old1[k]@, rows@[k]@, x, l as int, p as int, s as nat);
                        lemma_times_multiple(crate::lift::dot(old1[k]@, x, s as nat), l as int, p as int);
                    } else {
                        assert(rows@[k]@ == old1[k]@);
                    }
                }
            }
            if prime(p as int) {
                lemma_small_mod(a0 as nat, p as nat);
                assert((a0 * l) % (p as int) == 1);
                assert forall|x: Seq<u64>| #[trigger] annuls_all(rows@, x, p) implies annuls_all(old1, x, p) by {
                    assert forall|k: int| 0 <= k < old1.len() implies annuls(#[trigger] old1[k]@, x, p) by {
                        if k == pivot_row {
                            assert(annuls(rows@[k]@, x, p));
                            crate::lift::lemma_dot_scale(old1[k]@, rows@[k]@, x, l as int, p as int, s as nat);
                            lemma_cancel_unit(crate::lift::dot(old1[k]@, x, s as nat), l as int, a0 as int, p as int);
                        } else {
                            assert(old1[k]@ == rows@[k]@);
                        }
                    }
                }
            }
        }
        let pr = rows[pivot_row].clone();
        assert(pr@ == rows@[pivot_row as int]@);
        proof {
            if prime(p as int) {
                assert forall|c: int| 1 <= c < col implies #[trigger] pr@[c] == 0 by {
                    assert(old1[pivot_row as int]@[c] == 0);
                    assert(pr@[c] == (old1[pivot_row as int]@[c] * l) % (p as int));
                    assert(0 * l == 0);
                    lemma_small_mod(0, p as nat);
                }
                assert(pr@[col as int] == 1);
                assert forall|k: int, c: int| 0 <= k < rows@.len() && 1 <= c < col && k != c - 1 implies #[trigger] rows@[k]@[c] == 0 by {
                    if k != pivot_row {
                        assert(rows@[k] == old1[k]);
                    }
                }
            }
        }
        let ghost old2 = rows@;
        let mut k: usize = 0;
        while k < rows.len()
            invariant
                k <= rows@.len(),
                rows@.len() == old2.len(),
                pivot_row == col - 1,
                pivot_row < rows@.len(),
                1 <= col < s,
                pr@.len() == s,
                residues(pr@, p),
                matrix(rows@, s as nat, p),
                modulus(p),
                rows@[pivot_row as int]@ == pr@,
                prime(p as int) ==> pr@[col as int] == 1,
                prime(p as int) ==> forall|c: int| 1 <= c < col ==> #[trigger] pr@[c] == 0,
                prime(p as int) ==> forall|x: Seq<u64>| #[trigger] annuls_all(rows@, x, p) ==> annuls_all(old2, x, p),
                prime(p as int) ==> reduced(rows@, col as int),
                prime(p as int) ==> forall|k2: int| 0 <= k2 < k && k2 != pivot_row ==> #[trigger] rows@[k2]@[col as int] == 0,
                forall|x: Seq<u64>| annuls_all(orig, x, p) ==> #[trigger] annuls_all(rows@, x, p),
            decreases rows@.len() - k,
        {
            if k != pivot_row && rows[k][col] != 0 {
                let c = rows[k][col];
                let ghost old3 = rows@;
                let reduced_row = subtract_row(&rows[k], c, &pr, p);
                rows.set(k, reduced_row);
                proof {
                    assert forall|x: Seq<u64>| annuls_all(orig, x, p) implies #[trigger] annuls_all(rows@, x, p) by {
                        assert(annuls_all(old3, x, p));
                        assert forall|k3: int| 0 <= k3 < rows@.len() implies annuls(#[trigger] rows@[k3]@, x, p) by {
                            if k3 == k {
                                assert(annuls(old3[k3]@, x, p));
                                assert(annuls(old3[pivot_row as int]@, x, p));
                                crate::lift::lemma_dot_elim(old3[k3]@, pr@, rows@[k3]@, x, c as int, p as int, s as nat);
                                lemma_minus_multiple(
                                    crate::lift::dot(old3[k3]@, x, s as nat),
                                    c as int,
                                    crate::lift::dot(pr@, x, s as nat),
                                    p as int,
                                );
                            } else {
                                assert(rows@[k3]@ == old3[k3]@);
                            }
                        }
                    }
                    if prime(p as int) {
                        assert forall|x: Seq<u64>| #[trigger] annuls_all(rows@, x, p) implies annuls_all(old2, x, p) by {
                            assert forall|k3: int| 0 <= k3 < old3.len() implies annuls(#[trigger] old3[k3]@, x, p) by {
                                if k3 == k {
                                    assert(annuls(rows@[k3]@, x, p));
                                    assert(annuls(rows@[pivot_row as int]@, x, p));
                                    crate::lift::lemma_dot_elim(old3[k3]@, pr@, rows@[k3]@, x, c as int, p as int, s as nat);
                                    lemma_cancel_multiple(
                                        crate::lift::dot(old3[k3]@, x, s as nat),
                                        c as int,
                                        crate::lift::dot(pr@, x, s as nat),
                                        p as int,
                                    );
                                } else {
                                    assert(old3[k3]@ == rows@[k3]@);
                                }
                            }
                            assert(annuls_all(old3, x, p));
                        }
                        assert forall|kk: int, cc: int| 0 <= kk < rows@.len() && 1 <= cc < col && kk != cc - 1 implies #[trigger] rows@[kk]@[cc] == 0 by {
                            if kk == k {
                                assert(old3[kk]@[cc] == 0);
                                assert(c * 0 == 0);
                                lemma_small_mod(0, p as nat);
                            } else {
                                assert(rows@[kk] == old3[kk]);
                            }
                        }
                        assert forall|cc: int| 1 <= cc < col implies #[trigger] rows@[cc - 1]@[cc] == 1 by {
                            if cc - 1 == k {
                                assert(old3[k as int]@[cc] == 1);
                                assert(c * 0 == 0);
                                lemma_small_mod(0, p as nat);
                                lemma_small_mod(1, p as nat);
                            } else {
                                assert(rows@[cc - 1] == old3[cc - 1]);
                            }
                        }
                        assert(c * 1 == c);
                        lemma_small_mod(c as nat, p as nat);
                        lemma_small_mod(0, p as nat);
                        assert(rows@[k as int]@[col as int] == 0);
                        assert forall|k2: int| 0 <= k2 < k + 1 && k2 != pivot_row implies #[trigger] rows@[k2]@[col as int] == 0 by {
                            if k2 != k {
                                assert(rows@[k2] == old3[k2]);
                            }
                        }
                    }
                }
            }
            k += 1;
        }
        proof {
            if prime(p as int) {
                assert forall|kk: int, cc: int| 0 <= kk < rows@.len() && 1 <= cc < col + 1 && kk != cc - 1 implies #[trigger] rows@[kk]@[cc] == 0 by {
                    if cc == col {
                        assert(kk != pivot_row);
                    }
                }
                assert forall|cc: int| 1 <= cc < col + 1 implies #[trigger] rows@[cc - 1]@[cc] == 1 by {
                    if cc == col {
                        assert(rows@[pivot_row as int]@ == pr@);
                    }
                }
            }
        }
        pivot_row += 1;
        col += 1;
    }
    let mut r = pivot_row;
    while r < rows.len()
        invariant
            pivot_row <= r <= rows@.len(),
            matrix(rows@, s as nat, p),
            forall|r2: int| pivot_row <= r2 < r ==> s > 0 ==> #[trigger] rows@[r2]@[0] == 0,
            s == coeffs@.len(),
            s >= 1 ==> pivot_row == s - 1,
            modulus(p),
            prime(p as int) ==> reduced(rows@, s as int),
            forall|x: Seq<u64>| #[trigger] solves_blocks(blocks@, coeffs@, x, p) ==> annuls_all(orig, x, p),
            forall|x: Seq<u64>| annuls_all(orig, x, p) ==> #[trigger] annuls_all(rows@, x, p),
        decreases rows@.len() - r,
    {
        if s > 0 && rows[r][0] != 0 {
            proof {
                if prime(p as int) {
                    assert forall|x: Seq<u64>| x.len() == coeffs@.len() && x[0] == 1 implies !#[trigger] solves_blocks(
                        blocks@,
                        coeffs@,
                        x,
                        p,
                    ) by {
                        if solves_blocks(blocks@, coeffs@, x, p) {
                            assert(annuls_all(orig, x, p));
                            assert(annuls_all(rows@, x, p));
                            let row = rows@[r as int]@;
                            assert(annuls(row, x, p));
                            lemma_dot_sparse(row, x, s as nat, s as int);
                            assert(row[0] * x[0] == row[0]);
                            lemma_small_mod(row[0] as nat, p as nat);
                        }
                    }
                }
            }
            return Scales::Inconsistent;
        }
        r += 1;
    }
    let mut m: Vec<u64> = vec![1u64; s];
    proof {
        lemma_small_mod(1, p as nat);
    }
    let mut col: usize = 1;
    while col < s
        invariant
            1 <= col,
            m@.len() == s,
            residues(m@, p),
            s > 0 ==> m@[0] == 1,
            s <= 1 || pivot_row == s - 1,
            pivot_row <= rows@.len(),
            matrix(rows@, s as nat, p),
            modulus(p),
            forall|c: int| 1 <= c < col ==> #[trigger] m@[c] == (0 - rows@[c - 1]@[0]) % (p as int),
        decreases s - col,
    {
        let v = crate::modp::sub(0, rows[col - 1][0], p);
        m.set(col, v);
        col += 1;
    }
    proof {
        if prime(p as int) {
            assert forall|k: int| 0 <= k < rows@.len() implies annuls(#[trigger] rows@[k]@, m@, p) by {
                let row = rows@[k]@;
                if s == 0 {
                    assert(crate::lift::dot(row, m@, 0) == 0);
                    lemma_small_mod(0, p as nat);
                } else if k < s - 1 {
                    lemma_dot_sparse(row, m@, s as nat, k + 1);
                    assert(row[k + 1] == 1);
                    let a = row[0] as int;
                    vstd::arithmetic::div_mod::lemma_add_mod_noop_right(a, 0 - a, p as int);
                    lemma_small_mod(0, p as nat);
                } else {
                    lemma_dot_sparse(row, m@, s as nat, s as int);
                    assert(row[0] == 0);
                    lemma_small_mod(0, p as nat);
                }
            }
            assert(annuls_all(rows@, m@, p));
            assert(annuls_all(orig, m@, p));
            assert forall|i: int, sh: int|
                0 <= i < blocks@.len() && 0 <= sh < coeffs@.len() - blocks@[i].monos@.len() implies annuls(
                #[trigger] block_row(blocks@, coeffs@, i, sh, p),
                m@,
                p,
            ) by {
                let w = choose|r: int| 0 <= r < orig.len() && #[trigger] orig[r]@ == block_row(blocks@, coeffs@, i, sh, p);
                assert(annuls(orig[w]@, m@, p));
            }
        }
    }
    Scales::Solved(m)
}

/// With columns `1..col` reduced and column `col` zero below them, the vector that is 1 at `col`
/// and cancels the pivots' entries there solves the system.
proof fn lemma_free_direction(
    blocks: Seq<Block>,
    coeffs: Seq<Vec<u64>>,
    orig: Seq<Vec<u64>>,
    rows: Seq<Vec<u64>>,
    col: int,
    p: u64,
)
    requires
        modulus(p),
        1 <= col < coeffs.len(),
        matrix(rows, coeffs.len() as nat, p),
        col - 1 <= rows.len(),
        reduced(rows, col),
        forall|r2: int| col - 1 <= r2 < rows.len() ==> #[trigger] rows[r2]@[col] == 0,
        forall|x: Seq<u64>| #[trigger] annuls_all(rows, x, p) ==> annuls_all(orig, x, p),
        forall|i2: int, sh: int| 0 <= i2 < blocks.len() && 0 <= sh < coeffs.len() - blocks[i2].monos@.len() ==> in_rows(
            orig,
            #[trigger] block_row(blocks, coeffs, i2, sh, p),
        ),
    ensures
        exists|y: Seq<u64>| #[trigger] free_direction(blocks, coeffs, y, p),
{
    let s = coeffs.len();
    let m = p as int;
    let y = Seq::new(
        s,
        |j: int|
            if j == col {
                1u64
            } else if 1 <= j < col {
                ((m - rows[j - 1]@[col]) % m) as u64
            } else {
                0u64
            },
    );
    lemma_small_mod(0, p as nat);
    assert forall|k: int| 0 <= k < rows.len() implies annuls(#[trigger] rows[k]@, y, p) by {
        let row = rows[k]@;
        assert(row.len() == s);
        if k < col - 1 {
            assert forall|j: int| 0 <= j < s && j != k + 1 && j != col implies #[trigger] (row[j] * y[j]) == 0 by {
                if 1 <= j < col {
                    assert(row[j] == 0);
                }
                assert(row[j] == 0 || y[j] == 0);
            }
            lemma_dot_pair(row, y, s as nat, k + 1, col);
            assert(row[k + 1] == 1);
            let v = row[col] as int;
            assert(v < m);
            assert(y[col] == 1);
            if v == 0 {
                vstd::arithmetic::div_mod::lemma_mod_self_0(m);
                assert(y[k + 1] == 0);
                assert(row[k + 1] * y[k + 1] == 0);
                let yc = y[col];
                assert(row[col] * yc == 0) by (nonlinear_arith)
                    requires
                        v == row[col],
                        v == 0,
                ;
                assert(crate::lift::dot(row, y, s as nat) == 0);
            } else {
                lemma_small_mod((m - v) as nat, p as nat);
                vstd::arithmetic::div_mod::lemma_mod_self_0(m);
                assert(y[k + 1] == m - v);
                assert(row[k + 1] * y[k + 1] == m - v) by {
                    assert(row[k + 1] == 1);
                }
                let yc = y[col];
                assert(yc == 1);
                assert(row[col] * yc == v) by (nonlinear_arith)
                    requires
                        yc == 1,
                        v == row[col],
                ;
                assert(crate::lift::dot(row, y, s as nat) == m);
            }
        } else {
            assert forall|j: int| 0 <= j < s && j != s as int && j != s as int + 1 implies #[trigger] (row[j] * y[j]) == 0 by {
                if 1 <= j < col {
                    assert(row[j] == 0);
                }
                if j == col {
                    assert(row[j] == 0);
                }
                assert(row[j] == 0 || y[j] == 0);
            }
            lemma_dot_pair(row, y, s as nat, s as int, s as int + 1);
        }
    }
    assert(annuls_all(rows, y, p));
    assert(annuls_all(orig, y, p));
    assert forall|i: int, sh: int|
        0 <= i < blocks.len() && 0 <= sh < coeffs.len() - blocks[i].monos@.len() implies annuls(
        #[trigger] block_row(blocks, coeffs, i, sh, p),
        y,
        p,
    ) by {
        let w = choose|r: int| 0 <= r < orig.len() && #[trigger] orig[r]@ == block_row(blocks, coeffs, i, sh, p);
        assert(annuls(orig[w]@, y, p));
    }
    assert(y[col] == 1);
    assert(free_direction(blocks, coeffs, y, p));
}

/// A row stays among the rows when one more is pushed.
proof fn lemma_in_rows_push(before: Seq<Vec<u64>>, after: Seq<Vec<u64>>, row: Seq<u64>)
    requires
        in_rows(before, row),
        after.len() == before.len() + 1,
        forall|r: int| 0 <= r < before.len() ==> after[r] == before[r],
    ensures
        in_rows(after, row),
{
    let w = choose|r: int| 0 <= r < before.len() && #[trigger] before[r]@ == row;
    assert(after[w] == before[w]);
}

/// The number of nonzero entries among the first `k` of `v`.
pub open spec fn nonzero_count(v: Seq<u64>, k: nat) -> nat
    decreases k,
{
    if k == 0 {
        0
    } else {
        nonzero_count(v, (k - 1) as nat) + (if v[k - 1] != 0 { 1nat } else { 0nat })
    }
}

/// The number of nonzero entries of `v`.
fn count_nonzero(v: &[u64]) -> (c: usize)
    ensures
        c <= v@.len(),
        c == nonzero_count(v@, v@.len()),
{
    let mut c: usize = 0;
    let mut i: usize = 0;
    while i < v.len()
        invariant
            i <= v@.len(),
            c <= i,
            c == nonzero_count(v@, i as nat),
        decreases v@.len() - i,
    {
        if v[i] != 0 {
            c += 1;
        }
        i += 1;
    }
    c
}

/// The gcd from its images: each block's coefficients solve a transposed Vandermonde system,
/// checked against every image before it is trusted.
fn assemble(blocks: &Vec<Block>, coeffs: &Vec<Vec<u64>>, scales: &Vec<u64>, p: u64, sk: Ghost<Seq<Exps>>) -> (r: Result<ModPoly, Failure>)
    requires
        blocks@.len() >= 1,
        forall|i: int| 0 <= i < blocks@.len() ==> block_ok(#[trigger] blocks@[i], blocks@[0].monos@[0]@.len(), blocks@[0].e0, p),
        forall|i: int| 0 <= i < blocks@.len() ==> from_skeleton((#[trigger] blocks@[i]).monos@, sk@),
        forall|j: int| 0 <= j < coeffs@.len() ==> (#[trigger] coeffs@[j])@.len() == blocks@.len() && residues(coeffs@[j]@, p),
        scales@.len() == coeffs@.len(),
        residues(scales@, p),
        modulus(p),
    ensures
        r matches Ok(h) ==> {
            &&& h.n == blocks@[0].monos@[0]@.len()
            &&& h.shaped(p)
            &&& forall|t: int| 0 <= t < h.terms@.len() ==> (#[trigger] h.terms@[t]).1 != 0
            &&& forall|t: int| 0 <= t < h.terms@.len() ==> in_skeleton((#[trigger] h.terms@[t]).0@, sk@)
            &&& follows(h.terms@, flat(blocks@))
        },
{
    let ghost n = blocks@[0].monos@[0]@.len();
    let mut terms: Vec<(Exps, u64)> = Vec::new();
    let ghost mut idx: Seq<int> = Seq::empty();
    let mut i: usize = 0;
    while i < blocks.len()
        invariant
            i <= blocks@.len(),
            blocks@.len() >= 1,
            n == blocks@[0].monos@[0]@.len(),
            forall|u: int| 0 <= u < blocks@.len() ==> block_ok(#[trigger] blocks@[u], n, blocks@[0].e0, p),
            forall|u: int| 0 <= u < blocks@.len() ==> from_skeleton((#[trigger] blocks@[u]).monos@, sk@),
            forall|j: int| 0 <= j < coeffs@.len() ==> (#[trigger] coeffs@[j])@.len() == blocks@.len() && residues(coeffs@[j]@, p),
            scales@.len() == coeffs@.len(),
            residues(scales@, p),
            modulus(p),
            forall|t: int| 0 <= t < terms@.len() ==> (#[trigger] terms@[t]).0@.len() == n && terms@[t].1 < p && terms@[t].1 != 0,
            forall|t: int| 0 <= t < terms@.len() ==> in_skeleton((#[trigger] terms@[t]).0@, sk@),
            indexes(idx, terms@, flat(blocks@)),
            forall|t: int| 0 <= t < idx.len() ==> #[trigger] idx[t] < flat(blocks@.take(i as int)).len(),
        decreases blocks@.len() - i,
    {
        let bl = &blocks[i];
        assert(block_ok(*bl, n, blocks@[0].e0, p));
        let mut w: Vec<u64> = Vec::new();
        let mut j: usize = 0;
        while j < coeffs.len()
            invariant
                j <= coeffs@.len(),
                i < blocks@.len(),
                w@.len() == j,
                residues(w@, p),
                forall|u: int| 0 <= u < coeffs@.len() ==> (#[trigger] coeffs@[u])@.len() == blocks@.len() && residues(coeffs@[u]@, p),
                scales@.len() == coeffs@.len(),
                modulus(p),
            decreases coeffs@.len() - j,
        {
            w.push(crate::modp::mul(coeffs[j][i], scales[j], p));
            j += 1;
        }
        let cs = vandermonde::solve(&bl.vals, &bl.master, &w, p);
        let mut pw: Vec<u64> = bl.vals.clone();
        assert(pw@ == bl.vals@);
        let mut j: usize = 0;
        while j < w.len()
            invariant
                j <= w@.len(),
                pw@.len() == bl.vals@.len(),
                cs@.len() == bl.vals@.len(),
                residues(pw@, p),
                residues(cs@, p),
                modulus(p),
            decreases w@.len() - j,
        {
            let mut lhs: u64 = 0;
            let mut l: usize = 0;
            while l < cs.len()
                invariant
                    l <= cs@.len(),
                    cs@.len() == pw@.len(),
                    lhs < p,
                    modulus(p),
                decreases cs@.len() - l,
            {
                lhs = crate::modp::add(lhs, crate::modp::mul(cs[l], pw[l], p), p);
                l += 1;
            }
            if lhs != w[j] {
                return Err(Failure::Abort);
            }
            let mut l: usize = 0;
            while l < pw.len()
                invariant
                    l <= pw@.len(),
                    pw@.len() == bl.vals@.len(),
                    residues(pw@, p),
                    modulus(p),
                decreases pw@.len() - l,
            {
                let v = crate::modp::mul(pw[l], bl.vals[l], p);
                pw.set(l, v);
                l += 1;
            }
            j += 1;
        }
        let mut l: usize = 0;
        while l < bl.monos.len()
            invariant
                l <= bl.monos@.len(),
                cs@.len() == bl.monos@.len(),
                residues(cs@, p),
                block_ok(*bl, n, blocks@[0].e0, p),
                from_skeleton(bl.monos@, sk@),
                forall|t: int| 0 <= t < terms@.len() ==> (#[trigger] terms@[t]).0@.len() == n && terms@[t].1 < p && terms@[t].1 != 0,
                forall|t: int| 0 <= t < terms@.len() ==> in_skeleton((#[trigger] terms@[t]).0@, sk@),
                i < blocks@.len(),
                *bl == blocks@[i as int],
                indexes(idx, terms@, flat(blocks@)),
                forall|t: int| 0 <= t < idx.len() ==> #[trigger] idx[t] < flat(blocks@.take(i as int)).len() + l,
            decreases bl.monos@.len() - l,
        {
            if cs[l] != 0 {
                let e = bl.monos[l].clone();
                assert(e@ == bl.monos@[l as int]@);
                let ghost t0 = terms@;
                proof {
                    assert(in_skeleton(bl.monos@[l as int]@, sk@));
                }
                terms.push((e, cs[l]));
                proof {
                    lemma_flat_at(blocks@, i as int, l as int);
                    let ghost i0 = idx;
                    idx = idx.push(flat(blocks@.take(i as int)).len() + l);
                    assert forall|t: int| 0 <= t < idx.len() implies 0 <= #[trigger] idx[t] < flat(blocks@).len()
                        && terms@[t].0@ == flat(blocks@)[idx[t]] by {
                        if t < i0.len() {
                            assert(idx[t] == i0[t]);
                            assert(terms@[t] == t0[t]);
                        }
                    }
                    assert forall|a: int, b: int| 0 <= a < b < idx.len() implies #[trigger] idx[a] < #[trigger] idx[b] by {
                        if b < i0.len() {
                            assert(idx[a] == i0[a] && idx[b] == i0[b]);
                        } else {
                            assert(idx[a] == i0[a]);
                        }
                    }
                    assert(indexes(idx, terms@, flat(blocks@)));
                    assert forall|t: int| 0 <= t < terms@.len() implies in_skeleton((#[trigger] terms@[t]).0@, sk@) by {
                        if t < t0.len() {
                            assert(terms@[t] == t0[t]);
                        } else {
                            assert(terms@[t].0@ == bl.monos@[l as int]@);
                        }
                    }
                }
            }
            l += 1;
        }
        proof {
            lemma_flat_take(blocks@, i as int);
        }
        i += 1;
    }
    let n = blocks[0].monos[0].len();
    proof {
        assert(indexes(idx, terms@, flat(blocks@)));
    }
    Ok(ModPoly { n, terms })
}

/// One attempt at fresh points from `rng`.
fn attempt(f: &ModPoly, g: &ModPoly, skeleton: &Vec<Exps>, m: usize, p: u64, rng: &mut Rng) -> (r: Result<ModPoly, Failure>)
    requires
        f.shaped(p),
        g.shaped(p),
        small_exps(*f),
        small_exps(*g),
        f.n == g.n,
        skeleton_ok(skeleton@, f.n as nat, m as nat),
        modulus(p),
    ensures
        r matches Ok(h) ==> {
            &&& h.n == f.n
            &&& h.shaped(p)
            &&& forall|t: int| 0 <= t < h.terms@.len() ==> (#[trigger] h.terms@[t]).1 != 0
            &&& forall|t: int| 0 <= t < h.terms@.len() ==> in_skeleton((#[trigger] h.terms@[t]).0@, skeleton@)
            &&& follows(h.terms@, monos_view(skeleton@))
        },
{
    let mut b: Vec<u64> = Vec::new();
    while b.len() <= m
        invariant
            b@.len() <= m + 1,
            m < f.n,
            modulus(p),
        decreases m + 1 - b@.len(),
    {
        b.push(rng.nonzero(p));
    }
    let bs = match blocks(skeleton, &b, m, p) {
        Ok(bs) => bs,
        Err(e) => {
            return Err(e);
        },
    };
    let mut n_max: usize = 0;
    let mut total: usize = 0;
    let mut anchor: Option<usize> = None;
    let mut i: usize = 0;
    while i < bs.len()
        invariant
            i <= bs@.len(),
            forall|u: int| 0 <= u < i ==> (#[trigger] bs@[u]).monos@.len() <= n_max,
            anchor matches Some(a) ==> a < bs@.len() && bs@[a as int].monos@.len() == 1,
            flat(bs@) == monos_view(skeleton@),
        decreases bs@.len() - i,
    {
        let len = bs[i].monos.len();
        if len > n_max {
            n_max = len;
        }
        total = match total.checked_add(len) {
            Some(t) => t,
            None => {
                return Err(Failure::Abort);
            },
        };
        if anchor.is_none() && len == 1 {
            anchor = Some(i);
        }
        i += 1;
    }
    let r = bs.len();
    let base = match anchor {
        Some(_) => n_max,
        None => {
            if r > 1 {
                if total == 0 {
                    return Err(Failure::Abort);
                }
                let a = total - 1;
                let d = r - 1;
                let need = a / d + if a % d == 0 {
                    0
                } else {
                    1
                };
                if n_max > need {
                    n_max
                } else {
                    need
                }
            } else {
                return Err(Failure::Abort);
            }
        },
    };
    if base == usize::MAX {
        return Err(Failure::Abort);
    }
    let mut s = base + 1;
    let mut images = Images::new(f, g, &b, m, p);
    let deg0 = bs[0].e0 as usize;
    let mut coeffs: Vec<Vec<u64>> = Vec::new();
    loop
        invariant
            images.wf(),
            images.p == p,
            modulus(p),
            bs@.len() >= 1,
            deg0 == bs@[0].e0,
            forall|u: int| 0 <= u < bs@.len() ==> block_ok(#[trigger] bs@[u], skeleton@[0]@.len(), skeleton@[0]@[0], p),
            forall|u: int| 0 <= u < bs@.len() ==> from_skeleton((#[trigger] bs@[u]).monos@, skeleton@),
            forall|u: int| 0 <= u < bs@.len() ==> (#[trigger] bs@[u]).monos@.len() <= n_max,
            bs@[0].e0 == skeleton@[0]@[0],
            skeleton@[0]@.len() == f.n,
            n_max < s,
            anchor matches Some(a) ==> a < bs@.len() && bs@[a as int].monos@.len() == 1,
            flat(bs@) == monos_view(skeleton@),
            forall|j: int| 0 <= j < coeffs@.len() ==> (#[trigger] coeffs@[j])@.len() == bs@.len() && residues(coeffs@[j]@, p),
        decreases 2 * (total as int) + 3 - (s as int),
    {
        while coeffs.len() < s
            invariant
                images.wf(),
                images.p == p,
                modulus(p),
                bs@.len() >= 1,
                deg0 == bs@[0].e0,
                forall|u: int| 0 <= u < bs@.len() ==> block_ok(#[trigger] bs@[u], skeleton@[0]@.len(), skeleton@[0]@[0], p),
                bs@[0].e0 == skeleton@[0]@[0],
                forall|j: int| 0 <= j < coeffs@.len() ==> (#[trigger] coeffs@[j])@.len() == bs@.len() && residues(coeffs@[j]@, p),
            decreases s - coeffs@.len(),
        {
            let h = match images.next() {
                Some(h) => h,
                None => {
                    return Err(Failure::Retry);
                },
            };
            let dh = uni::deg(&h);
            if dh != deg0 {
                if dh > deg0 {
                    return Err(Failure::Retry);
                } else {
                    return Err(Failure::Abort);
                }
            }
            if h.len() == 0 {
                return Err(Failure::Abort);
            }
            let expected = count_nonzero(&h);
            let mut row: Vec<u64> = Vec::new();
            let mut u: usize = 0;
            while u < bs.len()
                invariant
                    u <= bs@.len(),
                    row@.len() == u,
                    residues(row@, p),
                    residues(h@, p),
                    h@.len() == deg0 + 1,
                    forall|w: int| 0 <= w < bs@.len() ==> block_ok(#[trigger] bs@[w], skeleton@[0]@.len(), skeleton@[0]@[0], p),
                    deg0 == skeleton@[0]@[0],
                decreases bs@.len() - u,
            {
                assert(block_ok(bs@[u as int], skeleton@[0]@.len(), skeleton@[0]@[0], p));
                row.push(h[bs[u].e0 as usize]);
                u += 1;
            }
            if count_nonzero(&row) != expected {
                return Err(Failure::Abort);
            }
            coeffs.push(row);
        }
        let scales = match anchor {
            Some(a) => {
                assert(block_ok(bs@[a as int], skeleton@[0]@.len(), skeleton@[0]@[0], p));
                match anchored_scales(&bs[a], a, &coeffs, p) {
                    Some(v) => v,
                    None => {
                        return Err(Failure::Abort);
                    },
                }
            },
            None => {
                match solve_scales(&bs, &coeffs, p) {
                    Scales::Solved(v) => v,
                    Scales::Deficient => {
                        if (s as u128) < 2 * (total as u128) + 2 && s < usize::MAX {
                            s += 1;
                            continue;
                        } else {
                            return Err(Failure::Abort);
                        }
                    },
                    Scales::Inconsistent => {
                        return Err(Failure::Abort);
                    },
                }
            },
        };
        let ghost sk = skeleton@;
        return assemble(&bs, &coeffs, &scales, p, Ghost(sk));
    }
}

/// `gcd(f, g)` on the skeleton, or `None` when the skeleton proves wrong.
pub fn linzip(f: &ModPoly, g: &ModPoly, skeleton: &Vec<Exps>, m: usize, p: u64, rng: &mut Rng) -> (r: Option<ModPoly>)
    requires
        f.shaped(p),
        g.shaped(p),
        small_exps(*f),
        small_exps(*g),
        f.n == g.n,
        skeleton_ok(skeleton@, f.n as nat, m as nat),
        modulus(p),
    ensures
        r matches Some(h) ==> {
            &&& h.n == f.n
            &&& h.shaped(p)
            &&& forall|t: int| 0 <= t < h.terms@.len() ==> (#[trigger] h.terms@[t]).1 != 0
            &&& forall|t: int| 0 <= t < h.terms@.len() ==> in_skeleton((#[trigger] h.terms@[t]).0@, skeleton@)
            &&& follows(h.terms@, monos_view(skeleton@))
        },
        r matches Some(h) ==> skeleton_descending(skeleton@) ==> h.wf(p),
{
    let mut k: u64 = 0;
    while k < 3
        invariant
            f.shaped(p),
            g.shaped(p),
            small_exps(*f),
            small_exps(*g),
            f.n == g.n,
            skeleton_ok(skeleton@, f.n as nat, m as nat),
            modulus(p),
        decreases 3 - k,
    {
        match attempt(f, g, skeleton, m, p, rng) {
            Ok(h) => {
                proof {
                    if skeleton_descending(skeleton@) {
                        lemma_follows_descending(h.terms@, skeleton@);
                    }
                }
                return Some(h);
            },
            Err(Failure::Abort) => {
                return None;
            },
            Err(Failure::Retry) => {},
        }
        k += 1;
    }
    None
}

} // verus!
