//! Transposed Vandermonde systems `sum_l c_l v_l^(j+1) = w_j`, the linear algebra of sparse
//! interpolation: a monomial with value `v` at a point contributes `v^j` at that point's `j`-th
//! power.

use crate::arith::{lemma_euclid, lemma_mul_mod_both, power, prime};
use crate::modp::modulus;
use crate::univariate::{
    Dense, basis, coef, div_rem, ev, eval, lemma_ev_add, lemma_ev_ext, lemma_ev_scale, lemma_peval_linear, mul_poly, peval,
    residues,
};

use vstd::prelude::*;

verus! {

/// `z^(n+1) - r^(n+1) = (z - r) sum_(j <= n) r^(n-j) z^j`.
proof fn lemma_geometric(z: int, r: int, n: nat)
    ensures
        power(z, n + 1) - power(r, n + 1) == (z - r) * ev(|j: int| power(r, (n - j) as nat), n + 1, z),
    decreases n,
{
    let h = |j: int| power(r, (n - j) as nat);
    if n == 0 {
        assert(ev(h, 1, z) == ev(h, 0, z) + h(0) * power(z, 0));
        assert(h(0) == power(r, 0) && power(r, 0) == 1 && power(z, 0) == 1);
        assert(ev(h, 1, z) == 1);
        assert(power(z, 1) == z * power(z, 0) && power(r, 1) == r * power(r, 0));
        assert(power(z, 0 + 1) - power(r, 0 + 1) == (z - r) * 1);
    } else {
        let k = (n - 1) as nat;
        lemma_geometric(z, r, k);
        let h0 = |j: int| power(r, (k - j) as nat);
        let rh = |j: int| r * h0(j);
        assert forall|j: int| 0 <= j < n implies #[trigger] h(j) == rh(j) by {
            assert((n - j) as nat == ((k - j) as nat) + 1);
        }
        lemma_ev_ext(h, rh, n, z);
        lemma_ev_scale(r, h0, n, z);
        assert(ev(h, n + 1, z) == ev(h, n, z) + h(n as int) * power(z, n));
        assert(h(n as int) == 1);
        let e = ev(h0, n, z);
        assert(power(z, n + 1) == z * power(z, n));
        assert(power(r, n + 1) == r * power(r, n));
        assert(power(z, n) - power(r, n) == (z - r) * e);
        assert(z * power(z, n) - r * power(r, n) == (z - r) * (r * e + power(z, n))) by (nonlinear_arith)
            requires
                power(z, n) - power(r, n) == (z - r) * e,
        ;
    }
}

/// The quotient of `f - f(r)` by `z - r`: `f` with `n + 1` coefficients, the quotient with `n`.
pub open spec fn quotient_by_root(f: spec_fn(int) -> int, n: nat, r: int) -> spec_fn(int) -> int
    decreases n,
{
    if n == 0 {
        |j: int| 0
    } else {
        let g = quotient_by_root(f, (n - 1) as nat, r);
        |j: int| (if j < n - 1 { g(j) } else { 0 }) + f(n as int) * power(r, (n - 1 - j) as nat)
    }
}

/// `f(z) - f(r) = (z - r) g(z)` for the quotient `g`.
proof fn lemma_root_factor(f: spec_fn(int) -> int, n: nat, r: int, z: int)
    ensures
        ev(f, n + 1, z) - ev(f, n + 1, r) == (z - r) * ev(quotient_by_root(f, n, r), n, z),
    decreases n,
{
    if n == 0 {
        assert(ev(f, 1, z) == ev(f, 0, z) + f(0) * power(z, 0));
        assert(ev(f, 1, r) == ev(f, 0, r) + f(0) * power(r, 0));
    } else {
        let k = (n - 1) as nat;
        lemma_root_factor(f, k, r, z);
        let g0 = quotient_by_root(f, k, r);
        let g = quotient_by_root(f, n, r);
        let a = |j: int| if j < k { g0(j) } else { 0 };
        let h = |j: int| power(r, (k - j) as nat);
        let fh = |j: int| f(n as int) * h(j);
        let sum = |j: int| a(j) + fh(j);
        assert forall|j: int| 0 <= j < n implies #[trigger] g(j) == sum(j) by {}
        lemma_ev_ext(g, sum, n, z);
        lemma_ev_add(a, fh, n, z);
        lemma_ev_scale(f(n as int), h, n, z);
        assert(ev(a, n, z) == ev(a, k, z) + a(k as int) * power(z, k));
        assert(a(k as int) == 0);
        lemma_ev_ext(a, g0, k, z);
        lemma_geometric(z, r, k);
        assert(ev(f, n + 1, z) == ev(f, n, z) + f(n as int) * power(z, n));
        assert(ev(f, n + 1, r) == ev(f, n, r) + f(n as int) * power(r, n));
        let (e0, eh, c) = (ev(g0, k, z), ev(h, n, z), f(n as int));
        assert((ev(f, n, z) + c * power(z, n)) - (ev(f, n, r) + c * power(r, n)) == (z - r) * (e0 + c * eh)) by (nonlinear_arith)
            requires
                ev(f, n, z) - ev(f, n, r) == (z - r) * e0,
                power(z, n) - power(r, n) == (z - r) * eh,
        ;
    }
}

/// A polynomial with `n` coefficients and `n` distinct roots modulo a prime vanishes everywhere.
pub proof fn lemma_many_roots(f: spec_fn(int) -> int, n: nat, rs: Seq<int>, m: int, z: int)
    requires
        prime(m),
        rs.len() >= n,
        forall|i: int, j: int| 0 <= i < j < rs.len() ==> (#[trigger] rs[i] - #[trigger] rs[j]) % m != 0,
        forall|i: int| 0 <= i < rs.len() ==> #[trigger] ev(f, n, rs[i]) % m == 0,
    ensures
        ev(f, n, z) % m == 0,
    decreases n,
{
    if n == 0 {
        vstd::arithmetic::div_mod::lemma_small_mod(0, m as nat);
    } else {
        let k = (n - 1) as nat;
        let r = rs.last();
        let g = quotient_by_root(f, k, r);
        let rest = rs.drop_last();
        assert forall|i: int| 0 <= i < rest.len() implies #[trigger] ev(g, k, rest[i]) % m == 0 by {
            lemma_root_factor(f, k, r, rest[i]);
            assert(ev(f, n, rest[i]) % m == 0 && ev(f, n, r) % m == 0);
            crate::arith::lemma_sub_mod_both(ev(f, n, rest[i]), ev(f, n, r), 0, 0, m);
            vstd::arithmetic::div_mod::lemma_small_mod(0, m as nat);
            assert(((rest[i] - r) * ev(g, k, rest[i])) % m == 0);
            assert((rest[i] - r) % m != 0) by {
                assert(rs[i] == rest[i]);
            }
            lemma_euclid(rest[i] - r, ev(g, k, rest[i]), m);
        }
        assert forall|i: int, j: int| 0 <= i < j < rest.len() implies (#[trigger] rest[i] - #[trigger] rest[j]) % m != 0 by {
            assert(rest[i] == rs[i] && rest[j] == rs[j]);
        }
        lemma_many_roots(g, k, rest, m, z);
        lemma_root_factor(f, k, r, z);
        vstd::arithmetic::div_mod::lemma_mul_mod_noop_right(z - r, ev(g, k, z), m);
        assert((z - r) * (ev(g, k, z) % m) == 0) by (nonlinear_arith)
            requires
                ev(g, k, z) % m == 0,
        ;
        vstd::arithmetic::div_mod::lemma_small_mod(0, m as nat);
        crate::arith::lemma_add_mod_both(ev(f, n, r), (z - r) * ev(g, k, z), 0, 0, m);
    }
}

/// `sum_(k < kk) cs_k v_k^(j+1)`: row `j` of the transposed Vandermonde system applied to `cs`.
pub open spec fn vand_sum(cs: Seq<int>, vals: Seq<u64>, j: nat, kk: nat) -> int
    decreases kk,
{
    if kk == 0 {
        0
    } else {
        vand_sum(cs, vals, j, (kk - 1) as nat) + cs[kk - 1] * power(vals[kk - 1] as int, j + 1)
    }
}

/// `w_0..w_(n-1)` are the transposed Vandermonde system applied to `cs`, modulo `p`.
pub open spec fn vandermonde_image(vals: Seq<u64>, cs: Seq<int>, w: Seq<u64>, p: u64) -> bool {
    &&& cs.len() == vals.len()
    &&& w.len() >= vals.len()
    &&& forall|j: int| 0 <= j < vals.len() ==> #[trigger] (w[j] as int) % (p as int) == vand_sum(cs, vals, j as nat, vals.len())
        % (p as int)
}

/// Distinct nonzero residues modulo `p`.
pub open spec fn distinct_points(vals: Seq<u64>, p: u64) -> bool {
    &&& forall|k: int| 0 <= k < vals.len() ==> 0 < #[trigger] vals[k] < p
    &&& forall|i: int, j: int| 0 <= i < j < vals.len() ==> #[trigger] vals[i] != #[trigger] vals[j]
}

/// `sum_(j < n) q_j t(j)`.
pub open spec fn dot(q: Seq<u64>, t: spec_fn(int) -> int, n: nat) -> int
    decreases n,
{
    if n == 0 {
        0
    } else {
        dot(q, t, (n - 1) as nat) + coef(q)(n - 1) * t(n - 1)
    }
}

/// `sum_(k < kk) cs_k v_k q(v_k)`.
pub open spec fn weighted(q: Seq<u64>, cs: Seq<int>, vals: Seq<u64>, n: nat, kk: nat) -> int
    decreases kk,
{
    if kk == 0 {
        0
    } else {
        weighted(q, cs, vals, n, (kk - 1) as nat) + cs[kk - 1] * vals[kk - 1] * ev(coef(q), n, vals[kk - 1] as int)
    }
}

/// Congruent weights give congruent sums.
proof fn lemma_dot_mod(q: Seq<u64>, t1: spec_fn(int) -> int, t2: spec_fn(int) -> int, n: nat, m: int)
    requires
        m > 0,
        forall|j: int| 0 <= j < n ==> #[trigger] t1(j) % m == t2(j) % m,
    ensures
        dot(q, t1, n) % m == dot(q, t2, n) % m,
    decreases n,
{
    if n > 0 {
        let k = (n - 1) as nat;
        lemma_dot_mod(q, t1, t2, k, m);
        let c = coef(q)(k as int);
        lemma_mul_mod_both(c, t1(k as int), c, t2(k as int), m);
        crate::arith::lemma_add_mod_both(dot(q, t1, k), c * t1(k as int), dot(q, t2, k), c * t2(k as int), m);
    }
}

/// The sum is additive in the weights.
proof fn lemma_dot_add(q: Seq<u64>, t1: spec_fn(int) -> int, t2: spec_fn(int) -> int, t: spec_fn(int) -> int, n: nat)
    requires
        forall|j: int| 0 <= j < n ==> #[trigger] t(j) == t1(j) + t2(j),
    ensures
        dot(q, t, n) == dot(q, t1, n) + dot(q, t2, n),
    decreases n,
{
    if n > 0 {
        let k = (n - 1) as nat;
        lemma_dot_add(q, t1, t2, t, k);
        let c = coef(q)(k as int);
        assert(c * t(k as int) == c * t1(k as int) + c * t2(k as int)) by (nonlinear_arith)
            requires
                t(k as int) == t1(k as int) + t2(k as int),
        ;
    }
}

/// Weights `c v^(j+1)` give `c v q(v)`.
proof fn lemma_dot_power(q: Seq<u64>, c: int, v: int, n: nat)
    ensures
        dot(q, |j: int| c * power(v, (j + 1) as nat), n) == c * v * ev(coef(q), n, v),
    decreases n,
{
    if n > 0 {
        let k = (n - 1) as nat;
        lemma_dot_power(q, c, v, k);
        let t = |j: int| c * power(v, (j + 1) as nat);
        assert(t(k as int) == c * power(v, n));
        assert(power(v, n) == v * power(v, k));
        let (qk, e, pk) = (coef(q)(k as int), ev(coef(q), k, v), power(v, k));
        assert(c * v * e + qk * (c * (v * pk)) == c * v * (e + qk * pk)) by (nonlinear_arith);
    }
}

/// Summing the rows against `q` is summing the points against `q(v)`.
proof fn lemma_dot_vand(q: Seq<u64>, cs: Seq<int>, vals: Seq<u64>, n: nat, kk: nat)
    requires
        kk <= cs.len(),
        kk <= vals.len(),
    ensures
        dot(q, |j: int| vand_sum(cs, vals, j as nat, kk), n) == weighted(q, cs, vals, n, kk),
    decreases kk,
{
    let t = |j: int| vand_sum(cs, vals, j as nat, kk);
    if kk == 0 {
        lemma_dot_zero(q, t, n);
    } else {
        let k = (kk - 1) as nat;
        lemma_dot_vand(q, cs, vals, n, k);
        let t1 = |j: int| vand_sum(cs, vals, j as nat, k);
        let (c, v) = (cs[k as int], vals[k as int] as int);
        let t2 = |j: int| c * power(v, (j + 1) as nat);
        assert forall|j: int| 0 <= j < n implies #[trigger] t(j) == t1(j) + t2(j) by {
            assert((j as nat) + 1 == (j + 1) as nat);
        }
        lemma_dot_add(q, t1, t2, t, n);
        lemma_dot_power(q, c, v, n);
    }
}

/// Zero weights give zero.
proof fn lemma_dot_zero(q: Seq<u64>, t: spec_fn(int) -> int, n: nat)
    requires
        forall|j: int| 0 <= j < n ==> #[trigger] t(j) == 0,
    ensures
        dot(q, t, n) == 0,
    decreases n,
{
    if n > 0 {
        lemma_dot_zero(q, t, (n - 1) as nat);
        assert(coef(q)(n - 1) * t(n - 1) == 0) by (nonlinear_arith)
            requires
                t(n - 1) == 0,
        ;
    }
}

/// When `q` vanishes at every point but `v_l`, only `cs_l` is left.
proof fn lemma_weighted_single(q: Seq<u64>, cs: Seq<int>, vals: Seq<u64>, n: nat, kk: nat, l: int, m: int)
    requires
        m > 0,
        0 <= l < kk <= vals.len(),
        kk <= cs.len(),
        forall|k: int| 0 <= k < kk && k != l ==> #[trigger] ev(coef(q), n, vals[k] as int) % m == 0,
    ensures
        weighted(q, cs, vals, n, kk) % m == (cs[l] * vals[l] * ev(coef(q), n, vals[l] as int)) % m,
    decreases kk,
{
    let k = kk - 1;
    let term = cs[k] * vals[k] * ev(coef(q), n, vals[k] as int);
    let prev = weighted(q, cs, vals, n, k as nat);
    if k == l {
        lemma_weighted_zero(q, cs, vals, n, k as nat, l, m);
        vstd::arithmetic::div_mod::lemma_small_mod(0, m as nat);
        crate::arith::lemma_add_mod_both(prev, term, 0, term, m);
    } else {
        lemma_weighted_single(q, cs, vals, n, k as nat, l, m);
        let e = ev(coef(q), n, vals[k] as int);
        vstd::arithmetic::div_mod::lemma_mul_mod_noop_right(cs[k] * vals[k], e, m);
        assert((cs[k] * vals[k]) * (e % m) == 0) by (nonlinear_arith)
            requires
                e % m == 0,
        ;
        vstd::arithmetic::div_mod::lemma_small_mod(0, m as nat);
        crate::arith::lemma_add_mod_both(prev, term, cs[l] * vals[l] * ev(coef(q), n, vals[l] as int), 0, m);
    }
}

/// Points where `q` vanishes add nothing.
proof fn lemma_weighted_zero(q: Seq<u64>, cs: Seq<int>, vals: Seq<u64>, n: nat, kk: nat, l: int, m: int)
    requires
        m > 0,
        kk <= vals.len(),
        kk <= cs.len(),
        kk <= l,
        forall|k: int| 0 <= k < kk ==> #[trigger] ev(coef(q), n, vals[k] as int) % m == 0,
    ensures
        weighted(q, cs, vals, n, kk) % m == 0,
    decreases kk,
{
    if kk == 0 {
        vstd::arithmetic::div_mod::lemma_small_mod(0, m as nat);
    } else {
        let k = kk - 1;
        lemma_weighted_zero(q, cs, vals, n, k as nat, l, m);
        let e = ev(coef(q), n, vals[k] as int);
        vstd::arithmetic::div_mod::lemma_mul_mod_noop_right(cs[k] * vals[k], e, m);
        assert((cs[k] * vals[k]) * (e % m) == 0) by (nonlinear_arith)
            requires
                e % m == 0,
        ;
        vstd::arithmetic::div_mod::lemma_small_mod(0, m as nat);
        crate::arith::lemma_add_mod_both(weighted(q, cs, vals, n, k as nat), cs[k] * vals[k] * e, 0, 0, m);
    }
}

/// The product of the negated points is nonzero modulo a prime when no point is zero.
proof fn lemma_basis_at_zero(vals: Seq<u64>, i: int, m: int)
    requires
        prime(m),
        0 <= i <= vals.len(),
        forall|k: int| 0 <= k < vals.len() ==> #[trigger] (vals[k] as int) % m != 0,
    ensures
        basis(vals, i, 0) % m != 0,
    decreases i,
{
    if i == 0 {
        vstd::arithmetic::div_mod::lemma_small_mod(1, m as nat);
    } else {
        lemma_basis_at_zero(vals, i - 1, m);
        let v = vals[i - 1] as int;
        if basis(vals, i, 0) % m == 0 {
            lemma_euclid(basis(vals, i - 1, 0), 0 - v, m);
            vstd::arithmetic::div_mod::lemma_mod_twice(0 - v, m);
            assert((0 - v) % m == 0 ==> v % m == 0) by {
                if (0 - v) % m == 0 {
                    vstd::arithmetic::div_mod::lemma_fundamental_div_mod(0 - v, m);
                    let qq = (0 - v) / m;
                    assert(v == (-qq) * m) by (nonlinear_arith)
                        requires
                            0 - v == m * qq + 0,
                    ;
                    vstd::arithmetic::div_mod::lemma_mod_multiples_basic(-qq, m);
                }
            }
        }
    }
}

/// Distinct residues differ modulo `m`.
proof fn lemma_distinct_mod(x: int, y: int, m: int)
    requires
        0 <= x < m,
        0 <= y < m,
        x != y,
    ensures
        (x - y) % m != 0,
{
    if (x - y) % m == 0 {
        vstd::arithmetic::div_mod::lemma_fundamental_div_mod(x - y, m);
        let k = (x - y) / m;
        assert(x - y == m * k);
        if k >= 1 {
            assert(m * k >= m) by (nonlinear_arith)
                requires
                    k >= 1,
                    m > 0,
            ;
        } else if k <= -1 {
            assert(m * k <= -m) by (nonlinear_arith)
                requires
                    k <= -1,
                    m > 0,
            ;
        } else {
            assert(m * k == 0) by (nonlinear_arith)
                requires
                    k == 0,
            ;
        }
    }
}

/// A remainder with at most one coefficient is a constant.
proof fn lemma_constant(r: Seq<u64>, x: int)
    requires
        r.len() < 2,
    ensures
        peval(r, x) == (if r.len() == 0 { 0 } else { r[0] as int }),
{
    if r.len() == 1 {
        assert(ev(coef(r), 1, x) == ev(coef(r), 0, x) + coef(r)(0) * power(x, 0));
        assert(power(x, 0) == 1);
    }
}

/// The cofactor `q = master / (z - v_l)` vanishes at every other point and not at `v_l`.
proof fn lemma_cofactor_roots(vals: Seq<u64>, master: Seq<u64>, q: Seq<u64>, r: Seq<u64>, lin: Seq<u64>, l: int, p: u64)
    requires
        prime(p as int),
        distinct_points(vals, p),
        0 <= l < vals.len(),
        forall|z: int| #[trigger] peval(master, z) % (p as int) == basis(vals, vals.len() as int, z) % (p as int),
        q.len() == vals.len(),
        r.len() < 2,
        lin.len() == 2,
        lin[0] == (0 - vals[l]) % (p as int),
        lin[1] == 1,
        forall|x: int| #[trigger] peval(master, x) % (p as int) == (peval(q, x) * peval(lin, x) + peval(r, x)) % (p as int),
    ensures
        forall|k: int| 0 <= k < vals.len() && k != l ==> #[trigger] ev(coef(q), vals.len(), vals[k] as int) % (p as int) == 0,
        ev(coef(q), vals.len(), vals[l] as int) % (p as int) != 0,
{
    let m = p as int;
    let n = vals.len();
    let v = vals[l] as int;
    let c = if r.len() == 0 { 0 } else { r[0] as int };
    // master = q (z - v) + c, and c vanishes because master does at v.
    assert forall|x: int| #[trigger] peval(master, x) % m == (peval(q, x) * (x - v) + c) % m by {
        lemma_constant(r, x);
        lemma_peval_linear(lin, v, x, m);
        lemma_mul_mod_both(peval(q, x), peval(lin, x), peval(q, x), x - v, m);
        crate::arith::lemma_add_mod_both(peval(q, x) * peval(lin, x), peval(r, x), peval(q, x) * (x - v), c, m);
    }
    crate::univariate::lemma_basis_vanishes(vals, n as int, l);
    assert(peval(master, v) % m == (peval(q, v) * (v - v) + c) % m);
    assert(peval(q, v) * (v - v) == 0) by (nonlinear_arith);
    vstd::arithmetic::div_mod::lemma_small_mod(0, m as nat);
    assert(basis(vals, n as int, v) == 0);
    assert(peval(master, v) % m == 0);
    assert(c % m == 0);
    assert forall|x: int| #[trigger] peval(master, x) % m == (peval(q, x) * (x - v)) % m by {
        vstd::arithmetic::div_mod::lemma_small_mod(0, m as nat);
        crate::arith::lemma_add_mod_both(peval(q, x) * (x - v), c, peval(q, x) * (x - v), 0, m);
    }
    assert forall|k: int| 0 <= k < n && k != l implies #[trigger] ev(coef(q), n, vals[k] as int) % m == 0 by {
        let x = vals[k] as int;
        crate::univariate::lemma_basis_vanishes(vals, n as int, k);
        assert(peval(master, x) % m == (peval(q, x) * (x - v)) % m);
        vstd::arithmetic::div_mod::lemma_small_mod(0, m as nat);
        lemma_euclid(peval(q, x), x - v, m);
        lemma_distinct_mod(x, v, m);
    }
    if ev(coef(q), n, v) % m == 0 {
        let rs = vals.map_values(|x: u64| x as int);
        assert forall|i: int, j: int| 0 <= i < j < rs.len() implies (#[trigger] rs[i] - #[trigger] rs[j]) % m != 0 by {
            lemma_distinct_mod(vals[i] as int, vals[j] as int, m);
        }
        assert forall|i: int| 0 <= i < rs.len() implies #[trigger] ev(coef(q), n, rs[i]) % m == 0 by {
            assert(rs[i] == vals[i] as int);
        }
        lemma_many_roots(coef(q), n, rs, m, 0);
        assert(peval(master, 0) % m == (peval(q, 0) * (0 - v)) % m);
        vstd::arithmetic::div_mod::lemma_mul_mod_noop_left(peval(q, 0), 0 - v, m);
        assert((peval(q, 0) % m) * (0 - v) == 0) by (nonlinear_arith)
            requires
                peval(q, 0) % m == 0,
        ;
        vstd::arithmetic::div_mod::lemma_small_mod(0, m as nat);
        assert forall|k: int| 0 <= k < vals.len() implies #[trigger] (vals[k] as int) % m != 0 by {
            vstd::arithmetic::div_mod::lemma_small_mod(vals[k] as nat, m as nat);
        }
        lemma_basis_at_zero(vals, n as int, m);
    }
}

/// With the cofactor vanishing at every point but `v_l`, the entry for `l` comes out as `cs_l`.
proof fn lemma_solve_value(
    vals: Seq<u64>,
    q: Seq<u64>,
    w: Seq<u64>,
    cs: Seq<int>,
    l: int,
    num: int,
    qv: int,
    d: int,
    di: int,
    cl: int,
    p: u64,
)
    requires
        prime(p as int),
        distinct_points(vals, p),
        0 <= l < vals.len(),
        q.len() == vals.len(),
        vandermonde_image(vals, cs, w, p),
        forall|k: int| 0 <= k < vals.len() && k != l ==> #[trigger] ev(coef(q), vals.len(), vals[k] as int) % (p as int) == 0,
        num == dot(q, |j: int| coef(w)(j), vals.len()) % (p as int),
        qv == peval(q, vals[l] as int) % (p as int),
        d == (qv * vals[l]) % (p as int),
        (d * di) % (p as int) == 1,
        cl == (num * di) % (p as int),
    ensures
        cl == cs[l] % (p as int),
{
    let m = p as int;
    let n = vals.len();
    let v = vals[l] as int;
    let wf = |j: int| coef(w)(j);
    let tv = |j: int| vand_sum(cs, vals, j as nat, n);
    assert forall|j: int| 0 <= j < n implies #[trigger] wf(j) % m == tv(j) % m by {
        assert(wf(j) == w[j] as int);
    }
    lemma_dot_mod(q, wf, tv, n, m);
    lemma_dot_vand(q, cs, vals, n, n);
    lemma_weighted_single(q, cs, vals, n, n, l, m);
    let e = ev(coef(q), n, v);
    let x = cs[l] * v * e;
    assert(num == x % m);
    vstd::arithmetic::div_mod::lemma_mod_twice(x, m);
    lemma_mul_mod_both(num, di, x, di, m);
    vstd::arithmetic::div_mod::lemma_mul_mod_noop_left(e, v, m);
    assert(d == (e * v) % m);
    vstd::arithmetic::div_mod::lemma_mod_twice(e * v, m);
    lemma_mul_mod_both(e * v, di, d, di, m);
    vstd::arithmetic::div_mod::lemma_small_mod(1, m as nat);
    lemma_mul_mod_both(cs[l], (e * v) * di, cs[l], 1, m);
    assert(x * di == cs[l] * ((e * v) * di)) by (nonlinear_arith)
        requires
            x == cs[l] * v * e,
    ;
}

/// `prod_l (z - v_l)`.
pub fn master(vals: &[u64], p: u64) -> (r: Dense)
    requires
        residues(vals@, p),
        modulus(p),
        vals.len() + 2 <= usize::MAX,
    ensures
        residues(r@, p),
        r.len() == vals.len() + 1,
        forall|z: int| #[trigger] peval(r@, z) % (p as int) == basis(vals@, vals.len() as int, z) % (p as int),
{
    let ghost m = p as int;
    let mut acc: Dense = vec![1];
    proof {
        assert forall|z: int| #[trigger] peval(acc@, z) % m == basis(vals@, 0, z) % m by {
            assert(peval(acc@, z) == crate::univariate::ev(crate::univariate::coef(acc@), 0, z)
                + 1 * crate::arith::power(z, 0));
            assert(crate::arith::power(z, 0) == 1);
        }
    }
    let mut i: usize = 0;
    while i < vals.len()
        invariant
            i <= vals.len(),
            vals.len() + 2 <= usize::MAX,
            residues(vals@, p),
            modulus(p),
            m == p as int,
            residues(acc@, p),
            acc.len() == i + 1,
            forall|z: int| #[trigger] peval(acc@, z) % m == basis(vals@, i as int, z) % m,
        decreases vals.len() - i,
    {
        assert(vals@[i as int] < p);
        let v = vals[i];
        let nv = crate::modp::sub(0, v, p);
        let lin: [u64; 2] = [nv, 1];
        proof {
            assert(residues(lin@, p));
        }
        let ghost a0 = acc@;
        acc = mul_poly(&acc, &lin, p);
        proof {
            assert forall|z: int| #[trigger] peval(acc@, z) % m == basis(vals@, i as int + 1, z) % m by {
                lemma_peval_linear(lin@, v as int, z, m);
                lemma_mul_mod_both(peval(a0, z), peval(lin@, z), basis(vals@, i as int, z), z - v, m);
            }
        }
        i += 1;
    }
    acc
}

/// Solves for `c` given distinct nonzero `vals` and `w_0..w_(n-1)`, in quadratic time: the
/// cofactor `q = master / (z - v_l)` annihilates every column but the `l`-th. Modulo a prime,
/// with `master` the product of the `z - v_l`, whatever `cs` gives `w` comes back.
pub fn solve(vals: &[u64], master: &[u64], w: &[u64], p: u64) -> (c: Vec<u64>)
    requires
        residues(vals@, p),
        residues(master@, p),
        residues(w@, p),
        modulus(p),
    ensures
        c.len() == vals.len(),
        residues(c@, p),
        prime(p as int) && distinct_points(vals@, p) && master@.len() == vals@.len() + 1 && (forall|z: int|
            #[trigger] peval(master@, z) % (p as int) == basis(vals@, vals@.len() as int, z) % (p as int))
            ==> forall|cs: Seq<int>| #[trigger]
            vandermonde_image(vals@, cs, w@, p) ==> forall|l: int| 0 <= l < c@.len() ==> #[trigger] c@[l] == cs[l] % (p as int),
{
    let ghost m = p as int;
    let ghost law = prime(p as int) && distinct_points(vals@, p) && master@.len() == vals@.len() + 1 && (forall|z: int|
        #[trigger] peval(master@, z) % (p as int) == basis(vals@, vals@.len() as int, z) % (p as int));
    let mut out: Vec<u64> = Vec::new();
    let mut l: usize = 0;
    while l < vals.len()
        invariant
            l <= vals.len(),
            out.len() == l,
            residues(vals@, p),
            residues(master@, p),
            residues(w@, p),
            residues(out@, p),
            modulus(p),
            m == p as int,
            law == (prime(p as int) && distinct_points(vals@, p) && master@.len() == vals@.len() + 1 && (forall|z: int|
                #[trigger] peval(master@, z) % (p as int) == basis(vals@, vals@.len() as int, z) % (p as int))),
            law ==> forall|cs: Seq<int>| #[trigger]
                vandermonde_image(vals@, cs, w@, p) ==> forall|t: int| 0 <= t < l ==> #[trigger] out@[t] == cs[t] % m,
        decreases vals.len() - l,
    {
        assert(vals@[l as int] < p);
        let v = vals[l];
        let nv = crate::modp::sub(0, v, p);
        let lin: [u64; 2] = [nv, 1];
        proof {
            assert(residues(lin@, p));
        }
        let (q, r) = div_rem(master, &lin, p);
        let mut num: u64 = 0;
        let mut j: usize = 0;
        proof {
            vstd::arithmetic::div_mod::lemma_small_mod(0, p as nat);
            assert(dot(q@, |i: int| coef(w@)(i), 0) == 0);
        }
        while j < q.len() && j < w.len()
            invariant
                j <= q.len(),
                j <= w.len(),
                residues(q@, p),
                residues(w@, p),
                modulus(p),
                m == p as int,
                num < p,
                num == dot(q@, |i: int| coef(w@)(i), j as nat) % m,
            decreases q.len() - j,
        {
            assert(q@[j as int] < p && w@[j as int] < p);
            let ghost before = dot(q@, |i: int| coef(w@)(i), j as nat);
            let t = crate::modp::mul(q[j], w[j], p);
            proof {
                let y = q@[j as int] * w@[j as int];
                vstd::arithmetic::div_mod::lemma_mod_twice(before, m);
                vstd::arithmetic::div_mod::lemma_mod_twice(y, m);
                crate::arith::lemma_add_mod_both(num as int, t as int, before, y, m);
                assert(coef(q@)(j as int) * coef(w@)(j as int) == y);
            }
            num = crate::modp::add(num, t, p);
            j += 1;
        }
        let qv = eval(&q, v, p);
        let d = crate::modp::mul(qv, v, p);
        let di = crate::modp::inv(d, p);
        let cl = crate::modp::mul(num, di, p);
        proof {
            if law {
                let n = vals@.len();
                assert(q@.len() == n);
                assert(r@.len() < 2);
                lemma_cofactor_roots(vals@, master@, q@, r@, lin@, l as int, p);
                assert(peval(q@, v as int) == ev(coef(q@), n, v as int));
                if d as int % m == 0 {
                    vstd::arithmetic::div_mod::lemma_small_mod(d as nat, p as nat);
                    vstd::arithmetic::div_mod::lemma_mul_mod_noop_left(peval(q@, v as int), v as int, m);
                    lemma_euclid(peval(q@, v as int), v as int, m);
                    vstd::arithmetic::div_mod::lemma_small_mod(v as nat, p as nat);
                }
                vstd::arithmetic::div_mod::lemma_small_mod(d as nat, p as nat);
                assert forall|cs: Seq<int>| #[trigger] vandermonde_image(vals@, cs, w@, p) implies cl == cs[l as int] % m by {
                    assert(j == n);
                    lemma_solve_value(vals@, q@, w@, cs, l as int, num as int, qv as int, d as int, di as int, cl as int, p);
                }
            }
        }
        let ghost o0 = out@;
        out.push(cl);
        proof {
            assert forall|k: int| 0 <= k < out.len() implies #[trigger] out@[k] < p by {
                if k < l {
                    assert(out@[k] == o0[k]);
                }
            }
            if law {
                assert forall|cs: Seq<int>| #[trigger] vandermonde_image(vals@, cs, w@, p) implies forall|t: int|
                    0 <= t < l + 1 ==> #[trigger] out@[t] == cs[t] % m by {
                    assert forall|t: int| 0 <= t < l + 1 implies #[trigger] out@[t] == cs[t] % m by {
                        if t < l {
                            assert(out@[t] == o0[t]);
                        }
                    }
                }
            }
        }
        l += 1;
    }
    out
}

} // verus!
