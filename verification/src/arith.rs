//! Integer facts behind arithmetic modulo a prime: powers, binomial coefficients, Euclid's
//! lemma and Fermat's little theorem.

use vstd::arithmetic::div_mod::*;
use vstd::arithmetic::mul::*;
use vstd::prelude::*;

verus! {

/// `b^e` over the integers.
pub open spec fn power(b: int, e: nat) -> int
    decreases e,
{
    if e == 0 {
        1
    } else {
        b * power(b, (e - 1) as nat)
    }
}

/// `p` is a prime number.
pub open spec fn prime(p: int) -> bool {
    p >= 2 && forall|d: int| 2 <= d < p ==> #[trigger] (p % d) != 0
}

pub proof fn lemma_power_adds(b: int, e1: nat, e2: nat)
    ensures
        power(b, e1 + e2) == power(b, e1) * power(b, e2),
    decreases e1,
{
    if e1 > 0 {
        lemma_power_adds(b, (e1 - 1) as nat, e2);
        assert(power(b, e1 + e2) == b * power(b, (e1 - 1 + e2) as nat));
        lemma_mul_is_associative(b, power(b, (e1 - 1) as nat), power(b, e2));
    }
}

pub proof fn lemma_power_square(b: int, m: nat)
    ensures
        power(b, 2 * m) == power(b * b, m),
    decreases m,
{
    if m > 0 {
        lemma_power_square(b, (m - 1) as nat);
        assert(power(b, 2 * m) == b * power(b, (2 * m - 1) as nat));
        assert(power(b, (2 * m - 1) as nat) == b * power(b, (2 * (m - 1)) as nat));
        lemma_mul_is_associative(b, b, power(b, (2 * (m - 1)) as nat));
    }
}

pub proof fn lemma_power_nonneg(b: int, e: nat)
    requires
        b >= 0,
    ensures
        power(b, e) >= 0,
    decreases e,
{
    if e > 0 {
        lemma_power_nonneg(b, (e - 1) as nat);
        lemma_mul_nonnegative(b, power(b, (e - 1) as nat));
    }
}

pub proof fn lemma_power_mod_noop(b: int, e: nat, m: int)
    requires
        m > 0,
    ensures
        power(b % m, e) % m == power(b, e) % m,
    decreases e,
{
    if e > 0 {
        lemma_power_mod_noop(b, (e - 1) as nat, m);
        let x = power(b % m, (e - 1) as nat);
        let y = power(b, (e - 1) as nat);
        lemma_mul_mod_noop((b % m), x, m);
        lemma_mul_mod_noop(b, y, m);
        lemma_mod_twice(b, m);
    }
}

pub proof fn lemma_power_one(e: nat)
    ensures
        power(1, e) == 1,
    decreases e,
{
    if e > 0 {
        lemma_power_one((e - 1) as nat);
    }
}

pub proof fn lemma_power_zero(e: nat)
    requires
        e > 0,
    ensures
        power(0, e) == 0,
{
}

/// `(a * b) % m` from any representatives of `a` and `b`.
pub proof fn lemma_mul_mod_both(a: int, b: int, a2: int, b2: int, m: int)
    requires
        m > 0,
        a % m == a2 % m,
        b % m == b2 % m,
    ensures
        (a * b) % m == (a2 * b2) % m,
{
    lemma_mul_mod_noop(a, b, m);
    lemma_mul_mod_noop(a2, b2, m);
}

/// `(a + b) % m` from any representatives of `a` and `b`.
pub proof fn lemma_add_mod_both(a: int, b: int, a2: int, b2: int, m: int)
    requires
        m > 0,
        a % m == a2 % m,
        b % m == b2 % m,
    ensures
        (a + b) % m == (a2 + b2) % m,
{
    lemma_add_mod_noop(a, b, m);
    lemma_add_mod_noop(a2, b2, m);
}

/// `(a - b) % m` from any representatives of `a` and `b`.
pub proof fn lemma_sub_mod_both(a: int, b: int, a2: int, b2: int, m: int)
    requires
        m > 0,
        a % m == a2 % m,
        b % m == b2 % m,
    ensures
        (a - b) % m == (a2 - b2) % m,
{
    lemma_sub_mod_noop(a, b, m);
    lemma_sub_mod_noop(a2, b2, m);
}

/// The binomial coefficient `C(n, k)`, by Pascal's rule.
pub open spec fn binom(n: nat, k: nat) -> nat
    decreases n,
{
    if k == 0 {
        1
    } else if n == 0 {
        0
    } else {
        binom((n - 1) as nat, (k - 1) as nat) + binom((n - 1) as nat, k)
    }
}

/// `sum_{k < m} C(n, k) x^k`.
pub open spec fn binom_sum(n: nat, x: int, m: nat) -> int
    decreases m,
{
    if m == 0 {
        0
    } else {
        binom_sum(n, x, (m - 1) as nat) + binom(n, (m - 1) as nat) * power(x, (m - 1) as nat)
    }
}

proof fn lemma_binom_above(n: nat, k: nat)
    requires
        k > n,
    ensures
        binom(n, k) == 0,
    decreases n,
{
    if n > 0 {
        lemma_binom_above((n - 1) as nat, (k - 1) as nat);
        lemma_binom_above((n - 1) as nat, k);
    }
}

proof fn lemma_binom_diag(n: nat)
    ensures
        binom(n, n) == 1,
    decreases n,
{
    if n > 0 {
        lemma_binom_diag((n - 1) as nat);
        lemma_binom_above((n - 1) as nat, n);
    }
}

proof fn lemma_binom_one(n: nat)
    ensures
        binom(n, 1) == n,
    decreases n,
{
    if n > 0 {
        lemma_binom_one((n - 1) as nat);
        assert(binom(n, 1) == binom((n - 1) as nat, 0) + binom((n - 1) as nat, 1));
    }
}

/// `k C(n, k) = n C(n - 1, k - 1)`.
proof fn lemma_binom_absorb(n: nat, k: nat)
    requires
        n >= 1,
        k >= 1,
    ensures
        k * binom(n, k) == n * binom((n - 1) as nat, (k - 1) as nat),
    decreases n,
{
    let m = (n - 1) as nat;
    let a = binom(m, (k - 1) as nat);
    let b = binom(m, k);
    assert(binom(n, k) == a + b);
    if n == 1 {
        lemma_binom_above(0, k);
        if k > 1 {
            lemma_binom_above(0, (k - 1) as nat);
            assert(k * 0 == 0) by (nonlinear_arith);
        }
    } else {
        lemma_binom_absorb(m, k);
        let d = binom((m - 1) as nat, (k - 1) as nat);
        assert(k * b == m * d);
        if k == 1 {
            lemma_binom_one(m);
            assert(a == 1);
            assert(k * (a + b) == n * a) by (nonlinear_arith)
                requires
                    k == 1,
                    a == 1,
                    b == m,
                    n == m + 1,
            ;
        } else {
            lemma_binom_absorb(m, (k - 1) as nat);
            let c = binom((m - 1) as nat, (k - 2) as nat);
            assert(((k - 1) as nat) * a == m * c);
            assert(a == c + d);
            assert(k * (a + b) == n * a) by (nonlinear_arith)
                requires
                    k * b == m * d,
                    (k - 1) * a == m * c,
                    a == c + d,
                    n == m + 1,
            ;
        }
    }
}

/// `a b = 0 (mod p)` with `0 < a < p` forces `b = 0 (mod p)`.
proof fn lemma_euclid_reduced(a: int, b: int, p: int)
    requires
        prime(p),
        0 < a < p,
        (a * b) % p == 0,
    ensures
        b % p == 0,
    decreases a,
{
    if a > 1 {
        let q = p / a;
        let r = p % a;
        assert(p % a != 0);
        lemma_fundamental_div_mod(p, a);
        lemma_mod_bound(p, a);
        let t = (a * b) / p;
        lemma_fundamental_div_mod(a * b, p);
        assert(r * b == p * (b - q * t)) by (nonlinear_arith)
            requires
                p == a * q + r,
                a * b == p * t,
        ;
        lemma_mod_multiples_basic(b - q * t, p);
        lemma_mul_is_commutative(p, b - q * t);
        assert((r * b) % p == 0);
        assert(0 < r < a);
        lemma_euclid_reduced(r, b, p);
    } else {
        assert(a * b == b) by (nonlinear_arith)
            requires
                a == 1,
        ;
    }
}

/// Euclid's lemma: a prime that divides a product divides a factor.
pub proof fn lemma_euclid(a: int, b: int, p: int)
    requires
        prime(p),
        (a * b) % p == 0,
    ensures
        a % p == 0 || b % p == 0,
{
    if a % p != 0 {
        lemma_mod_bound(a, p);
        lemma_mul_mod_noop_left(a, b, p);
        lemma_euclid_reduced(a % p, b, p);
    }
}

proof fn lemma_binom_prime(p: nat, k: nat)
    requires
        prime(p as int),
        0 < k < p,
    ensures
        (binom(p, k) as int) % (p as int) == 0,
{
    lemma_binom_absorb(p, k);
    let c = binom((p - 1) as nat, (k - 1) as nat);
    lemma_mod_multiples_basic(c as int, p as int);
    lemma_mul_is_commutative(c as int, p as int);
    lemma_euclid(k as int, binom(p, k) as int, p as int);
    lemma_small_mod(k, p);
}

proof fn lemma_binom_sum_step(n: nat, x: int, m: nat)
    ensures
        binom_sum(n + 1, x, m + 1) == binom_sum(n, x, m + 1) + x * binom_sum(n, x, m),
    decreases m,
{
    if m == 0 {
        assert(binom_sum(n + 1, x, 1) == binom_sum(n + 1, x, 0) + binom(n + 1, 0) * power(x, 0));
        assert(binom_sum(n, x, 1) == binom_sum(n, x, 0) + binom(n, 0) * power(x, 0));
        assert(x * binom_sum(n, x, 0) == 0) by (nonlinear_arith)
            requires
                binom_sum(n, x, 0) == 0,
        ;
    } else {
        let m1 = (m - 1) as nat;
        lemma_binom_sum_step(n, x, m1);
        assert(m1 + 1 == m);
        let u = binom_sum(n, x, m1);
        let bl = binom(n, m1) as int;
        let bh = binom(n, m) as int;
        let xm1 = power(x, m1);
        let xm = power(x, m);
        let sn1m = binom_sum(n + 1, x, m);
        let snm = binom_sum(n, x, m);
        assert(xm == x * xm1);
        assert(binom(n + 1, m) == bl + bh);
        assert(binom_sum(n + 1, x, m + 1) == sn1m + binom(n + 1, m) * xm);
        assert(sn1m == snm + x * u);
        assert(snm == u + bl * xm1);
        assert(binom_sum(n, x, m + 1) == snm + bh * xm);
        assert(sn1m + (bl + bh) * xm == (snm + bh * xm) + x * snm) by (nonlinear_arith)
            requires
                xm == x * xm1,
                sn1m == snm + x * u,
                snm == u + bl * xm1,
        ;
    }
}

/// The binomial theorem at `y = 1`: `(x + 1)^n = sum_k C(n, k) x^k`.
pub proof fn lemma_binomial(n: nat, x: int)
    ensures
        binom_sum(n, x, n + 1) == power(x + 1, n),
    decreases n,
{
    if n == 0 {
        assert(binom_sum(0, x, 1) == binom_sum(0, x, 0) + binom(0, 0) * power(x, 0));
    } else {
        let m = (n - 1) as nat;
        lemma_binomial(m, x);
        lemma_binom_sum_step(m, x, n);
        lemma_binom_above(m, n);
        assert(m + 1 == n);
        assert(binom_sum(m, x, n + 1) == binom_sum(m, x, n) + binom(m, n) * power(x, n));
        let s = binom_sum(m, x, n);
        assert(binom_sum(m, x, n + 1) == s) by (nonlinear_arith)
            requires
                binom_sum(m, x, n + 1) == s + binom(m, n) * power(x, n),
                binom(m, n) == 0,
        ;
        assert(power(x + 1, n) == (x + 1) * power(x + 1, m));
        assert(s + x * s == (x + 1) * s) by (nonlinear_arith);
    }
}

proof fn lemma_binom_sum_prime(p: nat, x: int, m: nat)
    requires
        prime(p as int),
        1 <= m <= p,
    ensures
        binom_sum(p, x, m) % (p as int) == 1,
    decreases m,
{
    let pi = p as int;
    lemma_small_mod(1, p);
    if m == 1 {
        assert(binom_sum(p, x, 1) == binom_sum(p, x, 0) + binom(p, 0) * power(x, 0));
        assert(binom_sum(p, x, 1) == 1);
    } else {
        let m1 = (m - 1) as nat;
        lemma_binom_sum_prime(p, x, m1);
        lemma_binom_prime(p, m1);
        let c = binom(p, m1) as int;
        let t = power(x, m1);
        let prev = binom_sum(p, x, m1);
        assert(binom_sum(p, x, m) == prev + c * t);
        lemma_mul_mod_noop_left(c, t, pi);
        assert((c * t) % pi == 0) by {
            assert(c % pi == 0);
            assert((c * t) % pi == ((c % pi) * t) % pi);
            assert((c % pi) * t == 0) by (nonlinear_arith)
                requires
                    c % pi == 0,
            ;
            lemma_small_mod(0, p);
        }
        lemma_add_mod_noop(prev, c * t, pi);
        assert(binom_sum(p, x, m) % pi == (1int + 0int) % pi);
    }
}

/// The freshman's dream: `(x + 1)^p = x^p + 1 (mod p)`.
proof fn lemma_freshman(p: nat, x: int)
    requires
        prime(p as int),
    ensures
        power(x + 1, p) % (p as int) == (power(x, p) + 1) % (p as int),
{
    lemma_binomial(p, x);
    lemma_binom_sum_prime(p, x, p);
    lemma_binom_diag(p);
    assert(binom_sum(p, x, p + 1) == binom_sum(p, x, p) + binom(p, p) * power(x, p));
    lemma_add_mod_noop(binom_sum(p, x, p), power(x, p), p as int);
    lemma_add_mod_noop(1, power(x, p), p as int);
    lemma_small_mod(1, p);
}

/// Fermat: `x^p = x (mod p)`.
pub proof fn lemma_fermat_little(x: nat, p: nat)
    requires
        prime(p as int),
    ensures
        power(x as int, p) % (p as int) == (x as int) % (p as int),
    decreases x,
{
    if x == 0 {
        lemma_power_zero(p);
    } else {
        let y = (x - 1) as nat;
        lemma_fermat_little(y, p);
        lemma_freshman(p, y as int);
        lemma_add_mod_noop(power(y as int, p), 1, p as int);
        lemma_add_mod_noop(y as int, 1, p as int);
    }
}

/// Fermat's inverse: `a a^(p-2) = 1 (mod p)` for `a` not divisible by `p`.
pub proof fn lemma_fermat_inverse(a: nat, p: nat)
    requires
        prime(p as int),
        (a as int) % (p as int) != 0,
    ensures
        (a * power(a as int, (p - 2) as nat)) % (p as int) == 1,
{
    let pi = p as int;
    let e = (p - 2) as nat;
    let u = power(a as int, e);
    lemma_fermat_little(a, p);
    // a^p = a * (a * a^(p-2))
    lemma_power_adds(a as int, 2, e);
    assert(power(a as int, 1) == a * power(a as int, 0));
    assert(power(a as int, 2) == a * power(a as int, 1));
    assert(power(a as int, 2) == a * a);
    lemma_mul_is_associative(a as int, a as int, u);
    let v = a * u;
    // a * v = a (mod p), so a * (v - 1) = 0 (mod p)
    assert(a * (v - 1) == a * v - a) by (nonlinear_arith);
    assert(2 + e == p);
    assert(power(a as int, p) == (a * a) * u);
    assert((a * a) * u == a * v);
    assert((a * v) % pi == (a as int) % pi);
    lemma_sub_mod_noop(a * v, a as int, pi);
    lemma_small_mod(0, p);
    assert((a * v - a) % pi == 0int % pi);
    assert((a * (v - 1)) % pi == 0);
    lemma_euclid(a as int, v - 1, pi);
    lemma_add_mod_noop(v - 1, 1, pi);
    lemma_small_mod(1, p);
}

} // verus!
