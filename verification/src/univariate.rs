//! Dense polynomials over GF(p), coefficient `i` of `x^i`, no trailing zeros.

use crate::arith::{lemma_add_mod_both, lemma_mul_mod_both, power, prime};
use crate::modp::{MAX_MODULUS, inv_spec, modulus};
use vstd::arithmetic::div_mod::{lemma_mod_twice, lemma_small_mod};

use vstd::prelude::*;

verus! {

/// A dense polynomial, coefficient `i` of `x^i`.
pub type Dense = Vec<u64>;

/// `sum_{i < n} f(i) x^i` over the integers.
pub open spec fn ev(f: spec_fn(int) -> int, n: nat, x: int) -> int
    decreases n,
{
    if n == 0 {
        0
    } else {
        ev(f, (n - 1) as nat, x) + f(n - 1) * power(x, (n - 1) as nat)
    }
}

/// The coefficients of `a` as a function of the index, 0 out of range.
pub open spec fn coef(a: Seq<u64>) -> spec_fn(int) -> int {
    |i: int|
        if 0 <= i < a.len() {
            a[i] as int
        } else {
            0
        }
}

/// The value of the polynomial with coefficients `a` at `x`, over the integers.
pub open spec fn peval(a: Seq<u64>, x: int) -> int {
    ev(coef(a), a.len(), x)
}

/// Every coefficient is a residue modulo `p`.
pub open spec fn residues(a: Seq<u64>, p: u64) -> bool {
    forall|i: int| 0 <= i < a.len() ==> #[trigger] a[i] < p
}

/// No trailing zero coefficient.
pub open spec fn trimmed(a: Seq<u64>) -> bool {
    a.len() == 0 || a.last() != 0
}

/// `a` without its trailing zeros.
pub open spec fn trim_spec(a: Seq<u64>) -> Seq<u64>
    decreases a.len(),
{
    if a.len() > 0 && a.last() == 0 {
        trim_spec(a.drop_last())
    } else {
        a
    }
}

/// Sums of equal terms are equal.
pub proof fn lemma_ev_ext(f: spec_fn(int) -> int, g: spec_fn(int) -> int, n: nat, x: int)
    requires
        forall|i: int| 0 <= i < n ==> #[trigger] f(i) == g(i),
    ensures
        ev(f, n, x) == ev(g, n, x),
    decreases n,
{
    if n > 0 {
        lemma_ev_ext(f, g, (n - 1) as nat, x);
    }
}

/// Sums of congruent terms are congruent.
pub proof fn lemma_ev_mod(f: spec_fn(int) -> int, g: spec_fn(int) -> int, n: nat, x: int, m: int)
    requires
        m > 0,
        forall|i: int| 0 <= i < n ==> #[trigger] f(i) % m == g(i) % m,
    ensures
        ev(f, n, x) % m == ev(g, n, x) % m,
    decreases n,
{
    if n > 0 {
        let k = (n - 1) as nat;
        lemma_ev_mod(f, g, k, x, m);
        let xk = power(x, k);
        lemma_mul_mod_both(f(k as int), xk, g(k as int), xk, m);
        lemma_add_mod_both(ev(f, k, x), f(k as int) * xk, ev(g, k, x), g(k as int) * xk, m);
    }
}

/// Terms past the end of the support add nothing.
pub proof fn lemma_ev_zero_tail(f: spec_fn(int) -> int, n: nat, k: nat, x: int)
    requires
        n <= k,
        forall|i: int| n <= i < k ==> #[trigger] f(i) == 0,
    ensures
        ev(f, k, x) == ev(f, n, x),
    decreases k,
{
    if k > n {
        lemma_ev_zero_tail(f, n, (k - 1) as nat, x);
        assert(f(k - 1) == 0);
        assert(f(k - 1) * power(x, (k - 1) as nat) == 0);
    }
}

/// Trailing zeros do not change a polynomial's value.
pub proof fn lemma_trim_eval(a: Seq<u64>, x: int)
    ensures
        peval(trim_spec(a), x) == peval(a, x),
        trim_spec(a).len() <= a.len(),
        trim_spec(a) == a.subrange(0, trim_spec(a).len() as int),
        trimmed(trim_spec(a)),
        forall|i: int| trim_spec(a).len() <= i < a.len() ==> a[i] == 0,
    decreases a.len(),
{
    if a.len() > 0 && a.last() == 0 {
        let b = a.drop_last();
        lemma_trim_eval(b, x);
        let n = b.len();
        lemma_ev_ext(coef(a), coef(b), n, x);
        assert(coef(a)(n as int) == 0);
        assert(coef(a)(n as int) * power(x, n) == 0);
        assert(trim_spec(b) =~= a.subrange(0, trim_spec(b).len() as int));
        assert forall|i: int| trim_spec(a).len() <= i < a.len() implies a[i] == 0 by {
            if i < b.len() {
                assert(a[i] == b[i]);
            }
        }
    } else {
        assert(a =~= a.subrange(0, a.len() as int));
    }
}

/// Removes trailing zeros.
pub fn trim(a: &mut Dense)
    ensures
        final(a)@ == trim_spec(old(a)@),
{
    while a.len() > 0 && a[a.len() - 1] == 0
        invariant
            trim_spec(a@) == trim_spec(old(a)@),
        decreases a.len(),
    {
        a.pop();
    }
}

/// The degree, with 0 for the zero polynomial.
pub fn deg(a: &[u64]) -> (d: usize)
    ensures
        d == (if a.len() == 0 {
            0
        } else {
            a.len() - 1
        }),
{
    a.len().saturating_sub(1)
}

/// `a(x) mod p`, by Horner's rule.
pub fn eval(a: &[u64], x: u64, p: u64) -> (r: u64)
    requires
        residues(a@, p),
        0 < p <= MAX_MODULUS,
    ensures
        r == peval(a@, x as int) % (p as int),
        a.len() > 0 ==> r < p,
{
    let mut acc: u64 = 0;
    let mut i = a.len();
    while i > 0
        invariant
            i <= a.len(),
            residues(a@, p),
            0 < p <= MAX_MODULUS,
            i < a.len() ==> acc < p,
            i == a.len() ==> acc == 0,
            (power(x as int, i as nat) * acc + ev(coef(a@), i as nat, x as int)) % (p as int)
                == peval(a@, x as int) % (p as int),
        decreases i,
    {
        let ghost acc0 = acc as int;
        i -= 1;
        assert(a[i as int] < p);
        let t = crate::modp::mul(acc, x, p);
        acc = crate::modp::add(t, a[i], p);
        proof {
            let m = p as int;
            let xi = power(x as int, i as nat);
            let c = a[i as int] as int;
            let e = ev(coef(a@), i as nat, x as int);
            assert(power(x as int, (i + 1) as nat) == x * xi);
            assert(ev(coef(a@), (i + 1) as nat, x as int) == e + c * xi);
            lemma_mod_twice(acc0 * x, m);
            lemma_add_mod_both(t as int, c, acc0 * x, c, m);
            lemma_mod_twice(t + c, m);
            lemma_mul_mod_both(xi, acc as int, xi, acc0 * x + c, m);
            lemma_add_mod_both(xi * acc, e, xi * (acc0 * x + c), e, m);
            assert(xi * (acc0 * x + c) + e == (x * xi) * acc0 + (e + c * xi)) by (nonlinear_arith);
        }
    }
    proof {
        assert(power(x as int, 0) == 1);
        assert(ev(coef(a@), 0, x as int) == 0);
        if a.len() > 0 {
            lemma_small_mod(acc as nat, p as nat);
        } else {
            lemma_small_mod(0, p as nat);
        }
    }
    acc
}

/// `ev` is additive in its terms.
pub proof fn lemma_ev_add(f: spec_fn(int) -> int, g: spec_fn(int) -> int, n: nat, x: int)
    ensures
        ev(|i: int| f(i) + g(i), n, x) == ev(f, n, x) + ev(g, n, x),
    decreases n,
{
    if n > 0 {
        let k = (n - 1) as nat;
        lemma_ev_add(f, g, k, x);
        let xk = power(x, k);
        assert((f(k as int) + g(k as int)) * xk == f(k as int) * xk + g(k as int) * xk)
            by (nonlinear_arith);
    }
}

/// `ev` is homogeneous in its terms.
pub proof fn lemma_ev_scale(c: int, f: spec_fn(int) -> int, n: nat, x: int)
    ensures
        ev(|i: int| c * f(i), n, x) == c * ev(f, n, x),
    decreases n,
{
    if n > 0 {
        let k = (n - 1) as nat;
        lemma_ev_scale(c, f, k, x);
        let xk = power(x, k);
        let e = ev(f, k, x);
        assert(c * e + (c * f(k as int)) * xk == c * (e + f(k as int) * xk)) by (nonlinear_arith);
    }
}

/// Shifting the terms up by `s` multiplies the value by `x^s`.
pub proof fn lemma_ev_shift(g: spec_fn(int) -> int, s: nat, n: nat, x: int)
    requires
        forall|i: int| i < 0 ==> #[trigger] g(i) == 0,
    ensures
        ev(|i: int| g(i - s), s + n, x) == power(x, s) * ev(g, n, x),
    decreases n,
{
    let h = |i: int| g(i - s);
    if n == 0 {
        assert forall|i: int| 0 <= i < s implies #[trigger] h(i) == 0 by {
            assert(g(i - s) == 0);
        }
        lemma_ev_zero_tail(h, 0, s, x);
        assert(power(x, s) * 0 == 0) by (nonlinear_arith);
    } else {
        let k = (n - 1) as nat;
        lemma_ev_shift(g, s, k, x);
        crate::arith::lemma_power_adds(x, s, k);
        assert((s + n - 1) as nat == s + k);
        assert(h((s + k) as int) == g(k as int));
        let xs = power(x, s);
        let xk = power(x, k);
        let e = ev(g, k, x);
        assert(xs * e + g(k as int) * (xs * xk) == xs * (e + g(k as int) * xk)) by (nonlinear_arith);
    }
}

/// The term `a_j b_(k-j)` of coefficient `k` of `a b`, 0 out of range.
pub open spec fn conv_term(a: Seq<u64>, b: Seq<u64>, k: int, j: int) -> int {
    if 0 <= j < a.len() && 0 <= k - j < b.len() {
        a[j] * b[k - j]
    } else {
        0
    }
}

/// `sum_(j < i) a_j b_(k-j)`.
pub open spec fn conv(a: Seq<u64>, b: Seq<u64>, k: int, i: int) -> int
    decreases i,
{
    if i <= 0 {
        0
    } else {
        conv(a, b, k, i - 1) + conv_term(a, b, k, i - 1)
    }
}

/// Coefficient `k` of `a b` over the integers.
pub open spec fn prod_coef(a: Seq<u64>, b: Seq<u64>, k: int) -> int {
    conv(a, b, k, a.len() as int)
}

/// The product's value over the integers is the product of the values.
pub proof fn lemma_prod_eval(a: Seq<u64>, b: Seq<u64>, i: nat, x: int)
    requires
        b.len() > 0,
        i <= a.len(),
    ensures
        ev(|k: int| conv(a, b, k, i as int), (a.len() + b.len() - 1) as nat, x) == ev(
            coef(a),
            i,
            x,
        ) * peval(b, x),
    decreases i,
{
    let n = (a.len() + b.len() - 1) as nat;
    if i == 0 {
        lemma_ev_ext(|k: int| conv(a, b, k, 0), |k: int| 0int, n, x);
        lemma_ev_zero_tail(|k: int| 0int, 0, n, x);
        assert(0 * peval(b, x) == 0) by (nonlinear_arith);
    } else {
        let j = (i - 1) as nat;
        lemma_prod_eval(a, b, j, x);
        let prev = |k: int| conv(a, b, k, j as int);
        let term = |k: int| conv_term(a, b, k, j as int);
        let cb = coef(b);
        let sh = |k: int| cb(k - j);
        let c = a[j as int] as int;
        lemma_ev_ext(|k: int| conv(a, b, k, i as int), |k: int| prev(k) + term(k), n, x);
        lemma_ev_add(prev, term, n, x);
        lemma_ev_ext(term, |k: int| c * sh(k), n, x);
        lemma_ev_scale(c, sh, n, x);
        lemma_ev_zero_tail(sh, j + b.len(), n, x);
        lemma_ev_shift(cb, j, b.len(), x);
        let xj = power(x, j);
        let pb = peval(b, x);
        let ea = ev(coef(a), j, x);
        assert(ev(coef(a), i, x) == ea + c * xj);
        assert(ea * pb + c * (xj * pb) == (ea + c * xj) * pb) by (nonlinear_arith);
    }
}

/// `a b` over GF(p).
pub fn mul_poly(a: &[u64], b: &[u64], p: u64) -> (r: Dense)
    requires
        residues(a@, p),
        residues(b@, p),
        0 < p <= MAX_MODULUS,
        a.len() + b.len() <= usize::MAX,
    ensures
        residues(r@, p),
        a.len() == 0 || b.len() == 0 ==> r.len() == 0,
        a.len() > 0 && b.len() > 0 ==> r.len() == a.len() + b.len() - 1,
        forall|k: int| 0 <= k < r.len() ==> #[trigger] r@[k] == prod_coef(a@, b@, k) % (p as int),
        forall|x: int| #[trigger] peval(r@, x) % (p as int) == (peval(a@, x) * peval(b@, x)) % (p as int),
{
    if a.len() == 0 || b.len() == 0 {
        proof {
            assert forall|x: int| #[trigger] peval(Seq::<u64>::empty(), x) % (p as int) == (peval(a@, x) * peval(b@, x)) % (p as int) by {
                assert(peval(a@, x) * peval(b@, x) == 0) by (nonlinear_arith)
                    requires
                        peval(a@, x) == 0 || peval(b@, x) == 0,
                ;
                lemma_small_mod(0, p as nat);
            }
        }
        return Vec::new();
    }
    let n = a.len() + b.len() - 1;
    let mut r: Vec<u64> = vec![0; n];
    let mut i: usize = 0;
    while i < a.len()
        invariant
            i <= a.len(),
            r.len() == n,
            n == a.len() + b.len() - 1,
            b.len() > 0,
            residues(a@, p),
            residues(b@, p),
            0 < p <= MAX_MODULUS,
            residues(r@, p),
            forall|k: int| 0 <= k < n ==> #[trigger] r@[k] == conv(a@, b@, k, i as int) % (p as int),
        decreases a.len() - i,
    {
        let mut j: usize = 0;
        while j < b.len()
            invariant
                i < a.len(),
                j <= b.len(),
                r.len() == n,
                n == a.len() + b.len() - 1,
                residues(a@, p),
                residues(b@, p),
                0 < p <= MAX_MODULUS,
                residues(r@, p),
                forall|k: int|
                    0 <= k < n ==> #[trigger] r@[k] == (conv(a@, b@, k, i as int) + (if i <= k < i
                        + j {
                        conv_term(a@, b@, k, i as int)
                    } else {
                        0
                    })) % (p as int),
            decreases b.len() - j,
        {
            assert(a@[i as int] < p && b@[j as int] < p);
            let t = crate::modp::mul(a[i], b[j], p);
            let ghost old_r = r@;
            let v = crate::modp::add(r[i + j], t, p);
            r.set(i + j, v);
            proof {
                let m = p as int;
                let k = (i + j) as int;
                assert(conv_term(a@, b@, k, i as int) == a[i as int] * b[j as int]);
                lemma_mod_twice(conv(a@, b@, k, i as int), m);
                lemma_mod_twice(a[i as int] * b[j as int], m);
                lemma_add_mod_both(
                    old_r[k] as int,
                    t as int,
                    conv(a@, b@, k, i as int),
                    a[i as int] * b[j as int],
                    m,
                );
                assert forall|k2: int| 0 <= k2 < n implies #[trigger] r@[k2] == (conv(a@, b@, k2, i as int) + (if i <= k2 < i + j + 1 {
                    conv_term(a@, b@, k2, i as int)
                } else {
                    0
                })) % m by {
                    if k2 != k {
                        assert(r@[k2] == old_r[k2]);
                        if k2 < i || k2 >= i + j + 1 {
                        } else {
                        }
                    }
                }
            }
            j += 1;
        }
        proof {
            assert forall|k: int| 0 <= k < n implies #[trigger] r@[k] == conv(a@, b@, k, i + 1) % (p as int) by {
                if !(i <= k < i + b.len()) {
                    assert(conv_term(a@, b@, k, i as int) == 0);
                }
            }
        }
        i += 1;
    }
    proof {
        let m = p as int;
        assert forall|x: int| #[trigger] peval(r@, x) % m == (peval(a@, x) * peval(b@, x)) % m by {
            lemma_prod_eval(a@, b@, a.len() as nat, x);
            assert forall|k: int| 0 <= k < n implies #[trigger] coef(r@)(k) % m == (|k: int| conv(a@, b@, k, a.len() as int))(k) % m by {
                lemma_mod_twice(conv(a@, b@, k, a.len() as int), m);
            }
            lemma_ev_mod(coef(r@), |k: int| conv(a@, b@, k, a.len() as int), n as nat, x, m);
        }
    }
    r
}

/// Setting a zero coefficient `q_i` to `c` adds `c b_(k-i)` to every coefficient of `q b`.
pub proof fn lemma_conv_set(q: Seq<u64>, b: Seq<u64>, i: int, c: u64, k: int, m: int)
    requires
        0 <= i < q.len(),
        q[i] == 0,
    ensures
        conv(q.update(i, c), b, k, m) == conv(q, b, k, m) + (if i < m && 0 <= k - i < b.len() {
            c * b[k - i]
        } else {
            0
        }),
    decreases m,
{
    if m > 0 {
        lemma_conv_set(q, b, i, c, k, m - 1);
        if m - 1 == i && 0 <= k - i < b.len() {
            assert(conv_term(q, b, k, i) == 0 * b[k - i]);
            assert(0 * b[k - i] == 0) by (nonlinear_arith);
        }
    }
}

/// A zero polynomial times anything is zero.
pub proof fn lemma_conv_zero(q: Seq<u64>, b: Seq<u64>, k: int, m: int)
    requires
        forall|j: int| 0 <= j < q.len() ==> #[trigger] q[j] == 0,
    ensures
        conv(q, b, k, m) == 0,
    decreases m,
{
    if m > 0 {
        lemma_conv_zero(q, b, k, m - 1);
        if 0 <= m - 1 < q.len() && 0 <= k - (m - 1) < b.len() {
            assert(q[m - 1] == 0);
            assert(0 * b[k - (m - 1)] == 0) by (nonlinear_arith);
        }
    }
}

/// `q` and `r` with `a = q b + r` coefficientwise modulo `p`.
pub open spec fn divides_with(a: Seq<u64>, b: Seq<u64>, q: Seq<u64>, r: Seq<u64>, p: int) -> bool {
    forall|k: int|
        0 <= k < a.len() ==> #[trigger] (a[k] as int) % p == (prod_coef(q, b, k) + coef(r)(k))
            % p
}

/// Division with remainder by `b`, whose leading coefficient must be invertible for the
/// remainder to drop below `b`'s degree.
pub fn div_rem(a: &[u64], b: &[u64], p: u64) -> (qr: (Dense, Dense))
    requires
        residues(a@, p),
        residues(b@, p),
        b.len() > 0,
        modulus(p),
    ensures
        residues(qr.0@, p),
        residues(qr.1@, p),
        a.len() < b.len() ==> qr.0@.len() == 0 && qr.1@ == a@,
        a.len() >= b.len() ==> qr.0@.len() == a.len() - b.len() + 1 && trimmed(qr.1@)
            && qr.1@.len() <= a.len(),
        divides_with(a@, b@, qr.0@, qr.1@, p as int),
        prime(p as int) && b@.last() != 0 ==> qr.1@.len() < b.len(),
        forall|x: int| #[trigger] peval(a@, x) % (p as int) == (peval(qr.0@, x) * peval(b@, x) + peval(qr.1@, x)) % (p as int),
{
    let mut r = vstd::slice::slice_to_vec(a);
    let ghost m = p as int;
    let bl = b.len();
    if r.len() < bl {
        proof {
            assert forall|k: int| 0 <= k < a.len() implies #[trigger] (a@[k] as int) % m == (prod_coef(Seq::<u64>::empty(), b@, k) + coef(r@)(k)) % m by {}
            assert forall|x: int| #[trigger] peval(a@, x) % m == (peval(Seq::<u64>::empty(), x) * peval(b@, x) + peval(r@, x)) % m by {
                assert(peval(Seq::<u64>::empty(), x) * peval(b@, x) == 0) by (nonlinear_arith)
                    requires peval(Seq::<u64>::empty(), x) == 0;
            }
        }
        return (Vec::new(), r);
    }
    assert(b@[bl - 1] < p);
    let lead = crate::modp::inv(b[bl - 1], p);
    let ql = r.len() - bl + 1;
    let mut q: Vec<u64> = vec![0; ql];
    let ghost good = prime(p as int) && b@.last() != 0;
    proof {
        if good {
            lemma_small_mod(b@.last() as nat, p as nat);
        }
        assert forall|k: int| 0 <= k < a.len() implies #[trigger] (a@[k] as int) % m == (prod_coef(q@, b@, k) + r@[k]) % m by {
            lemma_conv_zero(q@, b@, k, q@.len() as int);
        }
    }
    let mut i = ql;
    while i > 0
        invariant
            i <= ql,
            ql == a.len() - bl + 1,
            bl == b.len(),
            bl > 0,
            q.len() == ql,
            r.len() == a.len(),
            residues(a@, p),
            residues(b@, p),
            residues(r@, p),
            residues(q@, p),
            modulus(p),
            m == p as int,
            lead < p,
            good == (prime(p as int) && b@.last() != 0),
            good ==> (b@.last() * lead) % m == 1,
            forall|j: int| 0 <= j < i ==> #[trigger] q@[j] == 0,
            forall|k: int| 0 <= k < a.len() ==> #[trigger] (a@[k] as int) % m == (prod_coef(q@, b@, k) + r@[k]) % m,
            good ==> forall|k: int| i + bl - 1 <= k < a.len() ==> #[trigger] r@[k] == 0,
        decreases i,
    {
        i -= 1;
        assert(r@[(i + bl - 1) as int] < p);
        let top = r[i + bl - 1];
        let c = crate::modp::mul(top, lead, p);
        let ghost q0 = q@;
        let ghost r0 = r@;
        q.set(i, c);
        proof {
            assert forall|k: int| 0 <= k < a.len() implies #[trigger] prod_coef(q@, b@, k) == prod_coef(q0, b@, k) + (if 0 <= k - i < bl {
                c * b@[k - i]
            } else {
                0
            }) by {
                lemma_conv_set(q0, b@, i as int, c, k, q0.len() as int);
            }
        }
        let mut j: usize = 0;
        while j < bl
            invariant
                i < ql,
                ql == a.len() - bl + 1,
                bl == b.len(),
                j <= bl,
                q.len() == ql,
                r.len() == a.len(),
                r0.len() == a.len(),
                residues(b@, p),
                residues(r@, p),
                modulus(p),
                m == p as int,
                c < p,
                forall|k: int| 0 <= k < a.len() ==> #[trigger] r@[k] == (if i <= k < i + j {
                    ((r0[k] as int) - c * b@[k - i]) % m
                } else {
                    r0[k] as int
                }),
            decreases bl - j,
        {
            assert(b@[j as int] < p && r@[(i + j) as int] < p);
            let t = crate::modp::mul(c, b[j], p);
            let v = crate::modp::sub(r[i + j], t, p);
            let ghost rj = r@;
            r.set(i + j, v);
            proof {
                let k = (i + j) as int;
                lemma_mod_twice(c * b@[j as int], m);
                crate::arith::lemma_sub_mod_both(r0[k] as int, t as int, r0[k] as int, c * b@[j as int], m);
                assert forall|k2: int| 0 <= k2 < a.len() implies #[trigger] r@[k2] == (if i <= k2 < i + j + 1 {
                    ((r0[k2] as int) - c * b@[k2 - i]) % m
                } else {
                    r0[k2] as int
                }) by {
                    if k2 != k {
                        assert(r@[k2] == rj[k2]);
                    }
                }
            }
            j += 1;
        }
        proof {
            assert forall|k: int| 0 <= k < a.len() implies #[trigger] (a@[k] as int) % m == (prod_coef(q@, b@, k) + r@[k]) % m by {
                let pc = prod_coef(q0, b@, k);
                if i <= k < i + bl {
                    let d = c * b@[k - i];
                    lemma_mod_twice((r0[k] as int) - d, m);
                    lemma_add_mod_both(pc + d, r@[k] as int, pc + d, (r0[k] as int) - d, m);
                    assert(pc + d + ((r0[k] as int) - d) == pc + r0[k]);
                } else {
                }
            }
            assert forall|j: int| 0 <= j < i implies #[trigger] q@[j] == 0 by {
                assert(q@[j] == q0[j]);
            }
            if good {
                let k = (i + bl - 1) as int;
                // the top coefficient cancels: r - (r lead) b_last = r (1 - lead b_last) = 0
                let tv = top as int;
                let bv = b@[bl - 1] as int;
                lemma_mod_twice(tv * (lead as int), m);
                lemma_mul_mod_both(c as int, bv, tv * (lead as int), bv, m);
                assert(tv * (lead as int) * bv == tv * (bv * (lead as int))) by (nonlinear_arith);
                lemma_small_mod(1, p as nat);
                lemma_mul_mod_both(tv, bv * (lead as int), tv, 1, m);
                lemma_mod_twice(c * bv, m);
                crate::arith::lemma_sub_mod_both(tv, c * bv, tv, tv, m);
                lemma_small_mod(0, p as nat);
                assert(r@[k] == 0);
            }
        }
    }
    let ghost untrimmed = r@;
    trim(&mut r);
    proof {
        lemma_trim_eval(untrimmed, 0);
        let rt = r@;
        assert forall|k: int| 0 <= k < a.len() implies #[trigger] (a@[k] as int) % m == (prod_coef(q@, b@, k) + coef(rt)(k)) % m by {
            if k >= rt.len() {
                assert(untrimmed[k] == 0);
            } else {
                assert(rt[k] == untrimmed[k]);
            }
        }
        assert forall|x: int| #[trigger] peval(a@, x) % m == (peval(q@, x) * peval(b@, x) + peval(rt, x)) % m by {
            let n = a.len() as nat;
            lemma_prod_eval(q@, b@, q@.len() as nat, x);
            lemma_trim_eval(untrimmed, x);
            let pf = |k: int| conv(q@, b@, k, q@.len() as int);
            lemma_ev_add(pf, coef(rt), n, x);
            lemma_ev_zero_tail(coef(rt), rt.len(), n, x);
            lemma_ev_mod(coef(a@), |k: int| pf(k) + coef(rt)(k), n, x, m);
        }
    }
    (q, r)
}

/// `a` scaled to leading coefficient 1 (left alone if zero).
pub fn monic(a: Dense, p: u64) -> (r: Dense)
    requires
        residues(a@, p),
        modulus(p),
    ensures
        r.len() == a.len(),
        residues(r@, p),
        a.len() > 0 ==> forall|i: int|
            0 <= i < a.len() ==> #[trigger] r@[i] == (a@[i] * inv_spec(a@.last() as int, p as int))
                % (p as int),
        a.len() > 0 && prime(p as int) && a@.last() != 0 ==> r@.last() == 1,
{
    let mut a = a;
    let n = a.len();
    if n == 0 {
        return a;
    }
    let ghost a0 = a@;
    let last = a[n - 1];
    assert(a0[n - 1] < p);
    let l = crate::modp::inv(last, p);
    proof {
        if prime(p as int) && last != 0 {
            lemma_small_mod(last as nat, p as nat);
        }
    }
    let mut i: usize = 0;
    while i < n
        invariant
            n == a.len(),
            n == a0.len(),
            n > 0,
            i <= n,
            last == a0[n - 1],
            l == inv_spec(last as int, p as int),
            l < p,
            modulus(p),
            residues(a0, p),
            residues(a@, p),
            prime(p as int) && last != 0 ==> (last * l) % (p as int) == 1,
            forall|j: int| 0 <= j < i ==> #[trigger] a@[j] == (a0[j] * l) % (p as int),
            forall|j: int| i <= j < n ==> #[trigger] a@[j] == a0[j],
        decreases n - i,
    {
        let v = crate::modp::mul(a[i], l, p);
        a.set(i, v);
        i += 1;
    }
    a
}

/// `z` is a root of `a` modulo `p`.
pub open spec fn root(a: Seq<u64>, z: int, p: u64) -> bool {
    peval(a, z) % (p as int) == 0
}

/// A step of Euclid's algorithm keeps the common roots: `x = q y + r` at `z`.
proof fn lemma_euclid_step(x: int, y: int, q: int, r: int, m: int)
    requires
        m > 0,
        x % m == (q * y + r) % m,
    ensures
        (y % m == 0 && r % m == 0) == (x % m == 0 && y % m == 0),
{
    if y % m == 0 {
        vstd::arithmetic::div_mod::lemma_mul_mod_noop_right(q, y, m);
        assert(q * (y % m) == 0) by (nonlinear_arith)
            requires
                y % m == 0,
        ;
        vstd::arithmetic::div_mod::lemma_add_mod_noop(q * y, r, m);
        lemma_mod_twice(r, m);
    }
}

/// Scaling to leading coefficient one keeps the roots modulo a prime.
proof fn lemma_monic_roots(x: Seq<u64>, g: Seq<u64>, p: u64, z: int)
    requires
        prime(p as int),
        residues(x, p),
        x.len() > 0,
        x.last() != 0,
        g.len() == x.len(),
        forall|i: int| 0 <= i < x.len() ==> #[trigger] g[i] == (x[i] * inv_spec(x.last() as int, p as int)) % (p as int),
    ensures
        root(g, z, p) == root(x, z, p),
{
    let m = p as int;
    let last = x.last() as int;
    let l = inv_spec(last, m);
    let n = x.len();
    assert(last < m);
    lemma_small_mod(last as nat, p as nat);
    crate::arith::lemma_fermat_inverse(last as nat, p as nat);
    vstd::arithmetic::div_mod::lemma_mul_mod_noop_right(last, power(last, (m - 2) as nat), m);
    assert((last * l) % m == 1);
    let sx = |i: int| l * coef(x)(i);
    assert forall|i: int| 0 <= i < n implies #[trigger] coef(g)(i) % m == sx(i) % m by {
        lemma_mod_twice(x[i] * l, m);
        assert(x[i] * l == l * x[i]) by (nonlinear_arith);
    }
    lemma_ev_mod(coef(g), sx, n, z, m);
    lemma_ev_scale(l, coef(x), n, z);
    let v = peval(x, z);
    assert(peval(g, z) % m == (l * v) % m);
    if v % m == 0 {
        vstd::arithmetic::div_mod::lemma_mul_mod_noop_right(l, v, m);
        assert(l * (v % m) == 0) by (nonlinear_arith)
            requires
                v % m == 0,
        ;
    }
    if (l * v) % m == 0 {
        crate::arith::lemma_euclid(l, v, m);
        if l % m == 0 {
            vstd::arithmetic::div_mod::lemma_mul_mod_noop_right(last, l, m);
            assert(last * (l % m) == 0) by (nonlinear_arith)
                requires
                    l % m == 0,
            ;
        }
    }
}

/// The monic gcd by Euclid's algorithm; the gcd of two zeros is zero. Modulo a prime its roots
/// are the common roots of `a` and `b`.
pub fn gcd(a: &[u64], b: &[u64], p: u64) -> (g: Dense)
    requires
        residues(a@, p),
        residues(b@, p),
        trimmed(a@),
        trimmed(b@),
        modulus(p),
    ensures
        residues(g@, p),
        g.len() == 0 <==> a.len() == 0 && b.len() == 0,
        prime(p as int) ==> trimmed(g@),
        prime(p as int) && g.len() > 0 ==> g@.last() == 1,
        prime(p as int) ==> forall|z: int| #[trigger] root(g@, z, p) <==> (root(a@, z, p) && root(b@, z, p)),
{
    let mut x = vstd::slice::slice_to_vec(a);
    let mut y = vstd::slice::slice_to_vec(b);
    while y.len() > 0
        invariant
            residues(x@, p),
            residues(y@, p),
            trimmed(x@),
            trimmed(y@),
            modulus(p),
            (a.len() == 0 && b.len() == 0) ==> x.len() == 0 && y.len() == 0,
            (a.len() > 0 || b.len() > 0) ==> (x.len() > 0 || y.len() > 0),
            prime(p as int) ==> forall|z: int| #[trigger] root(x@, z, p) && root(y@, z, p) <==> (root(a@, z, p) && root(b@, z, p)),
        decreases y.len(),
    {
        let (q, r) = div_rem(&x, &y, p);
        proof {
            if prime(p as int) {
                assert forall|z: int| #[trigger] root(y@, z, p) && root(r@, z, p) <==> (root(a@, z, p) && root(b@, z, p)) by {
                    lemma_euclid_step(peval(x@, z), peval(y@, z), peval(q@, z), peval(r@, z), p as int);
                    assert(root(x@, z, p) && root(y@, z, p) <==> (root(a@, z, p) && root(b@, z, p)));
                }
            }
        }
        x = y;
        // Over a field the remainder is shorter; a modulus that is not prime ends here.
        y = if r.len() < x.len() {
            r
        } else {
            Vec::new()
        };
    }
    let g = monic(x, p);
    proof {
        if prime(p as int) && g.len() > 0 {
            assert(g@.last() == 1);
        }
        if prime(p as int) {
            assert forall|z: int| #[trigger] root(g@, z, p) <==> (root(a@, z, p) && root(b@, z, p)) by {
                assert(root(x@, z, p) && root(y@, z, p) <==> (root(a@, z, p) && root(b@, z, p)));
                assert(peval(y@, z) == 0);
                if x@.len() > 0 {
                    lemma_monic_roots(x@, g@, p, z);
                    assert(root(g@, z, p) == root(x@, z, p));
                } else {
                    assert(peval(g@, z) == 0);
                    assert(peval(x@, z) == 0);
                }
                assert(peval(y@, z) == 0);
                lemma_small_mod(0, p as nat);
            }
        }
    }
    g
}

/// Changing the constant term changes the value by the difference.
pub proof fn lemma_ev_update_0(f: spec_fn(int) -> int, g: spec_fn(int) -> int, n: nat, x: int)
    requires
        n >= 1,
        forall|i: int| 1 <= i < n ==> #[trigger] f(i) == g(i),
    ensures
        ev(g, n, x) == ev(f, n, x) + (g(0) - f(0)),
    decreases n,
{
    if n == 1 {
        assert(power(x, 0) == 1);
        assert(ev(g, 1, x) == ev(g, 0, x) + g(0) * power(x, 0));
        assert(ev(f, 1, x) == ev(f, 0, x) + f(0) * power(x, 0));
    } else {
        lemma_ev_update_0(f, g, (n - 1) as nat, x);
        assert(f(n - 1) == g(n - 1));
    }
}

/// `prod_(j < i) (z - xs_j)`, the Newton basis polynomial at `z`.
pub open spec fn basis(xs: Seq<u64>, i: int, z: int) -> int
    decreases i,
{
    if i <= 0 {
        1
    } else {
        basis(xs, i - 1, z) * (z - xs[i - 1])
    }
}

/// `sum_(j < i) cs_j prod_(l < j) (z - xs_l)`: the Newton form summed from the bottom.
pub open spec fn newton_sum(xs: Seq<u64>, cs: Seq<u64>, i: int, z: int) -> int
    decreases i,
{
    if i <= 0 {
        0
    } else {
        newton_sum(xs, cs, i - 1, z) + cs[i - 1] * basis(xs, i - 1, z)
    }
}

/// `cs_i + (z - xs_i) (cs_(i+1) + (z - xs_(i+1)) (...))`: the Newton form nested from `i`.
pub open spec fn newton_nested(xs: Seq<u64>, cs: Seq<u64>, i: int, z: int) -> int
    decreases cs.len() - i,
{
    if i >= cs.len() || i < 0 {
        0
    } else {
        cs[i] + (z - xs[i]) * newton_nested(xs, cs, i + 1, z)
    }
}

/// The two ways of summing the Newton form agree.
pub proof fn lemma_newton_forms(xs: Seq<u64>, cs: Seq<u64>, i: int, z: int)
    requires
        0 <= i <= cs.len(),
    ensures
        newton_sum(xs, cs, cs.len() as int, z) == newton_sum(xs, cs, i, z) + basis(xs, i, z)
            * newton_nested(xs, cs, i, z),
    decreases cs.len() - i,
{
    if i < cs.len() {
        lemma_newton_forms(xs, cs, i + 1, z);
        let b = basis(xs, i, z);
        let d = z - xs[i];
        let nn = newton_nested(xs, cs, i + 1, z);
        assert(b * (cs[i] + d * nn) == cs[i] * b + (b * d) * nn) by (nonlinear_arith);
    } else {
        assert(basis(xs, i, z) * 0 == 0) by (nonlinear_arith);
    }
}

/// The basis only depends on the points below `i`.
proof fn lemma_basis_prefix(xs: Seq<u64>, ys: Seq<u64>, i: int, z: int)
    requires
        0 <= i <= xs.len(),
        i <= ys.len(),
        forall|j: int| 0 <= j < i ==> #[trigger] xs[j] == ys[j],
    ensures
        basis(xs, i, z) == basis(ys, i, z),
    decreases i,
{
    if i > 0 {
        lemma_basis_prefix(xs, ys, i - 1, z);
    }
}

/// The Newton sum only depends on the terms below `i`.
proof fn lemma_newton_sum_prefix(xs: Seq<u64>, cs: Seq<u64>, ys: Seq<u64>, ds: Seq<u64>, i: int, z: int)
    requires
        0 <= i <= xs.len(),
        i <= ys.len(),
        i <= cs.len(),
        i <= ds.len(),
        forall|j: int| 0 <= j < i ==> #[trigger] xs[j] == ys[j],
        forall|j: int| 0 <= j < i ==> #[trigger] cs[j] == ds[j],
    ensures
        newton_sum(xs, cs, i, z) == newton_sum(ys, ds, i, z),
    decreases i,
{
    if i > 0 {
        lemma_newton_sum_prefix(xs, cs, ys, ds, i - 1, z);
        lemma_basis_prefix(xs, ys, i - 1, z);
    }
}

/// The basis vanishes at every point below `i`.
pub proof fn lemma_basis_vanishes(xs: Seq<u64>, i: int, k: int)
    requires
        0 <= k < i <= xs.len(),
    ensures
        basis(xs, i, xs[k] as int) == 0,
    decreases i,
{
    if i - 1 > k {
        lemma_basis_vanishes(xs, i - 1, k);
        assert(0 * (xs[k] - xs[i - 1]) == 0) by (nonlinear_arith);
    } else {
        assert(basis(xs, i - 1, xs[k] as int) * 0 == 0) by (nonlinear_arith);
    }
}

/// At a point apart from all of `xs` the basis is a unit modulo a prime.
proof fn lemma_basis_unit(xs: Seq<u64>, i: int, z: int, p: int)
    requires
        prime(p),
        0 <= i <= xs.len(),
        forall|j: int| 0 <= j < i ==> (z - #[trigger] xs[j]) % p != 0,
    ensures
        basis(xs, i, z) % p != 0,
    decreases i,
{
    if i > 0 {
        lemma_basis_unit(xs, i - 1, z, p);
        assert((z - xs[i - 1]) % p != 0);
        if basis(xs, i, z) % p == 0 {
            crate::arith::lemma_euclid(basis(xs, i - 1, z), z - xs[i - 1], p);
        }
    } else {
        lemma_small_mod(1, p as nat);
    }
}

/// Newton's divided differences, one point at a time, at distinct abscissae.
#[derive(Clone, Debug)]
pub struct Newton {
    xs: Vec<u64>,
    cs: Vec<u64>,
}

impl Default for Newton {
    fn default() -> (r: Self)
        ensures
            r.xs() == Seq::<u64>::empty(),
            r.cs() == Seq::<u64>::empty(),
    {
        Newton { xs: Vec::new(), cs: Vec::new() }
    }
}

impl Newton {
    /// The abscissae added so far.
    pub closed spec fn xs(&self) -> Seq<u64> {
        self.xs@
    }

    /// The divided differences, one per abscissa.
    pub closed spec fn cs(&self) -> Seq<u64> {
        self.cs@
    }

    /// The value of the interpolant at `z`, over the integers.
    pub open spec fn value(&self, z: int) -> int {
        newton_nested(self.xs(), self.cs(), 0, z)
    }

    /// Well formed modulo `p`: one coefficient per point, all residues.
    pub open spec fn wf(&self, p: u64) -> bool {
        &&& self.xs().len() == self.cs().len()
        &&& residues(self.xs(), p)
        &&& residues(self.cs(), p)
    }

    /// Adds `(x, y)`, returning `false` when the interpolant already passed through it.
    pub fn add(&mut self, x: u64, y: u64, p: u64) -> (changed: bool)
        requires
            old(self).wf(p),
            x < p,
            y < p,
            modulus(p),
            old(self).xs().len() < usize::MAX,
        ensures
            final(self).wf(p),
            final(self).xs() == old(self).xs().push(x),
            final(self).cs().len() == old(self).cs().len() + 1,
            final(self).cs().subrange(0, old(self).cs().len() as int) == old(self).cs(),
            ({
                let n = old(self).xs().len() as int;
                let c = final(self).cs().last();
                let v = newton_sum(old(self).xs(), old(self).cs(), n, x as int) % (p as int);
                let w = basis(old(self).xs(), n, x as int) % (p as int);
                c == ((y - v) * inv_spec(w, p as int)) % (p as int)
            }),
            changed == (final(self).cs().last() != 0),
            forall|z: int| #[trigger] final(self).value(z) == old(self).value(z) + final(self).cs().last()
                * basis(old(self).xs(), old(self).xs().len() as int, z),
            prime(p as int) && !old(self).xs().contains(x) ==> final(self).value(x as int) % (p as int) == y as int,
            prime(p as int) && !old(self).xs().contains(x) ==> (changed <==> old(self).value(x as int) % (p as int) != y as int),
            forall|k: int| 0 <= k < old(self).xs().len() ==> #[trigger] final(self).value(old(self).xs()[k] as int) == old(self).value(old(self).xs()[k] as int),
    {
        let ghost xs0 = self.xs@;
        let ghost cs0 = self.cs@;
        let ghost m = p as int;
        let n = self.xs.len();
        let mut v: u64 = 0;
        let mut w: u64 = 1;
        let mut i: usize = 0;
        proof {
            lemma_small_mod(0, p as nat);
            lemma_small_mod(1, p as nat);
        }
        while i < n
            invariant
                n == self.xs.len(),
                n == self.cs.len(),
                self.xs@ == xs0,
                self.cs@ == cs0,
                residues(xs0, p),
                residues(cs0, p),
                x < p,
                modulus(p),
                m == p as int,
                i <= n,
                v < p,
                w < p,
                v == newton_sum(xs0, cs0, i as int, x as int) % m,
                w == basis(xs0, i as int, x as int) % m,
            decreases n - i,
        {
            assert(self.cs@[i as int] < p && self.xs@[i as int] < p);
            let cw = crate::modp::mul(self.cs[i], w, p);
            let v2 = crate::modp::add(v, cw, p);
            let d = crate::modp::sub(x, self.xs[i], p);
            let w2 = crate::modp::mul(w, d, p);
            proof {
                let ci = cs0[i as int] as int;
                let bi = basis(xs0, i as int, x as int);
                let ns = newton_sum(xs0, cs0, i as int, x as int);
                lemma_mod_twice(bi, m);
                lemma_mul_mod_both(ci, w as int, ci, bi, m);
                lemma_mod_twice(ci * bi, m);
                lemma_mod_twice(ns, m);
                lemma_add_mod_both(v as int, cw as int, ns, ci * bi, m);
                lemma_mod_twice(x - xs0[i as int], m);
                lemma_mul_mod_both(w as int, d as int, bi, x - xs0[i as int], m);
            }
            v = v2;
            w = w2;
            i += 1;
        }
        assert(y < p);
        let diff = crate::modp::sub(y, v, p);
        let winv = crate::modp::inv(w, p);
        let c = crate::modp::mul(diff, winv, p);
        self.xs.push(x);
        self.cs.push(c);
        proof {
            let xs1 = self.xs@;
            let cs1 = self.cs@;
            assert(cs1.subrange(0, n as int) =~= cs0);
            lemma_mod_twice(y - (v as int), m);
            lemma_mul_mod_both(diff as int, winv as int, y - (v as int), winv as int, m);
            let nn = n as int;
            // the value grows by c times the basis at the new point
            assert forall|z: int| #[trigger] newton_nested(xs1, cs1, 0, z) == newton_nested(xs0, cs0, 0, z) + c * basis(xs0, nn, z) by {
                lemma_newton_forms(xs1, cs1, 0, z);
                lemma_newton_forms(xs0, cs0, 0, z);
                assert(basis(xs1, 0, z) == 1);
                assert(basis(xs0, 0, z) == 1);
                assert(newton_nested(xs1, cs1, 0, z) == newton_sum(xs1, cs1, nn + 1, z)) by {
                    assert(1 * newton_nested(xs1, cs1, 0, z) == newton_nested(xs1, cs1, 0, z));
                }
                assert(newton_nested(xs0, cs0, 0, z) == newton_sum(xs0, cs0, nn, z)) by {
                    assert(1 * newton_nested(xs0, cs0, 0, z) == newton_nested(xs0, cs0, 0, z));
                }
                lemma_newton_sum_prefix(xs1, cs1, xs0, cs0, nn, z);
                lemma_basis_prefix(xs1, xs0, nn, z);
            }
            assert forall|k: int| 0 <= k < nn implies #[trigger] newton_nested(xs1, cs1, 0, xs0[k] as int) == newton_nested(xs0, cs0, 0, xs0[k] as int) by {
                lemma_basis_vanishes(xs0, nn, k);
                assert(c * 0 == 0) by (nonlinear_arith);
            }
            if prime(m) && !xs0.contains(x) {
                let vv = newton_sum(xs0, cs0, nn, x as int);
                let ww = basis(xs0, nn, x as int);
                assert forall|j: int| 0 <= j < nn implies (x - #[trigger] xs0[j]) % m != 0 by {
                    assert(xs0[j] != x);
                    assert(xs0[j] < p);
                    if (x - xs0[j]) % m == 0 {
                        if x > xs0[j] {
                            lemma_small_mod((x - xs0[j]) as nat, p as nat);
                        } else {
                            vstd::arithmetic::div_mod::lemma_fundamental_div_mod(x - xs0[j], m);
                            assert((x - xs0[j]) / m == -1) by (nonlinear_arith)
                                requires
                                    x - xs0[j] == m * ((x - xs0[j]) / m),
                                    -m < x - xs0[j] < 0,
                            ;
                        }
                    }
                }
                lemma_basis_unit(xs0, nn, x as int, m);
                lemma_mod_twice(ww, m);
                // value at x: v + c w = v + (y - v) w^-1 w = y
                lemma_newton_forms(xs0, cs0, 0, x as int);
                assert(basis(xs0, 0, x as int) == 1);
                assert(newton_nested(xs0, cs0, 0, x as int) == vv) by {
                    assert(1 * newton_nested(xs0, cs0, 0, x as int) == newton_nested(xs0, cs0, 0, x as int));
                }
                let wi = winv as int;
                assert(((w as int) * wi) % m == 1);
                lemma_mod_twice((diff as int) * wi, m);
                lemma_mul_mod_both(c as int, ww, (diff as int) * wi, w as int, m);
                assert((diff as int) * wi * (w as int) == (diff as int) * ((w as int) * wi)) by (nonlinear_arith);
                lemma_mul_mod_both(diff as int, (w as int) * wi, diff as int, 1, m);
                lemma_mod_twice(y - (v as int), m);
                lemma_mod_twice(vv, m);
                lemma_add_mod_both(vv, c * ww, v as int, diff as int, m);
                lemma_add_mod_both(v as int, diff as int, v as int, y - (v as int), m);
                lemma_small_mod(y as nat, p as nat);
                // changed exactly when the old value missed y
                if c == 0 {
                    assert(c * ww == 0) by (nonlinear_arith) requires c == 0;
                }
                if vv % m == y {
                    lemma_small_mod(0, p as nat);
                    assert(diff == 0);
                    assert(0 * wi == 0) by (nonlinear_arith);
                }
            }
        }
        c != 0
    }

    /// The interpolant expanded to a dense polynomial.
    pub fn poly(&self, p: u64) -> (r: Dense)
        requires
            self.wf(p),
            modulus(p),
            self.xs().len() < usize::MAX,
        ensures
            residues(r@, p),
            trimmed(r@),
            r.len() <= self.xs().len(),
            forall|z: int| #[trigger] peval(r@, z) % (p as int) == self.value(z) % (p as int),
    {
        let ghost m = p as int;
        let ghost xs = self.xs@;
        let ghost cs = self.cs@;
        let n = self.xs.len();
        let mut r: Dense = Vec::new();
        let mut i = n;
        while i > 0
            invariant
                n == xs.len(),
                n == cs.len(),
                self.xs@ == xs,
                self.cs@ == cs,
                residues(xs, p),
                residues(cs, p),
                modulus(p),
                m == p as int,
                i <= n,
                n < usize::MAX,
                residues(r@, p),
                r.len() <= n - i,
                forall|z: int| #[trigger] peval(r@, z) % m == newton_nested(xs, cs, i as int, z) % m,
            decreases i,
        {
            i -= 1;
            assert(self.xs@[i as int] < p && self.cs@[i as int] < p);
            let x = self.xs[i];
            let c = self.cs[i];
            let nx = crate::modp::sub(0, x, p);
            let lin: [u64; 2] = [nx, 1];
            proof {
                assert(residues(lin@, p));
            }
            let ghost r0 = r@;
            let r1 = mul_poly(&r, &lin, p);
            let ghost r1s = r1@;
            r = r1;
            if r.len() > 0 {
                let v = crate::modp::add(r[0], c, p);
                r.set(0, v);
            } else {
                r.push(c);
            }
            proof {
                assert forall|z: int| #[trigger] peval(r@, z) % m == newton_nested(xs, cs, i as int, z) % m by {
                    let pl = peval(lin@, z);
                    assert(pl == nx * power(z, 0) + 1 * power(z, 1)) by {
                        assert(ev(coef(lin@), 1, z) == ev(coef(lin@), 0, z) + coef(lin@)(0) * power(z, 0));
                    }
                    assert(power(z, 1) == z * power(z, 0));
                    assert(power(z, 0) == 1);
                    assert(pl == nx as int + z) by (nonlinear_arith)
                        requires
                            pl == nx * power(z, 0) + 1 * power(z, 1),
                            power(z, 0) == 1,
                            power(z, 1) == z * power(z, 0),
                    ;
                    lemma_mod_twice(0 - x, m);
                    lemma_add_mod_both(pl, 0, nx as int + z, 0, m);
                    lemma_add_mod_both(nx as int, z, 0 - x, z, m);
                    // peval(r1) = peval(r0) (z - x) mod p
                    let nn = newton_nested(xs, cs, i as int + 1, z);
                    lemma_mul_mod_both(peval(r0, z), pl, nn, z - x, m);
                    lemma_mod_twice(peval(r1s, z), m);
                    if r1s.len() > 0 {
                        lemma_ev_update_0(coef(r1s), coef(r@), r1s.len(), z);
                        assert(r@[0] == (r1s[0] + c) % m);
                        lemma_mod_twice((r1s[0] + c) as int, m);
                        let base = peval(r1s, z) - r1s[0];
                        lemma_add_mod_both(base, r@[0] as int, base, r1s[0] + c, m);
                        lemma_add_mod_both(peval(r1s, z), c as int, nn * (z - x), c as int, m);
                    } else {
                        assert(peval(r@, z) == ev(coef(r@), 0, z) + c * power(z, 0));
                        assert(peval(r1s, z) == 0);
                        lemma_add_mod_both(peval(r1s, z), c as int, nn * (z - x), c as int, m);
                    }
                    assert(newton_nested(xs, cs, i as int, z) == c + (z - x) * nn);
                    assert((z - x) * nn == nn * (z - x)) by (nonlinear_arith);
                }
            }
        }
        let ghost untrimmed = r@;
        trim(&mut r);
        proof {
            assert forall|z: int| #[trigger] peval(r@, z) % m == self.value(z) % m by {
                lemma_trim_eval(untrimmed, z);
            }
            lemma_trim_eval(untrimmed, 0);
            assert forall|j: int| 0 <= j < r.len() implies #[trigger] r@[j] < p by {
                assert(r@[j] == untrimmed[j]);
            }
        }
        r
    }

    pub fn len(&self) -> (n: usize)
        ensures
            n == self.xs().len(),
    {
        self.xs.len()
    }

    pub fn is_empty(&self) -> (b: bool)
        ensures
            b == (self.xs().len() == 0),
    {
        self.xs.len() == 0
    }

    pub fn contains(&self, x: u64) -> (b: bool)
        ensures
            b == self.xs().contains(x),
    {
        let mut i: usize = 0;
        while i < self.xs.len()
            invariant
                i <= self.xs@.len(),
                forall|j: int| 0 <= j < i ==> self.xs@[j] != x,
            decreases self.xs@.len() - i,
        {
            if self.xs[i] == x {
                return true;
            }
            i += 1;
        }
        false
    }
}

/// The first `n` entries of `xs` are pairwise distinct.
pub open spec fn distinct_prefix(xs: Seq<u64>, n: int) -> bool {
    forall|i: int, j: int| 0 <= i < j < n ==> #[trigger] xs[i] != #[trigger] xs[j]
}

/// Newton interpolation through `(xs[i], ys[i])`.
pub fn interpolate(xs: &[u64], ys: &[u64], p: u64) -> (r: Dense)
    requires
        residues(xs@, p),
        residues(ys@, p),
        modulus(p),
        xs.len() < usize::MAX,
    ensures
        residues(r@, p),
        trimmed(r@),
        r.len() <= xs.len(),
        r.len() <= ys.len(),
        prime(p as int) && distinct_prefix(xs@, vstd::math::min(xs.len() as int, ys.len() as int))
            ==> forall|i: int|
            0 <= i < xs.len() && i < ys.len() ==> #[trigger] peval(r@, xs@[i] as int) % (p as int)
                == ys@[i] as int,
{
    let mut newton = Newton::default();
    let n = if xs.len() < ys.len() {
        xs.len()
    } else {
        ys.len()
    };
    let ghost good = prime(p as int) && distinct_prefix(xs@, n as int);
    let mut i: usize = 0;
    while i < n
        invariant
            n <= xs.len(),
            n <= ys.len(),
            n == vstd::math::min(xs.len() as int, ys.len() as int),
            i <= n,
            xs.len() < usize::MAX,
            residues(xs@, p),
            residues(ys@, p),
            modulus(p),
            newton.wf(p),
            newton.xs() == xs@.subrange(0, i as int),
            good == (prime(p as int) && distinct_prefix(xs@, n as int)),
            good ==> forall|k: int| 0 <= k < i ==> #[trigger] newton.value(xs@[k] as int) % (p as int) == ys@[k] as int,
        decreases n - i,
    {
        assert(xs@[i as int] < p && ys@[i as int] < p);
        let ghost before = newton;
        newton.add(xs[i], ys[i], p);
        proof {
            assert(newton.xs() =~= xs@.subrange(0, i as int + 1));
            if good {
                assert(!before.xs().contains(xs@[i as int])) by {
                    if before.xs().contains(xs@[i as int]) {
                        let k = choose|k: int| 0 <= k < before.xs().len() && before.xs()[k] == xs@[i as int];
                        assert(xs@[k] == xs@[i as int]);
                    }
                }
                assert forall|k: int| 0 <= k < i + 1 implies #[trigger] newton.value(xs@[k] as int) % (p as int) == ys@[k] as int by {
                    if k < i {
                        assert(before.xs()[k] == xs@[k]);
                    }
                }
            }
        }
        i += 1;
    }
    newton.poly(p)
}

/// `z - v` as the dense polynomial `[-v mod p, 1]`.
pub proof fn lemma_peval_linear(lin: Seq<u64>, v: int, z: int, m: int)
    requires
        m > 0,
        lin.len() == 2,
        lin[0] == (0 - v) % m,
        lin[1] == 1,
    ensures
        peval(lin, z) % m == (z - v) % m,
{
    assert(ev(coef(lin), 1, z) == ev(coef(lin), 0, z) + coef(lin)(0) * power(z, 0));
    assert(power(z, 0) == 1);
    assert(power(z, 1) == z * power(z, 0));
    assert(peval(lin, z) == lin[0] + z);
    lemma_mod_twice(0 - v, m);
    lemma_add_mod_both(lin[0] as int, z, 0 - v, z, m);
}

} // verus!
