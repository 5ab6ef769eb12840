//! Integration-by-parts identities of a family `I(a) = int prod_i d^d k_i / prod_m D_m^a_m`.
//!
//! Each `D_m` is quadratic in the momenta, so `d/dk_i . q_j` of it is linear in the scalar
//! products, and those involving a loop momentum are linear in the `D`s when the family is
//! complete. Every identity is then a relation between integrals whose indices differ by one,
//! with coefficients linear in `d` and the kinematics. Integrals are ordered as Laporta does:
//! more lines, then more dots, then more numerators is more complex.
//!
//! Coefficients are exact rationals with 64-bit parts; a computation whose intermediate values
//! leave that range gives up with `None`.

use crate::laporta::{Plan, Row};
use crate::laporta::{ascending, columns_below};
use crate::lift::Fraction;
use crate::modp::{MAX_MODULUS, modulus, point, Primes};
use crate::text::{int_text, joined, push_int};
use vstd::arithmetic::div_mod::{
    lemma_add_mod_noop, lemma_fundamental_div_mod, lemma_fundamental_div_mod_converse,
    lemma_mul_mod_noop_left,
};
use num_integer::Integer;
use num_rational::Rational64;
use num_traits::{CheckedAdd, CheckedMul};
use vstd::prelude::*;

verus! {

/// `c_0 + c_1 x_1 + ...` in the variables `x = (d, kinematics..)`.
pub type Lin = Vec<i64>;

/// The powers `a_m` of the `D_m` in an integral.
pub type Index = Vec<i32>;

/// The rational number `num / den`, `den > 0`.
#[derive(Clone, Copy, Debug)]
pub struct Q {
    pub num: i64,
    pub den: i64,
}

/// `q` has a positive denominator.
pub open spec fn q_ok(q: Q) -> bool {
    q.den > 0
}

/// `q` is the rational `n / d`.
pub open spec fn q_is(q: Q, n: int, d: int) -> bool {
    q.num * d == n * q.den
}

/// Every entry has a positive denominator.
pub open spec fn qs_ok(v: Seq<Q>) -> bool {
    forall|i: int| 0 <= i < v.len() ==> q_ok(#[trigger] v[i])
}

/// `a + b` by `Rational64`'s `checked_add`, which reduces to lowest terms with a positive
/// denominator and gives `None` when an intermediate product leaves `i64`.
#[verifier::external_body]
fn q_add(a: Q, b: Q) -> (r: Option<Q>)
    requires
        q_ok(a),
        q_ok(b),
    ensures
        r matches Some(s) ==> q_ok(s) && q_is(s, a.num * b.den + b.num * a.den, a.den * b.den),
{
    match Rational64::new_raw(a.num, a.den).checked_add(&Rational64::new_raw(b.num, b.den)) {
        Some(s) => Some(Q { num: *s.numer(), den: *s.denom() }),
        None => None,
    }
}

/// `a * b` by `Rational64`'s `checked_mul`, which reduces to lowest terms with a positive
/// denominator and gives `None` when a product leaves `i64`.
#[verifier::external_body]
fn q_mul(a: Q, b: Q) -> (r: Option<Q>)
    requires
        q_ok(a),
        q_ok(b),
    ensures
        r matches Some(s) ==> q_ok(s) && q_is(s, a.num * b.num, a.den * b.den),
{
    match Rational64::new_raw(a.num, a.den).checked_mul(&Rational64::new_raw(b.num, b.den)) {
        Some(s) => Some(Q { num: *s.numer(), den: *s.denom() }),
        None => None,
    }
}

/// The least common multiple of two positive integers by `num_integer::Integer::lcm`, which
/// computes `a * (b / gcd)`, within range when `a * b` is.
#[verifier::external_body]
fn lcm_i64(a: i64, b: i64) -> (r: i64)
    requires
        a > 0,
        b > 0,
        a * b <= i64::MAX,
    ensures
        r > 0,
        r % a == 0,
        r % b == 0,
        r <= a * b,
{
    a.lcm(&b)
}

/// The integer `x`.
pub fn q_int(x: i64) -> (r: Q)
    ensures
        q_ok(r),
        r.num == x,
        r.den == 1,
{
    Q { num: x, den: 1 }
}

/// `-a`.
pub fn q_neg(a: Q) -> (r: Option<Q>)
    requires
        q_ok(a),
    ensures
        r matches Some(s) ==> q_ok(s) && s.num == -a.num && s.den == a.den,
        r is None <==> a.num == i64::MIN,
{
    if a.num == i64::MIN {
        None
    } else {
        Some(Q { num: -a.num, den: a.den })
    }
}

/// `1 / a`, for `a` not zero.
pub fn q_recip(a: Q) -> (r: Option<Q>)
    requires
        q_ok(a),
    ensures
        r matches Some(s) ==> q_ok(s) && q_is(s, a.den as int, a.num as int),
        r is None <==> a.num == 0 || a.num == i64::MIN,
{
    if a.num == 0 || a.num == i64::MIN {
        None
    } else if a.num > 0 {
        Some(Q { num: a.den, den: a.num })
    } else {
        proof {
            assert((-a.den) * (a.num as int) == (a.den as int) * (-a.num)) by (nonlinear_arith);
        }
        Some(Q { num: -a.den, den: -a.num })
    }
}

/// `n` zeros.
fn zeros(n: usize) -> (v: Vec<Q>)
    ensures
        v@.len() == n,
        qs_ok(v@),
        forall|i: int| 0 <= i < n ==> (#[trigger] v@[i]).num == 0 && v@[i].den == 1,
{
    let mut v: Vec<Q> = Vec::new();
    while v.len() < n
        invariant
            v@.len() <= n,
            qs_ok(v@),
            forall|i: int| 0 <= i < v@.len() ==> (#[trigger] v@[i]).num == 0 && v@[i].den == 1,
        decreases n - v@.len(),
    {
        v.push(q_int(0));
    }
    v
}

/// Zero, over one.
pub open spec fn q_zero() -> Q {
    Q { num: 0, den: 1 }
}

/// `s` is the rational `a + t`, where `t` is the rational `k b`.
pub open spec fn q_axpy(s: Q, a: Q, b: Q, k: Q) -> bool {
    exists|t: Q|
        #![trigger q_is(t, b.num * k.num, b.den * k.den)]
        q_ok(t) && q_is(t, b.num * k.num, b.den * k.den) && q_is(s, a.num * t.den + t.num * a.den, a.den * t.den)
}

/// `a + k b`, entry by entry over the shorter of the two; `None` on overflow.
fn axpy(a: &mut Vec<Q>, b: &Vec<Q>, k: Q) -> (ok: bool)
    requires
        qs_ok(old(a)@),
        qs_ok(b@),
        q_ok(k),
    ensures
        final(a)@.len() == old(a)@.len(),
        qs_ok(final(a)@),
        ok ==> forall|i: int| 0 <= i < old(a)@.len() && i < b@.len() ==> q_axpy(#[trigger] final(a)@[i], old(a)@[i], b@[i], k),
        ok ==> forall|i: int| b@.len() <= i < old(a)@.len() ==> #[trigger] final(a)@[i] == old(a)@[i],
{
    let mut i: usize = 0;
    while i < a.len() && i < b.len()
        invariant
            qs_ok(a@),
            qs_ok(b@),
            q_ok(k),
            a@.len() == old(a)@.len(),
            i <= a@.len(),
            i <= b@.len(),
            forall|j: int| 0 <= j < i ==> q_axpy(#[trigger] a@[j], old(a)@[j], b@[j], k),
            forall|j: int| i <= j < a@.len() ==> #[trigger] a@[j] == old(a)@[j],
        decreases a@.len() - i,
    {
        let t = match q_mul(b[i], k) {
            Some(t) => t,
            None => {
                return false;
            },
        };
        let s = match q_add(a[i], t) {
            Some(s) => s,
            None => {
                return false;
            },
        };
        proof {
            assert(q_is(t, b@[i as int].num * k.num, b@[i as int].den * k.den));
        }
        a.set(i, s);
        i += 1;
    }
    true
}

/// An `n` by `n` matrix of rationals.
pub open spec fn square(a: Seq<Vec<Q>>, n: nat) -> bool {
    &&& a.len() == n
    &&& forall|r: int| 0 <= r < n ==> (#[trigger] a[r])@.len() == n && qs_ok(a[r]@)
}

/// The inverse by Gauss-Jordan elimination; `None` if `a` is singular or a value overflows.
fn invert(a: Vec<Vec<Q>>) -> (b: Option<Vec<Vec<Q>>>)
    requires
        square(a@, a@.len()),
    ensures
        b matches Some(m) ==> square(m@, a@.len()),
{
    let n = a.len();
    let mut a = a;
    let mut b: Vec<Vec<Q>> = Vec::new();
    let mut i: usize = 0;
    while i < n
        invariant
            i <= n,
            b@.len() == i,
            forall|r: int| 0 <= r < i ==> (#[trigger] b@[r])@.len() == n && qs_ok(b@[r]@),
        decreases n - i,
    {
        let mut row = zeros(n);
        row.set(i, q_int(1));
        b.push(row);
        i += 1;
    }
    let mut c: usize = 0;
    while c < n
        invariant
            c <= n,
            square(a@, n as nat),
            square(b@, n as nat),
        decreases n - c,
    {
        let mut r = c;
        while r < n && a[r][c].num == 0
            invariant
                c <= r <= n,
                c < n,
                square(a@, n as nat),
            decreases n - r,
        {
            r += 1;
        }
        if r == n {
            return None;
        }
        let ac = a[c].clone();
        let ar = a[r].clone();
        a.set(c, ar);
        a.set(r, ac);
        let bc = b[c].clone();
        let br = b[r].clone();
        b.set(c, br);
        b.set(r, bc);
        let l = match q_recip(a[c][c]) {
            Some(l) => l,
            None => {
                return None;
            },
        };
        let mut rc = a[c].clone();
        let mut j: usize = 0;
        while j < n
            invariant
                j <= n,
                rc@.len() == n,
                qs_ok(rc@),
                q_ok(l),
            decreases n - j,
        {
            match q_mul(rc[j], l) {
                Some(v) => rc.set(j, v),
                None => {
                    return None;
                },
            }
            j += 1;
        }
        a.set(c, rc);
        let mut rb = b[c].clone();
        let mut j: usize = 0;
        while j < n
            invariant
                j <= n,
                rb@.len() == n,
                qs_ok(rb@),
                q_ok(l),
            decreases n - j,
        {
            match q_mul(rb[j], l) {
                Some(v) => rb.set(j, v),
                None => {
                    return None;
                },
            }
            j += 1;
        }
        b.set(c, rb);
        let pa = a[c].clone();
        let pb = b[c].clone();
        let mut r: usize = 0;
        while r < n
            invariant
                r <= n,
                c < n,
                square(a@, n as nat),
                square(b@, n as nat),
                pa@.len() == n,
                qs_ok(pa@),
                pb@.len() == n,
                qs_ok(pb@),
            decreases n - r,
        {
            if r != c {
                let k = match q_neg(a[r][c]) {
                    Some(k) => k,
                    None => {
                        return None;
                    },
                };
                let mut ra = a[r].clone();
                if !axpy(&mut ra, &pa, k) {
                    return None;
                }
                a.set(r, ra);
                let mut rb2 = b[r].clone();
                if !axpy(&mut rb2, &pb, k) {
                    return None;
                }
                b.set(r, rb2);
            }
            r += 1;
        }
        c += 1;
    }
    Some(b)
}

/// An integral family: propagators `D_m` by their momentum (loop then external momenta) and
/// squared mass, the first `lines` of them denominators and the rest numerators.
#[derive(Clone, Debug)]
pub struct Family {
    /// Variable names, `d` first.
    pub vars: Vec<&'static str>,
    pub loops: usize,
    /// Each `D_m` as its momentum on the loop then external momenta, and its squared mass. Only
    /// the first `lines` may be propagators; the rest are irreducible numerators.
    pub props: Vec<(Vec<i64>, Lin)>,
    pub lines: usize,
    /// `2 p_i . p_j` for the external momenta.
    pub legs: Vec<Vec<Lin>>,
    /// Permutations of the indices that map the family to itself.
    pub symmetries: Vec<Vec<usize>>,
}

/// A combination of the `D`s plus a constant.
#[derive(Debug)]
struct Expr {
    on: Vec<Q>,
    constant: Vec<Q>,
}

/// A copy of `v`.
fn copy_qs(v: &Vec<Q>) -> (r: Vec<Q>)
    ensures
        r@ == v@,
{
    let mut r: Vec<Q> = Vec::new();
    let mut i: usize = 0;
    while i < v.len()
        invariant
            i <= v@.len(),
            r@ == v@.subrange(0, i as int),
        decreases v@.len() - i,
    {
        r.push(v[i]);
        i += 1;
        assert(r@ =~= v@.subrange(0, i as int));
    }
    assert(v@.subrange(0, v@.len() as int) =~= v@);
    r
}

/// The shape the derivatives need: every momentum over all `loops + legs` momenta, and the
/// external scalar products a square table.
pub open spec fn family_ok(f: Family) -> bool {
    &&& f.vars@.len() + 1 <= usize::MAX
    &&& forall|m: int| 0 <= m < f.props@.len() ==> (#[trigger] f.props@[m]).0@.len() == f.loops + f.legs@.len()
    &&& forall|i: int| 0 <= i < f.legs@.len() ==> (#[trigger] f.legs@[i])@.len() == f.legs@.len()
    &&& f.loops + f.legs@.len() <= usize::MAX
}

/// Loop momentum `i` flows through a line with a positive power in `a`.
pub open spec fn flows(f: Family, a: Seq<i32>, i: int) -> bool {
    exists|m: int| 0 <= m < a.len() && m < f.props@.len() && a[m] > 0 && #[trigger] f.props@[m].0@[i] != 0
}

/// An expression over `n` propagators and `v` coefficients of a form.
spec fn expr_ok(e: Expr, n: nat, v: nat) -> bool {
    &&& e.on@.len() == n
    &&& qs_ok(e.on@)
    &&& e.constant@.len() == v
    &&& qs_ok(e.constant@)
}

/// `sum_(w < u) (l + legs - w)`: the scalar products in the rows before row `u`.
pub open spec fn rows_before(u: nat, l: nat, legs: nat) -> int
    decreases u,
{
    if u == 0 {
        0
    } else {
        rows_before((u - 1) as nat, l, legs) + (l + legs - (u - 1))
    }
}

/// The rows before a later row are no fewer, while rows are not empty.
proof fn lemma_rows_before_grow(w: nat, u: nat, l: nat, legs: nat)
    requires
        w <= u <= l,
    ensures
        rows_before(w, l, legs) <= rows_before(u, l, legs),
    decreases u,
{
    if u > w {
        lemma_rows_before_grow(w, (u - 1) as nat, l, legs);
    }
}

/// The position of the scalar product `(u, v)`, `u <= v`, among those with a loop momentum, or
/// `None` if it leaves `usize`.
pub open spec fn sigma_spec(u: nat, v: nat, l: nat, legs: nat) -> Option<usize> {
    if (u > 0 && l + legs > usize::MAX) || rows_before(u, l, legs) + (v - u) > usize::MAX {
        None
    } else {
        Some((rows_before(u, l, legs) + (v - u)) as usize)
    }
}

/// The position of the scalar product `(u, v)`, `u <= v`, among those with a loop momentum.
fn sigma(u: usize, v: usize, l: usize, legs: usize) -> (s: Option<usize>)
    requires
        u <= v,
        u < l,
    ensures
        s == (if (u > 0 && l + legs > usize::MAX) || rows_before(u as nat, l as nat, legs as nat) + (v - u) > usize::MAX {
            None
        } else {
            Some((rows_before(u as nat, l as nat, legs as nat) + (v - u)) as usize)
        }),
{
    let mut s: usize = 0;
    let mut w: usize = 0;
    while w < u
        invariant
            w <= u,
            u < l,
            u <= v,
            s == rows_before(w as nat, l as nat, legs as nat),
            w > 0 ==> l + legs <= usize::MAX,
        decreases u - w,
    {
        proof {
            lemma_rows_before_grow((w + 1) as nat, u as nat, l as nat, legs as nat);
        }
        let row = match l.checked_add(legs) {
            Some(t) => t - w,
            None => {
                return None;
            },
        };
        s = match s.checked_add(row) {
            Some(t) => t,
            None => {
                return None;
            },
        };
        w += 1;
    }
    s.checked_add(v - u)
}

impl Family {
    /// The linear form `l` times `scale`, padded to one coefficient per variable and `1`.
    fn form(&self, l: &[i64], scale: Q) -> (f: Option<Vec<Q>>)
        requires
            self.vars@.len() + 1 <= usize::MAX,
            q_ok(scale),
        ensures
            f matches Some(v) ==> v@.len() == self.vars@.len() + 1 && qs_ok(v@),
            f matches Some(v) ==> forall|i: int|
                0 <= i < v@.len() && i < l@.len() ==> q_is(#[trigger] v@[i], scale.num * l@[i], scale.den as int),
            f matches Some(v) ==> forall|i: int| l@.len() <= i < v@.len() ==> (#[trigger] v@[i]).num == 0,
            l@.len() == 0 ==> f is Some,
    {
        let mut f = zeros(self.vars.len() + 1);
        let mut i: usize = 0;
        while i < f.len() && i < l.len()
            invariant
                f@.len() == self.vars@.len() + 1,
                qs_ok(f@),
                q_ok(scale),
                i <= f@.len(),
                i <= l@.len(),
                forall|j: int| 0 <= j < i ==> q_is(#[trigger] f@[j], scale.num * l@[j], scale.den as int),
                forall|j: int| i <= j < f@.len() ==> (#[trigger] f@[j]).num == 0,
            decreases f@.len() - i,
        {
            match q_mul(scale, q_int(l[i])) {
                Some(v) => {
                    proof {
                        assert(scale.den * 1 == scale.den);
                    }
                    f.set(i, v);
                },
                None => {
                    return None;
                },
            }
            i += 1;
        }
        Some(f)
    }

    /// The scalar product `(u, v)` of momenta: its position if it involves a loop momentum, or
    /// its value from the kinematics.
    fn product(&self, u: usize, v: usize, half: Q) -> (r: Option<Result<usize, Vec<Q>>>)
        requires
            family_ok(*self),
            u < self.loops + self.legs@.len(),
            v < self.loops + self.legs@.len(),
            q_ok(half),
        ensures
            r matches Some(Err(f)) ==> f@.len() == self.vars@.len() + 1 && qs_ok(f@),
            ({
                let (a, b) = if u <= v { (u, v) } else { (v, u) };
                a < self.loops ==> match sigma_spec(a as nat, b as nat, self.loops as nat, self.legs@.len()) {
                    Some(s) => r matches Some(Ok(x)) && x == s,
                    None => r is None,
                }
            }),
    {
        let (a, b) = if u <= v {
            (u, v)
        } else {
            (v, u)
        };
        if a < self.loops {
            match sigma(a, b, self.loops, self.legs.len()) {
                Some(s) => Some(Ok(s)),
                None => None,
            }
        } else {
            let row = &self.legs[a - self.loops];
            assert(row@.len() == self.legs@.len());
            match self.form(&row[b - self.loops], half) {
                Some(f) => Some(Err(f)),
                None => None,
            }
        }
    }

    /// The scalar product `(u, v)` as a combination of the `D`s plus a constant.
    fn expr(&self, u: usize, v: usize, half: Q, sp: &Vec<Expr>) -> (e: Option<Expr>)
        requires
            family_ok(*self),
            u < self.loops + self.legs@.len(),
            v < self.loops + self.legs@.len(),
            q_ok(half),
            forall|s: int| 0 <= s < sp@.len() ==> expr_ok(#[trigger] sp@[s], self.props@.len(), self.vars@.len() + 1),
        ensures
            e matches Some(x) ==> expr_ok(x, self.props@.len(), self.vars@.len() + 1),
            ({
                let (a, b) = if u <= v { (u, v) } else { (v, u) };
                a < self.loops ==> match sigma_spec(a as nat, b as nat, self.loops as nat, self.legs@.len()) {
                    Some(s) => if s < sp@.len() {
                        e matches Some(x) && x.on@ == sp@[s as int].on@ && x.constant@ == sp@[s as int].constant@
                    } else {
                        e is None
                    },
                    None => e is None,
                }
            }),
    {
        match self.product(u, v, half) {
            Some(Ok(s)) => {
                if s >= sp.len() {
                    return None;
                }
                assert(expr_ok(sp@[s as int], self.props@.len(), self.vars@.len() + 1));
                Some(Expr { on: copy_qs(&sp[s].on), constant: copy_qs(&sp[s].constant) })
            },
            Some(Err(constant)) => Some(Expr { on: zeros(self.props.len()), constant }),
            None => None,
        }
    }

    /// `d/dk_i . v_j` of each `D_m`, with `v` the loop then external momenta: indexed by `i`,
    /// `j`, then `m`. `None` if the propagators do not span the scalar products independently
    /// or a value overflows.
    fn derivatives(&self) -> (t: Option<Vec<Vec<Vec<Expr>>>>)
        requires
            family_ok(*self),
        ensures
            t matches Some(d) ==> {
                &&& d@.len() == self.loops
                &&& forall|i: int| 0 <= i < d@.len() ==> (#[trigger] d@[i])@.len() == self.loops + self.legs@.len()
                &&& forall|i: int, j: int|
                    0 <= i < d@.len() && 0 <= j < d@[i]@.len() ==> (#[trigger] d@[i]@[j])@.len() == self.props@.len()
                &&& forall|i: int, j: int, m: int|
                    0 <= i < d@.len() && 0 <= j < d@[i]@.len() && 0 <= m < d@[i]@[j]@.len() ==> expr_ok(
                        #[trigger] d@[i]@[j]@[m],
                        self.props@.len(),
                        self.vars@.len() + 1,
                    )
            },
    {
        let l = self.loops;
        let n = self.props.len();
        let big = l + self.legs.len();
        let half = Q { num: 1, den: 2 };
        let mut total: usize = 0;
        let mut w: usize = 0;
        while w < l
            invariant
                w <= l,
                l + self.legs@.len() == big,
            decreases l - w,
        {
            total = match total.checked_add(big - w) {
                Some(t) => t,
                None => {
                    return None;
                },
            };
            w += 1;
        }
        if total != n {
            return None;
        }
        let mut a: Vec<Vec<Q>> = Vec::new();
        while a.len() < n
            invariant
                a@.len() <= n,
                forall|r: int| 0 <= r < a@.len() ==> (#[trigger] a@[r])@.len() == n && qs_ok(a@[r]@),
            decreases n - a@.len(),
        {
            a.push(zeros(n));
        }
        let mut c: Vec<Vec<Q>> = Vec::new();
        let mut m: usize = 0;
        while m < n
            invariant
                m <= n,
                n == self.props@.len(),
                family_ok(*self),
                big == self.loops + self.legs@.len(),
                q_ok(half),
                square(a@, n as nat),
                c@.len() == m,
                forall|r: int| 0 <= r < c@.len() ==> (#[trigger] c@[r])@.len() == self.vars@.len() + 1 && qs_ok(c@[r]@),
            decreases n - m,
        {
            let q = &self.props[m].0;
            assert(q@.len() == big);
            let mut cm = match self.form(&self.props[m].1, q_int(-1)) {
                Some(f) => f,
                None => {
                    return None;
                },
            };
            let mut u: usize = 0;
            while u < q.len()
                invariant
                    u <= q@.len(),
                    q@.len() == big,
                    n == self.props@.len(),
                    m < n,
                    family_ok(*self),
                    big == self.loops + self.legs@.len(),
                    q_ok(half),
                    square(a@, n as nat),
                    cm@.len() == self.vars@.len() + 1,
                    qs_ok(cm@),
                decreases q@.len() - u,
            {
                let mut v: usize = 0;
                while v < q.len()
                    invariant
                        v <= q@.len(),
                        u < q@.len(),
                        q@.len() == big,
                        n == self.props@.len(),
                        m < n,
                        family_ok(*self),
                        big == self.loops + self.legs@.len(),
                        q_ok(half),
                        square(a@, n as nat),
                        cm@.len() == self.vars@.len() + 1,
                        qs_ok(cm@),
                    decreases q@.len() - v,
                {
                    let xy = match q[u].checked_mul(q[v]) {
                        Some(t) => t,
                        None => {
                            return None;
                        },
                    };
                    match self.product(u, v, half) {
                        Some(Ok(s)) => {
                            if s >= n {
                                return None;
                            }
                            let mut row = copy_qs(&a[m]);
                            match q_add(row[s], q_int(xy)) {
                                Some(t) => row.set(s, t),
                                None => {
                                    return None;
                                },
                            }
                            a.set(m, row);
                        },
                        Some(Err(f)) => {
                            if !axpy(&mut cm, &f, q_int(xy)) {
                                return None;
                            }
                        },
                        None => {
                            return None;
                        },
                    }
                    v += 1;
                }
                u += 1;
            }
            c.push(cm);
            m += 1;
        }
        let b = match invert(a) {
            Some(b) => b,
            None => {
                return None;
            },
        };
        let mut sp: Vec<Expr> = Vec::new();
        let mut r: usize = 0;
        while r < b.len()
            invariant
                r <= b@.len(),
                square(b@, n as nat),
                n == self.props@.len(),
                c@.len() == n,
                forall|w: int| 0 <= w < c@.len() ==> (#[trigger] c@[w])@.len() == self.vars@.len() + 1 && qs_ok(c@[w]@),
                family_ok(*self),
                forall|w: int| 0 <= w < sp@.len() ==> expr_ok(#[trigger] sp@[w], n as nat, self.vars@.len() + 1),
            decreases b@.len() - r,
        {
            let row = &b[r];
            let mut constant = zeros(self.vars.len() + 1);
            let mut k: usize = 0;
            while k < row.len() && k < c.len()
                invariant
                    k <= row@.len(),
                    row@.len() == n,
                    qs_ok(row@),
                    c@.len() == n,
                    forall|w: int| 0 <= w < c@.len() ==> (#[trigger] c@[w])@.len() == self.vars@.len() + 1 && qs_ok(c@[w]@),
                    constant@.len() == self.vars@.len() + 1,
                    qs_ok(constant@),
                decreases row@.len() - k,
            {
                let nb = match q_neg(row[k]) {
                    Some(t) => t,
                    None => {
                        return None;
                    },
                };
                if !axpy(&mut constant, &c[k], nb) {
                    return None;
                }
                k += 1;
            }
            let ghost s0 = sp@;
            sp.push(Expr { on: copy_qs(row), constant });
            proof {
                assert forall|w: int| 0 <= w < sp@.len() implies expr_ok(#[trigger] sp@[w], n as nat, self.vars@.len() + 1) by {
                    if w < s0.len() {
                        assert(sp@[w] == s0[w]);
                    }
                }
            }
            r += 1;
        }
        let mut out: Vec<Vec<Vec<Expr>>> = Vec::new();
        let mut i: usize = 0;
        while i < l
            invariant
                i <= l,
                l == self.loops,
                n == self.props@.len(),
                big == self.loops + self.legs@.len(),
                family_ok(*self),
                q_ok(half),
                forall|w: int| 0 <= w < sp@.len() ==> expr_ok(#[trigger] sp@[w], n as nat, self.vars@.len() + 1),
                out@.len() == i,
                forall|x: int| 0 <= x < out@.len() ==> (#[trigger] out@[x])@.len() == big,
                forall|x: int, y: int| 0 <= x < out@.len() && 0 <= y < out@[x]@.len() ==> (#[trigger] out@[x]@[y])@.len() == n,
                forall|x: int, y: int, z: int|
                    0 <= x < out@.len() && 0 <= y < out@[x]@.len() && 0 <= z < out@[x]@[y]@.len() ==> expr_ok(
                        #[trigger] out@[x]@[y]@[z],
                        n as nat,
                        self.vars@.len() + 1,
                    ),
            decreases l - i,
        {
            let mut row_i: Vec<Vec<Expr>> = Vec::new();
            let mut j: usize = 0;
            while j < big
                invariant
                    j <= big,
                    i < l,
                    l == self.loops,
                    n == self.props@.len(),
                    big == self.loops + self.legs@.len(),
                    family_ok(*self),
                    q_ok(half),
                    forall|w: int| 0 <= w < sp@.len() ==> expr_ok(#[trigger] sp@[w], n as nat, self.vars@.len() + 1),
                    row_i@.len() == j,
                    forall|y: int| 0 <= y < row_i@.len() ==> (#[trigger] row_i@[y])@.len() == n,
                    forall|y: int, z: int| 0 <= y < row_i@.len() && 0 <= z < row_i@[y]@.len() ==> expr_ok(
                        #[trigger] row_i@[y]@[z],
                        n as nat,
                        self.vars@.len() + 1,
                    ),
                decreases big - j,
            {
                let mut ds: Vec<Expr> = Vec::new();
                let mut m: usize = 0;
                while m < n
                    invariant
                        m <= n,
                        i < l,
                        j < big,
                        l == self.loops,
                        n == self.props@.len(),
                        big == self.loops + self.legs@.len(),
                        family_ok(*self),
                        q_ok(half),
                        forall|w: int| 0 <= w < sp@.len() ==> expr_ok(#[trigger] sp@[w], n as nat, self.vars@.len() + 1),
                        ds@.len() == m,
                        forall|z: int| 0 <= z < ds@.len() ==> expr_ok(#[trigger] ds@[z], n as nat, self.vars@.len() + 1),
                    decreases n - m,
                {
                    let q = &self.props[m].0;
                    assert(q@.len() == big);
                    let mut on = zeros(n);
                    let mut constant = zeros(self.vars.len() + 1);
                    let mut u: usize = 0;
                    while u < q.len()
                        invariant
                            u <= q@.len(),
                            q@.len() == big,
                            i < l,
                            j < big,
                            l == self.loops,
                            n == self.props@.len(),
                            big == self.loops + self.legs@.len(),
                            family_ok(*self),
                            q_ok(half),
                            forall|w: int| 0 <= w < sp@.len() ==> expr_ok(#[trigger] sp@[w], n as nat, self.vars@.len() + 1),
                            on@.len() == n,
                            qs_ok(on@),
                            constant@.len() == self.vars@.len() + 1,
                            qs_ok(constant@),
                        decreases q@.len() - u,
                    {
                        let e = match self.expr(u, j, half, &sp) {
                            Some(e) => e,
                            None => {
                                return None;
                            },
                        };
                        let k = match q[i].checked_mul(q[u]) {
                            Some(t) => match t.checked_mul(2) {
                                Some(t2) => q_int(t2),
                                None => {
                                    return None;
                                },
                            },
                            None => {
                                return None;
                            },
                        };
                        if !axpy(&mut on, &e.on, k) {
                            return None;
                        }
                        if !axpy(&mut constant, &e.constant, k) {
                            return None;
                        }
                        u += 1;
                    }
                    let ghost d0 = ds@;
                    ds.push(Expr { on, constant });
                    proof {
                        assert forall|z: int| 0 <= z < ds@.len() implies expr_ok(#[trigger] ds@[z], n as nat, self.vars@.len() + 1) by {
                            if z < d0.len() {
                                assert(ds@[z] == d0[z]);
                            }
                        }
                    }
                    m += 1;
                }
                let ghost r0 = row_i@;
                row_i.push(ds);
                proof {
                    assert forall|y: int, z: int| 0 <= y < row_i@.len() && 0 <= z < row_i@[y]@.len() implies expr_ok(
                        #[trigger] row_i@[y]@[z],
                        n as nat,
                        self.vars@.len() + 1,
                    ) by {
                        if y < r0.len() {
                            assert(row_i@[y] == r0[y]);
                        }
                    }
                    assert forall|y: int| 0 <= y < row_i@.len() implies (#[trigger] row_i@[y])@.len() == n by {
                        if y < r0.len() {
                            assert(row_i@[y] == r0[y]);
                        }
                    }
                }
                j += 1;
            }
            let ghost o0 = out@;
            out.push(row_i);
            proof {
                assert forall|x: int, y: int, z: int|
                    0 <= x < out@.len() && 0 <= y < out@[x]@.len() && 0 <= z < out@[x]@[y]@.len() implies expr_ok(
                        #[trigger] out@[x]@[y]@[z],
                        n as nat,
                        self.vars@.len() + 1,
                    ) by {
                    if x < o0.len() {
                        assert(out@[x] == o0[x]);
                    }
                }
                assert forall|x: int, y: int| 0 <= x < out@.len() && 0 <= y < out@[x]@.len() implies (#[trigger] out@[x]@[y])@.len() == n by {
                    if x < o0.len() {
                        assert(out@[x] == o0[x]);
                    }
                }
                assert forall|x: int| 0 <= x < out@.len() implies (#[trigger] out@[x])@.len() == big by {
                    if x < o0.len() {
                        assert(out@[x] == o0[x]);
                    }
                }
            }
            i += 1;
        }
        Some(out)
    }

    /// Whether every loop momentum flows through a line of the sector, without which the integral
    /// is scaleless.
    fn nonzero(&self, a: &[i32]) -> (r: bool)
        requires
            family_ok(*self),
        ensures
            r == forall|i: int| 0 <= i < self.loops ==> #[trigger] flows(*self, a@, i),
    {
        let mut i: usize = 0;
        while i < self.loops
            invariant
                i <= self.loops,
                family_ok(*self),
                forall|u: int| 0 <= u < i ==> #[trigger] flows(*self, a@, u),
            decreases self.loops - i,
        {
            let mut m: usize = 0;
            let mut found = false;
            while m < a.len() && m < self.props.len()
                invariant
                    i < self.loops,
                    family_ok(*self),
                    m <= a@.len(),
                    found ==> exists|w: int|
                        0 <= w < a@.len() && w < self.props@.len() && a@[w] > 0 && #[trigger] self.props@[w].0@[i as int] != 0,
                    !found ==> forall|w: int| 0 <= w < m && w < self.props@.len() ==> !(a@[w] > 0 && #[trigger] self.props@[w].0@[i as int] != 0),
                decreases a@.len() - m,
            {
                assert(self.props@[m as int].0@.len() == self.loops + self.legs@.len());
                if a[m] > 0 && self.props[m].0[i] != 0 {
                    found = true;
                }
                m += 1;
            }
            if !found {
                proof {
                    assert(!flows(*self, a@, i as int));
                }
                return false;
            }
            assert(flows(*self, a@, i as int));
            i += 1;
        }
        true
    }

    /// The shape `seeded` needs besides `family_ok`: some variable, at most 31 lines among the
    /// props, and symmetries that permute the props.
    pub open spec fn seedable(&self) -> bool {
        &&& family_ok(*self)
        &&& self.vars@.len() >= 1
        &&& self.lines < 32
        &&& self.lines <= self.props@.len()
        &&& forall|s: int| 0 <= s < self.symmetries@.len() ==> (#[trigger] self.symmetries@[s])@.len() == self.props@.len()
            && forall|m: int| 0 <= m < self.props@.len() ==> #[trigger] self.symmetries@[s]@[m] < self.props@.len()
    }

    /// The exponent budget of a sector `level` lines below the top, widened by `widen`.
    fn trim(max: i32, level: i64, widen: i32) -> (r: Option<i32>)
        requires
            -64 <= level <= 0,
        ensures
            r matches Some(t) ==> t <= max,
            ({
                let m = max as int;
                let low = if m < 1 { m } else { 1 };
                let up = if low > m + level { low } else { m + level };
                let t = if m < up + widen { m } else { up + widen };
                r == (if t < i32::MIN { None } else { Some(t as i32) })
            }),
    {
        let m = max as i64;
        let low = if m < 1 {
            m
        } else {
            1
        };
        let up = if low > m + level {
            low
        } else {
            m + level
        };
        let t = if m < up + widen as i64 {
            m
        } else {
            up + widen as i64
        };
        if t < i32::MIN as i64 {
            None
        } else {
            Some(t as i32)
        }
    }

    /// Identities seeded at every index with up to `dots` extra powers on its lines and
    /// `numerators` powers of numerators in every sector, widened per sector by `extra`, plus the
    /// symmetries.
    fn seeded(&self, dots: i32, numerators: i32, extra: &Vec<(u32, i32)>) -> (r: Option<System>)
        requires
            self.seedable(),
        ensures
            r matches Some(sys) ==> sys.wf() && sys.var_names() == self.vars@,
            r matches Some(sys) ==> laporta_sorted(sys.columns(), self.lines as nat),
            r matches Some(sys) ==> distinct_idx(sys.columns()),
    {
        let n = self.props.len();
        let v = self.vars.len() + 1;
        let table = match self.derivatives() {
            Some(t) => t,
            None => {
                return None;
            },
        };
        let mut raw: Vec<Eq> = Vec::new();
        let mut all: Vec<Index> = Vec::new();
        let mut limit: u64 = 1;
        let mut z: usize = 0;
        proof {
            vstd::arithmetic::power2::lemma2_to64();
        }
        while z < self.lines
            invariant
                z <= self.lines,
                self.lines < 32,
                limit <= 0x1_0000_0000,
                z < 32 ==> limit <= vstd::arithmetic::power2::pow2(z as nat),
            decreases self.lines - z,
        {
            proof {
                vstd::arithmetic::power2::lemma2_to64();
                vstd::arithmetic::power2::lemma_pow2_unfold((z + 1) as nat);
                vstd::arithmetic::power2::lemma_pow2_strictly_increases(z as nat, 32);
            }
            limit = limit * 2;
            z += 1;
        }
        let mut sector: u64 = 1;
        while sector < limit
            invariant
                self.seedable(),
                n == self.props@.len(),
                v == self.vars@.len() + 1,
                table@.len() == self.loops,
                forall|i: int| 0 <= i < table@.len() ==> (#[trigger] table@[i])@.len() == self.loops + self.legs@.len(),
                forall|i: int, j: int|
                    0 <= i < table@.len() && 0 <= j < table@[i]@.len() ==> (#[trigger] table@[i]@[j])@.len() == n,
                forall|i: int, j: int, m: int|
                    0 <= i < table@.len() && 0 <= j < table@[i]@.len() && 0 <= m < table@[i]@[j]@.len() ==> expr_ok(
                        #[trigger] table@[i]@[j]@[m],
                        n as nat,
                        v as nat,
                    ),
                forall|e: int| 0 <= e < raw@.len() ==> eq_ok(#[trigger] raw@[e]@, v as nat),
            decreases limit - sector,
        {
            let mut on: Vec<usize> = Vec::new();
            let mut off: Vec<usize> = Vec::new();
            let mut m: usize = 0;
            while m < n
                invariant
                    m <= n,
                    self.lines < 32,
                    forall|u: int| 0 <= u < on@.len() ==> #[trigger] on@[u] < n,
                    forall|u: int| 0 <= u < off@.len() ==> #[trigger] off@[u] < n,
                    on@.len() <= m,
                    on@.len() <= self.lines,
                decreases n - m,
            {
                if m < self.lines && (sector >> (m as u64)) & 1 == 1 {
                    on.push(m);
                } else {
                    off.push(m);
                }
                m += 1;
            }
            let level: i64 = -((self.lines - on.len()) as i64);
            let mut widen: i32 = 0;
            let mut w: usize = 0;
            while w < extra.len()
                decreases extra@.len() - w,
            {
                if extra[w].0 as u64 == sector {
                    widen = extra[w].1;
                    break;
                }
                w += 1;
            }
            let up_max = match Self::trim(dots, level, widen) {
                Some(t) => t,
                None => {
                    return None;
                },
            };
            let down_max = match Self::trim(numerators, level, widen) {
                Some(t) => t,
                None => {
                    return None;
                },
            };
            let ups = compositions(on.len(), up_max);
            let downs = compositions(off.len(), down_max);
            let mut seeds: Vec<Index> = Vec::new();
            let mut x: usize = 0;
            while x < ups.len()
                invariant
                    x <= ups@.len(),
                    self.seedable(),
                    n == self.props@.len(),
                    forall|u: int| 0 <= u < on@.len() ==> #[trigger] on@[u] < n,
                    forall|u: int| 0 <= u < off@.len() ==> #[trigger] off@[u] < n,
                    forall|t: int| 0 <= t < ups@.len() ==> (#[trigger] ups@[t])@.len() == on@.len(),
                    forall|t: int| 0 <= t < downs@.len() ==> (#[trigger] downs@[t])@.len() == off@.len(),
                    forall|t: int, i: int| 0 <= t < downs@.len() && 0 <= i < off@.len() ==> #[trigger] downs@[t]@[i] >= 0,
                    forall|t: int| 0 <= t < seeds@.len() ==> (#[trigger] seeds@[t])@.len() == n,
                decreases ups@.len() - x,
            {
                let mut y: usize = 0;
                while y < downs.len()
                    invariant
                        y <= downs@.len(),
                        x < ups@.len(),
                        self.seedable(),
                        n == self.props@.len(),
                        forall|u: int| 0 <= u < on@.len() ==> #[trigger] on@[u] < n,
                        forall|u: int| 0 <= u < off@.len() ==> #[trigger] off@[u] < n,
                        forall|t: int| 0 <= t < ups@.len() ==> (#[trigger] ups@[t])@.len() == on@.len(),
                        forall|t: int| 0 <= t < downs@.len() ==> (#[trigger] downs@[t])@.len() == off@.len(),
                        forall|t: int, i: int| 0 <= t < downs@.len() && 0 <= i < off@.len() ==> #[trigger] downs@[t]@[i] >= 0,
                        forall|t: int| 0 <= t < seeds@.len() ==> (#[trigger] seeds@[t])@.len() == n,
                    decreases downs@.len() - y,
                {
                    let mut a: Vec<i32> = vec![0i32; n];
                    let up = &ups[x];
                    let down = &downs[y];
                    let mut i: usize = 0;
                    while i < on.len()
                        invariant
                            i <= on@.len(),
                            a@.len() == n,
                            up@.len() == on@.len(),
                            forall|u: int| 0 <= u < on@.len() ==> #[trigger] on@[u] < n,
                        decreases on@.len() - i,
                    {
                        let val = match up[i].checked_add(1) {
                            Some(t) => t,
                            None => {
                                return None;
                            },
                        };
                        a.set(on[i], val);
                        i += 1;
                    }
                    let mut i: usize = 0;
                    while i < off.len()
                        invariant
                            i <= off@.len(),
                            a@.len() == n,
                            down@.len() == off@.len(),
                            forall|u: int| 0 <= u < off@.len() ==> #[trigger] off@[u] < n,
                            forall|u: int| 0 <= u < off@.len() ==> #[trigger] down@[u] >= 0,
                        decreases off@.len() - i,
                    {
                        a.set(off[i], -down[i]);
                        i += 1;
                    }
                    if self.nonzero(&a) {
                        seeds.push(a);
                    }
                    y += 1;
                }
                x += 1;
            }
            let mut si: usize = 0;
            while si < seeds.len()
                invariant
                    si <= seeds@.len(),
                    self.seedable(),
                    n == self.props@.len(),
                    v == self.vars@.len() + 1,
                    forall|t: int| 0 <= t < seeds@.len() ==> (#[trigger] seeds@[t])@.len() == n,
                    table@.len() == self.loops,
                    forall|i: int| 0 <= i < table@.len() ==> (#[trigger] table@[i])@.len() == self.loops + self.legs@.len(),
                    forall|i: int, j: int|
                        0 <= i < table@.len() && 0 <= j < table@[i]@.len() ==> (#[trigger] table@[i]@[j])@.len() == n,
                    forall|i: int, j: int, m: int|
                        0 <= i < table@.len() && 0 <= j < table@[i]@.len() && 0 <= m < table@[i]@[j]@.len() ==> expr_ok(
                            #[trigger] table@[i]@[j]@[m],
                            n as nat,
                            v as nat,
                        ),
                    forall|e: int| 0 <= e < raw@.len() ==> eq_ok(#[trigger] raw@[e]@, v as nat),
                decreases seeds@.len() - si,
            {
                let a = &seeds[si];
                assert(a@.len() == n);
                let mut i: usize = 0;
                while i < table.len()
                    invariant
                        i <= table@.len(),
                        a@.len() == n,
                        self.seedable(),
                        n == self.props@.len(),
                        v == self.vars@.len() + 1,
                        table@.len() == self.loops,
                        forall|i2: int| 0 <= i2 < table@.len() ==> (#[trigger] table@[i2])@.len() == self.loops + self.legs@.len(),
                        forall|i2: int, j: int|
                            0 <= i2 < table@.len() && 0 <= j < table@[i2]@.len() ==> (#[trigger] table@[i2]@[j])@.len() == n,
                        forall|i2: int, j: int, m: int|
                            0 <= i2 < table@.len() && 0 <= j < table@[i2]@.len() && 0 <= m < table@[i2]@[j]@.len() ==> expr_ok(
                                #[trigger] table@[i2]@[j]@[m],
                                n as nat,
                                v as nat,
                            ),
                        forall|e: int| 0 <= e < raw@.len() ==> eq_ok(#[trigger] raw@[e]@, v as nat),
                    decreases table@.len() - i,
                {
                    let row = &table[i];
                    let mut j: usize = 0;
                    while j < row.len()
                        invariant
                            j <= row@.len(),
                            i < table@.len(),
                            *row == table@[i as int],
                            a@.len() == n,
                            self.seedable(),
                            n == self.props@.len(),
                            v == self.vars@.len() + 1,
                            forall|i2: int, j2: int|
                                0 <= i2 < table@.len() && 0 <= j2 < table@[i2]@.len() ==> (#[trigger] table@[i2]@[j2])@.len() == n,
                            forall|i2: int, j2: int, m: int|
                                0 <= i2 < table@.len() && 0 <= j2 < table@[i2]@.len() && 0 <= m < table@[i2]@[j2]@.len() ==> expr_ok(
                                    #[trigger] table@[i2]@[j2]@[m],
                                    n as nat,
                                    v as nat,
                                ),
                            forall|e: int| 0 <= e < raw@.len() ==> eq_ok(#[trigger] raw@[e]@, v as nat),
                        decreases row@.len() - j,
                    {
                        let ds = &row[j];
                        assert(ds@.len() == n);
                        let mut eq: Eq = Vec::new();
                        if i == j {
                            let mut d = zeros(v);
                            d.set(1, q_int(1));
                            if !term(&mut eq, a, &d, q_int(1)) {
                                return None;
                            }
                        }
                        let mut m: usize = 0;
                        while m < ds.len()
                            invariant
                                m <= ds@.len(),
                                ds@.len() == n,
                                a@.len() == n,
                                i < table@.len(),
                                j < table@[i as int]@.len(),
                                *ds == table@[i as int]@[j as int],
                                self.seedable(),
                                n == self.props@.len(),
                                v == self.vars@.len() + 1,
                                forall|m2: int| 0 <= m2 < ds@.len() ==> expr_ok(#[trigger] ds@[m2], n as nat, v as nat),
                                eq_ok(eq@, v as nat),
                            decreases ds@.len() - m,
                        {
                            if a[m] != 0 {
                                let t = &ds[m];
                                assert(expr_ok(*t, n as nat, v as nat));
                                let k = q_int(-(a[m] as i64));
                                let mut b = copy_idx(a);
                                let bm = match b[m].checked_add(1) {
                                    Some(t2) => t2,
                                    None => {
                                        return None;
                                    },
                                };
                                b.set(m, bm);
                                if !term(&mut eq, &b, &t.constant, k) {
                                    return None;
                                }
                                let mut kk: usize = 0;
                                while kk < t.on.len()
                                    invariant
                                        kk <= t.on@.len(),
                                        expr_ok(*t, n as nat, v as nat),
                                        b@.len() == n,
                                        q_ok(k),
                                        self.seedable(),
                                        v == self.vars@.len() + 1,
                                        eq_ok(eq@, v as nat),
                                    decreases t.on@.len() - kk,
                                {
                                    let c = t.on[kk];
                                    if c.num != 0 {
                                        let mut e = copy_idx(&b);
                                        let ek = match e[kk].checked_sub(1) {
                                            Some(t2) => t2,
                                            None => {
                                                return None;
                                            },
                                        };
                                        e.set(kk, ek);
                                        let one: [i64; 1] = [1];
                                        let f = match self.form(&one, c) {
                                            Some(f) => f,
                                            None => {
                                                return None;
                                            },
                                        };
                                        if !term(&mut eq, &e, &f, k) {
                                            return None;
                                        }
                                    }
                                    kk += 1;
                                }
                            }
                            m += 1;
                        }
                        let mut kept: Eq = Vec::new();
                        let mut u: usize = 0;
                        while u < eq.len()
                            invariant
                                u <= eq@.len(),
                                eq_ok(eq@, v as nat),
                                eq_ok(kept@, v as nat),
                                self.seedable(),
                            decreases eq@.len() - u,
                        {
                            let mut any = false;
                            let mut w: usize = 0;
                            while w < eq[u].1.len()
                                invariant
                                    u < eq@.len(),
                                decreases eq@[u as int].1@.len() - w,
                            {
                                if eq[u].1[w].num != 0 {
                                    any = true;
                                }
                                w += 1;
                            }
                            if any && self.nonzero(&eq[u].0) {
                                let ghost k0 = kept@;
                                kept.push((copy_idx(&eq[u].0), copy_qs(&eq[u].1)));
                                proof {
                                    assert forall|t2: int| 0 <= t2 < kept@.len() implies (#[trigger] kept@[t2]).1@.len() == v && qs_ok(kept@[t2].1@) by {
                                        if t2 < k0.len() {
                                            assert(kept@[t2] == k0[t2]);
                                        }
                                    }
                                }
                            }
                            u += 1;
                        }
                        if kept.len() > 0 {
                            let ghost r0 = raw@;
                            raw.push(kept);
                            proof {
                                assert forall|e: int| 0 <= e < raw@.len() implies eq_ok(#[trigger] raw@[e]@, v as nat) by {
                                    if e < r0.len() {
                                        assert(raw@[e] == r0[e]);
                                    }
                                }
                            }
                        }
                        j += 1;
                    }
                    i += 1;
                }
                si += 1;
            }
            let mut si: usize = 0;
            while si < seeds.len()
                decreases seeds@.len() - si,
            {
                set_insert(&mut all, &seeds[si]);
                si += 1;
            }
            sector += 1;
        }
        self.finish(raw, all)
    }

    /// The symmetries as identities, the integrals in Laporta's order, and every equation
    /// scaled to integer coefficients.
    fn finish(&self, raw: Vec<Eq>, all: Vec<Index>) -> (r: Option<System>)
        requires
            self.seedable(),
            forall|e: int| 0 <= e < raw@.len() ==> eq_ok(#[trigger] raw@[e]@, (self.vars@.len() + 1) as nat),
        ensures
            r matches Some(sys) ==> sys.wf() && sys.var_names() == self.vars@,
            r matches Some(sys) ==> laporta_sorted(sys.columns(), self.lines as nat),
            r matches Some(sys) ==> distinct_idx(sys.columns()),
    {
        let n = self.props.len();
        let v = self.vars.len() + 1;
        let mut raw = raw;
        let mut seen: Vec<Index> = Vec::new();
        let mut e: usize = 0;
        while e < raw.len()
            invariant
                ascending_set(seen@),
            decreases raw@.len() - e,
        {
            let mut t: usize = 0;
            while t < raw[e].len()
                invariant
                    e < raw@.len(),
                    ascending_set(seen@),
                decreases raw@[e as int]@.len() - t,
            {
                set_insert(&mut seen, &raw[e][t].0);
                t += 1;
            }
            e += 1;
        }
        let mut snapshot: Vec<Index> = Vec::new();
        let mut i: usize = 0;
        while i < seen.len()
            invariant
                ascending_set(seen@),
            decreases seen@.len() - i,
        {
            snapshot.push(copy_idx(&seen[i]));
            i += 1;
        }
        let mut i: usize = 0;
        while i < snapshot.len()
            invariant
                self.seedable(),
                n == self.props@.len(),
                v == self.vars@.len() + 1,
                forall|e2: int| 0 <= e2 < raw@.len() ==> eq_ok(#[trigger] raw@[e2]@, v as nat),
                ascending_set(seen@),
            decreases snapshot@.len() - i,
        {
            let a = &snapshot[i];
            if a.len() > n {
                return None;
            }
            let mut si: usize = 0;
            while si < self.symmetries.len()
                invariant
                    self.seedable(),
                    n == self.props@.len(),
                    v == self.vars@.len() + 1,
                    a@.len() <= n,
                    forall|e2: int| 0 <= e2 < raw@.len() ==> eq_ok(#[trigger] raw@[e2]@, v as nat),
                    ascending_set(seen@),
                decreases self.symmetries@.len() - si,
            {
                let perm = &self.symmetries[si];
                assert(perm@.len() == n);
                let mut b: Vec<i32> = vec![0i32; n];
                let mut m: usize = 0;
                while m < a.len()
                    invariant
                        m <= a@.len(),
                        a@.len() <= n,
                        b@.len() == n,
                        perm@.len() == n,
                        forall|w: int| 0 <= w < n ==> #[trigger] perm@[w] < n,
                    decreases a@.len() - m,
                {
                    b.set(perm[m], a[m]);
                    m += 1;
                }
                if !idx_eq(&b, a) {
                    let one_lin: [i64; 1] = [1];
                    let one = match self.form(&one_lin, q_int(1)) {
                        Some(f) => f,
                        None => {
                            return None;
                        },
                    };
                    let mut eq: Eq = Vec::new();
                    if !term(&mut eq, a, &one, q_int(1)) {
                        return None;
                    }
                    if !term(&mut eq, &b, &one, q_int(-1)) {
                        return None;
                    }
                    set_insert(&mut seen, &b);
                    let ghost r0 = raw@;
                    raw.push(eq);
                    proof {
                        assert forall|e2: int| 0 <= e2 < raw@.len() implies eq_ok(#[trigger] raw@[e2]@, v as nat) by {
                            if e2 < r0.len() {
                                assert(raw@[e2] == r0[e2]);
                            }
                        }
                    }
                }
                si += 1;
            }
            i += 1;
        }
        proof {
            lemma_ascending_distinct(seen@);
        }
        let integrals = sort_by_key(seen, self.lines);
        let mut eqs: Vec<Vec<(usize, Lin)>> = Vec::new();
        let mut e: usize = 0;
        while e < raw.len()
            invariant
                v == self.vars@.len() + 1,
                forall|e2: int| 0 <= e2 < raw@.len() ==> eq_ok(#[trigger] raw@[e2]@, v as nat),
                forall|x: int, t: int|
                    0 <= x < eqs@.len() && 0 <= t < eqs@[x]@.len() ==> (#[trigger] eqs@[x]@[t]).0 < integrals@.len()
                        && eqs@[x]@[t].1@.len() == v,
            decreases raw@.len() - e,
        {
            let eq = &raw[e];
            assert(eq_ok(eq@, v as nat));
            let mut l: i64 = 1;
            let mut t: usize = 0;
            while t < eq.len()
                invariant
                    t <= eq@.len(),
                    eq_ok(eq@, v as nat),
                    l > 0,
                decreases eq@.len() - t,
            {
                let f = &eq[t].1;
                let mut w: usize = 0;
                while w < f.len()
                    invariant
                        w <= f@.len(),
                        qs_ok(f@),
                        l > 0,
                    decreases f@.len() - w,
                {
                    let d = f[w].den;
                    if l.checked_mul(d).is_none() {
                        return None;
                    }
                    l = lcm_i64(l, d);
                    w += 1;
                }
                t += 1;
            }
            let mut row: Vec<(usize, Lin)> = Vec::new();
            let mut t: usize = 0;
            while t < eq.len()
                invariant
                    t <= eq@.len(),
                    eq_ok(eq@, v as nat),
                    l > 0,
                    forall|u: int| 0 <= u < row@.len() ==> (#[trigger] row@[u]).0 < integrals@.len() && row@[u].1@.len() == v,
                decreases eq@.len() - t,
            {
                let col = match position(&integrals, &eq[t].0) {
                    Some(c) => c,
                    None => {
                        return None;
                    },
                };
                let f = &eq[t].1;
                let mut lin: Lin = Vec::new();
                let mut w: usize = 0;
                while w < f.len()
                    invariant
                        w <= f@.len(),
                        qs_ok(f@),
                        l > 0,
                        lin@.len() == w,
                    decreases f@.len() - w,
                {
                    let c = match q_mul(f[w], q_int(l)) {
                        Some(c) => c,
                        None => {
                            return None;
                        },
                    };
                    lin.push(c.num / c.den);
                    w += 1;
                }
                let ghost r0 = row@;
                row.push((col, lin));
                proof {
                    assert forall|u: int| 0 <= u < row@.len() implies (#[trigger] row@[u]).0 < integrals@.len() && row@[u].1@.len() == v by {
                        if u < r0.len() {
                            assert(row@[u] == r0[u]);
                        }
                    }
                }
                t += 1;
            }
            let ghost q0 = eqs@;
            eqs.push(row);
            proof {
                assert forall|x: int, t2: int|
                    0 <= x < eqs@.len() && 0 <= t2 < eqs@[x]@.len() implies (#[trigger] eqs@[x]@[t2]).0 < integrals@.len()
                        && eqs@[x]@[t2].1@.len() == v by {
                    if x < q0.len() {
                        assert(eqs@[x] == q0[x]);
                    }
                }
            }
            e += 1;
        }
        let mut vars: Vec<&'static str> = Vec::new();
        let mut i: usize = 0;
        while i < self.vars.len()
            invariant
                i <= self.vars@.len(),
                vars@ == self.vars@.subrange(0, i as int),
            decreases self.vars@.len() - i,
        {
            vars.push(self.vars[i]);
            i += 1;
            assert(vars@ =~= self.vars@.subrange(0, i as int));
        }
        assert(self.vars@.subrange(0, self.vars@.len() as int) =~= self.vars@);
        Some(System { integrals, vars, seeds: all, eqs })
    }

    /// Identities seeded at every index with up to `dots` extra powers on its lines and
    /// `numerators` powers of numerators in every sector, plus the symmetries. `None` if the
    /// propagators do not span the scalar products independently or a value leaves `i64`.
    pub fn system(&self, dots: i32, numerators: i32) -> (r: Option<System>)
        requires
            self.seedable(),
        ensures
            r matches Some(sys) ==> sys.wf() && sys.var_names() == self.vars@,
            r matches Some(sys) ==> laporta_sorted(sys.columns(), self.lines as nat),
            r matches Some(sys) ==> distinct_idx(sys.columns()),
    {
        let top = if dots > numerators {
            dots
        } else {
            numerators
        };
        let mut full: Vec<(u32, i32)> = Vec::new();
        let mut limit: u64 = 1;
        let mut z: usize = 0;
        proof {
            vstd::arithmetic::power2::lemma2_to64();
        }
        while z < self.lines
            invariant
                z <= self.lines,
                self.lines < 32,
                1 <= limit <= 0x1_0000_0000,
                limit == vstd::arithmetic::power2::pow2(z as nat),
            decreases self.lines - z,
        {
            proof {
                vstd::arithmetic::power2::lemma2_to64();
                vstd::arithmetic::power2::lemma_pow2_unfold((z + 1) as nat);
                vstd::arithmetic::power2::lemma_pow2_strictly_increases((z + 1) as nat, 32);
            }
            limit = limit * 2;
            z += 1;
        }
        let mut s: u64 = 1;
        while s < limit
            invariant
                limit <= 0x1_0000_0000,
            decreases limit - s,
        {
            full.push((s as u32, top));
            s += 1;
        }
        self.seeded(dots, numerators, &full)
    }

    /// The family with the kinematic variable `name` set to `value`, one fewer to reconstruct.
    /// Setting a scale to 1 loses nothing, since dimensional analysis puts it back.
    pub fn fix(self, name: &str, value: i64) -> (r: Self)
        requires
            exists|i: int| 1 <= i && first_var(self.vars@, name@, i) && {
                &&& forall|m: int| 0 <= m < self.props@.len() ==> substitution_fits((#[trigger] self.props@[m]).1@, i + 1, value)
                &&& forall|a: int, b: int| 0 <= a < self.legs@.len() && 0 <= b < self.legs@[a]@.len() ==> substitution_fits(
                    (#[trigger] self.legs@[a]@[b])@,
                    i + 1,
                    value,
                )
            },
        ensures
            forall|i: int| first_var(self.vars@, name@, i) ==> {
                &&& r.vars@ == self.vars@.remove(i)
                &&& r.props@.len() == self.props@.len()
                &&& forall|m: int| 0 <= m < r.props@.len() ==> (#[trigger] r.props@[m]).0@ == self.props@[m].0@
                    && r.props@[m].1@ == substituted(self.props@[m].1@, i + 1, value)
                &&& r.legs@.len() == self.legs@.len()
                &&& forall|a: int| 0 <= a < r.legs@.len() ==> (#[trigger] r.legs@[a])@.len() == self.legs@[a]@.len()
                &&& forall|a: int, b: int| 0 <= a < r.legs@.len() && 0 <= b < r.legs@[a]@.len() ==> (#[trigger] r.legs@[a]@[b])@
                    == substituted(self.legs@[a]@[b]@, i + 1, value)
            },
            r.loops == self.loops,
            r.lines == self.lines,
            r.symmetries == self.symmetries,
    {
        let ghost i0 = choose|i: int| 1 <= i && first_var(self.vars@, name@, i) && {
            &&& forall|m: int| 0 <= m < self.props@.len() ==> substitution_fits((#[trigger] self.props@[m]).1@, i + 1, value)
            &&& forall|a: int, b: int| 0 <= a < self.legs@.len() && 0 <= b < self.legs@[a]@.len() ==> substitution_fits(
                (#[trigger] self.legs@[a]@[b])@,
                i + 1,
                value,
            )
        };
        let mut pos: usize = 0;
        while pos < self.vars.len() && !str_eq(self.vars[pos], name)
            invariant
                pos <= i0,
                first_var(self.vars@, name@, i0),
            decreases self.vars@.len() - pos,
        {
            pos += 1;
        }
        assert(pos == i0);
        let k = pos + 1;
        let mut props: Vec<(Vec<i64>, Lin)> = Vec::new();
        let mut m: usize = 0;
        while m < self.props.len()
            invariant
                m <= self.props@.len(),
                k == i0 + 1,
                k >= 2,
                forall|w: int| 0 <= w < self.props@.len() ==> substitution_fits((#[trigger] self.props@[w]).1@, k as int, value),
                props@.len() == m,
                forall|w: int| 0 <= w < m ==> (#[trigger] props@[w]).0@ == self.props@[w].0@
                    && props@[w].1@ == substituted(self.props@[w].1@, k as int, value),
            decreases self.props@.len() - m,
        {
            let q = copy_lin(&self.props[m].0);
            let lin = substitute(&self.props[m].1, k, value);
            props.push((q, lin));
            m += 1;
        }
        let mut legs: Vec<Vec<Lin>> = Vec::new();
        let mut a: usize = 0;
        while a < self.legs.len()
            invariant
                a <= self.legs@.len(),
                k == i0 + 1,
                k >= 2,
                forall|x: int, y: int| 0 <= x < self.legs@.len() && 0 <= y < self.legs@[x]@.len() ==> substitution_fits(
                    (#[trigger] self.legs@[x]@[y])@,
                    k as int,
                    value,
                ),
                legs@.len() == a,
                forall|x: int| 0 <= x < a ==> (#[trigger] legs@[x])@.len() == self.legs@[x]@.len(),
                forall|x: int, y: int| 0 <= x < a && 0 <= y < legs@[x]@.len() ==> (#[trigger] legs@[x]@[y])@
                    == substituted(self.legs@[x]@[y]@, k as int, value),
            decreases self.legs@.len() - a,
        {
            let mut row: Vec<Lin> = Vec::new();
            let mut b: usize = 0;
            while b < self.legs[a].len()
                invariant
                    a < self.legs@.len(),
                    b <= self.legs@[a as int]@.len(),
                    k >= 2,
                    forall|x: int, y: int| 0 <= x < self.legs@.len() && 0 <= y < self.legs@[x]@.len() ==> substitution_fits(
                        (#[trigger] self.legs@[x]@[y])@,
                        k as int,
                        value,
                    ),
                    row@.len() == b,
                    forall|y: int| 0 <= y < b ==> (#[trigger] row@[y])@ == substituted(self.legs@[a as int]@[y]@, k as int, value),
                decreases self.legs@[a as int]@.len() - b,
            {
                row.push(substitute(&self.legs[a][b], k, value));
                b += 1;
            }
            let ghost l0 = legs@;
            legs.push(row);
            proof {
                assert forall|x: int, y: int| 0 <= x < a + 1 && 0 <= y < legs@[x]@.len() implies (#[trigger] legs@[x]@[y])@
                    == substituted(self.legs@[x]@[y]@, k as int, value) by {
                    if x < a {
                        assert(legs@[x] == l0[x]);
                    }
                }
                assert forall|x: int| 0 <= x < a + 1 implies (#[trigger] legs@[x])@.len() == self.legs@[x]@.len() by {
                    if x < a {
                        assert(legs@[x] == l0[x]);
                    }
                }
            }
            a += 1;
        }
        let Family { vars, loops, props: _, lines, legs: _, symmetries } = self;
        let mut vars = vars;
        vars.remove(k - 1);
        Family { vars, loops, props, lines, legs, symmetries }
    }

    /// Reduces `targets` to masters. Seeds carry fewer dots and numerators the fewer lines their
    /// sector has, up to `dots` and `numerators` in the top sector, and a sector is widened
    /// whenever one of its integrals comes out a master without being a seed, the mark of an
    /// identity missing there. `None` if a system cannot be built, a target is not among its
    /// integrals, or the coefficients do not lift.
    pub fn reduce(&self, targets: &[Index], dots: i32, numerators: i32) -> (r: Option<(System, Plan, Vec<Fraction>)>)
        requires
            self.seedable(),
        ensures
            r matches Some(t) ==> {
                &&& t.0.wf()
                &&& t.0.var_names() == self.vars@
                &&& distinct_idx(t.0.columns())
                &&& t.1.target_columns().len() == targets@.len()
                &&& forall|i: int|
                    0 <= i < targets@.len() ==> {
                        &&& (#[trigger] t.1.target_columns()[i]) < t.0.columns().len()
                        &&& t.0.columns()[t.1.target_columns()[i] as int]@ == targets@[i]@
                    }
            },
    {
        let top = if dots > numerators {
            dots
        } else {
            numerators
        };
        let ghost cap: int = if top > 0 {
            top as int
        } else {
            0
        };
        let ghost k: int = vstd::arithmetic::power2::pow2(self.lines as nat) as int;
        let mut extra: Vec<(u32, i32)> = Vec::new();
        loop
            invariant
                self.seedable(),
                cap == (if top > 0 { top as int } else { 0 }),
                k == vstd::arithmetic::power2::pow2(self.lines as nat),
                widths_ok(extra@, k, cap),
            decreases budget(extra@, k, cap),
        {
            proof {
                vstd::arithmetic::power2::lemma2_to64();
                vstd::arithmetic::power2::lemma_pow2_pos(self.lines as nat);
                lemma_widths_budget(extra@, k, cap);
            }
            let ghost b0 = budget(extra@, k, cap);
            let system = match self.seeded(dots, numerators, &extra) {
                Some(s) => s,
                None => return None,
            };
            if system.integrals.len() == usize::MAX {
                return None;
            }
            let mut t: usize = 0;
            while t < targets.len()
                invariant
                    t <= targets@.len(),
                    forall|u: int| 0 <= u < t ==> in_set(system.columns(), (#[trigger] targets@[u])@),
                    self.seedable(),
                    cap == (if top > 0 { top as int } else { 0 }),
                    k == vstd::arithmetic::power2::pow2(self.lines as nat),
                    widths_ok(extra@, k, cap),
                    budget(extra@, k, cap) == b0,
                    b0 >= 0,
                decreases targets@.len() - t,
            {
                match position(&system.integrals, &targets[t]) {
                    Some(j) => {
                        assert(system.columns()[j as int]@ == targets@[t as int]@);
                    },
                    None => return None,
                }
                t += 1;
            }
            let plan = system.learn(targets, 1);
            let masters = plan.master_list();
            let mut widened = false;
            let mut i: usize = 0;
            while i < masters.len()
                invariant
                    self.seedable(),
                    cap == (if top > 0 { top as int } else { 0 }),
                    k == vstd::arithmetic::power2::pow2(self.lines as nat),
                    widths_ok(extra@, k, cap),
                    b0 >= 0,
                    cap <= i32::MAX,
                    top as int <= cap,
                    budget(extra@, k, cap) <= b0,
                    widened ==> budget(extra@, k, cap) < b0,
                decreases masters@.len() - i,
            {
                let m = masters[i];
                if m < system.integrals.len() && self.lines <= system.integrals[m].len() {
                    let a = &system.integrals[m];
                    let sector = self.sector(a);
                    let mut w: usize = 0;
                    while w < extra.len() && extra[w].0 != sector
                        invariant
                            w <= extra@.len(),
                            forall|j: int| 0 <= j < w ==> (#[trigger] extra@[j]).0 != sector,
                        decreases extra@.len() - w,
                    {
                        w += 1;
                    }
                    if w == extra.len() {
                        let ghost e0 = extra@;
                        extra.push((sector, 0));
                        proof {
                            lemma_budget_push(e0, k, cap, sector);
                        }
                    }
                    let mut seeded = false;
                    let mut si: usize = 0;
                    while si < system.seeds.len()
                        invariant
                            si <= system.seeds@.len(),
                        decreases system.seeds@.len() - si,
                    {
                        if idx_eq(&system.seeds[si], a) {
                            seeded = true;
                        }
                        si += 1;
                    }
                    let (key, width) = extra[w];
                    if !seeded && width < top {
                        let ghost e0 = extra@;
                        extra.set(w, (key, width + 1));
                        proof {
                            lemma_budget_raise(e0, k, cap, w as int);
                        }
                        widened = true;
                    }
                }
                i += 1;
            }
            if !widened {
                let coefficients = match system.lift(&plan, 1) {
                    Some(c) => c,
                    None => return None,
                };
                return Some((system, plan, coefficients));
            }
            proof {
                vstd::arithmetic::power2::lemma_pow2_pos(self.lines as nat);
                lemma_widths_budget(extra@, k, cap);
            }
        }
    }

    /// The lines of `a` among the first `lines`, as a bit set.
    fn sector(&self, a: &[i32]) -> (s: u32)
        requires
            self.lines <= a@.len(),
            self.lines < 32,
        ensures
            s < vstd::arithmetic::power2::pow2(self.lines as nat),
    {
        let mut s: u64 = 0;
        let mut bit: u64 = 1;
        let mut m: usize = 0;
        proof {
            vstd::arithmetic::power2::lemma2_to64();
        }
        while m < self.lines
            invariant
                m <= self.lines,
                self.lines < 32,
                self.lines <= a@.len(),
                s < bit,
                bit <= 0x1_0000_0000,
                m < 32 ==> bit == vstd::arithmetic::power2::pow2(m as nat),
            decreases self.lines - m,
        {
            proof {
                vstd::arithmetic::power2::lemma_pow2_unfold((m + 1) as nat);
                vstd::arithmetic::power2::lemma_pow2_strictly_increases(m as nat, 32);
                vstd::arithmetic::power2::lemma2_to64();
            }
            if a[m] > 0 {
                s = s + bit;
            }
            bit = bit * 2;
            m += 1;
        }
        s as u32
    }
}

/// An equation in progress: rational forms by integral, ascending by index.
type Eq = Vec<(Index, Vec<Q>)>;

/// Every form of the equation has `v` coefficients with positive denominators.
pub open spec fn eq_ok(eq: Seq<(Index, Vec<Q>)>, v: nat) -> bool {
    forall|t: int| 0 <= t < eq.len() ==> (#[trigger] eq[t]).1@.len() == v && qs_ok(eq[t].1@)
}

/// Adds `k f` to the form of `a` in `eq`, starting from zero; `false` on overflow.
fn term(eq: &mut Eq, a: &Index, f: &Vec<Q>, k: Q) -> (ok: bool)
    requires
        eq_ok(old(eq)@, f@.len()),
        qs_ok(f@),
        q_ok(k),
    ensures
        eq_ok(final(eq)@, f@.len()),
        ok ==> exists|i: int|
            0 <= i < final(eq)@.len() && (#[trigger] final(eq)@[i]).0@ == a@ && ({
                ||| i < old(eq)@.len() && old(eq)@[i].0@ == a@ && final(eq)@ == old(eq)@.update(i, final(eq)@[i]) && forall|x: int|
                    0 <= x < f@.len() ==> q_axpy(#[trigger] final(eq)@[i].1@[x], old(eq)@[i].1@[x], f@[x], k)
                ||| final(eq)@ == old(eq)@.insert(i, final(eq)@[i]) && forall|x: int|
                    0 <= x < f@.len() ==> q_axpy(#[trigger] final(eq)@[i].1@[x], q_zero(), f@[x], k)
            }),
{
    let mut i: usize = 0;
    while i < eq.len() && idx_less(&eq[i].0, a)
        invariant
            i <= eq@.len(),
            eq@ == old(eq)@,
        decreases eq@.len() - i,
    {
        i += 1;
    }
    let ghost e00 = eq@;
    let ghost found = i < eq@.len() && eq@[i as int].0@ == a@;
    if !(i < eq.len() && idx_eq(&eq[i].0, a)) {
        let ghost e0 = eq@;
        eq.insert(i, (copy_idx(a), zeros(f.len())));
        proof {
            assert forall|t: int| 0 <= t < eq@.len() implies (#[trigger] eq@[t]).1@.len() == f@.len() && qs_ok(eq@[t].1@) by {
                if t < i {
                    assert(eq@[t] == e0[t]);
                } else if t > i {
                    assert(eq@[t] == e0[t - 1]);
                }
            }
        }
    }
    let ghost e1 = eq@;
    let mut form = copy_qs(&eq[i].1);
    let ghost f0 = form@;
    if !axpy(&mut form, f, k) {
        return false;
    }
    let key = copy_idx(&eq[i].0);
    eq.set(i, (key, form));
    proof {
        assert forall|t: int| 0 <= t < eq@.len() implies (#[trigger] eq@[t]).1@.len() == f@.len() && qs_ok(eq@[t].1@) by {
            if t != i {
                assert(eq@[t] == e1[t]);
            }
        }
        assert(eq@[i as int].0@ == a@);
        if found {
            assert(e1 == e00);
            assert(eq@ =~= e00.update(i as int, eq@[i as int]));
            assert forall|x: int| 0 <= x < f@.len() implies q_axpy(#[trigger] eq@[i as int].1@[x], e00[i as int].1@[x], f@[x], k) by {
                assert(f0[x] == e00[i as int].1@[x]);
            }
            assert(0 <= i < eq@.len() && eq@[i as int].0@ == a@ && i < e00.len() && e00[i as int].0@ == a@ && eq@ == e00.update(
                i as int,
                eq@[i as int],
            ));
        } else {
            assert(eq@ =~= e00.insert(i as int, eq@[i as int]));
            assert forall|x: int| 0 <= x < f@.len() implies q_axpy(#[trigger] eq@[i as int].1@[x], q_zero(), f@[x], k) by {
                assert(f0[x] == q_zero());
            }
            assert(0 <= i < eq@.len() && eq@[i as int].0@ == a@ && eq@ == e00.insert(i as int, eq@[i as int]));
        }
        assert(e00 == old(eq)@);
    }
    true
}

/// The entries above zero among the first `k` that are also among the first `lines`.
pub open spec fn lines_upto(a: Seq<i32>, lines: nat, k: nat) -> nat
    decreases k,
{
    if k == 0 {
        0
    } else {
        lines_upto(a, lines, (k - 1) as nat) + (if a[k - 1] > 0 && k - 1 < lines {
            1nat
        } else {
            0nat
        })
    }
}

/// The sum of the entries above zero among the first `k`: the dots and the lines.
pub open spec fn dots_upto(a: Seq<i32>, k: nat) -> int
    decreases k,
{
    if k == 0 {
        0
    } else {
        dots_upto(a, (k - 1) as nat) + (if a[k - 1] > 0 {
            a[k - 1] as int
        } else {
            0
        })
    }
}

/// The sum of the negated entries at most zero among the first `k`: the numerator powers.
pub open spec fn nums_upto(a: Seq<i32>, k: nat) -> int
    decreases k,
{
    if k == 0 {
        0
    } else {
        nums_upto(a, (k - 1) as nat) + (if a[k - 1] > 0 {
            0
        } else {
            -(a[k - 1] as int)
        })
    }
}

/// Lexicographic from the last entry, a proper prefix of the reversed sequence first.
pub open spec fn rev_lt(a: Seq<i32>, b: Seq<i32>) -> bool
    decreases a.len(),
{
    if a.len() == 0 {
        b.len() > 0
    } else if b.len() == 0 {
        false
    } else if a.last() != b.last() {
        a.last() < b.last()
    } else {
        rev_lt(a.drop_last(), b.drop_last())
    }
}

/// Laporta's order: by lines, then dots, then numerators, then the indices from the last.
pub open spec fn key_lt(a: Seq<i32>, b: Seq<i32>, lines: nat) -> bool {
    let (ta, tb) = (lines_upto(a, lines, a.len()), lines_upto(b, lines, b.len()));
    let (pa, pb) = (dots_upto(a, a.len()), dots_upto(b, b.len()));
    let (na, nb) = (nums_upto(a, a.len()), nums_upto(b, b.len()));
    ||| ta < tb
    ||| ta == tb && pa < pb
    ||| ta == tb && pa == pb && na < nb
    ||| ta == tb && pa == pb && na == nb && rev_lt(a, b)
}

/// Every integral comes no earlier than those before it.
pub open spec fn laporta_sorted(s: Seq<Index>, lines: nat) -> bool {
    forall|i: int, j: int| 0 <= i < j < s.len() ==> !key_lt(#[trigger] s[j]@, #[trigger] s[i]@, lines)
}

/// The reversed order is a strict order.
proof fn lemma_rev_lt_order(a: Seq<i32>, b: Seq<i32>, c: Seq<i32>)
    ensures
        rev_lt(a, b) ==> !rev_lt(b, a),
        rev_lt(a, b) && rev_lt(b, c) ==> rev_lt(a, c),
    decreases a.len(),
{
    if a.len() > 0 && b.len() > 0 && c.len() > 0 {
        lemma_rev_lt_order(a.drop_last(), b.drop_last(), c.drop_last());
    } else if a.len() > 0 && b.len() > 0 {
        lemma_rev_lt_order(a.drop_last(), b.drop_last(), c);
    }
}

/// Laporta's order is a strict order.
proof fn lemma_key_order(a: Seq<i32>, b: Seq<i32>, c: Seq<i32>, lines: nat)
    ensures
        key_lt(a, b, lines) ==> !key_lt(b, a, lines),
        key_lt(a, b, lines) && key_lt(b, c, lines) ==> key_lt(a, c, lines),
{
    lemma_rev_lt_order(a, b, c);
    lemma_rev_lt_order(b, a, c);
}

/// Laporta's order of integrals: by lines, then dots, then numerators, then the indices from
/// the last.
fn key_less(a: &Vec<i32>, b: &Vec<i32>, lines: usize) -> (r: bool)
    ensures
        r == key_lt(a@, b@, lines as nat),
{
    let ka = key(a, lines);
    let kb = key(b, lines);
    if ka.0 != kb.0 {
        return ka.0 < kb.0;
    }
    if ka.1 != kb.1 {
        return ka.1 < kb.1;
    }
    if ka.2 != kb.2 {
        return ka.2 < kb.2;
    }
    let mut i: usize = 0;
    proof {
        assert(a@.subrange(0, a@.len() as int) =~= a@);
        assert(b@.subrange(0, b@.len() as int) =~= b@);
    }
    while i < a.len() && i < b.len()
        invariant
            i <= a@.len(),
            i <= b@.len(),
            rev_lt(a@, b@) == rev_lt(a@.subrange(0, a@.len() - i), b@.subrange(0, b@.len() - i)),
            lines_upto(a@, lines as nat, a@.len()) == lines_upto(b@, lines as nat, b@.len()),
            dots_upto(a@, a@.len()) == dots_upto(b@, b@.len()),
            nums_upto(a@, a@.len()) == nums_upto(b@, b@.len()),
        decreases a@.len() - i,
    {
        let x = a[a.len() - 1 - i];
        let y = b[b.len() - 1 - i];
        let ghost (sa, sb) = (a@.subrange(0, a@.len() - i), b@.subrange(0, b@.len() - i));
        proof {
            assert(sa.last() == x && sb.last() == y);
        }
        if x != y {
            return x < y;
        }
        proof {
            assert(sa.drop_last() =~= a@.subrange(0, a@.len() - i - 1));
            assert(sb.drop_last() =~= b@.subrange(0, b@.len() - i - 1));
        }
        i += 1;
    }
    a.len() < b.len()
}

/// The lines of `a` among the first `lines`, and its dots and numerators as totals.
fn key(a: &Vec<i32>, lines: usize) -> (r: (usize, i128, i128))
    ensures
        r.0 == lines_upto(a@, lines as nat, a@.len()),
        r.1 == dots_upto(a@, a@.len()),
        r.2 == nums_upto(a@, a@.len()),
{
    let mut t: usize = 0;
    let mut pos: i128 = 0;
    let mut neg: i128 = 0;
    let mut i: usize = 0;
    while i < a.len()
        invariant
            i <= a@.len(),
            t <= i,
            0 <= pos <= i * 0x8000_0000,
            0 <= neg <= i * 0x8000_0000,
            i <= usize::MAX,
            t == lines_upto(a@, lines as nat, i as nat),
            pos == dots_upto(a@, i as nat),
            neg == nums_upto(a@, i as nat),
        decreases a@.len() - i,
    {
        let x = a[i];
        if x > 0 {
            pos = pos + x as i128;
            if i < lines {
                t += 1;
            }
        } else {
            neg = neg - x as i128;
        }
        i += 1;
    }
    (t, pos, neg)
}

/// The identities of a family: integrals by column, and equations as linear forms in the
/// variables per column.
#[derive(Debug)]
pub struct System {
    pub integrals: Vec<Index>,
    pub vars: Vec<&'static str>,
    seeds: Vec<Index>,
    eqs: Vec<Vec<(usize, Lin)>>,
}

impl System {
    /// Every equation names columns of `integrals`, with a coefficient per variable and `1`.
    pub closed spec fn wf(&self) -> bool {
        forall|e: int, t: int|
            0 <= e < self.eqs@.len() && 0 <= t < self.eqs@[e]@.len() ==> (#[trigger] self.eqs@[e]@[t]).0
                < self.integrals@.len() && self.eqs@[e]@[t].1@.len() == self.vars@.len() + 1
    }

    /// The number of equations.
    pub closed spec fn size(&self) -> nat {
        self.eqs@.len()
    }

    /// The names of the kinematic variables.
    pub closed spec fn var_names(&self) -> Seq<&'static str> {
        self.vars@
    }

    /// The integrals, by column.
    pub closed spec fn columns(&self) -> Seq<Index> {
        self.integrals@
    }

    /// Equation `e`: a column and a linear form per integral in it.
    pub closed spec fn equation(&self, e: int) -> Seq<(usize, Lin)> {
        self.eqs@[e]@
    }

    /// The number of equations.
    pub fn len(&self) -> (n: usize)
        ensures
            n == self.size(),
    {
        self.eqs.len()
    }

    /// Whether there are no equations.
    pub fn is_empty(&self) -> (b: bool)
        ensures
            b == (self.size() == 0),
    {
        self.eqs.len() == 0
    }

    /// The column of the integral `a`.
    pub fn column(&self, a: &Index) -> (j: usize)
        requires
            in_set(self.columns(), a@),
        ensures
            j < self.columns().len(),
            self.columns()[j as int]@ == a@,
            forall|i: int| 0 <= i < j ==> (#[trigger] self.columns()[i])@ != a@,
    {
        match position(&self.integrals, a) {
            Some(j) => j,
            None => {
                proof {
                    let i = choose|i: int| 0 <= i < self.integrals@.len() && (#[trigger] self.integrals@[i])@ == a@;
                    assert(self.integrals@[i]@ == a@);
                }
                0
            },
        }
    }

    /// Equation `e` at the numeric point `x`: per integral, its linear form at `x` mod `p`.
    #[verifier::spinoff_prover]
    pub fn row(&self, e: usize, x: &[u64], p: u64) -> (r: Row)
        requires
            self.wf(),
            e < self.size(),
            modulus(p),
        ensures
            r@.len() == self.equation(e as int).len(),
            forall|t: int|
                0 <= t < r@.len() ==> {
                    let (j, c) = #[trigger] self.equation(e as int)[t];
                    &&& r@[t].0 == j
                    &&& r@[t].0 < self.columns().len()
                    &&& r@[t].1 == lin_at(c@, x@, zip_len(c@, x@)) % (p as int)
                },
    {
        let eq = &self.eqs[e];
        let mut out: Row = Vec::new();
        let mut t: usize = 0;
        while t < eq.len()
            invariant
                t <= eq@.len(),
                eq@ == self.equation(e as int),
                self.wf(),
                e < self.size(),
                modulus(p),
                out@.len() == t,
                forall|u: int|
                    0 <= u < t ==> {
                        let (j, c) = #[trigger] self.equation(e as int)[u];
                        &&& out@[u].0 == j
                        &&& out@[u].0 < self.columns().len()
                        &&& out@[u].1 == lin_at(c@, x@, zip_len(c@, x@)) % (p as int)
                    },
            decreases eq@.len() - t,
        {
            let c = &eq[t].1;
            assert(c@.len() == self.vars@.len() + 1);
            let acc = form_at(c, x, p);
            let ghost prev = out@;
            out.push((eq[t].0, acc));
            proof {
                assert(eq@[t as int] == self.equation(e as int)[t as int]);
                assert forall|u: int| 0 <= u < t + 1 implies {
                    let (j, c) = #[trigger] self.equation(e as int)[u];
                    &&& out@[u].0 == j
                    &&& out@[u].0 < self.columns().len()
                    &&& out@[u].1 == lin_at(c@, x@, zip_len(c@, x@)) % (p as int)
                } by {
                    if u < t {
                        assert(out@[u] == prev[u]);
                    } else {
                        assert(out@[u] == (eq@[t as int].0, acc));
                        assert(self.equation(e as int)[u].0 < self.columns().len());
                    }
                }
            }
            t += 1;
        }
        out
    }

    /// Eliminates everything at a point named by `seed`, modulo the largest prime below
    /// 2^62, and keeps what `targets` need.
    pub fn learn(&self, targets: &[Index], seed: u64) -> (plan: Plan)
        requires
            self.wf(),
            self.columns().len() < usize::MAX,
            forall|t: int| 0 <= t < targets@.len() ==> in_set(self.columns(), (#[trigger] targets@[t])@),
        ensures
            plan.target_columns().len() == targets@.len(),
            forall|t: int|
                0 <= t < targets@.len() ==> {
                    &&& (#[trigger] plan.target_columns()[t]) < self.columns().len()
                    &&& self.columns()[plan.target_columns()[t] as int]@ == targets@[t]@
                },
            ascending(plan.master_columns()),
            plan.equations().len() == plan.pivot_columns().len(),
            plan.equations().len() <= self.size(),
            forall|j: int| 0 <= j < plan.equations().len() ==> #[trigger] plan.equations()[j] < self.size(),
    {
        let mut cols: Vec<usize> = Vec::new();
        let mut t: usize = 0;
        while t < targets.len()
            invariant
                t <= targets@.len(),
                cols@.len() == t,
                self.columns().len() < usize::MAX,
                forall|u: int| 0 <= u < targets@.len() ==> in_set(self.columns(), (#[trigger] targets@[u])@),
                forall|u: int|
                    0 <= u < t ==> {
                        &&& (#[trigger] cols@[u]) < self.columns().len()
                        &&& self.columns()[cols@[u] as int]@ == targets@[u]@
                    },
            decreases targets@.len() - t,
        {
            let j = self.column(&targets[t]);
            cols.push(j);
            t += 1;
        }
        let mut primes = Primes::new();
        let p = primes.next().unwrap();
        let mut x: Vec<u64> = Vec::new();
        let mut i: usize = 0;
        while i < self.vars.len()
            invariant
                i <= self.vars@.len(),
                x@.len() == i,
                p >= 3,
            decreases self.vars@.len() - i,
        {
            let key = [seed, 7, i as u64];
            x.push(point(&key, p));
            i += 1;
        }
        let mut rows: Vec<Row> = Vec::new();
        let mut e: usize = 0;
        while e < self.eqs.len()
            invariant
                e <= self.size(),
                self.wf(),
                modulus(p),
                rows@.len() == e,
                self.columns().len() < usize::MAX,
                forall|k: int| 0 <= k < e ==> columns_below((#[trigger] rows@[k])@, self.columns().len() as int),
            decreases self.size() - e,
        {
            let r = self.row(e, &x, p);
            let ghost prev = rows@;
            rows.push(r);
            proof {
                assert forall|k: int| 0 <= k < e + 1 implies columns_below((#[trigger] rows@[k])@, self.columns().len() as int) by {
                    if k < e {
                        assert(rows@[k] == prev[k]);
                    } else {
                        assert forall|u: int| 0 <= u < r@.len() implies (#[trigger] r@[u]).0 < self.columns().len() by {
                            let _ = self.equation(e as int)[u];
                        }
                    }
                }
            }
            e += 1;
        }
        proof {
            assert forall|k: int| 0 <= k < rows@.len() implies columns_below((#[trigger] rows@[k])@, usize::MAX as int) by {
                assert(columns_below(rows@[k]@, self.columns().len() as int));
            }
        }
        Plan::learn(&rows, &cols, p)
    }

    /// Every coefficient of `plan`, lifted to Q from replays at points named by `seed`:
    /// targets major, a fraction per master.
    pub fn lift(&self, plan: &Plan, seed: u64) -> (r: Option<Vec<Fraction>>)
        requires
            self.wf(),
            forall|t: int| 0 <= t < plan.target_columns().len() ==> #[trigger] plan.target_columns()[t] < usize::MAX,
        ensures
            r matches Some(fs) ==> forall|i: int|
                0 <= i < fs@.len() ==> (#[trigger] fs@[i]).num.n == self.var_names().len() && fs@[i].den.n == self.var_names().len(),
    {
        let f = |x: &[u64], p: u64| -> (y: Option<Vec<u64>>)
            requires
                self.wf(),
                forall|t: int| 0 <= t < plan.target_columns().len() ==> #[trigger] plan.target_columns()[t] < usize::MAX,
            {
                if p < 2 || p > MAX_MODULUS {
                    None
                } else {
                    let row = |e: usize| -> (r: Row)
                        requires
                            self.wf(),
                            modulus(p),
                        {
                            if e < self.len() {
                                self.row(e, x, p)
                            } else {
                                Vec::new()
                            }
                        };
                    plan.replay(row, p)
                }
            };
        crate::lift::lift(f, self.vars.len(), seed)
    }

    /// The integral of column `j` as text, `I(a_1,a_2,..)`.
    #[verifier::spinoff_prover]
    pub fn name(&self, j: usize) -> (s: String)
        requires
            j < self.columns().len(),
        ensures
            s@ == index_text(self.columns()[j as int]@),
    {
        let a = &self.integrals[j];
        let ghost parts = a@.map_values(|v: i32| int_text(v as int));
        let mut out = String::new();
        proof {
            reveal_strlit("I(");
        }
        out.append("I(");
        let mut i: usize = 0;
        while i < a.len()
            invariant
                i <= a@.len(),
                parts == a@.map_values(|v: i32| int_text(v as int)),
                out@ == seq!['I', '('] + joined(parts.take(i as int), seq![',']),
            decreases a@.len() - i,
        {
            proof {
                reveal_strlit(",");
            }
            let ghost before = out@;
            if i > 0 {
                out.append(",");
            }
            push_int(&mut out, a[i]);
            proof {
                let now = parts.take(i + 1);
                assert(now.drop_last() =~= parts.take(i as int));
                assert(now.last() == int_text(a@[i as int] as int));
                if i == 0 {
                    assert(out@ =~= seq!['I', '('] + joined(now, seq![',']));
                } else {
                    assert(out@ =~= seq!['I', '('] + joined(now, seq![',']));
                }
            }
            i += 1;
        }
        proof {
            reveal_strlit(")");
            assert(parts.take(a@.len() as int) =~= parts);
        }
        out.append(")");
        out
    }
}

/// `c_0 + c_1 x_0 + ... + c_k x_(k-1)` over the integers.
pub open spec fn lin_at(c: Seq<i64>, x: Seq<u64>, k: nat) -> int
    decreases k,
{
    if k == 0 {
        c[0] as int
    } else {
        lin_at(c, x, (k - 1) as nat) + c[k as int] * x[k - 1]
    }
}

/// How many variables a form and a point share.
pub open spec fn zip_len(c: Seq<i64>, x: Seq<u64>) -> nat {
    vstd::math::min(c.len() - 1, x.len() as int) as nat
}

/// The integral `I(a_1,a_2,..)` as text.
pub open spec fn index_text(a: Seq<i32>) -> Seq<char> {
    seq!['I', '('] + joined(a.map_values(|v: i32| int_text(v as int)), seq![',']) + seq![')']
}

/// The form `c` at the point `x`, mod `p`.
fn form_at(c: &Lin, x: &[u64], p: u64) -> (r: u64)
    requires
        c@.len() >= 1,
        modulus(p),
    ensures
        r == lin_at(c@, x@, zip_len(c@, x@)) % (p as int),
{
    let n = if c.len() - 1 < x.len() {
        c.len() - 1
    } else {
        x.len()
    };
    let mut acc = residue(c[0], p);
    let mut k: usize = 0;
    while k < n
        invariant
            k <= n,
            n + 1 <= c@.len(),
            n <= x@.len(),
            modulus(p),
            acc < p,
            acc == lin_at(c@, x@, k as nat) % (p as int),
        decreases n - k,
    {
        let b = residue(c[k + 1], p);
        let y = crate::modp::mul(b, x[k], p);
        let ghost before = lin_at(c@, x@, k as nat);
        acc = crate::modp::add(acc, y, p);
        proof {
            lemma_mul_mod_noop_left(c@[k + 1] as int, x@[k as int] as int, p as int);
            lemma_add_mod_noop(before, c@[k + 1] * x@[k as int], p as int);
            assert(lin_at(c@, x@, (k + 1) as nat) == before + c@[k + 1] * x@[k as int]);
        }
        k += 1;
    }
    acc
}

/// `v mod p` in `0..p`.
fn residue(v: i64, p: u64) -> (r: u64)
    requires
        p > 0,
    ensures
        r == (v as int) % (p as int),
        r < p,
{
    if v >= 0 {
        (v as u64) % p
    } else {
        let m: i128 = 0 - (v as i128);
        let a: u64 = (m as u64) % p;
        proof {
            let q = (m as int) / (p as int);
            lemma_fundamental_div_mod(m as int, p as int);
            assert(a == (m as int) % (p as int));
            assert(m as int == p * q + a);
            assert(v as int == -(m as int));
            assert(p * (-q) == -(p * q)) by (nonlinear_arith);
            assert(p * (-q - 1) == -(p * q) - p) by (nonlinear_arith);
            if a == 0 {
                lemma_fundamental_div_mod_converse(v as int, p as int, -q, 0);
            } else {
                lemma_fundamental_div_mod_converse(v as int, p as int, -q - 1, p - a);
            }
        }
        if a == 0 {
            0
        } else {
            p - a
        }
    }
}

/// The integrals stably sorted by `key_less`.
fn sort_by_key(v: Vec<Index>, lines: usize) -> (out: Vec<Index>)
    ensures
        out@.len() == v@.len(),
        laporta_sorted(out@, lines as nat),
        forall|x: Seq<i32>| #[trigger] in_set(out@, x) <==> in_set(v@, x),
        distinct_idx(v@) ==> distinct_idx(out@),
{
    let mut out: Vec<Index> = Vec::new();
    let mut rest = v;
    let ghost total = rest@.len();
    let ghost v0 = rest@;
    while rest.len() > 0
        invariant
            out@.len() + rest@.len() == total,
            total == v0.len(),
            laporta_sorted(out@, lines as nat),
            forall|x: Seq<i32>| #[trigger] in_set(v0, x) <==> (in_set(out@, x) || in_set(rest@, x)),
            distinct_idx(v0) ==> distinct_idx(out@) && distinct_idx(rest@),
            distinct_idx(v0) ==> forall|i: int, k: int| 0 <= i < out@.len() && 0 <= k < rest@.len() ==> (#[trigger] out@[i])@
                != (#[trigger] rest@[k])@,
        decreases rest@.len(),
    {
        let ghost r0 = rest@;
        let a = rest.remove(0);
        let mut j: usize = 0;
        while j < out.len() && !key_less(&a, &out[j], lines)
            invariant
                j <= out@.len(),
                forall|i: int| 0 <= i < j ==> !key_lt(a@, (#[trigger] out@[i])@, lines as nat),
            decreases out@.len() - j,
        {
            j += 1;
        }
        let ghost o0 = out@;
        let ghost av = a@;
        proof {
            if j < o0.len() {
                assert(key_lt(av, o0[j as int]@, lines as nat));
            }
        }
        out.insert(j, a);
        proof {
            if distinct_idx(v0) {
                assert forall|i: int, k: int| 0 <= i < k < out@.len() implies (#[trigger] out@[i])@ != (#[trigger] out@[k])@ by {
                    if k < j {
                        assert(out@[k] == o0[k] && out@[i] == o0[i]);
                    } else if k == j {
                        assert(out@[i] == o0[i]);
                        assert(o0[i]@ != r0[0]@);
                    } else if i == j {
                        assert(out@[k] == o0[k - 1]);
                        assert(o0[k - 1]@ != r0[0]@);
                    } else if i < j {
                        assert(out@[k] == o0[k - 1] && out@[i] == o0[i]);
                    } else {
                        assert(out@[k] == o0[k - 1] && out@[i] == o0[i - 1]);
                    }
                }
                assert forall|i: int, k: int| 0 <= i < k < rest@.len() implies (#[trigger] rest@[i])@ != (#[trigger] rest@[k])@ by {
                    assert(rest@[i] == r0[i + 1] && rest@[k] == r0[k + 1]);
                }
                assert forall|i: int, k: int| 0 <= i < out@.len() && 0 <= k < rest@.len() implies (#[trigger] out@[i])@
                    != (#[trigger] rest@[k])@ by {
                    assert(rest@[k] == r0[k + 1]);
                    if i < j {
                        assert(out@[i] == o0[i]);
                    } else if i == j {
                        assert(r0[0]@ != r0[k + 1]@);
                    } else {
                        assert(out@[i] == o0[i - 1]);
                    }
                }
            }
            assert forall|i: int, k: int| 0 <= i < k < out@.len() implies !key_lt(#[trigger] out@[k]@, #[trigger] out@[i]@, lines as nat) by {
                if k < j {
                    assert(out@[k] == o0[k] && out@[i] == o0[i]);
                } else if k == j {
                    assert(out@[i] == o0[i]);
                } else if i == j {
                    assert(out@[k] == o0[k - 1]);
                    lemma_key_order(o0[k - 1]@, av, o0[j as int]@, lines as nat);
                    if k - 1 > j {
                        lemma_key_order(o0[k - 1]@, av, o0[j as int]@, lines as nat);
                        lemma_key_order(av, o0[j as int]@, o0[k - 1]@, lines as nat);
                    }
                } else if i < j {
                    assert(out@[k] == o0[k - 1] && out@[i] == o0[i]);
                } else {
                    assert(out@[k] == o0[k - 1] && out@[i] == o0[i - 1]);
                }
            }
            assert forall|x: Seq<i32>| #[trigger] in_set(v0, x) <==> (in_set(out@, x) || in_set(rest@, x)) by {
                if in_set(r0, x) {
                    let t = choose|t: int| 0 <= t < r0.len() && (#[trigger] r0[t])@ == x;
                    if t == 0 {
                        assert(out@[j as int]@ == x);
                    } else {
                        assert(rest@[t - 1] == r0[t]);
                    }
                }
                if in_set(o0, x) {
                    let t = choose|t: int| 0 <= t < o0.len() && (#[trigger] o0[t])@ == x;
                    if t < j {
                        assert(out@[t] == o0[t]);
                    } else {
                        assert(out@[t + 1] == o0[t]);
                    }
                }
                if in_set(out@, x) {
                    let t = choose|t: int| 0 <= t < out@.len() && (#[trigger] out@[t])@ == x;
                    if t < j {
                        assert(out@[t] == o0[t]);
                    } else if t == j {
                        assert(r0[0]@ == x);
                    } else {
                        assert(out@[t] == o0[t - 1]);
                    }
                }
                if in_set(rest@, x) {
                    let t = choose|t: int| 0 <= t < rest@.len() && (#[trigger] rest@[t])@ == x;
                    assert(rest@[t] == r0[t + 1]);
                }
            }
        }
    }
    proof {
        assert forall|x: Seq<i32>| #[trigger] in_set(out@, x) <==> in_set(v0, x) by {
            if in_set(rest@, x) {
                let t = choose|t: int| 0 <= t < rest@.len() && (#[trigger] rest@[t])@ == x;
            }
        }
    }
    out
}

/// The position of `a` in `v`.
fn position(v: &Vec<Index>, a: &Vec<i32>) -> (r: Option<usize>)
    ensures
        r matches Some(i) ==> i < v@.len() && v@[i as int]@ == a@ && forall|j: int| 0 <= j < i ==> (#[trigger] v@[j])@ != a@,
        r is None ==> forall|i: int| 0 <= i < v@.len() ==> (#[trigger] v@[i])@ != a@,
{
    let mut i: usize = 0;
    while i < v.len()
        invariant
            i <= v@.len(),
            forall|j: int| 0 <= j < i ==> (#[trigger] v@[j])@ != a@,
        decreases v@.len() - i,
    {
        if idx_eq(&v[i], a) {
            return Some(i);
        }
        i += 1;
    }
    None
}

/// Whether two strings are equal, character by character.
fn str_eq(a: &str, b: &str) -> (r: bool)
    ensures
        r == (a@ == b@),
{
    let la = a.unicode_len();
    let lb = b.unicode_len();
    if la != lb {
        return false;
    }
    let mut i: usize = 0;
    while i < la
        invariant
            i <= la,
            la == a@.len(),
            lb == b@.len(),
            la == lb,
            forall|j: int| 0 <= j < i ==> a@[j] == b@[j],
        decreases la - i,
    {
        if a.get_char(i) != b.get_char(i) {
            return false;
        }
        i += 1;
    }
    assert(a@ =~= b@);
    true
}

/// `i` is where `name` first occurs in `vars`.
pub open spec fn first_var(vars: Seq<&'static str>, name: Seq<char>, i: int) -> bool {
    &&& 0 <= i < vars.len()
    &&& vars[i]@ == name
    &&& forall|j: int| 0 <= j < i ==> (#[trigger] vars[j])@ != name
}

/// `l` with variable `k` of the form set to `value`: its term folded into the constant.
pub open spec fn substituted(l: Seq<i64>, k: int, value: i64) -> Seq<i64> {
    if l.len() > k {
        l.update(0, (l[0] + l[k] * value) as i64).remove(k)
    } else {
        l
    }
}

/// Setting variable `k` of `l` to `value` stays within `i64`.
pub open spec fn substitution_fits(l: Seq<i64>, k: int, value: i64) -> bool {
    l.len() > k ==> i64::MIN <= l[k] * value <= i64::MAX && i64::MIN <= l[0] + l[k] * value <= i64::MAX
}

/// `l` with variable `k` set to `value`.
fn substitute(l: &Lin, k: usize, value: i64) -> (r: Lin)
    requires
        k >= 1,
        substitution_fits(l@, k as int, value),
    ensures
        r@ == substituted(l@, k as int, value),
{
    let mut r: Lin = Vec::new();
    let mut i: usize = 0;
    while i < l.len()
        invariant
            i <= l@.len(),
            r@ == l@.subrange(0, i as int),
        decreases l@.len() - i,
    {
        r.push(l[i]);
        i += 1;
        assert(r@ =~= l@.subrange(0, i as int));
    }
    assert(l@.subrange(0, l@.len() as int) =~= l@);
    if l.len() > k {
        let t = l[k] * value;
        r.set(0, l[0] + t);
        r.remove(k);
    }
    r
}

/// A copy of a linear form.
fn copy_lin(a: &Vec<i64>) -> (r: Vec<i64>)
    ensures
        r@ == a@,
{
    let mut r: Vec<i64> = Vec::new();
    let mut i: usize = 0;
    while i < a.len()
        invariant
            i <= a@.len(),
            r@ == a@.subrange(0, i as int),
        decreases a@.len() - i,
    {
        r.push(a[i]);
        i += 1;
        assert(r@ =~= a@.subrange(0, i as int));
    }
    assert(a@.subrange(0, a@.len() as int) =~= a@);
    r
}

/// Whether two indices are equal.
fn idx_eq(a: &[i32], b: &[i32]) -> (r: bool)
    ensures
        r == (a@ == b@),
{
    if a.len() != b.len() {
        return false;
    }
    let mut i: usize = 0;
    while i < a.len()
        invariant
            i <= a@.len(),
            a@.len() == b@.len(),
            forall|j: int| 0 <= j < i ==> a@[j] == b@[j],
        decreases a@.len() - i,
    {
        if a[i] != b[i] {
            return false;
        }
        i += 1;
    }
    assert(a@ =~= b@);
    true
}

/// `a < b` lexicographically, a proper prefix being smaller.
pub open spec fn seq_lt(a: Seq<i32>, b: Seq<i32>) -> bool
    decreases a.len(),
{
    if a.len() == 0 {
        b.len() > 0
    } else if b.len() == 0 {
        false
    } else if a[0] != b[0] {
        a[0] < b[0]
    } else {
        seq_lt(a.drop_first(), b.drop_first())
    }
}

/// The lexicographic order is a strict total order.
proof fn lemma_seq_lt_order(a: Seq<i32>, b: Seq<i32>, c: Seq<i32>)
    ensures
        !seq_lt(a, a),
        seq_lt(a, b) && seq_lt(b, c) ==> seq_lt(a, c),
        a != b ==> seq_lt(a, b) || seq_lt(b, a),
{
    lemma_seq_lt_irreflexive(a);
    lemma_seq_lt_transitive(a, b, c);
    lemma_seq_lt_total(a, b);
}

proof fn lemma_seq_lt_irreflexive(a: Seq<i32>)
    ensures
        !seq_lt(a, a),
    decreases a.len(),
{
    if a.len() > 0 {
        lemma_seq_lt_irreflexive(a.drop_first());
    }
}

proof fn lemma_seq_lt_transitive(a: Seq<i32>, b: Seq<i32>, c: Seq<i32>)
    ensures
        seq_lt(a, b) && seq_lt(b, c) ==> seq_lt(a, c),
    decreases a.len(),
{
    if a.len() > 0 && b.len() > 0 && c.len() > 0 {
        lemma_seq_lt_transitive(a.drop_first(), b.drop_first(), c.drop_first());
    }
}

proof fn lemma_seq_lt_total(a: Seq<i32>, b: Seq<i32>)
    ensures
        a != b ==> seq_lt(a, b) || seq_lt(b, a),
    decreases a.len(),
{
    if a.len() > 0 && b.len() > 0 && a[0] == b[0] {
        lemma_seq_lt_total(a.drop_first(), b.drop_first());
        if a.drop_first() == b.drop_first() {
            assert(a =~= seq![a[0]] + a.drop_first());
            assert(b =~= seq![b[0]] + b.drop_first());
        }
    }
    if a.len() == 0 && b.len() == 0 {
        assert(a =~= b);
    }
}

/// Extending two vectors of one length keeps their order.
proof fn lemma_seq_lt_push(a: Seq<i32>, b: Seq<i32>, x: i32, y: i32)
    requires
        a.len() == b.len(),
        seq_lt(a, b),
    ensures
        seq_lt(a.push(x), b.push(y)),
    decreases a.len(),
{
    if a.len() > 0 && a[0] == b[0] {
        lemma_seq_lt_push(a.drop_first(), b.drop_first(), x, y);
        assert(a.push(x).drop_first() =~= a.drop_first().push(x));
        assert(b.push(y).drop_first() =~= b.drop_first().push(y));
    }
}

/// Extending one vector by a smaller and a larger entry orders them.
proof fn lemma_seq_lt_last(a: Seq<i32>, x: i32, y: i32)
    requires
        x < y,
    ensures
        seq_lt(a.push(x), a.push(y)),
    decreases a.len(),
{
    if a.len() > 0 {
        lemma_seq_lt_last(a.drop_first(), x, y);
        assert(a.push(x).drop_first() =~= a.drop_first().push(x));
        assert(a.push(y).drop_first() =~= a.drop_first().push(y));
    } else {
        assert(a.push(x) =~= seq![x]);
        assert(a.push(y) =~= seq![y]);
        assert(seq![x].drop_first() =~= Seq::<i32>::empty());
    }
}

/// Strictly ascending in the lexicographic order, so no index occurs twice.
pub open spec fn ascending_set(s: Seq<Index>) -> bool {
    forall|i: int, j: int| 0 <= i < j < s.len() ==> seq_lt(#[trigger] s[i]@, #[trigger] s[j]@)
}

/// No index occurs twice.
pub open spec fn distinct_idx(s: Seq<Index>) -> bool {
    forall|i: int, j: int| 0 <= i < j < s.len() ==> (#[trigger] s[i])@ != (#[trigger] s[j])@
}

proof fn lemma_ascending_distinct(s: Seq<Index>)
    requires
        ascending_set(s),
    ensures
        distinct_idx(s),
{
    assert forall|i: int, j: int| 0 <= i < j < s.len() implies (#[trigger] s[i])@ != (#[trigger] s[j])@ by {
        lemma_seq_lt_order(s[i]@, s[j]@, s[j]@);
    }
}

/// Whether `a < b` lexicographically, a proper prefix being smaller.
fn idx_less(a: &[i32], b: &[i32]) -> (r: bool)
    ensures
        r == seq_lt(a@, b@),
{
    let mut i: usize = 0;
    proof {
        assert(a@.subrange(0, a@.len() as int) =~= a@);
        assert(b@.subrange(0, b@.len() as int) =~= b@);
    }
    while i < a.len() && i < b.len()
        invariant
            i <= a@.len(),
            i <= b@.len(),
            seq_lt(a@, b@) == seq_lt(a@.subrange(i as int, a@.len() as int), b@.subrange(i as int, b@.len() as int)),
        decreases a@.len() - i,
    {
        let ghost (sa, sb) = (a@.subrange(i as int, a@.len() as int), b@.subrange(i as int, b@.len() as int));
        proof {
            assert(sa[0] == a@[i as int] && sb[0] == b@[i as int]);
            assert(sa.drop_first() =~= a@.subrange(i + 1, a@.len() as int));
            assert(sb.drop_first() =~= b@.subrange(i + 1, b@.len() as int));
        }
        if a[i] != b[i] {
            return a[i] < b[i];
        }
        i += 1;
    }
    a.len() < b.len()
}

/// A copy of an index.
fn copy_idx(a: &Vec<i32>) -> (r: Vec<i32>)
    ensures
        r@ == a@,
{
    let mut r: Vec<i32> = Vec::new();
    let mut i: usize = 0;
    while i < a.len()
        invariant
            i <= a@.len(),
            r@ == a@.subrange(0, i as int),
        decreases a@.len() - i,
    {
        r.push(a[i]);
        i += 1;
        assert(r@ =~= a@.subrange(0, i as int));
    }
    assert(a@.subrange(0, a@.len() as int) =~= a@);
    r
}

/// `a` is one of the indices of `set`.
pub open spec fn in_set(set: Seq<Index>, a: Seq<i32>) -> bool {
    exists|j: int| 0 <= j < set.len() && (#[trigger] set[j])@ == a
}

/// Adds `a` to the ascending set `set` if it is not there.
fn set_insert(set: &mut Vec<Index>, a: &Vec<i32>)
    ensures
        forall|i: int| 0 <= i < old(set)@.len() ==> in_set(final(set)@, (#[trigger] old(set)@[i])@),
        in_set(final(set)@, a@),
        forall|j: int| 0 <= j < final(set)@.len() ==> (#[trigger] final(set)@[j])@ == a@ || in_set(old(set)@, final(set)@[j]@),
        ascending_set(old(set)@) ==> ascending_set(final(set)@),
{
    let mut i: usize = 0;
    while i < set.len() && idx_less(&set[i], a)
        invariant
            i <= set@.len(),
            forall|u: int| 0 <= u < i ==> seq_lt(#[trigger] set@[u]@, a@),
        decreases set@.len() - i,
    {
        i += 1;
    }
    if i < set.len() && idx_eq(&set[i], a) {
        proof {
            assert forall|u: int| 0 <= u < set@.len() implies in_set(set@, (#[trigger] set@[u])@) by {
                assert(set@[u]@ == set@[u]@);
            }
            assert(set@[i as int]@ == a@);
        }
        return;
    }
    let ghost s0 = set@;
    set.insert(i, copy_idx(a));
    proof {
        assert(set@[i as int]@ == a@);
        if ascending_set(s0) {
            if i < s0.len() {
                lemma_seq_lt_order(a@, s0[i as int]@, a@);
                assert(seq_lt(a@, s0[i as int]@));
            }
            assert forall|u: int, w: int| 0 <= u < w < set@.len() implies seq_lt(#[trigger] set@[u]@, #[trigger] set@[w]@) by {
                if w < i {
                    assert(set@[u] == s0[u] && set@[w] == s0[w]);
                } else if w == i {
                    assert(set@[u] == s0[u]);
                } else if u == i {
                    assert(set@[w] == s0[w - 1]);
                    if w - 1 > i {
                        lemma_seq_lt_order(a@, s0[i as int]@, s0[w - 1]@);
                    }
                } else if u < i {
                    assert(set@[u] == s0[u] && set@[w] == s0[w - 1]);
                } else {
                    assert(set@[u] == s0[u - 1] && set@[w] == s0[w - 1]);
                }
            }
        }
        assert forall|u: int| 0 <= u < s0.len() implies in_set(set@, (#[trigger] s0[u])@) by {
            if u < i {
                assert(set@[u] == s0[u]);
            } else {
                assert(set@[u + 1] == s0[u]);
            }
        }
        assert forall|j: int| 0 <= j < set@.len() implies (#[trigger] set@[j])@ == a@ || in_set(s0, set@[j]@) by {
            if j < i {
                assert(set@[j] == s0[j]);
            } else if j > i {
                assert(set@[j] == s0[j - 1]);
            }
        }
    }
}

/// Every vector of `k` naturals summing to at most `max`, extending each shorter one by every
/// last entry in turn.
fn compositions(k: usize, max: i32) -> (out: Vec<Vec<i32>>)
    ensures
        forall|t: int| 0 <= t < out@.len() ==> (#[trigger] out@[t])@.len() == k,
        forall|t: int, i: int| 0 <= t < out@.len() && 0 <= i < k ==> #[trigger] out@[t]@[i] >= 0,
        forall|t: int| 0 <= t < out@.len() ==> sum_i32(#[trigger] out@[t]@) <= max,
        forall|w: Seq<i32>| #[trigger] composition(w, k as nat, max as int) ==> in_set(out@, w),
        ascending_set(out@),
{
    if max < 0 {
        proof {
            assert forall|w: Seq<i32>| #[trigger] composition(w, k as nat, max as int) implies in_set(
                Seq::<Vec<i32>>::empty(),
                w,
            ) by {
                lemma_sum_nonneg(w);
            }
        }
        return Vec::new();
    }
    let mut acc: Vec<Vec<i32>> = Vec::new();
    acc.push(Vec::new());
    let mut step: usize = 0;
    proof {
        assert forall|w: Seq<i32>| #[trigger] composition(w, 0, max as int) implies in_set(acc@, w) by {
            assert(w =~= acc@[0]@);
        }
    }
    while step < k
        invariant
            step <= k,
            forall|t: int| 0 <= t < acc@.len() ==> (#[trigger] acc@[t])@.len() == step,
            forall|t: int, i: int| 0 <= t < acc@.len() && 0 <= i < step ==> #[trigger] acc@[t]@[i] >= 0,
            max >= 0,
            forall|t: int| 0 <= t < acc@.len() ==> sum_i32(#[trigger] acc@[t]@) <= max,
            forall|t: int| 0 <= t < acc@.len() ==> sum_i32(#[trigger] acc@[t]@) >= 0,
            forall|t: int| 0 <= t < acc@.len() ==> sum_i32(#[trigger] acc@[t]@) <= i32::MAX,
            forall|w: Seq<i32>| #[trigger] composition(w, step as nat, max as int) ==> in_set(acc@, w),
            ascending_set(acc@),
        decreases k - step,
    {
        let mut next: Vec<Vec<i32>> = Vec::new();
        let mut t: usize = 0;
        while t < acc.len()
            invariant
                t <= acc@.len(),
                step < k,
                forall|u: int| 0 <= u < acc@.len() ==> (#[trigger] acc@[u])@.len() == step,
                forall|u: int, i: int| 0 <= u < acc@.len() && 0 <= i < step ==> #[trigger] acc@[u]@[i] >= 0,
                forall|u: int| 0 <= u < acc@.len() ==> sum_i32(#[trigger] acc@[u]@) >= 0,
                forall|u: int| 0 <= u < acc@.len() ==> sum_i32(#[trigger] acc@[u]@) <= i32::MAX,
                forall|u: int| 0 <= u < next@.len() ==> (#[trigger] next@[u])@.len() == step + 1,
                forall|u: int, i: int| 0 <= u < next@.len() && 0 <= i < step + 1 ==> #[trigger] next@[u]@[i] >= 0,
                forall|u: int| 0 <= u < next@.len() ==> sum_i32(#[trigger] next@[u]@) <= max,
                forall|u: int| 0 <= u < next@.len() ==> sum_i32(#[trigger] next@[u]@) >= 0,
                forall|u: int| 0 <= u < next@.len() ==> sum_i32(#[trigger] next@[u]@) <= i32::MAX,
                forall|w: Seq<i32>| #[trigger] composition(w, (step + 1) as nat, max as int) && (exists|u: int|
                    0 <= u < t && (#[trigger] acc@[u])@ == w.drop_last()) ==> in_set(next@, w),
                ascending_set(acc@),
                ascending_set(next@),
                t < acc@.len() ==> forall|u: int| 0 <= u < next@.len() ==> seq_lt((#[trigger] next@[u])@.drop_last(), acc@[t as int]@),
            decreases acc@.len() - t,
        {
            let v = &acc[t];
            let sv = total(v);
            let left = max as i64 - sv;
            let mut x: i64 = 0;
            while x <= left
                invariant
                    0 <= x,
                    left == max - sum_i32(v@),
                    v@.len() == step,
                    forall|i: int| 0 <= i < step ==> #[trigger] v@[i] >= 0,
                    sum_i32(v@) >= 0,
                    forall|u: int| 0 <= u < next@.len() ==> (#[trigger] next@[u])@.len() == step + 1,
                    forall|u: int, i: int| 0 <= u < next@.len() && 0 <= i < step + 1 ==> #[trigger] next@[u]@[i] >= 0,
                    forall|u: int| 0 <= u < next@.len() ==> sum_i32(#[trigger] next@[u]@) <= max,
                    forall|u: int| 0 <= u < next@.len() ==> sum_i32(#[trigger] next@[u]@) >= 0,
                    forall|u: int| 0 <= u < next@.len() ==> sum_i32(#[trigger] next@[u]@) <= i32::MAX,
                    t < acc@.len(),
                    *v == acc@[t as int],
                    forall|w: Seq<i32>| #[trigger] composition(w, (step + 1) as nat, max as int) && (exists|u: int|
                        0 <= u < t && (#[trigger] acc@[u])@ == w.drop_last()) ==> in_set(next@, w),
                    forall|y: int| 0 <= y < x ==> #[trigger] in_set(next@, v@.push(y as i32)),
                    ascending_set(next@),
                    x <= i32::MAX as int + 1,
                    forall|u: int| 0 <= u < next@.len() ==> seq_lt((#[trigger] next@[u])@.drop_last(), v@) || ((next@[u])@.drop_last()
                        == v@ && next@[u]@.last() < x),
                decreases left - x + 1,
            {
                let mut w = copy_idx(v);
                w.push(x as i32);
                proof {
                    assert(w@.drop_last() =~= v@);
                }
                let ghost n0 = next@;
                next.push(w);
                proof {
                    assert forall|u: int, i: int| 0 <= u < next@.len() && 0 <= i < step + 1 implies #[trigger] next@[u]@[i] >= 0 by {
                        if u < n0.len() {
                            assert(next@[u] == n0[u]);
                        } else if i < step {
                            assert(next@[u]@[i] == v@[i]);
                        }
                    }
                    assert forall|u: int| 0 <= u < next@.len() implies sum_i32(#[trigger] next@[u]@) <= max && sum_i32(next@[u]@) >= 0 && sum_i32(next@[u]@) <= i32::MAX && next@[u]@.len() == step + 1 by {
                        if u < n0.len() {
                            assert(next@[u] == n0[u]);
                        }
                    }
                    assert forall|w: Seq<i32>| in_set(n0, w) implies #[trigger] in_set(next@, w) by {
                        let u = choose|u: int| 0 <= u < n0.len() && (#[trigger] n0[u])@ == w;
                        assert(next@[u] == n0[u]);
                    }
                    assert(w@ =~= v@.push(x as i32));
                    assert(next@[n0.len() as int]@ == v@.push(x as i32));
                    assert forall|y: int| 0 <= y < x + 1 implies #[trigger] in_set(next@, v@.push(y as i32)) by {
                        if y < x {
                            assert(in_set(n0, v@.push(y as i32)));
                        }
                    }
                    assert forall|a: int, b: int| 0 <= a < b < next@.len() implies seq_lt(#[trigger] next@[a]@, #[trigger] next@[b]@) by {
                        if b < n0.len() {
                            assert(next@[a] == n0[a] && next@[b] == n0[b]);
                        } else {
                            assert(next@[a] == n0[a]);
                            let na = n0[a]@;
                            assert(na.len() == step + 1);
                            assert(na =~= na.drop_last().push(na.last()));
                            if seq_lt(na.drop_last(), v@) {
                                lemma_seq_lt_push(na.drop_last(), v@, na.last(), x as i32);
                            } else {
                                lemma_seq_lt_last(v@, na.last(), x as i32);
                            }
                        }
                    }
                    assert forall|u: int| 0 <= u < next@.len() implies seq_lt((#[trigger] next@[u])@.drop_last(), v@) || ((next@[u])@.drop_last()
                        == v@ && next@[u]@.last() < x + 1) by {
                        if u < n0.len() {
                            assert(next@[u] == n0[u]);
                        } else {
                            assert(next@[u]@ =~= v@.push(x as i32));
                        }
                    }
                }
                x += 1;
            }
            proof {
                assert forall|w: Seq<i32>| #[trigger] composition(w, (step + 1) as nat, max as int) && (exists|u: int|
                    0 <= u < t + 1 && (#[trigger] acc@[u])@ == w.drop_last()) implies in_set(next@, w) by {
                    if w.drop_last() == v@ {
                        let y = w.last();
                        assert(sum_i32(w) == sum_i32(v@) + y);
                        assert(w =~= v@.push(y));
                        assert(in_set(next@, v@.push(y as i32)));
                    }
                }
            }
            proof {
                if t + 1 < acc@.len() {
                    assert(seq_lt(acc@[t as int]@, acc@[t + 1]@));
                    assert forall|u: int| 0 <= u < next@.len() implies seq_lt((#[trigger] next@[u])@.drop_last(), acc@[t + 1]@) by {
                        if seq_lt(next@[u]@.drop_last(), v@) {
                            lemma_seq_lt_transitive(next@[u]@.drop_last(), v@, acc@[t + 1]@);
                        }
                    }
                }
            }
            t += 1;
        }
        proof {
            assert forall|w: Seq<i32>| #[trigger] composition(w, (step + 1) as nat, max as int) implies in_set(next@, w) by {
                let pre = w.drop_last();
                assert(sum_i32(w) == sum_i32(pre) + w.last());
                assert(w[step as int] >= 0);
                assert(composition(pre, step as nat, max as int));
                let u = choose|u: int| 0 <= u < acc@.len() && (#[trigger] acc@[u])@ == pre;
                assert(acc@[u]@ == w.drop_last());
            }
        }
        let ghost nv = next@;
        acc = next;
        step += 1;
        proof {
            assert forall|w: Seq<i32>| #[trigger] composition(w, step as nat, max as int) implies in_set(acc@, w) by {
                assert(composition(w, ((step - 1) + 1) as nat, max as int));
                assert(in_set(nv, w));
            }
        }
    }
    acc
}

/// `w` has `k` entries, none below zero, adding up to at most `max`.
pub open spec fn composition(w: Seq<i32>, k: nat, max: int) -> bool {
    &&& w.len() == k
    &&& forall|i: int| 0 <= i < k ==> #[trigger] w[i] >= 0
    &&& sum_i32(w) <= max
}

/// The sum of the entries, over the integers.
pub open spec fn sum_i32(v: Seq<i32>) -> int
    decreases v.len(),
{
    if v.len() == 0 {
        0
    } else {
        sum_i32(v.drop_last()) + v.last()
    }
}

/// The sum of nonnegative entries adding up to at most `i32::MAX`.
fn total(v: &Vec<i32>) -> (s: i64)
    requires
        forall|i: int| 0 <= i < v@.len() ==> #[trigger] v@[i] >= 0,
        sum_i32(v@) <= i32::MAX,
    ensures
        s == sum_i32(v@),
{
    let mut s: i64 = 0;
    let mut i: usize = 0;
    assert(v@.subrange(0, 0) =~= Seq::<i32>::empty());
    while i < v.len()
        invariant
            i <= v@.len(),
            forall|j: int| 0 <= j < v@.len() ==> #[trigger] v@[j] >= 0,
            sum_i32(v@) <= i32::MAX,
            s == sum_i32(v@.subrange(0, i as int)),
        decreases v@.len() - i,
    {
        proof {
            assert(v@.subrange(0, i as int + 1).drop_last() =~= v@.subrange(0, i as int));
            lemma_sum_prefix(v@, i as int + 1);
        }
        s = s + v[i] as i64;
        i += 1;
    }
    assert(v@.subrange(0, v@.len() as int) =~= v@);
    s
}

/// A prefix of nonnegative entries sums to no more than the whole.
proof fn lemma_sum_prefix(v: Seq<i32>, i: int)
    requires
        0 <= i <= v.len(),
        forall|j: int| 0 <= j < v.len() ==> #[trigger] v[j] >= 0,
    ensures
        0 <= sum_i32(v.subrange(0, i)) <= sum_i32(v),
    decreases v.len() - i,
{
    if i < v.len() {
        lemma_sum_prefix(v, i + 1);
        let w = v.subrange(0, i + 1);
        assert(w.drop_last() =~= v.subrange(0, i));
        assert(w.last() == v[i]);
        assert(sum_i32(w) == sum_i32(v.subrange(0, i)) + v[i]);
        assert forall|j: int| 0 <= j < v.subrange(0, i).len() implies #[trigger] v.subrange(0, i)[j] >= 0 by {
            assert(v.subrange(0, i)[j] == v[j]);
        }
        lemma_sum_nonneg(v.subrange(0, i));
    } else {
        assert(v.subrange(0, i) =~= v);
        lemma_sum_nonneg(v);
    }
}

proof fn lemma_sum_nonneg(v: Seq<i32>)
    requires
        forall|j: int| 0 <= j < v.len() ==> #[trigger] v[j] >= 0,
    ensures
        sum_i32(v) >= 0,
    decreases v.len(),
{
    if v.len() > 0 {
        lemma_sum_nonneg(v.drop_last());
    }
}

/// Sector widths: distinct sectors below `k`, each widened at most `cap` times.
pub open spec fn widths_ok(extra: Seq<(u32, i32)>, k: int, cap: int) -> bool {
    &&& forall|j: int| 0 <= j < extra.len() ==> (#[trigger] extra[j]).0 < k && 0 <= extra[j].1 <= cap
    &&& forall|i: int, j: int| 0 <= i < j < extra.len() ==> (#[trigger] extra[i]).0 != (#[trigger] extra[j]).0
}

/// How many more times the first `n` sectors can still be widened.
pub open spec fn slack(extra: Seq<(u32, i32)>, cap: int, n: nat) -> int
    decreases n,
{
    if n == 0 {
        0
    } else {
        slack(extra, cap, (n - 1) as nat) + (cap - extra[n - 1].1)
    }
}

/// How many more widenings there can be: those of the sectors seen, and `cap + 1` for each
/// sector not seen yet, its first mention included.
pub open spec fn budget(extra: Seq<(u32, i32)>, k: int, cap: int) -> int {
    (k - extra.len()) * (cap + 1) + slack(extra, cap, extra.len())
}

proof fn lemma_slack_nonneg(extra: Seq<(u32, i32)>, cap: int, n: nat)
    requires
        n <= extra.len(),
        forall|j: int| 0 <= j < extra.len() ==> (#[trigger] extra[j]).1 <= cap,
    ensures
        slack(extra, cap, n) >= 0,
    decreases n,
{
    if n > 0 {
        lemma_slack_nonneg(extra, cap, (n - 1) as nat);
        assert(extra[n - 1].1 <= cap);
    }
}

/// Distinct sectors below `k` number at most `k`.
proof fn lemma_sectors_fit(extra: Seq<(u32, i32)>, k: int)
    requires
        k >= 0,
        forall|j: int| 0 <= j < extra.len() ==> (#[trigger] extra[j]).0 < k,
        forall|i: int, j: int| 0 <= i < j < extra.len() ==> (#[trigger] extra[i]).0 != (#[trigger] extra[j]).0,
    ensures
        extra.len() <= k,
{
    let keys = extra.map_values(|e: (u32, i32)| e.0 as int);
    assert(keys.no_duplicates()) by {
        assert forall|i: int, j: int| 0 <= i < keys.len() && 0 <= j < keys.len() && i != j implies keys[i] != keys[j] by {
            if i < j {
                assert(extra[i].0 != extra[j].0);
            } else {
                assert(extra[j].0 != extra[i].0);
            }
        }
    }
    keys.unique_seq_to_set();
    let range = vstd::set_lib::set_int_range(0, k);
    vstd::set_lib::lemma_int_range(0, k);
    assert(keys.to_set().subset_of(range)) by {
        assert forall|x: int| keys.to_set().contains(x) implies range.contains(x) by {
            let j = choose|j: int| 0 <= j < keys.len() && keys[j] == x;
            assert(extra[j].0 < k);
        }
    }
    vstd::set_lib::lemma_len_subset(keys.to_set(), range);
}

proof fn lemma_widths_budget(extra: Seq<(u32, i32)>, k: int, cap: int)
    requires
        widths_ok(extra, k, cap),
        k >= 0,
        cap >= 0,
    ensures
        budget(extra, k, cap) >= 0,
{
    lemma_sectors_fit(extra, k);
    lemma_slack_nonneg(extra, cap, extra.len());
    assert((k - extra.len()) * (cap + 1) >= 0) by (nonlinear_arith)
        requires
            k - extra.len() >= 0,
            cap + 1 >= 1,
    ;
}

proof fn lemma_slack_prefix(a: Seq<(u32, i32)>, b: Seq<(u32, i32)>, cap: int, n: nat)
    requires
        n <= a.len(),
        n <= b.len(),
        forall|j: int| 0 <= j < n ==> a[j] == b[j],
    ensures
        slack(a, cap, n) == slack(b, cap, n),
    decreases n,
{
    if n > 0 {
        lemma_slack_prefix(a, b, cap, (n - 1) as nat);
    }
}

/// A new sector at width 0 spends one widening.
proof fn lemma_budget_push(extra: Seq<(u32, i32)>, k: int, cap: int, s: u32)
    requires
        widths_ok(extra, k, cap),
        s < k,
        forall|j: int| 0 <= j < extra.len() ==> (#[trigger] extra[j]).0 != s,
        cap >= 0,
    ensures
        widths_ok(extra.push((s, 0)), k, cap),
        budget(extra.push((s, 0)), k, cap) == budget(extra, k, cap) - 1,
{
    let e = extra.push((s, 0));
    lemma_slack_prefix(extra, e, cap, extra.len());
    assert(slack(e, cap, e.len()) == slack(extra, cap, extra.len()) + cap);
    assert((k - e.len()) * (cap + 1) == (k - extra.len()) * (cap + 1) - (cap + 1)) by (nonlinear_arith)
        requires
            e.len() == extra.len() + 1,
    ;
    assert forall|i: int, j: int| 0 <= i < j < e.len() implies (#[trigger] e[i]).0 != (#[trigger] e[j]).0 by {
        if j == extra.len() {
            assert(extra[i].0 != s);
        } else {
            assert(extra[i].0 != extra[j].0);
        }
    }
}

/// Widening one sector spends one widening.
proof fn lemma_budget_raise(extra: Seq<(u32, i32)>, k: int, cap: int, w: int)
    requires
        widths_ok(extra, k, cap),
        cap <= i32::MAX,
        0 <= w < extra.len(),
        extra[w].1 < cap,
    ensures
        widths_ok(extra.update(w, (extra[w].0, (extra[w].1 + 1) as i32)), k, cap),
        budget(extra.update(w, (extra[w].0, (extra[w].1 + 1) as i32)), k, cap) == budget(extra, k, cap) - 1,
    decreases extra.len() - w,
{
    let e = extra.update(w, (extra[w].0, (extra[w].1 + 1) as i32));
    lemma_slack_update(extra, e, cap, w, extra.len());
    assert forall|i: int, j: int| 0 <= i < j < e.len() implies (#[trigger] e[i]).0 != (#[trigger] e[j]).0 by {
        assert(extra[i].0 != extra[j].0);
    }
}

proof fn lemma_slack_update(a: Seq<(u32, i32)>, b: Seq<(u32, i32)>, cap: int, w: int, n: nat)
    requires
        a.len() == b.len(),
        n <= a.len(),
        0 <= w < a.len(),
        forall|j: int| 0 <= j < a.len() && j != w ==> a[j] == b[j],
        b[w].1 == a[w].1 + 1,
    ensures
        slack(b, cap, n) == slack(a, cap, n) - (if w < n { 1int } else { 0 }),
    decreases n,
{
    if n > 0 {
        lemma_slack_update(a, b, cap, w, (n - 1) as nat);
    }
}

} // verus!
