//! Arithmetic modulo a word-sized prime, the primes themselves, and deterministic randomness.

use crate::arith::{lemma_fermat_inverse, lemma_power_nonneg, prime, lemma_mul_mod_both, lemma_power_adds, lemma_power_mod_noop, lemma_power_square, power};
use vstd::arithmetic::div_mod::*;
use vstd::arithmetic::mul::*;
use vstd::prelude::*;

verus! {

/// The largest modulus for which the sum of two residues fits in a `u64`.
pub const MAX_MODULUS: u64 = 0x8000_0000_0000_0000u64;

/// A modulus that the field operations accept.
pub open spec fn modulus(p: u64) -> bool {
    2 <= p && p <= MAX_MODULUS
}

/// `(a + b) mod p` for residues `a, b < p`.
pub fn add(a: u64, b: u64, p: u64) -> (r: u64)
    requires
        a < p,
        b < p,
        p <= MAX_MODULUS,
    ensures
        r == (a + b) % (p as int),
        r < p,
{
    let s = a + b;
    if s >= p {
        proof {
            lemma_fundamental_div_mod_converse((a + b) as int, p as int, 1, (s - p) as int);
        }
        s - p
    } else {
        proof {
            lemma_small_mod(s as nat, p as nat);
        }
        s
    }
}

/// `(a - b) mod p` for residues `a, b < p`.
pub fn sub(a: u64, b: u64, p: u64) -> (r: u64)
    requires
        a < p,
        b < p,
        p <= MAX_MODULUS,
    ensures
        r == (a - b) % (p as int),
        r < p,
{
    if a >= b {
        proof {
            lemma_small_mod((a - b) as nat, p as nat);
        }
        a - b
    } else {
        proof {
            lemma_fundamental_div_mod_converse(a - b, p as int, -1, (a + p - b) as int);
        }
        a + p - b
    }
}

/// `(a * b) mod p`.
pub fn mul(a: u64, b: u64, p: u64) -> (r: u64)
    requires
        p > 0,
    ensures
        r == (a * b) % (p as int),
        r < p,
{
    let x = a as u128;
    let y = b as u128;
    proof {
        lemma_mul_upper_bound(a as int, u64::MAX as int, b as int, u64::MAX as int);
    }
    let prod = x * y;
    let r = prod % (p as u128);
    proof {
        lemma_mod_bound(prod as int, p as int);
    }
    r as u64
}

/// `a^e mod p`, by squaring; `a^0` is 1 whatever the modulus.
pub fn pow(a: u64, e: u64, p: u64) -> (r: u64)
    requires
        p > 0,
    ensures
        r == (if e == 0 {
            1
        } else {
            power(a as int, e as nat) % (p as int)
        }),
        e > 0 ==> r < p,
{
    let mut r: u64 = 1;
    let mut b = a;
    let mut k = e;
    let ghost m = p as int;
    while k > 0
        invariant
            p > 0,
            m == p as int,
            k <= e,
            r < p || r == 1,
            (k == 0 && e > 0) ==> r < p,
            k == e ==> r == 1,
            (r * power(b as int, k as nat)) % m == power(a as int, e as nat) % m,
        decreases k,
    {
        let ghost (r0, b0, k0) = (r as int, b as int, k as nat);
        let odd = k & 1 == 1;
        assert((k & 1 == 1) == (k % 2 == 1)) by (bit_vector);
        assert(k >> 1 == k / 2) by (bit_vector);
        if odd {
            r = self::mul(r, b, p);
        }
        b = self::mul(b, b, p);
        k = k >> 1;
        proof {
            let h = (k0 / 2) as nat;
            lemma_power_square(b0, h);
            lemma_power_mod_noop(b0 * b0, h, m);
            if k0 % 2 == 1 {
                assert(k0 == 2 * h + 1);
                lemma_power_adds(b0, 1, 2 * h);
                assert(power(b0, 1) == b0 * power(b0, 0));
                lemma_mod_twice(r0 * b0, m);
                // r0 * b0^k0 == (r0 * b0) * (b0 * b0)^h
                lemma_mul_is_associative(r0, b0, power(b0 * b0, h));
                lemma_mul_mod_both(
                    r0 * b0,
                    power(b0 * b0, h),
                    r as int,
                    power(b as int, k as nat),
                    m,
                );
                lemma_mod_twice(r0 * b0, m);
            } else {
                assert(k0 == 2 * h);
                lemma_mul_mod_both(r0, power(b0 * b0, h), r0, power(b as int, k as nat), m);
            }
        }
    }
    proof {
        assert(power(b as int, 0) == 1);
        assert(r * power(b as int, k as nat) == r);
        if e > 0 {
            assert(r < p);
            lemma_small_mod(r as nat, p as nat);
            assert((r as int) % m == r);
            assert((r as int) % m == power(a as int, e as nat) % m);
        }
    }
    r
}

/// `a^(p-2) mod p`, the inverse of `a` modulo a prime `p` (0 for multiples of `p`).
pub open spec fn inv_spec(a: int, p: int) -> int {
    power(a, (p - 2) as nat) % p
}

/// The inverse of `a` modulo a prime `p`, as `a^(p-2)`; 0 has none and gets 0.
pub fn inv(a: u64, p: u64) -> (r: u64)
    requires
        p >= 2,
    ensures
        r < p,
        r == inv_spec(a as int, p as int),
        prime(p as int) && (a as int) % (p as int) != 0 ==> (a * r) % (p as int) == 1,
{
    let r = self::pow(a, p - 2, p);
    proof {
        lemma_small_mod(1, p as nat);
        assert(power(a as int, 0) == 1);
        lemma_power_nonneg(a as int, (p - 2) as nat);
        if prime(p as int) && (a as int) % (p as int) != 0 {
            lemma_fermat_inverse(a as nat, p as nat);
            lemma_mul_mod_noop_right(a as int, power(a as int, (p - 2) as nat), p as int);
        }
    }
    r
}

/// 2^64, the modulus of wrapping `u64` arithmetic.
pub open spec fn word() -> nat {
    0x1_0000_0000_0000_0000
}

/// `a + b` wrapping around 2^64.
pub open spec fn add_wrapping(a: u64, b: u64) -> u64 {
    ((a + b) % (word() as int)) as u64
}

/// `a * b` wrapping around 2^64.
pub open spec fn mul_wrapping(a: u64, b: u64) -> u64 {
    ((a * b) % (word() as int)) as u64
}

/// The golden-ratio increment of `SplitMix64`.
pub const GOLDEN: u64 = 0x9e37_79b9_7f4a_7c15u64;

/// The output mixer of `SplitMix64`.
pub open spec fn mix_spec(z: u64) -> u64 {
    let z1 = mul_wrapping(z ^ (z >> 30u64), 0xbf58_476d_1ce4_e5b9u64);
    let z2 = mul_wrapping(z1 ^ (z1 >> 27u64), 0x94d0_49bb_1331_11ebu64);
    z2 ^ (z2 >> 31u64)
}

/// The output mixer of `SplitMix64`: a bijection of `u64` that scatters its bits.
pub fn mix(z: u64) -> (r: u64)
    ensures
        r == mix_spec(z),
{
    let z1 = (z ^ (z >> 30)).wrapping_mul(0xbf58_476d_1ce4_e5b9);
    let z2 = (z1 ^ (z1 >> 27)).wrapping_mul(0x94d0_49bb_1331_11eb);
    z2 ^ (z2 >> 31)
}

/// `SplitMix64`: deterministic, so every run is reproducible.
#[derive(Debug)]
pub struct Rng(pub u64);

impl Rng {
    pub fn new(seed: u64) -> (r: Self)
        ensures
            r.0 == seed,
    {
        Rng(seed)
    }

    /// The next draw, uniform-looking in `1..p`.
    pub fn nonzero(&mut self, p: u64) -> (r: u64)
        requires
            p >= 2,
        ensures
            final(self).0 == add_wrapping(old(self).0, GOLDEN),
            r == 1 + mix_spec(final(self).0) % ((p - 1) as u64),
            1 <= r < p,
    {
        self.0 = self.0.wrapping_add(GOLDEN);
        let z = mix(self.0);
        1 + z % (p - 1)
    }
}

/// A seed from the hash of a tuple of integers.
pub open spec fn hash_spec(xs: Seq<u64>) -> u64
    decreases xs.len(),
{
    if xs.len() == 0 {
        GOLDEN
    } else {
        mix_spec(add_wrapping(hash_spec(xs.drop_last()) ^ xs.last(), GOLDEN))
    }
}

/// Hashes a tuple of integers, so that a point can be named by `(seed, stage, index)`.
pub fn hash(xs: &[u64]) -> (r: u64)
    ensures
        r == hash_spec(xs@),
{
    let mut h = GOLDEN;
    let mut i: usize = 0;
    while i < xs.len()
        invariant
            i <= xs.len(),
            h == hash_spec(xs@.subrange(0, i as int)),
        decreases xs.len() - i,
    {
        proof {
            let s = xs@.subrange(0, i as int + 1);
            assert(s.drop_last() =~= xs@.subrange(0, i as int));
        }
        h = mix((h ^ xs[i]).wrapping_add(GOLDEN));
        i += 1;
    }
    proof {
        assert(xs@.subrange(0, xs.len() as int) =~= xs@);
    }
    h
}

/// The point in `1..p` named by `xs`.
pub open spec fn point_spec(xs: Seq<u64>, p: u64) -> u64
    recommends
        p >= 2,
{
    (1 + hash_spec(xs) % ((p - 1) as u64)) as u64
}

/// The point in `1..p` named by `xs`: nonzero, so a point never hits a pole at 0.
pub fn point(xs: &[u64], p: u64) -> (r: u64)
    requires
        p >= 2,
    ensures
        r == point_spec(xs@, p),
        1 <= r < p,
{
    1 + hash(xs) % (p - 1)
}

/// The bases of the Miller-Rabin test, which decide primality for every `u64`.
pub open spec fn mr_bases() -> Seq<u64> {
    seq![2u64, 3, 5, 7, 11, 13, 17, 19, 23, 29, 31, 37]
}

/// `m = d 2^s` with `d` odd, for `m > 0`.
pub open spec fn odd_part(m: nat) -> (nat, nat)
    decreases m,
{
    if m > 0 && m % 2 == 0 {
        let (d, s) = odd_part(m / 2);
        (d, s + 1)
    } else {
        (m, 0)
    }
}

/// `x` squared `i` times modulo `n`.
pub open spec fn squarings(x: int, n: int, i: nat) -> int
    decreases i,
{
    if i == 0 {
        x
    } else {
        let y = squarings(x, n, (i - 1) as nat);
        (y * y) % n
    }
}

/// `n` is a strong probable prime to base `a`, with `n - 1 = d 2^s`.
pub open spec fn strong_probable_prime(n: int, a: int, d: nat, s: nat) -> bool {
    let x = power(a, d) % n;
    x == 1 || x == n - 1 || exists|i: nat| 1 <= i < s && #[trigger] squarings(x, n, i) == n - 1
}

/// The verdict of trial division by the bases from index `i` on, if one divides `n`.
pub open spec fn base_divisor_verdict(n: u64, i: nat) -> Option<bool>
    decreases 12 - i,
{
    if i >= 12 {
        None
    } else if n % mr_bases()[i as int] == 0 {
        Some(n == mr_bases()[i as int])
    } else {
        base_divisor_verdict(n, i + 1)
    }
}

/// The deterministic Miller-Rabin test with bases 2 to 37.
pub open spec fn passes_miller_rabin(n: u64) -> bool {
    if n < 2 {
        false
    } else {
        match base_divisor_verdict(n, 0) {
            Some(v) => v,
            None => forall|j: int|
                0 <= j < 12 ==> strong_probable_prime(
                    n as int,
                    #[trigger] mr_bases()[j] as int,
                    odd_part((n - 1) as nat).0,
                    odd_part((n - 1) as nat).1,
                ),
        }
    }
}

fn base(i: usize) -> (b: u64)
    requires
        i < 12,
    ensures
        b == mr_bases()[i as int],
{
    let bases: [u64; 12] = [2, 3, 5, 7, 11, 13, 17, 19, 23, 29, 31, 37];
    proof {
        assert(bases@ =~= mr_bases());
    }
    bases[i]
}

/// Whether `a` witnesses that `n` is not prime, for `n - 1 = d 2^s`.
fn strong_probable(n: u64, a: u64, d: u64, s: u64) -> (r: bool)
    requires
        n >= 2,
        d > 0,
    ensures
        r == strong_probable_prime(n as int, a as int, d as nat, s as nat),
{
    let mut x = self::pow(a, d, n);
    let ghost x0 = x as int;
    if x == 1 || x == n - 1 {
        return true;
    }
    let mut i: u64 = 1;
    while i < s
        invariant
            1 <= i,
            n >= 2,
            x < n,
            x == squarings(x0, n as int, (i - 1) as nat),
            forall|j: nat| 1 <= j < i ==> #[trigger] squarings(x0, n as int, j) != n - 1,
            !(x0 == 1 || x0 == n - 1),
            x0 == power(a as int, d as nat) % (n as int),
        decreases s - i,
    {
        x = self::mul(x, x, n);
        assert(x == squarings(x0, n as int, i as nat));
        if x == n - 1 {
            return true;
        }
        i += 1;
    }
    false
}

/// Whether `n` is prime, by Miller-Rabin with bases that decide every `u64`.
pub fn is_prime(n: u64) -> (r: bool)
    ensures
        r == passes_miller_rabin(n),
{
    if n < 2 {
        return false;
    }
    let mut i: usize = 0;
    while i < 12
        invariant
            i <= 12,
            n >= 2,
            base_divisor_verdict(n, 0) == base_divisor_verdict(n, i as nat),
        decreases 12 - i,
    {
        let b = base(i);
        if n % b == 0 {
            return n == b;
        }
        i += 1;
    }
    assert(base_divisor_verdict(n, 0) is None);
    let mut d = n - 1;
    let mut s: u64 = 0;
    while d % 2 == 0
        invariant
            d > 0,
            s + d <= n - 1,
            base_divisor_verdict(n, 0) is None,
            odd_part((n - 1) as nat) == (odd_part(d as nat).0, (odd_part(d as nat).1 + s) as nat),
        decreases d,
    {
        d = d / 2;
        s = s + 1;
    }
    let mut j: usize = 0;
    while j < 12
        invariant
            j <= 12,
            n >= 2,
            base_divisor_verdict(n, 0) is None,
            d > 0,
            odd_part((n - 1) as nat) == (d as nat, s as nat),
            forall|k: int|
                0 <= k < j ==> strong_probable_prime(
                    n as int,
                    #[trigger] mr_bases()[k] as int,
                    d as nat,
                    s as nat,
                ),
        decreases 12 - j,
    {
        let a = base(j);
        if !strong_probable(n, a, d, s) {
            assert(!strong_probable_prime(n as int, mr_bases()[j as int] as int, d as nat, s as nat));
            return false;
        }
        j += 1;
    }
    true
}

/// Primes descending from 2^62, so sums of two residues never overflow a `u64`.
#[derive(Debug)]
pub struct Primes(u64);

impl Primes {
    /// Everything below this bound that passes the test is still to come.
    pub closed spec fn bound(&self) -> u64 {
        self.0
    }

    pub fn new() -> (r: Self)
        ensures
            r.bound() == 0x4000_0000_0000_0000u64,
    {
        Primes(0x4000_0000_0000_0000u64)
    }

    /// The next prime below the last one, skipping nothing: `None` once 3 is passed.
    pub fn next(&mut self) -> (r: Option<u64>)
        ensures
            match r {
                Some(q) => {
                    &&& q == final(self).bound()
                    &&& 3 <= q < old(self).bound()
                    &&& passes_miller_rabin(q)
                    &&& forall|m: u64| q < m < old(self).bound() ==> !passes_miller_rabin(m)
                },
                None => {
                    &&& final(self).bound() == old(self).bound()
                    &&& old(self).bound() <= 3
                },
            },
    {
        while self.0 > 3
            invariant
                self.0 <= old(self).0,
                self.0 >= 3 || self.0 == old(self).0,
                forall|m: u64| self.0 <= m < old(self).0 ==> !passes_miller_rabin(m),
            decreases self.0,
        {
            self.0 = self.0 - 1;
            if is_prime(self.0) {
                return Some(self.0);
            }
        }
        proof {
            assert(mr_bases()[0] == 2);
            assert(mr_bases()[1] == 3);
            assert(base_divisor_verdict(3, 1) == Some(true));
            assert(base_divisor_verdict(3, 0) == Some(true));
            assert(passes_miller_rabin(3));
        }
        None
    }
}

} // verus!
