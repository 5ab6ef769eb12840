use tiny_zippel::bigint::{int_add, int_div, int_gcd, int_lcm, int_mul, int_residue, int_sqrt, int_sub, rat_mul, rat_new, Int};
use tiny_zippel::modp::{add, hash, inv, is_prime, mul, point, pow, sub};
use tiny_zippel::pgcd::{pgcd, reshape};
use tiny_zippel::thiele::{self, Thiele};
use tiny_zippel::univariate::{self as uni, Newton};
use tiny_zippel::vandermonde;
use tiny_zippel::{ModPoly, Primes, Rng};

const P: u64 = 1_000_000_007;

fn big_int(v: i64) -> Int {
    let m = Int::from_u64(v.unsigned_abs());
    Int { neg: v < 0, mag: m.mag }
}

fn value(a: &Int) -> i128 {
    let mut v: i128 = 0;
    for &d in a.mag.iter().rev() {
        v = v * (1i128 << 32) + i128::from(d);
    }
    if a.neg {
        -v
    } else {
        v
    }
}

#[test]
fn field_operations_take_residues() {
    assert_eq!(add(P - 1, 5, P), 4);
    assert_eq!(sub(3, 5, P), P - 2);
    assert_eq!(mul(P - 1, P - 1, P), 1);
    assert_eq!(pow(2, 10, P), 1024);
    assert_eq!(pow(7, 0, 13), 1);
}

/// Fermat: `a * inv(a) = 1` for every nonzero residue of a prime.
#[test]
fn inverse_is_an_inverse() {
    for a in [1u64, 2, 3, 12345, P - 1] {
        assert_eq!(mul(a, inv(a, P), P), 1);
    }
    assert_eq!(inv(3, 7), 5);
}

#[test]
fn primes_descend_from_two_to_the_62() {
    let mut primes = Primes::new();
    let p = primes.next().unwrap();
    assert_eq!(p, (1u64 << 62) - 57);
    let q = primes.next().unwrap();
    assert!(q < p && is_prime(q));
    assert!(is_prime(2) && is_prime(3) && is_prime(P));
    assert!(!is_prime(1) && !is_prime(561) && !is_prime(P * 3));
}

#[test]
fn points_avoid_zero_and_are_reproducible() {
    for i in 0..100u64 {
        let x = point(&[9, i], 101);
        assert!((1..101).contains(&x));
        assert_eq!(x, point(&[9, i], 101));
    }
    assert_ne!(hash(&[1, 2]), hash(&[2, 1]));
    let (mut a, mut b) = (Rng::new(4), Rng::new(4));
    for _ in 0..10 {
        let x = a.nonzero(97);
        assert_eq!(x, b.nonzero(97));
        assert!((1..97).contains(&x));
    }
}

/// Newton's form passes through every point added, and adding a point changes the
/// polynomial only where it disagreed.
#[test]
fn newton_interpolates_its_points() {
    let pts = [(1u64, 5u64), (2, 9), (4, 1), (7, 100)];
    let mut nw = Newton::default();
    for &(x, y) in &pts {
        nw.add(x, y, P);
    }
    let f = nw.poly(P);
    for &(x, y) in &pts {
        assert_eq!(uni::eval(&f, x, P), y);
    }
    assert!(nw.contains(4) && !nw.contains(3));
    let g = uni::interpolate(&[1, 2, 4, 7], &[5, 9, 1, 100], P);
    assert_eq!(f, g);
}

/// Multiplication and division agree with evaluation.
#[test]
fn product_and_remainder_evaluate() {
    let a = vec![3u64, 0, 2, 1];
    let b = vec![P - 1, 1];
    let c = uni::mul_poly(&a, &b, P);
    for x in [0u64, 1, 5, 77] {
        assert_eq!(uni::eval(&c, x, P), mul(uni::eval(&a, x, P), uni::eval(&b, x, P), P));
    }
    let (q, r) = uni::div_rem(&c, &b, P);
    assert_eq!(q, a);
    assert!(r.is_empty());
    let (q2, r2) = uni::div_rem(&a, &b, P);
    assert_eq!(r2, vec![6]);
    for x in [2u64, 9] {
        let lhs = uni::eval(&a, x, P);
        let rhs = add(mul(uni::eval(&q2, x, P), uni::eval(&b, x, P), P), uni::eval(&r2, x, P), P);
        assert_eq!(lhs, rhs);
    }
}

#[test]
fn univariate_gcd_is_monic() {
    // (x - 1)(x - 2) and (x - 1)(x + 5)
    let f = uni::mul_poly(&[P - 1, 1], &[P - 2, 1], P);
    let g = uni::mul_poly(&[P - 1, 1], &[5, 1], P);
    assert_eq!(uni::gcd(&f, &g, P), vec![P - 1, 1]);
    assert_eq!(uni::gcd(&[], &[], P), Vec::<u64>::new());
    assert_eq!(uni::gcd(&[3], &[0, 2], P), vec![1]);
}

#[test]
fn thiele_recovers_a_rational_function() {
    // (t + 1) / (t^2 + 3)
    let g = |t: u64| -> Option<u64> {
        let num = add(t, 1, P);
        let den = add(mul(t, t, P), 3, P);
        if den == 0 {
            None
        } else {
            Some(mul(num, inv(den, P), P))
        }
    };
    let (num, den) = thiele::reconstruct(g, P, 3).unwrap();
    let l = inv(*den.last().unwrap(), P);
    let scale = |v: &[u64]| v.iter().map(|&c| mul(c, l, P)).collect::<Vec<u64>>();
    assert_eq!(scale(&num), vec![1, 1]);
    assert_eq!(scale(&den), vec![3, 0, 1]);
    let mut th = Thiele::default();
    assert!(th.add(2, g(2).unwrap(), P));
    assert!(th.contains(2));
}

fn horner(a: &[u64], t: u64) -> u64 {
    a.iter().rev().fold(0, |acc, &c| add(mul(acc, t, P), c, P))
}

#[test]
fn thiele_fraction_collapses_to_its_values() {
    // (2t + 5) / (t + 7) through three points; away from them the collapsed pair agrees with
    // the continued fraction.
    let f = |t: u64| mul(add(mul(2, t, P), 5, P), inv(add(t, 7, P), P), P);
    let mut th = Thiele::default();
    for t in [1u64, 2, 3] {
        assert!(th.add(t, f(t), P));
        // the point just added is on the fraction
        assert_eq!(th.eval(t, P), Some(f(t)));
    }
    let (num, den) = th.rational(P);
    for t in [10u64, 11, 12345] {
        let v = th.eval(t, P).unwrap();
        assert_eq!(v, f(t));
        assert_ne!(horner(&den, t), 0);
        assert_eq!(horner(&num, t), mul(v, horner(&den, t), P));
    }
}

#[test]
fn eval_except_leaves_the_substituted_polynomial() {
    // 3 x0^2 x1 + 5 x1^2 + 7 with x1 = 4 is 12 x0^2 + 87.
    let f = ModPoly {
        n: 2,
        terms: vec![(vec![2, 1], 3), (vec![0, 2], 5), (vec![0, 0], 7)],
    };
    let d = f.eval_except(0, &[0, 4], P);
    assert_eq!(d, vec![87, 0, 12]);
    for z in [0u64, 1, 9, 123456] {
        let direct = add(add(mul(3, mul(mul(z, z, P), 4, P), P), mul(5, 16, P), P), 7, P);
        assert_eq!(horner(&d, z), direct);
    }
}

#[test]
fn vandermonde_solves_transposed_systems() {
    // Values v_l and weights c_l with sum_l c_l v_l^(j + 1) = w_j.
    let vals = [2u64, 3, 5];
    let c = [7u64, 11, 13];
    let w: Vec<u64> = (0..3u64)
        .map(|j| {
            vals.iter()
                .zip(&c)
                .fold(0, |acc, (&v, &cl)| add(acc, mul(cl, pow(v, j + 1, P), P), P))
        })
        .collect();
    let m = vandermonde::master(&vals, P);
    assert_eq!(vandermonde::solve(&vals, &m, &w, P), c.to_vec());
}

#[test]
fn shows_polynomials_with_signs() {
    let f = ModPoly {
        n: 2,
        terms: vec![(vec![2, 0], 1), (vec![0, 1], 98), (vec![0, 0], 5)],
    };
    assert_eq!(f.show(&["x", "y"], 101), "x^2 - 3*y + 5");
    let g = ModPoly { n: 2, terms: vec![(vec![1, 1], 100), (vec![0, 0], 2)] };
    assert_eq!(g.show(&["x", "y"], 101), "-x*y + 2");
    let z = ModPoly { n: 1, terms: vec![] };
    assert_eq!(z.show(&["x"], 101), "0");
}

#[test]
fn reshape_tracks_the_skeleton() {
    let h = ModPoly { n: 2, terms: vec![(vec![2, 0], 1), (vec![0, 1], 3)] };
    assert_eq!(reshape(None, &h), Some(true));
    let same = vec![vec![2, 0], vec![0, 1]];
    assert_eq!(reshape(Some(&same), &h), Some(false));
    let below = vec![vec![1, 0], vec![0, 0]];
    assert_eq!(reshape(Some(&below), &h), None);
    let above = vec![vec![3, 0]];
    assert_eq!(reshape(Some(&above), &h), Some(true));
    let missing = vec![vec![2, 0]];
    assert_eq!(reshape(Some(&missing), &h), Some(true));
}

/// The gcd of `a * b` and `a * c` over GF(p) is `a` up to a scalar.
#[test]
fn pgcd_finds_the_common_factor() {
    let p = 1_000_003;
    // a = x0 + x1, b = x0 - 2, c = x1 + 3, all in two variables.
    let f = ModPoly {
        n: 2,
        terms: vec![(vec![2, 0], 1), (vec![1, 1], 1), (vec![1, 0], p - 2), (vec![0, 1], p - 2)],
    };
    let g = ModPoly {
        n: 2,
        terms: vec![(vec![1, 1], 1), (vec![1, 0], 3), (vec![0, 2], 1), (vec![0, 1], 3)],
    };
    let mut rng = Rng::new(5);
    let h = pgcd(&f, &g, 1, p, &mut rng).unwrap().monic(p);
    assert_eq!(h.terms, vec![(vec![1, 0], 1), (vec![0, 1], 1)]);
}

#[test]
fn big_integers_compute_exactly() {
    let a = big_int(-7);
    let b = big_int(2);
    assert_eq!(value(&int_div(&a, &b)), -3);
    assert_eq!(value(&int_add(&a, &b)), -5);
    assert_eq!(value(&int_sub(&b, &a)), 9);
    let big = int_mul(&big_int(1 << 40), &big_int(1 << 40));
    assert_eq!(value(&big), 1i128 << 80);
    assert_eq!(value(&int_sqrt(&big)), 1i128 << 40);
    assert_eq!(value(&int_gcd(&big_int(-12), &big_int(18))), 6);
    assert_eq!(value(&int_lcm(&big_int(4), &big_int(-6))), 12);
    assert_eq!(value(&int_lcm(&big_int(0), &big_int(6))), 0);
    assert_eq!(int_residue(&a, 5), 3);
    let q = rat_new(&big_int(6), &big_int(-4));
    assert_eq!((value(&q.num), value(&q.den)), (-3, 2));
    let r = rat_mul(&q, &rat_new(&big_int(2), &big_int(9)));
    assert_eq!((value(&r.num), value(&r.den)), (-1, 3));
}

/// The roots of the gcd modulo a prime are the common roots: `(x - 1)(x - 2)` and
/// `(x - 2)(x - 3)` share only `2`.
#[test]
fn gcd_roots_are_the_common_roots() {
    let p = 101u64;
    let a = tiny_zippel::univariate::mul_poly(&[p - 1, 1], &[p - 2, 1], p);
    let b = tiny_zippel::univariate::mul_poly(&[p - 2, 1], &[p - 3, 1], p);
    let g = tiny_zippel::univariate::gcd(&a, &b, p);
    assert_eq!(g, vec![p - 2, 1]);
    for z in 0..p {
        let common = tiny_zippel::univariate::eval(&a, z, p) == 0 && tiny_zippel::univariate::eval(&b, z, p) == 0;
        assert_eq!(tiny_zippel::univariate::eval(&g, z, p) == 0, common);
    }
}

#[test]
fn shows_the_modulus_itself_as_zero() {
    let f = ModPoly { n: 1, terms: vec![(vec![1], 101), (vec![0], 101)] };
    assert_eq!(f.show(&["x"], 101), "0*x + 0");
}
