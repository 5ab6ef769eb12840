use std::collections::BTreeMap;

use num_bigint::{BigInt, Sign};
use num_rational::BigRational;
use num_traits::{One, Zero};
use tiny_zippel::bigint::{Int, Rat};
use tiny_zippel::intpoly::IntPoly;
use tiny_zippel::lift::RatPoly;
use tiny_zippel::{cofactors, gcd, lcm};

/// A polynomial as a map from exponents to nonzero rationals.
type Terms = BTreeMap<Vec<u32>, BigRational>;

struct Lcg(u64);

impl Lcg {
    fn below(&mut self, n: u64) -> u64 {
        self.0 = self
            .0
            .wrapping_mul(6_364_136_223_846_793_005)
            .wrapping_add(1_442_695_040_888_963_407);
        (self.0 >> 33) % n
    }

    fn poly(&mut self, n: usize, max_terms: u64, deg: u64) -> Terms {
        let mut m = Terms::new();
        for _ in 0..=self.below(max_terms) {
            let c = BigRational::from(BigInt::from(self.below(19) as i64 - 9));
            let e: Vec<u32> = (0..n).map(|_| self.below(deg + 1) as u32).collect();
            add_term(&mut m, e, c);
        }
        m
    }
}

fn add_term(m: &mut Terms, e: Vec<u32>, c: BigRational) {
    let v = m.entry(e.clone()).or_insert_with(BigRational::zero);
    *v += c;
    if v.is_zero() {
        m.remove(&e);
    }
}

fn multiply(a: &Terms, b: &Terms) -> Terms {
    let mut m = Terms::new();
    for (ea, ca) in a {
        for (eb, cb) in b {
            let e = ea.iter().zip(eb).map(|(x, y)| x + y).collect();
            add_term(&mut m, e, ca * cb);
        }
    }
    m
}

fn to_int(a: &BigInt) -> Int {
    let (s, mag) = a.to_u32_digits();
    Int { neg: s == Sign::Minus, mag }
}

fn big(a: &Int) -> BigInt {
    BigInt::from_slice(if a.neg { Sign::Minus } else { Sign::Plus }, &a.mag)
}

/// The terms in descending lex order, as the library takes them.
fn to_poly(n: usize, m: &Terms) -> RatPoly {
    let terms = m
        .iter()
        .rev()
        .map(|(e, c)| (e.clone(), Rat { num: to_int(c.numer()), den: to_int(c.denom()) }))
        .collect();
    RatPoly { n, terms }
}

fn to_map(f: &RatPoly) -> Terms {
    let mut m = Terms::new();
    for (e, c) in &f.terms {
        add_term(&mut m, e.clone(), BigRational::new(big(&c.num), big(&c.den)));
    }
    m
}

/// Divided by the lex-leading coefficient.
fn monic(m: &Terms) -> Terms {
    match m.iter().next_back() {
        None => Terms::new(),
        Some((_, lead)) => {
            let lead = lead.clone();
            m.iter().map(|(e, c)| (e.clone(), c / &lead)).collect()
        }
    }
}

fn is_constant(m: &Terms) -> bool {
    m.len() == 1 && m.keys().next().unwrap().iter().all(|&e| e == 0)
}

#[test]
fn common_factor_is_found() {
    let mut rng = Lcg(7);
    for _ in 0..200 {
        let n = 1 + rng.below(6) as usize;
        let c = rng.poly(n, 8, 3);
        let a = rng.poly(n, 6, 3);
        let b = rng.poly(n, 6, 3);
        let (f, g) = (multiply(&a, &c), multiply(&b, &c));
        let (h, cf, cg) = cofactors(&to_poly(n, &f), &to_poly(n, &g)).unwrap();
        let (h, cf, cg) = (to_map(&h), to_map(&cf), to_map(&cg));
        assert_eq!(multiply(&h, &cf), f);
        assert_eq!(multiply(&h, &cg), g);
        let hc = gcd(&to_poly(n, &h), &to_poly(n, &c)).unwrap();
        assert_eq!(monic(&to_map(&hc)), monic(&c));
        if !f.is_empty() && !g.is_empty() {
            let one = gcd(&to_poly(n, &cf), &to_poly(n, &cg)).unwrap();
            assert!(is_constant(&to_map(&one)));
        }
    }
}

/// `lcm(f, g) * gcd(f, g)` is `f * g` up to a constant.
#[test]
fn lcm_times_gcd_is_the_product() {
    let mut rng = Lcg(11);
    for _ in 0..30 {
        let n = 2 + rng.below(2) as usize;
        let c = rng.poly(n, 3, 2);
        let f = multiply(&rng.poly(n, 3, 2), &c);
        let g = multiply(&rng.poly(n, 3, 2), &c);
        if f.is_empty() || g.is_empty() {
            continue;
        }
        let l = to_map(&lcm(&to_poly(n, &f), &to_poly(n, &g)).unwrap());
        let h = to_map(&gcd(&to_poly(n, &f), &to_poly(n, &g)).unwrap());
        assert_eq!(monic(&multiply(&l, &h)), monic(&multiply(&f, &g)));
    }
}

/// The gcd is primitive over Z with a positive leading coefficient, and `gcd(0, 0) = 0`.
#[test]
fn gcd_is_primitive_and_positive() {
    // f = (2x + 4y)(x - y), g = (6x + 12y)(x + 1): gcd x + 2y.
    let mut f = Terms::new();
    let mut g = Terms::new();
    let r = |v: i64| BigRational::from(BigInt::from(v));
    for (e, c) in [(vec![2, 0], 2), (vec![1, 1], 2), (vec![0, 2], -4)] {
        add_term(&mut f, e, r(c));
    }
    for (e, c) in [(vec![2, 0], 6), (vec![1, 1], 12), (vec![1, 0], 6), (vec![0, 1], 12)] {
        add_term(&mut g, e, r(c));
    }
    let h = gcd(&to_poly(2, &f), &to_poly(2, &g)).unwrap();
    let want: Terms = [(vec![1, 0], r(1)), (vec![0, 1], r(2))].into_iter().collect();
    assert_eq!(to_map(&h), want);
    assert!(h.terms.iter().all(|(_, c)| big(&c.den).is_one()));
    let zero = RatPoly { n: 2, terms: vec![] };
    assert!(gcd(&zero, &zero).unwrap().terms.is_empty());
    let h = gcd(&zero, &to_poly(2, &g)).unwrap();
    let want: Terms = [(vec![2, 0], r(1)), (vec![1, 1], r(2)), (vec![1, 0], r(1)), (vec![0, 1], r(2))]
        .into_iter()
        .collect();
    assert_eq!(to_map(&h), want);
    assert!(lcm(&zero, &to_poly(2, &g)).unwrap().terms.is_empty());
}

fn int_poly(n: usize, terms: &[(Vec<u32>, i64)]) -> IntPoly {
    let terms = terms.iter().map(|(e, c)| (e.clone(), to_int(&BigInt::from(*c)))).collect();
    IntPoly::new(n, terms)
}

fn int_terms(f: &IntPoly) -> Vec<(Vec<u32>, BigInt)> {
    f.terms.iter().map(|(e, c)| (e.clone(), big(c))).collect()
}

/// `(x^2 - y^2) / (x + y) = x - y`, and `x^2 + y` is not a multiple of `x + y`.
#[test]
fn div_exact_gives_the_quotient() {
    let f = int_poly(2, &[(vec![2, 0], 1), (vec![0, 2], -1)]);
    let d = int_poly(2, &[(vec![1, 0], 1), (vec![0, 1], 1)]);
    let q = f.div_exact(&d).unwrap();
    assert_eq!(int_terms(&q), vec![(vec![1, 0], BigInt::from(1)), (vec![0, 1], BigInt::from(-1))]);
    assert_eq!(int_terms(&q.mul(&d)), int_terms(&f));
    let g = int_poly(2, &[(vec![2, 0], 1), (vec![0, 1], 1)]);
    assert!(g.div_exact(&d).is_none());
    let odd = int_poly(2, &[(vec![1, 0], 3), (vec![0, 1], 3)]);
    let two = int_poly(2, &[(vec![0, 0], 2)]);
    assert!(odd.div_exact(&two).is_none());
}

/// `-6x + 4y` over its content with the sign of the leading coefficient is `3x - 2y`.
#[test]
fn primitive_divides_by_the_signed_content() {
    let f = int_poly(2, &[(vec![1, 0], -6), (vec![0, 1], 4)]);
    let p = f.primitive();
    assert_eq!(int_terms(&p), vec![(vec![1, 0], BigInt::from(3)), (vec![0, 1], BigInt::from(-2))]);
    let m = f.negated();
    assert_eq!(int_terms(&m), vec![(vec![1, 0], BigInt::from(6)), (vec![0, 1], BigInt::from(-4))]);
}

/// With fractional coefficients each cofactor times the gcd is its argument.
#[test]
fn cofactors_of_rational_polynomials() {
    let q = |a: i64, b: i64| BigRational::new(BigInt::from(a), BigInt::from(b));
    // c = x/2 + 1/3, a = y - 1/5, b = 3y/7 + x
    let c: Terms = [(vec![1, 0], q(1, 2)), (vec![0, 0], q(1, 3))].into_iter().collect();
    let a: Terms = [(vec![0, 1], q(1, 1)), (vec![0, 0], q(-1, 5))].into_iter().collect();
    let b: Terms = [(vec![0, 1], q(3, 7)), (vec![1, 0], q(1, 1))].into_iter().collect();
    let (f, g) = (multiply(&a, &c), multiply(&b, &c));
    let (h, cf, cg) = cofactors(&to_poly(2, &f), &to_poly(2, &g)).unwrap();
    let want: Terms = [(vec![1, 0], q(3, 1)), (vec![0, 0], q(2, 1))].into_iter().collect();
    assert_eq!(to_map(&h), want);
    assert_eq!(multiply(&to_map(&h), &to_map(&cf)), f);
    assert_eq!(multiply(&to_map(&h), &to_map(&cg)), g);
    let zero = RatPoly { n: 2, terms: vec![] };
    let (h, cf, cg) = cofactors(&zero, &zero).unwrap();
    assert!(h.terms.is_empty() && cf.terms.is_empty() && cg.terms.is_empty());
}

/// The lcm is a multiple of each argument: its gcd with `f` is `f` up to a constant.
#[test]
fn lcm_is_a_multiple_of_each_argument() {
    let q = |a: i64, b: i64| BigRational::new(BigInt::from(a), BigInt::from(b));
    let f: Terms = [(vec![2, 0], q(1, 2)), (vec![0, 1], q(-2, 3))].into_iter().collect();
    let g: Terms = [(vec![1, 1], q(5, 1)), (vec![0, 0], q(1, 4))].into_iter().collect();
    let l = lcm(&to_poly(2, &f), &to_poly(2, &g)).unwrap();
    assert!(l.terms.iter().all(|(_, c)| big(&c.den).is_one()));
    assert!(big(&l.terms[0].1.num) > BigInt::zero());
    for x in [&f, &g] {
        let h = gcd(&l, &to_poly(2, x)).unwrap();
        assert_eq!(monic(&to_map(&h)), monic(x));
    }
}
