use num_bigint::{BigInt, Sign};
use num_integer::Integer;
use num_traits::ToPrimitive;
use tiny_zippel::bigint::{Int, Rat};
use tiny_zippel::lift::{lift, Fraction, RatPoly};
use tiny_zippel::modp::{add, inv, mul, pow};

/// A coefficient `num / den` of a test polynomial, with its monomial in `x, y, z`.
type Term = ([u32; 3], BigInt, BigInt);

fn big(a: &Int) -> BigInt {
    BigInt::from_slice(if a.neg { Sign::Minus } else { Sign::Plus }, &a.mag)
}

fn residue(a: &BigInt, p: u64) -> u64 {
    a.mod_floor(&BigInt::from(p)).to_u64().unwrap()
}

/// The polynomial at `x` modulo `p`, `None` if a denominator vanishes there.
fn eval_mod(f: &[Term], x: &[u64], p: u64) -> Option<u64> {
    let mut acc = 0;
    for (e, n, d) in f {
        let d = residue(d, p);
        if d == 0 {
            return None;
        }
        let mut v = mul(residue(n, p), inv(d, p), p);
        for (k, &ek) in e.iter().enumerate() {
            v = mul(v, pow(x[k], u64::from(ek), p), p);
        }
        acc = add(acc, v, p);
    }
    Some(acc)
}

fn t(e: [u32; 3], n: &str, d: &str) -> Term {
    (e, n.parse().unwrap(), d.parse().unwrap())
}

/// The terms of a lifted polynomial as exponents and integer coefficients.
fn integer_terms(f: &RatPoly) -> Vec<(Vec<u32>, BigInt)> {
    f.terms
        .iter()
        .map(|(e, c): &(Vec<u32>, Rat)| {
            assert_eq!(big(&c.den), BigInt::from(1));
            (e.clone(), big(&c.num))
        })
        .collect()
}

fn expect(f: &Fraction, num: &[([u32; 3], &str)], den: &[([u32; 3], &str)]) {
    let want = |ts: &[([u32; 3], &str)]| -> Vec<(Vec<u32>, BigInt)> {
        ts.iter().map(|(e, c)| (e.to_vec(), c.parse().unwrap())).collect()
    };
    assert_eq!(integer_terms(&f.num), want(num));
    assert_eq!(integer_terms(&f.den), want(den));
}

#[test]
fn lifts_to_rationals() {
    let cases: Vec<(Vec<Term>, Vec<Term>)> = vec![
        (
            vec![
                t([2, 0, 0], "1", "1"),
                t([0, 1, 1], "-3", "1"),
                t([0, 0, 0], "12345678901234567890123456789", "1"),
            ],
            vec![t([1, 1, 0], "2", "1"), t([0, 0, 0], "-5", "1")],
        ),
        (
            vec![t([0, 1, 0], "7", "3"), t([0, 0, 0], "-1", "2")],
            vec![t([1, 0, 0], "1", "1"), t([0, 0, 3], "1", "1")],
        ),
        (vec![], vec![t([1, 0, 0], "1", "1"), t([0, 1, 0], "-1", "1")]),
        (
            vec![t([1, 1, 1], "1", "1")],
            vec![
                t([2, 0, 0], "1", "1"),
                t([0, 0, 0], "1", "31415926535897932384626433"),
            ],
        ),
    ];
    let bb = |x: &[u64], p: u64| -> Option<Vec<u64>> {
        cases
            .iter()
            .map(|(n, d)| {
                let d = eval_mod(d, x, p).filter(|&d| d != 0)?;
                Some(mul(eval_mod(n, x, p)?, inv(d, p), p))
            })
            .collect()
    };
    let out = lift(bb, 3, 1).unwrap();
    assert_eq!(out.len(), 4);
    expect(
        &out[0],
        &[
            ([2, 0, 0], "1"),
            ([0, 1, 1], "-3"),
            ([0, 0, 0], "12345678901234567890123456789"),
        ],
        &[([1, 1, 0], "2"), ([0, 0, 0], "-5")],
    );
    expect(
        &out[1],
        &[([0, 1, 0], "14"), ([0, 0, 0], "-3")],
        &[([1, 0, 0], "6"), ([0, 0, 3], "6")],
    );
    expect(&out[2], &[], &[([0, 0, 0], "1")]);
    expect(
        &out[3],
        &[([1, 1, 1], "31415926535897932384626433")],
        &[([2, 0, 0], "31415926535897932384626433"), ([0, 0, 0], "1")],
    );
}

/// A black box that refuses every point gives nothing.
#[test]
fn lift_of_a_silent_box_is_none() {
    let bb = |_: &[u64], _: u64| -> Option<Vec<u64>> { None };
    assert!(lift(bb, 2, 7).is_none());
}

/// Constants are recovered as integers over 1.
#[test]
fn lifts_constants() {
    let bb = |_: &[u64], p: u64| -> Option<Vec<u64>> { Some(vec![5 % p, p - 7]) };
    let out = lift(bb, 1, 3).unwrap();
    assert_eq!(out.len(), 2);
    assert_eq!(integer_terms(&out[0].num), vec![(vec![0], BigInt::from(5))]);
    assert_eq!(integer_terms(&out[0].den), vec![(vec![0], BigInt::from(1))]);
    assert_eq!(integer_terms(&out[1].num), vec![(vec![0], BigInt::from(-7))]);
}
