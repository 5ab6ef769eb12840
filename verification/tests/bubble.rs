use tiny_zippel::laporta::{Plan, Row};
use tiny_zippel::modp::{add, mul};
use tiny_zippel::{Primes, Rng};

type Index = (i32, i32);

/// `c0 + c1*d + c2*s + c3*m2`.
type Coef = [i64; 4];

/// Integrating `d/dk . k` and `d/dk . q` by parts at the seed `(a, b)`.
fn identities(a: i32, b: i32) -> [Vec<(Index, Coef)>; 2] {
    let (x, y) = (i64::from(a), i64::from(b));
    [
        vec![
            ((a, b), [-2 * x - y, 1, 0, 0]),
            ((a + 1, b), [0, 0, 0, -2 * x]),
            ((a - 1, b + 1), [-y, 0, 0, 0]),
            ((a, b + 1), [0, 0, y, -2 * y]),
        ],
        vec![
            ((a, b), [x - y, 0, 0, 0]),
            ((a + 1, b), [0, 0, x, 0]),
            ((a + 1, b - 1), [-x, 0, 0, 0]),
            ((a - 1, b + 1), [y, 0, 0, 0]),
            ((a, b + 1), [0, 0, -y, 0]),
        ],
    ]
}

/// Laporta's order: propagators, then dots, then numerators, then which line.
fn weight((a, b): Index) -> (i32, i32, i32, i32) {
    let (pos, neg) = [a, b].iter().fold(
        (0, 0),
        |(u, v), &i| {
            if i > 0 {
                (u + i, v)
            } else {
                (u, v - i)
            }
        },
    );
    (i32::from(a > 0) + i32::from(b > 0), pos, neg, b)
}

/// The one-loop bubble with two equal masses: `I(a, b) = int d^dk / (D1^a D2^b)`.
struct Bubble {
    integrals: Vec<Index>,
    eqs: Vec<Vec<(usize, Coef)>>,
}

impl Bubble {
    fn new(r: i32) -> Self {
        let mut raw: Vec<Vec<(Index, Coef)>> = Vec::new();
        for a in 1..=r {
            for b in -1..=r {
                raw.extend(identities(a, b));
            }
        }
        for eq in &mut raw {
            eq.retain(|((a, b), c)| (*a > 0 || *b > 0) && c.iter().any(|&v| v != 0));
        }
        let mut integrals: Vec<Index> = raw.iter().flatten().map(|t| t.0).collect();
        integrals.extend(integrals.clone().iter().map(|&(a, b)| (b, a)));
        integrals.sort_by_key(|i| (weight(*i), *i));
        integrals.dedup();
        for &(a, b) in &integrals {
            if a < b {
                raw.push(vec![((a, b), [1, 0, 0, 0]), ((b, a), [-1, 0, 0, 0])]);
            }
        }
        let column = |i: &Index| {
            integrals
                .binary_search_by_key(&(weight(*i), *i), |j| (weight(*j), *j))
                .unwrap()
        };
        let eqs = raw
            .iter()
            .map(|eq| eq.iter().map(|(i, c)| (column(i), *c)).collect())
            .collect();
        Self { integrals, eqs }
    }

    fn len(&self) -> usize {
        self.eqs.len()
    }

    fn column(&self, i: Index) -> usize {
        self.integrals.iter().position(|&j| j == i).unwrap()
    }

    /// Equation `e` at the numeric point `x = (d, s, m2)`.
    fn row(&self, e: usize, x: &[u64], p: u64) -> Row {
        let residue = |v: i64| u64::try_from(i128::from(v).rem_euclid(i128::from(p))).unwrap();
        self.eqs[e]
            .iter()
            .map(|(j, c)| {
                let v = c[1..].iter().zip(x).fold(residue(c[0]), |acc, (&ci, &xi)| {
                    add(acc, mul(residue(ci), xi, p), p)
                });
                (*j, v)
            })
            .collect()
    }
}

const TARGETS: [Index; 5] = [(2, 1), (2, 2), (3, 1), (3, 0), (1, -1)];

/// The trimmed replay agrees with eliminating everything from scratch at each new point.
#[test]
fn bubble_replay_matches_full_elimination() {
    let bubble = Bubble::new(3);
    let targets: Vec<usize> = TARGETS.iter().map(|&t| bubble.column(t)).collect();
    let mut primes = Primes::new();
    let mut rng = Rng::new(9);
    let rows = |x: &[u64], p| {
        (0..bubble.len())
            .map(|e| bubble.row(e, x, p))
            .collect::<Vec<Row>>()
    };
    let mut point = |p| (0..3).map(|_| rng.nonzero(p)).collect::<Vec<u64>>();
    let p = primes.next().unwrap();
    let plan = Plan::learn(&rows(&point(p), p), &targets, p);
    for _ in 0..3 {
        let p = primes.next().unwrap();
        let x = point(p);
        let fresh = Plan::learn(&rows(&x, p), &targets, p);
        assert_eq!(fresh.masters, plan.masters);
        let all = rows(&x, p);
        assert_eq!(
            plan.replay(|e| bubble.row(e, &x, p), p),
            fresh.replay(|e| all[e].clone(), p)
        );
    }
}

/// Every master is a column of the system and the masters come out ascending.
#[test]
fn masters_are_ascending_columns() {
    let bubble = Bubble::new(3);
    let targets: Vec<usize> = TARGETS.iter().map(|&t| bubble.column(t)).collect();
    let p = Primes::new().next().unwrap();
    let x = [5u64, 7, 11];
    let rows: Vec<Row> = (0..bubble.len()).map(|e| bubble.row(e, &x, p)).collect();
    let plan = Plan::learn(&rows, &targets, p);
    assert!(!plan.is_empty());
    assert!(plan.len() <= rows.len());
    assert!(plan.masters.windows(2).all(|w| w[0] < w[1]));
    assert!(plan.masters.iter().all(|&m| m < bubble.integrals.len()));
    assert_eq!(plan.targets, targets);
    let out = plan.replay(|e| rows[e].clone(), p).unwrap();
    assert_eq!(out.len(), targets.len() * plan.masters.len());
}
