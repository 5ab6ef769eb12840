use tiny_zippel::ibp::{Family, Index};
use tiny_zippel::laporta::{Plan, Row};
use tiny_zippel::{Primes, Rng};

/// One loop, two equal masses: `D1 = k^2 - m2`, `D2 = (k + q)^2 - m2`, `q^2 = s`.
fn bubble() -> Family {
    let m2 = vec![0, 0, 0, 1];
    Family {
        vars: vec!["d", "s", "m2"],
        loops: 1,
        props: vec![(vec![1, 0], m2.clone()), (vec![1, 1], m2)],
        lines: 2,
        legs: vec![vec![vec![0, 0, 2, 0]]],
        symmetries: vec![vec![1, 0]],
    }
}

/// Massless on-shell legs, `s = (p1 + p2)^2`, `t = (p2 + p3)^2`, `u = -s - t`.
fn massless_legs() -> Vec<Vec<Vec<i64>>> {
    let (z, s, t, u) = (
        vec![],
        vec![0, 0, 1, 0],
        vec![0, 0, 0, 1],
        vec![0, 0, -1, -1],
    );
    vec![
        vec![z.clone(), s.clone(), u.clone()],
        vec![s, z.clone(), t.clone()],
        vec![u, t, z],
    ]
}

/// The massless one-loop box: `k`, `k + p1`, `k + p1 + p2`, `k - p4`.
fn one_loop_box() -> Family {
    let props = [[1, 0, 0, 0], [1, 1, 0, 0], [1, 1, 1, 0], [1, 1, 1, 1]];
    Family {
        vars: vec!["d", "s", "t"],
        loops: 1,
        props: props.iter().map(|q| (q.to_vec(), vec![])).collect(),
        lines: 4,
        legs: massless_legs(),
        symmetries: vec![vec![2, 1, 0, 3], vec![0, 3, 2, 1]],
    }
}

/// The trimmed replay agrees with eliminating everything from scratch at each new point.
#[test]
fn families_replay_matches_full_elimination() {
    let system = one_loop_box().system(2, 2).unwrap();
    let targets: Vec<usize> = [[2, 1, 1, 1], [2, 2, 1, 1], [1, 1, 1, 0]]
        .iter()
        .map(|a| system.column(&a.to_vec()))
        .collect();
    let rows = |x: &[u64], p| {
        (0..system.len())
            .map(|e| system.row(e, x, p))
            .collect::<Vec<Row>>()
    };
    let mut primes = Primes::new();
    let mut rng = Rng::new(9);
    let n = system.vars.len();
    let mut point = |p| (0..n).map(|_| rng.nonzero(p)).collect::<Vec<u64>>();
    let p = primes.next().unwrap();
    let plan = Plan::learn(&rows(&point(p), p), &targets, p);
    for _ in 0..3 {
        let p = primes.next().unwrap();
        let x = point(p);
        let all = rows(&x, p);
        let fresh = Plan::learn(&all, &targets, p);
        assert_eq!(fresh.masters, plan.masters);
        assert_eq!(
            plan.replay(|e| system.row(e, &x, p), p),
            fresh.replay(|e| all[e].clone(), p)
        );
    }
}

/// The bubble's identities name their integrals by column, and a row is the linear form of each
/// coefficient at the point, reduced modulo the prime.
#[test]
fn bubble_rows_evaluate_the_identities() {
    let system = bubble().system(2, 1).unwrap();
    assert!(!system.is_empty());
    let p = 101;
    let x = [4u64, 5, 6];
    for e in 0..system.len() {
        let row = system.row(e, &x, p);
        assert!(row.iter().all(|&(j, v)| j < system.integrals.len() && v < p));
    }
    let a: Index = vec![1, 1];
    let j = system.column(&a);
    assert_eq!(system.integrals[j], a);
    assert_eq!(system.name(j), "I(1,1)");
}

/// Names show negative indices with their sign.
#[test]
fn names_carry_signs() {
    let system = bubble().system(2, 1).unwrap();
    let a: Index = vec![1, -1];
    let j = system.column(&a);
    assert_eq!(system.name(j), "I(1,-1)");
}

/// Learning through the system keeps the targets and reports ascending masters.
#[test]
fn system_learn_keeps_targets() {
    let system = bubble().system(2, 1).unwrap();
    let targets: Vec<Index> = vec![vec![2, 1], vec![2, 2], vec![1, -1]];
    let plan = system.learn(&targets, 3);
    let cols: Vec<usize> = targets.iter().map(|t| system.column(t)).collect();
    assert_eq!(plan.targets, cols);
    assert!(plan.masters.windows(2).all(|w| w[0] < w[1]));
    assert!(plan.len() <= system.len());
}

/// The bubble reduces to its two masters, and every target gets a coefficient per master.
#[test]
fn families_reduces_the_bubble() {
    let targets: Vec<Index> = [[2, 1], [2, 2], [3, 1], [3, 0], [1, -1]]
        .iter()
        .map(|a| a.to_vec())
        .collect();
    let (system, plan, coefficients) = bubble().reduce(&targets, 2, 1).unwrap();
    let cols: Vec<usize> = targets.iter().map(|t| system.column(t)).collect();
    assert_eq!(plan.targets, cols);
    assert_eq!(coefficients.len(), plan.targets.len() * plan.masters.len());
    let names: Vec<String> = plan.masters.iter().map(|&m| system.name(m)).collect();
    assert_eq!(names, vec!["I(1,0)", "I(1,1)"]);
}

/// Laporta's order: lines, then dots, then numerators, then the indices from the last.
fn laporta_key(a: &Index, lines: usize) -> (usize, i64, i64, Vec<i32>) {
    let t = a.iter().take(lines).filter(|&&x| x > 0).count();
    let pos = a.iter().filter(|&&x| x > 0).map(|&x| i64::from(x)).sum();
    let neg = a.iter().filter(|&&x| x <= 0).map(|&x| -i64::from(x)).sum();
    (t, pos, neg, a.iter().rev().copied().collect())
}

/// The columns of a system come in Laporta's order.
#[test]
fn columns_come_in_laporta_order() {
    for (family, lines) in [(bubble(), 2), (one_loop_box(), 4)] {
        let system = family.system(1, 1).unwrap();
        let keys: Vec<_> = system.integrals.iter().map(|a| laporta_key(a, lines)).collect();
        assert!(!keys.is_empty());
        assert!(keys.windows(2).all(|w| w[0] <= w[1]));
    }
}
