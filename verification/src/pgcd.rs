//! Zippel's recursive gcd over GF(p): dense interpolation in the last variable, with every image
//! after the first found by sparse interpolation against the first image's skeleton.

use crate::linzip::{in_skeleton, linzip};
use crate::modp::{Rng, modulus};
use crate::poly::{Exps, ModPoly, exps_eq, exps_ok, groups_ok, key_of, lex_greater, lex_gt, same_but, small_exps};
use crate::univariate::{self as uni, Dense, residues};
use crate::zippel::sparse;
use vstd::prelude::*;

verus! {

/// Strictly descending in lex order.
pub open spec fn strictly_descending(s: Seq<Exps>) -> bool {
    forall|a: int, b: int| 0 <= a < b < s.len() ==> lex_gt(#[trigger] s[a]@, #[trigger] s[b]@)
}

/// Whether `e` is among the strictly descending `s`, by binary search.
fn contains_desc(s: &Vec<Exps>, e: &[u32]) -> (r: bool)
    ensures
        r ==> exists|i: int| 0 <= i < s@.len() && (#[trigger] s@[i])@ == e@,
        strictly_descending(s@) && !r ==> forall|i: int| 0 <= i < s@.len() ==> (#[trigger] s@[i])@ != e@,
{
    let mut lo: usize = 0;
    let mut hi: usize = s.len();
    while lo < hi
        invariant
            lo <= hi <= s@.len(),
            strictly_descending(s@) ==> forall|i: int| 0 <= i < lo ==> lex_gt((#[trigger] s@[i])@, e@),
            strictly_descending(s@) ==> forall|i: int| hi <= i < s@.len() ==> lex_gt(e@, (#[trigger] s@[i])@),
        decreases hi - lo,
    {
        let mid = lo + (hi - lo) / 2;
        if exps_eq(&s[mid], e) {
            return true;
        }
        if lex_greater(e, &s[mid]) {
            proof {
                if strictly_descending(s@) {
                    assert forall|i: int| mid <= i < s@.len() implies lex_gt(e@, (#[trigger] s@[i])@) by {
                        if i > mid {
                            crate::poly::lemma_lex_gt_transitive(e@, s@[mid as int]@, s@[i]@);
                        }
                    }
                }
            }
            hi = mid;
        } else {
            proof {
                if strictly_descending(s@) {
                    crate::poly::lemma_lex_total(e@, s@[mid as int]@);
                    assert forall|i: int| 0 <= i < mid + 1 implies lex_gt((#[trigger] s@[i])@, e@) by {
                        if i < mid {
                            crate::poly::lemma_lex_gt_transitive(s@[i]@, s@[mid as int]@, e@);
                        }
                    }
                }
            }
            lo = mid + 1;
        }
    }
    proof {
        if strictly_descending(s@) {
            assert forall|i: int| 0 <= i < s@.len() implies (#[trigger] s@[i])@ != e@ by {
                if i < lo {
                    crate::poly::lemma_lex_gt_irreflexive(e@);
                } else {
                    crate::poly::lemma_lex_gt_irreflexive(e@);
                }
            }
        }
    }
    false
}

/// Compare an image against the current skeleton: `None` discards it, `Some(true)` starts over.
/// An unlucky image has a larger leading monomial than the true gcd; one with terms outside
/// the skeleton reveals that the skeleton came from an unlucky choice.
pub fn reshape(skeleton: Option<&Vec<Exps>>, h: &ModPoly) -> (r: Option<bool>)
    requires
        h.terms@.len() > 0,
        skeleton matches Some(s) ==> s@.len() > 0,
    ensures
        skeleton is None ==> r == Some(true),
        skeleton matches Some(s) ==> {
            &&& lex_gt(h.terms@[0].0@, s@[0]@) ==> r is None
            &&& !lex_gt(h.terms@[0].0@, s@[0]@) && h.terms@[0].0@ != s@[0]@ ==> r == Some(true)
            &&& h.terms@[0].0@ == s@[0]@ && strictly_descending(s@) ==> r == Some(
                !forall|t: int| 0 <= t < h.terms@.len() ==> in_skeleton((#[trigger] h.terms@[t]).0@, s@),
            )
        },
{
    let s = match skeleton {
        None => {
            return Some(true);
        },
        Some(s) => s,
    };
    let lm = h.lm();
    if lex_greater(lm, &s[0]) {
        proof {
            crate::poly::lemma_lex_gt_irreflexive(s@[0]@);
        }
        return None;
    }
    if !exps_eq(lm, &s[0]) {
        return Some(true);
    }
    let mut t: usize = 0;
    while t < h.terms.len()
        invariant
            t <= h.terms@.len(),
            skeleton == Some(s),
            s@.len() > 0,
            h.terms@.len() > 0,
            !lex_gt(h.terms@[0].0@, s@[0]@),
            h.terms@[0].0@ == s@[0]@,
            forall|u: int| 0 <= u < t ==> in_skeleton((#[trigger] h.terms@[u]).0@, s@),
        decreases h.terms@.len() - t,
    {
        if !contains_desc(s, &h.terms[t].0) {
            proof {
                if strictly_descending(s@) {
                    assert forall|i: int| 0 <= i < s@.len() implies h.terms@[t as int].0@ != (#[trigger] s@[i])@ by {
                        assert(s@[i]@ != h.terms@[t as int].0@);
                    }
                    assert(!in_skeleton(h.terms@[t as int].0@, s@));
                    assert(!forall|u: int| 0 <= u < h.terms@.len() ==> in_skeleton((#[trigger] h.terms@[u]).0@, s@));
                }
            }
            return Some(true);
        }
        t += 1;
    }
    Some(false)
}

/// `deg_{x_k} gcd(f, g)` is at most the degree of a gcd of univariate images in `x_k`.
fn degree_bound(f: &ModPoly, g: &ModPoly, k: usize, p: u64, rng: &mut Rng) -> (r: Option<usize>)
    requires
        f.shaped(p),
        g.shaped(p),
        f.n == g.n,
        k < f.n,
        small_exps(*f),
        small_exps(*g),
        modulus(p),
{
    let mut tries: u64 = 0;
    while tries < 8
        invariant
            f.shaped(p),
            g.shaped(p),
            f.n == g.n,
            k < f.n,
            small_exps(*f),
            small_exps(*g),
            modulus(p),
        decreases 8 - tries,
    {
        let mut point: Vec<u64> = Vec::new();
        while point.len() < f.n
            invariant
                point@.len() <= f.n,
                modulus(p),
            decreases f.n - point@.len(),
        {
            point.push(rng.nonzero(p));
        }
        proof {
            assert forall|t: int| 0 <= t < f.terms@.len() implies (#[trigger] f.terms@[t]).0@[k as int] < usize::MAX by {
                assert(f.terms@[t].0@.len() == f.n);
            }
            assert forall|t: int| 0 <= t < g.terms@.len() implies (#[trigger] g.terms@[t]).0@[k as int] < usize::MAX by {
                assert(g.terms@[t].0@.len() == g.n);
            }
        }
        let uf = f.eval_except(k, &point, p);
        let ug = g.eval_except(k, &point, p);
        if uni::deg(&uf) == f.degree(k) && uni::deg(&ug) == g.degree(k) {
            return Some(uni::deg(&uni::gcd(&uf, &ug, p)));
        }
        tries += 1;
    }
    None
}

/// Images scaled to a common normalization, discarding those of the wrong shape.
struct Accumulator {
    points: Vec<u64>,
    images: Vec<ModPoly>,
    skeleton: Option<Vec<Exps>>,
}

impl Accumulator {
    /// Points are residues, one per image, and every image and the skeleton have `exps_ok`
    /// monomials in `n` variables.
    spec fn wf(&self, n: nat, low: nat, p: u64) -> bool {
        &&& residues(self.points@, p)
        &&& self.points@.len() == self.images@.len()
        &&& forall|j: int| 0 <= j < self.images@.len() ==> (#[trigger] self.images@[j]).shaped(p)
            && self.images@[j].n == n
            && forall|t: int| 0 <= t < self.images@[j].terms@.len() ==> exps_ok((#[trigger] self.images@[j].terms@[t]).0@, n, low)
        &&& self.skeleton matches Some(s) ==> s@.len() > 0 && forall|i: int| 0 <= i < s@.len() ==> exps_ok((#[trigger] s@[i])@, n, low)
    }

    fn new() -> (a: Self)
        ensures
            a.points@.len() == 0,
            a.images@.len() == 0,
            a.skeleton is None,
    {
        Accumulator { points: Vec::new(), images: Vec::new(), skeleton: None }
    }

    /// Takes the image `h` at `point`, scaled to leading coefficient `lead`, unless its shape
    /// rules it out; an image of a better shape than the skeleton starts over.
    fn offer(&mut self, point: u64, h: ModPoly, lead: u64, p: u64, Ghost(n): Ghost<nat>, Ghost(low): Ghost<nat>)
        requires
            old(self).wf(n, low, p),
            h.terms@.len() > 0,
            h.shaped(p),
            h.n == n,
            forall|t: int| 0 <= t < h.terms@.len() ==> exps_ok((#[trigger] h.terms@[t]).0@, n, low),
            point < p,
            lead < p,
            modulus(p),
        ensures
            final(self).wf(n, low, p),
            final(self).points@ == old(self).points@ || final(self).points@ == old(self).points@.push(point)
                || final(self).points@ == seq![point],
            old(self).skeleton is None ==> final(self).points@ == seq![point] && final(self).skeleton is Some,
    {
        let h0 = h;
        let mut h = h0.monic(p);
        h.scale(lead, p);
        assert forall|t: int| 0 <= t < h.terms@.len() implies exps_ok((#[trigger] h.terms@[t]).0@, n, low) && h.terms@[t].1 < p by {
            assert(h.terms@[t].0@ == h0.terms@[t].0@);
        }
        let reset = match reshape(self.skeleton.as_ref(), &h) {
            Some(r) => r,
            None => {
                return;
            },
        };
        if reset {
            self.points.clear();
            self.images.clear();
            let sup = h.support();
            assert forall|i: int| 0 <= i < sup@.len() implies exps_ok((#[trigger] sup@[i])@, n, low) by {
                assert(sup@[i]@ == h.terms@[i].0@);
            }
            self.skeleton = Some(sup);
        }
        let ghost imgs = self.images@;
        self.points.push(point);
        self.images.push(h);
        proof {
            assert forall|j: int| 0 <= j < self.images@.len() implies (#[trigger] self.images@[j]).shaped(p)
                && self.images@[j].n == n
                && forall|t: int| 0 <= t < self.images@[j].terms@.len() ==> exps_ok((#[trigger] self.images@[j].terms@[t]).0@, n, low) by {
                if j < imgs.len() {
                    assert(self.images@[j] == imgs[j]);
                }
            }
        }
    }

    /// Each monomial's coefficients across the images, interpolated through the points, in
    /// descending order of monomials.
    fn interpolate(&self, p: u64, Ghost(n): Ghost<nat>, Ghost(low): Ghost<nat>) -> (out: Vec<(Exps, Dense)>)
        requires
            self.wf(n, low, p),
            modulus(p),
            self.points@.len() < u32::MAX,
        ensures
            groups_ok(out@, n, low, p),
            forall|g: int| 0 <= g < out@.len() ==> (#[trigger] out@[g]).1@.len() <= self.points@.len(),
            forall|j: int, t: int|
                0 <= j < self.images@.len() && 0 <= t < self.images@[j].terms@.len() ==> has_key(
                    out@,
                    (#[trigger] self.images@[j].terms@[t]).0@,
                ),
    {
        let m = self.images.len();
        let mut entries: Vec<(Exps, Vec<u64>)> = Vec::new();
        let mut j: usize = 0;
        while j < m
            invariant
                j <= m,
                m == self.images@.len(),
                self.wf(n, low, p),
                modulus(p),
                forall|i: int| 0 <= i < entries@.len() ==> exps_ok((#[trigger] entries@[i]).0@, n, low)
                    && entries@[i].1@.len() == m && residues(entries@[i].1@, p),
                forall|j2: int, t: int|
                    0 <= j2 < j && 0 <= t < self.images@[j2].terms@.len() ==> has_key(entries@, (#[trigger] self.images@[j2].terms@[t]).0@),
            decreases m - j,
        {
            let h = &self.images[j];
            let mut t: usize = 0;
            while t < h.terms.len()
                invariant
                    t <= h.terms@.len(),
                    j < m,
                    m == self.images@.len(),
                    *h == self.images@[j as int],
                    self.wf(n, low, p),
                    modulus(p),
                    forall|i: int| 0 <= i < entries@.len() ==> exps_ok((#[trigger] entries@[i]).0@, n, low)
                        && entries@[i].1@.len() == m && residues(entries@[i].1@, p),
                    forall|j2: int, t2: int|
                        0 <= j2 < j && 0 <= t2 < self.images@[j2].terms@.len() ==> has_key(entries@, (#[trigger] self.images@[j2].terms@[t2]).0@),
                    forall|t2: int| 0 <= t2 < t ==> has_key(entries@, (#[trigger] h.terms@[t2]).0@),
                decreases h.terms@.len() - t,
            {
                let e = &h.terms[t].0;
                let c = h.terms[t].1;
                assert(exps_ok(e@, n, low));
                let mut i: usize = 0;
                while i < entries.len() && !exps_eq(&entries[i].0, e) && !lex_greater(e, &entries[i].0)
                    invariant
                        i <= entries@.len(),
                    decreases entries@.len() - i,
                {
                    i += 1;
                }
                let found = i < entries.len() && exps_eq(&entries[i].0, e);
                let ghost before_ins = entries@;
                if !found {
                    let key = e.clone();
                    assert(key@ == e@);
                    let zeros: Vec<u64> = vec![0u64; m];
                    let ghost e0 = entries@;
                    entries.insert(i, (key, zeros));
                    proof {
                        assert forall|u: int| 0 <= u < entries@.len() implies exps_ok((#[trigger] entries@[u]).0@, n, low)
                            && entries@[u].1@.len() == m && residues(entries@[u].1@, p) by {
                            if u < i {
                                assert(entries@[u] == e0[u]);
                            } else if u > i {
                                assert(entries@[u] == e0[u - 1]);
                            }
                        }
                    }
                }
                proof {
                    assert forall|x: Seq<u32>| has_key(before_ins, x) implies #[trigger] has_key(entries@, x) by {
                        let u = choose|u: int| 0 <= u < before_ins.len() && (#[trigger] before_ins[u]).0@ == x;
                        if !found {
                            if u < i {
                                assert(entries@[u] == before_ins[u]);
                            } else {
                                assert(entries@[u + 1] == before_ins[u]);
                            }
                        }
                    }
                    assert(entries@[i as int].0@ == e@);
                }
                let key = entries[i].0.clone();
                assert(key@ == entries@[i as int].0@);
                let mut ys = entries[i].1.clone();
                assert(ys@ == entries@[i as int].1@);
                ys.set(j, c);
                let ghost e1 = entries@;
                let ghost kv = key@;
                entries.set(i, (key, ys));
                proof {
                    assert forall|x: Seq<u32>| has_key(e1, x) implies #[trigger] has_key(entries@, x) by {
                        let u = choose|u: int| 0 <= u < e1.len() && (#[trigger] e1[u]).0@ == x;
                        if u != i {
                            assert(entries@[u] == e1[u]);
                        } else {
                            assert(entries@[u].0@ == kv);
                        }
                    }
                    assert(has_key(e1, e@)) by {
                        assert(e1[i as int].0@ == e@);
                    }
                }
                proof {
                    assert forall|u: int| 0 <= u < entries@.len() implies exps_ok((#[trigger] entries@[u]).0@, n, low)
                        && entries@[u].1@.len() == m && residues(entries@[u].1@, p) by {
                        if u != i {
                            assert(entries@[u] == e1[u]);
                        }
                    }
                }
                t += 1;
            }
            j += 1;
        }
        let mut out: Vec<(Exps, Dense)> = Vec::new();
        let mut i: usize = 0;
        while i < entries.len()
            invariant
                i <= entries@.len(),
                m == self.images@.len(),
                self.wf(n, low, p),
                self.points@.len() < u32::MAX,
                modulus(p),
                forall|u: int| 0 <= u < entries@.len() ==> exps_ok((#[trigger] entries@[u]).0@, n, low)
                    && entries@[u].1@.len() == m && residues(entries@[u].1@, p),
                groups_ok(out@, n, low, p),
                forall|g: int| 0 <= g < out@.len() ==> (#[trigger] out@[g]).1@.len() <= self.points@.len(),
                out@.len() == i,
                forall|g: int| 0 <= g < i ==> (#[trigger] out@[g]).0@ == entries@[g].0@,
            decreases entries@.len() - i,
        {
            let key = entries[i].0.clone();
            assert(key@ == entries@[i as int].0@);
            let d = uni::interpolate(&self.points, &entries[i].1, p);
            let ghost o0 = out@;
            out.push((key, d));
            proof {
                assert forall|g: int| 0 <= g < out@.len() implies exps_ok((#[trigger] out@[g]).0@, n, low)
                    && residues(out@[g].1@, p) && out@[g].1@.len() <= u32::MAX by {
                    if g < o0.len() {
                        assert(out@[g] == o0[g]);
                    }
                }
                assert forall|g: int| 0 <= g < out@.len() implies (#[trigger] out@[g]).1@.len() <= self.points@.len() by {
                    if g < o0.len() {
                        assert(out@[g] == o0[g]);
                    }
                }
            }
            proof {
                assert forall|g: int| 0 <= g < i + 1 implies (#[trigger] out@[g]).0@ == entries@[g].0@ by {
                    if g < i {
                        assert(out@[g] == o0[g]);
                    }
                }
            }
            i += 1;
        }
        proof {
            assert forall|j: int, t: int|
                0 <= j < self.images@.len() && 0 <= t < self.images@[j].terms@.len() implies has_key(
                    out@,
                    (#[trigger] self.images@[j].terms@[t]).0@,
                ) by {
                let x = self.images@[j].terms@[t].0@;
                assert(has_key(entries@, x));
                let u = choose|u: int| 0 <= u < entries@.len() && (#[trigger] entries@[u]).0@ == x;
                assert(out@[u].0@ == x);
            }
        }
        out
    }
}

/// An input of `pgcd` in `x_0..x_k`: sparse in `n > k` variables, every monomial `exps_ok`.
pub open spec fn gcd_input(f: ModPoly, k: nat, p: u64) -> bool {
    &&& k < f.n
    &&& sparse(f, f.n as nat, p)
    &&& forall|t: int| 0 <= t < f.terms@.len() ==> exps_ok((#[trigger] f.terms@[t]).0@, f.n as nat, k)
}

proof fn lemma_gcd_input_small(f: ModPoly, k: nat, p: u64)
    requires
        gcd_input(f, k, p),
    ensures
        small_exps(f),
        forall|t: int| 0 <= t < f.terms@.len() ==> (#[trigger] f.terms@[t]).0@[k as int] < usize::MAX,
{
    assert forall|t: int, i: int| 0 <= t < f.terms@.len() && 0 <= i < f.terms@[t].0@.len() implies #[trigger] f.terms@[t].0@[i] < u32::MAX by {
        assert(exps_ok(f.terms@[t].0@, f.n as nat, k));
    }
    assert forall|t: int| 0 <= t < f.terms@.len() implies (#[trigger] f.terms@[t]).0@[k as int] < usize::MAX by {
        assert(exps_ok(f.terms@[t].0@, f.n as nat, k));
    }
}

/// Monomials of `f` with the power of `x_k` changed stay `exps_ok` for `k`.
proof fn lemma_same_but_ok(h: ModPoly, f: ModPoly, k: nat, n: nat)
    requires
        k < n,
        forall|t: int| 0 <= t < h.terms@.len() ==> same_but((#[trigger] h.terms@[t]).0@, f.terms@, k as int),
        forall|t: int| 0 <= t < f.terms@.len() ==> exps_ok((#[trigger] f.terms@[t]).0@, n, k),
    ensures
        forall|t: int| 0 <= t < h.terms@.len() ==> exps_ok((#[trigger] h.terms@[t]).0@, n, k),
{
    assert forall|t: int| 0 <= t < h.terms@.len() implies exps_ok((#[trigger] h.terms@[t]).0@, n, k) by {
        let e = h.terms@[t].0@;
        assert(same_but(e, f.terms@, k as int));
        let (s, i) = choose|s: int, i: u32| 0 <= s < f.terms@.len() && i < u32::MAX && e == #[trigger] f.terms@[s].0@.update(k as int, i);
        assert(exps_ok(f.terms@[s].0@, n, k));
        assert forall|j: int| 0 <= j < e.len() implies #[trigger] e[j] < u32::MAX by {
            if j != k {
                assert(e[j] == f.terms@[s].0@[j]);
            }
        }
        assert forall|j: int| k < j < e.len() implies #[trigger] e[j] == 0 by {
            assert(e[j] == f.terms@[s].0@[j]);
        }
    }
}

/// Clearing `x_k` leaves monomials `exps_ok` for `k - 1`.
proof fn lemma_key_of_ok(e: Seq<u32>, n: nat, k: nat)
    requires
        1 <= k < n,
        exps_ok(e, n, k),
    ensures
        exps_ok(key_of(e, k as int), n, (k - 1) as nat),
{
    let key = key_of(e, k as int);
    assert forall|j: int| 0 <= j < key.len() implies #[trigger] key[j] < u32::MAX by {
        if j != k {
            assert(key[j] == e[j]);
        }
    }
    assert forall|j: int| k - 1 < j < key.len() implies #[trigger] key[j] == 0 by {
        if j != k {
            assert(key[j] == e[j]);
        }
    }
}

/// Whether no monomial of `s` has a higher power of `x_0` than the first.
fn first_is_top(s: &Vec<Exps>) -> (r: bool)
    requires
        s@.len() > 0,
        forall|i: int| 0 <= i < s@.len() ==> (#[trigger] s@[i])@.len() > 0,
    ensures
        r == forall|i: int| 0 <= i < s@.len() ==> (#[trigger] s@[i])@[0] <= s@[0]@[0],
{
    let top = s[0][0];
    let mut i: usize = 0;
    while i < s.len()
        invariant
            i <= s@.len(),
            s@.len() > 0,
            top == s@[0]@[0],
            forall|u: int| 0 <= u < s@.len() ==> (#[trigger] s@[u])@.len() > 0,
            forall|u: int| 0 <= u < i ==> (#[trigger] s@[u])@[0] <= top,
        decreases s@.len() - i,
    {
        if s[i][0] > top {
            return false;
        }
        i += 1;
    }
    true
}

/// Whether `a` occurs in `v`.
fn contains_point(v: &Vec<u64>, a: u64) -> (r: bool)
    ensures
        r == v@.contains(a),
{
    let mut i: usize = 0;
    while i < v.len()
        invariant
            i <= v@.len(),
            forall|u: int| 0 <= u < i ==> v@[u] != a,
        decreases v@.len() - i,
    {
        if v[i] == a {
            return true;
        }
        i += 1;
    }
    false
}

/// Some entry has the exponents `e` as its key.
pub open spec fn has_key(entries: Seq<(Exps, Vec<u64>)>, e: Seq<u32>) -> bool {
    exists|u: int| 0 <= u < entries.len() && (#[trigger] entries[u]).0@ == e
}

/// `gcd(f, g)` up to a scalar, where only `x_0..=x_k` occur. `None` when every point tried was
/// unlucky.
pub fn pgcd(f: &ModPoly, g: &ModPoly, k: usize, p: u64, rng: &mut Rng) -> (r: Option<ModPoly>)
    requires
        gcd_input(*f, k as nat, p),
        gcd_input(*g, k as nat, p),
        f.n == g.n,
        modulus(p),
    ensures
        r matches Some(h) ==> h.n == f.n && gcd_input(h, k as nat, p),
    decreases k,
{
    let ghost n = f.n as nat;
    proof {
        lemma_gcd_input_small(*f, k as nat, p);
        lemma_gcd_input_small(*g, k as nat, p);
    }
    if k == 0 {
        proof {
            assert forall|t: int, i: int|
                0 <= t < f.terms@.len() && 0 <= i < f.terms@[t].0@.len() && i != 0
                    && #[trigger] f.terms@[t].0@[i] != 0 implies i < 0 by {
                assert(exps_ok(f.terms@[t].0@, n, 0));
            }
            assert forall|t: int, i: int|
                0 <= t < g.terms@.len() && 0 <= i < g.terms@[t].0@.len() && i != 0
                    && #[trigger] g.terms@[t].0@[i] != 0 implies i < 0 by {
                assert(exps_ok(g.terms@[t].0@, n, 0));
            }
        }
        let ef = f.eval_except(0, &[], p);
        let eg = g.eval_except(0, &[], p);
        let h = uni::gcd(&ef, &eg, p);
        if h.len() > u32::MAX as usize {
            return None;
        }
        let key: Exps = vec![0u32; f.n];
        let mut groups: Vec<(Exps, Dense)> = Vec::new();
        groups.push((key, h));
        let ghost gv = groups@;
        let r = ModPoly::from_groups(f.n, 0, groups);
        proof {
            assert(exps_ok(gv[0].0@, n, 0));
            assert(groups_ok(gv, n, 0, p));
            crate::poly::lemma_from_groups_shape(r, gv, 0, n, 0, p);
        }
        return Some(r);
    }
    let (cf, f1) = f.primitive(k, p);
    let (cg, g1) = g.primitive(k, p);
    proof {
        lemma_same_but_ok(f1, *f, k as nat, n);
        lemma_same_but_ok(g1, *g, k as nat, n);
        assert(gcd_input(f1, k as nat, p));
        assert(gcd_input(g1, k as nat, p));
        lemma_gcd_input_small(f1, k as nat, p);
        lemma_gcd_input_small(g1, k as nat, p);
    }
    let content = uni::gcd(&cf, &cg, p);
    let gf = f1.groups(k);
    let gg = g1.groups(k);
    if gf.len() == 0 || gg.len() == 0 {
        return None;
    }
    proof {
        crate::poly::lemma_groups_residues(f1.terms@, k as int, f1.terms@.len(), p);
        crate::poly::lemma_groups_residues(g1.terms@, k as int, g1.terms@.len(), p);
        crate::poly::lemma_groups_trimmed(f1.terms@, k as int, f1.terms@.len());
        crate::poly::lemma_groups_trimmed(g1.terms@, k as int, g1.terms@.len());
    }
    let lf = gf[0].1.clone();
    let lg = gg[0].1.clone();
    assert(lf@ == gf@[0].1@ && lg@ == gg@[0].1@);
    let gamma = uni::gcd(&lf, &lg, p);
    let db = match degree_bound(&f1, &g1, k, p, rng) {
        Some(d) => d,
        None => {
            return None;
        },
    };
    let need = match db.checked_add(uni::deg(&gamma)) {
        Some(v) => match v.checked_add(1) {
            Some(w) => w,
            None => {
                return None;
            },
        },
        None => {
            return None;
        },
    };
    if need >= u32::MAX as usize {
        return None;
    }
    let tries: u64 = 4 * (need as u64) + 16;
    let mut images = Accumulator::new();
    let mut it: u64 = 0;
    while it < tries
        invariant
            gcd_input(f1, k as nat, p),
            gcd_input(g1, k as nat, p),
            small_exps(f1),
            small_exps(g1),
            forall|t: int| 0 <= t < f1.terms@.len() ==> (#[trigger] f1.terms@[t]).0@[k as int] < usize::MAX,
            forall|t: int| 0 <= t < g1.terms@.len() ==> (#[trigger] g1.terms@[t]).0@[k as int] < usize::MAX,
            f1.n == f.n,
            g1.n == f.n,
            n == f.n,
            1 <= k < f.n,
            modulus(p),
            residues(lf@, p),
            residues(lg@, p),
            residues(gamma@, p),
            residues(content@, p),
            need < u32::MAX,
            images.wf(n, (k - 1) as nat, p),
            images.points@.len() < need,
        decreases tries - it,
    {
        let a = rng.nonzero(p);
        it += 1;
        if uni::eval(&lf, a, p) == 0 || uni::eval(&lg, a, p) == 0 || contains_point(&images.points, a) {
            continue;
        }
        let fa = f1.eval_var(k, a, p);
        let ga = g1.eval_var(k, a, p);
        proof {
            assert forall|t: int| 0 <= t < fa.terms@.len() implies exps_ok((#[trigger] fa.terms@[t]).0@, n, (k - 1) as nat) by {
                let s = choose|s: int| 0 <= s < f1.terms@.len() && fa.terms@[t].0@ == key_of(f1.terms@[s].0@, k as int);
                assert(exps_ok(f1.terms@[s].0@, n, k as nat));
                lemma_key_of_ok(f1.terms@[s].0@, n, k as nat);
            }
            assert forall|t: int| 0 <= t < ga.terms@.len() implies exps_ok((#[trigger] ga.terms@[t]).0@, n, (k - 1) as nat) by {
                let s = choose|s: int| 0 <= s < g1.terms@.len() && ga.terms@[t].0@ == key_of(g1.terms@[s].0@, k as int);
                assert(exps_ok(g1.terms@[s].0@, n, k as nat));
                lemma_key_of_ok(g1.terms@[s].0@, n, k as nat);
            }
            assert(gcd_input(fa, (k - 1) as nat, p));
            assert(gcd_input(ga, (k - 1) as nat, p));
            lemma_gcd_input_small(fa, (k - 1) as nat, p);
            lemma_gcd_input_small(ga, (k - 1) as nat, p);
        }
        let mut found: Option<ModPoly> = None;
        if k >= 2 {
            if let Some(s) = &images.skeleton {
                proof {
                    assert forall|i: int| 0 <= i < s@.len() implies (#[trigger] s@[i])@.len() > 0 by {
                        assert(exps_ok(s@[i]@, n, (k - 1) as nat));
                    }
                }
                if first_is_top(s) {
                    proof {
                        assert forall|i: int| 0 <= i < s@.len() implies (#[trigger] s@[i])@.len() == n by {
                            assert(exps_ok(s@[i]@, n, (k - 1) as nat));
                        }
                    }
                    found = linzip(&fa, &ga, s, k - 1, p, rng);
                    proof {
                        if found is Some {
                            let h = found->0;
                            assert forall|t: int| 0 <= t < h.terms@.len() implies exps_ok((#[trigger] h.terms@[t]).0@, n, (k - 1) as nat) by {
                                assert(in_skeleton(h.terms@[t].0@, s@));
                                let w = choose|w: int| 0 <= w < s@.len() && h.terms@[t].0@ == (#[trigger] s@[w])@;
                                assert(exps_ok(s@[w]@, n, (k - 1) as nat));
                            }
                        }
                    }
                }
            }
        }
        let h = match found {
            Some(h) => h,
            None => match pgcd(&fa, &ga, k - 1, p, rng) {
                Some(h) => h,
                None => {
                    continue;
                },
            },
        };
        if h.terms.len() == 0 {
            continue;
        }
        let lead = uni::eval(&gamma, a, p);
        images.offer(a, h, lead, p, Ghost(n), Ghost((k - 1) as nat));
        if images.points.len() == need {
            let groups = images.interpolate(p, Ghost(n), Ghost((k - 1) as nat));
            let ghost gv = groups@;
            proof {
                assert forall|u: int| 0 <= u < gv.len() implies exps_ok((#[trigger] gv[u]).0@, n, k as nat)
                    && residues(gv[u].1@, p) && gv[u].1@.len() <= u32::MAX by {
                    assert(exps_ok(gv[u].0@, n, (k - 1) as nat));
                }
            }
            let hh = ModPoly::from_groups(f.n, k, groups);
            proof {
                crate::poly::lemma_from_groups_shape(hh, gv, k as int, n, k as nat, p);
            }
            let (_, hp) = hh.primitive(k, p);
            proof {
                lemma_same_but_ok(hp, hh, k as nat, n);
                lemma_gcd_input_small(hp, k as nat, p);
            }
            let gs2 = hp.groups(k);
            proof {
                crate::poly::lemma_groups_keys(hp.terms@, k as int, hp.terms@.len(), n, k as nat);
                crate::poly::lemma_groups_residues(hp.terms@, k as int, hp.terms@.len(), p);
            }
            let ghost spec2 = crate::poly::groups_spec(hp.terms@, k as int, hp.terms@.len());
            let mut out: Vec<(Exps, Dense)> = Vec::new();
            let mut u: usize = 0;
            while u < gs2.len()
                invariant
                    u <= gs2@.len(),
                    gs2@.len() == spec2.len(),
                    forall|w: int| 0 <= w < gs2@.len() ==> ((#[trigger] gs2@[w]).0@, gs2@[w].1@) == spec2[w],
                    forall|w: int| 0 <= w < spec2.len() ==> exps_ok((#[trigger] spec2[w]).0, n, k as nat)
                        && spec2[w].1.len() <= u32::MAX,
                    forall|w: int| 0 <= w < spec2.len() ==> residues(#[trigger] spec2[w].1, p),
                    residues(content@, p),
                    modulus(p),
                    groups_ok(out@, n, k as nat, p),
                decreases gs2@.len() - u,
            {
                let d = &gs2[u].1;
                assert(d@ == spec2[u as int].1);
                if (d.len() as u128) + (content.len() as u128) > (u32::MAX as u128) {
                    return None;
                }
                let prod = uni::mul_poly(d, &content, p);
                let key = gs2[u].0.clone();
                assert(key@ == spec2[u as int].0);
                let ghost o0 = out@;
                out.push((key, prod));
                proof {
                    assert forall|w: int| 0 <= w < out@.len() implies exps_ok((#[trigger] out@[w]).0@, n, k as nat)
                        && residues(out@[w].1@, p) && out@[w].1@.len() <= u32::MAX by {
                        if w < o0.len() {
                            assert(out@[w] == o0[w]);
                        }
                    }
                }
                u += 1;
            }
            let ghost ov = out@;
            let r = ModPoly::from_groups(f.n, k, out);
            proof {
                crate::poly::lemma_from_groups_shape(r, ov, k as int, n, k as nat, p);
            }
            return Some(r);
        }
    }
    None
}

} // verus!
