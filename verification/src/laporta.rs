//! Laporta elimination of sparse linear systems over GF(p), learned once and replayed.
//!
//! Unknowns are columns ordered by complexity, and elimination always removes the most complex
//! one first, so the columns left without a pivot are the simplest: the master integrals.
//! Learning runs on one numeric sample and records which equations the targets actually depend
//! on and where each pivots. Replay builds only those equations at every later sample and checks
//! that the pivots agree, which turns a large, redundant system into a lean black box.

use crate::arith::{lemma_euclid, prime};
use crate::modp::modulus;
use vstd::arithmetic::div_mod::lemma_small_mod;
use vstd::prelude::*;

verus! {

/// A sparse equation `sum c_j * u_j = 0` as `(j, c_j)` pairs.
pub type Row = Vec<(usize, u64)>;

/// Columns strictly descending, each with a nonzero residue.
pub open spec fn reduced_row(r: Seq<(usize, u64)>, p: u64) -> bool {
    &&& forall|s: int, t: int| 0 <= s < t < r.len() ==> #[trigger] r[s].0 > #[trigger] r[t].0
    &&& forall|t: int| 0 <= t < r.len() ==> 0 < (#[trigger] r[t]).1 < p
}

/// A pivot row of column `c`: reduced, led by `c` with coefficient 1, within `size` columns.
pub open spec fn pivot_row(r: Seq<(usize, u64)>, c: int, p: u64, size: int) -> bool {
    &&& r.len() >= 1
    &&& r[0].0 == c
    &&& forall|s: int, t: int| 0 <= s < t < r.len() ==> #[trigger] r[s].0 > #[trigger] r[t].0
    &&& forall|t: int| 0 <= t < r.len() ==> (#[trigger] r[t]).1 < p
    &&& c < size
}

/// A pivot row led by coefficient 1, with no zero coefficient: what a prime modulus makes of
/// every pivot row.
pub open spec fn monic_row(r: Seq<(usize, u64)>) -> bool {
    &&& r.len() >= 1
    &&& r[0].1 == 1
    &&& forall|t: int| 0 <= t < r.len() ==> (#[trigger] r[t]).1 != 0
}

/// Every column of `r` is below `bound`.
pub open spec fn columns_below(r: Seq<(usize, u64)>, bound: int) -> bool {
    forall|t: int| 0 <= t < r.len() ==> (#[trigger] r[t]).0 < bound
}

/// Every column of every row is below `usize::MAX`.
pub open spec fn addressable(rows: Seq<Row>) -> bool {
    forall|i: int| 0 <= i < rows.len() ==> columns_below(#[trigger] rows[i]@, usize::MAX as int)
}

/// Strictly ascending.
pub open spec fn ascending(v: Seq<usize>) -> bool {
    forall|s: int, t: int| 0 <= s < t < v.len() ==> #[trigger] v[s] < #[trigger] v[t]
}

/// The eliminations that `targets` need, recorded at one sample.
#[derive(Clone, Debug)]
pub struct Plan {
    eqs: Vec<usize>,
    pivots: Vec<usize>,
    pub targets: Vec<usize>,
    pub masters: Vec<usize>,
}

/// Monic rows by leading column, the pivots each was reduced by, and a dense scratch row.
struct Echelon {
    rows: Vec<Option<Row>>,
    uses: Vec<Vec<usize>>,
    acc: Vec<u64>,
    live: Vec<bool>,
}

impl Echelon {
    /// The number of columns known.
    spec fn size(&self) -> int {
        self.acc@.len() as int
    }

    /// Whether column `c` has a pivot row.
    spec fn has_pivot(&self, c: int) -> bool {
        self.rows@[c] is Some
    }

    /// Pivot rows are monic and reduced, their uses are columns, and the scratch row is clear.
    spec fn wf(&self, p: u64) -> bool {
        &&& modulus(p)
        &&& self.rows@.len() == self.acc@.len()
        &&& self.uses@.len() == self.acc@.len()
        &&& self.live@.len() == self.acc@.len()
        &&& forall|c: int| 0 <= c < self.size() ==> #[trigger] self.acc@[c] == 0
        &&& forall|c: int| 0 <= c < self.size() ==> !#[trigger] self.live@[c]
        &&& forall|c: int|
            0 <= c < self.size() ==> (#[trigger] self.rows@[c] matches Some(r) ==> pivot_row(
                r@,
                c,
                p,
                self.size(),
            ))
        &&& forall|c: int, j: int|
            0 <= c < self.size() && 0 <= j < self.uses@[c]@.len() ==> #[trigger] self.uses@[c]@[j]
                < self.size()
    }

    /// The pivot rows are those of `old`, and no column beyond `old` has one.
    spec fn same_pivots(&self, old: &Echelon) -> bool {
        &&& self.size() >= old.size()
        &&& forall|c: int| 0 <= c < old.size() ==> #[trigger] self.rows@[c] == old.rows@[c]
        &&& forall|c: int| 0 <= c < old.size() ==> #[trigger] self.uses@[c] == old.uses@[c]
        &&& forall|c: int| old.size() <= c < self.size() ==> #[trigger] self.rows@[c] is None
    }

    fn new() -> (e: Self)
        ensures
            e.size() == 0,
            forall|p: u64| modulus(p) ==> #[trigger] e.wf(p),
    {
        Echelon { rows: Vec::new(), uses: Vec::new(), acc: Vec::new(), live: Vec::new() }
    }

    /// The four tables have one entry per column.
    spec fn aligned(&self) -> bool {
        &&& self.rows@.len() == self.acc@.len()
        &&& self.uses@.len() == self.acc@.len()
        &&& self.live@.len() == self.acc@.len()
    }

    /// Makes room for column `c`.
    fn grow(&mut self, c: usize)
        requires
            old(self).aligned(),
            c < usize::MAX,
        ensures
            final(self).aligned(),
            final(self).size() == if c < old(self).size() {
                old(self).size()
            } else {
                c + 1
            },
            final(self).same_pivots(old(self)),
            forall|q: int| 0 <= q < final(self).size() ==> #[trigger] final(self).acc@[q] == if q
                < old(self).size() {
                old(self).acc@[q]
            } else {
                0
            },
            forall|q: int| 0 <= q < final(self).size() ==> #[trigger] final(self).live@[q] == (q
                < old(self).size() && old(self).live@[q]),
            forall|q: int| 0 <= q < final(self).size() ==> (#[trigger] final(self).uses@[q])@.len()
                == if q < old(self).size() {
                old(self).uses@[q]@.len()
            } else {
                0
            },
    {
        let ghost o = *self;
        while self.acc.len() <= c
            invariant
                o == *old(self),
                o.aligned(),
                self.aligned(),
                c < usize::MAX,
                o.size() <= self.size() <= if c < o.size() {
                    o.size()
                } else {
                    c + 1
                },
                forall|q: int| 0 <= q < o.size() ==> #[trigger] self.rows@[q] == o.rows@[q],
                forall|q: int| 0 <= q < o.size() ==> #[trigger] self.uses@[q] == o.uses@[q],
                forall|q: int| 0 <= q < o.size() ==> #[trigger] self.acc@[q] == o.acc@[q],
                forall|q: int| 0 <= q < o.size() ==> #[trigger] self.live@[q] == o.live@[q],
                forall|q: int| o.size() <= q < self.size() ==> #[trigger] self.rows@[q] is None,
                forall|q: int| o.size() <= q < self.size() ==> (#[trigger] self.uses@[q])@.len() == 0,
                forall|q: int| o.size() <= q < self.size() ==> #[trigger] self.acc@[q] == 0,
                forall|q: int| o.size() <= q < self.size() ==> !#[trigger] self.live@[q],
            decreases c + 1 - self.acc@.len(),
        {
            self.rows.push(None);
            self.uses.push(Vec::new());
            self.acc.push(0);
            self.live.push(false);
        }
    }

    /// Reduces `row` column by column from the top: by every pivot if `full`, else only until
    /// the leading column has none. The remaining terms, descending, and the pivots used.
    fn reduce(&mut self, row: &[(usize, u64)], full: bool, p: u64) -> (out: (Row, Vec<usize>))
        requires
            old(self).wf(p),
            columns_below(row@, usize::MAX as int),
        ensures
            final(self).wf(p),
            final(self).same_pivots(old(self)),
            columns_below(row@, final(self).size()),
            reduced_row(out.0@, p),
            columns_below(out.0@, final(self).size()),
            forall|j: int| 0 <= j < out.1@.len() ==> #[trigger] out.1@[j] < final(self).size()
                && final(self).has_pivot(out.1@[j] as int),
            full ==> forall|t: int| 0 <= t < out.0@.len() ==> !final(self).has_pivot(
                (#[trigger] out.0@[t]).0 as int,
            ),
            out.0@.len() > 0 ==> !final(self).has_pivot(out.0@[0].0 as int),
    {
        let ghost o = *self;
        let mut top: usize = 0;
        let mut i: usize = 0;
        while i < row.len()
            invariant
                i <= row@.len(),
                columns_below(row@, usize::MAX as int),
                self.aligned(),
                self.same_pivots(&o),
                modulus(p),
                top <= self.size(),
                forall|t: int| 0 <= t < i ==> (#[trigger] row@[t]).0 < top,
                forall|c: int| 0 <= c < self.size() ==> #[trigger] self.acc@[c] < p,
                forall|c: int| 0 <= c < self.size() && !self.live@[c] ==> #[trigger] self.acc@[c] == 0,
                forall|c: int| top <= c < self.size() ==> !#[trigger] self.live@[c],
                forall|c: int|
                    0 <= c < self.size() ==> (#[trigger] self.rows@[c] matches Some(r) ==> pivot_row(
                        r@,
                        c,
                        p,
                        self.size(),
                    )),
                forall|c: int, j: int|
                    0 <= c < self.size() && 0 <= j < self.uses@[c]@.len() ==> #[trigger] self.uses@[c]@[j]
                        < self.size(),
            decreases row@.len() - i,
        {
            let (c, v) = row[i];
            let ghost before = *self;
            self.grow(c);
            proof {
                assert forall|q: int|
                    0 <= q < self.size() implies (#[trigger] self.rows@[q] matches Some(r) ==> pivot_row(
                        r@,
                        q,
                        p,
                        self.size(),
                    )) by {
                    if q < before.size() {
                        assert(self.rows@[q] == before.rows@[q]);
                    }
                }
                assert forall|q: int, j: int|
                    0 <= q < self.size() && 0 <= j < self.uses@[q]@.len() implies #[trigger] self.uses@[q]@[j]
                        < self.size() by {
                    if q < before.size() {
                        assert(self.uses@[q] == before.uses@[q]);
                    }
                }
            }
            let a = crate::modp::add(self.acc[c], v % p, p);
            self.acc.set(c, a);
            if !self.live[c] {
                self.live.set(c, true);
            }
            if c + 1 > top {
                top = c + 1;
            }
            i += 1;
        }
        let mut out: Row = Vec::new();
        let mut used: Vec<usize> = Vec::new();
        let mut c = top;
        while c > 0
            invariant
                c <= top <= self.size(),
                columns_below(row@, self.size()),
                self.aligned(),
                self.same_pivots(&o),
                modulus(p),
                forall|q: int| 0 <= q < self.size() ==> #[trigger] self.acc@[q] < p,
                forall|q: int| 0 <= q < self.size() && !self.live@[q] ==> #[trigger] self.acc@[q] == 0,
                forall|q: int| c <= q < self.size() ==> !#[trigger] self.live@[q],
                forall|q: int|
                    0 <= q < self.size() ==> (#[trigger] self.rows@[q] matches Some(r) ==> pivot_row(
                        r@,
                        q,
                        p,
                        self.size(),
                    )),
                forall|q: int, j: int|
                    0 <= q < self.size() && 0 <= j < self.uses@[q]@.len() ==> #[trigger] self.uses@[q]@[j]
                        < self.size(),
                reduced_row(out@, p),
                forall|t: int| 0 <= t < out@.len() ==> c <= (#[trigger] out@[t]).0 < self.size(),
                forall|j: int| 0 <= j < used@.len() ==> #[trigger] used@[j] < self.size()
                    && self.has_pivot(used@[j] as int),
                full ==> forall|t: int| 0 <= t < out@.len() ==> !self.has_pivot(
                    (#[trigger] out@[t]).0 as int,
                ),
                out@.len() > 0 ==> !self.has_pivot(out@[0].0 as int),
            decreases c,
        {
            c -= 1;
            if self.live[c] {
                self.live.set(c, false);
                let v = self.acc[c];
                self.acc.set(c, 0);
                if v != 0 {
                    let reducible = match &self.rows[c] {
                        Some(_) => full || out.len() == 0,
                        None => false,
                    };
                    if reducible {
                        used.push(c);
                        let ghost o2 = *self;
                        if let Some(pivot) = &self.rows[c] {
                            let mut j: usize = 1;
                            while j < pivot.len()
                                invariant
                                    1 <= j <= pivot@.len(),
                                    pivot_row(pivot@, c as int, p, o2.size()),
                                    c < o2.size(),
                                    self.rows == o2.rows,
                                    self.uses == o2.uses,
                                    self.acc@.len() == o2.acc@.len(),
                                    self.live@.len() == o2.live@.len(),
                                    self.aligned(),
                                    modulus(p),
                                    v < p,
                                    forall|q: int| 0 <= q < self.size() ==> #[trigger] self.acc@[q] < p,
                                    forall|q: int| 0 <= q < self.size() && !self.live@[q] ==> #[trigger] self.acc@[q] == 0,
                                    forall|q: int| c <= q < self.size() ==> !#[trigger] self.live@[q],
                                decreases pivot@.len() - j,
                            {
                                let (k, x) = pivot[j];
                                assert(pivot@[0].0 > pivot@[j as int].0);
                                let a = crate::modp::sub(self.acc[k], crate::modp::mul(v, x, p), p);
                                self.acc.set(k, a);
                                if !self.live[k] {
                                    self.live.set(k, true);
                                }
                                j += 1;
                            }
                        }
                    } else {
                        out.push((c, v));
                    }
                }
            }
        }
        (out, used)
    }

    /// Reduces `row` until its leading column has no pivot and makes it one. `None` if the row
    /// vanished, being a consequence of the rows before it.
    fn insert(&mut self, row: &[(usize, u64)], p: u64) -> (r: Option<usize>)
        requires
            old(self).wf(p),
            columns_below(row@, usize::MAX as int),
        ensures
            final(self).wf(p),
            final(self).size() >= old(self).size(),
            columns_below(row@, final(self).size()),
            forall|q: int| 0 <= q < old(self).size() && old(self).has_pivot(q) ==> #[trigger] final(self).rows@[q] == old(self).rows@[q],
            match r {
                None => forall|q: int| 0 <= q < final(self).size() ==> #[trigger] final(self).has_pivot(q) == (q < old(self).size() && old(self).has_pivot(q)),
                Some(c) => {
                    &&& c < final(self).size()
                    &&& !(c < old(self).size() && old(self).has_pivot(c as int))
                    &&& final(self).has_pivot(c as int)
                    &&& forall|q: int| 0 <= q < final(self).size() && q != c ==> #[trigger] final(self).has_pivot(q) == (q < old(self).size() && old(self).has_pivot(q))
                    &&& prime(p as int) ==> (final(self).rows@[c as int] matches Some(rr) && monic_row(rr@))
                },
            },
    {
        let (mut r, used) = self.reduce(row, false, p);
        if r.len() == 0 {
            return None;
        }
        let (c, v) = r[0];
        let l = crate::modp::inv(v, p);
        proof {
            lemma_small_mod(v as nat, p as nat);
            lemma_small_mod(1, p as nat);
            if prime(p as int) && (l as int) % (p as int) == 0 {
                lemma_small_mod(l as nat, p as nat);
                assert((v as int) * (l as int) == 0) by (nonlinear_arith)
                    requires
                        l == 0,
                ;
                lemma_small_mod(0, p as nat);
            }
        }
        let ghost r0 = r@;
        let mut t: usize = 0;
        while t < r.len()
            invariant
                t <= r@.len(),
                r@.len() == r0.len(),
                modulus(p),
                l < p,
                prime(p as int) ==> (l as int) % (p as int) != 0,
                reduced_row(r0, p),
                forall|u: int| 0 <= u < r0.len() ==> (#[trigger] r@[u]).0 == r0[u].0,
                forall|u: int| 0 <= u < t ==> #[trigger] r@[u].1 == (r0[u].1 * l) % (p as int),
                forall|u: int| t <= u < r0.len() ==> #[trigger] r@[u].1 == r0[u].1,
                forall|u: int| 0 <= u < r0.len() ==> (#[trigger] r@[u]).1 < p,
                prime(p as int) ==> forall|u: int| 0 <= u < t ==> (#[trigger] r@[u]).1 != 0,
            decreases r0.len() - t,
        {
            let (k, x) = r[t];
            let y = crate::modp::mul(x, l, p);
            proof {
                if prime(p as int) && y == 0 {
                    lemma_euclid(x as int, l as int, p as int);
                    lemma_small_mod(x as nat, p as nat);
                }
            }
            r.set(t, (k, y));
            t += 1;
        }
        proof {
            assert(r@[0].1 == (v * l) % (p as int));
            assert forall|s: int, u: int| 0 <= s < u < r@.len() implies #[trigger] r@[s].0 > #[trigger] r@[u].0 by {
                assert(r0[s].0 > r0[u].0);
            }
        }
        let ghost before = *self;
        self.rows.set(c, Some(r));
        self.uses.set(c, used);
        proof {
            assert forall|q: int|
                0 <= q < self.size() implies (#[trigger] self.rows@[q] matches Some(rr) ==> pivot_row(
                    rr@,
                    q,
                    p,
                    self.size(),
                )) by {
                if q != c {
                    assert(self.rows@[q] == before.rows@[q]);
                }
            }
            assert forall|q: int, j: int|
                0 <= q < self.size() && 0 <= j < self.uses@[q]@.len() implies #[trigger] self.uses@[q]@[j]
                    < self.size() by {
                if q != c {
                    assert(self.uses@[q] == before.uses@[q]);
                }
            }
        }
        Some(c)
    }

    /// Column `t` as a combination of columns without a pivot, the masters, and the pivots used.
    fn solve(&mut self, t: usize, p: u64) -> (out: (Row, Vec<usize>))
        requires
            old(self).wf(p),
            t < usize::MAX,
        ensures
            final(self).wf(p),
            final(self).same_pivots(old(self)),
            t < final(self).size(),
            reduced_row(out.0@, p),
            columns_below(out.0@, final(self).size()),
            forall|u: int| 0 <= u < out.0@.len() ==> !final(self).has_pivot((#[trigger] out.0@[u]).0 as int),
            forall|j: int| 0 <= j < out.1@.len() ==> #[trigger] out.1@[j] < final(self).size()
                && final(self).has_pivot(out.1@[j] as int),
            !final(self).has_pivot(t as int) ==> out.0@ == seq![(t, 1u64)] && out.1@.len() == 0,
    {
        let ghost o = *self;
        self.grow(t);
        proof {
            assert forall|q: int|
                0 <= q < self.size() implies (#[trigger] self.rows@[q] matches Some(rr) ==> pivot_row(
                    rr@,
                    q,
                    p,
                    self.size(),
                )) by {
                if q < o.size() {
                    assert(self.rows@[q] == o.rows@[q]);
                }
            }
            assert forall|q: int, j: int|
                0 <= q < self.size() && 0 <= j < self.uses@[q]@.len() implies #[trigger] self.uses@[q]@[j]
                    < self.size() by {
                if q < o.size() {
                    assert(self.uses@[q] == o.uses@[q]);
                }
            }
        }
        let mut rest: Row = Vec::new();
        match &self.rows[t] {
            None => {
                let mut r: Row = Vec::new();
                r.push((t, 1));
                proof {
                    lemma_small_mod(1, p as nat);
                }
                return (r, Vec::new());
            },
            Some(row) => {
                let mut j: usize = 1;
                while j < row.len()
                    invariant
                        1 <= j <= row@.len(),
                        rest@ == row@.subrange(1, j as int),
                    decreases row@.len() - j,
                {
                    rest.push(row[j]);
                    j += 1;
                }
            },
        }
        let ghost mid = *self;
        assert(columns_below(rest@, usize::MAX as int));
        let (mut r, mut used) = self.reduce(&rest, true, p);
        let ghost r0 = r@;
        let mut u: usize = 0;
        while u < r.len()
            invariant
                u <= r@.len(),
                r@.len() == r0.len(),
                modulus(p),
                reduced_row(r0, p),
                forall|w: int| 0 <= w < r0.len() ==> (#[trigger] r@[w]).0 == r0[w].0,
                forall|w: int| 0 <= w < u ==> 0 < (#[trigger] r@[w]).1 < p,
                forall|w: int| u <= w < r0.len() ==> #[trigger] r@[w].1 == r0[w].1,
            decreases r0.len() - u,
        {
            let (k, x) = r[u];
            proof {
                assert(0 < x < p);
            }
            let y = crate::modp::sub(0, x, p);
            proof {
                vstd::arithmetic::div_mod::lemma_fundamental_div_mod_converse(0 - x, p as int, -1, p - x);
            }
            r.set(u, (k, y));
            u += 1;
        }
        used.push(t);
        (r, used)
    }
}

/// `a < b` lexicographically, a proper prefix being smaller.
pub open spec fn seq_lt(a: Seq<usize>, b: Seq<usize>) -> bool
    decreases a.len(),
{
    if b.len() == 0 {
        false
    } else if a.len() == 0 {
        true
    } else if a[0] != b[0] {
        a[0] < b[0]
    } else {
        seq_lt(a.drop_first(), b.drop_first())
    }
}

/// The order in which equations are eliminated, on their columns sorted descending: by leading
/// column (none first), then by length, then lexicographically.
pub open spec fn key_lt(a: Seq<usize>, b: Seq<usize>) -> bool {
    if a.len() == 0 || b.len() == 0 {
        a.len() == 0 && b.len() > 0
    } else if a[0] != b[0] {
        a[0] < b[0]
    } else if a.len() != b.len() {
        a.len() < b.len()
    } else {
        seq_lt(a, b)
    }
}

proof fn lemma_seq_lt_transitive(a: Seq<usize>, b: Seq<usize>, c: Seq<usize>)
    requires
        seq_lt(a, b),
        seq_lt(b, c),
    ensures
        seq_lt(a, c),
    decreases a.len(),
{
    if a.len() > 0 && b.len() > 0 && c.len() > 0 && a[0] == b[0] && b[0] == c[0] {
        lemma_seq_lt_transitive(a.drop_first(), b.drop_first(), c.drop_first());
    }
}

proof fn lemma_seq_lt_irreflexive(a: Seq<usize>)
    ensures
        !seq_lt(a, a),
    decreases a.len(),
{
    if a.len() > 0 {
        lemma_seq_lt_irreflexive(a.drop_first());
    }
}

proof fn lemma_key_lt_transitive(a: Seq<usize>, b: Seq<usize>, c: Seq<usize>)
    requires
        key_lt(a, b),
        key_lt(b, c),
    ensures
        key_lt(a, c),
{
    if a.len() > 0 && b.len() > 0 && c.len() > 0 && a[0] == b[0] && b[0] == c[0] && a.len()
        == b.len() && b.len() == c.len() {
        lemma_seq_lt_transitive(a, b, c);
    }
}

proof fn lemma_key_lt_asymmetric(a: Seq<usize>, b: Seq<usize>)
    requires
        key_lt(a, b),
    ensures
        !key_lt(b, a),
{
    if key_lt(b, a) {
        lemma_key_lt_transitive(a, b, a);
        lemma_seq_lt_irreflexive(a);
    }
}

/// Whether `key_lt(a, b)`.
fn key_less(a: &[usize], b: &[usize]) -> (r: bool)
    ensures
        r == key_lt(a@, b@),
{
    if a.len() == 0 || b.len() == 0 {
        return a.len() == 0 && b.len() > 0;
    }
    if a[0] != b[0] {
        return a[0] < b[0];
    }
    if a.len() != b.len() {
        return a.len() < b.len();
    }
    let mut i: usize = 0;
    assert(a@.subrange(0, a@.len() as int) =~= a@ && b@.subrange(0, b@.len() as int) =~= b@);
    while i < a.len() && i < b.len()
        invariant
            i <= a@.len(),
            i <= b@.len(),
            key_lt(a@, b@) == seq_lt(a@, b@),
            seq_lt(a@, b@) == seq_lt(a@.subrange(i as int, a@.len() as int), b@.subrange(i as int, b@.len() as int)),
        decreases a@.len() - i,
    {
        let ghost sa = a@.subrange(i as int, a@.len() as int);
        let ghost sb = b@.subrange(i as int, b@.len() as int);
        if a[i] != b[i] {
            assert(sa[0] == a@[i as int] && sb[0] == b@[i as int]);
            return a[i] < b[i];
        }
        assert(sa.drop_first() =~= a@.subrange(i as int + 1, a@.len() as int));
        assert(sb.drop_first() =~= b@.subrange(i as int + 1, b@.len() as int));
        i += 1;
    }
    i < b.len()
}

/// The columns of `row`, descending.
fn column_key(row: &[(usize, u64)]) -> (k: Vec<usize>)
    ensures
        k@.len() == row@.len(),
        forall|s: int, t: int| 0 <= s < t < k@.len() ==> #[trigger] k@[s] >= #[trigger] k@[t],
{
    let mut k: Vec<usize> = Vec::new();
    let mut i: usize = 0;
    while i < row.len()
        invariant
            i <= row@.len(),
            k@.len() == i,
            forall|s: int, t: int| 0 <= s < t < k@.len() ==> #[trigger] k@[s] >= #[trigger] k@[t],
        decreases row@.len() - i,
    {
        let c = row[i].0;
        let mut j: usize = 0;
        while j < k.len() && k[j] >= c
            invariant
                j <= k@.len(),
                forall|u: int| 0 <= u < j ==> #[trigger] k@[u] >= c,
            decreases k@.len() - j,
        {
            j += 1;
        }
        let ghost k0 = k@;
        k.insert(j, c);
        proof {
            assert forall|s: int, t: int| 0 <= s < t < k@.len() implies #[trigger] k@[s] >= #[trigger] k@[t] by {
                if t < j {
                    assert(k@[s] == k0[s] && k@[t] == k0[t]);
                } else if t == j {
                    assert(k@[s] == k0[s]);
                } else if s > j {
                    assert(k@[s] == k0[s - 1] && k@[t] == k0[t - 1]);
                } else if s == j {
                    assert(k@[t] == k0[t - 1]);
                    assert(k0[j as int] < c);
                } else {
                    assert(k@[s] == k0[s] && k@[t] == k0[t - 1]);
                }
            }
        }
        i += 1;
    }
    k
}

/// The indices of `keys` in ascending `key_lt` order, ties in their original order.
fn order_by_keys(keys: &Vec<Vec<usize>>) -> (order: Vec<usize>)
    ensures
        order@.len() == keys@.len(),
        forall|t: int| 0 <= t < order@.len() ==> #[trigger] order@[t] < keys@.len(),
        forall|s: int, t: int|
            0 <= s < t < order@.len() ==> #[trigger] order@[s] != #[trigger] order@[t],
        forall|s: int, t: int|
            0 <= s < t < order@.len() ==> !key_lt(keys@[#[trigger] order@[t] as int]@, keys@[#[trigger] order@[s] as int]@),
{
    let mut order: Vec<usize> = Vec::new();
    let mut i: usize = 0;
    while i < keys.len()
        invariant
            i <= keys@.len(),
            order@.len() == i,
            forall|t: int| 0 <= t < order@.len() ==> #[trigger] order@[t] < i,
            forall|s: int, t: int|
                0 <= s < t < order@.len() ==> #[trigger] order@[s] != #[trigger] order@[t],
            forall|s: int, t: int|
                0 <= s < t < order@.len() ==> !key_lt(keys@[#[trigger] order@[t] as int]@, keys@[#[trigger] order@[s] as int]@),
        decreases keys@.len() - i,
    {
        let mut j: usize = 0;
        while j < order.len() && !key_less(&keys[i], &keys[order[j]])
            invariant
                j <= order@.len(),
                i < keys@.len(),
                forall|t: int| 0 <= t < order@.len() ==> #[trigger] order@[t] < i,
                forall|u: int| 0 <= u < j ==> !key_lt(keys@[i as int]@, keys@[#[trigger] order@[u] as int]@),
            decreases order@.len() - j,
        {
            j += 1;
        }
        let ghost o0 = order@;
        order.insert(j, i);
        proof {
            let ki = keys@[i as int]@;
            assert forall|s: int, t: int|
                0 <= s < t < order@.len() implies !key_lt(keys@[#[trigger] order@[t] as int]@, keys@[#[trigger] order@[s] as int]@) by {
                if t < j {
                    assert(order@[s] == o0[s] && order@[t] == o0[t]);
                } else if t == j {
                    assert(order@[s] == o0[s]);
                } else if s > j {
                    assert(order@[s] == o0[s - 1] && order@[t] == o0[t - 1]);
                } else if s == j {
                    assert(order@[t] == o0[t - 1]);
                    let kj = keys@[o0[j as int] as int]@;
                    assert(key_lt(ki, kj));
                    if t - 1 == j {
                        lemma_key_lt_asymmetric(ki, kj);
                    } else {
                        let kt = keys@[o0[t - 1] as int]@;
                        assert(!key_lt(kt, kj));
                        if key_lt(kt, ki) {
                            lemma_key_lt_transitive(kt, ki, kj);
                        }
                    }
                } else {
                    assert(order@[s] == o0[s] && order@[t] == o0[t - 1]);
                }
            }
            assert forall|s: int, t: int| 0 <= s < t < order@.len() implies #[trigger] order@[s] != #[trigger] order@[t] by {
                if t < j {
                    assert(order@[s] == o0[s] && order@[t] == o0[t]);
                } else if t == j {
                    assert(order@[s] == o0[s]);
                } else if s > j {
                    assert(order@[s] == o0[s - 1] && order@[t] == o0[t - 1]);
                } else if s == j {
                    assert(order@[t] == o0[t - 1]);
                } else {
                    assert(order@[s] == o0[s] && order@[t] == o0[t - 1]);
                }
            }
            assert forall|t: int| 0 <= t < order@.len() implies #[trigger] order@[t] < i + 1 by {
                if t < j {
                    assert(order@[t] == o0[t]);
                } else if t > j {
                    assert(order@[t] == o0[t - 1]);
                }
            }
        }
        i += 1;
    }
    order
}

/// The number of columns not yet marked.
spec fn unmarked(v: Seq<bool>) -> nat
    decreases v.len(),
{
    if v.len() == 0 {
        0
    } else {
        unmarked(v.drop_last()) + if v.last() {
            0nat
        } else {
            1nat
        }
    }
}

proof fn lemma_unmarked_set(v: Seq<bool>, c: int)
    requires
        0 <= c < v.len(),
        !v[c],
    ensures
        unmarked(v.update(c, true)) + 1 == unmarked(v),
    decreases v.len(),
{
    let w = v.update(c, true);
    if c < v.len() - 1 {
        lemma_unmarked_set(v.drop_last(), c);
        assert(w.drop_last() =~= v.drop_last().update(c, true));
    } else {
        assert(w.drop_last() =~= v.drop_last());
    }
}

/// An index of `x` in `v` by binary search; in an ascending `v`, `None` means `x` is absent.
fn find(v: &[usize], x: usize) -> (r: Option<usize>)
    ensures
        r matches Some(i) ==> i < v@.len() && v@[i as int] == x,
        r is None && ascending(v@) ==> !v@.contains(x),
{
    let mut lo: usize = 0;
    let mut hi: usize = v.len();
    while lo < hi
        invariant
            lo <= hi <= v@.len(),
            ascending(v@) ==> forall|t: int| 0 <= t < lo ==> #[trigger] v@[t] < x,
            ascending(v@) ==> forall|t: int| hi <= t < v@.len() ==> #[trigger] v@[t] > x,
        decreases hi - lo,
    {
        let mid = lo + (hi - lo) / 2;
        if v[mid] == x {
            return Some(mid);
        } else if v[mid] < x {
            lo = mid + 1;
        } else {
            hi = mid;
        }
    }
    None
}

impl Plan {
    /// The equations kept, in the order they are replayed.
    pub closed spec fn equations(&self) -> Seq<usize> {
        self.eqs@
    }

    /// The target columns.
    pub closed spec fn target_columns(&self) -> Seq<usize> {
        self.targets@
    }

    /// The master columns.
    pub closed spec fn master_columns(&self) -> Seq<usize> {
        self.masters@
    }

    /// The column each kept equation pivots on.
    pub closed spec fn pivot_columns(&self) -> Seq<usize> {
        self.pivots@
    }

    /// The masters, ascending.
    pub fn master_list(&self) -> (m: &Vec<usize>)
        ensures
            m@ == self.master_columns(),
    {
        &self.masters
    }

    /// Eliminates the whole system at one sample and keeps what `targets` need.
    pub fn learn(rows: &[Row], targets: &[usize], p: u64) -> (plan: Self)
        requires
            modulus(p),
            addressable(rows@),
            forall|t: int| 0 <= t < targets@.len() ==> #[trigger] targets@[t] < usize::MAX,
        ensures
            plan.target_columns() == targets@,
            ascending(plan.master_columns()),
            plan.equations().len() == plan.pivot_columns().len(),
            plan.equations().len() <= rows@.len(),
            forall|j: int| 0 <= j < plan.equations().len() ==> #[trigger] plan.equations()[j] < rows@.len(),
            forall|s: int, t: int|
                0 <= s < t < plan.pivot_columns().len() ==> #[trigger] plan.pivot_columns()[s]
                    != #[trigger] plan.pivot_columns()[t],
    {
        let n = rows.len();
        let mut keys: Vec<Vec<usize>> = Vec::new();
        let mut i: usize = 0;
        while i < n
            invariant
                i <= n,
                n == rows@.len(),
                keys@.len() == i,
            decreases n - i,
        {
            keys.push(column_key(&rows[i]));
            i += 1;
        }
        let order = order_by_keys(&keys);
        let mut ech = Echelon::new();
        let mut origin: Vec<(usize, usize)> = Vec::new();
        let mut k: usize = 0;
        while k < n
            invariant
                k <= n,
                n == rows@.len(),
                order@.len() == n,
                forall|t: int| 0 <= t < order@.len() ==> #[trigger] order@[t] < n,
                forall|s: int, t: int| 0 <= s < t < order@.len() ==> #[trigger] order@[s] != #[trigger] order@[t],
                addressable(rows@),
                ech.wf(p),
                origin@.len() <= k,
                forall|j: int| 0 <= j < origin@.len() ==> (#[trigger] origin@[j]).0 < n
                    && origin@[j].1 < ech.size() && ech.has_pivot(origin@[j].1 as int),
                forall|j: int| 0 <= j < origin@.len() ==> exists|t: int| 0 <= t < k && order@[t] == (#[trigger] origin@[j]).0,
                forall|s: int, t: int| 0 <= s < t < origin@.len() ==> (#[trigger] origin@[s]).1 != (#[trigger] origin@[t]).1,
                forall|s: int, t: int| 0 <= s < t < origin@.len() ==> (#[trigger] origin@[s]).0 != (#[trigger] origin@[t]).0,
            decreases n - k,
        {
            let i = order[k];
            assert(columns_below(rows@[i as int]@, usize::MAX as int));
            let ghost before = ech;
            let ghost o0 = origin@;
            if let Some(c) = ech.insert(&rows[i], p) {
                origin.push((i, c));
                proof {
                    assert forall|s: int, t: int| 0 <= s < t < origin@.len() implies (#[trigger] origin@[s]).0 != (#[trigger] origin@[t]).0 by {
                        if t == o0.len() {
                            let w = choose|w: int| 0 <= w < k && order@[w] == o0[s].0;
                            assert(order@[w] != order@[k as int]);
                        }
                    }
                    assert forall|j: int| 0 <= j < origin@.len() implies exists|t: int| 0 <= t < k + 1 && order@[t] == (#[trigger] origin@[j]).0 by {
                        if j == o0.len() {
                            assert(order@[k as int] == origin@[j].0);
                        } else {
                            let w = choose|w: int| 0 <= w < k && order@[w] == o0[j].0;
                            assert(order@[w] == origin@[j].0);
                        }
                    }
                    assert forall|j: int| 0 <= j < origin@.len() implies (#[trigger] origin@[j]).0 < n
                        && origin@[j].1 < ech.size() && ech.has_pivot(origin@[j].1 as int) by {
                        if j < o0.len() {
                            assert(before.has_pivot(o0[j].1 as int));
                        }
                    }
                }
            } else {
                proof {
                    assert forall|j: int| 0 <= j < origin@.len() implies (#[trigger] origin@[j]).0 < n
                        && origin@[j].1 < ech.size() && ech.has_pivot(origin@[j].1 as int) by {
                        assert(before.has_pivot(o0[j].1 as int));
                    }
                    assert forall|j: int| 0 <= j < origin@.len() implies exists|t: int| 0 <= t < k + 1 && order@[t] == (#[trigger] origin@[j]).0 by {
                        let w = choose|w: int| 0 <= w < k && order@[w] == o0[j].0;
                        assert(order@[w] == origin@[j].0);
                    }
                }
            }
            k += 1;
        }
        let mut found: Vec<usize> = Vec::new();
        let mut stack: Vec<usize> = Vec::new();
        let mut t: usize = 0;
        while t < targets.len()
            invariant
                t <= targets@.len(),
                forall|u: int| 0 <= u < targets@.len() ==> #[trigger] targets@[u] < usize::MAX,
                ech.wf(p),
                forall|j: int| 0 <= j < found@.len() ==> #[trigger] found@[j] < ech.size(),
                forall|j: int| 0 <= j < stack@.len() ==> #[trigger] stack@[j] < ech.size(),
                forall|j: int| 0 <= j < origin@.len() ==> (#[trigger] origin@[j]).1 < ech.size(),
            decreases targets@.len() - t,
        {
            let (solution, used) = ech.solve(targets[t], p);
            let mut j: usize = 0;
            while j < solution.len()
                invariant
                    j <= solution@.len(),
                    columns_below(solution@, ech.size()),
                    forall|u: int| 0 <= u < found@.len() ==> #[trigger] found@[u] < ech.size(),
                decreases solution@.len() - j,
            {
                found.push(solution[j].0);
                j += 1;
            }
            let mut j: usize = 0;
            while j < used.len()
                invariant
                    j <= used@.len(),
                    forall|u: int| 0 <= u < used@.len() ==> #[trigger] used@[u] < ech.size(),
                    forall|u: int| 0 <= u < stack@.len() ==> #[trigger] stack@[u] < ech.size(),
                decreases used@.len() - j,
            {
                stack.push(used[j]);
                j += 1;
            }
            t += 1;
        }
        let size = ech.acc.len();
        let mut needed: Vec<bool> = vec![false; size];
        while stack.len() > 0
            invariant
                ech.wf(p),
                size == ech.size(),
                needed@.len() == size,
                forall|j: int| 0 <= j < stack@.len() ==> #[trigger] stack@[j] < size,
            decreases unmarked(needed@), stack@.len(),
        {
            let c = stack.pop().unwrap();
            if !needed[c] {
                proof {
                    lemma_unmarked_set(needed@, c as int);
                }
                needed.set(c, true);
                let mut j: usize = 0;
                while j < ech.uses[c].len()
                    invariant
                        ech.wf(p),
                        c < size,
                        size == ech.size(),
                        j <= ech.uses@[c as int]@.len(),
                        forall|u: int| 0 <= u < stack@.len() ==> #[trigger] stack@[u] < size,
                    decreases ech.uses@[c as int]@.len() - j,
                {
                    stack.push(ech.uses[c][j]);
                    j += 1;
                }
            }
        }
        let mut eqs: Vec<usize> = Vec::new();
        let mut pivots: Vec<usize> = Vec::new();
        let mut j: usize = 0;
        while j < origin.len()
            invariant
                j <= origin@.len(),
                needed@.len() == size,
                eqs@.len() == pivots@.len(),
                eqs@.len() <= j,
                origin@.len() <= n,
                n == rows@.len(),
                forall|u: int| 0 <= u < origin@.len() ==> (#[trigger] origin@[u]).0 < n && origin@[u].1 < size,
                forall|s: int, t: int| 0 <= s < t < origin@.len() ==> (#[trigger] origin@[s]).1 != (#[trigger] origin@[t]).1,
                forall|u: int| 0 <= u < eqs@.len() ==> #[trigger] eqs@[u] < n,
                forall|u: int| 0 <= u < pivots@.len() ==> exists|w: int| 0 <= w < j && origin@[w].1 == #[trigger] pivots@[u],
                forall|s: int, t: int| 0 <= s < t < pivots@.len() ==> #[trigger] pivots@[s] != #[trigger] pivots@[t],
            decreases origin@.len() - j,
        {
            let (i, c) = origin[j];
            if needed[c] {
                let ghost p0 = pivots@;
                eqs.push(i);
                pivots.push(c);
                proof {
                    assert forall|s: int, t: int| 0 <= s < t < pivots@.len() implies #[trigger] pivots@[s] != #[trigger] pivots@[t] by {
                        if t == p0.len() {
                            let w = choose|w: int| 0 <= w < j && origin@[w].1 == p0[s];
                            assert(origin@[w].1 != origin@[j as int].1);
                        }
                    }
                    assert forall|u: int| 0 <= u < pivots@.len() implies exists|w: int| 0 <= w < j + 1 && origin@[w].1 == #[trigger] pivots@[u] by {
                        if u == p0.len() {
                            assert(origin@[j as int].1 == pivots@[u]);
                        } else {
                            let w = choose|w: int| 0 <= w < j && origin@[w].1 == p0[u];
                            assert(origin@[w].1 == pivots@[u]);
                        }
                    }
                }
            } else {
                proof {
                    assert forall|u: int| 0 <= u < pivots@.len() implies exists|w: int| 0 <= w < j + 1 && origin@[w].1 == #[trigger] pivots@[u] by {
                        let w = choose|w: int| 0 <= w < j && origin@[w].1 == pivots@[u];
                        assert(origin@[w].1 == pivots@[u]);
                    }
                }
            }
            j += 1;
        }
        let mut is_master: Vec<bool> = vec![false; size];
        let mut j: usize = 0;
        while j < found.len()
            invariant
                j <= found@.len(),
                is_master@.len() == size,
                forall|u: int| 0 <= u < found@.len() ==> #[trigger] found@[u] < size,
            decreases found@.len() - j,
        {
            is_master.set(found[j], true);
            j += 1;
        }
        let mut masters: Vec<usize> = Vec::new();
        let mut c: usize = 0;
        while c < size
            invariant
                c <= size,
                is_master@.len() == size,
                ascending(masters@),
                forall|u: int| 0 <= u < masters@.len() ==> #[trigger] masters@[u] < c,
            decreases size - c,
        {
            if is_master[c] {
                masters.push(c);
            }
            c += 1;
        }
        Plan { eqs, pivots, targets: vstd::slice::slice_to_vec(targets), masters }
    }

    /// Equations kept out of the learned system.
    pub fn len(&self) -> (n: usize)
        ensures
            n == self.equations().len(),
    {
        self.eqs.len()
    }

    pub fn is_empty(&self) -> (b: bool)
        ensures
            b == (self.equations().len() == 0),
    {
        self.eqs.len() == 0
    }

    /// The coefficient of every master in every target, targets major, from only the kept
    /// equations `row(i)`. `None` if a pivot vanished or moved at this sample.
    pub fn replay(&self, row: impl Fn(usize) -> Row, p: u64) -> (r: Option<Vec<u64>>)
        requires
            modulus(p),
            forall|i: usize| call_requires(row, (i,)),
            forall|t: int| 0 <= t < self.target_columns().len() ==> #[trigger] self.target_columns()[t] < usize::MAX,
        ensures
            r matches Some(out) ==> out@.len() == self.target_columns().len() * self.master_columns().len(),
    {
        let mut ech = Echelon::new();
        let mut j: usize = 0;
        while j < self.eqs.len() && j < self.pivots.len()
            invariant
                ech.wf(p),
                forall|i: usize| call_requires(row, (i,)),
            decreases self.eqs@.len() - j,
        {
            let r = row(self.eqs[j]);
            let mut u: usize = 0;
            while u < r.len()
                invariant
                    u <= r@.len(),
                    forall|w: int| 0 <= w < u ==> (#[trigger] r@[w]).0 < usize::MAX,
                decreases r@.len() - u,
            {
                if r[u].0 == usize::MAX {
                    return None;
                }
                u += 1;
            }
            match ech.insert(&r, p) {
                Some(c) => {
                    if c != self.pivots[j] {
                        return None;
                    }
                },
                None => {
                    return None;
                },
            }
            j += 1;
        }
        let m = self.masters.len();
        let total = match self.targets.len().checked_mul(m) {
            Some(v) => v,
            None => {
                return None;
            },
        };
        let mut out: Vec<u64> = vec![0u64; total];
        if m == 0 {
            return Some(out);
        }
        let mut t: usize = 0;
        while t < self.targets.len()
            invariant
                out@.len() == total,
                total == self.targets@.len() * m,
                m == self.masters@.len(),
                m > 0,
                ech.wf(p),
                forall|u: int| 0 <= u < self.target_columns().len() ==> #[trigger] self.target_columns()[u] < usize::MAX,
            decreases self.targets@.len() - t,
        {
            assert(self.target_columns()[t as int] < usize::MAX);
            let (sol, _) = ech.solve(self.targets[t], p);
            let mut u: usize = 0;
            while u < sol.len()
                invariant
                    u <= sol@.len(),
                    out@.len() == total,
                    total == self.targets@.len() * m,
                    m == self.masters@.len(),
                    t < self.targets@.len(),
                decreases sol@.len() - u,
            {
                let (mc, v) = sol[u];
                let idx = match find(&self.masters, mc) {
                    Some(i) => i,
                    None => {
                        return None;
                    },
                };
                proof {
                    assert(t * m + idx < total) by (nonlinear_arith)
                        requires
                            t < self.targets@.len(),
                            idx < m,
                            total == self.targets@.len() * m,
                    ;
                }
                out.set(t * m + idx, v);
                u += 1;
            }
            t += 1;
        }
        Some(out)
    }
}

} // verus!
