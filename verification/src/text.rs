//! Polynomials as text: signed coefficients, `x^d` powers joined by `*`, terms by ` + ` and ` - `.

use crate::poly::{Exps, ModPoly};
use vstd::prelude::*;

verus! {

/// The decimal digit `d`.
pub open spec fn digit(d: nat) -> char {
    if d == 0 {
        '0'
    } else if d == 1 {
        '1'
    } else if d == 2 {
        '2'
    } else if d == 3 {
        '3'
    } else if d == 4 {
        '4'
    } else if d == 5 {
        '5'
    } else if d == 6 {
        '6'
    } else if d == 7 {
        '7'
    } else if d == 8 {
        '8'
    } else {
        '9'
    }
}

/// `v` in decimal, without leading zeros.
pub open spec fn decimal(v: nat) -> Seq<char>
    decreases v,
{
    if v < 10 {
        seq![digit(v)]
    } else {
        decimal(v / 10).push(digit(v % 10))
    }
}

/// The digit `d` as text.
fn digit_str(d: u64) -> (s: &'static str)
    requires
        d < 10,
    ensures
        s@ == seq![digit(d as nat)],
{
    if d == 0 {
        proof {
            reveal_strlit("0");
        }
        "0"
    } else if d == 1 {
        proof {
            reveal_strlit("1");
        }
        "1"
    } else if d == 2 {
        proof {
            reveal_strlit("2");
        }
        "2"
    } else if d == 3 {
        proof {
            reveal_strlit("3");
        }
        "3"
    } else if d == 4 {
        proof {
            reveal_strlit("4");
        }
        "4"
    } else if d == 5 {
        proof {
            reveal_strlit("5");
        }
        "5"
    } else if d == 6 {
        proof {
            reveal_strlit("6");
        }
        "6"
    } else if d == 7 {
        proof {
            reveal_strlit("7");
        }
        "7"
    } else if d == 8 {
        proof {
            reveal_strlit("8");
        }
        "8"
    } else {
        proof {
            reveal_strlit("9");
        }
        "9"
    }
}

/// Appends `v` in decimal.
pub fn push_decimal(out: &mut String, v: u64)
    ensures
        final(out)@ == old(out)@ + decimal(v as nat),
    decreases v,
{
    if v >= 10 {
        push_decimal(out, v / 10);
    }
    out.append(digit_str(v % 10));
    proof {
        if v >= 10 {
            assert(decimal(v as nat) == decimal((v / 10) as nat).push(digit((v % 10) as nat)));
        }
    }
}

/// The integer `v` in decimal, with a `-` in front when negative.
pub open spec fn int_text(v: int) -> Seq<char> {
    if v < 0 {
        seq!['-'] + decimal((-v) as nat)
    } else {
        decimal(v as nat)
    }
}

/// Appends `v` in decimal, with its sign.
pub fn push_int(out: &mut String, v: i32)
    ensures
        final(out)@ == old(out)@ + int_text(v as int),
{
    if v < 0 {
        proof {
            reveal_strlit("-");
        }
        out.append("-");
        let m: i64 = 0 - (v as i64);
        push_decimal(out, m as u64);
    } else {
        push_decimal(out, v as u64);
    }
}

/// `name` to the power `d`.
pub open spec fn factor_text(name: Seq<char>, d: u32) -> Seq<char> {
    if d == 1 {
        name
    } else {
        name + seq!['^'] + decimal(d as nat)
    }
}

/// The factors of the first `i` variables that occur in `e`.
pub open spec fn factors(e: Seq<u32>, names: Seq<Seq<char>>, i: nat) -> Seq<Seq<char>>
    decreases i,
{
    if i == 0 {
        seq![]
    } else {
        let prev = factors(e, names, (i - 1) as nat);
        if e[i - 1] > 0 {
            prev.push(factor_text(names[i - 1], e[i - 1]))
        } else {
            prev
        }
    }
}

/// `parts` joined by `sep`.
pub open spec fn joined(parts: Seq<Seq<char>>, sep: Seq<char>) -> Seq<char>
    decreases parts.len(),
{
    if parts.len() == 0 {
        seq![]
    } else if parts.len() == 1 {
        parts[0]
    } else {
        joined(parts.drop_last(), sep) + sep + parts.last()
    }
}

/// A residue as a sign and a magnitude, those above `p / 2` counting as negative; `p` itself
/// is zero, with no sign.
pub open spec fn signed(c: u64, p: u64) -> (bool, nat) {
    if c > p / 2 {
        (c < p, (p - c) as nat)
    } else {
        (false, c as nat)
    }
}

/// The monomial `e` over the named variables.
pub open spec fn vars_text(e: Seq<u32>, names: Seq<Seq<char>>) -> Seq<char> {
    joined(factors(e, names, vstd::math::min(e.len() as int, names.len() as int) as nat), seq!['*'])
}

/// One term: its sign, and its magnitude times its monomial with a unit magnitude left out.
pub open spec fn term_text(e: Seq<u32>, c: u64, names: Seq<Seq<char>>, p: u64) -> (bool, Seq<char>) {
    let (neg, a) = signed(c, p);
    let vars = vars_text(e, names);
    let body = if vars.len() == 0 {
        decimal(a)
    } else if a == 1 {
        vars
    } else {
        decimal(a) + seq!['*'] + vars
    };
    (neg, body)
}

/// The first `j` terms, the first with a bare `-` if negative, the rest joined by ` + ` or ` - `.
pub open spec fn terms_text(ts: Seq<(Exps, u64)>, names: Seq<Seq<char>>, p: u64, j: nat) -> Seq<char>
    decreases j,
{
    if j == 0 {
        seq![]
    } else {
        let prev = terms_text(ts, names, p, (j - 1) as nat);
        let (neg, body) = term_text(ts[j - 1].0@, ts[j - 1].1, names, p);
        if j == 1 {
            if neg {
                seq!['-'] + body
            } else {
                body
            }
        } else if neg {
            prev + seq![' ', '-', ' '] + body
        } else {
            prev + seq![' ', '+', ' '] + body
        }
    }
}

/// The whole polynomial as text, `0` if it has no terms.
pub open spec fn shown(ts: Seq<(Exps, u64)>, names: Seq<Seq<char>>, p: u64) -> Seq<char> {
    let s = terms_text(ts, names, p, ts.len());
    if s.len() == 0 {
        seq!['0']
    } else {
        s
    }
}

/// The names as character sequences.
pub open spec fn name_views(names: Seq<&str>) -> Seq<Seq<char>> {
    names.map_values(|s: &str| s@)
}

impl ModPoly {
    /// The polynomial as text over the variable `names`, coefficients above `p / 2` and below
    /// `p` shown as negative, `p` itself as zero.
    pub fn show(&self, names: &[&str], p: u64) -> (s: String)
        requires
            forall|t: int| 0 <= t < self.terms@.len() ==> (#[trigger] self.terms@[t]).1 <= p,
        ensures
            s@ == shown(self.terms@, name_views(names@), p),
    {
        let ghost nv = name_views(names@);
        let mut out = String::new();
        let mut j: usize = 0;
        while j < self.terms.len()
            invariant
                j <= self.terms@.len(),
                forall|t: int| 0 <= t < self.terms@.len() ==> (#[trigger] self.terms@[t]).1 <= p,
                nv == name_views(names@),
                out@ == terms_text(self.terms@, nv, p, j as nat),
            decreases self.terms@.len() - j,
        {
            let e = &self.terms[j].0;
            let c = self.terms[j].1;
            let neg = c > p / 2 && c < p;
            let a = if c > p / 2 {
                p - c
            } else {
                c
            };
            let len = if e.len() < names.len() {
                e.len()
            } else {
                names.len()
            };
            let mut vars = String::new();
            let mut first = true;
            let mut i: usize = 0;
            proof {
                reveal_strlit("*");
                reveal_strlit("^");
            }
            while i < len
                invariant
                    i <= len,
                    len <= e@.len(),
                    len <= names@.len(),
                    nv == name_views(names@),
                    vars@ == joined(factors(e@, nv, i as nat), seq!['*']),
                    first == (factors(e@, nv, i as nat).len() == 0),
                decreases len - i,
            {
                proof {
                    reveal_strlit("*");
                    reveal_strlit("^");
                }
                if e[i] > 0 {
                    let ghost prev = factors(e@, nv, i as nat);
                    let ghost v0 = vars@;
                    let ghost f = factor_text(nv[i as int], e@[i as int]);
                    if !first {
                        vars.append("*");
                    }
                    let ghost v1 = vars@;
                    vars.append(names[i]);
                    let ghost v2 = vars@;
                    if e[i] != 1 {
                        vars.append("^");
                        push_decimal(&mut vars, e[i] as u64);
                    }
                    proof {
                        assert(nv[i as int] == names@[i as int]@);
                        assert(v1 == if first { v0 } else { v0 + seq!['*'] });
                        assert(v2 == v1 + names@[i as int]@);
                        assert(vars@ =~= v1 + f);
                        let now = prev.push(f);
                        assert(factors(e@, nv, (i + 1) as nat) == now);
                        assert(now.drop_last() =~= prev);
                        assert(nv[i as int] == names@[i as int]@);
                        if prev.len() == 0 {
                            assert(vars@ =~= f);
                        } else {
                            assert(vars@ =~= joined(prev, seq!['*']) + seq!['*'] + f);
                        }
                    }
                    first = false;
                }
                i += 1;
            }
            let mut body = String::new();
            if vars.as_str().is_empty() {
                push_decimal(&mut body, a);
            } else if a == 1 {
                body.append(vars.as_str());
            } else {
                push_decimal(&mut body, a);
                body.append("*");
                body.append(vars.as_str());
            }
            proof {
                reveal_strlit("-");
                reveal_strlit(" - ");
                reveal_strlit(" + ");
                assert(len == vstd::math::min(e@.len() as int, names@.len() as int));
                assert(vars@ == vars_text(e@, nv));
            }
            let ghost before = out@;
            if j == 0 {
                if neg {
                    out.append("-");
                }
                out.append(body.as_str());
            } else if neg {
                out.append(" - ");
                out.append(body.as_str());
            } else {
                out.append(" + ");
                out.append(body.as_str());
            }
            proof {
                let (n2, b2) = term_text(e@, c, nv, p);
                assert(n2 == neg && b2 =~= body@);
                if j == 0 {
                    assert(before.len() == 0);
                }
                assert(out@ =~= terms_text(self.terms@, nv, p, (j + 1) as nat));
            }
            j += 1;
        }
        if out.as_str().is_empty() {
            let mut z = String::new();
            proof {
                reveal_strlit("0");
            }
            z.append("0");
            assert(z@ =~= seq!['0']);
            z
        } else {
            out
        }
    }
}

} // verus!
