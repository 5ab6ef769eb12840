# tiny_zippel

Sparse polynomial interpolation over word-sized prime fields, building toward Feynman
integral reduction, written in Verus. Polynomials are recovered from evaluations alone, and
the arithmetic, the data structures and the eliminations carry contracts that Verus proves.

## Layout

- `src/modp.rs`: arithmetic modulo `p`, Miller-Rabin primes below 2^62, a SplitMix64 stream
  and hashed evaluation points.
- `src/arith.rs`: powers, binomials, Euclid's lemma and Fermat's little theorem.
- `src/univariate.rs`, `src/vandermonde.rs`: dense polynomials, Newton interpolation and
  transposed Vandermonde systems.
- `src/poly.rs`, `src/text.rs`: sparse polynomials in lex order and their text.
- `src/zippel.rs`, `src/benor.rs`: Zippel's and Ben-Or/Tiwari's black-box interpolation.
- `src/thiele.rs`, `src/rational.rs`: rational functions by Thiele and Zippel.
- `src/bigint.rs`, `src/lift.rs`: integers of any size (arithmetic by `num-bigint`), Chinese
  remaindering, Wang's rational reconstruction, and lifting black boxes to Q.
- `src/laporta.rs`, `src/ibp.rs`: Laporta elimination over GF(p), learned once and replayed,
  and integration-by-parts identities of integral families.
- `src/intpoly.rs`, `src/linzip.rs`, `src/pgcd.rs`, `src/gcd.rs`, `src/lib.rs`: integer
  polynomials and the multivariate gcd over Q by modular interpolation.
- `app/lib.rs`: conversions to and from `groebner` polynomials and the text of reductions.
- `tests/`: the scenarios, run against the compiled library.

Monte Carlo results (interpolation, reconstruction, lifting) are checked at extra points
before they are returned; the contracts state the shape of what comes back and, over a prime
field, the algebra of each step. A black box may describe its answers through
`BlackBox::answers`; where a result is checked at a point, the contract says that it agrees
there with an answer of the box.
