# tiny_symbolic

A minimal symbolic computation library with exact rational arithmetic,
verified with Verus.

- `src/rational.rs`: rationals in lowest terms (`num::Rational64` does the
  arithmetic); `src/divisibility.rs`: the gcd facts behind lowest terms.
- `src/forms/`: variables, terms, expressions (sums of terms with distinct
  monomials, kept sorted), rational expressions, polynomials, and sums and
  products over lists of them.
- `src/operations/derivative.rs`: partial derivatives.
- `src/algos/`: elementary symmetric polynomials, power sums (Newton–Girard)
  and the rewriting of symmetric expressions.
- `src/laws.rs`, `src/sums.rs`, `src/products.rs`, `src/round_trip.rs`,
  `src/substitution.rs`, `src/cancellation.rs`, `src/product_rule.rs`,
  `src/powers.rs`, `src/linearity.rs`, `src/expansion.rs`: the
  algebraic laws the operations obey (field laws of the rationals,
  associativity, commutativity and distributivity of expression arithmetic,
  cancellation of nonzero factors and hence transitivity of rational-expression
  equality, value-preserving rescaling of rational expressions, derivatives
  taken one at a time, of sums and of products, reading a polynomial back from
  its expression and multiplying polynomials associatively, substituting for
  variables that do not occur, substituting into a sum term by term, powers as repeated products with
  `m^(a+b) = m^a m^b`, terms that cancel, expressions that add back from their
  terms, each `eₖ` expanding to the expression it stands for).
- `app/main.rs`: a small demonstration program.

Every public function states, over a mathematical model (`Map`s from monomials
to rational coefficients), exactly what it returns. For the sums, products and powers of terms and
expressions, the substitutions and the elementary-symmetric rewriting, a
`checked_` companion (or a `*_fits_check`) returns `None` (or `false`) exactly
when the arithmetic would leave `i64` (or, for the rewriting, when the input is
not symmetric).
