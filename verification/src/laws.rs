//! Properties that hold across the operations of the library.

use vstd::prelude::*;
use crate::rational::{canonical, canon, rat_zero, rat_one, rat_add, rat_mul, rat_div, rat_neg, iabs, gcd, lcm, lemma_gcd_zero_left};
use crate::divisibility::{lowest, lemma_canon_lowest, lemma_canon_eq, lemma_canon_of_value, lemma_gcd_commutative};
use crate::forms::variable::Variable;
use crate::forms::term::{TermV, pw, valid_powers, term_mul, powers_add, term_deriv, term_nth_deriv, range_product, single_power};
use crate::forms::term_lcm::{term_lcm, lcm_powers, multiplier_product, max_power};
use crate::forms::expression::{ExprV, expr_add, expr_neg, sum_at, coeff, expr_nth_deriv, deriv_factor};
use crate::forms::term::powers_sub;
use crate::operations::derivative::{expr_iter_deriv, term_iter_deriv};
use crate::forms::term::term_div;
use crate::forms::expression::expr_valid;
use crate::forms::polynomial::{PolyV, poly_add, poly_sub, pad, poly_trim, poly_normal, max_len};

verus! {

/// Rational addition is commutative.
pub proof fn law_rational_add_commutative(a: (int, int), b: (int, int))
    ensures
        rat_add(a, b) == rat_add(b, a),
{
    assert(a.1 * b.1 == b.1 * a.1) by (nonlinear_arith);
    assert(a.0 * b.1 + b.0 * a.1 == b.0 * a.1 + a.0 * b.1);
}

/// A rational plus its negation is 0.
pub proof fn law_rational_add_neg(a: (int, int))
    requires
        canonical(a),
    ensures
        rat_add(a, rat_neg(a)) == rat_zero(),
{
    let d = a.1 * a.1;
    assert(a.0 * a.1 + (-a.0) * a.1 == 0) by (nonlinear_arith);
    assert(d > 0) by (nonlinear_arith)
        requires
            a.1 >= 1,
            d == a.1 * a.1;
    lemma_gcd_zero_left(d as nat);
    assert(iabs(0) == 0);
    assert(iabs(d) == d);
    assert(gcd(0, d as nat) == d);
    assert(0int / d == 0);
    assert(d / d == 1) by (nonlinear_arith)
        requires
            d > 0;
}

/// Adding expressions is commutative: `a + b` and `b + a` have the same terms.
pub proof fn law_expression_add_commutative(a: ExprV, b: ExprV)
    ensures
        expr_add(a, b) == expr_add(b, a),
{
    assert forall|k: Map<Variable, int>| a.dom().contains(k) || b.dom().contains(k) implies #[trigger] sum_at(a, b, k) == sum_at(b, a, k) by {
        if a.dom().contains(k) && b.dom().contains(k) {
            law_rational_add_commutative(a[k], b[k]);
        }
    }
    assert(expr_add(a, b) =~= expr_add(b, a));
}

/// An expression minus itself is 0.
pub proof fn law_expression_sub_self(a: ExprV)
    requires
        forall|k: Map<Variable, int>| #[trigger] a.dom().contains(k) ==> canonical(a[k]),
    ensures
        expr_add(a, expr_neg(a)) == Map::<Map<Variable, int>, (int, int)>::empty(),
{
    assert forall|k: Map<Variable, int>| a.dom().contains(k) implies #[trigger] sum_at(a, expr_neg(a), k) == rat_zero() by {
        law_rational_add_neg(a[k]);
    }
    assert(expr_add(a, expr_neg(a)) =~= Map::<Map<Variable, int>, (int, int)>::empty());
}

/// Negating twice gives back the expression.
pub proof fn law_expression_neg_neg(a: ExprV)
    ensures
        expr_neg(expr_neg(a)) == a,
{
    assert(expr_neg(expr_neg(a)) =~= a);
}

/// The lcm of terms whose multipliers have a nonzero product is divisible by
/// each of them: every variable of a term occurs in the lcm with at least its power.
pub proof fn law_term_lcm_divisible(s: Seq<TermV>, i: int)
    requires
        forall|j: int| 0 <= j < s.len() ==> valid_powers(#[trigger] s[j].0),
        0 <= i < s.len(),
        multiplier_product(s) != rat_zero(),
    ensures
        forall|v: Variable| #[trigger] s[i].0.dom().contains(v)
            ==> term_lcm(s).0.dom().contains(v) && term_lcm(s).0[v] >= s[i].0[v],
{
    assert forall|v: Variable| #[trigger] s[i].0.dom().contains(v)
        implies lcm_powers(s).dom().contains(v) && lcm_powers(s)[v] >= s[i].0[v] by {
        lemma_lcm_powers_bound(s, i, v);
    }
}

/// The lcm power of `v` is nonzero and at least its power in the `i`-th term.
proof fn lemma_lcm_powers_bound(s: Seq<TermV>, i: int, v: Variable)
    requires
        forall|j: int| 0 <= j < s.len() ==> valid_powers(#[trigger] s[j].0),
        0 <= i < s.len(),
        s[i].0.dom().contains(v),
    ensures
        pw(lcm_powers(s), v) != 0,
        pw(lcm_powers(s), v) >= pw(s[i].0, v),
    decreases s.len(),
{
    let d = s.drop_last();
    assert(valid_powers(s[i].0));
    if i == s.len() - 1 {
        let a = pw(lcm_powers(d), v);
        let b = pw(s.last().0, v);
        assert(b != 0);
        assert(pw(lcm_powers(s), v) == max_power(a, b));
    } else {
        assert(d[i] == s[i]);
        assert forall|j: int| 0 <= j < d.len() implies valid_powers(#[trigger] d[j].0) by {
            assert(d[j] == s[j]);
        }
        lemma_lcm_powers_bound(d, i, v);
        assert(pw(lcm_powers(s), v) == max_power(pw(lcm_powers(d), v), pw(s.last().0, v)));
    }
}

/// A list of zero coefficients trims to nothing.
proof fn lemma_trim_zeros(cs: Seq<ExprV>)
    requires
        forall|i: int| 0 <= i < cs.len() ==> #[trigger] cs[i] == Map::<Map<Variable, int>, (int, int)>::empty(),
    ensures
        poly_trim(cs).len() == 0,
    decreases cs.len(),
{
    if cs.len() > 0 {
        assert(cs.last() == cs[cs.len() - 1]);
        lemma_trim_zeros(cs.drop_last());
    }
}

/// A polynomial minus itself is the zero polynomial.
pub proof fn law_polynomial_sub_self(a: PolyV)
    requires
        forall|i: int, k: Map<Variable, int>| 0 <= i < a.1.len() && #[trigger] a.1[i].dom().contains(k)
            ==> canonical(a.1[i][k]),
    ensures
        poly_sub(a, a) == (a.0, seq![Map::<Map<Variable, int>, (int, int)>::empty()]),
{
    let n = max_len(a.1.len() as int, a.1.len() as int);
    let cs = Seq::new(n as nat, |i: int| expr_add(pad(a.1, i), expr_neg(pad(a.1, i))));
    assert forall|i: int| 0 <= i < cs.len() implies #[trigger] cs[i] == Map::<Map<Variable, int>, (int, int)>::empty() by {
        law_expression_sub_self(pad(a.1, i));
    }
    lemma_trim_zeros(cs);
}

/// Adding polynomials in the same variable is commutative.
pub proof fn law_polynomial_add_commutative(a: PolyV, b: PolyV)
    requires
        a.0 == b.0,
    ensures
        poly_add(a, b) == poly_add(b, a),
{
    let n = max_len(a.1.len() as int, b.1.len() as int);
    assert(n == max_len(b.1.len() as int, a.1.len() as int));
    let x = Seq::new(n as nat, |i: int| expr_add(pad(a.1, i), pad(b.1, i)));
    let y = Seq::new(n as nat, |i: int| expr_add(pad(b.1, i), pad(a.1, i)));
    assert forall|i: int| 0 <= i < n implies #[trigger] x[i] == y[i] by {
        law_expression_add_commutative(pad(a.1, i), pad(b.1, i));
    }
    assert(x =~= y);
}

/// Replacing the first summand by a fraction of the same value keeps the value of the sum.
proof fn lemma_add_cross(s0: int, s1: int, n1: int, d1: int, c0: int, c1: int)
    requires
        s0 * d1 == n1 * s1,
    ensures
        (s0 * c1 + c0 * s1) * (d1 * c1) == (n1 * c1 + c0 * d1) * (s1 * c1),
{
    assert((s0 * c1 + c0 * s1) * (d1 * c1) == s0 * c1 * (d1 * c1) + c0 * s1 * (d1 * c1)) by (nonlinear_arith);
    assert(s0 * c1 * (d1 * c1) == (s0 * d1) * (c1 * c1)) by (nonlinear_arith);
    assert((n1 * s1) * (c1 * c1) == n1 * c1 * (s1 * c1)) by (nonlinear_arith);
    assert(c0 * s1 * (d1 * c1) == c0 * d1 * (s1 * c1)) by (nonlinear_arith);
    assert((n1 * c1 + c0 * d1) * (s1 * c1) == n1 * c1 * (s1 * c1) + c0 * d1 * (s1 * c1)) by (nonlinear_arith);
}

/// Replacing a factor by a fraction of the same value keeps the value of the product.
proof fn lemma_mul_cross(s0: int, s1: int, n1: int, d1: int, c0: int, c1: int)
    requires
        s0 * d1 == n1 * s1,
    ensures
        (s0 * c0) * (d1 * c1) == (n1 * c0) * (s1 * c1),
{
    assert((s0 * c0) * (d1 * c1) == (s0 * d1) * (c0 * c1)) by (nonlinear_arith);
    assert((n1 * s1) * (c0 * c1) == (n1 * c0) * (s1 * c1)) by (nonlinear_arith);
}

/// Products of positive integers are positive.
pub proof fn lemma_pos_mul(x: int, y: int)
    requires
        x >= 1,
        y >= 1,
    ensures
        x * y >= 1,
{
    assert(x * y >= 1) by (nonlinear_arith)
        requires
            x >= 1,
            y >= 1;
}

/// The sum of `a` and `b`, not yet reduced, has the value of their reduced sum.
pub proof fn lemma_add_value(a: (int, int), b: (int, int))
    requires
        a.1 >= 1,
        b.1 >= 1,
    ensures
        a.1 * b.1 >= 1,
        lowest(rat_add(a, b)),
        rat_add(a, b).0 * (a.1 * b.1) == (a.0 * b.1 + b.0 * a.1) * rat_add(a, b).1,
{
    lemma_pos_mul(a.1, b.1);
    lemma_canon_lowest(a.0 * b.1 + b.0 * a.1, a.1 * b.1);
}

/// The numerator of `(a + b) + c` regrouped as that of `a + (b + c)`.
proof fn lemma_sum3_regroup(a0: int, a1: int, b0: int, b1: int, c0: int, c1: int)
    ensures
        (a0 * b1 + b0 * a1) * c1 + c0 * (a1 * b1) == (b0 * c1 + c0 * b1) * a1 + a0 * (b1 * c1),
{
    assert((a0 * b1 + b0 * a1) * c1 == (a0 * b1) * c1 + (b0 * a1) * c1) by (nonlinear_arith);
    assert((b0 * c1 + c0 * b1) * a1 == (b0 * c1) * a1 + (c0 * b1) * a1) by (nonlinear_arith);
    assert((a0 * b1) * c1 == a0 * (b1 * c1)) by (nonlinear_arith);
    assert((b0 * a1) * c1 == (b0 * c1) * a1) by (nonlinear_arith);
    assert(c0 * (a1 * b1) == (c0 * b1) * a1) by (nonlinear_arith);
}

/// Rational addition is associative.
pub proof fn law_rational_add_associative(a: (int, int), b: (int, int), c: (int, int))
    requires
        lowest(a),
        lowest(b),
        lowest(c),
    ensures
        rat_add(rat_add(a, b), c) == rat_add(a, rat_add(b, c)),
{
    let s = rat_add(a, b);
    let u = rat_add(b, c);
    lemma_add_value(a, b);
    lemma_add_value(b, c);
    let n1 = a.0 * b.1 + b.0 * a.1;
    let d1 = a.1 * b.1;
    let n2 = b.0 * c.1 + c.0 * b.1;
    let d2 = b.1 * c.1;
    lemma_pos_mul(s.1, c.1);
    lemma_pos_mul(d1, c.1);
    lemma_pos_mul(a.1, u.1);
    lemma_pos_mul(a.1, d2);
    // (a + b) + c has the value (n1 c1 + c0 d1) / (d1 c1)
    lemma_add_cross(s.0, s.1, n1, d1, c.0, c.1);
    lemma_canon_eq(s.0 * c.1 + c.0 * s.1, s.1 * c.1, n1 * c.1 + c.0 * d1, d1 * c.1);
    // a + (b + c) has the value (a0 d2 + n2 a1) / (a1 d2)
    lemma_add_cross(u.0, u.1, n2, d2, a.0, a.1);
    assert(a.0 * u.1 + u.0 * a.1 == u.0 * a.1 + a.0 * u.1);
    assert(a.1 * u.1 == u.1 * a.1) by (nonlinear_arith);
    assert(a.1 * d2 == d2 * a.1) by (nonlinear_arith);
    lemma_canon_eq(a.0 * u.1 + u.0 * a.1, a.1 * u.1, n2 * a.1 + a.0 * d2, a.1 * d2);
    // and the two unreduced fractions are the same
    lemma_sum3_regroup(a.0, a.1, b.0, b.1, c.0, c.1);
    assert((a.1 * b.1) * c.1 == a.1 * (b.1 * c.1)) by (nonlinear_arith);
}

/// 0 is neutral for rational addition.
pub proof fn law_rational_add_zero(a: (int, int))
    requires
        lowest(a),
    ensures
        rat_add(a, rat_zero()) == a,
        rat_add(rat_zero(), a) == a,
{
    assert(a.0 * 1 + 0 * a.1 == a.0 && a.1 * 1 == a.1 && 0 * a.1 + a.0 * 1 == a.0 && 1 * a.1 == a.1);
    lemma_canon_of_value(a.0, a.1, a);
}

/// Rational multiplication is commutative.
pub proof fn law_rational_mul_commutative(a: (int, int), b: (int, int))
    ensures
        rat_mul(a, b) == rat_mul(b, a),
{
    assert(a.0 * b.0 == b.0 * a.0 && a.1 * b.1 == b.1 * a.1) by (nonlinear_arith);
}

/// The product of `a` and `b`, not yet reduced, has the value of their reduced product.
pub proof fn lemma_mul_value(a: (int, int), b: (int, int))
    requires
        a.1 >= 1,
        b.1 >= 1,
    ensures
        a.1 * b.1 >= 1,
        lowest(rat_mul(a, b)),
        rat_mul(a, b).0 * (a.1 * b.1) == (a.0 * b.0) * rat_mul(a, b).1,
{
    lemma_pos_mul(a.1, b.1);
    lemma_canon_lowest(a.0 * b.0, a.1 * b.1);
}

/// Rational multiplication is associative.
pub proof fn law_rational_mul_associative(a: (int, int), b: (int, int), c: (int, int))
    requires
        lowest(a),
        lowest(b),
        lowest(c),
    ensures
        rat_mul(rat_mul(a, b), c) == rat_mul(a, rat_mul(b, c)),
{
    let s = rat_mul(a, b);
    let u = rat_mul(b, c);
    lemma_mul_value(a, b);
    lemma_mul_value(b, c);
    let d1 = a.1 * b.1;
    let d2 = b.1 * c.1;
    lemma_pos_mul(s.1, c.1);
    lemma_pos_mul(d1, c.1);
    lemma_pos_mul(a.1, u.1);
    lemma_pos_mul(d2, a.1);
    lemma_mul_cross(s.0, s.1, a.0 * b.0, d1, c.0, c.1);
    lemma_canon_eq(s.0 * c.0, s.1 * c.1, (a.0 * b.0) * c.0, d1 * c.1);
    lemma_mul_cross(u.0, u.1, b.0 * c.0, d2, a.0, a.1);
    assert(a.0 * u.0 == u.0 * a.0 && a.1 * u.1 == u.1 * a.1) by (nonlinear_arith);
    lemma_canon_eq(a.0 * u.0, a.1 * u.1, (b.0 * c.0) * a.0, d2 * a.1);
    assert((a.0 * b.0) * c.0 == (b.0 * c.0) * a.0) by (nonlinear_arith);
    assert((a.1 * b.1) * c.1 == (b.1 * c.1) * a.1) by (nonlinear_arith);
}

/// 1 is neutral for rational multiplication.
pub proof fn law_rational_mul_one(a: (int, int))
    requires
        lowest(a),
    ensures
        rat_mul(a, rat_one()) == a,
        rat_mul(rat_one(), a) == a,
{
    assert(a.0 * 1 == a.0 && a.1 * 1 == a.1 && 1 * a.0 == a.0 && 1 * a.1 == a.1);
    lemma_canon_of_value(a.0, a.1, a);
}

/// Multiplication distributes over addition.
pub proof fn law_rational_distributive(a: (int, int), b: (int, int), c: (int, int))
    requires
        lowest(a),
        lowest(b),
        lowest(c),
    ensures
        rat_mul(a, rat_add(b, c)) == rat_add(rat_mul(a, b), rat_mul(a, c)),
{
    let s = rat_add(b, c);
    let m1 = rat_mul(a, b);
    let m2 = rat_mul(a, c);
    lemma_add_value(b, c);
    lemma_mul_value(a, b);
    lemma_mul_value(a, c);
    let n = b.0 * c.1 + c.0 * b.1;
    let d = b.1 * c.1;
    let p1 = a.0 * b.0;
    let q1 = a.1 * b.1;
    let p2 = a.0 * c.0;
    let q2 = a.1 * c.1;
    lemma_pos_mul(a.1, s.1);
    lemma_pos_mul(d, a.1);
    lemma_pos_mul(m1.1, m2.1);
    lemma_pos_mul(q1, m2.1);
    lemma_pos_mul(q2, q1);
    // a (b + c) has the value (n a0) / (d a1)
    lemma_mul_cross(s.0, s.1, n, d, a.0, a.1);
    assert(a.0 * s.0 == s.0 * a.0 && a.1 * s.1 == s.1 * a.1) by (nonlinear_arith);
    lemma_canon_eq(a.0 * s.0, a.1 * s.1, n * a.0, d * a.1);
    // a b + a c has the value (p2 q1 + p1 q2) / (q2 q1)
    lemma_add_cross(m1.0, m1.1, p1, q1, m2.0, m2.1);
    lemma_canon_eq(m1.0 * m2.1 + m2.0 * m1.1, m1.1 * m2.1, p1 * m2.1 + m2.0 * q1, q1 * m2.1);
    lemma_add_cross(m2.0, m2.1, p2, q2, p1, q1);
    assert(q1 * m2.1 == m2.1 * q1) by (nonlinear_arith);
    lemma_canon_eq(p1 * m2.1 + m2.0 * q1, q1 * m2.1, p2 * q1 + p1 * q2, q2 * q1);
    // both are a1 times numerator and denominator of (n a0) / (d a1)
    assert((a.0 * c.0) * (a.1 * b.1) == a.1 * ((c.0 * b.1) * a.0)) by (nonlinear_arith);
    assert((a.0 * b.0) * (a.1 * c.1) == a.1 * ((b.0 * c.1) * a.0)) by (nonlinear_arith);
    assert((b.0 * c.1 + c.0 * b.1) * a.0 == (b.0 * c.1) * a.0 + (c.0 * b.1) * a.0) by (nonlinear_arith);
    assert(a.1 * ((b.0 * c.1) * a.0 + (c.0 * b.1) * a.0) == a.1 * ((b.0 * c.1) * a.0) + a.1 * ((c.0 * b.1) * a.0))
        by (nonlinear_arith);
    assert((a.1 * c.1) * (a.1 * b.1) == a.1 * ((b.1 * c.1) * a.1)) by (nonlinear_arith);
    let x = n * a.0;
    let y = d * a.1;
    assert((a.1 * x) * y == x * (a.1 * y)) by (nonlinear_arith);
    lemma_pos_mul(a.1, y);
    lemma_canon_eq(a.1 * x, a.1 * y, x, y);
}

/// A nonzero rational divided by itself is 1.
pub proof fn law_rational_div_self(a: (int, int))
    requires
        lowest(a),
        a.0 != 0,
    ensures
        rat_div(a, a) == rat_one(),
{
    assert(a.0 * a.1 != 0) by (nonlinear_arith)
        requires
            a.0 != 0,
            a.1 >= 1;
    assert(a.1 * a.0 == a.0 * a.1) by (nonlinear_arith);
    assert(gcd(1, 1) == 1) by {
        crate::rational::lemma_gcd_one(1);
    }
    assert(iabs(1) == 1);
    assert((a.0 * a.1) * 1 == 1 * (a.1 * a.0));
    lemma_canon_of_value(a.0 * a.1, a.1 * a.0, rat_one());
}

/// The lcm of two rationals does not depend on their order.
pub proof fn law_rational_lcm_commutative(x: (int, int), y: (int, int))
    ensures
        canon(lcm(iabs(x.0), iabs(y.0)) as int, gcd(x.1 as nat, y.1 as nat) as int)
            == canon(lcm(iabs(y.0), iabs(x.0)) as int, gcd(y.1 as nat, x.1 as nat) as int),
{
    lemma_gcd_commutative(iabs(x.0), iabs(y.0));
    lemma_gcd_commutative(x.1 as nat, y.1 as nat);
    assert(iabs(x.0) * iabs(y.0) == iabs(y.0) * iabs(x.0)) by (nonlinear_arith);
}

/// Every coefficient is nonzero and in lowest terms.
pub open spec fn expr_lowest(m: ExprV) -> bool {
    forall|k: Map<Variable, int>| #[trigger] m.dom().contains(k) ==> m[k] != rat_zero() && lowest(m[k])
}

/// 0 is in lowest terms.
pub proof fn lemma_zero_lowest()
    ensures
        lowest(rat_zero()),
{
    crate::rational::lemma_gcd_one(0);
    assert(iabs(0) == 0);
}

/// A reduced sum is in lowest terms.
pub proof fn lemma_rat_add_lowest(x: (int, int), y: (int, int))
    requires
        lowest(x),
        lowest(y),
    ensures
        lowest(rat_add(x, y)),
{
    lemma_add_value(x, y);
}

/// The coefficient of a monomial in a sum is the sum of its coefficients.
pub proof fn lemma_coeff_add(a: ExprV, b: ExprV, k: Map<Variable, int>)
    requires
        expr_lowest(a),
        expr_lowest(b),
    ensures
        coeff(expr_add(a, b), k) == rat_add(coeff(a, k), coeff(b, k)),
        lowest(coeff(expr_add(a, b), k)),
{
    lemma_zero_lowest();
    if a.dom().contains(k) && b.dom().contains(k) {
        lemma_rat_add_lowest(a[k], b[k]);
    } else if a.dom().contains(k) {
        law_rational_add_zero(a[k]);
    } else if b.dom().contains(k) {
        law_rational_add_zero(b[k]);
    } else {
        law_rational_add_zero(rat_zero());
    }
}

/// A sum of expressions with lowest-terms coefficients has lowest-terms coefficients.
pub proof fn lemma_expr_add_lowest(a: ExprV, b: ExprV)
    requires
        expr_lowest(a),
        expr_lowest(b),
    ensures
        expr_lowest(expr_add(a, b)),
{
    assert forall|k: Map<Variable, int>| #[trigger] expr_add(a, b).dom().contains(k)
        implies expr_add(a, b)[k] != rat_zero() && lowest(expr_add(a, b)[k]) by {
        lemma_coeff_add(a, b, k);
    }
}

/// Expressions whose coefficients are all nonzero are equal when every coefficient agrees.
pub proof fn lemma_expr_ext(a: ExprV, b: ExprV)
    requires
        forall|k: Map<Variable, int>| #[trigger] a.dom().contains(k) ==> a[k] != rat_zero(),
        forall|k: Map<Variable, int>| #[trigger] b.dom().contains(k) ==> b[k] != rat_zero(),
        forall|k: Map<Variable, int>| #[trigger] coeff(a, k) == coeff(b, k),
    ensures
        a == b,
{
    assert forall|k: Map<Variable, int>| a.dom().contains(k) == b.dom().contains(k) by {
        assert(coeff(a, k) == coeff(b, k));
    }
    assert forall|k: Map<Variable, int>| #[trigger] a.dom().contains(k) implies a[k] == b[k] by {
        assert(coeff(a, k) == coeff(b, k));
    }
    assert(a =~= b);
}

/// Adding expressions is associative.
pub proof fn law_expression_add_associative(a: ExprV, b: ExprV, c: ExprV)
    requires
        expr_lowest(a),
        expr_lowest(b),
        expr_lowest(c),
    ensures
        expr_add(expr_add(a, b), c) == expr_add(a, expr_add(b, c)),
{
    lemma_expr_add_lowest(a, b);
    lemma_expr_add_lowest(b, c);
    lemma_expr_add_lowest(expr_add(a, b), c);
    lemma_expr_add_lowest(a, expr_add(b, c));
    assert forall|k: Map<Variable, int>| #[trigger] coeff(expr_add(expr_add(a, b), c), k)
        == coeff(expr_add(a, expr_add(b, c)), k) by {
        lemma_coeff_add(expr_add(a, b), c, k);
        lemma_coeff_add(a, b, k);
        lemma_coeff_add(a, expr_add(b, c), k);
        lemma_coeff_add(b, c, k);
        lemma_zero_lowest();
        let ca = coeff(a, k);
        let cb = coeff(b, k);
        let cc = coeff(c, k);
        assert(lowest(ca) && lowest(cb) && lowest(cc)) by {
            if a.dom().contains(k) {} if b.dom().contains(k) {} if c.dom().contains(k) {}
        }
        law_rational_add_associative(ca, cb, cc);
    }
    lemma_expr_ext(expr_add(expr_add(a, b), c), expr_add(a, expr_add(b, c)));
}

/// 0 is neutral for adding expressions.
pub proof fn law_expression_add_zero(a: ExprV)
    requires
        expr_lowest(a),
    ensures
        expr_add(a, Map::empty()) == a,
        expr_add(Map::empty(), a) == a,
{
    crate::forms::polynomial::lemma_expr_add_zero_left(a);
    crate::forms::polynomial::lemma_expr_add_zero_right(a);
}

/// The multiplier of a product is 0 exactly when a factor's multiplier is 0.
pub proof fn lemma_rat_mul_zero_iff(x: (int, int), y: (int, int))
    requires
        lowest(x),
        lowest(y),
    ensures
        lowest(rat_mul(x, y)),
        (rat_mul(x, y) == rat_zero()) == (x.0 == 0 || y.0 == 0),
{
    lemma_mul_value(x, y);
    let r = rat_mul(x, y);
    assert((x.0 * y.0 == 0) == (x.0 == 0 || y.0 == 0)) by (nonlinear_arith);
    assert((r.0 == 0) == (x.0 * y.0 == 0)) by (nonlinear_arith)
        requires
            r.0 * (x.1 * y.1) == (x.0 * y.0) * r.1,
            r.1 >= 1,
            x.1 * y.1 >= 1;
    if r.0 == 0 {
        assert(gcd(0, r.1 as nat) == r.1) by {
            lemma_gcd_zero_left(r.1 as nat);
        }
        assert(iabs(0) == 0);
    }
}

/// Multiplying terms is commutative.
pub proof fn law_term_mul_commutative(a: TermV, b: TermV)
    ensures
        term_mul(a, b) == term_mul(b, a),
{
    law_rational_mul_commutative(a.1, b.1);
    assert(powers_add(a.0, b.0) =~= powers_add(b.0, a.0));
}

/// Multiplying terms is associative.
pub proof fn law_term_mul_associative(a: TermV, b: TermV, c: TermV)
    requires
        lowest(a.1),
        lowest(b.1),
        lowest(c.1),
    ensures
        term_mul(term_mul(a, b), c) == term_mul(a, term_mul(b, c)),
{
    lemma_zero_lowest();
    lemma_rat_mul_zero_iff(a.1, b.1);
    lemma_rat_mul_zero_iff(b.1, c.1);
    lemma_rat_mul_zero_iff(rat_mul(a.1, b.1), c.1);
    lemma_rat_mul_zero_iff(a.1, rat_mul(b.1, c.1));
    lemma_rat_mul_zero_iff(rat_zero(), c.1);
    lemma_rat_mul_zero_iff(a.1, rat_zero());
    law_rational_mul_associative(a.1, b.1, c.1);
    assert(powers_add(powers_add(a.0, b.0), c.0) =~= powers_add(a.0, powers_add(b.0, c.0)));
}

/// Extending the product `lo * ... * hi` one factor down multiplies it by `lo - 1`.
proof fn lemma_range_product_down(lo: int, hi: int)
    requires
        lo - 1 <= hi,
    ensures
        range_product(lo - 1, hi) == (lo - 1) * range_product(lo, hi),
    decreases hi - lo + 1,
{
    let a = range_product(lo - 1, hi - 1);
    assert(range_product(lo - 1, hi) == a * hi);
    if hi == lo - 1 {
        assert(a == 1);
        assert(range_product(lo, hi) == 1);
        assert(a * hi == hi);
        assert((lo - 1) * 1 == hi);
    } else {
        lemma_range_product_down(lo, hi - 1);
        let b = range_product(lo, hi - 1);
        assert(a == (lo - 1) * b);
        assert(range_product(lo, hi) == b * hi);
        assert(a * hi == (lo - 1) * (b * hi)) by (nonlinear_arith)
            requires
                a == (lo - 1) * b;
    }
}

/// An integer over 1 is in lowest terms.
pub(crate) proof fn lemma_integer_lowest(x: int)
    ensures
        lowest((x, 1int)),
{
    crate::rational::lemma_gcd_one(iabs(x));
}

/// One more derivative after the `n`-th derivative of a term is its `(n + 1)`-th
/// derivative: the direct formula agrees with taking derivatives one at a time.
pub proof fn law_term_nth_derivative_step(a: TermV, n: int, v: Variable)
    requires
        lowest(a.1),
        valid_powers(a.0),
        n >= 0,
    ensures
        term_deriv(term_nth_deriv(a, n, v), v) == term_nth_deriv(a, n + 1, v),
{
    let p = pw(a.0, v);
    let c = range_product(p - n + 1, p);
    let c2 = range_product(p - n, p);
    lemma_range_product_down(p - n + 1, p);
    assert(c2 == (p - n) * c);
    let rest = (a.0.remove(v), a.1);
    let inner = term_nth_deriv(a, n, v);
    lemma_zero_lowest();
    lemma_integer_lowest(c);
    lemma_integer_lowest(p - n);
    lemma_integer_lowest(c2);
    lemma_rat_mul_zero_iff(rat_zero(), a.1);
    lemma_rat_mul_zero_iff((c, 1int), a.1);
    lemma_rat_mul_zero_iff((c2, 1int), a.1);
    assert((c2 == 0) == (p - n == 0 || c == 0)) by (nonlinear_arith)
        requires
            c2 == (p - n) * c;
    let outer = term_deriv(inner, v);
    if c == 0 || a.1.0 == 0 {
        assert(inner == (Map::<Variable, int>::empty(), rat_zero()));
        assert(pw(inner.0, v) == 0);
        lemma_rat_mul_zero_iff(rat_zero(), rat_zero());
        assert(outer == (Map::<Variable, int>::empty(), rat_zero()));
    } else {
        let m = rat_mul((c, 1int), a.1);
        assert(m != rat_zero());
        let k = powers_add(single_power(v, p - n), a.0.remove(v));
        assert(inner == (k, m));
        assert(pw(k, v) == p - n);
        assert(k.remove(v) =~= a.0.remove(v));
        lemma_mul_value((c, 1int), a.1);
        if p - n == 0 {
            assert(outer == (Map::<Variable, int>::empty(), rat_zero())) by {
                lemma_rat_mul_zero_iff(rat_zero(), m);
            }
        } else {
            lemma_rat_mul_zero_iff((p - n, 1int), m);
            law_rational_mul_associative((p - n, 1int), (c, 1int), a.1);
            assert(rat_mul((p - n, 1int), (c, 1int)) == (c2, 1int)) by {
                assert((p - n) * c == c2);
                assert(1int * 1 == 1);
                crate::divisibility::lemma_canon_of_value(c2, 1, (c2, 1int));
            }
            assert(single_power(v, p - n - 1) =~= single_power(v, p - (n + 1)));
        }
    }
}

/// At one monomial `k`: the derivative of the `n`-th derivative agrees with the `(n + 1)`-th.
proof fn lemma_derivative_step_at(m: ExprV, n: int, v: Variable, k: Map<Variable, int>)
    requires
        expr_lowest(m),
        n >= 0,
    ensures
        expr_nth_deriv(expr_nth_deriv(m, n, v), 1, v).dom().contains(k) == expr_nth_deriv(m, n + 1, v).dom().contains(k),
        expr_nth_deriv(m, n + 1, v).dom().contains(k)
            ==> expr_nth_deriv(expr_nth_deriv(m, n, v), 1, v)[k] == expr_nth_deriv(m, n + 1, v)[k],
{
    lemma_zero_lowest();
    let k1 = powers_sub(k, single_power(v, -1));
    let kk = powers_sub(k1, single_power(v, -n));
    assert(kk =~= powers_sub(k, single_power(v, -(n + 1))));
    let q = pw(k, v) + 1;
    assert(pw(k1, v) == q);
    let big = pw(kk, v);
    assert(big == q + n);
    assert(deriv_factor(k1, 1, v) == range_product(q, q));
    assert(range_product(q, q - 1) == 1);
    assert(range_product(q, q) == q);
    let fnn = deriv_factor(kk, n, v);
    let f2 = deriv_factor(kk, n + 1, v);
    lemma_range_product_down(big - n + 1, big);
    assert(f2 == q * fnn);
    assert((f2 != 0) == (q != 0 && fnn != 0)) by (nonlinear_arith)
        requires
            f2 == q * fnn;
    if m.dom().contains(kk) && f2 != 0 {
        let c = m[kk];
        assert(lowest(c) && c != rat_zero());
        lemma_integer_lowest(q);
        lemma_integer_lowest(fnn);
        lemma_integer_lowest(f2);
        lemma_rat_mul_zero_iff((fnn, 1int), c);
        lemma_mul_value((fnn, 1int), c);
        assert(c.0 != 0) by {
            if c.0 == 0 {
                crate::rational::lemma_gcd_zero_left(c.1 as nat);
                assert(iabs(0) == 0);
            }
        }
        law_rational_mul_associative((q, 1int), (fnn, 1int), c);
        assert(rat_mul((q, 1int), (fnn, 1int)) == (f2, 1int)) by {
            assert(1int * 1 == 1);
            crate::divisibility::lemma_canon_of_value(q * fnn, 1, (f2, 1int));
        }
    }
}

/// One more derivative of the `n`-th derivative of an expression is its
/// `(n + 1)`-th derivative.
pub proof fn law_expression_nth_derivative_step(m: ExprV, n: int, v: Variable)
    requires
        expr_lowest(m),
        n >= 0,
    ensures
        expr_nth_deriv(expr_nth_deriv(m, n, v), 1, v) == expr_nth_deriv(m, n + 1, v),
{
    let left = expr_nth_deriv(expr_nth_deriv(m, n, v), 1, v);
    let right = expr_nth_deriv(m, n + 1, v);
    assert forall|k: Map<Variable, int>| #[trigger] left.dom().contains(k) == right.dom().contains(k) by {
        lemma_derivative_step_at(m, n, v, k);
    }
    assert forall|k: Map<Variable, int>| #[trigger] right.dom().contains(k) implies left[k] == right[k] by {
        lemma_derivative_step_at(m, n, v, k);
    }
    assert(left =~= right);
}

/// At one monomial `k`: the `0`-th derivative changes nothing.
proof fn lemma_derivative_zero_at(m: ExprV, v: Variable, k: Map<Variable, int>)
    requires
        expr_lowest(m),
        forall|q: Map<Variable, int>| #[trigger] m.dom().contains(q) ==> valid_powers(q),
    ensures
        expr_nth_deriv(m, 0, v).dom().contains(k) == m.dom().contains(k),
        m.dom().contains(k) ==> expr_nth_deriv(m, 0, v)[k] == m[k],
{
    assert(single_power(v, 0) =~= Map::<Variable, int>::empty());
    if valid_powers(k) || m.dom().contains(k) {
        assert(powers_sub(k, Map::<Variable, int>::empty()) =~= k);
    }
    assert(range_product(pw(k, v) + 1, pw(k, v)) == 1);
    if m.dom().contains(k) {
        law_rational_mul_one(m[k]);
        law_rational_mul_commutative((1int, 1int), m[k]);
    }
}

/// Taking the derivative `n` times, one at a time, gives the `n`-th derivative.
pub proof fn law_expression_iterated_derivative(m: ExprV, n: nat, v: Variable)
    requires
        expr_lowest(m),
        forall|k: Map<Variable, int>| #[trigger] m.dom().contains(k) ==> valid_powers(k),
    ensures
        expr_iter_deriv(m, n, v) == expr_nth_deriv(m, n as int, v),
    decreases n,
{
    if n == 0 {
        let d = expr_nth_deriv(m, 0, v);
        assert forall|k: Map<Variable, int>| #[trigger] d.dom().contains(k) == m.dom().contains(k) by {
            lemma_derivative_zero_at(m, v, k);
        }
        assert forall|k: Map<Variable, int>| #[trigger] m.dom().contains(k) implies d[k] == m[k] by {
            lemma_derivative_zero_at(m, v, k);
        }
        assert(d =~= m);
    } else {
        law_expression_iterated_derivative(m, (n - 1) as nat, v);
        crate::operations::derivative::lemma_expr_iter_deriv_last(m, (n - 1) as nat, v);
        law_expression_nth_derivative_step(m, n - 1, v);
    }
}

/// The coefficient of monomial `k` in the `n`-th derivative: the coefficient of
/// the monomial it comes from, times the factor that differentiating brings.
pub(crate) proof fn lemma_coeff_nth_deriv(m: ExprV, n: int, v: Variable, k: Map<Variable, int>)
    requires
        expr_lowest(m),
    ensures
        coeff(expr_nth_deriv(m, n, v), k) == (if valid_powers(k) {
            rat_mul((deriv_factor(powers_sub(k, single_power(v, -n)), n, v), 1int),
                coeff(m, powers_sub(k, single_power(v, -n))))
        } else {
            rat_zero()
        }),
        lowest(coeff(expr_nth_deriv(m, n, v), k)),
        expr_nth_deriv(m, n, v).dom().contains(k) ==> expr_nth_deriv(m, n, v)[k] != rat_zero(),
{
    lemma_zero_lowest();
    let j = powers_sub(k, single_power(v, -n));
    let f = deriv_factor(j, n, v);
    lemma_integer_lowest(f);
    let c = coeff(m, j);
    assert(lowest(c)) by {
        if m.dom().contains(j) {}
    }
    lemma_rat_mul_zero_iff((f, 1int), c);
    if m.dom().contains(j) {
        assert(c.0 != 0) by {
            if c.0 == 0 {
                lemma_gcd_zero_left(c.1 as nat);
                assert(iabs(0) == 0);
            }
        }
    }
}

/// Differentiating keeps every coefficient nonzero and in lowest terms.
pub(crate) proof fn lemma_nth_deriv_lowest(m: ExprV, n: int, v: Variable)
    requires
        expr_lowest(m),
    ensures
        expr_lowest(expr_nth_deriv(m, n, v)),
{
    assert forall|k: Map<Variable, int>| #[trigger] expr_nth_deriv(m, n, v).dom().contains(k)
        implies expr_nth_deriv(m, n, v)[k] != rat_zero() && lowest(expr_nth_deriv(m, n, v)[k]) by {
        lemma_coeff_nth_deriv(m, n, v, k);
    }
}

/// At one monomial `k`: the derivative of a sum agrees with the sum of the derivatives.
proof fn lemma_derivative_of_sum_at(a: ExprV, b: ExprV, n: int, v: Variable, k: Map<Variable, int>)
    requires
        expr_lowest(a),
        expr_lowest(b),
    ensures
        coeff(expr_nth_deriv(expr_add(a, b), n, v), k)
            == coeff(expr_add(expr_nth_deriv(a, n, v), expr_nth_deriv(b, n, v)), k),
{
    lemma_zero_lowest();
    let j = powers_sub(k, single_power(v, -n));
    let f = deriv_factor(j, n, v);
    lemma_integer_lowest(f);
    lemma_expr_add_lowest(a, b);
    lemma_nth_deriv_lowest(a, n, v);
    lemma_nth_deriv_lowest(b, n, v);
    lemma_coeff_add(a, b, j);
    lemma_coeff_add(expr_nth_deriv(a, n, v), expr_nth_deriv(b, n, v), k);
    lemma_coeff_nth_deriv(expr_add(a, b), n, v, k);
    lemma_coeff_nth_deriv(a, n, v, k);
    lemma_coeff_nth_deriv(b, n, v, k);
    let ca = coeff(a, j);
    let cb = coeff(b, j);
    assert(lowest(ca) && lowest(cb)) by {
        if a.dom().contains(j) {}
        if b.dom().contains(j) {}
    }
    if valid_powers(k) {
        law_rational_distributive((f, 1int), ca, cb);
    } else {
        law_rational_add_zero(rat_zero());
    }
}

/// Differentiating is additive: the `n`-th derivative of `a + b` is the sum of
/// the `n`-th derivatives of `a` and of `b`.
pub proof fn law_expression_derivative_of_sum(a: ExprV, b: ExprV, n: int, v: Variable)
    requires
        expr_lowest(a),
        expr_lowest(b),
    ensures
        expr_nth_deriv(expr_add(a, b), n, v) == expr_add(expr_nth_deriv(a, n, v), expr_nth_deriv(b, n, v)),
{
    lemma_expr_add_lowest(a, b);
    lemma_nth_deriv_lowest(expr_add(a, b), n, v);
    lemma_nth_deriv_lowest(a, n, v);
    lemma_nth_deriv_lowest(b, n, v);
    lemma_expr_add_lowest(expr_nth_deriv(a, n, v), expr_nth_deriv(b, n, v));
    assert forall|k: Map<Variable, int>| #[trigger] coeff(expr_nth_deriv(expr_add(a, b), n, v), k)
        == coeff(expr_add(expr_nth_deriv(a, n, v), expr_nth_deriv(b, n, v)), k) by {
        lemma_derivative_of_sum_at(a, b, n, v, k);
    }
    lemma_expr_ext(expr_nth_deriv(expr_add(a, b), n, v), expr_add(expr_nth_deriv(a, n, v), expr_nth_deriv(b, n, v)));
}

/// The empty expression (no terms).
spec fn zero_expr() -> ExprV {
    Map::<Map<Variable, int>, (int, int)>::empty()
}

/// Trimming keeps every coefficient (past the end everything is 0), and leaves
/// a last coefficient that is not 0.
proof fn lemma_trim_pads(s: Seq<ExprV>)
    ensures
        forall|i: int| #[trigger] pad(poly_trim(s), i) == pad(s, i),
        poly_trim(s).len() > 0 ==> poly_trim(s).last() != zero_expr(),
        poly_trim(s).len() <= s.len(),
    decreases s.len(),
{
    if s.len() > 0 && s.last() == zero_expr() {
        let d = s.drop_last();
        lemma_trim_pads(d);
        assert forall|i: int| #[trigger] pad(poly_trim(s), i) == pad(s, i) by {
            assert(pad(poly_trim(d), i) == pad(d, i));
            if i == s.len() - 1 {
                assert(s[i] == s.last());
            } else if 0 <= i < d.len() {
                assert(d[i] == s[i]);
            }
        }
    }
}

/// Keeping the coefficients a polynomial keeps changes none of them.
proof fn lemma_normal_pads(s: Seq<ExprV>)
    ensures
        forall|i: int| #[trigger] pad(poly_normal(s), i) == pad(s, i),
{
    lemma_trim_pads(s);
    assert forall|i: int| #[trigger] pad(poly_normal(s), i) == pad(s, i) by {
        assert(pad(poly_trim(s), i) == pad(s, i));
    }
}

/// Coefficient lists with the same coefficients at every power are kept alike.
proof fn lemma_normal_by_pads(s: Seq<ExprV>, t: Seq<ExprV>)
    requires
        forall|i: int| #[trigger] pad(s, i) == pad(t, i),
    ensures
        poly_normal(s) == poly_normal(t),
{
    lemma_trim_pads(s);
    lemma_trim_pads(t);
    let u = poly_trim(s);
    let w = poly_trim(t);
    assert forall|i: int| #[trigger] pad(u, i) == pad(w, i) by {
        assert(pad(u, i) == pad(s, i));
        assert(pad(w, i) == pad(t, i));
        assert(pad(s, i) == pad(t, i));
    }
    if u.len() > w.len() {
        assert(pad(u, u.len() - 1) == pad(w, u.len() - 1));
        assert(false);
    }
    if w.len() > u.len() {
        assert(pad(u, w.len() - 1) == pad(w, w.len() - 1));
        assert(false);
    }
    assert forall|i: int| 0 <= i < u.len() implies u[i] == w[i] by {
        assert(pad(u, i) == pad(w, i));
    }
    assert(u =~= w);
}

/// Each coefficient of a sum of polynomials is the sum of their coefficients.
proof fn lemma_poly_add_pads(a: PolyV, b: PolyV)
    ensures
        forall|i: int| #[trigger] pad(poly_add(a, b).1, i) == expr_add(pad(a.1, i), pad(b.1, i)),
{
    let n = max_len(a.1.len() as int, b.1.len() as int);
    let x = Seq::new(n as nat, |i: int| expr_add(pad(a.1, i), pad(b.1, i)));
    lemma_normal_pads(x);
    assert forall|i: int| #[trigger] pad(poly_add(a, b).1, i) == expr_add(pad(a.1, i), pad(b.1, i)) by {
        assert(pad(poly_normal(x), i) == pad(x, i));
        if !(0 <= i < n) {
            assert(expr_add(zero_expr(), zero_expr()) =~= zero_expr());
        }
    }
}

/// Coefficients of a polynomial in lowest terms (the empty coefficient included).
proof fn lemma_pad_lowest(s: Seq<ExprV>, i: int)
    requires
        forall|j: int| 0 <= j < s.len() ==> expr_lowest(#[trigger] s[j]),
    ensures
        expr_lowest(pad(s, i)),
{
}

/// Adding polynomials is associative.
pub proof fn law_polynomial_add_associative(a: PolyV, b: PolyV, c: PolyV)
    requires
        forall|j: int| 0 <= j < a.1.len() ==> expr_lowest(#[trigger] a.1[j]),
        forall|j: int| 0 <= j < b.1.len() ==> expr_lowest(#[trigger] b.1[j]),
        forall|j: int| 0 <= j < c.1.len() ==> expr_lowest(#[trigger] c.1[j]),
    ensures
        poly_add(poly_add(a, b), c) == poly_add(a, poly_add(b, c)),
{
    let ab = poly_add(a, b);
    let bc = poly_add(b, c);
    lemma_poly_add_pads(a, b);
    lemma_poly_add_pads(b, c);
    lemma_poly_add_pads(ab, c);
    lemma_poly_add_pads(a, bc);
    let n1 = max_len(ab.1.len() as int, c.1.len() as int);
    let n2 = max_len(a.1.len() as int, bc.1.len() as int);
    let x = Seq::new(n1 as nat, |i: int| expr_add(pad(ab.1, i), pad(c.1, i)));
    let y = Seq::new(n2 as nat, |i: int| expr_add(pad(a.1, i), pad(bc.1, i)));
    assert forall|i: int| #[trigger] pad(x, i) == pad(y, i) by {
        lemma_pad_lowest(a.1, i);
        lemma_pad_lowest(b.1, i);
        lemma_pad_lowest(c.1, i);
        law_expression_add_associative(pad(a.1, i), pad(b.1, i), pad(c.1, i));
        assert(pad(ab.1, i) == expr_add(pad(a.1, i), pad(b.1, i)));
        assert(pad(bc.1, i) == expr_add(pad(b.1, i), pad(c.1, i)));
        assert(expr_add(zero_expr(), zero_expr()) =~= zero_expr());
    }
    lemma_normal_by_pads(x, y);
}

/// `(x y) / y == x` and `(x / y) y == x` for rationals in lowest terms with `y != 0`.
pub(crate) proof fn lemma_rat_mul_div_cancel(x: (int, int), y: (int, int))
    requires
        lowest(x),
        lowest(y),
        y.0 != 0,
    ensures
        rat_div(rat_mul(x, y), y) == x,
        rat_mul(rat_div(x, y), y) == x,
{
    let a = rat_mul(x, y);
    lemma_mul_value(x, y);
    assert(a.1 * y.0 != 0) by (nonlinear_arith)
        requires
            a.1 >= 1,
            y.0 != 0;
    assert((a.0 * y.1) * x.1 == x.0 * (a.1 * y.0)) by (nonlinear_arith)
        requires
            a.0 * (x.1 * y.1) == (x.0 * y.0) * a.1;
    lemma_canon_of_value(a.0 * y.1, a.1 * y.0, x);
    assert(x.1 * y.0 != 0) by (nonlinear_arith)
        requires
            x.1 >= 1,
            y.0 != 0;
    let d = rat_div(x, y);
    lemma_canon_lowest(x.0 * y.1, x.1 * y.0);
    assert(d.1 * y.1 != 0) by (nonlinear_arith)
        requires
            d.1 >= 1,
            y.1 >= 1;
    assert((d.0 * y.0) * x.1 == x.0 * (d.1 * y.1)) by (nonlinear_arith)
        requires
            d.0 * (x.1 * y.0) == (x.0 * y.1) * d.1;
    lemma_canon_of_value(d.0 * y.0, d.1 * y.1, x);
}

/// A nonzero rational in lowest terms has a nonzero numerator.
pub(crate) proof fn lemma_nonzero_numerator(x: (int, int))
    requires
        lowest(x),
        x != rat_zero(),
    ensures
        x.0 != 0,
{
    if x.0 == 0 {
        lemma_gcd_zero_left(x.1 as nat);
        assert(iabs(0) == 0);
    }
}

/// Dividing a product of terms by one factor gives back the other, and
/// multiplying a quotient by the divisor gives back the dividend (for nonzero
/// multipliers).
pub proof fn law_term_mul_div_cancel(t: TermV, r: TermV)
    requires
        valid_powers(t.0),
        lowest(t.1),
        t.1 != rat_zero(),
        lowest(r.1),
        r.1 != rat_zero(),
    ensures
        term_div(term_mul(t, r), r) == t,
        term_mul(term_div(t, r), r) == t,
{
    lemma_nonzero_numerator(t.1);
    lemma_nonzero_numerator(r.1);
    lemma_rat_mul_zero_iff(t.1, r.1);
    lemma_rat_mul_div_cancel(t.1, r.1);
    crate::forms::term::lemma_powers_add_sub(t.0, r.0);
    crate::forms::term::lemma_powers_sub_add(t.0, r.0);
}

/// Negating keeps coefficients nonzero and in lowest terms.
proof fn lemma_expr_neg_lowest(f: ExprV)
    requires
        expr_lowest(f),
    ensures
        expr_lowest(expr_neg(f)),
{
    assert forall|k: Map<Variable, int>| #[trigger] expr_neg(f).dom().contains(k)
        implies expr_neg(f)[k] != rat_zero() && lowest(expr_neg(f)[k]) by {
        assert(iabs(-f[k].0) == iabs(f[k].0));
    }
}

/// Subtracting and then adding the same expression gives back the first: `(e - f) + f == e`.
pub proof fn law_expression_sub_add(e: ExprV, f: ExprV)
    requires
        expr_lowest(e),
        expr_valid(f),
    ensures
        expr_add(expr_add(e, expr_neg(f)), f) == e,
{
    assert(expr_lowest(f));
    lemma_expr_neg_lowest(f);
    law_expression_add_associative(e, expr_neg(f), f);
    law_expression_add_commutative(expr_neg(f), f);
    law_expression_sub_self(f);
    law_expression_add_zero(e);
}

/// The `0`-th derivative of a term is the term itself.
proof fn lemma_term_zeroth_derivative(a: TermV, v: Variable)
    requires
        valid_powers(a.0),
        lowest(a.1),
        a.1 == rat_zero() ==> a.0 == Map::<Variable, int>::empty(),
    ensures
        term_nth_deriv(a, 0, v) == a,
{
    let p = pw(a.0, v);
    assert(range_product(p + 1, p) == 1);
    law_rational_mul_one(a.1);
    law_rational_mul_commutative((1int, 1int), a.1);
    lemma_zero_lowest();
    lemma_rat_mul_zero_iff((1int, 1int), a.1);
    assert(powers_add(single_power(v, p), a.0.remove(v)) =~= a.0);
}

/// Differentiating a term `n` times, one derivative at a time, gives its `n`-th
/// derivative `p (p-1) ... (p-n+1) v^(p-n)` times the rest.
pub proof fn law_term_iterated_derivative(a: TermV, n: nat, v: Variable)
    requires
        valid_powers(a.0),
        lowest(a.1),
        a.1 == rat_zero() ==> a.0 == Map::<Variable, int>::empty(),
    ensures
        term_iter_deriv(a, n, v) == term_nth_deriv(a, n as int, v),
    decreases n,
{
    if n == 0 {
        lemma_term_zeroth_derivative(a, v);
    } else {
        law_term_iterated_derivative(a, (n - 1) as nat, v);
        law_term_nth_derivative_step(a, n - 1, v);
    }
}

} // verus!
