//! Powers of expressions as repeated products: the squaring that `Expression::pow`
//! performs gives the `n`-fold product, and `m^(a+b) == m^a m^b`.

use vstd::prelude::*;
use crate::rational::rat_one;
use crate::forms::variable::Variable;
use crate::forms::term::powers_sub;
use crate::forms::expression::{Expression, ExprV, coeff, expr_mul, expr_one, expr_pow, pow_loop, canonical_terms};
use crate::laws::{lemma_zero_lowest, lemma_expr_ext, law_rational_mul_one};
use crate::products::{is_expression, lemma_terms_of, lemma_coeff_mul_seq, law_expression_mul_associative};
use crate::sums::{rsum, all_lowest, lemma_rsum_single};

verus! {

/// `m` multiplied by itself `n` times: 1 for `n == 0`, `m` for `n == 1`, then one more factor at a time.
pub open spec fn repeated_product(m: ExprV, n: nat) -> ExprV
    decreases n,
{
    if n == 0 {
        expr_one()
    } else if n == 1 {
        m
    } else {
        expr_mul(repeated_product(m, (n - 1) as nat), m)
    }
}

/// Every product `m^i` for `1 <= i <= n` is an expression.
pub open spec fn powers_are_expressions(m: ExprV, n: nat) -> bool {
    forall|i: nat| 1 <= i <= n ==> is_expression(#[trigger] repeated_product(m, i))
}

/// `1 x == x`.
pub proof fn lemma_one_mul(x: ExprV)
    requires
        is_expression(expr_one()),
        is_expression(x),
    ensures
        expr_mul(expr_one(), x) == x,
{
    let eo = choose|e: Expression| e.wf() && e@ == expr_one();
    let ex = choose|e: Expression| e.wf() && e@ == x;
    lemma_terms_of(&eo);
    lemma_terms_of(&ex);
    lemma_zero_lowest();
    let ts = canonical_terms(expr_one());
    let empty = Map::<Variable, int>::empty();
    assert(expr_one().dom().contains(empty));
    let j0 = choose|j: int| 0 <= j < ts.len() && #[trigger] ts[j].0 == empty;
    assert(ts[j0].1 == rat_one());
    lemma_coeff_mul_seq(ts, x, empty);
    let r = expr_mul(expr_one(), x);
    assert forall|k: Map<Variable, int>| #[trigger] coeff(r, k) == coeff(x, k) by {
        if crate::forms::term::valid_powers(k) {
            lemma_coeff_mul_seq(ts, x, k);
            let s = Seq::new(ts.len(), |i: int| crate::rational::rat_mul(coeff(x, powers_sub(k, ts[i].0)), ts[i].1));
            assert(powers_sub(k, empty) =~= k);
            assert(crate::divisibility::lowest(coeff(x, k)));
            law_rational_mul_one(coeff(x, k));
            assert forall|j: int| 0 <= j < s.len() && j != j0 implies #[trigger] s[j] == crate::rational::rat_zero() by {
                assert(expr_one().dom().contains(ts[j].0));
                assert(ts[j].0 != ts[j0].0);
            }
            assert forall|j: int| 0 <= j < s.len() implies crate::divisibility::lowest(#[trigger] s[j]) by {
                crate::products::lemma_coeff_lowest(x, powers_sub(k, ts[j].0));
                crate::laws::lemma_rat_mul_zero_iff(coeff(x, powers_sub(k, ts[j].0)), ts[j].1);
            }
            lemma_rsum_single(s, j0);
        } else {
            assert(!r.dom().contains(k));
            assert(!x.dom().contains(k));
        }
    }
    lemma_expr_ext(r, x);
}

/// `m^(a+b) == m^a m^b` for `a, b >= 1`, where every power up to `m^(a+b)` is an expression.
pub proof fn law_repeated_product_add(m: ExprV, a: nat, b: nat)
    requires
        a >= 1,
        b >= 1,
        powers_are_expressions(m, a + b),
    ensures
        repeated_product(m, a + b) == expr_mul(repeated_product(m, a), repeated_product(m, b)),
    decreases b,
{
    if b >= 2 {
        law_repeated_product_add(m, a, (b - 1) as nat);
        assert(is_expression(repeated_product(m, a)));
        assert(is_expression(repeated_product(m, (b - 1) as nat)));
        assert(is_expression(repeated_product(m, 1)));
        assert(is_expression(repeated_product(m, (a + b - 1) as nat)));
        law_expression_mul_associative(repeated_product(m, a), repeated_product(m, (b - 1) as nat), m);
    }
}

/// Fewer powers are expressions when more are.
proof fn lemma_fewer_powers(m: ExprV, n: nat, k: nat)
    requires
        powers_are_expressions(m, n),
        k <= n,
    ensures
        powers_are_expressions(m, k),
{
    assert forall|i: nat| 1 <= i <= k implies is_expression(#[trigger] repeated_product(m, i)) by {
        assert(1 <= i <= n);
    }
}

/// The squaring loop from `m^u` and `m^s` with `e` steps left ends at `m^(u + s e)`.
proof fn lemma_pow_loop(m: ExprV, n: nat, u: nat, s: nat, e: nat)
    requires
        is_expression(expr_one()),
        powers_are_expressions(m, n),
        s >= 1,
        u + s * e <= n,
    ensures
        pow_loop(repeated_product(m, u), repeated_product(m, s), e) == repeated_product(m, u + s * e),
    decreases e,
{
    if e > 0 {
        let h = e / 2;
        assert(e == 2 * h + e % 2);
        assert(s * e == 2 * s * h + s * (e % 2)) by (nonlinear_arith)
            requires
                e == 2 * h + e % 2;
        assert(s * h >= 0 && s * (e % 2) >= 0) by (nonlinear_arith)
            requires
                s >= 1,
                h >= 0,
                e % 2 >= 0;
        let u2: nat = if e % 2 == 1 { u + s } else { u };
        let s2: nat = if h > 0 { 2 * s } else { s };
        if e % 2 == 1 {
            assert(u + s <= n);
            assert(is_expression(repeated_product(m, s)));
            if u == 0 {
                lemma_one_mul(repeated_product(m, s));
                assert(repeated_product(m, u) == expr_one());
            } else {
                lemma_fewer_powers(m, n, u + s);
                law_repeated_product_add(m, u, s);
            }
            assert(expr_mul(repeated_product(m, u), repeated_product(m, s)) == repeated_product(m, u2));
        }
        if h > 0 {
            assert(s * e >= 2 * s) by (nonlinear_arith)
                requires
                    s >= 1,
                    e >= 2;
            lemma_fewer_powers(m, n, s + s);
            law_repeated_product_add(m, s, s);
            assert(s2 == s + s);
            assert(expr_mul(repeated_product(m, s), repeated_product(m, s)) == repeated_product(m, s2));
        }
        assert(pow_loop(repeated_product(m, u), repeated_product(m, s), e)
            == pow_loop(repeated_product(m, u2), repeated_product(m, s2), h));
        assert(u2 + s2 * h == u + s * e) by (nonlinear_arith)
            requires
                s * e == 2 * s * h + s * (e % 2),
                u2 == (if e % 2 == 1 { u + s } else { u }),
                s2 == (if h > 0 { 2 * s } else { s }),
                h == 0 ==> e % 2 == 1,
                e % 2 == 0 || e % 2 == 1;
        lemma_pow_loop(m, n, u2, s2, h);
        assert(repeated_product(m, (u2 + s2 * h) as nat) == repeated_product(m, (u + s * e) as nat));
    } else {
        assert(s * e == 0) by (nonlinear_arith)
            requires
                e == 0;
    }
}

/// What `Expression::pow` computes for `n >= 0` is `m` multiplied by itself
/// `n` times (where 1 and the powers up to `m^n` are expressions).
pub proof fn law_expression_pow_is_repeated_product(m: ExprV, n: nat)
    requires
        is_expression(expr_one()),
        powers_are_expressions(m, n),
    ensures
        expr_pow(m, n as int) == repeated_product(m, n),
{
    if n > 0 {
        lemma_pow_loop(m, n, 0, 1, n);
    }
}

/// `m^(a+b) == m^a m^b` for the powers `Expression::pow` computes, `a, b >= 1`
/// (where 1 and the powers up to `m^(a+b)` are expressions).
pub proof fn law_expression_pow_add(m: ExprV, a: nat, b: nat)
    requires
        a >= 1,
        b >= 1,
        is_expression(expr_one()),
        powers_are_expressions(m, a + b),
    ensures
        expr_pow(m, (a + b) as int) == expr_mul(expr_pow(m, a as int), expr_pow(m, b as int)),
        expr_pow(m, 1) == m,
{
    law_expression_pow_is_repeated_product(m, a + b);
    law_expression_pow_is_repeated_product(m, a);
    law_expression_pow_is_repeated_product(m, b);
    law_expression_pow_is_repeated_product(m, 1);
    law_repeated_product_add(m, a, b);
}

} // verus!
