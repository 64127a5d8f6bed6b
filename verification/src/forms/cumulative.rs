//! Sums and products over lists of terms, expressions and rational expressions.

use vstd::prelude::*;
use crate::forms::term::{Term, TermV, term_one, term_mul, term_mul_fits};
use crate::forms::expression::{Expression, ExprV, expr_add, expr_add_fits, expr_mul, expr_mul_fits, expr_one, term_views};
use crate::forms::rational_expression::{
    RationalExpression, RatExprV, expr_zero, rexpr_add, rexpr_add_fits, rexpr_mul, rexpr_mul_fits,
};
use crate::forms::polynomial::expr_views;

verus! {

/// The product of the terms of `s`, accumulated from 1 in order.
pub open spec fn term_product(s: Seq<TermV>) -> TermV
    decreases s.len(),
{
    if s.len() == 0 {
        term_one()
    } else {
        term_mul(term_product(s.drop_last()), s.last())
    }
}

/// Every partial product of `s` stays in `i64`.
pub open spec fn term_product_fits(s: Seq<TermV>) -> bool
    decreases s.len(),
{
    s.len() == 0 || (term_product_fits(s.drop_last()) && term_mul_fits(term_product(s.drop_last()), s.last()))
}

/// The sum of the expressions of `s`, accumulated from 0 in order.
pub open spec fn expr_sum(s: Seq<ExprV>) -> ExprV
    decreases s.len(),
{
    if s.len() == 0 {
        expr_zero()
    } else {
        expr_add(expr_sum(s.drop_last()), s.last())
    }
}

/// Every partial sum of `s` stays in `i64`.
pub open spec fn expr_sum_fits(s: Seq<ExprV>) -> bool
    decreases s.len(),
{
    s.len() == 0 || (expr_sum_fits(s.drop_last()) && expr_add_fits(expr_sum(s.drop_last()), s.last()))
}

/// The product of the expressions of `s`, accumulated from 1 in order.
pub open spec fn expr_product(s: Seq<ExprV>) -> ExprV
    decreases s.len(),
{
    if s.len() == 0 {
        expr_one()
    } else {
        expr_mul(expr_product(s.drop_last()), s.last())
    }
}

/// Every partial product of `s` stays in `i64`.
pub open spec fn expr_product_fits(s: Seq<ExprV>) -> bool
    decreases s.len(),
{
    s.len() == 0 || (expr_product_fits(s.drop_last()) && expr_mul_fits(expr_product(s.drop_last()), s.last()))
}

/// The views of a list of rational expressions.
pub open spec fn rexpr_views(s: Seq<RationalExpression>) -> Seq<RatExprV> {
    Seq::new(s.len(), |i: int| s[i]@)
}

/// The sum of the rational expressions of `s`, accumulated from `0/1` in order.
pub open spec fn rexpr_sum(s: Seq<RatExprV>) -> RatExprV
    decreases s.len(),
{
    if s.len() == 0 {
        (expr_zero(), expr_one())
    } else {
        rexpr_add(rexpr_sum(s.drop_last()), s.last())
    }
}

/// Every partial sum of `s` stays in `i64` and has a nonzero denominator.
pub open spec fn rexpr_sum_fits(s: Seq<RatExprV>) -> bool
    decreases s.len(),
{
    s.len() == 0 || (rexpr_sum_fits(s.drop_last()) && rexpr_add_fits(rexpr_sum(s.drop_last()), s.last()))
}

/// The product of the rational expressions of `s`, accumulated from `1/1` in order.
pub open spec fn rexpr_product(s: Seq<RatExprV>) -> RatExprV
    decreases s.len(),
{
    if s.len() == 0 {
        (expr_one(), expr_one())
    } else {
        rexpr_mul(rexpr_product(s.drop_last()), s.last())
    }
}

/// Every partial product of `s` stays in `i64` and has a nonzero denominator.
pub open spec fn rexpr_product_fits(s: Seq<RatExprV>) -> bool
    decreases s.len(),
{
    s.len() == 0 || (rexpr_product_fits(s.drop_last()) && rexpr_mul_fits(rexpr_product(s.drop_last()), s.last()))
}

proof fn lemma_term_product_fits_take(s: Seq<TermV>, i: int)
    requires
        term_product_fits(s),
        0 <= i <= s.len(),
    ensures
        term_product_fits(s.take(i)),
    decreases s.len() - i,
{
    if i == s.len() {
        assert(s.take(i) =~= s);
    } else {
        lemma_term_product_fits_take(s, i + 1);
        assert(s.take(i + 1).drop_last() =~= s.take(i));
    }
}

proof fn lemma_expr_sum_fits_take(s: Seq<ExprV>, i: int)
    requires
        expr_sum_fits(s),
        0 <= i <= s.len(),
    ensures
        expr_sum_fits(s.take(i)),
    decreases s.len() - i,
{
    if i == s.len() {
        assert(s.take(i) =~= s);
    } else {
        lemma_expr_sum_fits_take(s, i + 1);
        assert(s.take(i + 1).drop_last() =~= s.take(i));
    }
}

proof fn lemma_expr_product_fits_take(s: Seq<ExprV>, i: int)
    requires
        expr_product_fits(s),
        0 <= i <= s.len(),
    ensures
        expr_product_fits(s.take(i)),
    decreases s.len() - i,
{
    if i == s.len() {
        assert(s.take(i) =~= s);
    } else {
        lemma_expr_product_fits_take(s, i + 1);
        assert(s.take(i + 1).drop_last() =~= s.take(i));
    }
}

proof fn lemma_rexpr_sum_fits_take(s: Seq<RatExprV>, i: int)
    requires
        rexpr_sum_fits(s),
        0 <= i <= s.len(),
    ensures
        rexpr_sum_fits(s.take(i)),
    decreases s.len() - i,
{
    if i == s.len() {
        assert(s.take(i) =~= s);
    } else {
        lemma_rexpr_sum_fits_take(s, i + 1);
        assert(s.take(i + 1).drop_last() =~= s.take(i));
    }
}

proof fn lemma_rexpr_product_fits_take(s: Seq<RatExprV>, i: int)
    requires
        rexpr_product_fits(s),
        0 <= i <= s.len(),
    ensures
        rexpr_product_fits(s.take(i)),
    decreases s.len() - i,
{
    if i == s.len() {
        assert(s.take(i) =~= s);
    } else {
        lemma_rexpr_product_fits_take(s, i + 1);
        assert(s.take(i + 1).drop_last() =~= s.take(i));
    }
}

impl Term {
    /// Multiplies all the terms; the empty product is 1.
    pub fn product(terms: Vec<Term>) -> (t: Term)
        requires
            forall|i: int| 0 <= i < terms@.len() ==> (#[trigger] terms@[i]).wf(),
            term_product_fits(term_views(terms@)),
        ensures
            t.wf(),
            t@ == term_product(term_views(terms@)),
    {
        let ghost s = term_views(terms@);
        let mut acc = Term::one();
        let mut i: usize = 0;
        proof {
            assert(s.take(0) =~= Seq::<TermV>::empty());
        }
        while i < terms.len()
            invariant
                0 <= i <= terms.len(),
                s == term_views(terms@),
                forall|k: int| 0 <= k < terms@.len() ==> (#[trigger] terms@[k]).wf(),
                term_product_fits(s),
                acc.wf(),
                acc@ == term_product(s.take(i as int)),
            decreases terms.len() - i,
        {
            proof {
                lemma_term_product_fits_take(s, i + 1);
                assert(s.take(i + 1).drop_last() =~= s.take(i as int));
                assert(s.take(i + 1).last() == terms@[i as int]@);
            }
            acc = acc.mul(terms[i].copy());
            i = i + 1;
        }
        proof {
            assert(s.take(s.len() as int) =~= s);
        }
        acc
    }
}

impl Expression {
    /// Adds all the expressions; the empty sum is 0.
    pub fn sum(expressions: Vec<Expression>) -> (e: Expression)
        requires
            forall|i: int| 0 <= i < expressions@.len() ==> (#[trigger] expressions@[i]).wf(),
            expr_sum_fits(expr_views(expressions@)),
        ensures
            e.wf(),
            e@ == expr_sum(expr_views(expressions@)),
    {
        let ghost s = expr_views(expressions@);
        let mut acc = Expression::zero();
        let mut i: usize = 0;
        proof {
            assert(s.take(0) =~= Seq::<ExprV>::empty());
        }
        while i < expressions.len()
            invariant
                0 <= i <= expressions.len(),
                s == expr_views(expressions@),
                forall|k: int| 0 <= k < expressions@.len() ==> (#[trigger] expressions@[k]).wf(),
                expr_sum_fits(s),
                acc.wf(),
                acc@ == expr_sum(s.take(i as int)),
            decreases expressions.len() - i,
        {
            proof {
                lemma_expr_sum_fits_take(s, i + 1);
                assert(s.take(i + 1).drop_last() =~= s.take(i as int));
                assert(s.take(i + 1).last() == expressions@[i as int]@);
            }
            acc = acc.add(expressions[i].copy());
            i = i + 1;
        }
        proof {
            assert(s.take(s.len() as int) =~= s);
        }
        acc
    }

    /// Multiplies all the expressions; the empty product is 1.
    pub fn product(expressions: Vec<Expression>) -> (e: Expression)
        requires
            forall|i: int| 0 <= i < expressions@.len() ==> (#[trigger] expressions@[i]).wf(),
            expr_product_fits(expr_views(expressions@)),
        ensures
            e.wf(),
            e@ == expr_product(expr_views(expressions@)),
    {
        let ghost s = expr_views(expressions@);
        let mut acc = Expression::one();
        let mut i: usize = 0;
        proof {
            assert(s.take(0) =~= Seq::<ExprV>::empty());
        }
        while i < expressions.len()
            invariant
                0 <= i <= expressions.len(),
                s == expr_views(expressions@),
                forall|k: int| 0 <= k < expressions@.len() ==> (#[trigger] expressions@[k]).wf(),
                expr_product_fits(s),
                acc.wf(),
                acc@ == expr_product(s.take(i as int)),
            decreases expressions.len() - i,
        {
            proof {
                lemma_expr_product_fits_take(s, i + 1);
                assert(s.take(i + 1).drop_last() =~= s.take(i as int));
                assert(s.take(i + 1).last() == expressions@[i as int]@);
            }
            acc = acc.mul(expressions[i].copy());
            i = i + 1;
        }
        proof {
            assert(s.take(s.len() as int) =~= s);
        }
        acc
    }
}

impl RationalExpression {
    /// Adds all the rational expressions; the empty sum is `0/1`.
    pub fn sum(items: Vec<RationalExpression>) -> (r: RationalExpression)
        requires
            forall|i: int| 0 <= i < items@.len() ==> (#[trigger] items@[i]).wf(),
            rexpr_sum_fits(rexpr_views(items@)),
        ensures
            r.wf(),
            r@ == rexpr_sum(rexpr_views(items@)),
    {
        let ghost s = rexpr_views(items@);
        let mut acc = RationalExpression::zero();
        let mut i: usize = 0;
        proof {
            assert(s.take(0) =~= Seq::<RatExprV>::empty());
        }
        while i < items.len()
            invariant
                0 <= i <= items.len(),
                s == rexpr_views(items@),
                forall|k: int| 0 <= k < items@.len() ==> (#[trigger] items@[k]).wf(),
                rexpr_sum_fits(s),
                acc.wf(),
                acc@ == rexpr_sum(s.take(i as int)),
            decreases items.len() - i,
        {
            proof {
                lemma_rexpr_sum_fits_take(s, i + 1);
                assert(s.take(i + 1).drop_last() =~= s.take(i as int));
                assert(s.take(i + 1).last() == items@[i as int]@);
            }
            acc = acc.add(items[i].copy());
            i = i + 1;
        }
        proof {
            assert(s.take(s.len() as int) =~= s);
        }
        acc
    }

    /// Multiplies all the rational expressions; the empty product is `1/1`.
    pub fn product(items: Vec<RationalExpression>) -> (r: RationalExpression)
        requires
            forall|i: int| 0 <= i < items@.len() ==> (#[trigger] items@[i]).wf(),
            rexpr_product_fits(rexpr_views(items@)),
        ensures
            r.wf(),
            r@ == rexpr_product(rexpr_views(items@)),
    {
        let ghost s = rexpr_views(items@);
        let mut acc = RationalExpression::from_expression(Expression::one());
        let mut i: usize = 0;
        proof {
            assert(s.take(0) =~= Seq::<RatExprV>::empty());
        }
        while i < items.len()
            invariant
                0 <= i <= items.len(),
                s == rexpr_views(items@),
                forall|k: int| 0 <= k < items@.len() ==> (#[trigger] items@[k]).wf(),
                rexpr_product_fits(s),
                acc.wf(),
                acc@ == rexpr_product(s.take(i as int)),
            decreases items.len() - i,
        {
            proof {
                lemma_rexpr_product_fits_take(s, i + 1);
                assert(s.take(i + 1).drop_last() =~= s.take(i as int));
                assert(s.take(i + 1).last() == items@[i as int]@);
            }
            acc = acc.mul(items[i].copy());
            i = i + 1;
        }
        proof {
            assert(s.take(s.len() as int) =~= s);
        }
        acc
    }
}

} // verus!
