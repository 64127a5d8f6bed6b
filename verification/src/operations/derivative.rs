//! Partial derivatives with respect to a variable.

use vstd::prelude::*;
use crate::forms::variable::Variable;
use crate::forms::term::{Term, term_nth_deriv, term_nth_deriv_fits};
use crate::forms::expression::{Expression, ExprV, expr_nth_deriv, expr_nth_deriv_fits};
use crate::forms::rational_expression::{RationalExpression, RatExprV, rexpr_deriv, rexpr_deriv_fits};
use crate::forms::polynomial::{Polynomial, poly_expr, poly_expr_fits, poly_from_expr, poly_from_expr_fits};

verus! {

/// Trait for calculating the partial derivative of an expression with respect to a variable.
pub trait PartialDerivative: Sized {
    /// The derivative with respect to `variable` can be taken.
    spec fn derivative_defined(self, variable: Variable) -> bool;

    /// `r` is the derivative of `self` with respect to `variable`.
    spec fn is_derivative(self, variable: Variable, r: Self) -> bool;

    /// The `n`-th derivative with respect to `variable` can be taken.
    spec fn nth_derivative_defined(self, n: nat, variable: Variable) -> bool;

    /// `r` is the `n`-th derivative of `self` with respect to `variable`.
    spec fn is_nth_derivative(self, n: nat, variable: Variable, r: Self) -> bool;

    /// Calculates the partial derivative of the implementing type with respect to the specified variable.
    fn calculate_derivate_wrt_variable(&self, variable: &Variable) -> (r: Self)
        requires
            self.derivative_defined(*variable),
        ensures
            self.is_derivative(*variable, r),
    ;

    /// Calculates the nth partial derivative of the implementing type with respect
    /// to the specified variable.
    fn calculate_nth_derivate_wrt_variable(&self, n: usize, variable: &Variable) -> (r: Self)
        requires
            self.nth_derivative_defined(n as nat, *variable),
        ensures
            self.is_nth_derivative(n as nat, *variable, r),
    ;
}

impl PartialDerivative for Term {
    open spec fn derivative_defined(self, variable: Variable) -> bool {
        self.wf() && term_nth_deriv_fits(self@, 1, variable)
    }

    open spec fn is_derivative(self, variable: Variable, r: Term) -> bool {
        r.wf() && r@ == term_nth_deriv(self@, 1, variable)
    }

    open spec fn nth_derivative_defined(self, n: nat, variable: Variable) -> bool {
        self.wf() && term_nth_deriv_fits(self@, n as int, variable)
    }

    open spec fn is_nth_derivative(self, n: nat, variable: Variable, r: Term) -> bool {
        r.wf() && r@ == term_nth_deriv(self@, n as int, variable)
    }

    fn calculate_derivate_wrt_variable(&self, variable: &Variable) -> (r: Term) {
        self.nth_derivative(1, variable)
    }

    /// The `n`-th derivative directly: `p (p-1) ... (p-n+1) v^(p-n)` times the rest.
    fn calculate_nth_derivate_wrt_variable(&self, n: usize, variable: &Variable) -> (r: Term) {
        self.nth_derivative(n, variable)
    }
}

/// The derivative of a term taken `k` times, one at a time, with respect to `v`.
pub open spec fn term_iter_deriv(a: crate::forms::term::TermV, k: nat, v: Variable) -> crate::forms::term::TermV
    decreases k,
{
    if k == 0 {
        a
    } else {
        crate::forms::term::term_deriv(term_iter_deriv(a, (k - 1) as nat, v), v)
    }
}

/// The `k`-fold derivative of an expression with respect to `v`.
pub open spec fn expr_iter_deriv(m: ExprV, k: nat, v: Variable) -> ExprV
    decreases k,
{
    if k == 0 {
        m
    } else {
        expr_iter_deriv(expr_nth_deriv(m, 1, v), (k - 1) as nat, v)
    }
}

/// One more derivative after `k` of them gives the `(k + 1)`-fold derivative.
pub proof fn lemma_expr_iter_deriv_last(m: ExprV, k: nat, v: Variable)
    ensures
        expr_iter_deriv(m, k + 1, v) == expr_nth_deriv(expr_iter_deriv(m, k, v), 1, v),
    decreases k,
{
    assert(expr_iter_deriv(m, k + 1, v) == expr_iter_deriv(expr_nth_deriv(m, 1, v), k, v));
    if k > 0 {
        lemma_expr_iter_deriv_last(expr_nth_deriv(m, 1, v), (k - 1) as nat, v);
        assert(expr_iter_deriv(m, k, v) == expr_iter_deriv(expr_nth_deriv(m, 1, v), (k - 1) as nat, v));
    } else {
        assert(expr_iter_deriv(expr_nth_deriv(m, 1, v), 0, v) == expr_nth_deriv(m, 1, v));
    }
}

impl PartialDerivative for Expression {
    open spec fn derivative_defined(self, variable: Variable) -> bool {
        self.wf() && expr_nth_deriv_fits(self@, 1, variable)
    }

    open spec fn is_derivative(self, variable: Variable, r: Expression) -> bool {
        r.wf() && r@ == expr_nth_deriv(self@, 1, variable)
    }

    open spec fn nth_derivative_defined(self, n: nat, variable: Variable) -> bool {
        &&& self.wf()
        &&& forall|k: nat| k < n ==> expr_nth_deriv_fits(#[trigger] expr_iter_deriv(self@, k, variable), 1, variable)
    }

    open spec fn is_nth_derivative(self, n: nat, variable: Variable, r: Expression) -> bool {
        r.wf() && r@ == expr_iter_deriv(self@, n, variable)
    }

    fn calculate_derivate_wrt_variable(&self, variable: &Variable) -> (r: Expression) {
        self.derivative(variable)
    }

    /// The derivative taken `n` times.
    fn calculate_nth_derivate_wrt_variable(&self, n: usize, variable: &Variable) -> (r: Expression) {
        proof {
            assert(expr_iter_deriv(self@, 0, *variable) == self@);
        }
        let mut result = self.copy();
        let mut k: usize = 0;
        while k < n
            invariant
                0 <= k <= n,
                self.wf(),
                forall|j: nat| j < n ==> expr_nth_deriv_fits(#[trigger] expr_iter_deriv(self@, j, *variable), 1, *variable),
                result.wf(),
                result@ == expr_iter_deriv(self@, k as nat, *variable),
            decreases n - k,
        {
            proof {
                lemma_expr_iter_deriv_last(self@, k as nat, *variable);
                assert(expr_nth_deriv_fits(expr_iter_deriv(self@, k as nat, *variable), 1, *variable));
            }
            result = result.derivative(variable);
            k = k + 1;
        }
        result
    }
}

/// The `k`-fold derivative of a rational expression with respect to `v`.
pub open spec fn rexpr_iter_deriv(a: RatExprV, k: nat, v: Variable) -> RatExprV
    decreases k,
{
    if k == 0 {
        a
    } else {
        rexpr_iter_deriv(rexpr_deriv(a, v), (k - 1) as nat, v)
    }
}

/// One more derivative after `k` of them gives the `(k + 1)`-fold derivative.
pub proof fn lemma_rexpr_iter_deriv_last(a: RatExprV, k: nat, v: Variable)
    ensures
        rexpr_iter_deriv(a, k + 1, v) == rexpr_deriv(rexpr_iter_deriv(a, k, v), v),
    decreases k,
{
    assert(rexpr_iter_deriv(a, k + 1, v) == rexpr_iter_deriv(rexpr_deriv(a, v), k, v));
    if k > 0 {
        lemma_rexpr_iter_deriv_last(rexpr_deriv(a, v), (k - 1) as nat, v);
        assert(rexpr_iter_deriv(a, k, v) == rexpr_iter_deriv(rexpr_deriv(a, v), (k - 1) as nat, v));
    } else {
        assert(rexpr_iter_deriv(rexpr_deriv(a, v), 0, v) == rexpr_deriv(a, v));
    }
}

impl PartialDerivative for RationalExpression {
    open spec fn derivative_defined(self, variable: Variable) -> bool {
        self.wf() && rexpr_deriv_fits(self@, variable)
    }

    open spec fn is_derivative(self, variable: Variable, r: RationalExpression) -> bool {
        r.wf() && r@ == rexpr_deriv(self@, variable)
    }

    /// Each of the `n` derivatives can be taken (`n == 0` asks for none).
    open spec fn nth_derivative_defined(self, n: nat, variable: Variable) -> bool {
        &&& self.wf()
        &&& forall|k: nat| k < n ==> rexpr_deriv_fits(#[trigger] rexpr_iter_deriv(self@, k, variable), variable)
    }

    open spec fn is_nth_derivative(self, n: nat, variable: Variable, r: RationalExpression) -> bool {
        r.wf() && r@ == rexpr_iter_deriv(self@, n, variable)
    }

    fn calculate_derivate_wrt_variable(&self, variable: &Variable) -> (r: RationalExpression) {
        self.derivative(variable)
    }

    /// The derivative taken `n` times; for `n == 0` the rational expression itself.
    fn calculate_nth_derivate_wrt_variable(&self, n: usize, variable: &Variable) -> (r: RationalExpression) {
        if n == 0 {
            return self.copy();
        }
        proof {
            assert(rexpr_iter_deriv(self@, 0, *variable) == self@);
            lemma_rexpr_iter_deriv_last(self@, 0, *variable);
        }
        let mut result = self.derivative(variable);
        let mut k: usize = 1;
        while k < n
            invariant
                1 <= k <= n,
                self.wf(),
                forall|j: nat| j < n ==> rexpr_deriv_fits(#[trigger] rexpr_iter_deriv(self@, j, *variable), *variable),
                result.wf(),
                result@ == rexpr_iter_deriv(self@, k as nat, *variable),
            decreases n - k,
        {
            proof {
                lemma_rexpr_iter_deriv_last(self@, k as nat, *variable);
                assert(rexpr_deriv_fits(rexpr_iter_deriv(self@, k as nat, *variable), *variable));
            }
            result = result.derivative(variable);
            k = k + 1;
        }
        result
    }
}

impl PartialDerivative for Polynomial {
    open spec fn derivative_defined(self, variable: Variable) -> bool {
        let e = poly_expr(self@.0, self@.1);
        &&& self.wf()
        &&& poly_expr_fits(self@.0, self@.1)
        &&& expr_nth_deriv_fits(e, 1, variable)
        &&& poly_from_expr_fits(expr_nth_deriv(e, 1, variable), self@.0)
    }

    open spec fn is_derivative(self, variable: Variable, r: Polynomial) -> bool {
        r.wf() && r@ == poly_from_expr(expr_nth_deriv(poly_expr(self@.0, self@.1), 1, variable), self@.0)
    }

    open spec fn nth_derivative_defined(self, n: nat, variable: Variable) -> bool {
        let e = poly_expr(self@.0, self@.1);
        &&& self.wf()
        &&& poly_expr_fits(self@.0, self@.1)
        &&& forall|k: nat| k < n ==> expr_nth_deriv_fits(#[trigger] expr_iter_deriv(e, k, variable), 1, variable)
        &&& poly_from_expr_fits(expr_iter_deriv(e, n, variable), self@.0)
    }

    open spec fn is_nth_derivative(self, n: nat, variable: Variable, r: Polynomial) -> bool {
        r.wf() && r@ == poly_from_expr(expr_iter_deriv(poly_expr(self@.0, self@.1), n, variable), self@.0)
    }

    /// The derivative of the polynomial as an expression, as a polynomial in the same variable.
    fn calculate_derivate_wrt_variable(&self, variable: &Variable) -> (r: Polynomial) {
        let expression = self.to_expression();
        let derivative_expression = expression.derivative(variable);
        Polynomial::from_expression(derivative_expression, self.variable())
    }

    /// The `n`-th derivative of the polynomial as an expression, as a polynomial in the same variable.
    fn calculate_nth_derivate_wrt_variable(&self, n: usize, variable: &Variable) -> (r: Polynomial) {
        let expression = self.to_expression();
        let derivative_expression = expression.calculate_nth_derivate_wrt_variable(n, variable);
        Polynomial::from_expression(derivative_expression, self.variable())
    }
}

} // verus!
