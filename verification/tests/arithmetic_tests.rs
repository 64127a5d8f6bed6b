use tiny_symbolic::{Expression, Polynomial, Rational, RationalExpression, Term, Variable};

fn rx(e: Expression) -> RationalExpression {
    RationalExpression::from_expression(e)
}

fn rt(t: Term) -> RationalExpression {
    RationalExpression::from_term(t)
}

#[test]
fn arithmetic_operations_test_all_arithmetic_combinations() {
    let x = Variable::new('x', None);
    let y = Variable::new('y', None);
    let scalar = Rational::new(2, 1);
    let st = || Term::from_rational(scalar);
    let se = || Expression::from_rational(scalar);
    let xe = || Expression::from_variable(x);
    let ye = || Expression::from_variable(y);
    let term = y.pow(2).mul(x.pow(1)).mul(st());
    let expression = Expression::from_term(term.copy()).add(ye());
    let rational = RationalExpression::new(expression.copy(), Expression::from_integer(1).add(expression.copy()));
    let polynomial = Polynomial::new(x, vec![Expression::from_integer(1), Expression::from_integer(1)]);

    // a variable with everything
    let _ = x.pow(1).neg();
    let _ = xe().add(se());
    let _ = xe().add(ye());
    let _ = xe().add(Expression::from_term(term.copy()));
    let _ = xe().add(expression.copy());
    let _ = rx(xe()).add(rational.copy());
    let _ = xe().sub(se());
    let _ = xe().sub(ye());
    let _ = xe().sub(Expression::from_term(term.copy()));
    let _ = xe().sub(expression.copy());
    let _ = rx(xe()).sub(rational.copy());
    let _ = x.pow(1).mul(st());
    let _ = x.pow(1).mul(y.pow(1));
    let _ = x.pow(1).mul(term.copy());
    let _ = xe().mul(expression.copy());
    let _ = rx(xe()).mul(rational.copy());
    let _ = x.pow(1).div(st());
    let _ = x.pow(1).div(y.pow(1));
    let _ = x.pow(1).div(term.copy());
    let _ = rx(xe()).div(rx(expression.copy()));
    let _ = rx(xe()).div(rational.copy());

    // a term with everything
    let _ = term.copy().neg();
    let _ = Expression::from_term(term.copy()).add(se());
    let _ = Expression::from_term(term.copy()).add(xe());
    let _ = Expression::from_term(term.copy()).add(Expression::from_term(term.copy()));
    let _ = Expression::from_term(term.copy()).add(expression.copy());
    let _ = rt(term.copy()).add(rational.copy());
    let _ = Expression::from_term(term.copy()).sub(se());
    let _ = Expression::from_term(term.copy()).sub(xe());
    let _ = Expression::from_term(term.copy()).sub(Expression::from_term(term.copy()));
    let _ = Expression::from_term(term.copy()).sub(expression.copy());
    let _ = rt(term.copy()).sub(rational.copy());
    let _ = term.copy().mul(st());
    let _ = term.copy().mul(x.pow(1));
    let _ = term.copy().mul(term.copy());
    let _ = expression.copy().mul_term(&term);
    let _ = rt(term.copy()).mul(rational.copy());
    let _ = term.copy().div(st());
    let _ = term.copy().div(x.pow(1));
    let _ = term.copy().div(term.copy());
    let _ = rt(term.copy()).div(rx(expression.copy()));
    let _ = rt(term.copy()).div(rational.copy());

    // an expression with everything
    let _ = expression.copy().neg();
    let _ = expression.copy().add(se());
    let _ = expression.copy().add(xe());
    let _ = expression.copy().add(Expression::from_term(term.copy()));
    let _ = expression.copy().add(expression.copy());
    let _ = rx(expression.copy()).add(rational.copy());
    let _ = expression.copy().sub(se());
    let _ = expression.copy().sub(xe());
    let _ = expression.copy().sub(Expression::from_term(term.copy()));
    let _ = expression.copy().sub(expression.copy());
    let _ = rx(expression.copy()).sub(rational.copy());
    let _ = expression.copy().mul_term(&st());
    let _ = expression.copy().mul_term(&x.pow(1));
    let _ = expression.copy().mul_term(&term);
    let _ = expression.copy().mul(expression.copy());
    let _ = rx(expression.copy()).mul(rational.copy());
    let _ = expression.copy().div_term(&st());
    let _ = expression.copy().div_term(&x.pow(1));
    let _ = expression.copy().div_term(&term);
    let _ = rx(expression.copy()).div(rx(expression.copy()));
    let _ = rx(expression.copy()).div(rational.copy());

    // a rational expression with everything
    let _ = rational.copy().neg();
    let _ = rational.copy().add(rt(st()));
    let _ = rational.copy().add(rx(xe()));
    let _ = rational.copy().add(rt(term.copy()));
    let _ = rational.copy().add(rx(expression.copy()));
    let _ = rational.copy().add(rational.copy());
    let _ = rational.copy().sub(rt(st()));
    let _ = rational.copy().sub(rx(xe()));
    let _ = rational.copy().sub(rt(term.copy()));
    let _ = rational.copy().sub(rx(expression.copy()));
    let _ = rational.copy().sub(rational.copy());
    let _ = rational.copy().mul(rt(st()));
    let _ = rational.copy().mul(rx(xe()));
    let _ = rational.copy().mul(rt(term.copy()));
    let _ = rational.copy().mul(rx(expression.copy()));
    let _ = rational.copy().mul(rational.copy());
    let _ = rational.copy().div(rt(st()));
    let _ = rational.copy().div(rx(xe()));
    let _ = rational.copy().div(rt(term.copy()));
    let _ = rational.copy().div(rx(expression.copy()));
    let _ = rational.copy().div(rational.copy());

    // a polynomial with everything
    let _ = polynomial.copy().neg();
    let _ = polynomial.copy().add_expression(se());
    let _ = polynomial.copy().add_expression(ye());
    let _ = polynomial.copy().add_expression(Expression::from_term(term.copy()));
    let _ = polynomial.copy().add_expression(expression.copy());
    let _ = polynomial.copy().sub_expression(se());
    let _ = polynomial.copy().sub_expression(ye());
    let _ = polynomial.copy().sub_expression(Expression::from_term(term.copy()));
    let _ = polynomial.copy().sub_expression(expression.copy());
    let _ = polynomial.copy().mul_expression(se());
    let _ = polynomial.copy().mul_expression(ye());
    let _ = polynomial.copy().mul_expression(Expression::from_term(term.copy()));
    let _ = polynomial.copy().mul_expression(expression.copy());
    let _ = polynomial.copy().div_term(st());
    let _ = polynomial.copy().div_term(y.pow(1));
    let _ = polynomial.copy().div_term(Term::from_variable(y));
    let _ = polynomial.copy().add(polynomial.copy());
    let _ = polynomial.copy().sub(polynomial.copy());
    let _ = polynomial.copy().mul(polynomial.copy());
    let _ = polynomial.copy().div(polynomial.copy());

    // a scalar with everything
    let _ = scalar.neg();
    let _ = scalar.add(scalar);
    let _ = se().add(ye());
    let _ = se().add(Expression::from_term(term.copy()));
    let _ = se().add(expression.copy());
    let _ = rt(st()).add(rational.copy());
    let _ = scalar.sub(scalar);
    let _ = se().sub(ye());
    let _ = se().sub(Expression::from_term(term.copy()));
    let _ = se().sub(expression.copy());
    let _ = rt(st()).sub(rational.copy());
    let _ = scalar.mul(scalar);
    let _ = st().mul(y.pow(1));
    let _ = st().mul(term.copy());
    let _ = expression.copy().mul_term(&st());
    let _ = rt(st()).mul(rational.copy());
    let _ = scalar.div(scalar);
    let _ = st().div(y.pow(1));
    let _ = st().div(term.copy());
    let _ = rt(st()).div(rx(expression.copy()));
    let _ = rt(st()).div(rational.copy());

    // an integer with everything
    let five = || Expression::from_integer(5);
    let _ = five().add(ye());
    let _ = five().add(Expression::from_term(term.copy()));
    let _ = five().add(expression.copy());
    let _ = rx(five()).add(rational.copy());
    let _ = five().sub(ye());
    let _ = five().sub(Expression::from_term(term.copy()));
    let _ = five().sub(expression.copy());
    let _ = rx(five()).sub(rational.copy());
    let _ = Term::from_integer(5).mul(y.pow(1));
    let _ = Term::from_integer(5).mul(term.copy());
    let _ = expression.copy().mul_term(&Term::from_integer(5));
    let _ = rx(five()).mul(rational.copy());
    let _ = Term::from_integer(5).div(y.pow(1));
    let _ = Term::from_integer(5).div(term.copy());
    let _ = rx(five()).div(rx(expression.copy()));
    let _ = rx(five()).div(rational.copy());

    // the same in place
    let mut term_assign = term.copy();
    term_assign = term_assign.mul(st()).mul(x.pow(1)).mul(term.copy());
    term_assign = term_assign.div(st()).div(x.pow(1)).div(term.copy());
    assert_eq!(term_assign, term);

    let mut expression_assign = expression.copy();
    expression_assign = expression_assign.add(se()).add(xe());
    expression_assign.add_term(term.copy());
    expression_assign = expression_assign.add(expression.copy());
    expression_assign = expression_assign.mul_term(&st()).mul_term(&x.pow(1)).mul_term(&term);
    expression_assign = expression_assign.mul(expression.copy());
    expression_assign = expression_assign.sub(se()).sub(xe());
    expression_assign.sub_term(term.copy());
    expression_assign = expression_assign.sub(expression.copy());
    let _ = expression_assign.div_term(&st()).div_term(&x.pow(1)).div_term(&term);

    let mut polynomial_assign = polynomial.copy();
    polynomial_assign = polynomial_assign.add(polynomial.copy());
    polynomial_assign = polynomial_assign.sub(polynomial.copy());
    polynomial_assign = polynomial_assign.mul(polynomial.copy());
    assert!(polynomial_assign.equals(&polynomial.copy().mul(polynomial)));
}
