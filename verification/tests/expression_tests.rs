use tiny_symbolic::{Expression, Rational, Term, Variable};

fn var(name: char) -> Variable {
    Variable::new(name, None)
}

fn ex(v: Variable) -> Expression {
    Expression::from_variable(v)
}

fn ratio(n: i64, d: i64) -> Term {
    Term::from_rational(Rational::new(n, d))
}

fn x_plus_y() -> Expression {
    ex(var('x')).add(ex(var('y')))
}

#[test]
fn test_basic() {
    let vp1 = Variable::new('x', Some(2)).pow(6);
    let vp2 = Variable::new('y', None).pow(4);

    let expr = Expression::from_term(vp1).add(Expression::from_term(vp2));

    assert_eq!(expr.to_string(), "x₂⁶ + y⁴");
}

#[test]
fn test_expression_operator_coverage() {
    let x = var('x');
    let x_term = x.pow(2);

    let sum = x_plus_y().add(Expression::from_term(x_term));
    let difference = x_plus_y().sub(ex(x));
    let product = x_plus_y().mul_term(&x.pow(1));
    let quotient = x_plus_y().div_term(&x.pow(1));

    let scalar_sum = x_plus_y().add(Expression::from_rational(Rational::new(3, 1)));
    let scalar_difference = x_plus_y().sub(Expression::from_rational(Rational::new(3, 1)));
    let scalar_product = x_plus_y().mul_term(&ratio(2, 1));
    let scalar_quotient = x_plus_y().div_term(&ratio(2, 1));

    assert_eq!(sum.to_string(), "x + x² + y");
    assert_eq!(difference.to_string(), "y");
    assert_eq!(product.to_string(), "xy + x²");
    assert_eq!(quotient.to_string(), "1 + x⁻¹y");

    assert_eq!(scalar_sum.to_string(), "3 + x + y");
    assert_eq!(scalar_difference.to_string(), "-3 + x + y");
    assert_eq!(scalar_product.to_string(), "2x + 2y");
    assert_eq!(scalar_quotient.to_string(), "(1/2)x + (1/2)y");
}

#[test]
fn test_expression_assignment_and_helper_traits() {
    let x = var('x');
    let x_term = x.pow(2);

    let summed = x_plus_y().add(Expression::from_term(x_term.copy()));
    let negated = x_plus_y().neg();

    let mut add_assign_term = x_plus_y();
    add_assign_term.add_term(x_term.copy());

    let add_assign_expression = x_plus_y().add(x_plus_y());
    let add_assign_scalar = x_plus_y().add(Expression::from_rational(Rational::new(3, 1)));
    let mul_assign_variable = x_plus_y().mul_term(&x.pow(1));
    let mul_assign_scalar = x_plus_y().mul_term(&ratio(2, 1));
    let mul_assign_expression = x_plus_y().mul(x_plus_y());

    let mut sub_assign_variable = x_plus_y();
    sub_assign_variable.sub_term(x.pow(1));

    let sub_assign_scalar = x_plus_y().sub(Expression::from_rational(Rational::new(3, 1)));
    let sub_assign_expression = x_plus_y().sub(x_plus_y());
    let div_assign_variable = x_plus_y().div_term(&x.pow(1));
    let div_assign_term = x_plus_y().div_term(&x_term);
    let div_assign_scalar = x_plus_y().div_term(&ratio(2, 1));
    let scalar_sub_expression = Expression::from_rational(Rational::new(3, 1)).sub(x_plus_y());

    assert_eq!(summed.to_string(), "x + x² + y");
    assert_eq!(negated.to_string(), "-x - y");
    assert_eq!(add_assign_term.to_string(), "x + x² + y");
    assert_eq!(add_assign_expression.to_string(), "2x + 2y");
    assert_eq!(add_assign_scalar.to_string(), "3 + x + y");
    assert_eq!(mul_assign_variable.to_string(), "xy + x²");
    assert_eq!(mul_assign_scalar.to_string(), "2x + 2y");
    assert_eq!(mul_assign_expression.to_string(), "2xy + x² + y²");
    assert_eq!(sub_assign_variable.to_string(), "y");
    assert_eq!(sub_assign_scalar.to_string(), "-3 + x + y");
    assert_eq!(sub_assign_expression.to_string(), "0");
    assert_eq!(div_assign_variable.to_string(), "1 + x⁻¹y");
    assert_eq!(div_assign_term.to_string(), "x⁻²y + x⁻¹");
    assert_eq!(div_assign_scalar.to_string(), "(1/2)x + (1/2)y");
    assert_eq!(scalar_sub_expression.to_string(), "3 - x - y");
}

#[test]
fn test_moderate() {
    let vp1 = Variable::new('y', Some(2)).pow(3);
    let vp2 = Variable::new('x', Some(1)).pow(4);

    let term = vp1.mul(vp2.copy()).mul(ratio(3, 2));
    let expr = Expression::from_term(term).add(Expression::from_term(vp2.copy()));

    assert!(expr.contains_term(&vp2));
    assert!(expr.contains_variable(&Variable::new('x', Some(1))));
    assert!(expr.contains_variable(&Variable::new('y', Some(2))));
}

#[test]
fn test_expression_try_into_term_empty_expression_returns_zero() {
    let expression = Expression::zero();

    let term: Term = expression.try_into_term().unwrap();

    assert_eq!(term.to_string(), "0");
}

#[test]
fn test_expression_mul_assign_expression_branch() {
    let x = var('x');
    let y = var('y');
    let mut expression = ex(x).add(ex(y));

    expression = expression.mul(ex(x).add(ex(y)));

    assert_eq!(expression.to_string(), "2xy + x² + y²");

    let z = Term::from_integer(2).mul(Variable::new('z', None).pow(1));
    expression = expression.mul_term(&z);

    assert_eq!(expression.to_string(), "4xyz + 2x²z + 2y²z");

    expression.add_term(Term::from_variable(Variable::new('z', None)));

    assert_eq!(expression.to_string(), "4xyz + 2x²z + 2y²z + z");
}

#[test]
fn test_expression_substitute_variable_power_with_expression() {
    let x = var('x');
    let y = var('y');
    let expression = Expression::from_term(x.pow(4)).add(ex(y));

    let substituted =
        expression.substitute_variable_power_with_expression(x, 2, Expression::from_term(y.pow(2)));

    assert_eq!(substituted.to_string(), "y + y⁴");
}

#[test]
fn test_expression_helper_behaviors() {
    let x = var('x');
    let y = var('y');
    let scalar_expression = Expression::from_rational(Rational::new(3, 1));
    let divisible_expression = Expression::from_term(x.pow(2).mul(y.pow(1))).add(ex(x));
    let multi_term_expression = x_plus_y();

    assert!(Expression::zero().is_scalar());
    assert!(scalar_expression.is_scalar());
    assert!(scalar_expression.is_term());
    assert_eq!(scalar_expression.try_into_term().unwrap().to_string(), "3");
    assert!(divisible_expression.is_divisible_by(&x.pow(1)));
    assert!(!divisible_expression.is_divisible_by(&x.pow(3)));
    assert!(!multi_term_expression.is_term());
    assert!(multi_term_expression.try_into_term().is_err());
}

#[test]
fn test_complex() {
    let vp1 = var('x');
    let vp2 = var('y');

    let expr = ex(vp1).sub(Expression::from_term(vp1.pow(1).div(vp2.pow(1))));

    assert!(expr.contains_variable(&vp1));
    assert!(expr.contains_variable(&vp2));
    assert!(!expr.is_zero());
}

#[test]
fn expression_test_to_print_sympy() {
    let x = var('x');
    let y = var('y');
    let z = var('z');
    let expression = Expression::from_term(x.pow(2).mul(y.pow(3)).mul(Term::from_integer(4))).add(ex(z));

    assert!(expression.to_string_sympy() == "4*(x**2)*(y**3) + z");
}

#[test]
fn expression_power() {
    let x = var('x');
    let y = var('y');
    assert_eq!(Expression::from_integer(2).pow(0).to_string(), "1");
    assert_eq!(Expression::from_term(x.pow(2)).pow(-3).to_string(), "x⁻⁶");
    assert_eq!(x_plus_y().pow(2).to_string(), "2xy + x² + y²");
    assert_eq!(ex(y).pow(1).to_string(), "y");
}

#[test]
fn expression_substitute_multiple_variables() {
    let x = var('x');
    let y = var('y');
    let z = var('z');
    let expression = Expression::from_term(x.pow(4)).add(ex(y));

    let substituted = expression.substitute_multiple_variables_with_expressions(vec![
        (x, Expression::from_integer(2).add(Expression::from_term(y.pow(2)))),
        (y, Expression::from_integer(2).add(Expression::from_term(z.pow(2)))),
    ]);

    assert_eq!(substituted.to_string(), "18 + 32y² + 24y⁴ + 8y⁶ + y⁸ + z²");
}

#[test]
fn expression_derivatives() {
    let x = var('x');
    let y = var('y');
    let e = Expression::from_term(x.pow(3).mul(y.pow(1))).add(Expression::from_term(x.pow(2)));
    assert_eq!(e.derivative(&x).to_string(), "2x + 3x²y");
    assert_eq!(e.nth_derivative(2, &x).to_string(), "2 + 6xy");
    assert_eq!(e.derivative(&var('w')).to_string(), "0");
}

#[test]
fn expression_equality_and_single_term() {
    let a = x_plus_y();
    let b = ex(var('y')).add(ex(var('x')));
    assert!(a.equals(&b));
    assert_eq!(a, b);
    assert!(!a.equals(&Expression::zero()));
    assert_eq!(a.len(), 2);
    assert_eq!(a.terms().len(), 2);
    assert_eq!(Expression::one().to_single_term().to_string(), "1");
    assert!(Expression::zero().is_zero());
    assert_eq!(Expression::zero().to_string(), "0");
}

#[test]
fn expression_with_several_terms_is_no_term() {
    let err = x_plus_y().try_into_term().unwrap_err();
    assert_eq!(err, "Cannot be reduced to a term!");
}
