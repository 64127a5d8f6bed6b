use tiny_symbolic::{Expression, Rational, Term, Variable};

fn var(name: char) -> Variable {
    Variable::new(name, None)
}

fn term(v: Variable) -> Term {
    Term::from_variable(v)
}

fn scalar(n: i64, d: i64) -> Term {
    Term::from_rational(Rational::new(n, d))
}

#[test]
fn test_variable_display_and_power() {
    let x = var('x');
    let xp2 = x.pow(2);

    assert_eq!(x.to_string(), "x");
    assert_eq!(xp2.to_string(), "x²");
    assert!(xp2.contains_variable(&x));
}

#[test]
fn test_variable_operator_coverage() {
    let x = var('x');
    let y = var('y');

    let negated = term(x).neg();
    let sum = Expression::from_variable(x).add(Expression::from_variable(y));
    let difference = Expression::from_variable(x).sub(Expression::from_variable(y));
    let product = term(x).mul(term(y));
    let quotient = term(x).div(term(y));
    let quotient_by_term = term(x).div(Term::from_variable(y));

    let scalar_sum = Expression::from_variable(x).add(Expression::from_rational(Rational::new(3, 1)));
    let scalar_difference = Expression::from_variable(x).sub(Expression::from_rational(Rational::new(3, 1)));
    let scalar_product = term(x).mul(scalar(2, 1));
    let scalar_quotient = term(x).div(scalar(2, 1));
    let scalar_subtracted_by_variable = Expression::from_term(scalar(3, 1)).sub(Expression::from_variable(x));
    let scalar_divided_by_variable = scalar(3, 1).div(term(x));

    assert_eq!(negated.to_string(), "-1x");
    assert_eq!(sum.to_string(), "x + y");
    assert_eq!(difference.to_string(), "x - y");
    assert_eq!(product.to_string(), "xy");
    assert_eq!(quotient.to_string(), "xy⁻¹");
    assert_eq!(quotient_by_term.to_string(), "xy⁻¹");

    assert_eq!(scalar_sum.to_string(), "3 + x");
    assert_eq!(scalar_difference.to_string(), "-3 + x");
    assert_eq!(scalar_product.multiplier(), Rational::new(2, 1));
    assert_eq!(scalar_product.to_string(), "2x");
    assert_eq!(scalar_quotient.multiplier(), Rational::new(1, 2));
    assert_eq!(scalar_quotient.to_string(), "(1/2)x");
    assert_eq!(scalar_subtracted_by_variable.to_string(), "3 - x");
    assert_eq!(scalar_divided_by_variable.to_string(), "3x⁻¹");
}

#[test]
fn test_variable_arithmetic_conversions() {
    let x = var('x');
    let expr = Expression::from_variable(x).add(Expression::from_integer(3));
    let term = term(x).mul(Term::from_integer(2));

    assert!(expr.contains_variable(&x));
    assert!(term.contains_variable(&x));
    assert_eq!(term.multiplier(), Rational::new(2, 1));
}

#[test]
fn variable_test_to_print_sympy() {
    let x = Variable::new('x', None);
    let y = Variable::new('y', Some(3));

    assert!(x.to_string_sympy() == "x");
    assert!(y.to_string_sympy() == "y_3");
}

#[test]
fn variable_subscript_display() {
    let x = Variable::new('x', Some(12));
    assert_eq!(x.to_string(), "x₁₂");
    assert_eq!(x.to_string_sympy(), "x_12");
    assert_eq!(x.name(), 'x');
    assert_eq!(x.subscript(), Some(12));
}

#[test]
fn variable_order_is_by_name_then_subscript() {
    let a = Variable::new('a', None);
    let a1 = Variable::new('a', Some(1));
    let b = Variable::new('b', None);
    assert_eq!(a.compare(&a1), -1);
    assert_eq!(a1.compare(&b), -1);
    assert_eq!(b.compare(&a), 1);
    assert_eq!(a1.compare(&a1), 0);
}
