use tiny_symbolic::{rational_lcm, Expression, Rational, Term, Variable};

fn var(name: char) -> Variable {
    Variable::new(name, None)
}

#[test]
fn test_i64_scalar_operator_support_coverage() {
    let x = var('x');
    let y = var('y');
    let expression = Expression::from_variable(x).add(Expression::from_variable(y));
    let term = x.pow(2);

    let add_variable = Expression::from_integer(3).add(Expression::from_variable(x));
    let mul_variable = Term::from_integer(2).mul(x.pow(1));
    let add_term = Expression::from_integer(3).add(Expression::from_term(term.copy()));
    let mul_term = Term::from_integer(2).mul(term.copy());
    let add_expression = Expression::from_integer(3).add(expression.copy());
    let mul_expression = expression.copy().mul_term(&Term::from_integer(2));
    let sub_variable = Expression::from_integer(3).sub(Expression::from_variable(x));
    let div_variable = Term::from_integer(3).div(x.pow(1));
    let sub_term = Expression::from_integer(3).sub(Expression::from_term(term.copy()));
    let div_term = Term::from_integer(3).div(term.copy());
    let sub_expression = Expression::from_integer(3).sub(expression);

    assert_eq!(add_variable.to_string(), "3 + x");
    assert_eq!(mul_variable.to_string(), "2x");
    assert_eq!(add_term.to_string(), "3 + x²");
    assert_eq!(mul_term.to_string(), "2x²");
    assert_eq!(add_expression.to_string(), "3 + x + y");
    assert_eq!(mul_expression.to_string(), "2x + 2y");
    assert_eq!(sub_variable.to_string(), "3 - x");
    assert_eq!(div_variable.to_string(), "3x⁻¹");
    assert_eq!(sub_term.to_string(), "3 - x²");
    assert_eq!(div_term.to_string(), "3x⁻²");
    assert_eq!(sub_expression.to_string(), "3 - x - y");
}

#[test]
fn test_rational_lcm() {
    let a = Rational::new(2, 7);
    let b = Rational::new(3, 14);
    let c = Rational::new(5, 3);
    let lcm = rational_lcm(&rational_lcm(&a, &b), &c);
    assert_eq!(lcm, Rational::new(30, 1));

    let b = Rational::new(3, 4);
    let c = Rational::new(3, 2);
    let lcm = rational_lcm(&b, &c);
    assert_eq!(lcm, Rational::new(3, 2));
}

#[test]
fn rational_lcm_is_symmetric() {
    let a = Rational::new(4, 9);
    let b = Rational::new(6, 15);
    assert_eq!(rational_lcm(&a, &b), rational_lcm(&b, &a));
    assert_eq!(rational_lcm(&a, &b), Rational::new(12, 3));
}

#[test]
fn rational_arithmetic() {
    let half = Rational::new(1, 2);
    let third = Rational::new(1, 3);
    assert_eq!(half.add(third), Rational::new(5, 6));
    assert_eq!(half.sub(third), Rational::new(1, 6));
    assert_eq!(half.mul(third), Rational::new(1, 6));
    assert_eq!(half.div(third), Rational::new(3, 2));
    assert_eq!(half.neg(), Rational::new(-1, 2));
    assert_eq!(third.pow(-2), Rational::new(9, 1));
    assert_eq!(Rational::new(6, -4).to_string(), "-3/2");
    assert_eq!(Rational::new(6, 3).to_string(), "2");
    assert_eq!(Rational::new(6, -4).numer(), -3);
    assert_eq!(Rational::new(6, -4).denom(), 2);
    assert!(Rational::new(0, 5).is_zero());
    assert!(Rational::new(-1, 5).is_negative());
    assert!(half.add(half.neg()).equals(&Rational::zero()));
}

#[test]
fn rational_addition_commutes() {
    let a = Rational::new(3, 8);
    let b = Rational::new(-5, 12);
    assert_eq!(a.add(b), b.add(a));
}

#[test]
fn expression_addition_commutes_and_cancels() {
    let x = Expression::from_variable(var('x'));
    let y = Expression::from_term(var('y').pow(2));
    assert_eq!(x.copy().add(y.copy()), y.copy().add(x.copy()));
    assert!(x.copy().sub(x.copy()).is_zero());
    assert_eq!(x.copy().neg().neg(), x);
}
