use tiny_symbolic::{Expression, Rational, Term, Variable};

fn var(name: char) -> Variable {
    Variable::new(name, None)
}

fn num(n: i64) -> Term {
    Term::from_integer(n)
}

fn ratio(n: i64, d: i64) -> Term {
    Term::from_rational(Rational::new(n, d))
}

#[test]
fn test_term_divisibility() {
    let x = var('x');
    let y = var('y');
    let z = var('z');
    let term = num(4).mul(x.pow(4)).mul(y.pow(1)).mul(z.pow(5));

    let divisible = term.is_divisible_by(&x.pow(2));
    let not_divisible = term.is_divisible_by(&x.pow(5));

    assert!(divisible);
    assert!(!not_divisible);
}

#[test]
fn test_term_sympy_formatting() {
    let x = var('x');
    let y = var('y');
    let term = x.pow(1).mul(y.pow(2));

    assert_eq!(term.to_string_sympy(), "x*(y**2)");
    assert_eq!(num(2).mul(term.copy()).to_string_sympy(), "2*x*(y**2)");
    assert_eq!(ratio(4, 3).mul(term.copy()).to_string_sympy(), "(4/3)*x*(y**2)");

    let term = x.pow(2).mul(y.pow(3));
    assert_eq!(term.to_string_sympy(), "(x**2)*(y**3)");

    let term = x.pow(2);
    assert_eq!(term.to_string_sympy(), "x**2");

    let termsub = Variable::new('z', Some(1)).pow(1).mul(term);
    assert_eq!(termsub.to_string_sympy(), "(x**2)*z_1");
}

#[test]
fn test_term_mul_assign_zero_cancellation() {
    let x = var('x');
    let term = x.pow(2).mul(x.pow(-2));

    assert_eq!(term.to_string(), "1");
}

#[test]
fn test_term_remove_variables_and_scalar_behavior() {
    let x = var('x');
    let y = var('y');
    let mut term = x.pow(2).mul(y.pow(3)).mul(num(4));

    let residue = term.remove_variables(&vec![x]);
    let scalar = num(7);

    assert_eq!(residue, x.pow(2));
    assert!(scalar.is_scalar());
    assert!(term.contains_variable(&y));
    assert!(!term.contains_variable(&x));
}

#[test]
fn test_term_lcm() {
    let w = var('w');
    let x = var('x');
    let y = var('y');
    let z = var('z');
    let terms = vec![
        w.pow(-2).mul(z.pow(-7)).mul(ratio(2, 7)),
        y.pow(3).mul(x.pow(-7)).mul(ratio(3, 14)),
        x.pow(5).mul(z.pow(-4)).mul(ratio(5, 3)),
    ];

    let lcm = Term::lcm(terms);
    let expected = ratio(2, 7)
        .mul(ratio(3, 14))
        .mul(ratio(5, 3))
        .mul(w.pow(-2))
        .mul(y.pow(3))
        .mul(x.pow(5))
        .mul(z.pow(-4));
    assert_eq!(lcm.to_string(), expected.to_string());
}

#[test]
fn term_creation_and_power() {
    let x = var('x');
    let term = x.pow(3).mul(num(2));

    assert_eq!(term.multiplier(), Rational::new(2, 1));
    assert!(term.contains_variable(&x));
    assert_eq!(term.get_power_of_variable(&x), 3);
    assert!(!term.is_scalar());
    assert_eq!(term.copy().pow(2).to_string(), "4x⁶");
    assert_eq!(term.pow(-1).to_string(), "(1/2)x⁻³");
    assert_eq!(num(5).pow(0).to_string(), "1");
}

#[test]
fn term_operator_results() {
    let x = var('x');
    let y = var('y');
    let xy = x.pow(1).mul(y.pow(1));
    let x_squared = x.pow(2);

    assert_eq!(xy.copy().mul(x.pow(1)).to_string(), "x²y");
    assert_eq!(x_squared.copy().div(y.pow(1)).to_string(), "x²y⁻¹");
    assert_eq!(x_squared.copy().div(x_squared.copy()).to_string(), "1");
    assert_eq!(xy.copy().mul(ratio(2, 1)).to_string(), "2xy");
    assert_eq!(xy.copy().mul(ratio(0, 1)).to_string(), "0");
    assert_eq!(xy.copy().mul(ratio(0, 1)).multiplier(), Rational::new(0, 1));
    assert_eq!(xy.copy().div(ratio(2, 1)).to_string(), "(1/2)xy");
    assert_eq!(ratio(3, 1).div(xy.copy()).to_string(), "3x⁻¹y⁻¹");
    assert_eq!(xy.copy().neg().to_string(), "-1xy");

    let sum = Expression::from_term(xy.copy()).add(Expression::from_term(x_squared.copy()));
    assert_eq!(sum.to_string(), "xy + x²");
    let difference = Expression::from_term(x_squared.copy()).sub(Expression::from_variable(y));
    assert_eq!(difference.to_string(), "x² - y");
    let scalar_minus_term = Expression::from_integer(3).sub(Expression::from_term(xy));
    assert_eq!(scalar_minus_term.to_string(), "3 - xy");
}

#[test]
fn term_substitution_with_terms() {
    let x = var('x');
    let y = var('y');
    let z = var('z');
    let term = num(4).mul(x.pow(4)).mul(y.pow(1));

    let substituted = term.substitute_variable_power_with_term(x, 3, num(5).mul(z.pow(2)));
    assert_eq!(substituted.to_string(), "20xyz²");

    let term = num(3).mul(x.pow(4)).mul(y.pow(1)).mul(z.pow(3));
    let substituted = term.substitute_multiple_variables_with_terms(vec![
        (y, x.pow(5)),
        (z, ratio(7, 8).mul(x.pow(4))),
    ]);
    assert_eq!(substituted.to_string(), "(1029/512)x²¹");
}

#[test]
fn term_substitution_with_expressions() {
    let x = var('x');
    let y = var('y');
    let z = var('z');
    let term = num(4).mul(x.pow(4)).mul(y.pow(1));

    let subst = Expression::from_term(num(5).mul(z.pow(2))).add(Expression::from_variable(z));
    let substituted = term.substitute_variable_power_with_expression(x, 3, subst);
    assert_eq!(substituted.to_string(), "4xyz + 20xyz²");

    let term = num(3).mul(x.pow(4)).mul(y.pow(1)).mul(z.pow(3));
    let substituted = term.substitute_multiple_variables_with_expressions(vec![
        (y, Expression::from_term(x.pow(5)).add(Expression::from_variable(x))),
        (
            z,
            Expression::from_term(ratio(7, 8).mul(x.pow(4))).add(Expression::from_variable(x)),
        ),
    ]);
    assert_eq!(
        substituted.to_string(),
        "3x⁸ + (63/8)x¹¹ + 3x¹² + (441/64)x¹⁴ + (63/8)x¹⁵ + (1029/512)x¹⁷ + (441/64)x¹⁸ + (1029/512)x²¹"
    );
}

#[test]
fn term_derivatives() {
    let x = var('x');
    let y = var('y');
    let term = num(3).mul(x.pow(4)).mul(y.pow(2));

    assert_eq!(term.derivative(&x).to_string(), "12x³y²");
    assert_eq!(term.nth_derivative(2, &x).to_string(), "36x²y²");
    assert_eq!(term.nth_derivative(5, &x).to_string(), "0");
    assert_eq!(term.derivative(&var('z')).to_string(), "0");
    assert_eq!(x.pow(-1).derivative(&x).to_string(), "-1x⁻²");
}

#[test]
fn term_divisibility_by_variable_power() {
    let x = var('x');
    let term = num(2).mul(x.pow(3));
    assert!(term.is_divisible_by_variable_power(x, 3));
    assert!(!term.is_divisible_by_variable_power(x, 4));
}

#[test]
fn term_equality_ignores_construction_order() {
    let x = var('x');
    let y = var('y');
    let a = x.pow(2).mul(y.pow(1));
    let b = y.pow(1).mul(x.pow(2));
    assert!(a.equals(&b));
    assert_eq!(a, b);
    assert!(!a.equals(&x.pow(2)));
}

#[test]
fn term_never_converts_into_a_variable() {
    let x = var('x');
    assert!(Term::from_variable(x).try_into_variable().is_err());
    assert!(num(3).mul(x.pow(2)).try_into_variable().is_err());
    assert!(Term::one().try_into_variable().is_err());
}

#[test]
fn term_conversion_error_message() {
    let err = Term::from_variable(var('x')).try_into_variable().unwrap_err();
    assert_eq!(err, "Cannot be reduced to a variable!");
}
