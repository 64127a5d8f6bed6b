use tiny_symbolic::operations::derivative::PartialDerivative;
use tiny_symbolic::{Expression, Rational, RationalExpression, Term, Variable};

fn var(name: char) -> Variable {
    Variable::new(name, None)
}

fn ex(v: Variable) -> Expression {
    Expression::from_variable(v)
}

fn num(n: i64) -> Expression {
    Expression::from_integer(n)
}

fn rational(numerator: i64, denominator: i64) -> RationalExpression {
    RationalExpression::new(num(numerator), num(denominator))
}

fn same(a: &RationalExpression, b: &RationalExpression) {
    assert!(a.equals(b), "{} is not {}", a.to_string(), b.to_string());
}

#[test]
fn test_rational_expression_operators() {
    let first = rational(1, 2);
    let second = rational(1, 3);

    same(&first.copy().add(second.copy()), &rational(5, 6));
    same(&first.copy().sub(second.copy()), &rational(1, 6));
    same(&first.copy().mul(second.copy()), &rational(1, 6));
    same(&first.div(second), &rational(3, 2));
}

#[test]
fn test_rational_expression_operators_with_expression_operands() {
    let x = var('x');
    let expression = ex(x).add(num(1));
    let rational_expression = rational(2, 3);

    same(
        &rational_expression.copy().sub(RationalExpression::from_expression(expression.copy())),
        &RationalExpression::new(num(2).sub(expression.copy().mul(num(3))), num(3)),
    );
    same(
        &rational_expression.copy().mul(RationalExpression::from_expression(expression.copy())),
        &RationalExpression::new(num(2).mul(expression.copy()), num(3)),
    );
    same(
        &rational_expression.div(RationalExpression::from_expression(expression.copy())),
        &RationalExpression::new(num(2), num(3).mul(expression)),
    );
}

#[test]
fn test_rational_expression_operators_with_symbolic_expressions() {
    let x = var('x');
    let y = var('y');
    let sum = ex(x).add(ex(y));
    let x_squared = Expression::from_term(x.pow(2));

    let first = RationalExpression::new(sum.copy(), ex(x));
    let second = RationalExpression::new(x_squared.copy(), ex(y));

    same(
        &first.copy().add(second.copy()),
        &RationalExpression::new(
            sum.copy().mul(ex(y)).add(x_squared.copy().mul(ex(x))),
            ex(x).mul(ex(y)),
        ),
    );
    same(
        &first.copy().sub(second.copy()),
        &RationalExpression::new(
            sum.copy().mul(ex(y)).sub(x_squared.copy().mul(ex(x))),
            ex(x).mul(ex(y)),
        ),
    );
    same(
        &first.copy().mul(second.copy()),
        &RationalExpression::new(sum.copy().mul(x_squared.copy()), ex(x).mul(ex(y))),
    );
    same(
        &first.div(second),
        &RationalExpression::new(sum.mul(ex(y)), ex(x).mul(x_squared)),
    );
}

#[test]
fn test_rational_expression_operators_with_full_expression_denominators() {
    let x = var('x');
    let y = var('y');
    let first_numerator = ex(x).add(num(1));
    let first_denominator = ex(y).add(num(2));
    let second_numerator = ex(x).mul(ex(y)).add(num(1));
    let second_denominator = ex(x).add(ex(y));
    let first = RationalExpression::new(first_numerator.copy(), first_denominator.copy());
    let second = RationalExpression::new(second_numerator.copy(), second_denominator.copy());

    same(
        &first.copy().add(second.copy()),
        &RationalExpression::new(
            first_numerator
                .copy()
                .mul(second_denominator.copy())
                .add(second_numerator.copy().mul(first_denominator.copy())),
            first_denominator.copy().mul(second_denominator.copy()),
        ),
    );
    same(
        &first.copy().sub(second.copy()),
        &RationalExpression::new(
            first_numerator
                .copy()
                .mul(second_denominator.copy())
                .sub(second_numerator.copy().mul(first_denominator.copy())),
            first_denominator.copy().mul(second_denominator.copy()),
        ),
    );
    same(
        &first.copy().mul(second.copy()),
        &RationalExpression::new(
            first_numerator.copy().mul(second_numerator.copy()),
            first_denominator.copy().mul(second_denominator.copy()),
        ),
    );
    same(
        &first.div(second),
        &RationalExpression::new(
            first_numerator.mul(second_denominator),
            first_denominator.mul(second_numerator),
        ),
    );
}

#[test]
fn test_inverse_and_dissolve_with_full_expressions() {
    let x = var('x');
    let y = var('y');
    let numerator = ex(x).add(ex(y));
    let denominator = Expression::from_term(x.pow(2)).add(num(1));
    let expression = RationalExpression::new(numerator.copy(), denominator.copy());

    same(
        &expression.copy().inverse(),
        &RationalExpression::new(denominator.copy(), numerator.copy()),
    );
    let (n, d) = expression.dissolve_into_numerator_and_denominator();
    assert_eq!((n, d), (numerator, denominator));
}

#[test]
fn test_is_zero() {
    assert!(RationalExpression::new(num(0), ex(var('x')).add(num(1))).is_zero());
    assert!(!RationalExpression::new(ex(var('x')).add(num(1)), num(2)).is_zero());
}

#[test]
fn test_contains_variable_and_is_scalar() {
    let x = var('x');
    let y = Variable::new('y', Some(3));
    let z = var('z');
    let expression =
        RationalExpression::new(ex(x).add(ex(y)), Expression::from_term(x.pow(2)).add(num(1)));

    assert!(expression.contains_variable(&x));
    assert!(expression.contains_variable(&y));
    assert!(!expression.contains_variable(&z));
    assert!(!expression.is_scalar());
    assert!(rational(2, 3).is_scalar());
}

#[test]
fn test_rational_expression_string_representations() {
    let x = var('x');
    let y = Variable::new('y', Some(3));
    let expression =
        RationalExpression::new(ex(x).add(ex(y)), Expression::from_term(x.pow(2)).add(num(1)));

    assert_eq!(expression.to_string(), "(x + y₃)/(1 + x²)");
    assert_eq!(expression.to_string_sympy(), "(x + y_3)/(1 + x**2)");
    assert_eq!(
        expression.copy().pow(2).to_string(),
        "(2xy₃ + x² + y₃²)/(1 + 2x² + x⁴)"
    );
    assert_eq!(
        expression.pow(-2).to_string_sympy(),
        "(1 + 2*(x**2) + x**4)/(2*x*y_3 + x**2 + y_3**2)"
    );
}

#[test]
fn test_rational_expression_pow() {
    let x = var('x');
    let numerator = ex(x).add(num(1));
    let denominator = Expression::from_term(x.pow(2)).add(num(2));
    let expression = RationalExpression::new(numerator.copy(), denominator.copy());

    same(
        &expression.copy().pow(2),
        &RationalExpression::new(numerator.copy().pow(2), denominator.copy().pow(2)),
    );
    same(&expression.copy().pow(0), &RationalExpression::zero());
    same(
        &expression.pow(-2),
        &RationalExpression::new(denominator.pow(2), numerator.pow(2)),
    );
}

#[test]
fn test_rational_expression_from_term() {
    let w = var('w');
    let x = var('x');
    let y = var('y');
    let z = var('z');
    let term = w
        .pow(-2)
        .mul(y.pow(3))
        .mul(x.pow(-7))
        .mul(z.pow(4))
        .mul(Term::from_rational(Rational::new(7, 5)));

    let rational_expression = RationalExpression::from_term(term);

    assert_eq!(
        rational_expression.change_to_positive_power().to_string(),
        "((7/5)y³z⁴)/(w²x⁷)"
    );
}

#[test]
fn test_rational_expression_from_expression() {
    let w = var('w');
    let x = var('x');
    let y = var('y');
    let z = var('z');
    let expression = Expression::from_term(
        w.pow(-2).mul(z.pow(-7)).mul(Term::from_rational(Rational::new(2, 7))),
    )
    .add(Expression::from_term(
        y.pow(3).mul(x.pow(-7)).mul(Term::from_rational(Rational::new(3, 14))),
    ))
    .add(Expression::from_term(
        x.pow(5).mul(z.pow(-4)).mul(Term::from_rational(Rational::new(5, 3))),
    ));

    let rational_expression = RationalExpression::new(expression.copy(), expression.pow(2));

    assert_eq!(
        rational_expression.copy().change_to_positive_power().to_string(),
        "((2/7)w²x¹⁴z⁷ + (3/14)w⁴x⁷y³z¹⁴ + (5/3)w⁴x¹⁹z¹⁰)/((6/49)w²x⁷y³z⁷ + (20/21)w²x¹⁹z³ + (5/7)w⁴x¹²y³z¹⁰ + (25/9)w⁴x²⁴z⁶ + (9/196)w⁴y⁶z¹⁴ + (4/49)x¹⁴)"
    );

    assert_eq!(
        rational_expression.change_to_negative_power().to_string(),
        "((2/7)w⁻²x⁻⁵y⁻³z⁻⁷ + (3/14)x⁻¹² + (5/3)y⁻³z⁻⁴)/((4/49)w⁻⁴x⁻⁵y⁻³z⁻¹⁴ + (6/49)w⁻²x⁻¹²z⁻⁷ + (20/21)w⁻²y⁻³z⁻¹¹ + (9/196)x⁻¹⁹y³ + (5/7)x⁻⁷z⁻⁴ + (25/9)x⁵y⁻³z⁻⁸)"
    );
}

#[test]
fn test_rational_expression_partial_derivative() {
    let x = var('x');
    let numerator = Expression::from_term(x.pow(2)).add(num(1));
    let denominator = ex(x).add(num(1));
    let expression = RationalExpression::new(numerator.copy(), denominator.copy());

    let derivative = expression.calculate_derivate_wrt_variable(&x);
    let expected = RationalExpression::new(
        numerator
            .copy()
            .calculate_derivate_wrt_variable(&x)
            .mul(denominator.copy())
            .sub(numerator.copy().mul(denominator.copy().calculate_derivate_wrt_variable(&x))),
        denominator.pow(2),
    );

    same(&derivative, &expected);
    assert_eq!(derivative.to_string(), "(-1 + 2x + x²)/(1 + 2x + x²)");
}

#[test]
fn test_rational_expression_equality() {
    let x = var('x');
    let y = var('y');
    let sum = ex(x).add(ex(y));

    let rational_expression_v1 = RationalExpression::new(
        sum.copy().mul_term(&Term::from_rational(Rational::new(4, 3))),
        sum.copy().pow(2),
    );

    let rational_expression_v2 = RationalExpression::new(
        num(1),
        sum.mul_term(&Term::from_rational(Rational::new(3, 4))),
    );

    same(&rational_expression_v1, &rational_expression_v2);
}

#[test]
fn rational_expression_inequality_is_detected() {
    assert!(!rational(1, 2).equals(&rational(1, 3)));
}

#[test]
fn rational_expression_try_into_expression() {
    let x = var('x');
    let whole = RationalExpression::new(ex(x).mul_term(&Term::from_integer(4)), num(2));
    assert_eq!(whole.try_into_expression().unwrap().to_string(), "2x");

    let by_term = RationalExpression::new(ex(x).add(num(1)), ex(x));
    assert_eq!(by_term.try_into_expression().unwrap().to_string(), "1 + x⁻¹");

    let fraction = RationalExpression::new(num(1), ex(x).add(num(1)));
    assert!(fraction.try_into_expression().is_err());
}

#[test]
fn rational_expression_negation_and_substitution() {
    let x = var('x');
    let y = var('y');
    let r = RationalExpression::new(ex(x), ex(y).add(num(1)));
    assert_eq!(r.copy().neg().to_string(), "(-x)/(1 + y)");

    let substituted = r.substitute_multiple_variables_with_expressions(vec![(y, num(1))]);
    assert_eq!(substituted.to_string(), "(x)/(2)");
}

#[test]
fn fraction_over_a_sum_is_no_expression() {
    let x = var('x');
    let err = RationalExpression::new(num(1), ex(x).add(num(1))).try_into_expression().unwrap_err();
    assert_eq!(err, "Cannot be reduced to a expression!");
}
