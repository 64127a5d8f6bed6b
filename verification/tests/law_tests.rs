use tiny_symbolic::operations::derivative::PartialDerivative;
use tiny_symbolic::{Expression, Polynomial, Rational, RationalExpression, Term, Variable};

fn var(name: char) -> Variable {
    Variable::new(name, None)
}

fn ex(v: Variable) -> Expression {
    Expression::from_variable(v)
}

fn num(n: i64) -> Expression {
    Expression::from_integer(n)
}

#[test]
fn rational_field_laws_on_values() {
    let a = Rational::new(2, 3);
    let b = Rational::new(-5, 7);
    let c = Rational::new(9, 4);
    assert_eq!(a.add(b).add(c), a.add(b.add(c)));
    assert_eq!(a.mul(b).mul(c), a.mul(b.mul(c)));
    assert_eq!(a.mul(b.add(c)), a.mul(b).add(a.mul(c)));
    assert_eq!(a.mul(b), b.mul(a));
    assert_eq!(a.add(Rational::zero()), a);
    assert_eq!(a.mul(Rational::one()), a);
    assert_eq!(b.div(b), Rational::one());
}

#[test]
fn expression_algebra_laws_on_values() {
    let (x, y, z) = (var('x'), var('y'), var('z'));
    let a = ex(x).add(num(1));
    let b = ex(y).sub(Expression::from_term(x.pow(2)));
    let c = ex(z).add(num(-3)).add(ex(x));

    assert_eq!(a.copy().add(b.copy()).add(c.copy()), a.copy().add(b.copy().add(c.copy())));
    assert_eq!(a.copy().mul(b.copy()), b.copy().mul(a.copy()));
    assert_eq!(a.copy().mul(b.copy()).mul(c.copy()), a.copy().mul(b.copy().mul(c.copy())));
    assert_eq!(
        a.copy().mul(b.copy().add(c.copy())),
        a.copy().mul(b.copy()).add(a.copy().mul(c.copy()))
    );
    assert_eq!(a.copy().add(Expression::zero()), a);
}

#[test]
fn term_multiplication_laws_on_values() {
    let (x, y) = (var('x'), var('y'));
    let a = Term::from_rational(Rational::new(3, 2)).mul(x.pow(2));
    let b = y.pow(-1);
    let c = Term::from_integer(-4).mul(x.pow(-2)).mul(y.pow(3));
    assert_eq!(a.copy().mul(b.copy()), b.copy().mul(a.copy()));
    assert_eq!(a.copy().mul(b.copy()).mul(c.copy()), a.copy().mul(b.copy().mul(c.copy())));
}

#[test]
fn rational_expression_value_is_kept_by_scaling() {
    let (x, y) = (var('x'), var('y'));
    let r = RationalExpression::new(ex(x).add(num(1)), ex(y).sub(num(2)));
    let scaled = r.copy().with_numerator_and_denominator_multiplied_by_expression(ex(x).add(ex(y)));
    assert!(scaled.equals(&r));
    assert_eq!(scaled.to_string(), "(x + xy + x² + y)/(-2x + xy - 2y + y²)");

    let with_negative = RationalExpression::new(Expression::from_term(x.pow(-2)), ex(y).add(Expression::from_term(y.pow(-1))));
    let positive = with_negative.copy().change_to_positive_power();
    assert!(positive.equals(&with_negative));
    let negative = with_negative.copy().change_to_negative_power();
    assert!(negative.equals(&with_negative));
}

#[test]
fn rational_expression_commutative_laws_on_values() {
    let x = var('x');
    let a = RationalExpression::new(ex(x), ex(x).add(num(1)));
    let b = RationalExpression::new(num(2), ex(x));
    assert!(a.copy().add(b.copy()).equals(&b.copy().add(a.copy())));
    assert!(a.copy().mul(b.copy()).equals(&b.copy().mul(a.copy())));
    assert!(a.equals(&a));
}

#[test]
fn polynomial_round_trip_through_its_expression() {
    let (x, a, b) = (var('x'), var('a'), var('b'));
    let p = Polynomial::new(x, vec![ex(b), num(0), ex(a).add(num(3))]);
    let back = Polynomial::from_expression(p.to_expression(), x);
    assert!(back.equals(&p));
    assert_eq!(back.to_string(), "(b) + (3 + a)x²");

    let zero = Polynomial::new(x, vec![num(0)]);
    assert!(Polynomial::from_expression(zero.to_expression(), x).equals(&zero));
}

#[test]
fn term_nth_derivative_is_repeated_derivative() {
    let (x, y) = (var('x'), var('y'));
    let t = Term::from_integer(5).mul(x.pow(4)).mul(y.pow(-1));
    assert_eq!(t.nth_derivative(2, &x).derivative(&x), t.nth_derivative(3, &x));
    assert_eq!(t.nth_derivative(3, &x).to_string(), "120xy⁻¹");
    let inverse = x.pow(-2);
    assert_eq!(inverse.nth_derivative(1, &x).derivative(&x), inverse.nth_derivative(2, &x));
    assert_eq!(inverse.nth_derivative(2, &x).to_string(), "6x⁻⁴");
}

#[test]
fn polynomial_multiplication_commutes() {
    let (x, a) = (var('x'), var('a'));
    let p = Polynomial::new(x, vec![ex(a), num(1)]);
    let q = Polynomial::new(x, vec![num(-1), num(0), num(2)]);
    assert!(p.copy().mul(q.copy()).equals(&q.mul(p)));
}

#[test]
fn expression_derivative_taken_repeatedly_is_the_nth_derivative() {
    let (x, y) = (var('x'), var('y'));
    let e = Expression::from_term(x.pow(5).mul(y.pow(2)))
        .add(Expression::from_term(Term::from_integer(3).mul(x.pow(-1))))
        .add(ex(y));
    assert_eq!(e.calculate_nth_derivate_wrt_variable(3, &x), e.nth_derivative(3, &x));
    assert_eq!(e.nth_derivative(3, &x).to_string(), "-18x⁻⁴ + 60x²y²");
    assert_eq!(e.calculate_nth_derivate_wrt_variable(0, &x), e);
}

#[test]
fn substituting_an_absent_variable_changes_nothing() {
    let (x, y) = (var('x'), var('y'));
    let e = Expression::from_term(x.pow(2)).add(num(1));
    let same = e.copy().substitute_multiple_variables_with_expressions(vec![(y, ex(x).add(num(5)))]);
    assert_eq!(same, e);
    assert_eq!(same.to_string(), "1 + x²");
}

#[test]
fn polynomial_addition_is_associative() {
    let (x, a) = (var('x'), var('a'));
    let p = Polynomial::new(x, vec![ex(a), num(1)]);
    let q = Polynomial::new(x, vec![num(-1), num(-1)]);
    let r = Polynomial::new(x, vec![num(2), num(0), num(3)]);
    let left = p.copy().add(q.copy()).add(r.copy());
    let right = p.add(q.add(r));
    assert!(left.equals(&right));
    assert_eq!(left.to_string(), "(1 + a) + (3)x²");
}

#[test]
fn expression_round_trip_through_its_polynomial() {
    let (x, y) = (var('x'), var('y'));
    let e = Expression::from_term(x.pow(3).mul(y.pow(-2)))
        .add(Expression::from_term(Term::from_integer(4).mul(x.pow(1))))
        .add(Expression::from_term(y.pow(5)))
        .add(num(-7));
    let back = Polynomial::from_expression(e.copy(), x).to_expression();
    assert_eq!(back, e);
    assert_eq!(back.to_string(), e.to_string());

    let constant = num(11);
    assert_eq!(Polynomial::from_expression(constant.copy(), x).to_expression(), constant);
}

#[test]
fn derivative_of_a_sum_is_the_sum_of_derivatives() {
    let (x, y) = (var('x'), var('y'));
    let a = Expression::from_term(x.pow(3).mul(y.pow(1))).add(Expression::from_term(x.pow(-2)));
    let b = Expression::from_term(Term::from_integer(-1).mul(x.pow(3)).mul(y.pow(1))).add(num(4));
    let whole = a.copy().add(b.copy()).nth_derivative(2, &x);
    let parts = a.nth_derivative(2, &x).add(b.nth_derivative(2, &x));
    assert_eq!(whole, parts);
    assert_eq!(whole.to_string(), "6x⁻⁴");
}

#[test]
fn equal_rational_expressions_chain() {
    let (x, y) = (var('x'), var('y'));
    let a = RationalExpression::new(ex(x), ex(y));
    let b = RationalExpression::new(num(2).mul(ex(x)), num(2).mul(ex(y)));
    let c = RationalExpression::new(ex(x).mul(ex(x).add(num(1))), ex(y).mul(ex(x).add(num(1))));
    assert!(a.equals(&b));
    assert!(b.equals(&c));
    assert!(a.equals(&c));
    let d = RationalExpression::new(ex(y), ex(x));
    assert!(!a.equals(&d));
}

#[test]
fn nonzero_factor_cancels_from_products() {
    let (x, y) = (var('x'), var('y'));
    let c = ex(x).add(num(-1));
    let p = ex(y).add(num(2));
    let q = ex(y).add(num(3));
    assert_ne!(c.copy().mul(p.copy()), c.copy().mul(q.copy()));
    assert_eq!(c.copy().mul(p.copy()), c.mul(ex(y).add(num(2))));
}

#[test]
fn polynomial_multiplication_is_associative() {
    let (x, a) = (var('x'), var('a'));
    let p = Polynomial::new(x, vec![ex(a), num(1)]);
    let q = Polynomial::new(x, vec![num(-1), num(0), num(2)]);
    let r = Polynomial::new(x, vec![num(3), ex(a).add(num(-1))]);
    let left = p.copy().mul(q.copy()).mul(r.copy());
    let right = p.mul(q.mul(r));
    assert!(left.equals(&right));
    assert_eq!(left.to_string(), right.to_string());
}

#[test]
fn derivative_of_a_product_follows_the_product_rule() {
    let (x, y) = (var('x'), var('y'));
    let a = Expression::from_term(x.pow(2).mul(y.pow(1))).add(Expression::from_term(x.pow(-1)));
    let b = ex(x).add(num(3)).add(Expression::from_term(y.pow(2)));
    let whole = a.copy().mul(b.copy()).nth_derivative(1, &x);
    let rule = a.nth_derivative(1, &x).mul(b.copy()).add(a.copy().mul(b.nth_derivative(1, &x)));
    assert_eq!(whole, rule);
    assert_eq!(whole.to_string(), "-3x⁻² - x⁻²y² + 6xy + 2xy³ + 3x²y");
}

#[test]
fn rational_expression_arithmetic_is_associative() {
    let (x, y) = (var('x'), var('y'));
    let a = RationalExpression::new(ex(x), ex(y).add(num(1)));
    let b = RationalExpression::new(num(2), ex(x));
    let c = RationalExpression::new(ex(y), num(3));
    let sum_left = a.copy().add(b.copy()).add(c.copy());
    let sum_right = a.copy().add(b.copy().add(c.copy()));
    assert_eq!(sum_left.to_string(), sum_right.to_string());
    assert!(sum_left.equals(&sum_right));
    let product_left = a.copy().mul(b.copy()).mul(c.copy());
    let product_right = a.mul(b.mul(c));
    assert_eq!(product_left.to_string(), product_right.to_string());
    assert!(product_left.equals(&product_right));
}

#[test]
fn checked_sum_and_difference_report_overflow() {
    let x = var('x');
    let big = Expression::from_rational(Rational::new(i64::MAX, 1));
    assert!(big.copy().checked_add(big.copy()).is_none());
    assert!(big.copy().checked_sub(Expression::from_integer(-1)).is_none());
    let fine = big.copy().checked_sub(big.copy()).unwrap();
    assert_eq!(fine.to_string(), "0");
    let sum = ex(x).checked_add(num(2)).unwrap();
    assert_eq!(sum.to_string(), "2 + x");
    assert!(Rational::new(1, 3).add_fits_check(&Rational::new(1, 6)));
    assert!(!Rational::new(i64::MAX, 2).add_fits_check(&Rational::new(i64::MAX, 2)));
    assert!(Rational::new(i64::MAX, 2).add_fits_check(&Rational::new(-1, 2)));
}

#[test]
fn dividing_a_product_of_terms_by_a_factor_gives_the_other() {
    let (x, y) = (var('x'), var('y'));
    let t = Term::from_rational(Rational::new(3, 4)).mul(x.pow(2)).mul(y.pow(-1));
    let r = Term::from_rational(Rational::new(-2, 5)).mul(x.pow(-2)).mul(y.pow(3));
    assert_eq!(t.copy().mul(r.copy()).div(r.copy()), t);
    assert_eq!(t.copy().div(r.copy()).mul(r), t);
    assert_eq!(x.pow(2).div(x.pow(2)).to_string(), "1");
}

#[test]
fn subtracting_then_adding_back_gives_the_expression() {
    let (x, y) = (var('x'), var('y'));
    let e = ex(x).add(num(3)).add(Expression::from_term(y.pow(2)));
    let f = ex(x).add(Expression::from_term(y.pow(-1)));
    assert_eq!(e.copy().sub(f.copy()).add(f), e);
}

#[test]
fn term_derivative_taken_repeatedly_is_the_nth_derivative() {
    let x = var('x');
    let t = Term::from_integer(2).mul(x.pow(5));
    let mut once = t.copy();
    for _ in 0..3 {
        once = once.nth_derivative(1, &x);
    }
    assert_eq!(once, t.nth_derivative(3, &x));
    assert_eq!(once.to_string(), "120x²");
    assert_eq!(t.nth_derivative(0, &x), t);
}

#[test]
fn terms_of_an_expression_add_back_to_it() {
    let (x, y) = (var('x'), var('y'));
    let e = ex(x).add(num(-4)).add(Expression::from_term(x.pow(2).mul(y.pow(-3))));
    let mut back = Expression::zero();
    for t in e.copy().dissolve_into_terms() {
        back = back.add(Expression::from_term(t));
    }
    assert_eq!(back, e);
}

#[test]
fn powers_multiply_by_adding_exponents() {
    let (x, y) = (var('x'), var('y'));
    let m = ex(x).add(ex(y)).add(num(-1));
    assert_eq!(m.copy().pow(5), m.copy().pow(2).mul(m.copy().pow(3)));
    assert_eq!(m.copy().pow(3), m.copy().mul(m.copy()).mul(m.copy()));
    assert_eq!(m.copy().pow(1), m);
    assert_eq!(m.pow(0).to_string(), "1");
}

#[test]
fn zeroth_derivative_is_the_value_itself() {
    let (x, y) = (var('x'), var('y'));
    let r = RationalExpression::new(ex(x).add(num(1)), ex(y).mul(ex(x)));
    let same = r.calculate_nth_derivate_wrt_variable(0, &x);
    assert_eq!(same.to_string(), r.to_string());
    assert!(same.equals(&r));
    let p = Polynomial::new(x, vec![ex(y), num(2), num(3)]);
    assert!(p.compute_nth_derivative(0).equals(&p));
    assert_eq!(p.compute_nth_derivative(1).to_string(), "(2) + (6)x");
}

#[test]
fn substitution_distributes_over_a_sum() {
    let (x, y, z) = (var('x'), var('y'), var('z'));
    let e1 = Expression::from_term(x.pow(2).mul(y.pow(1))).add(ex(z)).add(num(3));
    let e2 = Expression::from_term(Term::from_integer(-1).mul(x.pow(2)).mul(y.pow(1))).add(Expression::from_term(y.pow(3)));
    let s = || vec![(x, ex(y).add(num(1))), (y, ex(z).add(num(-2)))];
    let whole = e1.copy().add(e2.copy()).substitute_multiple_variables_with_expressions(s());
    let parts = e1
        .substitute_multiple_variables_with_expressions(s())
        .add(e2.substitute_multiple_variables_with_expressions(s()));
    assert_eq!(whole, parts);
    assert_eq!(whole.to_string(), "-5 + 13z - 6z² + z³");
}

#[test]
fn checked_products_report_overflow() {
    let x = var('x');
    let big = Expression::from_rational(Rational::new(i64::MAX, 1));
    assert!(big.copy().checked_mul(num(2)).is_none());
    assert_eq!(big.copy().checked_mul(num(1)).unwrap(), big);
    let p = ex(x).add(num(1)).checked_mul(ex(x).add(num(-1))).unwrap();
    assert_eq!(p.to_string(), "-1 + x²");
    assert!(Term::from_integer(3).checked_mul(x.pow(i64::MAX)).is_some());
    assert!(x.pow(i64::MAX).checked_mul(x.pow(1)).is_none());
    assert!(x.pow(i64::MAX).checked_mul(Term::from_integer(0)).is_some());
    assert!(Rational::new(i64::MAX, 3).mul_fits_check(&Rational::new(3, 2)));
    assert!(!Rational::new(i64::MAX, 1).mul_fits_check(&Rational::new(3, 2)));
}

#[test]
fn power_checks_report_overflow() {
    let x = var('x');
    assert!(Rational::new(2, 3).pow_fits_check(5));
    assert!(!Rational::new(i64::MAX, 1).pow_fits_check(2));
    assert!(!Rational::zero().pow_fits_check(-1));
    assert!(Rational::new(-3, 4).pow_fits_check(-3));
    assert!(x.pow(2).pow_fits_check(3));
    assert!(!x.pow(i64::MAX).pow_fits_check(2));
    let square = ex(x).add(num(1)).checked_pow(2).unwrap();
    assert_eq!(square, ex(x).add(num(1)).pow(2));
    assert_eq!(square.to_string(), "1 + 2x + x²");
    assert!(ex(x).add(ex(var('y'))).checked_pow(-1).is_none());
    assert!(num(i64::MAX).checked_pow(2).is_none());
    assert!(Expression::zero().checked_pow(0).is_none());
    assert_eq!(num(3).checked_pow(0).unwrap(), num(1));
}

#[test]
fn positive_power_form_has_no_negative_powers() {
    let (w, x, y, z) = (var('w'), var('x'), var('y'), var('z'));
    let expression = Expression::from_term(w.pow(-2).mul(z.pow(-7)).mul(Term::from_rational(Rational::new(2, 7))))
        .add(Expression::from_term(y.pow(3).mul(x.pow(-7)).mul(Term::from_rational(Rational::new(3, 14)))))
        .add(Expression::from_term(x.pow(5).mul(z.pow(-4)).mul(Term::from_rational(Rational::new(5, 3)))));
    let r = RationalExpression::new(expression.copy(), expression.pow(2));
    let text = r.change_to_positive_power().to_string();
    assert!(!text.contains('⁻'));
}

#[test]
fn checked_substitutions_report_failures() {
    let (x, y) = (var('x'), var('y'));
    let t = x.pow(5).mul(y.pow(1));
    let replacement = ex(y).add(num(1));
    let checked = t.copy().checked_substitute_variable_power_with_expression(x, 2, replacement.copy()).unwrap();
    assert_eq!(checked, t.copy().substitute_variable_power_with_expression(x, 2, replacement.copy()));
    assert_eq!(checked.to_string(), "xy + 2xy² + xy³");
    assert!(t.copy().checked_substitute_variable_power_with_expression(x, 0, replacement.copy()).is_none());
    assert!(x.pow(2).checked_substitute_variable_power_with_expression(x, 1, num(i64::MAX)).is_none());

    let many = t.copy().checked_substitute_multiple_variables_with_expressions(vec![(x, num(2)), (y, num(3))]).unwrap();
    assert_eq!(many, num(96));
    assert!(t.copy().checked_substitute_multiple_variables_with_expressions(vec![(x, num(2)), (x, num(3))]).is_none());
    assert!(t.checked_substitute_multiple_variables_with_expressions(vec![(x, num(i64::MAX))]).is_none());

    let e = Expression::from_term(x.pow(3))
        .add(Expression::from_term(Term::from_integer(2).mul(x.pow(2)).mul(y.pow(-3))))
        .sub(ex(x))
        .add(num(7));
    let at_x = e.copy().checked_substitute_multiple_variables_with_expressions(vec![(x, num(3))]).unwrap();
    assert_eq!(at_x, e.copy().substitute_multiple_variables_with_expressions(vec![(x, num(3))]));
    assert_eq!(at_x.to_string(), "31 + 18y⁻³");
    assert!(e.copy().checked_substitute_multiple_variables_with_expressions(vec![(x, num(i64::MAX))]).is_none());
    let halved = e.copy().checked_substitute_variable_power_with_expression(x, 2, ex(y)).unwrap();
    assert_eq!(halved, e.copy().substitute_variable_power_with_expression(x, 2, ex(y)));
    assert!(e.checked_substitute_variable_power_with_expression(x, 0, ex(y)).is_none());
}

#[test]
fn division_by_an_integer_is_checked() {
    let x = var('x');
    let e = ex(x).add(num(3));
    assert!(e.div_by_integer_fits_check(2));
    assert_eq!(e.div_term(&Term::from_integer(2)).to_string(), "(3/2) + (1/2)x");
    let tiny = Expression::from_term(x.pow(1).mul(Term::from_rational(Rational::new(1, i64::MAX))));
    assert!(!tiny.div_by_integer_fits_check(2));
    assert!(tiny.div_by_integer_fits_check(1));
}
