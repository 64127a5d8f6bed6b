use tiny_symbolic::{ElementarySymmetricPolynomials, Expression, Rational, Term, Variable};

fn var(name: char) -> Variable {
    Variable::new(name, None)
}

fn sub(name: char, k: i64) -> Variable {
    Variable::new(name, Some(k))
}

fn ex(v: Variable) -> Expression {
    Expression::from_variable(v)
}

fn num(n: i64) -> Expression {
    Expression::from_integer(n)
}

fn ratio(n: i64, d: i64) -> Term {
    Term::from_rational(Rational::new(n, d))
}

fn sum_of(vs: &[Variable]) -> Expression {
    let mut e = Expression::zero();
    for v in vs {
        e = e.add(ex(*v));
    }
    e
}

fn product_of(vs: &[Variable]) -> Expression {
    let mut e = Expression::one();
    for v in vs {
        e = e.mul(ex(*v));
    }
    e
}

fn with_p_substitutions(vars: &Vec<Variable>) -> ElementarySymmetricPolynomials {
    let mut esp = ElementarySymmetricPolynomials::from_variables(vars);
    for k in 1..=vars.len() {
        esp.set_ek_substitution_as(k, ex(sub('p', k as i64)));
    }
    esp
}

#[test]
fn test_is_symmetric() {
    let mvar = var('m');
    let (alpha, beta, gamma) = (var('A'), var('B'), var('C'));
    let f_z = num(4)
        .mul(ex(alpha).add(ex(beta)).sub(ex(gamma)).pow(2))
        .add(num(8).mul(sum_of(&[alpha, beta, gamma]).pow(3)))
        .add(ex(alpha))
        .sub(ex(mvar).mul(ex(beta)))
        .add(Expression::from_term(mvar.pow(2).mul(gamma.pow(1))));

    let esp = with_p_substitutions(&vec![alpha, beta, gamma]);
    assert!(!esp.is_symmetric(&f_z));

    let f_z = num(4)
        .mul(sum_of(&[alpha, beta, gamma]).pow(2))
        .add(num(8).mul(sum_of(&[alpha, beta, gamma]).pow(12)));
    let esp = with_p_substitutions(&vec![alpha, beta, gamma]);
    assert!(esp.is_symmetric(&f_z));

    let f_z = num(4).mul(ex(mvar)).mul(sum_of(&[alpha, beta, gamma]).pow(2));
    let esp = with_p_substitutions(&vec![alpha, beta, gamma]);
    assert!(esp.is_symmetric(&f_z));
}

#[test]
fn test_simplify_symmetric() {
    let mvar = var('m');
    let (alpha, beta, gamma) = (var('A'), var('B'), var('C'));
    let f_z = num(4)
        .mul(ex(mvar))
        .mul(sum_of(&[alpha, beta, gamma]).pow(2))
        .mul(ex(mvar))
        .mul(product_of(&[alpha, beta, gamma]).pow(2))
        .add(
            product_of(&[alpha, beta])
                .add(product_of(&[beta, gamma]))
                .add(product_of(&[gamma, alpha]))
                .pow(4),
        );

    let mut esp = with_p_substitutions(&vec![alpha, beta, gamma]);
    let (p1, p2, p3) = (sub('p', 1), sub('p', 2), sub('p', 3));

    let actual = esp.simplify_symmetric_expression(f_z);
    let expected = Expression::from_term(
        Term::from_integer(4).mul(mvar.pow(1)).mul(p1.pow(2)).mul(mvar.pow(1)).mul(p3.pow(2)),
    )
    .add(Expression::from_term(p2.pow(4)));

    assert!(expected == actual);

    let f_z = Expression::from_term(alpha.pow(-1))
        .add(Expression::from_term(beta.pow(-1)))
        .add(Expression::from_term(gamma.pow(-1)));

    let actual = esp.simplify_symmetric_expression(f_z);
    let expected = p2.pow(1).div(p3.pow(1));

    assert_eq!(expected.to_string(), actual.to_string());

    let f_z = ratio(2, 3);

    let actual = esp.simplify_symmetric_expression(Expression::from_term(f_z.copy()));

    assert_eq!(actual.to_string(), f_z.to_string());
}

#[test]
fn test_simplify_symmetric_large_1() {
    let (a, b, c, d) = (var('A'), var('B'), var('C'), var('D'));
    let e1 = sum_of(&[a, b, c, d]);
    let e2 = product_of(&[a, b])
        .add(product_of(&[a, c]))
        .add(product_of(&[a, d]))
        .add(product_of(&[b, c]))
        .add(product_of(&[b, d]))
        .add(product_of(&[c, d]));
    let f_z = num(4)
        .mul(e1.copy().pow(20))
        .add(Expression::from_term(ratio(7, 8)).mul(e1.pow(5)).mul(e2.pow(3)));

    let (p1, p2, p4) = (sub('p', 1), sub('p', 2), sub('p', 4));

    let mut esp = with_p_substitutions(&vec![a, b, c, d]);

    let actual = esp.simplify_symmetric_expression(f_z);
    let expected = Expression::from_term(Term::from_integer(4).mul(p1.pow(20)))
        .add(Expression::from_term(ratio(7, 8).mul(p1.pow(5)).mul(p2.pow(3))));

    assert_eq!(actual, expected);

    let f_z = Expression::from_term(a.pow(-2))
        .add(Expression::from_term(b.pow(-2)))
        .add(Expression::from_term(c.pow(-2)))
        .add(Expression::from_term(d.pow(-2)));

    let actual = esp.simplify_symmetric_expression(f_z);
    let squares = product_of(&[a, b, c])
        .pow(2)
        .add(product_of(&[a, b, d]).pow(2))
        .add(product_of(&[a, c, d]).pow(2))
        .add(product_of(&[b, c, d]).pow(2));
    let expected = esp.simplify_symmetric_expression(squares).div_term(&p4.pow(2));

    assert_eq!(actual, expected);
}

#[test]
fn test_simplify_symmetric_large_2() {
    let (a, b, c, d) = (var('A'), var('B'), var('C'), var('D'));

    let e1 = sum_of(&[a, b, c, d]);
    let e2 = product_of(&[a, b])
        .add(product_of(&[a, c]))
        .add(product_of(&[a, d]))
        .add(product_of(&[b, c]))
        .add(product_of(&[b, d]))
        .add(product_of(&[c, d]));
    let e3 = product_of(&[a, b, c])
        .add(product_of(&[a, b, d]))
        .add(product_of(&[a, c, d]))
        .add(product_of(&[b, c, d]));
    let e4 = product_of(&[a, b, c, d]);

    let m = var('m');

    let f_z = Expression::from_term(ratio(4, 3))
        .mul(e1.pow(3))
        .mul(e2.pow(2))
        .mul(e3.pow(3))
        .mul(e4.pow(4))
        .add(ex(m));

    let mut esp = with_p_substitutions(&vec![a, b, c, d]);

    let actual = esp.simplify_symmetric_expression(f_z);
    let expected = Expression::from_term(
        ratio(4, 3)
            .mul(sub('p', 1).pow(3))
            .mul(sub('p', 2).pow(2))
            .mul(sub('p', 3).pow(3))
            .mul(sub('p', 4).pow(4)),
    )
    .add(ex(m));

    assert!(expected == actual);
}

#[test]
fn test_power_pattern_and_symmetric_helpers() {
    let (a, b, c) = (var('A'), var('B'), var('C'));
    let esp = ElementarySymmetricPolynomials::from_variables(&vec![a, b, c]);

    assert_eq!(esp.variable_count(), 3);
    assert!(esp.is_variable_present(&a));
    assert!(!esp.is_variable_present(&var('Z')));
    assert_eq!(esp.get_ek_original_representation(1).to_string(), "A + B + C");
    assert!(esp.is_symmetric(&product_of(&[a, b]).add(product_of(&[b, c])).add(product_of(&[c, a]))));
}

#[test]
fn test_newton_girard_formula() {
    let (a, b, c) = (var('A'), var('B'), var('C'));
    let mut esp = ElementarySymmetricPolynomials::from_variables(&vec![a, b, c]);

    let sk_0 = esp.get_sk_using_newton_girard_formula(0);
    let sk_1 = esp.get_sk_using_newton_girard_formula(1);
    let sk_2 = esp.get_sk_using_newton_girard_formula(2);
    let sk_3 = esp.get_sk_using_newton_girard_formula(3);

    let (e1, e2, e3) = (sub('e', 1), sub('e', 2), sub('e', 3));
    let expected_sk_2 = Expression::from_term(e1.pow(2)).sub(Expression::from_term(Term::from_integer(2).mul(e2.pow(1))));
    let expected_sk_3 = Expression::from_term(e1.pow(3))
        .sub(Expression::from_term(Term::from_integer(3).mul(e1.pow(1)).mul(e2.pow(1))))
        .add(Expression::from_term(Term::from_integer(3).mul(e3.pow(1))));

    assert_eq!(sk_0, num(3));
    assert_eq!(sk_1, ex(e1));
    assert_eq!(sk_2, expected_sk_2);
    assert_eq!(sk_3, expected_sk_3);
}

#[test]
fn test_expression_for_power_pattern_all_ones_branch() {
    let (a, b, c) = (var('A'), var('B'), var('C'));
    let mut esp = ElementarySymmetricPolynomials::from_variables(&vec![a, b, c]);

    let actual = esp.expression_for_power_pattern(&vec![1, 1, 1]);
    let expected = num(6).mul(ex(sub('e', 3)));

    assert_eq!(actual, expected);
}

#[test]
fn test_ek_as_variable_expression_zero_degree_is_one() {
    let (a, b, c) = (var('A'), var('B'), var('C'));
    let esp = ElementarySymmetricPolynomials::from_variables(&vec![a, b, c]);

    let actual = esp.ek_as_variable_expression(0);

    assert_eq!(actual.to_string(), "1");
}

#[test]
fn ek_substitution_is_kept() {
    let (a, b, c) = (var('A'), var('B'), var('C'));
    let mut esp = ElementarySymmetricPolynomials::from_variables(&vec![a, b, c]);
    let substitution = ex(sub('p', 2));

    esp.set_ek_substitution_as(2, substitution.copy());

    assert_eq!(esp.get_ek_substitution(2), &substitution);
    assert_eq!(esp.get_ek_original_representation(2).to_string(), "AB + AC + BC");
    assert_eq!(esp.get_ek_original_representation(3).to_string(), "ABC");
    assert_eq!(esp.variables(), vec![a, b, c]);
}

#[test]
fn power_sums_in_terms_of_elementary_polynomials() {
    let (a, b) = (var('A'), var('B'));
    let mut esp = ElementarySymmetricPolynomials::from_variables(&vec![a, b]);
    let squares = Expression::from_term(a.pow(2)).add(Expression::from_term(b.pow(2)));
    assert_eq!(esp.simplify_symmetric_expression(squares).to_string(), "e₁² - 2e₂");
    assert_eq!(esp.expression_for_power_pattern(&vec![2]).to_string(), "e₁² - 2e₂");
    assert_eq!(esp.ek_as_variable_expression(2).to_string(), "e₂");
    assert!(!esp.is_symmetric(&ex(a)));
}

#[test]
fn cube_roots_of_unity_scenario() {
    let (a, b, c, w) = (var('A'), var('B'), var('C'), var('W'));
    let first = sum_of(&[a, b, c]);
    let second = ex(a)
        .add(Expression::from_term(w.pow(1).mul(b.pow(1))))
        .add(Expression::from_term(w.pow(2).mul(c.pow(1))));
    let third = ex(a)
        .add(Expression::from_term(w.pow(2).mul(b.pow(1))))
        .add(Expression::from_term(w.pow(1).mul(c.pow(1))));
    let substituted = first
        .mul(second)
        .mul(third)
        .substitute_variable_power_with_expression(w, 3, num(1))
        .substitute_variable_power_with_expression(w, 2, num(-1).sub(ex(w)));
    assert_eq!(substituted.to_string(), "-3ABC + A³ + B³ + C³");

    let mut esp = ElementarySymmetricPolynomials::from_variables(&vec![a, b, c]);
    assert!(esp.is_symmetric(&substituted));
    assert_eq!(esp.simplify_symmetric_expression(substituted).to_string(), "-3e₁e₂ + e₁³");
}

#[test]
fn evaluation_by_substitution_scenario() {
    let (x, y) = (var('x'), var('y'));
    let expr = Expression::from_term(x.pow(3))
        .add(Expression::from_term(Term::from_integer(2).mul(x.pow(2)).mul(y.pow(-3))))
        .sub(ex(x))
        .add(num(7));
    let at_x = expr.copy().substitute_multiple_variables_with_expressions(vec![(x, num(3))]);
    assert_eq!(at_x.to_string(), "31 + 18y⁻³");
    let at_xy = expr.substitute_multiple_variables_with_expressions(vec![(x, num(3)), (y, num(-7))]);
    assert_eq!(at_xy.to_string(), "(10615/343)");
}

#[test]
fn test_get_ek_substitution_and_generate_symmetric_expression() {
    let (a, b, c) = (var('A'), var('B'), var('C'));
    let mut esp = ElementarySymmetricPolynomials::from_variables(&vec![a, b, c]);
    let substitution = ex(sub('p', 2));

    esp.set_ek_substitution_as(2, substitution.copy());

    assert_eq!(esp.get_ek_substitution(2), &substitution);
    assert_eq!(esp.generate_symmetric_expression(&vec![1, 1]).to_string(), "AB + AC + BC");
}

#[test]
fn symmetric_sum_of_a_repeated_pattern() {
    let (a, b) = (var('A'), var('B'));
    let esp = ElementarySymmetricPolynomials::from_variables(&vec![a, b]);
    assert_eq!(esp.generate_symmetric_expression(&vec![2, 1]).to_string(), "AB² + A²B");
    assert_eq!(esp.generate_symmetric_expression(&vec![2]).to_string(), "A² + B²");
    assert_eq!(esp.generate_symmetric_expression(&vec![1, 1, 1]).to_string(), "0");
}

#[test]
fn cubic_evaluated_at_three() {
    let x = var('x');
    let expr = Expression::from_term(x.pow(3))
        .add(Expression::from_term(Term::from_integer(2).mul(x.pow(2))))
        .sub(ex(x))
        .add(num(7));
    let substituted = expr.substitute_multiple_variables_with_expressions(vec![(x, num(3))]);
    assert_eq!(substituted.to_string(), "49");
}

#[test]
fn symmetric_expression_in_named_elementary_polynomials() {
    let (a, b, c) = (var('A'), var('B'), var('C'));
    let sq = |v: Variable| Expression::from_term(v.pow(2));
    let sq_times = |v: Variable, w: Variable| Expression::from_term(v.pow(2).mul(w.pow(1)));
    let expr = sq(a)
        .add(sq(b))
        .add(sq(c))
        .add(sq_times(a, b))
        .add(sq_times(a, c))
        .add(sq_times(b, a))
        .add(sq_times(b, c))
        .add(sq_times(c, a))
        .add(sq_times(c, b));
    let mut esp = with_p_substitutions(&vec![a, b, c]);
    assert!(esp.is_symmetric(&expr));
    assert_eq!(esp.simplify_symmetric_expression(expr).to_string(), "p₁p₂ + p₁² - 2p₂ - 3p₃");
}

#[test]
fn sympy_rendering_of_a_scaled_product() {
    let (x, y, z) = (var('x'), var('y'), var('z'));
    let expression = Expression::from_term(ratio(4, 3).mul(x.pow(1)).mul(y.pow(3))).add(ex(z));
    assert_eq!(expression.to_string_sympy(), "(4/3)*x*(y**3) + z");
}

fn expanded(esp: &ElementarySymmetricPolynomials, e: Expression) -> Expression {
    let mut subs = Vec::new();
    for k in 1..=esp.variable_count() {
        subs.push((sub('e', k as i64), esp.get_ek_original_representation(k).copy()));
    }
    e.substitute_multiple_variables_with_expressions(subs)
}

#[test]
fn checked_tracker_matches_the_plain_one() {
    let (a, b, c) = (var('A'), var('B'), var('C'));
    let checked = ElementarySymmetricPolynomials::checked_from_variables(&vec![a, b, c]).unwrap();
    let plain = ElementarySymmetricPolynomials::from_variables(&vec![a, b, c]);
    for k in 1..=3 {
        assert_eq!(checked.get_ek_original_representation(k), plain.get_ek_original_representation(k));
    }
    assert_eq!(checked.variables(), vec![a, b, c]);
}

#[test]
fn power_sums_expand_to_sums_of_powers() {
    let (a, b, c) = (var('A'), var('B'), var('C'));
    let mut esp = ElementarySymmetricPolynomials::from_variables(&vec![a, b, c]);
    for k in 1..=7i64 {
        let sk = esp.get_sk_using_newton_girard_formula(k);
        let direct = Expression::from_term(a.pow(k))
            .add(Expression::from_term(b.pow(k)))
            .add(Expression::from_term(c.pow(k)));
        assert_eq!(expanded(&esp, sk), direct);
    }
}

#[test]
fn power_patterns_expand_to_scaled_symmetric_sums() {
    let (a, b, c, d) = (var('A'), var('B'), var('C'), var('D'));
    let mut esp = ElementarySymmetricPolynomials::from_variables(&vec![a, b, c, d]);
    let cases: Vec<(Vec<i64>, i64)> = vec![
        (vec![1, 1], 2),
        (vec![2, 1], 1),
        (vec![2, 2], 2),
        (vec![3, 1, 1], 2),
        (vec![2, 2, 1], 2),
        (vec![1, 1, 1], 6),
        (vec![3, 2, 1], 1),
        (vec![1, 1, 1, 1], 24),
    ];
    for (pattern, factor) in cases {
        let rewritten = esp.expression_for_power_pattern(&pattern);
        let sum = esp.generate_symmetric_expression(&pattern);
        assert_eq!(expanded(&esp, rewritten), num(factor).mul(sum));
    }
}

#[test]
fn simplified_symmetric_expressions_expand_back() {
    let m = var('m');
    let (a, b, c) = (var('A'), var('B'), var('C'));
    let vars = vec![a, b, c];
    let inputs = vec![
        num(4).mul(ex(m)).mul(sum_of(&vars).pow(2)).add(product_of(&vars)),
        sum_of(&vars).pow(3).sub(num(5).mul(product_of(&vars))),
        Expression::from_term(a.pow(-1))
            .add(Expression::from_term(b.pow(-1)))
            .add(Expression::from_term(c.pow(-1))),
        Expression::from_term(a.pow(2).mul(b.pow(1)))
            .add(Expression::from_term(a.pow(2).mul(c.pow(1))))
            .add(Expression::from_term(b.pow(2).mul(a.pow(1))))
            .add(Expression::from_term(b.pow(2).mul(c.pow(1))))
            .add(Expression::from_term(c.pow(2).mul(a.pow(1))))
            .add(Expression::from_term(c.pow(2).mul(b.pow(1)))),
        num(7),
    ];
    for input in inputs {
        let mut esp = ElementarySymmetricPolynomials::from_variables(&vars);
        assert!(esp.is_symmetric(&input));
        let simplified = esp.simplify_symmetric_expression(input.copy());
        assert_eq!(expanded(&esp, simplified), input);
    }
}

#[test]
fn expanding_ek_gives_its_representation() {
    let (a, b, c, d) = (var('A'), var('B'), var('C'), var('D'));
    let esp = ElementarySymmetricPolynomials::from_variables(&vec![a, b, c, d]);
    for k in 1..=4usize {
        let ek = esp.ek_as_variable_expression(k as i64);
        assert_eq!(&expanded(&esp, ek), esp.get_ek_original_representation(k));
    }
    assert_eq!(expanded(&esp, esp.ek_as_variable_expression(0)), num(1));
    assert_eq!(esp.get_ek_original_representation(3).to_string(), "ABC + ABD + ACD + BCD");
}

#[test]
fn checked_rewriting_agrees_with_the_plain_one() {
    let m = var('m');
    let (a, b, c) = (var('A'), var('B'), var('C'));
    let vars = vec![a, b, c];
    let mut esp = ElementarySymmetricPolynomials::from_variables(&vars);
    for k in -2..=12i64 {
        let checked = esp.checked_sk_using_newton_girard_formula(k).unwrap();
        assert_eq!(checked, esp.get_sk_using_newton_girard_formula(k));
    }
    for pattern in vec![vec![2, 1], vec![1, 1, 1], vec![3, 1, 1], vec![2, 2]] {
        let checked = esp.checked_expression_for_power_pattern(&pattern).unwrap();
        assert_eq!(checked, esp.expression_for_power_pattern(&pattern));
    }
    let inputs = vec![
        num(4).mul(ex(m)).mul(sum_of(&vars).pow(2)).add(product_of(&vars)),
        Expression::from_term(a.pow(-1))
            .add(Expression::from_term(b.pow(-1)))
            .add(Expression::from_term(c.pow(-1))),
        num(7),
    ];
    for input in inputs {
        let checked = esp.checked_simplify_symmetric_expression(input.copy()).unwrap();
        assert_eq!(checked, esp.simplify_symmetric_expression(input));
    }
    let substituted = with_p_substitutions(&vars);
    let input = sum_of(&vars).pow(2);
    assert_eq!(
        substituted.checked_simplify_symmetric_expression(input).unwrap().to_string(),
        "p₁²"
    );
}

#[test]
fn checked_rewriting_reports_failures() {
    let (a, b, c) = (var('A'), var('B'), var('C'));
    let vars = vec![a, b, c];
    let esp = ElementarySymmetricPolynomials::from_variables(&vars);
    assert!(esp.checked_simplify_symmetric_expression(ex(a).add(num(2).mul(ex(b)))).is_none());
    let big = num(i64::MAX).mul(Expression::from_term(a.pow(2)).add(Expression::from_term(b.pow(2))).add(Expression::from_term(c.pow(2))));
    assert!(esp.checked_simplify_symmetric_expression(big).is_none());
    assert!(esp.checked_expression_for_power_pattern(&vec![1; 25]).is_none());
}
