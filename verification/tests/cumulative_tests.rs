use tiny_symbolic::{Expression, Polynomial, RationalExpression, Term, Variable};

fn var(name: char) -> Variable {
    Variable::new(name, None)
}

fn num(n: i64) -> Expression {
    Expression::from_integer(n)
}

#[test]
fn term_product_over_a_list() {
    let x = var('x');
    let y = var('y');
    let terms = vec![x.pow(2), Term::from_integer(2).mul(x.pow(1)), y.pow(1)];
    assert_eq!(Term::product(terms), Term::from_integer(2).mul(x.pow(3)).mul(y.pow(1)));
    assert_eq!(Term::product(Vec::new()), Term::one());
}

#[test]
fn expression_sum_and_product_over_a_list() {
    let x = var('x');
    let y = var('y');
    let items = || {
        vec![
            Expression::from_term(x.pow(2)),
            Expression::from_term(Term::from_integer(2).mul(x.pow(1))),
            Expression::from_variable(y),
        ]
    };
    let expected_sum = Expression::from_term(x.pow(2))
        .add(Expression::from_term(Term::from_integer(2).mul(x.pow(1))))
        .add(Expression::from_variable(y));
    assert_eq!(Expression::sum(items()), expected_sum);
    assert_eq!(Expression::sum(Vec::new()), Expression::zero());
    assert_eq!(
        Expression::product(items()),
        Expression::from_term(Term::from_integer(2).mul(x.pow(3)).mul(y.pow(1)))
    );
    assert_eq!(Expression::product(Vec::new()), num(1));
}

#[test]
fn rational_expression_sum_and_product_over_a_list() {
    let x = var('x');
    let x_plus_1 = || Expression::from_variable(x).add(num(1));
    let terms = vec![
        RationalExpression::from_expression(num(1)),
        RationalExpression::new(Expression::from_variable(x), x_plus_1()),
        RationalExpression::new(num(2), x_plus_1()),
    ];
    let expected = RationalExpression::new(
        Expression::from_term(Term::from_integer(2).mul(x.pow(1))).add(num(3)),
        x_plus_1(),
    );
    assert!(RationalExpression::sum(terms).equals(&expected));
    assert!(RationalExpression::sum(Vec::new()).equals(&RationalExpression::zero()));

    let factors = vec![
        RationalExpression::new(Expression::from_variable(x), x_plus_1()),
        RationalExpression::new(x_plus_1(), num(2)),
        RationalExpression::from_expression(num(3)),
    ];
    let expected = RationalExpression::new(
        Expression::from_term(Term::from_integer(3).mul(x.pow(1))),
        num(2),
    );
    assert!(RationalExpression::product(factors).equals(&expected));
    assert!(RationalExpression::product(Vec::new())
        .equals(&RationalExpression::from_expression(num(1))));
}

#[test]
fn polynomial_sum_and_product_over_a_list() {
    let x = var('x');
    let items = || {
        vec![
            Polynomial::new(x, vec![num(1), num(1)]),
            Polynomial::new(x, vec![num(2), num(0), num(1)]),
        ]
    };
    assert!(Polynomial::sum(items()).equals(&Polynomial::new(x, vec![num(3), num(1), num(1)])));
    assert!(Polynomial::product(items())
        .equals(&Polynomial::new(x, vec![num(2), num(2), num(1), num(1)])));
}
