use tiny_symbolic::operations::derivative::PartialDerivative;
use tiny_symbolic::{Expression, Polynomial, Term, Variable};

fn var(name: char) -> Variable {
    Variable::new(name, None)
}

fn ex(v: Variable) -> Expression {
    Expression::from_variable(v)
}

fn num(n: i64) -> Expression {
    Expression::from_integer(n)
}

fn quadratic_abc() -> Polynomial {
    Polynomial::new(var('x'), vec![ex(var('c')), ex(var('b')), ex(var('a'))])
}

fn same(a: &Polynomial, b: &Polynomial) {
    assert!(a.equals(b), "{} is not {}", a.to_string(), b.to_string());
}

#[test]
fn basic_test() {
    let variable = var('x');
    let a = var('a');
    let b = var('b');
    let c = var('c');
    let quadratic = quadratic_abc();

    assert_eq!(quadratic.to_string(), "(c) + (b)x + (a)x²");

    let quadratic = Polynomial::new(variable, Vec::<Expression>::new());

    assert_eq!(quadratic.to_string(), "0");

    let quadratic = Polynomial::new(
        variable,
        vec![Expression::zero().add(ex(c)), Expression::zero(), Expression::zero().add(ex(a))],
    );

    assert_eq!(quadratic.to_string(), "(c) + (a)x²");

    let quadratic = ex(a).mul(ex(variable).sub(ex(b)).pow(2));
    let quadratic = Polynomial::from_expression(quadratic, variable);

    assert_eq!(quadratic.to_string(), "(ab²) + (-2ab)x + (a)x²");

    let constant = Polynomial::from_expression(ex(a), variable);

    assert_eq!(constant.to_string(), "(a)");
}

#[test]
fn esc_creator_test() {
    let quadratic = quadratic_abc();

    let root = 'r';
    let r1 = Variable::new(root, Some(1));
    let r2 = Variable::new(root, Some(2));
    let mut esc = quadratic.construct_esc_for_roots(root);

    let simplified = esc.simplify_symmetric_expression(ex(r1).add(ex(r2)));
    assert_eq!(simplified.to_string(), "-a⁻¹b");

    let simplified = esc.simplify_symmetric_expression(ex(r1).mul(ex(r2)).add(num(0)));
    assert_eq!(simplified.to_string(), "a⁻¹c");

    let simplified =
        esc.simplify_symmetric_expression(ex(r1).add(ex(r2)).pow(3).add(ex(r1).mul(ex(r2))));
    assert_eq!(simplified.to_string(), "-a⁻³b³ + a⁻¹c");
}

#[test]
fn derivative_test() {
    let variable = var('x');
    let a = var('a');
    let b = var('b');
    let quadratic = quadratic_abc();
    let linear = quadratic.compute_nth_derivative(1);
    assert_eq!(linear.to_string(), "(b) + (2a)x");

    let quadratic = ex(a).mul(ex(variable).sub(ex(b)).pow(2));
    let quadratic = Polynomial::from_expression(quadratic, variable);
    let constant = quadratic.compute_nth_derivative(2);
    assert_eq!(constant.to_string(), "(2a)");
}

#[test]
fn partial_derivative_wrt_variable_test() {
    let x = var('x');
    let a = var('a');
    let b = var('b');
    let polynomial = quadratic_abc();

    same(
        &polynomial.calculate_derivate_wrt_variable(&x),
        &Polynomial::new(x, vec![ex(b), Expression::from_term(Term::from_integer(2).mul(a.pow(1)))]),
    );
    same(
        &polynomial.calculate_derivate_wrt_variable(&a),
        &Polynomial::new(x, vec![num(0), num(0), num(1)]),
    );
    same(
        &polynomial.calculate_derivate_wrt_variable(&var('y')),
        &Polynomial::new(x, vec![num(0)]),
    );
}

#[test]
fn nth_partial_derivative_wrt_variable_test() {
    let x = var('x');
    let a = var('a');
    let b = var('b');
    let polynomial = Polynomial::new(x, vec![num(1), ex(b), ex(a)]);

    same(
        &polynomial.calculate_nth_derivate_wrt_variable(2, &x),
        &Polynomial::new(x, vec![Expression::from_term(Term::from_integer(2).mul(a.pow(1)))]),
    );
    same(
        &polynomial.calculate_nth_derivate_wrt_variable(2, &a),
        &Polynomial::new(x, vec![num(0)]),
    );
    same(&polynomial.calculate_nth_derivate_wrt_variable(0, &x), &polynomial);
}

#[test]
fn to_string_test() {
    let variable = var('x');
    let a = var('a');
    let b = var('b');
    let c = var('c');
    let quadratic =
        Polynomial::new(variable, vec![ex(c).add(ex(b)), ex(b).add(ex(a)), ex(a).add(ex(c))]);

    assert_eq!(quadratic.to_string(), "(b + c) + (a + b)x + (a + c)x²");
    assert_eq!(quadratic.to_string_sympy(), "(b + c) + (a + b)*x + (a + c)*x**2");
}

#[test]
fn to_eval_at_expression() {
    let variable = var('x');
    let a = var('a');
    let b = var('b');
    let c = var('c');
    let quadratic =
        Polynomial::new(variable, vec![ex(c).add(ex(b)), ex(b).add(ex(a)), ex(a).add(ex(c))]);

    assert_eq!(quadratic.eval_at_expression(ex(a)).to_string(), "ab + a² + a²c + a³ + b + c");

    assert_eq!(
        quadratic.eval_at_expression(ex(a).add(ex(b)).add(ex(c))).to_string(),
        "2ab + 4abc + ab² + ac + 3ac² + a² + 2a²b + 3a²c + a³ + b + bc + 2bc² + b² + b²c + c + c³"
    );

    assert_eq!(
        quadratic.eval_at_expression(ex(a).mul(ex(b)).mul(ex(c))).to_string(),
        "ab²c + a²bc + a²b²c³ + a³b²c² + b + c"
    );
}

#[test]
fn polynomial_arithmetic() {
    let x = var('x');
    let p = Polynomial::new(x, vec![num(1), num(1)]);
    let q = Polynomial::new(x, vec![num(-1), num(1)]);

    assert_eq!(p.copy().add(q.copy()).to_string(), "(2)x");
    assert_eq!(p.copy().sub(q.copy()).to_string(), "(2)");
    assert_eq!(p.copy().mul(q.copy()).to_string(), "(-1) + (1)x²");
    assert_eq!(p.copy().neg().to_string(), "(-1) + (-1)x");
    assert_eq!(p.copy().sub(p.copy()).to_string(), "0");
    assert_eq!(p.copy().order(), 1);
    assert_eq!(p.copy().mul(q.copy()).order(), 2);
    assert_eq!(p.variable(), x);
    assert_eq!(p.copy().add_expression(num(2)).to_string(), "(3) + (1)x");
    assert_eq!(p.copy().mul_expression(ex(var('a'))).to_string(), "(a) + (a)x");
    assert_eq!(p.copy().to_expression().to_string(), "1 + x");
    assert_eq!(
        Polynomial::sum(vec![p.copy(), q.copy(), p.copy()]).to_string(),
        "(1) + (3)x"
    );
    assert_eq!(
        Polynomial::product(vec![p.copy(), q.copy()]).to_string(),
        "(-1) + (1)x²"
    );
    let quotient = p.div(q);
    assert_eq!(quotient.to_string(), "(1 + x)/(-1 + x)");
}
