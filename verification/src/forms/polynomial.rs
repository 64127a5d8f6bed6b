//! Polynomials in one variable whose coefficients are expressions.

use vstd::prelude::*;
use crate::rational::rat_zero;
use crate::text::{push_str, push_char};
use crate::forms::variable::Variable;
use crate::forms::term::{Term, TermV, term_pow, var_term, pw, valid_powers, term_view_text};
use crate::forms::expression::{
    Expression, ExprV, expr_add, expr_add_fits, expr_add_term, expr_mul_term, mul_term_fits, expr_neg,
    expr_mul, expr_mul_fits, expr_text, canonical_terms, expr_one, expr_div_term, div_term_fits,
    subst_many_seq, subst_many_seq_fits, expr_subst_views, expr_nth_deriv_fits,
};
use crate::forms::rational_expression::{RationalExpression, rexpr_div, rexpr_div_fits};
use crate::operations::derivative::{PartialDerivative, expr_iter_deriv};
use crate::algos::power_sums::{scalar, sign_of};
use crate::algos::elementary_symmetric_polynomials::{
    ElementarySymmetricPolynomials, distinct_in_order, representations_of, representations_fit,
};
use crate::forms::expression::expr_single;

verus! {

/// A polynomial as mathematics sees it: its variable and its coefficients, in
/// order of increasing power.
pub type PolyV = (Variable, Seq<ExprV>);

/// The views of a list of expressions.
pub open spec fn expr_views(s: Seq<Expression>) -> Seq<ExprV> {
    Seq::new(s.len(), |i: int| s[i]@)
}

/// `v^i`, as `Variable::pow` builds it.
pub open spec fn var_power(v: Variable, i: int) -> TermV {
    term_pow(var_term(v), i)
}

/// The expression `c₀ + c₁ v + c₂ v² + ...`, summed from the lowest power up.
pub open spec fn poly_expr(v: Variable, cs: Seq<ExprV>) -> ExprV
    decreases cs.len(),
{
    if cs.len() == 0 {
        Map::empty()
    } else {
        expr_add(poly_expr(v, cs.drop_last()), expr_mul_term(cs.last(), var_power(v, cs.len() - 1)))
    }
}

/// Every product and partial sum of `poly_expr` stays in `i64` (and the powers
/// of `v` stay in the `i32` range in which variables are raised).
pub open spec fn poly_expr_fits(v: Variable, cs: Seq<ExprV>) -> bool
    decreases cs.len(),
{
    cs.len() == 0 || {
        &&& poly_expr_fits(v, cs.drop_last())
        &&& cs.len() - 1 <= i32::MAX
        &&& mul_term_fits(cs.last(), var_power(v, cs.len() - 1))
        &&& expr_add_fits(poly_expr(v, cs.drop_last()), expr_mul_term(cs.last(), var_power(v, cs.len() - 1)))
    }
}

/// The monomial `k` times `v^j`, for a monomial `k` without `v`.
pub open spec fn with_power(k: Map<Variable, int>, v: Variable, j: int) -> Map<Variable, int> {
    if j == 0 { k } else { k.insert(v, j) }
}

/// The coefficient of `v^j` in an expression: the terms in which `v` has power
/// exactly `j`, with `v` taken out.
pub open spec fn coefficient_of(m: ExprV, v: Variable, j: int) -> ExprV {
    Map::new(
        |k: Map<Variable, int>| !k.dom().contains(v) && m.dom().contains(with_power(k, v, j)),
        |k: Map<Variable, int>| m[with_power(k, v, j)],
    )
}

/// The largest power of `v` among the terms listed (0 for no terms).
pub open spec fn max_power_in(s: Seq<TermV>, v: Variable) -> int
    decreases s.len(),
{
    if s.len() == 0 {
        0
    } else if s.len() == 1 {
        pw(s[0].0, v)
    } else {
        let a = max_power_in(s.drop_last(), v);
        let b = pw(s.last().0, v);
        if a >= b { a } else { b }
    }
}

/// The highest power of `v` in an expression.
pub open spec fn highest_power(m: ExprV, v: Variable) -> int {
    max_power_in(canonical_terms(m), v)
}

/// The polynomial in `v` that an expression is: the coefficients of `v^0` up to
/// the highest power (terms with a negative power of `v` are left out); `0` for
/// the zero expression.
pub open spec fn poly_from_expr(m: ExprV, v: Variable) -> PolyV {
    if m == Map::<Map<Variable, int>, (int, int)>::empty() {
        (v, seq![Map::<Map<Variable, int>, (int, int)>::empty()])
    } else {
        (v, Seq::new((highest_power(m, v) + 1) as nat, |j: int| coefficient_of(m, v, j)))
    }
}

/// The highest power is not negative (so that there is a coefficient for it)
/// and the coefficients fit in memory.
pub open spec fn poly_from_expr_fits(m: ExprV, v: Variable) -> bool {
    m != Map::<Map<Variable, int>, (int, int)>::empty() ==> 0 <= highest_power(m, v) < usize::MAX
}

/// The terms listed up to some point that fall in the coefficient of `v^j`.
pub open spec fn partial_coefficient(m: ExprV, s: Seq<TermV>, v: Variable, j: int) -> ExprV {
    Map::new(
        |k: Map<Variable, int>| !k.dom().contains(v) && exists|i: int| 0 <= i < s.len() && #[trigger] s[i].0 == with_power(k, v, j),
        |k: Map<Variable, int>| m[with_power(k, v, j)],
    )
}

/// The partial sums of `poly_expr` fit when the whole does.
pub proof fn lemma_poly_expr_fits_take(v: Variable, cs: Seq<ExprV>, i: int)
    requires
        poly_expr_fits(v, cs),
        0 <= i <= cs.len(),
    ensures
        poly_expr_fits(v, cs.take(i)),
    decreases cs.len() - i,
{
    if i == cs.len() {
        assert(cs.take(i) =~= cs);
    } else {
        lemma_poly_expr_fits_take(v, cs, i + 1);
        assert(cs.take(i + 1).drop_last() =~= cs.take(i));
    }
}

/// The maximum bounds every power and is attained.
pub proof fn lemma_max_power_in(s: Seq<TermV>, v: Variable)
    requires
        s.len() > 0,
    ensures
        forall|i: int| 0 <= i < s.len() ==> pw(#[trigger] s[i].0, v) <= max_power_in(s, v),
        exists|i: int| 0 <= i < s.len() && pw(#[trigger] s[i].0, v) == max_power_in(s, v),
    decreases s.len(),
{
    if s.len() == 1 {
        assert(pw(s[0].0, v) == max_power_in(s, v));
    } else {
        let d = s.drop_last();
        lemma_max_power_in(d, v);
        assert forall|i: int| 0 <= i < s.len() implies pw(#[trigger] s[i].0, v) <= max_power_in(s, v) by {
            if i < s.len() - 1 {
                assert(s[i] == d[i]);
            }
        }
        if max_power_in(d, v) >= pw(s.last().0, v) {
            let i = choose|i: int| 0 <= i < d.len() && pw(#[trigger] d[i].0, v) == max_power_in(d, v);
            assert(s[i] == d[i]);
        } else {
            assert(pw(s[s.len() - 1].0, v) == max_power_in(s, v));
        }
    }
}

/// The variable and every coefficient can be displayed.
pub open spec fn poly_displayable(p: PolyV) -> bool {
    &&& crate::forms::variable::displayable(p.0)
    &&& forall|i: int| 0 <= i < p.1.len() ==> crate::forms::expression::expr_displayable(#[trigger] p.1[i])
}

/// A displayable variable raised to a positive power that is an `i32` can be displayed.
proof fn lemma_power_term_displayable(v: Variable, k: int)
    requires
        crate::forms::variable::displayable(v),
        1 <= k <= i32::MAX,
    ensures
        crate::forms::term::powers_displayable(var_power(v, k).0),
{
    let m = var_power(v, k).0;
    assert forall|w: Variable| #[trigger] m.dom().contains(w) implies crate::forms::variable::displayable(w) && m[w] != i64::MIN by {
        assert(pw(var_term(v).0, w) == if w == v { 1int } else { 0int });
        assert(w == v);
    }
}

/// The `i`-th coefficient, or 0 past the end.
pub open spec fn pad(cs: Seq<ExprV>, i: int) -> ExprV {
    if 0 <= i < cs.len() { cs[i] } else { Map::empty() }
}

/// Trailing zero coefficients removed.
pub open spec fn poly_trim(cs: Seq<ExprV>) -> Seq<ExprV>
    decreases cs.len(),
{
    if cs.len() > 0 && cs.last() == Map::<Map<Variable, int>, (int, int)>::empty() {
        poly_trim(cs.drop_last())
    } else {
        cs
    }
}

/// The coefficients a polynomial keeps: trimmed, and `[0]` when nothing is left.
pub open spec fn poly_normal(cs: Seq<ExprV>) -> Seq<ExprV> {
    if poly_trim(cs).len() == 0 { seq![Map::<Map<Variable, int>, (int, int)>::empty()] } else { poly_trim(cs) }
}

/// The larger of two lengths.
pub open spec fn max_len(a: int, b: int) -> int {
    if a >= b { a } else { b }
}

/// The sum of two polynomials: coefficients added power by power.
pub open spec fn poly_add(a: PolyV, b: PolyV) -> PolyV {
    (a.0, poly_normal(Seq::new(max_len(a.1.len() as int, b.1.len() as int) as nat,
        |i: int| expr_add(pad(a.1, i), pad(b.1, i)))))
}

pub open spec fn poly_add_fits(a: PolyV, b: PolyV) -> bool {
    forall|i: int| 0 <= i < a.1.len() && 0 <= i < b.1.len() ==> expr_add_fits(#[trigger] a.1[i], b.1[i])
}

/// The difference of two polynomials: coefficients subtracted power by power.
pub open spec fn poly_sub(a: PolyV, b: PolyV) -> PolyV {
    (a.0, poly_normal(Seq::new(max_len(a.1.len() as int, b.1.len() as int) as nat,
        |i: int| expr_add(pad(a.1, i), expr_neg(pad(b.1, i))))))
}

pub open spec fn poly_sub_fits(a: PolyV, b: PolyV) -> bool {
    forall|i: int| 0 <= i < a.1.len() && 0 <= i < b.1.len() ==> expr_add_fits(#[trigger] a.1[i], expr_neg(b.1[i]))
}

/// The text of the `k`-th coefficient's part: `(c)`, the power of the variable
/// (`*` before it for SymPy), and ` + ` unless it is the last coefficient.
pub open spec fn poly_entry_text(v: Variable, cs: Seq<ExprV>, k: int, sympy: bool) -> Seq<char> {
    let power: Seq<char> = if k > 0 {
        if sympy { seq!['*'] + term_view_text(var_power(v, k), true) } else { term_view_text(var_power(v, k), false) }
    } else {
        Seq::empty()
    };
    let sep: Seq<char> = if k < cs.len() - 1 { seq![' ', '+', ' '] } else { Seq::empty() };
    seq!['('] + expr_text(cs[k], sympy) + seq![')'] + power + sep
}

/// The text of the first `i` coefficients; zero coefficients are skipped.
pub open spec fn poly_text_upto(v: Variable, cs: Seq<ExprV>, sympy: bool, i: int) -> Seq<char>
    decreases i,
{
    if i <= 0 {
        Seq::empty()
    } else if cs[i - 1] == Map::<Map<Variable, int>, (int, int)>::empty() {
        poly_text_upto(v, cs, sympy, i - 1)
    } else {
        poly_text_upto(v, cs, sympy, i - 1) + poly_entry_text(v, cs, i - 1, sympy)
    }
}

/// The text of a polynomial, e.g. `(c) + (b)x + (a)x²`; `0` for the zero polynomial.
pub open spec fn poly_text(p: PolyV, sympy: bool) -> Seq<char> {
    if p.1.len() == 1 && p.1[0] == Map::<Map<Variable, int>, (int, int)>::empty() {
        seq!['0']
    } else {
        poly_text_upto(p.0, p.1, sympy, p.1.len() as int)
    }
}

/// Adding 0 on the left changes nothing.
pub proof fn lemma_expr_add_zero_left(a: ExprV)
    requires
        forall|k: Map<Variable, int>| #[trigger] a.dom().contains(k) ==> a[k] != rat_zero(),
    ensures
        expr_add(Map::empty(), a) == a,
{
    assert(expr_add(Map::empty(), a) =~= a);
}

/// Adding 0 on the right changes nothing.
pub proof fn lemma_expr_add_zero_right(a: ExprV)
    requires
        forall|k: Map<Variable, int>| #[trigger] a.dom().contains(k) ==> a[k] != rat_zero(),
    ensures
        expr_add(a, Map::empty()) == a,
{
    assert(expr_add(a, Map::empty()) =~= a);
}

/// The product of two polynomials in the same variable.
pub open spec fn poly_mul(a: PolyV, b: PolyV) -> PolyV {
    poly_from_expr(expr_mul(poly_expr(a.0, a.1), poly_expr(b.0, b.1)), a.0)
}

pub open spec fn poly_mul_fits(a: PolyV, b: PolyV) -> bool {
    &&& poly_expr_fits(a.0, a.1)
    &&& poly_expr_fits(b.0, b.1)
    &&& expr_mul_fits(poly_expr(a.0, a.1), poly_expr(b.0, b.1))
    &&& poly_from_expr_fits(expr_mul(poly_expr(a.0, a.1), poly_expr(b.0, b.1)), a.0)
}

/// The sum of a list of polynomials, accumulated from the first.
pub open spec fn poly_sum(s: Seq<PolyV>) -> PolyV
    decreases s.len(),
{
    if s.len() <= 1 {
        s[0]
    } else {
        poly_add(poly_sum(s.drop_last()), s.last())
    }
}

pub open spec fn poly_sum_fits(s: Seq<PolyV>) -> bool
    decreases s.len(),
{
    s.len() <= 1 || (poly_sum_fits(s.drop_last()) && poly_add_fits(poly_sum(s.drop_last()), s.last()))
}

/// The product of a list of polynomials, accumulated from the first.
pub open spec fn poly_product(s: Seq<PolyV>) -> PolyV
    decreases s.len(),
{
    if s.len() <= 1 {
        s[0]
    } else {
        poly_mul(poly_product(s.drop_last()), s.last())
    }
}

pub open spec fn poly_product_fits(s: Seq<PolyV>) -> bool
    decreases s.len(),
{
    s.len() <= 1 || (poly_product_fits(s.drop_last()) && poly_mul_fits(poly_product(s.drop_last()), s.last()))
}

/// The views of a list of polynomials.
pub open spec fn poly_views(s: Seq<Polynomial>) -> Seq<PolyV> {
    Seq::new(s.len(), |i: int| s[i]@)
}

/// The root variables `x₁ ... xₙ` named `root`.
pub open spec fn root_variables(root: char, n: int) -> Seq<Variable> {
    Seq::new(n as nat, |i: int| Variable::named(root, Some((i + 1) as i64)))
}

/// The value given to `eₖ` for the roots of a polynomial of order `n`:
/// `(-1)^k c_{n-k} / c_n`.
pub open spec fn esc_coefficient(cs: Seq<ExprV>, k: int) -> ExprV {
    let n = cs.len() - 1;
    expr_div_term(expr_mul_term(cs[n - k], scalar(sign_of(k))), expr_single(cs[n]))
}

pub open spec fn esc_coefficient_fits(cs: Seq<ExprV>, k: int) -> bool {
    let n = cs.len() - 1;
    &&& mul_term_fits(cs[n - k], scalar(sign_of(k)))
    &&& div_term_fits(expr_mul_term(cs[n - k], scalar(sign_of(k))), expr_single(cs[n]))
}

/// A list without repetitions is its own list of distinct elements.
pub proof fn lemma_distinct_in_order(vs: Seq<Variable>)
    requires
        vs.no_duplicates(),
    ensures
        distinct_in_order(vs) == vs,
    decreases vs.len(),
{
    if vs.len() > 0 {
        let d = vs.drop_last();
        assert(d.no_duplicates());
        lemma_distinct_in_order(d);
        assert(!d.contains(vs.last())) by {
            if d.contains(vs.last()) {
                let i = choose|i: int| 0 <= i < d.len() && d[i] == vs.last();
                assert(vs[i] == vs[vs.len() - 1]);
            }
        }
        assert(d.push(vs.last()) =~= vs);
    }
}

/// A polynomial consisting of expression coefficients and a variable raised to a successive power.
#[derive(Debug)]
pub struct Polynomial {
    variable: Variable,
    coefficients: Vec<Expression>,
    order: usize,
}

impl View for Polynomial {
    type V = PolyV;

    closed spec fn view(&self) -> PolyV {
        (self.variable, expr_views(self.coefficients@))
    }
}

impl Polynomial {
    /// Well-formed: at least one coefficient, all well-formed, the leading one
    /// nonzero unless it is the only one.
    pub closed spec fn wf(&self) -> bool {
        &&& self.coefficients@.len() >= 1
        &&& self.order == self.coefficients@.len() - 1
        &&& forall|i: int| 0 <= i < self.coefficients@.len() ==> (#[trigger] self.coefficients@[i]).wf()
        &&& self.coefficients@.len() > 1 ==> self.coefficients@.last()@ != Map::<Map<Variable, int>, (int, int)>::empty()
    }

    /// What well-formedness gives the view.
    pub proof fn lemma_wf(&self)
        requires
            self.wf(),
        ensures
            self@.1.len() >= 1,
            self@.1.len() > 1 ==> self@.1.last() != Map::<Map<Variable, int>, (int, int)>::empty(),
    {
    }

    /// Creates a polynomial from a variable and its coefficients in order of
    /// increasing power; an empty list gives the zero polynomial, and the
    /// leading coefficient cannot be zero.
    pub fn new(variable: Variable, coefficients: Vec<Expression>) -> (p: Polynomial)
        requires
            forall|i: int| 0 <= i < coefficients@.len() ==> (#[trigger] coefficients@[i]).wf(),
            coefficients@.len() > 1 ==> coefficients@.last()@ != Map::<Map<Variable, int>, (int, int)>::empty(),
        ensures
            p.wf(),
            p@ == (variable, if coefficients@.len() == 0 {
                seq![Map::<Map<Variable, int>, (int, int)>::empty()]
            } else {
                expr_views(coefficients@)
            }),
    {
        if coefficients.len() == 0 {
            let mut cs: Vec<Expression> = Vec::new();
            cs.push(Expression::zero());
            let p = Polynomial { variable, coefficients: cs, order: 0 };
            proof {
                assert(expr_views(cs@) =~= seq![Map::<Map<Variable, int>, (int, int)>::empty()]);
            }
            p
        } else {
            let order = coefficients.len() - 1;
            Polynomial { variable, coefficients, order }
        }
    }

    /// Returns the order (degree) of the polynomial.
    pub fn order(&self) -> (n: usize)
        requires
            self.wf(),
        ensures
            n == self@.1.len() - 1,
    {
        self.order
    }

    /// The variable of the polynomial.
    pub fn variable(&self) -> (v: Variable)
        ensures
            v == self@.0,
    {
        self.variable
    }

    /// The polynomial as an expression: `c₀ + c₁ v + c₂ v² + ...`.
    pub fn to_expression(&self) -> (e: Expression)
        requires
            self.wf(),
            poly_expr_fits(self@.0, self@.1),
        ensures
            e.wf(),
            e@ == poly_expr(self@.0, self@.1),
    {
        let ghost cs = self@.1;
        let mut acc = Expression::zero();
        let mut i: usize = 0;
        proof {
            assert(cs.take(0) =~= Seq::<ExprV>::empty());
        }
        while i < self.coefficients.len()
            invariant
                0 <= i <= self.coefficients.len(),
                self.wf(),
                cs == self@.1,
                poly_expr_fits(self@.0, cs),
                acc.wf(),
                acc@ == poly_expr(self@.0, cs.take(i as int)),
            decreases self.coefficients.len() - i,
        {
            proof {
                lemma_poly_expr_fits_take(self@.0, cs, i + 1);
                assert(cs.take(i + 1).drop_last() =~= cs.take(i as int));
                assert(cs.take(i + 1).last() == self.coefficients@[i as int]@);
            }
            let t = self.variable.pow(i as i64);
            let prod = self.coefficients[i].copy().mul_term(&t);
            acc = acc.add(prod);
            i = i + 1;
        }
        proof {
            assert(cs.take(cs.len() as int) =~= cs);
        }
        acc
    }

    /// Creates the polynomial in `variable` that an expression is: its terms are
    /// sorted by the power of `variable` (terms with a negative power are left out).
    pub fn from_expression(expression: Expression, variable: Variable) -> (p: Polynomial)
        requires
            expression.wf(),
            poly_from_expr_fits(expression@, variable),
        ensures
            p.wf(),
            p@ == poly_from_expr(expression@, variable),
    {
        let ghost m = expression@;
        if expression.is_zero() {
            let mut cs: Vec<Expression> = Vec::new();
            cs.push(Expression::zero());
            return Polynomial::new(variable, cs);
        }
        proof {
            expression.lemma_canonical_terms_facts();
        }
        let terms = expression.dissolve_into_terms();
        let ghost ts = canonical_terms(m);
        proof {
            assert(crate::forms::expression::term_views(terms@) == ts);
            assert(terms@.len() == ts.len());
            assert forall|i: int| 0 <= i < ts.len() implies #[trigger] ts[i] == terms@[i]@ by {}
            if ts.len() == 0 {
                assert forall|k: Map<Variable, int>| !m.dom().contains(k) by {
                    if m.dom().contains(k) {
                        let x = choose|x: int| 0 <= x < ts.len() && #[trigger] ts[x].0 == k;
                    }
                }
                assert(m =~= Map::<Map<Variable, int>, (int, int)>::empty());
            }
        }
        let mut hp = terms[0].get_power_of_variable(&variable);
        let mut i: usize = 1;
        proof {
            assert(ts.take(1).len() == 1);
            assert(ts.take(1)[0] == ts[0]);
        }
        while i < terms.len()
            invariant
                1 <= i <= terms.len(),
                terms@.len() == ts.len(),
                forall|k: int| 0 <= k < ts.len() ==> #[trigger] ts[k] == terms@[k]@,
                forall|k: int| 0 <= k < terms@.len() ==> (#[trigger] terms@[k]).wf(),
                hp as int == max_power_in(ts.take(i as int), variable),
            decreases terms.len() - i,
        {
            let p = terms[i].get_power_of_variable(&variable);
            proof {
                assert(ts.take(i + 1).drop_last() =~= ts.take(i as int));
                assert(ts.take(i + 1).last() == ts[i as int]);
            }
            if p > hp {
                hp = p;
            }
            i = i + 1;
        }
        proof {
            assert(ts.take(ts.len() as int) =~= ts);
            lemma_max_power_in(ts, variable);
        }
        let n: usize = (hp as usize) + 1;
        let mut coefficients: Vec<Expression> = Vec::new();
        while coefficients.len() < n
            invariant
                coefficients@.len() <= n,
                forall|j: int| 0 <= j < coefficients@.len() ==> (#[trigger] coefficients@[j]).wf()
                    && coefficients@[j]@ == Map::<Map<Variable, int>, (int, int)>::empty(),
            decreases n - coefficients.len(),
        {
            coefficients.push(Expression::zero());
        }
        let mut i: usize = 0;
        proof {
            assert forall|j: int| 0 <= j < n implies #[trigger] coefficients@[j]@ == partial_coefficient(m, ts.take(0), variable, j) by {
                assert(partial_coefficient(m, ts.take(0), variable, j) =~= Map::<Map<Variable, int>, (int, int)>::empty());
            }
        }
        while i < terms.len()
            invariant
                0 <= i <= terms.len(),
                terms@.len() == ts.len(),
                forall|k: int| 0 <= k < ts.len() ==> #[trigger] ts[k] == terms@[k]@,
                forall|k: int| 0 <= k < terms@.len() ==> (#[trigger] terms@[k]).wf(),
                coefficients@.len() == n,
                n == hp + 1,
                forall|j: int| 0 <= j < n ==> (#[trigger] coefficients@[j]).wf(),
                forall|j: int| 0 <= j < n ==> #[trigger] coefficients@[j]@ == partial_coefficient(m, ts.take(i as int), variable, j),
                expression_facts(m, ts),
            decreases terms.len() - i,
        {
            let mut t = terms[i].copy();
            let p = t.get_power_of_variable(&variable);
            t.set_power_of_variable(&variable, 0);
            let ghost big = ts[i as int].0;
            let ghost small = big.remove(variable);
            proof {
                assert(t@ == (small, ts[i as int].1));
                lemma_partial_step(m, ts, i as int, variable, p as int);
            }
            if 0 <= p && p <= hp {
                let idx = p as usize;
                let mut c = coefficients[idx].copy();
                proof {
                    assert(!c@.dom().contains(t@.0));
                }
                c.add_term(t);
                coefficients.set(idx, c);
            }
            i = i + 1;
        }
        proof {
            assert(ts.take(ts.len() as int) =~= ts);
            lemma_coefficients_complete(m, ts, variable, hp as int);
        }
        proof {
            assert(coefficients@.last()@ == coefficient_of(m, variable, hp as int));
        }
        let p = Polynomial::new(variable, coefficients);
        proof {
            assert(p@.1 =~= poly_from_expr(m, variable).1);
        }
        p
    }
}

impl Polynomial {
    /// A copy of the polynomial.
    pub fn copy(&self) -> (p: Polynomial)
        requires
            self.wf(),
        ensures
            p.wf(),
            p@ == self@,
    {
        let mut cs: Vec<Expression> = Vec::new();
        let mut i: usize = 0;
        while i < self.coefficients.len()
            invariant
                0 <= i <= self.coefficients.len(),
                self.wf(),
                cs@.len() == i,
                forall|j: int| 0 <= j < i ==> (#[trigger] cs@[j]).wf() && cs@[j]@ == self.coefficients@[j]@,
            decreases self.coefficients.len() - i,
        {
            cs.push(self.coefficients[i].copy());
            i = i + 1;
        }
        let p = Polynomial { variable: self.variable, coefficients: cs, order: self.order };
        proof {
            assert(expr_views(cs@) =~= expr_views(self.coefficients@));
        }
        p
    }

    /// A polynomial from coefficients, with trailing zero coefficients dropped.
    fn normalized(variable: Variable, coefficients: Vec<Expression>) -> (p: Polynomial)
        requires
            forall|i: int| 0 <= i < coefficients@.len() ==> (#[trigger] coefficients@[i]).wf(),
        ensures
            p.wf(),
            p@ == (variable, poly_normal(expr_views(coefficients@))),
    {
        let mut cs = coefficients;
        let ghost orig = expr_views(cs@);
        while cs.len() > 0 && cs[cs.len() - 1].is_zero()
            invariant
                forall|i: int| 0 <= i < cs@.len() ==> (#[trigger] cs@[i]).wf(),
                poly_trim(expr_views(cs@)) == poly_trim(orig),
            decreases cs.len(),
        {
            let ghost before = expr_views(cs@);
            cs.pop();
            proof {
                assert(expr_views(cs@) =~= before.drop_last());
            }
        }
        proof {
            assert(poly_trim(expr_views(cs@)) == expr_views(cs@));
        }
        Polynomial::new(variable, cs)
    }

    /// The same variable and the same coefficients.
    pub fn equals(&self, other: &Polynomial) -> (b: bool)
        requires
            self.wf(),
            other.wf(),
        ensures
            b == (self@ == other@),
    {
        if self.variable != other.variable || self.coefficients.len() != other.coefficients.len() {
            proof {
                if self.coefficients.len() != other.coefficients.len() {
                    assert(self@.1.len() != other@.1.len());
                }
            }
            return false;
        }
        let mut i: usize = 0;
        while i < self.coefficients.len()
            invariant
                0 <= i <= self.coefficients.len(),
                self.wf(),
                other.wf(),
                self.coefficients@.len() == other.coefficients@.len(),
                forall|k: int| 0 <= k < i ==> self.coefficients@[k]@ == other.coefficients@[k]@,
            decreases self.coefficients.len() - i,
        {
            proof {
                self.coefficients@[i as int].lemma_same_terms(&other.coefficients@[i as int]);
            }
            if !self.coefficients[i].equals(&other.coefficients[i]) {
                proof {
                    assert(self@.1[i as int] != other@.1[i as int]);
                }
                return false;
            }
            i = i + 1;
        }
        proof {
            assert(self@.1 =~= other@.1);
        }
        true
    }

    /// Negation: every coefficient changes sign.
    pub fn neg(self) -> (p: Polynomial)
        requires
            self.wf(),
        ensures
            p.wf(),
            p@ == (self@.0, Seq::new(self@.1.len(), |i: int| expr_neg(self@.1[i]))),
    {
        let mut cs: Vec<Expression> = Vec::new();
        let mut i: usize = 0;
        while i < self.coefficients.len()
            invariant
                0 <= i <= self.coefficients.len(),
                self.wf(),
                cs@.len() == i,
                forall|j: int| 0 <= j < i ==> (#[trigger] cs@[j]).wf() && cs@[j]@ == expr_neg(self.coefficients@[j]@),
            decreases self.coefficients.len() - i,
        {
            cs.push(self.coefficients[i].copy().neg());
            i = i + 1;
        }
        let ghost target = Seq::new(self@.1.len(), |i: int| expr_neg(self@.1[i]));
        proof {
            assert(expr_views(cs@) =~= target);
            if cs@.len() > 1 {
                let last = self.coefficients@.last()@;
                let k = last.dom().choose();
                if last.dom().len() == 0 {
                    self.coefficients@.last().lemma_view_values();
                    last.dom().lemma_len0_is_empty();
                    assert(last =~= Map::<Map<Variable, int>, (int, int)>::empty());
                }
                assert(last.dom().contains(k));
                assert(cs@.last()@.dom().contains(k));
            }
        }
        Polynomial { variable: self.variable, coefficients: cs, order: self.order }
    }

    /// The sum of two polynomials in the same variable.
    pub fn add(self, rhs: Polynomial) -> (p: Polynomial)
        requires
            self.wf(),
            rhs.wf(),
            self@.0 == rhs@.0,
            poly_add_fits(self@, rhs@),
        ensures
            p.wf(),
            p@ == poly_add(self@, rhs@),
    {
        let n1 = self.coefficients.len();
        let n2 = rhs.coefficients.len();
        let n = if n1 >= n2 { n1 } else { n2 };
        let ghost a = self@.1;
        let ghost b = rhs@.1;
        let mut cs: Vec<Expression> = Vec::new();
        let mut i: usize = 0;
        while i < n
            invariant
                0 <= i <= n,
                n == max_len(n1 as int, n2 as int),
                self.wf(),
                rhs.wf(),
                n1 == self.coefficients@.len(),
                n2 == rhs.coefficients@.len(),
                a == self@.1,
                b == rhs@.1,
                poly_add_fits(self@, rhs@),
                cs@.len() == i,
                forall|j: int| 0 <= j < i ==> (#[trigger] cs@[j]).wf() && cs@[j]@ == expr_add(pad(a, j), pad(b, j)),
            decreases n - i,
        {
            let c = if i < n1 && i < n2 {
                proof {
                    assert(expr_add_fits(a[i as int], b[i as int]));
                }
                self.coefficients[i].copy().add(rhs.coefficients[i].copy())
            } else if i < n1 {
                proof {
                    self.coefficients@[i as int].lemma_view_values();
                    lemma_expr_add_zero_right(a[i as int]);
                }
                self.coefficients[i].copy()
            } else {
                proof {
                    rhs.coefficients@[i as int].lemma_view_values();
                    lemma_expr_add_zero_left(b[i as int]);
                }
                rhs.coefficients[i].copy()
            };
            cs.push(c);
            i = i + 1;
        }
        proof {
            assert(expr_views(cs@) =~= Seq::new(max_len(a.len() as int, b.len() as int) as nat,
                |i: int| expr_add(pad(a, i), pad(b, i))));
        }
        Polynomial::normalized(self.variable, cs)
    }

    /// The difference of two polynomials in the same variable.
    pub fn sub(self, rhs: Polynomial) -> (p: Polynomial)
        requires
            self.wf(),
            rhs.wf(),
            self@.0 == rhs@.0,
            poly_sub_fits(self@, rhs@),
        ensures
            p.wf(),
            p@ == poly_sub(self@, rhs@),
    {
        let n1 = self.coefficients.len();
        let n2 = rhs.coefficients.len();
        let n = if n1 >= n2 { n1 } else { n2 };
        let ghost a = self@.1;
        let ghost b = rhs@.1;
        let mut cs: Vec<Expression> = Vec::new();
        let mut i: usize = 0;
        proof {
            assert(expr_neg(Map::<Map<Variable, int>, (int, int)>::empty()) =~= Map::<Map<Variable, int>, (int, int)>::empty());
        }
        while i < n
            invariant
                0 <= i <= n,
                n == max_len(n1 as int, n2 as int),
                self.wf(),
                rhs.wf(),
                n1 == self.coefficients@.len(),
                n2 == rhs.coefficients@.len(),
                a == self@.1,
                b == rhs@.1,
                poly_sub_fits(self@, rhs@),
                expr_neg(Map::<Map<Variable, int>, (int, int)>::empty()) == Map::<Map<Variable, int>, (int, int)>::empty(),
                cs@.len() == i,
                forall|j: int| 0 <= j < i ==> (#[trigger] cs@[j]).wf() && cs@[j]@ == expr_add(pad(a, j), expr_neg(pad(b, j))),
            decreases n - i,
        {
            let c = if i < n1 && i < n2 {
                proof {
                    assert(expr_add_fits(a[i as int], expr_neg(b[i as int])));
                }
                self.coefficients[i].copy().sub(rhs.coefficients[i].copy())
            } else if i < n1 {
                proof {
                    self.coefficients@[i as int].lemma_view_values();
                    lemma_expr_add_zero_right(a[i as int]);
                }
                self.coefficients[i].copy()
            } else {
                let c = rhs.coefficients[i].copy().neg();
                proof {
                    c.lemma_view_values();
                    lemma_expr_add_zero_left(c@);
                }
                c
            };
            cs.push(c);
            i = i + 1;
        }
        proof {
            assert(expr_views(cs@) =~= Seq::new(max_len(a.len() as int, b.len() as int) as nat,
                |i: int| expr_add(pad(a, i), expr_neg(pad(b, i)))));
        }
        Polynomial::normalized(self.variable, cs)
    }

    /// The product of two polynomials in the same variable.
    pub fn mul(self, rhs: Polynomial) -> (p: Polynomial)
        requires
            self.wf(),
            rhs.wf(),
            self@.0 == rhs@.0,
            poly_mul_fits(self@, rhs@),
        ensures
            p.wf(),
            p@ == poly_mul(self@, rhs@),
    {
        let variable = self.variable;
        let e1 = self.to_expression();
        let e2 = rhs.to_expression();
        Polynomial::from_expression(e1.mul(e2), variable)
    }

    /// The quotient of two polynomials in the same variable, as a rational expression.
    pub fn div(self, rhs: Polynomial) -> (r: RationalExpression)
        requires
            self.wf(),
            rhs.wf(),
            self@.0 == rhs@.0,
            poly_expr_fits(self@.0, self@.1),
            poly_expr_fits(rhs@.0, rhs@.1),
            rexpr_div_fits((poly_expr(self@.0, self@.1), expr_one()), (poly_expr(rhs@.0, rhs@.1), expr_one())),
        ensures
            r.wf(),
            r@ == rexpr_div((poly_expr(self@.0, self@.1), expr_one()), (poly_expr(rhs@.0, rhs@.1), expr_one())),
    {
        let e1 = self.to_expression();
        let e2 = rhs.to_expression();
        RationalExpression::from_expression(e1).div(RationalExpression::from_expression(e2))
    }

    /// Adds an expression: `p + e` as a polynomial in the same variable.
    pub fn add_expression(self, rhs: Expression) -> (p: Polynomial)
        requires
            self.wf(),
            rhs.wf(),
            poly_expr_fits(self@.0, self@.1),
            expr_add_fits(poly_expr(self@.0, self@.1), rhs@),
            poly_from_expr_fits(expr_add(poly_expr(self@.0, self@.1), rhs@), self@.0),
        ensures
            p.wf(),
            p@ == poly_from_expr(expr_add(poly_expr(self@.0, self@.1), rhs@), self@.0),
    {
        let variable = self.variable;
        Polynomial::from_expression(self.to_expression().add(rhs), variable)
    }

    /// Subtracts an expression: `p - e` as a polynomial in the same variable.
    pub fn sub_expression(self, rhs: Expression) -> (p: Polynomial)
        requires
            self.wf(),
            rhs.wf(),
            poly_expr_fits(self@.0, self@.1),
            expr_add_fits(poly_expr(self@.0, self@.1), expr_neg(rhs@)),
            poly_from_expr_fits(expr_add(poly_expr(self@.0, self@.1), expr_neg(rhs@)), self@.0),
        ensures
            p.wf(),
            p@ == poly_from_expr(expr_add(poly_expr(self@.0, self@.1), expr_neg(rhs@)), self@.0),
    {
        let variable = self.variable;
        Polynomial::from_expression(self.to_expression().sub(rhs), variable)
    }

    /// Multiplies by an expression: `p e` as a polynomial in the same variable.
    pub fn mul_expression(self, rhs: Expression) -> (p: Polynomial)
        requires
            self.wf(),
            rhs.wf(),
            poly_expr_fits(self@.0, self@.1),
            expr_mul_fits(poly_expr(self@.0, self@.1), rhs@),
            poly_from_expr_fits(expr_mul(poly_expr(self@.0, self@.1), rhs@), self@.0),
        ensures
            p.wf(),
            p@ == poly_from_expr(expr_mul(poly_expr(self@.0, self@.1), rhs@), self@.0),
    {
        let variable = self.variable;
        Polynomial::from_expression(self.to_expression().mul(rhs), variable)
    }

    /// Divides by a term that does not contain the polynomial's variable.
    pub fn div_term(self, rhs: Term) -> (p: Polynomial)
        requires
            self.wf(),
            rhs.wf(),
            !(rhs@.0.dom().contains(self@.0) && rhs@.1 != rat_zero()),
            poly_expr_fits(self@.0, self@.1),
            poly_expr(self@.0, self@.1) != Map::<Map<Variable, int>, (int, int)>::empty() ==> {
                &&& rhs@.1 != rat_zero()
                &&& div_term_fits(poly_expr(self@.0, self@.1), rhs@)
            },
            poly_from_expr_fits(expr_div_term(poly_expr(self@.0, self@.1), rhs@), self@.0),
        ensures
            p.wf(),
            p@ == poly_from_expr(expr_div_term(poly_expr(self@.0, self@.1), rhs@), self@.0),
    {
        let variable = self.variable;
        let e = self.to_expression();
        if e.is_zero() {
            proof {
                assert(expr_div_term(e@, rhs@) =~= e@);
            }
            return Polynomial::from_expression(e, variable);
        }
        Polynomial::from_expression(e.div_term(&rhs), variable)
    }

    /// Adds polynomials defined over the same variable; the list must not be empty.
    pub fn sum(polynomials: Vec<Polynomial>) -> (p: Polynomial)
        requires
            polynomials@.len() >= 1,
            forall|i: int| 0 <= i < polynomials@.len() ==> (#[trigger] polynomials@[i]).wf(),
            forall|i: int| 0 <= i < polynomials@.len() ==> (#[trigger] polynomials@[i])@.0 == polynomials@[0]@.0,
            poly_sum_fits(poly_views(polynomials@)),
        ensures
            p.wf(),
            p@ == poly_sum(poly_views(polynomials@)),
    {
        let ghost s = poly_views(polynomials@);
        let mut acc = polynomials[0].copy();
        let mut i: usize = 1;
        proof {
            assert(s.take(1) =~= seq![s[0]]);
        }
        while i < polynomials.len()
            invariant
                1 <= i <= polynomials.len(),
                s == poly_views(polynomials@),
                forall|k: int| 0 <= k < polynomials@.len() ==> (#[trigger] polynomials@[k]).wf(),
                forall|k: int| 0 <= k < polynomials@.len() ==> (#[trigger] polynomials@[k])@.0 == polynomials@[0]@.0,
                poly_sum_fits(s),
                acc.wf(),
                acc@ == poly_sum(s.take(i as int)),
                acc@.0 == polynomials@[0]@.0,
            decreases polynomials.len() - i,
        {
            proof {
                lemma_poly_sum_fits_take(s, i + 1);
                assert(s.take(i + 1).drop_last() =~= s.take(i as int));
                assert(s.take(i + 1).last() == polynomials@[i as int]@);
            }
            acc = acc.add(polynomials[i].copy());
            i = i + 1;
        }
        proof {
            assert(s.take(s.len() as int) =~= s);
        }
        acc
    }

    /// Multiplies polynomials defined over the same variable; the list must not be empty.
    pub fn product(polynomials: Vec<Polynomial>) -> (p: Polynomial)
        requires
            polynomials@.len() >= 1,
            forall|i: int| 0 <= i < polynomials@.len() ==> (#[trigger] polynomials@[i]).wf(),
            forall|i: int| 0 <= i < polynomials@.len() ==> (#[trigger] polynomials@[i])@.0 == polynomials@[0]@.0,
            poly_product_fits(poly_views(polynomials@)),
        ensures
            p.wf(),
            p@ == poly_product(poly_views(polynomials@)),
    {
        let ghost s = poly_views(polynomials@);
        let mut acc = polynomials[0].copy();
        let mut i: usize = 1;
        proof {
            assert(s.take(1) =~= seq![s[0]]);
        }
        while i < polynomials.len()
            invariant
                1 <= i <= polynomials.len(),
                s == poly_views(polynomials@),
                forall|k: int| 0 <= k < polynomials@.len() ==> (#[trigger] polynomials@[k]).wf(),
                forall|k: int| 0 <= k < polynomials@.len() ==> (#[trigger] polynomials@[k])@.0 == polynomials@[0]@.0,
                poly_product_fits(s),
                acc.wf(),
                acc@ == poly_product(s.take(i as int)),
                acc@.0 == polynomials@[0]@.0,
            decreases polynomials.len() - i,
        {
            proof {
                lemma_poly_product_fits_take(s, i + 1);
                assert(s.take(i + 1).drop_last() =~= s.take(i as int));
                assert(s.take(i + 1).last() == polynomials@[i as int]@);
            }
            acc = acc.mul(polynomials[i].copy());
            i = i + 1;
        }
        proof {
            assert(s.take(s.len() as int) =~= s);
        }
        acc
    }

    /// Evaluates the polynomial at an expression: the variable is replaced by it.
    pub fn eval_at_expression(&self, expression: Expression) -> (e: Expression)
        requires
            self.wf(),
            expression.wf(),
            poly_expr_fits(self@.0, self@.1),
            subst_many_seq_fits(canonical_terms(poly_expr(self@.0, self@.1)), seq![(self@.0, expression@)]),
        ensures
            e.wf(),
            e@ == subst_many_seq(canonical_terms(poly_expr(self@.0, self@.1)), seq![(self@.0, expression@)]),
    {
        let poly_expression = self.to_expression();
        let ghost ev = expression@;
        let mut subs: Vec<(Variable, Expression)> = Vec::new();
        subs.push((self.variable, expression));
        proof {
            assert(expr_subst_views(subs@) =~= seq![(self@.0, ev)]);
        }
        poly_expression.substitute_multiple_variables_with_expressions(subs)
    }

    /// The `n`-th derivative with respect to the polynomial's variable, as a polynomial.
    pub fn compute_nth_derivative(&self, n: usize) -> (p: Polynomial)
        requires
            self.wf(),
            poly_expr_fits(self@.0, self@.1),
            forall|k: nat| k < n ==> expr_nth_deriv_fits(#[trigger] expr_iter_deriv(poly_expr(self@.0, self@.1), k, self@.0), 1, self@.0),
            poly_from_expr_fits(expr_iter_deriv(poly_expr(self@.0, self@.1), n as nat, self@.0), self@.0),
        ensures
            p.wf(),
            p@ == poly_from_expr(expr_iter_deriv(poly_expr(self@.0, self@.1), n as nat, self@.0), self@.0),
    {
        let output = self.to_expression();
        let output = output.calculate_nth_derivate_wrt_variable(n, &self.variable);
        Polynomial::from_expression(output, self.variable)
    }

    fn text(&self, sympy: bool) -> (s: String)
        requires
            self.wf(),
            self@.1.len() - 1 <= i32::MAX,
            !sympy ==> poly_displayable(self@),
        ensures
            s@ == poly_text(self@, sympy),
    {
        let ghost cs = self@.1;
        let len = self.coefficients.len();
        if len == 1 && self.coefficients[0].is_zero() {
            let s = "0".to_string();
            proof {
                reveal_strlit("0");
            }
            return s;
        }
        let mut data = String::new();
        let mut k: usize = 0;
        while k < len
            invariant
                0 <= k <= len,
                len == self.coefficients@.len(),
                len - 1 <= i32::MAX,
                self.wf(),
                cs == self@.1,
                !sympy ==> poly_displayable(self@),
                data@ == poly_text_upto(self@.0, cs, sympy, k as int),
            decreases len - k,
        {
            let ghost before = data@;
            let c = &self.coefficients[k];
            if !c.is_zero() {
                proof {
                    if !sympy {
                        assert(cs[k as int] == self.coefficients@[k as int]@);
                        assert(crate::forms::expression::expr_displayable(cs[k as int]));
                    }
                }
                push_char(&mut data, '(');
                let body = c.text(sympy);
                push_str(&mut data, body.as_str());
                push_char(&mut data, ')');
                if k > 0 {
                    let t = self.variable.pow(k as i64);
                    proof {
                        if !sympy {
                            lemma_power_term_displayable(self@.0, k as int);
                        }
                    }
                    if sympy {
                        push_char(&mut data, '*');
                        let ts = t.to_string_sympy();
                        push_str(&mut data, ts.as_str());
                    } else {
                        let ts = t.to_string();
                        push_str(&mut data, ts.as_str());
                    }
                }
                if k < len - 1 {
                    push_char(&mut data, ' ');
                    push_char(&mut data, '+');
                    push_char(&mut data, ' ');
                }
                proof {
                    assert(data@ =~= before + poly_entry_text(self@.0, cs, k as int, sympy));
                }
            }
            k = k + 1;
        }
        proof {
            assert(cs.len() != 1 || cs[0] != Map::<Map<Variable, int>, (int, int)>::empty());
        }
        data
    }

    /// The text of the polynomial, e.g. `(c) + (b)x + (a)x²`.
    pub fn to_string(&self) -> (s: String)
        requires
            self.wf(),
            self@.1.len() - 1 <= i32::MAX,
            poly_displayable(self@),
        ensures
            s@ == poly_text(self@, false),
    {
        self.text(false)
    }

    /// Returns the polynomial's SymPy-compatible string representation, e.g. `(c) + (b)*x + (a)*x**2`.
    pub fn to_string_sympy(&self) -> (s: String)
        requires
            self.wf(),
            self@.1.len() - 1 <= i32::MAX,
        ensures
            s@ == poly_text(self@, true),
    {
        self.text(true)
    }
}

/// The partial sums of a list of polynomials fit when the whole sum does.
pub proof fn lemma_poly_sum_fits_take(s: Seq<PolyV>, i: int)
    requires
        poly_sum_fits(s),
        1 <= i <= s.len(),
    ensures
        poly_sum_fits(s.take(i)),
    decreases s.len() - i,
{
    if i == s.len() {
        assert(s.take(i) =~= s);
    } else {
        lemma_poly_sum_fits_take(s, i + 1);
        assert(s.take(i + 1).drop_last() =~= s.take(i));
    }
}

/// The partial products of a list of polynomials fit when the whole product does.
pub proof fn lemma_poly_product_fits_take(s: Seq<PolyV>, i: int)
    requires
        poly_product_fits(s),
        1 <= i <= s.len(),
    ensures
        poly_product_fits(s.take(i)),
    decreases s.len() - i,
{
    if i == s.len() {
        assert(s.take(i) =~= s);
    } else {
        lemma_poly_product_fits_take(s, i + 1);
        assert(s.take(i + 1).drop_last() =~= s.take(i));
    }
}

impl Polynomial {
    /// Constructs an elementary symmetric polynomial tracker for the roots of the
    /// polynomial, written `root₁ ... rootₙ` for a polynomial of order `n`: by
    /// Vieta's formulas `eₖ` is `(-1)^k c_{n-k} / c_n`. The leading coefficient
    /// must be a single term.
    pub fn construct_esc_for_roots(&self, root_variable: char) -> (r: ElementarySymmetricPolynomials)
        requires
            self.wf(),
            self@.1.last().dom().len() <= 1,
            self@.1.len() - 1 < i64::MAX,
            representations_fit(root_variables(root_variable, self@.1.len() - 1)),
            forall|k: int| 1 <= k <= self@.1.len() - 1 ==> #[trigger] esc_coefficient_fits(self@.1, k),
        ensures
            r.wf(),
            r.vars() == root_variables(root_variable, self@.1.len() - 1),
            r.representations() == representations_of(root_variables(root_variable, self@.1.len() - 1)),
            forall|k: int| 1 <= k <= self@.1.len() - 1 ==> #[trigger] r.substitution(k) == Some(esc_coefficient(self@.1, k)),
            forall|k: int| 1 <= k <= self@.1.len() - 1 ==> (#[trigger] r.substitution(k) matches Some(e)
                && expr_mul_term(expr_mul_term(e, crate::forms::expression::expr_single(self@.1.last())), scalar(sign_of(k)))
                    == self@.1[self@.1.len() - 1 - k]),
    {
        let ghost cs = self@.1;
        let order = self.order;
        let leading_coeff = self.coefficients[order].to_single_term();
        let mut esc_variables: Vec<Variable> = Vec::new();
        let mut k: usize = 0;
        while k < order
            invariant
                0 <= k <= order,
                order == self.order,
                self.wf(),
                (order as int) < i64::MAX,
                esc_variables@ == root_variables(root_variable, k as int),
            decreases order - k,
        {
            let v = Variable::new(root_variable, Some((k + 1) as i64));
            esc_variables.push(v);
            proof {
                assert(esc_variables@ =~= root_variables(root_variable, k + 1));
            }
            k = k + 1;
        }
        let ghost rv = root_variables(root_variable, order as int);
        proof {
            assert forall|i: int, j: int| 0 <= i < rv.len() && 0 <= j < rv.len() && i != j implies rv[i] != rv[j] by {
                Variable::lemma_eq(rv[i], rv[j]);
                crate::forms::variable::lemma_named(root_variable, Some((i + 1) as i64));
                crate::forms::variable::lemma_named(root_variable, Some((j + 1) as i64));
            }
            lemma_distinct_in_order(rv);
            if order > 0 {
                self.coefficients@[order as int].lemma_view_values();
                crate::forms::expression::lemma_single_nonzero(cs[order as int]);
            }
        }
        let total = self.coefficients.len();
        proof {
            assert(order == total - 1);
        }
        let mut esc = ElementarySymmetricPolynomials::from_variables(&esc_variables);
        let mut combination_length: usize = 1;
        while combination_length <= order
            invariant
                1 <= combination_length <= order + 1,
                order == self.order,
                order < usize::MAX,
                rv.len() == order,
                self.wf(),
                cs == self@.1,
                (order as int) < i64::MAX,
                esc.wf(),
                esc.vars() == rv,
                esc.representations() == representations_of(rv),
                leading_coeff.wf(),
                leading_coeff@ == crate::forms::expression::expr_single(cs[order as int]),
                order > 0 ==> leading_coeff@.1 != rat_zero(),
                forall|k: int| 1 <= k <= order ==> #[trigger] esc_coefficient_fits(cs, k),
                forall|k: int| 1 <= k < combination_length ==> #[trigger] esc.substitution(k) == Some(esc_coefficient(cs, k)),
            decreases order + 1 - combination_length,
        {
            let minus_one_to_power: i64 = if combination_length % 2 == 0 { 1 } else { -1 };
            proof {
                assert(minus_one_to_power as int == sign_of(combination_length as int));
                assert(esc_coefficient_fits(cs, combination_length as int));
                crate::forms::term::lemma_rat_one_mul((1int, 1int));
            }
            let numerator = self.coefficients[order - combination_length].copy();
            let signed = numerator.mul_term(&Term::from_integer(minus_one_to_power));
            let value = signed.div_term(&leading_coeff);
            esc.set_ek_substitution_as(combination_length, value);
            combination_length = combination_length + 1;
        }
        proof {
            if order > 0 {
                assert forall|i: int| 0 <= i < cs.len() implies crate::products::is_expression(#[trigger] cs[i]) by {
                    self.coefficients@[i].lemma_is_expression();
                }
                self.coefficients@[order as int].lemma_view_values();
                let last = cs[order as int];
                if last.dom().len() == 0 {
                    last.dom().lemma_len0_is_empty();
                    assert(last =~= Map::<Map<Variable, int>, (int, int)>::empty());
                }
                assert forall|k: int| 1 <= k <= cs.len() - 1 implies (#[trigger] esc.substitution(k) matches Some(e)
                    && expr_mul_term(expr_mul_term(e, crate::forms::expression::expr_single(cs.last())), scalar(sign_of(k)))
                        == cs[cs.len() - 1 - k]) by {
                    crate::vieta::law_vieta(cs, k);
                }
            }
        }
        esc
    }
}

/// What the canonical terms `ts` of the expression `m` say about it.
pub open spec fn expression_facts(m: ExprV, ts: Seq<TermV>) -> bool {
    &&& forall|i: int| 0 <= i < ts.len() ==> m.dom().contains(#[trigger] ts[i].0) && m[ts[i].0] == ts[i].1
    &&& forall|k: Map<Variable, int>| #[trigger] m.dom().contains(k) ==> exists|i: int| 0 <= i < ts.len() && #[trigger] ts[i].0 == k
    &&& forall|i: int, j: int| 0 <= i < ts.len() && 0 <= j < ts.len() && i != j ==> #[trigger] ts[i].0 != #[trigger] ts[j].0
    &&& forall|i: int| 0 <= i < ts.len() ==> valid_powers(#[trigger] ts[i].0) && ts[i].1 != rat_zero()
}

/// Adding the `i`-th term (with `v` taken out) to the coefficient of its power of
/// `v` gives the partial coefficients up to `i + 1`; the others do not change.
pub proof fn lemma_partial_step(m: ExprV, ts: Seq<TermV>, i: int, v: Variable, p: int)
    requires
        expression_facts(m, ts),
        0 <= i < ts.len(),
        p == pw(ts[i].0, v),
    ensures
        ({
            let small = ts[i].0.remove(v);
            &&& !partial_coefficient(m, ts.take(i), v, p).dom().contains(small)
            &&& partial_coefficient(m, ts.take(i + 1), v, p)
                == expr_add_term(partial_coefficient(m, ts.take(i), v, p), (small, ts[i].1))
            &&& forall|j: int| j != p ==> #[trigger] partial_coefficient(m, ts.take(i + 1), v, j)
                == partial_coefficient(m, ts.take(i), v, j)
        }),
{
    let big = ts[i].0;
    let small = big.remove(v);
    assert(with_power(small, v, p) =~= big) by {
        if p == 0 {
            assert(!big.dom().contains(v));
        }
    }
    let s0 = ts.take(i);
    let s1 = ts.take(i + 1);
    if partial_coefficient(m, s0, v, p).dom().contains(small) {
        let k = choose|k: int| 0 <= k < s0.len() && #[trigger] s0[k].0 == with_power(small, v, p);
        assert(s0[k] == ts[k]);
    }
    assert(partial_coefficient(m, s1, v, p) =~= partial_coefficient(m, s0, v, p).insert(small, ts[i].1)) by {
        assert forall|k: Map<Variable, int>| #[trigger] partial_coefficient(m, s1, v, p).dom().contains(k)
            == partial_coefficient(m, s0, v, p).insert(small, ts[i].1).dom().contains(k) by {
            if partial_coefficient(m, s1, v, p).dom().contains(k) && k != small {
                let x = choose|x: int| 0 <= x < s1.len() && #[trigger] s1[x].0 == with_power(k, v, p);
                if x == i {
                    assert(with_power(k, v, p) == big);
                    assert(k =~= small) by {
                        if p != 0 {
                            assert(k =~= with_power(k, v, p).remove(v));
                        } else {
                            assert(!big.dom().contains(v));
                            assert(small =~= big);
                        }
                    }
                }
                assert(s0[x] == s1[x]);
            }
            if partial_coefficient(m, s0, v, p).dom().contains(k) {
                let x = choose|x: int| 0 <= x < s0.len() && #[trigger] s0[x].0 == with_power(k, v, p);
                assert(s1[x] == s0[x]);
            }
            if k == small {
                assert(s1[i] == ts[i]);
            }
        }
    }
    assert forall|j: int| j != p implies #[trigger] partial_coefficient(m, s1, v, j) == partial_coefficient(m, s0, v, j) by {
        assert forall|k: Map<Variable, int>| #[trigger] partial_coefficient(m, s1, v, j).dom().contains(k)
            == partial_coefficient(m, s0, v, j).dom().contains(k) by {
            if partial_coefficient(m, s1, v, j).dom().contains(k) {
                let x = choose|x: int| 0 <= x < s1.len() && #[trigger] s1[x].0 == with_power(k, v, j);
                if x == i {
                    assert(pw(with_power(k, v, j), v) == j);
                }
                assert(s0[x] == s1[x]);
            }
            if partial_coefficient(m, s0, v, j).dom().contains(k) {
                let x = choose|x: int| 0 <= x < s0.len() && #[trigger] s0[x].0 == with_power(k, v, j);
                assert(s1[x] == s0[x]);
            }
        }
        assert(partial_coefficient(m, s1, v, j) =~= partial_coefficient(m, s0, v, j));
    }
}

/// Once all terms are placed, the partial coefficients are the coefficients, and
/// the one of the highest power is not 0.
pub proof fn lemma_coefficients_complete(m: ExprV, ts: Seq<TermV>, v: Variable, hp: int)
    requires
        expression_facts(m, ts),
        ts.len() > 0,
        hp == max_power_in(ts, v),
    ensures
        forall|j: int| #[trigger] partial_coefficient(m, ts, v, j) == coefficient_of(m, v, j),
        coefficient_of(m, v, hp) != Map::<Map<Variable, int>, (int, int)>::empty(),
{
    assert forall|j: int| #[trigger] partial_coefficient(m, ts, v, j) == coefficient_of(m, v, j) by {
        assert forall|k: Map<Variable, int>| #[trigger] partial_coefficient(m, ts, v, j).dom().contains(k)
            == coefficient_of(m, v, j).dom().contains(k) by {
            if coefficient_of(m, v, j).dom().contains(k) {
                let x = choose|x: int| 0 <= x < ts.len() && #[trigger] ts[x].0 == with_power(k, v, j);
            }
        }
        assert(partial_coefficient(m, ts, v, j) =~= coefficient_of(m, v, j));
    }
    lemma_max_power_in(ts, v);
    let x = choose|x: int| 0 <= x < ts.len() && pw(#[trigger] ts[x].0, v) == max_power_in(ts, v);
    let big = ts[x].0;
    let small = big.remove(v);
    assert(with_power(small, v, hp) =~= big) by {
        if hp == 0 {
            assert(!big.dom().contains(v));
        }
    }
    assert(coefficient_of(m, v, hp).dom().contains(small));
}

} // verus!
