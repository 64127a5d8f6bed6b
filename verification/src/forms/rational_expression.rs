//! Rational expressions: a numerator and a denominator, both expressions.
//! Multiplying both by the same thing does not change the value, so two rational
//! expressions may hold different parts and still be equal (`equals`).

use vstd::prelude::*;
use crate::text::{push_str, push_char};
use crate::forms::variable::Variable;
use crate::rational::{Rational, rat_one, rat_mul, mul_fits, lemma_gcd_one};
use crate::products::is_expression;
use crate::forms::expression::expr_displayable;
use crate::forms::monomial::{mono_wf, power_in, mono_get, mono_set, i64_range};
use crate::forms::term::{Term, TermV, term_pow, pw, lemma_pw_mono_map, lemma_mono_map_eq, lemma_power_take, lemma_take_absent};
use crate::forms::term_lcm::{term_lcm, lcm_powers, powers_max, max_power, multiplier_product, multiplier_product_fits};
use vstd::arithmetic::power::{lemma_pow1, pow};
use crate::forms::expression::{
    Expression, ExprV, expr_add, expr_add_fits, expr_neg, expr_mul, expr_mul_fits, expr_one, expr_pow,
    expr_pow_fits, expr_mul_term, mul_term_fits, expr_div_term, div_term_fits, expr_single, expr_text,
    canonical_terms, subst_power_seq, subst_power_seq_fits, subst_many_seq, subst_many_seq_fits,
    expr_subst_views, expr_of_term, expr_nth_deriv, expr_nth_deriv_fits, term_views,
};

verus! {

/// A rational expression as mathematics sees it: numerator and denominator.
pub type RatExprV = (ExprV, ExprV);

/// The empty map: the expression 0.
pub open spec fn expr_zero() -> ExprV {
    Map::empty()
}

/// `a/b + c/d = (a d + c b) / (b d)`.
pub open spec fn rexpr_add(a: RatExprV, b: RatExprV) -> RatExprV {
    (expr_add(expr_mul(a.0, b.1), expr_mul(b.0, a.1)), expr_mul(a.1, b.1))
}

/// The sum stays in `i64` and its denominator is not 0.
pub open spec fn rexpr_add_fits(a: RatExprV, b: RatExprV) -> bool {
    &&& expr_mul_fits(a.0, b.1)
    &&& expr_mul_fits(b.0, a.1)
    &&& expr_add_fits(expr_mul(a.0, b.1), expr_mul(b.0, a.1))
    &&& expr_mul_fits(a.1, b.1)
    &&& expr_mul(a.1, b.1) != expr_zero()
}

/// `a/b - c/d = (a d - c b) / (b d)`.
pub open spec fn rexpr_sub(a: RatExprV, b: RatExprV) -> RatExprV {
    (expr_add(expr_mul(a.0, b.1), expr_neg(expr_mul(b.0, a.1))), expr_mul(a.1, b.1))
}

pub open spec fn rexpr_sub_fits(a: RatExprV, b: RatExprV) -> bool {
    &&& expr_mul_fits(a.0, b.1)
    &&& expr_mul_fits(b.0, a.1)
    &&& expr_add_fits(expr_mul(a.0, b.1), expr_neg(expr_mul(b.0, a.1)))
    &&& expr_mul_fits(a.1, b.1)
    &&& expr_mul(a.1, b.1) != expr_zero()
}

/// `(a/b) (c/d) = (a c) / (b d)`.
pub open spec fn rexpr_mul(a: RatExprV, b: RatExprV) -> RatExprV {
    (expr_mul(a.0, b.0), expr_mul(a.1, b.1))
}

pub open spec fn rexpr_mul_fits(a: RatExprV, b: RatExprV) -> bool {
    &&& expr_mul_fits(a.0, b.0)
    &&& expr_mul_fits(a.1, b.1)
    &&& expr_mul(a.1, b.1) != expr_zero()
}

/// `(a/b) / (c/d) = (a d) / (b c)`.
pub open spec fn rexpr_div(a: RatExprV, b: RatExprV) -> RatExprV {
    (expr_mul(a.0, b.1), expr_mul(a.1, b.0))
}

pub open spec fn rexpr_div_fits(a: RatExprV, b: RatExprV) -> bool {
    &&& expr_mul_fits(a.0, b.1)
    &&& expr_mul_fits(a.1, b.0)
    &&& expr_mul(a.1, b.0) != expr_zero()
}

/// A rational expression raised to an integer power: for 0 the default value
/// `0/1`, for a negative power the inverse raised to the opposite power.
pub open spec fn rexpr_pow(a: RatExprV, n: int) -> RatExprV {
    if n == 0 {
        (expr_zero(), expr_one())
    } else if n < 0 {
        (expr_pow(a.1, -n), expr_pow(a.0, -n))
    } else {
        (expr_pow(a.0, n), expr_pow(a.1, n))
    }
}

/// Raising to `n` is defined (no `0^0`, no zero denominator) and stays in `i64`.
pub open spec fn rexpr_pow_fits(a: RatExprV, n: int) -> bool {
    &&& n == 0 ==> a.0 != expr_zero()
    &&& n < 0 ==> {
        &&& n > i64::MIN
        &&& expr_pow_fits(a.1, -n)
        &&& expr_pow_fits(a.0, -n)
        &&& expr_pow(a.0, -n) != expr_zero()
    }
    &&& n > 0 ==> {
        &&& expr_pow_fits(a.0, n)
        &&& expr_pow_fits(a.1, n)
        &&& expr_pow(a.1, n) != expr_zero()
    }
}

/// Two rational expressions are equal when their cross products are.
pub open spec fn rexpr_equal(a: RatExprV, b: RatExprV) -> bool {
    expr_mul(a.0, b.1) == expr_mul(a.1, b.0)
}

pub open spec fn rexpr_equal_fits(a: RatExprV, b: RatExprV) -> bool {
    expr_mul_fits(a.0, b.1) && expr_mul_fits(a.1, b.0)
}

/// The quotient rule: `(n' d - n d') / d²`.
pub open spec fn rexpr_deriv(a: RatExprV, v: Variable) -> RatExprV {
    let dn = expr_nth_deriv(a.0, 1, v);
    let dd = expr_nth_deriv(a.1, 1, v);
    (expr_add(expr_mul(dn, a.1), expr_neg(expr_mul(a.0, dd))), expr_pow(a.1, 2))
}

pub open spec fn rexpr_deriv_fits(a: RatExprV, v: Variable) -> bool {
    let dn = expr_nth_deriv(a.0, 1, v);
    let dd = expr_nth_deriv(a.1, 1, v);
    &&& expr_nth_deriv_fits(a.0, 1, v)
    &&& expr_nth_deriv_fits(a.1, 1, v)
    &&& expr_mul_fits(dn, a.1)
    &&& expr_mul_fits(a.0, dd)
    &&& expr_add_fits(expr_mul(dn, a.1), expr_neg(expr_mul(a.0, dd)))
    &&& expr_pow_fits(a.1, 2)
    &&& expr_pow(a.1, 2) != expr_zero()
}

/// The text of a rational expression: `(numerator)/(denominator)`.
pub open spec fn rexpr_text(a: RatExprV, sympy: bool) -> Seq<char> {
    seq!['('] + expr_text(a.0, sympy) + seq![')', '/', '('] + expr_text(a.1, sympy) + seq![')']
}

/// The smaller of two powers, where 0 stands for a variable that does not occur.
pub open spec fn min_power(a: int, b: int) -> int {
    if a == 0 {
        b
    } else if b == 0 {
        a
    } else if a <= b {
        a
    } else {
        b
    }
}

/// Variable by variable, the smaller power of the two maps (a variable in one
/// map only keeps its power there).
pub open spec fn powers_min(a: Map<Variable, int>, b: Map<Variable, int>) -> Map<Variable, int> {
    Map::new(|v: Variable| min_power(pw(a, v), pw(b, v)) != 0, |v: Variable| min_power(pw(a, v), pw(b, v)))
}

/// The negative powers of `k` (for `positive`) or its positive powers (otherwise).
pub open spec fn sign_filter(k: Map<Variable, int>, positive: bool) -> Map<Variable, int> {
    Map::new(|v: Variable| if positive { pw(k, v) < 0 } else { pw(k, v) > 0 }, |v: Variable| pw(k, v))
}

/// For each variable, the smallest of the powers that `sign_filter` keeps, over all terms.
pub open spec fn sign_powers(s: Seq<TermV>, positive: bool) -> Map<Variable, int>
    decreases s.len(),
{
    if s.len() == 0 {
        Map::empty()
    } else {
        powers_min(sign_powers(s.drop_last(), positive), sign_filter(s.last().0, positive))
    }
}

/// The term by which both parts are scaled to change the sign of powers: the
/// product of the variables raised to the powers of `sign_powers`, inverted.
pub open spec fn sign_norm(m: ExprV, positive: bool) -> TermV {
    term_pow((sign_powers(canonical_terms(m), positive), rat_one()), -1)
}

/// The powers of `sign_norm` stay in the `i32` range in which variables are raised.
pub open spec fn sign_norm_fits(m: ExprV, positive: bool) -> bool {
    forall|v: Variable| #[trigger] sign_powers(canonical_terms(m), positive).dom().contains(v)
        ==> -i32::MAX <= sign_powers(canonical_terms(m), positive)[v] <= i32::MAX
}

/// Both parts multiplied by the lcm of the two scaling terms.
pub open spec fn rexpr_change_power(a: RatExprV, positive: bool) -> RatExprV {
    let l = term_lcm(seq![sign_norm(a.0, positive), sign_norm(a.1, positive)]);
    (expr_mul_term(a.0, l), expr_mul_term(a.1, l))
}

pub open spec fn rexpr_change_power_fits(a: RatExprV, positive: bool) -> bool {
    let l = term_lcm(seq![sign_norm(a.0, positive), sign_norm(a.1, positive)]);
    &&& sign_norm_fits(a.0, positive)
    &&& sign_norm_fits(a.1, positive)
    &&& mul_term_fits(a.0, l)
    &&& mul_term_fits(a.1, l)
}

/// Rational expression consisting of a numerator and a denominator, both of which are expressions.
#[derive(Debug)]
pub struct RationalExpression {
    numerator: Expression,
    denominator: Expression,
}

impl View for RationalExpression {
    type V = RatExprV;

    closed spec fn view(&self) -> RatExprV {
        (self.numerator@, self.denominator@)
    }
}

/// A copy of a list of substitutions.
fn copy_substitutions(s: &Vec<(Variable, Expression)>) -> (r: Vec<(Variable, Expression)>)
    requires
        forall|i: int| 0 <= i < s@.len() ==> (#[trigger] s@[i]).1.wf(),
    ensures
        r@.len() == s@.len(),
        forall|i: int| 0 <= i < r@.len() ==> (#[trigger] r@[i]).1.wf(),
        expr_subst_views(r@) == expr_subst_views(s@),
{
    let mut r: Vec<(Variable, Expression)> = Vec::new();
    let mut i: usize = 0;
    while i < s.len()
        invariant
            0 <= i <= s.len(),
            forall|k: int| 0 <= k < s@.len() ==> (#[trigger] s@[k]).1.wf(),
            r@.len() == i,
            forall|k: int| 0 <= k < i ==> (#[trigger] r@[k]).1.wf() && r@[k].0 == s@[k].0 && r@[k].1@ == s@[k].1@,
        decreases s.len() - i,
    {
        let v = s[i].0;
        let e = s[i].1.copy();
        r.push((v, e));
        i = i + 1;
    }
    proof {
        assert(expr_subst_views(r@) =~= expr_subst_views(s@));
    }
    r
}

/// The term that scales an expression so that its powers change sign (see `sign_norm`).
fn term_to_set_power_sign(expression: &Expression, is_positive: bool) -> (t: Term)
    requires
        expression.wf(),
        sign_norm_fits(expression@, is_positive),
    ensures
        t.wf(),
        t@ == sign_norm(expression@, is_positive),
{
    let terms = expression.terms();
    let ghost s = term_views(terms@);
    let mut vars: Vec<(Variable, i64)> = Vec::new();
    let mut i: usize = 0;
    while i < terms.len()
        invariant
            0 <= i <= terms.len(),
            s == term_views(terms@),
            forall|k: int| 0 <= k < terms@.len() ==> (#[trigger] terms@[k]).wf(),
            mono_wf(vars@),
            forall|w: Variable| #[trigger] power_in(vars@, w) == pw(sign_powers(s.take(i as int), is_positive), w),
        decreases terms.len() - i,
    {
        let term = &terms[i];
        let ghost sp = sign_powers(s.take(i as int), is_positive);
        proof {
            assert(s.take(i + 1).drop_last() =~= s.take(i as int));
            assert(s[i as int] == term@);
            term.lemma_powers_nonzero();
        }
        let pairs = term.pairs_vec();
        let mut j: usize = 0;
        while j < pairs.len()
            invariant
                0 <= j <= pairs.len(),
                mono_wf(vars@),
                mono_wf(pairs@),
                forall|w: Variable| #[trigger] power_in(vars@, w) == min_power(pw(sp, w),
                    kept_power(power_in(pairs@.take(j as int), w), is_positive)),
            decreases pairs.len() - j,
        {
            let (v, p) = pairs[j];
            proof {
                lemma_power_take(pairs@, j as int, v);
                lemma_take_absent(pairs@, j as int);
                assert forall|w: Variable| #[trigger] power_in(pairs@.take(j + 1), w)
                    == power_in(pairs@.take(j as int), w) + if w == v { p as int } else { 0 } by {
                    lemma_power_take(pairs@, j as int, w);
                }
            }
            if (is_positive && p < 0) || (!is_positive && p > 0) {
                let cur = mono_get(&vars, &v);
                if cur == 0 || p < cur {
                    mono_set(&mut vars, v, p);
                }
            }
            j = j + 1;
        }
        proof {
            assert(pairs@.take(pairs@.len() as int) =~= pairs@);
            assert forall|w: Variable| #[trigger] power_in(vars@, w) == pw(sign_powers(s.take(i + 1), is_positive), w) by {
                lemma_pw_mono_map(pairs@, w);
            }
        }
        i = i + 1;
    }
    proof {
        assert(s.take(s.len() as int) =~= s);
        lemma_mono_map_eq(vars@, sign_powers(s, is_positive));
        lemma_gcd_one(1);
        lemma_pow1(1);
    }
    let base = Term::from_parts(vars, Rational::one());
    proof {
        let sp = sign_powers(s, is_positive);
        assert forall|v: Variable| #[trigger] i64_range(pw(base@.0, v) * -1) by {
            if sp.dom().contains(v) {
                assert(-i32::MAX <= sp[v] <= i32::MAX);
            }
        }
    }
    base.pow(-1)
}

/// What a power contributes to `sign_powers`: itself when the filter keeps it, else 0.
pub open spec fn kept_power(p: int, positive: bool) -> int {
    if (positive && p < 0) || (!positive && p > 0) { p } else { 0 }
}

/// The multiplier of a scaling term is 1, and its powers are the negated `sign_powers`.
proof fn lemma_sign_norm_shape(m: ExprV, positive: bool)
    ensures
        sign_norm(m, positive).1 == rat_one(),
        forall|v: Variable| #[trigger] pw(sign_norm(m, positive).0, v) == -pw(sign_powers(canonical_terms(m), positive), v),
{
    lemma_pow1(1);
    crate::forms::term::lemma_rat_one_mul(rat_one());
    assert(1int * 1 == 1);
    assert(sign_norm(m, positive).1 == crate::rational::canon(pow(1, 1), pow(1, 1)));
}

/// Every power of every monomial of `m` is positive.
pub open spec fn all_powers_positive(m: ExprV) -> bool {
    forall|k: Map<Variable, int>, v: Variable| #[trigger] m.dom().contains(k) && #[trigger] k.dom().contains(v) ==> k[v] > 0
}

/// `sign_powers` for positive powers is at most 0 and at most each listed monomial's power.
proof fn lemma_sign_powers_bound(s: Seq<TermV>, v: Variable)
    ensures
        pw(sign_powers(s, true), v) <= 0,
        forall|j: int| 0 <= j < s.len() ==> pw(sign_powers(s, true), v) <= pw(#[trigger] s[j].0, v),
    decreases s.len(),
{
    if s.len() > 0 {
        let d = s.drop_last();
        lemma_sign_powers_bound(d, v);
        assert forall|j: int| 0 <= j < s.len() implies pw(sign_powers(s, true), v) <= pw(#[trigger] s[j].0, v) by {
            if j < d.len() {
                assert(d[j] == s[j]);
            }
        }
    }
}

/// Turning powers positive leaves no power of the numerator or the denominator below 1.
proof fn lemma_change_positive(a: RatExprV)
    requires
        is_expression(a.0),
        is_expression(a.1),
    ensures
        all_powers_positive(rexpr_change_power(a, true).0),
        all_powers_positive(rexpr_change_power(a, true).1),
{
    let na = sign_norm(a.0, true);
    let nb = sign_norm(a.1, true);
    let l = term_lcm(seq![na, nb]);
    lemma_sign_norm_shape(a.0, true);
    lemma_sign_norm_shape(a.1, true);
    assert(seq![na, nb].drop_last() =~= seq![na]);
    assert(seq![na].drop_last() =~= Seq::<TermV>::empty());
    assert(seq![na].last() == na);
    assert(seq![na, nb].last() == nb);
    if l.1 == crate::rational::rat_zero() {
        assert(expr_mul_term(a.0, l) =~= Map::<Map<Variable, int>, (int, int)>::empty());
        assert(expr_mul_term(a.1, l) =~= Map::<Map<Variable, int>, (int, int)>::empty());
    } else {
        assert(l.0 == lcm_powers(seq![na, nb]));
        assert(lcm_powers(seq![na]) == powers_max(lcm_powers(Seq::<TermV>::empty()), na.0));
        assert(lcm_powers(seq![na, nb]) == powers_max(lcm_powers(seq![na]), nb.0));
        assert forall|v: Variable| pw(l.0, v) >= -pw(#[trigger] sign_powers(canonical_terms(a.0), true), v) by {
            lemma_sign_powers_bound(canonical_terms(a.0), v);
            lemma_sign_powers_bound(canonical_terms(a.1), v);
            assert(pw(lcm_powers(Seq::<TermV>::empty()), v) == 0);
            assert(pw(lcm_powers(seq![na]), v) == pw(na.0, v));
        }
        assert forall|v: Variable| pw(l.0, v) >= -pw(#[trigger] sign_powers(canonical_terms(a.1), true), v) by {
            lemma_sign_powers_bound(canonical_terms(a.0), v);
            lemma_sign_powers_bound(canonical_terms(a.1), v);
            assert(pw(lcm_powers(Seq::<TermV>::empty()), v) == 0);
            assert(pw(lcm_powers(seq![na]), v) == pw(na.0, v));
        }
        lemma_side_positive(a.0, l);
        lemma_side_positive(a.1, l);
    }
}

/// One side times the scaling term has only positive powers, when the scaling
/// term makes up for the most negative power of each variable.
proof fn lemma_side_positive(m: ExprV, l: TermV)
    requires
        is_expression(m),
        forall|v: Variable| pw(l.0, v) >= -pw(#[trigger] sign_powers(canonical_terms(m), true), v),
    ensures
        all_powers_positive(expr_mul_term(m, l)),
{
    let e = choose|e: crate::forms::expression::Expression| e.wf() && e@ == m;
    crate::products::lemma_terms_of(&e);
    let ts = canonical_terms(m);
    let r = expr_mul_term(m, l);
    assert forall|k: Map<Variable, int>, v: Variable| #[trigger] r.dom().contains(k) && #[trigger] k.dom().contains(v) implies k[v] > 0 by {
        let j = crate::forms::term::powers_sub(k, l.0);
        assert(m.dom().contains(j));
        let i = choose|i: int| 0 <= i < ts.len() && #[trigger] ts[i].0 == j;
        lemma_sign_powers_bound(ts, v);
        assert(sign_powers(ts, true) == sign_powers(canonical_terms(m), true));
        assert(pw(l.0, v) >= -pw(sign_powers(ts, true), v));
        assert(pw(sign_powers(ts, true), v) <= pw(ts[i].0, v));
        assert(pw(j, v) == pw(k, v) - pw(l.0, v));
        assert(k[v] != 0);
    }
}

impl RationalExpression {
    /// Well-formed: numerator and denominator are well-formed expressions.
    pub closed spec fn wf(&self) -> bool {
        self.numerator.wf() && self.denominator.wf()
    }

    /// The numerator and the denominator are well-formed expressions.
    pub proof fn lemma_parts_are_expressions(&self)
        requires
            self.wf(),
        ensures
            is_expression(self@.0),
            is_expression(self@.1),
    {
        assert(self.numerator.wf() && self.numerator@ == self@.0);
        assert(self.denominator.wf() && self.denominator@ == self@.1);
    }

    /// Creates a new rational expression; the denominator must not be 0.
    pub fn new(numerator: Expression, denominator: Expression) -> (r: RationalExpression)
        requires
            numerator.wf(),
            denominator.wf(),
            denominator@ != expr_zero(),
        ensures
            r.wf(),
            r@ == (numerator@, denominator@),
    {
        RationalExpression { numerator, denominator }
    }

    /// The expression `e` over 1.
    pub fn from_expression(e: Expression) -> (r: RationalExpression)
        requires
            e.wf(),
        ensures
            r.wf(),
            r@ == (e@, expr_one()),
    {
        RationalExpression { numerator: e, denominator: Expression::one() }
    }

    /// The term `t` over 1.
    pub fn from_term(t: Term) -> (r: RationalExpression)
        requires
            t.wf(),
        ensures
            r.wf(),
            r@ == (expr_of_term(t@), expr_one()),
    {
        RationalExpression::from_expression(Expression::from_term(t))
    }

    /// The default rational expression `0/1`.
    pub fn zero() -> (r: RationalExpression)
        ensures
            r.wf(),
            r@ == (expr_zero(), expr_one()),
    {
        RationalExpression { numerator: Expression::zero(), denominator: Expression::one() }
    }

    /// Returns the inverse of the rational expression (numerator and denominator
    /// swapped); the numerator must not be 0.
    pub fn inverse(self) -> (r: RationalExpression)
        requires
            self.wf(),
            self@.0 != expr_zero(),
        ensures
            r.wf(),
            r@ == (self@.1, self@.0),
    {
        RationalExpression::new(self.denominator, self.numerator)
    }

    /// Extracts the numerator and denominator of the rational expression.
    pub fn dissolve_into_numerator_and_denominator(self) -> (r: (Expression, Expression))
        requires
            self.wf(),
        ensures
            r.0.wf(),
            r.1.wf(),
            r.0@ == self@.0,
            r.1@ == self@.1,
    {
        (self.numerator, self.denominator)
    }

    /// A copy of the rational expression.
    pub fn copy(&self) -> (r: RationalExpression)
        requires
            self.wf(),
        ensures
            r.wf(),
            r@ == self@,
    {
        RationalExpression { numerator: self.numerator.copy(), denominator: self.denominator.copy() }
    }

    /// Is the rational expression 0 (its numerator is 0).
    pub fn is_zero(&self) -> (b: bool)
        requires
            self.wf(),
        ensures
            b == (self@.0 == expr_zero()),
    {
        self.numerator.is_zero()
    }

    /// Raises this rational expression to a power: 0 gives the default `0/1`
    /// (and `0^0` is undefined), a negative power raises the inverse.
    pub fn pow(self, power: i64) -> (r: RationalExpression)
        requires
            self.wf(),
            rexpr_pow_fits(self@, power as int),
        ensures
            r.wf(),
            r@ == rexpr_pow(self@, power as int),
    {
        if power == 0 {
            RationalExpression::zero()
        } else if power < 0 {
            let num = self.denominator.pow(-power);
            let den = self.numerator.pow(-power);
            RationalExpression::new(num, den)
        } else {
            let num = self.numerator.pow(power);
            let den = self.denominator.pow(power);
            RationalExpression::new(num, den)
        }
    }

    /// The sum `self + rhs`.
    pub fn add(self, rhs: RationalExpression) -> (r: RationalExpression)
        requires
            self.wf(),
            rhs.wf(),
            rexpr_add_fits(self@, rhs@),
        ensures
            r.wf(),
            r@ == rexpr_add(self@, rhs@),
    {
        let a = self.numerator.mul(rhs.denominator.copy());
        let b = rhs.numerator.mul(self.denominator.copy());
        let num = a.add(b);
        let den = self.denominator.mul(rhs.denominator);
        RationalExpression::new(num, den)
    }

    /// The difference `self - rhs`.
    pub fn sub(self, rhs: RationalExpression) -> (r: RationalExpression)
        requires
            self.wf(),
            rhs.wf(),
            rexpr_sub_fits(self@, rhs@),
        ensures
            r.wf(),
            r@ == rexpr_sub(self@, rhs@),
    {
        let a = self.numerator.mul(rhs.denominator.copy());
        let b = rhs.numerator.mul(self.denominator.copy());
        let num = a.sub(b);
        let den = self.denominator.mul(rhs.denominator);
        RationalExpression::new(num, den)
    }

    /// The product `self * rhs`.
    pub fn mul(self, rhs: RationalExpression) -> (r: RationalExpression)
        requires
            self.wf(),
            rhs.wf(),
            rexpr_mul_fits(self@, rhs@),
        ensures
            r.wf(),
            r@ == rexpr_mul(self@, rhs@),
    {
        let num = self.numerator.mul(rhs.numerator);
        let den = self.denominator.mul(rhs.denominator);
        RationalExpression::new(num, den)
    }

    /// The quotient `self / rhs`; dividing by 0 is undefined.
    pub fn div(self, rhs: RationalExpression) -> (r: RationalExpression)
        requires
            self.wf(),
            rhs.wf(),
            rexpr_div_fits(self@, rhs@),
        ensures
            r.wf(),
            r@ == rexpr_div(self@, rhs@),
    {
        let num = self.numerator.mul(rhs.denominator);
        let den = self.denominator.mul(rhs.numerator);
        RationalExpression::new(num, den)
    }

    /// Negation: the numerator changes sign.
    pub fn neg(self) -> (r: RationalExpression)
        requires
            self.wf(),
            self@.1 != expr_zero(),
        ensures
            r.wf(),
            r@ == (expr_neg(self@.0), self@.1),
    {
        RationalExpression::new(self.numerator.neg(), self.denominator)
    }

    /// Equality of values: the cross products `a d` and `b c` of `a/b` and `c/d` agree.
    pub fn equals(&self, other: &RationalExpression) -> (b: bool)
        requires
            self.wf(),
            other.wf(),
            rexpr_equal_fits(self@, other@),
        ensures
            b == rexpr_equal(self@, other@),
    {
        let left = self.numerator.copy().mul(other.denominator.copy());
        let right = self.denominator.copy().mul(other.numerator.copy());
        proof {
            left.lemma_same_terms(&right);
        }
        left.equals(&right)
    }

    /// Substitutes multiple variables with the corresponding expressions, in the
    /// numerator and the denominator; the new denominator must not be 0.
    pub fn substitute_multiple_variables_with_expressions(self, substitutions: Vec<(Variable, Expression)>) -> (r: RationalExpression)
        requires
            self.wf(),
            forall|i: int| 0 <= i < substitutions@.len() ==> (#[trigger] substitutions@[i]).1.wf(),
            subst_many_seq_fits(canonical_terms(self@.0), expr_subst_views(substitutions@)),
            subst_many_seq_fits(canonical_terms(self@.1), expr_subst_views(substitutions@)),
            subst_many_seq(canonical_terms(self@.1), expr_subst_views(substitutions@)) != expr_zero(),
        ensures
            r.wf(),
            r@ == (subst_many_seq(canonical_terms(self@.0), expr_subst_views(substitutions@)),
                subst_many_seq(canonical_terms(self@.1), expr_subst_views(substitutions@))),
    {
        let copies = copy_substitutions(&substitutions);
        let num = self.numerator.substitute_multiple_variables_with_expressions(copies);
        let den = self.denominator.substitute_multiple_variables_with_expressions(substitutions);
        RationalExpression::new(num, den)
    }

    /// Substitutes `variable^known_power` with `subst` in the numerator and the
    /// denominator; the new denominator must not be 0.
    pub fn substitute_variable_power_with_expression(self, variable: Variable, known_power: i64, subst: Expression) -> (r: RationalExpression)
        requires
            self.wf(),
            subst.wf(),
            subst_power_seq_fits(canonical_terms(self@.0), variable, known_power as int, subst@),
            subst_power_seq_fits(canonical_terms(self@.1), variable, known_power as int, subst@),
            subst_power_seq(canonical_terms(self@.1), variable, known_power as int, subst@) != expr_zero(),
        ensures
            r.wf(),
            r@ == (subst_power_seq(canonical_terms(self@.0), variable, known_power as int, subst@),
                subst_power_seq(canonical_terms(self@.1), variable, known_power as int, subst@)),
    {
        let num = self.numerator.substitute_variable_power_with_expression(variable, known_power, subst.copy());
        let den = self.denominator.substitute_variable_power_with_expression(variable, known_power, subst);
        RationalExpression::new(num, den)
    }

    /// Returns true if the numerator or the denominator contains the variable.
    pub fn contains_variable(&self, variable: &Variable) -> (b: bool)
        requires
            self.wf(),
        ensures
            b == ((exists|k: Map<Variable, int>| #[trigger] self@.0.dom().contains(k) && k.dom().contains(*variable))
                || (exists|k: Map<Variable, int>| #[trigger] self@.1.dom().contains(k) && k.dom().contains(*variable))),
    {
        let a = self.numerator.contains_variable(variable);
        let b = self.denominator.contains_variable(variable);
        proof {
            assert(self@.0 == self.numerator@ && self@.1 == self.denominator@);
        }
        a || b
    }

    /// Returns true if neither the numerator nor the denominator has variables.
    pub fn is_scalar(&self) -> (b: bool)
        requires
            self.wf(),
        ensures
            b == ((forall|k: Map<Variable, int>| #[trigger] self@.0.dom().contains(k) ==> k == Map::<Variable, int>::empty())
                && (forall|k: Map<Variable, int>| #[trigger] self@.1.dom().contains(k) ==> k == Map::<Variable, int>::empty())),
    {
        let a = self.numerator.is_scalar();
        let b = self.denominator.is_scalar();
        proof {
            assert(self@.0 == self.numerator@ && self@.1 == self.denominator@);
        }
        a && b
    }

    /// Multiplies both the numerator and the denominator by `value`.
    pub fn with_numerator_and_denominator_multiplied_by_expression(self, value: Expression) -> (r: RationalExpression)
        requires
            self.wf(),
            value.wf(),
            expr_mul_fits(self@.0, value@),
            expr_mul_fits(self@.1, value@),
        ensures
            r.wf(),
            r@ == (expr_mul(self@.0, value@), expr_mul(self@.1, value@)),
            rexpr_equal(r@, self@),
            self@.1 != expr_zero() && value@ != expr_zero() ==> r@.1 != expr_zero(),
    {
        proof {
            self.lemma_parts_are_expressions();
            value.lemma_is_expression();
            if self@.1 != expr_zero() && value@ != expr_zero() {
                crate::cancellation::law_expression_no_zero_divisors(self@.1, value@);
            }
        }
        let num = self.numerator.mul(value.copy());
        let den = self.denominator.mul(value);
        let r = RationalExpression { numerator: num, denominator: den };
        proof {
            r.lemma_parts_are_expressions();
            crate::products::law_rational_expression_scale_keeps_value(self@, value@);
        }
        r
    }

    /// The expression this is, when the denominator is a single nonzero term;
    /// otherwise an error.
    pub fn try_into_expression(self) -> (r: Result<Expression, String>)
        requires
            self.wf(),
            self@.1.dom().len() <= 1 && self@.1 != expr_zero() ==> div_term_fits(self@.0, expr_single(self@.1)),
        ensures
            r is Ok <==> (self@.1.dom().len() <= 1 && self@.1 != expr_zero()),
            r matches Ok(e) ==> e.wf() && e@ == expr_div_term(self@.0, expr_single(self@.1)),
            r matches Err(m) ==> m@ == "Cannot be reduced to a expression!"@,
    {
        if self.denominator.is_term() && !self.denominator.is_zero() {
            let t = self.denominator.to_single_term();
            proof {
                self.denominator.lemma_view_values();
                crate::forms::expression::lemma_single_nonzero(self@.1);
            }
            Ok(self.numerator.div_term(&t))
        } else {
            Err("Cannot be reduced to a expression!".to_string())
        }
    }

    /// Multiplies numerator and denominator by the same term so that no variable
    /// has a negative power (usually before printing).
    pub fn change_to_positive_power(self) -> (r: RationalExpression)
        requires
            self.wf(),
            rexpr_change_power_fits(self@, true),
        ensures
            r.wf(),
            r@ == rexpr_change_power(self@, true),
            rexpr_equal(r@, self@),
            all_powers_positive(r@.0),
            all_powers_positive(r@.1),
    {
        proof {
            self.lemma_parts_are_expressions();
            lemma_change_positive(self@);
        }
        self.change_power_sign(true)
    }

    /// Multiplies numerator and denominator by the same term to turn powers
    /// negative (usually before printing).
    pub fn change_to_negative_power(self) -> (r: RationalExpression)
        requires
            self.wf(),
            rexpr_change_power_fits(self@, false),
        ensures
            r.wf(),
            r@ == rexpr_change_power(self@, false),
            rexpr_equal(r@, self@),
    {
        self.change_power_sign(false)
    }

    fn change_power_sign(self, positive: bool) -> (r: RationalExpression)
        requires
            self.wf(),
            rexpr_change_power_fits(self@, positive),
        ensures
            r.wf(),
            r@ == rexpr_change_power(self@, positive),
            rexpr_equal(r@, self@),
    {
        let (numerator, denominator) = self.dissolve_into_numerator_and_denominator();
        let numerator_norm = term_to_set_power_sign(&numerator, positive);
        let denominator_norm = term_to_set_power_sign(&denominator, positive);
        let mut norms: Vec<Term> = Vec::new();
        norms.push(numerator_norm);
        norms.push(denominator_norm);
        proof {
            let a = sign_norm(numerator@, positive);
            let b = sign_norm(denominator@, positive);
            let ts = term_views(norms@);
            assert(ts =~= seq![a, b]);
            lemma_sign_norm_shape(numerator@, positive);
            lemma_sign_norm_shape(denominator@, positive);
            lemma_gcd_one(1);
            assert(seq![a, b].drop_last() =~= seq![a]);
            assert(seq![a].drop_last() =~= Seq::<TermV>::empty());
            assert(lcm_powers(seq![a]) == powers_max(lcm_powers(Seq::<TermV>::empty()), a.0));
            assert(lcm_powers(seq![a, b]) == powers_max(lcm_powers(seq![a]), b.0));
            crate::forms::term::lemma_rat_one_mul(rat_one());
            assert(rat_mul(rat_one(), rat_one()) == rat_one());
            assert(multiplier_product(seq![a]) == rat_mul(multiplier_product(Seq::<TermV>::empty()), a.1));
            assert(multiplier_product(seq![a]) == rat_one());
            assert(seq![a].last() == a);
            assert(mul_fits(rat_one(), a.1));
            assert(multiplier_product_fits(Seq::<TermV>::empty()));
            assert(multiplier_product_fits(seq![a]));
            assert(multiplier_product_fits(seq![a, b]));
            let l = lcm_powers(seq![a, b]);
            let sa = sign_powers(canonical_terms(numerator@), positive);
            let sb = sign_powers(canonical_terms(denominator@), positive);
            assert forall|v: Variable| #[trigger] l.dom().contains(v) implies i32::MIN <= l[v] <= i32::MAX by {
                assert(pw(a.0, v) == -pw(sa, v));
                assert(pw(b.0, v) == -pw(sb, v));
                assert(pw(lcm_powers(seq![a]), v) == pw(a.0, v));
                assert(l[v] == max_power(pw(a.0, v), pw(b.0, v)));
                if sa.dom().contains(v) {
                    assert(-i32::MAX <= sa[v] <= i32::MAX);
                }
                if sb.dom().contains(v) {
                    assert(-i32::MAX <= sb[v] <= i32::MAX);
                }
            }
        }
        let terms_lcm = Term::lcm(norms);
        let num = numerator.mul_term(&terms_lcm);
        let den = denominator.mul_term(&terms_lcm);
        let r = RationalExpression { numerator: num, denominator: den };
        proof {
            let a = sign_norm(self@.0, positive);
            let b = sign_norm(self@.1, positive);
            assert(multiplier_product(seq![a, b]) == rat_mul(multiplier_product(seq![a]), b.1));
            assert(terms_lcm@.1 == rat_one());
            lemma_gcd_one(1);
            assert(crate::rational::iabs(1) == 1);
            self.lemma_parts_are_expressions();
            r.lemma_parts_are_expressions();
            crate::products::law_rational_expression_scale_by_term_keeps_value(self@, terms_lcm@);
        }
        r
    }

    /// The text `(numerator)/(denominator)`.
    fn text(&self, sympy: bool) -> (s: String)
        requires
            self.wf(),
            !sympy ==> expr_displayable(self@.0) && expr_displayable(self@.1),
        ensures
            s@ == rexpr_text(self@, sympy),
    {
        let mut s = String::new();
        push_char(&mut s, '(');
        let n = self.numerator.text(sympy);
        push_str(&mut s, n.as_str());
        push_char(&mut s, ')');
        push_char(&mut s, '/');
        push_char(&mut s, '(');
        let d = self.denominator.text(sympy);
        push_str(&mut s, d.as_str());
        push_char(&mut s, ')');
        proof {
            assert(s@ =~= rexpr_text(self@, sympy));
        }
        s
    }

    /// The text of the rational expression, e.g. `(x + y₃)/(1 + x²)`.
    pub fn to_string(&self) -> (s: String)
        requires
            self.wf(),
            expr_displayable(self@.0),
            expr_displayable(self@.1),
        ensures
            s@ == rexpr_text(self@, false),
    {
        self.text(false)
    }

    /// Returns the rational expression's SymPy-compatible string representation.
    pub fn to_string_sympy(&self) -> (s: String)
        requires
            self.wf(),
        ensures
            s@ == rexpr_text(self@, true),
    {
        self.text(true)
    }

    /// The derivative with respect to `variable` by the quotient rule.
    pub fn derivative(&self, variable: &Variable) -> (r: RationalExpression)
        requires
            self.wf(),
            rexpr_deriv_fits(self@, *variable),
        ensures
            r.wf(),
            r@ == rexpr_deriv(self@, *variable),
    {
        let dn = self.numerator.derivative(variable);
        let dd = self.denominator.derivative(variable);
        let left = dn.mul(self.denominator.copy());
        let right = self.numerator.copy().mul(dd);
        let num = left.sub(right);
        let den = self.denominator.copy().pow(2);
        RationalExpression::new(num, den)
    }
}

} // verus!
