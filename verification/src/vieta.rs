//! Vieta's formulas for the values `construct_esc_for_roots` gives `e₁ ... eₙ`,
//! and the multiplier of the lcm of terms.

use vstd::prelude::*;
use crate::rational::{rat_zero, rat_one, rat_mul, lemma_gcd_one};
use crate::divisibility::lowest;
use crate::forms::variable::Variable;
use crate::forms::term::{TermV, valid_powers, powers_sub, powers_add, lemma_powers_sub_add};
use crate::forms::term_lcm::{term_lcm, multiplier_product, lcm_powers, max_power};
use crate::forms::term::pw;
use crate::forms::expression::{ExprV, expr_mul_term, expr_div_term, expr_single, lemma_single_nonzero};
use crate::forms::polynomial::esc_coefficient;
use crate::algos::power_sums::{scalar, sign_of};
use crate::laws::{
    expr_lowest, lemma_zero_lowest, law_rational_mul_one, law_rational_mul_commutative,
    law_rational_mul_associative, lemma_rat_mul_div_cancel, lemma_nonzero_numerator,
};
use crate::products::{is_expression, keys_valid, lemma_terms_of, lemma_mul_term_lowest, lemma_rat_mul_by_zero};

verus! {

/// Dividing by a nonzero term and multiplying back by it gives the expression back.
proof fn lemma_div_mul_term_cancel(a: ExprV, t: TermV)
    requires
        expr_lowest(a),
        keys_valid(a),
        lowest(t.1),
        t.1 != rat_zero(),
    ensures
        expr_mul_term(expr_div_term(a, t), t) == a,
{
    let d = expr_div_term(a, t);
    let r = expr_mul_term(d, t);
    lemma_nonzero_numerator(t.1);
    assert forall|k: Map<Variable, int>| r.dom().contains(k) <==> a.dom().contains(k) by {
        if valid_powers(k) {
            lemma_powers_sub_add(k, t.0);
        }
    }
    assert forall|k: Map<Variable, int>| #[trigger] r.dom().contains(k) implies r[k] == a[k] by {
        lemma_powers_sub_add(k, t.0);
        lemma_rat_mul_div_cancel(a[k], t.1);
    }
    assert(r =~= a);
}

/// `±1` times itself is 1.
proof fn lemma_sign_square(s: int)
    requires
        s == 1 || s == -1,
    ensures
        lowest((s, 1int)),
        rat_mul((s, 1int), (s, 1int)) == rat_one(),
{
    lemma_gcd_one(1);
    assert(s * s == 1) by (nonlinear_arith)
        requires
            s == 1 || s == -1;
    assert(crate::rational::iabs(s) == 1);
    assert(crate::rational::iabs(1) == 1);
    crate::divisibility::lemma_canon_of_value(1, 1, rat_one());
}

/// Multiplying twice by the same sign `±1` gives the expression back.
proof fn lemma_sign_twice(a: ExprV, s: int)
    requires
        expr_lowest(a),
        keys_valid(a),
        s == 1 || s == -1,
    ensures
        expr_mul_term(expr_mul_term(a, scalar(s)), scalar(s)) == a,
{
    lemma_sign_square(s);
    let u = scalar(s);
    let b = expr_mul_term(a, u);
    let r = expr_mul_term(b, u);
    assert(u.1 != rat_zero());
    assert forall|k: Map<Variable, int>| valid_powers(k) implies powers_sub(k, u.0) == k by {
        assert(powers_sub(k, u.0) =~= k);
    }
    assert forall|k: Map<Variable, int>| r.dom().contains(k) <==> a.dom().contains(k) by {}
    assert forall|k: Map<Variable, int>| #[trigger] r.dom().contains(k) implies r[k] == a[k] by {
        law_rational_mul_associative(a[k], u.1, u.1);
        law_rational_mul_one(a[k]);
    }
    assert(r =~= a);
}

/// Vieta's formulas: for a polynomial `c₀ + c₁ x + ... + cₙ xⁿ` (`n >= 1`) whose
/// leading coefficient is a single term, the value `construct_esc_for_roots`
/// gives `eₖ` (`1 <= k <= n`) satisfies `(-1)^k cₙ eₖ == c_{n-k}`. So for
/// `c₀ + c₁ x` the value of `e₁` is the root `-c₀ / c₁`.
pub proof fn law_vieta(cs: Seq<ExprV>, k: int)
    requires
        cs.len() >= 2,
        1 <= k <= cs.len() - 1,
        forall|i: int| 0 <= i < cs.len() ==> is_expression(#[trigger] cs[i]),
        cs[cs.len() - 1].dom().len() == 1,
    ensures
        expr_mul_term(expr_mul_term(esc_coefficient(cs, k), expr_single(cs[cs.len() - 1])), scalar(sign_of(k)))
            == cs[cs.len() - 1 - k],
{
    let n = cs.len() - 1;
    let c = cs[n - k];
    let lead = cs[n];
    assert(is_expression(c));
    assert(is_expression(lead));
    let ec = choose|e: crate::forms::expression::Expression| e.wf() && e@ == c;
    let el = choose|e: crate::forms::expression::Expression| e.wf() && e@ == lead;
    lemma_terms_of(&ec);
    lemma_terms_of(&el);
    if lead =~= Map::<Map<Variable, int>, (int, int)>::empty() {
        assert(lead.dom() =~= Set::<Map<Variable, int>>::empty());
    }
    lemma_single_nonzero(lead);
    let t = expr_single(lead);
    assert(lowest(t.1));
    let s = sign_of(k);
    lemma_sign_square(s);
    assert(scalar(s).1 != rat_zero());
    lemma_mul_term_lowest(c, scalar(s));
    let a = expr_mul_term(c, scalar(s));
    lemma_div_mul_term_cancel(a, t);
    lemma_sign_twice(c, s);
}

/// The lcm of a single term has that term's multiplier.
pub proof fn law_term_lcm_multiplier_single(t: TermV)
    requires
        lowest(t.1),
    ensures
        term_lcm(seq![t]).1 == t.1,
{
    let s = seq![t];
    assert(s.drop_last() =~= Seq::<TermV>::empty());
    assert(multiplier_product(s.drop_last()) == rat_one());
    assert(s.last() == t);
    law_rational_mul_one(t.1);
    assert(multiplier_product(s) == t.1);
}

/// Appending a term to the list multiplies the lcm's multiplier by the term's
/// multiplier, sign included. With the single-term law, the lcm's multiplier is
/// the product of all the multipliers.
pub proof fn law_term_lcm_multiplier_push(s: Seq<TermV>, t: TermV)
    ensures
        term_lcm(s.push(t)).1 == rat_mul(term_lcm(s).1, t.1),
{
    assert(s.push(t).drop_last() =~= s);
    assert(term_lcm(s).1 == multiplier_product(s));
    assert(term_lcm(s.push(t)).1 == multiplier_product(s.push(t)));
}

/// The lcm of two terms has the product of their multipliers.
pub proof fn law_term_lcm_multiplier_pair(a: TermV, b: TermV)
    requires
        lowest(a.1),
    ensures
        term_lcm(seq![a, b]).1 == rat_mul(a.1, b.1),
{
    law_term_lcm_multiplier_single(a);
    assert(seq![a].push(b) =~= seq![a, b]);
    law_term_lcm_multiplier_push(seq![a], b);
}

/// A nonzero lcm power of `v` is the power of `v` in one of the terms.
proof fn lemma_lcm_power_attained(s: Seq<TermV>, v: Variable)
    requires
        pw(lcm_powers(s), v) != 0,
    ensures
        exists|i: int| 0 <= i < s.len() && #[trigger] pw(s[i].0, v) == pw(lcm_powers(s), v),
    decreases s.len(),
{
    let d = s.drop_last();
    let a = pw(lcm_powers(d), v);
    let b = pw(s.last().0, v);
    assert(pw(lcm_powers(s), v) == max_power(a, b));
    if pw(lcm_powers(s), v) == b {
        assert(pw(s[s.len() - 1].0, v) == pw(lcm_powers(s), v));
    } else {
        lemma_lcm_power_attained(d, v);
        let i = choose|i: int| 0 <= i < d.len() && #[trigger] pw(d[i].0, v) == pw(lcm_powers(d), v);
        assert(s[i] == d[i]);
    }
}

/// The lcm takes no more than it must: each variable of the lcm has the power it
/// has in one of the terms (with `law_term_lcm_divisible`, the largest of them).
pub proof fn law_term_lcm_least(s: Seq<TermV>, v: Variable)
    requires
        term_lcm(s).0.dom().contains(v),
    ensures
        exists|i: int| 0 <= i < s.len() && #[trigger] s[i].0.dom().contains(v) && s[i].0[v] == term_lcm(s).0[v],
{
    assert(pw(lcm_powers(s), v) != 0);
    lemma_lcm_power_attained(s, v);
    let i = choose|i: int| 0 <= i < s.len() && #[trigger] pw(s[i].0, v) == pw(lcm_powers(s), v);
    assert(s[i].0.dom().contains(v));
}

} // verus!
