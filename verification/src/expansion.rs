//! Expanding the variables `e₁ ... eₙ` that stand for elementary symmetric
//! polynomials: each `eₖ` becomes the expression it stands for.

use vstd::prelude::*;
use crate::rational::{rat_zero, rat_one, iabs, lemma_gcd_one};
use crate::divisibility::lowest;
use crate::forms::variable::{Variable, lemma_named};
use crate::forms::term::{TermV, var_term, valid_powers, powers_sub, powers_without, subst_has, pw};
use crate::forms::expression::{
    Expression, ExprV, coeff, expr_one, expr_add, expr_mul, expr_mul_term, expr_pow, expr_of_term,
    expr_subst_product, term_subst_many_expr, subst_many_seq, canonical_terms,
};
use crate::laws::{expr_lowest, lemma_expr_ext, law_rational_mul_one, law_expression_add_zero};
use crate::products::{is_expression, keys_valid, lemma_terms_of, lemma_coeff_mul_term};
use crate::powers::lemma_one_mul;
use crate::substitution::law_substitution_of_absent_variables;
use crate::algos::power_sums::{e_var, ek_expr};

verus! {

/// The substitutions that replace each `eⱼ` (`j = 1 .. n`) by the `j`-th of the
/// given expressions.
pub open spec fn expansion_list(reps: Seq<ExprV>) -> Seq<(Variable, ExprV)> {
    Seq::new(reps.len(), |j: int| (e_var(j + 1), reps[j]))
}

/// `eᵢ` and `eⱼ` are the same variable only for `i == j` (both in `i64`).
proof fn lemma_e_var_injective(i: int, j: int)
    requires
        i64::MIN <= i <= i64::MAX,
        i64::MIN <= j <= i64::MAX,
        e_var(i) == e_var(j),
    ensures
        i == j,
{
    lemma_named('e', Some(i as i64));
    lemma_named('e', Some(j as i64));
}

/// A term with multiplier 1 and no variables leaves an expression unchanged.
proof fn lemma_mul_term_unit(m: ExprV)
    requires
        expr_lowest(m),
        keys_valid(m),
    ensures
        expr_mul_term(m, (Map::<Variable, int>::empty(), rat_one())) == m,
{
    let u = (Map::<Variable, int>::empty(), rat_one());
    let r = expr_mul_term(m, u);
    lemma_gcd_one(1);
    assert(iabs(1) == 1);
    assert(lowest(rat_one()));
    assert forall|k: Map<Variable, int>| #[trigger] coeff(r, k) == coeff(m, k) by {
        if valid_powers(k) {
            lemma_coeff_mul_term(m, u, k);
            assert(powers_sub(k, u.0) =~= k);
            law_rational_mul_one(coeff(m, k));
            if !m.dom().contains(k) {
                crate::laws::lemma_zero_lowest();
            }
        } else {
            assert(!r.dom().contains(k));
            assert(!m.dom().contains(k));
        }
    }
    assert forall|k: Map<Variable, int>| #[trigger] r.dom().contains(k) implies r[k] != rat_zero() by {
        assert(powers_sub(k, u.0) =~= k);
        law_rational_mul_one(m[k]);
    }
    lemma_expr_ext(r, m);
}

/// The substituted factor of `eₖ` over the first `j` substitutions: 1 before
/// `eₖ` is reached, then the `k`-th expression.
proof fn lemma_ek_factor(reps: Seq<ExprV>, k: int, j: int)
    requires
        1 <= k <= reps.len(),
        reps.len() < i64::MAX,
        0 <= j <= reps.len(),
        is_expression(expr_one()),
        is_expression(reps[k - 1]),
    ensures
        expr_subst_product(var_term(e_var(k)).0, expansion_list(reps).take(j))
            == if j < k { expr_one() } else { reps[k - 1] },
    decreases j,
{
    let s = expansion_list(reps);
    let key = var_term(e_var(k)).0;
    if j > 0 {
        lemma_ek_factor(reps, k, j - 1);
        let t = s.take(j);
        assert(t.drop_last() =~= s.take(j - 1));
        assert(t.last() == (e_var(j), reps[j - 1]));
        if j == k {
            assert(pw(key, e_var(k)) == 1);
            let r = reps[k - 1];
            assert(expr_pow(r, 1) == expr_mul(expr_one(), r)) by {
                reveal_with_fuel(crate::forms::expression::pow_loop, 2);
            }
            lemma_one_mul(r);
        } else {
            if key.dom().contains(e_var(j)) {
                lemma_e_var_injective(j, k);
            }
            assert(pw(key, e_var(j)) == 0);
        }
    }
}

/// Expanding `eₖ`: substituting each `eⱼ` by the `j`-th of the given expressions
/// turns the expression `eₖ` (`1 <= k <= n`) into the `k`-th of them, and leaves
/// the expression 1 (`k = 0`) unchanged. With the elementary symmetric
/// polynomials as the expressions, `eₖ` (as `ek_as_variable_expression` gives
/// it) expands to `get_ek_original_representation(k)`.
pub proof fn law_expanding_ek(reps: Seq<ExprV>, k: int)
    requires
        0 <= k <= reps.len(),
        reps.len() < i64::MAX,
        is_expression(expr_one()),
        is_expression(ek_expr(k, reps.len() as int)),
        k >= 1 ==> is_expression(reps[k - 1]),
    ensures
        subst_many_seq(canonical_terms(ek_expr(k, reps.len() as int)), expansion_list(reps))
            == if k == 0 { expr_one() } else { reps[k - 1] },
{
    let s = expansion_list(reps);
    let n = reps.len() as int;
    if k == 0 {
        assert forall|q: Map<Variable, int>, i: int| #[trigger] expr_one().dom().contains(q) && 0 <= i < s.len()
            implies !q.dom().contains(#[trigger] s[i].0) by {
            assert(q == Map::<Variable, int>::empty());
        }
        law_substitution_of_absent_variables(expr_one(), s);
        assert(ek_expr(k, n) == expr_one());
    } else {
        let t = var_term(e_var(k));
        let m = ek_expr(k, n);
        assert(t.1 != rat_zero());
        assert(m == expr_of_term(t));
        assert(m.dom().contains(t.0));
        let e = choose|e: Expression| e.wf() && e@ == m;
        lemma_terms_of(&e);
        let ts = canonical_terms(m);
        let i0 = choose|i: int| 0 <= i < ts.len() && #[trigger] ts[i].0 == t.0;
        assert(ts.len() == 1) by {
            if ts.len() > 1 {
                let other = if i0 == 0 { 1int } else { 0int };
                assert(m.dom().contains(ts[other].0));
                assert(ts[other].0 != ts[i0].0);
            }
        }
        assert(ts[0] == t);
        assert(ts =~= seq![t]);
        assert(ts.drop_last() =~= Seq::<TermV>::empty());
        let r = reps[k - 1];
        lemma_ek_factor(reps, k, n);
        assert(s.take(n) =~= s);
        assert(powers_without(t.0, s) =~= Map::<Variable, int>::empty()) by {
            assert(s[k - 1].0 == e_var(k));
            assert(subst_has(s, e_var(k)));
        }
        let er = choose|e: Expression| e.wf() && e@ == r;
        lemma_terms_of(&er);
        lemma_mul_term_unit(r);
        assert(term_subst_many_expr(t, s) == r);
        law_expression_add_zero(r);
        assert(subst_many_seq(ts, s) == expr_add(subst_many_seq(ts.drop_last(), s), term_subst_many_expr(ts.last(), s)));
        assert(subst_many_seq(ts.drop_last(), s) == Map::<Map<Variable, int>, (int, int)>::empty());
        assert(ts.last() == t);
    }
}

} // verus!
