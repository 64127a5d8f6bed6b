//! Substituting for variables that do not occur.

use vstd::prelude::*;
use crate::rational::{rat_zero, rat_one, iabs, lemma_gcd_one};
use crate::divisibility::lowest;
use crate::forms::variable::Variable;
use crate::forms::term::{TermV, valid_powers, powers_sub, powers_without, subst_has, pw};
use crate::forms::expression::{
    Expression, ExprV, coeff, expr_one, expr_add, expr_mul_term, expr_subst_product, term_subst_many_expr,
    subst_many_seq, canonical_terms,
};
use crate::laws::{expr_lowest, lemma_zero_lowest, lemma_coeff_add, lemma_expr_add_lowest, lemma_expr_ext, law_rational_mul_one, law_rational_mul_commutative};
use crate::products::{is_expression, keys_valid, terms_ok, lemma_terms_of};
use crate::sums::{rsum, all_lowest, lemma_rsum_single, lemma_rsum_zero};

verus! {

/// No monomial of `m` holds a variable that `s` substitutes.
pub open spec fn untouched(m: ExprV, s: Seq<(Variable, ExprV)>) -> bool {
    forall|k: Map<Variable, int>, i: int| #[trigger] m.dom().contains(k) && 0 <= i < s.len()
        ==> !k.dom().contains(#[trigger] s[i].0)
}

/// The substituted factor of a monomial without the substituted variables is 1.
proof fn lemma_subst_product_one(k: Map<Variable, int>, s: Seq<(Variable, ExprV)>)
    requires
        forall|i: int| 0 <= i < s.len() ==> !k.dom().contains(#[trigger] s[i].0),
    ensures
        expr_subst_product(k, s) == expr_one(),
    decreases s.len(),
{
    if s.len() > 0 {
        let d = s.drop_last();
        assert forall|i: int| 0 <= i < d.len() implies !k.dom().contains(#[trigger] d[i].0) by {
            assert(d[i] == s[i]);
        }
        lemma_subst_product_one(k, d);
        assert(!k.dom().contains(s[s.len() - 1].0));
        assert(pw(k, s.last().0) == 0);
    }
}

/// A term untouched by the substitution stays itself.
proof fn lemma_term_untouched(t: TermV, s: Seq<(Variable, ExprV)>, k: Map<Variable, int>)
    requires
        valid_powers(t.0),
        lowest(t.1),
        t.1 != rat_zero(),
        forall|i: int| 0 <= i < s.len() ==> !t.0.dom().contains(#[trigger] s[i].0),
        valid_powers(k),
    ensures
        coeff(term_subst_many_expr(t, s), k) == if k == t.0 { t.1 } else { rat_zero() },
        expr_lowest(term_subst_many_expr(t, s)),
        keys_valid(term_subst_many_expr(t, s)),
{
    lemma_subst_product_one(t.0, s);
    assert(powers_without(t.0, s) =~= t.0) by {
        assert forall|v: Variable| #[trigger] t.0.dom().contains(v) implies !subst_has(s, v) by {
            if subst_has(s, v) {
                let i = choose|i: int| 0 <= i < s.len() && #[trigger] s[i].0 == v;
                assert(!t.0.dom().contains(s[i].0));
            }
        }
    }
    let r = expr_mul_term(expr_one(), t);
    assert(term_subst_many_expr(t, s) == r);
    lemma_gcd_one(1);
    assert(iabs(1) == 1);
    law_rational_mul_one(t.1);
    law_rational_mul_commutative(rat_one(), t.1);
    assert forall|q: Map<Variable, int>| #[trigger] r.dom().contains(q) implies q == t.0 && r[q] == t.1 by {
        assert(powers_sub(q, t.0) == Map::<Variable, int>::empty());
        crate::forms::term::lemma_powers_sub_add(q, t.0);
        assert(crate::forms::term::powers_add(Map::<Variable, int>::empty(), t.0) =~= t.0);
    }
    assert(powers_sub(t.0, t.0) =~= Map::<Variable, int>::empty());
    assert(r.dom().contains(t.0));
    lemma_zero_lowest();
}

/// The coefficients the listed terms hold at the monomial `k`.
pub open spec fn picked(ts: Seq<TermV>, k: Map<Variable, int>) -> Seq<(int, int)> {
    Seq::new(ts.len(), |j: int| if ts[j].0 == k { ts[j].1 } else { rat_zero() })
}

/// Adding the untouched terms one by one: the coefficient of `k` is the sum of
/// the coefficients the terms hold at `k`.
proof fn lemma_subst_seq_coeff(ts: Seq<TermV>, s: Seq<(Variable, ExprV)>, k: Map<Variable, int>)
    requires
        terms_ok(ts),
        forall|j: int, i: int| 0 <= j < ts.len() && 0 <= i < s.len() ==> !(#[trigger] ts[j]).0.dom().contains(#[trigger] s[i].0),
        valid_powers(k),
    ensures
        coeff(subst_many_seq(ts, s), k) == rsum(picked(ts, k)),
        expr_lowest(subst_many_seq(ts, s)),
        keys_valid(subst_many_seq(ts, s)),
    decreases ts.len(),
{
    lemma_zero_lowest();
    if ts.len() > 0 {
        let d = ts.drop_last();
        let t = ts.last();
        assert(terms_ok(d)) by {
            assert forall|j: int| 0 <= j < d.len() implies valid_powers(#[trigger] d[j].0) && d[j].1 != rat_zero() && lowest(d[j].1) by {
                assert(d[j] == ts[j]);
            }
            assert forall|i: int, j: int| 0 <= i < d.len() && 0 <= j < d.len() && i != j implies #[trigger] d[i].0 != #[trigger] d[j].0 by {
                assert(d[i] == ts[i] && d[j] == ts[j]);
            }
        }
        assert forall|j: int, i: int| 0 <= j < d.len() && 0 <= i < s.len() implies !(#[trigger] d[j]).0.dom().contains(#[trigger] s[i].0) by {
            assert(d[j] == ts[j]);
        }
        lemma_subst_seq_coeff(d, s, k);
        assert(t == ts[ts.len() - 1]);
        assert(valid_powers(t.0) && t.1 != rat_zero() && lowest(t.1));
        assert forall|i: int| 0 <= i < s.len() implies !t.0.dom().contains(#[trigger] s[i].0) by {
            assert(!ts[ts.len() - 1].0.dom().contains(s[i].0));
        }
        lemma_term_untouched(t, s, k);
        let prev = subst_many_seq(d, s);
        let step = term_subst_many_expr(t, s);
        lemma_coeff_add(prev, step, k);
        lemma_expr_add_lowest(prev, step);
        assert(picked(ts, k).drop_last() =~= picked(d, k));
        assert(keys_valid(expr_add(prev, step)));
    }
}

/// Substituting for variables that occur in no term of an expression leaves it
/// unchanged.
pub proof fn law_substitution_of_absent_variables(m: ExprV, s: Seq<(Variable, ExprV)>)
    requires
        is_expression(m),
        untouched(m, s),
    ensures
        subst_many_seq(canonical_terms(m), s) == m,
{
    let e = choose|e: Expression| e.wf() && e@ == m;
    lemma_terms_of(&e);
    let ts = canonical_terms(m);
    assert forall|j: int, i: int| 0 <= j < ts.len() && 0 <= i < s.len() implies !(#[trigger] ts[j]).0.dom().contains(#[trigger] s[i].0) by {
        assert(m.dom().contains(ts[j].0));
    }
    let r = subst_many_seq(ts, s);
    lemma_subst_seq_coeff(ts, s, Map::empty());
    lemma_zero_lowest();
    assert forall|k: Map<Variable, int>| #[trigger] coeff(r, k) == coeff(m, k) by {
        if valid_powers(k) {
            lemma_subst_seq_coeff(ts, s, k);
            let g = picked(ts, k);
            assert(all_lowest(g)) by {
                assert forall|j: int| 0 <= j < g.len() implies lowest(#[trigger] g[j]) by {
                    assert(valid_powers(ts[j].0));
                }
            }
            if m.dom().contains(k) {
                let j0 = choose|j: int| 0 <= j < ts.len() && #[trigger] ts[j].0 == k;
                assert forall|j: int| 0 <= j < g.len() && j != j0 implies #[trigger] g[j] == rat_zero() by {
                    assert(ts[j].0 != ts[j0].0);
                }
                lemma_rsum_single(g, j0);
            } else {
                assert forall|j: int| 0 <= j < g.len() implies #[trigger] g[j] == rat_zero() by {
                    if ts[j].0 == k {
                        assert(m.dom().contains(ts[j].0));
                    }
                }
                lemma_rsum_zero(g);
            }
        } else {
            assert(!r.dom().contains(k));
            assert(!m.dom().contains(k));
        }
    }
    lemma_expr_ext(r, m);
}

/// Substituting with an empty list of pairs leaves an expression unchanged.
pub proof fn law_substitution_of_nothing(m: ExprV)
    requires
        is_expression(m),
    ensures
        subst_many_seq(canonical_terms(m), Seq::<(Variable, ExprV)>::empty()) == m,
{
    law_substitution_of_absent_variables(m, Seq::<(Variable, ExprV)>::empty());
}

} // verus!
