//! The derivative of a product of expressions: `(a b)' = a' b + a b'`.

use vstd::prelude::*;
use crate::rational::{rat_zero, rat_add, rat_mul};
use crate::divisibility::{lowest, lemma_canon_of_value};
use crate::forms::variable::Variable;
use crate::forms::term::{TermV, pw, valid_powers, powers_add, powers_sub, single_power, range_product, lemma_powers_sub_add};
use crate::forms::expression::{Expression, ExprV, coeff, expr_add, expr_mul, expr_nth_deriv, canonical_terms};
use crate::laws::{
    expr_lowest, lemma_zero_lowest, lemma_rat_mul_zero_iff, lemma_integer_lowest, lemma_coeff_nth_deriv, lemma_nth_deriv_lowest,
    lemma_coeff_add, lemma_expr_add_lowest, lemma_expr_ext, law_rational_mul_commutative, law_rational_mul_associative,
    law_rational_distributive, law_rational_add_zero,
};
use crate::products::{
    terms_ok, is_expression, lemma_terms_of, lemma_coeff_mul_seq, lemma_coeff_lowest, lemma_rat_mul_by_zero, lemma_powers_match,
    lemma_rsum_scale, lemma_powers_sub_swap, law_expression_mul_commutative,
};
use crate::sums::{rsum, all_lowest, lemma_rsum_lowest, lemma_rsum_single, lemma_rsum_zero, lemma_rsum_pointwise, row_sums, column_sums, lemma_rsum_swap};

verus! {

/// The monomial that differentiating in `v` turns into `k`: `k` times `v`.
pub open spec fn raised(k: Map<Variable, int>, v: Variable) -> Map<Variable, int> {
    powers_sub(k, single_power(v, -1))
}

/// The first derivative at one monomial: the coefficient of `k v` times its power of `v`.
proof fn lemma_coeff_first_deriv(m: ExprV, v: Variable, k: Map<Variable, int>)
    requires
        expr_lowest(m),
    ensures
        valid_powers(k) ==> coeff(expr_nth_deriv(m, 1, v), k)
            == rat_mul((pw(raised(k, v), v), 1int), coeff(m, raised(k, v))),
        !valid_powers(k) ==> coeff(expr_nth_deriv(m, 1, v), k) == rat_zero(),
        lowest(coeff(expr_nth_deriv(m, 1, v), k)),
{
    lemma_coeff_nth_deriv(m, 1, v, k);
    let q = pw(raised(k, v), v);
    assert(range_product(q, q - 1) == 1);
    assert(range_product(q, q) == q);
}

/// The pairs of terms whose monomials multiply to `k`, each product weighted by
/// the power of `v` in the monomial of the first term.
pub open spec fn weighted_entry(sa: Seq<TermV>, sb: Seq<TermV>, k: Map<Variable, int>, v: Variable) -> spec_fn(int, int) -> (int, int) {
    |i: int, l: int| if powers_add(sa[i].0, sb[l].0) == k {
        rat_mul((pw(sa[i].0, v), 1int), rat_mul(sa[i].1, sb[l].1))
    } else {
        rat_zero()
    }
}

/// Every entry of the weighted table is in lowest terms.
proof fn lemma_weighted_lowest(sa: Seq<TermV>, sb: Seq<TermV>, k: Map<Variable, int>, v: Variable)
    requires
        terms_ok(sa),
        terms_ok(sb),
    ensures
        forall|i: int, l: int| 0 <= i < sa.len() && 0 <= l < sb.len() ==> lowest(#[trigger] weighted_entry(sa, sb, k, v)(i, l)),
{
    assert forall|i: int, l: int| 0 <= i < sa.len() && 0 <= l < sb.len() implies lowest(#[trigger] weighted_entry(sa, sb, k, v)(i, l)) by {
        lemma_zero_lowest();
        assert(valid_powers(sa[i].0) && valid_powers(sb[l].0));
        lemma_integer_lowest(pw(sa[i].0, v));
        lemma_rat_mul_zero_iff(sa[i].1, sb[l].1);
        lemma_rat_mul_zero_iff((pw(sa[i].0, v), 1int), rat_mul(sa[i].1, sb[l].1));
    }
}

/// Summed along a row `i`: the first term's coefficient times `b`'s at `k` less its monomial, weighted.
proof fn lemma_weighted_rows(sa: Seq<TermV>, sb: Seq<TermV>, b: ExprV, k: Map<Variable, int>, v: Variable)
    requires
        terms_ok(sa),
        terms_ok(sb),
        expr_lowest(b),
        forall|l: int| 0 <= l < sb.len() ==> b.dom().contains(#[trigger] sb[l].0) && b[sb[l].0] == sb[l].1,
        forall|q: Map<Variable, int>| #[trigger] b.dom().contains(q) ==> exists|l: int| 0 <= l < sb.len() && #[trigger] sb[l].0 == q,
        valid_powers(k),
    ensures
        row_sums(weighted_entry(sa, sb, k, v), sa.len() as int, sb.len() as int)
            == Seq::new(sa.len(), |i: int| rat_mul((pw(sa[i].0, v), 1int), rat_mul(sa[i].1, coeff(b, powers_sub(k, sa[i].0))))),
{
    let f = weighted_entry(sa, sb, k, v);
    let rows = row_sums(f, sa.len() as int, sb.len() as int);
    let want = Seq::new(sa.len(), |i: int| rat_mul((pw(sa[i].0, v), 1int), rat_mul(sa[i].1, coeff(b, powers_sub(k, sa[i].0)))));
    lemma_zero_lowest();
    lemma_weighted_lowest(sa, sb, k, v);
    assert forall|i: int| 0 <= i < sa.len() implies #[trigger] rows[i] == want[i] by {
        let row = Seq::new(sb.len(), |l: int| f(i, l));
        let key = powers_sub(k, sa[i].0);
        let w = (pw(sa[i].0, v), 1int);
        assert(lowest(sa[i].1) && valid_powers(sa[i].0));
        lemma_integer_lowest(pw(sa[i].0, v));
        assert forall|l: int| 0 <= l < sb.len() implies (powers_add(sa[i].0, sb[l].0) == k) == (sb[l].0 == key) by {
            assert(valid_powers(sb[l].0));
            lemma_powers_match(sa[i].0, sb[l].0, k);
        }
        assert(all_lowest(row)) by {
            assert forall|l: int| 0 <= l < row.len() implies lowest(#[trigger] row[l]) by {
                assert(lowest(f(i, l)));
            }
        }
        if b.dom().contains(key) {
            let l0 = choose|l: int| 0 <= l < sb.len() && #[trigger] sb[l].0 == key;
            assert forall|l: int| 0 <= l < row.len() && l != l0 implies #[trigger] row[l] == rat_zero() by {
                assert(sb[l].0 != sb[l0].0);
            }
            lemma_rsum_single(row, l0);
        } else {
            assert forall|l: int| 0 <= l < row.len() implies #[trigger] row[l] == rat_zero() by {
                if sb[l].0 == key {
                    assert(b.dom().contains(sb[l].0));
                }
            }
            lemma_rsum_zero(row);
            lemma_rat_mul_by_zero(sa[i].1);
            lemma_rat_mul_by_zero(w);
        }
    }
    assert(rows =~= want);
}

/// Summed along a column `l`: `a`'s coefficient at `k` less the second term's
/// monomial times that term's, weighted by the power of `v` there.
proof fn lemma_weighted_columns(sa: Seq<TermV>, sb: Seq<TermV>, a: ExprV, k: Map<Variable, int>, v: Variable)
    requires
        terms_ok(sa),
        terms_ok(sb),
        expr_lowest(a),
        forall|i: int| 0 <= i < sa.len() ==> a.dom().contains(#[trigger] sa[i].0) && a[sa[i].0] == sa[i].1,
        forall|q: Map<Variable, int>| #[trigger] a.dom().contains(q) ==> exists|i: int| 0 <= i < sa.len() && #[trigger] sa[i].0 == q,
        valid_powers(k),
    ensures
        column_sums(weighted_entry(sa, sb, k, v), sa.len() as int, sb.len() as int)
            == Seq::new(sb.len(), |l: int| rat_mul((pw(powers_sub(k, sb[l].0), v), 1int), rat_mul(coeff(a, powers_sub(k, sb[l].0)), sb[l].1))),
{
    let f = weighted_entry(sa, sb, k, v);
    let cols = column_sums(f, sa.len() as int, sb.len() as int);
    let want = Seq::new(sb.len(), |l: int| rat_mul((pw(powers_sub(k, sb[l].0), v), 1int), rat_mul(coeff(a, powers_sub(k, sb[l].0)), sb[l].1)));
    lemma_zero_lowest();
    lemma_weighted_lowest(sa, sb, k, v);
    assert forall|l: int| 0 <= l < sb.len() implies #[trigger] cols[l] == want[l] by {
        let col = Seq::new(sa.len(), |i: int| f(i, l));
        let key = powers_sub(k, sb[l].0);
        let w = (pw(key, v), 1int);
        assert(lowest(sb[l].1) && valid_powers(sb[l].0));
        lemma_integer_lowest(pw(key, v));
        assert forall|i: int| 0 <= i < sa.len() implies (powers_add(sa[i].0, sb[l].0) == k) == (sa[i].0 == key) by {
            assert(valid_powers(sa[i].0));
            assert(powers_add(sa[i].0, sb[l].0) =~= powers_add(sb[l].0, sa[i].0));
            lemma_powers_match(sb[l].0, sa[i].0, k);
        }
        assert(all_lowest(col)) by {
            assert forall|i: int| 0 <= i < col.len() implies lowest(#[trigger] col[i]) by {
                assert(lowest(f(i, l)));
            }
        }
        if a.dom().contains(key) {
            let i0 = choose|i: int| 0 <= i < sa.len() && #[trigger] sa[i].0 == key;
            assert forall|i: int| 0 <= i < col.len() && i != i0 implies #[trigger] col[i] == rat_zero() by {
                assert(sa[i].0 != sa[i0].0);
            }
            lemma_rsum_single(col, i0);
        } else {
            assert forall|i: int| 0 <= i < col.len() implies #[trigger] col[i] == rat_zero() by {
                if sa[i].0 == key {
                    assert(a.dom().contains(sa[i].0));
                }
            }
            lemma_rsum_zero(col);
            lemma_rat_mul_by_zero(sb[l].1);
            lemma_rat_mul_by_zero(w);
        }
    }
    assert(cols =~= want);
}

/// The product rule at one monomial `k` (with no zero power).
proof fn lemma_product_rule_at(a: ExprV, b: ExprV, v: Variable, k: Map<Variable, int>)
    requires
        is_expression(a),
        is_expression(b),
        is_expression(expr_nth_deriv(a, 1, v)),
        valid_powers(k),
    ensures
        coeff(expr_nth_deriv(expr_mul(a, b), 1, v), k) == rat_add(
            coeff(expr_mul(expr_nth_deriv(a, 1, v), b), k),
            coeff(expr_mul(a, expr_nth_deriv(b, 1, v)), k),
        ),
{
    let ea = choose|e: Expression| e.wf() && e@ == a;
    let eb = choose|e: Expression| e.wf() && e@ == b;
    lemma_terms_of(&ea);
    lemma_terms_of(&eb);
    lemma_zero_lowest();
    let da = expr_nth_deriv(a, 1, v);
    let db = expr_nth_deriv(b, 1, v);
    lemma_nth_deriv_lowest(a, 1, v);
    lemma_nth_deriv_lowest(b, 1, v);
    let sa = canonical_terms(a);
    let sb = canonical_terms(b);
    let n = sa.len() as int;
    let m = sb.len() as int;
    let j = raised(k, v);
    lemma_powers_sub_add(k, single_power(v, -1));
    let f = pw(j, v);
    lemma_integer_lowest(f);
    // (a b)' at k
    let ab = expr_mul(a, b);
    lemma_coeff_mul_seq(sa, b, j);
    let x = Seq::new(sa.len(), |i: int| rat_mul(coeff(b, powers_sub(j, sa[i].0)), sa[i].1));
    lemma_coeff_first_deriv(ab, v, k);
    // a b' at k
    lemma_coeff_mul_seq(sa, db, k);
    let z = Seq::new(sa.len(), |i: int| rat_mul(coeff(db, powers_sub(k, sa[i].0)), sa[i].1));
    // a' b at k, summed over the terms of b
    law_expression_mul_commutative(da, b);
    lemma_coeff_mul_seq(sb, da, k);
    let w = Seq::new(sb.len(), |l: int| rat_mul(coeff(da, powers_sub(k, sb[l].0)), sb[l].1));
    // the weighted table, by rows and by columns
    let t = weighted_entry(sa, sb, j, v);
    lemma_weighted_lowest(sa, sb, j, v);
    lemma_weighted_rows(sa, sb, b, j, v);
    lemma_weighted_columns(sa, sb, a, j, v);
    lemma_rsum_swap(t, n, m);
    let rows = row_sums(t, n, m);
    let cols = column_sums(t, n, m);
    assert forall|l: int| 0 <= l < m implies #[trigger] w[l] == cols[l] by {
        let q = sb[l].0;
        assert(valid_powers(q) && lowest(sb[l].1));
        lemma_powers_sub_swap(k, q, single_power(v, -1));
        lemma_coeff_first_deriv(a, v, powers_sub(k, q));
        let h = (pw(powers_sub(j, q), v), 1int);
        lemma_integer_lowest(h.0);
        lemma_coeff_lowest(a, powers_sub(j, q));
        law_rational_mul_associative(h, coeff(a, powers_sub(j, q)), sb[l].1);
    }
    assert(w =~= cols);
    // entry by entry: f times the i-th entry of (a b) splits into the row and the a b' entries
    let r = Seq::new(sa.len(), |i: int| rat_mul((pw(sa[i].0, v), 1int), rat_mul(sa[i].1, coeff(b, powers_sub(j, sa[i].0)))));
    assert(rows =~= r);
    let fx = Seq::new(sa.len(), |i: int| rat_mul(x[i], (f, 1int)));
    assert forall|i: int| 0 <= i < n implies #[trigger] fx[i] == rat_add(r[i], z[i]) by {
        let p = sa[i].0;
        let alpha = sa[i].1;
        let beta = coeff(b, powers_sub(j, p));
        assert(valid_powers(p) && lowest(alpha));
        lemma_coeff_lowest(b, powers_sub(j, p));
        let wp = pw(p, v);
        let g = f - wp;
        lemma_integer_lowest(wp);
        lemma_integer_lowest(g);
        lemma_powers_sub_swap(k, p, single_power(v, -1));
        lemma_coeff_first_deriv(b, v, powers_sub(k, p));
        assert(pw(powers_sub(j, p), v) == g);
        lemma_rat_mul_zero_iff(beta, alpha);
        let xi = rat_mul(beta, alpha);
        assert(rat_add((wp, 1int), (g, 1int)) == (f, 1int)) by {
            lemma_canon_of_value(wp * 1 + g * 1, 1int * 1, (f, 1int));
        }
        law_rational_distributive(xi, (wp, 1int), (g, 1int));
        law_rational_mul_commutative(alpha, beta);
        law_rational_mul_commutative((wp, 1int), xi);
        law_rational_mul_associative((g, 1int), beta, alpha);
        law_rational_mul_commutative((g, 1int), xi);
    }
    assert(all_lowest(x)) by {
        assert forall|i: int| 0 <= i < n implies lowest(#[trigger] x[i]) by {
            lemma_coeff_lowest(b, powers_sub(j, sa[i].0));
            lemma_rat_mul_zero_iff(coeff(b, powers_sub(j, sa[i].0)), sa[i].1);
        }
    }
    assert(all_lowest(r)) by {
        assert forall|i: int| 0 <= i < n implies lowest(#[trigger] r[i]) by {
            assert(lowest(rows[i])) by {
                let row = Seq::new(m as nat, |l: int| t(i, l));
                assert(all_lowest(row));
                lemma_rsum_lowest(row);
            }
        }
    }
    assert(all_lowest(z)) by {
        assert forall|i: int| 0 <= i < n implies lowest(#[trigger] z[i]) by {
            lemma_coeff_lowest(db, powers_sub(k, sa[i].0));
            lemma_rat_mul_zero_iff(coeff(db, powers_sub(k, sa[i].0)), sa[i].1);
        }
    }
    lemma_rsum_scale(x, (f, 1int));
    assert(fx =~= Seq::new(sa.len(), |i: int| rat_add(r[i], z[i])));
    lemma_rsum_pointwise(r, z);
    lemma_rsum_lowest(x);
    law_rational_mul_commutative((f, 1int), rsum(x));
}

/// The product rule: the derivative in `v` of `a b` is `a' b + a b'` (where the
/// derivative of `a` is itself an expression).
pub proof fn law_expression_product_rule(a: ExprV, b: ExprV, v: Variable)
    requires
        is_expression(a),
        is_expression(b),
        is_expression(expr_nth_deriv(a, 1, v)),
    ensures
        expr_nth_deriv(expr_mul(a, b), 1, v)
            == expr_add(expr_mul(expr_nth_deriv(a, 1, v), b), expr_mul(a, expr_nth_deriv(b, 1, v))),
{
    let ea = choose|e: Expression| e.wf() && e@ == a;
    let eb = choose|e: Expression| e.wf() && e@ == b;
    let ed = choose|e: Expression| e.wf() && e@ == expr_nth_deriv(a, 1, v);
    lemma_terms_of(&ea);
    lemma_terms_of(&eb);
    lemma_terms_of(&ed);
    lemma_zero_lowest();
    let da = expr_nth_deriv(a, 1, v);
    let db = expr_nth_deriv(b, 1, v);
    lemma_nth_deriv_lowest(b, 1, v);
    lemma_coeff_mul_seq(canonical_terms(a), b, Map::empty());
    lemma_coeff_mul_seq(canonical_terms(da), b, Map::empty());
    lemma_coeff_mul_seq(canonical_terms(a), db, Map::empty());
    let left = expr_nth_deriv(expr_mul(a, b), 1, v);
    let p1 = expr_mul(da, b);
    let p2 = expr_mul(a, db);
    let right = expr_add(p1, p2);
    lemma_nth_deriv_lowest(expr_mul(a, b), 1, v);
    lemma_expr_add_lowest(p1, p2);
    assert forall|k: Map<Variable, int>| #[trigger] coeff(left, k) == coeff(right, k) by {
        lemma_coeff_add(p1, p2, k);
        if valid_powers(k) {
            lemma_product_rule_at(a, b, v, k);
        } else {
            lemma_coeff_first_deriv(expr_mul(a, b), v, k);
            assert(!p1.dom().contains(k));
            assert(!p2.dom().contains(k));
            law_rational_add_zero(rat_zero());
        }
    }
    lemma_expr_ext(left, right);
}

} // verus!
