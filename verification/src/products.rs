//! The coefficients of a product of expressions, and the laws of multiplication
//! that follow from them.

use vstd::prelude::*;
use crate::rational::{rat_zero, rat_mul};
use crate::divisibility::lowest;
use crate::forms::variable::Variable;
use crate::forms::term::{TermV, valid_powers, powers_add, powers_sub, lemma_powers_add_sub, lemma_powers_sub_add};
use crate::forms::expression::{Expression, ExprV, coeff, expr_add, expr_mul, expr_mul_seq, expr_mul_term, canonical_terms};
use crate::forms::rational_expression::{RatExprV, rexpr_add, rexpr_mul, rexpr_equal};
use crate::laws::law_expression_add_associative;
use crate::forms::expression::expr_add_term;
use crate::forms::polynomial::{PolyV, poly_expr, poly_mul};
use crate::laws::{
    law_expression_add_commutative, expr_lowest, lemma_zero_lowest, lemma_coeff_add, lemma_expr_add_lowest, lemma_expr_ext, lemma_rat_mul_zero_iff,
    law_rational_mul_commutative, law_rational_mul_associative, law_rational_distributive,
};
use crate::sums::{rsum, all_lowest, lemma_rsum_lowest, lemma_rsum_single, lemma_rsum_zero, row_sums, column_sums, lemma_rsum_swap};

verus! {

/// Every monomial that occurs has no zero power.
pub open spec fn keys_valid(m: ExprV) -> bool {
    forall|k: Map<Variable, int>| #[trigger] m.dom().contains(k) ==> valid_powers(k)
}

/// The terms of a well-formed expression: lowest-terms nonzero coefficients on
/// valid, distinct monomials.
pub open spec fn terms_ok(s: Seq<TermV>) -> bool {
    &&& forall|i: int| 0 <= i < s.len() ==> valid_powers(#[trigger] s[i].0) && s[i].1 != rat_zero() && lowest(s[i].1)
    &&& forall|i: int, j: int| 0 <= i < s.len() && 0 <= j < s.len() && i != j ==> #[trigger] s[i].0 != #[trigger] s[j].0
}

/// 0 times a rational, either way round, is 0.
pub(crate) proof fn lemma_rat_mul_by_zero(x: (int, int))
    requires
        lowest(x),
    ensures
        rat_mul(rat_zero(), x) == rat_zero(),
        rat_mul(x, rat_zero()) == rat_zero(),
{
    lemma_zero_lowest();
    lemma_rat_mul_zero_iff(rat_zero(), x);
    lemma_rat_mul_zero_iff(x, rat_zero());
}

/// `p + q == k` exactly when `q == k - p`, for valid `q` and `k`.
pub(crate) proof fn lemma_powers_match(p: Map<Variable, int>, q: Map<Variable, int>, k: Map<Variable, int>)
    requires
        valid_powers(q),
        valid_powers(k),
    ensures
        (powers_add(p, q) == k) == (q == powers_sub(k, p)),
{
    assert(powers_add(p, q) =~= powers_add(q, p));
    if q == powers_sub(k, p) {
        lemma_powers_sub_add(k, p);
        assert(powers_add(p, q) =~= powers_add(powers_sub(k, p), p));
    }
    if powers_add(p, q) == k {
        lemma_powers_add_sub(q, p);
    }
}

/// An expression times a nonzero term, coefficient by coefficient.
pub proof fn lemma_coeff_mul_term(b: ExprV, t: TermV, k: Map<Variable, int>)
    requires
        expr_lowest(b),
        lowest(t.1),
        t.1 != rat_zero(),
        valid_powers(k),
    ensures
        coeff(expr_mul_term(b, t), k) == rat_mul(coeff(b, powers_sub(k, t.0)), t.1),
{
    let key = powers_sub(k, t.0);
    if !b.dom().contains(key) {
        lemma_rat_mul_by_zero(t.1);
    }
}

/// A product with a nonzero term keeps coefficients nonzero, in lowest terms, on valid monomials.
pub proof fn lemma_mul_term_lowest(b: ExprV, t: TermV)
    requires
        expr_lowest(b),
        lowest(t.1),
        t.1 != rat_zero(),
    ensures
        expr_lowest(expr_mul_term(b, t)),
        keys_valid(expr_mul_term(b, t)),
{
    let r = expr_mul_term(b, t);
    assert forall|k: Map<Variable, int>| #[trigger] r.dom().contains(k) implies r[k] != rat_zero() && lowest(r[k]) by {
        let key = powers_sub(k, t.0);
        lemma_rat_mul_zero_iff(b[key], t.1);
        assert(b[key] != rat_zero());
        assert(b[key].0 != 0) by {
            if b[key].0 == 0 {
                crate::rational::lemma_gcd_zero_left(b[key].1 as nat);
                assert(crate::rational::iabs(0) == 0);
            }
        }
        assert(t.1.0 != 0) by {
            if t.1.0 == 0 {
                crate::rational::lemma_gcd_zero_left(t.1.1 as nat);
                assert(crate::rational::iabs(0) == 0);
            }
        }
    }
}

/// The coefficients of `b` times the terms of `s`, summed: at a valid monomial
/// `k`, the sum over the terms `t` of `s` of `b`'s coefficient at `k - t` times `t`'s.
pub proof fn lemma_coeff_mul_seq(s: Seq<TermV>, b: ExprV, k: Map<Variable, int>)
    requires
        terms_ok(s),
        expr_lowest(b),
        valid_powers(k),
    ensures
        coeff(expr_mul_seq(s, b), k) == rsum(Seq::new(s.len(), |i: int| rat_mul(coeff(b, powers_sub(k, s[i].0)), s[i].1))),
        expr_lowest(expr_mul_seq(s, b)),
        keys_valid(expr_mul_seq(s, b)),
    decreases s.len(),
{
    if s.len() > 0 {
        let d = s.drop_last();
        let t = s.last();
        assert(terms_ok(d)) by {
            assert forall|i: int| 0 <= i < d.len() implies valid_powers(#[trigger] d[i].0) && d[i].1 != rat_zero() && lowest(d[i].1) by {
                assert(d[i] == s[i]);
            }
            assert forall|i: int, j: int| 0 <= i < d.len() && 0 <= j < d.len() && i != j implies #[trigger] d[i].0 != #[trigger] d[j].0 by {
                assert(d[i] == s[i] && d[j] == s[j]);
            }
        }
        assert(valid_powers(t.0) && t.1 != rat_zero() && lowest(t.1)) by {
            assert(t == s[s.len() - 1]);
        }
        lemma_coeff_mul_seq(d, b, k);
        lemma_mul_term_lowest(b, t);
        let prev = expr_mul_seq(d, b);
        let step = expr_mul_term(b, t);
        lemma_coeff_add(prev, step, k);
        lemma_expr_add_lowest(prev, step);
        lemma_coeff_mul_term(b, t, k);
        let g = Seq::new(s.len(), |i: int| rat_mul(coeff(b, powers_sub(k, s[i].0)), s[i].1));
        assert(g.drop_last() =~= Seq::new(d.len(), |i: int| rat_mul(coeff(b, powers_sub(k, d[i].0)), d[i].1)));
        assert(keys_valid(expr_add(prev, step)));
    } else {
        lemma_zero_lowest();
    }
}

/// The coefficient of `k` in `a b` at an entry of the table of pairs of terms:
/// the product of the two coefficients when the monomials multiply to `k`, else 0.
pub open spec fn pair_entry(sa: Seq<TermV>, sb: Seq<TermV>, k: Map<Variable, int>) -> spec_fn(int, int) -> (int, int) {
    |i: int, j: int| if powers_add(sa[i].0, sb[j].0) == k { rat_mul(sa[i].1, sb[j].1) } else { rat_zero() }
}

/// The products of the entries of `s` with the expression `b` given by its terms `sb`.
proof fn lemma_rows(sa: Seq<TermV>, sb: Seq<TermV>, b: ExprV, k: Map<Variable, int>)
    requires
        terms_ok(sa),
        terms_ok(sb),
        expr_lowest(b),
        forall|j: int| 0 <= j < sb.len() ==> b.dom().contains(#[trigger] sb[j].0) && b[sb[j].0] == sb[j].1,
        forall|q: Map<Variable, int>| #[trigger] b.dom().contains(q) ==> exists|j: int| 0 <= j < sb.len() && #[trigger] sb[j].0 == q,
        valid_powers(k),
    ensures
        row_sums(pair_entry(sa, sb, k), sa.len() as int, sb.len() as int)
            == Seq::new(sa.len(), |i: int| rat_mul(coeff(b, powers_sub(k, sa[i].0)), sa[i].1)),
{
    let f = pair_entry(sa, sb, k);
    let rows = row_sums(f, sa.len() as int, sb.len() as int);
    let want = Seq::new(sa.len(), |i: int| rat_mul(coeff(b, powers_sub(k, sa[i].0)), sa[i].1));
    lemma_zero_lowest();
    assert forall|i: int| 0 <= i < sa.len() implies #[trigger] rows[i] == want[i] by {
        let row = Seq::new(sb.len(), |j: int| f(i, j));
        let key = powers_sub(k, sa[i].0);
        assert(lowest(sa[i].1) && valid_powers(sa[i].0));
        assert forall|j: int| 0 <= j < sb.len() implies (powers_add(sa[i].0, sb[j].0) == k) == (sb[j].0 == key) by {
            assert(valid_powers(sb[j].0));
            lemma_powers_match(sa[i].0, sb[j].0, k);
        }
        assert(all_lowest(row)) by {
            assert forall|j: int| 0 <= j < row.len() implies lowest(#[trigger] row[j]) by {
                assert(lowest(sb[j].1));
                lemma_rat_mul_zero_iff(sa[i].1, sb[j].1);
            }
        }
        if b.dom().contains(key) {
            let j0 = choose|j: int| 0 <= j < sb.len() && #[trigger] sb[j].0 == key;
            assert forall|j: int| 0 <= j < row.len() && j != j0 implies #[trigger] row[j] == rat_zero() by {
                assert(sb[j].0 != sb[j0].0);
            }
            lemma_rsum_single(row, j0);
            law_rational_mul_commutative(sa[i].1, sb[j0].1);
        } else {
            assert forall|j: int| 0 <= j < row.len() implies #[trigger] row[j] == rat_zero() by {
                if sb[j].0 == key {
                    assert(b.dom().contains(sb[j].0));
                }
            }
            lemma_rsum_zero(row);
            lemma_rat_mul_by_zero(sa[i].1);
        }
    }
    assert(rows =~= want);
}

/// The products of the entries of the expression `a` given by its terms `sa` with those of `sb`.
proof fn lemma_columns(sa: Seq<TermV>, sb: Seq<TermV>, a: ExprV, k: Map<Variable, int>)
    requires
        terms_ok(sa),
        terms_ok(sb),
        expr_lowest(a),
        forall|i: int| 0 <= i < sa.len() ==> a.dom().contains(#[trigger] sa[i].0) && a[sa[i].0] == sa[i].1,
        forall|q: Map<Variable, int>| #[trigger] a.dom().contains(q) ==> exists|i: int| 0 <= i < sa.len() && #[trigger] sa[i].0 == q,
        valid_powers(k),
    ensures
        column_sums(pair_entry(sa, sb, k), sa.len() as int, sb.len() as int)
            == Seq::new(sb.len(), |j: int| rat_mul(coeff(a, powers_sub(k, sb[j].0)), sb[j].1)),
{
    let f = pair_entry(sa, sb, k);
    let cols = column_sums(f, sa.len() as int, sb.len() as int);
    let want = Seq::new(sb.len(), |j: int| rat_mul(coeff(a, powers_sub(k, sb[j].0)), sb[j].1));
    lemma_zero_lowest();
    assert forall|j: int| 0 <= j < sb.len() implies #[trigger] cols[j] == want[j] by {
        let col = Seq::new(sa.len(), |i: int| f(i, j));
        let key = powers_sub(k, sb[j].0);
        assert(lowest(sb[j].1) && valid_powers(sb[j].0));
        assert forall|i: int| 0 <= i < sa.len() implies (powers_add(sa[i].0, sb[j].0) == k) == (sa[i].0 == key) by {
            assert(valid_powers(sa[i].0));
            assert(powers_add(sa[i].0, sb[j].0) =~= powers_add(sb[j].0, sa[i].0));
            lemma_powers_match(sb[j].0, sa[i].0, k);
        }
        assert(all_lowest(col)) by {
            assert forall|i: int| 0 <= i < col.len() implies lowest(#[trigger] col[i]) by {
                assert(lowest(sa[i].1));
                lemma_rat_mul_zero_iff(sa[i].1, sb[j].1);
            }
        }
        if a.dom().contains(key) {
            let i0 = choose|i: int| 0 <= i < sa.len() && #[trigger] sa[i].0 == key;
            assert forall|i: int| 0 <= i < col.len() && i != i0 implies #[trigger] col[i] == rat_zero() by {
                assert(sa[i].0 != sa[i0].0);
            }
            lemma_rsum_single(col, i0);
        } else {
            assert forall|i: int| 0 <= i < col.len() implies #[trigger] col[i] == rat_zero() by {
                if sa[i].0 == key {
                    assert(a.dom().contains(sa[i].0));
                }
            }
            lemma_rsum_zero(col);
            lemma_rat_mul_by_zero(sb[j].1);
        }
    }
    assert(cols =~= want);
}

/// What the canonical terms of a well-formed expression satisfy.
pub proof fn lemma_terms_of(a: &Expression)
    requires
        a.wf(),
    ensures
        terms_ok(canonical_terms(a@)),
        expr_lowest(a@),
        keys_valid(a@),
        forall|i: int| 0 <= i < canonical_terms(a@).len()
            ==> a@.dom().contains(#[trigger] canonical_terms(a@)[i].0) && a@[canonical_terms(a@)[i].0] == canonical_terms(a@)[i].1,
        forall|q: Map<Variable, int>| #[trigger] a@.dom().contains(q)
            ==> exists|i: int| 0 <= i < canonical_terms(a@).len() && #[trigger] canonical_terms(a@)[i].0 == q,
        a@.dom().finite(),
        forall|q: Map<Variable, int>| #[trigger] a@.dom().contains(q) ==> q.dom().finite(),
{
    a.lemma_canonical_terms_facts();
    a.lemma_view_values();
    a.lemma_keys_finite();
    let ts = canonical_terms(a@);
    assert forall|q: Map<Variable, int>| #[trigger] a@.dom().contains(q) implies a@[q] != rat_zero() && lowest(a@[q]) && valid_powers(q) by {
        let i = choose|i: int| 0 <= i < ts.len() && #[trigger] ts[i].0 == q;
        assert(valid_powers(ts[i].0) && ts[i].1 != rat_zero());
    }
}

/// The coefficients of a well-formed expression.
pub open spec fn is_expression(m: ExprV) -> bool {
    exists|e: Expression| e.wf() && e@ == m
}

/// Multiplying expressions is commutative.
pub proof fn law_expression_mul_commutative(a: ExprV, b: ExprV)
    requires
        is_expression(a),
        is_expression(b),
    ensures
        expr_mul(a, b) == expr_mul(b, a),
{
    let ea = choose|e: Expression| e.wf() && e@ == a;
    let eb = choose|e: Expression| e.wf() && e@ == b;
    let sa = canonical_terms(a);
    let sb = canonical_terms(b);
    lemma_terms_of(&ea);
    lemma_terms_of(&eb);
    let ab = expr_mul(a, b);
    let ba = expr_mul(b, a);
    assert forall|k: Map<Variable, int>| #[trigger] coeff(ab, k) == coeff(ba, k) by {
        lemma_coeff_mul_seq(sa, b, valid_or_empty(k));
        lemma_coeff_mul_seq(sb, a, valid_or_empty(k));
        if valid_powers(k) {
            let f = pair_entry(sa, sb, k);
            lemma_rows(sa, sb, b, k);
            lemma_columns(sa, sb, a, k);
            assert forall|i: int, j: int| 0 <= i < sa.len() && 0 <= j < sb.len() implies lowest(#[trigger] f(i, j)) by {
                lemma_zero_lowest();
                assert(valid_powers(sa[i].0) && valid_powers(sb[j].0));
                lemma_rat_mul_zero_iff(sa[i].1, sb[j].1);
            }
            lemma_rsum_swap(f, sa.len() as int, sb.len() as int);
        } else {
            assert(!ab.dom().contains(k));
            assert(!ba.dom().contains(k));
        }
    }
    lemma_coeff_mul_seq(sa, b, Map::empty());
    lemma_coeff_mul_seq(sb, a, Map::empty());
    lemma_expr_ext(ab, ba);
}

/// Adding rational expressions is commutative (as pairs, not only in value).
pub proof fn law_rational_expression_add_commutative(a: RatExprV, b: RatExprV)
    requires
        is_expression(a.0),
        is_expression(a.1),
        is_expression(b.0),
        is_expression(b.1),
    ensures
        rexpr_add(a, b) == rexpr_add(b, a),
{
    law_expression_mul_commutative(a.1, b.1);
    law_expression_add_commutative(expr_mul(a.0, b.1), expr_mul(b.0, a.1));
}

/// Multiplying rational expressions is commutative.
pub proof fn law_rational_expression_mul_commutative(a: RatExprV, b: RatExprV)
    requires
        is_expression(a.0),
        is_expression(a.1),
        is_expression(b.0),
        is_expression(b.1),
    ensures
        rexpr_mul(a, b) == rexpr_mul(b, a),
{
    law_expression_mul_commutative(a.0, b.0);
    law_expression_mul_commutative(a.1, b.1);
}

/// Every rational expression equals itself.
pub proof fn law_rational_expression_equal_reflexive(a: RatExprV)
    requires
        is_expression(a.0),
        is_expression(a.1),
    ensures
        rexpr_equal(a, a),
{
    law_expression_mul_commutative(a.0, a.1);
}

/// Equality of rational expressions is symmetric.
pub proof fn law_rational_expression_equal_symmetric(a: RatExprV, b: RatExprV)
    requires
        is_expression(a.0),
        is_expression(a.1),
        is_expression(b.0),
        is_expression(b.1),
        rexpr_equal(a, b),
    ensures
        rexpr_equal(b, a),
{
    law_expression_mul_commutative(a.0, b.1);
    law_expression_mul_commutative(a.1, b.0);
}

/// `k` when it has no zero power, else the empty monomial.
spec fn valid_or_empty(k: Map<Variable, int>) -> Map<Variable, int> {
    if valid_powers(k) { k } else { Map::empty() }
}

/// Multiplying a sum by a rational multiplies each entry.
pub(crate) proof fn lemma_rsum_scale(s: Seq<(int, int)>, x: (int, int))
    requires
        all_lowest(s),
        lowest(x),
    ensures
        rat_mul(rsum(s), x) == rsum(Seq::new(s.len(), |i: int| rat_mul(s[i], x))),
    decreases s.len(),
{
    let t = Seq::new(s.len(), |i: int| rat_mul(s[i], x));
    if s.len() == 0 {
        lemma_rat_mul_by_zero(x);
    } else {
        let d = s.drop_last();
        assert(all_lowest(d)) by {
            assert forall|i: int| 0 <= i < d.len() implies lowest(#[trigger] d[i]) by {
                assert(d[i] == s[i]);
            }
        }
        lemma_rsum_scale(d, x);
        assert(t.drop_last() =~= Seq::new(d.len(), |i: int| rat_mul(d[i], x)));
        let r = rsum(d);
        let l = s.last();
        lemma_rsum_lowest(d);
        assert(lowest(l)) by {
            assert(lowest(s[s.len() - 1]));
        }
        law_rational_mul_commutative(crate::rational::rat_add(r, l), x);
        law_rational_distributive(x, r, l);
        law_rational_mul_commutative(x, r);
        law_rational_mul_commutative(x, l);
    }
}

/// Subtracting two monomials from `k` in either order gives the same result.
pub(crate) proof fn lemma_powers_sub_swap(k: Map<Variable, int>, p: Map<Variable, int>, q: Map<Variable, int>)
    ensures
        powers_sub(powers_sub(k, p), q) == powers_sub(powers_sub(k, q), p),
{
    assert(powers_sub(powers_sub(k, p), q) =~= powers_sub(powers_sub(k, q), p));
}

/// `(x y) z == (x z) y` for rationals in lowest terms.
proof fn lemma_mul_swap_last(x: (int, int), y: (int, int), z: (int, int))
    requires
        lowest(x),
        lowest(y),
        lowest(z),
    ensures
        rat_mul(rat_mul(x, y), z) == rat_mul(rat_mul(x, z), y),
{
    law_rational_mul_associative(x, y, z);
    law_rational_mul_commutative(y, z);
    law_rational_mul_associative(x, z, y);
}

/// The table entry of `(a b) c` and `a (b c)` at the `i`-th term of `a` and the
/// `l`-th term of `c`: `b`'s coefficient at `k` minus both, times both coefficients.
pub open spec fn triple_entry(sa: Seq<TermV>, sc: Seq<TermV>, b: ExprV, k: Map<Variable, int>) -> spec_fn(int, int) -> (int, int) {
    |i: int, l: int| rat_mul(rat_mul(coeff(b, powers_sub(powers_sub(k, sa[i].0), sc[l].0)), sc[l].1), sa[i].1)
}

/// A coefficient of an expression in lowest terms is in lowest terms (0 included).
pub proof fn lemma_coeff_lowest(m: ExprV, k: Map<Variable, int>)
    requires
        expr_lowest(m),
    ensures
        lowest(coeff(m, k)),
{
    lemma_zero_lowest();
}

/// Multiplying expressions is associative (where the product `a b` is itself
/// the coefficients of a well-formed expression).
pub proof fn law_expression_mul_associative(a: ExprV, b: ExprV, c: ExprV)
    requires
        is_expression(a),
        is_expression(b),
        is_expression(c),
        is_expression(expr_mul(a, b)),
    ensures
        expr_mul(expr_mul(a, b), c) == expr_mul(a, expr_mul(b, c)),
{
    let ea = choose|e: Expression| e.wf() && e@ == a;
    let eb = choose|e: Expression| e.wf() && e@ == b;
    let ec = choose|e: Expression| e.wf() && e@ == c;
    lemma_terms_of(&ea);
    lemma_terms_of(&eb);
    lemma_terms_of(&ec);
    let sa = canonical_terms(a);
    let sb = canonical_terms(b);
    let sc = canonical_terms(c);
    let ab = expr_mul(a, b);
    let bc = expr_mul(b, c);
    lemma_coeff_mul_seq(sa, b, Map::empty());
    lemma_coeff_mul_seq(sb, c, Map::empty());
    law_expression_mul_commutative(ab, c);
    law_expression_mul_commutative(b, c);
    let left = expr_mul(c, ab);
    let right = expr_mul(a, bc);
    lemma_coeff_mul_seq(sc, ab, Map::empty());
    lemma_coeff_mul_seq(sa, bc, Map::empty());
    assert forall|k: Map<Variable, int>| #[trigger] coeff(left, k) == coeff(right, k) by {
        if valid_powers(k) {
            let f = triple_entry(sa, sc, b, k);
            // c (a b), one term of c at a time
            lemma_coeff_mul_seq(sc, ab, k);
            let outer = Seq::new(sc.len(), |l: int| rat_mul(coeff(ab, powers_sub(k, sc[l].0)), sc[l].1));
            assert forall|l: int| 0 <= l < sc.len() implies #[trigger] outer[l]
                == rsum(Seq::new(sa.len(), |i: int| f(i, l))) by {
                let q = powers_sub(k, sc[l].0);
                lemma_powers_sub_add(k, sc[l].0);
                lemma_coeff_mul_seq(sa, b, q);
                let inner = Seq::new(sa.len(), |i: int| rat_mul(coeff(b, powers_sub(q, sa[i].0)), sa[i].1));
                assert(all_lowest(inner)) by {
                    assert forall|i: int| 0 <= i < inner.len() implies lowest(#[trigger] inner[i]) by {
                        assert(valid_powers(sa[i].0));
                        lemma_coeff_lowest(b, powers_sub(q, sa[i].0));
                        lemma_rat_mul_zero_iff(coeff(b, powers_sub(q, sa[i].0)), sa[i].1);
                    }
                }
                assert(valid_powers(sc[l].0));
                lemma_rsum_scale(inner, sc[l].1);
                assert forall|i: int| 0 <= i < sa.len() implies #[trigger] rat_mul(inner[i], sc[l].1) == f(i, l) by {
                    assert(valid_powers(sa[i].0));
                    lemma_powers_sub_swap(k, sc[l].0, sa[i].0);
                    lemma_coeff_lowest(b, powers_sub(q, sa[i].0));
                    lemma_mul_swap_last(coeff(b, powers_sub(q, sa[i].0)), sa[i].1, sc[l].1);
                }
                assert(Seq::new(sa.len(), |i: int| rat_mul(inner[i], sc[l].1)) =~= Seq::new(sa.len(), |i: int| f(i, l)));
            }
            assert(outer =~= column_sums(f, sa.len() as int, sc.len() as int));
            // a (b c), with b c written as c b, one term of a at a time
            lemma_coeff_mul_seq(sa, bc, k);
            let outer2 = Seq::new(sa.len(), |i: int| rat_mul(coeff(bc, powers_sub(k, sa[i].0)), sa[i].1));
            assert forall|i: int| 0 <= i < sa.len() implies #[trigger] outer2[i]
                == rsum(Seq::new(sc.len(), |l: int| f(i, l))) by {
                let q = powers_sub(k, sa[i].0);
                lemma_powers_sub_add(k, sa[i].0);
                lemma_coeff_mul_seq(sc, b, q);
                let inner = Seq::new(sc.len(), |l: int| rat_mul(coeff(b, powers_sub(q, sc[l].0)), sc[l].1));
                assert(all_lowest(inner)) by {
                    assert forall|l: int| 0 <= l < inner.len() implies lowest(#[trigger] inner[l]) by {
                        assert(valid_powers(sc[l].0));
                        lemma_coeff_lowest(b, powers_sub(q, sc[l].0));
                        lemma_rat_mul_zero_iff(coeff(b, powers_sub(q, sc[l].0)), sc[l].1);
                    }
                }
                assert(valid_powers(sa[i].0));
                lemma_rsum_scale(inner, sa[i].1);
                assert(Seq::new(sc.len(), |l: int| rat_mul(inner[l], sa[i].1)) =~= Seq::new(sc.len(), |l: int| f(i, l)));
            }
            assert(outer2 =~= row_sums(f, sa.len() as int, sc.len() as int));
            assert forall|i: int, l: int| 0 <= i < sa.len() && 0 <= l < sc.len() implies lowest(#[trigger] f(i, l)) by {
                assert(valid_powers(sa[i].0) && valid_powers(sc[l].0));
                let beta = coeff(b, powers_sub(powers_sub(k, sa[i].0), sc[l].0));
                lemma_coeff_lowest(b, powers_sub(powers_sub(k, sa[i].0), sc[l].0));
                lemma_rat_mul_zero_iff(beta, sc[l].1);
                lemma_rat_mul_zero_iff(rat_mul(beta, sc[l].1), sa[i].1);
            }
            lemma_rsum_swap(f, sa.len() as int, sc.len() as int);
        } else {
            assert(!left.dom().contains(k));
            assert(!right.dom().contains(k));
        }
    }
    lemma_expr_ext(left, right);
}

/// Multiplying the numerator and the denominator by the same expression does
/// not change the value of a rational expression (where both products are the
/// coefficients of well-formed expressions).
pub proof fn law_rational_expression_scale_keeps_value(a: RatExprV, v: ExprV)
    requires
        is_expression(a.0),
        is_expression(a.1),
        is_expression(v),
        is_expression(expr_mul(a.0, v)),
        is_expression(expr_mul(a.1, v)),
    ensures
        rexpr_equal((expr_mul(a.0, v), expr_mul(a.1, v)), a),
{
    law_expression_mul_associative(a.0, v, a.1);
    law_expression_mul_commutative(expr_mul(a.1, v), a.0);
    law_expression_mul_commutative(v, a.1);
}

/// The coefficients of `(m t) n` for a nonzero term `t`: those of `n m`, shifted
/// by `t`'s powers and multiplied by its multiplier.
proof fn lemma_coeff_mul_term_product(m: ExprV, n: ExprV, t: TermV, k: Map<Variable, int>)
    requires
        is_expression(m),
        is_expression(n),
        is_expression(expr_mul_term(m, t)),
        lowest(t.1),
        t.1 != rat_zero(),
        valid_powers(k),
    ensures
        coeff(expr_mul(expr_mul_term(m, t), n), k) == rat_mul(coeff(expr_mul(n, m), powers_sub(k, t.0)), t.1),
{
    let x = expr_mul_term(m, t);
    let em = choose|e: Expression| e.wf() && e@ == m;
    let en = choose|e: Expression| e.wf() && e@ == n;
    lemma_terms_of(&em);
    lemma_terms_of(&en);
    lemma_mul_term_lowest(m, t);
    law_expression_mul_commutative(x, n);
    let sn = canonical_terms(n);
    lemma_coeff_mul_seq(sn, x, k);
    let k2 = powers_sub(k, t.0);
    lemma_powers_sub_add(k, t.0);
    lemma_coeff_mul_seq(sn, m, k2);
    let inner = Seq::new(sn.len(), |j: int| rat_mul(coeff(m, powers_sub(k2, sn[j].0)), sn[j].1));
    assert(all_lowest(inner)) by {
        assert forall|j: int| 0 <= j < inner.len() implies lowest(#[trigger] inner[j]) by {
            assert(valid_powers(sn[j].0));
            lemma_coeff_lowest(m, powers_sub(k2, sn[j].0));
            lemma_rat_mul_zero_iff(coeff(m, powers_sub(k2, sn[j].0)), sn[j].1);
        }
    }
    lemma_rsum_scale(inner, t.1);
    let outer = Seq::new(sn.len(), |j: int| rat_mul(coeff(x, powers_sub(k, sn[j].0)), sn[j].1));
    assert forall|j: int| 0 <= j < sn.len() implies #[trigger] outer[j] == rat_mul(inner[j], t.1) by {
        assert(valid_powers(sn[j].0));
        let q = powers_sub(k, sn[j].0);
        lemma_powers_sub_add(k, sn[j].0);
        lemma_coeff_mul_term(m, t, q);
        lemma_powers_sub_swap(k, sn[j].0, t.0);
        lemma_coeff_lowest(m, powers_sub(k2, sn[j].0));
        lemma_mul_swap_last(coeff(m, powers_sub(k2, sn[j].0)), t.1, sn[j].1);
    }
    assert(outer =~= Seq::new(sn.len(), |j: int| rat_mul(inner[j], t.1)));
}

/// Multiplying the numerator and the denominator by the same nonzero term does
/// not change the value of a rational expression.
pub proof fn law_rational_expression_scale_by_term_keeps_value(a: RatExprV, t: TermV)
    requires
        is_expression(a.0),
        is_expression(a.1),
        is_expression(expr_mul_term(a.0, t)),
        is_expression(expr_mul_term(a.1, t)),
        lowest(t.1),
        t.1 != rat_zero(),
    ensures
        rexpr_equal((expr_mul_term(a.0, t), expr_mul_term(a.1, t)), a),
{
    let x = expr_mul_term(a.0, t);
    let y = expr_mul_term(a.1, t);
    let left = expr_mul(x, a.1);
    let right = expr_mul(y, a.0);
    let ex = choose|e: Expression| e.wf() && e@ == x;
    let ey = choose|e: Expression| e.wf() && e@ == y;
    let e0 = choose|e: Expression| e.wf() && e@ == a.0;
    let e1 = choose|e: Expression| e.wf() && e@ == a.1;
    lemma_terms_of(&ex);
    lemma_terms_of(&ey);
    lemma_terms_of(&e0);
    lemma_terms_of(&e1);
    lemma_coeff_mul_seq(canonical_terms(x), a.1, Map::empty());
    lemma_coeff_mul_seq(canonical_terms(y), a.0, Map::empty());
    law_expression_mul_commutative(a.0, a.1);
    assert forall|k: Map<Variable, int>| #[trigger] coeff(left, k) == coeff(right, k) by {
        if valid_powers(k) {
            lemma_coeff_mul_term_product(a.0, a.1, t, k);
            lemma_coeff_mul_term_product(a.1, a.0, t, k);
        } else {
            assert(!left.dom().contains(k));
            assert(!right.dom().contains(k));
        }
    }
    lemma_expr_ext(left, right);
}

/// Multiplication distributes over addition of expressions.
pub proof fn law_expression_distributive(a: ExprV, b: ExprV, c: ExprV)
    requires
        is_expression(a),
        is_expression(b),
        is_expression(c),
    ensures
        expr_mul(a, expr_add(b, c)) == expr_add(expr_mul(a, b), expr_mul(a, c)),
{
    let ea = choose|e: Expression| e.wf() && e@ == a;
    let eb = choose|e: Expression| e.wf() && e@ == b;
    let ec = choose|e: Expression| e.wf() && e@ == c;
    lemma_terms_of(&ea);
    lemma_terms_of(&eb);
    lemma_terms_of(&ec);
    let sa = canonical_terms(a);
    let bc = expr_add(b, c);
    lemma_expr_add_lowest(b, c);
    let left = expr_mul(a, bc);
    let ab = expr_mul(a, b);
    let ac = expr_mul(a, c);
    let right = expr_add(ab, ac);
    lemma_coeff_mul_seq(sa, bc, Map::empty());
    lemma_coeff_mul_seq(sa, b, Map::empty());
    lemma_coeff_mul_seq(sa, c, Map::empty());
    lemma_expr_add_lowest(ab, ac);
    assert forall|k: Map<Variable, int>| #[trigger] coeff(left, k) == coeff(right, k) by {
        if valid_powers(k) {
            lemma_coeff_mul_seq(sa, bc, k);
            lemma_coeff_mul_seq(sa, b, k);
            lemma_coeff_mul_seq(sa, c, k);
            lemma_coeff_add(ab, ac, k);
            let sb = Seq::new(sa.len(), |i: int| rat_mul(coeff(b, powers_sub(k, sa[i].0)), sa[i].1));
            let sc = Seq::new(sa.len(), |i: int| rat_mul(coeff(c, powers_sub(k, sa[i].0)), sa[i].1));
            let sbc = Seq::new(sa.len(), |i: int| rat_mul(coeff(bc, powers_sub(k, sa[i].0)), sa[i].1));
            assert forall|i: int| 0 <= i < sb.len() implies lowest(#[trigger] sb[i]) by {
                assert(valid_powers(sa[i].0));
                lemma_coeff_lowest(b, powers_sub(k, sa[i].0));
                lemma_rat_mul_zero_iff(coeff(b, powers_sub(k, sa[i].0)), sa[i].1);
            }
            assert forall|i: int| 0 <= i < sc.len() implies lowest(#[trigger] sc[i]) by {
                assert(valid_powers(sa[i].0));
                lemma_coeff_lowest(c, powers_sub(k, sa[i].0));
                lemma_rat_mul_zero_iff(coeff(c, powers_sub(k, sa[i].0)), sa[i].1);
            }
            assert forall|i: int| 0 <= i < sa.len() implies #[trigger] sbc[i] == crate::rational::rat_add(sb[i], sc[i]) by {
                assert(valid_powers(sa[i].0));
                let q = powers_sub(k, sa[i].0);
                lemma_coeff_add(b, c, q);
                lemma_coeff_lowest(b, q);
                lemma_coeff_lowest(c, q);
                law_rational_mul_commutative(crate::rational::rat_add(coeff(b, q), coeff(c, q)), sa[i].1);
                law_rational_distributive(sa[i].1, coeff(b, q), coeff(c, q));
                law_rational_mul_commutative(sa[i].1, coeff(b, q));
                law_rational_mul_commutative(sa[i].1, coeff(c, q));
            }
            assert(sbc =~= Seq::new(sb.len(), |i: int| crate::rational::rat_add(sb[i], sc[i])));
            crate::sums::lemma_rsum_pointwise(sb, sc);
        } else {
            assert(!left.dom().contains(k));
            assert(!right.dom().contains(k));
        }
    }
    lemma_expr_ext(left, right);
}

/// Multiplying polynomials in the same variable is commutative.
pub proof fn law_polynomial_mul_commutative(a: PolyV, b: PolyV)
    requires
        a.0 == b.0,
        is_expression(poly_expr(a.0, a.1)),
        is_expression(poly_expr(b.0, b.1)),
    ensures
        poly_mul(a, b) == poly_mul(b, a),
{
    law_expression_mul_commutative(poly_expr(a.0, a.1), poly_expr(b.0, b.1));
}

/// A product whose left factor is an expression, and whose right factor has
/// nonzero lowest-terms coefficients, has nonzero lowest-terms coefficients.
proof fn lemma_product_lowest(p: ExprV, q: ExprV)
    requires
        is_expression(p),
        expr_lowest(q),
    ensures
        expr_lowest(expr_mul(p, q)),
{
    let ep = choose|e: Expression| e.wf() && e@ == p;
    lemma_terms_of(&ep);
    lemma_coeff_mul_seq(canonical_terms(p), q, Map::empty());
}

/// The coefficients of an expression are nonzero and in lowest terms.
proof fn lemma_expression_lowest(m: ExprV)
    requires
        is_expression(m),
    ensures
        expr_lowest(m),
{
    let e = choose|e: Expression| e.wf() && e@ == m;
    lemma_terms_of(&e);
}

/// `(x + y) z == x z + y z`.
proof fn lemma_distributive_right(x: ExprV, y: ExprV, z: ExprV)
    requires
        is_expression(x),
        is_expression(y),
        is_expression(z),
        is_expression(expr_add(x, y)),
    ensures
        expr_mul(expr_add(x, y), z) == expr_add(expr_mul(x, z), expr_mul(y, z)),
{
    law_expression_mul_commutative(expr_add(x, y), z);
    law_expression_distributive(z, x, y);
    law_expression_mul_commutative(z, x);
    law_expression_mul_commutative(z, y);
}

/// Multiplying rational expressions is associative (where the products of the
/// first two numerators and of the first two denominators are expressions).
pub proof fn law_rational_expression_mul_associative(a: RatExprV, b: RatExprV, c: RatExprV)
    requires
        is_expression(a.0),
        is_expression(a.1),
        is_expression(b.0),
        is_expression(b.1),
        is_expression(c.0),
        is_expression(c.1),
        is_expression(expr_mul(a.0, b.0)),
        is_expression(expr_mul(a.1, b.1)),
    ensures
        rexpr_mul(rexpr_mul(a, b), c) == rexpr_mul(a, rexpr_mul(b, c)),
{
    law_expression_mul_associative(a.0, b.0, c.0);
    law_expression_mul_associative(a.1, b.1, c.1);
}

/// Adding rational expressions is associative, as pairs (where the products
/// and partial sums that the two ways of adding form are expressions).
pub proof fn law_rational_expression_add_associative(a: RatExprV, b: RatExprV, c: RatExprV)
    requires
        is_expression(a.0),
        is_expression(a.1),
        is_expression(b.0),
        is_expression(b.1),
        is_expression(c.0),
        is_expression(c.1),
        is_expression(expr_mul(a.0, b.1)),
        is_expression(expr_mul(b.0, a.1)),
        is_expression(expr_mul(b.0, c.1)),
        is_expression(expr_mul(c.0, b.1)),
        is_expression(expr_mul(a.1, b.1)),
        is_expression(rexpr_add(a, b).0),
        is_expression(rexpr_add(b, c).0),
    ensures
        rexpr_add(rexpr_add(a, b), c) == rexpr_add(a, rexpr_add(b, c)),
{
    let (an, ad) = (a.0, a.1);
    let (bn, bd) = (b.0, b.1);
    let (cn, cd) = (c.0, c.1);
    // denominators
    law_expression_mul_associative(ad, bd, cd);
    // (an bd + bn ad) cd == (an bd) cd + (bn ad) cd
    lemma_distributive_right(expr_mul(an, bd), expr_mul(bn, ad), cd);
    // (bn cd + cn bd) ad == (bn cd) ad + (cn bd) ad
    lemma_distributive_right(expr_mul(bn, cd), expr_mul(cn, bd), ad);
    // (an bd) cd == an (bd cd)
    law_expression_mul_associative(an, bd, cd);
    // (bn ad) cd == (bn cd) ad
    law_expression_mul_associative(bn, ad, cd);
    law_expression_mul_commutative(ad, cd);
    law_expression_mul_associative(bn, cd, ad);
    // cn (ad bd) == (cn bd) ad
    law_expression_mul_associative(cn, bd, ad);
    law_expression_mul_commutative(bd, ad);
    // regroup the three products
    let x = expr_mul(expr_mul(an, bd), cd);
    let y = expr_mul(expr_mul(bn, ad), cd);
    let z = expr_mul(cn, expr_mul(ad, bd));
    lemma_expression_lowest(cd);
    lemma_expression_lowest(expr_mul(ad, bd));
    lemma_product_lowest(expr_mul(an, bd), cd);
    lemma_product_lowest(expr_mul(bn, ad), cd);
    lemma_product_lowest(cn, expr_mul(ad, bd));
    law_expression_add_associative(x, y, z);
}

/// The terms listed in `s` added one at a time to `m`, from the first.
pub open spec fn add_terms(m: ExprV, s: Seq<TermV>) -> ExprV
    decreases s.len(),
{
    if s.len() == 0 {
        m
    } else {
        expr_add_term(add_terms(m, s.drop_last()), s.last())
    }
}

/// Adding terms with distinct monomials and nonzero coefficients to 0 collects them as they are.
proof fn lemma_add_terms(s: Seq<TermV>)
    requires
        terms_ok(s),
    ensures
        forall|k: Map<Variable, int>| #[trigger] add_terms(Map::empty(), s).dom().contains(k)
            <==> exists|j: int| 0 <= j < s.len() && #[trigger] s[j].0 == k,
        forall|j: int| 0 <= j < s.len() ==> add_terms(Map::empty(), s)[#[trigger] s[j].0] == s[j].1,
    decreases s.len(),
{
    if s.len() > 0 {
        let d = s.drop_last();
        let t = s.last();
        assert(terms_ok(d)) by {
            assert forall|i: int| 0 <= i < d.len() implies valid_powers(#[trigger] d[i].0) && d[i].1 != rat_zero() && lowest(d[i].1) by {
                assert(d[i] == s[i]);
            }
            assert forall|i: int, j: int| 0 <= i < d.len() && 0 <= j < d.len() && i != j implies #[trigger] d[i].0 != #[trigger] d[j].0 by {
                assert(d[i] == s[i] && d[j] == s[j]);
            }
        }
        lemma_add_terms(d);
        let prev = add_terms(Map::empty(), d);
        assert(t == s[s.len() - 1]);
        assert(!prev.dom().contains(t.0)) by {
            if prev.dom().contains(t.0) {
                let j = choose|j: int| 0 <= j < d.len() && #[trigger] d[j].0 == t.0;
                assert(s[j].0 == s[s.len() - 1].0);
            }
        }
        assert(t.1 != rat_zero());
        let r = add_terms(Map::empty(), s);
        assert(r == prev.insert(t.0, t.1));
        assert forall|k: Map<Variable, int>| #[trigger] r.dom().contains(k)
            <==> exists|j: int| 0 <= j < s.len() && #[trigger] s[j].0 == k by {
            if r.dom().contains(k) {
                if k == t.0 {
                    assert(s[s.len() - 1].0 == k);
                } else {
                    let j = choose|j: int| 0 <= j < d.len() && #[trigger] d[j].0 == k;
                    assert(s[j].0 == k);
                }
            }
            if exists|j: int| 0 <= j < s.len() && #[trigger] s[j].0 == k {
                let j = choose|j: int| 0 <= j < s.len() && #[trigger] s[j].0 == k;
                if j < d.len() {
                    assert(d[j].0 == k);
                }
            }
        }
        assert forall|j: int| 0 <= j < s.len() implies r[#[trigger] s[j].0] == s[j].1 by {
            if j < d.len() {
                assert(d[j] == s[j]);
                assert(s[j].0 != s[s.len() - 1].0);
            }
        }
    }
}

/// Adding up the terms of an expression, one at a time from 0, gives back the expression.
pub proof fn law_expression_terms_sum_back(m: ExprV)
    requires
        is_expression(m),
    ensures
        add_terms(Map::empty(), canonical_terms(m)) == m,
{
    let e = choose|e: Expression| e.wf() && e@ == m;
    lemma_terms_of(&e);
    let ts = canonical_terms(m);
    lemma_add_terms(ts);
    let r = add_terms(Map::empty(), ts);
    assert forall|k: Map<Variable, int>| #[trigger] r.dom().contains(k) == m.dom().contains(k) by {
        if m.dom().contains(k) {
            let j = choose|j: int| 0 <= j < ts.len() && #[trigger] ts[j].0 == k;
        }
    }
    assert forall|k: Map<Variable, int>| #[trigger] m.dom().contains(k) implies r[k] == m[k] by {
        let j = choose|j: int| 0 <= j < ts.len() && #[trigger] ts[j].0 == k;
    }
    assert(r =~= m);
}

} // verus!
