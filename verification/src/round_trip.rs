//! Reading a polynomial back from the expression it stands for.

use vstd::prelude::*;
use vstd::arithmetic::power::lemma1_pow;
use crate::rational::{rat_zero, rat_one, canon, iabs, lemma_gcd_one};
use crate::divisibility::lowest;
use crate::forms::variable::Variable;
use crate::forms::term::{pw, valid_powers, powers_sub, var_term};
use crate::forms::expression::{ExprV, coeff, expr_add, expr_mul_term, canonical_terms};
use crate::forms::polynomial::{PolyV, poly_expr, var_power, coefficient_of, with_power, poly_from_expr, highest_power, max_power_in, lemma_max_power_in};
use crate::laws::{expr_lowest, lemma_zero_lowest, lemma_coeff_add, lemma_expr_add_lowest, law_rational_add_zero, law_rational_mul_one};
use crate::products::{is_expression, keys_valid, lemma_coeff_mul_term, lemma_mul_term_lowest, lemma_terms_of, lemma_coeff_mul_seq, law_expression_mul_associative};
use crate::forms::expression::expr_mul;
use crate::forms::polynomial::poly_mul;
use crate::rational::rat_mul;
use crate::sums::lemma_rsum_zero;

verus! {

/// Coefficients that a polynomial in `v` can hold: nonzero lowest-terms
/// coefficients on monomials without `v`.
pub open spec fn free_of(c: ExprV, v: Variable) -> bool {
    &&& expr_lowest(c)
    &&& keys_valid(c)
    &&& forall|k: Map<Variable, int>| #[trigger] c.dom().contains(k) ==> !k.dom().contains(v)
}

/// `v^i` as a term: power `i` of `v` (nothing for `i == 0`) with multiplier 1.
proof fn lemma_var_power(v: Variable, i: int)
    requires
        i >= 0,
    ensures
        var_power(v, i).1 == rat_one(),
        forall|w: Variable| #[trigger] pw(var_power(v, i).0, w) == if w == v { i } else { 0 },
{
    if i != 0 {
        lemma1_pow(i as nat);
        lemma_gcd_one(1);
        assert(iabs(1) == 1);
        assert(canon(1, 1) == rat_one());
        assert forall|w: Variable| #[trigger] pw(var_power(v, i).0, w) == if w == v { i } else { 0 } by {
            assert(pw(var_term(v).0, w) == if w == v { 1int } else { 0int });
        }
    } else {
        assert forall|w: Variable| #[trigger] pw(var_power(v, i).0, w) == if w == v { i } else { 0 } by {
        }
    }
}

/// The coefficient at `q` of `c v^i`: that of `c` at `q` without `v` when `v` has
/// power `i` in `q`, else 0.
proof fn lemma_coeff_power_term(c: ExprV, v: Variable, i: int, q: Map<Variable, int>)
    requires
        free_of(c, v),
        i >= 0,
        valid_powers(q),
    ensures
        coeff(expr_mul_term(c, var_power(v, i)), q)
            == if pw(q, v) == i { coeff(c, q.remove(v)) } else { rat_zero() },
{
    let t = var_power(v, i);
    lemma_var_power(v, i);
    lemma_gcd_one(1);
    assert(iabs(1) == 1);
    assert(lowest(rat_one()));
    lemma_coeff_mul_term(c, t, q);
    let key = powers_sub(q, t.0);
    lemma_zero_lowest();
    if c.dom().contains(key) {
        law_rational_mul_one(c[key]);
    } else {
        law_rational_mul_one(rat_zero());
    }
    if pw(q, v) == i {
        assert(key =~= q.remove(v));
    } else {
        assert(key.dom().contains(v));
        if c.dom().contains(key) {
            assert(!key.dom().contains(v));
        }
    }
}

/// The coefficient at `q` of the expression of a polynomial: that of the
/// coefficient of `v`'s power in `q`, at `q` without `v`.
proof fn lemma_coeff_poly_expr(v: Variable, cs: Seq<ExprV>, q: Map<Variable, int>)
    requires
        forall|i: int| 0 <= i < cs.len() ==> free_of(#[trigger] cs[i], v),
        valid_powers(q),
    ensures
        coeff(poly_expr(v, cs), q)
            == if 0 <= pw(q, v) < cs.len() { coeff(cs[pw(q, v)], q.remove(v)) } else { rat_zero() },
        expr_lowest(poly_expr(v, cs)),
        keys_valid(poly_expr(v, cs)),
    decreases cs.len(),
{
    lemma_zero_lowest();
    if cs.len() > 0 {
        let d = cs.drop_last();
        let n = cs.len() - 1;
        assert forall|i: int| 0 <= i < d.len() implies free_of(#[trigger] d[i], v) by {
            assert(d[i] == cs[i]);
        }
        lemma_coeff_poly_expr(v, d, q);
        let c = cs.last();
        assert(free_of(c, v)) by {
            assert(c == cs[n]);
        }
        let t = var_power(v, n);
        lemma_var_power(v, n);
        lemma_gcd_one(1);
        assert(iabs(1) == 1);
        lemma_mul_term_lowest(c, t);
        lemma_coeff_power_term(c, v, n, q);
        let prev = poly_expr(v, d);
        let step = expr_mul_term(c, t);
        lemma_coeff_add(prev, step, q);
        lemma_expr_add_lowest(prev, step);
        let cp = coeff(prev, q);
        let cq = coeff(step, q);
        if pw(q, v) == n {
            assert(cp == rat_zero());
            let x = coeff(c, q.remove(v));
            assert(lowest(x)) by {
                if c.dom().contains(q.remove(v)) {}
            }
            law_rational_add_zero(x);
        } else {
            assert(cq == rat_zero());
            if 0 <= pw(q, v) < d.len() {
                assert(d[pw(q, v)] == cs[pw(q, v)]);
                let x = coeff(d[pw(q, v)], q.remove(v));
                assert(free_of(d[pw(q, v)], v));
                assert(lowest(x)) by {
                    if d[pw(q, v)].dom().contains(q.remove(v)) {}
                }
                law_rational_add_zero(x);
            } else {
                law_rational_add_zero(rat_zero());
            }
        }
        assert forall|k: Map<Variable, int>| #[trigger] expr_add(prev, step).dom().contains(k) implies valid_powers(k) by {
            if prev.dom().contains(k) {} else {}
        }
    }
}

/// The coefficient of `v^j` in the expression of a polynomial is its `j`-th coefficient.
proof fn lemma_coefficient_of_poly_expr(v: Variable, cs: Seq<ExprV>, j: int)
    requires
        forall|i: int| 0 <= i < cs.len() ==> free_of(#[trigger] cs[i], v),
        0 <= j < cs.len(),
    ensures
        coefficient_of(poly_expr(v, cs), v, j) == cs[j],
{
    let m = poly_expr(v, cs);
    let c = cs[j];
    assert(free_of(c, v));
    let r = coefficient_of(m, v, j);
    lemma_coeff_poly_expr(v, cs, Map::empty());
    assert forall|k: Map<Variable, int>| r.dom().contains(k) == c.dom().contains(k) by {
        if !k.dom().contains(v) && (valid_powers(k) || c.dom().contains(k)) {
            let q = with_power(k, v, j);
            assert(valid_powers(q));
            lemma_coeff_poly_expr(v, cs, q);
            assert(pw(q, v) == j);
            assert(q.remove(v) =~= k);
            if c.dom().contains(k) {
                assert(c[k] != rat_zero());
            }
        } else if !k.dom().contains(v) && m.dom().contains(with_power(k, v, j)) {
            let q = with_power(k, v, j);
            assert(valid_powers(q));
            assert forall|w: Variable| #[trigger] k.dom().contains(w) implies k[w] != 0 by {
                assert(w != v);
                assert(q.dom().contains(w));
                assert(q[w] == k[w]);
            }
            assert(false);
        }
    }
    assert forall|k: Map<Variable, int>| #[trigger] r.dom().contains(k) implies r[k] == c[k] by {
        let q = with_power(k, v, j);
        lemma_coeff_poly_expr(v, cs, q);
        assert(pw(q, v) == j);
        assert(q.remove(v) =~= k);
    }
    assert(r =~= c);
}

/// A map other than the empty one has a key.
proof fn lemma_some_key(m: ExprV)
    requires
        m != Map::<Map<Variable, int>, (int, int)>::empty(),
    ensures
        exists|k: Map<Variable, int>| m.dom().contains(k),
{
    if !exists|k: Map<Variable, int>| m.dom().contains(k) {
        assert(m =~= Map::<Map<Variable, int>, (int, int)>::empty());
    }
}

/// Reading the polynomial back from its expression gives the polynomial again,
/// when no coefficient holds the polynomial's variable (and the expression is
/// that of a well-formed expression).
pub proof fn law_polynomial_expression_round_trip(p: PolyV)
    requires
        p.1.len() >= 1,
        p.1.len() > 1 ==> p.1.last() != Map::<Map<Variable, int>, (int, int)>::empty(),
        forall|i: int| 0 <= i < p.1.len() ==> free_of(#[trigger] p.1[i], p.0),
        is_expression(poly_expr(p.0, p.1)),
    ensures
        poly_from_expr(poly_expr(p.0, p.1), p.0) == p,
{
    let v = p.0;
    let cs = p.1;
    let n = cs.len();
    let m = poly_expr(v, cs);
    lemma_coeff_poly_expr(v, cs, Map::empty());
    if m == Map::<Map<Variable, int>, (int, int)>::empty() {
        // every coefficient is 0, so there is only one
        if n > 1 {
            let c = cs[n - 1];
            assert(c != Map::<Map<Variable, int>, (int, int)>::empty());
            lemma_some_key(c);
            let k = choose|k: Map<Variable, int>| c.dom().contains(k);
            assert(free_of(c, v));
            let q = with_power(k, v, n - 1);
            assert(valid_powers(q));
            lemma_coeff_poly_expr(v, cs, q);
            assert(q.remove(v) =~= k);
            assert(false);
        }
    }
    if m != Map::<Map<Variable, int>, (int, int)>::empty() {
        let e = choose|e: crate::forms::expression::Expression| e.wf() && e@ == m;
        lemma_terms_of(&e);
        let ts = canonical_terms(m);
        assert(ts.len() > 0) by {
            lemma_some_key(m);
            let q = choose|q: Map<Variable, int>| m.dom().contains(q);
            assert(exists|i: int| 0 <= i < ts.len() && #[trigger] ts[i].0 == q);
        }
        lemma_max_power_in(ts, v);
        let h = max_power_in(ts, v);
        assert(highest_power(m, v) == h);
        // every monomial has a power of v below n
        assert forall|i: int| 0 <= i < ts.len() implies 0 <= pw(#[trigger] ts[i].0, v) < n by {
            let q = ts[i].0;
            lemma_coeff_poly_expr(v, cs, q);
        }
        // and the last coefficient gives one with power n - 1
        assert(h == n - 1) by {
            let c = cs[n - 1];
            assert(free_of(c, v));
            if c != Map::<Map<Variable, int>, (int, int)>::empty() {
                lemma_some_key(c);
                let k = choose|k: Map<Variable, int>| c.dom().contains(k);
                let q = with_power(k, v, n - 1);
                assert(valid_powers(q));
                lemma_coeff_poly_expr(v, cs, q);
                assert(q.remove(v) =~= k);
                assert(m.dom().contains(q));
                let i = choose|i: int| 0 <= i < ts.len() && #[trigger] ts[i].0 == q;
                assert(pw(ts[i].0, v) == n - 1);
            } else {
                assert(n == 1);
                let i = choose|i: int| 0 <= i < ts.len() && pw(#[trigger] ts[i].0, v) == h;
            }
        }
        assert forall|j: int| 0 <= j < n implies #[trigger] coefficient_of(m, v, j) == cs[j] by {
            lemma_coefficient_of_poly_expr(v, cs, j);
        }
        assert(poly_from_expr(m, v).1 =~= cs);
    } else {
        assert(n == 1);
        assert(cs[0] =~= Map::<Map<Variable, int>, (int, int)>::empty()) by {
            let c = cs[0];
            assert forall|k: Map<Variable, int>| !#[trigger] c.dom().contains(k) by {
                if c.dom().contains(k) {
                    let q = with_power(k, v, 0);
                    assert(valid_powers(q));
                    lemma_coeff_poly_expr(v, cs, q);
                    assert(q.remove(v) =~= k);
                }
            }
        }
        assert(poly_from_expr(m, v).1 =~= cs);
    }
}

/// The coefficients of `v^j` read off an expression can be held by a polynomial in `v`.
proof fn lemma_coefficient_of_free(m: ExprV, v: Variable, j: int)
    requires
        expr_lowest(m),
        keys_valid(m),
        j >= 0,
    ensures
        free_of(coefficient_of(m, v, j), v),
{
    let c = coefficient_of(m, v, j);
    assert forall|k: Map<Variable, int>| #[trigger] c.dom().contains(k) implies valid_powers(k) by {
        let q = with_power(k, v, j);
        assert(valid_powers(q));
        assert forall|w: Variable| #[trigger] k.dom().contains(w) implies k[w] != 0 by {
            assert(w != v);
            assert(q.dom().contains(w));
            assert(q[w] == k[w]);
        }
    }
}

/// Writing out the polynomial read from an expression gives the expression back,
/// when no term has a negative power of the variable.
pub proof fn law_expression_polynomial_round_trip(m: ExprV, v: Variable)
    requires
        is_expression(m),
        forall|k: Map<Variable, int>| #[trigger] m.dom().contains(k) ==> pw(k, v) >= 0,
    ensures
        poly_expr(v, poly_from_expr(m, v).1) == m,
{
    let e = choose|e: crate::forms::expression::Expression| e.wf() && e@ == m;
    lemma_terms_of(&e);
    let p = poly_from_expr(m, v);
    let cs = p.1;
    lemma_zero_lowest();
    if m == Map::<Map<Variable, int>, (int, int)>::empty() {
        assert(cs == seq![Map::<Map<Variable, int>, (int, int)>::empty()]);
        assert(free_of(cs[0], v));
        lemma_coeff_poly_expr(v, cs, Map::empty());
        let r = poly_expr(v, cs);
        assert forall|q: Map<Variable, int>| !#[trigger] r.dom().contains(q) by {
            if r.dom().contains(q) {
                lemma_coeff_poly_expr(v, cs, q);
            }
        }
        assert(r =~= m);
    } else {
        let ts = canonical_terms(m);
        lemma_some_key(m);
        let q0 = choose|q: Map<Variable, int>| m.dom().contains(q);
        assert(exists|i: int| 0 <= i < ts.len() && #[trigger] ts[i].0 == q0);
        lemma_max_power_in(ts, v);
        let h = highest_power(m, v);
        assert(h >= 0) by {
            let i = choose|i: int| 0 <= i < ts.len() && pw(#[trigger] ts[i].0, v) == max_power_in(ts, v);
            assert(m.dom().contains(ts[i].0));
        }
        assert(cs.len() == h + 1);
        assert forall|i: int| 0 <= i < cs.len() implies free_of(#[trigger] cs[i], v) by {
            lemma_coefficient_of_free(m, v, i);
        }
        let r = poly_expr(v, cs);
        lemma_coeff_poly_expr(v, cs, Map::empty());
        assert forall|q: Map<Variable, int>| #[trigger] coeff(r, q) == coeff(m, q) by {
            if valid_powers(q) {
                lemma_coeff_poly_expr(v, cs, q);
                let j = pw(q, v);
                assert(with_power(q.remove(v), v, j) =~= q);
                if m.dom().contains(q) {
                    let i = choose|i: int| 0 <= i < ts.len() && #[trigger] ts[i].0 == q;
                    assert(pw(ts[i].0, v) <= h);
                }
            } else {
                assert(!r.dom().contains(q));
                assert(!m.dom().contains(q));
            }
        }
        crate::laws::lemma_expr_ext(r, m);
    }
}

/// No monomial of `m` has a negative power of `v`.
pub open spec fn no_negative_power(m: ExprV, v: Variable) -> bool {
    forall|k: Map<Variable, int>| #[trigger] m.dom().contains(k) ==> pw(k, v) >= 0
}

/// A product of expressions without negative powers of `v` has none either.
proof fn lemma_mul_no_negative_power(a: ExprV, b: ExprV, v: Variable)
    requires
        is_expression(a),
        is_expression(b),
        no_negative_power(a, v),
        no_negative_power(b, v),
    ensures
        no_negative_power(expr_mul(a, b), v),
{
    let ea = choose|e: crate::forms::expression::Expression| e.wf() && e@ == a;
    let eb = choose|e: crate::forms::expression::Expression| e.wf() && e@ == b;
    lemma_terms_of(&ea);
    lemma_terms_of(&eb);
    lemma_zero_lowest();
    let sa = canonical_terms(a);
    lemma_coeff_mul_seq(sa, b, Map::empty());
    let ab = expr_mul(a, b);
    assert forall|k: Map<Variable, int>| #[trigger] ab.dom().contains(k) implies pw(k, v) >= 0 by {
        lemma_coeff_mul_seq(sa, b, k);
        let s = Seq::new(sa.len(), |i: int| rat_mul(coeff(b, powers_sub(k, sa[i].0)), sa[i].1));
        if pw(k, v) < 0 {
            assert forall|i: int| 0 <= i < s.len() implies #[trigger] s[i] == rat_zero() by {
                let q = powers_sub(k, sa[i].0);
                assert(a.dom().contains(sa[i].0));
                assert(!b.dom().contains(q)) by {
                    assert(pw(q, v) == pw(k, v) - pw(sa[i].0, v));
                }
                crate::laws::lemma_rat_mul_zero_iff(rat_zero(), sa[i].1);
            }
            lemma_rsum_zero(s);
        }
    }
}

/// Multiplying polynomials in one variable is associative, where no coefficient
/// holds a negative power of the variable (such terms are dropped when a product
/// is read back as a polynomial) and the products formed are expressions.
pub proof fn law_polynomial_mul_associative(a: PolyV, b: PolyV, c: PolyV)
    requires
        a.0 == b.0,
        b.0 == c.0,
        is_expression(poly_expr(a.0, a.1)),
        is_expression(poly_expr(b.0, b.1)),
        is_expression(poly_expr(c.0, c.1)),
        no_negative_power(poly_expr(a.0, a.1), a.0),
        no_negative_power(poly_expr(b.0, b.1), a.0),
        no_negative_power(poly_expr(c.0, c.1), a.0),
        is_expression(expr_mul(poly_expr(a.0, a.1), poly_expr(b.0, b.1))),
        is_expression(expr_mul(poly_expr(b.0, b.1), poly_expr(c.0, c.1))),
    ensures
        poly_mul(poly_mul(a, b), c) == poly_mul(a, poly_mul(b, c)),
{
    let v = a.0;
    let ea = poly_expr(v, a.1);
    let eb = poly_expr(v, b.1);
    let ec = poly_expr(v, c.1);
    lemma_mul_no_negative_power(ea, eb, v);
    lemma_mul_no_negative_power(eb, ec, v);
    law_expression_polynomial_round_trip(expr_mul(ea, eb), v);
    law_expression_polynomial_round_trip(expr_mul(eb, ec), v);
    law_expression_mul_associative(ea, eb, ec);
}

} // verus!
