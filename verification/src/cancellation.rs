//! An order on monomials that multiplication respects, the largest monomials it
//! picks out, and what follows from them: a nonzero expression can be cancelled
//! from both sides of a product, so equality of rational expressions is transitive.

use vstd::prelude::*;
use crate::forms::variable::{Variable, var_lt, lemma_var_lt_irreflexive, lemma_var_lt_asymmetric, lemma_var_lt_transitive, lemma_var_lt_total};
use crate::forms::term::{pw, powers_add, valid_powers};
use crate::rational::{canon, rat_add, rat_mul};
use crate::divisibility::{lowest, lemma_canon_lowest, lemma_lowest_unique};
use crate::sums::{rsum, all_lowest};
use crate::forms::term::{powers_sub, lemma_powers_add_sub, lemma_powers_sub_add};
use crate::forms::expression::{Expression, ExprV, coeff, expr_mul, canonical_terms};
use crate::forms::rational_expression::{RatExprV, rexpr_equal};
use crate::laws::{lemma_zero_lowest, lemma_expr_ext, lemma_rat_mul_zero_iff};
use crate::products::{is_expression, lemma_terms_of, lemma_coeff_mul_seq, lemma_coeff_lowest, law_expression_mul_commutative, law_expression_mul_associative};

verus! {

/// `v` is the first variable, in variable order, at which the powers in `a` and `b` differ.
pub open spec fn first_difference(a: Map<Variable, int>, b: Map<Variable, int>, v: Variable) -> bool {
    &&& pw(a, v) != pw(b, v)
    &&& forall|w: Variable| #[trigger] var_lt(w, v) ==> pw(a, w) == pw(b, w)
}

/// Monomial `a` comes before monomial `b`: at the first variable where their
/// powers differ, `a` has the smaller power.
pub open spec fn mono_before(a: Map<Variable, int>, b: Map<Variable, int>) -> bool {
    exists|v: Variable| #[trigger] first_difference(a, b, v) && pw(a, v) < pw(b, v)
}

/// A monomial with nonzero powers of finitely many variables.
pub open spec fn finite_monomial(k: Map<Variable, int>) -> bool {
    valid_powers(k) && k.dom().finite()
}

/// Powers add variable by variable.
pub proof fn lemma_pw_add(a: Map<Variable, int>, b: Map<Variable, int>, v: Variable)
    ensures
        pw(powers_add(a, b), v) == pw(a, v) + pw(b, v),
{
}

/// No monomial comes before itself.
pub proof fn lemma_before_irreflexive(a: Map<Variable, int>)
    ensures
        !mono_before(a, a),
{
}

/// Coming before is transitive.
pub proof fn lemma_before_transitive(a: Map<Variable, int>, b: Map<Variable, int>, c: Map<Variable, int>)
    requires
        mono_before(a, b),
        mono_before(b, c),
    ensures
        mono_before(a, c),
{
    let v1 = choose|v: Variable| #[trigger] first_difference(a, b, v) && pw(a, v) < pw(b, v);
    let v2 = choose|v: Variable| #[trigger] first_difference(b, c, v) && pw(b, v) < pw(c, v);
    lemma_var_lt_total(v1, v2);
    if v1 == v2 {
        assert(first_difference(a, c, v1));
    } else if var_lt(v1, v2) {
        assert forall|w: Variable| #[trigger] var_lt(w, v1) implies pw(a, w) == pw(c, w) by {
            lemma_var_lt_transitive(w, v1, v2);
        }
        assert(first_difference(a, c, v1));
    } else {
        assert forall|w: Variable| #[trigger] var_lt(w, v2) implies pw(a, w) == pw(c, w) by {
            lemma_var_lt_transitive(w, v2, v1);
        }
        assert(first_difference(a, c, v2));
    }
}

/// Multiplying both monomials by the same monomial keeps their order, on either side.
pub proof fn lemma_before_shift(a: Map<Variable, int>, b: Map<Variable, int>, j: Map<Variable, int>)
    requires
        mono_before(a, b),
    ensures
        mono_before(powers_add(a, j), powers_add(b, j)),
        mono_before(powers_add(j, a), powers_add(j, b)),
{
    let v = choose|v: Variable| #[trigger] first_difference(a, b, v) && pw(a, v) < pw(b, v);
    lemma_pw_add(a, j, v);
    lemma_pw_add(b, j, v);
    lemma_pw_add(j, a, v);
    lemma_pw_add(j, b, v);
    assert forall|w: Variable| #[trigger] var_lt(w, v) implies pw(powers_add(a, j), w) == pw(powers_add(b, j), w)
        && pw(powers_add(j, a), w) == pw(powers_add(j, b), w) by {
        lemma_pw_add(a, j, w);
        lemma_pw_add(b, j, w);
        lemma_pw_add(j, a, w);
        lemma_pw_add(j, b, w);
    }
    assert(first_difference(powers_add(a, j), powers_add(b, j), v));
    assert(first_difference(powers_add(j, a), powers_add(j, b), v));
}

/// A finite nonempty set of variables has a first variable.
pub proof fn lemma_first_variable(s: Set<Variable>)
    requires
        s.finite(),
        s.len() > 0,
    ensures
        exists|v: Variable| #[trigger] s.contains(v) && forall|w: Variable| #[trigger] s.contains(w) ==> !var_lt(w, v),
    decreases s.len(),
{
    let x = s.choose();
    assert(s.contains(x));
    let r = s.remove(x);
    if r.len() == 0 {
        assert forall|w: Variable| #[trigger] s.contains(w) implies !var_lt(w, x) by {
            if w != x {
                assert(r.contains(w));
            }
            lemma_var_lt_irreflexive(x);
        }
    } else {
        lemma_first_variable(r);
        let m = choose|v: Variable| #[trigger] r.contains(v) && forall|w: Variable| #[trigger] r.contains(w) ==> !var_lt(w, v);
        lemma_var_lt_total(x, m);
        if var_lt(x, m) {
            assert forall|w: Variable| #[trigger] s.contains(w) implies !var_lt(w, x) by {
                lemma_var_lt_irreflexive(x);
                if w != x {
                    assert(r.contains(w));
                    if var_lt(w, x) {
                        lemma_var_lt_transitive(w, x, m);
                    }
                }
            }
        } else {
            assert forall|w: Variable| #[trigger] s.contains(w) implies !var_lt(w, m) by {
                if w == x {
                    lemma_var_lt_asymmetric(m, x);
                }
            }
            assert(s.contains(m));
        }
    }
}

/// Any two monomials with nonzero powers of finitely many variables are equal
/// or one comes before the other.
pub proof fn lemma_before_total(a: Map<Variable, int>, b: Map<Variable, int>)
    requires
        finite_monomial(a),
        finite_monomial(b),
    ensures
        a == b || mono_before(a, b) || mono_before(b, a),
{
    let d = Set::new(|v: Variable| pw(a, v) != pw(b, v));
    assert(d.subset_of(a.dom().union(b.dom())));
    vstd::set_lib::lemma_set_subset_finite(a.dom().union(b.dom()), d);
    if d.len() == 0 {
        assert forall|v: Variable| !d.contains(v) by {
            if d.contains(v) {
                vstd::set::axiom_set_contains_len(d, v);
            }
        }
        assert forall|v: Variable| #[trigger] a.dom().contains(v) == b.dom().contains(v) by {
            assert(!d.contains(v));
        }
        assert forall|v: Variable| #[trigger] a.dom().contains(v) implies a[v] == b[v] by {
            assert(!d.contains(v));
        }
        assert(a =~= b);
    } else {
        lemma_first_variable(d);
        let v = choose|v: Variable| #[trigger] d.contains(v) && forall|w: Variable| #[trigger] d.contains(w) ==> !var_lt(w, v);
        assert forall|w: Variable| #[trigger] var_lt(w, v) implies pw(a, w) == pw(b, w) by {
            if pw(a, w) != pw(b, w) {
                assert(d.contains(w));
            }
        }
        assert(first_difference(a, b, v));
        assert(first_difference(b, a, v));
    }
}

/// A finite nonempty set of such monomials has a last one: every other comes before it.
pub proof fn lemma_last_monomial(s: Set<Map<Variable, int>>)
    requires
        s.finite(),
        s.len() > 0,
        forall|k: Map<Variable, int>| #[trigger] s.contains(k) ==> finite_monomial(k),
    ensures
        exists|k: Map<Variable, int>| #[trigger] s.contains(k)
            && forall|j: Map<Variable, int>| #[trigger] s.contains(j) ==> j == k || mono_before(j, k),
    decreases s.len(),
{
    let x = s.choose();
    assert(s.contains(x));
    let r = s.remove(x);
    if r.len() == 0 {
        assert forall|j: Map<Variable, int>| #[trigger] s.contains(j) implies j == x || mono_before(j, x) by {
            if j != x {
                assert(r.contains(j));
            }
        }
    } else {
        lemma_last_monomial(r);
        let m = choose|k: Map<Variable, int>| #[trigger] r.contains(k)
            && forall|j: Map<Variable, int>| #[trigger] r.contains(j) ==> j == k || mono_before(j, k);
        lemma_before_total(x, m);
        if mono_before(x, m) {
            assert forall|j: Map<Variable, int>| #[trigger] s.contains(j) implies j == m || mono_before(j, m) by {
                if j != x {
                    assert(r.contains(j));
                }
            }
            assert(s.contains(m));
        } else {
            assert(mono_before(m, x));
            assert forall|j: Map<Variable, int>| #[trigger] s.contains(j) implies j == x || mono_before(j, x) by {
                if j != x {
                    assert(r.contains(j));
                    if j != m {
                        lemma_before_transitive(j, m, x);
                    }
                }
            }
        }
    }
}

/// Two fractions with the same lowest-terms form have equal cross products.
proof fn lemma_canon_cross(n: int, d: int, n2: int, d2: int)
    requires
        d != 0,
        d2 != 0,
        canon(n, d) == canon(n2, d2),
    ensures
        n * d2 == n2 * d,
{
    let r = canon(n, d);
    lemma_canon_lowest(n, d);
    lemma_canon_lowest(n2, d2);
    assert(n * d2 == n2 * d) by (nonlinear_arith)
        requires
            r.0 * d == n * r.1,
            r.0 * d2 == n2 * r.1,
            r.1 >= 1;
}

/// `(p q' + r p') (s q')`, multiplied out.
proof fn lemma_expand_sum_product(p: int, pd: int, sd: int, r: int, q: int)
    ensures
        (p * q + r * pd) * (sd * q) == (p * sd) * (q * q) + r * q * (pd * sd),
{
    let x = p * q;
    let y = r * pd;
    let z = sd * q;
    assert((x + y) * z == x * z + y * z) by (nonlinear_arith);
    assert(x * z == (p * sd) * (q * q)) by (nonlinear_arith)
        requires
            x == p * q,
            z == sd * q;
    assert(y * z == r * q * (pd * sd)) by (nonlinear_arith)
        requires
            y == r * pd,
            z == sd * q;
}

/// Adding the same rational to two rationals keeps them apart.
proof fn lemma_add_cancel(a: (int, int), b: (int, int), c: (int, int))
    requires
        lowest(a),
        lowest(b),
        lowest(c),
        rat_add(a, c) == rat_add(b, c),
    ensures
        a == b,
{
    assert(a.1 * c.1 != 0 && b.1 * c.1 != 0) by (nonlinear_arith)
        requires
            a.1 >= 1,
            b.1 >= 1,
            c.1 >= 1;
    lemma_canon_cross(a.0 * c.1 + c.0 * a.1, a.1 * c.1, b.0 * c.1 + c.0 * b.1, b.1 * c.1);
    let cc = c.1 * c.1;
    let shared = c.0 * c.1 * (a.1 * b.1);
    lemma_expand_sum_product(a.0, a.1, b.1, c.0, c.1);
    lemma_expand_sum_product(b.0, b.1, a.1, c.0, c.1);
    assert(c.0 * c.1 * (b.1 * a.1) == shared) by (nonlinear_arith)
        requires
            shared == c.0 * c.1 * (a.1 * b.1);
    assert(cc > 0) by (nonlinear_arith)
        requires
            c.1 >= 1,
            cc == c.1 * c.1;
    assert(a.0 * b.1 == b.0 * a.1) by (nonlinear_arith)
        requires
            (a.0 * b.1) * cc == (b.0 * a.1) * cc,
            cc > 0;
    lemma_lowest_unique(a, b);
}

/// Multiplying two rationals by the same nonzero rational keeps them apart.
proof fn lemma_mul_cancel(p: (int, int), q: (int, int), c: (int, int))
    requires
        lowest(p),
        lowest(q),
        lowest(c),
        c.0 != 0,
        rat_mul(p, c) == rat_mul(q, c),
    ensures
        p == q,
{
    assert(p.1 * c.1 != 0 && q.1 * c.1 != 0) by (nonlinear_arith)
        requires
            p.1 >= 1,
            q.1 >= 1,
            c.1 >= 1;
    lemma_canon_cross(p.0 * c.0, p.1 * c.1, q.0 * c.0, q.1 * c.1);
    assert(p.0 * q.1 == q.0 * p.1) by (nonlinear_arith)
        requires
            (p.0 * c.0) * (q.1 * c.1) == (q.0 * c.0) * (p.1 * c.1),
            c.0 != 0,
            c.1 >= 1;
    lemma_lowest_unique(p, q);
}

/// Two sums that agree everywhere but at `m`, and have the same total, agree at `m` too.
proof fn lemma_rsum_agree_at(s: Seq<(int, int)>, t: Seq<(int, int)>, m: int)
    requires
        s.len() == t.len(),
        0 <= m < s.len(),
        all_lowest(s),
        all_lowest(t),
        forall|i: int| 0 <= i < s.len() && i != m ==> #[trigger] s[i] == t[i],
        rsum(s) == rsum(t),
    ensures
        s[m] == t[m],
    decreases s.len(),
{
    let ds = s.drop_last();
    let dt = t.drop_last();
    assert(all_lowest(ds)) by {
        assert forall|i: int| 0 <= i < ds.len() implies lowest(#[trigger] ds[i]) by {
            assert(ds[i] == s[i]);
        }
    }
    assert(all_lowest(dt)) by {
        assert forall|i: int| 0 <= i < dt.len() implies lowest(#[trigger] dt[i]) by {
            assert(dt[i] == t[i]);
        }
    }
    crate::sums::lemma_rsum_lowest(ds);
    crate::sums::lemma_rsum_lowest(dt);
    assert(lowest(s[s.len() - 1]) && lowest(t[t.len() - 1]));
    if m == s.len() - 1 {
        assert(ds =~= dt) by {
            assert forall|i: int| 0 <= i < ds.len() implies ds[i] == dt[i] by {
                assert(s[i] == t[i]);
            }
        }
        crate::laws::law_rational_add_commutative(rsum(ds), s.last());
        crate::laws::law_rational_add_commutative(rsum(dt), t.last());
        lemma_add_cancel(s.last(), t.last(), rsum(ds));
    } else {
        assert(s.last() == t.last()) by {
            assert(s[s.len() - 1] == t[s.len() - 1]);
        }
        lemma_add_cancel(rsum(ds), rsum(dt), s.last());
        assert forall|i: int| 0 <= i < ds.len() && i != m implies #[trigger] ds[i] == dt[i] by {
            assert(s[i] == t[i]);
        }
        lemma_rsum_agree_at(ds, dt, m);
    }
}

/// An expression that is not 0 cancels from the left of two equal products:
/// `c x == c y` with `c != 0` gives `x == y`.
pub proof fn law_expression_mul_cancel(c: ExprV, x: ExprV, y: ExprV)
    requires
        is_expression(c),
        is_expression(x),
        is_expression(y),
        c != Map::<Map<Variable, int>, (int, int)>::empty(),
        expr_mul(c, x) == expr_mul(c, y),
    ensures
        x == y,
{
    let ec = choose|e: Expression| e.wf() && e@ == c;
    let ex = choose|e: Expression| e.wf() && e@ == x;
    let ey = choose|e: Expression| e.wf() && e@ == y;
    lemma_terms_of(&ec);
    lemma_terms_of(&ex);
    lemma_terms_of(&ey);
    lemma_zero_lowest();
    let sc = canonical_terms(c);
    let d = Set::new(|k: Map<Variable, int>| coeff(x, k) != coeff(y, k));
    assert(d.subset_of(x.dom().union(y.dom())));
    vstd::set_lib::lemma_set_subset_finite(x.dom().union(y.dom()), d);
    if d.len() == 0 {
        assert forall|k: Map<Variable, int>| #[trigger] coeff(x, k) == coeff(y, k) by {
            if coeff(x, k) != coeff(y, k) {
                assert(d.contains(k));
                vstd::set::axiom_set_contains_len(d, k);
            }
        }
        lemma_expr_ext(x, y);
    } else {
        assert forall|k: Map<Variable, int>| #[trigger] d.contains(k) implies finite_monomial(k) by {
            if !x.dom().contains(k) {
                assert(y.dom().contains(k));
            }
        }
        lemma_last_monomial(d);
        let kd = choose|k: Map<Variable, int>| #[trigger] d.contains(k)
            && forall|j: Map<Variable, int>| #[trigger] d.contains(j) ==> j == k || mono_before(j, k);
        assert(c.dom().len() > 0) by {
            if c.dom().len() == 0 {
                assert forall|k: Map<Variable, int>| !c.dom().contains(k) by {
                    if c.dom().contains(k) {
                        vstd::set::axiom_set_contains_len(c.dom(), k);
                    }
                }
                assert(c =~= Map::<Map<Variable, int>, (int, int)>::empty());
            }
        }
        lemma_last_monomial(c.dom());
        let kc = choose|k: Map<Variable, int>| #[trigger] c.dom().contains(k)
            && forall|j: Map<Variable, int>| #[trigger] c.dom().contains(j) ==> j == k || mono_before(j, k);
        let big = powers_add(kd, kc);
        lemma_powers_add_sub(kd, kc);
        lemma_coeff_mul_seq(sc, x, big);
        lemma_coeff_mul_seq(sc, y, big);
        let sx = Seq::new(sc.len(), |i: int| rat_mul(coeff(x, powers_sub(big, sc[i].0)), sc[i].1));
        let sy = Seq::new(sc.len(), |i: int| rat_mul(coeff(y, powers_sub(big, sc[i].0)), sc[i].1));
        assert forall|i: int| 0 <= i < sx.len() implies lowest(#[trigger] sx[i]) by {
            lemma_coeff_lowest(x, powers_sub(big, sc[i].0));
            lemma_rat_mul_zero_iff(coeff(x, powers_sub(big, sc[i].0)), sc[i].1);
        }
        assert forall|i: int| 0 <= i < sy.len() implies lowest(#[trigger] sy[i]) by {
            lemma_coeff_lowest(y, powers_sub(big, sc[i].0));
            lemma_rat_mul_zero_iff(coeff(y, powers_sub(big, sc[i].0)), sc[i].1);
        }
        let m = choose|i: int| 0 <= i < sc.len() && #[trigger] sc[i].0 == kc;
        assert forall|i: int| 0 <= i < sc.len() && i != m implies #[trigger] sx[i] == sy[i] by {
            let ci = sc[i].0;
            assert(c.dom().contains(ci));
            assert(ci != kc);
            assert(mono_before(ci, kc));
            let q = powers_sub(big, ci);
            if coeff(x, q) != coeff(y, q) {
                assert(d.contains(q));
                lemma_powers_sub_add(big, ci);
                lemma_before_shift(ci, kc, q);
                if q != kd {
                    lemma_before_shift(q, kd, kc);
                    lemma_before_transitive(big, powers_add(q, kc), big);
                }
                lemma_before_irreflexive(big);
            }
        }
        lemma_rsum_agree_at(sx, sy, m);
        let cm = sc[m].1;
        assert(cm.0 != 0) by {
            if cm.0 == 0 {
                crate::rational::lemma_gcd_zero_left(cm.1 as nat);
                assert(crate::rational::iabs(0) == 0);
            }
        }
        lemma_coeff_lowest(x, kd);
        lemma_coeff_lowest(y, kd);
        lemma_mul_cancel(coeff(x, kd), coeff(y, kd), cm);
        assert(false);
    }
}

/// Equality of rational expressions is transitive through a middle rational
/// expression whose denominator is not 0 (where the cross products that the
/// comparisons of the first with the middle and with the last form are expressions).
pub proof fn law_rational_expression_equal_transitive(a: RatExprV, b: RatExprV, c: RatExprV)
    requires
        is_expression(a.0),
        is_expression(a.1),
        is_expression(b.0),
        is_expression(b.1),
        is_expression(c.0),
        is_expression(c.1),
        b.1 != Map::<Map<Variable, int>, (int, int)>::empty(),
        is_expression(expr_mul(a.0, b.1)),
        is_expression(expr_mul(a.0, c.1)),
        is_expression(expr_mul(a.1, c.0)),
        rexpr_equal(a, b),
        rexpr_equal(b, c),
    ensures
        rexpr_equal(a, c),
{
    let x = expr_mul(a.0, c.1);
    let y = expr_mul(a.1, c.0);
    law_expression_mul_commutative(x, b.1);
    law_expression_mul_associative(a.0, c.1, b.1);
    law_expression_mul_commutative(c.1, b.1);
    law_expression_mul_associative(a.0, b.1, c.1);
    law_expression_mul_associative(a.1, b.0, c.1);
    law_expression_mul_commutative(b.1, c.0);
    law_expression_mul_associative(a.1, c.0, b.1);
    law_expression_mul_commutative(y, b.1);
    law_expression_mul_cancel(b.1, x, y);
}

/// No two expressions that are not 0 multiply to 0: the coefficient of the
/// product of their last monomials is the product of those two coefficients.
pub proof fn law_expression_no_zero_divisors(a: ExprV, b: ExprV)
    requires
        is_expression(a),
        is_expression(b),
        a != Map::<Map<Variable, int>, (int, int)>::empty(),
        b != Map::<Map<Variable, int>, (int, int)>::empty(),
    ensures
        expr_mul(a, b) != Map::<Map<Variable, int>, (int, int)>::empty(),
{
    let ea = choose|e: Expression| e.wf() && e@ == a;
    let eb = choose|e: Expression| e.wf() && e@ == b;
    lemma_terms_of(&ea);
    lemma_terms_of(&eb);
    lemma_zero_lowest();
    assert forall|m: ExprV| #![auto] m != Map::<Map<Variable, int>, (int, int)>::empty() && m.dom().finite()
        implies m.dom().len() > 0 by {
        if m.dom().len() == 0 {
            assert forall|k: Map<Variable, int>| !m.dom().contains(k) by {
                if m.dom().contains(k) {
                    vstd::set::axiom_set_contains_len(m.dom(), k);
                }
            }
            assert(m =~= Map::<Map<Variable, int>, (int, int)>::empty());
        }
    }
    assert(a.dom().len() > 0 && b.dom().len() > 0);
    lemma_last_monomial(a.dom());
    lemma_last_monomial(b.dom());
    let ka = choose|k: Map<Variable, int>| #[trigger] a.dom().contains(k)
        && forall|j: Map<Variable, int>| #[trigger] a.dom().contains(j) ==> j == k || mono_before(j, k);
    let kb = choose|k: Map<Variable, int>| #[trigger] b.dom().contains(k)
        && forall|j: Map<Variable, int>| #[trigger] b.dom().contains(j) ==> j == k || mono_before(j, k);
    let big = powers_add(kb, ka);
    assert(powers_add(ka, kb) =~= big);
    lemma_powers_add_sub(kb, ka);
    let sa = canonical_terms(a);
    lemma_coeff_mul_seq(sa, b, big);
    let s = Seq::new(sa.len(), |i: int| rat_mul(coeff(b, powers_sub(big, sa[i].0)), sa[i].1));
    let m = choose|i: int| 0 <= i < sa.len() && #[trigger] sa[i].0 == ka;
    assert forall|i: int| 0 <= i < s.len() implies lowest(#[trigger] s[i]) by {
        lemma_coeff_lowest(b, powers_sub(big, sa[i].0));
        lemma_rat_mul_zero_iff(coeff(b, powers_sub(big, sa[i].0)), sa[i].1);
    }
    assert forall|i: int| 0 <= i < s.len() && i != m implies #[trigger] s[i] == crate::rational::rat_zero() by {
        let p = sa[i].0;
        assert(a.dom().contains(p));
        assert(p != ka);
        let q = powers_sub(big, p);
        if b.dom().contains(q) {
            lemma_powers_sub_add(big, p);
            lemma_before_shift(p, ka, q);
            if q != kb {
                lemma_before_shift(q, kb, ka);
                lemma_before_transitive(big, powers_add(q, ka), big);
            }
            lemma_before_irreflexive(big);
        }
        lemma_rat_mul_zero_iff(coeff(b, q), sa[i].1);
    }
    crate::sums::lemma_rsum_single(s, m);
    let cb = b[kb];
    let ca = sa[m].1;
    assert(cb.0 != 0 && ca.0 != 0) by {
        if cb.0 == 0 {
            crate::rational::lemma_gcd_zero_left(cb.1 as nat);
            assert(crate::rational::iabs(0) == 0);
        }
        if ca.0 == 0 {
            crate::rational::lemma_gcd_zero_left(ca.1 as nat);
            assert(crate::rational::iabs(0) == 0);
        }
    }
    lemma_rat_mul_zero_iff(cb, ca);
    assert(coeff(expr_mul(a, b), big) != crate::rational::rat_zero());
}

} // verus!
