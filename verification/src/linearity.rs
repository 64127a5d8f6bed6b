//! Substitution is additive: substituting into a sum of expressions gives the
//! sum of the substitutions.

use vstd::prelude::*;
use crate::rational::{rat_zero, rat_add, rat_mul};
use crate::divisibility::lowest;
use crate::forms::variable::Variable;
use crate::forms::term::{TermV, valid_powers, powers_sub, powers_without};
use crate::forms::expression::{Expression, ExprV, coeff, expr_add, expr_subst_product, term_subst_many_expr, subst_many_seq, canonical_terms};
use crate::laws::{
    expr_lowest, lemma_zero_lowest, lemma_coeff_add, lemma_expr_add_lowest, lemma_expr_ext, lemma_rat_mul_zero_iff,
    law_rational_add_zero, law_rational_add_commutative, law_rational_add_associative, law_rational_distributive, lemma_rat_add_lowest,
};
use crate::products::{is_expression, keys_valid, terms_ok, lemma_terms_of, lemma_coeff_mul_term, lemma_mul_term_lowest, lemma_coeff_lowest};

verus! {

/// A monomial.
pub type Mono = Map<Variable, int>;

/// The sum of `f` over a list of monomials, added from the first.
pub open spec fn key_sum(l: Seq<Mono>, f: spec_fn(Mono) -> (int, int)) -> (int, int)
    decreases l.len(),
{
    if l.len() == 0 {
        rat_zero()
    } else {
        rat_add(key_sum(l.drop_last(), f), f(l.last()))
    }
}

/// `f` is in lowest terms on every listed monomial.
pub open spec fn lowest_on(l: Seq<Mono>, f: spec_fn(Mono) -> (int, int)) -> bool {
    forall|j: int| 0 <= j < l.len() ==> lowest(#[trigger] f(l[j]))
}

/// A sum of lowest-terms values is in lowest terms.
proof fn lemma_key_sum_lowest(l: Seq<Mono>, f: spec_fn(Mono) -> (int, int))
    requires
        lowest_on(l, f),
    ensures
        lowest(key_sum(l, f)),
    decreases l.len(),
{
    lemma_zero_lowest();
    if l.len() > 0 {
        let d = l.drop_last();
        assert(lowest_on(d, f)) by {
            assert forall|j: int| 0 <= j < d.len() implies lowest(#[trigger] f(d[j])) by {
                assert(d[j] == l[j]);
            }
        }
        lemma_key_sum_lowest(d, f);
        assert(lowest(f(l[l.len() - 1])));
        lemma_rat_add_lowest(key_sum(d, f), f(l.last()));
    }
}

/// Taking out the entry at `i`: the sum is the rest plus that entry.
proof fn lemma_key_sum_remove(l: Seq<Mono>, f: spec_fn(Mono) -> (int, int), i: int)
    requires
        0 <= i < l.len(),
        lowest_on(l, f),
    ensures
        key_sum(l, f) == rat_add(key_sum(l.remove(i), f), f(l[i])),
    decreases l.len(),
{
    if i < l.len() - 1 {
        let d = l.drop_last();
        let x = l.last();
        assert(lowest_on(d, f)) by {
            assert forall|j: int| 0 <= j < d.len() implies lowest(#[trigger] f(d[j])) by {
                assert(d[j] == l[j]);
            }
        }
        lemma_key_sum_remove(d, f, i);
        let r = d.remove(i);
        assert(l.remove(i).drop_last() =~= r);
        assert(l.remove(i).last() == x);
        assert(lowest_on(r, f)) by {
            assert forall|j: int| 0 <= j < r.len() implies lowest(#[trigger] f(r[j])) by {
                if j < i {
                    assert(r[j] == l[j]);
                } else {
                    assert(r[j] == l[j + 1]);
                }
            }
        }
        lemma_key_sum_lowest(r, f);
        assert(lowest(f(l[i])) && lowest(f(l[l.len() - 1])));
        law_rational_add_associative(key_sum(r, f), f(l[i]), f(x));
        law_rational_add_commutative(f(l[i]), f(x));
        law_rational_add_associative(key_sum(r, f), f(x), f(l[i]));
    } else {
        assert(l.remove(i) =~= l.drop_last());
    }
}

/// Two lists without repeats give the same sum when every monomial with a
/// nonzero value in one list is in the other.
proof fn lemma_key_sum_same(l1: Seq<Mono>, l2: Seq<Mono>, f: spec_fn(Mono) -> (int, int))
    requires
        l1.no_duplicates(),
        l2.no_duplicates(),
        lowest_on(l1, f),
        lowest_on(l2, f),
        forall|j: int| 0 <= j < l1.len() && #[trigger] f(l1[j]) != rat_zero() ==> l2.contains(l1[j]),
        forall|j: int| 0 <= j < l2.len() && #[trigger] f(l2[j]) != rat_zero() ==> l1.contains(l2[j]),
    ensures
        key_sum(l1, f) == key_sum(l2, f),
    decreases l1.len() + l2.len(),
{
    lemma_zero_lowest();
    if l1.len() == 0 {
        lemma_key_sum_zero(l2, f);
    } else {
        let d = l1.drop_last();
        let x = l1.last();
        assert(x == l1[l1.len() - 1]);
        assert(lowest_on(d, f)) by {
            assert forall|j: int| 0 <= j < d.len() implies lowest(#[trigger] f(d[j])) by {
                assert(d[j] == l1[j]);
            }
        }
        assert(d.no_duplicates()) by {
            assert forall|a: int, b: int| 0 <= a < d.len() && 0 <= b < d.len() && a != b implies d[a] != d[b] by {
                assert(d[a] == l1[a] && d[b] == l1[b]);
            }
        }
        lemma_key_sum_lowest(d, f);
        if f(x) == rat_zero() {
            assert forall|j: int| 0 <= j < d.len() && #[trigger] f(d[j]) != rat_zero() implies l2.contains(d[j]) by {
                assert(d[j] == l1[j]);
            }
            assert forall|j: int| 0 <= j < l2.len() && #[trigger] f(l2[j]) != rat_zero() implies d.contains(l2[j]) by {
                assert(l1.contains(l2[j]));
                let a = choose|a: int| 0 <= a < l1.len() && l1[a] == l2[j];
                assert(a != l1.len() - 1);
                assert(d[a] == l2[j]);
            }
            lemma_key_sum_same(d, l2, f);
            law_rational_add_zero(key_sum(d, f));
        } else {
            assert(l2.contains(x));
            let i = choose|i: int| 0 <= i < l2.len() && l2[i] == x;
            lemma_key_sum_remove(l2, f, i);
            let r = l2.remove(i);
            assert(lowest_on(r, f)) by {
                assert forall|j: int| 0 <= j < r.len() implies lowest(#[trigger] f(r[j])) by {
                    if j < i {
                        assert(r[j] == l2[j]);
                    } else {
                        assert(r[j] == l2[j + 1]);
                    }
                }
            }
            assert(r.no_duplicates()) by {
                assert forall|a: int, b: int| 0 <= a < r.len() && 0 <= b < r.len() && a != b implies r[a] != r[b] by {
                    let a2 = if a < i { a } else { a + 1 };
                    let b2 = if b < i { b } else { b + 1 };
                    assert(r[a] == l2[a2] && r[b] == l2[b2]);
                }
            }
            assert forall|j: int| 0 <= j < d.len() && #[trigger] f(d[j]) != rat_zero() implies r.contains(d[j]) by {
                assert(d[j] == l1[j]);
                assert(l2.contains(l1[j]));
                let a = choose|a: int| 0 <= a < l2.len() && l2[a] == l1[j];
                assert(l1[j] != x);
                assert(a != i);
                let a2 = if a < i { a } else { a - 1 };
                assert(r[a2] == l2[a]);
            }
            assert forall|j: int| 0 <= j < r.len() && #[trigger] f(r[j]) != rat_zero() implies d.contains(r[j]) by {
                let j2 = if j < i { j } else { j + 1 };
                assert(r[j] == l2[j2]);
                assert(j2 != i);
                assert(l2[j2] != x);
                assert(l1.contains(l2[j2]));
                let a = choose|a: int| 0 <= a < l1.len() && l1[a] == l2[j2];
                assert(a != l1.len() - 1);
                assert(d[a] == l2[j2]);
            }
            lemma_key_sum_same(d, r, f);
        }
    }
}

/// A sum of zeros is 0.
proof fn lemma_key_sum_zero(l: Seq<Mono>, f: spec_fn(Mono) -> (int, int))
    requires
        forall|j: int| 0 <= j < l.len() ==> #[trigger] f(l[j]) == rat_zero(),
    ensures
        key_sum(l, f) == rat_zero(),
    decreases l.len(),
{
    if l.len() > 0 {
        let d = l.drop_last();
        assert forall|j: int| 0 <= j < d.len() implies #[trigger] f(d[j]) == rat_zero() by {
            assert(d[j] == l[j]);
        }
        lemma_key_sum_zero(d, f);
        assert(f(l[l.len() - 1]) == rat_zero());
        lemma_zero_lowest();
        law_rational_add_zero(rat_zero());
    }
}

/// Sums agree when the summed values agree on every listed monomial.
proof fn lemma_key_sum_congr(l: Seq<Mono>, f: spec_fn(Mono) -> (int, int), g: spec_fn(Mono) -> (int, int))
    requires
        forall|j: int| 0 <= j < l.len() ==> #[trigger] f(l[j]) == g(l[j]),
    ensures
        key_sum(l, f) == key_sum(l, g),
    decreases l.len(),
{
    if l.len() > 0 {
        let d = l.drop_last();
        assert forall|j: int| 0 <= j < d.len() implies #[trigger] f(d[j]) == g(d[j]) by {
            assert(d[j] == l[j]);
        }
        lemma_key_sum_congr(d, f, g);
        assert(f(l[l.len() - 1]) == g(l[l.len() - 1]));
    }
}

/// The sum of entrywise sums is the sum of the two sums.
proof fn lemma_key_sum_add(l: Seq<Mono>, f: spec_fn(Mono) -> (int, int), g: spec_fn(Mono) -> (int, int))
    requires
        lowest_on(l, f),
        lowest_on(l, g),
    ensures
        key_sum(l, |k: Mono| rat_add(f(k), g(k))) == rat_add(key_sum(l, f), key_sum(l, g)),
    decreases l.len(),
{
    lemma_zero_lowest();
    let h = |k: Mono| rat_add(f(k), g(k));
    if l.len() == 0 {
        law_rational_add_zero(rat_zero());
    } else {
        let d = l.drop_last();
        let x = l.last();
        assert(lowest_on(d, f) && lowest_on(d, g)) by {
            assert forall|j: int| 0 <= j < d.len() implies lowest(#[trigger] f(d[j])) by {
                assert(d[j] == l[j]);
            }
            assert forall|j: int| 0 <= j < d.len() implies lowest(#[trigger] g(d[j])) by {
                assert(d[j] == l[j]);
            }
        }
        lemma_key_sum_add(d, f, g);
        lemma_key_sum_lowest(d, f);
        lemma_key_sum_lowest(d, g);
        assert(lowest(f(l[l.len() - 1])) && lowest(g(l[l.len() - 1])));
        let a = key_sum(d, f);
        let b = key_sum(d, g);
        let c = f(x);
        let e = g(x);
        // (a + b) + (c + e) == (a + c) + (b + e)
        lemma_rat_add_lowest(a, b);
        lemma_rat_add_lowest(c, e);
        lemma_rat_add_lowest(b, c);
        lemma_rat_add_lowest(a, c);
        law_rational_add_associative(rat_add(a, b), c, e);
        law_rational_add_associative(a, b, c);
        law_rational_add_commutative(b, c);
        law_rational_add_associative(a, c, b);
        law_rational_add_associative(rat_add(a, c), b, e);
    }
}

/// The monomials listed in `l` that `m` does not hold, in order.
pub open spec fn keys_outside(l: Seq<Mono>, m: ExprV) -> Seq<Mono>
    decreases l.len(),
{
    if l.len() == 0 {
        Seq::empty()
    } else if m.dom().contains(l.last()) {
        keys_outside(l.drop_last(), m)
    } else {
        keys_outside(l.drop_last(), m).push(l.last())
    }
}

/// What `keys_outside` holds, and that it repeats nothing when `l` does not.
proof fn lemma_keys_outside(l: Seq<Mono>, m: ExprV)
    requires
        l.no_duplicates(),
    ensures
        forall|x: Mono| #[trigger] keys_outside(l, m).contains(x) <==> (l.contains(x) && !m.dom().contains(x)),
        keys_outside(l, m).no_duplicates(),
    decreases l.len(),
{
    if l.len() > 0 {
        let d = l.drop_last();
        let x = l.last();
        assert(d.no_duplicates()) by {
            assert forall|a: int, b: int| 0 <= a < d.len() && 0 <= b < d.len() && a != b implies d[a] != d[b] by {
                assert(d[a] == l[a] && d[b] == l[b]);
            }
        }
        lemma_keys_outside(d, m);
        let r = keys_outside(d, m);
        assert forall|y: Mono| l.contains(y) <==> (d.contains(y) || y == x) by {
            if l.contains(y) {
                let i = choose|i: int| 0 <= i < l.len() && l[i] == y;
                if i < l.len() - 1 {
                    assert(d[i] == y);
                }
            }
            if d.contains(y) {
                let i = choose|i: int| 0 <= i < d.len() && d[i] == y;
                assert(l[i] == y);
            }
            if y == x {
                assert(l[l.len() - 1] == y);
            }
        }
        assert(!d.contains(x)) by {
            if d.contains(x) {
                let i = choose|i: int| 0 <= i < d.len() && d[i] == x;
                assert(l[i] == l[l.len() - 1]);
            }
        }
        if !m.dom().contains(x) {
            let w = r.push(x);
            assert forall|y: Mono| w.contains(y) <==> (r.contains(y) || y == x) by {
                if w.contains(y) {
                    let i = choose|i: int| 0 <= i < w.len() && w[i] == y;
                    if i < r.len() {
                        assert(r[i] == y);
                    }
                }
                if r.contains(y) {
                    let i = choose|i: int| 0 <= i < r.len() && r[i] == y;
                    assert(w[i] == y);
                }
                if y == x {
                    assert(w[r.len() as int] == y);
                }
            }
            assert(w.no_duplicates()) by {
                assert forall|a: int, b: int| 0 <= a < w.len() && 0 <= b < w.len() && a != b implies w[a] != w[b] by {
                    if a < r.len() && b < r.len() {
                        assert(w[a] == r[a] && w[b] == r[b]);
                    } else if a < r.len() {
                        assert(w[a] == r[a]);
                        assert(r.contains(r[a]));
                    } else if b < r.len() {
                        assert(w[b] == r[b]);
                        assert(r.contains(r[b]));
                    }
                }
            }
        }
    }
}

/// The monomials of a list of terms.
pub open spec fn keys_of(ts: Seq<TermV>) -> Seq<Mono> {
    Seq::new(ts.len(), |j: int| ts[j].0)
}

/// What substituting turns one unit of monomial `k` into, read at monomial `q`.
pub open spec fn subst_weight(k: Mono, s: Seq<(Variable, ExprV)>, q: Mono) -> (int, int) {
    coeff(expr_subst_product(k, s), powers_sub(q, powers_without(k, s)))
}

/// The share of `m`'s term at `k` in the coefficient of `q` after substituting.
pub open spec fn weighted(m: ExprV, s: Seq<(Variable, ExprV)>, q: Mono) -> spec_fn(Mono) -> (int, int) {
    |k: Mono| rat_mul(subst_weight(k, s, q), coeff(m, k))
}

/// Every monomial of `m` has a substituted factor that is an expression.
pub open spec fn factors_are_expressions(m: ExprV, s: Seq<(Variable, ExprV)>) -> bool {
    forall|k: Mono| #[trigger] m.dom().contains(k) ==> is_expression(expr_subst_product(k, s))
}

/// The substituted factor of a monomial is in lowest terms where it is an expression.
proof fn lemma_factor_lowest(k: Mono, s: Seq<(Variable, ExprV)>)
    requires
        is_expression(expr_subst_product(k, s)),
    ensures
        expr_lowest(expr_subst_product(k, s)),
{
    let e = choose|e: Expression| e.wf() && e@ == expr_subst_product(k, s);
    lemma_terms_of(&e);
}

/// The coefficient of `q` after substituting into the listed terms of `m`.
proof fn lemma_subst_coeff(ts: Seq<TermV>, m: ExprV, s: Seq<(Variable, ExprV)>, q: Mono)
    requires
        terms_ok(ts),
        forall|j: int| 0 <= j < ts.len() ==> m.dom().contains(#[trigger] ts[j].0) && m[ts[j].0] == ts[j].1,
        factors_are_expressions(m, s),
        valid_powers(q),
    ensures
        coeff(subst_many_seq(ts, s), q) == key_sum(keys_of(ts), weighted(m, s, q)),
        expr_lowest(subst_many_seq(ts, s)),
        keys_valid(subst_many_seq(ts, s)),
    decreases ts.len(),
{
    lemma_zero_lowest();
    if ts.len() > 0 {
        let d = ts.drop_last();
        let t = ts.last();
        assert(t == ts[ts.len() - 1]);
        assert(terms_ok(d)) by {
            assert forall|j: int| 0 <= j < d.len() implies valid_powers(#[trigger] d[j].0) && d[j].1 != rat_zero() && lowest(d[j].1) by {
                assert(d[j] == ts[j]);
            }
            assert forall|i: int, j: int| 0 <= i < d.len() && 0 <= j < d.len() && i != j implies #[trigger] d[i].0 != #[trigger] d[j].0 by {
                assert(d[i] == ts[i] && d[j] == ts[j]);
            }
        }
        assert forall|j: int| 0 <= j < d.len() implies m.dom().contains(#[trigger] d[j].0) && m[d[j].0] == d[j].1 by {
            assert(d[j] == ts[j]);
        }
        lemma_subst_coeff(d, m, s, q);
        assert(m.dom().contains(t.0) && m[t.0] == t.1);
        assert(valid_powers(t.0) && t.1 != rat_zero() && lowest(t.1));
        let p = expr_subst_product(t.0, s);
        lemma_factor_lowest(t.0, s);
        let w = powers_without(t.0, s);
        lemma_mul_term_lowest(p, (w, t.1));
        lemma_coeff_mul_term(p, (w, t.1), q);
        let prev = subst_many_seq(d, s);
        let step = term_subst_many_expr(t, s);
        lemma_coeff_add(prev, step, q);
        lemma_expr_add_lowest(prev, step);
        assert(keys_of(ts).drop_last() =~= keys_of(d));
        assert(keys_of(ts).last() == t.0);
        assert(keys_valid(expr_add(prev, step)));
    }
}

/// The value of `weighted` is in lowest terms, and 0 where `m` has no term.
proof fn lemma_weighted(m: ExprV, s: Seq<(Variable, ExprV)>, q: Mono, k: Mono)
    requires
        expr_lowest(m),
        is_expression(expr_subst_product(k, s)),
    ensures
        lowest(weighted(m, s, q)(k)),
        weighted(m, s, q)(k) != rat_zero() ==> m.dom().contains(k),
        lowest(subst_weight(k, s, q)),
        lowest(coeff(m, k)),
{
    lemma_zero_lowest();
    lemma_factor_lowest(k, s);
    lemma_coeff_lowest(expr_subst_product(k, s), powers_sub(q, powers_without(k, s)));
    lemma_coeff_lowest(m, k);
    lemma_rat_mul_zero_iff(subst_weight(k, s, q), coeff(m, k));
}

/// The listing of the monomials of `a` followed by those of `b` that `a` lacks:
/// it repeats nothing and holds exactly the monomials of `a` or `b`.
proof fn lemma_union_listing(a: ExprV, b: ExprV)
    requires
        is_expression(a),
        is_expression(b),
    ensures
        ({
            let l = keys_of(canonical_terms(a)) + keys_outside(keys_of(canonical_terms(b)), a);
            &&& l.no_duplicates()
            &&& forall|x: Mono| #[trigger] l.contains(x) <==> (a.dom().contains(x) || b.dom().contains(x))
        }),
{
    let ea = choose|e: Expression| e.wf() && e@ == a;
    let eb = choose|e: Expression| e.wf() && e@ == b;
    lemma_terms_of(&ea);
    lemma_terms_of(&eb);
    let ta = canonical_terms(a);
    let tb = canonical_terms(b);
    let ka = keys_of(ta);
    let kb = keys_of(tb);
    assert(kb.no_duplicates());
    lemma_keys_outside(kb, a);
    let extra = keys_outside(kb, a);
    let l = ka + extra;
    assert forall|x: Mono| #[trigger] l.contains(x) <==> (a.dom().contains(x) || b.dom().contains(x)) by {
        if l.contains(x) {
            let i = choose|i: int| 0 <= i < l.len() && l[i] == x;
            if i < ka.len() {
                assert(ka[i] == x);
            } else {
                assert(extra[i - ka.len()] == x);
                assert(extra.contains(x));
                assert(kb.contains(x));
                let j = choose|j: int| 0 <= j < kb.len() && kb[j] == x;
                assert(tb[j].0 == x);
                assert(b.dom().contains(tb[j].0));
            }
        }
        if a.dom().contains(x) {
            let i = choose|i: int| 0 <= i < ta.len() && #[trigger] ta[i].0 == x;
            assert(l[i] == x);
        } else if b.dom().contains(x) {
            let i = choose|i: int| 0 <= i < tb.len() && #[trigger] tb[i].0 == x;
            assert(kb[i] == x);
            assert(kb.contains(x));
            assert(extra.contains(x));
            let j = choose|j: int| 0 <= j < extra.len() && extra[j] == x;
            assert(l[ka.len() + j] == x);
        }
    }
    assert forall|i: int, j: int| 0 <= i < l.len() && 0 <= j < l.len() && i != j implies l[i] != l[j] by {
        if i < ka.len() && j < ka.len() {
            assert(l[i] == ka[i] && l[j] == ka[j]);
            assert(ta[i].0 != ta[j].0);
        } else if i >= ka.len() && j >= ka.len() {
            assert(l[i] == extra[i - ka.len()] && l[j] == extra[j - ka.len()]);
            assert(extra.no_duplicates());
            assert(extra[i - ka.len()] != extra[j - ka.len()]);
        } else if i < ka.len() {
            assert(l[i] == ta[i].0);
            assert(a.dom().contains(ta[i].0));
            assert(l[j] == extra[j - ka.len()]);
            assert(extra.contains(l[j]));
            assert(!a.dom().contains(l[j]));
        } else {
            assert(l[j] == ta[j].0);
            assert(a.dom().contains(ta[j].0));
            assert(l[i] == extra[i - ka.len()]);
            assert(extra.contains(l[i]));
            assert(!a.dom().contains(l[i]));
        }
    }
}

/// Any listing without repeats that covers the monomials of `m` gives the same
/// sum of shares as the terms of `m`.
proof fn lemma_sum_over_cover(m: ExprV, s: Seq<(Variable, ExprV)>, q: Mono, l: Seq<Mono>)
    requires
        is_expression(m),
        l.no_duplicates(),
        forall|x: Mono| #[trigger] m.dom().contains(x) ==> l.contains(x),
        forall|x: Mono| #[trigger] l.contains(x) ==> is_expression(expr_subst_product(x, s)),
    ensures
        key_sum(keys_of(canonical_terms(m)), weighted(m, s, q)) == key_sum(l, weighted(m, s, q)),
        lowest_on(l, weighted(m, s, q)),
{
    let em = choose|e: Expression| e.wf() && e@ == m;
    lemma_terms_of(&em);
    let tm = canonical_terms(m);
    let km = keys_of(tm);
    let f = weighted(m, s, q);
    assert(km.no_duplicates()) by {
        assert forall|i: int, j: int| 0 <= i < km.len() && 0 <= j < km.len() && i != j implies km[i] != km[j] by {
            assert(tm[i].0 != tm[j].0);
        }
    }
    assert forall|j: int| 0 <= j < l.len() implies lowest(#[trigger] f(l[j])) by {
        assert(l.contains(l[j]));
        lemma_weighted(m, s, q, l[j]);
    }
    assert forall|j: int| 0 <= j < km.len() implies lowest(#[trigger] f(km[j])) by {
        assert(m.dom().contains(tm[j].0));
        assert(l.contains(km[j]));
        lemma_weighted(m, s, q, km[j]);
    }
    assert forall|j: int| 0 <= j < km.len() && #[trigger] f(km[j]) != rat_zero() implies l.contains(km[j]) by {
        assert(m.dom().contains(tm[j].0));
    }
    assert forall|j: int| 0 <= j < l.len() && #[trigger] f(l[j]) != rat_zero() implies km.contains(l[j]) by {
        assert(l.contains(l[j]));
        lemma_weighted(m, s, q, l[j]);
        assert(m.dom().contains(l[j]));
        let i = choose|i: int| 0 <= i < tm.len() && #[trigger] tm[i].0 == l[j];
        assert(km[i] == l[j]);
    }
    lemma_key_sum_same(km, l, f);
}

/// The share of a term of `a + b` is the sum of the shares of `a`'s and `b`'s terms.
proof fn lemma_share_of_sum(a: ExprV, b: ExprV, s: Seq<(Variable, ExprV)>, q: Mono, l: Seq<Mono>)
    requires
        is_expression(a),
        is_expression(b),
        forall|x: Mono| #[trigger] l.contains(x) ==> is_expression(expr_subst_product(x, s)),
        lowest_on(l, weighted(a, s, q)),
        lowest_on(l, weighted(b, s, q)),
    ensures
        key_sum(l, weighted(expr_add(a, b), s, q)) == rat_add(key_sum(l, weighted(a, s, q)), key_sum(l, weighted(b, s, q))),
{
    let ea = choose|e: Expression| e.wf() && e@ == a;
    let eb = choose|e: Expression| e.wf() && e@ == b;
    lemma_terms_of(&ea);
    lemma_terms_of(&eb);
    let fa = weighted(a, s, q);
    let fb = weighted(b, s, q);
    let fc = weighted(expr_add(a, b), s, q);
    let h = |k: Mono| rat_add(fa(k), fb(k));
    assert forall|j: int| 0 <= j < l.len() implies #[trigger] fc(l[j]) == h(l[j]) by {
        let k = l[j];
        assert(l.contains(k));
        lemma_weighted(a, s, q, k);
        lemma_weighted(b, s, q, k);
        lemma_coeff_add(a, b, k);
        law_rational_distributive(subst_weight(k, s, q), coeff(a, k), coeff(b, k));
    }
    lemma_key_sum_congr(l, fc, h);
    lemma_key_sum_add(l, fa, fb);
}

/// Substituting into a sum gives the sum of the substitutions (where the sum is
/// an expression and each monomial's substituted factor is one).
pub proof fn law_substitution_distributes_over_sum(a: ExprV, b: ExprV, s: Seq<(Variable, ExprV)>)
    requires
        is_expression(a),
        is_expression(b),
        is_expression(expr_add(a, b)),
        factors_are_expressions(a, s),
        factors_are_expressions(b, s),
    ensures
        subst_many_seq(canonical_terms(expr_add(a, b)), s)
            == expr_add(subst_many_seq(canonical_terms(a), s), subst_many_seq(canonical_terms(b), s)),
{
    let c = expr_add(a, b);
    let ea = choose|e: Expression| e.wf() && e@ == a;
    let eb = choose|e: Expression| e.wf() && e@ == b;
    let ec = choose|e: Expression| e.wf() && e@ == c;
    lemma_terms_of(&ea);
    lemma_terms_of(&eb);
    lemma_terms_of(&ec);
    lemma_zero_lowest();
    let ta = canonical_terms(a);
    let tb = canonical_terms(b);
    let tc = canonical_terms(c);
    assert(factors_are_expressions(c, s)) by {
        assert forall|k: Mono| #[trigger] c.dom().contains(k) implies is_expression(expr_subst_product(k, s)) by {
            if !a.dom().contains(k) {
                assert(b.dom().contains(k));
            }
        }
    }
    let e0 = Map::<Variable, int>::empty();
    lemma_subst_coeff(ta, a, s, e0);
    lemma_subst_coeff(tb, b, s, e0);
    lemma_subst_coeff(tc, c, s, e0);
    let sa = subst_many_seq(ta, s);
    let sb = subst_many_seq(tb, s);
    let sc = subst_many_seq(tc, s);
    lemma_expr_add_lowest(sa, sb);
    lemma_union_listing(a, b);
    let l = keys_of(ta) + keys_outside(keys_of(tb), a);
    assert forall|x: Mono| #[trigger] l.contains(x) implies is_expression(expr_subst_product(x, s)) by {
        if a.dom().contains(x) {
        } else {
            assert(b.dom().contains(x));
        }
    }
    assert forall|x: Mono| #[trigger] c.dom().contains(x) implies l.contains(x) by {
        if !a.dom().contains(x) {
            assert(b.dom().contains(x));
        }
    }
    assert forall|x: Mono| #[trigger] a.dom().contains(x) implies l.contains(x) by {}
    assert forall|x: Mono| #[trigger] b.dom().contains(x) implies l.contains(x) by {}
    assert forall|q: Mono| #[trigger] coeff(sc, q) == coeff(expr_add(sa, sb), q) by {
        lemma_coeff_add(sa, sb, q);
        if valid_powers(q) {
            lemma_subst_coeff(ta, a, s, q);
            lemma_subst_coeff(tb, b, s, q);
            lemma_subst_coeff(tc, c, s, q);
            lemma_sum_over_cover(a, s, q, l);
            lemma_sum_over_cover(b, s, q, l);
            lemma_sum_over_cover(c, s, q, l);
            lemma_share_of_sum(a, b, s, q, l);
        } else {
            assert(!sa.dom().contains(q) && !sb.dom().contains(q) && !sc.dom().contains(q));
            law_rational_add_zero(rat_zero());
        }
    }
    lemma_expr_ext(sc, expr_add(sa, sb));
}

} // verus!
