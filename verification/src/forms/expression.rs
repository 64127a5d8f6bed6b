//! Expressions: sums of terms with distinct monomials and nonzero multipliers,
//! kept in the lexicographic order of their monomials.

use vstd::prelude::*;
use crate::text::{push_str, push_char};
use crate::rational::{Rational, rat_zero, rat_one, rat_add, trunc_div, i64_div_rem, rat_neg, rat_mul, rat_div, add_fits, canonical, lemma_rat_nonzero_ops};
use crate::forms::variable::Variable;
use crate::forms::monomial::{mono_lt, mono_compare, lemma_lex_total, lemma_lex_transitive, lemma_lex_irreflexive};
use crate::forms::term::{Term, TermV, lemma_key_pairs, term_pow, term_pow_fits, pw, single_power, var_term, term_nth_deriv, term_nth_deriv_fits, range_product, lemma_term_nth_deriv_shape, subst_has, powers_without, distinct_vars, term_text, pairs_of, lemma_pairs_of, text_of, term_mul, term_div, term_mul_fits, term_div_fits, powers_add, powers_sub, valid_powers, lemma_powers_add_sub, lemma_powers_sub_add};

verus! {

/// An expression as mathematics sees it: each monomial (a map of powers) that
/// occurs, with its nonzero coefficient.
pub type ExprV = Map<Map<Variable, int>, (int, int)>;

/// The coefficient of a monomial (0 when it does not occur).
pub open spec fn coeff(m: ExprV, k: Map<Variable, int>) -> (int, int) {
    if m.dom().contains(k) { m[k] } else { rat_zero() }
}

/// Adding one term: its coefficient is added to the monomial's, which disappears at 0.
pub open spec fn expr_add_term(m: ExprV, t: TermV) -> ExprV {
    if m.dom().contains(t.0) {
        let s = rat_add(m[t.0], t.1);
        if s == rat_zero() { m.remove(t.0) } else { m.insert(t.0, s) }
    } else if t.1 == rat_zero() {
        m
    } else {
        m.insert(t.0, t.1)
    }
}

/// Adding a term needs a rational addition only when its monomial already occurs.
pub open spec fn add_term_fits(m: ExprV, t: TermV) -> bool {
    m.dom().contains(t.0) ==> add_fits(m[t.0], t.1)
}

/// The coefficient of `k` in `a + b`.
pub open spec fn sum_at(a: ExprV, b: ExprV, k: Map<Variable, int>) -> (int, int) {
    if a.dom().contains(k) && b.dom().contains(k) {
        rat_add(a[k], b[k])
    } else if a.dom().contains(k) {
        a[k]
    } else {
        b[k]
    }
}

/// The sum of two expressions: coefficients added monomial by monomial, zeros dropped.
pub open spec fn expr_add(a: ExprV, b: ExprV) -> ExprV {
    Map::new(
        |k: Map<Variable, int>| (a.dom().contains(k) || b.dom().contains(k)) && sum_at(a, b, k) != rat_zero(),
        |k: Map<Variable, int>| sum_at(a, b, k),
    )
}

/// The sum needs no `i64` overflow in the monomials both sides hold.
pub open spec fn expr_add_fits(a: ExprV, b: ExprV) -> bool {
    forall|k: Map<Variable, int>| #[trigger] a.dom().contains(k) && b.dom().contains(k) ==> add_fits(a[k], b[k])
}

/// Every coefficient negated.
pub open spec fn expr_neg(a: ExprV) -> ExprV {
    Map::new(|k: Map<Variable, int>| a.dom().contains(k), |k: Map<Variable, int>| rat_neg(a[k]))
}

/// An expression times a term: every monomial shifted by the term's powers and
/// every coefficient multiplied by its multiplier (nothing is left when that is 0).
pub open spec fn expr_mul_term(m: ExprV, t: TermV) -> ExprV {
    if t.1 == rat_zero() {
        Map::empty()
    } else {
        Map::new(
            |k: Map<Variable, int>| valid_powers(k) && m.dom().contains(powers_sub(k, t.0)),
            |k: Map<Variable, int>| rat_mul(m[powers_sub(k, t.0)], t.1),
        )
    }
}

/// Each product of a term of the expression with `t` stays in `i64`.
pub open spec fn mul_term_fits(m: ExprV, t: TermV) -> bool {
    forall|k: Map<Variable, int>| #[trigger] m.dom().contains(k) ==> term_mul_fits((k, m[k]), t)
}

/// An expression divided by a (nonzero) term.
pub open spec fn expr_div_term(m: ExprV, t: TermV) -> ExprV {
    Map::new(
        |k: Map<Variable, int>| valid_powers(k) && m.dom().contains(powers_add(k, t.0)),
        |k: Map<Variable, int>| rat_div(m[powers_add(k, t.0)], t.1),
    )
}

/// Each quotient of a term of the expression by `t` is defined and stays in `i64`.
pub open spec fn div_term_fits(m: ExprV, t: TermV) -> bool {
    forall|k: Map<Variable, int>| #[trigger] m.dom().contains(k) ==> term_div_fits((k, m[k]), t)
}

/// The map of a single term (nothing when its multiplier is 0).
pub open spec fn expr_of_term(t: TermV) -> ExprV {
    if t.1 == rat_zero() {
        Map::empty()
    } else {
        Map::empty().insert(t.0, t.1)
    }
}

/// Nonzero lowest-terms coefficients on monomials with nonzero powers.
pub open spec fn expr_valid(m: ExprV) -> bool {
    &&& forall|k: Map<Variable, int>| #[trigger] m.dom().contains(k) ==> m[k] != rat_zero() && canonical(m[k])
    &&& forall|k: Map<Variable, int>| #[trigger] m.dom().contains(k) ==> valid_powers(k)
}

/// Every monomial can be displayed.
pub open spec fn expr_displayable(m: ExprV) -> bool {
    forall|k: Map<Variable, int>| #[trigger] m.dom().contains(k) ==> crate::forms::term::powers_displayable(k)
}

/// The terms are well formed, nonzero, and strictly increasing by monomial.
pub open spec fn terms_wf(s: Seq<Term>) -> bool {
    &&& forall|i: int| 0 <= i < s.len() ==> (#[trigger] s[i]).wf() && s[i]@.1 != rat_zero()
    &&& forall|i: int, j: int| 0 <= i < j < s.len() ==> mono_lt(#[trigger] s[i].pairs(), #[trigger] s[j].pairs())
}

/// The map from monomials to coefficients that a list of terms holds.
pub open spec fn terms_map(s: Seq<Term>) -> ExprV {
    Map::new(
        |k: Map<Variable, int>| exists|i: int| 0 <= i < s.len() && (#[trigger] s[i])@.0 == k,
        |k: Map<Variable, int>| s[index_of(s, k)]@.1,
    )
}

/// An index of a term with monomial `k`, when there is one.
pub open spec fn index_of(s: Seq<Term>, k: Map<Variable, int>) -> int {
    choose|i: int| 0 <= i < s.len() && (#[trigger] s[i])@.0 == k
}

/// A symbolic expression consisting of a sum of terms.
#[derive(Debug)]
pub struct Expression {
    terms: Vec<Term>,
}

impl View for Expression {
    type V = ExprV;

    closed spec fn view(&self) -> ExprV {
        terms_map(self.terms@)
    }
}

/// In a well-formed list, the term at `i` is the only one with its monomial.
pub proof fn lemma_terms_unique(s: Seq<Term>, i: int, j: int)
    requires
        terms_wf(s),
        0 <= i < s.len(),
        0 <= j < s.len(),
        s[i]@.0 == s[j]@.0,
    ensures
        i == j,
{
    lemma_key_pairs(s[i], s[j]);
    if i < j {
        assert(mono_lt(s[i].pairs(), s[j].pairs()));
        lemma_lex_irreflexive(s[i].pairs(), 0);
    } else if j < i {
        assert(mono_lt(s[j].pairs(), s[i].pairs()));
        lemma_lex_irreflexive(s[i].pairs(), 0);
    }
}

/// The map holds each term's coefficient under its monomial.
pub proof fn lemma_terms_map_at(s: Seq<Term>, i: int)
    requires
        terms_wf(s),
        0 <= i < s.len(),
    ensures
        terms_map(s).dom().contains(s[i]@.0),
        terms_map(s)[s[i]@.0] == s[i]@.1,
{
    let k = s[i]@.0;
    assert(terms_map(s).dom().contains(k));
    let j = index_of(s, k);
    assert(0 <= j < s.len() && s[j]@.0 == k);
    assert(terms_map(s)[k] == s[j]@.1);
    lemma_terms_unique(s, i, j);
}

/// Every coefficient of a well-formed list's map is nonzero and in lowest terms,
/// and every monomial has nonzero powers.
pub proof fn lemma_terms_map_values(s: Seq<Term>)
    requires
        terms_wf(s),
    ensures
        forall|k: Map<Variable, int>| #[trigger] terms_map(s).dom().contains(k) ==> terms_map(s)[k] != rat_zero()
            && canonical(terms_map(s)[k]),
        forall|k: Map<Variable, int>, v: Variable| #[trigger] terms_map(s).dom().contains(k) && k.dom().contains(v)
            ==> #[trigger] k[v] != 0,
{
    assert forall|k: Map<Variable, int>| #[trigger] terms_map(s).dom().contains(k) implies terms_map(s)[k] != rat_zero()
        && canonical(terms_map(s)[k]) by {
        let i = choose|i: int| 0 <= i < s.len() && (#[trigger] s[i])@.0 == k;
        lemma_terms_map_at(s, i);
        s[i].lemma_powers_nonzero();
    }
    assert forall|k: Map<Variable, int>, v: Variable| #[trigger] terms_map(s).dom().contains(k) && k.dom().contains(v)
        implies #[trigger] k[v] != 0 by {
        let i = choose|i: int| 0 <= i < s.len() && (#[trigger] s[i])@.0 == k;
        s[i].lemma_powers_nonzero();
    }
}

/// Inserting a term at its place adds its monomial to the map.
pub proof fn lemma_terms_map_insert(s: Seq<Term>, i: int, t: Term)
    requires
        terms_wf(s),
        terms_wf(s.insert(i, t)),
        0 <= i <= s.len(),
    ensures
        terms_map(s.insert(i, t)) == terms_map(s).insert(t@.0, t@.1),
{
    let u = s.insert(i, t);
    let target = terms_map(s).insert(t@.0, t@.1);
    assert(u[i] == t);
    lemma_terms_map_at(u, i);
    assert forall|k: Map<Variable, int>| #[trigger] terms_map(u).dom().contains(k) == target.dom().contains(k) by {
        if terms_map(u).dom().contains(k) && k != t@.0 {
            let j = choose|j: int| 0 <= j < u.len() && (#[trigger] u[j])@.0 == k;
            let jj = if j < i { j } else { j - 1 };
            assert(j != i);
            assert(u[j] == s[jj]);
        }
        if terms_map(s).dom().contains(k) {
            let j = choose|j: int| 0 <= j < s.len() && (#[trigger] s[j])@.0 == k;
            let jj = if j < i { j } else { j + 1 };
            assert(u[jj] == s[j]);
        }
    }
    assert forall|k: Map<Variable, int>| #[trigger] terms_map(u).dom().contains(k) implies terms_map(u)[k] == target[k] by {
        if k != t@.0 {
            let j = choose|j: int| 0 <= j < u.len() && (#[trigger] u[j])@.0 == k;
            lemma_terms_map_at(u, j);
            let jj = if j < i { j } else { j - 1 };
            assert(j != i);
            assert(u[j] == s[jj]);
            lemma_terms_map_at(s, jj);
        }
    }
    assert(terms_map(u) =~= target);
}

/// Removing the term at `i` removes its monomial from the map.
pub proof fn lemma_terms_map_remove(s: Seq<Term>, i: int)
    requires
        terms_wf(s),
        0 <= i < s.len(),
    ensures
        terms_wf(s.remove(i)),
        terms_map(s.remove(i)) == terms_map(s).remove(s[i]@.0),
{
    let u = s.remove(i);
    assert(terms_wf(u)) by {
        assert forall|a: int| 0 <= a < u.len() implies (#[trigger] u[a]).wf() && u[a]@.1 != rat_zero() by {
            let aa = if a < i { a } else { a + 1 };
            assert(u[a] == s[aa]);
        }
        assert forall|a: int, b: int| 0 <= a < b < u.len() implies mono_lt(#[trigger] u[a].pairs(), #[trigger] u[b].pairs()) by {
            let aa = if a < i { a } else { a + 1 };
            let bb = if b < i { b } else { b + 1 };
            assert(u[a] == s[aa] && u[b] == s[bb]);
        }
    }
    let target = terms_map(s).remove(s[i]@.0);
    assert forall|k: Map<Variable, int>| #[trigger] terms_map(u).dom().contains(k) == target.dom().contains(k) by {
        if terms_map(u).dom().contains(k) {
            let j = choose|j: int| 0 <= j < u.len() && (#[trigger] u[j])@.0 == k;
            let jj = if j < i { j } else { j + 1 };
            assert(u[j] == s[jj]);
            if k == s[i]@.0 {
                lemma_terms_unique(s, i, jj);
            }
        }
        if target.dom().contains(k) {
            let j = choose|j: int| 0 <= j < s.len() && (#[trigger] s[j])@.0 == k;
            assert(j != i);
            let jj = if j < i { j } else { j - 1 };
            assert(u[jj] == s[j]);
        }
    }
    assert forall|k: Map<Variable, int>| #[trigger] terms_map(u).dom().contains(k) implies terms_map(u)[k] == target[k] by {
        let j = choose|j: int| 0 <= j < u.len() && (#[trigger] u[j])@.0 == k;
        lemma_terms_map_at(u, j);
        let jj = if j < i { j } else { j + 1 };
        assert(u[j] == s[jj]);
        lemma_terms_map_at(s, jj);
    }
    assert(terms_map(u) =~= target);
}

/// Where a search for monomial `p` stops in a sorted list of terms.
pub open spec fn term_search_stop(s: Seq<Term>, p: Seq<(Variable, i64)>, r: int) -> bool {
    &&& 0 <= r <= s.len()
    &&& forall|k: int| 0 <= k < r ==> mono_lt((#[trigger] s[k]).pairs(), p)
    &&& r < s.len() ==> !mono_lt(s[r].pairs(), p)
}

impl Expression {
    /// Well-formed: distinct monomials in increasing order, nonzero multipliers.
    pub closed spec fn wf(&self) -> bool {
        terms_wf(self.terms@)
    }

    /// The terms in the order the expression keeps them.
    pub closed spec fn term_list(&self) -> Seq<Term> {
        self.terms@
    }

    /// Every monomial of an expression involves finitely many variables.
    pub proof fn lemma_keys_finite(&self)
        ensures
            forall|k: Map<Variable, int>| #[trigger] self@.dom().contains(k) ==> k.dom().finite(),
    {
        let s = self.terms@;
        assert forall|k: Map<Variable, int>| #[trigger] self@.dom().contains(k) implies k.dom().finite() by {
            let i = index_of(s, k);
            s[i].lemma_powers_finite();
        }
    }

    /// What the well-formedness of an expression gives its map.
    pub proof fn lemma_view_values(&self)
        requires
            self.wf(),
        ensures
            forall|k: Map<Variable, int>| #[trigger] self@.dom().contains(k) ==> self@[k] != rat_zero()
                && canonical(self@[k]),
            forall|k: Map<Variable, int>, v: Variable| #[trigger] self@.dom().contains(k) && k.dom().contains(v)
                ==> #[trigger] k[v] != 0,
            self@.dom().finite(),
    {
        lemma_terms_map_values(self.terms@);
        lemma_terms_map_finite(self.terms@);
    }

    /// The expression 0.
    pub fn zero() -> (e: Expression)
        ensures
            e.wf(),
            e@ == Map::<Map<Variable, int>, (int, int)>::empty(),
    {
        let e = Expression { terms: Vec::new() };
        proof {
            assert(e@ =~= Map::<Map<Variable, int>, (int, int)>::empty());
        }
        e
    }

    /// Finds where the monomial of `t` is or would be inserted.
    fn find(&self, t: &Term) -> (r: usize)
        requires
            self.wf(),
        ensures
            term_search_stop(self.terms@, t.pairs(), r as int),
    {
        let mut i: usize = 0;
        while i < self.terms.len()
            invariant
                0 <= i <= self.terms.len(),
                forall|k: int| 0 <= k < i ==> mono_lt((#[trigger] self.terms@[k]).pairs(), t.pairs()),
            decreases self.terms.len() - i,
        {
            if mono_compare(self.terms[i].pairs_vec(), t.pairs_vec()) != -1 {
                return i;
            }
            i = i + 1;
        }
        i
    }

    /// Adds a term (`+=`): its multiplier is added to that of the same monomial,
    /// which disappears when the sum is 0.
    pub fn add_term(&mut self, t: Term)
        requires
            old(self).wf(),
            t.wf(),
            add_term_fits(old(self)@, t@),
        ensures
            final(self).wf(),
            final(self)@ == expr_add_term(old(self)@, t@),
    {
        let ghost s = self.terms@;
        let ghost m = self@;
        let r = self.find(&t);
        if r < self.terms.len() && mono_compare(self.terms[r].pairs_vec(), t.pairs_vec()) == 0 {
            proof {
                lemma_key_pairs(s[r as int], t);
                lemma_terms_map_at(s, r as int);
            }
            let existing = self.terms.remove(r);
            proof {
                lemma_terms_map_remove(s, r as int);
            }
            let c = existing.multiplier().add(t.multiplier());
            if c.is_zero() {
            } else {
                let nt = existing.with_multiplier(c);
                proof {
                    lemma_nonzero_canonical(c@);
                    lemma_insert_sorted(s.remove(r as int), r as int, nt, s, r as int);
                }
                self.terms.insert(r, nt);
                proof {
                    lemma_terms_map_insert(s.remove(r as int), r as int, nt);
                    assert(self@ =~= expr_add_term(m, t@));
                }
            }
        } else {
            proof {
                if r < s.len() {
                    lemma_lex_total(s[r as int].pairs(), t.pairs(), 0);
                }
                assert forall|k: int| 0 <= k < s.len() implies s[k]@.0 != t@.0 by {
                    lemma_key_pairs(s[k], t);
                    if k < r {
                        lemma_lex_irreflexive(t.pairs(), 0);
                    } else {
                        if k > r {
                            lemma_lex_transitive(t.pairs(), s[r as int].pairs(), s[k].pairs(), 0);
                        }
                        lemma_lex_irreflexive(t.pairs(), 0);
                    }
                }
                assert(!m.dom().contains(t@.0));
            }
            if !t.multiplier().is_zero() {
                proof {
                    lemma_insert_sorted_new(s, r as int, t);
                }
                self.terms.insert(r, t);
                proof {
                    lemma_terms_map_insert(s, r as int, t);
                }
            }
        }
    }
}

/// A nonzero rational in lowest terms has a nonzero numerator.
pub proof fn lemma_nonzero_canonical(c: (int, int))
    requires
        canonical(c),
    ensures
        c != rat_zero() <==> c.0 != 0,
{
    if c.0 == 0 {
        crate::rational::lemma_gcd_zero_left(c.1 as nat);
    }
}

/// Putting a term (same monomial as `s_orig[r]`) back where `s_orig[r]` was keeps the list sorted.
pub proof fn lemma_insert_sorted(u: Seq<Term>, r: int, nt: Term, s_orig: Seq<Term>, r2: int)
    requires
        terms_wf(s_orig),
        0 <= r < s_orig.len(),
        r2 == r,
        u == s_orig.remove(r),
        nt.wf(),
        nt@.1 != rat_zero(),
        nt.pairs() == s_orig[r].pairs(),
    ensures
        terms_wf(u.insert(r, nt)),
{
    let w = u.insert(r, nt);
    assert(w =~= s_orig.update(r, nt));
    assert forall|a: int| 0 <= a < w.len() implies (#[trigger] w[a]).wf() && w[a]@.1 != rat_zero() by {
        if a != r {
            assert(w[a] == s_orig[a]);
        }
    }
    assert forall|a: int, b: int| 0 <= a < b < w.len() implies mono_lt(#[trigger] w[a].pairs(), #[trigger] w[b].pairs()) by {
        assert(w[a].pairs() == s_orig[a].pairs());
        assert(w[b].pairs() == s_orig[b].pairs());
    }
}

/// Inserting a new, nonzero term where the search stopped keeps the list sorted.
pub proof fn lemma_insert_sorted_new(s: Seq<Term>, r: int, t: Term)
    requires
        terms_wf(s),
        term_search_stop(s, t.pairs(), r),
        r == s.len() || s[r].pairs() != t.pairs(),
        t.wf(),
        t@.1 != rat_zero(),
    ensures
        terms_wf(s.insert(r, t)),
{
    let w = s.insert(r, t);
    if r < s.len() {
        lemma_lex_total(s[r].pairs(), t.pairs(), 0);
    }
    assert forall|a: int| 0 <= a < w.len() implies (#[trigger] w[a]).wf() && w[a]@.1 != rat_zero() by {
        if a < r {
            assert(w[a] == s[a]);
        } else if a > r {
            assert(w[a] == s[a - 1]);
        }
    }
    assert forall|a: int, b: int| 0 <= a < b < w.len() implies mono_lt(#[trigger] w[a].pairs(), #[trigger] w[b].pairs()) by {
        if a < r && b < r {
            assert(w[a] == s[a] && w[b] == s[b]);
        } else if a < r && b == r {
            assert(w[a] == s[a]);
        } else if a < r {
            assert(w[a] == s[a] && w[b] == s[b - 1]);
            lemma_lex_transitive(s[a].pairs(), t.pairs(), s[r].pairs(), 0);
            if b - 1 > r {
                lemma_lex_transitive(s[a].pairs(), s[r].pairs(), s[b - 1].pairs(), 0);
            }
        } else if a == r {
            assert(w[b] == s[b - 1]);
            if b - 1 > r {
                lemma_lex_transitive(t.pairs(), s[r].pairs(), s[b - 1].pairs(), 0);
            }
        } else {
            assert(w[a] == s[a - 1] && w[b] == s[b - 1]);
        }
    }
}

/// A list of terms has finitely many monomials.
pub proof fn lemma_terms_map_finite(s: Seq<Term>)
    ensures
        terms_map(s).dom().finite(),
    decreases s.len(),
{
    let keys = Set::new(|k: Map<Variable, int>| exists|i: int| 0 <= i < s.len() && (#[trigger] s[i])@.0 == k);
    let f = |i: int| s[i]@.0;
    let idx = Set::new(|i: int| 0 <= i < s.len());
    assert(idx =~= vstd::set_lib::set_int_range(0, s.len() as int));
    vstd::set_lib::lemma_int_range(0, s.len() as int);
    assert(keys =~= idx.map(f)) by {
        assert forall|k: Map<Variable, int>| keys.contains(k) implies #[trigger] idx.map(f).contains(k) by {
            let i = choose|i: int| 0 <= i < s.len() && (#[trigger] s[i])@.0 == k;
            assert(idx.contains(i));
            assert(f(i) == k);
        }
    }
    idx.lemma_map_finite(f);
    assert(terms_map(s).dom() =~= keys);
}


/// A prefix of a well-formed list is well formed.
pub proof fn lemma_terms_wf_take(s: Seq<Term>, i: int)
    requires
        terms_wf(s),
        0 <= i <= s.len(),
    ensures
        terms_wf(s.take(i)),
{
    let u = s.take(i);
    assert forall|a: int| 0 <= a < u.len() implies (#[trigger] u[a]).wf() && u[a]@.1 != rat_zero() by {
        assert(u[a] == s[a]);
    }
    assert forall|a: int, b: int| 0 <= a < b < u.len() implies mono_lt(#[trigger] u[a].pairs(), #[trigger] u[b].pairs()) by {
        assert(u[a] == s[a] && u[b] == s[b]);
    }
}

/// Growing a prefix by one term adds that term's monomial to the map.
pub proof fn lemma_terms_map_take_step(s: Seq<Term>, i: int)
    requires
        terms_wf(s),
        0 <= i < s.len(),
    ensures
        terms_map(s.take(i + 1)) == terms_map(s.take(i)).insert(s[i]@.0, s[i]@.1),
        !terms_map(s.take(i)).dom().contains(s[i]@.0),
        terms_wf(s.take(i)),
        terms_wf(s.take(i + 1)),
{
    lemma_terms_wf_take(s, i);
    lemma_terms_wf_take(s, i + 1);
    assert(s.take(i).insert(i, s[i]) =~= s.take(i + 1));
    lemma_terms_map_insert(s.take(i), i, s[i]);
    if terms_map(s.take(i)).dom().contains(s[i]@.0) {
        let j = choose|j: int| 0 <= j < s.take(i).len() && (#[trigger] s.take(i)[j])@.0 == s[i]@.0;
        assert(s.take(i)[j] == s[j]);
        lemma_terms_unique(s, j, i);
    }
}

/// A well-formed list's map is valid.
pub proof fn lemma_terms_map_valid(s: Seq<Term>)
    requires
        terms_wf(s),
    ensures
        expr_valid(terms_map(s)),
{
    lemma_terms_map_values(s);
    assert forall|k: Map<Variable, int>| #[trigger] terms_map(s).dom().contains(k) implies valid_powers(k) by {
        assert forall|v: Variable| #[trigger] k.dom().contains(v) implies k[v] != 0 by {
            assert(terms_map(s).dom().contains(k) && k.dom().contains(v));
        }
    }
}

/// Adding one more term of `b` (a monomial `b` had not yet contributed) to `a + b'`.
pub proof fn lemma_expr_add_step(a: ExprV, mb: ExprV, t: TermV)
    requires
        expr_valid(a),
        t.1 != rat_zero(),
        !mb.dom().contains(t.0),
    ensures
        expr_add_term(expr_add(a, mb), t) == expr_add(a, mb.insert(t.0, t.1)),
        expr_add(a, mb).dom().contains(t.0) ==> a.dom().contains(t.0) && expr_add(a, mb)[t.0] == a[t.0],
{
    let lhs = expr_add_term(expr_add(a, mb), t);
    let rhs = expr_add(a, mb.insert(t.0, t.1));
    assert(lhs =~= rhs);
}

/// Multiplying one more term `(k, c)` of the left side by `t`.
pub proof fn lemma_mul_term_step(m: ExprV, k: Map<Variable, int>, c: (int, int), t: TermV)
    requires
        expr_valid(m),
        valid_powers(k),
        !m.dom().contains(k),
        c != rat_zero(),
        canonical(c),
        canonical(t.1),
        valid_powers(t.0),
    ensures
        expr_add_term(expr_mul_term(m, t), term_mul((k, c), t)) == expr_mul_term(m.insert(k, c), t),
        !expr_mul_term(m, t).dom().contains(term_mul((k, c), t).0),
{
    if t.1 == rat_zero() {
        crate::rational::lemma_rat_mul_zero(c);
        assert(expr_mul_term(m.insert(k, c), t) == expr_mul_term(m, t));
    } else {
        lemma_nonzero_canonical(c);
        lemma_nonzero_canonical(t.1);
        lemma_rat_nonzero_ops(c, t.1);
        lemma_powers_add_sub(k, t.0);
        let kk = powers_add(k, t.0);
        let lhs = expr_add_term(expr_mul_term(m, t), term_mul((k, c), t));
        let rhs = expr_mul_term(m.insert(k, c), t);
        assert(!expr_mul_term(m, t).dom().contains(kk));
        assert forall|j: Map<Variable, int>| #[trigger] lhs.dom().contains(j) == rhs.dom().contains(j) by {
            if valid_powers(j) && powers_sub(j, t.0) == k {
                lemma_powers_sub_add(j, t.0);
            }
        }
        assert forall|j: Map<Variable, int>| #[trigger] lhs.dom().contains(j) implies lhs[j] == rhs[j] by {
            if valid_powers(j) && powers_sub(j, t.0) == k {
                lemma_powers_sub_add(j, t.0);
            }
        }
        assert(lhs =~= rhs);
    }
}

/// Dividing one more term `(k, c)` of the left side by `t`.
pub proof fn lemma_div_term_step(m: ExprV, k: Map<Variable, int>, c: (int, int), t: TermV)
    requires
        expr_valid(m),
        valid_powers(k),
        !m.dom().contains(k),
        c != rat_zero(),
        canonical(c),
        canonical(t.1),
        t.1 != rat_zero(),
        valid_powers(t.0),
    ensures
        expr_add_term(expr_div_term(m, t), term_div((k, c), t)) == expr_div_term(m.insert(k, c), t),
        !expr_div_term(m, t).dom().contains(term_div((k, c), t).0),
{
    lemma_nonzero_canonical(c);
    lemma_nonzero_canonical(t.1);
    lemma_rat_nonzero_ops(c, t.1);
    lemma_powers_sub_add(k, t.0);
    let lhs = expr_add_term(expr_div_term(m, t), term_div((k, c), t));
    let rhs = expr_div_term(m.insert(k, c), t);
    assert forall|j: Map<Variable, int>| #[trigger] lhs.dom().contains(j) == rhs.dom().contains(j) by {
        if valid_powers(j) && powers_add(j, t.0) == k {
            lemma_powers_add_sub(j, t.0);
        }
    }
    assert forall|j: Map<Variable, int>| #[trigger] lhs.dom().contains(j) implies lhs[j] == rhs[j] by {
        if valid_powers(j) && powers_add(j, t.0) == k {
            lemma_powers_add_sub(j, t.0);
        }
    }
    assert(lhs =~= rhs);
}

impl Expression {
    /// An expression holding one term (or nothing, when the term is 0).
    pub fn from_term(t: Term) -> (e: Expression)
        requires
            t.wf(),
        ensures
            e.wf(),
            e@ == expr_of_term(t@),
    {
        let mut e = Expression::zero();
        proof {
            assert(Map::<Map<Variable, int>, (int, int)>::empty().insert(t@.0, t@.1) =~= Map::empty().insert(t@.0, t@.1));
        }
        e.add_term(t);
        proof {
            assert(e@ =~= expr_of_term(t@));
        }
        e
    }

    /// A variable as an expression.
    pub fn from_variable(v: Variable) -> (e: Expression)
        ensures
            e.wf(),
            e@ == expr_of_term(crate::forms::term::var_term(v)),
    {
        Expression::from_term(Term::from_variable(v))
    }

    /// An integer as an expression.
    pub fn from_integer(n: i64) -> (e: Expression)
        requires
            crate::rational::fits(n as int),
        ensures
            e.wf(),
            e@ == expr_of_term((Map::<Variable, int>::empty(), (n as int, 1int))),
    {
        Expression::from_term(Term::from_integer(n))
    }

    /// A rational as an expression.
    pub fn from_rational(c: Rational) -> (e: Expression)
        requires
            c.wf(),
        ensures
            e.wf(),
            e@ == expr_of_term((Map::<Variable, int>::empty(), c@)),
    {
        Expression::from_term(Term::from_rational(c))
    }

    /// Is the expression 0 (no terms).
    pub fn is_zero(&self) -> (b: bool)
        requires
            self.wf(),
        ensures
            b == (self@ == Map::<Map<Variable, int>, (int, int)>::empty()),
    {
        proof {
            if self.terms.len() > 0 {
                lemma_terms_map_at(self.terms@, 0);
                assert(self@.dom().contains(self.terms@[0]@.0));
            } else {
                assert(self@ =~= Map::<Map<Variable, int>, (int, int)>::empty());
            }
        }
        self.terms.len() == 0
    }

    /// Returns true if the expression has at most one term.
    pub fn is_term(&self) -> (b: bool)
        requires
            self.wf(),
        ensures
            b == (self@.dom().len() <= 1),
    {
        proof {
            lemma_terms_map_len(self.terms@);
        }
        self.terms.len() <= 1
    }

    /// The number of terms.
    pub fn len(&self) -> (n: usize)
        requires
            self.wf(),
        ensures
            n == self@.dom().len(),
    {
        proof {
            lemma_terms_map_len(self.terms@);
        }
        self.terms.len()
    }

    /// A copy of the expression.
    pub fn copy(&self) -> (e: Expression)
        requires
            self.wf(),
        ensures
            e@ == self@,
            e.wf(),
            e.term_list().len() == self.term_list().len(),
            forall|i: int| 0 <= i < self.term_list().len() ==> (#[trigger] e.term_list()[i])@ == self.term_list()[i]@
                && e.term_list()[i].pairs() == self.term_list()[i].pairs(),
    {
        let mut terms: Vec<Term> = Vec::new();
        let mut i: usize = 0;
        while i < self.terms.len()
            invariant
                0 <= i <= self.terms.len(),
                terms.len() == i,
                forall|k: int| 0 <= k < i ==> (#[trigger] terms@[k])@ == self.terms@[k]@ && terms@[k].pairs()
                    == self.terms@[k].pairs() && terms@[k].wf() == self.terms@[k].wf(),
            decreases self.terms.len() - i,
        {
            terms.push(self.terms[i].copy());
            i = i + 1;
        }
        let e = Expression { terms };
        proof {
            assert(terms_wf(e.terms@)) by {
                assert forall|a: int, b: int| 0 <= a < b < e.terms@.len() implies mono_lt(#[trigger] e.terms@[a].pairs(), #[trigger] e.terms@[b].pairs()) by {
                    assert(mono_lt(self.terms@[a].pairs(), self.terms@[b].pairs()));
                }
            }
            assert(e@ =~= self@) by {
                assert forall|k: Map<Variable, int>| #[trigger] e@.dom().contains(k) == self@.dom().contains(k) by {
                    if e@.dom().contains(k) {
                        let j = choose|j: int| 0 <= j < e.terms@.len() && (#[trigger] e.terms@[j])@.0 == k;
                        assert(self.terms@[j]@.0 == k);
                    }
                    if self@.dom().contains(k) {
                        let j = choose|j: int| 0 <= j < self.terms@.len() && (#[trigger] self.terms@[j])@.0 == k;
                        assert(e.terms@[j]@.0 == k);
                    }
                }
                assert forall|k: Map<Variable, int>| #[trigger] e@.dom().contains(k) implies e@[k] == self@[k] by {
                    let j = index_of(e.terms@, k);
                    let jj = index_of(self.terms@, k);
                    assert(0 <= j < e.terms@.len() && e.terms@[j]@.0 == k);
                    assert(0 <= jj < self.terms@.len() && self.terms@[jj]@.0 == k);
                    assert(e@[k] == e.terms@[j]@.1);
                    assert(self@[k] == self.terms@[jj]@.1);
                    lemma_terms_unique(self.terms@, j, jj);
                }
            }
        }
        e
    }

    /// Negation: every multiplier changes sign.
    pub fn neg(self) -> (e: Expression)
        requires
            self.wf(),
        ensures
            e.wf(),
            e@ == expr_neg(self@),
    {
        let ghost s = self.terms@;
        let mut terms: Vec<Term> = Vec::new();
        let mut i: usize = 0;
        while i < self.terms.len()
            invariant
                0 <= i <= self.terms.len(),
                s == self.terms@,
                terms_wf(s),
                terms.len() == i,
                forall|k: int| 0 <= k < i ==> (#[trigger] terms@[k])@ == (s[k]@.0, rat_neg(s[k]@.1)) && terms@[k].pairs()
                    == s[k].pairs() && terms@[k].wf() && terms@[k]@.1 != rat_zero(),
            decreases self.terms.len() - i,
        {
            let t = self.terms[i].copy().neg();
            proof {
                s[i as int].lemma_powers_nonzero();
                lemma_nonzero_canonical(s[i as int]@.1);
            }
            terms.push(t);
            i = i + 1;
        }
        let e = Expression { terms };
        proof {
            assert(terms_wf(e.terms@)) by {
                assert forall|a: int, b: int| 0 <= a < b < e.terms@.len() implies mono_lt(#[trigger] e.terms@[a].pairs(), #[trigger] e.terms@[b].pairs()) by {
                    assert(mono_lt(s[a].pairs(), s[b].pairs()));
                }
            }
            assert forall|k: Map<Variable, int>| #[trigger] e@.dom().contains(k) == self@.dom().contains(k) by {
                if e@.dom().contains(k) {
                    let j = choose|j: int| 0 <= j < e.terms@.len() && (#[trigger] e.terms@[j])@.0 == k;
                    assert(s[j]@.0 == k);
                }
                if self@.dom().contains(k) {
                    let j = choose|j: int| 0 <= j < s.len() && (#[trigger] s[j])@.0 == k;
                    assert(e.terms@[j]@.0 == k);
                }
            }
            assert forall|k: Map<Variable, int>| #[trigger] e@.dom().contains(k) implies e@[k] == rat_neg(self@[k]) by {
                let j = choose|j: int| 0 <= j < e.terms@.len() && (#[trigger] e.terms@[j])@.0 == k;
                lemma_terms_map_at(e.terms@, j);
                lemma_terms_map_at(s, j);
            }
            assert(e@ =~= expr_neg(self@));
        }
        e
    }

    /// The sum of two expressions (`+=`): the terms of `rhs` added one by one.
    pub fn add(self, rhs: Expression) -> (e: Expression)
        requires
            self.wf(),
            rhs.wf(),
            expr_add_fits(self@, rhs@),
        ensures
            e.wf(),
            e@ == expr_add(self@, rhs@),
    {
        let ghost a = self@;
        let ghost s = rhs.terms@;
        proof {
            lemma_terms_map_valid(self.terms@);
            assert(s.take(0) =~= Seq::<Term>::empty());
            assert(expr_add(a, terms_map(s.take(0))) =~= a);
        }
        let mut acc = self;
        let mut i: usize = 0;
        while i < rhs.terms.len()
            invariant
                0 <= i <= rhs.terms.len(),
                s == rhs.terms@,
                terms_wf(s),
                expr_valid(a),
                expr_add_fits(a, terms_map(s)),
                acc.wf(),
                acc@ == expr_add(a, terms_map(s.take(i as int))),
            decreases rhs.terms.len() - i,
        {
            let t = rhs.terms[i].copy();
            proof {
                lemma_terms_map_take_step(s, i as int);
                lemma_expr_add_step(a, terms_map(s.take(i as int)), t@);
                lemma_terms_map_at(s, i as int);
            }
            acc.add_term(t);
            i = i + 1;
        }
        proof {
            assert(s.take(s.len() as int) =~= s);
        }
        acc
    }

    /// Whether adding the term `t` stays in `i64` (what `add_term` requires).
    pub(crate) fn term_add_fits(&self, t: &Term) -> (b: bool)
        requires
            self.wf(),
            t.wf(),
        ensures
            b == add_term_fits(self@, t@),
    {
        let ghost s = self.terms@;
        let ghost m = self@;
        let r = self.find(t);
        if r < self.terms.len() && mono_compare(self.terms[r].pairs_vec(), t.pairs_vec()) == 0 {
            proof {
                lemma_key_pairs(s[r as int], *t);
                lemma_terms_map_at(s, r as int);
            }
            let a = self.terms[r].multiplier();
            let c = t.multiplier();
            a.add_fits_check(&c)
        } else {
            proof {
                if r < s.len() {
                    lemma_lex_total(s[r as int].pairs(), t.pairs(), 0);
                }
                assert forall|k: int| 0 <= k < s.len() implies s[k]@.0 != t@.0 by {
                    lemma_key_pairs(s[k], *t);
                    if k < r {
                        lemma_lex_irreflexive(t.pairs(), 0);
                    } else {
                        if k > r {
                            lemma_lex_transitive(t.pairs(), s[r as int].pairs(), s[k].pairs(), 0);
                        }
                        lemma_lex_irreflexive(t.pairs(), 0);
                    }
                }
                assert(!m.dom().contains(t@.0));
            }
            true
        }
    }

    /// Whether `self + rhs` can be formed without leaving `i64` (what `add` requires).
    pub fn add_fits_check(&self, rhs: &Expression) -> (b: bool)
        requires
            self.wf(),
            rhs.wf(),
        ensures
            b == expr_add_fits(self@, rhs@),
    {
        let ghost s = rhs.terms@;
        let mut i: usize = 0;
        while i < rhs.terms.len()
            invariant
                0 <= i <= rhs.terms.len(),
                s == rhs.terms@,
                self.wf(),
                terms_wf(s),
                forall|j: int| 0 <= j < i ==> add_term_fits(self@, #[trigger] s[j]@),
            decreases rhs.terms.len() - i,
        {
            if !self.term_add_fits(&rhs.terms[i]) {
                proof {
                    let t = s[i as int]@;
                    lemma_terms_map_at(s, i as int);
                    assert(rhs@.dom().contains(t.0) && self@.dom().contains(t.0));
                    assert(!add_fits(self@[t.0], rhs@[t.0]));
                }
                return false;
            }
            i = i + 1;
        }
        proof {
            assert forall|k: Map<Variable, int>| #[trigger] self@.dom().contains(k) && rhs@.dom().contains(k)
                implies add_fits(self@[k], rhs@[k]) by {
                let j = choose|j: int| 0 <= j < s.len() && (#[trigger] s[j])@.0 == k;
                lemma_terms_map_at(s, j);
                assert(add_term_fits(self@, s[j]@));
            }
        }
        true
    }

    /// The sum, or `None` where it would leave `i64`.
    pub fn checked_add(self, rhs: Expression) -> (r: Option<Expression>)
        requires
            self.wf(),
            rhs.wf(),
        ensures
            r is Some <==> expr_add_fits(self@, rhs@),
            r matches Some(e) ==> e.wf() && e@ == expr_add(self@, rhs@),
    {
        if self.add_fits_check(&rhs) {
            Some(self.add(rhs))
        } else {
            None
        }
    }

    /// The difference, or `None` where it would leave `i64`.
    pub fn checked_sub(self, rhs: Expression) -> (r: Option<Expression>)
        requires
            self.wf(),
            rhs.wf(),
        ensures
            r is Some <==> expr_add_fits(self@, expr_neg(rhs@)),
            r matches Some(e) ==> e.wf() && e@ == expr_add(self@, expr_neg(rhs@)),
    {
        let n = rhs.neg();
        self.checked_add(n)
    }

    /// The difference of two expressions (`-=`): the negated terms of `rhs` added one by one.
    pub fn sub(self, rhs: Expression) -> (e: Expression)
        requires
            self.wf(),
            rhs.wf(),
            expr_add_fits(self@, expr_neg(rhs@)),
        ensures
            e.wf(),
            e@ == expr_add(self@, expr_neg(rhs@)),
    {
        let n = rhs.neg();
        self.add(n)
    }

    /// Adds the negation of a term (`-=` with a term).
    pub fn sub_term(&mut self, t: Term)
        requires
            old(self).wf(),
            t.wf(),
            add_term_fits(old(self)@, (t@.0, rat_neg(t@.1))),
        ensures
            final(self).wf(),
            final(self)@ == expr_add_term(old(self)@, (t@.0, rat_neg(t@.1))),
    {
        self.add_term(t.neg());
    }

    /// The expression times a term: each of its terms multiplied by `t`.
    pub fn mul_term(self, t: &Term) -> (e: Expression)
        requires
            self.wf(),
            t.wf(),
            mul_term_fits(self@, t@),
        ensures
            e.wf(),
            e@ == expr_mul_term(self@, t@),
    {
        let ghost s = self.terms@;
        proof {
            t.lemma_powers_nonzero();
            assert(s.take(0) =~= Seq::<Term>::empty());
            assert(expr_mul_term(terms_map(s.take(0)), t@) =~= Map::<Map<Variable, int>, (int, int)>::empty());
        }
        let mut acc = Expression::zero();
        let mut i: usize = 0;
        while i < self.terms.len()
            invariant
                0 <= i <= self.terms.len(),
                s == self.terms@,
                terms_wf(s),
                t.wf(),
                valid_powers(t@.0),
                canonical(t@.1),
                mul_term_fits(terms_map(s), t@),
                acc.wf(),
                acc@ == expr_mul_term(terms_map(s.take(i as int)), t@),
            decreases self.terms.len() - i,
        {
            proof {
                lemma_terms_map_take_step(s, i as int);
                lemma_terms_map_at(s, i as int);
                lemma_terms_map_valid(s.take(i as int));
                lemma_terms_map_valid(s);
                s[i as int].lemma_powers_nonzero();
                lemma_mul_term_step(terms_map(s.take(i as int)), s[i as int]@.0, s[i as int]@.1, t@);
                assert(term_mul_fits((s[i as int]@.0, s[i as int]@.1), t@));
            }
            let p = self.terms[i].copy().mul(t.copy());
            acc.add_term(p);
            i = i + 1;
        }
        proof {
            assert(s.take(s.len() as int) =~= s);
        }
        acc
    }

    /// The expression divided by a nonzero term: each of its terms divided by `t`.
    pub fn div_term(self, t: &Term) -> (e: Expression)
        requires
            self.wf(),
            t.wf(),
            t@.1 != rat_zero(),
            div_term_fits(self@, t@),
        ensures
            e.wf(),
            e@ == expr_div_term(self@, t@),
    {
        let ghost s = self.terms@;
        proof {
            t.lemma_powers_nonzero();
            assert(s.take(0) =~= Seq::<Term>::empty());
            assert(expr_div_term(terms_map(s.take(0)), t@) =~= Map::<Map<Variable, int>, (int, int)>::empty());
        }
        let mut acc = Expression::zero();
        let mut i: usize = 0;
        while i < self.terms.len()
            invariant
                0 <= i <= self.terms.len(),
                s == self.terms@,
                terms_wf(s),
                t.wf(),
                t@.1 != rat_zero(),
                valid_powers(t@.0),
                canonical(t@.1),
                div_term_fits(terms_map(s), t@),
                acc.wf(),
                acc@ == expr_div_term(terms_map(s.take(i as int)), t@),
            decreases self.terms.len() - i,
        {
            proof {
                lemma_terms_map_take_step(s, i as int);
                lemma_terms_map_at(s, i as int);
                lemma_terms_map_valid(s.take(i as int));
                lemma_terms_map_valid(s);
                s[i as int].lemma_powers_nonzero();
                lemma_div_term_step(terms_map(s.take(i as int)), s[i as int]@.0, s[i as int]@.1, t@);
                assert(term_div_fits((s[i as int]@.0, s[i as int]@.1), t@));
            }
            let p = self.terms[i].copy().div(t.copy());
            acc.add_term(p);
            i = i + 1;
        }
        proof {
            assert(s.take(s.len() as int) =~= s);
        }
        acc
    }
}

/// A well-formed list has as many monomials as terms.
pub proof fn lemma_terms_map_len(s: Seq<Term>)
    requires
        terms_wf(s),
    ensures
        terms_map(s).dom().len() == s.len(),
        terms_map(s).dom().finite(),
    decreases s.len(),
{
    lemma_terms_map_finite(s);
    if s.len() > 0 {
        let n = (s.len() - 1) as int;
        lemma_terms_map_take_step(s, n);
        assert(s.take(n + 1) =~= s);
        lemma_terms_map_len(s.take(n));
    } else {
        assert(terms_map(s).dom() =~= Set::empty());
    }
}


/// Two well-formed lists with the same map hold the same terms in the same order.
pub proof fn lemma_terms_canonical(s1: Seq<Term>, s2: Seq<Term>)
    requires
        terms_wf(s1),
        terms_wf(s2),
        terms_map(s1) == terms_map(s2),
    ensures
        s1.len() == s2.len(),
        forall|i: int| 0 <= i < s1.len() ==> (#[trigger] s1[i])@ == s2[i]@ && s1[i].pairs() == s2[i].pairs(),
    decreases s1.len(),
{
    if s1.len() == 0 || s2.len() == 0 {
        if s1.len() > 0 {
            lemma_terms_map_at(s1, 0);
        }
        if s2.len() > 0 {
            lemma_terms_map_at(s2, 0);
        }
    } else {
        lemma_terms_map_at(s1, 0);
        lemma_terms_map_at(s2, 0);
        let k1 = s1[0]@.0;
        let k2 = s2[0]@.0;
        let j = choose|j: int| 0 <= j < s2.len() && (#[trigger] s2[j])@.0 == k1;
        let i = choose|i: int| 0 <= i < s1.len() && (#[trigger] s1[i])@.0 == k2;
        if k1 != k2 {
            assert(j > 0 && i > 0);
            lemma_key_pairs(s1[i], s2[0]);
            lemma_key_pairs(s2[j], s1[0]);
            assert(mono_lt(s1[0].pairs(), s1[i].pairs()));
            assert(mono_lt(s2[0].pairs(), s2[j].pairs()));
            lemma_lex_total(s1[0].pairs(), s2[0].pairs(), 0);
            assert(false);
        }
        lemma_key_pairs(s1[0], s2[0]);
        lemma_terms_map_remove(s1, 0);
        lemma_terms_map_remove(s2, 0);
        lemma_terms_canonical(s1.remove(0), s2.remove(0));
        assert forall|i: int| 0 <= i < s1.len() implies (#[trigger] s1[i])@ == s2[i]@ && s1[i].pairs() == s2[i].pairs() by {
            if i > 0 {
                assert(s1[i] == s1.remove(0)[i - 1]);
                assert(s2[i] == s2.remove(0)[i - 1]);
            }
        }
    }
}

/// The terms of an expression as mathematics sees them, in the expression's order.
pub open spec fn term_views(s: Seq<Term>) -> Seq<TermV> {
    Seq::new(s.len(), |i: int| s[i]@)
}

/// The terms of the expression with map `m`, in increasing order of monomials.
pub closed spec fn canonical_terms(m: ExprV) -> Seq<TermV> {
    term_views((choose|e: Expression| e.wf() && e@ == m).terms@)
}

/// The product of the terms listed in `s` with `b`, accumulated in that order.
pub open spec fn expr_mul_seq(s: Seq<TermV>, b: ExprV) -> ExprV
    decreases s.len(),
{
    if s.len() == 0 {
        Map::empty()
    } else {
        expr_add(expr_mul_seq(s.drop_last(), b), expr_mul_term(b, s.last()))
    }
}

/// Every step of that accumulation stays in `i64`.
pub open spec fn expr_mul_seq_fits(s: Seq<TermV>, b: ExprV) -> bool
    decreases s.len(),
{
    if s.len() == 0 {
        true
    } else {
        &&& expr_mul_seq_fits(s.drop_last(), b)
        &&& mul_term_fits(b, s.last())
        &&& expr_add_fits(expr_mul_seq(s.drop_last(), b), expr_mul_term(b, s.last()))
    }
}

/// The product of two expressions: `b` times each term of `a`, summed in `a`'s order.
pub open spec fn expr_mul(a: ExprV, b: ExprV) -> ExprV {
    expr_mul_seq(canonical_terms(a), b)
}

pub open spec fn expr_mul_fits(a: ExprV, b: ExprV) -> bool {
    expr_mul_seq_fits(canonical_terms(a), b)
}

/// The expression 1.
pub open spec fn expr_one() -> ExprV {
    Map::empty().insert(Map::<Variable, int>::empty(), rat_one())
}

/// Exponentiation by squaring from `result`, `base` and the remaining exponent `e`.
pub open spec fn pow_loop(result: ExprV, base: ExprV, e: nat) -> ExprV
    decreases e,
{
    if e == 0 {
        result
    } else {
        let r2 = if e % 2 == 1 { expr_mul(result, base) } else { result };
        let b2 = if e / 2 > 0 { expr_mul(base, base) } else { base };
        pow_loop(r2, b2, e / 2)
    }
}

/// Every multiplication of the squaring stays in `i64`.
pub open spec fn pow_loop_fits(result: ExprV, base: ExprV, e: nat) -> bool
    decreases e,
{
    if e == 0 {
        true
    } else {
        let r2 = if e % 2 == 1 { expr_mul(result, base) } else { result };
        let b2 = if e / 2 > 0 { expr_mul(base, base) } else { base };
        &&& e % 2 == 1 ==> expr_mul_fits(result, base)
        &&& e / 2 > 0 ==> expr_mul_fits(base, base)
        &&& pow_loop_fits(r2, b2, e / 2)
    }
}

/// The one term of an expression with at most one term (0 for the empty expression).
pub open spec fn expr_single(m: ExprV) -> TermV {
    if m.dom().len() == 0 {
        (Map::empty(), rat_zero())
    } else {
        let k = m.dom().choose();
        (k, m[k])
    }
}

/// The single term of a nonzero valid expression occurs in it with a nonzero multiplier.
pub proof fn lemma_single_nonzero(m: ExprV)
    requires
        forall|k: Map<Variable, int>| #[trigger] m.dom().contains(k) ==> m[k] != rat_zero(),
        m.dom().finite(),
        m != Map::<Map<Variable, int>, (int, int)>::empty(),
    ensures
        m.dom().len() > 0,
        m.dom().contains(expr_single(m).0),
        expr_single(m).1 != rat_zero(),
{
    if m.dom().len() == 0 {
        m.dom().lemma_len0_is_empty();
        assert(m =~= Map::<Map<Variable, int>, (int, int)>::empty());
    }
    let k = m.dom().choose();
    assert(m.dom().contains(k));
}

/// An expression raised to an integer power: 1 for 0, by squaring for a positive
/// power, and through its single term for a negative one.
pub open spec fn expr_pow(m: ExprV, n: int) -> ExprV {
    if n == 0 {
        expr_one()
    } else if n < 0 {
        expr_of_term(term_pow(expr_single(m), n))
    } else {
        pow_loop(expr_one(), m, n as nat)
    }
}

/// When raising to `n` is defined (no `0^0`, negative powers only of a single
/// term) and stays in `i64`.
pub open spec fn expr_pow_fits(m: ExprV, n: int) -> bool {
    &&& n == 0 ==> m.dom().len() > 0
    &&& n < 0 ==> m.dom().len() <= 1 && term_pow_fits(expr_single(m), n)
    &&& n > 0 ==> pow_loop_fits(expr_one(), m, n as nat)
}

/// The fits of a whole accumulation give the fits of each prefix.
pub proof fn lemma_mul_seq_fits_take(s: Seq<TermV>, b: ExprV, j: int)
    requires
        expr_mul_seq_fits(s, b),
        0 <= j <= s.len(),
    ensures
        expr_mul_seq_fits(s.take(j), b),
    decreases s.len(),
{
    if j == s.len() {
        assert(s.take(j) =~= s);
    } else {
        assert(s.drop_last().take(j) =~= s.take(j));
        lemma_mul_seq_fits_take(s.drop_last(), b, j);
    }
}

impl Expression {
    /// The views of the terms, in order.
    pub proof fn lemma_canonical_terms(&self)
        requires
            self.wf(),
        ensures
            canonical_terms(self@) == term_views(self.term_list()),
    {
        let e = choose|e: Expression| e.wf() && e@ == self@;
        assert(exists|e: Expression| e.wf() && e@ == self@);
        lemma_terms_canonical(e.terms@, self.terms@);
        assert(term_views(e.terms@) =~= term_views(self.terms@));
    }

    /// The canonical terms list each monomial of the expression once, with its
    /// coefficient.
    pub proof fn lemma_canonical_terms_facts(&self)
        requires
            self.wf(),
        ensures
            ({
                let ts = canonical_terms(self@);
                &&& forall|i: int| 0 <= i < ts.len() ==> self@.dom().contains(#[trigger] ts[i].0) && self@[ts[i].0] == ts[i].1
                &&& forall|k: Map<Variable, int>| #[trigger] self@.dom().contains(k) ==> exists|i: int| 0 <= i < ts.len() && #[trigger] ts[i].0 == k
                &&& forall|i: int, j: int| 0 <= i < ts.len() && 0 <= j < ts.len() && i != j ==> #[trigger] ts[i].0 != #[trigger] ts[j].0
                &&& forall|i: int| 0 <= i < ts.len() ==> valid_powers(#[trigger] ts[i].0) && ts[i].1 != rat_zero() && canonical(ts[i].1)
            }),
    {
        self.lemma_canonical_terms();
        let ts = canonical_terms(self@);
        let s = self.terms@;
        assert forall|i: int| 0 <= i < ts.len() implies self@.dom().contains(#[trigger] ts[i].0) && self@[ts[i].0] == ts[i].1 by {
            lemma_terms_map_at(s, i);
        }
        assert forall|k: Map<Variable, int>| #[trigger] self@.dom().contains(k) implies exists|i: int| 0 <= i < ts.len() && #[trigger] ts[i].0 == k by {
            let i = index_of(s, k);
            assert(ts[i].0 == k);
        }
        assert forall|i: int, j: int| 0 <= i < ts.len() && 0 <= j < ts.len() && i != j implies #[trigger] ts[i].0 != #[trigger] ts[j].0 by {
            if ts[i].0 == ts[j].0 {
                lemma_terms_unique(s, i, j);
            }
        }
        assert forall|i: int| 0 <= i < ts.len() implies valid_powers(#[trigger] ts[i].0) && ts[i].1 != rat_zero() && canonical(ts[i].1) by {
            s[i].lemma_powers_nonzero();
        }
    }

    /// A well-formed expression's coefficients are those of a well-formed expression.
    pub proof fn lemma_is_expression(&self)
        requires
            self.wf(),
        ensures
            crate::products::is_expression(self@),
    {
    }

    /// The expression 1.
    pub fn one() -> (e: Expression)
        ensures
            e.wf(),
            e@ == expr_one(),
    {
        let e = Expression::from_term(Term::one());
        proof {
            assert(rat_one() != rat_zero());
        }
        e
    }

    /// The product of two expressions: `rhs` times each term of `self`, summed.
    pub fn mul(self, rhs: Expression) -> (e: Expression)
        requires
            self.wf(),
            rhs.wf(),
            expr_mul_fits(self@, rhs@),
        ensures
            e.wf(),
            e@ == expr_mul(self@, rhs@),
    {
        let ghost views = term_views(self.terms@);
        let ghost b = rhs@;
        proof {
            self.lemma_canonical_terms();
            assert(views.take(0) =~= Seq::<TermV>::empty());
        }
        let mut acc = Expression::zero();
        let mut i: usize = 0;
        while i < self.terms.len()
            invariant
                0 <= i <= self.terms.len(),
                views == term_views(self.terms@),
                terms_wf(self.terms@),
                rhs.wf(),
                b == rhs@,
                expr_mul_seq_fits(views, b),
                acc.wf(),
                acc@ == expr_mul_seq(views.take(i as int), b),
            decreases self.terms.len() - i,
        {
            proof {
                lemma_mul_seq_fits_take(views, b, i + 1);
                assert(views.take(i + 1).drop_last() =~= views.take(i as int));
                assert(views.take(i + 1).last() == self.terms@[i as int]@);
            }
            let prod = rhs.copy().mul_term(&self.terms[i]);
            acc = acc.add(prod);
            i = i + 1;
        }
        proof {
            assert(views.take(views.len() as int) =~= views);
        }
        acc
    }

    /// Whether `self * t` can be formed without leaving `i64` (what `mul_term` requires).
    pub fn mul_term_fits_check(&self, t: &Term) -> (b: bool)
        requires
            self.wf(),
            t.wf(),
        ensures
            b == mul_term_fits(self@, t@),
    {
        let ghost s = self.terms@;
        let mut i: usize = 0;
        while i < self.terms.len()
            invariant
                0 <= i <= self.terms.len(),
                s == self.terms@,
                terms_wf(s),
                t.wf(),
                forall|j: int| 0 <= j < i ==> term_mul_fits(#[trigger] s[j]@, t@),
            decreases self.terms.len() - i,
        {
            if !self.terms[i].mul_fits_check(t) {
                proof {
                    lemma_terms_map_at(s, i as int);
                    let k = s[i as int]@.0;
                    assert((k, self@[k]) == s[i as int]@);
                }
                return false;
            }
            i = i + 1;
        }
        proof {
            assert forall|k: Map<Variable, int>| #[trigger] self@.dom().contains(k) implies term_mul_fits((k, self@[k]), t@) by {
                let j = choose|j: int| 0 <= j < s.len() && (#[trigger] s[j])@.0 == k;
                lemma_terms_map_at(s, j);
                assert((k, self@[k]) == s[j]@);
            }
        }
        true
    }

    /// Whether every term can be divided by the integer `s >= 1` without leaving
    /// `i64` (what `div_term` by that integer requires).
    pub fn div_by_integer_fits_check(&self, s: i64) -> (b: bool)
        requires
            self.wf(),
            s >= 1,
        ensures
            b == div_term_fits(self@, (Map::<Variable, int>::empty(), (s as int, 1int))),
    {
        let ghost d = (Map::<Variable, int>::empty(), (s as int, 1int));
        let ghost u = (Map::<Variable, int>::empty(), (1int, s as int));
        proof {
            crate::rational::lemma_gcd_one(s as nat);
            crate::divisibility::lemma_gcd_commutative(s as nat, 1);
            crate::divisibility::lemma_canon_of_value(1, s as int, (1int, s as int));
        }
        let recip = Term::from_rational(Rational::new(1, s));
        let b = self.mul_term_fits_check(&recip);
        proof {
            self.lemma_view_values();
            assert forall|k: Map<Variable, int>| #[trigger] self@.dom().contains(k)
                implies term_mul_fits((k, self@[k]), u) == term_div_fits((k, self@[k]), d) by {
                let c = self@[k];
                assert(rat_mul(c, u.1) == rat_div(c, d.1));
                if term_mul_fits((k, c), u) {
                    crate::rational::lemma_gcd_zero_left(c.1 as nat);
                    assert(c.0 != 0);
                    lemma_rat_nonzero_ops(c, u.1);
                    assert forall|v: Variable| #[trigger] crate::forms::monomial::i64_range(pw(k, v) - pw(d.0, v)) by {
                        assert(crate::forms::monomial::i64_range(pw(k, v) + pw(u.0, v)));
                    }
                }
                if term_div_fits((k, c), d) {
                    assert forall|v: Variable| #[trigger] crate::forms::monomial::i64_range(pw(k, v) + pw(u.0, v)) by {
                        assert(crate::forms::monomial::i64_range(pw(k, v) - pw(d.0, v)));
                    }
                }
            }
        }
        b
    }

    /// The product, or `None` where forming it would leave `i64`.
    pub fn checked_mul(self, rhs: Expression) -> (r: Option<Expression>)
        requires
            self.wf(),
            rhs.wf(),
        ensures
            r is Some <==> expr_mul_fits(self@, rhs@),
            r matches Some(e) ==> e.wf() && e@ == expr_mul(self@, rhs@),
    {
        let ghost views = term_views(self.terms@);
        let ghost b = rhs@;
        proof {
            self.lemma_canonical_terms();
            assert(views.take(0) =~= Seq::<TermV>::empty());
        }
        let mut acc = Expression::zero();
        let mut i: usize = 0;
        while i < self.terms.len()
            invariant
                0 <= i <= self.terms.len(),
                views == term_views(self.terms@),
                canonical_terms(self@) == views,
                terms_wf(self.terms@),
                rhs.wf(),
                b == rhs@,
                expr_mul_seq_fits(views.take(i as int), b),
                acc.wf(),
                acc@ == expr_mul_seq(views.take(i as int), b),
            decreases self.terms.len() - i,
        {
            proof {
                assert(views.take(i + 1).drop_last() =~= views.take(i as int));
                assert(views.take(i + 1).last() == self.terms@[i as int]@);
            }
            if !rhs.mul_term_fits_check(&self.terms[i]) {
                proof {
                    if expr_mul_seq_fits(views, b) {
                        lemma_mul_seq_fits_take(views, b, i + 1);
                    }
                }
                return None;
            }
            let prod = rhs.copy().mul_term(&self.terms[i]);
            if !acc.add_fits_check(&prod) {
                proof {
                    if expr_mul_seq_fits(views, b) {
                        lemma_mul_seq_fits_take(views, b, i + 1);
                    }
                }
                return None;
            }
            acc = acc.add(prod);
            i = i + 1;
        }
        proof {
            assert(views.take(views.len() as int) =~= views);
        }
        Some(acc)
    }

    /// Whether `self` raised to `n` can be formed without leaving range (what `pow` requires).
    pub fn pow_fits_check(&self, n: i64) -> (b: bool)
        requires
            self.wf(),
        ensures
            b == expr_pow_fits(self@, n as int),
    {
        proof {
            lemma_terms_map_len(self.terms@);
        }
        if n == 0 {
            return self.terms.len() > 0;
        }
        if n < 0 {
            if self.terms.len() > 1 {
                return false;
            }
            let t = self.to_single_term();
            return t.pow_fits_check(n);
        }
        let ghost m = self@;
        let mut base = self.copy();
        let mut result = Expression::one();
        let mut e: i64 = n;
        while e > 0
            invariant
                e >= 0,
                n > 0,
                m == self@,
                result.wf(),
                base.wf(),
                pow_loop_fits(expr_one(), m, n as nat) == pow_loop_fits(result@, base@, e as nat),
            decreases e,
        {
            let ghost e0 = e as nat;
            let ghost r0 = result@;
            let ghost b0 = base@;
            if e % 2 == 1 {
                match result.copy().checked_mul(base.copy()) {
                    Some(r) => {
                        result = r;
                    },
                    None => {
                        proof {
                            assert(!expr_mul_fits(r0, b0));
                            assert(!pow_loop_fits(r0, b0, e0));
                        }
                        return false;
                    },
                }
            }
            e = e / 2;
            if e > 0 {
                match base.copy().checked_mul(base.copy()) {
                    Some(b2) => {
                        base = b2;
                    },
                    None => {
                        proof {
                            assert(e0 / 2 > 0);
                            assert(!expr_mul_fits(b0, b0));
                            assert(!pow_loop_fits(r0, b0, e0));
                        }
                        return false;
                    },
                }
            }
            proof {
                assert(result@ == if e0 % 2 == 1 { expr_mul(r0, b0) } else { r0 });
                assert(base@ == if e0 / 2 > 0 { expr_mul(b0, b0) } else { b0 });
                assert(e as nat == e0 / 2);
            }
        }
        true
    }

    /// The power, or `None` where forming it would leave range.
    pub fn checked_pow(self, power: i64) -> (r: Option<Expression>)
        requires
            self.wf(),
        ensures
            r is Some <==> expr_pow_fits(self@, power as int),
            r matches Some(e) ==> e.wf() && e@ == expr_pow(self@, power as int),
    {
        if self.pow_fits_check(power) {
            Some(self.pow(power))
        } else {
            None
        }
    }

    /// The single term of an expression with at most one term (0 when empty).
    pub fn to_single_term(&self) -> (t: Term)
        requires
            self.wf(),
            self@.dom().len() <= 1,
        ensures
            t.wf(),
            t@ == expr_single(self@),
    {
        proof {
            lemma_terms_map_len(self.terms@);
        }
        if self.terms.len() == 0 {
            Term::from_rational(Rational::zero())
        } else {
            proof {
                lemma_terms_map_at(self.terms@, 0);
                let k = self@.dom().choose();
                assert(self@.dom().contains(k));
                let j = choose|j: int| 0 <= j < self.terms@.len() && (#[trigger] self.terms@[j])@.0 == k;
                assert(j == 0);
            }
            self.terms[0].copy()
        }
    }

    /// Raises the expression to an integer power: 1 for 0 (and `0^0` is undefined),
    /// by squaring for a positive power; a negative power needs a single term.
    pub fn pow(self, power: i64) -> (e: Expression)
        requires
            self.wf(),
            expr_pow_fits(self@, power as int),
        ensures
            e.wf(),
            e@ == expr_pow(self@, power as int),
    {
        if power == 0 {
            return Expression::one();
        }
        if power < 0 {
            let t = self.to_single_term();
            return Expression::from_term(t.pow(power));
        }
        let ghost target = pow_loop(expr_one(), self@, power as nat);
        let mut base = self;
        let mut exponent: i64 = power;
        let mut result = Expression::one();
        while exponent > 0
            invariant
                exponent >= 0,
                result.wf(),
                base.wf(),
                pow_loop(result@, base@, exponent as nat) == target,
                pow_loop_fits(result@, base@, exponent as nat),
            decreases exponent,
        {
            let ghost e0 = exponent as nat;
            let ghost r0 = result@;
            let ghost b0 = base@;
            if exponent % 2 == 1 {
                result = result.mul(base.copy());
            }
            exponent = exponent / 2;
            if exponent > 0 {
                let b2 = base.copy();
                base = b2.mul(base);
            }
            proof {
                assert(result@ == if e0 % 2 == 1 { expr_mul(r0, b0) } else { r0 });
                assert(base@ == if e0 / 2 > 0 { expr_mul(b0, b0) } else { b0 });
            }
        }
        result
    }

    /// The same terms in the same order (what `==` compares).
    pub closed spec fn same_terms(&self, other: &Expression) -> bool {
        &&& self.terms@.len() == other.terms@.len()
        &&& forall|i: int| 0 <= i < self.terms@.len() ==> (#[trigger] self.terms@[i]).pairs() == other.terms@[i].pairs()
            && self.terms@[i]@.1 == other.terms@[i]@.1
    }

    /// For well-formed expressions, holding the same terms is having the same map.
    pub proof fn lemma_same_terms(&self, other: &Expression)
        requires
            self.wf(),
            other.wf(),
        ensures
            self.same_terms(other) <==> self@ == other@,
    {
        if self@ == other@ {
            lemma_terms_canonical(self.terms@, other.terms@);
        }
        if self.same_terms(other) {
            assert forall|i: int| 0 <= i < self.terms@.len() implies (#[trigger] self.terms@[i])@ == other.terms@[i]@ by {
                lemma_key_pairs_eq(self.terms@[i], other.terms@[i]);
            }
            assert forall|k: Map<Variable, int>| #[trigger] self@.dom().contains(k) == other@.dom().contains(k) by {
                if self@.dom().contains(k) {
                    let j = choose|j: int| 0 <= j < self.terms@.len() && (#[trigger] self.terms@[j])@.0 == k;
                    assert(other.terms@[j]@.0 == k);
                }
                if other@.dom().contains(k) {
                    let j = choose|j: int| 0 <= j < other.terms@.len() && (#[trigger] other.terms@[j])@.0 == k;
                    assert(self.terms@[j]@.0 == k);
                }
            }
            assert forall|k: Map<Variable, int>| #[trigger] self@.dom().contains(k) implies self@[k] == other@[k] by {
                let j = choose|j: int| 0 <= j < self.terms@.len() && (#[trigger] self.terms@[j])@.0 == k;
                lemma_terms_map_at(self.terms@, j);
                lemma_terms_map_at(other.terms@, j);
            }
            assert(self@ =~= other@);
        }
    }

    /// Compares the terms one by one.
    pub fn equals(&self, other: &Expression) -> (b: bool)
        ensures
            b == self.same_terms(other),
    {
        if self.terms.len() != other.terms.len() {
            return false;
        }
        let mut i: usize = 0;
        while i < self.terms.len()
            invariant
                0 <= i <= self.terms.len(),
                self.terms.len() == other.terms.len(),
                forall|k: int| 0 <= k < i ==> (#[trigger] self.terms@[k]).pairs() == other.terms@[k].pairs()
                    && self.terms@[k]@.1 == other.terms@[k]@.1,
            decreases self.terms.len() - i,
        {
            if mono_compare(self.terms[i].pairs_vec(), other.terms[i].pairs_vec()) != 0 {
                return false;
            }
            if !self.terms[i].multiplier().equals(&other.terms[i].multiplier()) {
                return false;
            }
            i = i + 1;
        }
        true
    }
}

/// Terms with the same pair list have the same powers.
pub proof fn lemma_key_pairs_eq(a: Term, b: Term)
    requires
        a.pairs() == b.pairs(),
    ensures
        a@.0 == b@.0,
{
    a.lemma_view_from_pairs();
    b.lemma_view_from_pairs();
}

impl PartialEq for Expression {
    fn eq(&self, other: &Self) -> (r: bool) {
        self.equals(other)
    }
}

impl vstd::std_specs::cmp::PartialEqSpecImpl for Expression {
    open spec fn obeys_eq_spec() -> bool {
        true
    }

    open spec fn eq_spec(&self, other: &Expression) -> bool {
        self.same_terms(other)
    }
}

impl Eq for Expression {
}


/// The factor `p (p-1) ... (p-n+1)` that the `n`-th derivative in `v` brings to a
/// term whose power of `v` is `p`.
pub open spec fn deriv_factor(k: Map<Variable, int>, n: int, v: Variable) -> int {
    range_product(pw(k, v) - n + 1, pw(k, v))
}

/// The `n`-th derivative of an expression with respect to `v`, term by term.
pub open spec fn expr_nth_deriv(m: ExprV, n: int, v: Variable) -> ExprV {
    Map::new(
        |k: Map<Variable, int>| valid_powers(k) && m.dom().contains(powers_sub(k, single_power(v, -n)))
            && deriv_factor(powers_sub(k, single_power(v, -n)), n, v) != 0,
        |k: Map<Variable, int>| rat_mul(
            (deriv_factor(powers_sub(k, single_power(v, -n)), n, v), 1int),
            m[powers_sub(k, single_power(v, -n))],
        ),
    )
}

/// Every term's derivative stays in `i64`.
pub open spec fn expr_nth_deriv_fits(m: ExprV, n: int, v: Variable) -> bool {
    forall|k: Map<Variable, int>| #[trigger] m.dom().contains(k) ==> term_nth_deriv_fits((k, m[k]), n, v)
}

/// One more term `(k, c)` differentiated.
pub proof fn lemma_nth_deriv_step(m: ExprV, k: Map<Variable, int>, c: (int, int), n: int, v: Variable)
    requires
        expr_valid(m),
        valid_powers(k),
        !m.dom().contains(k),
        c != rat_zero(),
        canonical(c),
        term_nth_deriv_fits((k, c), n, v),
    ensures
        ({
            let d = term_nth_deriv((k, c), n, v);
            &&& d.1 != rat_zero() ==> !expr_nth_deriv(m, n, v).dom().contains(d.0)
                && expr_add_term(expr_nth_deriv(m, n, v), d) == expr_nth_deriv(m.insert(k, c), n, v)
            &&& d.1 == rat_zero() ==> expr_nth_deriv(m, n, v) == expr_nth_deriv(m.insert(k, c), n, v)
        }),
{
    lemma_term_nth_deriv_shape((k, c), n, v);
    let t = single_power(v, -n);
    let d = term_nth_deriv((k, c), n, v);
    let f = deriv_factor(k, n, v);
    lemma_powers_add_sub(k, t);
    let lhs_m = expr_nth_deriv(m, n, v);
    let rhs_m = expr_nth_deriv(m.insert(k, c), n, v);
    if f == 0 {
        assert forall|j: Map<Variable, int>| #[trigger] lhs_m.dom().contains(j) == rhs_m.dom().contains(j) by {}
        assert(lhs_m =~= rhs_m);
    } else {
        let kk = powers_add(k, t);
        crate::forms::term::lemma_rat_one_mul((f, 1int));
        lemma_nonzero_canonical(c);
        lemma_rat_nonzero_ops((f, 1int), c);
        assert(d.1 != rat_zero());
        assert(d.0 == kk);
        let lhs = expr_add_term(lhs_m, d);
        assert(!lhs_m.dom().contains(kk));
        assert forall|j: Map<Variable, int>| #[trigger] lhs.dom().contains(j) == rhs_m.dom().contains(j) by {
            if valid_powers(j) && powers_sub(j, t) == k {
                lemma_powers_sub_add(j, t);
            }
        }
        assert forall|j: Map<Variable, int>| #[trigger] lhs.dom().contains(j) implies lhs[j] == rhs_m[j] by {
            if valid_powers(j) && powers_sub(j, t) == k {
                lemma_powers_sub_add(j, t);
            }
        }
        assert(lhs =~= rhs_m);
    }
}

impl Expression {
    /// The `n`-th derivative with respect to `variable`, term by term.
    pub fn nth_derivative(&self, n: usize, variable: &Variable) -> (e: Expression)
        requires
            self.wf(),
            expr_nth_deriv_fits(self@, n as int, *variable),
        ensures
            e.wf(),
            e@ == expr_nth_deriv(self@, n as int, *variable),
    {
        let ghost s = self.terms@;
        proof {
            assert(s.take(0) =~= Seq::<Term>::empty());
            assert(expr_nth_deriv(terms_map(s.take(0)), n as int, *variable) =~= Map::<Map<Variable, int>, (int, int)>::empty());
        }
        let mut acc = Expression::zero();
        let mut i: usize = 0;
        while i < self.terms.len()
            invariant
                0 <= i <= self.terms.len(),
                s == self.terms@,
                terms_wf(s),
                expr_nth_deriv_fits(terms_map(s), n as int, *variable),
                acc.wf(),
                acc@ == expr_nth_deriv(terms_map(s.take(i as int)), n as int, *variable),
            decreases self.terms.len() - i,
        {
            proof {
                lemma_terms_map_take_step(s, i as int);
                lemma_terms_map_at(s, i as int);
                lemma_terms_map_valid(s.take(i as int));
                lemma_terms_map_valid(s);
                s[i as int].lemma_powers_nonzero();
                assert(term_nth_deriv_fits((s[i as int]@.0, s[i as int]@.1), n as int, *variable));
                lemma_nth_deriv_step(terms_map(s.take(i as int)), s[i as int]@.0, s[i as int]@.1, n as int, *variable);
            }
            let d = self.terms[i].nth_derivative(n, variable);
            if !d.multiplier().is_zero() {
                acc.add_term(d);
            } else {
                proof {
                    lemma_nonzero_canonical(d@.1);
                }
            }
            i = i + 1;
        }
        proof {
            assert(s.take(s.len() as int) =~= s);
        }
        acc
    }

    /// The derivative with respect to `variable`.
    pub fn derivative(&self, variable: &Variable) -> (e: Expression)
        requires
            self.wf(),
            expr_nth_deriv_fits(self@, 1, *variable),
        ensures
            e.wf(),
            e@ == expr_nth_deriv(self@, 1, *variable),
    {
        self.nth_derivative(1, variable)
    }

    /// Returns true if the expression holds exactly this term (same monomial and multiplier).
    pub fn contains_term(&self, term: &Term) -> (b: bool)
        requires
            self.wf(),
            term.wf(),
        ensures
            b == (self@.dom().contains(term@.0) && self@[term@.0] == term@.1),
    {
        let r = self.find(term);
        if r < self.terms.len() && mono_compare(self.terms[r].pairs_vec(), term.pairs_vec()) == 0 {
            proof {
                lemma_key_pairs(self.terms@[r as int], *term);
                lemma_terms_map_at(self.terms@, r as int);
            }
            self.terms[r].multiplier().equals(&term.multiplier())
        } else {
            proof {
                if r < self.terms@.len() {
                    lemma_lex_total(self.terms@[r as int].pairs(), term.pairs(), 0);
                }
                assert forall|k: int| 0 <= k < self.terms@.len() implies self.terms@[k]@.0 != term@.0 by {
                    lemma_key_pairs(self.terms@[k], *term);
                    if k < r {
                        lemma_lex_irreflexive(term.pairs(), 0);
                    } else {
                        if k > r {
                            lemma_lex_transitive(term.pairs(), self.terms@[r as int].pairs(), self.terms@[k].pairs(), 0);
                        }
                        lemma_lex_irreflexive(term.pairs(), 0);
                    }
                }
            }
            false
        }
    }

    /// Returns true if some term of the expression contains the variable.
    pub fn contains_variable(&self, variable: &Variable) -> (b: bool)
        requires
            self.wf(),
        ensures
            b == exists|k: Map<Variable, int>| #[trigger] self@.dom().contains(k) && k.dom().contains(*variable),
    {
        let mut i: usize = 0;
        while i < self.terms.len()
            invariant
                0 <= i <= self.terms.len(),
                terms_wf(self.terms@),
                forall|k: int| 0 <= k < i ==> !(#[trigger] self.terms@[k])@.0.dom().contains(*variable),
            decreases self.terms.len() - i,
        {
            proof {
                self.terms@[i as int].lemma_powers_nonzero();
            }
            if self.terms[i].get_power_of_variable(variable) != 0 {
                proof {
                    lemma_terms_map_at(self.terms@, i as int);
                    assert(self@.dom().contains(self.terms@[i as int]@.0) && self.terms@[i as int]@.0.dom().contains(*variable));
                }
                return true;
            }
            i = i + 1;
        }
        proof {
            assert forall|k: Map<Variable, int>| #[trigger] self@.dom().contains(k) implies !k.dom().contains(*variable) by {
                let j = choose|j: int| 0 <= j < self.terms@.len() && (#[trigger] self.terms@[j])@.0 == k;
            }
        }
        false
    }

    /// Returns true if the expression has no variables (every term is a scalar).
    pub fn is_scalar(&self) -> (b: bool)
        requires
            self.wf(),
        ensures
            b == forall|k: Map<Variable, int>| #[trigger] self@.dom().contains(k) ==> k == Map::<Variable, int>::empty(),
    {
        let mut i: usize = 0;
        while i < self.terms.len()
            invariant
                0 <= i <= self.terms.len(),
                terms_wf(self.terms@),
                forall|k: int| 0 <= k < i ==> (#[trigger] self.terms@[k])@.0 == Map::<Variable, int>::empty(),
            decreases self.terms.len() - i,
        {
            if !self.terms[i].is_scalar() {
                proof {
                    lemma_terms_map_at(self.terms@, i as int);
                    assert(self@.dom().contains(self.terms@[i as int]@.0));
                    assert(self.terms@[i as int]@.0 != Map::<Variable, int>::empty());
                }
                return false;
            }
            i = i + 1;
        }
        proof {
            assert forall|k: Map<Variable, int>| #[trigger] self@.dom().contains(k) implies k == Map::<Variable, int>::empty() by {
                let j = choose|j: int| 0 <= j < self.terms@.len() && (#[trigger] self.terms@[j])@.0 == k;
            }
        }
        true
    }

    /// Returns true if every term is divisible by the divisor term.
    pub fn is_divisible_by(&self, divisor: &Term) -> (b: bool)
        requires
            self.wf(),
            divisor.wf(),
        ensures
            b == forall|k: Map<Variable, int>, v: Variable| #[trigger] self@.dom().contains(k) && #[trigger] divisor@.0.dom().contains(v)
                ==> k.dom().contains(v) && k[v] >= divisor@.0[v],
    {
        let mut i: usize = 0;
        while i < self.terms.len()
            invariant
                0 <= i <= self.terms.len(),
                terms_wf(self.terms@),
                divisor.wf(),
                forall|j: int, v: Variable| 0 <= j < i && #[trigger] divisor@.0.dom().contains(v)
                    ==> (#[trigger] self.terms@[j])@.0.dom().contains(v) && self.terms@[j]@.0[v] >= divisor@.0[v],
            decreases self.terms.len() - i,
        {
            if !self.terms[i].is_divisible_by(divisor) {
                proof {
                    lemma_terms_map_at(self.terms@, i as int);
                    let v = choose|v: Variable| #[trigger] divisor@.0.dom().contains(v) && !(self.terms@[i as int]@.0.dom().contains(v)
                        && self.terms@[i as int]@.0[v] >= divisor@.0[v]);
                    assert(self@.dom().contains(self.terms@[i as int]@.0) && divisor@.0.dom().contains(v));
                }
                return false;
            }
            i = i + 1;
        }
        proof {
            assert forall|k: Map<Variable, int>, v: Variable| #[trigger] self@.dom().contains(k) && #[trigger] divisor@.0.dom().contains(v)
                implies k.dom().contains(v) && k[v] >= divisor@.0[v] by {
                let j = choose|j: int| 0 <= j < self.terms@.len() && (#[trigger] self.terms@[j])@.0 == k;
            }
        }
        true
    }

    /// Copies of the terms, in the expression's order.
    pub fn terms(&self) -> (r: Vec<Term>)
        requires
            self.wf(),
        ensures
            term_views(r@) == canonical_terms(self@),
            forall|i: int| 0 <= i < r@.len() ==> (#[trigger] r@[i]).wf(),
    {
        proof {
            self.lemma_canonical_terms();
        }
        let c = self.copy();
        proof {
            assert(term_views(c.terms@) =~= term_views(self.terms@));
        }
        c.terms
    }

    /// Extracts the terms of the expression, in its order.
    pub fn dissolve_into_terms(self) -> (r: Vec<Term>)
        requires
            self.wf(),
        ensures
            term_views(r@) == canonical_terms(self@),
            forall|i: int| 0 <= i < r@.len() ==> (#[trigger] r@[i]).wf(),
    {
        proof {
            self.lemma_canonical_terms();
        }
        self.terms
    }

    /// The single term of an expression with at most one term (0 for the empty
    /// expression); an error for more terms.
    pub fn try_into_term(self) -> (r: Result<Term, String>)
        requires
            self.wf(),
        ensures
            r is Ok <==> self@.dom().len() <= 1,
            r matches Ok(t) ==> t.wf() && t@ == expr_single(self@),
            r matches Err(m) ==> m@ == "Cannot be reduced to a term!"@,
    {
        if self.len() <= 1 {
            Ok(self.to_single_term())
        } else {
            Err("Cannot be reduced to a term!".to_string())
        }
    }
}


/// Replacing `v^power` in a term by an expression `e`: with `v`'s power
/// `p = q * power + r`, the term becomes `e^q * v^r` times the rest of the term.
pub open spec fn term_subst_power_expr(a: TermV, v: Variable, power: int, e: ExprV) -> ExprV {
    let p = pw(a.0, v);
    if p == 0 {
        expr_of_term(a)
    } else {
        let q = trunc_div(p, power);
        let r = p - power * q;
        expr_mul_term(expr_mul_term(expr_pow(e, q), term_pow(var_term(v), r)), (a.0.remove(v), a.1))
    }
}

/// When that replacement is defined and stays in `i64`.
pub open spec fn term_subst_power_expr_fits(a: TermV, v: Variable, power: int, e: ExprV) -> bool {
    let p = pw(a.0, v);
    let q = trunc_div(p, power);
    let r = p - power * q;
    p != 0 ==> {
        &&& power != 0
        &&& !(p == i64::MIN && power == -1)
        &&& expr_pow_fits(e, q)
        &&& term_pow_fits(var_term(v), r)
        &&& mul_term_fits(expr_pow(e, q), term_pow(var_term(v), r))
        &&& mul_term_fits(expr_mul_term(expr_pow(e, q), term_pow(var_term(v), r)), (a.0.remove(v), a.1))
    }
}

/// The replacement applied to each listed term, the results summed in order.
pub open spec fn subst_power_seq(s: Seq<TermV>, v: Variable, power: int, e: ExprV) -> ExprV
    decreases s.len(),
{
    if s.len() == 0 {
        Map::empty()
    } else {
        expr_add(subst_power_seq(s.drop_last(), v, power, e), term_subst_power_expr(s.last(), v, power, e))
    }
}

pub open spec fn subst_power_seq_fits(s: Seq<TermV>, v: Variable, power: int, e: ExprV) -> bool
    decreases s.len(),
{
    if s.len() == 0 {
        true
    } else {
        &&& subst_power_seq_fits(s.drop_last(), v, power, e)
        &&& term_subst_power_expr_fits(s.last(), v, power, e)
        &&& expr_add_fits(subst_power_seq(s.drop_last(), v, power, e), term_subst_power_expr(s.last(), v, power, e))
    }
}

/// The product of the substituted expressions `value^p`, one per listed variable
/// that occurs (with power `p`) in `powers`, in the list's order.
pub open spec fn expr_subst_product(powers: Map<Variable, int>, s: Seq<(Variable, ExprV)>) -> ExprV
    decreases s.len(),
{
    if s.len() == 0 {
        expr_one()
    } else {
        let prev = expr_subst_product(powers, s.drop_last());
        let v = s.last().0;
        if pw(powers, v) != 0 {
            expr_mul(prev, expr_pow(s.last().1, pw(powers, v)))
        } else {
            prev
        }
    }
}

pub open spec fn expr_subst_product_fits(powers: Map<Variable, int>, s: Seq<(Variable, ExprV)>) -> bool
    decreases s.len(),
{
    if s.len() == 0 {
        true
    } else {
        let prev = expr_subst_product(powers, s.drop_last());
        let v = s.last().0;
        &&& expr_subst_product_fits(powers, s.drop_last())
        &&& pw(powers, v) != 0 ==> {
            &&& expr_pow_fits(s.last().1, pw(powers, v))
            &&& expr_mul_fits(prev, expr_pow(s.last().1, pw(powers, v)))
        }
    }
}

/// Substituting several variables of a term by expressions at once.
pub open spec fn term_subst_many_expr(a: TermV, s: Seq<(Variable, ExprV)>) -> ExprV {
    expr_mul_term(expr_subst_product(a.0, s), (powers_without(a.0, s), a.1))
}

pub open spec fn term_subst_many_expr_fits(a: TermV, s: Seq<(Variable, ExprV)>) -> bool {
    &&& distinct_vars(s)
    &&& expr_subst_product_fits(a.0, s)
    &&& mul_term_fits(expr_subst_product(a.0, s), (powers_without(a.0, s), a.1))
}

/// The substitution applied to each listed term, the results summed in order.
pub open spec fn subst_many_seq(s: Seq<TermV>, subs: Seq<(Variable, ExprV)>) -> ExprV
    decreases s.len(),
{
    if s.len() == 0 {
        Map::empty()
    } else {
        expr_add(subst_many_seq(s.drop_last(), subs), term_subst_many_expr(s.last(), subs))
    }
}

pub open spec fn subst_many_seq_fits(s: Seq<TermV>, subs: Seq<(Variable, ExprV)>) -> bool
    decreases s.len(),
{
    if s.len() == 0 {
        true
    } else {
        &&& subst_many_seq_fits(s.drop_last(), subs)
        &&& term_subst_many_expr_fits(s.last(), subs)
        &&& expr_add_fits(subst_many_seq(s.drop_last(), subs), term_subst_many_expr(s.last(), subs))
    }
}

/// The views of a list of substitutions by expressions.
pub open spec fn expr_subst_views(s: Seq<(Variable, Expression)>) -> Seq<(Variable, ExprV)> {
    Seq::new(s.len(), |i: int| (s[i].0, s[i].1@))
}

pub proof fn lemma_subst_power_seq_fits_take(s: Seq<TermV>, v: Variable, power: int, e: ExprV, j: int)
    requires
        subst_power_seq_fits(s, v, power, e),
        0 <= j <= s.len(),
    ensures
        subst_power_seq_fits(s.take(j), v, power, e),
    decreases s.len(),
{
    if j == s.len() {
        assert(s.take(j) =~= s);
    } else {
        assert(s.drop_last().take(j) =~= s.take(j));
        lemma_subst_power_seq_fits_take(s.drop_last(), v, power, e, j);
    }
}

pub proof fn lemma_subst_many_seq_fits_take(s: Seq<TermV>, subs: Seq<(Variable, ExprV)>, j: int)
    requires
        subst_many_seq_fits(s, subs),
        0 <= j <= s.len(),
    ensures
        subst_many_seq_fits(s.take(j), subs),
    decreases s.len(),
{
    if j == s.len() {
        assert(s.take(j) =~= s);
    } else {
        assert(s.drop_last().take(j) =~= s.take(j));
        lemma_subst_many_seq_fits_take(s.drop_last(), subs, j);
    }
}

pub proof fn lemma_expr_subst_fits_take(powers: Map<Variable, int>, s: Seq<(Variable, ExprV)>, j: int)
    requires
        expr_subst_product_fits(powers, s),
        0 <= j <= s.len(),
    ensures
        expr_subst_product_fits(powers, s.take(j)),
    decreases s.len(),
{
    if j == s.len() {
        assert(s.take(j) =~= s);
    } else {
        assert(s.drop_last().take(j) =~= s.take(j));
        lemma_expr_subst_fits_take(powers, s.drop_last(), j);
    }
}

impl Term {
    /// Substitutes `variable^power` with an expression: the variable's power `p`
    /// is split as `p = q * power + r` and the term becomes `subst^q * variable^r * rest`.
    pub fn substitute_variable_power_with_expression(self, variable: Variable, power: i64, subst: Expression) -> (e: Expression)
        requires
            self.wf(),
            subst.wf(),
            term_subst_power_expr_fits(self@, variable, power as int, subst@),
        ensures
            e.wf(),
            e@ == term_subst_power_expr(self@, variable, power as int, subst@),
    {
        let current = self.get_power_of_variable(&variable);
        if current == 0 {
            return Expression::from_term(self);
        }
        let (q, r) = i64_div_rem(current, power);
        let mut rest = self;
        rest.set_power_of_variable(&variable, 0);
        let vr = variable.pow(r);
        subst.pow(q).mul_term(&vr).mul_term(&rest)
    }

    /// Substitutes several distinct variables with expressions: each occurring
    /// `v^p` is replaced by `value^p`, and the product multiplies the rest of the term.
    pub fn substitute_multiple_variables_with_expressions(self, substitutions: Vec<(Variable, Expression)>) -> (e: Expression)
        requires
            self.wf(),
            forall|i: int| 0 <= i < substitutions@.len() ==> (#[trigger] substitutions@[i]).1.wf(),
            term_subst_many_expr_fits(self@, expr_subst_views(substitutions@)),
        ensures
            e.wf(),
            e@ == term_subst_many_expr(self@, expr_subst_views(substitutions@)),
    {
        self.substitute_many_by_ref(&substitutions)
    }

    pub(crate) fn substitute_many_by_ref(self, substitutions: &Vec<(Variable, Expression)>) -> (e: Expression)
        requires
            self.wf(),
            forall|i: int| 0 <= i < substitutions@.len() ==> (#[trigger] substitutions@[i]).1.wf(),
            term_subst_many_expr_fits(self@, expr_subst_views(substitutions@)),
        ensures
            e.wf(),
            e@ == term_subst_many_expr(self@, expr_subst_views(substitutions@)),
    {
        let ghost a = self@;
        let ghost sv = expr_subst_views(substitutions@);
        proof {
            self.lemma_powers_nonzero();
        }
        let mut rest = self;
        let mut product = Expression::one();
        let mut i: usize = 0;
        proof {
            assert(sv.take(0) =~= Seq::<(Variable, ExprV)>::empty());
            assert(powers_without(a.0, sv.take(0)) =~= a.0);
        }
        while i < substitutions.len()
            invariant
                0 <= i <= substitutions.len(),
                valid_powers(a.0),
                sv == expr_subst_views(substitutions@),
                forall|k: int| 0 <= k < substitutions@.len() ==> (#[trigger] substitutions@[k]).1.wf(),
                term_subst_many_expr_fits(a, sv),
                rest.wf(),
                product.wf(),
                rest@ == (powers_without(a.0, sv.take(i as int)), a.1),
                product@ == expr_subst_product(a.0, sv.take(i as int)),
            decreases substitutions.len() - i,
        {
            let v = substitutions[i].0;
            let p = rest.get_power_of_variable(&v);
            proof {
                lemma_expr_subst_fits_take(a.0, sv, i + 1);
                assert(sv.take(i + 1).drop_last() =~= sv.take(i as int));
                assert(sv.take(i + 1).last() == sv[i as int]);
                assert(!subst_has(sv.take(i as int), v)) by {
                    if subst_has(sv.take(i as int), v) {
                        let k = choose|k: int| 0 <= k < sv.take(i as int).len() && #[trigger] sv.take(i as int)[k].0 == v;
                        assert(sv[k].0 == sv[i as int].0);
                    }
                }
                assert(p == pw(a.0, v));
            }
            let ghost pre = rest@.0;
            if p != 0 {
                let value = substitutions[i].1.copy();
                product = product.mul(value.pow(p));
                rest.set_power_of_variable(&v, 0);
            }
            proof {
                if p == 0 {
                    assert(!a.0.dom().contains(v));
                    assert(rest@.0 == pre);
                } else {
                    assert(rest@.0 == pre.remove(v));
                }
                assert forall|w: Variable| #[trigger] subst_has(sv.take(i + 1), w)
                    == (subst_has(sv.take(i as int), w) || w == v) by {
                    if subst_has(sv.take(i + 1), w) {
                        let k = choose|k: int| 0 <= k < sv.take(i + 1).len() && #[trigger] sv.take(i + 1)[k].0 == w;
                        if k < i {
                            assert(sv.take(i as int)[k].0 == w);
                        }
                    }
                    if subst_has(sv.take(i as int), w) {
                        let k = choose|k: int| 0 <= k < sv.take(i as int).len() && #[trigger] sv.take(i as int)[k].0 == w;
                        assert(sv.take(i + 1)[k].0 == w);
                    }
                    if w == v {
                        assert(sv.take(i + 1)[i as int].0 == w);
                    }
                }
                assert(rest@.0 =~= powers_without(a.0, sv.take(i + 1)));
            }
            i = i + 1;
        }
        proof {
            assert(sv.take(sv.len() as int) =~= sv);
        }
        product.mul_term(&rest)
    }
}

impl Term {
    /// Like `substitute_variable_power_with_expression`, but `None` where the
    /// replacement is undefined or would leave `i64`.
    pub fn checked_substitute_variable_power_with_expression(self, variable: Variable, power: i64, subst: Expression) -> (r: Option<Expression>)
        requires
            self.wf(),
            subst.wf(),
        ensures
            r is Some <==> term_subst_power_expr_fits(self@, variable, power as int, subst@),
            r matches Some(e) ==> e.wf() && e@ == term_subst_power_expr(self@, variable, power as int, subst@),
    {
        let ghost a = self@;
        let current = self.get_power_of_variable(&variable);
        if current == 0 {
            return Some(Expression::from_term(self));
        }
        if power == 0 || (current == i64::MIN && power == -1) {
            return None;
        }
        let (q, r) = i64_div_rem(current, power);
        if !subst.pow_fits_check(q) {
            return None;
        }
        let vt = Term::from_variable(variable);
        if !vt.pow_fits_check(r) {
            return None;
        }
        let vr = vt.pow(r);
        let powered = subst.pow(q);
        if !powered.mul_term_fits_check(&vr) {
            return None;
        }
        let m = powered.mul_term(&vr);
        let mut rest = self;
        rest.set_power_of_variable(&variable, 0);
        if !m.mul_term_fits_check(&rest) {
            return None;
        }
        Some(m.mul_term(&rest))
    }

    /// Whether no variable is listed twice.
    fn distinct_substitutions(substitutions: &Vec<(Variable, Expression)>) -> (b: bool)
        ensures
            b == distinct_vars(substitutions@),
    {
        let n = substitutions.len();
        let mut i: usize = 0;
        while i < n
            invariant
                0 <= i <= n,
                n == substitutions@.len(),
                forall|a: int, b: int| 0 <= a < i && a < b < n ==> #[trigger] substitutions@[a].0 != #[trigger] substitutions@[b].0,
            decreases n - i,
        {
            let mut j: usize = i + 1;
            while j < n
                invariant
                    i < n,
                    i + 1 <= j <= n,
                    n == substitutions@.len(),
                    forall|b: int| i < b < j ==> substitutions@[i as int].0 != #[trigger] substitutions@[b].0,
                decreases n - j,
            {
                if substitutions[i].0 == substitutions[j].0 {
                    return false;
                }
                j = j + 1;
            }
            i = i + 1;
        }
        true
    }

    /// Like `substitute_multiple_variables_with_expressions`, but `None` where a
    /// variable is listed twice or the result would leave `i64`.
    pub fn checked_substitute_multiple_variables_with_expressions(self, substitutions: Vec<(Variable, Expression)>) -> (r: Option<Expression>)
        requires
            self.wf(),
            forall|i: int| 0 <= i < substitutions@.len() ==> (#[trigger] substitutions@[i]).1.wf(),
        ensures
            r is Some <==> term_subst_many_expr_fits(self@, expr_subst_views(substitutions@)),
            r matches Some(e) ==> e.wf() && e@ == term_subst_many_expr(self@, expr_subst_views(substitutions@)),
    {
        self.checked_substitute_many_by_ref(&substitutions)
    }

    pub(crate) fn checked_substitute_many_by_ref(self, substitutions: &Vec<(Variable, Expression)>) -> (r: Option<Expression>)
        requires
            self.wf(),
            forall|i: int| 0 <= i < substitutions@.len() ==> (#[trigger] substitutions@[i]).1.wf(),
        ensures
            r is Some <==> term_subst_many_expr_fits(self@, expr_subst_views(substitutions@)),
            r matches Some(e) ==> e.wf() && e@ == term_subst_many_expr(self@, expr_subst_views(substitutions@)),
    {
        let ghost a = self@;
        let ghost sv = expr_subst_views(substitutions@);
        if !Term::distinct_substitutions(substitutions) {
            assert(!distinct_vars(sv)) by {
                let (x, y) = choose|x: int, y: int| 0 <= x < y < substitutions@.len()
                    && #[trigger] substitutions@[x].0 == #[trigger] substitutions@[y].0;
                assert(sv[x].0 == sv[y].0);
            }
            return None;
        }
        assert(distinct_vars(sv)) by {
            assert forall|x: int, y: int| 0 <= x < y < sv.len() implies #[trigger] sv[x].0 != #[trigger] sv[y].0 by {
                assert(substitutions@[x].0 != substitutions@[y].0);
            }
        }
        proof {
            self.lemma_powers_nonzero();
        }
        let mut rest = self;
        let mut product = Expression::one();
        let mut i: usize = 0;
        proof {
            assert(sv.take(0) =~= Seq::<(Variable, ExprV)>::empty());
            assert(powers_without(a.0, sv.take(0)) =~= a.0);
        }
        while i < substitutions.len()
            invariant
                0 <= i <= substitutions.len(),
                valid_powers(a.0),
                a == self@,
                sv == expr_subst_views(substitutions@),
                forall|k: int| 0 <= k < substitutions@.len() ==> (#[trigger] substitutions@[k]).1.wf(),
                distinct_vars(sv),
                expr_subst_product_fits(a.0, sv.take(i as int)),
                rest.wf(),
                product.wf(),
                rest@ == (powers_without(a.0, sv.take(i as int)), a.1),
                product@ == expr_subst_product(a.0, sv.take(i as int)),
            decreases substitutions.len() - i,
        {
            let v = substitutions[i].0;
            let p = rest.get_power_of_variable(&v);
            proof {
                assert(sv.take(i + 1).drop_last() =~= sv.take(i as int));
                assert(sv.take(i + 1).last() == sv[i as int]);
                assert(!subst_has(sv.take(i as int), v)) by {
                    if subst_has(sv.take(i as int), v) {
                        let k = choose|k: int| 0 <= k < sv.take(i as int).len() && #[trigger] sv.take(i as int)[k].0 == v;
                        assert(sv[k].0 == sv[i as int].0);
                    }
                }
                assert(p == pw(a.0, v));
            }
            let ghost pre = rest@.0;
            if p != 0 {
                let value = substitutions[i].1.copy();
                let powered = match value.checked_pow(p) {
                    Some(x) => x,
                    None => {
                        proof {
                            if expr_subst_product_fits(a.0, sv) {
                                lemma_expr_subst_fits_take(a.0, sv, i + 1);
                            }
                        }
                        return None;
                    },
                };
                product = match product.checked_mul(powered) {
                    Some(x) => x,
                    None => {
                        proof {
                            if expr_subst_product_fits(a.0, sv) {
                                lemma_expr_subst_fits_take(a.0, sv, i + 1);
                            }
                        }
                        return None;
                    },
                };
                rest.set_power_of_variable(&v, 0);
            }
            proof {
                if p == 0 {
                    assert(!a.0.dom().contains(v));
                    assert(rest@.0 == pre);
                } else {
                    assert(rest@.0 == pre.remove(v));
                }
                assert forall|w: Variable| #[trigger] subst_has(sv.take(i + 1), w)
                    == (subst_has(sv.take(i as int), w) || w == v) by {
                    if subst_has(sv.take(i + 1), w) {
                        let k = choose|k: int| 0 <= k < sv.take(i + 1).len() && #[trigger] sv.take(i + 1)[k].0 == w;
                        if k < i {
                            assert(sv.take(i as int)[k].0 == w);
                        }
                    }
                    if subst_has(sv.take(i as int), w) {
                        let k = choose|k: int| 0 <= k < sv.take(i as int).len() && #[trigger] sv.take(i as int)[k].0 == w;
                        assert(sv.take(i + 1)[k].0 == w);
                    }
                    if w == v {
                        assert(sv.take(i + 1)[i as int].0 == w);
                    }
                }
                assert(rest@.0 =~= powers_without(a.0, sv.take(i + 1)));
            }
            i = i + 1;
        }
        proof {
            assert(sv.take(sv.len() as int) =~= sv);
        }
        if !product.mul_term_fits_check(&rest) {
            return None;
        }
        Some(product.mul_term(&rest))
    }
}

impl Expression {
    /// Substitutes `variable^known_power` with `subst` in every term, summing the results.
    pub fn substitute_variable_power_with_expression(self, variable: Variable, known_power: i64, subst: Expression) -> (e: Expression)
        requires
            self.wf(),
            subst.wf(),
            subst_power_seq_fits(canonical_terms(self@), variable, known_power as int, subst@),
        ensures
            e.wf(),
            e@ == subst_power_seq(canonical_terms(self@), variable, known_power as int, subst@),
    {
        let ghost views = canonical_terms(self@);
        proof {
            self.lemma_canonical_terms();
            assert(views.take(0) =~= Seq::<TermV>::empty());
        }
        let terms = self.dissolve_into_terms();
        let mut acc = Expression::zero();
        let mut i: usize = 0;
        while i < terms.len()
            invariant
                0 <= i <= terms.len(),
                views == term_views(terms@),
                forall|k: int| 0 <= k < terms@.len() ==> (#[trigger] terms@[k]).wf(),
                subst.wf(),
                subst_power_seq_fits(views, variable, known_power as int, subst@),
                acc.wf(),
                acc@ == subst_power_seq(views.take(i as int), variable, known_power as int, subst@),
            decreases terms.len() - i,
        {
            proof {
                lemma_subst_power_seq_fits_take(views, variable, known_power as int, subst@, i + 1);
                assert(views.take(i + 1).drop_last() =~= views.take(i as int));
                assert(views.take(i + 1).last() == terms@[i as int]@);
            }
            let part = terms[i].copy().substitute_variable_power_with_expression(variable, known_power, subst.copy());
            acc = acc.add(part);
            i = i + 1;
        }
        proof {
            assert(views.take(views.len() as int) =~= views);
        }
        acc
    }

    /// Substitutes several distinct variables with expressions in every term, summing the results.
    pub fn substitute_multiple_variables_with_expressions(self, substitutions: Vec<(Variable, Expression)>) -> (e: Expression)
        requires
            self.wf(),
            forall|i: int| 0 <= i < substitutions@.len() ==> (#[trigger] substitutions@[i]).1.wf(),
            subst_many_seq_fits(canonical_terms(self@), expr_subst_views(substitutions@)),
        ensures
            e.wf(),
            e@ == subst_many_seq(canonical_terms(self@), expr_subst_views(substitutions@)),
    {
        let ghost views = canonical_terms(self@);
        let ghost subs = expr_subst_views(substitutions@);
        proof {
            self.lemma_canonical_terms();
            assert(views.take(0) =~= Seq::<TermV>::empty());
        }
        let terms = self.dissolve_into_terms();
        let mut acc = Expression::zero();
        let mut i: usize = 0;
        while i < terms.len()
            invariant
                0 <= i <= terms.len(),
                views == term_views(terms@),
                subs == expr_subst_views(substitutions@),
                forall|k: int| 0 <= k < terms@.len() ==> (#[trigger] terms@[k]).wf(),
                forall|k: int| 0 <= k < substitutions@.len() ==> (#[trigger] substitutions@[k]).1.wf(),
                subst_many_seq_fits(views, subs),
                acc.wf(),
                acc@ == subst_many_seq(views.take(i as int), subs),
            decreases terms.len() - i,
        {
            proof {
                lemma_subst_many_seq_fits_take(views, subs, i + 1);
                assert(views.take(i + 1).drop_last() =~= views.take(i as int));
                assert(views.take(i + 1).last() == terms@[i as int]@);
            }
            let part = terms[i].copy().substitute_many_by_ref(&substitutions);
            acc = acc.add(part);
            i = i + 1;
        }
        proof {
            assert(views.take(views.len() as int) =~= views);
        }
        acc
    }
}


impl Expression {
    /// Like `substitute_variable_power_with_expression`, but `None` where a
    /// replacement is undefined or a step would leave `i64`.
    pub fn checked_substitute_variable_power_with_expression(self, variable: Variable, known_power: i64, subst: Expression) -> (r: Option<Expression>)
        requires
            self.wf(),
            subst.wf(),
        ensures
            r is Some <==> subst_power_seq_fits(canonical_terms(self@), variable, known_power as int, subst@),
            r matches Some(e) ==> e.wf() && e@ == subst_power_seq(canonical_terms(self@), variable, known_power as int, subst@),
    {
        let ghost views = canonical_terms(self@);
        proof {
            self.lemma_canonical_terms();
            assert(views.take(0) =~= Seq::<TermV>::empty());
        }
        let terms = self.dissolve_into_terms();
        let mut acc = Expression::zero();
        let mut i: usize = 0;
        while i < terms.len()
            invariant
                0 <= i <= terms.len(),
                views == term_views(terms@),
                views == canonical_terms(self@),
                forall|k: int| 0 <= k < terms@.len() ==> (#[trigger] terms@[k]).wf(),
                subst.wf(),
                subst_power_seq_fits(views.take(i as int), variable, known_power as int, subst@),
                acc.wf(),
                acc@ == subst_power_seq(views.take(i as int), variable, known_power as int, subst@),
            decreases terms.len() - i,
        {
            proof {
                assert(views.take(i + 1).drop_last() =~= views.take(i as int));
                assert(views.take(i + 1).last() == terms@[i as int]@);
            }
            let part = match terms[i].copy().checked_substitute_variable_power_with_expression(variable, known_power, subst.copy()) {
                Some(x) => x,
                None => {
                    proof {
                        if subst_power_seq_fits(views, variable, known_power as int, subst@) {
                            lemma_subst_power_seq_fits_take(views, variable, known_power as int, subst@, i + 1);
                        }
                    }
                    return None;
                },
            };
            if !acc.add_fits_check(&part) {
                proof {
                    if subst_power_seq_fits(views, variable, known_power as int, subst@) {
                        lemma_subst_power_seq_fits_take(views, variable, known_power as int, subst@, i + 1);
                    }
                }
                return None;
            }
            acc = acc.add(part);
            i = i + 1;
        }
        proof {
            assert(views.take(views.len() as int) =~= views);
        }
        Some(acc)
    }

    /// Like `substitute_multiple_variables_with_expressions`, but `None` where a
    /// variable is listed twice or a step would leave `i64`.
    pub fn checked_substitute_multiple_variables_with_expressions(self, substitutions: Vec<(Variable, Expression)>) -> (r: Option<Expression>)
        requires
            self.wf(),
            forall|i: int| 0 <= i < substitutions@.len() ==> (#[trigger] substitutions@[i]).1.wf(),
        ensures
            r is Some <==> subst_many_seq_fits(canonical_terms(self@), expr_subst_views(substitutions@)),
            r matches Some(e) ==> e.wf() && e@ == subst_many_seq(canonical_terms(self@), expr_subst_views(substitutions@)),
    {
        let ghost views = canonical_terms(self@);
        let ghost subs = expr_subst_views(substitutions@);
        proof {
            self.lemma_canonical_terms();
            assert(views.take(0) =~= Seq::<TermV>::empty());
        }
        let terms = self.dissolve_into_terms();
        let mut acc = Expression::zero();
        let mut i: usize = 0;
        while i < terms.len()
            invariant
                0 <= i <= terms.len(),
                views == term_views(terms@),
                views == canonical_terms(self@),
                subs == expr_subst_views(substitutions@),
                forall|k: int| 0 <= k < terms@.len() ==> (#[trigger] terms@[k]).wf(),
                forall|k: int| 0 <= k < substitutions@.len() ==> (#[trigger] substitutions@[k]).1.wf(),
                subst_many_seq_fits(views.take(i as int), subs),
                acc.wf(),
                acc@ == subst_many_seq(views.take(i as int), subs),
            decreases terms.len() - i,
        {
            proof {
                assert(views.take(i + 1).drop_last() =~= views.take(i as int));
                assert(views.take(i + 1).last() == terms@[i as int]@);
            }
            let part = match terms[i].copy().checked_substitute_many_by_ref(&substitutions) {
                Some(x) => x,
                None => {
                    proof {
                        if subst_many_seq_fits(views, subs) {
                            lemma_subst_many_seq_fits_take(views, subs, i + 1);
                        }
                    }
                    return None;
                },
            };
            if !acc.add_fits_check(&part) {
                proof {
                    if subst_many_seq_fits(views, subs) {
                        lemma_subst_many_seq_fits_take(views, subs, i + 1);
                    }
                }
                return None;
            }
            acc = acc.add(part);
            i = i + 1;
        }
        proof {
            assert(views.take(views.len() as int) =~= views);
        }
        Some(acc)
    }
}

/// One term's part of an expression's text: its sign (`-` first, otherwise
/// ` + ` or ` - `) and the text of the term without sign.
pub open spec fn expr_entry_text(t: TermV, sympy: bool, first: bool) -> Seq<char> {
    if t.1.0 < 0 {
        (if first { seq!['-'] } else { seq![' ', '-', ' '] }) + term_text(pairs_of(t.0), rat_neg(t.1), sympy)
    } else {
        (if first { Seq::empty() } else { seq![' ', '+', ' '] }) + term_text(pairs_of(t.0), t.1, sympy)
    }
}

/// The text of the first `i` terms.
pub open spec fn expr_text_upto(ts: Seq<TermV>, sympy: bool, i: int) -> Seq<char>
    decreases i,
{
    if i <= 0 {
        Seq::empty()
    } else {
        expr_text_upto(ts, sympy, i - 1) + expr_entry_text(ts[i - 1], sympy, i == 1)
    }
}

/// The text of an expression: its terms in order, `0` when there are none.
pub open spec fn expr_text(m: ExprV, sympy: bool) -> Seq<char> {
    let ts = canonical_terms(m);
    if ts.len() == 0 {
        seq!['0']
    } else {
        expr_text_upto(ts, sympy, ts.len() as int)
    }
}

impl Expression {
    pub(crate) fn text(&self, sympy: bool) -> (s: String)
        requires
            self.wf(),
            !sympy ==> expr_displayable(self@),
        ensures
            s@ == expr_text(self@, sympy),
    {
        proof {
            self.lemma_canonical_terms();
        }
        if self.terms.len() == 0 {
            let s = "0".to_string();
            proof {
                reveal_strlit("0");
            }
            return s;
        }
        let ghost ts = term_views(self.terms@);
        let mut out = String::new();
        let mut i: usize = 0;
        while i < self.terms.len()
            invariant
                0 <= i <= self.terms.len(),
                ts == term_views(self.terms@),
                terms_wf(self.terms@),
                self.wf(),
                !sympy ==> expr_displayable(self@),
                out@ == expr_text_upto(ts, sympy, i as int),
            decreases self.terms.len() - i,
        {
            let t = &self.terms[i];
            let c = t.multiplier();
            let ghost before = out@;
            proof {
                lemma_pairs_of(*t);
                t.lemma_powers_nonzero();
                if !sympy {
                    lemma_terms_map_at(self.terms@, i as int);
                    crate::forms::term::lemma_pairs_displayable(t.pairs());
                }
            }
            if c.is_negative() {
                if i == 0 {
                    push_char(&mut out, '-');
                } else {
                    push_char(&mut out, ' ');
                    push_char(&mut out, '-');
                    push_char(&mut out, ' ');
                }
                let body = text_of(t.pairs_vec(), c.neg(), sympy);
                push_str(&mut out, body.as_str());
            } else {
                if i > 0 {
                    push_char(&mut out, ' ');
                    push_char(&mut out, '+');
                    push_char(&mut out, ' ');
                }
                let body = text_of(t.pairs_vec(), c, sympy);
                push_str(&mut out, body.as_str());
            }
            proof {
                assert(out@ =~= before + expr_entry_text(ts[i as int], sympy, i == 0));
            }
            i = i + 1;
        }
        out
    }

    /// The text of the expression, e.g. `-3 + x + (1/2)y²`.
    pub fn to_string(&self) -> (s: String)
        requires
            self.wf(),
            expr_displayable(self@),
        ensures
            s@ == expr_text(self@, false),
    {
        self.text(false)
    }

    /// Returns the expression's SymPy-compatible string representation.
    pub fn to_string_sympy(&self) -> (s: String)
        requires
            self.wf(),
        ensures
            s@ == expr_text(self@, true),
    {
        self.text(true)
    }
}

} // verus!
