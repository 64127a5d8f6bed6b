//! Exponent patterns of terms with respect to a list of variables, and the
//! grouping of an expression's terms by pattern.

use vstd::prelude::*;
use crate::forms::variable::{Variable, var_lt, lemma_var_lt_irreflexive};
use crate::forms::monomial::mono_wf;
use crate::forms::term::{TermV, pairs_of, pw};
use crate::forms::expression::{ExprV, expr_add_term, add_term_fits};
use crate::algos::power_sums::{normalize, factorial};

verus! {

/// The powers, in the order of the pairs, of the pair variables that belong to `vs`.
pub open spec fn kept_powers(pairs: Seq<(Variable, i64)>, vs: Seq<Variable>) -> Seq<i64>
    decreases pairs.len(),
{
    if pairs.len() == 0 {
        Seq::empty()
    } else {
        let rest = kept_powers(pairs.drop_last(), vs);
        if vs.contains(pairs.last().0) { rest.push(pairs.last().1) } else { rest }
    }
}

/// The pair variables that belong to `vs`, in the order of the pairs.
pub open spec fn kept_vars(pairs: Seq<(Variable, i64)>, vs: Seq<Variable>) -> Seq<Variable>
    decreases pairs.len(),
{
    if pairs.len() == 0 {
        Seq::empty()
    } else {
        let rest = kept_vars(pairs.drop_last(), vs);
        if vs.contains(pairs.last().0) { rest.push(pairs.last().0) } else { rest }
    }
}

/// The exponent pattern of a monomial: the powers of the variables of `vs` that
/// occur in it, from the largest down.
pub open spec fn pattern_of(k: Map<Variable, int>, vs: Seq<Variable>) -> Seq<i64> {
    normalize(kept_powers(pairs_of(k), vs))
}

/// A term with the variables of `vs` taken out (its multiplier stays).
pub open spec fn residue_of(t: TermV, vs: Seq<Variable>) -> TermV {
    (Map::new(|v: Variable| t.0.dom().contains(v) && !vs.contains(v), |v: Variable| t.0[v]), t.1)
}

/// The number of the terms listed that have pattern `p` and residue `r`.
pub open spec fn count_matching(ts: Seq<TermV>, vs: Seq<Variable>, p: Seq<i64>, r: TermV) -> nat
    decreases ts.len(),
{
    if ts.len() == 0 {
        0
    } else {
        count_matching(ts.drop_last(), vs, p, r)
            + if pattern_of(ts.last().0, vs) == p && residue_of(ts.last(), vs) == r { 1nat } else { 0nat }
    }
}

/// `n! / (n - m)!`: the ordered choices of `m` of `n` variables.
pub open spec fn total_permutations(n: nat, m: nat) -> int {
    factorial(n) as int / factorial((n - m) as nat) as int
}

/// The product over the powers of a pattern of one plus the number of equal
/// powers before it: the product of the factorials of the multiplicities.
pub open spec fn symmetry_factor(p: Seq<i64>) -> nat {
    symmetry_factor_upto(p, p.len() as int)
}

/// The product of those factors for the first `i` powers.
pub open spec fn symmetry_factor_upto(p: Seq<i64>, i: int) -> nat
    decreases i,
{
    if i <= 0 {
        1
    } else {
        symmetry_factor_upto(p, i - 1) * (1 + equal_before(p, i - 1))
    }
}

/// How many powers before position `i` equal the one at `i`.
pub open spec fn equal_before(p: Seq<i64>, i: int) -> nat {
    equal_before_upto(p, i, i)
}

/// How many of the first `j` powers equal the one at `i`.
pub open spec fn equal_before_upto(p: Seq<i64>, i: int, j: int) -> nat
    decreases j,
{
    if j <= 0 {
        0
    } else {
        equal_before_upto(p, i, j - 1) + if p[j - 1] == p[i] { 1nat } else { 0nat }
    }
}

/// The partial products grow, from 1.
pub proof fn lemma_symmetry_factor_monotone(p: Seq<i64>, i: int, j: int)
    requires
        0 <= i <= j,
    ensures
        1 <= symmetry_factor_upto(p, i) <= symmetry_factor_upto(p, j),
    decreases j,
{
    if i < j {
        lemma_symmetry_factor_monotone(p, i, j - 1);
        let a = symmetry_factor_upto(p, j - 1);
        let b = 1 + equal_before(p, j - 1);
        assert(a * b >= a) by (nonlinear_arith)
            requires
                a >= 1,
                b >= 1;
    } else if i > 0 {
        lemma_symmetry_factor_monotone(p, i - 1, i - 1);
        let a = symmetry_factor_upto(p, i - 1);
        let b = 1 + equal_before(p, i - 1);
        assert(a * b >= 1) by (nonlinear_arith)
            requires
                a >= 1,
                b >= 1;
    }
}

/// How often a term of a symmetric expression recurs with the same residue in
/// a pattern: the ordered choices of the variables divided by the symmetry factor.
pub open spec fn expected_multiplicity(n: nat, p: Seq<i64>) -> int {
    total_permutations(n, p.len()) / symmetry_factor(p) as int
}

/// Every group of terms of the same pattern and residue occurs as often as
/// symmetry asks.
pub open spec fn is_symmetric_spec(ts: Seq<TermV>, vs: Seq<Variable>) -> bool {
    forall|p: Seq<i64>, r: TermV| #[trigger] count_matching(ts, vs, p, r) > 0
        ==> count_matching(ts, vs, p, r) == expected_multiplicity(vs.len(), p)
}

/// The kept variables are distinct, belong to `vs`, and match the kept powers one for one.
pub proof fn lemma_kept(pairs: Seq<(Variable, i64)>, vs: Seq<Variable>)
    requires
        mono_wf(pairs),
    ensures
        kept_vars(pairs, vs).len() == kept_powers(pairs, vs).len(),
        kept_vars(pairs, vs).no_duplicates(),
        forall|i: int| 0 <= i < kept_vars(pairs, vs).len() ==> vs.contains(#[trigger] kept_vars(pairs, vs)[i]),
        forall|i: int| 0 <= i < kept_vars(pairs, vs).len() ==> exists|j: int| 0 <= j < pairs.len() && pairs[j].0 == #[trigger] kept_vars(pairs, vs)[i],
    decreases pairs.len(),
{
    if pairs.len() > 0 {
        let d = pairs.drop_last();
        assert(mono_wf(d)) by {
            assert forall|a: int, b: int| 0 <= a < b < d.len() implies var_lt(#[trigger] d[a].0, #[trigger] d[b].0) by {
                assert(d[a] == pairs[a] && d[b] == pairs[b]);
            }
            assert forall|a: int| 0 <= a < d.len() implies #[trigger] d[a].1 != 0 by {
                assert(d[a] == pairs[a]);
            }
        }
        lemma_kept(d, vs);
        let kv = kept_vars(d, vs);
        let last = pairs.last().0;
        assert forall|i: int| 0 <= i < kv.len() implies #[trigger] kv[i] != last by {
            let j = choose|j: int| 0 <= j < d.len() && d[j].0 == kv[i];
            assert(d[j] == pairs[j]);
            assert(var_lt(pairs[j].0, pairs[pairs.len() - 1].0));
            if kv[i] == last {
                lemma_var_lt_irreflexive(last);
            }
        }
        assert forall|i: int| 0 <= i < kept_vars(pairs, vs).len() implies exists|j: int| 0 <= j < pairs.len() && pairs[j].0 == #[trigger] kept_vars(pairs, vs)[i] by {
            if i < kv.len() {
                let j = choose|j: int| 0 <= j < d.len() && d[j].0 == kv[i];
                assert(pairs[j] == d[j]);
            } else {
                assert(pairs[pairs.len() - 1].0 == last);
            }
        }
    }
}

/// A pattern has at most as many powers as there are (distinct) variables.
pub proof fn lemma_pattern_len(pairs: Seq<(Variable, i64)>, vs: Seq<Variable>)
    requires
        mono_wf(pairs),
        vs.no_duplicates(),
    ensures
        kept_powers(pairs, vs).len() <= vs.len(),
{
    lemma_kept(pairs, vs);
    let kv = kept_vars(pairs, vs);
    kv.unique_seq_to_set();
    vs.unique_seq_to_set();
    assert(kv.to_set().subset_of(vs.to_set())) by {
        assert forall|x: Variable| kv.to_set().contains(x) implies vs.to_set().contains(x) by {
            let i = choose|i: int| 0 <= i < kv.len() && kv[i] == x;
            assert(vs.contains(kv[i]));
        }
    }
    vstd::seq_lib::seq_to_set_is_finite(vs);
    vstd::set_lib::lemma_len_subset(kv.to_set(), vs.to_set());
}

/// The distinct (pattern, residue) pairs of the terms, in the order they first occur.
pub open spec fn first_pairs(ts: Seq<TermV>, vs: Seq<Variable>) -> Seq<(Seq<i64>, TermV)>
    decreases ts.len(),
{
    if ts.len() == 0 {
        Seq::empty()
    } else {
        let prev = first_pairs(ts.drop_last(), vs);
        let pr = (pattern_of(ts.last().0, vs), residue_of(ts.last(), vs));
        if prev.contains(pr) { prev } else { prev.push(pr) }
    }
}

/// The distinct patterns of the terms, in the order they first occur.
pub open spec fn first_patterns(ts: Seq<TermV>, vs: Seq<Variable>) -> Seq<Seq<i64>>
    decreases ts.len(),
{
    if ts.len() == 0 {
        Seq::empty()
    } else {
        let prev = first_patterns(ts.drop_last(), vs);
        let p = pattern_of(ts.last().0, vs);
        if prev.contains(p) { prev } else { prev.push(p) }
    }
}

/// A pair is listed exactly when some term has it; pairs and patterns are listed once.
pub proof fn lemma_first_pairs(ts: Seq<TermV>, vs: Seq<Variable>)
    ensures
        first_pairs(ts, vs).no_duplicates(),
        first_patterns(ts, vs).no_duplicates(),
        forall|pr: (Seq<i64>, TermV)| #[trigger] first_pairs(ts, vs).contains(pr) <==> count_matching(ts, vs, pr.0, pr.1) > 0,
        forall|pr: (Seq<i64>, TermV)| #[trigger] first_pairs(ts, vs).contains(pr) ==> first_patterns(ts, vs).contains(pr.0),
    decreases ts.len(),
{
    if ts.len() > 0 {
        lemma_first_pairs(ts.drop_last(), vs);
        let prev = first_pairs(ts.drop_last(), vs);
        let pr = (pattern_of(ts.last().0, vs), residue_of(ts.last(), vs));
        assert forall|q: (Seq<i64>, TermV)| #[trigger] first_pairs(ts, vs).contains(q) <==> count_matching(ts, vs, q.0, q.1) > 0 by {
            if first_pairs(ts, vs).contains(q) && !prev.contains(q) {
                let i = choose|i: int| 0 <= i < first_pairs(ts, vs).len() && first_pairs(ts, vs)[i] == q;
                assert(i == prev.len());
            }
            if prev.contains(q) {
                assert(first_pairs(ts, vs).contains(q)) by {
                    let i = choose|i: int| 0 <= i < prev.len() && prev[i] == q;
                    if !prev.contains(pr) {
                        assert(prev.push(pr)[i] == q);
                    }
                }
            }
            if q == pr && !prev.contains(pr) {
                assert(prev.push(pr)[prev.len() as int] == pr);
            }
        }
        let prevp = first_patterns(ts.drop_last(), vs);
        let p = pattern_of(ts.last().0, vs);
        assert forall|q: (Seq<i64>, TermV)| #[trigger] first_pairs(ts, vs).contains(q) implies first_patterns(ts, vs).contains(q.0) by {
            if prev.contains(q) {
                assert(prevp.contains(q.0));
                let i = choose|i: int| 0 <= i < prevp.len() && prevp[i] == q.0;
                if !prevp.contains(p) {
                    assert(prevp.push(p)[i] == q.0);
                }
            } else {
                assert(q == pr) by {
                    let i = choose|i: int| 0 <= i < first_pairs(ts, vs).len() && first_pairs(ts, vs)[i] == q;
                    assert(i == prev.len());
                }
                if !prevp.contains(p) {
                    assert(prevp.push(p)[prevp.len() as int] == p);
                }
            }
        }
    }
}

/// The sum of the distinct residues that have pattern `p`, over the first `j` pairs.
pub open spec fn partition_sum_upto(fp: Seq<(Seq<i64>, TermV)>, p: Seq<i64>, j: int) -> ExprV
    decreases j,
{
    if j <= 0 {
        Map::empty()
    } else if fp[j - 1].0 == p {
        expr_add_term(partition_sum_upto(fp, p, j - 1), fp[j - 1].1)
    } else {
        partition_sum_upto(fp, p, j - 1)
    }
}

pub open spec fn partition_sum_fits(fp: Seq<(Seq<i64>, TermV)>, p: Seq<i64>, j: int) -> bool
    decreases j,
{
    if j <= 0 {
        true
    } else if fp[j - 1].0 == p {
        partition_sum_fits(fp, p, j - 1) && add_term_fits(partition_sum_upto(fp, p, j - 1), fp[j - 1].1)
    } else {
        partition_sum_fits(fp, p, j - 1)
    }
}

/// The coefficient of a pattern in a symmetric expression: the sum of the
/// distinct residues of the terms with that pattern.
pub open spec fn partition_sum(ts: Seq<TermV>, vs: Seq<Variable>, p: Seq<i64>) -> ExprV {
    partition_sum_upto(first_pairs(ts, vs), p, first_pairs(ts, vs).len() as int)
}

pub proof fn lemma_partition_sum_fits_prefix(fp: Seq<(Seq<i64>, TermV)>, p: Seq<i64>, j: int, j2: int)
    requires
        partition_sum_fits(fp, p, j2),
        0 <= j <= j2,
    ensures
        partition_sum_fits(fp, p, j),
    decreases j2 - j,
{
    if j < j2 {
        lemma_partition_sum_fits_prefix(fp, p, j, j2 - 1);
    }
}

/// The smaller of two powers.
pub open spec fn min_of(a: int, b: int) -> int {
    if a <= b { a } else { b }
}

/// The smallest power of the variables `vs` in a monomial (absent ones count
/// as 0); 0 when there are no variables.
pub open spec fn min_power_over(k: Map<Variable, int>, vs: Seq<Variable>) -> int
    decreases vs.len(),
{
    if vs.len() == 0 {
        0
    } else if vs.len() == 1 {
        pw(k, vs[0])
    } else {
        min_of(min_power_over(k, vs.drop_last()), pw(k, vs.last()))
    }
}

/// The smallest of those minima over the terms; 0 when there are no terms.
pub open spec fn min_power_in(ts: Seq<TermV>, vs: Seq<Variable>) -> int
    decreases ts.len(),
{
    if ts.len() == 0 {
        0
    } else if ts.len() == 1 {
        min_power_over(ts[0].0, vs)
    } else {
        min_of(min_power_in(ts.drop_last(), vs), min_power_over(ts.last().0, vs))
    }
}

/// The checks that `is_symmetric` makes stay in range: `n!` fits a `usize`
/// when there are terms, and so does each pattern's symmetry factor.
pub open spec fn symmetry_check_fits(ts: Seq<TermV>, vs: Seq<Variable>) -> bool {
    &&& ts.len() > 0 ==> factorial(vs.len()) <= usize::MAX
    &&& forall|p: Seq<i64>| #[trigger] first_patterns(ts, vs).contains(p) ==> symmetry_factor(p) <= usize::MAX
}

/// The product of the variables raised to the power `e`, multiplied onto 1
/// one after the other.
pub open spec fn product_of_powers(vs: Seq<Variable>, e: int) -> TermV
    decreases vs.len(),
{
    if vs.len() == 0 {
        crate::forms::term::term_one()
    } else {
        crate::forms::term::term_mul(product_of_powers(vs.drop_last(), e),
            crate::forms::term::term_pow(crate::forms::term::var_term(vs.last()), e))
    }
}

pub open spec fn product_of_powers_fits(vs: Seq<Variable>, e: int) -> bool
    decreases vs.len(),
{
    vs.len() == 0 || {
        &&& product_of_powers_fits(vs.drop_last(), e)
        &&& crate::forms::term::term_mul_fits(product_of_powers(vs.drop_last(), e),
            crate::forms::term::term_pow(crate::forms::term::var_term(vs.last()), e))
    }
}

} // verus!
