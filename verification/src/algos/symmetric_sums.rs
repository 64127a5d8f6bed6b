//! The symmetric sum of a power pattern: every way of giving the powers to
//! distinct variables, normalized by the pattern's symmetry factor.

use vstd::prelude::*;
use itertools::Itertools;
use crate::rational::fits;
use crate::forms::variable::Variable;
use crate::forms::term::{Term, TermV, term_one, term_mul, term_mul_fits, term_pow, var_term};
use crate::forms::expression::{Expression, ExprV, expr_add_term, add_term_fits, expr_div_term, div_term_fits};
use crate::algos::patterns::symmetry_factor;
use crate::algos::elementary_symmetric_polynomials::{ElementarySymmetricPolynomials, symmetry_factor_for_pattern};

verus! {

/// The `k`-element orderings of distinct entries of `avail`, in lexicographic
/// order of their positions in `avail`.
pub open spec fn index_permutations(avail: Seq<int>, k: nat) -> Seq<Seq<int>>
    decreases k, avail.len() + 1,
{
    if k == 0 {
        seq![Seq::<int>::empty()]
    } else {
        permutations_from(avail, k, 0)
    }
}

/// The orderings of `index_permutations(avail, k)` whose first entry is at a
/// position of `avail` from `j` on.
pub open spec fn permutations_from(avail: Seq<int>, k: nat, j: int) -> Seq<Seq<int>>
    decreases k, avail.len() - j,
{
    if k == 0 || j < 0 || j >= avail.len() {
        Seq::empty()
    } else {
        index_permutations(avail.remove(j), (k - 1) as nat).map_values(|p: Seq<int>| seq![avail[j]] + p)
            + permutations_from(avail, k, j + 1)
    }
}

/// The `k`-permutations of the items: the items at each index list of
/// `index_permutations` over all positions, in that order.
pub open spec fn permutations_of(items: Seq<Variable>, k: nat) -> Seq<Seq<Variable>> {
    index_permutations(Seq::new(items.len(), |i: int| i), k).map_values(|c: Seq<int>| c.map_values(|i: int| items[i]))
}

/// `Itertools::permutations`: the `k`-permutations of the variables (by
/// position, equal values not merged), in lexicographic order of the positions,
/// each a new vector.
#[verifier::external_body]
fn variable_permutations(items: &Vec<Variable>, k: usize) -> (r: Vec<Vec<Variable>>)
    ensures
        Seq::new(r@.len(), |i: int| r@[i]@) == permutations_of(items@, k as nat),
{
    items.iter().copied().permutations(k).collect()
}

/// The `i`-th variable raised to the `i`-th power, multiplied onto 1 in order.
pub open spec fn powered_product(vs: Seq<Variable>, ps: Seq<i64>) -> TermV
    decreases vs.len(),
{
    if vs.len() == 0 {
        term_one()
    } else {
        term_mul(powered_product(vs.drop_last(), ps), term_pow(var_term(vs.last()), ps[vs.len() - 1] as int))
    }
}

/// Every power is an `i32` and every partial product stays in range.
pub open spec fn powered_product_fits(vs: Seq<Variable>, ps: Seq<i64>) -> bool
    decreases vs.len(),
{
    vs.len() == 0 || {
        &&& powered_product_fits(vs.drop_last(), ps)
        &&& i32::MIN <= ps[vs.len() - 1] <= i32::MAX
        &&& term_mul_fits(powered_product(vs.drop_last(), ps), term_pow(var_term(vs.last()), ps[vs.len() - 1] as int))
    }
}

/// The powered products of each ordering, added to 0 one after the other.
pub open spec fn powered_sum(cs: Seq<Seq<Variable>>, ps: Seq<i64>) -> ExprV
    decreases cs.len(),
{
    if cs.len() == 0 {
        Map::empty()
    } else {
        expr_add_term(powered_sum(cs.drop_last(), ps), powered_product(cs.last(), ps))
    }
}

pub open spec fn powered_sum_fits(cs: Seq<Seq<Variable>>, ps: Seq<i64>) -> bool
    decreases cs.len(),
{
    cs.len() == 0 || {
        &&& powered_sum_fits(cs.drop_last(), ps)
        &&& cs.last().len() <= ps.len()
        &&& powered_product_fits(cs.last(), ps)
        &&& add_term_fits(powered_sum(cs.drop_last(), ps), powered_product(cs.last(), ps))
    }
}

/// The symmetric sum of the pattern `ps` over the variables `vs`, divided by
/// the pattern's symmetry factor.
pub open spec fn symmetric_sum(vs: Seq<Variable>, ps: Seq<i64>) -> ExprV {
    expr_div_term(
        powered_sum(permutations_of(vs, ps.len()), ps),
        (Map::<Variable, int>::empty(), (symmetry_factor(ps) as int, 1int)),
    )
}

/// When building that sum stays in range.
pub open spec fn symmetric_sum_fits(vs: Seq<Variable>, ps: Seq<i64>) -> bool {
    &&& fits(symmetry_factor(ps) as int)
    &&& symmetry_factor(ps) <= usize::MAX
    &&& powered_sum_fits(permutations_of(vs, ps.len()), ps)
    &&& div_term_fits(
        powered_sum(permutations_of(vs, ps.len()), ps),
        (Map::<Variable, int>::empty(), (symmetry_factor(ps) as int, 1int)),
    )
}

proof fn lemma_powered_product_fits_take(vs: Seq<Variable>, ps: Seq<i64>, i: int)
    requires
        powered_product_fits(vs, ps),
        0 <= i <= vs.len(),
    ensures
        powered_product_fits(vs.take(i), ps),
    decreases vs.len() - i,
{
    if i == vs.len() {
        assert(vs.take(i) =~= vs);
    } else {
        lemma_powered_product_fits_take(vs, ps, i + 1);
        assert(vs.take(i + 1).drop_last() =~= vs.take(i));
    }
}

proof fn lemma_powered_sum_fits_take(cs: Seq<Seq<Variable>>, ps: Seq<i64>, i: int)
    requires
        powered_sum_fits(cs, ps),
        0 <= i <= cs.len(),
    ensures
        powered_sum_fits(cs.take(i), ps),
    decreases cs.len() - i,
{
    if i == cs.len() {
        assert(cs.take(i) =~= cs);
    } else {
        lemma_powered_sum_fits_take(cs, ps, i + 1);
        assert(cs.take(i + 1).drop_last() =~= cs.take(i));
    }
}

/// The variables raised to the matching powers, multiplied onto 1 in order.
fn powered_product_of(vs: &Vec<Variable>, ps: &Vec<i64>) -> (t: Term)
    requires
        vs@.len() <= ps@.len(),
        powered_product_fits(vs@, ps@),
    ensures
        t.wf(),
        t@ == powered_product(vs@, ps@),
{
    let mut acc = Term::one();
    let mut i: usize = 0;
    proof {
        assert(vs@.take(0) =~= Seq::<Variable>::empty());
    }
    while i < vs.len()
        invariant
            0 <= i <= vs.len(),
            vs@.len() <= ps@.len(),
            powered_product_fits(vs@, ps@),
            acc.wf(),
            acc@ == powered_product(vs@.take(i as int), ps@),
        decreases vs.len() - i,
    {
        proof {
            lemma_powered_product_fits_take(vs@, ps@, i + 1);
            assert(vs@.take(i + 1).drop_last() =~= vs@.take(i as int));
            assert(vs@.take(i + 1).last() == vs@[i as int]);
        }
        let factor = vs[i].pow(ps[i]);
        acc = acc.mul(factor);
        i = i + 1;
    }
    proof {
        assert(vs@.take(vs@.len() as int) =~= vs@);
    }
    acc
}

impl ElementarySymmetricPolynomials {
    /// Builds the normalized symmetric sum of an exponent pattern: every
    /// ordering of distinct variables raised to the pattern's powers, added up
    /// and divided by the pattern's symmetry factor.
    pub fn generate_symmetric_expression(&self, powers: &Vec<i64>) -> (e: Expression)
        requires
            symmetric_sum_fits(self.vars(), powers@),
        ensures
            e.wf(),
            e@ == symmetric_sum(self.vars(), powers@),
    {
        let common_factor = symmetry_factor_for_pattern(powers);
        let variables = self.variables();
        let orderings = variable_permutations(&variables, powers.len());
        let ghost cs = permutations_of(self.vars(), powers@.len());
        let mut sum = Expression::zero();
        let mut i: usize = 0;
        proof {
            assert(cs.take(0) =~= Seq::<Seq<Variable>>::empty());
        }
        while i < orderings.len()
            invariant
                0 <= i <= orderings.len(),
                cs == Seq::new(orderings@.len(), |x: int| orderings@[x]@),
                powered_sum_fits(cs, powers@),
                sum.wf(),
                sum@ == powered_sum(cs.take(i as int), powers@),
            decreases orderings.len() - i,
        {
            proof {
                lemma_powered_sum_fits_take(cs, powers@, i + 1);
                assert(cs.take(i + 1).drop_last() =~= cs.take(i as int));
                assert(cs.take(i + 1).last() == orderings@[i as int]@);
            }
            let t = powered_product_of(&orderings[i], powers);
            sum.add_term(t);
            i = i + 1;
        }
        proof {
            assert(cs.take(cs.len() as int) =~= cs);
        }
        let divisor = Term::from_integer(common_factor as i64);
        sum.div_term(&divisor)
    }
}

} // verus!
