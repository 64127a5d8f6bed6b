//! The least common multiple of a list of terms.

use vstd::prelude::*;
use crate::rational::{Rational, rat_zero, rat_one, rat_mul, mul_fits};
use crate::forms::variable::Variable;
use crate::forms::monomial::{mono_wf, power_in, mono_get, mono_set};
use crate::forms::term::{Term, TermV, pw, lemma_pw_mono_map, lemma_mono_map_eq, lemma_power_take, lemma_take_absent};
use crate::forms::expression::term_views;

verus! {

/// The larger of two powers, where 0 stands for a variable that does not occur.
pub open spec fn max_power(a: int, b: int) -> int {
    if a == 0 {
        b
    } else if b == 0 {
        a
    } else if a >= b {
        a
    } else {
        b
    }
}

/// Variable by variable, the larger power of the two maps (a variable in one
/// map only keeps its power there).
pub open spec fn powers_max(a: Map<Variable, int>, b: Map<Variable, int>) -> Map<Variable, int> {
    Map::new(|v: Variable| max_power(pw(a, v), pw(b, v)) != 0, |v: Variable| max_power(pw(a, v), pw(b, v)))
}

/// The largest power each variable takes among the terms in which it occurs.
pub open spec fn lcm_powers(s: Seq<TermV>) -> Map<Variable, int>
    decreases s.len(),
{
    if s.len() == 0 {
        Map::empty()
    } else {
        powers_max(lcm_powers(s.drop_last()), s.last().0)
    }
}

/// The product of the multipliers, accumulated from the first term on.
pub open spec fn multiplier_product(s: Seq<TermV>) -> (int, int)
    decreases s.len(),
{
    if s.len() == 0 {
        rat_one()
    } else {
        rat_mul(multiplier_product(s.drop_last()), s.last().1)
    }
}

/// Each partial product of the multipliers stays in `i64`.
pub open spec fn multiplier_product_fits(s: Seq<TermV>) -> bool
    decreases s.len(),
{
    s.len() == 0 || (multiplier_product_fits(s.drop_last()) && mul_fits(multiplier_product(s.drop_last()), s.last().1))
}

/// The lcm of terms: the largest power of each variable, times the product of
/// the multipliers; a zero product keeps no variables.
pub open spec fn term_lcm(s: Seq<TermV>) -> TermV {
    let c = multiplier_product(s);
    if c == rat_zero() {
        (Map::empty(), rat_zero())
    } else {
        (lcm_powers(s), c)
    }
}

/// The partial products of a list whose products fit, fit as well.
pub proof fn lemma_multiplier_product_fits_take(s: Seq<TermV>, i: int)
    requires
        multiplier_product_fits(s),
        0 <= i <= s.len(),
    ensures
        multiplier_product_fits(s.take(i)),
    decreases s.len() - i,
{
    if i == s.len() {
        assert(s.take(i) =~= s);
    } else {
        lemma_multiplier_product_fits_take(s, i + 1);
        assert(s.take(i + 1).drop_last() =~= s.take(i));
    }
}

impl Term {
    /// Compute LCM of terms: the maximum power of each variable across the
    /// terms in which it occurs, times the product of the multipliers.
    pub fn lcm(terms: Vec<Term>) -> (t: Term)
        requires
            forall|i: int| 0 <= i < terms@.len() ==> (#[trigger] terms@[i]).wf(),
            multiplier_product_fits(term_views(terms@)),
            forall|v: Variable| #[trigger] lcm_powers(term_views(terms@)).dom().contains(v)
                ==> i32::MIN <= lcm_powers(term_views(terms@))[v] <= i32::MAX,
        ensures
            t.wf(),
            t@ == term_lcm(term_views(terms@)),
    {
        let ghost s = term_views(terms@);
        let mut c = Rational::one();
        let mut vars: Vec<(Variable, i64)> = Vec::new();
        let mut i: usize = 0;
        while i < terms.len()
            invariant
                0 <= i <= terms.len(),
                s == term_views(terms@),
                forall|k: int| 0 <= k < terms@.len() ==> (#[trigger] terms@[k]).wf(),
                multiplier_product_fits(s),
                c.wf(),
                c@ == multiplier_product(s.take(i as int)),
                mono_wf(vars@),
                forall|w: Variable| #[trigger] power_in(vars@, w) == pw(lcm_powers(s.take(i as int)), w),
            decreases terms.len() - i,
        {
            let term = &terms[i];
            let ghost lp = lcm_powers(s.take(i as int));
            proof {
                lemma_multiplier_product_fits_take(s, i + 1);
                assert(s.take(i + 1).drop_last() =~= s.take(i as int));
                assert(s[i as int] == term@);
                term.lemma_powers_nonzero();
            }
            c = c.mul(term.multiplier());
            let pairs = term.pairs_vec();
            let mut j: usize = 0;
            while j < pairs.len()
                invariant
                    0 <= j <= pairs.len(),
                    mono_wf(vars@),
                    mono_wf(pairs@),
                    forall|w: Variable| #[trigger] power_in(vars@, w) == max_power(pw(lp, w), power_in(pairs@.take(j as int), w)),
                decreases pairs.len() - j,
            {
                let (v, p) = pairs[j];
                let cur = mono_get(&vars, &v);
                proof {
                    lemma_power_take(pairs@, j as int, v);
                    lemma_take_absent(pairs@, j as int);
                    assert forall|w: Variable| #[trigger] power_in(pairs@.take(j + 1), w)
                        == power_in(pairs@.take(j as int), w) + if w == v { p as int } else { 0 } by {
                        lemma_power_take(pairs@, j as int, w);
                    }
                }
                if cur == 0 || p > cur {
                    mono_set(&mut vars, v, p);
                }
                j = j + 1;
            }
            proof {
                assert(pairs@.take(pairs@.len() as int) =~= pairs@);
                assert forall|w: Variable| #[trigger] power_in(vars@, w) == pw(lcm_powers(s.take(i + 1)), w) by {
                    lemma_pw_mono_map(pairs@, w);
                }
            }
            i = i + 1;
        }
        proof {
            assert(s.take(s.len() as int) =~= s);
        }
        if c.is_zero() {
            Term::from_rational(c)
        } else {
            proof {
                lemma_mono_map_eq(vars@, lcm_powers(s));
            }
            Term::from_parts(vars, c)
        }
    }
}

} // verus!
