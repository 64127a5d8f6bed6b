//! A small symbolic engine for rewriting symmetric expressions using elementary
//! symmetric polynomials: terms are grouped by their exponent pattern, the
//! groups are checked to be compatible with symmetry, and each pattern is
//! rewritten recursively with the Newton–Girard identities.

use vstd::prelude::*;
use itertools::Itertools;
use crate::forms::variable::Variable;
use crate::forms::term::{Term, TermV, term_mul, term_one, term_mul_fits, var_term};
use crate::forms::expression::{
    Expression, ExprV, expr_add_term, add_term_fits, expr_of_term, };
use crate::forms::polynomial::expr_views;
use crate::forms::term::{pw, lemma_pairs_of, lemma_powers_ext};
use crate::forms::expression::{canonical_terms, term_views};
use crate::algos::patterns::{
    pattern_of, residue_of, kept_powers, count_matching, first_pairs, first_patterns, lemma_first_pairs,
    lemma_pattern_len, symmetry_factor, symmetry_factor_upto, equal_before_upto, lemma_symmetry_factor_monotone,
    expected_multiplicity, is_symmetric_spec, symmetry_check_fits, partition_sum, partition_sum_upto,
    partition_sum_fits, lemma_partition_sum_fits_prefix, min_power_in, min_power_over, product_of_powers,
    product_of_powers_fits,
};
use crate::forms::expression::{
    expr_mul, expr_mul_fits, expr_mul_term, mul_term_fits, expr_pow, expr_pow_fits, expr_div_term, div_term_fits,
    expr_add, expr_add_fits, subst_many_seq, subst_many_seq_fits,
};
use crate::algos::power_sums::{ng_term, 
    power_sum, power_sum_fits, ng_sum, ng_sum_fits, ng_term_fits, ek_expr, e_var, sign_of,
    scalar, factorial, pattern_expr, pattern_minus, pattern_fits, pattern_minus_fits, normalize,
    lemma_normalize, sorted_descending, extend,
};

verus! {

/// The `k`-element index lists `lo <= i₁ < ... < iₖ < n`, in lexicographic order.
pub open spec fn index_combinations(lo: int, n: int, k: nat) -> Seq<Seq<int>>
    decreases k, n - lo,
{
    if k == 0 {
        seq![Seq::<int>::empty()]
    } else if lo >= n {
        Seq::empty()
    } else {
        index_combinations(lo + 1, n, (k - 1) as nat).map_values(|c: Seq<int>| seq![lo] + c)
            + index_combinations(lo + 1, n, k)
    }
}

/// The `k`-length combinations of the items: the items at each index list of
/// `index_combinations`, in that order.
pub open spec fn combinations_of(items: Seq<Variable>, k: nat) -> Seq<Seq<Variable>> {
    index_combinations(0, items.len() as int, k).map_values(|c: Seq<int>| c.map_values(|i: int| items[i]))
}

/// `Itertools::combinations`: the `k`-length combinations of the variables
/// (by position, equal values not merged), in lexicographic order of the
/// positions, each a new vector.
#[verifier::external_body]
fn variable_combinations(items: &Vec<Variable>, k: usize) -> (r: Vec<Vec<Variable>>)
    ensures
        Seq::new(r@.len(), |i: int| r@[i]@) == combinations_of(items@, k as nat),
{
    items.iter().copied().combinations(k).collect()
}

/// The product of the variables, multiplied onto 1 one after the other.
pub open spec fn product_of(vs: Seq<Variable>) -> TermV
    decreases vs.len(),
{
    if vs.len() == 0 {
        term_one()
    } else {
        term_mul(product_of(vs.drop_last()), var_term(vs.last()))
    }
}

pub open spec fn product_of_fits(vs: Seq<Variable>) -> bool
    decreases vs.len(),
{
    vs.len() == 0 || (product_of_fits(vs.drop_last()) && term_mul_fits(product_of(vs.drop_last()), var_term(vs.last())))
}

/// The sum of the products of each list of variables, added to 0 one after the other.
pub open spec fn sum_of_products(cs: Seq<Seq<Variable>>) -> ExprV
    decreases cs.len(),
{
    if cs.len() == 0 {
        Map::empty()
    } else {
        expr_add_term(sum_of_products(cs.drop_last()), product_of(cs.last()))
    }
}

pub open spec fn sum_of_products_fits(cs: Seq<Seq<Variable>>) -> bool
    decreases cs.len(),
{
    cs.len() == 0 || {
        &&& sum_of_products_fits(cs.drop_last())
        &&& product_of_fits(cs.last())
        &&& add_term_fits(sum_of_products(cs.drop_last()), product_of(cs.last()))
    }
}

/// The elementary symmetric polynomials `e₁ ... eₘ` of the listed variables
/// (repetitions included), as sums over the combinations.
pub open spec fn representations_of(vs: Seq<Variable>) -> Seq<ExprV> {
    Seq::new(vs.len(), |k: int| sum_of_products(combinations_of(vs, (k + 1) as nat)))
}

pub open spec fn representations_fit(vs: Seq<Variable>) -> bool {
    forall|k: int| 0 <= k < vs.len() ==> sum_of_products_fits(#[trigger] combinations_of(vs, (k + 1) as nat))
}

/// The distinct variables of a list, in the order they first occur.
pub open spec fn distinct_in_order(vs: Seq<Variable>) -> Seq<Variable>
    decreases vs.len(),
{
    if vs.len() == 0 {
        Seq::empty()
    } else {
        let d = distinct_in_order(vs.drop_last());
        if d.contains(vs.last()) { d } else { d.push(vs.last()) }
    }
}

/// The factor that clears negative powers before simplifying: when the
/// smallest power `m` of the variables is negative, `x₁^-m ... xₙ^-m eₙ^m`.
pub open spec fn clearing_factor(m: int, vs: Seq<Variable>) -> ExprV {
    expr_mul_term(expr_pow(ek_expr(vs.len() as int, vs.len() as int), m), product_of_powers(vs, -m))
}

/// The expression to simplify: the input times the clearing factor when the
/// smallest power is negative.
pub open spec fn cleared_input(input: ExprV, vs: Seq<Variable>) -> ExprV {
    let m = min_power_in(canonical_terms(input), vs);
    if m < 0 { expr_mul(input, clearing_factor(m, vs)) } else { input }
}

pub open spec fn cleared_input_fits(input: ExprV, vs: Seq<Variable>) -> bool {
    let m = min_power_in(canonical_terms(input), vs);
    m < 0 ==> {
        &&& -m <= i32::MAX
        &&& product_of_powers_fits(vs, -m)
        &&& expr_pow_fits(ek_expr(vs.len() as int, vs.len() as int), m)
        &&& mul_term_fits(expr_pow(ek_expr(vs.len() as int, vs.len() as int), m), product_of_powers(vs, -m))
        &&& expr_mul_fits(input, clearing_factor(m, vs))
    }
}

/// A pattern's part of the simplified expression: the sum of its residues
/// times its rewriting in `e₁ ... eₙ`, divided by its symmetry factor.
pub open spec fn pattern_contribution(ts: Seq<TermV>, vs: Seq<Variable>, p: Seq<i64>) -> ExprV {
    expr_div_term(expr_mul(partition_sum(ts, vs, p), pattern_expr(p, vs.len() as int)), scalar(symmetry_factor(p) as int))
}

pub open spec fn pattern_contribution_fits(ts: Seq<TermV>, vs: Seq<Variable>, p: Seq<i64>) -> bool {
    &&& symmetry_factor(p) <= i64::MAX
    &&& pattern_fits(p, vs.len() as int)
    &&& partition_sum_fits(first_pairs(ts, vs), p, first_pairs(ts, vs).len() as int)
    &&& expr_mul_fits(partition_sum(ts, vs, p), pattern_expr(p, vs.len() as int))
    &&& div_term_fits(expr_mul(partition_sum(ts, vs, p), pattern_expr(p, vs.len() as int)), scalar(symmetry_factor(p) as int))
}

/// The contribution of the `i`-th pattern fits.
pub open spec fn pattern_contribution_ok(ts: Seq<TermV>, vs: Seq<Variable>, i: int) -> bool {
    pattern_contribution_fits(ts, vs, first_patterns(ts, vs)[i])
}

/// The contributions of the first `j` patterns (in the order they first occur), summed.
pub open spec fn contributions_upto(ts: Seq<TermV>, vs: Seq<Variable>, j: int) -> ExprV
    decreases j,
{
    if j <= 0 {
        Map::empty()
    } else {
        expr_add(contributions_upto(ts, vs, j - 1), pattern_contribution(ts, vs, first_patterns(ts, vs)[j - 1]))
    }
}

pub open spec fn contributions_fit(ts: Seq<TermV>, vs: Seq<Variable>, j: int) -> bool
    decreases j,
{
    j <= 0 || {
        &&& contributions_fit(ts, vs, j - 1)
        &&& pattern_contribution_fits(ts, vs, first_patterns(ts, vs)[j - 1])
        &&& expr_add_fits(contributions_upto(ts, vs, j - 1), pattern_contribution(ts, vs, first_patterns(ts, vs)[j - 1]))
    }
}

/// What the rewriting builds in `e₁ ... eₙ` (before the substitutions): the input
/// cleared of negative powers by a power of `eₙ`, its terms grouped by power
/// pattern and residue, and each group's residue times `pattern_expr` of its
/// pattern, summed. That expanding the `eᵢ` in it gives back the input is not
/// proved here.
pub open spec fn symmetric_rewrite(input: ExprV, vs: Seq<Variable>) -> ExprV {
    let ts = canonical_terms(cleared_input(input, vs));
    contributions_upto(ts, vs, first_patterns(ts, vs).len() as int)
}

impl ElementarySymmetricPolynomials {
    /// The substitutions set for `e₁ ... eₖ`, in order of `k`.
    pub open spec fn substitution_list_upto(&self, k: int) -> Seq<(Variable, ExprV)>
        decreases k,
    {
        if k <= 0 {
            Seq::empty()
        } else {
            self.substitution_list_upto(k - 1) + match self.substitution(k) {
                Some(e) => seq![(e_var(k), e)],
                None => Seq::empty(),
            }
        }
    }

    /// When simplifying `input` stays in range and `input` (cleared of negative
    /// powers) is symmetric.
    pub open spec fn simplify_fits(&self, input: ExprV) -> bool {
        let vs = self.vars();
        let ts = canonical_terms(cleared_input(input, vs));
        &&& cleared_input_fits(input, vs)
        &&& symmetry_check_fits(ts, vs)
        &&& is_symmetric_spec(ts, vs)
        &&& contributions_fit(ts, vs, first_patterns(ts, vs).len() as int)
        &&& subst_many_seq_fits(canonical_terms(symmetric_rewrite(input, vs)), self.substitution_list_upto(self.count()))
    }
}

/// A tracker of elementary symmetric polynomials of a set of variables.
#[derive(Debug)]
pub struct ElementarySymmetricPolynomials {
    elementary_polynomial_representations: Vec<Expression>,
    elementary_polynomial_substitutions: Vec<Option<Expression>>,
    variables: Vec<Variable>,
    cache_power_sums: Vec<(i64, Expression)>,
}

impl ElementarySymmetricPolynomials {
    /// The distinct variables, in the order they were first given.
    pub closed spec fn vars(&self) -> Seq<Variable> {
        self.variables@
    }

    /// The number of distinct variables.
    pub open spec fn count(&self) -> int {
        self.vars().len() as int
    }

    /// The substitution set for `eₖ`, if any.
    pub closed spec fn substitution(&self, k: int) -> Option<ExprV> {
        if 1 <= k <= self.elementary_polynomial_substitutions@.len() {
            match self.elementary_polynomial_substitutions@[k - 1] {
                Some(e) => Some(e@),
                None => None,
            }
        } else {
            None
        }
    }

    /// `e₁, e₂, ...` written out in the variables.
    pub closed spec fn representations(&self) -> Seq<ExprV> {
        expr_views(self.elementary_polynomial_representations@)
    }

    /// Well-formed: distinct variables (fewer than `i64::MAX`), one substitution
    /// slot per variable, well-formed expressions, and a cache of power sums that
    /// holds `s₀`, `s₁`, `s₂` (as far as there are variables) and only correct values.
    pub closed spec fn wf(&self) -> bool {
        let n = self.variables@.len() as int;
        &&& forall|i: int, j: int| 0 <= i < j < n ==> self.variables@[i] != self.variables@[j]
        &&& n < i64::MAX
        &&& self.elementary_polynomial_substitutions@.len() == n
        &&& forall|k: int| 0 <= k < n ==> ((#[trigger] self.elementary_polynomial_substitutions@[k]) matches Some(e) ==> e.wf())
        &&& forall|k: int| 0 <= k < self.elementary_polynomial_representations@.len()
            ==> (#[trigger] self.elementary_polynomial_representations@[k]).wf()
        &&& forall|k: int| 0 <= k < self.cache_power_sums@.len() ==> (#[trigger] self.cache_power_sums@[k]).1.wf()
            && self.cache_power_sums@[k].1@ == power_sum(self.cache_power_sums@[k].0 as int, n)
        &&& cache_has(self.cache_power_sums@, 0)
        &&& n >= 1 ==> cache_has(self.cache_power_sums@, 1)
        &&& n >= 2 ==> cache_has(self.cache_power_sums@, 2)
    }

    /// What well-formedness gives callers.
    pub proof fn lemma_wf(&self)
        requires
            self.wf(),
        ensures
            self.count() < i64::MAX,
            forall|i: int, j: int| 0 <= i < j < self.count() ==> self.vars()[i] != self.vars()[j],
    {
    }

    /// Builds an elementary symmetric polynomial tracker from a collection of variables.
    /// The elementary symmetric polynomials of the variables, or `None` where
    /// forming them would leave `i64`.
    pub fn checked_from_variables(variables: &Vec<Variable>) -> (r: Option<ElementarySymmetricPolynomials>)
        ensures
            r is Some <==> (variables@.len() < i64::MAX && representations_fit(variables@)),
            r matches Some(e) ==> {
                &&& e.wf()
                &&& e.vars() == distinct_in_order(variables@)
                &&& e.representations() == representations_of(variables@)
                &&& forall|k: int| #[trigger] e.substitution(k) is None
            },
    {
        if (variables.len() as u128) < 0x7fff_ffff_ffff_ffffu128 && representations_fit_check(variables) {
            Some(ElementarySymmetricPolynomials::from_variables(variables))
        } else {
            None
        }
    }

    pub fn from_variables(variables: &Vec<Variable>) -> (r: ElementarySymmetricPolynomials)
        requires
            variables@.len() < i64::MAX,
            representations_fit(variables@),
        ensures
            r.wf(),
            r.vars() == distinct_in_order(variables@),
            r.representations() == representations_of(variables@),
            forall|k: int| #[trigger] r.substitution(k) is None,
    {
        let representations = generate_all_combinations(variables);
        let mut distinct: Vec<Variable> = Vec::new();
        let mut i: usize = 0;
        while i < variables.len()
            invariant
                0 <= i <= variables.len(),
                distinct@ == distinct_in_order(variables@.take(i as int)),
                distinct@.len() <= i,
                forall|a: int, b: int| 0 <= a < b < distinct@.len() ==> distinct@[a] != distinct@[b],
            decreases variables.len() - i,
        {
            let v = variables[i];
            proof {
                assert(variables@.take(i + 1).drop_last() =~= variables@.take(i as int));
                assert(variables@.take(i + 1).last() == v);
            }
            if !contains_variable(&distinct, &v) {
                distinct.push(v);
            }
            i = i + 1;
        }
        proof {
            assert(variables@.take(variables@.len() as int) =~= variables@);
        }
        let n = distinct.len();
        let mut substitutions: Vec<Option<Expression>> = Vec::new();
        while substitutions.len() < n
            invariant
                substitutions@.len() <= n,
                forall|k: int| 0 <= k < substitutions@.len() ==> #[trigger] substitutions@[k] is None,
            decreases n - substitutions.len(),
        {
            substitutions.push(None);
        }
        let mut cache: Vec<(i64, Expression)> = Vec::new();
        let count = Expression::from_term(Term::from_integer(n as i64));
        cache.push((0, count));
        if n >= 1 {
            let e1 = Expression::from_term(Term::from_variable(Variable::new('e', Some(1))));
            cache.push((1, e1));
        }
        if n >= 2 {
            let v1 = Variable::new('e', Some(1));
            let v2 = Variable::new('e', Some(2));
            let t1 = v1.pow(2);
            let e2_term = Term::from_variable(v2);
            let two = Term::from_integer(2);
            proof {
                crate::forms::term::lemma_rat_one_mul((2int, 1int));
                assert forall|w: Variable| #[trigger] crate::forms::monomial::i64_range(
                    crate::forms::term::pw(e2_term@.0, w) + crate::forms::term::pw(two@.0, w)) by {
                    if w == v2 {
                        assert(crate::forms::term::pw(e2_term@.0, w) == 1);
                    } else {
                        assert(crate::forms::term::pw(e2_term@.0, w) == 0);
                    }
                }
            }
            let t2 = e2_term.mul(two);
            proof {
                Variable::lemma_eq(v1, v2);
                assert(crate::forms::term::pw(t1@.0, v1) == 2);
                assert(crate::forms::term::pw(t2@.0, v1) == 0);
                assert(t1@.0 != t2@.0);
            }
            let e1_squared = Expression::from_term(t1);
            let two_e2 = Expression::from_term(t2);
            proof {
                assert(expr_of_term(t1@).dom().contains(t1@.0));
                assert forall|k: Map<Variable, int>| #[trigger] e1_squared@.dom().contains(k) implies k == t1@.0 by {}
                assert forall|k: Map<Variable, int>| #[trigger] crate::forms::expression::expr_neg(two_e2@).dom().contains(k) implies k == t2@.0 by {}
            }
            let s2 = e1_squared.sub(two_e2);
            cache.push((2, s2));
        }
        let r = ElementarySymmetricPolynomials {
            elementary_polynomial_representations: representations,
            elementary_polynomial_substitutions: substitutions,
            variables: distinct,
            cache_power_sums: cache,
        };
        proof {
            assert(r.cache_power_sums@[0].0 == 0);
            if n >= 1 {
                assert(r.cache_power_sums@[1].0 == 1);
            }
            if n >= 2 {
                assert(r.cache_power_sums@[2].0 == 2);
            }
        }
        r
    }

    /// The variables of the tracker.
    pub fn variables(&self) -> (r: Vec<Variable>)
        ensures
            r@ == self.vars(),
    {
        let mut r: Vec<Variable> = Vec::new();
        let mut i: usize = 0;
        while i < self.variables.len()
            invariant
                0 <= i <= self.variables.len(),
                r@ == self.variables@.take(i as int),
            decreases self.variables.len() - i,
        {
            r.push(self.variables[i]);
            proof {
                assert(self.variables@.take(i + 1) =~= self.variables@.take(i as int).push(self.variables@[i as int]));
            }
            i = i + 1;
        }
        proof {
            assert(self.variables@.take(self.variables@.len() as int) =~= self.variables@);
        }
        r
    }

    /// Sets the substitution for `eₖ`, the sum of all distinct products of `k`
    /// distinct variables; it is used when simplifying.
    pub fn set_ek_substitution_as(&mut self, k: usize, new_expression: Expression)
        requires
            old(self).wf(),
            1 <= k <= old(self).count(),
            new_expression.wf(),
        ensures
            final(self).wf(),
            final(self).vars() == old(self).vars(),
            final(self).representations() == old(self).representations(),
            final(self).substitution(k as int) == Some(new_expression@),
            forall|j: int| j != k ==> #[trigger] final(self).substitution(j) == old(self).substitution(j),
    {
        let ghost e = new_expression@;
        self.elementary_polynomial_substitutions.set(k - 1, Some(new_expression));
        proof {
            assert forall|j: int| j != k implies #[trigger] self.substitution(j) == old(self).substitution(j) by {
                if 1 <= j <= self.elementary_polynomial_substitutions@.len() {
                    assert(self.elementary_polynomial_substitutions@[j - 1] == old(self).elementary_polynomial_substitutions@[j - 1]);
                }
            }
        }
    }

    /// Gets the substitution for `eₖ` set by `set_ek_substitution_as`.
    pub fn get_ek_substitution(&self, k: usize) -> (e: &Expression)
        requires
            self.wf(),
            self.substitution(k as int) is Some,
        ensures
            e.wf(),
            Some(e@) == self.substitution(k as int),
    {
        match &self.elementary_polynomial_substitutions[k - 1] {
            Some(e) => e,
            None => {
                proof {
                    assert(false);
                }
                &self.elementary_polynomial_representations[0]
            },
        }
    }

    /// `eₖ` written out in the variables given to `from_variables`.
    pub fn get_ek_original_representation(&self, k: usize) -> (e: &Expression)
        requires
            self.wf(),
            1 <= k <= self.representations().len(),
        ensures
            e.wf(),
            e@ == self.representations()[k - 1],
    {
        &self.elementary_polynomial_representations[k - 1]
    }

    /// Number of variables which make up the ESP.
    pub fn variable_count(&self) -> (n: usize)
        ensures
            n == self.count(),
    {
        self.variables.len()
    }

    /// Whether this variable is part of the ESP variables.
    pub fn is_variable_present(&self, variable: &Variable) -> (b: bool)
        ensures
            b == self.vars().contains(*variable),
    {
        contains_variable(&self.variables, variable)
    }
}

/// Whether the cache holds an entry for `k`.
pub open spec fn cache_has(c: Seq<(i64, Expression)>, k: int) -> bool {
    exists|i: int| 0 <= i < c.len() && #[trigger] c[i].0 == k
}

/// Whether `v` occurs in the list.
fn contains_variable(vs: &Vec<Variable>, v: &Variable) -> (b: bool)
    ensures
        b == vs@.contains(*v),
{
    let mut i: usize = 0;
    while i < vs.len()
        invariant
            0 <= i <= vs.len(),
            forall|k: int| 0 <= k < i ==> vs@[k] != *v,
        decreases vs.len() - i,
    {
        if vs[i] == *v {
            proof {
                assert(vs@[i as int] == *v);
            }
            return true;
        }
        i = i + 1;
    }
    false
}

/// The product of the variables, multiplied onto 1 one after the other.
fn product_of_variables(vs: &Vec<Variable>) -> (t: Term)
    requires
        product_of_fits(vs@),
    ensures
        t.wf(),
        t@ == product_of(vs@),
{
    let mut t = Term::one();
    let mut i: usize = 0;
    proof {
        assert(vs@.take(0) =~= Seq::<Variable>::empty());
    }
    while i < vs.len()
        invariant
            0 <= i <= vs.len(),
            product_of_fits(vs@),
            t.wf(),
            t@ == product_of(vs@.take(i as int)),
        decreases vs.len() - i,
    {
        proof {
            lemma_product_of_fits_take(vs@, i + 1);
            assert(vs@.take(i + 1).drop_last() =~= vs@.take(i as int));
            assert(vs@.take(i + 1).last() == vs@[i as int]);
        }
        t = t.mul(Term::from_variable(vs[i]));
        i = i + 1;
    }
    proof {
        assert(vs@.take(vs@.len() as int) =~= vs@);
    }
    t
}

pub proof fn lemma_product_of_fits_take(vs: Seq<Variable>, i: int)
    requires
        product_of_fits(vs),
        0 <= i <= vs.len(),
    ensures
        product_of_fits(vs.take(i)),
    decreases vs.len() - i,
{
    if i == vs.len() {
        assert(vs.take(i) =~= vs);
    } else {
        lemma_product_of_fits_take(vs, i + 1);
        assert(vs.take(i + 1).drop_last() =~= vs.take(i));
    }
}

pub proof fn lemma_sum_of_products_fits_take(cs: Seq<Seq<Variable>>, i: int)
    requires
        sum_of_products_fits(cs),
        0 <= i <= cs.len(),
    ensures
        sum_of_products_fits(cs.take(i)),
    decreases cs.len() - i,
{
    if i == cs.len() {
        assert(cs.take(i) =~= cs);
    } else {
        lemma_sum_of_products_fits_take(cs, i + 1);
        assert(cs.take(i + 1).drop_last() =~= cs.take(i));
    }
}

/// The product of the variables, or `None` where forming it would leave `i64`.
fn checked_product_of_variables(vs: &Vec<Variable>) -> (r: Option<Term>)
    ensures
        r is Some <==> product_of_fits(vs@),
        r matches Some(t) ==> t.wf() && t@ == product_of(vs@),
{
    let mut t = Term::one();
    let mut i: usize = 0;
    proof {
        assert(vs@.take(0) =~= Seq::<Variable>::empty());
    }
    while i < vs.len()
        invariant
            0 <= i <= vs.len(),
            product_of_fits(vs@.take(i as int)),
            t.wf(),
            t@ == product_of(vs@.take(i as int)),
        decreases vs.len() - i,
    {
        proof {
            assert(vs@.take(i + 1).drop_last() =~= vs@.take(i as int));
            assert(vs@.take(i + 1).last() == vs@[i as int]);
        }
        let v = Term::from_variable(vs[i]);
        if !t.mul_fits_check(&v) {
            proof {
                if product_of_fits(vs@) {
                    lemma_product_of_fits_take(vs@, i + 1);
                }
            }
            return None;
        }
        t = t.mul(v);
        i = i + 1;
    }
    proof {
        assert(vs@.take(vs@.len() as int) =~= vs@);
    }
    Some(t)
}

/// Whether the elementary symmetric polynomials of the listed variables can be
/// formed without leaving `i64` (what `from_variables` requires of them).
fn representations_fit_check(variables: &Vec<Variable>) -> (b: bool)
    ensures
        b == representations_fit(variables@),
{
    let mut k: usize = 0;
    while k < variables.len()
        invariant
            0 <= k <= variables.len(),
            forall|j: int| 0 <= j < k ==> sum_of_products_fits(#[trigger] combinations_of(variables@, (j + 1) as nat)),
        decreases variables.len() - k,
    {
        let combinations = variable_combinations(variables, k + 1);
        let ghost cs = combinations_of(variables@, (k + 1) as nat);
        proof {
            assert(cs.take(0) =~= Seq::<Seq<Variable>>::empty());
        }
        let mut sum = Expression::zero();
        let mut i: usize = 0;
        while i < combinations.len()
            invariant
                0 <= i <= combinations.len(),
                k < variables.len(),
                cs == combinations_of(variables@, (k + 1) as nat),
                cs == Seq::new(combinations@.len(), |x: int| combinations@[x]@),
                sum_of_products_fits(cs.take(i as int)),
                sum.wf(),
                sum@ == sum_of_products(cs.take(i as int)),
            decreases combinations.len() - i,
        {
            proof {
                assert(cs.take(i + 1).drop_last() =~= cs.take(i as int));
                assert(cs.take(i + 1).last() == combinations@[i as int]@);
            }
            let t = match checked_product_of_variables(&combinations[i]) {
                Some(t) => t,
                None => {
                    proof {
                        if sum_of_products_fits(cs) {
                            lemma_sum_of_products_fits_take(cs, i + 1);
                        }
                        assert(!representations_fit(variables@)) by {
                            assert(!sum_of_products_fits(combinations_of(variables@, (k + 1) as nat)));
                        }
                    }
                    return false;
                },
            };
            if !sum.term_add_fits(&t) {
                proof {
                    if sum_of_products_fits(cs) {
                        lemma_sum_of_products_fits_take(cs, i + 1);
                    }
                    assert(!representations_fit(variables@)) by {
                        assert(!sum_of_products_fits(combinations_of(variables@, (k + 1) as nat)));
                    }
                }
                return false;
            }
            sum.add_term(t);
            i = i + 1;
        }
        proof {
            assert(cs.take(cs.len() as int) =~= cs);
        }
        k = k + 1;
    }
    proof {
        assert forall|j: int| 0 <= j < variables@.len() implies sum_of_products_fits(#[trigger] combinations_of(variables@, (j + 1) as nat)) by {
        }
    }
    true
}

/// The elementary symmetric polynomials `e₁ ... eₘ` of the listed variables, each
/// the sum of the products of its combinations.
fn generate_all_combinations(variables: &Vec<Variable>) -> (r: Vec<Expression>)
    requires
        representations_fit(variables@),
    ensures
        expr_views(r@) == representations_of(variables@),
        forall|k: int| 0 <= k < r@.len() ==> (#[trigger] r@[k]).wf(),
{
    let mut r: Vec<Expression> = Vec::new();
    let mut k: usize = 0;
    while k < variables.len()
        invariant
            0 <= k <= variables.len(),
            representations_fit(variables@),
            r@.len() == k,
            forall|j: int| 0 <= j < k ==> (#[trigger] r@[j]).wf() && r@[j]@ == sum_of_products(combinations_of(variables@, (j + 1) as nat)),
        decreases variables.len() - k,
    {
        let combinations = variable_combinations(variables, k + 1);
        let ghost cs = combinations_of(variables@, (k + 1) as nat);
        proof {
            assert(sum_of_products_fits(cs));
            assert(cs.take(0) =~= Seq::<Seq<Variable>>::empty());
        }
        let mut sum = Expression::zero();
        let mut i: usize = 0;
        while i < combinations.len()
            invariant
                0 <= i <= combinations.len(),
                cs == Seq::new(combinations@.len(), |x: int| combinations@[x]@),
                sum_of_products_fits(cs),
                sum.wf(),
                sum@ == sum_of_products(cs.take(i as int)),
            decreases combinations.len() - i,
        {
            proof {
                lemma_sum_of_products_fits_take(cs, i + 1);
                assert(cs.take(i + 1).drop_last() =~= cs.take(i as int));
                assert(cs.take(i + 1).last() == combinations@[i as int]@);
            }
            let t = product_of_variables(&combinations[i]);
            sum.add_term(t);
            i = i + 1;
        }
        proof {
            assert(cs.take(cs.len() as int) =~= cs);
        }
        r.push(sum);
        k = k + 1;
    }
    proof {
        assert(expr_views(r@) =~= representations_of(variables@));
    }
    r
}

/// `(-1)^k`.
fn minus_1_pow(k: i64) -> (r: i64)
    ensures
        r as int == sign_of(k as int),
{
    if k % 2 == 0 { 1 } else { -1 }
}

/// `k!`.
fn factorial_of(num: usize) -> (r: usize)
    requires
        factorial(num as nat) <= usize::MAX,
    ensures
        r as nat == factorial(num as nat),
{
    let mut r: usize = 1;
    let mut i: usize = 0;
    while i < num
        invariant
            0 <= i <= num,
            factorial(num as nat) <= usize::MAX,
            r as nat == factorial(i as nat),
        decreases num - i,
    {
        i = i + 1;
        proof {
            lemma_factorial_monotone(i as nat, num as nat);
            assert(factorial(i as nat) == i * factorial((i - 1) as nat));
            assert(r * i == i * r) by (nonlinear_arith);
        }
        r = r * i;
    }
    r
}

/// `n <= n!`.
pub proof fn lemma_factorial_at_least(n: nat)
    ensures
        n <= factorial(n),
    decreases n,
{
    if n > 0 {
        lemma_factorial_monotone((n - 1) as nat, (n - 1) as nat);
        assert(n * factorial((n - 1) as nat) >= n) by (nonlinear_arith)
            requires
                factorial((n - 1) as nat) >= 1;
    }
}

/// Factorials grow.
pub proof fn lemma_factorial_monotone(i: nat, j: nat)
    requires
        i <= j,
    ensures
        factorial(i) <= factorial(j),
        factorial(i) >= 1,
    decreases j,
{
    if j > 0 && i < j {
        lemma_factorial_monotone(i, (j - 1) as nat);
        assert(factorial(j) == j * factorial((j - 1) as nat));
        assert(j * factorial((j - 1) as nat) >= factorial((j - 1) as nat)) by (nonlinear_arith)
            requires
                j >= 1,
                factorial((j - 1) as nat) >= 1;
    } else if j > 0 {
        lemma_factorial_monotone((j - 1) as nat, (j - 1) as nat);
        assert(j * factorial((j - 1) as nat) >= 1) by (nonlinear_arith)
            requires
                j >= 1,
                factorial((j - 1) as nat) >= 1;
    }
}

/// The Newton–Girard sum fits up to `j` when it fits up to a later `j2`.
pub proof fn lemma_ng_sum_fits_prefix(k: int, j: int, j2: int, n: int)
    requires
        ng_sum_fits(k, j2, n),
        1 <= j <= j2 <= k,
    ensures
        ng_sum_fits(k, j, n),
    decreases j2 - j,
{
    if j < j2 {
        lemma_ng_sum_fits_prefix(k, j, j2 - 1, n);
    }
}

/// Each power sum below `sₖ` (from `s₁`) fits when `sₖ` does.
pub proof fn lemma_power_sum_fits_below(k: int, m: int, n: int)
    requires
        power_sum_fits(k, n),
        1 <= m < k,
    ensures
        power_sum_fits(m, n),
{
    if !(k == 2 && n >= 2) {
        let i = k - m;
        lemma_ng_sum_fits_prefix(k, i + 1, k, n);
        assert(ng_term_fits(k, i, n));
    }
}

/// The pattern subtraction fits up to `j` when it fits up to a later `j2`.
pub proof fn lemma_pattern_minus_fits_prefix(left: Seq<i64>, r: i64, n: int, j: int, j2: int)
    requires
        pattern_minus_fits(left, r, n, j2),
        0 <= j <= j2 <= left.len(),
    ensures
        pattern_minus_fits(left, r, n, j),
    decreases j2 - j,
{
    if j < j2 {
        lemma_pattern_minus_fits_prefix(left, r, n, j, j2 - 1);
    }
}

impl ElementarySymmetricPolynomials {
    /// `eₖ` as an expression: 1 for `k = 0`, the variable `eₖ` for `1 <= k <= n`,
    /// and 0 otherwise.
    pub fn ek_as_variable_expression(&self, k: i64) -> (e: Expression)
        requires
            self.wf(),
        ensures
            e.wf(),
            e@ == ek_expr(k as int, self.count()),
    {
        if k == 0 {
            Expression::one()
        } else if k > 0 && k <= self.variables.len() as i64 {
            let v = Variable::new('e', Some(k));
            Expression::from_term(Term::from_variable(v))
        } else {
            Expression::zero()
        }
    }

    /// The cached power sum `sₖ`, if there is one.
    fn cached_power_sum(&self, k: i64) -> (r: Option<Expression>)
        requires
            self.wf(),
        ensures
            r matches Some(e) ==> e.wf() && e@ == power_sum(k as int, self.count()),
            r is None ==> !cache_has(self.cache_power_sums@, k as int),
    {
        let mut i: usize = 0;
        while i < self.cache_power_sums.len()
            invariant
                0 <= i <= self.cache_power_sums.len(),
                self.wf(),
                forall|j: int| 0 <= j < i ==> self.cache_power_sums@[j].0 != k,
            decreases self.cache_power_sums.len() - i,
        {
            if self.cache_power_sums[i].0 == k {
                return Some(self.cache_power_sums[i].1.copy());
            }
            i = i + 1;
        }
        None
    }

    /// The power sum `sₖ` of the variables in terms of `e₁ ... eₙ`, by the
    /// Newton–Girard recurrence; computed values are cached.
    pub fn get_sk_using_newton_girard_formula(&mut self, k: i64) -> (r: Expression)
        requires
            old(self).wf(),
            power_sum_fits(k as int, old(self).count()),
        ensures
            final(self).wf(),
            final(self).vars() == old(self).vars(),
            final(self).representations() == old(self).representations(),
            forall|j: int| #[trigger] final(self).substitution(j) == old(self).substitution(j),
            r.wf(),
            r@ == power_sum(k as int, old(self).count()),
        decreases k,
    {
        let ghost n = self.count();
        if let Some(cached_value) = self.cached_power_sum(k) {
            return cached_value;
        }
        proof {
            assert(k != 0);
            if n >= 1 {
                assert(k != 1);
            }
            if n >= 2 {
                assert(k != 2);
            }
            assert(power_sum_fits(k as int, n));
            if k < 0 {
                assert(k > i64::MIN);
            } else {
                assert(ng_sum_fits(k as int, k as int, n));
            }
        }
        let sign_for_k = minus_1_pow(k - 1);
        let c: i64 = if sign_for_k == 1 { k } else { -k };
        proof {
            assert(c as int == sign_of(k - 1) * k);
            if k >= 1 {
                lemma_ng_sum_fits_prefix(k as int, 1, k as int, n);
            }
        }
        let mut output = self.ek_as_variable_expression(k).mul_term(&Term::from_integer(c));
        let mut i: i64 = 1;
        proof {
            assert(output@ == ng_sum(k as int, 1, n));
        }
        while i < k
            invariant
                1 <= i,
                i <= k || k < 1,
                self.wf(),
                self.vars() == old(self).vars(),
                self.representations() == old(self).representations(),
                forall|j: int| #[trigger] self.substitution(j) == old(self).substitution(j),
                n == self.count(),
                !cache_has(old(self).cache_power_sums@, k as int),
                power_sum_fits(k as int, n),
                k >= 1 ==> ng_sum_fits(k as int, k as int, n),
                output.wf(),
                output@ == ng_sum(k as int, i as int, n),
            decreases k - i,
        {
            proof {
                lemma_ng_sum_fits_prefix(k as int, i + 1, k as int, n);
                assert(ng_term_fits(k as int, i as int, n));
            }
            let sign_for_i = minus_1_pow(i - 1);
            let elementary_i = self.ek_as_variable_expression(i);
            let signed = elementary_i.mul_term(&Term::from_integer(sign_for_i));
            let sk = self.get_sk_using_newton_girard_formula(k - i);
            output = output.add(signed.mul(sk));
            i = i + 1;
        }
        proof {
            if k >= 1 {
                assert(i == k);
            }
        }
        let ghost before = self.cache_power_sums@;
        let ghost pre = *self;
        self.cache_power_sums.push((k, output.copy()));
        proof {
            assert(self.elementary_polynomial_substitutions@ == pre.elementary_polynomial_substitutions@);
            assert forall|j: int| #[trigger] self.substitution(j) == old(self).substitution(j) by {
                assert(pre.substitution(j) == old(self).substitution(j));
                assert(self.substitution(j) == pre.substitution(j));
            }
            assert(self.cache_power_sums@.last().0 == k);
            assert forall|x: int| cache_has(before, x) implies cache_has(self.cache_power_sums@, x) by {
                let j = choose|j: int| 0 <= j < before.len() && #[trigger] before[j].0 == x;
                assert(self.cache_power_sums@[j] == before[j]);
            }
        }
        output
    }

    /// Like `get_sk_using_newton_girard_formula`, but `None` where a step of the
    /// recurrence would leave `i64`. The power sums below `sₖ` are computed in
    /// turn, once each; nothing is added to the cache.
    pub fn checked_sk_using_newton_girard_formula(&self, k: i64) -> (r: Option<Expression>)
        requires
            self.wf(),
        ensures
            r is Some <==> power_sum_fits(k as int, self.count()),
            r matches Some(e) ==> e.wf() && e@ == power_sum(k as int, self.count()),
    {
        let ghost n = self.count();
        if k < 1 {
            let none: Vec<Expression> = Vec::new();
            return self.checked_sk_step(k, &none);
        }
        let mut vals: Vec<Expression> = Vec::new();
        let mut m: i64 = 1;
        while m < k
            invariant
                1 <= m <= k,
                self.wf(),
                n == self.count(),
                vals@.len() == m - 1,
                forall|j: int| 0 <= j < vals@.len() ==> (#[trigger] vals@[j]).wf()
                    && vals@[j]@ == power_sum(j + 1, n) && power_sum_fits(j + 1, n),
            decreases k - m,
        {
            let v = match self.checked_sk_step(m, &vals) {
                Some(x) => x,
                None => {
                    proof {
                        if power_sum_fits(k as int, n) {
                            lemma_power_sum_fits_below(k as int, m as int, n);
                        }
                    }
                    return None;
                },
            };
            vals.push(v);
            m = m + 1;
        }
        self.checked_sk_step(k, &vals)
    }

    /// One step of the checked recurrence: `sₖ` from `s₁ ... sₖ₋₁` (given, and
    /// each computed within `i64`), or `None` where it would leave `i64`.
    fn checked_sk_step(&self, k: i64, vals: &Vec<Expression>) -> (r: Option<Expression>)
        requires
            self.wf(),
            k >= 1 ==> vals@.len() == k - 1,
            forall|j: int| 0 <= j < vals@.len() ==> (#[trigger] vals@[j]).wf()
                && vals@[j]@ == power_sum(j + 1, self.count()) && power_sum_fits(j + 1, self.count()),
        ensures
            r is Some <==> power_sum_fits(k as int, self.count()),
            r matches Some(e) ==> e.wf() && e@ == power_sum(k as int, self.count()),
    {
        let ghost n = self.count();
        let count = self.variables.len();
        if k == 0 || (k == 1 && count >= 1) || (k == 2 && count >= 2) {
            match self.cached_power_sum(k) {
                Some(e) => {
                    return Some(e);
                },
                None => {
                    return None;
                },
            }
        }
        if k == i64::MIN {
            return None;
        }
        proof {
            if k > 0 {
                assert(power_sum(k as int, n) == ng_sum(k as int, k as int, n));
                assert(power_sum_fits(k as int, n) == ng_sum_fits(k as int, k as int, n));
            }
        }
        let sign_for_k = minus_1_pow(k - 1);
        let c: i64 = if sign_for_k == 1 { k } else { -k };
        proof {
            if sign_for_k == 1 {
                assert(c as int == sign_of(k - 1) * k);
            } else {
                assert(sign_of(k - 1) == -1);
                assert(c as int == sign_of(k - 1) * k);
            }
            assert(count == n);
        }
        let first = self.ek_as_variable_expression(k);
        let ct = Term::from_integer(c);
        if !first.mul_term_fits_check(&ct) {
            proof {
                if k > 0 && power_sum_fits(k as int, n) {
                    lemma_ng_sum_fits_prefix(k as int, 1, k as int, n);
                }
            }
            return None;
        }
        let mut output = first.mul_term(&ct);
        if k < 0 {
            return Some(output);
        }
        let mut i: i64 = 1;
        proof {
            assert(output@ == ng_sum(k as int, 1, n));
        }
        while i < k
            invariant
                1 <= i <= k,
                self.wf(),
                n == self.count(),
                vals@.len() == k - 1,
                forall|j: int| 0 <= j < vals@.len() ==> (#[trigger] vals@[j]).wf()
                    && vals@[j]@ == power_sum(j + 1, n) && power_sum_fits(j + 1, n),
                power_sum(k as int, n) == ng_sum(k as int, k as int, n),
                power_sum_fits(k as int, n) == ng_sum_fits(k as int, k as int, n),
                ng_sum_fits(k as int, i as int, n),
                output.wf(),
                output@ == ng_sum(k as int, i as int, n),
            decreases k - i,
        {
            proof {
                if power_sum_fits(k as int, n) {
                    lemma_ng_sum_fits_prefix(k as int, i + 1, k as int, n);
                }
            }
            let sign_for_i = minus_1_pow(i - 1);
            let elementary_i = self.ek_as_variable_expression(i);
            let st = Term::from_integer(sign_for_i);
            if !elementary_i.mul_term_fits_check(&st) {
                proof {
                    if power_sum_fits(k as int, n) {
                        assert(ng_term_fits(k as int, i as int, n));
                    }
                }
                return None;
            }
            let signed = elementary_i.mul_term(&st);
            let l = vals.len();
            proof {
                assert(0 <= k - i - 1 < vals@.len());
                assert(i <= l);
            }
            let idx = l - (i as usize);
            let sk = vals[idx].copy();
            proof {
                assert(idx as int + 1 == k - i);
                assert(vals@[idx as int]@ == power_sum(k - i, n));
                assert(power_sum_fits(k - i, n));
            }
            let product = match signed.checked_mul(sk) {
                Some(x) => x,
                None => {
                    proof {
                        if power_sum_fits(k as int, n) {
                            assert(ng_term_fits(k as int, i as int, n));
                        }
                    }
                    return None;
                },
            };
            proof {
                assert(signed@ == crate::forms::expression::expr_mul_term(ek_expr(i as int, n), scalar(sign_of(i - 1))));
                assert(ng_term_fits(k as int, i as int, n));
                assert(product@ == ng_term(k as int, i as int, n));
            }
            output = match output.checked_add(product) {
                Some(x) => x,
                None => {
                    return None;
                },
            };
            proof {
                assert(ng_sum_fits(k as int, i + 1, n));
            }
            i = i + 1;
        }
        Some(output)
    }

    /// Rewrites a power pattern into an expression built from elementary
    /// symmetric polynomials (see `pattern_expr`).
    pub fn expression_for_power_pattern(&mut self, pattern: &Vec<i64>) -> (r: Expression)
        requires
            old(self).wf(),
            pattern_fits(pattern@, old(self).count()),
        ensures
            final(self).wf(),
            final(self).vars() == old(self).vars(),
            final(self).representations() == old(self).representations(),
            forall|j: int| #[trigger] final(self).substitution(j) == old(self).substitution(j),
            r.wf(),
            r@ == pattern_expr(pattern@, old(self).count()),
        decreases pattern@.len(),
    {
        let ghost n = self.count();
        let normalized = sorted_descending(copy_powers(pattern));
        proof {
            lemma_normalize(pattern@);
        }
        let len = normalized.len();
        if len == 0 {
            Expression::one()
        } else if len == 1 {
            self.get_sk_using_newton_girard_formula(normalized[0])
        } else if normalized[0] == normalized[len - 1] && normalized[0] == 1 {
            proof {
                lemma_factorial_at_least(len as nat);
            }
            let f = factorial_of(len);
            let e = self.ek_as_variable_expression(len as i64);
            e.mul_term(&Term::from_integer(f as i64))
        } else {
            let split_index = len - 1;
            let left = take_powers(&normalized, split_index);
            let mut right: Vec<i64> = Vec::new();
            right.push(normalized[split_index]);
            let ghost q = normalize(pattern@);
            let ghost rr = q[len - 1];
            proof {
                assert(left@ == q.take(len - 1));
                assert(right@ =~= seq![rr]);
                lemma_pattern_minus_fits_prefix(left@, rr, n, 0, len - 1);
            }
            let a = self.expression_for_power_pattern(&left);
            let b = self.expression_for_power_pattern(&right);
            let mut output = a.mul(b);
            let mut index: usize = 0;
            while index < left.len()
                invariant
                    0 <= index <= left.len(),
                    left@.len() == len - 1,
                    len == pattern@.len(),
                    left@.len() >= 1,
                    left@ == q.take(len - 1),
                    right@ == seq![rr],
                    self.wf(),
                    self.vars() == old(self).vars(),
                    self.representations() == old(self).representations(),
                    forall|j: int| #[trigger] self.substitution(j) == old(self).substitution(j),
                    n == self.count(),
                    pattern_minus_fits(left@, rr, n, len - 1),
                    output.wf(),
                    output@ == pattern_minus(left@, rr, n, index as int),
                decreases left.len() - index,
            {
                proof {
                    lemma_pattern_minus_fits_prefix(left@, rr, n, index + 1, len - 1);
                }
                let mut extended_left = take_powers(&left, left.len());
                let raised = extended_left[index] + right[0];
                extended_left.set(index, raised);
                proof {
                    assert(extended_left@ == extend(left@, index as int, rr));
                }
                let e = self.expression_for_power_pattern(&extended_left);
                output = output.sub(e);
                index = index + 1;
            }
            output
        }
    }
}

impl ElementarySymmetricPolynomials {
    /// Like `expression_for_power_pattern`, but `None` where a step would leave
    /// `i64` (or a factorial would not fit a `usize`). Nothing is added to the cache.
    pub fn checked_expression_for_power_pattern(&self, pattern: &Vec<i64>) -> (r: Option<Expression>)
        requires
            self.wf(),
        ensures
            r is Some <==> pattern_fits(pattern@, self.count()),
            r matches Some(e) ==> e.wf() && e@ == pattern_expr(pattern@, self.count()),
        decreases pattern@.len(),
    {
        let ghost n = self.count();
        let normalized = sorted_descending(copy_powers(pattern));
        proof {
            lemma_normalize(pattern@);
        }
        let len = normalized.len();
        if len == 0 {
            Some(Expression::one())
        } else if len == 1 {
            self.checked_sk_using_newton_girard_formula(normalized[0])
        } else if normalized[0] == normalized[len - 1] && normalized[0] == 1 {
            let f = match checked_factorial(len) {
                Some(f) => f,
                None => {
                    return None;
                },
            };
            if f as u64 > 0x7fff_ffff_ffff_ffffu64 {
                return None;
            }
            proof {
                lemma_factorial_at_least(len as nat);
            }
            let e = self.ek_as_variable_expression(len as i64);
            let ft = Term::from_integer(f as i64);
            if !e.mul_term_fits_check(&ft) {
                return None;
            }
            Some(e.mul_term(&ft))
        } else {
            let split_index = len - 1;
            let left = take_powers(&normalized, split_index);
            let mut right: Vec<i64> = Vec::new();
            right.push(normalized[split_index]);
            let ghost q = normalize(pattern@);
            let ghost rr = q[len - 1];
            proof {
                assert(left@ == q.take(len - 1));
                assert(right@ =~= seq![rr]);
                assert(pattern_fits(pattern@, n) == pattern_minus_fits(left@, rr, n, len - 1));
                if pattern_fits(pattern@, n) {
                    lemma_pattern_minus_fits_prefix(left@, rr, n, 0, len - 1);
                }
            }
            let a = match self.checked_expression_for_power_pattern(&left) {
                Some(x) => x,
                None => {
                    return None;
                },
            };
            let b = match self.checked_expression_for_power_pattern(&right) {
                Some(x) => x,
                None => {
                    return None;
                },
            };
            let mut output = match a.checked_mul(b) {
                Some(x) => x,
                None => {
                    return None;
                },
            };
            proof {
                assert(pattern_minus_fits(left@, rr, n, 0));
                assert(output@ == pattern_minus(left@, rr, n, 0));
            }
            let mut index: usize = 0;
            while index < left.len()
                invariant
                    0 <= index <= left.len(),
                    left@.len() == len - 1,
                    len == pattern@.len(),
                    left@.len() >= 1,
                    left@ == q.take(len - 1),
                    right@ == seq![rr],
                    self.wf(),
                    n == self.count(),
                    pattern_fits(pattern@, n) == pattern_minus_fits(left@, rr, n, len - 1),
                    pattern_expr(pattern@, n) == pattern_minus(left@, rr, n, len - 1),
                    pattern_minus_fits(left@, rr, n, index as int),
                    output.wf(),
                    output@ == pattern_minus(left@, rr, n, index as int),
                decreases left.len() - index,
            {
                proof {
                    if pattern_fits(pattern@, n) {
                        lemma_pattern_minus_fits_prefix(left@, rr, n, index + 1, len - 1);
                    }
                }
                let mut extended_left = take_powers(&left, left.len());
                let wide: i128 = extended_left[index] as i128 + right[0] as i128;
                if wide < -0x8000_0000_0000_0000i128 || wide > 0x7fff_ffff_ffff_ffffi128 {
                    return None;
                }
                let raised = extended_left[index] + right[0];
                extended_left.set(index, raised);
                proof {
                    assert(extended_left@ == extend(left@, index as int, rr));
                }
                let e = match self.checked_expression_for_power_pattern(&extended_left) {
                    Some(x) => x,
                    None => {
                        return None;
                    },
                };
                output = match output.checked_sub(e) {
                    Some(x) => x,
                    None => {
                        return None;
                    },
                };
                proof {
                    assert(pattern_minus_fits(left@, rr, n, index + 1));
                }
                index = index + 1;
            }
            Some(output)
        }
    }
}

/// `k!`, or `None` where it does not fit a `usize`.
fn checked_factorial(num: usize) -> (r: Option<usize>)
    ensures
        r is Some <==> factorial(num as nat) <= usize::MAX,
        r matches Some(f) ==> f as nat == factorial(num as nat),
{
    let mut r: usize = 1;
    let mut i: usize = 0;
    while i < num
        invariant
            0 <= i <= num,
            r as nat == factorial(i as nat),
        decreases num - i,
    {
        i = i + 1;
        proof {
            assert(factorial(i as nat) == i * factorial((i - 1) as nat));
            assert(r * i == i * r) by (nonlinear_arith);
        }
        r = match r.checked_mul(i) {
            Some(x) => x,
            None => {
                proof {
                    lemma_factorial_monotone(i as nat, num as nat);
                }
                return None;
            },
        };
    }
    Some(r)
}

/// A copy of a list of powers.
fn copy_powers(v: &Vec<i64>) -> (r: Vec<i64>)
    ensures
        r@ == v@,
{
    take_powers(v, v.len())
}

/// The first `n` powers of a list.
fn take_powers(v: &Vec<i64>, n: usize) -> (r: Vec<i64>)
    requires
        n <= v@.len(),
    ensures
        r@ == v@.take(n as int),
{
    let mut r: Vec<i64> = Vec::new();
    let mut i: usize = 0;
    while i < n
        invariant
            0 <= i <= n,
            n <= v@.len(),
            r@ == v@.take(i as int),
        decreases n - i,
    {
        r.push(v[i]);
        proof {
            assert(v@.take(i + 1) =~= v@.take(i as int).push(v@[i as int]));
        }
        i = i + 1;
    }
    r
}

/// The views of a list of power lists.
pub open spec fn pattern_views(s: Seq<Vec<i64>>) -> Seq<Seq<i64>> {
    Seq::new(s.len(), |i: int| s[i]@)
}

/// The grouping of the terms: the patterns as found, and one entry per
/// distinct (pattern, residue) with the pattern's index, the residue and how
/// many terms have both.
pub open spec fn grouping_ok(patterns: Seq<Vec<i64>>, entries: Seq<(usize, Term, usize)>, ts: Seq<TermV>, vs: Seq<Variable>) -> bool {
    &&& pattern_views(patterns) == first_patterns(ts, vs)
    &&& entries.len() == first_pairs(ts, vs).len()
    &&& forall|a: int| 0 <= a < patterns.len() ==> (#[trigger] patterns[a])@.len() <= vs.len()
    &&& forall|x: int| 0 <= x < entries.len() ==> {
        &&& (#[trigger] entries[x]).0 < patterns.len()
        &&& entries[x].1.wf()
        &&& (patterns[entries[x].0 as int]@, entries[x].1@) == first_pairs(ts, vs)[x]
        &&& entries[x].2 as int == count_matching(ts, vs, first_pairs(ts, vs)[x].0, first_pairs(ts, vs)[x].1)
    }
}

/// No pattern can be matched by more terms than there are.
pub proof fn lemma_count_matching_bound(ts: Seq<TermV>, vs: Seq<Variable>, p: Seq<i64>, r: TermV)
    ensures
        count_matching(ts, vs, p, r) <= ts.len(),
    decreases ts.len(),
{
    if ts.len() > 0 {
        lemma_count_matching_bound(ts.drop_last(), vs, p, r);
    }
}

/// Two lists of powers are equal.
fn same_powers(a: &Vec<i64>, b: &Vec<i64>) -> (r: bool)
    ensures
        r == (a@ == b@),
{
    if a.len() != b.len() {
        return false;
    }
    let mut i: usize = 0;
    while i < a.len()
        invariant
            0 <= i <= a.len(),
            a@.len() == b@.len(),
            forall|k: int| 0 <= k < i ==> a@[k] == b@[k],
        decreases a.len() - i,
    {
        if a[i] != b[i] {
            return false;
        }
        i = i + 1;
    }
    proof {
        assert(a@ =~= b@);
    }
    true
}

/// The entry of pattern index `a` with residue `residue`.
fn find_entry(entries: &Vec<(usize, Term, usize)>, a: usize, residue: &Term) -> (r: Option<usize>)
    requires
        residue.wf(),
        forall|y: int| 0 <= y < entries@.len() ==> (#[trigger] entries@[y]).1.wf(),
    ensures
        r matches Some(x) ==> x < entries@.len() && entries@[x as int].0 == a && entries@[x as int].1@ == residue@,
        r is None ==> forall|y: int| 0 <= y < entries@.len() ==> !((#[trigger] entries@[y]).0 == a && entries@[y].1@ == residue@),
{
    let mut x: usize = 0;
    while x < entries.len()
        invariant
            0 <= x <= entries.len(),
            residue.wf(),
            forall|y: int| 0 <= y < entries@.len() ==> (#[trigger] entries@[y]).1.wf(),
            forall|y: int| 0 <= y < x ==> !((#[trigger] entries@[y]).0 == a && entries@[y].1@ == residue@),
        decreases entries.len() - x,
    {
        let e = &entries[x];
        proof {
            e.1.lemma_same_as(residue);
        }
        if e.0 == a && e.1.equals(residue) {
            return Some(x);
        }
        x = x + 1;
    }
    None
}

/// The index of a list of powers among the patterns.
fn find_pattern(patterns: &Vec<Vec<i64>>, p: &Vec<i64>) -> (r: Option<usize>)
    ensures
        r matches Some(a) ==> a < patterns@.len() && patterns@[a as int]@ == p@,
        r is None ==> forall|a: int| 0 <= a < patterns@.len() ==> (#[trigger] patterns@[a])@ != p@,
{
    let mut i: usize = 0;
    while i < patterns.len()
        invariant
            0 <= i <= patterns.len(),
            forall|a: int| 0 <= a < i ==> (#[trigger] patterns@[a])@ != p@,
        decreases patterns.len() - i,
    {
        if same_powers(&patterns[i], p) {
            return Some(i);
        }
        i = i + 1;
    }
    None
}

impl ElementarySymmetricPolynomials {
    /// The variables have no duplicates.
    proof fn lemma_vars_distinct(&self)
        requires
            self.wf(),
        ensures
            self.vars().no_duplicates(),
    {
        assert forall|i: int, j: int| 0 <= i < self.vars().len() && 0 <= j < self.vars().len() && i != j
            implies self.vars()[i] != self.vars()[j] by {
            if i > j {
                assert(self.variables@[j] != self.variables@[i]);
            }
        }
    }

    /// The exponent pattern of a term: the powers of the tracker's variables in
    /// it, from the largest down.
    fn power_pattern_for_term(&self, term: &Term) -> (r: Vec<i64>)
        requires
            self.wf(),
            term.wf(),
        ensures
            r@ == pattern_of(term@.0, self.vars()),
            r@.len() <= self.count(),
    {
        let pairs = term.pairs_vec();
        let mut powers: Vec<i64> = Vec::new();
        let mut i: usize = 0;
        proof {
            assert(pairs@.take(0) =~= Seq::<(Variable, i64)>::empty());
        }
        while i < pairs.len()
            invariant
                0 <= i <= pairs.len(),
                self.wf(),
                powers@ == kept_powers(pairs@.take(i as int), self.vars()),
            decreases pairs.len() - i,
        {
            let (v, p) = pairs[i];
            proof {
                assert(pairs@.take(i + 1).drop_last() =~= pairs@.take(i as int));
                assert(pairs@.take(i + 1).last() == pairs@[i as int]);
            }
            if contains_variable(&self.variables, &v) {
                powers.push(p);
            }
            i = i + 1;
        }
        proof {
            assert(pairs@.take(pairs@.len() as int) =~= pairs@);
            lemma_pairs_of(*term);
            term.lemma_powers_nonzero();
            self.lemma_vars_distinct();
            lemma_pattern_len(pairs@, self.vars());
            lemma_normalize(powers@);
        }
        sorted_descending(powers)
    }

    /// The term with the tracker's variables taken out.
    fn residue_of_term(&self, term: &Term) -> (r: Term)
        requires
            self.wf(),
            term.wf(),
        ensures
            r.wf(),
            r@ == residue_of(term@, self.vars()),
    {
        let mut t = term.copy();
        let _ = t.remove_variables(&self.variables);
        proof {
            t.lemma_powers_nonzero();
            term.lemma_powers_nonzero();
            let target = residue_of(term@, self.vars());
            assert forall|w: Variable| #[trigger] pw(t@.0, w) == pw(target.0, w) by {}
            lemma_powers_ext(t@.0, target.0);
        }
        t
    }

    /// Groups the terms by exponent pattern and counts how often each residue
    /// occurs in each pattern.
    fn group_terms_by_power_pattern(&self, input: &Expression) -> (r: (Vec<Vec<i64>>, Vec<(usize, Term, usize)>))
        requires
            self.wf(),
            input.wf(),
        ensures
            grouping_ok(r.0@, r.1@, canonical_terms(input@), self.vars()),
    {
        let terms = input.terms();
        let ghost ts = canonical_terms(input@);
        let ghost vs = self.vars();
        let mut patterns: Vec<Vec<i64>> = Vec::new();
        let mut entries: Vec<(usize, Term, usize)> = Vec::new();
        let mut i: usize = 0;
        proof {
            assert(ts.take(0) =~= Seq::<TermV>::empty());
            assert(pattern_views(patterns@) =~= Seq::<Seq<i64>>::empty());
        }
        while i < terms.len()
            invariant
                0 <= i <= terms.len(),
                self.wf(),
                vs == self.vars(),
                term_views(terms@) == ts,
                forall|k: int| 0 <= k < terms@.len() ==> (#[trigger] terms@[k]).wf(),
                grouping_ok(patterns@, entries@, ts.take(i as int), vs),
            decreases terms.len() - i,
        {
            let term = &terms[i];
            let pat = self.power_pattern_for_term(term);
            let residue = self.residue_of_term(term);
            let ghost pt = ts.take(i as int);
            let ghost nt = ts.take(i + 1);
            let ghost pp = pat@;
            let ghost rr = residue@;
            proof {
                assert(nt.drop_last() =~= pt);
                assert(nt.last() == term@);
                lemma_first_pairs(pt, vs);
                assert forall|p: Seq<i64>, q: TermV| #[trigger] count_matching(nt, vs, p, q)
                    == count_matching(pt, vs, p, q) + if p == pp && q == rr { 1nat } else { 0nat } by {}
                lemma_count_matching_bound(pt, vs, pp, rr);
            }
            match find_pattern(&patterns, &pat) {
                Some(a) => {
                    let found = find_entry(&entries, a, &residue);
                    let ghost fp = first_pairs(pt, vs);
                    match found {
                        Some(x) => {
                            let e = &entries[x];
                            let updated = (e.0, e.1.copy(), e.2 + 1);
                            proof {
                                assert(fp[x as int] == (pp, rr));
                                assert(fp.contains((pp, rr)));
                                assert(pattern_views(patterns@)[a as int] == pp);
                                assert(first_patterns(pt, vs).contains(pp));
                            }
                            entries.set(x, updated);
                            proof {
                                assert(first_pairs(nt, vs) == fp);
                                assert(first_patterns(nt, vs) == first_patterns(pt, vs));
                                assert forall|y: int| 0 <= y < entries@.len() implies {
                                    &&& (#[trigger] entries@[y]).0 < patterns@.len()
                                    &&& entries@[y].1.wf()
                                    &&& (patterns@[entries@[y].0 as int]@, entries@[y].1@) == first_pairs(nt, vs)[y]
                                    &&& entries@[y].2 as int == count_matching(nt, vs, first_pairs(nt, vs)[y].0, first_pairs(nt, vs)[y].1)
                                } by {
                                    if y != x {
                                        assert(fp[y] != fp[x as int]);
                                    }
                                }
                            }
                        },
                        None => {
                            proof {
                                if fp.contains((pp, rr)) {
                                    let y = choose|y: int| 0 <= y < fp.len() && fp[y] == (pp, rr);
                                    assert(patterns@[entries@[y].0 as int]@ == pp);
                                    assert(pattern_views(patterns@)[entries@[y].0 as int] == pattern_views(patterns@)[a as int]);
                                    assert(entries@[y].0 == a);
                                    assert(false);
                                }
                                assert(count_matching(pt, vs, pp, rr) == 0);
                                assert(first_patterns(pt, vs).contains(pp)) by {
                                    assert(pattern_views(patterns@)[a as int] == pp);
                                }
                            }
                            entries.push((a, residue, 1));
                            proof {
                                assert(first_pairs(nt, vs) == fp.push((pp, rr)));
                                assert(first_patterns(nt, vs) == first_patterns(pt, vs));
                                assert forall|y: int| 0 <= y < entries@.len() implies {
                                    &&& (#[trigger] entries@[y]).0 < patterns@.len()
                                    &&& entries@[y].1.wf()
                                    &&& (patterns@[entries@[y].0 as int]@, entries@[y].1@) == first_pairs(nt, vs)[y]
                                    &&& entries@[y].2 as int == count_matching(nt, vs, first_pairs(nt, vs)[y].0, first_pairs(nt, vs)[y].1)
                                } by {
                                    if y < fp.len() {
                                        assert(fp[y] != (pp, rr));
                                    }
                                }
                            }
                        },
                    }
                },
                None => {
                    let ghost fp = first_pairs(pt, vs);
                    proof {
                        assert(!first_patterns(pt, vs).contains(pp)) by {
                            if first_patterns(pt, vs).contains(pp) {
                                let a = choose|a: int| 0 <= a < first_patterns(pt, vs).len() && first_patterns(pt, vs)[a] == pp;
                                assert(pattern_views(patterns@)[a] == patterns@[a]@);
                            }
                        }
                        assert(!fp.contains((pp, rr)));
                        assert(count_matching(pt, vs, pp, rr) == 0);
                    }
                    let a = patterns.len();
                    patterns.push(pat);
                    entries.push((a, residue, 1));
                    proof {
                        assert(first_pairs(nt, vs) == fp.push((pp, rr)));
                        assert(first_patterns(nt, vs) == first_patterns(pt, vs).push(pp));
                        assert(pattern_views(patterns@) =~= first_patterns(nt, vs));
                        assert forall|y: int| 0 <= y < entries@.len() implies {
                            &&& (#[trigger] entries@[y]).0 < patterns@.len()
                            &&& entries@[y].1.wf()
                            &&& (patterns@[entries@[y].0 as int]@, entries@[y].1@) == first_pairs(nt, vs)[y]
                            &&& entries@[y].2 as int == count_matching(nt, vs, first_pairs(nt, vs)[y].0, first_pairs(nt, vs)[y].1)
                        } by {
                            if y < fp.len() {
                                assert(fp[y] != (pp, rr));
                            }
                        }
                    }
                },
            }
            i = i + 1;
        }
        proof {
            assert(ts.take(ts.len() as int) =~= ts);
        }
        (patterns, entries)
    }
}

/// The symmetry factor of a pattern (see `symmetry_factor`).
pub(crate) fn symmetry_factor_for_pattern(pattern: &Vec<i64>) -> (r: usize)
    requires
        symmetry_factor(pattern@) <= usize::MAX,
    ensures
        r as nat == symmetry_factor(pattern@),
        r >= 1,
{
    let ghost p = pattern@;
    let mut r: usize = 1;
    let mut i: usize = 0;
    while i < pattern.len()
        invariant
            0 <= i <= pattern.len(),
            p == pattern@,
            symmetry_factor(p) <= usize::MAX,
            r as nat == symmetry_factor_upto(p, i as int),
        decreases pattern.len() - i,
    {
        let mut c: usize = 0;
        let mut j: usize = 0;
        while j < i
            invariant
                0 <= j <= i,
                i < pattern.len(),
                p == pattern@,
                c as nat == equal_before_upto(p, i as int, j as int),
                c <= j,
            decreases i - j,
        {
            if pattern[j] == pattern[i] {
                c = c + 1;
            }
            j = j + 1;
        }
        proof {
            lemma_symmetry_factor_monotone(p, i + 1, p.len() as int);
            assert(symmetry_factor_upto(p, i + 1) == symmetry_factor_upto(p, i as int) * (1 + c));
        }
        r = r * (1 + c);
        i = i + 1;
    }
    proof {
        lemma_symmetry_factor_monotone(p, 0, p.len() as int);
    }
    r
}

impl ElementarySymmetricPolynomials {
    /// How often each (pattern, residue) of a symmetric expression recurs.
    fn expected_multiplicity_for(&self, pattern: &Vec<i64>) -> (r: usize)
        requires
            self.wf(),
            factorial(self.count() as nat) <= usize::MAX,
            pattern@.len() <= self.count(),
            symmetry_factor(pattern@) <= usize::MAX,
        ensures
            r as int == expected_multiplicity(self.count() as nat, pattern@),
    {
        let n = self.variables.len();
        proof {
            lemma_factorial_monotone((n - pattern@.len()) as nat, n as nat);
        }
        let total = factorial_of(n) / factorial_of(n - pattern.len());
        let sf = symmetry_factor_for_pattern(pattern);
        total / sf
    }

    /// Checks that every (pattern, residue) occurs as often as symmetry asks.
    fn is_valid_symmetric_pattern_map(&self, patterns: &Vec<Vec<i64>>, entries: &Vec<(usize, Term, usize)>) -> (b: bool)
        requires
            self.wf(),
            forall|a: int| 0 <= a < patterns@.len() ==> (#[trigger] patterns@[a])@.len() <= self.count(),
            forall|a: int| 0 <= a < patterns@.len() ==> symmetry_factor((#[trigger] patterns@[a])@) <= usize::MAX,
            forall|x: int| 0 <= x < entries@.len() ==> (#[trigger] entries@[x]).0 < patterns@.len(),
            entries@.len() > 0 ==> factorial(self.count() as nat) <= usize::MAX,
        ensures
            b == forall|x: int| 0 <= x < entries@.len() ==> (#[trigger] entries@[x]).2 as int
                == expected_multiplicity(self.count() as nat, patterns@[entries@[x].0 as int]@),
    {
        let mut x: usize = 0;
        while x < entries.len()
            invariant
                0 <= x <= entries.len(),
                self.wf(),
                forall|a: int| 0 <= a < patterns@.len() ==> (#[trigger] patterns@[a])@.len() <= self.count(),
                forall|a: int| 0 <= a < patterns@.len() ==> symmetry_factor((#[trigger] patterns@[a])@) <= usize::MAX,
                forall|y: int| 0 <= y < entries@.len() ==> (#[trigger] entries@[y]).0 < patterns@.len(),
                entries@.len() > 0 ==> factorial(self.count() as nat) <= usize::MAX,
                forall|y: int| 0 <= y < x ==> (#[trigger] entries@[y]).2 as int
                    == expected_multiplicity(self.count() as nat, patterns@[entries@[y].0 as int]@),
            decreases entries.len() - x,
        {
            let e = &entries[x];
            let expected = self.expected_multiplicity_for(&patterns[e.0]);
            if e.2 != expected {
                return false;
            }
            x = x + 1;
        }
        true
    }

    /// Checks if the expression is symmetric in the tracker's variables: the terms
    /// of each exponent pattern recur, with the same residue, as often as symmetry asks.
    pub fn is_symmetric(&self, input: &Expression) -> (b: bool)
        requires
            self.wf(),
            input.wf(),
            symmetry_check_fits(canonical_terms(input@), self.vars()),
        ensures
            b == is_symmetric_spec(canonical_terms(input@), self.vars()),
    {
        let (patterns, entries) = self.group_terms_by_power_pattern(input);
        proof {
            self.lemma_grouping_facts(patterns@, entries@, canonical_terms(input@));
        }
        self.is_valid_symmetric_pattern_map(&patterns, &entries)
    }

    /// What a grouping of symmetric-check-fitting terms gives: the bounds the
    /// validity check needs, and that it decides symmetry.
    proof fn lemma_grouping_facts(&self, patterns: Seq<Vec<i64>>, entries: Seq<(usize, Term, usize)>, ts: Seq<TermV>)
        requires
            self.wf(),
            grouping_ok(patterns, entries, ts, self.vars()),
            symmetry_check_fits(ts, self.vars()),
        ensures
            forall|a: int| 0 <= a < patterns.len() ==> symmetry_factor((#[trigger] patterns[a])@) <= usize::MAX,
            entries.len() > 0 ==> factorial(self.count() as nat) <= usize::MAX,
            (forall|x: int| 0 <= x < entries.len() ==> (#[trigger] entries[x]).2 as int
                == expected_multiplicity(self.count() as nat, patterns[entries[x].0 as int]@))
                <==> is_symmetric_spec(ts, self.vars()),
    {
        let vs = self.vars();
        let fp = first_pairs(ts, vs);
        lemma_first_pairs(ts, vs);
        assert forall|a: int| 0 <= a < patterns.len() implies symmetry_factor((#[trigger] patterns[a])@) <= usize::MAX by {
            assert(pattern_views(patterns)[a] == patterns[a]@);
            assert(first_patterns(ts, vs).contains(patterns[a]@));
        }
        if entries.len() > 0 {
            assert(fp.contains(fp[0]));
            lemma_count_matching_bound(ts, vs, fp[0].0, fp[0].1);
        }
        if forall|x: int| 0 <= x < entries.len() ==> (#[trigger] entries[x]).2 as int
            == expected_multiplicity(self.count() as nat, patterns[entries[x].0 as int]@) {
            assert forall|p: Seq<i64>, r: TermV| #[trigger] count_matching(ts, vs, p, r) > 0
                implies count_matching(ts, vs, p, r) == expected_multiplicity(vs.len(), p) by {
                assert(fp.contains((p, r)));
                let x = choose|x: int| 0 <= x < fp.len() && fp[x] == (p, r);
                assert(entries[x].2 as int == expected_multiplicity(self.count() as nat, patterns[entries[x].0 as int]@));
            }
        }
        if is_symmetric_spec(ts, vs) {
            assert forall|x: int| 0 <= x < entries.len() implies (#[trigger] entries[x]).2 as int
                == expected_multiplicity(self.count() as nat, patterns[entries[x].0 as int]@) by {
                assert(fp.contains(fp[x]));
                assert(count_matching(ts, vs, fp[x].0, fp[x].1) > 0);
            }
        }
    }

    /// Partitions a symmetric expression into its patterns, each with the sum of
    /// its distinct residues.
    fn partition_into_symmetric_expression(&self, input: &Expression) -> (r: (Vec<Vec<i64>>, Vec<Expression>))
        requires
            self.wf(),
            input.wf(),
            symmetry_check_fits(canonical_terms(input@), self.vars()),
            is_symmetric_spec(canonical_terms(input@), self.vars()),
            forall|p: Seq<i64>| #[trigger] first_patterns(canonical_terms(input@), self.vars()).contains(p)
                ==> partition_sum_fits(first_pairs(canonical_terms(input@), self.vars()), p,
                    first_pairs(canonical_terms(input@), self.vars()).len() as int),
        ensures
            pattern_views(r.0@) == first_patterns(canonical_terms(input@), self.vars()),
            r.1@.len() == r.0@.len(),
            forall|a: int| 0 <= a < r.1@.len() ==> (#[trigger] r.1@[a]).wf()
                && r.1@[a]@ == partition_sum(canonical_terms(input@), self.vars(), r.0@[a]@),
            forall|a: int| 0 <= a < r.0@.len() ==> (#[trigger] r.0@[a])@.len() <= self.count(),
    {
        let ghost ts = canonical_terms(input@);
        let ghost vs = self.vars();
        let (patterns, entries) = self.group_terms_by_power_pattern(input);
        proof {
            self.lemma_grouping_facts(patterns@, entries@, ts);
            lemma_first_pairs(ts, vs);
        }
        let valid = self.is_valid_symmetric_pattern_map(&patterns, &entries);
        if !valid {
            proof {
                assert(false);
            }
        }
        let ghost fp = first_pairs(ts, vs);
        let mut sums: Vec<Expression> = Vec::new();
        let mut a: usize = 0;
        while a < patterns.len()
            invariant
                0 <= a <= patterns.len(),
                grouping_ok(patterns@, entries@, ts, vs),
                fp == first_pairs(ts, vs),
                first_patterns(ts, vs).no_duplicates(),
                forall|p: Seq<i64>| #[trigger] first_patterns(ts, vs).contains(p) ==> partition_sum_fits(fp, p, fp.len() as int),
                sums@.len() == a,
                forall|b: int| 0 <= b < a ==> (#[trigger] sums@[b]).wf() && sums@[b]@ == partition_sum(ts, vs, patterns@[b]@),
            decreases patterns.len() - a,
        {
            let ghost pa = patterns@[a as int]@;
            proof {
                assert(pattern_views(patterns@)[a as int] == pa);
                assert(first_patterns(ts, vs).contains(pa));
            }
            let mut sum = Expression::zero();
            let mut x: usize = 0;
            while x < entries.len()
                invariant
                    0 <= x <= entries.len(),
                    a < patterns@.len(),
                    pa == patterns@[a as int]@,
                    grouping_ok(patterns@, entries@, ts, vs),
                    fp == first_pairs(ts, vs),
                    first_patterns(ts, vs).no_duplicates(),
                    partition_sum_fits(fp, pa, fp.len() as int),
                    sum.wf(),
                    sum@ == partition_sum_upto(fp, pa, x as int),
                decreases entries.len() - x,
            {
                proof {
                    lemma_partition_sum_fits_prefix(fp, pa, x + 1, fp.len() as int);
                    let e0 = entries@[x as int].0 as int;
                    assert(fp[x as int].0 == patterns@[e0]@);
                    if e0 != a {
                        assert(pattern_views(patterns@)[e0] != pattern_views(patterns@)[a as int]);
                    }
                }
                if entries[x].0 == a {
                    sum.add_term(entries[x].1.copy());
                }
                x = x + 1;
            }
            sums.push(sum);
            a = a + 1;
        }
        (patterns, sums)
    }

    /// Like `partition_into_symmetric_expression`, but `None` where summing the
    /// residues of a pattern would leave `i64`.
    fn checked_partition(&self, input: &Expression) -> (r: Option<(Vec<Vec<i64>>, Vec<Expression>)>)
        requires
            self.wf(),
            input.wf(),
            symmetry_check_fits(canonical_terms(input@), self.vars()),
            is_symmetric_spec(canonical_terms(input@), self.vars()),
        ensures
            r is Some <==> forall|p: Seq<i64>| #[trigger] first_patterns(canonical_terms(input@), self.vars()).contains(p)
                ==> partition_sum_fits(first_pairs(canonical_terms(input@), self.vars()), p,
                    first_pairs(canonical_terms(input@), self.vars()).len() as int),
            r matches Some(r) ==> {
                &&& pattern_views(r.0@) == first_patterns(canonical_terms(input@), self.vars())
                &&& r.1@.len() == r.0@.len()
                &&& forall|a: int| 0 <= a < r.1@.len() ==> (#[trigger] r.1@[a]).wf()
                    && r.1@[a]@ == partition_sum(canonical_terms(input@), self.vars(), r.0@[a]@)
                &&& forall|a: int| 0 <= a < r.0@.len() ==> (#[trigger] r.0@[a])@.len() <= self.count()
            },
    {
        let ghost ts = canonical_terms(input@);
        let ghost vs = self.vars();
        let (patterns, entries) = self.group_terms_by_power_pattern(input);
        proof {
            self.lemma_grouping_facts(patterns@, entries@, ts);
            lemma_first_pairs(ts, vs);
        }
        let ghost fp = first_pairs(ts, vs);
        let mut sums: Vec<Expression> = Vec::new();
        let mut a: usize = 0;
        while a < patterns.len()
            invariant
                0 <= a <= patterns.len(),
                grouping_ok(patterns@, entries@, ts, vs),
                fp == first_pairs(ts, vs),
                first_patterns(ts, vs).no_duplicates(),
                ts == canonical_terms(input@),
                vs == self.vars(),
                forall|b: int| 0 <= b < a ==> partition_sum_fits(fp, (#[trigger] patterns@[b])@, fp.len() as int),
                sums@.len() == a,
                forall|b: int| 0 <= b < a ==> (#[trigger] sums@[b]).wf() && sums@[b]@ == partition_sum(ts, vs, patterns@[b]@),
            decreases patterns.len() - a,
        {
            let ghost pa = patterns@[a as int]@;
            proof {
                assert(pattern_views(patterns@)[a as int] == pa);
                assert(first_patterns(ts, vs).contains(pa));
            }
            let mut sum = Expression::zero();
            let mut x: usize = 0;
            while x < entries.len()
                invariant
                    0 <= x <= entries.len(),
                    a < patterns@.len(),
                    pa == patterns@[a as int]@,
                    grouping_ok(patterns@, entries@, ts, vs),
                    fp == first_pairs(ts, vs),
                    first_patterns(ts, vs).no_duplicates(),
                    ts == canonical_terms(input@),
                    vs == self.vars(),
                    first_patterns(ts, vs).contains(pa),
                    partition_sum_fits(fp, pa, x as int),
                    sum.wf(),
                    sum@ == partition_sum_upto(fp, pa, x as int),
                decreases entries.len() - x,
            {
                proof {
                    if partition_sum_fits(fp, pa, fp.len() as int) {
                        lemma_partition_sum_fits_prefix(fp, pa, x + 1, fp.len() as int);
                    }
                    let e0 = entries@[x as int].0 as int;
                    assert(fp[x as int].0 == patterns@[e0]@);
                    if e0 != a {
                        assert(pattern_views(patterns@)[e0] != pattern_views(patterns@)[a as int]);
                    }
                }
                if entries[x].0 == a {
                    if !sum.term_add_fits(&entries[x].1) {
                        return None;
                    }
                    sum.add_term(entries[x].1.copy());
                }
                x = x + 1;
            }
            sums.push(sum);
            a = a + 1;
        }
        proof {
            assert forall|p: Seq<i64>| #[trigger] first_patterns(ts, vs).contains(p) implies partition_sum_fits(fp, p, fp.len() as int) by {
                let b = choose|b: int| 0 <= b < first_patterns(ts, vs).len() && first_patterns(ts, vs)[b] == p;
                assert(pattern_views(patterns@)[b] == patterns@[b]@);
            }
        }
        Some((patterns, sums))
    }
}

/// The product of the variables raised to `e`.
fn product_of_variable_powers(vs: &Vec<Variable>, e: i64) -> (t: Term)
    requires
        i32::MIN <= e <= i32::MAX,
        product_of_powers_fits(vs@, e as int),
    ensures
        t.wf(),
        t@ == product_of_powers(vs@, e as int),
{
    let mut t = Term::one();
    let mut i: usize = 0;
    proof {
        assert(vs@.take(0) =~= Seq::<Variable>::empty());
    }
    while i < vs.len()
        invariant
            0 <= i <= vs.len(),
            i32::MIN <= e <= i32::MAX,
            product_of_powers_fits(vs@, e as int),
            t.wf(),
            t@ == product_of_powers(vs@.take(i as int), e as int),
        decreases vs.len() - i,
    {
        proof {
            lemma_product_of_powers_fits_take(vs@, e as int, i + 1);
            assert(vs@.take(i + 1).drop_last() =~= vs@.take(i as int));
            assert(vs@.take(i + 1).last() == vs@[i as int]);
        }
        t = t.mul(vs[i].pow(e));
        i = i + 1;
    }
    proof {
        assert(vs@.take(vs@.len() as int) =~= vs@);
    }
    t
}

/// The product of the variables raised to `e`, or `None` where forming it would leave `i64`.
fn checked_product_of_variable_powers(vs: &Vec<Variable>, e: i64) -> (r: Option<Term>)
    requires
        i32::MIN <= e <= i32::MAX,
    ensures
        r is Some <==> product_of_powers_fits(vs@, e as int),
        r matches Some(t) ==> t.wf() && t@ == product_of_powers(vs@, e as int),
{
    let mut t = Term::one();
    let mut i: usize = 0;
    proof {
        assert(vs@.take(0) =~= Seq::<Variable>::empty());
    }
    while i < vs.len()
        invariant
            0 <= i <= vs.len(),
            i32::MIN <= e <= i32::MAX,
            product_of_powers_fits(vs@.take(i as int), e as int),
            t.wf(),
            t@ == product_of_powers(vs@.take(i as int), e as int),
        decreases vs.len() - i,
    {
        proof {
            assert(vs@.take(i + 1).drop_last() =~= vs@.take(i as int));
            assert(vs@.take(i + 1).last() == vs@[i as int]);
        }
        let p = vs[i].pow(e);
        if !t.mul_fits_check(&p) {
            proof {
                if product_of_powers_fits(vs@, e as int) {
                    lemma_product_of_powers_fits_take(vs@, e as int, i + 1);
                }
            }
            return None;
        }
        t = t.mul(p);
        i = i + 1;
    }
    proof {
        assert(vs@.take(vs@.len() as int) =~= vs@);
    }
    Some(t)
}

/// The symmetry factor of a pattern, or `None` where it does not fit a `usize`.
fn checked_symmetry_factor(pattern: &Vec<i64>) -> (r: Option<usize>)
    ensures
        r is Some <==> symmetry_factor(pattern@) <= usize::MAX,
        r matches Some(f) ==> f as nat == symmetry_factor(pattern@),
{
    let ghost p = pattern@;
    let mut r: usize = 1;
    let mut i: usize = 0;
    while i < pattern.len()
        invariant
            0 <= i <= pattern.len(),
            p == pattern@,
            r as nat == symmetry_factor_upto(p, i as int),
        decreases pattern.len() - i,
    {
        let mut c: usize = 0;
        let mut j: usize = 0;
        while j < i
            invariant
                0 <= j <= i,
                i < pattern.len(),
                p == pattern@,
                c as nat == equal_before_upto(p, i as int, j as int),
                c <= j,
            decreases i - j,
        {
            if pattern[j] == pattern[i] {
                c = c + 1;
            }
            j = j + 1;
        }
        proof {
            assert(symmetry_factor_upto(p, i + 1) == symmetry_factor_upto(p, i as int) * (1 + c));
        }
        r = match r.checked_mul(1 + c) {
            Some(x) => x,
            None => {
                proof {
                    lemma_symmetry_factor_monotone(p, i + 1, p.len() as int);
                }
                return None;
            },
        };
        i = i + 1;
    }
    Some(r)
}

pub proof fn lemma_product_of_powers_fits_take(vs: Seq<Variable>, e: int, i: int)
    requires
        product_of_powers_fits(vs, e),
        0 <= i <= vs.len(),
    ensures
        product_of_powers_fits(vs.take(i), e),
    decreases vs.len() - i,
{
    if i == vs.len() {
        assert(vs.take(i) =~= vs);
    } else {
        lemma_product_of_powers_fits_take(vs, e, i + 1);
        assert(vs.take(i + 1).drop_last() =~= vs.take(i));
    }
}

pub proof fn lemma_contributions_fit_prefix(ts: Seq<TermV>, vs: Seq<Variable>, j: int, j2: int)
    requires
        contributions_fit(ts, vs, j2),
        0 <= j <= j2,
    ensures
        contributions_fit(ts, vs, j),
    decreases j2 - j,
{
    if j < j2 {
        lemma_contributions_fit_prefix(ts, vs, j, j2 - 1);
    }
}

impl ElementarySymmetricPolynomials {
    /// The smallest power of the tracker's variables over the terms (absent
    /// variables count as 0; 0 for no terms or no variables).
    fn get_min_power_in_expression(&self, input: &Expression) -> (m: i64)
        requires
            self.wf(),
            input.wf(),
        ensures
            m as int == min_power_in(canonical_terms(input@), self.vars()),
    {
        let terms = input.terms();
        let ghost ts = canonical_terms(input@);
        let ghost vs = self.vars();
        if terms.len() == 0 {
            return 0;
        }
        let mut result: i64 = 0;
        let mut i: usize = 0;
        while i < terms.len()
            invariant
                0 <= i <= terms.len(),
                terms@.len() > 0,
                self.wf(),
                vs == self.vars(),
                term_views(terms@) == ts,
                forall|k: int| 0 <= k < terms@.len() ==> (#[trigger] terms@[k]).wf(),
                i > 0 ==> result as int == min_power_in(ts.take(i as int), vs),
            decreases terms.len() - i,
        {
            let term = &terms[i];
            let mut term_min: i64 = 0;
            let mut j: usize = 0;
            while j < self.variables.len()
                invariant
                    0 <= j <= self.variables.len(),
                    vs == self.vars(),
                    term.wf(),
                    j > 0 ==> term_min as int == min_power_over(term@.0, vs.take(j as int)),
                    j == 0 ==> term_min == 0,
                decreases self.variables.len() - j,
            {
                let p = term.get_power_of_variable(&self.variables[j]);
                proof {
                    assert(vs.take(j + 1).drop_last() =~= vs.take(j as int));
                    assert(vs.take(j + 1).last() == vs[j as int]);
                    assert(vs.take(1)[0] == vs[0]);
                }
                if j == 0 || p < term_min {
                    term_min = p;
                }
                j = j + 1;
            }
            proof {
                assert(vs.take(vs.len() as int) =~= vs);
                assert(term_min as int == min_power_over(term@.0, vs));
                assert(ts.take(i + 1).drop_last() =~= ts.take(i as int));
                assert(ts.take(i + 1).last() == ts[i as int]);
                assert(ts.take(1)[0] == ts[0]);
                assert(ts[i as int] == term@);
            }
            if i == 0 || term_min < result {
                result = term_min;
            }
            proof {
                if i == 0 {
                    assert(ts.take(1).len() == 1);
                    assert(min_power_in(ts.take(1), vs) == min_power_over(ts.take(1)[0].0, vs));
                } else {
                    assert(min_power_in(ts.take(i + 1), vs) == crate::algos::patterns::min_of(
                        min_power_in(ts.take(i as int), vs), min_power_over(ts[i as int].0, vs)));
                }
            }
            i = i + 1;
        }
        proof {
            assert(ts.take(ts.len() as int) =~= ts);
        }
        result
    }

    /// Simplifies a symmetric expression by rewriting it in terms of the
    /// elementary symmetric polynomials `e₁ ... eₙ` and then applying the
    /// substitutions set for them.
    pub fn simplify_symmetric_expression(&mut self, input: Expression) -> (r: Expression)
        requires
            old(self).wf(),
            input.wf(),
            old(self).simplify_fits(input@),
        ensures
            final(self).wf(),
            final(self).vars() == old(self).vars(),
            final(self).representations() == old(self).representations(),
            forall|j: int| #[trigger] final(self).substitution(j) == old(self).substitution(j),
            r.wf(),
            r@ == subst_many_seq(canonical_terms(symmetric_rewrite(input@, old(self).vars())),
                old(self).substitution_list_upto(old(self).count())),
    {
        let ghost vs = self.vars();
        let ghost n = self.count();
        let ghost subs_before = self.substitution_list_upto(n);
        let ghost in0 = input@;
        let min_power = self.get_min_power_in_expression(&input);
        let mut input = input;
        if min_power < 0 {
            let count = self.variables.len();
            let denominator = self.ek_as_variable_expression(count as i64);
            let numerator = product_of_variable_powers(&self.variables, -min_power);
            let factor = denominator.pow(min_power).mul_term(&numerator);
            input = input.mul(factor);
        }
        let ghost ts = canonical_terms(input@);
        proof {
            assert(input@ == cleared_input(in0, vs));
            lemma_contributions_fit_each(ts, vs, first_patterns(ts, vs).len() as int);
            assert forall|p: Seq<i64>| #[trigger] first_patterns(ts, vs).contains(p)
                implies partition_sum_fits(first_pairs(ts, vs), p, first_pairs(ts, vs).len() as int) by {
                let j = choose|j: int| 0 <= j < first_patterns(ts, vs).len() && first_patterns(ts, vs)[j] == p;
                assert(pattern_contribution_ok(ts, vs, j));
            }
        }
        let (patterns, sums) = self.partition_into_symmetric_expression(&input);
        let mut output = Expression::zero();
        let mut a: usize = 0;
        while a < patterns.len()
            invariant
                0 <= a <= patterns.len(),
                self.wf(),
                self.vars() == vs,
                n == self.count(),
                self.representations() == old(self).representations(),
                forall|j: int| #[trigger] self.substitution(j) == old(self).substitution(j),
                pattern_views(patterns@) == first_patterns(ts, vs),
                sums@.len() == patterns@.len(),
                forall|b: int| 0 <= b < sums@.len() ==> (#[trigger] sums@[b]).wf()
                    && sums@[b]@ == partition_sum(ts, vs, patterns@[b]@),
                contributions_fit(ts, vs, first_patterns(ts, vs).len() as int),
                crate::algos::patterns::symmetry_check_fits(ts, vs),
                output.wf(),
                output@ == contributions_upto(ts, vs, a as int),
            decreases patterns.len() - a,
        {
            let ghost pa = patterns@[a as int]@;
            proof {
                assert(pattern_views(patterns@)[a as int] == pa);
                lemma_contributions_fit_prefix(ts, vs, a + 1, first_patterns(ts, vs).len() as int);
                assert(first_patterns(ts, vs)[a as int] == pa);
            }
            proof {
                assert(first_patterns(ts, vs).contains(pa));
                lemma_contributions_fit_each(ts, vs, first_patterns(ts, vs).len() as int);
                assert(pattern_contribution_ok(ts, vs, a as int));
            }
            let sf = symmetry_factor_for_pattern(&patterns[a]);
            let pattern_expression = self.expression_for_power_pattern(&patterns[a]);
            let product = sums[a].copy().mul(pattern_expression);
            let divisor = Term::from_integer(sf as i64);
            proof {
                crate::forms::term::lemma_rat_one_mul((sf as int, 1int));
                crate::forms::expression::lemma_nonzero_canonical((sf as int, 1int));
            }
            let contribution = product.div_term(&divisor);
            output = output.add(contribution);
            a = a + 1;
        }
        let mut substitutions: Vec<(Variable, Expression)> = Vec::new();
        let mut idx: usize = 0;
        while idx < self.variables.len()
            invariant
                0 <= idx <= self.variables.len(),
                self.wf(),
                n == self.count(),
                forall|j: int| #[trigger] self.substitution(j) == old(self).substitution(j),
                forall|i: int| 0 <= i < substitutions@.len() ==> (#[trigger] substitutions@[i]).1.wf(),
                crate::forms::expression::expr_subst_views(substitutions@) == self.substitution_list_upto(idx as int),
            decreases self.variables.len() - idx,
        {
            let k = idx + 1;
            let ghost before = substitutions@;
            match &self.elementary_polynomial_substitutions[idx] {
                Some(e) => {
                    let v = Variable::new('e', Some(k as i64));
                    substitutions.push((v, e.copy()));
                    proof {
                        assert(self.substitution(k as int) == Some(e@));
                        assert(crate::forms::expression::expr_subst_views(substitutions@)
                            =~= crate::forms::expression::expr_subst_views(before).push((e_var(k as int), e@)));
                    }
                },
                None => {
                    proof {
                        assert(self.substitution(k as int) is None);
                    }
                },
            }
            proof {
                assert(self.substitution_list_upto(k as int) =~= crate::forms::expression::expr_subst_views(substitutions@));
            }
            idx = idx + 1;
        }
        proof {
            lemma_substitution_list_same(*self, *old(self), n);
            assert(output@ == symmetric_rewrite(in0, vs));
        }
        output.substitute_multiple_variables_with_expressions(substitutions)
    }
}

impl ElementarySymmetricPolynomials {
    /// Like `simplify_symmetric_expression`, but `None` where the input (cleared
    /// of negative powers) is not symmetric, or a step would leave `i64` (or a
    /// factorial would not fit a `usize`). The power sums it needs are not cached.
    pub fn checked_simplify_symmetric_expression(&self, input: Expression) -> (r: Option<Expression>)
        requires
            self.wf(),
            input.wf(),
        ensures
            r is Some <==> self.simplify_fits(input@),
            r matches Some(e) ==> e.wf() && e@ == subst_many_seq(canonical_terms(symmetric_rewrite(input@, self.vars())),
                self.substitution_list_upto(self.count())),
    {
        let ghost vs = self.vars();
        let ghost n = self.count();
        let ghost in0 = input@;
        let min_power = self.get_min_power_in_expression(&input);
        let mut work = input;
        if min_power < 0 {
            if min_power < -0x7fff_ffffi64 {
                return None;
            }
            let count = self.variables.len();
            let numerator = match checked_product_of_variable_powers(&self.variables, -min_power) {
                Some(t) => t,
                None => {
                    return None;
                },
            };
            let denominator = self.ek_as_variable_expression(count as i64);
            if !denominator.pow_fits_check(min_power) {
                return None;
            }
            let powered = denominator.pow(min_power);
            if !powered.mul_term_fits_check(&numerator) {
                return None;
            }
            let factor = powered.mul_term(&numerator);
            work = match work.checked_mul(factor) {
                Some(x) => x,
                None => {
                    return None;
                },
            };
        }
        let ghost ts = canonical_terms(work@);
        let ghost len = first_patterns(ts, vs).len() as int;
        proof {
            assert(work@ == cleared_input(in0, vs));
            assert(cleared_input_fits(in0, vs));
            assert(ts.len() > 0 ==> first_pairs(ts, vs).len() > 0);
        }
        let (groups, entries) = self.group_terms_by_power_pattern(&work);
        if entries.len() > 0 && checked_factorial(self.variables.len()).is_none() {
            return None;
        }
        let mut g: usize = 0;
        while g < groups.len()
            invariant
                0 <= g <= groups.len(),
                grouping_ok(groups@, entries@, ts, vs),
                in0 == input@,
                vs == self.vars(),
                ts == canonical_terms(cleared_input(in0, vs)),
                forall|b: int| 0 <= b < g ==> symmetry_factor((#[trigger] groups@[b])@) <= usize::MAX,
            decreases groups.len() - g,
        {
            proof {
                assert(pattern_views(groups@)[g as int] == groups@[g as int]@);
                assert(first_patterns(ts, vs).contains(groups@[g as int]@));
            }
            if checked_symmetry_factor(&groups[g]).is_none() {
                return None;
            }
            g = g + 1;
        }
        proof {
            assert forall|p: Seq<i64>| #[trigger] first_patterns(ts, vs).contains(p) implies symmetry_factor(p) <= usize::MAX by {
                let b = choose|b: int| 0 <= b < first_patterns(ts, vs).len() && first_patterns(ts, vs)[b] == p;
                assert(pattern_views(groups@)[b] == groups@[b]@);
            }
            assert(symmetry_check_fits(ts, vs));
        }
        if !self.is_symmetric(&work) {
            return None;
        }
        let (patterns, sums) = match self.checked_partition(&work) {
            Some(x) => x,
            None => {
                proof {
                    if contributions_fit(ts, vs, len) {
                        lemma_contributions_fit_each(ts, vs, len);
                        assert forall|p: Seq<i64>| #[trigger] first_patterns(ts, vs).contains(p)
                            implies partition_sum_fits(first_pairs(ts, vs), p, first_pairs(ts, vs).len() as int) by {
                            let j = choose|j: int| 0 <= j < len && first_patterns(ts, vs)[j] == p;
                            assert(pattern_contribution_ok(ts, vs, j));
                        }
                    }
                }
                return None;
            },
        };
        let mut output = Expression::zero();
        let mut a: usize = 0;
        while a < patterns.len()
            invariant
                0 <= a <= patterns.len(),
                self.wf(),
                self.vars() == vs,
                n == self.count(),
                in0 == input@,
                ts == canonical_terms(cleared_input(in0, vs)),
                len == first_patterns(ts, vs).len(),
                pattern_views(patterns@) == first_patterns(ts, vs),
                sums@.len() == patterns@.len(),
                forall|b: int| 0 <= b < sums@.len() ==> (#[trigger] sums@[b]).wf()
                    && sums@[b]@ == partition_sum(ts, vs, patterns@[b]@),
                forall|p: Seq<i64>| #[trigger] first_patterns(ts, vs).contains(p)
                    ==> partition_sum_fits(first_pairs(ts, vs), p, first_pairs(ts, vs).len() as int),
                symmetry_check_fits(ts, vs),
                contributions_fit(ts, vs, a as int),
                output.wf(),
                output@ == contributions_upto(ts, vs, a as int),
            decreases patterns.len() - a,
        {
            let ghost pa = patterns@[a as int]@;
            proof {
                assert(pattern_views(patterns@)[a as int] == pa);
                assert(first_patterns(ts, vs)[a as int] == pa);
                assert(first_patterns(ts, vs).contains(pa));
                if contributions_fit(ts, vs, len) {
                    lemma_contributions_fit_prefix(ts, vs, a + 1, len);
                }
            }
            let sf = symmetry_factor_for_pattern(&patterns[a]);
            if sf as u64 > 0x7fff_ffff_ffff_ffffu64 {
                return None;
            }
            let pattern_expression = match self.checked_expression_for_power_pattern(&patterns[a]) {
                Some(x) => x,
                None => {
                    return None;
                },
            };
            let product = match sums[a].copy().checked_mul(pattern_expression) {
                Some(x) => x,
                None => {
                    return None;
                },
            };
            if !product.div_by_integer_fits_check(sf as i64) {
                return None;
            }
            let divisor = Term::from_integer(sf as i64);
            proof {
                crate::forms::term::lemma_rat_one_mul((sf as int, 1int));
                crate::forms::expression::lemma_nonzero_canonical((sf as int, 1int));
            }
            let contribution = product.div_term(&divisor);
            proof {
                assert(contribution@ == pattern_contribution(ts, vs, pa));
                assert(pattern_contribution_fits(ts, vs, pa));
            }
            output = match output.checked_add(contribution) {
                Some(x) => x,
                None => {
                    return None;
                },
            };
            proof {
                assert(contributions_fit(ts, vs, a + 1));
            }
            a = a + 1;
        }
        let mut substitutions: Vec<(Variable, Expression)> = Vec::new();
        let mut idx: usize = 0;
        while idx < self.variables.len()
            invariant
                0 <= idx <= self.variables.len(),
                self.wf(),
                n == self.count(),
                forall|i: int| 0 <= i < substitutions@.len() ==> (#[trigger] substitutions@[i]).1.wf(),
                crate::forms::expression::expr_subst_views(substitutions@) == self.substitution_list_upto(idx as int),
            decreases self.variables.len() - idx,
        {
            let k = idx + 1;
            let ghost before = substitutions@;
            match &self.elementary_polynomial_substitutions[idx] {
                Some(e) => {
                    let v = Variable::new('e', Some(k as i64));
                    substitutions.push((v, e.copy()));
                    proof {
                        assert(self.substitution(k as int) == Some(e@));
                        assert(crate::forms::expression::expr_subst_views(substitutions@)
                            =~= crate::forms::expression::expr_subst_views(before).push((e_var(k as int), e@)));
                    }
                },
                None => {
                    proof {
                        assert(self.substitution(k as int) is None);
                    }
                },
            }
            proof {
                assert(self.substitution_list_upto(k as int) =~= crate::forms::expression::expr_subst_views(substitutions@));
            }
            idx = idx + 1;
        }
        proof {
            assert(output@ == symmetric_rewrite(in0, vs));
        }
        output.checked_substitute_multiple_variables_with_expressions(substitutions)
    }
}

/// Trackers with the same substitutions list them the same way.
pub proof fn lemma_substitution_list_same(a: ElementarySymmetricPolynomials, b: ElementarySymmetricPolynomials, k: int)
    requires
        forall|j: int| #[trigger] a.substitution(j) == b.substitution(j),
    ensures
        a.substitution_list_upto(k) == b.substitution_list_upto(k),
    decreases k,
{
    if k > 0 {
        lemma_substitution_list_same(a, b, k - 1);
        assert(a.substitution(k) == b.substitution(k));
    }
}

/// Each pattern's contribution fits when all of them do.
pub proof fn lemma_contributions_fit_each(ts: Seq<TermV>, vs: Seq<Variable>, j: int)
    requires
        contributions_fit(ts, vs, j),
    ensures
        forall|i: int| 0 <= i < j ==> #[trigger] pattern_contribution_ok(ts, vs, i),
    decreases j,
{
    if j > 0 {
        lemma_contributions_fit_each(ts, vs, j - 1);
        assert(pattern_contribution_ok(ts, vs, j - 1));
    }
}

} // verus!
