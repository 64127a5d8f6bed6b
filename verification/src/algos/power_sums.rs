//! Power sums and power patterns written with elementary symmetric polynomials
//! `e₁ ... eₙ` of `n` variables (Newton–Girard identities).

use vstd::prelude::*;
use vstd::relations::{sorted_by, total_ordering};
use itertools::Itertools;
use crate::forms::variable::Variable;
use crate::forms::term::{TermV, var_term, term_pow};
use crate::forms::expression::{
    ExprV, expr_add, expr_add_fits, expr_neg, expr_mul, expr_mul_fits, expr_mul_term, mul_term_fits,
    expr_of_term, expr_one,
};

verus! {

/// `(-1)^k`: 1 for even `k`, -1 for odd `k`.
pub open spec fn sign_of(k: int) -> int {
    if k % 2 == 0 { 1 } else { -1 }
}

/// The scalar `c` as a term.
pub open spec fn scalar(c: int) -> TermV {
    (Map::empty(), (c, 1int))
}

/// The variable `eₖ` that stands for the `k`-th elementary symmetric polynomial.
pub open spec fn e_var(k: int) -> Variable {
    Variable::named('e', Some(k as i64))
}

/// `eₖ` as an expression: 1 for `k = 0`, the variable `eₖ` for `1 <= k <= n`,
/// and 0 otherwise.
pub open spec fn ek_expr(k: int, n: int) -> ExprV {
    if k == 0 {
        expr_one()
    } else if 0 < k <= n {
        expr_of_term(var_term(e_var(k)))
    } else {
        Map::empty()
    }
}

/// `k!`.
pub open spec fn factorial(k: nat) -> nat
    decreases k,
{
    if k == 0 { 1 } else { k * factorial((k - 1) as nat) }
}

/// `e₁² - 2 e₂`: the power sum `s₂` for two or more variables.
pub open spec fn s2_expr() -> ExprV {
    expr_add(
        expr_of_term(term_pow(var_term(e_var(1)), 2)),
        expr_neg(expr_of_term(crate::forms::term::term_mul(var_term(e_var(2)), scalar(2)))),
    )
}

/// The expression in `e₁ ... eₙ` that the Newton–Girard recursion gives for the
/// `k`-th power sum: `n` for `k = 0`, `e₁` for `k = 1` (when `n >= 1`),
/// `e₁² - 2e₂` for `k = 2` (when `n >= 2`), and otherwise
/// `(-1)^(k-1) k eₖ + Σ_{i=1}^{k-1} (-1)^(i-1) eᵢ s_{k-i}` (only the first of
/// these terms for `k < 0`), with `eᵢ = 0` for `i > n`. That this equals
/// `x₁ᵏ + ... + xₙᵏ` once each `eᵢ` is expanded is not proved here.
pub open spec fn power_sum(k: int, n: int) -> ExprV
    decreases k, k + 2,
{
    if k == 0 {
        expr_of_term(scalar(n))
    } else if k == 1 && n >= 1 {
        expr_of_term(var_term(e_var(1)))
    } else if k == 2 && n >= 2 {
        s2_expr()
    } else if k < 0 {
        ng_first(k, n)
    } else {
        ng_sum(k, k, n)
    }
}

/// The first term `(-1)^(k-1) k eₖ` of the Newton–Girard sum.
pub open spec fn ng_first(k: int, n: int) -> ExprV {
    expr_mul_term(ek_expr(k, n), scalar(sign_of(k - 1) * k))
}

/// The Newton–Girard sum for `sₖ` with the terms `i = 1 .. j - 1` added.
pub open spec fn ng_sum(k: int, j: int, n: int) -> ExprV
    decreases k, j + 1,
{
    if j <= 1 || j > k {
        ng_first(k, n)
    } else {
        expr_add(ng_sum(k, j - 1, n), ng_term(k, j - 1, n))
    }
}

/// The term `(-1)^(i-1) eᵢ s_{k-i}` of the Newton–Girard sum.
pub open spec fn ng_term(k: int, i: int, n: int) -> ExprV
    decreases k, i + 1,
{
    if 1 <= i < k {
        expr_mul(expr_mul_term(ek_expr(i, n), scalar(sign_of(i - 1))), power_sum(k - i, n))
    } else {
        Map::empty()
    }
}

/// `sₖ` is computed without leaving `i64`.
pub open spec fn power_sum_fits(k: int, n: int) -> bool
    decreases k, k + 2,
{
    if k == 0 || (k == 1 && n >= 1) || (k == 2 && n >= 2) {
        true
    } else if k < 0 {
        k > i64::MIN && mul_term_fits(ek_expr(k, n), scalar(sign_of(k - 1) * k))
    } else {
        ng_sum_fits(k, k, n)
    }
}

/// Every step of the Newton–Girard sum up to `j` stays in `i64`.
pub open spec fn ng_sum_fits(k: int, j: int, n: int) -> bool
    decreases k, j + 1,
{
    if j <= 1 || j > k {
        mul_term_fits(ek_expr(k, n), scalar(sign_of(k - 1) * k))
    } else {
        &&& ng_sum_fits(k, j - 1, n)
        &&& ng_term_fits(k, j - 1, n)
        &&& expr_add_fits(ng_sum(k, j - 1, n), ng_term(k, j - 1, n))
    }
}

pub open spec fn ng_term_fits(k: int, i: int, n: int) -> bool
    decreases k, i + 1,
{
    if 1 <= i < k {
        &&& power_sum_fits(k - i, n)
        &&& mul_term_fits(ek_expr(i, n), scalar(sign_of(i - 1)))
        &&& expr_mul_fits(expr_mul_term(ek_expr(i, n), scalar(sign_of(i - 1))), power_sum(k - i, n))
    } else {
        true
    }
}

/// The order `a <= b` on powers.
pub open spec fn le_power() -> spec_fn(i64, i64) -> bool {
    |a: i64, b: i64| a <= b
}

/// A pattern of powers sorted from the largest down.
pub open spec fn normalize(p: Seq<i64>) -> Seq<i64> {
    p.sort_by(le_power()).reverse()
}

/// `<=` on powers is a total order.
pub proof fn lemma_le_power_total()
    ensures
        total_ordering(le_power()),
{
    let le = le_power();
    assert(vstd::relations::reflexive(le));
    assert(vstd::relations::antisymmetric(le));
    assert(vstd::relations::transitive(le));
    assert(vstd::relations::strongly_connected(le));
}

/// Sorting keeps the elements (and so the length), and the result is sorted.
pub proof fn lemma_normalize(p: Seq<i64>)
    ensures
        normalize(p).len() == p.len(),
        p.sort_by(le_power()).to_multiset() == p.to_multiset(),
        sorted_by(p.sort_by(le_power()), le_power()),
        forall|i: int, j: int| 0 <= i <= j < p.len() ==> #[trigger] normalize(p)[i] >= #[trigger] normalize(p)[j],
{
    lemma_le_power_total();
    p.lemma_sort_by_ensures(le_power());
    let s = p.sort_by(le_power());
    assert(s.len() == s.to_multiset().len()) by {
        broadcast use vstd::seq_lib::group_to_multiset_ensures;
    }
    assert(p.len() == p.to_multiset().len()) by {
        broadcast use vstd::seq_lib::group_to_multiset_ensures;
    }
    assert forall|i: int, j: int| 0 <= i <= j < p.len() implies #[trigger] normalize(p)[i] >= #[trigger] normalize(p)[j] by {
        let a = s.len() - 1 - j;
        let b = s.len() - 1 - i;
        if a < b {
            assert(le_power()(s[a], s[b]));
        }
    }
}

/// The pattern `left` with `r` added to its `index`-th power.
pub open spec fn extend(left: Seq<i64>, index: int, r: i64) -> Seq<i64> {
    left.update(index, (left[index] + r) as i64)
}

/// The expression in `e₁ ... eₙ` that the pattern recursion builds for a power
/// pattern (taken in ascending order): 1 for the empty pattern, `power_sum` for
/// one power, `m! eₘ` for `m` ones, and otherwise, splitting off the last power
/// `r`, `P(left) P(r) - Σ_index P(left with r added at index)`. It is meant to
/// be the sum of `x_{i₁}^{p₁} ... x_{iₘ}^{pₘ}` over distinct indices once each
/// `eᵢ` is expanded; that is not proved here.
pub open spec fn pattern_expr(p: Seq<i64>, n: int) -> ExprV
    decreases p.len(), p.len() + 1,
{
    proof {
        lemma_normalize(p);
    }
    let q = normalize(p);
    if q.len() == 0 {
        expr_one()
    } else if q.len() == 1 {
        power_sum(q[0] as int, n)
    } else if q[0] == q[q.len() - 1] && q[0] == 1 {
        expr_mul_term(ek_expr(q.len() as int, n), scalar((factorial(q.len()) as i64) as int))
    } else {
        pattern_minus(q.take(q.len() - 1), q[q.len() - 1], n, q.len() - 1)
    }
}

/// `P(left) P(r)` minus the patterns of `left` with `r` added at the first `j` places.
pub open spec fn pattern_minus(left: Seq<i64>, r: i64, n: int, j: int) -> ExprV
    decreases left.len() + 1, j + 1,
{
    if j <= 0 || left.len() == 0 || j > left.len() {
        if left.len() == 0 {
            Map::empty()
        } else {
            expr_mul(pattern_expr(left, n), pattern_expr(seq![r], n))
        }
    } else {
        expr_add(pattern_minus(left, r, n, j - 1), expr_neg(pattern_expr(extend(left, j - 1, r), n)))
    }
}

/// Every step of `pattern_expr` stays in range (`i64` coefficients and powers,
/// a factorial that fits a `usize`).
pub open spec fn pattern_fits(p: Seq<i64>, n: int) -> bool
    decreases p.len(), p.len() + 1,
{
    proof {
        lemma_normalize(p);
    }
    let q = normalize(p);
    if q.len() == 0 {
        true
    } else if q.len() == 1 {
        power_sum_fits(q[0] as int, n)
    } else if q[0] == q[q.len() - 1] && q[0] == 1 {
        &&& factorial(q.len()) <= usize::MAX
        &&& factorial(q.len()) <= i64::MAX
        &&& mul_term_fits(ek_expr(q.len() as int, n), scalar((factorial(q.len()) as i64) as int))
    } else {
        pattern_minus_fits(q.take(q.len() - 1), q[q.len() - 1], n, q.len() - 1)
    }
}

pub open spec fn pattern_minus_fits(left: Seq<i64>, r: i64, n: int, j: int) -> bool
    decreases left.len() + 1, j + 1,
{
    if j <= 0 || left.len() == 0 || j > left.len() {
        if left.len() == 0 {
            true
        } else {
            &&& pattern_fits(left, n)
            &&& pattern_fits(seq![r], n)
            &&& expr_mul_fits(pattern_expr(left, n), pattern_expr(seq![r], n))
        }
    } else {
        &&& pattern_minus_fits(left, r, n, j - 1)
        &&& i64::MIN <= left[j - 1] + r <= i64::MAX
        &&& pattern_fits(extend(left, j - 1, r), n)
        &&& expr_add_fits(pattern_minus(left, r, n, j - 1), expr_neg(pattern_expr(extend(left, j - 1, r), n)))
    }
}

/// `Itertools::sorted` on powers: the same powers in ascending order.
#[verifier::external_body]
fn sorted_ascending(v: Vec<i64>) -> (r: Vec<i64>)
    ensures
        r@.to_multiset() == v@.to_multiset(),
        forall|i: int, j: int| 0 <= i < j < r@.len() ==> r@[i] <= r@[j],
{
    v.into_iter().sorted().collect()
}

/// The powers sorted from the largest down (ascending, then reversed).
pub fn sorted_descending(v: Vec<i64>) -> (r: Vec<i64>)
    ensures
        r@ == normalize(v@),
{
    let ghost orig = v@;
    let a = sorted_ascending(v);
    proof {
        lemma_le_power_total();
        orig.lemma_sort_by_ensures(le_power());
        assert(sorted_by(a@, le_power()));
        vstd::seq_lib::lemma_sorted_unique(a@, orig.sort_by(le_power()), le_power());
    }
    let mut r: Vec<i64> = Vec::new();
    let mut i: usize = a.len();
    while i > 0
        invariant
            0 <= i <= a@.len(),
            r@.len() == a@.len() - i,
            forall|k: int| 0 <= k < r@.len() ==> r@[k] == a@[a@.len() - 1 - k],
        decreases i,
    {
        i = i - 1;
        r.push(a[i]);
    }
    proof {
        assert(r@ =~= a@.reverse());
    }
    r
}

} // verus!
