//! Products of variables raised to nonzero integer powers, held as a list of
//! `(variable, power)` pairs strictly sorted by variable.

use vstd::prelude::*;
use crate::forms::variable::{Variable, var_lt, lemma_var_lt_irreflexive, lemma_var_lt_asymmetric, lemma_var_lt_transitive, lemma_var_lt_total};

verus! {

/// Strictly sorted by variable, and no power is 0.
pub open spec fn mono_wf(s: Seq<(Variable, i64)>) -> bool {
    &&& forall|i: int, j: int| 0 <= i < j < s.len() ==> var_lt(#[trigger] s[i].0, #[trigger] s[j].0)
    &&& forall|i: int| 0 <= i < s.len() ==> #[trigger] s[i].1 != 0
}

/// `v` occurs in the list.
pub open spec fn has_var(s: Seq<(Variable, i64)>, v: Variable) -> bool {
    exists|i: int| 0 <= i < s.len() && #[trigger] s[i].0 == v
}

/// The power of `v` in the list (0 when `v` does not occur).
pub open spec fn power_in(s: Seq<(Variable, i64)>, v: Variable) -> int {
    if has_var(s, v) {
        s[choose|i: int| 0 <= i < s.len() && #[trigger] s[i].0 == v].1 as int
    } else {
        0
    }
}

/// The monomial as a map from each variable that occurs to its (nonzero) power.
pub open spec fn mono_map(s: Seq<(Variable, i64)>) -> Map<Variable, int> {
    Map::new(|v: Variable| has_var(s, v), |v: Variable| power_in(s, v))
}

/// Every power in the list fits an `i64` (always true of a list of `i64` pairs).
pub open spec fn i64_range(x: int) -> bool {
    i64::MIN <= x <= i64::MAX
}

/// In a well-formed list the entry at `i` is the only one for its variable.
pub proof fn lemma_power_at(s: Seq<(Variable, i64)>, i: int)
    requires
        mono_wf(s),
        0 <= i < s.len(),
    ensures
        has_var(s, s[i].0),
        power_in(s, s[i].0) == s[i].1,
{
    let v = s[i].0;
    assert(has_var(s, v));
    let j = choose|j: int| 0 <= j < s.len() && #[trigger] s[j].0 == v;
    if j < i {
        assert(var_lt(s[j].0, s[i].0));
        lemma_var_lt_irreflexive(v);
    } else if j > i {
        assert(var_lt(s[i].0, s[j].0));
        lemma_var_lt_irreflexive(v);
    }
}

/// In a well-formed list, a variable occurs exactly when its power is nonzero.
pub proof fn lemma_has_var_iff_nonzero(s: Seq<(Variable, i64)>, v: Variable)
    requires
        mono_wf(s),
    ensures
        has_var(s, v) <==> power_in(s, v) != 0,
{
    if has_var(s, v) {
        let i = choose|i: int| 0 <= i < s.len() && #[trigger] s[i].0 == v;
        lemma_power_at(s, i);
    }
}

/// Where a search for `v` in a sorted list stops: everything before `r` is smaller.
pub open spec fn search_stop(s: Seq<(Variable, i64)>, v: Variable, r: int) -> bool {
    &&& 0 <= r <= s.len()
    &&& forall|k: int| 0 <= k < r ==> var_lt(#[trigger] s[k].0, v)
    &&& r < s.len() ==> !var_lt(s[r].0, v)
}

/// If the search stopped at `r` without finding `v` there, `v` does not occur,
/// and every entry from `r` on is greater than `v`.
pub proof fn lemma_search_absent(s: Seq<(Variable, i64)>, v: Variable, r: int)
    requires
        mono_wf(s),
        search_stop(s, v, r),
        r == s.len() || s[r].0 != v,
    ensures
        !has_var(s, v),
        forall|k: int| r <= k < s.len() ==> var_lt(v, #[trigger] s[k].0),
{
    assert forall|k: int| r <= k < s.len() implies var_lt(v, #[trigger] s[k].0) by {
        lemma_var_lt_total(v, s[r].0);
        if k > r {
            lemma_var_lt_transitive(v, s[r].0, s[k].0);
        }
    }
    if has_var(s, v) {
        let k = choose|k: int| 0 <= k < s.len() && #[trigger] s[k].0 == v;
        lemma_var_lt_irreflexive(v);
        if k < r {
            assert(var_lt(s[k].0, v));
        } else {
            assert(var_lt(v, s[k].0));
        }
    }
}

/// Finds where `v` is or would be inserted in a sorted list.
pub fn mono_find(m: &Vec<(Variable, i64)>, v: &Variable) -> (r: usize)
    requires
        mono_wf(m@),
    ensures
        search_stop(m@, *v, r as int),
{
    let mut i: usize = 0;
    while i < m.len()
        invariant
            0 <= i <= m.len(),
            forall|k: int| 0 <= k < i ==> var_lt(#[trigger] m@[k].0, *v),
        decreases m.len() - i,
    {
        if m[i].0.compare(v) != -1 {
            return i;
        }
        i = i + 1;
    }
    i
}

/// The power of `v` in the monomial (0 when absent).
pub fn mono_get(m: &Vec<(Variable, i64)>, v: &Variable) -> (p: i64)
    requires
        mono_wf(m@),
    ensures
        p as int == power_in(m@, *v),
{
    let r = mono_find(m, v);
    if r < m.len() && m[r].0 == *v {
        proof {
            lemma_power_at(m@, r as int);
        }
        m[r].1
    } else {
        proof {
            lemma_search_absent(m@, *v, r as int);
        }
        0
    }
}

/// Sets the power of `v` to `p` (removing `v` when `p` is 0).
pub fn mono_set(m: &mut Vec<(Variable, i64)>, v: Variable, p: i64)
    requires
        mono_wf(old(m)@),
    ensures
        mono_wf(final(m)@),
        forall|w: Variable| #[trigger] power_in(final(m)@, w) == if w == v {
            p as int
        } else {
            power_in(old(m)@, w)
        },
{
    let ghost s = m@;
    let r = mono_find(m, &v);
    if r < m.len() && m[r].0 == v {
        if p == 0 {
            m.remove(r);
            let ghost t = m@;
            assert(t =~= s.remove(r as int));
            assert(mono_wf(t)) by {
                assert forall|i: int, j: int| 0 <= i < j < t.len() implies var_lt(#[trigger] t[i].0, #[trigger] t[j].0) by {
                    let ii = if i < r { i } else { i + 1 };
                    let jj = if j < r { j } else { j + 1 };
                    assert(t[i] == s[ii] && t[j] == s[jj]);
                }
                assert forall|i: int| 0 <= i < t.len() implies #[trigger] t[i].1 != 0 by {
                    let ii = if i < r { i } else { i + 1 };
                    assert(t[i] == s[ii]);
                }
            }
            assert forall|w: Variable| #[trigger] power_in(t, w) == if w == v { p as int } else { power_in(s, w) } by {
                lemma_has_var_iff_nonzero(t, w);
                lemma_has_var_iff_nonzero(s, w);
                if has_var(t, w) {
                    let i = choose|i: int| 0 <= i < t.len() && #[trigger] t[i].0 == w;
                    lemma_power_at(t, i);
                    let ii = if i < r { i } else { i + 1 };
                    assert(t[i] == s[ii]);
                    lemma_power_at(s, ii);
                    if w == v {
                        lemma_power_at(s, r as int);
                        assert(ii != r);
                        assert(false);
                    }
                } else {
                    if w != v && has_var(s, w) {
                        let k = choose|k: int| 0 <= k < s.len() && #[trigger] s[k].0 == w;
                        assert(k != r);
                        let kk = if k < r { k } else { k - 1 };
                        assert(t[kk] == s[k]);
                    }
                }
            }
        } else {
            m.set(r, (v, p));
            let ghost t = m@;
            assert(t =~= s.update(r as int, (v, p)));
            assert(mono_wf(t)) by {
                assert forall|i: int, j: int| 0 <= i < j < t.len() implies var_lt(#[trigger] t[i].0, #[trigger] t[j].0) by {
                    assert(s[i].0 == t[i].0 && s[j].0 == t[j].0);
                }
                assert forall|i: int| 0 <= i < t.len() implies #[trigger] t[i].1 != 0 by {
                    if i != r {
                        assert(t[i] == s[i]);
                    }
                }
            }
            assert forall|w: Variable| #[trigger] power_in(t, w) == if w == v { p as int } else { power_in(s, w) } by {
                lemma_has_var_iff_nonzero(t, w);
                lemma_has_var_iff_nonzero(s, w);
                if w == v {
                    lemma_power_at(t, r as int);
                } else {
                    if has_var(t, w) {
                        let i = choose|i: int| 0 <= i < t.len() && #[trigger] t[i].0 == w;
                        lemma_power_at(t, i);
                        assert(i != r);
                        lemma_power_at(s, i);
                    }
                    if has_var(s, w) {
                        let i = choose|i: int| 0 <= i < s.len() && #[trigger] s[i].0 == w;
                        lemma_power_at(s, i);
                        assert(i != r);
                        assert(t[i] == s[i]);
                        lemma_power_at(t, i);
                    }
                }
            }
        }
    } else {
        proof {
            lemma_search_absent(s, v, r as int);
        }
        if p != 0 {
            m.insert(r, (v, p));
            let ghost t = m@;
            assert(t =~= s.insert(r as int, (v, p)));
            assert(mono_wf(t)) by {
                assert forall|i: int, j: int| 0 <= i < j < t.len() implies var_lt(#[trigger] t[i].0, #[trigger] t[j].0) by {
                    if i < r && j < r {
                        assert(t[i] == s[i] && t[j] == s[j]);
                    } else if i < r && j == r {
                        assert(t[i] == s[i]);
                    } else if i < r {
                        assert(t[i] == s[i] && t[j] == s[j - 1]);
                    } else if i == r {
                        assert(t[j] == s[j - 1]);
                    } else {
                        assert(t[i] == s[i - 1] && t[j] == s[j - 1]);
                    }
                }
                assert forall|i: int| 0 <= i < t.len() implies #[trigger] t[i].1 != 0 by {
                    if i < r {
                        assert(t[i] == s[i]);
                    } else if i > r {
                        assert(t[i] == s[i - 1]);
                    }
                }
            }
            assert forall|w: Variable| #[trigger] power_in(t, w) == if w == v { p as int } else { power_in(s, w) } by {
                lemma_has_var_iff_nonzero(t, w);
                lemma_has_var_iff_nonzero(s, w);
                if w == v {
                    lemma_power_at(t, r as int);
                } else {
                    if has_var(t, w) {
                        let i = choose|i: int| 0 <= i < t.len() && #[trigger] t[i].0 == w;
                        lemma_power_at(t, i);
                        assert(i != r);
                        let ii = if i < r { i } else { i - 1 };
                        assert(t[i] == s[ii]);
                        lemma_power_at(s, ii);
                    }
                    if has_var(s, w) {
                        let i = choose|i: int| 0 <= i < s.len() && #[trigger] s[i].0 == w;
                        lemma_power_at(s, i);
                        let ti = if i < r { i } else { i + 1 };
                        assert(t[ti] == s[i]);
                        lemma_power_at(t, ti);
                    }
                }
            }
        } else {
            assert forall|w: Variable| #[trigger] power_in(m@, w) == if w == v { p as int } else { power_in(s, w) } by {
            }
        }
    }
}

/// Two well-formed lists with the same powers are the same list.
pub proof fn lemma_mono_canonical(a: Seq<(Variable, i64)>, b: Seq<(Variable, i64)>)
    requires
        mono_wf(a),
        mono_wf(b),
        forall|w: Variable| #[trigger] power_in(a, w) == power_in(b, w),
    ensures
        a == b,
    decreases a.len(),
{
    if a.len() == 0 {
        if b.len() > 0 {
            lemma_power_at(b, 0);
            lemma_has_var_iff_nonzero(a, b[0].0);
            assert(power_in(a, b[0].0) == power_in(b, b[0].0));
        }
        assert(a =~= b);
    } else if b.len() == 0 {
        lemma_power_at(a, 0);
        lemma_has_var_iff_nonzero(b, a[0].0);
        assert(power_in(a, a[0].0) == power_in(b, a[0].0));
    } else {
        // the first entries hold the same (least) variable
        let va = a[0].0;
        let vb = b[0].0;
        lemma_power_at(a, 0);
        lemma_power_at(b, 0);
        lemma_has_var_iff_nonzero(a, vb);
        lemma_has_var_iff_nonzero(b, va);
        assert(power_in(a, va) == power_in(b, va));
        assert(power_in(a, vb) == power_in(b, vb));
        let ia = choose|i: int| 0 <= i < a.len() && #[trigger] a[i].0 == vb;
        let ib = choose|i: int| 0 <= i < b.len() && #[trigger] b[i].0 == va;
        if va != vb {
            if ia > 0 {
                assert(var_lt(a[0].0, a[ia].0));
            }
            if ib > 0 {
                assert(var_lt(b[0].0, b[ib].0));
            }
            lemma_var_lt_asymmetric(va, vb);
            assert(false);
        }
        assert(a[0] == b[0]);
        let ta = a.drop_first();
        let tb = b.drop_first();
        assert(mono_wf(ta)) by {
            assert forall|i: int, j: int| 0 <= i < j < ta.len() implies var_lt(#[trigger] ta[i].0, #[trigger] ta[j].0) by {
                assert(ta[i] == a[i + 1] && ta[j] == a[j + 1]);
            }
            assert forall|i: int| 0 <= i < ta.len() implies #[trigger] ta[i].1 != 0 by {
                assert(ta[i] == a[i + 1]);
            }
        }
        assert(mono_wf(tb)) by {
            assert forall|i: int, j: int| 0 <= i < j < tb.len() implies var_lt(#[trigger] tb[i].0, #[trigger] tb[j].0) by {
                assert(tb[i] == b[i + 1] && tb[j] == b[j + 1]);
            }
            assert forall|i: int| 0 <= i < tb.len() implies #[trigger] tb[i].1 != 0 by {
                assert(tb[i] == b[i + 1]);
            }
        }
        assert forall|w: Variable| #[trigger] power_in(ta, w) == power_in(tb, w) by {
            lemma_drop_first_power(a, w);
            lemma_drop_first_power(b, w);
            assert(power_in(a, w) == power_in(b, w));
        }
        lemma_mono_canonical(ta, tb);
        assert(a =~= b) by {
            assert forall|i: int| 0 <= i < a.len() implies a[i] == b[i] by {
                if i > 0 {
                    assert(a[i] == ta[i - 1] && b[i] == tb[i - 1]);
                }
            }
        }
    }
}

/// Dropping the first entry of a well-formed list removes exactly its variable.
pub proof fn lemma_drop_first_power(s: Seq<(Variable, i64)>, w: Variable)
    requires
        mono_wf(s),
        s.len() > 0,
    ensures
        power_in(s.drop_first(), w) == if w == s[0].0 { 0 } else { power_in(s, w) },
{
    let t = s.drop_first();
    if has_var(t, w) {
        let i = choose|i: int| 0 <= i < t.len() && #[trigger] t[i].0 == w;
        assert(t[i] == s[i + 1]);
        lemma_power_at(s, i + 1);
        assert(var_lt(s[0].0, s[i + 1].0));
        lemma_var_lt_irreflexive(w);
        assert forall|k: int| 0 <= k < t.len() && #[trigger] t[k].0 == w implies k == i by {
            assert(t[k] == s[k + 1]);
            if k < i {
                assert(var_lt(s[k + 1].0, s[i + 1].0));
            } else if k > i {
                assert(var_lt(s[i + 1].0, s[k + 1].0));
            }
        }
    } else {
        if w != s[0].0 && has_var(s, w) {
            let k = choose|k: int| 0 <= k < s.len() && #[trigger] s[k].0 == w;
            assert(k > 0);
            assert(t[k - 1] == s[k]);
        }
    }
}

/// The order of `(variable, power)` pairs: by variable, then by power.
pub open spec fn pair_lt(a: (Variable, i64), b: (Variable, i64)) -> bool {
    var_lt(a.0, b.0) || (a.0 == b.0 && a.1 < b.1)
}

/// Lexicographic order of pair lists from index `i` on (a proper prefix is smaller):
/// the order in which an expression keeps and prints its terms.
pub open spec fn lex_lt_from(a: Seq<(Variable, i64)>, b: Seq<(Variable, i64)>, i: int) -> bool
    decreases a.len() - i,
{
    if i < 0 || i >= a.len() {
        0 <= i < b.len()
    } else if i >= b.len() {
        false
    } else if pair_lt(a[i], b[i]) {
        true
    } else if a[i] == b[i] {
        lex_lt_from(a, b, i + 1)
    } else {
        false
    }
}

/// The lexicographic order of monomials.
pub open spec fn mono_lt(a: Seq<(Variable, i64)>, b: Seq<(Variable, i64)>) -> bool {
    lex_lt_from(a, b, 0)
}

pub proof fn lemma_pair_lt_total(a: (Variable, i64), b: (Variable, i64))
    ensures
        a == b || pair_lt(a, b) || pair_lt(b, a),
        !(pair_lt(a, b) && pair_lt(b, a)),
        !pair_lt(a, a),
{
    lemma_var_lt_total(a.0, b.0);
    lemma_var_lt_asymmetric(a.0, b.0);
    lemma_var_lt_irreflexive(a.0);
}

pub proof fn lemma_pair_lt_transitive(a: (Variable, i64), b: (Variable, i64), c: (Variable, i64))
    requires
        pair_lt(a, b),
        pair_lt(b, c),
    ensures
        pair_lt(a, c),
{
    if var_lt(a.0, b.0) && var_lt(b.0, c.0) {
        lemma_var_lt_transitive(a.0, b.0, c.0);
    }
}

pub proof fn lemma_lex_irreflexive(a: Seq<(Variable, i64)>, i: int)
    requires
        0 <= i,
    ensures
        !lex_lt_from(a, a, i),
    decreases a.len() - i,
{
    if i < a.len() {
        lemma_pair_lt_total(a[i], a[i]);
        lemma_lex_irreflexive(a, i + 1);
    }
}

pub proof fn lemma_lex_transitive(a: Seq<(Variable, i64)>, b: Seq<(Variable, i64)>, c: Seq<(Variable, i64)>, i: int)
    requires
        0 <= i,
        lex_lt_from(a, b, i),
        lex_lt_from(b, c, i),
    ensures
        lex_lt_from(a, c, i),
    decreases a.len() - i,
{
    if i < a.len() && i < b.len() && i < c.len() {
        lemma_pair_lt_total(a[i], b[i]);
        lemma_pair_lt_total(b[i], c[i]);
        if pair_lt(a[i], b[i]) && pair_lt(b[i], c[i]) {
            lemma_pair_lt_transitive(a[i], b[i], c[i]);
        } else if a[i] == b[i] && b[i] == c[i] {
            lemma_lex_transitive(a, b, c, i + 1);
        }
    }
}

/// Any two lists that agree before `i` are equal or ordered one way or the other.
pub proof fn lemma_lex_total(a: Seq<(Variable, i64)>, b: Seq<(Variable, i64)>, i: int)
    requires
        0 <= i <= a.len(),
        i <= b.len(),
        forall|k: int| 0 <= k < i ==> a[k] == b[k],
    ensures
        a == b || lex_lt_from(a, b, i) || lex_lt_from(b, a, i),
        !(lex_lt_from(a, b, i) && lex_lt_from(b, a, i)),
    decreases a.len() - i,
{
    if i == a.len() {
        if i == b.len() {
            assert(a =~= b);
        }
    } else if i == b.len() {
    } else {
        lemma_pair_lt_total(a[i], b[i]);
        if a[i] == b[i] {
            lemma_lex_total(a, b, i + 1);
        }
    }
}

/// Three-way comparison of monomials in the order `mono_lt`: -1, 0 or 1.
pub fn mono_compare(a: &Vec<(Variable, i64)>, b: &Vec<(Variable, i64)>) -> (r: i8)
    ensures
        r == -1 <==> mono_lt(a@, b@),
        r == 0 <==> a@ == b@,
        r == 1 <==> mono_lt(b@, a@),
        r == -1 || r == 0 || r == 1,
{
    proof {
        lemma_lex_total(a@, b@, 0);
        lemma_lex_irreflexive(a@, 0);
    }
    let mut i: usize = 0;
    while i < a.len() && i < b.len()
        invariant
            0 <= i <= a.len(),
            i <= b.len(),
            forall|k: int| 0 <= k < i ==> a@[k] == b@[k],
            mono_lt(a@, b@) == lex_lt_from(a@, b@, i as int),
            mono_lt(b@, a@) == lex_lt_from(b@, a@, i as int),
        decreases a.len() - i,
    {
        let (va, pa) = a[i];
        let (vb, pb) = b[i];
        let c = va.compare(&vb);
        if c == -1 {
            return -1;
        } else if c == 1 {
            return 1;
        } else if pa < pb {
            return -1;
        } else if pa > pb {
            return 1;
        }
        proof {
            assert(a@[i as int] == b@[i as int]);
            lemma_pair_lt_total(a@[i as int], b@[i as int]);
        }
        i = i + 1;
    }
    proof {
        lemma_lex_total(a@, b@, i as int);
    }
    if i < b.len() {
        -1
    } else if i < a.len() {
        1
    } else {
        proof {
            assert(a@ =~= b@);
        }
        0
    }
}

} // verus!
