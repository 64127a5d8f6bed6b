//! Finite sums of rationals, and the rearrangements that leave them unchanged.

use vstd::prelude::*;
use crate::rational::{rat_zero, rat_add};
use crate::divisibility::lowest;
use crate::laws::{lemma_zero_lowest, lemma_rat_add_lowest, law_rational_add_zero, law_rational_add_associative, law_rational_add_commutative};

verus! {

/// The sum of a list of rationals, added to 0 from the first.
pub open spec fn rsum(s: Seq<(int, int)>) -> (int, int)
    decreases s.len(),
{
    if s.len() == 0 {
        rat_zero()
    } else {
        rat_add(rsum(s.drop_last()), s.last())
    }
}

/// Every entry is in lowest terms.
pub open spec fn all_lowest(s: Seq<(int, int)>) -> bool {
    forall|i: int| 0 <= i < s.len() ==> lowest(#[trigger] s[i])
}

/// A sum of lowest-terms rationals is in lowest terms.
pub proof fn lemma_rsum_lowest(s: Seq<(int, int)>)
    requires
        all_lowest(s),
    ensures
        lowest(rsum(s)),
    decreases s.len(),
{
    lemma_zero_lowest();
    if s.len() > 0 {
        let d = s.drop_last();
        assert(all_lowest(d)) by {
            assert forall|i: int| 0 <= i < d.len() implies lowest(#[trigger] d[i]) by {
                assert(d[i] == s[i]);
            }
        }
        lemma_rsum_lowest(d);
        assert(lowest(s[s.len() - 1]));
        lemma_rat_add_lowest(rsum(d), s.last());
    }
}

/// A sum in which only the entry at `m` may be nonzero is that entry.
pub proof fn lemma_rsum_single(s: Seq<(int, int)>, m: int)
    requires
        all_lowest(s),
        0 <= m < s.len(),
        forall|i: int| 0 <= i < s.len() && i != m ==> #[trigger] s[i] == rat_zero(),
    ensures
        rsum(s) == s[m],
    decreases s.len(),
{
    lemma_zero_lowest();
    let d = s.drop_last();
    assert(all_lowest(d)) by {
        assert forall|i: int| 0 <= i < d.len() implies lowest(#[trigger] d[i]) by {
            assert(d[i] == s[i]);
        }
    }
    lemma_rsum_lowest(d);
    if m == s.len() - 1 {
        lemma_rsum_zero(d);
        assert(lowest(s[m]));
        law_rational_add_zero(s[m]);
    } else {
        assert forall|i: int| 0 <= i < d.len() && i != m implies #[trigger] d[i] == rat_zero() by {
            assert(d[i] == s[i]);
        }
        lemma_rsum_single(d, m);
        assert(s.last() == rat_zero());
        assert(lowest(s[m]));
        law_rational_add_zero(s[m]);
    }
}

/// A sum of zeros is 0.
pub proof fn lemma_rsum_zero(s: Seq<(int, int)>)
    requires
        forall|i: int| 0 <= i < s.len() ==> #[trigger] s[i] == rat_zero(),
    ensures
        rsum(s) == rat_zero(),
    decreases s.len(),
{
    if s.len() > 0 {
        let d = s.drop_last();
        assert forall|i: int| 0 <= i < d.len() implies #[trigger] d[i] == rat_zero() by {
            assert(d[i] == s[i]);
        }
        lemma_rsum_zero(d);
        lemma_zero_lowest();
        law_rational_add_zero(rat_zero());
    }
}

/// `(a + b) + (c + d) == (a + c) + (b + d)`.
proof fn lemma_add_swap_middle(a: (int, int), b: (int, int), c: (int, int), d: (int, int))
    requires
        lowest(a),
        lowest(b),
        lowest(c),
        lowest(d),
    ensures
        rat_add(rat_add(a, b), rat_add(c, d)) == rat_add(rat_add(a, c), rat_add(b, d)),
{
    lemma_rat_add_lowest(a, b);
    lemma_rat_add_lowest(c, d);
    lemma_rat_add_lowest(b, c);
    lemma_rat_add_lowest(c, b);
    lemma_rat_add_lowest(a, c);
    lemma_rat_add_lowest(b, d);
    law_rational_add_associative(rat_add(a, b), c, d);
    law_rational_add_associative(a, b, c);
    law_rational_add_commutative(b, c);
    law_rational_add_associative(a, c, b);
    law_rational_add_associative(rat_add(a, c), b, d);
}

/// The sum of entrywise sums is the sum of the two sums.
pub proof fn lemma_rsum_pointwise(s: Seq<(int, int)>, t: Seq<(int, int)>)
    requires
        s.len() == t.len(),
        all_lowest(s),
        all_lowest(t),
    ensures
        rsum(Seq::new(s.len(), |i: int| rat_add(s[i], t[i]))) == rat_add(rsum(s), rsum(t)),
    decreases s.len(),
{
    let u = Seq::new(s.len(), |i: int| rat_add(s[i], t[i]));
    lemma_zero_lowest();
    if s.len() == 0 {
        law_rational_add_zero(rat_zero());
    } else {
        let ds = s.drop_last();
        let dt = t.drop_last();
        assert(all_lowest(ds)) by {
            assert forall|i: int| 0 <= i < ds.len() implies lowest(#[trigger] ds[i]) by {
                assert(ds[i] == s[i]);
            }
        }
        assert(all_lowest(dt)) by {
            assert forall|i: int| 0 <= i < dt.len() implies lowest(#[trigger] dt[i]) by {
                assert(dt[i] == t[i]);
            }
        }
        lemma_rsum_pointwise(ds, dt);
        assert(u.drop_last() =~= Seq::new(ds.len(), |i: int| rat_add(ds[i], dt[i])));
        lemma_rsum_lowest(ds);
        lemma_rsum_lowest(dt);
        assert(lowest(s.last()) && lowest(t.last())) by {
            assert(lowest(s[s.len() - 1]));
            assert(lowest(t[t.len() - 1]));
        }
        lemma_add_swap_middle(rsum(ds), rsum(dt), s.last(), t.last());
    }
}

/// The rows of a table of rationals: entry `(i, j)` of an `n` by `m` table is `f(i, j)`.
pub open spec fn row_sums(f: spec_fn(int, int) -> (int, int), n: int, m: int) -> Seq<(int, int)> {
    Seq::new(n as nat, |i: int| rsum(Seq::new(m as nat, |j: int| f(i, j))))
}

/// The columns of that table.
pub open spec fn column_sums(f: spec_fn(int, int) -> (int, int), n: int, m: int) -> Seq<(int, int)> {
    Seq::new(m as nat, |j: int| rsum(Seq::new(n as nat, |i: int| f(i, j))))
}

/// Summing a table by rows or by columns gives the same total.
pub proof fn lemma_rsum_swap(f: spec_fn(int, int) -> (int, int), n: int, m: int)
    requires
        0 <= n,
        0 <= m,
        forall|i: int, j: int| 0 <= i < n && 0 <= j < m ==> lowest(#[trigger] f(i, j)),
    ensures
        rsum(row_sums(f, n, m)) == rsum(column_sums(f, n, m)),
    decreases n,
{
    lemma_zero_lowest();
    if n == 0 {
        let c = column_sums(f, 0, m);
        assert forall|j: int| 0 <= j < c.len() implies #[trigger] c[j] == rat_zero() by {
            assert(Seq::new(0nat, |i: int| f(i, j)).len() == 0);
        }
        lemma_rsum_zero(c);
    } else {
        lemma_rsum_swap(f, n - 1, m);
        let rows = row_sums(f, n, m);
        assert(rows.drop_last() =~= row_sums(f, n - 1, m));
        let last_row = Seq::new(m as nat, |j: int| f(n - 1, j));
        let prev = column_sums(f, n - 1, m);
        assert(all_lowest(prev)) by {
            assert forall|j: int| 0 <= j < prev.len() implies lowest(#[trigger] prev[j]) by {
                let col = Seq::new((n - 1) as nat, |i: int| f(i, j));
                assert(all_lowest(col));
                lemma_rsum_lowest(col);
            }
        }
        assert(all_lowest(last_row));
        lemma_rsum_pointwise(prev, last_row);
        let cols = column_sums(f, n, m);
        assert forall|j: int| 0 <= j < m implies #[trigger] cols[j] == rat_add(prev[j], last_row[j]) by {
            let col = Seq::new(n as nat, |i: int| f(i, j));
            assert(col.drop_last() =~= Seq::new((n - 1) as nat, |i: int| f(i, j)));
        }
        assert(cols =~= Seq::new(prev.len(), |j: int| rat_add(prev[j], last_row[j])));
    }
}

} // verus!
