//! Terms: a rational multiplier times a product of variables raised to nonzero
//! integer powers.

use vstd::prelude::*;
use crate::rational::{
    Rational, rat_zero, rat_one, rat_mul, rat_div, rat_neg, rat_pow, mul_fits, div_fits, pow_fits,
    fits, trunc_div, i64_div_rem, canonical,
};
use crate::forms::variable::{Variable, var_lt, var_text, var_sympy_text, lemma_var_lt_irreflexive, displayable};
use crate::rational::rat_text;
use crate::text::{decimal, superscript, push_str, push_char, i64_decimal, i64_superscript};
use crate::forms::monomial::{
    mono_wf, has_var, power_in, mono_map, i64_range, lemma_power_at, lemma_has_var_iff_nonzero,
    mono_get, mono_set, mono_compare,
};

verus! {

/// The power of `v` in a map of powers (0 when absent).
pub open spec fn pw(m: Map<Variable, int>, v: Variable) -> int {
    if m.dom().contains(v) { m[v] } else { 0 }
}

/// Powers added variable by variable, dropping those that become 0.
pub open spec fn powers_add(a: Map<Variable, int>, b: Map<Variable, int>) -> Map<Variable, int> {
    Map::new(|v: Variable| pw(a, v) + pw(b, v) != 0, |v: Variable| pw(a, v) + pw(b, v))
}

/// Powers subtracted variable by variable, dropping those that become 0.
pub open spec fn powers_sub(a: Map<Variable, int>, b: Map<Variable, int>) -> Map<Variable, int> {
    Map::new(|v: Variable| pw(a, v) - pw(b, v) != 0, |v: Variable| pw(a, v) - pw(b, v))
}

/// Every power multiplied by `k` (for `k != 0`).
pub open spec fn powers_scale(a: Map<Variable, int>, k: int) -> Map<Variable, int> {
    Map::new(|v: Variable| pw(a, v) * k != 0, |v: Variable| pw(a, v) * k)
}

/// No variable has power 0: the maps that terms of expressions have.
pub open spec fn valid_powers(m: Map<Variable, int>) -> bool {
    forall|v: Variable| #[trigger] m.dom().contains(v) ==> m[v] != 0
}

/// Adding then subtracting the same powers gives back a valid map.
pub proof fn lemma_powers_add_sub(k: Map<Variable, int>, t: Map<Variable, int>)
    requires
        valid_powers(k),
    ensures
        powers_sub(powers_add(k, t), t) == k,
        valid_powers(powers_add(k, t)),
{
    assert(powers_sub(powers_add(k, t), t) =~= k);
}

/// Subtracting then adding the same powers gives back a valid map.
pub proof fn lemma_powers_sub_add(k: Map<Variable, int>, t: Map<Variable, int>)
    requires
        valid_powers(k),
    ensures
        powers_add(powers_sub(k, t), t) == k,
        valid_powers(powers_sub(k, t)),
{
    assert(powers_add(powers_sub(k, t), t) =~= k);
}

/// A term as mathematics sees it: the powers of its variables and its multiplier.
pub type TermV = (Map<Variable, int>, (int, int));

/// The term 1.
pub open spec fn term_one() -> TermV {
    (Map::empty(), rat_one())
}

/// The product of two terms; a zero product keeps no variables.
pub open spec fn term_mul(a: TermV, b: TermV) -> TermV {
    if rat_mul(a.1, b.1) == rat_zero() {
        (Map::empty(), rat_zero())
    } else {
        (powers_add(a.0, b.0), rat_mul(a.1, b.1))
    }
}

/// The quotient of two terms (the divisor's multiplier is nonzero).
pub open spec fn term_div(a: TermV, b: TermV) -> TermV {
    (powers_sub(a.0, b.0), rat_div(a.1, b.1))
}

/// A term raised to an integer power: 1 for power 0, otherwise every power scaled.
pub open spec fn term_pow(a: TermV, e: int) -> TermV {
    if e == 0 {
        term_one()
    } else {
        (powers_scale(a.0, e), rat_pow(a.1, e))
    }
}

/// The product of two terms stays in `i64`: multiplier and (when it is not 0) powers.
pub open spec fn term_mul_fits(a: TermV, b: TermV) -> bool {
    &&& mul_fits(a.1, b.1)
    &&& rat_mul(a.1, b.1) != rat_zero() ==> forall|v: Variable| #[trigger] i64_range(pw(a.0, v) + pw(b.0, v))
}

/// The quotient of two terms is defined and stays in `i64`.
pub open spec fn term_div_fits(a: TermV, b: TermV) -> bool {
    &&& div_fits(a.1, b.1)
    &&& forall|v: Variable| #[trigger] i64_range(pw(a.0, v) - pw(b.0, v))
}

/// Raising a term to `e` is defined (no `0^0`, no `0^-n`) and stays in range.
pub open spec fn term_pow_fits(a: TermV, e: int) -> bool {
    &&& e == 0 ==> a.1 != rat_zero()
    &&& e != 0 ==> {
        &&& pow_fits(a.1, e)
        &&& forall|v: Variable| #[trigger] i64_range(pw(a.0, v) * e)
    }
}

/// A symbolic term consisting of a rational multiplier and a product of
/// variables raised to integer exponents.
#[derive(Debug)]
pub struct Term {
    variables: Vec<(Variable, i64)>,
    multiplier: Rational,
}

impl View for Term {
    type V = TermV;

    closed spec fn view(&self) -> TermV {
        (mono_map(self.variables@), self.multiplier@)
    }
}

/// For a well-formed list, the map's lookups are the list's powers.
pub proof fn lemma_pw_mono_map(s: Seq<(Variable, i64)>, v: Variable)
    requires
        mono_wf(s),
    ensures
        pw(mono_map(s), v) == power_in(s, v),
{
    lemma_has_var_iff_nonzero(s, v);
}

/// A well-formed list whose powers agree with a map of nonzero powers has that map.
pub proof fn lemma_mono_map_eq(s: Seq<(Variable, i64)>, m: Map<Variable, int>)
    requires
        mono_wf(s),
        forall|v: Variable| #[trigger] power_in(s, v) == pw(m, v),
        forall|v: Variable| m.dom().contains(v) ==> #[trigger] m[v] != 0,
    ensures
        mono_map(s) == m,
{
    assert forall|v: Variable| #[trigger] mono_map(s).dom().contains(v) == m.dom().contains(v) by {
        lemma_has_var_iff_nonzero(s, v);
        assert(power_in(s, v) == pw(m, v));
    }
    assert(mono_map(s) =~= m);
}

impl Term {
    /// Well-formed: sorted distinct variables with nonzero powers, a lowest-terms multiplier.
    pub closed spec fn wf(&self) -> bool {
        mono_wf(self.variables@) && self.multiplier.wf()
    }

    /// The list of `(variable, power)` pairs, strictly sorted by variable.
    pub closed spec fn pairs(&self) -> Seq<(Variable, i64)> {
        self.variables@
    }

    /// Whether `self * rhs` can be formed without leaving `i64` (what `mul` requires).
    pub fn mul_fits_check(&self, rhs: &Term) -> (b: bool)
        requires
            self.wf(),
            rhs.wf(),
        ensures
            b == term_mul_fits(self@, rhs@),
    {
        if !self.multiplier.mul_fits_check(&rhs.multiplier) {
            return false;
        }
        if self.multiplier.is_zero() || rhs.multiplier.is_zero() {
            proof {
                crate::rational::lemma_rat_mul_zero(self@.1);
                crate::rational::lemma_rat_mul_zero(rhs@.1);
            }
            return true;
        }
        proof {
            crate::forms::expression::lemma_nonzero_canonical(self@.1);
            crate::forms::expression::lemma_nonzero_canonical(rhs@.1);
            crate::rational::lemma_rat_nonzero_ops(self@.1, rhs@.1);
        }
        let s = &self.variables;
        let mut i: usize = 0;
        while i < s.len()
            invariant
                0 <= i <= s.len(),
                s@ == self.variables@,
                rat_mul(self@.1, rhs@.1) != rat_zero(),
                mono_wf(s@),
                mono_wf(rhs.variables@),
                forall|j: int| 0 <= j < i ==> i64_range(#[trigger] s@[j].1 + power_in(rhs.variables@, s@[j].0)),
            decreases s.len() - i,
        {
            let q = mono_get(&rhs.variables, &s[i].0);
            let sum: i128 = s[i].1 as i128 + q as i128;
            if sum < -0x8000_0000_0000_0000i128 || sum > 0x7fff_ffff_ffff_ffffi128 {
                proof {
                    let v = s@[i as int].0;
                    lemma_power_at(s@, i as int);
                    lemma_pw_mono_map(s@, v);
                    lemma_pw_mono_map(rhs.variables@, v);
                    assert(!i64_range(pw(self@.0, v) + pw(rhs@.0, v)));
                }
                return false;
            }
            i = i + 1;
        }
        proof {
            assert forall|v: Variable| #[trigger] i64_range(pw(self@.0, v) + pw(rhs@.0, v)) by {
                lemma_pw_mono_map(s@, v);
                lemma_pw_mono_map(rhs.variables@, v);
                if has_var(s@, v) {
                    let j = choose|j: int| 0 <= j < s@.len() && #[trigger] s@[j].0 == v;
                    lemma_power_at(s@, j);
                    assert(i64_range(s@[j].1 + power_in(rhs.variables@, s@[j].0)));
                } else {
                    if has_var(rhs.variables@, v) {
                        let j = choose|j: int| 0 <= j < rhs.variables@.len() && #[trigger] rhs.variables@[j].0 == v;
                        lemma_power_at(rhs.variables@, j);
                    }
                }
            }
        }
        true
    }

    /// Whether `self` raised to `e` can be formed without leaving range (what `pow` requires).
    pub fn pow_fits_check(&self, e: i64) -> (b: bool)
        requires
            self.wf(),
        ensures
            b == term_pow_fits(self@, e as int),
    {
        if e == 0 {
            return !self.multiplier.is_zero();
        }
        if !self.multiplier.pow_fits_check(e) {
            return false;
        }
        let s = &self.variables;
        let mut i: usize = 0;
        while i < s.len()
            invariant
                0 <= i <= s.len(),
                s@ == self.variables@,
                mono_wf(s@),
                forall|j: int| 0 <= j < i ==> i64_range(#[trigger] s@[j].1 * e),
            decreases s.len() - i,
        {
            let p = s[i].1;
            proof {
                assert(-0x8000_0000_0000_0000 * 0x8000_0000_0000_0000 <= (p as int) * (e as int) <= 0x8000_0000_0000_0000 * 0x8000_0000_0000_0000) by (nonlinear_arith)
                    requires
                        -0x8000_0000_0000_0000 <= p <= 0x7fff_ffff_ffff_ffff,
                        -0x8000_0000_0000_0000 <= e <= 0x7fff_ffff_ffff_ffff;
            }
            let prod: i128 = (p as i128) * (e as i128);
            if prod < -0x8000_0000_0000_0000i128 || prod > 0x7fff_ffff_ffff_ffffi128 {
                proof {
                    let v = s@[i as int].0;
                    lemma_power_at(s@, i as int);
                    lemma_pw_mono_map(s@, v);
                    assert(!i64_range(pw(self@.0, v) * e));
                }
                return false;
            }
            i = i + 1;
        }
        proof {
            assert forall|v: Variable| #[trigger] i64_range(pw(self@.0, v) * e) by {
                lemma_pw_mono_map(s@, v);
                if has_var(s@, v) {
                    let j = choose|j: int| 0 <= j < s@.len() && #[trigger] s@[j].0 == v;
                    lemma_power_at(s@, j);
                    assert(i64_range(s@[j].1 * e));
                }
            }
        }
        true
    }

    /// The product, or `None` where forming it would leave `i64`.
    pub fn checked_mul(self, rhs: Term) -> (r: Option<Term>)
        requires
            self.wf(),
            rhs.wf(),
        ensures
            r is Some <==> term_mul_fits(self@, rhs@),
            r matches Some(t) ==> t.wf() && t@ == term_mul(self@, rhs@),
    {
        if self.mul_fits_check(&rhs) {
            Some(self.mul(rhs))
        } else {
            None
        }
    }

    /// A term involves finitely many variables.
    pub proof fn lemma_powers_finite(&self)
        ensures
            self@.0.dom().finite(),
    {
        let s = self.variables@;
        let names = Seq::new(s.len(), |i: int| s[i].0);
        assert forall|v: Variable| #[trigger] self@.0.dom().contains(v) implies names.to_set().contains(v) by {
            let i = choose|i: int| 0 <= i < s.len() && #[trigger] s[i].0 == v;
            assert(names[i] == v);
        }
        vstd::seq_lib::seq_to_set_is_finite(names);
        vstd::set_lib::lemma_set_subset_finite(names.to_set(), self@.0.dom());
    }

    /// Every power of a term is nonzero.
    pub proof fn lemma_powers_nonzero(&self)
        requires
            self.wf(),
        ensures
            forall|v: Variable| self@.0.dom().contains(v) ==> #[trigger] self@.0[v] != 0,
            canonical_of(self@.1),
            mono_wf(self.pairs()),
            self@.0 == mono_map(self.pairs()),
    {
        assert forall|v: Variable| self@.0.dom().contains(v) implies #[trigger] self@.0[v] != 0 by {
            lemma_has_var_iff_nonzero(self.variables@, v);
        }
    }

    /// The powers are read off the pair list.
    pub proof fn lemma_view_from_pairs(&self)
        ensures
            self@.0 == mono_map(self.pairs()),
    {
    }

    /// Builds a term from sorted pairs and a multiplier.
    pub(crate) fn from_parts(variables: Vec<(Variable, i64)>, multiplier: Rational) -> (t: Term)
        requires
            mono_wf(variables@),
            multiplier.wf(),
        ensures
            t.wf(),
            t.pairs() == variables@,
            t@ == (mono_map(variables@), multiplier@),
    {
        Term { variables, multiplier }
    }

    /// The sorted `(variable, power)` pairs.
    pub(crate) fn pairs_vec(&self) -> (r: &Vec<(Variable, i64)>)
        ensures
            r@ == self.pairs(),
    {
        &self.variables
    }

    /// The term 1.
    pub fn one() -> (t: Term)
        ensures
            t.wf(),
            t@ == term_one(),
    {
        let t = Term { variables: Vec::new(), multiplier: Rational::one() };
        proof {
            assert(mono_map(t.variables@) =~= Map::empty());
        }
        t
    }

    /// A scalar term.
    pub fn from_rational(c: Rational) -> (t: Term)
        requires
            c.wf(),
        ensures
            t.wf(),
            t@ == (Map::<Variable, int>::empty(), c@),
    {
        let t = Term { variables: Vec::new(), multiplier: c };
        proof {
            assert(mono_map(t.variables@) =~= Map::empty());
        }
        t
    }

    /// The integer `n` as a term.
    pub fn from_integer(n: i64) -> (t: Term)
        requires
            fits(n as int),
        ensures
            t.wf(),
            t@ == (Map::<Variable, int>::empty(), (n as int, 1int)),
    {
        Term::from_rational(Rational::from_integer(n))
    }

    /// A variable to the first power.
    pub fn from_variable(v: Variable) -> (t: Term)
        ensures
            t.wf(),
            t@ == (Map::<Variable, int>::empty().insert(v, 1), rat_one()),
    {
        let mut variables: Vec<(Variable, i64)> = Vec::new();
        variables.push((v, 1));
        let t = Term { variables, multiplier: Rational::one() };
        proof {
            lemma_power_at(t.variables@, 0);
            assert forall|w: Variable| #[trigger] power_in(t.variables@, w) == pw(Map::<Variable, int>::empty().insert(v, 1), w) by {
                lemma_has_var_iff_nonzero(t.variables@, w);
                if w != v {
                    assert(!has_var(t.variables@, w));
                }
            }
            lemma_mono_map_eq(t.variables@, Map::<Variable, int>::empty().insert(v, 1));
        }
        t
    }

    /// Returns the rational multiplier of the term.
    pub fn multiplier(&self) -> (c: Rational)
        ensures
            c@ == self@.1,
            self.wf() ==> c.wf(),
    {
        self.multiplier
    }

    /// Returns the power of the specified variable in the term, or 0 if the variable is not present.
    pub fn get_power_of_variable(&self, variable: &Variable) -> (p: i64)
        requires
            self.wf(),
        ensures
            p as int == pw(self@.0, *variable),
    {
        proof {
            lemma_pw_mono_map(self.variables@, *variable);
        }
        mono_get(&self.variables, variable)
    }

    /// Sets the power of the specified variable in the term (0 removes it).
    pub fn set_power_of_variable(&mut self, variable: &Variable, power: i64)
        requires
            old(self).wf(),
        ensures
            final(self).wf(),
            final(self)@.1 == old(self)@.1,
            final(self)@.0 == if power == 0 {
                old(self)@.0.remove(*variable)
            } else {
                old(self)@.0.insert(*variable, power as int)
            },
    {
        let ghost old_vars = self.variables@;
        mono_set(&mut self.variables, *variable, power);
        proof {
            let target = if power == 0 {
                mono_map(old_vars).remove(*variable)
            } else {
                mono_map(old_vars).insert(*variable, power as int)
            };
            assert forall|w: Variable| #[trigger] power_in(self.variables@, w) == pw(target, w) by {
                lemma_pw_mono_map(old_vars, w);
            }
            assert forall|w: Variable| target.dom().contains(w) implies #[trigger] target[w] != 0 by {
                lemma_has_var_iff_nonzero(old_vars, w);
            }
            lemma_mono_map_eq(self.variables@, target);
        }
    }

    /// Returns true if the multiplier is nonzero and the variable has a nonzero power.
    pub fn contains_variable(&self, variable: &Variable) -> (b: bool)
        requires
            self.wf(),
        ensures
            b == (self@.0.dom().contains(*variable) && self@.1 != rat_zero()),
    {
        let p = self.get_power_of_variable(variable);
        proof {
            lemma_has_var_iff_nonzero(self.variables@, *variable);
        }
        p != 0 && !self.multiplier.is_zero()
    }

    /// Returns true if the term is a scalar (it has no variables).
    pub fn is_scalar(&self) -> (b: bool)
        requires
            self.wf(),
        ensures
            b == (self@.0 == Map::<Variable, int>::empty()),
    {
        proof {
            if self.variables.len() > 0 {
                lemma_power_at(self.variables@, 0);
                assert(self@.0.dom().contains(self.variables@[0].0));
            } else {
                assert(self@.0 =~= Map::<Variable, int>::empty());
            }
        }
        self.variables.len() == 0
    }

    /// Negation: the multiplier changes sign.
    pub fn neg(self) -> (t: Term)
        requires
            self.wf(),
        ensures
            t.wf(),
            t.pairs() == self.pairs(),
            t@ == (self@.0, rat_neg(self@.1)),
    {
        Term { variables: self.variables, multiplier: self.multiplier.neg() }
    }

    /// The product of two terms (`*=`): multipliers multiply, powers add and
    /// powers that reach 0 disappear; a zero product keeps no variables.
    pub fn mul(self, rhs: Term) -> (t: Term)
        requires
            self.wf(),
            rhs.wf(),
            term_mul_fits(self@, rhs@),
        ensures
            t.wf(),
            t@ == term_mul(self@, rhs@),
    {
        let c = self.multiplier.mul(rhs.multiplier);
        if c.is_zero() {
            let t = Term { variables: Vec::new(), multiplier: c };
            proof {
                assert(mono_map(t.variables@) =~= Map::empty());
            }
            return t;
        }
        let ghost sv = self@;
        let ghost rv = rhs@;
        let mut vars = self.variables;
        let ghost a = vars@;
        let ghost b = rhs.variables@;
        proof {
            assert(sv.0 == mono_map(a) && rv.0 == mono_map(b));
            assert forall|v: Variable| #[trigger] i64_range(pw(mono_map(a), v) + pw(mono_map(b), v)) by {
                assert(i64_range(pw(sv.0, v) + pw(rv.0, v)));
            }
        }
        let mut i: usize = 0;
        while i < rhs.variables.len()
            invariant
                0 <= i <= rhs.variables.len(),
                b == rhs.variables@,
                mono_wf(a),
                mono_wf(b),
                mono_wf(vars@),
                forall|v: Variable| #[trigger] i64_range(pw(mono_map(a), v) + pw(mono_map(b), v)),
                forall|w: Variable| #[trigger] power_in(vars@, w) == power_in(a, w) + power_in(b.take(i as int), w),
            decreases rhs.variables.len() - i,
        {
            let (v, p) = rhs.variables[i];
            let cur = mono_get(&vars, &v);
            proof {
                lemma_power_take(b, i as int, v);
                lemma_power_at(b, i as int);
                lemma_take_absent(b, i as int);
                lemma_pw_mono_map(a, v);
                lemma_pw_mono_map(b, v);
                assert(i64_range(pw(mono_map(a), v) + pw(mono_map(b), v)));
            }
            mono_set(&mut vars, v, cur + p);
            proof {
                assert forall|w: Variable| #[trigger] power_in(vars@, w) == power_in(a, w) + power_in(b.take(i + 1), w) by {
                    lemma_power_take(b, i as int, w);
                }
            }
            i = i + 1;
        }
        let t = Term { variables: vars, multiplier: c };
        proof {
            assert(b.take(b.len() as int) =~= b);
            let target = powers_add(mono_map(a), mono_map(b));
            assert forall|w: Variable| #[trigger] power_in(vars@, w) == pw(target, w) by {
                lemma_pw_mono_map(a, w);
                lemma_pw_mono_map(b, w);
            }
            lemma_mono_map_eq(vars@, target);
        }
        t
    }

    /// The quotient of two terms (`/=`): multipliers divide and powers subtract.
    pub fn div(self, rhs: Term) -> (t: Term)
        requires
            self.wf(),
            rhs.wf(),
            term_div_fits(self@, rhs@),
        ensures
            t.wf(),
            t@ == term_div(self@, rhs@),
    {
        let c = self.multiplier.div(rhs.multiplier);
        let ghost sv = self@;
        let ghost rv = rhs@;
        let mut vars = self.variables;
        let ghost a = vars@;
        let ghost b = rhs.variables@;
        proof {
            assert(sv.0 == mono_map(a) && rv.0 == mono_map(b));
            assert forall|v: Variable| #[trigger] i64_range(pw(mono_map(a), v) - pw(mono_map(b), v)) by {
                assert(i64_range(pw(sv.0, v) - pw(rv.0, v)));
            }
        }
        let mut i: usize = 0;
        while i < rhs.variables.len()
            invariant
                0 <= i <= rhs.variables.len(),
                b == rhs.variables@,
                mono_wf(a),
                mono_wf(b),
                mono_wf(vars@),
                forall|v: Variable| #[trigger] i64_range(pw(mono_map(a), v) - pw(mono_map(b), v)),
                forall|w: Variable| #[trigger] power_in(vars@, w) == power_in(a, w) - power_in(b.take(i as int), w),
            decreases rhs.variables.len() - i,
        {
            let (v, p) = rhs.variables[i];
            let cur = mono_get(&vars, &v);
            proof {
                lemma_power_take(b, i as int, v);
                lemma_power_at(b, i as int);
                lemma_take_absent(b, i as int);
                lemma_pw_mono_map(a, v);
                lemma_pw_mono_map(b, v);
                assert(i64_range(pw(mono_map(a), v) - pw(mono_map(b), v)));
            }
            mono_set(&mut vars, v, cur - p);
            proof {
                assert forall|w: Variable| #[trigger] power_in(vars@, w) == power_in(a, w) - power_in(b.take(i + 1), w) by {
                    lemma_power_take(b, i as int, w);
                }
            }
            i = i + 1;
        }
        let t = Term { variables: vars, multiplier: c };
        proof {
            assert(b.take(b.len() as int) =~= b);
            let target = powers_sub(mono_map(a), mono_map(b));
            assert forall|w: Variable| #[trigger] power_in(vars@, w) == pw(target, w) by {
                lemma_pw_mono_map(a, w);
                lemma_pw_mono_map(b, w);
            }
            lemma_mono_map_eq(vars@, target);
        }
        t
    }

    /// Raises the term to the specified integer power: `t^0` is 1 (and `0^0` is
    /// undefined), otherwise the multiplier is raised and every power scaled.
    pub fn pow(self, power: i64) -> (t: Term)
        requires
            self.wf(),
            term_pow_fits(self@, power as int),
        ensures
            t.wf(),
            t@ == term_pow(self@, power as int),
    {
        if power == 0 {
            return Term::one();
        }
        let c = self.multiplier.pow(power as i32);
        let ghost sv = self@;
        let mut vars = self.variables;
        let ghost a = vars@;
        proof {
            assert(sv.0 == mono_map(a));
            assert forall|v: Variable| #[trigger] i64_range(pw(mono_map(a), v) * power) by {
                assert(i64_range(pw(sv.0, v) * power));
            }
        }
        let mut i: usize = 0;
        while i < vars.len()
            invariant
                0 <= i <= vars.len(),
                power != 0,
                a.len() == vars.len(),
                mono_wf(a),
                forall|v: Variable| #[trigger] i64_range(pw(mono_map(a), v) * power),
                forall|k: int| 0 <= k < i ==> #[trigger] vars@[k] == (a[k].0, (a[k].1 * power) as i64),
                forall|k: int| i <= k < vars.len() ==> #[trigger] vars@[k] == a[k],
            decreases vars.len() - i,
        {
            let (v, p) = vars[i];
            proof {
                lemma_power_at(a, i as int);
                lemma_pw_mono_map(a, v);
                assert(i64_range(pw(mono_map(a), v) * power));
            }
            vars.set(i, (v, p * power));
            i = i + 1;
        }
        proof {
            assert forall|k: int| 0 <= k < vars@.len() implies #[trigger] vars@[k].1 != 0 by {
                assert(a[k].1 != 0);
                lemma_power_at(a, k);
                lemma_pw_mono_map(a, a[k].0);
                assert(i64_range(pw(mono_map(a), a[k].0) * power));
                assert(a[k].1 * power != 0) by (nonlinear_arith)
                    requires a[k].1 != 0, power != 0;
            }
            assert forall|w: Variable| #[trigger] has_var(vars@, w) == has_var(a, w) by {
                if has_var(a, w) {
                    let k = choose|k: int| 0 <= k < a.len() && #[trigger] a[k].0 == w;
                    assert(vars@[k].0 == w);
                }
                if has_var(vars@, w) {
                    let k = choose|k: int| 0 <= k < vars@.len() && #[trigger] vars@[k].0 == w;
                    assert(a[k].0 == w);
                }
            }
            assert(mono_wf(vars@)) by {
                assert forall|i: int, j: int| 0 <= i < j < vars@.len() implies var_lt(#[trigger] vars@[i].0, #[trigger] vars@[j].0) by {
                    assert(vars@[i].0 == a[i].0 && vars@[j].0 == a[j].0);
                }
            }
            let target = powers_scale(mono_map(a), power as int);
            assert forall|w: Variable| #[trigger] power_in(vars@, w) == pw(target, w) by {
                assert(has_var(vars@, w) == has_var(a, w));
                lemma_pw_mono_map(a, w);
                if has_var(a, w) {
                    let k = choose|k: int| 0 <= k < a.len() && #[trigger] a[k].0 == w;
                    lemma_power_at(a, k);
                    lemma_power_at(vars@, k);
                    lemma_pw_mono_map(a, w);
                    assert(i64_range(pw(mono_map(a), w) * power));
                    assert(a[k].1 * power != 0) by (nonlinear_arith)
                        requires a[k].1 != 0, power != 0;
                } else {
                    assert(0 * power == 0);
                }
            }
            lemma_mono_map_eq(vars@, target);
        }
        Term { variables: vars, multiplier: c }
    }

    /// Removes the given variables from the term and returns a term holding
    /// only the removed variables with their powers (multiplier 1).
    pub fn remove_variables(&mut self, variables: &Vec<Variable>) -> (residue: Term)
        requires
            old(self).wf(),
        ensures
            final(self).wf(),
            residue.wf(),
            final(self)@.1 == old(self)@.1,
            residue@.1 == rat_one(),
            forall|v: Variable| #[trigger] pw(final(self)@.0, v) == if variables@.contains(v) {
                0
            } else {
                pw(old(self)@.0, v)
            },
            forall|v: Variable| #[trigger] pw(residue@.0, v) == if variables@.contains(v) {
                pw(old(self)@.0, v)
            } else {
                0
            },
    {
        let mut residue = Term::one();
        let ghost orig = self@.0;
        let mut i: usize = 0;
        while i < variables.len()
            invariant
                0 <= i <= variables.len(),
                self.wf(),
                residue.wf(),
                self@.1 == old(self)@.1,
                residue@.1 == rat_one(),
                orig == old(self)@.0,
                forall|v: Variable| #[trigger] pw(self@.0, v) == if variables@.take(i as int).contains(v) {
                    0
                } else {
                    pw(orig, v)
                },
                forall|v: Variable| #[trigger] pw(residue@.0, v) == if variables@.take(i as int).contains(v) {
                    pw(orig, v)
                } else {
                    0
                },
            decreases variables.len() - i,
        {
            let v = variables[i];
            let ghost pre_self = self@.0;
            let ghost pre_res = residue@.0;
            let p = self.get_power_of_variable(&v);
            if p != 0 {
                self.set_power_of_variable(&v, 0);
                residue.set_power_of_variable(&v, p);
            }
            proof {
                assert forall|w: Variable| #[trigger] variables@.take(i + 1).contains(w) == (variables@.take(i as int).contains(w) || w == v) by {
                    if variables@.take(i + 1).contains(w) {
                        let k = choose|k: int| 0 <= k < i + 1 && #[trigger] variables@.take(i + 1)[k] == w;
                        if k < i {
                            assert(variables@.take(i as int)[k] == w);
                        }
                    }
                    if variables@.take(i as int).contains(w) {
                        let k = choose|k: int| 0 <= k < i && #[trigger] variables@.take(i as int)[k] == w;
                        assert(variables@.take(i + 1)[k] == w);
                    }
                    if w == v {
                        assert(variables@.take(i + 1)[i as int] == w);
                    }
                }
                assert forall|w: Variable| #[trigger] pw(self@.0, w) == if variables@.take(i + 1).contains(w) {
                    0
                } else {
                    pw(orig, w)
                } by {
                    assert(pw(pre_self, w) == if variables@.take(i as int).contains(w) { 0 } else { pw(orig, w) });
                    if p != 0 {
                        assert(self@.0 == pre_self.remove(v));
                    } else {
                        assert(self@.0 == pre_self);
                    }
                }
                assert forall|w: Variable| #[trigger] pw(residue@.0, w) == if variables@.take(i + 1).contains(w) {
                    pw(orig, w)
                } else {
                    0
                } by {
                    assert(pw(pre_self, w) == if variables@.take(i as int).contains(w) { 0 } else { pw(orig, w) });
                    assert(pw(pre_res, w) == if variables@.take(i as int).contains(w) { pw(orig, w) } else { 0 });
                    if p != 0 {
                        assert(residue@.0 == pre_res.insert(v, p as int));
                    } else {
                        assert(residue@.0 == pre_res);
                    }
                }
            }
            i = i + 1;
        }
        proof {
            assert(variables@.take(variables.len() as int) =~= variables@);
        }
        residue
    }

    /// Checks if the term is divisible by `divisor` raised to `power`: the
    /// variable occurs with a power of at least `power`.
    pub fn is_divisible_by_variable_power(&self, divisor: Variable, power: i64) -> (b: bool)
        requires
            self.wf(),
        ensures
            b == (self@.0.dom().contains(divisor) && self@.0[divisor] >= power),
    {
        let p = self.get_power_of_variable(&divisor);
        proof {
            lemma_has_var_iff_nonzero(self.variables@, divisor);
        }
        p != 0 && p >= power
    }

    /// Checks if the term is divisible by the input term; only the divisor's
    /// variables are considered.
    pub fn is_divisible_by(&self, divisor: &Term) -> (b: bool)
        requires
            self.wf(),
            divisor.wf(),
        ensures
            b == forall|v: Variable| #[trigger] divisor@.0.dom().contains(v) ==> (self@.0.dom().contains(v)
                && self@.0[v] >= divisor@.0[v]),
    {
        let mut i: usize = 0;
        while i < divisor.variables.len()
            invariant
                0 <= i <= divisor.variables.len(),
                self.wf(),
                divisor.wf(),
                forall|k: int| 0 <= k < i ==> {
                    let v = #[trigger] divisor.variables@[k].0;
                    self@.0.dom().contains(v) && self@.0[v] >= divisor.variables@[k].1
                },
            decreases divisor.variables.len() - i,
        {
            let (v, p) = divisor.variables[i];
            if !self.is_divisible_by_variable_power(v, p) {
                proof {
                    lemma_power_at(divisor.variables@, i as int);
                    lemma_has_var_iff_nonzero(divisor.variables@, v);
                    assert(divisor@.0.dom().contains(v));
                    assert(divisor@.0[v] == p);
                }
                return false;
            }
            i = i + 1;
        }
        proof {
            assert forall|v: Variable| #[trigger] divisor@.0.dom().contains(v) implies (self@.0.dom().contains(v)
                && self@.0[v] >= divisor@.0[v]) by {
                let k = choose|k: int| 0 <= k < divisor.variables@.len() && #[trigger] divisor.variables@[k].0 == v;
                lemma_power_at(divisor.variables@, k);
            }
        }
        true
    }
}

/// Lowest terms, as `Rational::wf` states it for a multiplier.
pub open spec fn canonical_of(r: (int, int)) -> bool {
    crate::rational::canonical(r)
}

/// The power of `w` in the first `i + 1` entries of a well-formed list.
pub proof fn lemma_power_take(s: Seq<(Variable, i64)>, i: int, w: Variable)
    requires
        mono_wf(s),
        0 <= i < s.len(),
    ensures
        power_in(s.take(i + 1), w) == power_in(s.take(i), w) + if w == s[i].0 { s[i].1 as int } else { 0 },
{
    let t1 = s.take(i + 1);
    let t0 = s.take(i);
    assert(mono_wf(t1)) by {
        assert forall|a: int, b: int| 0 <= a < b < t1.len() implies var_lt(#[trigger] t1[a].0, #[trigger] t1[b].0) by {
            assert(t1[a] == s[a] && t1[b] == s[b]);
        }
        assert forall|a: int| 0 <= a < t1.len() implies #[trigger] t1[a].1 != 0 by {
            assert(t1[a] == s[a]);
        }
    }
    assert(mono_wf(t0)) by {
        assert forall|a: int, b: int| 0 <= a < b < t0.len() implies var_lt(#[trigger] t0[a].0, #[trigger] t0[b].0) by {
            assert(t0[a] == s[a] && t0[b] == s[b]);
        }
        assert forall|a: int| 0 <= a < t0.len() implies #[trigger] t0[a].1 != 0 by {
            assert(t0[a] == s[a]);
        }
    }
    lemma_has_var_iff_nonzero(t1, w);
    lemma_has_var_iff_nonzero(t0, w);
    if w == s[i].0 {
        assert(t1[i] == s[i]);
        lemma_power_at(t1, i);
        if has_var(t0, w) {
            let k = choose|k: int| 0 <= k < t0.len() && #[trigger] t0[k].0 == w;
            assert(t0[k] == s[k]);
            assert(var_lt(s[k].0, s[i].0));
            lemma_var_lt_irreflexive(w);
        }
    } else {
        if has_var(t1, w) {
            let k = choose|k: int| 0 <= k < t1.len() && #[trigger] t1[k].0 == w;
            lemma_power_at(t1, k);
            assert(k != i);
            assert(t1[k] == t0[k]);
            lemma_power_at(t0, k);
        }
        if has_var(t0, w) {
            let k = choose|k: int| 0 <= k < t0.len() && #[trigger] t0[k].0 == w;
            lemma_power_at(t0, k);
            assert(t1[k] == t0[k]);
            lemma_power_at(t1, k);
        }
    }
}

/// The variable at index `i` does not occur among the first `i` entries.
pub proof fn lemma_take_absent(s: Seq<(Variable, i64)>, i: int)
    requires
        mono_wf(s),
        0 <= i < s.len(),
    ensures
        power_in(s.take(i), s[i].0) == 0,
{
    let t0 = s.take(i);
    if has_var(t0, s[i].0) {
        let k = choose|k: int| 0 <= k < t0.len() && #[trigger] t0[k].0 == s[i].0;
        assert(t0[k] == s[k]);
        assert(var_lt(s[k].0, s[i].0));
        lemma_var_lt_irreflexive(s[i].0);
    }
}

/// Two well-formed terms have the same powers exactly when they hold the same pair list.
pub proof fn lemma_key_pairs(a: Term, b: Term)
    requires
        a.wf(),
        b.wf(),
    ensures
        (a@.0 == b@.0) <==> (a.pairs() == b.pairs()),
{
    a.lemma_powers_nonzero();
    b.lemma_powers_nonzero();
    if a@.0 == b@.0 {
        assert forall|w: Variable| #[trigger] power_in(a.pairs(), w) == power_in(b.pairs(), w) by {
            lemma_pw_mono_map(a.pairs(), w);
            lemma_pw_mono_map(b.pairs(), w);
        }
        crate::forms::monomial::lemma_mono_canonical(a.pairs(), b.pairs());
    }
}

impl Term {
    /// The same variables with another multiplier.
    pub fn with_multiplier(self, c: Rational) -> (t: Term)
        requires
            self.wf(),
            c.wf(),
        ensures
            t.wf(),
            t.pairs() == self.pairs(),
            t@ == (self@.0, c@),
    {
        Term { variables: self.variables, multiplier: c }
    }

    /// A copy of the term.
    pub fn copy(&self) -> (t: Term)
        ensures
            t.pairs() == self.pairs(),
            t@ == self@,
            t.wf() == self.wf(),
    {
        let mut vars: Vec<(Variable, i64)> = Vec::new();
        let mut i: usize = 0;
        while i < self.variables.len()
            invariant
                0 <= i <= self.variables.len(),
                vars@ == self.variables@.take(i as int),
            decreases self.variables.len() - i,
        {
            vars.push(self.variables[i]);
            proof {
                assert(self.variables@.take(i + 1) =~= self.variables@.take(i as int).push(self.variables@[i as int]));
            }
            i = i + 1;
        }
        proof {
            assert(self.variables@.take(self.variables.len() as int) =~= self.variables@);
        }
        Term { variables: vars, multiplier: self.multiplier }
    }
}

impl Clone for Term {
    fn clone(&self) -> (t: Self)
        ensures
            t.pairs() == self.pairs(),
            t@ == self@,
            t.wf() == self.wf(),
    {
        self.copy()
    }
}

impl Variable {
    /// Raises the variable to the given integer power.
    pub fn pow(self, power: i64) -> (t: Term)
        requires
            power as int >= i32::MIN,
            power as int <= i32::MAX,
        ensures
            t.wf(),
            t@ == term_pow((Map::<Variable, int>::empty().insert(self, 1), rat_one()), power as int),
    {
        let t = Term::from_variable(self);
        proof {
            let a = t@;
            assert forall|v: Variable| #[trigger] i64_range(pw(a.0, v) * power) by {
                if v == self {
                    assert(pw(a.0, v) == 1);
                } else {
                    assert(pw(a.0, v) == 0);
                }
            }
            vstd::arithmetic::power::lemma1_pow(iabs_i64(power));
            assert(crate::rational::pow_fits(a.1, power as int));
        }
        t.pow(power)
    }
}

spec fn iabs_i64(x: i64) -> nat {
    crate::rational::iabs(x as int)
}


/// A variable to the first power.
pub open spec fn var_term(v: Variable) -> TermV {
    (Map::<Variable, int>::empty().insert(v, 1), rat_one())
}

/// Only the variable `v` with power `p` (nothing when `p` is 0).
pub open spec fn single_power(v: Variable, p: int) -> Map<Variable, int> {
    if p == 0 { Map::empty() } else { Map::<Variable, int>::empty().insert(v, p) }
}

/// Replacing `v^power` by `t`: with `v`'s power `p = q * power + r` (`q` rounded
/// toward zero), `v^p` becomes `t^q * v^r`. Terms without `v` stay as they are.
pub open spec fn term_subst_power(a: TermV, v: Variable, power: int, t: TermV) -> TermV {
    let p = pw(a.0, v);
    if p == 0 {
        a
    } else {
        let q = trunc_div(p, power);
        let r = p - power * q;
        term_mul((a.0.remove(v), a.1), term_mul(term_pow(t, q), term_pow(var_term(v), r)))
    }
}

/// When that replacement is defined and stays in `i64`.
pub open spec fn term_subst_power_fits(a: TermV, v: Variable, power: int, t: TermV) -> bool {
    let p = pw(a.0, v);
    let q = trunc_div(p, power);
    let r = p - power * q;
    p != 0 ==> {
        &&& power != 0
        &&& !(p == i64::MIN && power == -1)
        &&& term_pow_fits(t, q)
        &&& term_pow_fits(var_term(v), r)
        &&& term_mul_fits(term_pow(t, q), term_pow(var_term(v), r))
        &&& term_mul_fits((a.0.remove(v), a.1), term_mul(term_pow(t, q), term_pow(var_term(v), r)))
    }
}

/// No variable is substituted twice.
pub open spec fn distinct_vars<T>(s: Seq<(Variable, T)>) -> bool {
    forall|i: int, j: int| 0 <= i < j < s.len() ==> #[trigger] s[i].0 != #[trigger] s[j].0
}

/// The product of the substituted values `t^p`, one for each variable of the
/// list that occurs (with power `p`) in `powers`, in the list's order.
pub open spec fn subst_product(powers: Map<Variable, int>, s: Seq<(Variable, TermV)>) -> TermV
    decreases s.len(),
{
    if s.len() == 0 {
        term_one()
    } else {
        let prev = subst_product(powers, s.drop_last());
        let v = s.last().0;
        if pw(powers, v) != 0 {
            term_mul(prev, term_pow(s.last().1, pw(powers, v)))
        } else {
            prev
        }
    }
}

/// Every power and product of that accumulation is defined and stays in `i64`.
pub open spec fn subst_product_fits(powers: Map<Variable, int>, s: Seq<(Variable, TermV)>) -> bool
    decreases s.len(),
{
    if s.len() == 0 {
        true
    } else {
        let prev = subst_product(powers, s.drop_last());
        let v = s.last().0;
        &&& subst_product_fits(powers, s.drop_last())
        &&& pw(powers, v) != 0 ==> {
            &&& term_pow_fits(s.last().1, pw(powers, v))
            &&& term_mul_fits(prev, term_pow(s.last().1, pw(powers, v)))
        }
    }
}

/// The list substitutes `v`.
pub open spec fn subst_has<T>(s: Seq<(Variable, T)>, v: Variable) -> bool {
    exists|i: int| 0 <= i < s.len() && #[trigger] s[i].0 == v
}

/// The powers without the substituted variables.
pub open spec fn powers_without<T>(powers: Map<Variable, int>, s: Seq<(Variable, T)>) -> Map<Variable, int> {
    Map::new(
        |v: Variable| powers.dom().contains(v) && !subst_has(s, v),
        |v: Variable| powers[v],
    )
}

/// Substituting several variables by terms at once.
pub open spec fn term_subst_many(a: TermV, s: Seq<(Variable, TermV)>) -> TermV {
    term_mul((powers_without(a.0, s), a.1), subst_product(a.0, s))
}

pub open spec fn term_subst_many_fits(a: TermV, s: Seq<(Variable, TermV)>) -> bool {
    &&& distinct_vars(s)
    &&& subst_product_fits(a.0, s)
    &&& term_mul_fits((powers_without(a.0, s), a.1), subst_product(a.0, s))
}

/// The views of a list of substitutions.
pub open spec fn subst_views(s: Seq<(Variable, Term)>) -> Seq<(Variable, TermV)> {
    Seq::new(s.len(), |i: int| (s[i].0, s[i].1@))
}

/// The derivative with respect to `v`: `p * v^(p-1)` times the rest, 0 when `v` does not occur.
pub open spec fn term_deriv(a: TermV, v: Variable) -> TermV {
    let p = pw(a.0, v);
    let residue: TermV = if p == 0 { (Map::empty(), rat_zero()) } else { (single_power(v, p - 1), (p, 1int)) };
    term_mul(residue, (a.0.remove(v), a.1))
}

pub open spec fn term_deriv_fits(a: TermV, v: Variable) -> bool {
    let p = pw(a.0, v);
    let residue: TermV = if p == 0 { (Map::empty(), rat_zero()) } else { (single_power(v, p - 1), (p, 1int)) };
    &&& p != i64::MIN
    &&& term_mul_fits(residue, (a.0.remove(v), a.1))
}

/// The product `lo * (lo + 1) * ... * hi` (1 when empty), accumulated upward.
pub open spec fn range_product(lo: int, hi: int) -> int
    decreases hi - lo + 1,
{
    if hi < lo { 1 } else { range_product(lo, hi - 1) * hi }
}

/// Each partial product of that accumulation fits an `i64`.
pub open spec fn range_product_fits(lo: int, hi: int) -> bool
    decreases hi - lo + 1,
{
    if hi < lo { true } else { range_product_fits(lo, hi - 1) && i64_range(range_product(lo, hi)) }
}

/// The `n`-th derivative with respect to `v`: `p (p-1) ... (p-n+1) v^(p-n)` times the rest.
pub open spec fn term_nth_deriv(a: TermV, n: int, v: Variable) -> TermV {
    let p = pw(a.0, v);
    let c = range_product(p - n + 1, p);
    let residue: TermV = if c == 0 { (Map::empty(), rat_zero()) } else { (single_power(v, p - n), (c, 1int)) };
    term_mul(residue, (a.0.remove(v), a.1))
}

pub open spec fn term_nth_deriv_fits(a: TermV, n: int, v: Variable) -> bool {
    let p = pw(a.0, v);
    let c = range_product(p - n + 1, p);
    let residue: TermV = if c == 0 { (Map::empty(), rat_zero()) } else { (single_power(v, p - n), (c, 1int)) };
    &&& 0 <= n <= i64::MAX
    &&& i64_range(p - n)
    &&& range_product_fits(p - n + 1, p)
    &&& fits(c)
    &&& term_mul_fits(residue, (a.0.remove(v), a.1))
}

impl Term {
    /// The same pair list and multiplier (what `==` compares).
    pub closed spec fn same_as(&self, other: &Term) -> bool {
        self.variables@ == other.variables@ && self.multiplier@ == other.multiplier@
    }

    /// For well-formed terms, that is having the same powers and multiplier.
    pub proof fn lemma_same_as(&self, other: &Term)
        requires
            self.wf(),
            other.wf(),
        ensures
            self.same_as(other) <==> self@ == other@,
    {
        lemma_key_pairs(*self, *other);
    }

    /// Compares pair lists and multipliers.
    pub fn equals(&self, other: &Term) -> (b: bool)
        ensures
            b == self.same_as(other),
    {
        mono_compare(&self.variables, &other.variables) == 0 && self.multiplier.equals(&other.multiplier)
    }

    /// Substitutes `variable^power` with a term: the variable's power `p` is split
    /// as `p = q * power + r` (quotient rounded toward zero) and `variable^p`
    /// becomes `term^q * variable^r`.
    pub fn substitute_variable_power_with_term(self, variable: Variable, power: i64, term: Term) -> (t: Term)
        requires
            self.wf(),
            term.wf(),
            term_subst_power_fits(self@, variable, power as int, term@),
        ensures
            t.wf(),
            t@ == term_subst_power(self@, variable, power as int, term@),
    {
        let current = self.get_power_of_variable(&variable);
        if current == 0 {
            return self;
        }
        let (q, r) = i64_div_rem(current, power);
        let mut rest = self;
        rest.set_power_of_variable(&variable, 0);
        let multiplier = term.pow(q).mul(variable.pow(r));
        rest.mul(multiplier)
    }

    /// Substitutes several distinct variables with terms: each occurring variable
    /// `v^p` is replaced by `value^p`.
    pub fn substitute_multiple_variables_with_terms(self, substitutions: Vec<(Variable, Term)>) -> (t: Term)
        requires
            self.wf(),
            forall|i: int| 0 <= i < substitutions@.len() ==> (#[trigger] substitutions@[i]).1.wf(),
            term_subst_many_fits(self@, subst_views(substitutions@)),
        ensures
            t.wf(),
            t@ == term_subst_many(self@, subst_views(substitutions@)),
    {
        let ghost a = self@;
        let ghost sv = subst_views(substitutions@);
        let mut rest = self;
        let mut product = Term::one();
        let mut i: usize = 0;
        proof {
            assert(sv.take(0) =~= Seq::<(Variable, TermV)>::empty());
            assert(powers_without(a.0, sv.take(0)) =~= a.0);
        }
        while i < substitutions.len()
            invariant
                0 <= i <= substitutions.len(),
                sv == subst_views(substitutions@),
                forall|k: int| 0 <= k < substitutions@.len() ==> (#[trigger] substitutions@[k]).1.wf(),
                term_subst_many_fits(a, sv),
                rest.wf(),
                product.wf(),
                rest@ == (powers_without(a.0, sv.take(i as int)), a.1),
                product@ == subst_product(a.0, sv.take(i as int)),
            decreases substitutions.len() - i,
        {
            let v = substitutions[i].0;
            let p = rest.get_power_of_variable(&v);
            proof {
                lemma_subst_fits_take(a.0, sv, i + 1);
                assert(sv.take(i + 1).drop_last() =~= sv.take(i as int));
                assert(sv.take(i + 1).last() == sv[i as int]);
                assert(!subst_has(sv.take(i as int), v)) by {
                    if subst_has(sv.take(i as int), v) {
                        let k = choose|k: int| 0 <= k < sv.take(i as int).len() && #[trigger] sv.take(i as int)[k].0 == v;
                        assert(sv[k].0 == sv[i as int].0);
                    }
                }
                assert(p == pw(a.0, v));
            }
            if p != 0 {
                let value = substitutions[i].1.copy();
                product = product.mul(value.pow(p));
                rest.set_power_of_variable(&v, 0);
            }
            proof {
                assert forall|w: Variable| #[trigger] subst_has(sv.take(i + 1), w)
                    == (subst_has(sv.take(i as int), w) || w == v) by {
                    if subst_has(sv.take(i + 1), w) {
                        let k = choose|k: int| 0 <= k < sv.take(i + 1).len() && #[trigger] sv.take(i + 1)[k].0 == w;
                        if k < i {
                            assert(sv.take(i as int)[k].0 == w);
                        }
                    }
                    if subst_has(sv.take(i as int), w) {
                        let k = choose|k: int| 0 <= k < sv.take(i as int).len() && #[trigger] sv.take(i as int)[k].0 == w;
                        assert(sv.take(i + 1)[k].0 == w);
                    }
                    if w == v {
                        assert(sv.take(i + 1)[i as int].0 == w);
                    }
                }
                assert(rest@.0 =~= powers_without(a.0, sv.take(i + 1)));
            }
            i = i + 1;
        }
        proof {
            assert(sv.take(sv.len() as int) =~= sv);
        }
        rest.mul(product)
    }

    /// The derivative with respect to `variable`.
    pub fn derivative(&self, variable: &Variable) -> (t: Term)
        requires
            self.wf(),
            term_deriv_fits(self@, *variable),
        ensures
            t.wf(),
            t@ == term_deriv(self@, *variable),
    {
        let mut output = self.copy();
        let mut list: Vec<Variable> = Vec::new();
        list.push(*variable);
        let mut residue = output.remove_variables(&list);
        proof {
            assert(list@[0] == *variable);
            assert(list@.contains(*variable));
            assert forall|w: Variable| #[trigger] list@.contains(w) == (w == *variable) by {
                if list@.contains(w) {
                    let k = choose|k: int| 0 <= k < list@.len() && list@[k] == w;
                    assert(k == 0);
                }
            }
            self.lemma_powers_nonzero();
            output.lemma_powers_nonzero();
            residue.lemma_powers_nonzero();
            lemma_powers_ext(output@.0, self@.0.remove(*variable));
            lemma_powers_ext(residue@.0, single_power(*variable, pw(self@.0, *variable)));
        }
        let power = residue.get_power_of_variable(variable);
        residue.set_power_of_variable(variable, power - 1);
        let scale = Term::from_integer(power);
        proof {
            lemma_rat_one_mul((power as int, 1int));
            if power != 0 {
                assert(single_power(*variable, power - 1) =~= residue@.0);
            }
        }
        let scaled = residue.mul(scale);
        proof {
            if power != 0 {
                assert(powers_add(single_power(*variable, power - 1), Map::<Variable, int>::empty()) =~= single_power(*variable, power - 1));
                crate::forms::expression::lemma_nonzero_canonical((power as int, 1int));
            }
        }
        scaled.mul(output)
    }

    /// The `n`-th derivative with respect to `variable`.
    pub fn nth_derivative(&self, n: usize, variable: &Variable) -> (t: Term)
        requires
            self.wf(),
            term_nth_deriv_fits(self@, n as int, *variable),
        ensures
            t.wf(),
            t@ == term_nth_deriv(self@, n as int, *variable),
    {
        let mut output = self.copy();
        let mut list: Vec<Variable> = Vec::new();
        list.push(*variable);
        let mut residue = output.remove_variables(&list);
        proof {
            assert(list@[0] == *variable);
            assert(list@.contains(*variable));
            assert forall|w: Variable| #[trigger] list@.contains(w) == (w == *variable) by {
                if list@.contains(w) {
                    let k = choose|k: int| 0 <= k < list@.len() && list@[k] == w;
                    assert(k == 0);
                }
            }
            self.lemma_powers_nonzero();
            output.lemma_powers_nonzero();
            residue.lemma_powers_nonzero();
            lemma_powers_ext(output@.0, self@.0.remove(*variable));
            lemma_powers_ext(residue@.0, single_power(*variable, pw(self@.0, *variable)));
        }
        let power = residue.get_power_of_variable(variable);
        let smallest = power - n as i64;
        let mut multiplier: i64 = 1;
        let mut m = smallest;
        while m < power
            invariant
                smallest <= m <= power,
                range_product_fits(smallest + 1, power as int),
                multiplier as int == range_product(smallest + 1, m as int),
            decreases power - m,
        {
            m = m + 1;
            proof {
                lemma_range_product_fits_prefix(smallest + 1, power as int, m as int);
            }
            multiplier = multiplier * m;
        }
        residue.set_power_of_variable(variable, smallest);
        let scale = Term::from_integer(multiplier);
        proof {
            lemma_rat_one_mul((multiplier as int, 1int));
            if multiplier != 0 {
                assert(single_power(*variable, smallest as int) =~= residue@.0);
                assert(powers_add(single_power(*variable, smallest as int), Map::<Variable, int>::empty()) =~= single_power(*variable, smallest as int));
                crate::forms::expression::lemma_nonzero_canonical((multiplier as int, 1int));
            }
        }
        let scaled = residue.mul(scale);
        scaled.mul(output)
    }
}

/// Valid maps of powers with the same lookups are equal.
pub proof fn lemma_powers_ext(a: Map<Variable, int>, b: Map<Variable, int>)
    requires
        valid_powers(a),
        valid_powers(b),
        forall|w: Variable| #[trigger] pw(a, w) == pw(b, w),
    ensures
        a == b,
{
    assert forall|w: Variable| #[trigger] a.dom().contains(w) == b.dom().contains(w) by {
        assert(pw(a, w) == pw(b, w));
    }
    assert forall|w: Variable| #[trigger] a.dom().contains(w) implies a[w] == b[w] by {
        assert(pw(a, w) == pw(b, w));
    }
    assert(a =~= b);
}

/// One times an integer is that integer.
pub proof fn lemma_rat_one_mul(c: (int, int))
    requires
        c.1 == 1,
        fits(c.0),
    ensures
        rat_mul(rat_one(), c) == c,
        canonical(c),
{
    crate::rational::lemma_gcd_one(crate::rational::iabs(c.0));
    assert(1 * c.0 == c.0);
    assert(1int * 1 == 1);
    assert(c.0 / 1 == c.0);
    assert(1int / 1 == 1);
    assert(crate::rational::iabs(1) == 1);
}

/// The partial products up to `m` fit when all up to `hi` do.
pub proof fn lemma_range_product_fits_prefix(lo: int, hi: int, m: int)
    requires
        range_product_fits(lo, hi),
        m <= hi,
    ensures
        range_product_fits(lo, m),
        m >= lo ==> i64_range(range_product(lo, m)),
    decreases hi - m,
{
    if m < hi {
        lemma_range_product_fits_prefix(lo, hi - 1, m);
    }
}

/// The fits of all substitutions give those of each prefix.
pub proof fn lemma_subst_fits_take(powers: Map<Variable, int>, s: Seq<(Variable, TermV)>, j: int)
    requires
        subst_product_fits(powers, s),
        0 <= j <= s.len(),
    ensures
        subst_product_fits(powers, s.take(j)),
    decreases s.len(),
{
    if j == s.len() {
        assert(s.take(j) =~= s);
    } else {
        assert(s.drop_last().take(j) =~= s.take(j));
        lemma_subst_fits_take(powers, s.drop_last(), j);
    }
}

impl PartialEq for Term {
    fn eq(&self, other: &Self) -> (r: bool) {
        self.equals(other)
    }
}

impl vstd::std_specs::cmp::PartialEqSpecImpl for Term {
    open spec fn obeys_eq_spec() -> bool {
        true
    }

    open spec fn eq_spec(&self, other: &Term) -> bool {
        self.same_as(other)
    }
}

impl Eq for Term {
}


/// The `n`-th derivative of a term `(K, c)`: the power of `v` drops by `n` and
/// the multiplier gains the factor `p (p-1) ... (p-n+1)`; 0 when that factor is 0.
pub proof fn lemma_term_nth_deriv_shape(a: TermV, n: int, v: Variable)
    requires
        valid_powers(a.0),
        canonical(a.1),
        a.1 != rat_zero(),
        term_nth_deriv_fits(a, n, v),
    ensures
        ({
            let p = pw(a.0, v);
            let c = range_product(p - n + 1, p);
            term_nth_deriv(a, n, v) == if c == 0 {
                (Map::<Variable, int>::empty(), rat_zero())
            } else {
                (powers_add(a.0, single_power(v, -n)), rat_mul((c, 1int), a.1))
            }
        }),
{
    let p = pw(a.0, v);
    let c = range_product(p - n + 1, p);
    if c != 0 {
        lemma_rat_one_mul((c, 1int));
        crate::forms::expression::lemma_nonzero_canonical(a.1);
        crate::forms::expression::lemma_nonzero_canonical((c, 1int));
        crate::rational::lemma_rat_nonzero_ops((c, 1int), a.1);
        assert(powers_add(single_power(v, p - n), a.0.remove(v)) =~= powers_add(a.0, single_power(v, -n)));
    } else {
        crate::rational::lemma_rat_mul_zero(a.1);
    }
}

/// The derivative of a term is its first derivative: `derivative` and
/// `nth_derivative(1, ..)` agree.
pub proof fn law_term_derivative_is_first(a: TermV, v: Variable)
    ensures
        term_deriv(a, v) == term_nth_deriv(a, 1, v),
        range_product(pw(a.0, v), pw(a.0, v)) == pw(a.0, v),
{
    let p = pw(a.0, v);
    assert(range_product(p, p - 1) == 1);
    assert(range_product(p, p) == 1 * p);
}


/// The pair list of a map of powers: the well-formed list whose powers it holds.
pub open spec fn pairs_of(k: Map<Variable, int>) -> Seq<(Variable, i64)> {
    choose|p: Seq<(Variable, i64)>| mono_wf(p) && mono_map(p) == k
}

/// A well-formed term's pair list is the pair list of its powers.
pub proof fn lemma_pairs_of(t: Term)
    requires
        t.wf(),
    ensures
        pairs_of(t@.0) == t.pairs(),
{
    t.lemma_powers_nonzero();
    let p = pairs_of(t@.0);
    assert(mono_wf(t.pairs()) && mono_map(t.pairs()) == t@.0);
    assert(mono_wf(p) && mono_map(p) == t@.0);
    assert forall|w: Variable| #[trigger] power_in(p, w) == power_in(t.pairs(), w) by {
        lemma_pw_mono_map(p, w);
        lemma_pw_mono_map(t.pairs(), w);
    }
    crate::forms::monomial::lemma_mono_canonical(p, t.pairs());
}

/// How a term's text starts: its multiplier, `1` for a bare 1, nothing for a
/// multiplier 1 in front of variables, a fraction in parentheses.
pub open spec fn term_text_start(c: (int, int), nvars: int) -> Seq<char> {
    if c.1 == 1 && c.0 == 1 {
        if nvars == 0 { seq!['1'] } else { Seq::empty() }
    } else if c.1 == 1 {
        rat_text(c)
    } else {
        seq!['('] + rat_text(c) + seq![')']
    }
}

/// The text after one more `(variable, power)` pair: unicode superscripts, or
/// SymPy's `*` and `**`.
pub open spec fn term_text_step(data: Seq<char>, vp: (Variable, i64), sympy: bool, nvars: int) -> Seq<char> {
    let v = vp.0;
    let p = vp.1 as int;
    if p == 1 {
        if sympy {
            if data.len() == 0 { var_sympy_text(v) } else { data + seq!['*'] + var_sympy_text(v) }
        } else {
            data + var_text(v)
        }
    } else {
        if sympy {
            let t = var_sympy_text(v) + seq!['*', '*'] + decimal(p);
            if data.len() == 0 {
                if nvars == 1 { t } else { seq!['('] + t + seq![')'] }
            } else {
                data + seq!['*', '('] + t + seq![')']
            }
        } else {
            data + var_text(v) + superscript(p)
        }
    }
}

/// The text after the first `i` pairs.
pub open spec fn term_text_upto(pairs: Seq<(Variable, i64)>, c: (int, int), sympy: bool, i: int) -> Seq<char>
    decreases i,
{
    if i <= 0 {
        term_text_start(c, pairs.len() as int)
    } else {
        term_text_step(term_text_upto(pairs, c, sympy, i - 1), pairs[i - 1], sympy, pairs.len() as int)
    }
}

/// The text of a term with these pairs and multiplier; `0` for a zero multiplier.
pub open spec fn term_text(pairs: Seq<(Variable, i64)>, c: (int, int), sympy: bool) -> Seq<char> {
    if c.0 == 0 {
        seq!['0']
    } else {
        term_text_upto(pairs, c, sympy, pairs.len() as int)
    }
}

/// The text of a term as mathematics sees it.
pub open spec fn term_view_text(t: TermV, sympy: bool) -> Seq<char> {
    term_text(pairs_of(t.0), t.1, sympy)
}

/// Every variable can be displayed and no power is `i64::MIN`.
pub open spec fn powers_displayable(m: Map<Variable, int>) -> bool {
    forall|v: Variable| #[trigger] m.dom().contains(v) ==> displayable(v) && m[v] != i64::MIN
}

/// The same of a list of `(variable, power)` pairs.
pub open spec fn pairs_displayable(s: Seq<(Variable, i64)>) -> bool {
    forall|i: int| 0 <= i < s.len() ==> displayable(#[trigger] s[i].0) && s[i].1 != i64::MIN
}

/// A well-formed list of pairs can be displayed when its map can.
pub proof fn lemma_pairs_displayable(s: Seq<(Variable, i64)>)
    requires
        mono_wf(s),
        powers_displayable(mono_map(s)),
    ensures
        pairs_displayable(s),
{
    assert forall|i: int| 0 <= i < s.len() implies displayable(#[trigger] s[i].0) && s[i].1 != i64::MIN by {
        crate::forms::monomial::lemma_power_at(s, i);
        assert(mono_map(s).dom().contains(s[i].0));
    }
}

/// Builds the text of a term from its pairs and a multiplier.
pub(crate) fn text_of(pairs: &Vec<(Variable, i64)>, c: Rational, sympy: bool) -> (s: String)
    requires
        !sympy ==> pairs_displayable(pairs@),
    ensures
        s@ == term_text(pairs@, c@, sympy),
{
    if c.numer() == 0 {
        let s = "0".to_string();
        proof {
            reveal_strlit("0");
        }
        return s;
    }
    let mut data = String::new();
    if c.denom() == 1 && c.numer() == 1 {
        if pairs.len() == 0 {
            push_char(&mut data, '1');
        }
    } else if c.denom() == 1 {
        let r = c.to_string();
        push_str(&mut data, r.as_str());
    } else {
        push_char(&mut data, '(');
        let r = c.to_string();
        push_str(&mut data, r.as_str());
        push_char(&mut data, ')');
    }
    proof {
        assert(data@ =~= term_text_start(c@, pairs@.len() as int));
    }
    let mut i: usize = 0;
    while i < pairs.len()
        invariant
            0 <= i <= pairs.len(),
            !sympy ==> pairs_displayable(pairs@),
            data@ == term_text_upto(pairs@, c@, sympy, i as int),
        decreases pairs.len() - i,
    {
        let (v, p) = pairs[i];
        let ghost before = data@;
        if p == 1 {
            if sympy {
                let t = v.to_string_sympy();
                if data.as_str().is_empty() {
                    data = t;
                } else {
                    push_char(&mut data, '*');
                    push_str(&mut data, t.as_str());
                }
            } else {
                let t = v.to_string();
                push_str(&mut data, t.as_str());
            }
        } else {
            if sympy {
                let mut t = v.to_string_sympy();
                push_char(&mut t, '*');
                push_char(&mut t, '*');
                let d = i64_decimal(p);
                push_str(&mut t, d.as_str());
                if data.as_str().is_empty() {
                    if pairs.len() == 1 {
                        data = t;
                    } else {
                        let mut w = String::new();
                        push_char(&mut w, '(');
                        push_str(&mut w, t.as_str());
                        push_char(&mut w, ')');
                        data = w;
                    }
                } else {
                    push_char(&mut data, '*');
                    push_char(&mut data, '(');
                    push_str(&mut data, t.as_str());
                    push_char(&mut data, ')');
                }
            } else {
                let t = v.to_string();
                push_str(&mut data, t.as_str());
                let sup = i64_superscript(p);
                push_str(&mut data, sup.as_str());
            }
        }
        proof {
            assert(data@ =~= term_text_step(before, pairs@[i as int], sympy, pairs@.len() as int));
        }
        i = i + 1;
    }
    data
}

impl Term {
    /// The text of the term, e.g. `(1/2)x²y`.
    pub fn to_string(&self) -> (s: String)
        requires
            self.wf(),
            powers_displayable(self@.0),
        ensures
            s@ == term_view_text(self@, false),
    {
        proof {
            lemma_pairs_of(*self);
            lemma_pairs_displayable(self.variables@);
        }
        text_of(&self.variables, self.multiplier, false)
    }

    /// Returns the term's SymPy-compatible string representation, e.g. `(1/2)*x*(y**2)`.
    pub fn to_string_sympy(&self) -> (s: String)
        requires
            self.wf(),
        ensures
            s@ == term_view_text(self@, true),
    {
        proof {
            lemma_pairs_of(*self);
        }
        text_of(&self.variables, self.multiplier, true)
    }
}

impl Term {
    /// Converts a term into a variable. The conversion accepts a multiplier of 1
    /// with a single variable whose power is 0; since a term keeps no power that
    /// is 0, every term is refused.
    pub fn try_into_variable(self) -> (r: Result<Variable, String>)
        requires
            self.wf(),
        ensures
            r is Err,
            r matches Err(m) ==> m@ == "Cannot be reduced to a variable!"@,
    {
        let one = Rational::one();
        if !self.multiplier.equals(&one) || self.variables.len() != 1 || self.variables[0].1 != 0 {
            Err("Cannot be reduced to a variable!".to_string())
        } else {
            proof {
                assert(self.variables@[0].1 != 0);
            }
            Ok(self.variables[0].0)
        }
    }
}

} // verus!
