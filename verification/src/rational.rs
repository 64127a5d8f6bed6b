//! Exact rational numbers with `i64` numerator and denominator, always kept in
//! lowest terms with a positive denominator. The arithmetic itself is done by
//! `num::Rational64`; this module states what each operation returns and on
//! which inputs it returns at all (the `i64` intermediates must not overflow).

use vstd::prelude::*;
use vstd::arithmetic::power::pow;
use crate::text::decimal;
use num::Integer;

verus! {

/// Largest magnitude an `i64` numerator or denominator may take here.
pub open spec fn max_mag() -> int {
    0x7fff_ffff_ffff_ffff
}

/// `x` fits in an `i64` without being `i64::MIN`.
pub open spec fn fits(x: int) -> bool {
    -max_mag() <= x <= max_mag()
}

/// Absolute value.
pub open spec fn iabs(x: int) -> nat {
    if x < 0 { (-x) as nat } else { x as nat }
}

/// Greatest common divisor (Euclid), with `gcd(a, 0) == a`.
pub open spec fn gcd(a: nat, b: nat) -> nat
    decreases b,
{
    if b == 0 { a } else { gcd(b, a % b) }
}

/// Least common multiple of two naturals (0 when both are 0).
pub open spec fn lcm(a: nat, b: nat) -> nat {
    if a == 0 && b == 0 { 0 } else { (a * b / gcd(a, b)) as nat }
}

/// A pair `(numerator, denominator)` in lowest terms with a positive denominator,
/// both fitting in an `i64`.
pub open spec fn canonical(r: (int, int)) -> bool {
    &&& r.1 >= 1
    &&& fits(r.0)
    &&& fits(r.1)
    &&& gcd(iabs(r.0), r.1 as nat) == 1
}

/// The lowest-terms form of `n / d` (for `d != 0`).
pub open spec fn canon(n: int, d: int) -> (int, int) {
    let g = gcd(iabs(n), iabs(d)) as int;
    if d > 0 {
        (n / g, d / g)
    } else {
        ((-n) / g, (-d) / g)
    }
}

pub open spec fn rat_zero() -> (int, int) {
    (0, 1)
}

pub open spec fn rat_one() -> (int, int) {
    (1, 1)
}

pub open spec fn rat_add(a: (int, int), b: (int, int)) -> (int, int) {
    canon(a.0 * b.1 + b.0 * a.1, a.1 * b.1)
}

pub open spec fn rat_sub(a: (int, int), b: (int, int)) -> (int, int) {
    canon(a.0 * b.1 - b.0 * a.1, a.1 * b.1)
}

pub open spec fn rat_mul(a: (int, int), b: (int, int)) -> (int, int) {
    canon(a.0 * b.0, a.1 * b.1)
}

pub open spec fn rat_div(a: (int, int), b: (int, int)) -> (int, int) {
    canon(a.0 * b.1, a.1 * b.0)
}

pub open spec fn rat_neg(a: (int, int)) -> (int, int) {
    (-a.0, a.1)
}

/// `a` raised to the integer power `e` (for `e < 0`, the reciprocal of `a^-e`).
pub open spec fn rat_pow(a: (int, int), e: int) -> (int, int) {
    if e >= 0 {
        canon(pow(a.0, e as nat), pow(a.1, e as nat))
    } else {
        canon(pow(a.1, (-e) as nat), pow(a.0, (-e) as nat))
    }
}

/// `Rational64` addition and subtraction scale both numerators to the lcm of the
/// denominators; this holds when none of those `i64` intermediates overflows.
pub open spec fn add_fits(a: (int, int), b: (int, int)) -> bool {
    let l = lcm(a.1 as nat, b.1 as nat) as int;
    &&& fits(l)
    &&& fits(a.0 * (l / a.1))
    &&& fits(b.0 * (l / b.1))
    &&& fits(a.0 * (l / a.1) + b.0 * (l / b.1))
}

pub open spec fn sub_fits(a: (int, int), b: (int, int)) -> bool {
    let l = lcm(a.1 as nat, b.1 as nat) as int;
    &&& fits(l)
    &&& fits(a.0 * (l / a.1))
    &&& fits(b.0 * (l / b.1))
    &&& fits(a.0 * (l / a.1) - b.0 * (l / b.1))
}

/// `Rational64` multiplication cancels crosswise first, so its intermediates are
/// exactly the lowest-terms numerator and denominator of the product.
pub open spec fn mul_fits(a: (int, int), b: (int, int)) -> bool {
    fits(rat_mul(a, b).0) && fits(rat_mul(a, b).1)
}

/// Likewise for division, which also needs a nonzero divisor.
pub open spec fn div_fits(a: (int, int), b: (int, int)) -> bool {
    b.0 != 0 && fits(rat_div(a, b).0) && fits(rat_div(a, b).1)
}

/// `Rational64::pow` raises numerator and denominator separately; a negative
/// exponent also needs a nonzero base.
pub open spec fn pow_fits(a: (int, int), e: int) -> bool {
    let k = iabs(e);
    &&& i32::MIN <= e <= i32::MAX
    &&& (e < 0 ==> a.0 != 0)
    &&& fits(pow(a.0, k))
    &&& fits(pow(a.1, k))
}

/// The text `Rational64` displays: the numerator, and `/denominator` unless it is 1.
pub open spec fn rat_text(r: (int, int)) -> Seq<char> {
    if r.1 == 1 {
        decimal(r.0)
    } else {
        decimal(r.0) + seq!['/'] + decimal(r.1)
    }
}

/// An exact rational number in lowest terms.
#[derive(Clone, Copy, Debug, PartialEq, Eq, Structural, Hash)]
pub struct Rational {
    numer: i64,
    denom: i64,
}

impl View for Rational {
    type V = (int, int);

    closed spec fn view(&self) -> (int, int) {
        (self.numer as int, self.denom as int)
    }
}

/// `num::rational::Ratio::new`: reduces `numer / denom` to lowest terms with a
/// positive denominator; it panics when `denom` is 0.
#[verifier::external_body]
fn ratio_new(numer: i64, denom: i64) -> (r: Rational)
    requires
        denom != 0,
        fits(numer as int),
        fits(denom as int),
    ensures
        r@ == canon(numer as int, denom as int),
        canonical(r@),
{
    let q = num::Rational64::new(numer, denom);
    Rational { numer: *q.numer(), denom: *q.denom() }
}

/// `Add` for `num::Rational64`: the lowest-terms sum; it overflows (and panics)
/// unless `add_fits`.
#[verifier::external_body]
fn ratio_add(a: Rational, b: Rational) -> (r: Rational)
    requires
        canonical(a@),
        canonical(b@),
        add_fits(a@, b@),
    ensures
        r@ == rat_add(a@, b@),
        canonical(r@),
{
    let q = num::Rational64::new_raw(a.numer, a.denom) + num::Rational64::new_raw(b.numer, b.denom);
    Rational { numer: *q.numer(), denom: *q.denom() }
}

/// `Sub` for `num::Rational64`: the lowest-terms difference; it overflows (and
/// panics) unless `sub_fits`.
#[verifier::external_body]
fn ratio_sub(a: Rational, b: Rational) -> (r: Rational)
    requires
        canonical(a@),
        canonical(b@),
        sub_fits(a@, b@),
    ensures
        r@ == rat_sub(a@, b@),
        canonical(r@),
{
    let q = num::Rational64::new_raw(a.numer, a.denom) - num::Rational64::new_raw(b.numer, b.denom);
    Rational { numer: *q.numer(), denom: *q.denom() }
}

/// `Mul` for `num::Rational64`: the lowest-terms product; it overflows (and
/// panics) unless `mul_fits`.
#[verifier::external_body]
fn ratio_mul(a: Rational, b: Rational) -> (r: Rational)
    requires
        canonical(a@),
        canonical(b@),
        mul_fits(a@, b@),
    ensures
        r@ == rat_mul(a@, b@),
        canonical(r@),
{
    let q = num::Rational64::new_raw(a.numer, a.denom) * num::Rational64::new_raw(b.numer, b.denom);
    Rational { numer: *q.numer(), denom: *q.denom() }
}

/// `Div` for `num::Rational64`: the lowest-terms quotient; it panics on a zero
/// divisor and overflows unless `div_fits`.
#[verifier::external_body]
fn ratio_div(a: Rational, b: Rational) -> (r: Rational)
    requires
        canonical(a@),
        canonical(b@),
        div_fits(a@, b@),
    ensures
        r@ == rat_div(a@, b@),
        canonical(r@),
{
    let q = num::Rational64::new_raw(a.numer, a.denom) / num::Rational64::new_raw(b.numer, b.denom);
    Rational { numer: *q.numer(), denom: *q.denom() }
}

/// `num::rational::Ratio::pow` with an `i32` exponent: numerator and denominator
/// raised separately, the reciprocal for a negative exponent.
#[verifier::external_body]
fn ratio_pow(a: Rational, e: i32) -> (r: Rational)
    requires
        canonical(a@),
        pow_fits(a@, e as int),
    ensures
        r@ == rat_pow(a@, e as int),
        canonical(r@),
{
    let q = num::Rational64::new_raw(a.numer, a.denom).pow(e);
    Rational { numer: *q.numer(), denom: *q.denom() }
}

/// `Display` for `num::Rational64`.
#[verifier::external_body]
fn ratio_to_string(a: Rational) -> (r: String)
    ensures
        r@ == rat_text(a@),
{
    num::Rational64::new_raw(a.numer, a.denom).to_string()
}

/// `num::Integer::lcm` for `i64`: the nonnegative least common multiple; the
/// product it forms overflows (and panics) unless the lcm fits.
#[verifier::external_body]
fn i64_lcm(a: i64, b: i64) -> (r: i64)
    requires
        fits(a as int),
        fits(b as int),
        fits(lcm(iabs(a as int), iabs(b as int)) as int),
    ensures
        r as int == lcm(iabs(a as int), iabs(b as int)),
{
    a.lcm(&b)
}

/// `num::Integer::gcd` for `i64`: the nonnegative greatest common divisor.
#[verifier::external_body]
fn i64_gcd(a: i64, b: i64) -> (r: i64)
    requires
        fits(a as int),
        fits(b as int),
    ensures
        r as int == gcd(iabs(a as int), iabs(b as int)),
{
    a.gcd(&b)
}

/// Division of integers rounding toward zero, as Rust's `/` does.
pub open spec fn trunc_div(a: int, b: int) -> int {
    let q = iabs(a) as int / iabs(b) as int;
    if (a >= 0) == (b > 0) { q } else { -q }
}

/// `num_integer::div_rem` for `i64`: the quotient rounded toward zero and the
/// remainder with the sign of `a`; it panics on a zero divisor and overflows on
/// `i64::MIN / -1`.
#[verifier::external_body]
pub(crate) fn i64_div_rem(a: i64, b: i64) -> (r: (i64, i64))
    requires
        b != 0,
        !(a == i64::MIN && b == -1),
    ensures
        r.0 as int == trunc_div(a as int, b as int),
        r.1 as int == a as int - b as int * trunc_div(a as int, b as int),
{
    num_integer::div_rem(a, b)
}

impl Rational {
    /// Well-formed: lowest terms, positive denominator.
    pub open spec fn wf(&self) -> bool {
        canonical(self@)
    }

    /// The rational `numer / denom` in lowest terms.
    pub fn new(numer: i64, denom: i64) -> (r: Rational)
        requires
            denom != 0,
            fits(numer as int),
            fits(denom as int),
        ensures
            r.wf(),
            r@ == canon(numer as int, denom as int),
    {
        ratio_new(numer, denom)
    }

    /// The integer `n` as a rational.
    pub fn from_integer(n: i64) -> (r: Rational)
        requires
            fits(n as int),
        ensures
            r.wf(),
            r@ == (n as int, 1int),
    {
        proof {
            lemma_gcd_one(iabs(n as int));
        }
        Rational { numer: n, denom: 1 }
    }

    pub fn zero() -> (r: Rational)
        ensures
            r.wf(),
            r@ == rat_zero(),
    {
        Rational::from_integer(0)
    }

    pub fn one() -> (r: Rational)
        ensures
            r.wf(),
            r@ == rat_one(),
    {
        Rational::from_integer(1)
    }

    /// The numerator.
    pub fn numer(&self) -> (n: i64)
        ensures
            n as int == self@.0,
    {
        self.numer
    }

    /// The (positive) denominator.
    pub fn denom(&self) -> (d: i64)
        ensures
            d as int == self@.1,
    {
        self.denom
    }

    pub fn is_zero(&self) -> (b: bool)
        requires
            self.wf(),
        ensures
            b == (self@ == rat_zero()),
    {
        proof {
            if self@.0 == 0 {
                lemma_gcd_zero_left(self@.1 as nat);
            }
        }
        self.numer == 0
    }

    pub fn is_negative(&self) -> (b: bool)
        ensures
            b == (self@.0 < 0),
    {
        self.numer < 0
    }

    /// Same value (lowest terms make the representation unique).
    pub fn equals(&self, other: &Rational) -> (b: bool)
        ensures
            b == (self@ == other@),
    {
        self.numer == other.numer && self.denom == other.denom
    }

    /// Whether `self` raised to `e` can be formed without leaving `i64` (what `pow` requires).
    pub fn pow_fits_check(&self, e: i64) -> (b: bool)
        requires
            self.wf(),
        ensures
            b == pow_fits(self@, e as int),
    {
        if e < -0x8000_0000i64 || e > 0x7fff_ffffi64 {
            return false;
        }
        if e < 0 && self.numer == 0 {
            return false;
        }
        let k: u32 = if e < 0 { (-e) as u32 } else { e as u32 };
        proof {
            assert(k as int == iabs(e as int));
        }
        pow_fits_check_i64(self.numer, k) && pow_fits_check_i64(self.denom, k)
    }

    /// Whether `self * rhs` can be formed without leaving `i64` (what `mul` requires).
    pub fn mul_fits_check(&self, rhs: &Rational) -> (b: bool)
        requires
            self.wf(),
            rhs.wf(),
        ensures
            b == mul_fits(self@, rhs@),
    {
        let n1 = self.numer;
        let n2 = rhs.numer;
        let d1 = self.denom;
        let d2 = rhs.denom;
        proof {
            assert(-max_mag() * max_mag() <= (n1 as int) * (n2 as int) <= max_mag() * max_mag()) by (nonlinear_arith)
                requires
                    -max_mag() <= n1 <= max_mag(),
                    -max_mag() <= n2 <= max_mag();
            assert(1 <= (d1 as int) * (d2 as int) <= max_mag() * max_mag()) by (nonlinear_arith)
                requires
                    1 <= d1 <= max_mag(),
                    1 <= d2 <= max_mag();
        }
        let n: i128 = (n1 as i128) * (n2 as i128);
        let d: i128 = (d1 as i128) * (d2 as i128);
        let an: u128 = if n < 0 { (-n) as u128 } else { n as u128 };
        let du: u128 = d as u128;
        proof {
            assert(an as int == iabs(n as int));
            assert(du as int == iabs(d as int));
        }
        let g = gcd_u128(an, du);
        proof {
            lemma_gcd_positive(an as nat, du as nat);
            lemma_gcd_divides(an as nat, du as nat);
        }
        let q0: u128 = an / g;
        let q1: u128 = du / g;
        proof {
            let gi = g as int;
            vstd::arithmetic::div_mod::lemma_fundamental_div_mod(an as int, gi);
            vstd::arithmetic::div_mod::lemma_fundamental_div_mod(du as int, gi);
            assert(an as int == gi * (q0 as int));
            assert(du as int == gi * (q1 as int));
            let c = canon(n as int, d as int);
            if n < 0 {
                assert(an as int == -(n as int));
                assert(gi * (-(q0 as int)) == -(gi * (q0 as int))) by (nonlinear_arith);
                assert(n as int == gi * (-(q0 as int)));
                vstd::arithmetic::div_mod::lemma_div_multiples_vanish(-(q0 as int), gi);
                assert(c.0 == -(q0 as int));
            } else {
                vstd::arithmetic::div_mod::lemma_div_multiples_vanish(q0 as int, gi);
                assert(c.0 == q0 as int);
            }
            vstd::arithmetic::div_mod::lemma_div_multiples_vanish(q1 as int, gi);
            assert(c.1 == q1 as int);
            assert(c == rat_mul(self@, rhs@));
        }
        q0 <= 0x7fff_ffff_ffff_ffffu128 && q1 <= 0x7fff_ffff_ffff_ffffu128
    }

    /// Whether `self + rhs` can be formed without leaving `i64` (what `add` requires).
    pub fn add_fits_check(&self, rhs: &Rational) -> (b: bool)
        requires
            self.wf(),
            rhs.wf(),
        ensures
            b == add_fits(self@, rhs@),
    {
        let d1 = self.denom;
        let d2 = rhs.denom;
        let g = i64_gcd(d1, d2);
        proof {
            lemma_gcd_positive(iabs(d1 as int), iabs(d2 as int));
            assert(iabs(d1 as int) == d1 && iabs(d2 as int) == d2);
            assert((d1 as int) * (d2 as int) <= max_mag() * max_mag()) by (nonlinear_arith)
                requires
                    1 <= d1 <= max_mag(),
                    1 <= d2 <= max_mag();
            assert((d1 as int) * (d2 as int) >= 1) by (nonlinear_arith)
                requires
                    1 <= d1,
                    1 <= d2;
        }
        let prod: i128 = (d1 as i128) * (d2 as i128);
        let l: i128 = prod / (g as i128);
        proof {
            assert(l as int == lcm(d1 as nat, d2 as nat) as int);
            assert(l >= 0);
        }
        if l > 0x7fff_ffff_ffff_ffffi128 {
            return false;
        }
        let q1: i128 = l / (d1 as i128);
        let q2: i128 = l / (d2 as i128);
        proof {
            assert(0 <= q1 <= l) by (nonlinear_arith)
                requires
                    q1 as int == (l as int) / (d1 as int),
                    l >= 0,
                    d1 >= 1;
            assert(0 <= q2 <= l) by (nonlinear_arith)
                requires
                    q2 as int == (l as int) / (d2 as int),
                    l >= 0,
                    d2 >= 1;
            let n1 = self.numer as int;
            let n2 = rhs.numer as int;
            assert(-max_mag() * max_mag() <= n1 * q1 <= max_mag() * max_mag()) by (nonlinear_arith)
                requires
                    -max_mag() <= n1 <= max_mag(),
                    0 <= q1 <= max_mag();
            assert(-max_mag() * max_mag() <= n2 * q2 <= max_mag() * max_mag()) by (nonlinear_arith)
                requires
                    -max_mag() <= n2 <= max_mag(),
                    0 <= q2 <= max_mag();
        }
        let x: i128 = (self.numer as i128) * q1;
        let y: i128 = (rhs.numer as i128) * q2;
        if x < -0x7fff_ffff_ffff_ffffi128 || x > 0x7fff_ffff_ffff_ffffi128 {
            return false;
        }
        if y < -0x7fff_ffff_ffff_ffffi128 || y > 0x7fff_ffff_ffff_ffffi128 {
            return false;
        }
        let sum: i128 = x + y;
        -0x7fff_ffff_ffff_ffffi128 <= sum && sum <= 0x7fff_ffff_ffff_ffffi128
    }

    pub fn add(self, rhs: Rational) -> (r: Rational)
        requires
            self.wf(),
            rhs.wf(),
            add_fits(self@, rhs@),
        ensures
            r.wf(),
            r@ == rat_add(self@, rhs@),
    {
        ratio_add(self, rhs)
    }

    pub fn sub(self, rhs: Rational) -> (r: Rational)
        requires
            self.wf(),
            rhs.wf(),
            sub_fits(self@, rhs@),
        ensures
            r.wf(),
            r@ == rat_sub(self@, rhs@),
    {
        ratio_sub(self, rhs)
    }

    pub fn mul(self, rhs: Rational) -> (r: Rational)
        requires
            self.wf(),
            rhs.wf(),
            mul_fits(self@, rhs@),
        ensures
            r.wf(),
            r@ == rat_mul(self@, rhs@),
    {
        ratio_mul(self, rhs)
    }

    pub fn div(self, rhs: Rational) -> (r: Rational)
        requires
            self.wf(),
            rhs.wf(),
            div_fits(self@, rhs@),
        ensures
            r.wf(),
            r@ == rat_div(self@, rhs@),
    {
        ratio_div(self, rhs)
    }

    /// Negation: the numerator changes sign, the denominator stays.
    pub fn neg(self) -> (r: Rational)
        requires
            self.wf(),
        ensures
            r.wf(),
            r@ == rat_neg(self@),
    {
        proof {
            assert(iabs(-self@.0) == iabs(self@.0));
        }
        Rational { numer: -self.numer, denom: self.denom }
    }

    /// `self` raised to an integer power that fits in an `i32`.
    pub fn pow(self, e: i32) -> (r: Rational)
        requires
            self.wf(),
            pow_fits(self@, e as int),
        ensures
            r.wf(),
            r@ == rat_pow(self@, e as int),
    {
        ratio_pow(self, e)
    }

    /// The text `Rational64` displays: `n` or `n/d`.
    pub fn to_string(&self) -> (s: String)
        ensures
            s@ == rat_text(self@),
    {
        ratio_to_string(*self)
    }
}

/// The size of a power is the power of the size.
proof fn lemma_pow_abs(x: int, k: nat)
    ensures
        iabs(pow(x, k)) == pow(iabs(x) as int, k),
    decreases k,
{
    reveal(pow);
    if k > 0 {
        lemma_pow_abs(x, (k - 1) as nat);
        let p = pow(x, (k - 1) as nat);
        assert(iabs(x * p) == iabs(x) * iabs(p)) by (nonlinear_arith);
    }
}

/// Powers of `0`, `1` and `-1` stay within 1 in size.
proof fn lemma_pow_small(x: int, k: nat)
    requires
        iabs(x) <= 1,
    ensures
        iabs(pow(x, k)) <= 1,
    decreases k,
{
    reveal(pow);
    if k > 0 {
        lemma_pow_small(x, (k - 1) as nat);
        let p = pow(x, (k - 1) as nat);
        assert(iabs(x * p) <= 1) by (nonlinear_arith)
            requires
                iabs(x) <= 1,
                iabs(p) <= 1;
    }
}

/// Whether `x^k` fits in an `i64` (without being `i64::MIN`).
fn pow_fits_check_i64(x: i64, k: u32) -> (b: bool)
    requires
        fits(x as int),
    ensures
        b == fits(pow(x as int, k as nat)),
{
    let ax: u128 = if x < 0 { (-(x as i128)) as u128 } else { x as u128 };
    proof {
        assert(ax as int == iabs(x as int));
        lemma_pow_abs(x as int, k as nat);
    }
    if ax <= 1 {
        proof {
            lemma_pow_small(x as int, k as nat);
        }
        return true;
    }
    let mut acc: u128 = 1;
    let mut i: u32 = 0;
    proof {
        reveal(pow);
    }
    while i < k
        invariant
            0 <= i <= k,
            2 <= ax <= max_mag(),
            iabs(pow(x as int, k as nat)) == pow(ax as int, k as nat),
            acc as int == pow(ax as int, i as nat),
            acc <= max_mag(),
        decreases k - i,
    {
        proof {
            assert((acc as int) * (ax as int) <= max_mag() * max_mag()) by (nonlinear_arith)
                requires
                    acc <= max_mag(),
                    ax <= max_mag(),
                    acc >= 0;
            reveal(pow);
            assert(pow(ax as int, (i + 1) as nat) == (ax as int) * pow(ax as int, i as nat));
        }
        acc = acc * ax;
        i = i + 1;
        if acc > 0x7fff_ffff_ffff_ffffu128 {
            proof {
                assert(acc as int == pow(ax as int, i as nat)) by (nonlinear_arith)
                    requires
                        acc as int == (ax as int) * pow(ax as int, (i - 1) as nat),
                        pow(ax as int, i as nat) == (ax as int) * pow(ax as int, (i - 1) as nat);
                vstd::arithmetic::power::lemma_pow_increases(ax as nat, i as nat, k as nat);
            }
            return false;
        }
        proof {
            assert(acc as int == pow(ax as int, i as nat)) by (nonlinear_arith)
                requires
                    acc as int == (ax as int) * pow(ax as int, (i - 1) as nat),
                    pow(ax as int, i as nat) == (ax as int) * pow(ax as int, (i - 1) as nat);
        }
    }
    true
}

/// The greatest common divisor of two naturals, by Euclid's algorithm.
fn gcd_u128(a: u128, b: u128) -> (g: u128)
    ensures
        g as nat == gcd(a as nat, b as nat),
{
    let mut x = a;
    let mut y = b;
    while y != 0
        invariant
            gcd(x as nat, y as nat) == gcd(a as nat, b as nat),
        decreases y,
    {
        let r = x % y;
        x = y;
        y = r;
    }
    x
}

/// Computes the least common multiple of two rational numbers: the lcm of the
/// numerators over the gcd of the denominators.
pub fn rational_lcm(x: &Rational, y: &Rational) -> (r: Rational)
    requires
        x.wf(),
        y.wf(),
        fits(lcm(iabs(x@.0), iabs(y@.0)) as int),
    ensures
        r.wf(),
        r@ == canon(lcm(iabs(x@.0), iabs(y@.0)) as int, gcd(x@.1 as nat, y@.1 as nat) as int),
{
    let num = i64_lcm(x.numer(), y.numer());
    let den = i64_gcd(x.denom(), y.denom());
    proof {
        lemma_gcd_pos_bounded(x@.1 as nat, y@.1 as nat);
    }
    Rational::new(num, den)
}

/// The lowest-terms form of a nonzero fraction is nonzero.
pub proof fn lemma_canon_nonzero(n: int, d: int)
    requires
        n != 0,
        d != 0,
    ensures
        canon(n, d).0 != 0,
        canon(n, d) != rat_zero(),
{
    let g = gcd(iabs(n), iabs(d));
    lemma_gcd_pos_bounded(iabs(n), iabs(d));
    let x = if d > 0 { n } else { -n };
    vstd::arithmetic::div_mod::lemma_fundamental_div_mod(x, g as int);
    vstd::arithmetic::div_mod::lemma_mod_bound(x, g as int);
    if x / (g as int) == 0 {
        assert((g as int) * 0 == 0);
        assert(false);
    }
}

/// Products and quotients of nonzero rationals are nonzero.
pub proof fn lemma_rat_nonzero_ops(a: (int, int), b: (int, int))
    requires
        canonical(a),
        canonical(b),
        a.0 != 0,
        b.0 != 0,
    ensures
        rat_mul(a, b) != rat_zero(),
        rat_div(a, b) != rat_zero(),
        rat_mul(a, b).0 != 0,
        rat_div(a, b).0 != 0,
{
    assert(a.0 * b.0 != 0) by (nonlinear_arith)
        requires a.0 != 0, b.0 != 0;
    assert(a.1 * b.1 != 0) by (nonlinear_arith)
        requires a.1 != 0, b.1 != 0;
    assert(a.0 * b.1 != 0) by (nonlinear_arith)
        requires a.0 != 0, b.1 != 0;
    assert(a.1 * b.0 != 0) by (nonlinear_arith)
        requires a.1 != 0, b.0 != 0;
    lemma_canon_nonzero(a.0 * b.0, a.1 * b.1);
    lemma_canon_nonzero(a.0 * b.1, a.1 * b.0);
}

/// Multiplying by 0 gives 0.
pub proof fn lemma_rat_mul_zero(a: (int, int))
    requires
        canonical(a),
    ensures
        rat_mul(a, rat_zero()) == rat_zero(),
        rat_mul(rat_zero(), a) == rat_zero(),
{
    lemma_gcd_zero_left(a.1 as nat);
    assert(a.0 * 0 == 0);
    assert(0 * a.0 == 0);
    assert(a.1 * 1 == a.1);
    assert(1 * a.1 == a.1);
    assert(iabs(a.1) == a.1 as nat);
    vstd::arithmetic::div_mod::lemma_div_by_self(a.1);
}

pub proof fn lemma_gcd_one(a: nat)
    ensures
        gcd(a, 1) == 1,
{
    assert(a % 1 == 0);
    assert(gcd(1, 0) == 1);
}

pub proof fn lemma_gcd_zero_left(b: nat)
    ensures
        gcd(0, b) == b,
{
    if b > 0 {
        assert(0nat % b == 0);
        assert(gcd(b, 0) == b);
    }
}

/// For positive `a`, `gcd(a, b)` is positive and at most `a`.
pub proof fn lemma_gcd_pos_bounded(a: nat, b: nat)
    requires
        a > 0,
    ensures
        0 < gcd(a, b) <= a || (b > 0 && 0 < gcd(a, b) <= b),
        gcd(a, b) > 0,
        gcd(a, b) <= a,
    decreases b,
{
    if b == 0 {
    } else {
        lemma_gcd_divides(b, a % b);
        lemma_gcd_pos_bounded_aux(a, b);
    }
}

proof fn lemma_gcd_pos_bounded_aux(a: nat, b: nat)
    requires
        a > 0,
        b > 0,
    ensures
        gcd(a, b) > 0,
        gcd(a, b) <= a,
{
    lemma_gcd_positive(a, b);
    lemma_gcd_divides(a, b);
    let g = gcd(a, b);
    // g divides a and a > 0, so g <= a
    vstd::arithmetic::div_mod::lemma_fundamental_div_mod(a as int, g as int);
    if (a / g) == 0 {
        assert(a == g * (a / g) + a % g);
        assert(g * 0 == 0) by (nonlinear_arith);
    } else {
        assert(g * (a / g) >= g) by (nonlinear_arith)
            requires a / g >= 1, g > 0;
    }
}

pub proof fn lemma_gcd_positive(a: nat, b: nat)
    requires
        a > 0 || b > 0,
    ensures
        gcd(a, b) > 0,
    decreases b,
{
    if b > 0 {
        lemma_gcd_positive(b, a % b);
    }
}

/// `gcd(a, b)` divides both `a` and `b` (when it is positive).
pub proof fn lemma_gcd_divides(a: nat, b: nat)
    ensures
        gcd(a, b) > 0 ==> a % gcd(a, b) == 0 && b % gcd(a, b) == 0,
    decreases b,
{
    if b == 0 {
        if a > 0 {
            vstd::arithmetic::div_mod::lemma_mod_self_0(a as int);
        }
    } else {
        lemma_gcd_divides(b, a % b);
        let g = gcd(a, b);
        if g > 0 {
            // a == b * (a / b) + a % b, and g divides b and a % b
            vstd::arithmetic::div_mod::lemma_fundamental_div_mod(a as int, b as int);
            let q = a / b;
            let r = a % b;
            assert(b % g == 0 && r % g == 0);
            vstd::arithmetic::div_mod::lemma_fundamental_div_mod(b as int, g as int);
            vstd::arithmetic::div_mod::lemma_fundamental_div_mod(r as int, g as int);
            let kb = b / g;
            let kr = r / g;
            assert(a == g * (kb * q + kr)) by (nonlinear_arith)
                requires a == b * q + r, b == g * kb, r == g * kr;
            vstd::arithmetic::div_mod::lemma_mod_multiples_basic((kb * q + kr) as int, g as int);
            assert((g * (kb * q + kr)) % g == 0) by {
                vstd::arithmetic::mul::lemma_mul_is_commutative(g as int, (kb * q + kr) as int);
            }
        }
    }
}

} // verus!
