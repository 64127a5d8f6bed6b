//! Facts about `gcd` and lowest-terms fractions that the algebraic laws rest on.

use vstd::prelude::*;
use vstd::arithmetic::div_mod::{lemma_fundamental_div_mod, lemma_fundamental_div_mod_converse, lemma_mod_multiples_basic};
use crate::rational::{gcd, iabs, canon, lemma_gcd_divides, lemma_gcd_positive};

verus! {

/// `x` divides `a` (for positive `x`).
pub open spec fn divides(x: nat, a: nat) -> bool {
    x > 0 && a % x == 0
}

/// `x * k` is a multiple of `x`.
proof fn lemma_multiple_divides(x: nat, k: nat)
    requires
        x > 0,
    ensures
        divides(x, x * k),
{
    lemma_mod_multiples_basic(k as int, x as int);
    assert(k * x == x * k) by (nonlinear_arith);
}

/// A divisor of `a` writes `a` as a multiple of it.
proof fn lemma_divides_witness(x: nat, a: nat)
    requires
        divides(x, a),
    ensures
        a == x * (a / x),
{
    lemma_fundamental_div_mod(a as int, x as int);
}

/// A common divisor of `a` and `b` divides their `gcd`.
pub proof fn lemma_common_divisor_divides_gcd(a: nat, b: nat, x: nat)
    requires
        divides(x, a),
        divides(x, b),
    ensures
        divides(x, gcd(a, b)),
    decreases b,
{
    if b > 0 {
        let q = a / b;
        let r = a % b;
        lemma_fundamental_div_mod(a as int, b as int);
        lemma_divides_witness(x, a);
        lemma_divides_witness(x, b);
        let ka = a / x;
        let kb = b / x;
        assert(r == x * (ka - q * kb)) by (nonlinear_arith)
            requires
                a == b * q + r,
                a == x * ka,
                b == x * kb;
        assert(ka - q * kb >= 0) by (nonlinear_arith)
            requires
                r == x * (ka - q * kb),
                r >= 0,
                x > 0;
        lemma_multiple_divides(x, (ka - q * kb) as nat);
        lemma_common_divisor_divides_gcd(b, r, x);
    }
}

/// Numbers that divide each other are equal.
proof fn lemma_mutual_divides(a: nat, b: nat)
    requires
        divides(a, b),
        divides(b, a),
    ensures
        a == b,
{
    lemma_divides_witness(a, b);
    lemma_divides_witness(b, a);
    let k1 = b / a;
    let k2 = a / b;
    assert(a == b) by (nonlinear_arith)
        requires
            b == a * k1,
            a == b * k2,
            a > 0,
            b > 0,
            k1 >= 0,
            k2 >= 0;
}

/// `gcd` does not depend on the order of its arguments.
pub proof fn lemma_gcd_commutative(a: nat, b: nat)
    ensures
        gcd(a, b) == gcd(b, a),
{
    if a == 0 && b == 0 {
    } else {
        lemma_gcd_positive(a, b);
        lemma_gcd_positive(b, a);
        lemma_gcd_divides(a, b);
        lemma_gcd_divides(b, a);
        lemma_common_divisor_divides_gcd(b, a, gcd(a, b));
        lemma_common_divisor_divides_gcd(a, b, gcd(b, a));
        lemma_mutual_divides(gcd(a, b), gcd(b, a));
    }
}

/// Scaling both arguments scales the `gcd`.
pub proof fn lemma_gcd_scale(a: nat, b: nat, k: nat)
    requires
        k > 0,
    ensures
        gcd(a * k, b * k) == gcd(a, b) * k,
    decreases b,
{
    if b == 0 {
        assert(b * k == 0);
    } else {
        let q = a / b;
        let r = a % b;
        lemma_fundamental_div_mod(a as int, b as int);
        assert(b * k > 0) by (nonlinear_arith)
            requires
                b > 0,
                k > 0;
        assert(a * k == q * (b * k) + r * k) by (nonlinear_arith)
            requires
                a == b * q + r;
        assert(r * k < b * k) by (nonlinear_arith)
            requires
                r < b,
                k > 0;
        assert(0 <= r * k) by (nonlinear_arith)
            requires
                r >= 0,
                k > 0;
        lemma_fundamental_div_mod_converse((a * k) as int, (b * k) as int, q as int, (r * k) as int);
        assert((a * k) % (b * k) == r * k);
        lemma_gcd_scale(b, r, k);
    }
}

/// Euclid's lemma: a divisor of `b * c` that shares no factor with `b` divides `c`.
pub proof fn lemma_coprime_divides(a: nat, b: nat, c: nat)
    requires
        a > 0,
        gcd(a, b) == 1,
        divides(a, b * c),
    ensures
        divides(a, c),
{
    if c == 0 {
        assert(0nat % a == 0);
    } else {
        lemma_gcd_scale(a, b, c);
        assert(gcd(a, b) * c == c);
        lemma_multiple_divides(a, c);
        lemma_common_divisor_divides_gcd(a * c, b * c, a);
    }
}

/// A fraction in lowest terms with a positive denominator (no bound on its size).
pub open spec fn lowest(r: (int, int)) -> bool {
    r.1 >= 1 && gcd(iabs(r.0), r.1 as nat) == 1
}

/// Division that leaves no remainder.
proof fn lemma_exact_div(x: int, g: int, k: int)
    requires
        g > 0,
        x == g * k,
    ensures
        x / g == k,
{
    assert(x == k * g + 0) by (nonlinear_arith)
        requires
            x == g * k;
    lemma_fundamental_div_mod_converse(x, g, k, 0);
}

/// The lowest-terms form of `n / d` is in lowest terms and has the same value.
pub proof fn lemma_canon_lowest(n: int, d: int)
    requires
        d != 0,
    ensures
        lowest(canon(n, d)),
        canon(n, d).0 * d == n * canon(n, d).1,
{
    let an = iabs(n);
    let ad = iabs(d);
    let g = gcd(an, ad);
    lemma_gcd_positive(an, ad);
    lemma_gcd_divides(an, ad);
    lemma_divides_witness(g, an);
    lemma_divides_witness(g, ad);
    let un = an / g;
    let ud = ad / g;
    assert(ud >= 1) by (nonlinear_arith)
        requires
            ad == g * ud,
            ad > 0,
            g > 0;
    lemma_gcd_scale(un, ud, g);
    assert(un * g == an && ud * g == ad) by (nonlinear_arith)
        requires
            an == g * un,
            ad == g * ud;
    assert(gcd(un, ud) == 1) by (nonlinear_arith)
        requires
            gcd(un, ud) * g == g,
            g > 0;
    let sn: int = if n >= 0 { un as int } else { -(un as int) };
    let sd: int = if d >= 0 { ud as int } else { -(ud as int) };
    assert(n == g * sn) by (nonlinear_arith)
        requires
            an == g * un,
            an == iabs(n),
            sn == (if n >= 0 { un as int } else { -(un as int) });
    assert(d == g * sd) by (nonlinear_arith)
        requires
            ad == g * ud,
            ad == iabs(d),
            sd == (if d >= 0 { ud as int } else { -(ud as int) });
    if d > 0 {
        lemma_exact_div(n, g as int, sn);
        lemma_exact_div(d, g as int, sd);
        assert(canon(n, d) == (sn, ud as int));
        assert(sn * d == n * ud) by (nonlinear_arith)
            requires
                n == g * sn,
                d == g * ud;
    } else {
        assert(-n == g * (-sn) && -d == g * (-sd)) by (nonlinear_arith)
            requires
                n == g * sn,
                d == g * sd;
        lemma_exact_div(-n, g as int, -sn);
        lemma_exact_div(-d, g as int, -sd);
        assert(-sd == ud);
        assert(canon(n, d) == (-sn, ud as int));
        assert((-sn) * d == n * ud) by (nonlinear_arith)
            requires
                n == g * sn,
                d == g * sd,
                -sd == ud;
    }
    assert(iabs(sn) == un);
    assert(iabs(-sn) == un);
}

/// Two fractions in lowest terms with the same value are the same pair.
pub proof fn lemma_lowest_unique(p: (int, int), q: (int, int))
    requires
        lowest(p),
        lowest(q),
        p.0 * q.1 == q.0 * p.1,
    ensures
        p == q,
{
    let ap = iabs(p.0);
    let aq = iabs(q.0);
    let p1 = p.1 as nat;
    let q1 = q.1 as nat;
    assert(ap * q1 == aq * p1) by (nonlinear_arith)
        requires
            p.0 * q.1 == q.0 * p.1,
            ap == iabs(p.0),
            aq == iabs(q.0),
            p1 == p.1,
            q1 == q.1,
            p.1 >= 1,
            q.1 >= 1;
    lemma_gcd_commutative(ap, p1);
    lemma_gcd_commutative(aq, q1);
    assert(aq * p1 == p1 * aq) by (nonlinear_arith);
    lemma_multiple_divides(p1, aq);
    lemma_coprime_divides(p1, ap, q1);
    assert(ap * q1 == q1 * ap) by (nonlinear_arith);
    lemma_multiple_divides(q1, ap);
    lemma_coprime_divides(q1, aq, p1);
    lemma_mutual_divides(p1, q1);
    assert(p.0 == q.0) by (nonlinear_arith)
        requires
            p.0 * q.1 == q.0 * p.1,
            p.1 == q.1,
            p.1 >= 1;
}

/// Fractions with the same value have the same lowest-terms form.
pub proof fn lemma_canon_eq(n: int, d: int, n2: int, d2: int)
    requires
        d != 0,
        d2 != 0,
        n * d2 == n2 * d,
    ensures
        canon(n, d) == canon(n2, d2),
{
    let r = canon(n, d);
    let r2 = canon(n2, d2);
    lemma_canon_lowest(n, d);
    lemma_canon_lowest(n2, d2);
    let x = r.0 * d;
    let y = r2.0 * d2;
    assert((r.0 * r2.1) * (d * d2) == x * (r2.1 * d2)) by (nonlinear_arith)
        requires
            x == r.0 * d;
    assert((r2.0 * r.1) * (d * d2) == y * (r.1 * d)) by (nonlinear_arith)
        requires
            y == r2.0 * d2;
    assert(x * (r2.1 * d2) == (r.1 * r2.1) * (n * d2)) by (nonlinear_arith)
        requires
            x == n * r.1;
    assert(y * (r.1 * d) == (r.1 * r2.1) * (n2 * d)) by (nonlinear_arith)
        requires
            y == n2 * r2.1;
    assert(d * d2 != 0) by (nonlinear_arith)
        requires
            d != 0,
            d2 != 0;
    assert(r.0 * r2.1 == r2.0 * r.1) by (nonlinear_arith)
        requires
            (r.0 * r2.1) * (d * d2) == (r2.0 * r.1) * (d * d2),
            d * d2 != 0;
    lemma_lowest_unique(r, r2);
}

/// A fraction in lowest terms is the lowest-terms form of every fraction with its value.
pub proof fn lemma_canon_of_value(n: int, d: int, r: (int, int))
    requires
        d != 0,
        lowest(r),
        n * r.1 == r.0 * d,
    ensures
        canon(n, d) == r,
{
    lemma_canon_lowest(n, d);
    let c = canon(n, d);
    assert((c.0 * r.1) * d == (r.0 * c.1) * d) by (nonlinear_arith)
        requires
            c.0 * d == n * c.1,
            n * r.1 == r.0 * d;
    assert(c.0 * r.1 == r.0 * c.1) by (nonlinear_arith)
        requires
            (c.0 * r.1) * d == (r.0 * c.1) * d,
            d != 0;
    lemma_lowest_unique(c, r);
}

} // verus!
