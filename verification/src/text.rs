//! Small string-building helpers and the text renderings of integers.

use vstd::prelude::*;

verus! {

/// The decimal digits of a natural number, most significant first (`[0]` for 0).
pub open spec fn digits(n: nat) -> Seq<nat>
    decreases n,
{
    if n < 10 {
        seq![n]
    } else {
        digits(n / 10).push(n % 10)
    }
}

/// An integer written with the given digit glyphs: the minus sign first for a
/// negative number, then the digits of its absolute value.
pub open spec fn render(n: int, minus: char, glyphs: Seq<char>) -> Seq<char> {
    let body = digits(if n < 0 { (-n) as nat } else { n as nat }).map_values(|d: nat| glyphs[d as int]);
    if n < 0 {
        seq![minus] + body
    } else {
        body
    }
}

/// The decimal rendering of an integer, as `Display` for `i64` writes it.
pub open spec fn decimal(n: int) -> Seq<char> {
    render(n, '-', seq!['0', '1', '2', '3', '4', '5', '6', '7', '8', '9'])
}

/// The unicode superscript rendering of an integer, as `fmtastic::Superscript` writes it.
pub open spec fn superscript(n: int) -> Seq<char> {
    render(n, '⁻', seq!['⁰', '¹', '²', '³', '⁴', '⁵', '⁶', '⁷', '⁸', '⁹'])
}

/// The unicode subscript rendering of an integer, as `fmtastic::Subscript` writes it.
pub open spec fn subscript(n: int) -> Seq<char> {
    render(n, '₋', seq!['₀', '₁', '₂', '₃', '₄', '₅', '₆', '₇', '₈', '₉'])
}

/// Appends `t` to `s` (`String::push_str`).
#[verifier::external_body]
pub(crate) fn push_str(s: &mut String, t: &str)
    ensures
        final(s)@ == old(s)@ + t@,
{
    s.push_str(t);
}

/// Appends one character to `s` (`String::push`).
#[verifier::external_body]
pub(crate) fn push_char(s: &mut String, c: char)
    ensures
        final(s)@ == old(s)@.push(c),
{
    s.push(c);
}

/// Renders an integer in decimal (`Display` for `i64`).
#[verifier::external_body]
pub(crate) fn i64_decimal(n: i64) -> (r: String)
    ensures
        r@ == decimal(n as int),
{
    n.to_string()
}

/// Renders an integer as unicode superscript digits (`fmtastic::Superscript`),
/// which takes the number's absolute value first: that overflows (and panics)
/// for `i64::MIN`.
#[verifier::external_body]
pub(crate) fn i64_superscript(n: i64) -> (r: String)
    requires
        n != i64::MIN,
    ensures
        r@ == superscript(n as int),
{
    format!("{}", fmtastic::Superscript(n))
}

/// Renders an integer as unicode subscript digits (`fmtastic::Subscript`),
/// which takes the number's absolute value first: that overflows (and panics)
/// for `i64::MIN`.
#[verifier::external_body]
pub(crate) fn i64_subscript(n: i64) -> (r: String)
    requires
        n != i64::MIN,
    ensures
        r@ == subscript(n as int),
{
    format!("{}", fmtastic::Subscript(n))
}

} // verus!
