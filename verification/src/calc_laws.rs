//! What steps of arithmetic keep: order, sign, and size. Double-precision arithmetic does
//! keep them within the bounds that are given here, and what is proved of scores and
//! estimates rests on no more of it than that.

use crate::calc::Rules;
use crate::double::{zero, Double};
use vstd::prelude::*;

verus! {

/// The bits of one step of the exponent.
pub const OCTAVE: u64 = 0x0010_0000_0000_0000;

/// Tells whether a number is not below zero.
pub open spec fn nonneg(a: Double) -> bool {
    zero().at_most(a)
}

/// Tells whether a number is not below zero, and not above two to the power of `e`.
pub open spec fn capped(a: Double, e: int) -> bool {
    a.equals(zero()) || (!a.negative() && a.bits <= (1023 + e) * OCTAVE && !a.nan())
}

/// Tells whether a number is between two to the powers of `-e` and `e`.
pub open spec fn sized(a: Double, e: int) -> bool {
    !a.negative() && (1023 - e) * OCTAVE <= a.bits <= (1023 + e) * OCTAVE
}

/// Tells whether sizes may be told of: two to the power of a thousand is far from where
/// numbers end.
pub open spec fn tellable(e: int) -> bool {
    0 <= e <= 1000
}

/// Tells whether sums keep order, sign and size.
pub open spec fn adds_in_order(rules: Rules) -> bool {
    &&& forall|a: Double, b: Double|
        nonneg(a) && nonneg(b) ==> a.at_most(#[trigger] rules.add(a, b)) && b.at_most(
            rules.add(a, b),
        )
    &&& forall|a: Double, b: Double, c: Double, d: Double|
        nonneg(a) && nonneg(b) && a.at_most(c) && b.at_most(d) ==> (#[trigger] rules.add(
            a,
            b,
        )).at_most(#[trigger] rules.add(c, d))
    &&& forall|a: Double, b: Double, e: int|
        tellable(e + 1) && e >= 0 && #[trigger] capped(a, e) && capped(b, e) ==> capped(
            #[trigger] rules.add(a, b),
            e + 1,
        )
    &&& forall|a: Double, b: Double|
        nonneg(a) && b.equals(zero()) ==> (#[trigger] rules.add(a, b)).equals(a) && rules.add(
            b,
            a,
        ).equals(a)
}

/// Tells whether differences keep order, sign and size.
pub open spec fn subtracts_in_order(rules: Rules) -> bool {
    &&& forall|a: Double, b: Double|
        a.finite() && b.finite() ==> (#[trigger] rules.sub(
            a,
            b,
        )).turned().equals(rules.sub(b, a))
    &&& forall|a: Double, b: Double|
        a.finite() && b.finite() ==> !(#[trigger] rules.sub(a, b)).nan()
    &&& forall|a: Double, b: Double|
        a.finite() && b.equals(zero()) ==> (#[trigger] rules.sub(a, b)).equals(a)
    &&& forall|a: Double, b: Double, e: int|
        tellable(e + 1) && e >= 0 && #[trigger] capped(a, e) && capped(b.turned(), e) ==> capped(
            #[trigger] rules.sub(a, b),
            e + 1,
        )
    &&& forall|a: Double, b: Double, c: Double, d: Double|
        a.finite() && b.finite() && c.finite() && d.finite() && a.at_most(c) && d.at_most(b) ==> (
        #[trigger] rules.sub(a, b)).at_most(#[trigger] rules.sub(c, d))
    &&& forall|a: Double, b: Double, e: int|
        tellable(e) && #[trigger] capped(a, e) && capped(b, e) && b.at_most(a) ==> capped(
            #[trigger] rules.sub(a, b),
            e,
        )
    &&& forall|a: Double, b: Double, e: int|
        tellable(e + 53) && e >= 0 && #[trigger] sized(a, e) && (sized(b, e) || b.equals(zero()))
            && b.below(a) ==> sized(#[trigger] rules.sub(a, b), e + 53)
}

/// Tells whether products keep order, sign and size.
pub open spec fn multiplies_in_order(rules: Rules) -> bool {
    &&& forall|a: Double, b: Double, e: int, f: int|
        e >= 0 && f >= 0 && tellable(e + f) && #[trigger] capped(a, e) && #[trigger] capped(b, f)
            ==> capped(#[trigger] rules.mul(a, b), e + f)
    &&& forall|a: Double, b: Double, e: int, f: int|
        e >= 0 && f >= 0 && tellable(e + f) && #[trigger] sized(a, e) && #[trigger] sized(b, f)
            ==> sized(#[trigger] rules.mul(a, b), e + f)
    &&& forall|a: Double, b: Double, c: Double, d: Double|
        nonneg(a) && nonneg(b) && c.finite() && d.finite() && a.at_most(c) && b.at_most(d) ==> (
        #[trigger] rules.mul(a, b)).at_most(#[trigger] rules.mul(c, d))
    &&& forall|a: Double, b: Double|
        nonneg(a) && nonneg(b) && a.finite() && b.finite() && (a.equals(zero()) || b.equals(zero()))
            ==> (#[trigger] rules.mul(a, b)).equals(zero())
}

/// Tells whether quotients keep order, sign and size.
pub open spec fn divides_in_order(rules: Rules) -> bool {
    &&& forall|a: Double, b: Double, e: int, f: int|
        e >= 0 && f >= 0 && tellable(e + f) && #[trigger] capped(a, e) && #[trigger] sized(b, f)
            ==> capped(#[trigger] rules.div(a, b), e + f)
    &&& forall|a: Double, b: Double, e: int, f: int|
        e >= 0 && f >= 0 && tellable(e + f) && #[trigger] sized(a, e) && #[trigger] sized(b, f)
            ==> sized(#[trigger] rules.div(a, b), e + f)
    &&& forall|a: Double, b: Double, c: Double, d: Double|
        nonneg(a) && a.at_most(c) && c.finite() && zero().below(d) && d.at_most(b) && b.finite()
            ==> (#[trigger] rules.div(a, b)).at_most(#[trigger] rules.div(c, d))
    &&& forall|a: Double, b: Double|
        a.equals(zero()) && zero().below(b) && b.finite() ==> (#[trigger] rules.div(a, b)).equals(
            zero(),
        )
}

/// Tells whether squares keep order, sign and size.
pub open spec fn squares_in_order(rules: Rules) -> bool {
    &&& forall|a: Double, e: int|
        e >= 0 && tellable(2 * e) && #[trigger] capped(a, e) ==> capped(
            #[trigger] rules.square(a),
            2 * e,
        )
    &&& forall|a: Double, e: int|
        e >= 0 && tellable(2 * e) && #[trigger] sized(a, e) ==> sized(
            #[trigger] rules.square(a),
            2 * e,
        )
    &&& forall|a: Double, b: Double|
        nonneg(a) && a.at_most(b) ==> (#[trigger] rules.square(a)).at_most(
            #[trigger] rules.square(b),
        )
    &&& forall|a: Double| a.equals(zero()) ==> (#[trigger] rules.square(a)).equals(zero())
}

/// Tells whether counts and ratios of up to ten thousand are what they say, as far as
/// their order and size go.
pub open spec fn counts_in_order(rules: Rules) -> bool {
    &&& forall|n: int| 1 <= n <= 10000 ==> sized(#[trigger] rules.count(n), 14)
    &&& forall|m: int, n: int|
        1 <= m < n <= 10000 ==> (#[trigger] rules.count(m)).below(#[trigger] rules.count(n))
    &&& forall|p: int, q: int|
        1 <= p <= 10000 && 1 <= q <= 10000 ==> sized(#[trigger] rules.ratio(p, q), 14)
    &&& forall|p: int, q: int, n: int|
        1 <= p <= 10000 && 1 <= q <= 10000 && 1 <= n <= 10000 && p < n * q ==> (
        #[trigger] rules.ratio(p, q)).below(#[trigger] rules.count(n))
    &&& forall|p: int, q: int, n: int|
        1 <= p <= 10000 && 1 <= q <= 10000 && 1 <= n <= 10000 && n * q < p ==> (
        #[trigger] rules.count(n)).below(#[trigger] rules.ratio(p, q))
}

/// Tells whether arithmetic keeps order, sign and size.
#[verifier::opaque]
pub open spec fn orderly(rules: Rules) -> bool {
    &&& adds_in_order(rules)
    &&& subtracts_in_order(rules)
    &&& multiplies_in_order(rules)
    &&& divides_in_order(rules)
    &&& squares_in_order(rules)
    &&& counts_in_order(rules)
}

/// What has a size is a number above zero, and what is capped is none below zero.
pub proof fn lemma_sizes(a: Double, e: int)
    requires
        tellable(e),
    ensures
        sized(a, e) ==> zero().below(a) && a.finite() && capped(a, e) && nonneg(a),
        capped(a, e) ==> nonneg(a) && a.finite(),
        a == zero() ==> capped(a, e),
{
}

/// A wider bound holds where a closer one does.
pub proof fn lemma_wider(a: Double, e: int, f: int)
    requires
        0 <= e <= f,
    ensures
        sized(a, e) ==> sized(a, f),
        capped(a, e) ==> capped(a, f),
{
}

} // verus!
