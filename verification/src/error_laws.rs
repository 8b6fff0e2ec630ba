//! How far single-precision results are from the exact ones.

use crate::rounding::lemma_round_error;
use crate::rounding::lemma_round_fits;
use crate::rounding::lemma_round_increases;
use crate::rounding::magnitude;
use crate::rounding::round_bits;
use crate::rounding::INFINITY_BITS;
use crate::single::abs;
use crate::single::one_in_units;
use crate::single::Single;
use crate::single_laws::lemma_negated;
use crate::single_laws::lemma_rounded;
use crate::single_laws::lemma_zero;
use vstd::arithmetic::power2::lemma_pow2_pos;
use vstd::arithmetic::power2::pow2;
use vstd::prelude::*;

verus! {

/// How far apart two numbers are.
pub open spec fn apart(a: int, b: int) -> int {
    if a < b {
        b - a
    } else {
        a - b
    }
}

/// What is rounded from up to 2^51 stays finite.
proof fn lemma_rounded_is_finite(n: nat, d: nat)
    requires
        d > 0,
        n <= pow2(200) * d,
    ensures
        round_bits(n, d) < INFINITY_BITS,
{
    lemma_round_fits(1, 200);
    assert(1 * pow2(200) == pow2(200));
    lemma_round_increases(n, d, pow2(200), 1);
}

/// A sum is off by one part in 2^24 at most.
pub proof fn lemma_plus_error(a: Single, b: Single)
    requires
        a.is_finite(),
        b.is_finite(),
        abs(a.value() + b.value()) <= pow2(200),
    ensures
        a.plus(b).is_finite(),
        0x100_0000 * apart(a.plus(b).value(), a.value() + b.value()) <= abs(a.value() + b.value()),
{
    let sum = a.value() + b.value();
    reveal(Single::spec_plus);
    lemma_zero();
    if sum == 0 {
        assert(a.plus(b).value() == 0);
    } else {
        let n = abs(sum);
        assert(pow2(200) * 1 == pow2(200));
        lemma_rounded_is_finite(n, 1);
        lemma_rounded(sum < 0, n, 1);
        lemma_round_error(n, 1);
    }
}

/// A difference is off by one part in 2^24 at most.
pub proof fn lemma_minus_error(a: Single, b: Single)
    requires
        a.is_finite(),
        b.is_finite(),
        abs(a.value() - b.value()) <= pow2(200),
    ensures
        a.minus(b).is_finite(),
        0x100_0000 * apart(a.minus(b).value(), a.value() - b.value()) <= abs(
            a.value() - b.value(),
        ),
{
    lemma_negated(b);
    lemma_plus_error(a, b.negated());
}

/// A product is off by one part in 2^24 at most, or by half a unit.
pub proof fn lemma_times_error(a: Single, b: Single)
    requires
        a.is_finite(),
        b.is_finite(),
        abs(a.value() * b.value()) <= pow2(200) * one_in_units(),
    ensures
        a.times(b).is_finite(),
        0x100_0000 * apart(a.times(b).value() * one_in_units(), a.value() * b.value()) <= abs(
            a.value() * b.value(),
        ) + 0x80_0000 * one_in_units(),
{
    let u = one_in_units();
    let n = a.size() * b.size();
    let negative = a.negative() != b.negative();
    lemma_pow2_pos(149);
    reveal(Single::spec_times);
    assert(a.value() * b.value() == if negative {
        -(n as int)
    } else {
        n as int
    }) by (nonlinear_arith)
        requires
            n == a.size() * b.size(),
            negative == (a.negative() != b.negative()),
            a.value() == if a.negative() {
                -(a.size() as int)
            } else {
                a.size() as int
            },
            b.value() == if b.negative() {
                -(b.size() as int)
            } else {
                b.size() as int
            },
    ;
    assert(n >= 0);
    lemma_rounded_is_finite(n, u);
    lemma_rounded(negative, n, u);
    lemma_round_error(n, u);
    let m = magnitude(round_bits(n, u));
    assert((-(m as int)) * u == -(m * u)) by (nonlinear_arith);
}

/// A quotient is off by one part in 2^24 at most, or by half a unit.
pub proof fn lemma_over_error(a: Single, b: Single)
    requires
        a.is_finite(),
        b.is_finite(),
        b.value() > 0,
        abs(a.value()) * one_in_units() <= pow2(200) * b.value(),
    ensures
        a.over(b).is_finite(),
        0x100_0000 * apart(a.over(b).value() * b.value(), a.value() * one_in_units()) <= abs(
            a.value(),
        ) * one_in_units() + 0x80_0000 * b.value(),
{
    let u = one_in_units();
    let n = a.size() * u;
    let d = b.size();
    lemma_pow2_pos(149);
    lemma_zero();
    reveal(Single::spec_over);
    assert(!b.is_zero());
    lemma_rounded_is_finite(n, d);
    lemma_rounded(a.negative(), n, d);
    lemma_round_error(n, d);
    let m = magnitude(round_bits(n, d));
    assert((-(m as int)) * d == -(m * d) && (-(a.size() as int)) * u == -(a.size() * u))
        by (nonlinear_arith);
}

} // verus!
