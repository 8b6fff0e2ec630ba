//! What the operations on single-precision numbers are for.
//!
//! A result is the number nearest to the exact one: no other finite number is nearer.
//! Whole numbers are cut off, rounded down and rounded up as integers are.

use crate::error_laws::apart;
use crate::ramp_laws::lemma_nearest_bound;
use crate::rounding::lemma_magnitude_increases;
use crate::rounding::lemma_round_fits;
use crate::rounding::lemma_round_increases;
use crate::rounding::lemma_round_is_nearest;
use crate::rounding::lemma_round_tie_is_even;
use crate::rounding::lemma_scale;
use crate::rounding::lemma_scale_unique;
use crate::rounding::magnitude;
use crate::rounding::nearest;
use crate::rounding::round_bits;
use crate::rounding::scale;
use crate::rounding::INFINITY_BITS;
use crate::single::abs;
use crate::single::lemma_large_is_whole;
use crate::single::one_in_units;
use crate::single::signed_int;
use crate::single::Single;
use crate::single_laws::lemma_integer;
use crate::single_laws::lemma_negated;
use crate::single_laws::lemma_one_times;
use crate::single_laws::lemma_rounded;
use crate::single_laws::lemma_zero;
use vstd::arithmetic::div_mod::lemma_fundamental_div_mod;
use vstd::arithmetic::div_mod::lemma_fundamental_div_mod_converse;
use vstd::arithmetic::div_mod::lemma_mod_multiples_basic;
use vstd::arithmetic::power2::lemma2_to64;
use vstd::arithmetic::power2::lemma_pow2_adds;
use vstd::arithmetic::power2::lemma_pow2_pos;
use vstd::arithmetic::power2::lemma_pow2_strictly_increases;
use vstd::arithmetic::power2::lemma_pow2_unfold;
use vstd::arithmetic::power2::pow2;
use vstd::prelude::*;

verus! {

/// A magnitude that is nearest to a fraction is so with a sign too.
proof fn lemma_signed_is_nearest(negative: bool, n: nat, d: nat, other: Single)
    requires
        d > 0,
        Single::rounded(negative, n, d).is_finite(),
        other.is_finite(),
    ensures
        apart(Single::rounded(negative, n, d).value() * d, signed_int(negative, n)) <= apart(
            other.value() * d,
            signed_int(negative, n),
        ),
{
    let m = magnitude(round_bits(n, d));
    lemma_rounded(negative, n, d);
    lemma_round_is_nearest(n, d, other.magnitude_bits());
    lemma_round_is_nearest(n, d, 0);
    lemma_zero();
    let k = other.size();
    assert((-(m as int)) * d == -(m * d) && (-(k as int)) * d == -(k * d) && k * d >= 0)
        by (nonlinear_arith);
    assert(0 * d == 0);
}

/// Where another number is as near to a fraction as the one that it is rounded to, the last
/// bit of the latter is zero.
proof fn lemma_signed_tie(negative: bool, n: nat, d: nat, other: Single)
    requires
        d > 0,
        Single::rounded(negative, n, d).is_finite(),
        other.is_finite(),
        other.value() != Single::rounded(negative, n, d).value(),
        apart(Single::rounded(negative, n, d).value() * d, signed_int(negative, n)) == apart(
            other.value() * d,
            signed_int(negative, n),
        ),
    ensures
        Single::rounded(negative, n, d).bits % 2 == 0,
{
    let m = magnitude(round_bits(n, d));
    lemma_rounded(negative, n, d);
    lemma_round_is_nearest(n, d, 0);
    lemma_zero();
    let k = other.size();
    assert((-(m as int)) * d == -(m * d) && (-(k as int)) * d == -(k * d) && k * d >= 0)
        by (nonlinear_arith);
    assert(k * d == 0 ==> k == 0) by (nonlinear_arith)
        requires
            d > 0,
    ;
    assert(0 * d == 0);
    lemma_round_tie_is_even(n, d, other.magnitude_bits());
}

/// Of two numbers that are equally near to the exact sum, product or quotient, the result is
/// the one whose last bit is zero.
pub proof fn lemma_ties_go_to_even(a: Single, b: Single, other: Single)
    requires
        a.is_finite(),
        b.is_finite(),
        other.is_finite(),
    ensures
        ({
            let u = one_in_units();
            let (sum, product, quotient) = (a.plus(b), a.times(b), a.over(b));
            &&& sum.is_finite() && other.value() != sum.value() && apart(
                sum.value(),
                a.value() + b.value(),
            ) == apart(other.value(), a.value() + b.value()) ==> sum.bits % 2 == 0
            &&& product.is_finite() && other.value() != product.value() && apart(
                product.value() * u,
                a.value() * b.value(),
            ) == apart(other.value() * u, a.value() * b.value()) ==> product.bits % 2 == 0
            &&& b.value() > 0 && quotient.is_finite() && other.value() != quotient.value() && apart(
                quotient.value() * b.value(),
                a.value() * u,
            ) == apart(other.value() * b.value(), a.value() * u) ==> quotient.bits % 2 == 0
        }),
{
    let u = one_in_units();
    let (sum, product, quotient) = (a.plus(b), a.times(b), a.over(b));
    let exact = a.value() + b.value();
    let negative = a.negative() != b.negative();
    lemma_pow2_pos(149);
    lemma_zero();
    reveal(Single::spec_plus);
    reveal(Single::spec_times);
    reveal(Single::spec_over);
    if exact != 0 && sum.is_finite() && other.value() != sum.value() && apart(sum.value(), exact)
        == apart(other.value(), exact) {
        lemma_signed_tie(exact < 0, abs(exact), 1, other);
    }
    let n = a.size() * b.size();
    assert(a.value() * b.value() == signed_int(negative, n)) by (nonlinear_arith)
        requires
            n == a.size() * b.size(),
            negative == (a.negative() != b.negative()),
            a.value() == if a.negative() {
                -(a.size() as int)
            } else {
                a.size() as int
            },
            b.value() == if b.negative() {
                -(b.size() as int)
            } else {
                b.size() as int
            },
            signed_int(negative, n) == if negative {
                -(n as int)
            } else {
                n as int
            },
    ;
    if product.is_finite() && other.value() != product.value() && apart(
        product.value() * u,
        a.value() * b.value(),
    ) == apart(other.value() * u, a.value() * b.value()) {
        lemma_signed_tie(negative, n, u, other);
    }
    assert((-(a.size() as int)) * u == -(a.size() * u)) by (nonlinear_arith);
    if b.value() > 0 && quotient.is_finite() && other.value() != quotient.value() && apart(
        quotient.value() * b.value(),
        a.value() * u,
    ) == apart(other.value() * b.value(), a.value() * u) {
        assert(!b.is_zero());
        lemma_signed_tie(a.negative(), a.size() * u, b.size(), other);
    }
}

/// Of two numbers that are equally near to an integer or to a fraction, it becomes the one
/// whose last bit is zero.
pub proof fn lemma_conversion_ties_go_to_even(i: int, n: nat, d: nat, other: Single)
    requires
        d > 0,
        other.is_finite(),
    ensures
        ({
            let u = one_in_units();
            let (whole, part) = (Single::integer(i), Single::fraction(n, d));
            &&& whole.is_finite() && other.value() != whole.value() && apart(whole.value(), i * u)
                == apart(other.value(), i * u) ==> whole.bits % 2 == 0
            &&& part.is_finite() && other.value() != part.value() && apart(part.value() * d, (n * u) as int)
                == apart(other.value() * d, (n * u) as int) ==> part.bits % 2 == 0
        }),
{
    let u = one_in_units();
    let (whole, part) = (Single::integer(i), Single::fraction(n, d));
    lemma_pow2_pos(149);
    reveal(Single::integer);
    reveal(Single::fraction);
    assert((-(abs(i) as int)) * u == -(abs(i) * u)) by (nonlinear_arith);
    if whole.is_finite() && other.value() != whole.value() && apart(whole.value(), i * u) == apart(
        other.value(),
        i * u,
    ) {
        lemma_signed_tie(i < 0, abs(i) * u, 1, other);
    }
    if part.is_finite() && other.value() != part.value() && apart(part.value() * d, (n * u) as int)
        == apart(other.value() * d, (n * u) as int) {
        lemma_signed_tie(false, n * u, d, other);
    }
}

/// A sum is the number nearest to the exact one.
pub proof fn lemma_plus_is_nearest(a: Single, b: Single, other: Single)
    requires
        a.is_finite(),
        b.is_finite(),
        a.plus(b).is_finite(),
        other.is_finite(),
    ensures
        apart(a.plus(b).value(), a.value() + b.value()) <= apart(
            other.value(),
            a.value() + b.value(),
        ),
{
    let sum = a.value() + b.value();
    reveal(Single::spec_plus);
    lemma_zero();
    if sum != 0 {
        lemma_signed_is_nearest(sum < 0, abs(sum), 1, other);
    }
}

/// A difference is the number nearest to the exact one.
pub proof fn lemma_minus_is_nearest(a: Single, b: Single, other: Single)
    requires
        a.is_finite(),
        b.is_finite(),
        a.minus(b).is_finite(),
        other.is_finite(),
    ensures
        apart(a.minus(b).value(), a.value() - b.value()) <= apart(
            other.value(),
            a.value() - b.value(),
        ),
{
    lemma_negated(b);
    lemma_plus_is_nearest(a, b.negated(), other);
}

/// A product is the number nearest to the exact one.
pub proof fn lemma_times_is_nearest(a: Single, b: Single, other: Single)
    requires
        a.is_finite(),
        b.is_finite(),
        a.times(b).is_finite(),
        other.is_finite(),
    ensures
        apart(a.times(b).value() * one_in_units(), a.value() * b.value()) <= apart(
            other.value() * one_in_units(),
            a.value() * b.value(),
        ),
{
    let n = a.size() * b.size();
    let negative = a.negative() != b.negative();
    lemma_pow2_pos(149);
    reveal(Single::spec_times);
    assert(a.value() * b.value() == signed_int(negative, n)) by (nonlinear_arith)
        requires
            n == a.size() * b.size(),
            negative == (a.negative() != b.negative()),
            a.value() == if a.negative() {
                -(a.size() as int)
            } else {
                a.size() as int
            },
            b.value() == if b.negative() {
                -(b.size() as int)
            } else {
                b.size() as int
            },
            signed_int(negative, n) == if negative {
                -(n as int)
            } else {
                n as int
            },
    ;
    lemma_signed_is_nearest(negative, n, one_in_units(), other);
}

/// A quotient is the number nearest to the exact one.
pub proof fn lemma_over_is_nearest(a: Single, b: Single, other: Single)
    requires
        a.is_finite(),
        b.is_finite(),
        b.value() > 0,
        a.over(b).is_finite(),
        other.is_finite(),
    ensures
        apart(a.over(b).value() * b.value(), a.value() * one_in_units()) <= apart(
            other.value() * b.value(),
            a.value() * one_in_units(),
        ),
{
    let u = one_in_units();
    let n = a.size() * u;
    lemma_pow2_pos(149);
    lemma_zero();
    reveal(Single::spec_over);
    assert(!b.is_zero());
    assert((-(a.size() as int)) * u == -(a.size() * u)) by (nonlinear_arith);
    lemma_signed_is_nearest(a.negative(), n, b.size(), other);
}

/// An integer becomes the number nearest to it; below 2^24 that is the integer itself.
pub proof fn lemma_integer_is_nearest(i: int, other: Single)
    requires
        -0x1_0000_0000_0000_0000 <= i <= 0x1_0000_0000_0000_0000,
        other.is_finite(),
    ensures
        Single::integer(i).is_finite(),
        apart(Single::integer(i).value(), i * one_in_units()) <= apart(
            other.value(),
            i * one_in_units(),
        ),
        -0x100_0000 < i < 0x100_0000 ==> Single::integer(i).value() == i * one_in_units(),
{
    let u = one_in_units();
    let n = abs(i) * u;
    lemma_pow2_pos(149);
    reveal(Single::integer);
    lemma2_to64();
    lemma_pow2_adds(64, 149);
    assert(n <= pow2(213)) by (nonlinear_arith)
        requires
            n == abs(i) * u,
            abs(i) <= 0x1_0000_0000_0000_0000,
            pow2(213) == 0x1_0000_0000_0000_0000 * u,
    ;
    lemma_round_fits(1, 213);
    assert(1 * pow2(213) == pow2(213));
    lemma_round_increases(n, 1, pow2(213), 1);
    lemma_rounded(i < 0, n, 1);
    assert((-(abs(i) as int)) * u == -(abs(i) * u)) by (nonlinear_arith);
    lemma_signed_is_nearest(i < 0, n, 1, other);
    if -0x100_0000 < i < 0x100_0000 {
        lemma_integer(i);
    }
}

/// A fraction becomes the number nearest to it.
pub proof fn lemma_fraction_is_nearest(n: nat, d: nat, other: Single)
    requires
        0 < d,
        n <= 0x1_0000_0000_0000_0000 * d,
        other.is_finite(),
    ensures
        Single::fraction(n, d).is_finite(),
        apart(Single::fraction(n, d).value() * d, (n * one_in_units()) as int) <= apart(
            other.value() * d,
            (n * one_in_units()) as int,
        ),
{
    let u = one_in_units();
    let k = n * u;
    lemma_pow2_pos(149);
    reveal(Single::fraction);
    lemma2_to64();
    lemma_pow2_adds(64, 149);
    assert(k <= pow2(213) * d) by (nonlinear_arith)
        requires
            k == n * u,
            n <= 0x1_0000_0000_0000_0000 * d,
            pow2(213) == 0x1_0000_0000_0000_0000 * u,
    ;
    lemma_round_fits(1, 213);
    assert(1 * pow2(213) == pow2(213));
    lemma_round_increases(k, d, pow2(213), 1);
    lemma_rounded(false, k, d);
    lemma_signed_is_nearest(false, k, d, other);
}

/// Rounding down gives the integer that the number is at, or above by less than one.
pub proof fn lemma_floor(a: Single)
    requires
        !a.is_nan(),
    ensures
        ({
            let u = one_in_units();
            let f = a.floor_to_i32();
            if a.value() < i32::MIN * u {
                f == i32::MIN
            } else if a.value() >= (i32::MAX + 1) * u {
                f == i32::MAX
            } else {
                f * u <= a.value() < (f + 1) * u
            }
        }),
{
    let u = one_in_units() as int;
    let q = a.value() / u;
    lemma_pow2_pos(149);
    reveal(Single::spec_floor_to_i32);
    lemma_fundamental_div_mod(a.value(), u);
    assert(u * q == q * u && (q + 1) * u == q * u + u) by (nonlinear_arith);
    assert(q < i32::MIN ==> a.value() < i32::MIN * u) by (nonlinear_arith)
        requires
            a.value() < (q + 1) * u,
            u > 0,
    ;
    assert(q >= i32::MIN ==> a.value() >= i32::MIN * u) by (nonlinear_arith)
        requires
            a.value() >= q * u,
            u > 0,
    ;
    assert(q > i32::MAX ==> a.value() >= (i32::MAX + 1) * u) by (nonlinear_arith)
        requires
            a.value() >= q * u,
            u > 0,
    ;
    assert(q <= i32::MAX ==> a.value() < (i32::MAX + 1) * u) by (nonlinear_arith)
        requires
            a.value() < (q + 1) * u,
            u > 0,
    ;
}

/// Cutting off the fraction of a number that is not negative gives the integer that it
/// is at, or above by less than one; what is negative or no number gives zero.
pub proof fn lemma_truncated(a: Single, max: nat)
    ensures
        ({
            let u = one_in_units();
            let k = a.truncated(max);
            if a.is_nan() || a.value() <= 0 {
                k == 0
            } else if a.value() >= (max + 1) * u {
                k == max
            } else {
                k * u <= a.value() < (k + 1) * u && k <= max
            }
        }),
{
    let u = one_in_units() as int;
    lemma_pow2_pos(149);
    reveal(Single::truncated);
    let v = a.size() as int;
    let q = v / u;
    lemma_fundamental_div_mod(v, u);
    assert(u * q == q * u && (q + 1) * u == q * u + u) by (nonlinear_arith);
    assert(q > max ==> v >= (max + 1) * u) by (nonlinear_arith)
        requires
            v >= q * u,
            u > 0,
    ;
    assert(q <= max ==> v < (max + 1) * u) by (nonlinear_arith)
        requires
            v < (q + 1) * u,
            u > 0,
    ;
    assert(v == 0 ==> q == 0) by (nonlinear_arith)
        requires
            v >= q * u,
            v < (q + 1) * u,
            u > 0,
    ;
}

/// Rounding up gives a whole number that is not below the number, and less than one
/// above it, and keeps the sign. What is not finite stays.
pub proof fn lemma_ceil(a: Single)
    ensures
        !a.is_finite() ==> a.ceil() == a,
        a.is_finite() ==> {
            &&& a.ceil().is_finite()
            &&& a.ceil().value() % (one_in_units() as int) == 0
            &&& a.value() <= a.ceil().value() < a.value() + one_in_units()
            &&& a.ceil().negative() == a.negative()
        },
{
    let u = one_in_units() as int;
    let v = a.size() as int;
    let q = v / u;
    lemma_pow2_pos(149);
    reveal(Single::spec_ceil);
    lemma_fundamental_div_mod(v, u);
    assert(u * q == q * u && (q + 1) * u == q * u + u) by (nonlinear_arith);
    assert(q >= 0) by (nonlinear_arith)
        requires
            v == u * q + v % u,
            0 <= v % u < u,
            0 <= v,
            u > 0,
    ;
    if a.is_finite() {
        if v % u == 0 {
            let w = if a.negative() {
                -q
            } else {
                q
            };
            assert(w * u == a.value()) by (nonlinear_arith)
                requires
                    a.value() == if a.negative() {
                        -v
                    } else {
                        v
                    },
                    v == q * u,
                    w == if a.negative() {
                        -q
                    } else {
                        q
                    },
            ;
            lemma_mod_multiples_basic(w, u);
        } else {
            let up = if a.negative() {
                q
            } else {
                q + 1
            };
            let w = if a.negative() {
                -up
            } else {
                up
            };
            lemma_large_is_whole(a.magnitude_bits());
            lemma_whole(up as nat);
            lemma_rounded(a.negative(), (up * u) as nat, 1);
            assert(w * u == a.ceil().value()) by (nonlinear_arith)
                requires
                    a.ceil().value() == if a.negative() {
                        -(up * u)
                    } else {
                        up * u
                    },
                    w == if a.negative() {
                        -up
                    } else {
                        up
                    },
            ;
            lemma_mod_multiples_basic(w, u);
        }
    }
}

/// Whole numbers up to 2^24 are exact.
proof fn lemma_whole(n: nat)
    requires
        n <= 0x100_0000,
    ensures
        round_bits(n * one_in_units(), 1) < INFINITY_BITS,
        magnitude(round_bits(n * one_in_units(), 1)) == n * one_in_units(),
{
    if n < 0x100_0000 {
        lemma_round_fits(n, 149);
    } else {
        lemma2_to64();
        lemma_pow2_adds(24, 149);
        lemma_round_fits(1, 173);
        assert(1 * pow2(173) == pow2(173));
    }
}

/// Comparing goes by the numbers, and is false where one of them is not a number.
pub proof fn lemma_comparisons(a: Single, b: Single)
    ensures
        a.below(b) <==> !a.is_nan() && !b.is_nan() && a.value() < b.value(),
        a.equals(b) <==> !a.is_nan() && !b.is_nan() && a.value() == b.value(),
        a.at_least(b) <==> !a.is_nan() && !b.is_nan() && a.value() >= b.value(),
{
    reveal(Single::spec_below);
    reveal(Single::spec_equals);
    reveal(Single::spec_at_least);
}

/// A number moved into a range is the nearest one in it.
pub proof fn lemma_moved_into_range(a: Single)
    requires
        !a.is_nan(),
    ensures
        a.or_zero().value() == if a.value() > 0 {
            a.value()
        } else {
            0
        },
        a.clamped().value() == if a.value() < 0 {
            0
        } else if a.value() > one_in_units() {
            one_in_units() as int
        } else {
            a.value()
        },
        a.value() > 0 ==> a.or_zero() == a,
        0 <= a.value() <= one_in_units() ==> a.clamped() == a,
{
    reveal(Single::spec_or_zero);
    reveal(Single::spec_clamped);
    lemma_zero();
    lemma_integer(1);
    lemma_one_times(Single::integer(0));
    assert(1 * one_in_units() == one_in_units());
}

/// What is not a number stays so in sums, products and quotients, which give the quiet one
/// with no other bit set, and is the smaller one next to zero.
pub proof fn lemma_not_a_number(a: Single, b: Single)
    requires
        a.is_nan() || b.is_nan(),
    ensures
        a.plus(b).is_nan(),
        a.times(b).is_nan(),
        a.over(b).is_nan(),
        a.plus(b).bits == 0x7fc0_0000 && a.times(b).bits == 0x7fc0_0000 && a.over(b).bits
            == 0x7fc0_0000,
        a.is_nan() ==> a.or_zero() == (Single { bits: 0 }) && a.clamped() == a
            && a.floor_to_i32() == 0,
{
    reveal(Single::spec_plus);
    reveal(Single::spec_times);
    reveal(Single::spec_over);
    reveal(Single::spec_or_zero);
    reveal(Single::spec_clamped);
    reveal(Single::spec_floor_to_i32);
}

/// The smallest magnitude that is rounded to infinity, in units: half a step above the
/// largest finite one.
pub open spec fn overflow_limit() -> nat {
    0x1ff_ffff * pow2(252)
}

/// Rounding overflows exactly from that magnitude on.
proof fn lemma_overflow(n: nat, d: nat)
    requires
        d > 0,
    ensures
        round_bits(n, d) < INFINITY_BITS <==> n < overflow_limit() * d,
        round_bits(n, d) <= INFINITY_BITS,
{
    let t = overflow_limit();
    let h = pow2(252);
    let k = scale(n, d);
    lemma2_to64();
    lemma_pow2_pos(252);
    lemma_pow2_unfold(253);
    lemma_pow2_adds(24, 253);
    lemma_pow2_adds(23, 253);
    lemma_pow2_pos(k);
    if n < t * d {
        lemma_scale(n, d);
        let p = d * pow2(k);
        assert(p > 0) by (nonlinear_arith)
            requires
                d > 0,
                pow2(k) > 0,
                p == d * pow2(k),
        ;
        let q = nearest(n, p);
        lemma_nearest_bound(n, p);
        lemma_pow2_adds(24, k);
        assert(n < 0x100_0000 * p) by (nonlinear_arith)
            requires
                n < d * (0x100_0000 * pow2(k)),
                p == d * pow2(k),
        ;
        if k > 253 {
            if k > 254 {
                lemma_pow2_strictly_increases(277, (23 + k) as nat);
            }
            assert(d * pow2((23 + k) as nat) >= d * (0x80_0000 * (2 * h)) * 2) by (nonlinear_arith)
                requires
                    pow2((23 + k) as nat) >= 2 * (0x80_0000 * (2 * h)),
                    d > 0,
            ;
            assert(false) by (nonlinear_arith)
                requires
                    n >= d * (0x80_0000 * (2 * h)) * 2,
                    n < (0x1ff_ffff * h) * d,
                    h > 0,
                    d > 0,
            ;
        } else if k == 253 {
            assert(q < 0x100_0000) by (nonlinear_arith)
                requires
                    2 * (q * p) <= 2 * n + p,
                    n < (0x1ff_ffff * h) * d,
                    p == d * (2 * h),
                    p > 0,
            ;
        } else {
            assert(q <= 0x100_0000) by (nonlinear_arith)
                requires
                    2 * (q * p) <= 2 * n + p,
                    n < 0x100_0000 * p,
                    p > 0,
            ;
        }
    } else {
        // The limit itself is rounded up to infinity.
        assert(h * 0x1ff_ffff < pow2(277) && h * 0x1ff_ffff >= pow2(276));
        assert(1 * pow2(277) == pow2(277) && 1 * pow2(276) == pow2(276));
        lemma_scale_unique(t, 1, 253);
        assert(1 * pow2(253) == pow2(253));
        lemma_fundamental_div_mod_converse(t as int, (2 * h) as int, 0xff_ffff, h as int);
        assert(nearest(t, 2 * h) == 0x100_0000);
        assert(round_bits(t, 1) == INFINITY_BITS);
        lemma_round_increases(t, 1, n, d);
    }
}

/// Sums and products of finite numbers are finite exactly below the limit of overflow, and
/// infinite from there on.
pub proof fn lemma_overflows(a: Single, b: Single)
    requires
        a.is_finite(),
        b.is_finite(),
    ensures
        a.plus(b).is_finite() <==> abs(a.value() + b.value()) < overflow_limit(),
        a.times(b).is_finite() <==> a.size() * b.size() < overflow_limit() * one_in_units(),
        !a.plus(b).is_nan(),
        !a.times(b).is_nan(),
        b.value() != 0 ==> !a.over(b).is_nan() && (a.over(b).is_finite() <==> a.size()
            * one_in_units() < overflow_limit() * b.size()),
{
    let u = one_in_units();
    let sum = a.value() + b.value();
    lemma_pow2_pos(149);
    lemma_pow2_pos(252);
    lemma_zero();
    reveal(Single::spec_plus);
    reveal(Single::spec_times);
    reveal(Single::spec_over);
    assert(overflow_limit() * 1 == overflow_limit());
    lemma_overflow(abs(sum), 1);
    lemma_rounded(sum < 0, abs(sum), 1);
    lemma_overflow(a.size() * b.size(), u);
    lemma_rounded(a.negative() != b.negative(), a.size() * b.size(), u);
    if b.value() != 0 {
        lemma_overflow(a.size() * u, b.size());
        lemma_rounded(a.negative() != b.negative(), a.size() * u, b.size());
    }
}

/// The signs of results: that of a product and of a quotient is set where one of the two
/// is; a sum that is zero is negative only where both of its parts are.
pub proof fn lemma_signs(a: Single, b: Single)
    requires
        a.is_finite(),
        b.is_finite(),
    ensures
        a.times(b).negative() == (a.negative() != b.negative()),
        b.value() != 0 ==> a.over(b).negative() == (a.negative() != b.negative()),
        b.value() != 0 ==> a.over(b).size() == a.over(b.negated()).size(),
        a.value() + b.value() == 0 ==> a.plus(b).negative() == (a.negative() && b.negative())
            && a.plus(b).value() == 0,
        a.value() + b.value() != 0 ==> a.plus(b).negative() == (a.value() + b.value() < 0),
{
    let u = one_in_units();
    let sum = a.value() + b.value();
    lemma_pow2_pos(149);
    lemma_zero();
    reveal(Single::spec_plus);
    reveal(Single::spec_times);
    reveal(Single::spec_over);
    lemma_rounded(sum < 0, abs(sum), 1);
    lemma_rounded(a.negative() != b.negative(), a.size() * b.size(), u);
    if b.value() != 0 {
        lemma_negated(b);
        lemma_rounded(a.negative() != b.negative(), a.size() * u, b.size());
        lemma_rounded(a.negative() == b.negative(), a.size() * u, b.size());
    }
}

/// Infinities: they swallow what is finite, cancel each other to what is no number, and
/// are what dividing by zero gives.
pub proof fn lemma_infinities(a: Single, b: Single)
    ensures
        a.is_infinite() && b.is_finite() ==> a.plus(b) == a && b.plus(a) == a
            && b.over(a).value() == 0 && b.over(a).negative() == (a.negative() != b.negative()),
        a.is_infinite() && b.is_infinite() ==> (if a.negative() == b.negative() {
            a.plus(b) == a
        } else {
            a.plus(b).is_nan()
        }) && a.over(b).is_nan(),
        a.is_infinite() && !b.is_nan() ==> (if b.value() == 0 {
            a.times(b).is_nan()
        } else {
            a.times(b).is_infinite() && a.times(b).negative() == (a.negative() != b.negative())
        }),
        a.is_finite() && b.is_finite() && b.value() == 0 ==> (if a.value() == 0 {
            a.over(b).is_nan()
        } else {
            a.over(b).is_infinite() && a.over(b).negative() == (a.negative() != b.negative())
        }),
        a.is_infinite() && b.is_finite() ==> a.over(b).is_infinite() && a.over(b).negative() == (
        a.negative() != b.negative()),
{
    lemma_zero();
    reveal(Single::spec_plus);
    reveal(Single::spec_times);
    reveal(Single::spec_over);
    lemma_pow2_pos(149);
    if a.magnitude_bits() > 0 {
        lemma_magnitude_increases(0, a.magnitude_bits());
    }
    if b.magnitude_bits() > 0 {
        lemma_magnitude_increases(0, b.magnitude_bits());
    }
}

} // verus!
