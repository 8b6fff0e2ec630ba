//! What holds of the ramp that eases the columns and the zoom.

use crate::error_laws::apart;
use crate::error_laws::lemma_minus_error;
use crate::error_laws::lemma_times_error;
use crate::rain_frame::smoothstep;
use crate::rounding::lemma_magnitude_increases;
use crate::rounding::lemma_nearest_scaled;
use crate::rounding::lemma_round_bits_scaled;
use crate::rounding::lemma_round_exact;
use crate::rounding::lemma_round_fits;
use crate::rounding::lemma_round_increases;
use crate::rounding::lemma_scale_unique;
use crate::rounding::magnitude;
use crate::rounding::nearest;
use crate::rounding::round_bits;
use crate::rounding::BINADE;
use crate::single::one_in_units;
use crate::single::Single;
use crate::single::ONE_BITS;
use crate::single_laws::lemma_integer;
use crate::single_laws::lemma_integer_difference;
use crate::single_laws::lemma_integer_sum;
use crate::single_laws::lemma_negated;
use crate::single_laws::lemma_one_times;
use crate::single_laws::lemma_plus_commutes;
use crate::single_laws::lemma_plus_exact;
use crate::single_laws::lemma_plus_increases;
use crate::single_laws::lemma_rounded;
use crate::single_laws::lemma_same_value;
use crate::single_laws::lemma_times_one;
use crate::single_laws::lemma_zero;
use crate::single_laws::lemma_zero_times;
use vstd::arithmetic::div_mod::lemma_fundamental_div_mod;
use vstd::arithmetic::div_mod::lemma_fundamental_div_mod_converse;
use vstd::arithmetic::power2::lemma2_to64;
use vstd::arithmetic::power2::lemma_pow2_adds;
use vstd::arithmetic::power2::lemma_pow2_pos;
use vstd::arithmetic::power2::lemma_pow2_strictly_increases;
use vstd::arithmetic::power2::lemma_pow2_unfold;
use vstd::arithmetic::power2::pow2;
use vstd::prelude::*;

verus! {

/// The ramp ends at one.
pub proof fn lemma_smoothstep_one()
    ensures
        smoothstep(Single::integer(1)) == Single::integer(1),
{
    lemma_integer(1);
    lemma_integer(2);
    lemma_one_times(Single::integer(1));
    lemma_times_one(Single::integer(2));
    lemma_integer_difference(3, 2);
}

/// The ramp starts at zero, whatever the sign of zero.
pub proof fn lemma_smoothstep_zero(t: Single)
    requires
        t.is_finite(),
        t.value() == 0,
    ensures
        smoothstep(t) == (Single { bits: 0 }),
{
    let zero = Single { bits: 0 };
    lemma_pow2_pos(149);
    lemma_zero();
    lemma_integer(2);
    lemma_integer(3);
    let two = Single::integer(2);
    let three = Single::integer(3);
    lemma_zero_times(t, t);
    lemma_zero_times(two, t);
    let d = two.times(t);
    lemma_negated(d);
    lemma_plus_exact(three, d.negated(), 3, 149);
    lemma_zero_times(zero, three.minus(d));
    lemma_same_value(t.times(t), zero);
    lemma_same_value(smoothstep(t), zero);
}

/// The product of two sizes is at most one where it is before it is rounded.
proof fn lemma_product_below_one(a: Single, b: Single)
    requires
        a.is_finite(),
        b.is_finite(),
        !a.negative(),
        !b.negative(),
        a.size() * b.size() <= one_in_units() * one_in_units(),
    ensures
        a.times(b).is_finite(),
        !a.times(b).negative(),
        a.times(b).value() <= one_in_units(),
{
    let u = one_in_units();
    let one = Single::integer(1);
    lemma_pow2_pos(149);
    reveal(Single::spec_times);
    lemma_rounded(false, a.size() * b.size(), u);
    lemma_round_increases(a.size() * b.size(), u, u, 1);
    lemma_one_is_rounded();
    let bits = round_bits(a.size() * b.size(), u);
    if bits < one.magnitude_bits() {
        lemma_magnitude_increases(bits, one.magnitude_bits());
    }
}

/// One, by its encoding.
proof fn lemma_one_is_rounded()
    ensures
        round_bits(one_in_units(), 1) == Single::integer(1).magnitude_bits(),
        Single::integer(1).magnitude_bits() == ONE_BITS,
        magnitude(ONE_BITS as nat) == one_in_units(),
{
    let u = one_in_units();
    lemma_integer(1);
    lemma_zero();
    lemma_one_times(Single::integer(0));
    assert(1 * u == u);
    lemma_round_exact(ONE_BITS as nat);
}

/// The integer nearest to a quotient is not above it by more than a half.
pub proof fn lemma_nearest_bound(n: nat, d: nat)
    requires
        d > 0,
    ensures
        2 * (nearest(n, d) * d) <= 2 * n + d,
{
    lemma_fundamental_div_mod(n as int, d as int);
    let q = n / d;
    assert(d * q == q * d && (q + 1) * d == q * d + d) by (nonlinear_arith);
}

/// How many steps of 2^-24 there are in one.
spec fn steps() -> nat {
    0x100_0000
}

/// A size from a half to one is a count of steps of 2^-24.
proof fn lemma_steps(t: Single) -> (m: nat)
    requires
        t.is_finite(),
        !t.negative(),
        one_in_units() <= 2 * t.size(),
        t.size() < one_in_units(),
    ensures
        t.size() == m * pow2(125),
        one_in_units() == steps() * pow2(125),
        steps() <= 2 * m,
        m < steps(),
{
    let b = BINADE as nat;
    let bits = t.magnitude_bits();
    let e = pow2(125);
    lemma2_to64();
    lemma_pow2_adds(24, 125);
    lemma_pow2_adds(23, 125);
    lemma_pow2_adds(23, 126);
    lemma_pow2_unfold(149);
    lemma_pow2_pos(125);
    // A half and one, by their encodings.
    let half = (126 * b) as nat;
    assert(magnitude(half) == b * e);
    lemma_one_is_rounded();
    if bits < half {
        lemma_magnitude_increases(bits, half);
    }
    if bits > ONE_BITS {
        lemma_magnitude_increases(ONE_BITS as nat, bits);
    }
    assert(bits / b == 126);
    b + bits % b
}

/// The square of a number whose square is above a half, rounded: a count of steps that
/// is not above the square by more than half a step.
proof fn lemma_square(t: Single, m: nat) -> (q: nat)
    requires
        t.is_finite(),
        !t.negative(),
        t.size() == m * pow2(125),
        m < steps(),
        steps() * steps() < 2 * (m * m),
    ensures
        t.times(t).is_finite(),
        !t.times(t).negative(),
        t.times(t).size() == q * pow2(125),
        2 * (q * steps()) <= 2 * (m * m) + steps(),
{
    let u = one_in_units();
    let b = BINADE as nat;
    let e = pow2(125);
    let n = t.size() * t.size();
    let q = nearest(m * m, steps());
    lemma2_to64();
    lemma_pow2_pos(125);
    lemma_pow2_adds(24, 125);
    assert(u == steps() * e);
    lemma_pow2_adds(149, 149);
    lemma_pow2_adds(149, 148);
    lemma_pow2_unfold(149);
    assert(n == (m * m) * (e * e)) by (nonlinear_arith)
        requires
            n == (m * e) * (m * e),
    ;
    assert(u * e == steps() * (e * e)) by (nonlinear_arith)
        requires
            u == steps() * e,
    ;
    assert(u * u == (steps() * steps()) * (e * e)) by (nonlinear_arith)
        requires
            u == steps() * e,
    ;
    assert(m * m < steps() * steps()) by (nonlinear_arith)
        requires
            m < steps(),
    ;
    assert(e * e > 0) by (nonlinear_arith)
        requires
            e > 0,
    ;
    assert(n < u * u && u * u < 2 * n) by (nonlinear_arith)
        requires
            n == (m * m) * (e * e),
            u * u == (steps() * steps()) * (e * e),
            m * m < steps() * steps(),
            steps() * steps() < 2 * (m * m),
            e * e > 0,
    ;
    assert(u * pow2(148) * 2 == u * u) by (nonlinear_arith)
        requires
            u == 2 * pow2(148),
    ;
    lemma_scale_unique(n, u, 125);
    lemma_nearest_scaled(m * m, steps(), e * e);
    assert(nearest(n, u * e) == q);
    lemma_nearest_bound(m * m, steps());
    lemma_fundamental_div_mod((m * m) as int, steps() as int);
    assert(b <= q <= 2 * b) by (nonlinear_arith)
        requires
            q == (m * m) / steps() || q == (m * m) / steps() + 1,
            m * m == steps() * ((m * m) / steps()) + (m * m) % steps(),
            0 <= (m * m) % steps() < steps(),
            m * m < steps() * steps(),
            steps() * steps() < 2 * (m * m),
            steps() == 2 * b,
            b == 0x80_0000,
    ;
    let bits = (125 * b + q) as nat;
    assert(round_bits(n, u) == bits);
    lemma_pow2_unfold(126);
    assert(magnitude(bits) == q * e) by {
        if q < 2 * b {
            assert(bits / b == 126 && bits % b == q - b);
        } else {
            assert(bits / b == 127 && bits % b == 0);
            assert(b * (2 * e) == (2 * b) * e) by (nonlinear_arith);
        }
    }
    reveal(Single::spec_times);
    lemma_rounded(false, n, u);
    q
}

/// What is above one by less than half of a step of the numbers there is rounded to
/// one.
proof fn lemma_just_above_one(s: nat)
    requires
        s < steps(),
    ensures
        round_bits((steps() * steps() + s) * (pow2(125) * pow2(125)), one_in_units()) == ONE_BITS,
{
    let u = one_in_units();
    let b = BINADE as nat;
    let e = pow2(125);
    let n = (steps() * steps() + s) * (e * e);
    lemma2_to64();
    lemma_pow2_pos(125);
    lemma_pow2_adds(24, 125);
    lemma_pow2_unfold(126);
    lemma_pow2_unfold(150);
    assert(u == steps() * e);
    assert(e * e > 0) by (nonlinear_arith)
        requires
            e > 0,
    ;
    assert(u * u == (steps() * steps()) * (e * e)) by (nonlinear_arith)
        requires
            u == steps() * e,
    ;
    assert(u * u <= n && n < u * (2 * u)) by (nonlinear_arith)
        requires
            n == (steps() * steps() + s) * (e * e),
            u * u == (steps() * steps()) * (e * e),
            s < steps(),
            steps() == 0x100_0000,
            e * e > 0,
    ;
    lemma_scale_unique(n, u, 126);
    assert(u * (2 * e) == (2 * steps()) * (e * e)) by (nonlinear_arith)
        requires
            u == steps() * e,
    ;
    lemma_nearest_scaled(steps() * steps() + s, 2 * steps(), e * e);
    lemma_fundamental_div_mod_converse(
        (steps() * steps() + s) as int,
        (2 * steps()) as int,
        b as int,
        s as int,
    );
    assert(nearest(steps() * steps() + s, 2 * steps()) == b);
}

/// Twice a number of at most one is exact.
proof fn lemma_twice(t: Single)
    requires
        t.is_finite(),
        !t.negative(),
        0 < t.size() <= one_in_units(),
    ensures
        Single::integer(2).times(t).is_finite(),
        !Single::integer(2).times(t).negative(),
        Single::integer(2).times(t).value() == 2 * t.value(),
{
    let u = one_in_units();
    let b = BINADE as nat;
    let bits = t.magnitude_bits();
    lemma_pow2_pos(149);
    lemma_integer(2);
    reveal(Single::spec_times);
    lemma_one_is_rounded();
    if bits > ONE_BITS {
        lemma_magnitude_increases(ONE_BITS as nat, bits);
    }
    let x = if bits < b {
        0nat
    } else {
        (bits / b - 1) as nat
    };
    let m = if bits < b {
        bits
    } else {
        b + bits % b
    };
    lemma2_to64();
    assert(t.size() == m * pow2(x)) by {
        if bits < b {
            assert(bits * 1 == bits);
        }
    }
    lemma_pow2_unfold(x + 1);
    assert(m * pow2(x + 1) == 2 * t.size()) by (nonlinear_arith)
        requires
            t.size() == m * pow2(x),
            pow2(x + 1) == 2 * pow2(x),
    ;
    lemma_round_fits(m, x + 1);
    lemma_round_bits_scaled(2 * t.size(), 1, u);
    assert((2 * u) * t.size() == (2 * t.size()) * u) by (nonlinear_arith);
    lemma_rounded(false, (2 * u) * t.size(), u);
}

/// The square of a number, rounded, is at most the power of two that bounds it.
proof fn lemma_square_at_most(t: Single, x: nat)
    requires
        t.is_finite(),
        t.size() * t.size() <= pow2(x) * one_in_units(),
        x <= 148,
    ensures
        t.times(t).is_finite(),
        !t.times(t).negative(),
        t.times(t).size() <= pow2(x),
{
    let u = one_in_units();
    let n = t.size() * t.size();
    lemma_pow2_pos(149);
    reveal(Single::spec_times);
    lemma_rounded(false, n, u);
    lemma_round_increases(n, u, pow2(x), 1);
    lemma_round_fits(1, x);
    assert(1 * pow2(x) == pow2(x));
    let bits = round_bits(n, u);
    if bits < round_bits(pow2(x), 1) {
        lemma_magnitude_increases(bits, round_bits(pow2(x), 1));
    }
}

/// What is not above three is finite.
proof fn lemma_up_to_three_is_finite(b: Single)
    requires
        !b.is_nan(),
        0 < b.value() <= 3 * one_in_units(),
    ensures
        b.is_finite(),
        !b.negative(),
{
    let three = Single::integer(3);
    lemma_integer(3);
    if b.is_infinite() {
        lemma_magnitude_increases(three.magnitude_bits(), b.magnitude_bits());
    }
}

/// How far the product of the ramp can be above one, before it is rounded.
proof fn lemma_ramp_bound(n: int, m: int, q: int)
    requires
        0 < n <= 2 * m,
        m <= n,
        2 * (q * n) <= 2 * (m * m) + n,
    ensures
        q * (3 * n - 2 * m) < n * n + n,
{
    let k = n - m;
    let p = q * (3 * n - 2 * m);
    assert(2 * n * p <= (2 * (m * m) + n) * (n + 2 * k)) by (nonlinear_arith)
        requires
            p == q * (n + 2 * k),
            n + 2 * k >= 0,
            2 * (q * n) <= 2 * (m * m) + n,
    ;
    assert((2 * (m * m) + n) * (n + 2 * k) == 2 * (n * n * n) - 6 * (n * (k * k)) + 4 * (k * (k
        * k)) + n * n + 2 * (n * k)) by (nonlinear_arith)
        requires
            m == n - k,
    ;
    assert(4 * (k * (k * k)) <= 2 * (n * (k * k))) by (nonlinear_arith)
        requires
            2 * k <= n,
    ;
    assert(n * k <= n * (k * k)) by (nonlinear_arith)
        requires
            0 <= k,
            0 < n,
    ;
    assert(0 <= n * (k * k)) by (nonlinear_arith)
        requires
            0 < n,
    ;
    assert(2 * n * p <= 2 * (n * n * n) + n * n);
    assert(p < n * n + n) by (nonlinear_arith)
        requires
            2 * n * p <= 2 * (n * n * n) + n * n,
            n > 0,
    ;
}

/// The ramp near its end, where the square is above a half.
proof fn lemma_steep(t: Single, m: nat)
    requires
        t.is_finite(),
        !t.negative(),
        t.size() == m * pow2(125),
        m < steps(),
        steps() * steps() < 2 * (m * m),
    ensures
        smoothstep(t).is_finite(),
        !smoothstep(t).negative(),
        smoothstep(t).value() <= one_in_units(),
{
    let u = one_in_units();
    let e = pow2(125);
    let n = steps();
    let three = Single::integer(3);
    let d = Single::integer(2).times(t);
    lemma_pow2_pos(149);
    lemma_pow2_pos(125);
    lemma2_to64();
    lemma_pow2_adds(24, 125);
    lemma_pow2_unfold(126);
    lemma_integer(3);
    assert(n < 2 * m) by (nonlinear_arith)
        requires
            n * n < 2 * (m * m),
            n == 0x100_0000,
    ;
    assert(0 < m * e < n * e) by (nonlinear_arith)
        requires
            0 < m < n,
            e > 0,
    ;
    lemma_twice(t);
    lemma_negated(d);
    let k = (3 * 0x80_0000 - m) as nat;
    let c = (3 * n - 2 * m) as nat;
    assert(3 * (n * e) - 2 * (m * e) == c * e && c * e == k * (2 * e)) by (nonlinear_arith)
        requires
            c == 3 * n - 2 * m,
            c == 2 * k,
    ;
    lemma_plus_exact(three, d.negated(), k, 126);
    let b = three.minus(d);
    let q = lemma_square(t, m);
    let a = t.times(t);
    lemma_ramp_bound(n as int, m as int, q as int);
    let p = q * c;
    assert(a.size() * b.size() == p * (e * e)) by (nonlinear_arith)
        requires
            a.size() == q * e,
            b.size() == c * e,
            p == q * c,
    ;
    assert(u * u == (n * n) * (e * e)) by (nonlinear_arith)
        requires
            u == n * e,
    ;
    if p <= n * n {
        assert(p * (e * e) <= (n * n) * (e * e)) by (nonlinear_arith)
            requires
                p <= n * n,
        ;
        lemma_product_below_one(a, b);
    } else {
        lemma_just_above_one((p - n * n) as nat);
        reveal(Single::spec_times);
        lemma_rounded(false, a.size() * b.size(), u);
        lemma_one_is_rounded();
    }
}

/// The ramp stays between zero and one.
pub proof fn lemma_smoothstep_range(t: Single)
    requires
        t.is_finite(),
        0 <= t.value() <= one_in_units(),
    ensures
        smoothstep(t).is_finite(),
        !smoothstep(t).negative(),
        0 <= smoothstep(t).value() <= one_in_units(),
{
    let u = one_in_units();
    let one = Single::integer(1);
    let two = Single::integer(2);
    let three = Single::integer(3);
    lemma_pow2_pos(149);
    lemma_zero();
    lemma_integer(1);
    lemma_integer(2);
    lemma_integer(3);
    assert(1 * u == u);
    if t.value() == 0 {
        lemma_smoothstep_zero(t);
    } else if t.value() == u {
        lemma_same_value(t, one);
        lemma_smoothstep_one();
    } else {
        let size = t.size();
        let a = t.times(t);
        let d = two.times(t);
        let b = three.minus(d);
        lemma_twice(t);
        lemma_negated(d);
        lemma_integer(-1);
        lemma_integer(-2);
        lemma_integer_sum(0, 3);
        lemma_integer_sum(-1, 3);
        lemma_integer_sum(-2, 3);
        lemma_plus_commutes(three, d.negated());
        lemma_plus_increases(d.negated(), Single::integer(0), three);
        lemma_plus_increases(Single::integer(-2), d.negated(), three);
        lemma_up_to_three_is_finite(b);
        lemma2_to64();
        lemma_pow2_adds(147, 2);
        lemma_pow2_adds(148, 1);
        if 2 * size <= u {
            assert(size * size <= pow2(147) * u) by (nonlinear_arith)
                requires
                    2 * size <= u,
                    u == 4 * pow2(147),
            ;
            lemma_square_at_most(t, 147);
            assert(a.size() * b.size() <= u * u) by (nonlinear_arith)
                requires
                    4 * a.size() <= u,
                    b.size() <= 3 * u,
            ;
            lemma_product_below_one(a, b);
        } else {
            lemma_plus_increases(d.negated(), Single::integer(-1), three);
            let m = lemma_steps(t);
            let e = pow2(125);
            if 2 * (m * m) <= steps() * steps() {
                assert(size * size <= pow2(148) * u) by (nonlinear_arith)
                    requires
                        size == m * e,
                        u == steps() * e,
                        u == 2 * pow2(148),
                        2 * (m * m) <= steps() * steps(),
                ;
                lemma_square_at_most(t, 148);
                assert(a.size() * b.size() <= u * u) by (nonlinear_arith)
                    requires
                        2 * a.size() <= u,
                        b.size() <= 2 * u,
                ;
                lemma_product_below_one(a, b);
            } else {
                lemma_steep(t, m);
            }
        }
    }
}

/// How much the exact ramp rises over a step.
proof fn lemma_exact_ramp_difference(x: int, k: int, u: int)
    ensures
        (x + k) * (x + k) * (3 * u - 2 * (x + k)) - x * x * (3 * u - 2 * x) == 6 * (x * k * (u - (x
            + k))) + k * k * (3 * u - 2 * k),
{
    let a = x * x;
    let b = x * k;
    let d = k * k;
    let w = 3 * u - 2 * (x + k);
    assert((x + k) * (x + k) == a + 2 * b + d) by (nonlinear_arith)
        requires
            a == x * x,
            b == x * k,
            d == k * k,
    ;
    assert((a + 2 * b + d) * w == a * w + 2 * (b * w) + d * w) by (nonlinear_arith);
    assert(a * w == 3 * (a * u) - 2 * (a * x) - 2 * (a * k)) by (nonlinear_arith)
        requires
            w == 3 * u - 2 * (x + k),
    ;
    assert(b * w == 3 * (b * u) - 2 * (b * x) - 2 * (b * k)) by (nonlinear_arith)
        requires
            w == 3 * u - 2 * (x + k),
    ;
    assert(d * w == 3 * (d * u) - 2 * (d * x) - 2 * (d * k)) by (nonlinear_arith)
        requires
            w == 3 * u - 2 * (x + k),
    ;
    assert(a * k == b * x && b * k == d * x) by (nonlinear_arith)
        requires
            a == x * x,
            b == x * k,
            d == k * k,
    ;
    assert(a * (3 * u - 2 * x) == 3 * (a * u) - 2 * (a * x)) by (nonlinear_arith);
    assert(b * (u - (x + k)) == b * u - b * x - b * k) by (nonlinear_arith);
    assert(d * (3 * u - 2 * k) == 3 * (d * u) - 2 * (d * k)) by (nonlinear_arith);
}

/// The exact ramp rises.
proof fn lemma_exact_ramp_rises(x: int, y: int, u: int)
    requires
        0 <= x <= y <= u,
    ensures
        x * x * (3 * u - 2 * x) <= y * y * (3 * u - 2 * y),
{
    let k = y - x;
    lemma_exact_ramp_difference(x, k, u);
    assert(x * k * (u - (x + k)) >= 0) by (nonlinear_arith)
        requires
            x >= 0,
            k >= 0,
            u - (x + k) >= 0,
    ;
    assert(k * k * (3 * u - 2 * k) >= 0) by (nonlinear_arith)
        requires
            3 * u - 2 * k >= 0,
    ;
}

/// The exact ramp rises by more than the square of a step.
proof fn lemma_exact_ramp_step(x: int, h: int, u: int)
    requires
        0 <= x,
        0 <= h,
        x + h <= u,
        2 * h <= u,
    ensures
        (x + h) * (x + h) * (3 * u - 2 * (x + h)) - x * x * (3 * u - 2 * x) >= 2 * (u * (h * h)),
{
    lemma_exact_ramp_difference(x, h, u);
    assert(x * h * (u - (x + h)) >= 0) by (nonlinear_arith)
        requires
            x >= 0,
            h >= 0,
            u - (x + h) >= 0,
    ;
    assert(h * h * (3 * u - 2 * h) >= 2 * (u * (h * h))) by (nonlinear_arith)
        requires
            3 * u - 2 * h >= 2 * u,
    ;
}

/// The errors of the ramp's steps, put together.
proof fn lemma_errors_add_up(u: int, x: int, a: int, b: int, r: int)
    requires
        0x1000_0000 <= u,
        0 <= x <= u,
        0 <= a,
        0 <= b,
        0x100_0000 * apart(a * u, x * x) <= x * x + 0x80_0000 * u,
        0x100_0000 * apart(b, 3 * u - 2 * x) <= 3 * u - 2 * x,
        0x100_0000 * apart(r * u, a * b) <= a * b + 0x80_0000 * u,
    ensures
        0x100_0000 * apart(r * (u * u), x * x * (3 * u - 2 * x)) <= 8 * (u * u * u),
{
    let n: int = 0x100_0000;
    let c = 3 * u - 2 * x;
    let f = x * x * c;
    let ea = a * u - x * x;
    let eb = b - c;
    let er = r * u - a * b;
    let cube = u * u * u;
    lemma_exact_ramp_rises(x, u, u);
    assert(u * u * (3 * u - 2 * u) == cube) by (nonlinear_arith)
        requires
            cube == u * u * u,
    ;
    assert(r * (u * u) - f == u * er + b * ea + x * x * eb) by (nonlinear_arith)
        requires
            f == x * x * c,
            ea == a * u - x * x,
            eb == b - c,
            er == r * u - a * b,
    ;
    assert(0 <= x * x <= u * u) by (nonlinear_arith)
        requires
            0 <= x <= u,
    ;
    // The third error.
    assert(n * (x * x * eb) <= f && n * (x * x * eb) >= -f) by (nonlinear_arith)
        requires
            f == x * x * c,
            n * eb <= c,
            -c <= n * eb,
            0 <= x * x,
    ;
    assert(x * x * b == f + x * x * eb) by (nonlinear_arith)
        requires
            f == x * x * c,
            eb == b - c,
    ;
    assert(x * x * b <= 2 * cube);
    // The second one.
    let h: int = 0x80_0000;
    assert(n * (b * ea) <= b * (x * x + h * u) && n * (b * ea) >= -(b * (x * x + h * u)))
        by (nonlinear_arith)
        requires
            n * ea <= x * x + h * u,
            -(x * x + h * u) <= n * ea,
            0 <= b,
    ;
    assert(b * (x * x + h * u) == x * x * b + b * (h * u)) by (nonlinear_arith);
    assert(b <= 4 * u);
    assert(b * (h * u) <= cube) by (nonlinear_arith)
        requires
            0 <= b <= 4 * u,
            h == 0x80_0000,
            cube == u * u * u,
            0x200_0000 <= u,
    ;
    // The first one.
    assert(u * (a * b) == x * x * b + b * ea) by (nonlinear_arith)
        requires
            ea == a * u - x * x,
    ;
    assert(u * (a * b) <= 3 * cube);
    assert(n * (u * er) <= u * (a * b) + u * (h * u) && n * (u * er) >= -(u * (a * b) + u * (h
        * u))) by (nonlinear_arith)
        requires
            n * er <= a * b + h * u,
            -(a * b + h * u) <= n * er,
            0 <= u,
    ;
    assert(u * (h * u) <= cube) by (nonlinear_arith)
        requires
            h <= u,
            cube == u * u * u,
            u >= 0,
    ;
}

/// The ramp is the exact one, up to rounding: within 2^-21 of it.
pub proof fn lemma_smoothstep_error(t: Single)
    requires
        t.is_finite(),
        0 <= t.value() <= one_in_units(),
    ensures
        ({
            let u = one_in_units() as int;
            let x = t.value();
            0x100_0000 * apart(smoothstep(t).value() * (u * u), x * x * (3 * u - 2 * x)) <= 8 * (u
                * u * u)
        }),
{
    let u = one_in_units() as int;
    let x = t.value();
    let three = Single::integer(3);
    lemma_pow2_pos(149);
    lemma2_to64();
    lemma_pow2_strictly_increases(28, 149);
    lemma_zero();
    lemma_integer(3);
    lemma_smoothstep_range(t);
    if x == 0 {
        lemma_smoothstep_zero(t);
        assert(x * x * (3 * u - 2 * x) == 0 && 0 * (u * u) == 0 && u * u * u >= 0)
            by (nonlinear_arith)
            requires
                x == 0,
                u >= 0,
        ;
    } else {
        let a = t.times(t);
        let d = Single::integer(2).times(t);
        let b = three.minus(d);
        lemma_pow2_strictly_increases(152, 200);
        lemma_pow2_adds(3, 149);
        assert(pow2(200) >= 8 * u);
        assert(0 <= x * x <= pow2(200) * u) by (nonlinear_arith)
            requires
                0 <= x <= u,
                pow2(200) >= 8 * u,
        ;
        lemma_times_error(t, t);
        assert(!a.negative()) by {
            reveal(Single::spec_times);
            lemma_rounded(false, t.size() * t.size(), u as nat);
        }
        lemma_twice(t);
        lemma_minus_error(three, d);
        assert(0 <= b.value() <= 4 * u);
        assert(0 <= a.value() <= 2 * u) by (nonlinear_arith)
            requires
                0x100_0000 * (a.value() * u - x * x) <= x * x + 0x80_0000 * u,
                0 <= x <= u,
                0x1000_0000 <= u,
                0 <= a.value(),
        ;
        assert(0 <= a.value() * b.value() <= pow2(200) * u) by (nonlinear_arith)
            requires
                0 <= a.value() <= 2 * u,
                0 <= b.value() <= 4 * u,
                pow2(200) >= 8 * u,
        ;
        lemma_times_error(a, b);
        lemma_errors_add_up(u, x, a.value(), b.value(), smoothstep(t).value());
    }
}

/// The ramp falls back by less than 2^-20 where it falls back at all.
pub proof fn lemma_ramp_falls_back_little(a: Single, b: Single)
    requires
        a.is_finite(),
        b.is_finite(),
        0 <= a.value() <= b.value() <= one_in_units(),
    ensures
        0x10_0000 * (smoothstep(a).value() - smoothstep(b).value()) <= one_in_units(),
{
    let u = one_in_units() as int;
    let ra = smoothstep(a).value();
    let rb = smoothstep(b).value();
    lemma_pow2_pos(149);
    lemma_smoothstep_error(a);
    lemma_smoothstep_error(b);
    lemma_exact_ramp_rises(a.value(), b.value(), u);
    assert(0x100_0000 * (ra * (u * u) - rb * (u * u)) <= 16 * (u * u * u));
    assert(0x100_0000 * (ra - rb) <= 16 * u) by (nonlinear_arith)
        requires
            0x100_0000 * (ra * (u * u) - rb * (u * u)) <= 16 * (u * u * u),
            u > 0,
    ;
}

/// Over a step of 2^-10 or more the ramp does not fall back.
pub proof fn lemma_ramp_rises(a: Single, b: Single)
    requires
        a.is_finite(),
        b.is_finite(),
        0 <= a.value() <= b.value() <= one_in_units(),
        0x400 * (b.value() - a.value()) >= one_in_units(),
    ensures
        smoothstep(a).value() <= smoothstep(b).value(),
{
    let u = one_in_units() as int;
    let h = pow2(139) as int;
    let ra = smoothstep(a).value();
    let rb = smoothstep(b).value();
    let x = a.value();
    let y = x + h;
    lemma_pow2_pos(149);
    lemma_pow2_pos(139);
    lemma2_to64();
    lemma_pow2_adds(10, 139);
    assert(u == 0x400 * h);
    lemma_smoothstep_error(a);
    lemma_smoothstep_error(b);
    lemma_exact_ramp_step(x, h, u);
    lemma_exact_ramp_rises(y, b.value(), u);
    let cube = u * u * u;
    assert(0x10_0000 * (u * (h * h)) == cube) by (nonlinear_arith)
        requires
            u == 0x400 * h,
            cube == u * u * u,
    ;
    assert(0x100_0000 * (ra * (u * u) - rb * (u * u)) <= 0);
    assert(ra <= rb) by (nonlinear_arith)
        requires
            ra * (u * u) - rb * (u * u) <= 0,
            u > 0,
    ;
}

} // verus!
