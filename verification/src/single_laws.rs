//! What holds of single-precision arithmetic.

use crate::rounding::lemma_magnitude_increases;
use crate::rounding::lemma_round_bits_scaled;
use crate::rounding::lemma_round_bits_zero;
use crate::rounding::lemma_round_exact;
use crate::rounding::lemma_round_fits;
use crate::rounding::lemma_round_increases;
use crate::rounding::round_bits;
use crate::rounding::BINADE;
use crate::single::abs;
use crate::single::lemma_magnitude_parts;
use crate::single::lemma_one;
use crate::single::one_in_units;
use crate::single::signed_int;
use crate::single::Single;
use crate::single::ONE_BITS;
use vstd::arithmetic::div_mod::lemma_fundamental_div_mod_converse;
use vstd::arithmetic::power2::lemma2_to64;
use vstd::arithmetic::power2::lemma_pow2_adds;
use vstd::arithmetic::power2::lemma_pow2_pos;
use vstd::arithmetic::power2::lemma_pow2_strictly_increases;
use vstd::arithmetic::power2::lemma_pow2_unfold;
use vstd::arithmetic::power2::pow2;
use vstd::prelude::*;

verus! {

/// What a rounded number is.
pub proof fn lemma_rounded(negative: bool, n: nat, d: nat)
    requires
        d > 0,
    ensures
        !Single::rounded(negative, n, d).is_nan(),
        Single::rounded(negative, n, d).negative() == negative,
        Single::rounded(negative, n, d).magnitude_bits() == round_bits(n, d),
{
}

/// A number is its sign and its value.
pub proof fn lemma_same_value(a: Single, b: Single)
    requires
        !a.is_nan(),
        !b.is_nan(),
        a.value() == b.value(),
        a.negative() == b.negative(),
    ensures
        a == b,
{
    let x = a.magnitude_bits();
    let y = b.magnitude_bits();
    if x < y {
        lemma_magnitude_increases(x, y);
    }
    if y < x {
        lemma_magnitude_increases(y, x);
    }
}

/// An integer of up to 24 bits is held exactly.
pub proof fn lemma_integer(i: int)
    requires
        -0x100_0000 < i < 0x100_0000,
    ensures
        Single::integer(i).is_finite(),
        Single::integer(i).negative() == (i < 0),
        Single::integer(i).value() == i * one_in_units(),
        Single::integer(i).size() == abs(i) * one_in_units(),
{
    reveal(Single::integer);
    lemma_round_fits(abs(i), 149);
    lemma_rounded(i < 0, abs(i) * one_in_units(), 1);
    assert((-abs(i)) * one_in_units() == -(abs(i) * one_in_units())) by (nonlinear_arith);
}

/// A sum that fits in 24 bits is exact.
pub proof fn lemma_plus_exact(a: Single, b: Single, m: nat, x: nat)
    requires
        a.is_finite(),
        b.is_finite(),
        m < 0x100_0000,
        x <= 253,
        abs(a.value() + b.value()) == m * pow2(x),
    ensures
        a.plus(b).is_finite(),
        a.plus(b).value() == a.value() + b.value(),
        a.value() + b.value() != 0 ==> a.plus(b).negative() == (a.value() + b.value() < 0),
        a.value() + b.value() == 0 ==> a.plus(b).negative() == (a.negative() && b.negative()),
{
    reveal(Single::spec_plus);
    let sum = a.value() + b.value();
    lemma_round_fits(m, x);
    lemma_rounded(sum < 0, abs(sum), 1);
    lemma_magnitude_parts(0);
}

/// Integers of up to 24 bits add up exactly.
pub proof fn lemma_integer_sum(a: int, b: int)
    requires
        -0x100_0000 < a < 0x100_0000,
        -0x100_0000 < b < 0x100_0000,
        -0x100_0000 < a + b < 0x100_0000,
    ensures
        Single::integer(a).plus(Single::integer(b)) == Single::integer(a + b),
{
    let u = one_in_units();
    lemma_integer(a);
    lemma_integer(b);
    lemma_integer(a + b);
    assert(a * u + b * u == (a + b) * u) by (nonlinear_arith);
    assert(abs((a + b) * u) == abs(a + b) * u) by {
        lemma_abs_product(a + b, u);
    }
    lemma_plus_exact(Single::integer(a), Single::integer(b), abs(a + b), 149);
    lemma_zero_product(a + b, u);
    lemma_same_value(Single::integer(a).plus(Single::integer(b)), Single::integer(a + b));
}

/// Integers of up to 24 bits subtract exactly.
pub proof fn lemma_integer_difference(a: int, b: int)
    requires
        -0x100_0000 < a < 0x100_0000,
        -0x100_0000 < b < 0x100_0000,
        -0x100_0000 < a - b < 0x100_0000,
    ensures
        Single::integer(a).minus(Single::integer(b)) == Single::integer(a - b),
{
    let u = one_in_units();
    lemma_integer(a);
    lemma_integer(b);
    lemma_integer(a - b);
    lemma_negated(Single::integer(b));
    assert(a * u - b * u == (a - b) * u) by (nonlinear_arith);
    assert(abs((a - b) * u) == abs(a - b) * u) by {
        lemma_abs_product(a - b, u);
    }
    let n = Single::integer(b).negated();
    lemma_plus_exact(Single::integer(a), n, abs(a - b), 149);
    lemma_zero_product(a - b, u);
    lemma_zero_product(b, u);
    lemma_same_value(Single::integer(a).minus(Single::integer(b)), Single::integer(a - b));
}

proof fn lemma_abs_product(i: int, u: nat)
    ensures
        abs(i * u) == abs(i) * u,
{
    assert(i < 0 ==> i * u <= 0 && (-i) * u == -(i * u)) by (nonlinear_arith);
    assert(i >= 0 ==> i * u >= 0) by (nonlinear_arith);
}

proof fn lemma_zero_product(i: int, u: nat)
    requires
        u == one_in_units(),
    ensures
        i * u == 0 <==> i == 0,
        i * u < 0 <==> i < 0,
{
    lemma_pow2_pos(149);
    assert((i * u == 0 <==> i == 0) && (i * u < 0 <==> i < 0)) by (nonlinear_arith)
        requires
            u > 0,
    ;
}

/// The same number with the other sign.
pub proof fn lemma_negated(a: Single)
    ensures
        a.negated().negative() != a.negative(),
        a.negated().size() == a.size(),
        a.negated().value() == -a.value(),
        a.negated().is_finite() == a.is_finite(),
        a.negated().is_nan() == a.is_nan(),
        a.negated().is_zero() == a.is_zero(),
{
}

/// One times a number is the number.
pub proof fn lemma_one_times(a: Single)
    requires
        a.is_finite(),
    ensures
        Single::integer(1).times(a) == a,
        Single::integer(1) == (Single { bits: ONE_BITS }),
{
    reveal(Single::spec_times);
    let u = one_in_units();
    lemma_integer(1);
    lemma_one();
    lemma_pow2_pos(149);
    lemma_same_value(Single::integer(1), Single { bits: ONE_BITS });
    assert(1 * u == u);
    lemma_round_bits_scaled(a.size(), 1, u);
    assert(u * a.size() == a.size() * u) by (nonlinear_arith);
    lemma_round_exact(a.magnitude_bits());
}

proof fn lemma_signed_product(negative: bool, size: nat, by: nat)
    ensures
        signed_int(negative, size * by) == signed_int(negative, size) * by,
{
    assert((-(size as int)) * by == -(size * by)) by (nonlinear_arith);
}

/// A larger exact result does not round to a smaller number.
proof fn lemma_rounded_increases(na: bool, a: nat, da: nat, nb: bool, b: nat, db: nat)
    requires
        da > 0,
        db > 0,
        signed_int(na, a) * db <= signed_int(nb, b) * da,
    ensures
        Single::rounded(na, a, da).value() <= Single::rounded(nb, b, db).value(),
{
    lemma_rounded(na, a, da);
    lemma_rounded(nb, b, db);
    let x = round_bits(a, da);
    let y = round_bits(b, db);
    lemma_magnitude_parts(0);
    assert((-(a as int)) * db == -(a * db)) by (nonlinear_arith);
    assert((-(b as int)) * da == -(b * da)) by (nonlinear_arith);
    assert(a * db >= 0 && b * da >= 0) by (nonlinear_arith);
    if !na && !nb {
        lemma_round_increases(a, da, b, db);
        if x < y {
            lemma_magnitude_increases(x, y);
        }
    } else if na && nb {
        lemma_round_increases(b, db, a, da);
        if y < x {
            lemma_magnitude_increases(y, x);
        }
    } else if !na && nb {
        assert(a == 0 && b == 0) by (nonlinear_arith)
            requires
                a * db <= -(b * da),
                da > 0,
                db > 0,
        ;
        lemma_round_bits_zero(a, da);
        lemma_round_bits_zero(b, db);
    }
}

/// A larger number plus the same is not smaller.
pub proof fn lemma_plus_increases(a: Single, b: Single, x: Single)
    requires
        a.is_finite(),
        b.is_finite(),
        x.is_finite(),
        a.value() <= b.value(),
    ensures
        a.plus(x).value() <= b.plus(x).value(),
        !a.plus(x).is_nan(),
        !b.plus(x).is_nan(),
{
    reveal(Single::spec_plus);
    let sa = a.value() + x.value();
    let sb = b.value() + x.value();
    lemma_magnitude_parts(0);
    lemma_rounded(sa < 0, abs(sa), 1);
    lemma_rounded(sb < 0, abs(sb), 1);
    lemma_rounded_increases(sa < 0, abs(sa), 1, sb < 0, abs(sb), 1);
    lemma_round_bits_zero(0, 1);
}

/// A larger number times the same, which is not negative, is not smaller.
pub proof fn lemma_times_increases(a: Single, b: Single, x: Single)
    requires
        a.is_finite(),
        b.is_finite(),
        x.is_finite(),
        !x.negative(),
        a.value() <= b.value(),
    ensures
        a.times(x).value() <= b.times(x).value(),
        !a.times(x).is_nan(),
        !b.times(x).is_nan(),
{
    reveal(Single::spec_times);
    let u = one_in_units();
    lemma_pow2_pos(149);
    lemma_rounded(a.negative(), a.size() * x.size(), u);
    lemma_rounded(b.negative(), b.size() * x.size(), u);
    let p = a.size() * x.size();
    let q = b.size() * x.size();
    lemma_signed_product(a.negative(), a.size(), x.size());
    lemma_signed_product(b.negative(), b.size(), x.size());
    assert(signed_int(a.negative(), p) * u <= signed_int(b.negative(), q) * u) by (nonlinear_arith)
        requires
            signed_int(a.negative(), p) == a.value() * x.size(),
            signed_int(b.negative(), q) == b.value() * x.size(),
            a.value() <= b.value(),
    ;
    lemma_rounded_increases(a.negative(), p, u, b.negative(), q, u);
}

/// A larger number over the same, which is positive, is not smaller.
pub proof fn lemma_over_increases(a: Single, b: Single, x: Single)
    requires
        a.is_finite(),
        b.is_finite(),
        x.is_finite(),
        x.value() > 0,
        a.value() <= b.value(),
    ensures
        a.over(x).value() <= b.over(x).value(),
        !a.over(x).is_nan(),
        !b.over(x).is_nan(),
{
    reveal(Single::spec_over);
    let u = one_in_units();
    let d = x.size();
    lemma_magnitude_parts(0);
    lemma_rounded(a.negative(), a.size() * u, d);
    lemma_rounded(b.negative(), b.size() * u, d);
    let p = a.size() * u;
    let q = b.size() * u;
    lemma_signed_product(a.negative(), a.size(), u);
    lemma_signed_product(b.negative(), b.size(), u);
    assert(signed_int(a.negative(), p) * d <= signed_int(b.negative(), q) * d) by (nonlinear_arith)
        requires
            signed_int(a.negative(), p) == a.value() * u,
            signed_int(b.negative(), q) == b.value() * u,
            a.value() <= b.value(),
    ;
    lemma_rounded_increases(a.negative(), p, d, b.negative(), q, d);
}

/// A number times one is the number.
pub proof fn lemma_times_one(a: Single)
    requires
        a.is_finite(),
    ensures
        a.times(Single::integer(1)) == a,
{
    lemma_one_times(a);
    lemma_integer(1);
    reveal(Single::spec_times);
    assert(a.size() * Single::integer(1).size() == Single::integer(1).size() * a.size())
        by (nonlinear_arith);
}

/// A number over itself is one.
pub proof fn lemma_over_self(a: Single)
    requires
        a.is_finite(),
        !a.is_zero(),
    ensures
        a.over(a) == Single::integer(1),
{
    reveal(Single::spec_over);
    reveal(Single::integer);
    let u = one_in_units();
    lemma_magnitude_parts(a.magnitude_bits());
    lemma_round_bits_scaled(u, 1, a.size());
    assert(a.size() * u == u * a.size()) by (nonlinear_arith);
    assert(1 * a.size() == a.size());
    assert(1 * u == u);
}

/// Zero, as an integer and by its encoding.
pub proof fn lemma_zero()
    ensures
        Single::integer(0) == (Single { bits: 0 }),
        (Single { bits: 0 }).value() == 0,
        (Single { bits: 0 }).is_finite(),
        !(Single { bits: 0 }).negative(),
{
    lemma_integer(0);
    lemma_magnitude_parts(0);
    assert(0 * one_in_units() == 0);
    lemma_same_value(Single::integer(0), Single { bits: 0 });
}

/// The integer that a number is.
pub proof fn lemma_integer_back(i: int)
    requires
        -0x100_0000 < i < 0x100_0000,
    ensures
        Single::integer(i).floor_to_i32() == i,
        i >= 0 ==> Single::integer(i).or_zero() == Single::integer(i),
        forall|max: nat|
            0 <= i <= max ==> #[trigger] Single::integer(i).truncated(max) == i,
{
    let u = one_in_units();
    lemma_pow2_pos(149);
    lemma_integer(i);
    lemma_zero();
    lemma_zero_product(i, u);
    lemma_fundamental_div_mod_converse(i * u, u as int, i, 0);
    reveal(Single::spec_floor_to_i32);
    reveal(Single::spec_or_zero);
    reveal(Single::truncated);
    if i == 0 {
        assert(Single::integer(0) == (Single { bits: 0 }));
    }
    if i >= 0 {
        assert(Single::integer(i).size() == i * u);
    }
}

/// A number from minus one to one is finite.
pub proof fn lemma_below_one_is_finite(a: Single)
    requires
        !a.is_nan(),
        a.size() <= one_in_units(),
    ensures
        a.is_finite(),
{
    lemma_one_times(Single { bits: 0 });
    lemma_integer(1);
    let one = Single::integer(1);
    assert(1 * one_in_units() == one_in_units());
    if a.is_infinite() {
        lemma_magnitude_increases(one.magnitude_bits(), a.magnitude_bits());
    }
}

/// Zero times a finite number is zero, with the sign of the product.
pub proof fn lemma_zero_times(a: Single, b: Single)
    requires
        a.is_finite(),
        b.is_finite(),
        a.value() == 0 || b.value() == 0,
    ensures
        a.times(b).is_finite(),
        a.times(b).value() == 0,
        a.times(b).negative() == (a.negative() != b.negative()),
{
    reveal(Single::spec_times);
    lemma_pow2_pos(149);
    lemma_zero();
    assert(a.size() * b.size() == 0) by (nonlinear_arith)
        requires
            a.size() == 0 || b.size() == 0,
    ;
    lemma_round_bits_zero(0, one_in_units());
    lemma_rounded(a.negative() != b.negative(), 0, one_in_units());
}

/// Taking a whole number from a number that is not below it is exact, up to 2^24.
pub proof fn lemma_minus_integer(a: Single, k: int)
    requires
        a.is_finite(),
        !a.negative(),
        1 <= k < 0x100_0000,
        k * one_in_units() <= a.value() < 0x100_0000 * one_in_units(),
    ensures
        a.minus(Single::integer(k)).is_finite(),
        !a.minus(Single::integer(k)).negative(),
        a.minus(Single::integer(k)).value() == a.value() - k * one_in_units(),
{
    let u = one_in_units();
    let b = BINADE as nat;
    let bits = a.magnitude_bits();
    lemma_pow2_pos(149);
    lemma2_to64();
    lemma_integer(k);
    lemma_negated(Single::integer(k));
    assert(k * u >= u) by (nonlinear_arith)
        requires
            k >= 1,
            u > 0,
    ;
    assert(u >= b) by {
        lemma_pow2_strictly_increases(23, 149);
    }
    let m = b + bits % b;
    let x = (bits / b - 1) as nat;
    let px = pow2(x);
    lemma_pow2_pos(x);
    assert(a.value() == m * px);
    if x >= 150 {
        if x > 150 {
            lemma_pow2_strictly_increases(150, x);
        }
        lemma_pow2_unfold(150);
        assert(m * px >= 0x100_0000 * u) by (nonlinear_arith)
            requires
                m >= 0x80_0000,
                px >= 2 * u,
        ;
    }
    let s = pow2((149 - x) as nat);
    lemma_pow2_adds((149 - x) as nat, x);
    let rest = m - k * s;
    assert(m * px - k * u == rest * px) by (nonlinear_arith)
        requires
            rest == m - k * s,
            u == s * px,
    ;
    assert(0 <= rest <= m) by (nonlinear_arith)
        requires
            rest == m - k * s,
            rest * px >= 0,
            px > 0,
            k >= 0,
            s >= 0,
    ;
    lemma_plus_exact(a, Single::integer(k).negated(), rest as nat, x);
}

/// The order of a sum does not matter.
pub proof fn lemma_plus_commutes(a: Single, b: Single)
    requires
        a.is_finite(),
        b.is_finite(),
    ensures
        a.plus(b) == b.plus(a),
{
    reveal(Single::spec_plus);
}

/// A number and its encoding stand for each other, what is not a number too.
pub proof fn lemma_bits_round_trip(bits: u32, a: Single)
    ensures
        Single::from_bits(bits).to_bits() == bits,
        Single::from_bits(a.to_bits()) == a,
        a.to_bits() == a.bits,
{
}

} // verus!
