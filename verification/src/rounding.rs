//! Rounding of exact fractions to 24 significant bits.
//!
//! A fraction `n / d` counts units of the smallest positive single-precision
//! number, 2^-149. Everything here is about which multiple of that unit a
//! single-precision operation delivers for an exact result of `n / d` units:
//! the nearest one that fits in 24 bits, the even one of two that are equally
//! near.

use vstd::arithmetic::div_mod::lemma_div_denominator;
use vstd::arithmetic::div_mod::lemma_fundamental_div_mod;
use vstd::arithmetic::div_mod::lemma_fundamental_div_mod_converse;
use vstd::arithmetic::power2::lemma2_to64;
use vstd::arithmetic::power2::lemma_pow2_adds;
use vstd::arithmetic::power2::lemma_pow2_pos;
use vstd::arithmetic::power2::lemma_pow2_strictly_increases;
use vstd::arithmetic::power2::lemma_pow2_unfold;
use vstd::arithmetic::power2::pow2;
use vstd::prelude::*;

verus! {

/// 2^23: the distance between the encodings of two powers of two.
pub const BINADE: u32 = 0x80_0000;

/// The encoding of infinity, which is also the first one past every finite
/// magnitude.
pub const INFINITY_BITS: u32 = 0x7f80_0000;

/// The integer nearest to `n / d`; of two that are equally near, the even one.
pub open spec fn nearest(n: nat, d: nat) -> nat {
    if 2 * (n % d) < d || (2 * (n % d) == d && (n / d) % 2 == 0) {
        n / d
    } else {
        n / d + 1
    }
}

/// The smallest `k` for which `n / d` is below 2^(24 + k): how many low bits a
/// number of this size loses when 24 are kept.
pub open spec fn scale(n: nat, d: nat) -> nat
    decreases n - d,
{
    if d == 0 || n < d * 0x100_0000 {
        0
    } else {
        1 + scale(n, 2 * d)
    }
}

/// The encoding of the single-precision magnitude nearest to `n / d` units.
pub open spec fn round_bits(n: nat, d: nat) -> nat {
    let k = scale(n, d);
    let bits = k * (BINADE as nat) + nearest(n, d * pow2(k));
    if bits < INFINITY_BITS {
        bits
    } else {
        INFINITY_BITS as nat
    }
}

/// The size, in units, of the magnitude that `bits` encodes. Infinity gets the
/// size of the first power of two that is out of range.
pub open spec fn magnitude(bits: nat) -> nat {
    if bits < BINADE {
        bits
    } else {
        (BINADE as nat + bits % (BINADE as nat)) * pow2((bits / (BINADE as nat) - 1) as nat)
    }
}

/// A larger encoding is a larger magnitude.
pub proof fn lemma_magnitude_increases(a: nat, b: nat)
    requires
        a < b,
    ensures
        magnitude(a) < magnitude(b),
{
    let u = BINADE as nat;
    if b >= u {
        let xb = b / u;
        let pb = pow2((xb - 1) as nat);
        let fb = b % u;
        lemma_pow2_pos((xb - 1) as nat);
        if a < u {
            assert((u + fb) * pb >= u) by (nonlinear_arith)
                requires
                    pb >= 1,
                    fb >= 0,
                    u >= 0,
            ;
        } else {
            let xa = a / u;
            let pa = pow2((xa - 1) as nat);
            let fa = a % u;
            lemma_pow2_pos((xa - 1) as nat);
            if xa == xb {
                assert((u + fa) * pa < (u + fb) * pa) by (nonlinear_arith)
                    requires
                        pa > 0,
                        fa < fb,
                ;
            } else {
                lemma_pow2_unfold(xa);
                if xa < xb - 1 {
                    lemma_pow2_strictly_increases(xa, (xb - 1) as nat);
                }
                assert((u + fa) * pa < (u + fb) * pb) by (nonlinear_arith)
                    requires
                        pb >= 2 * pa,
                        pa > 0,
                        fa < u,
                        fb >= 0,
                ;
            }
        }
    }
}

proof fn lemma_pow2_24_plus(k: nat)
    ensures
        pow2(24 + k) == 0x100_0000 * pow2(k),
        pow2(23 + k) == 0x80_0000 * pow2(k),
        pow2(k) > 0,
{
    lemma2_to64();
    lemma_pow2_adds(24, k);
    lemma_pow2_adds(23, k);
    lemma_pow2_pos(k);
}

/// What `scale` is, without the recursion.
pub proof fn lemma_scale(n: nat, d: nat)
    requires
        d > 0,
    ensures
        n < d * pow2(24 + scale(n, d)),
        scale(n, d) > 0 ==> n >= d * pow2((23 + scale(n, d)) as nat),
    decreases n - d,
{
    let k = scale(n, d);
    lemma_pow2_24_plus(0);
    lemma2_to64();
    if n < d * 0x100_0000 {
        assert(pow2(24 + 0) == 0x100_0000);
    } else {
        lemma_scale(n, 2 * d);
        let j = scale(n, 2 * d);
        lemma_pow2_unfold(24 + k);
        lemma_pow2_unfold(23 + k);
        assert((24 + k - 1) as nat == 24 + j);
        assert((23 + k - 1) as nat == 23 + j);
        assert((2 * d) * pow2(24 + j) == d * (2 * pow2(24 + j))) by (nonlinear_arith);
        assert((2 * d) * pow2(23 + j) == d * (2 * pow2(23 + j))) by (nonlinear_arith);
        if j == 0 {
            assert(pow2(23 + k) == 0x100_0000);
        }
    }
}

/// Only one `k` has the two properties of `scale`.
pub proof fn lemma_scale_unique(n: nat, d: nat, k: nat)
    requires
        d > 0,
        n < d * pow2(24 + k),
        k > 0 ==> n >= d * pow2((23 + k) as nat),
    ensures
        scale(n, d) == k,
{
    lemma_scale(n, d);
    let j = scale(n, d);
    if j < k {
        if 24 + j < 23 + k {
            lemma_pow2_strictly_increases(24 + j, 23 + k);
        }
        assert(d * pow2(24 + j) <= d * pow2(23 + k)) by (nonlinear_arith)
            requires
                pow2(24 + j) <= pow2(23 + k),
        ;
    }
    if k < j {
        if 24 + k < 23 + j {
            lemma_pow2_strictly_increases(24 + k, 23 + j);
        }
        assert(d * pow2(24 + k) <= d * pow2(23 + j)) by (nonlinear_arith)
            requires
                pow2(24 + k) <= pow2(23 + j),
        ;
    }
}

/// `nearest` depends on the fraction alone.
pub proof fn lemma_nearest_scaled(n: nat, d: nat, t: nat)
    requires
        d > 0,
        t > 0,
    ensures
        nearest(n * t, d * t) == nearest(n, d),
{
    let q = n / d;
    let r = n % d;
    lemma_fundamental_div_mod(n as int, d as int);
    assert(n * t == q * (d * t) + r * t) by (nonlinear_arith)
        requires
            n == d * q + r,
    ;
    assert(0 <= r * t < d * t) by (nonlinear_arith)
        requires
            0 <= r < d,
            t > 0,
    ;
    lemma_fundamental_div_mod_converse((n * t) as int, (d * t) as int, q as int, (r * t) as int);
    assert((2 * (r * t) < d * t) == (2 * r < d) && (2 * (r * t) == d * t) == (2 * r == d))
        by (nonlinear_arith)
        requires
            t > 0,
    ;
}

/// Rounding depends on the fraction alone.
pub proof fn lemma_round_bits_scaled(n: nat, d: nat, t: nat)
    requires
        d > 0,
        t > 0,
    ensures
        round_bits(n * t, d * t) == round_bits(n, d),
{
    let k = scale(n, d);
    lemma_scale(n, d);
    assert(d * t > 0) by (nonlinear_arith)
        requires
            d > 0,
            t > 0,
    ;
    let hi = pow2(24 + k);
    assert(n * t < (d * t) * hi) by (nonlinear_arith)
        requires
            n < d * hi,
            t > 0,
    ;
    if k > 0 {
        let lo = pow2((23 + k) as nat);
        assert(n * t >= (d * t) * lo) by (nonlinear_arith)
            requires
                n >= d * lo,
                t > 0,
        ;
    }
    lemma_scale_unique(n * t, d * t, k);
    let p = pow2(k);
    lemma_pow2_pos(k);
    assert(d * p > 0) by (nonlinear_arith)
        requires
            d > 0,
            p > 0,
    ;
    lemma_nearest_scaled(n, d * p, t);
    assert((d * t) * p == (d * p) * t) by (nonlinear_arith);
}

/// A magnitude that single precision holds rounds to itself.
pub proof fn lemma_round_exact(bits: nat)
    requires
        bits <= INFINITY_BITS,
    ensures
        round_bits(magnitude(bits), 1) == bits,
{
    let u = BINADE as nat;
    lemma2_to64();
    if bits < u {
        assert(scale(bits, 1) == 0);
        assert(1 * pow2(0) == 1);
    } else {
        let x = (bits / u - 1) as nat;
        let f = bits % u;
        let m = u + f;
        let p = pow2(x);
        let n = m * p;
        lemma_pow2_24_plus(x);
        assert(n < 0x100_0000 * p && n >= 0x80_0000 * p) by (nonlinear_arith)
            requires
                n == m * p,
                0x80_0000 <= m < 0x100_0000,
                p > 0,
        ;
        lemma_scale_unique(n, 1, x);
        lemma_fundamental_div_mod_converse(n as int, p as int, m as int, 0);
        assert(1 * p == p);
        assert(x * u + m == bits) by {
            lemma_fundamental_div_mod(bits as int, u as int);
        }
    }
}

/// A whole number of units that fits in 24 bits, but for zeros at its end, is
/// held exactly.
pub proof fn lemma_round_fits(m: nat, x: nat)
    requires
        m < 0x100_0000,
        x <= 253,
    ensures
        round_bits(m * pow2(x), 1) < INFINITY_BITS,
        magnitude(round_bits(m * pow2(x), 1)) == m * pow2(x),
{
    let p = pow2(x);
    let n = m * p;
    let k = scale(n, 1);
    let pk = pow2(k);
    lemma_scale(n, 1);
    lemma_pow2_24_plus(x);
    lemma_pow2_24_plus(k);
    assert(n < 0x100_0000 * p) by (nonlinear_arith)
        requires
            n == m * p,
            m < 0x100_0000,
            p > 0,
    ;
    if k > x {
        if 24 + x < 23 + k {
            lemma_pow2_strictly_increases(24 + x, 23 + k);
        }
    }
    let s = pow2((x - k) as nat);
    lemma_pow2_adds((x - k) as nat, k);
    assert(n == (m * s) * pk) by (nonlinear_arith)
        requires
            n == m * p,
            p == s * pk,
    ;
    lemma_fundamental_div_mod_converse(n as int, pk as int, (m * s) as int, 0);
    assert(1 * pk == pk);
    assert(m * s < 0x100_0000) by (nonlinear_arith)
        requires
            (m * s) * pk < 0x100_0000 * pk,
            pk > 0,
    ;
    assert(round_bits(n, 1) == k * (BINADE as nat) + m * s);
    lemma_magnitude_of_round(n, 1);
}

proof fn lemma_nearest_increases(a: nat, b: nat, d: nat)
    requires
        d > 0,
        a <= b,
    ensures
        nearest(a, d) <= nearest(b, d),
{
    let qa = a / d;
    let qb = b / d;
    lemma_fundamental_div_mod(a as int, d as int);
    lemma_fundamental_div_mod(b as int, d as int);
    let ra = a % d;
    let rb = b % d;
    assert(qa < qb || (qa == qb && ra <= rb)) by (nonlinear_arith)
        requires
            a == d * qa + ra,
            b == d * qb + rb,
            0 <= ra < d,
            0 <= rb < d,
            a <= b,
    ;
}

proof fn lemma_round_increases_same(a: nat, b: nat, d: nat)
    requires
        d > 0,
        a <= b,
    ensures
        round_bits(a, d) <= round_bits(b, d),
{
    let ka = scale(a, d);
    let kb = scale(b, d);
    let pa = pow2(ka);
    let pb = pow2(kb);
    lemma_scale(a, d);
    lemma_scale(b, d);
    lemma_pow2_24_plus(ka);
    lemma_pow2_24_plus(kb);
    assert(d * pa > 0 && d * pb > 0) by (nonlinear_arith)
        requires
            d > 0,
            pa > 0,
            pb > 0,
    ;
    if kb < ka {
        if 24 + kb < 23 + ka {
            lemma_pow2_strictly_increases(24 + kb, 23 + ka);
        }
        assert(d * pow2(24 + kb) <= d * pow2(23 + ka)) by (nonlinear_arith)
            requires
                pow2(24 + kb) <= pow2(23 + ka),
        ;
    } else if ka == kb {
        lemma_nearest_increases(a, b, d * pa);
    } else {
        let top = 0x100_0000 * (d * pa);
        let bottom = 0x80_0000 * (d * pb);
        assert(a <= top) by (nonlinear_arith)
            requires
                a < d * (0x100_0000 * pa),
                top == 0x100_0000 * (d * pa),
        ;
        assert(b >= bottom) by (nonlinear_arith)
            requires
                b >= d * (0x80_0000 * pb),
                bottom == 0x80_0000 * (d * pb),
        ;
        lemma_nearest_increases(a, top, d * pa);
        lemma_nearest_increases(bottom, b, d * pb);
        lemma_fundamental_div_mod_converse(top as int, (d * pa) as int, 0x100_0000, 0);
        lemma_fundamental_div_mod_converse(bottom as int, (d * pb) as int, 0x80_0000, 0);
    }
}

/// A larger fraction does not round to a smaller magnitude.
pub proof fn lemma_round_increases(a: nat, da: nat, b: nat, db: nat)
    requires
        da > 0,
        db > 0,
        a * db <= b * da,
    ensures
        round_bits(a, da) <= round_bits(b, db),
{
    lemma_round_bits_scaled(a, da, db);
    lemma_round_bits_scaled(b, db, da);
    assert(da * db == db * da) by (nonlinear_arith);
    assert(da * db > 0) by (nonlinear_arith)
        requires
            da > 0,
            db > 0,
    ;
    lemma_round_increases_same(a * db, b * da, da * db);
}

/// How far `m` is from `n / d`, times `d`.
pub open spec fn distance(n: nat, d: nat, m: nat) -> int {
    if n >= m * d {
        n - m * d
    } else {
        m * d - n
    }
}

proof fn lemma_nearest_is_nearest(n: nat, d: nat, m: nat)
    requires
        d > 0,
    ensures
        distance(n, d, nearest(n, d)) <= distance(n, d, m),
{
    let q = n / d;
    lemma_fundamental_div_mod(n as int, d as int);
    assert((q + 1) * d == q * d + d) by (nonlinear_arith);
    assert(d * q == q * d) by (nonlinear_arith);
    if m <= q {
        assert(m * d <= q * d) by (nonlinear_arith)
            requires
                m <= q,
                d > 0,
        ;
    } else {
        assert(m * d >= (q + 1) * d) by (nonlinear_arith)
            requires
                m >= q + 1,
                d > 0,
        ;
    }
}

/// What a finite rounded encoding stands for.
proof fn lemma_magnitude_of_round(n: nat, d: nat)
    requires
        d > 0,
        round_bits(n, d) < INFINITY_BITS,
    ensures
        magnitude(round_bits(n, d)) == nearest(n, d * pow2(scale(n, d))) * pow2(scale(n, d)),
{
    let u = BINADE as nat;
    let k = scale(n, d);
    let p = pow2(k);
    let m = nearest(n, d * p);
    let bits = k * u + m;
    lemma2_to64();
    lemma_scale(n, d);
    lemma_pow2_24_plus(k);
    assert(d * p > 0) by (nonlinear_arith)
        requires
            d > 0,
            p > 0,
    ;
    let top = 0x100_0000 * (d * p);
    assert(n <= top) by (nonlinear_arith)
        requires
            n < d * (0x100_0000 * p),
            top == 0x100_0000 * (d * p),
    ;
    lemma_nearest_increases(n, top, d * p);
    lemma_fundamental_div_mod_converse(top as int, (d * p) as int, 0x100_0000, 0);
    assert(m <= 0x100_0000);
    if k > 0 {
        let bottom = 0x80_0000 * (d * p);
        assert(n >= bottom) by (nonlinear_arith)
            requires
                n >= d * (0x80_0000 * p),
                bottom == 0x80_0000 * (d * p),
        ;
        lemma_nearest_increases(bottom, n, d * p);
        lemma_fundamental_div_mod_converse(bottom as int, (d * p) as int, 0x80_0000, 0);
        assert(m >= 0x80_0000);
    }
    if m < u {
        assert(k == 0);
        assert(m * 1 == m);
    } else if m < 2 * u {
        lemma_fundamental_div_mod_converse(bits as int, u as int, (k + 1) as int, (m - u) as int);
    } else {
        lemma_fundamental_div_mod_converse(bits as int, u as int, (k + 2) as int, 0);
        lemma_pow2_unfold(k + 1);
        assert((u + 0) * (2 * p) == m * p) by (nonlinear_arith)
            requires
                m == 2 * u,
        ;
    }
}

/// No finite magnitude is nearer to the fraction than the one it rounds to.
pub proof fn lemma_round_is_nearest(n: nat, d: nat, bits: nat)
    requires
        d > 0,
        bits < INFINITY_BITS,
        round_bits(n, d) < INFINITY_BITS,
    ensures
        distance(n, d, magnitude(round_bits(n, d))) <= distance(n, d, magnitude(bits)),
{
    let u = BINADE as nat;
    let k = scale(n, d);
    let p = pow2(k);
    let m = nearest(n, d * p);
    let other = magnitude(bits);
    lemma2_to64();
    lemma_scale(n, d);
    lemma_pow2_24_plus(k);
    lemma_magnitude_of_round(n, d);
    assert(d * p > 0) by (nonlinear_arith)
        requires
            d > 0,
            p > 0,
    ;
    let (mb, x) = if bits < u {
        (bits, 0nat)
    } else {
        (u + bits % u, (bits / u - 1) as nat)
    };
    let px = pow2(x);
    lemma_pow2_pos(x);
    if bits < u {
        assert(mb * 1 == mb);
    }
    assert(other == mb * px);
    assert((m * p) * d == m * (d * p)) by (nonlinear_arith);
    if x >= k {
        let s = pow2((x - k) as nat);
        lemma_pow2_adds((x - k) as nat, k);
        lemma_nearest_is_nearest(n, d * p, mb * s);
        assert((mb * px) * d == (mb * s) * (d * p)) by (nonlinear_arith)
            requires
                px == s * p,
        ;
    } else {
        // Smaller than the power of two below the fraction.
        lemma_nearest_is_nearest(n, d * p, 0x80_0000);
        if 24 + x < 23 + k {
            lemma_pow2_strictly_increases(24 + x, 23 + k);
        }
        lemma_pow2_24_plus(x);
        let low = 0x80_0000 * p;
        assert(mb * px <= low) by (nonlinear_arith)
            requires
                mb < 0x100_0000,
                px > 0,
                0x100_0000 * px <= low,
        ;
        assert((mb * px) * d <= low * d) by (nonlinear_arith)
            requires
                mb * px <= low,
        ;
        assert(low * d == 0x80_0000 * (d * p)) by (nonlinear_arith)
            requires
                low == 0x80_0000 * p,
        ;
        assert(low * d == d * pow2((23 + k) as nat)) by (nonlinear_arith)
            requires
                low == pow2((23 + k) as nat),
        ;
    }
}

/// Where another integer is as near to the fraction, the one that it rounds to is even.
proof fn lemma_nearest_tie(n: nat, d: nat, m: nat)
    requires
        d > 0,
        m != nearest(n, d),
        distance(n, d, m) == distance(n, d, nearest(n, d)),
    ensures
        nearest(n, d) % 2 == 0,
{
    let q = n / d;
    lemma_fundamental_div_mod(n as int, d as int);
    assert((q + 1) * d == q * d + d && (q + 2) * d == q * d + 2 * d && (q - 1) * d == q * d - d
        && d * q == q * d) by (nonlinear_arith);
    if m < q {
        assert(m * d <= (q - 1) * d) by (nonlinear_arith)
            requires
                m <= q - 1,
                d > 0,
        ;
    } else if m > q + 1 {
        assert(m * d >= (q + 2) * d) by (nonlinear_arith)
            requires
                m >= q + 2,
                d > 0,
        ;
    }
}

/// Where another magnitude is as near to the fraction, the one that it rounds to has an even
/// encoding.
pub proof fn lemma_round_tie_is_even(n: nat, d: nat, bits: nat)
    requires
        d > 0,
        bits < INFINITY_BITS,
        round_bits(n, d) < INFINITY_BITS,
        magnitude(bits) != magnitude(round_bits(n, d)),
        distance(n, d, magnitude(bits)) == distance(n, d, magnitude(round_bits(n, d))),
    ensures
        round_bits(n, d) % 2 == 0,
{
    let u = BINADE as nat;
    let k = scale(n, d);
    let p = pow2(k);
    let m = nearest(n, d * p);
    lemma2_to64();
    lemma_scale(n, d);
    lemma_pow2_24_plus(k);
    lemma_magnitude_of_round(n, d);
    assert(d * p > 0) by (nonlinear_arith)
        requires
            d > 0,
            p > 0,
    ;
    let (mb, x) = if bits < u {
        (bits, 0nat)
    } else {
        (u + bits % u, (bits / u - 1) as nat)
    };
    let px = pow2(x);
    lemma_pow2_pos(x);
    if bits < u {
        assert(mb * 1 == mb);
    }
    assert((m * p) * d == m * (d * p)) by (nonlinear_arith);
    let low = 0x80_0000 * p;
    assert(low * d == 0x80_0000 * (d * p)) by (nonlinear_arith)
        requires
            low == 0x80_0000 * p,
    ;
    let whole = if x >= k {
        mb * pow2((x - k) as nat)
    } else {
        0x80_0000
    };
    if x >= k {
        let s = pow2((x - k) as nat);
        lemma_pow2_adds((x - k) as nat, k);
        assert(mb * px == (mb * s) * p && (mb * px) * d == (mb * s) * (d * p)) by (nonlinear_arith)
            requires
                px == s * p,
        ;
    } else {
        // Smaller than the power of two below the fraction.
        lemma_nearest_is_nearest(n, d * p, 0x80_0000);
        if 24 + x < 23 + k {
            lemma_pow2_strictly_increases(24 + x, 23 + k);
        }
        lemma_pow2_24_plus(x);
        assert(mb * px < low) by (nonlinear_arith)
            requires
                mb < 0x100_0000,
                px > 0,
                0x100_0000 * px <= low,
        ;
        assert((mb * px) * d < low * d) by (nonlinear_arith)
            requires
                mb * px < low,
                d > 0,
        ;
        assert(low * d == d * pow2((23 + k) as nat)) by (nonlinear_arith)
            requires
                low == pow2((23 + k) as nat),
        ;
    }
    lemma_nearest_tie(n, d * p, whole);
    assert((k * u + m) % 2 == 0) by (nonlinear_arith)
        requires
            u == 0x80_0000,
            m % 2 == 0,
    ;
}

/// The error of rounding: at most one part in 2^24 of the result, or half a unit.
pub proof fn lemma_round_error(n: nat, d: nat)
    requires
        d > 0,
        round_bits(n, d) < INFINITY_BITS,
    ensures
        0x100_0000 * distance(n, d, magnitude(round_bits(n, d))) <= n + 0x80_0000 * d,
        d == 1 ==> 0x100_0000 * distance(n, d, magnitude(round_bits(n, d))) <= n,
{
    let k = scale(n, d);
    let p = pow2(k);
    let dp = d * p;
    let q = nearest(n, dp);
    lemma_pow2_pos(k);
    assert(dp > 0) by (nonlinear_arith)
        requires
            d > 0,
            p > 0,
            dp == d * p,
    ;
    lemma_magnitude_of_round(n, d);
    assert((q * p) * d == q * dp) by (nonlinear_arith)
        requires
            dp == d * p,
    ;
    lemma_fundamental_div_mod(n as int, dp as int);
    let w = n / dp;
    assert(dp * w == w * dp && (w + 1) * dp == w * dp + dp) by (nonlinear_arith);
    assert(2 * distance(n, d, magnitude(round_bits(n, d))) <= dp);
    lemma_scale(n, d);
    lemma2_to64();
    if k > 0 {
        lemma_pow2_adds(23, k);
        assert(d * (0x80_0000 * p) == 0x80_0000 * dp) by (nonlinear_arith)
            requires
                dp == d * p,
        ;
    } else {
        assert(dp == d) by (nonlinear_arith)
            requires
                dp == d * p,
                p == 1,
        ;
        if d == 1 {
            assert(n % 1 == 0);
            assert(distance(n, d, magnitude(round_bits(n, d))) == 0);
        }
    }
}

/// A fraction with a quotient `q` and a remainder that is zero unless `sticky`:
/// the quotient and that one bit decide how it rounds to a multiple of 2^t.
proof fn lemma_nearest_sticky(n: nat, d: nat, t: nat)
    requires
        d > 0,
        t > 0,
    ensures
        ({
            let q = n / d;
            let p = pow2(t);
            let half = pow2((t - 1) as nat);
            nearest(n, d * p) == if q % p < half || (q % p == half && n % d == 0 && (q / p) % 2
                == 0) {
                q / p
            } else {
                q / p + 1
            }
        }),
{
    let q = n / d;
    let r = n % d;
    let p = pow2(t);
    let half = pow2((t - 1) as nat);
    lemma_pow2_pos(t);
    lemma_pow2_unfold(t);
    lemma_fundamental_div_mod(n as int, d as int);
    lemma_fundamental_div_mod(q as int, p as int);
    let hi = q / p;
    let lo = q % p;
    assert(n == hi * (d * p) + (lo * d + r)) by (nonlinear_arith)
        requires
            n == d * q + r,
            q == p * hi + lo,
    ;
    assert(0 <= lo * d + r < d * p) by (nonlinear_arith)
        requires
            0 <= lo < p,
            0 <= r < d,
    ;
    lemma_fundamental_div_mod_converse(
        n as int,
        (d * p) as int,
        hi as int,
        (lo * d + r) as int,
    );
    assert(2 * (lo * d + r) < d * p <==> lo < half) by (nonlinear_arith)
        requires
            p == 2 * half,
            0 <= r < d,
    ;
    assert(2 * (lo * d + r) == d * p <==> lo == half && r == 0) by (nonlinear_arith)
        requires
            p == 2 * half,
            0 <= r < d,
    ;
}

proof fn lemma_shl_u128(t: u128)
    requires
        t < 128,
    ensures
        (1u128 << t) == pow2(t as nat),
    decreases t,
{
    lemma2_to64();
    if t == 0 {
        assert(1u128 << 0u128 == 1u128) by (bit_vector);
    } else {
        let s = (t - 1) as u128;
        lemma_shl_u128(s);
        lemma_pow2_unfold(t as nat);
        assert((1u128 << t) == 2 * (1u128 << s)) by (bit_vector)
            requires
                0 < t < 128,
                s == t - 1,
        ;
    }
}

/// 2^t.
pub(crate) fn power_of_two(t: u32) -> (p: u128)
    requires
        t < 128,
    ensures
        p == pow2(t as nat),
        p > 0,
{
    proof {
        lemma_shl_u128(t as u128);
        lemma_pow2_pos(t as nat);
    }
    1u128 << (t as u128)
}

/// The number of bits that `q` takes.
fn bit_length(q: u128) -> (len: u32)
    ensures
        len <= 128,
        q < pow2(len as nat),
        q > 0 ==> len > 0 && q >= pow2((len - 1) as nat),
        q == 0 ==> len == 0,
{
    let mut x: u128 = q;
    let mut len: u32 = 0;
    let mut step: u32 = 64;
    proof {
        lemma2_to64();
        lemma_pow2_adds(64, 64);
        assert(q < pow2(128));
        assert(pow2(0) == 1);
    }
    while step > 0
        invariant
            step == 64 || step == 32 || step == 16 || step == 8 || step == 4 || step == 2 || step
                == 1 || step == 0,
            x as nat == q as nat / pow2(len as nat),
            x < pow2(2 * step as nat) || step == 0,
            step == 0 ==> x < 2,
            len <= 128 - 2 * step,
            step == 0 ==> len <= 127,
            len > 0 ==> x > 0,
            pow2(len as nat) > 0,
        decreases step,
    {
        let p = power_of_two(step);
        proof {
            lemma2_to64();
            lemma_pow2_adds(step as nat, step as nat);
            lemma_pow2_adds(len as nat, step as nat);
            lemma_pow2_pos(len as nat + step as nat);
        }
        if x >= p {
            let y = x / p;
            proof {
                let a = pow2(len as nat);
                lemma_div_denominator(q as int, a as int, p as int);
                lemma_fundamental_div_mod(x as int, p as int);
                assert(0 < y < p) by (nonlinear_arith)
                    requires
                        x == p * y + x % p,
                        0 <= x % p < p,
                        p <= x < p * p,
                ;
            }
            x = y;
            len = len + step;
        }
        proof {
            assert(step == 64 || step == 32 || step == 16 || step == 8 || step == 4 || step == 2
                || step == 1);
            if step == 1 {
                assert(pow2(1) == 2);
            }
        }
        step = step / 2;
    }
    proof {
        let a = pow2(len as nat);
        lemma_fundamental_div_mod(q as int, a as int);
        lemma_pow2_unfold((len + 1) as nat);
        assert(x == 0 ==> q < a && len == 0);
        assert(x == 1 ==> a <= q < 2 * a) by (nonlinear_arith)
            requires
                q == a * x + q as int % a as int,
                0 <= q as int % a as int,
                (q as int % a as int) < a,
        ;
    }
    len + x as u32
}

/// The numerator of `(n / d) * 2^e`.
pub open spec fn scaled_numerator(n: nat, e: int) -> nat {
    if e >= 0 {
        n * pow2(e as nat)
    } else {
        n
    }
}

/// The denominator of `(n / d) * 2^e`.
pub open spec fn scaled_denominator(d: nat, e: int) -> nat {
    if e >= 0 {
        d
    } else {
        d * pow2((-e) as nat)
    }
}

/// With `k` low bits lost of `(n / d) * 2^e`, `k - e` are lost of `n / d`.
proof fn lemma_scale_shifted(n: nat, d: nat, e: int, k: nat)
    requires
        d > 0,
        24 + k - e >= 0,
        n / d < pow2((24 + k - e) as nat),
        k > 0 ==> 23 + k - e >= 0 && n / d >= pow2((23 + k - e) as nat),
    ensures
        scale(scaled_numerator(n, e), scaled_denominator(d, e)) == k,
        scaled_denominator(d, e) > 0,
{
    let q = n / d;
    lemma_fundamental_div_mod(n as int, d as int);
    let hi = pow2((24 + k - e) as nat);
    let r = n % d;
    assert(n < d * hi) by (nonlinear_arith)
        requires
            n == d * q + r,
            r < d,
            q + 1 <= hi,
    ;
    let lo = pow2((23 + k - e) as nat);
    if k > 0 {
        assert(n >= d * lo) by (nonlinear_arith)
            requires
                n == d * q + r,
                0 <= r,
                q >= lo,
        ;
    }
    if e >= 0 {
        let u = pow2(e as nat);
        lemma_pow2_pos(e as nat);
        lemma_pow2_adds((24 + k - e) as nat, e as nat);
        assert(n * u < d * (hi * u)) by (nonlinear_arith)
            requires
                n < d * hi,
                u > 0,
        ;
        if k > 0 {
            lemma_pow2_adds((23 + k - e) as nat, e as nat);
            assert(n * u >= d * (lo * u)) by (nonlinear_arith)
                requires
                    n >= d * lo,
                    u > 0,
            ;
        }
        lemma_scale_unique(n * u, d, k);
    } else {
        let u = pow2((-e) as nat);
        lemma_pow2_pos((-e) as nat);
        lemma_pow2_adds((-e) as nat, 24 + k);
        assert(d * hi == (d * u) * pow2(24 + k)) by (nonlinear_arith)
            requires
                hi == u * pow2(24 + k),
        ;
        if k > 0 {
            lemma_pow2_adds((-e) as nat, 23 + k);
            assert(d * lo == (d * u) * pow2(23 + k)) by (nonlinear_arith)
                requires
                    lo == u * pow2(23 + k),
            ;
        }
        assert(d * u > 0) by (nonlinear_arith)
            requires
                d > 0,
                u > 0,
        ;
        lemma_scale_unique(n, d * u, k);
    }
}

/// Rounding `(n / d) * 2^e` to a multiple of 2^k is rounding `n / d` to a
/// multiple of 2^(k - e).
proof fn lemma_nearest_shifted(n: nat, d: nat, e: int, k: nat)
    requires
        d > 0,
    ensures
        k >= e ==> nearest(scaled_numerator(n, e), scaled_denominator(d, e) * pow2(k)) == nearest(
            n,
            d * pow2((k - e) as nat),
        ),
        k < e && n % d == 0 ==> nearest(
            scaled_numerator(n, e),
            scaled_denominator(d, e) * pow2(k),
        ) == (n / d) * pow2((e - k) as nat),
{
    let p = pow2(k);
    lemma_pow2_pos(k);
    if k >= e {
        let s = pow2((k - e) as nat);
        lemma_pow2_pos((k - e) as nat);
        assert(d * s > 0) by (nonlinear_arith)
            requires
                d > 0,
                s > 0,
        ;
        if e >= 0 {
            let u = pow2(e as nat);
            lemma_pow2_pos(e as nat);
            lemma_pow2_adds((k - e) as nat, e as nat);
            assert(d * p == (d * s) * u) by (nonlinear_arith)
                requires
                    p == s * u,
            ;
            lemma_nearest_scaled(n, d * s, u);
        } else {
            let u = pow2((-e) as nat);
            lemma_pow2_adds((-e) as nat, k);
            assert((d * u) * p == d * s) by (nonlinear_arith)
                requires
                    s == u * p,
            ;
        }
    } else if n % d == 0 {
        let s = pow2((e - k) as nat);
        let u = pow2(e as nat);
        lemma_pow2_adds((e - k) as nat, k);
        let q = n / d;
        lemma_fundamental_div_mod(n as int, d as int);
        assert(n * u == (q * s) * (d * p)) by (nonlinear_arith)
            requires
                n == d * q,
                u == s * p,
        ;
        assert(d * p > 0) by (nonlinear_arith)
            requires
                d > 0,
                p > 0,
        ;
        lemma_fundamental_div_mod_converse(
            (n * u) as int,
            (d * p) as int,
            (q * s) as int,
            0,
        );
    }
}

/// Nothing rounds to nothing.
pub proof fn lemma_round_bits_zero(n: nat, d: nat)
    requires
        n == 0,
        d > 0,
    ensures
        round_bits(n, d) == 0,
{
    lemma2_to64();
    assert(d * pow2(0) == d);
    lemma_fundamental_div_mod_converse(0, d as int, 0, 0);
}

/// The encoding of the magnitude nearest to `(n / d) * 2^e` units, where `q` is
/// the integer part of `n / d` and `sticky` says that there is a rest.
#[verifier::spinoff_prover]
pub(crate) fn round_quotient(
    q: u128,
    sticky: bool,
    e: i32,
    Ghost(n): Ghost<nat>,
    Ghost(d): Ghost<nat>,
) -> (bits: u32)
    requires
        d > 0,
        q == n / d,
        sticky == (n % d != 0),
        sticky ==> q >= 0x200_0000,
        q < 0x1_0000_0000_0000_0000_0000_0000,
        -1000 <= e <= 400,
    ensures
        bits == round_bits(scaled_numerator(n, e as int), scaled_denominator(d, e as int)),
        bits <= INFINITY_BITS,
{
    if q == 0 {
        proof {
            lemma_fundamental_div_mod(n as int, d as int);
            assert(d * q == 0);
            if e >= 0 {
                assert(0 * pow2(e as nat) == 0);
            } else {
                lemma_pow2_pos((-e) as nat);
                assert(d * pow2((-e) as nat) > 0) by (nonlinear_arith)
                    requires
                        d > 0,
                        pow2((-e) as nat) > 0,
                ;
            }
            lemma_round_bits_zero(scaled_numerator(n, e as int), scaled_denominator(d, e as int));
        }
        return 0;
    }
    let len = bit_length(q);
    proof {
        lemma2_to64();
        lemma_pow2_adds(64, 32);
        if len > 97 {
            lemma_pow2_strictly_increases(96, (len - 1) as nat);
        }
        if sticky && len < 26 {
            if len < 25 {
                lemma_pow2_strictly_increases(len as nat, 25);
            }
        }
    }
    let over: i32 = len as i32 - 24 + e;
    let k: i32 = if over > 0 {
        over
    } else {
        0
    };
    let t: i32 = k - e;
    proof {
        if over > 0 {
            assert(24 + k - e == len);
        } else {
            if len < 24 - e {
                lemma_pow2_strictly_increases(len as nat, (24 - e) as nat);
            }
        }
        lemma_scale_shifted(n, d, e as int, k as nat);
        lemma_nearest_shifted(n, d, e as int, k as nat);
    }
    let ghost want = nearest(
        scaled_numerator(n, e as int),
        scaled_denominator(d, e as int) * pow2(k as nat),
    );
    let m: u64 = if t <= 0 {
        let p = power_of_two((-t) as u32);
        proof {
            lemma_pow2_adds(len as nat, (-t) as nat);
            if len - t < 24 {
                lemma_pow2_strictly_increases((len - t) as nat, 24);
            }
            assert(q * p < pow2(len as nat) * pow2((-t) as nat)) by (nonlinear_arith)
                requires
                    q < pow2(len as nat),
                    p == pow2((-t) as nat),
                    p > 0,
            ;
            if t == 0 {
                assert(pow2(0) == 1);
                lemma_fundamental_div_mod(n as int, d as int);
                assert(d * 1 == d);
                assert(q * 1 == q);
                assert(want == q);
            } else {
                assert(want == q as nat * pow2((-t) as nat));
            }
            assert(want == q * p);
        }
        (q * p) as u64
    } else if t > 127 {
        proof {
            lemma_nearest_sticky(n, d, t as nat);
            assert(q < pow2((t - 1) as nat)) by {
                if len < t - 1 {
                    lemma_pow2_strictly_increases(len as nat, (t - 1) as nat);
                }
            }
            lemma_pow2_strictly_increases((t - 1) as nat, t as nat);
            vstd::arithmetic::div_mod::lemma_small_mod(q as nat, pow2(t as nat));
            vstd::arithmetic::div_mod::lemma_basic_div(q as int, pow2(t as nat) as int);
            assert(want == 0);
        }
        0
    } else {
        let p = power_of_two(t as u32);
        let half = power_of_two((t - 1) as u32);
        let hi = q / p;
        let lo = q % p;
        proof {
            lemma_nearest_sticky(n, d, t as nat);
            lemma_fundamental_div_mod(q as int, p as int);
            lemma_pow2_adds(24, t as nat);
            if len < 24 + t {
                lemma_pow2_strictly_increases(len as nat, (24 + t) as nat);
            }
            assert(hi < 0x100_0000) by (nonlinear_arith)
                requires
                    q == p * hi + lo,
                    q < 0x100_0000 * p,
                    0 <= lo,
            ;
        }
        if lo < half || (lo == half && !sticky && hi % 2 == 0) {
            hi as u64
        } else {
            hi as u64 + 1
        }
    };
    assert(m == want);
    let bits: u64 = k as u64 * 0x80_0000 + m;
    if bits < INFINITY_BITS as u64 {
        bits as u32
    } else {
        INFINITY_BITS
    }
}

} // verus!
