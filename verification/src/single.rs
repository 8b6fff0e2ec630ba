//! Single-precision numbers, held by their encoding and computed on integers.
//!
//! Positions, colours and times of the transition are single-precision
//! numbers. `Single` holds the 32 bits of one, and each operation delivers the
//! bits that the IEEE 754 binary32 operation of that name delivers when it
//! rounds to nearest: the exact result, rounded once. A result that is not a
//! number is always the same one.

use crate::rounding::lemma_magnitude_increases;
use crate::rounding::lemma_round_bits_scaled;
use crate::rounding::magnitude;
use crate::rounding::power_of_two;
use crate::rounding::round_bits;
use crate::rounding::round_quotient;
use crate::rounding::BINADE;
use crate::rounding::INFINITY_BITS;
use vstd::arithmetic::div_mod::lemma_fundamental_div_mod;
use vstd::arithmetic::div_mod::lemma_fundamental_div_mod_converse;
use vstd::arithmetic::power2::lemma2_to64;
use vstd::arithmetic::power2::lemma_pow2_adds;
use vstd::arithmetic::power2::lemma_pow2_pos;
use vstd::arithmetic::power2::lemma_pow2_strictly_increases;
use vstd::arithmetic::power2::pow2;
use vstd::prelude::*;

verus! {

/// The bit that holds the sign.
pub const SIGN_BIT: u32 = 0x8000_0000;

/// The encoding of a result that is not a number.
pub const NAN_BITS: u32 = 0x7fc0_0000;

/// The encoding of one.
pub const ONE_BITS: u32 = 0x3f80_0000;

/// A single-precision number.
#[derive(Clone, Copy, PartialEq, Eq, Structural, Debug)]
pub struct Single {
    pub bits: u32,
}

/// The size of an integer.
pub open spec fn abs(i: int) -> nat {
    if i < 0 {
        (-i) as nat
    } else {
        i as nat
    }
}

/// An integer by its sign and its size.
pub open spec fn signed_int(negative: bool, size: nat) -> int {
    if negative {
        -(size as int)
    } else {
        size as int
    }
}

/// The sum of two finite numbers, each by its sign and its size in units. A sum
/// of zero is positive, unless both numbers carry the sign.
pub open spec fn finite_sum(na: bool, a: nat, nb: bool, b: nat) -> Single {
    let sum = signed_int(na, a) + signed_int(nb, b);
    if sum == 0 {
        Single::signed(na && nb, 0)
    } else {
        Single::rounded(sum < 0, abs(sum), 1)
    }
}

/// How many units of 2^-149 make one.
pub open spec fn one_in_units() -> nat {
    pow2(149)
}

/// The significant bits and the exponent of a magnitude.
pub(crate) proof fn lemma_magnitude_parts(bits: nat)
    ensures
        bits < BINADE ==> magnitude(bits) == bits * pow2(0),
        bits >= BINADE ==> magnitude(bits) == (BINADE as nat + bits % (BINADE as nat)) * pow2(
            (bits / (BINADE as nat) - 1) as nat,
        ),
        bits > 0 ==> magnitude(bits) > 0,
        magnitude(0) == 0,
{
    lemma2_to64();
    if bits >= BINADE {
        let x = (bits / (BINADE as nat) - 1) as nat;
        lemma_pow2_pos(x);
        assert((BINADE as nat + bits % (BINADE as nat)) * pow2(x) > 0) by (nonlinear_arith)
            requires
                pow2(x) > 0,
        ;
    }
}

/// What the encoding of one stands for.
pub(crate) proof fn lemma_one()
    ensures
        magnitude(ONE_BITS as nat) == one_in_units(),
{
    lemma2_to64();
    lemma_pow2_adds(23, 126);
}

/// A magnitude that is not a whole number is below 2^24.
pub(crate) proof fn lemma_large_is_whole(bits: nat)
    requires
        bits < INFINITY_BITS,
        magnitude(bits) % one_in_units() != 0,
    ensures
        magnitude(bits) / one_in_units() < 0x100_0000,
{
    let u = one_in_units();
    lemma_pow2_pos(149);
    lemma2_to64();
    lemma_magnitude_parts(bits);
    let m = if bits < BINADE {
        bits
    } else {
        BINADE as nat + bits % (BINADE as nat)
    };
    let x = if bits < BINADE {
        0
    } else {
        (bits / (BINADE as nat) - 1) as nat
    };
    let px = pow2(x);
    lemma_pow2_pos(x);
    if x >= 149 {
        let p = pow2((x - 149) as nat);
        lemma_pow2_adds((x - 149) as nat, 149);
        assert(m * px == (m * p) * u) by (nonlinear_arith)
            requires
                px == p * u,
        ;
        lemma_fundamental_div_mod_converse((m * px) as int, u as int, (m * p) as int, 0);
    } else {
        lemma_pow2_strictly_increases(x, 149);
        assert(m * px < 0x100_0000 * u) by (nonlinear_arith)
            requires
                m < 0x100_0000,
                0 < px < u,
        ;
        let q = (m * px) / u;
        lemma_fundamental_div_mod((m * px) as int, u as int);
        let r = (m * px) % u;
        assert(q < 0x100_0000) by (nonlinear_arith)
            requires
                m * px < 0x100_0000 * u,
                m * px == u * q + r,
                r >= 0,
                u > 0,
        ;
    }
}

impl Single {
    /// The sign is set. Zero has one too.
    pub open spec fn negative(self) -> bool {
        self.bits >= SIGN_BIT
    }

    /// The encoding without the sign.
    pub open spec fn magnitude_bits(self) -> nat {
        if self.bits >= SIGN_BIT {
            (self.bits - SIGN_BIT) as nat
        } else {
            self.bits as nat
        }
    }

    /// This is not a number.
    pub open spec fn is_nan(self) -> bool {
        self.magnitude_bits() > INFINITY_BITS
    }

    /// This is one of the two infinities.
    pub open spec fn is_infinite(self) -> bool {
        self.magnitude_bits() == INFINITY_BITS
    }

    /// This is a number of finite size.
    pub open spec fn is_finite(self) -> bool {
        self.magnitude_bits() < INFINITY_BITS
    }

    /// The distance from zero, in units of 2^-149.
    pub open spec fn size(self) -> nat {
        magnitude(self.magnitude_bits())
    }

    /// The number, in units of 2^-149. An infinity counts as the first power of
    /// two out of range, so that values order as the numbers do.
    pub open spec fn value(self) -> int {
        signed_int(self.negative(), self.size())
    }

    /// This is one of the two zeros.
    pub open spec fn is_zero(self) -> bool {
        self.magnitude_bits() == 0
    }

    /// The number with this sign and this encoding of its magnitude.
    pub open spec fn signed(negative: bool, magnitude_bits: nat) -> Single {
        Single {
            bits: (if negative {
                SIGN_BIT as nat + magnitude_bits
            } else {
                magnitude_bits
            }) as u32,
        }
    }

    /// The number nearest to `n / d` units, with this sign.
    pub open spec fn rounded(negative: bool, n: nat, d: nat) -> Single {
        Single::signed(negative, round_bits(n, d))
    }

    /// The result that is not a number.
    pub open spec fn spec_nan() -> Single {
        Single { bits: NAN_BITS }
    }

    /// The number nearest to the fraction `n / d`.
    #[verifier::opaque]
    pub open spec fn fraction(n: nat, d: nat) -> Single {
        Single::rounded(false, n * one_in_units(), d)
    }

    /// The number nearest to the integer `i`.
    #[verifier::opaque]
    pub open spec fn integer(i: int) -> Single {
        Single::rounded(i < 0, abs(i) * one_in_units(), 1)
    }

    /// The number with the other sign.
    pub open spec fn spec_negated(self) -> Single {
        Single::signed(!self.negative(), self.magnitude_bits())
    }

    /// The sum, rounded.
    #[verifier::opaque]
    pub open spec fn spec_plus(self, other: Single) -> Single {
        if self.is_nan() || other.is_nan() {
            Single::spec_nan()
        } else if self.is_infinite() {
            if other.is_infinite() && self.negative() != other.negative() {
                Single::spec_nan()
            } else {
                self
            }
        } else if other.is_infinite() {
            other
        } else {
            finite_sum(self.negative(), self.size(), other.negative(), other.size())
        }
    }

    /// The difference, rounded.
    pub open spec fn spec_minus(self, other: Single) -> Single {
        self.spec_plus(other.spec_negated())
    }

    /// The product, rounded.
    #[verifier::opaque]
    pub open spec fn spec_times(self, other: Single) -> Single {
        let negative = self.negative() != other.negative();
        if self.is_nan() || other.is_nan() {
            Single::spec_nan()
        } else if self.is_infinite() || other.is_infinite() {
            if self.is_zero() || other.is_zero() {
                Single::spec_nan()
            } else {
                Single::signed(negative, INFINITY_BITS as nat)
            }
        } else {
            Single::rounded(negative, self.size() * other.size(), one_in_units())
        }
    }

    /// The quotient, rounded.
    #[verifier::opaque]
    pub open spec fn spec_over(self, other: Single) -> Single {
        let negative = self.negative() != other.negative();
        if self.is_nan() || other.is_nan() {
            Single::spec_nan()
        } else if self.is_infinite() {
            if other.is_infinite() {
                Single::spec_nan()
            } else {
                Single::signed(negative, INFINITY_BITS as nat)
            }
        } else if other.is_infinite() {
            Single::signed(negative, 0)
        } else if other.is_zero() {
            if self.is_zero() {
                Single::spec_nan()
            } else {
                Single::signed(negative, INFINITY_BITS as nat)
            }
        } else {
            Single::rounded(negative, self.size() * one_in_units(), other.size())
        }
    }

    /// The number that these 32 bits encode.
    pub open spec fn spec_from_bits(bits: u32) -> Single {
        Single { bits }
    }

    /// The number that these 32 bits encode.
    #[verifier::when_used_as_spec(spec_from_bits)]
    pub fn from_bits(bits: u32) -> (r: Single)
        ensures
            r.bits == bits,
            r == Single::spec_from_bits(bits),
    {
        Single { bits }
    }

    /// The 32 bits that encode the number.
    pub open spec fn spec_to_bits(self) -> u32 {
        self.bits
    }

    /// The 32 bits that encode the number.
    #[verifier::when_used_as_spec(spec_to_bits)]
    pub fn to_bits(self) -> (bits: u32)
        ensures
            bits == self.bits,
            bits == self.spec_to_bits(),
    {
        self.bits
    }

    /// Whether the sign is set.
    fn sign_is_set(self) -> (r: bool)
        ensures
            r == self.negative(),
    {
        self.bits >= SIGN_BIT
    }

    /// The encoding without the sign.
    fn unsigned_bits(self) -> (bits: u32)
        ensures
            bits == self.magnitude_bits(),
    {
        if self.bits >= SIGN_BIT {
            self.bits - SIGN_BIT
        } else {
            self.bits
        }
    }

    /// The number with this sign and this encoding of its magnitude.
    fn with_sign(negative: bool, bits: u32) -> (r: Single)
        requires
            bits <= INFINITY_BITS,
        ensures
            r == Single::signed(negative, bits as nat),
    {
        if negative {
            Single { bits: SIGN_BIT + bits }
        } else {
            Single { bits }
        }
    }

    /// The size of a number that is not NaN, as `m` times 2^x.
    fn parts(self) -> (parts: (u32, u32))
        requires
            !self.is_nan(),
        ensures
            self.size() == parts.0 as nat * pow2(parts.1 as nat),
            parts.0 < 0x100_0000,
            parts.1 <= 254,
            parts.1 > 0 ==> parts.0 >= BINADE,
            self.is_finite() ==> parts.1 <= 253,
            (parts.0 == 0) == self.is_zero(),
    {
        let bits = self.unsigned_bits();
        proof {
            lemma_magnitude_parts(bits as nat);
        }
        if bits < BINADE {
            (bits, 0)
        } else {
            (BINADE + bits % BINADE, bits / BINADE - 1)
        }
    }

    /// The same number with the other sign.
    #[verifier::when_used_as_spec(spec_negated)]
    pub fn negated(self) -> (r: Single)
        ensures
            r == self.spec_negated(),
    {
        if self.bits >= SIGN_BIT {
            Single { bits: self.bits - SIGN_BIT }
        } else {
            Single { bits: self.bits + SIGN_BIT }
        }
    }

    /// The product.
    #[verifier::when_used_as_spec(spec_times)]
    pub fn times(self, other: Single) -> (r: Single)
        ensures
            r == self.spec_times(other),
    {
        proof {
            reveal(Single::spec_times);
        }
        let a = self.unsigned_bits();
        let b = other.unsigned_bits();
        let negative = self.sign_is_set() != other.sign_is_set();
        if a > INFINITY_BITS || b > INFINITY_BITS {
            return Single { bits: NAN_BITS };
        }
        if a == INFINITY_BITS || b == INFINITY_BITS {
            if a == 0 || b == 0 {
                return Single { bits: NAN_BITS };
            }
            return Single::with_sign(negative, INFINITY_BITS);
        }
        let (ma, xa) = self.parts();
        let (mb, xb) = other.parts();
        proof {
            assert(ma as u128 * mb as u128 <= 0xff_ffff * 0xff_ffff) by (nonlinear_arith)
                requires
                    ma <= 0xff_ffff,
                    mb <= 0xff_ffff,
            ;
        }
        let q: u128 = ma as u128 * mb as u128;
        let e: i32 = xa as i32 + xb as i32 - 149;
        let bits = round_quotient(q, false, e, Ghost(q as nat), Ghost(1));
        proof {
            let pa = pow2(xa as nat);
            let pb = pow2(xb as nat);
            let px = pow2((xa + xb) as nat);
            lemma_pow2_adds(xa as nat, xb as nat);
            lemma_pow2_pos((xa + xb) as nat);
            lemma_pow2_pos(149);
            let n = self.size() * other.size();
            assert(n == q * px) by (nonlinear_arith)
                requires
                    n == (ma * pa) * (mb * pb),
                    q == ma * mb,
                    px == pa * pb,
            ;
            if e >= 0 {
                let pe = pow2(e as nat);
                lemma_pow2_adds(e as nat, 149);
                assert(n == (q * pe) * pow2(149)) by (nonlinear_arith)
                    requires
                        n == q * px,
                        px == pe * pow2(149),
                ;
                lemma_round_bits_scaled((q * pe) as nat, 1, pow2(149));
                assert(1 * pow2(149) == pow2(149));
            } else {
                let pe = pow2((-e) as nat);
                lemma_pow2_pos((-e) as nat);
                lemma_pow2_adds((-e) as nat, (xa + xb) as nat);
                lemma_round_bits_scaled(q as nat, pe, px);
                assert(1 * pe == pe);
            }
        }
        Single::with_sign(negative, bits)
    }

    /// The quotient.
    #[verifier::when_used_as_spec(spec_over)]
    pub fn over(self, other: Single) -> (r: Single)
        ensures
            r == self.spec_over(other),
    {
        proof {
            reveal(Single::spec_over);
        }
        let a = self.unsigned_bits();
        let b = other.unsigned_bits();
        let negative = self.sign_is_set() != other.sign_is_set();
        if a > INFINITY_BITS || b > INFINITY_BITS {
            return Single { bits: NAN_BITS };
        }
        if a == INFINITY_BITS {
            if b == INFINITY_BITS {
                return Single { bits: NAN_BITS };
            }
            return Single::with_sign(negative, INFINITY_BITS);
        }
        if b == INFINITY_BITS {
            return Single::with_sign(negative, 0);
        }
        if b == 0 {
            if a == 0 {
                return Single { bits: NAN_BITS };
            }
            return Single::with_sign(negative, INFINITY_BITS);
        }
        let (ma, xa) = self.parts();
        let (mb, xb) = other.parts();
        let n: u128 = ma as u128 * 0x1_0000_0000_0000_0000;
        let d: u128 = mb as u128;
        let e: i32 = xa as i32 - xb as i32 + 85;
        let q: u128 = n / d;
        let sticky = n % d != 0;
        proof {
            lemma_fundamental_div_mod(n as int, d as int);
            let r = n % d;
            assert(q <= n) by (nonlinear_arith)
                requires
                    n == d * q + r,
                    d >= 1,
                    r >= 0,
            ;
            if ma > 0 {
                assert(q >= 0x200_0000) by (nonlinear_arith)
                    requires
                        n == d * q + r,
                        0 <= r < d,
                        d < 0x100_0000,
                        n >= 0x1_0000_0000_0000_0000,
                ;
            }
        }
        let bits = round_quotient(q, sticky, e, Ghost(n as nat), Ghost(d as nat));
        proof {
            let pa = pow2(xa as nat);
            let pb = pow2(xb as nat);
            lemma2_to64();
            lemma_pow2_pos(xb as nat);
            let num = self.size() * pow2(149);
            let den = other.size();
            let pn = pow2((xa + 149) as nat);
            lemma_pow2_adds(xa as nat, 149);
            assert(num == ma * pn) by (nonlinear_arith)
                requires
                    num == (ma * pa) * pow2(149),
                    pn == pa * pow2(149),
            ;
            if e >= 0 {
                let pe = pow2(e as nat);
                lemma_pow2_adds(e as nat, 64);
                lemma_pow2_adds((e + 64) as nat, xb as nat);
                assert(num == (n * pe) * pb) by (nonlinear_arith)
                    requires
                        num == ma * pn,
                        n == ma * pow2(64),
                        pn == (pe * pow2(64)) * pb,
                ;
                lemma_round_bits_scaled((n * pe) as nat, d as nat, pb);
            } else {
                let pe = pow2((-e) as nat);
                let pt = pow2((xa + 85) as nat);
                lemma_pow2_pos((xa + 85) as nat);
                lemma_pow2_pos((-e) as nat);
                lemma_pow2_adds((-e) as nat, (xa + 85) as nat);
                lemma_pow2_adds(64, (xa + 85) as nat);
                assert(num == n * pt) by (nonlinear_arith)
                    requires
                        num == ma * pn,
                        n == ma * pow2(64),
                        pn == pow2(64) * pt,
                ;
                assert(den == (d * pe) * pt) by (nonlinear_arith)
                    requires
                        den == d * pb,
                        pb == pe * pt,
                ;
                assert(d * pe > 0) by (nonlinear_arith)
                    requires
                        d > 0,
                        pe > 0,
                ;
                lemma_round_bits_scaled(n as nat, (d * pe) as nat, pt);
            }
        }
        Single::with_sign(negative, bits)
    }

    /// The sum of two numbers given by sign, significant bits and exponent, of
    /// which the first has the larger exponent.
    fn sum_of_parts(na: bool, ma: u32, xa: u32, nb: bool, mb: u32, xb: u32) -> (r: Single)
        requires
            xb <= xa <= 253,
            ma < 0x100_0000,
            mb < 0x100_0000,
            xa > 0 ==> ma >= BINADE,
        ensures
            r == finite_sum(
                na,
                ma as nat * pow2(xa as nat),
                nb,
                mb as nat * pow2(xb as nat),
            ),
    {
        let ghost pa = pow2(xa as nat);
        let ghost pb = pow2(xb as nat);
        let sh: u32 = xa - xb;
        proof {
            lemma2_to64();
            lemma_pow2_adds(sh as nat, xb as nat);
            lemma_pow2_pos(xb as nat);
            lemma_pow2_pos(sh as nat);
        }
        if sh < 56 {
            let p = power_of_two(sh);
            proof {
                lemma_pow2_adds(32, 23);
                if sh < 55 {
                    lemma_pow2_strictly_increases(sh as nat, 55);
                }
                assert(ma * p < 0x100_0000 * 0x80_0000_0000_0000) by (nonlinear_arith)
                    requires
                        ma < 0x100_0000,
                        0 < p <= 0x80_0000_0000_0000,
                ;
            }
            let big: u128 = ma as u128 * p;
            let small: u128 = mb as u128;
            let (negative, s): (bool, u128) = if na == nb {
                (na, big + small)
            } else if big >= small {
                (na, big - small)
            } else {
                (nb, small - big)
            };
            proof {
                assert(ma * pa == big * pb) by (nonlinear_arith)
                    requires
                        big == ma * p,
                        pa == p * pb,
                ;
                assert((big + small) * pb == big * pb + small * pb) by (nonlinear_arith);
                assert((big - small) * pb == big * pb - small * pb) by (nonlinear_arith);
                assert((small - big) * pb == small * pb - big * pb) by (nonlinear_arith);
                assert(s > 0 ==> s * pb > 0) by (nonlinear_arith)
                    requires
                        pb > 0,
                ;
                assert(0 * pb == 0);
            }
            if s == 0 {
                return Single::with_sign(na && nb, 0);
            }
            let bits = round_quotient(s, false, xb as i32, Ghost(s as nat), Ghost(1));
            Single::with_sign(negative, bits)
        } else {
            let top: u128 = ma as u128 * 0x1_0000_0000;
            let ghost p = pow2(sh as nat);
            let ghost d = pow2((sh - 32) as nat);
            let ghost n = if na == nb {
                ma * p + mb
            } else {
                ma * p - mb
            };
            let q: u128 = if na == nb || mb == 0 {
                top
            } else {
                top - 1
            };
            proof {
                lemma_pow2_adds((sh - 32) as nat, 32);
                lemma_pow2_pos((sh - 32) as nat);
                if sh > 56 {
                    lemma_pow2_strictly_increases(24, (sh - 32) as nat);
                }
                assert(ma * p == top * d) by (nonlinear_arith)
                    requires
                        top == ma * 0x1_0000_0000,
                        p == d * 0x1_0000_0000,
                ;
                assert((top - 1) * d == top * d - d) by (nonlinear_arith);
                if na == nb || mb == 0 {
                    lemma_fundamental_div_mod_converse(n, d as int, q as int, mb as int);
                } else {
                    lemma_fundamental_div_mod_converse(n, d as int, q as int, d - mb);
                }
            }
            let bits = round_quotient(q, mb != 0, xa as i32 - 32, Ghost(n as nat), Ghost(d));
            proof {
                let e = pow2((xa - 32) as nat);
                lemma_pow2_adds((sh - 32) as nat, xb as nat);
                assert(n * e == (n * pb) * d) by (nonlinear_arith)
                    requires
                        e == d * pb,
                ;
                assert((n * pb) as nat * d == (n as nat) * e);
                lemma_round_bits_scaled((n * pb) as nat, 1, d);
                assert(1 * d == d);
                assert(n * pb == if na == nb {
                    ma * pa + mb * pb
                } else {
                    ma * pa - mb * pb
                }) by (nonlinear_arith)
                    requires
                        n == if na == nb {
                            ma * p + mb
                        } else {
                            ma * p - mb
                        },
                        pa == p * pb,
                ;
                assert(n * pb > 0) by (nonlinear_arith)
                    requires
                        n > 0,
                        pb > 0,
                ;
            }
            Single::with_sign(na, bits)
        }
    }

    /// The sum.
    #[verifier::when_used_as_spec(spec_plus)]
    pub fn plus(self, other: Single) -> (r: Single)
        ensures
            r == self.spec_plus(other),
    {
        proof {
            reveal(Single::spec_plus);
        }
        let a = self.unsigned_bits();
        let b = other.unsigned_bits();
        let na = self.sign_is_set();
        let nb = other.sign_is_set();
        if a > INFINITY_BITS || b > INFINITY_BITS {
            return Single { bits: NAN_BITS };
        }
        if a == INFINITY_BITS {
            if b == INFINITY_BITS && na != nb {
                return Single { bits: NAN_BITS };
            }
            return self;
        }
        if b == INFINITY_BITS {
            return other;
        }
        let (ma, xa) = self.parts();
        let (mb, xb) = other.parts();
        if xa >= xb {
            Single::sum_of_parts(na, ma, xa, nb, mb, xb)
        } else {
            Single::sum_of_parts(nb, mb, xb, na, ma, xa)
        }
    }

    /// The difference.
    #[verifier::when_used_as_spec(spec_minus)]
    pub fn minus(self, other: Single) -> (r: Single)
        ensures
            r == self.spec_minus(other),
    {
        self.plus(other.negated())
    }

    /// The number nearest to `n`.
    pub fn from_u64(n: u64) -> (r: Single)
        ensures
            r == Single::integer(n as int),
    {
        proof {
            reveal(Single::integer);
        }
        let bits = round_quotient(n as u128, false, 149, Ghost(n as nat), Ghost(1));
        Single::with_sign(false, bits)
    }

    /// The number nearest to `n`.
    pub fn from_usize(n: usize) -> (r: Single)
        ensures
            r == Single::integer(n as int),
    {
        Single::from_u64(n as u64)
    }

    /// The number nearest to `n`.
    pub fn from_i64(n: i64) -> (r: Single)
        ensures
            r == Single::integer(n as int),
    {
        proof {
            reveal(Single::integer);
        }
        if n >= 0 {
            Single::from_u64(n as u64)
        } else {
            let size: u64 = (-(n as i128)) as u64;
            let bits = round_quotient(size as u128, false, 149, Ghost(size as nat), Ghost(1));
            Single::with_sign(true, bits)
        }
    }

    /// The number nearest to the fraction `n / d`.
    pub fn ratio(n: u32, d: u32) -> (r: Single)
        requires
            d > 0,
        ensures
            r == Single::fraction(n as nat, d as nat),
    {
        proof {
            reveal(Single::fraction);
        }
        let top: u128 = n as u128 * 0x1_0000_0000_0000_0000;
        let q: u128 = top / d as u128;
        let sticky = top % d as u128 != 0;
        proof {
            lemma_fundamental_div_mod(top as int, d as int);
            let r = top % d as u128;
            assert(q <= top) by (nonlinear_arith)
                requires
                    top == d * q + r,
                    d >= 1,
                    r >= 0,
            ;
            if n > 0 {
                assert(q >= 0x200_0000) by (nonlinear_arith)
                    requires
                        top == d * q + r,
                        0 <= r < d,
                        d < 0x1_0000_0000,
                        top >= 0x1_0000_0000_0000_0000,
                ;
            }
        }
        let bits = round_quotient(q, sticky, 85, Ghost(top as nat), Ghost(d as nat));
        proof {
            lemma2_to64();
            lemma_pow2_adds(64, 85);
            assert(top * pow2(85) == n * pow2(149)) by (nonlinear_arith)
                requires
                    top == n * pow2(64),
                    pow2(149) == pow2(64) * pow2(85),
            ;
        }
        Single::with_sign(false, bits)
    }

    /// `self` is a number below the number `other`.
    #[verifier::opaque]
    pub open spec fn spec_below(self, other: Single) -> bool {
        !self.is_nan() && !other.is_nan() && self.value() < other.value()
    }

    /// `self < other`, which is false where one of them is not a number.
    #[verifier::when_used_as_spec(spec_below)]
    pub fn below(self, other: Single) -> (r: bool)
        ensures
            r == self.spec_below(other),
    {
        proof {
            reveal(Single::spec_below);
        }
        let a = self.unsigned_bits();
        let b = other.unsigned_bits();
        if a > INFINITY_BITS || b > INFINITY_BITS {
            return false;
        }
        proof {
            lemma_magnitude_parts(a as nat);
            lemma_magnitude_parts(b as nat);
            if a < b {
                lemma_magnitude_increases(a as nat, b as nat);
            }
            if b < a {
                lemma_magnitude_increases(b as nat, a as nat);
            }
        }
        let na = self.sign_is_set();
        let nb = other.sign_is_set();
        if na {
            if nb {
                b < a
            } else {
                a != 0 || b != 0
            }
        } else {
            !nb && a < b
        }
    }

    /// `self` and `other` are the same number; the two zeros are.
    #[verifier::opaque]
    pub open spec fn spec_equals(self, other: Single) -> bool {
        !self.is_nan() && !other.is_nan() && self.value() == other.value()
    }

    /// `self == other`, which is false where one of them is not a number.
    #[verifier::when_used_as_spec(spec_equals)]
    pub fn equals(self, other: Single) -> (r: bool)
        ensures
            r == self.spec_equals(other),
    {
        proof {
            reveal(Single::spec_equals);
            reveal(Single::spec_below);
        }
        if self.unsigned_bits() > INFINITY_BITS || other.unsigned_bits() > INFINITY_BITS {
            return false;
        }
        !self.below(other) && !other.below(self)
    }

    /// `self >= other`.
    #[verifier::opaque]
    pub open spec fn spec_at_least(self, other: Single) -> bool {
        !self.is_nan() && !other.is_nan() && self.value() >= other.value()
    }

    /// `self >= other`, which is false where one of them is not a number.
    #[verifier::when_used_as_spec(spec_at_least)]
    pub fn at_least(self, other: Single) -> (r: bool)
        ensures
            r == self.spec_at_least(other),
    {
        proof {
            reveal(Single::spec_at_least);
            reveal(Single::spec_below);
        }
        if self.unsigned_bits() > INFINITY_BITS || other.unsigned_bits() > INFINITY_BITS {
            return false;
        }
        !self.below(other)
    }

    /// The larger of `self` and zero.
    #[verifier::opaque]
    pub open spec fn spec_or_zero(self) -> Single {
        if !self.is_nan() && self.value() > 0 {
            self
        } else {
            Single { bits: 0 }
        }
    }

    /// The larger of `self` and zero; zero where `self` is not a number.
    #[verifier::when_used_as_spec(spec_or_zero)]
    pub fn or_zero(self) -> (r: Single)
        ensures
            r == self.spec_or_zero(),
    {
        proof {
            reveal(Single::spec_or_zero);
            reveal(Single::spec_below);
        }
        let zero = Single { bits: 0 };
        proof {
            lemma_magnitude_parts(0);
        }
        if zero.below(self) {
            self
        } else {
            zero
        }
    }

    /// `self`, moved into the range from zero to one.
    #[verifier::opaque]
    pub open spec fn spec_clamped(self) -> Single {
        if self.is_nan() {
            self
        } else if self.value() < 0 {
            Single { bits: 0 }
        } else if self.value() > one_in_units() {
            Single { bits: ONE_BITS }
        } else {
            self
        }
    }

    /// `self`, moved into the range from zero to one. What is not a number stays.
    #[verifier::when_used_as_spec(spec_clamped)]
    pub fn clamped(self) -> (r: Single)
        ensures
            r == self.spec_clamped(),
    {
        proof {
            reveal(Single::spec_clamped);
            reveal(Single::spec_below);
        }
        let zero = Single { bits: 0 };
        let one = Single { bits: ONE_BITS };
        proof {
            lemma_magnitude_parts(0);
            lemma_one();
        }
        if self.below(zero) {
            zero
        } else if one.below(self) {
            one
        } else {
            self
        }
    }

    /// The integer part of the size, and whether there is a rest. Sizes out of the
    /// range of `u64` give 2^64.
    fn integer_part(self) -> (r: (u128, bool))
        requires
            !self.is_nan(),
        ensures
            self.size() / one_in_units() < 0x1_0000_0000_0000_0000 ==> r.0 == self.size()
                / one_in_units() && r.1 == (self.size() % one_in_units() != 0),
            self.size() / one_in_units() >= 0x1_0000_0000_0000_0000 ==> r.0
                == 0x1_0000_0000_0000_0000,
    {
        let (m, x) = self.parts();
        let ghost u = one_in_units();
        let ghost px = pow2(x as nat);
        proof {
            lemma2_to64();
            lemma_pow2_pos(149);
            lemma_pow2_pos(x as nat);
        }
        if x >= 190 {
            proof {
                let p = pow2((x - 149) as nat);
                lemma_pow2_adds((x - 149) as nat, 149);
                lemma_pow2_adds(32, 9);
                if x > 190 {
                    lemma_pow2_strictly_increases(41, (x - 149) as nat);
                }
                assert(m * px == (m * p) * u) by (nonlinear_arith)
                    requires
                        px == p * u,
                ;
                lemma_fundamental_div_mod_converse(self.size() as int, u as int, (m * p) as int, 0);
                assert(m * p >= 0x80_0000 * 0x200_0000_0000) by (nonlinear_arith)
                    requires
                        m >= 0x80_0000,
                        p >= 0x200_0000_0000,
                ;
            }
            (0x1_0000_0000_0000_0000, false)
        } else if x >= 149 {
            let p = power_of_two(x - 149);
            proof {
                lemma_pow2_adds((x - 149) as nat, 149);
                lemma_pow2_adds(32, 8);
                if x - 149 < 40 {
                    lemma_pow2_strictly_increases((x - 149) as nat, 40);
                }
                assert(m * px == (m * p) * u) by (nonlinear_arith)
                    requires
                        px == p * u,
                ;
                lemma_fundamental_div_mod_converse(self.size() as int, u as int, (m * p) as int, 0);
                assert(m * p < 0x100_0000 * 0x100_0000_0000) by (nonlinear_arith)
                    requires
                        m < 0x100_0000,
                        0 < p <= 0x100_0000_0000,
                ;
            }
            (m as u128 * p, false)
        } else if x < 125 {
            proof {
                lemma_pow2_adds(24, x as nat);
                lemma_pow2_strictly_increases((24 + x) as nat, 149);
                assert(m * px < 0x100_0000 * px) by (nonlinear_arith)
                    requires
                        m < 0x100_0000,
                        px > 0,
                ;
                lemma_fundamental_div_mod_converse(
                    self.size() as int,
                    u as int,
                    0,
                    self.size() as int,
                );
                assert((m > 0) == (m * px > 0)) by (nonlinear_arith)
                    requires
                        px > 0,
                        m >= 0,
                ;
            }
            (0, m != 0)
        } else {
            let p = power_of_two(149 - x);
            let hi: u128 = m as u128 / p;
            let lo: u128 = m as u128 % p;
            proof {
                lemma_pow2_adds((149 - x) as nat, x as nat);
                lemma_fundamental_div_mod(m as int, p as int);
                assert(m * px == hi * u + lo * px) by (nonlinear_arith)
                    requires
                        m == p * hi + lo,
                        u == p * px,
                ;
                assert(0 <= lo * px < u && ((lo > 0) == (lo * px > 0))) by (nonlinear_arith)
                    requires
                        0 <= lo < p,
                        u == p * px,
                        px > 0,
                ;
                lemma_fundamental_div_mod_converse(
                    self.size() as int,
                    u as int,
                    hi as int,
                    (lo * px) as int,
                );
                assert(hi <= m) by (nonlinear_arith)
                    requires
                        m == p * hi + lo,
                        p >= 1,
                        lo >= 0,
                ;
            }
            (hi, lo != 0)
        }
    }

    /// The largest integer that is not above the number, in the range of `i32`.
    #[verifier::opaque]
    pub open spec fn spec_floor_to_i32(self) -> i32 {
        if self.is_nan() {
            0
        } else {
            let floor = self.value() / (one_in_units() as int);
            if floor < i32::MIN {
                i32::MIN
            } else if floor > i32::MAX {
                i32::MAX
            } else {
                floor as i32
            }
        }
    }

    /// The largest integer that is not above the number; the nearest `i32` where
    /// that is out of range, and zero where `self` is not a number.
    #[verifier::when_used_as_spec(spec_floor_to_i32)]
    pub fn floor_to_i32(self) -> (r: i32)
        ensures
            r == self.spec_floor_to_i32(),
    {
        proof {
            reveal(Single::spec_floor_to_i32);
        }
        if self.unsigned_bits() > INFINITY_BITS {
            return 0;
        }
        let (whole, rest) = self.integer_part();
        let ghost u = one_in_units() as int;
        proof {
            lemma_pow2_pos(149);
            lemma_fundamental_div_mod(self.size() as int, u);
        }
        let ghost q = self.size() as int / u;
        let ghost r = self.size() as int % u;
        if self.sign_is_set() {
            proof {
                if r == 0 {
                    assert(-(self.size() as int) == (-q) * u + 0) by (nonlinear_arith)
                        requires
                            self.size() as int == u * q + 0,
                    ;
                    lemma_fundamental_div_mod_converse(-(self.size() as int), u, -q, 0);
                } else {
                    assert(-(self.size() as int) == (-q - 1) * u + (u - r)) by (nonlinear_arith)
                        requires
                            self.size() as int == u * q + r,
                    ;
                    lemma_fundamental_div_mod_converse(-(self.size() as int), u, -q - 1, u - r);
                }
            }
            if whole > 0x8000_0000 {
                i32::MIN
            } else {
                let down: i64 = -(whole as i64) - (if rest {
                    1i64
                } else {
                    0i64
                });
                if down < -0x8000_0000i64 {
                    i32::MIN
                } else {
                    down as i32
                }
            }
        } else if whole > 0x7fff_ffff {
            i32::MAX
        } else {
            whole as i32
        }
    }

    /// The integer part of a number that is not negative, up to `max`.
    #[verifier::opaque]
    pub open spec fn truncated(self, max: nat) -> nat {
        if self.is_nan() || self.negative() {
            0
        } else if self.size() / one_in_units() > max {
            max
        } else {
            self.size() / one_in_units()
        }
    }

    /// The number without its fraction; the nearest `u32` where that is out of
    /// range, and zero where `self` is not a number.
    pub fn to_u32(self) -> (r: u32)
        ensures
            r == self.truncated(u32::MAX as nat),
    {
        proof {
            reveal(Single::truncated);
        }
        if self.unsigned_bits() > INFINITY_BITS || self.sign_is_set() {
            return 0;
        }
        let (whole, _) = self.integer_part();
        if whole > u32::MAX as u128 {
            u32::MAX
        } else {
            whole as u32
        }
    }

    /// The number without its fraction; the nearest `usize` where that is out of
    /// range, and zero where `self` is not a number.
    pub fn to_usize(self) -> (r: usize)
        ensures
            r == self.truncated(usize::MAX as nat),
    {
        proof {
            reveal(Single::truncated);
        }
        if self.unsigned_bits() > INFINITY_BITS || self.sign_is_set() {
            return 0;
        }
        let (whole, _) = self.integer_part();
        if whole > usize::MAX as u128 {
            usize::MAX
        } else {
            whole as usize
        }
    }

    /// The smallest integer that is not below the number.
    #[verifier::opaque]
    pub open spec fn spec_ceil(self) -> Single {
        let whole = self.size() / one_in_units();
        if !self.is_finite() || self.size() % one_in_units() == 0 {
            self
        } else {
            Single::rounded(
                self.negative(),
                (if self.negative() {
                    whole
                } else {
                    whole + 1
                }) * one_in_units(),
                1,
            )
        }
    }

    /// The smallest integer that is not below the number; it keeps the sign. What
    /// is not finite stays.
    #[verifier::when_used_as_spec(spec_ceil)]
    pub fn ceil(self) -> (r: Single)
        ensures
            r == self.spec_ceil(),
    {
        proof {
            reveal(Single::spec_ceil);
        }
        if self.unsigned_bits() >= INFINITY_BITS {
            return self;
        }
        let (whole, rest) = self.integer_part();
        proof {
            if self.size() % one_in_units() != 0 {
                lemma_large_is_whole(self.magnitude_bits());
            }
        }
        if whole == 0x1_0000_0000_0000_0000 || !rest {
            return self;
        }
        let negative = self.sign_is_set();
        let up: u128 = if negative {
            whole
        } else {
            whole + 1
        };
        let bits = round_quotient(up, false, 149, Ghost(up as nat), Ghost(1));
        Single::with_sign(negative, bits)
    }
}

} // verus!
